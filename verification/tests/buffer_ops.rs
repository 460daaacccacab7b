use arena_buffer::arena::Arena;


#[test]
fn vec_push_pop() {
    let mut arena = Arena::new();
    let mut a = arena_buffer::buffer::Vec::with_capacity(&mut arena, 10).unwrap();
    a.extend_from_slice(&mut arena, &[102, 103, 104]).unwrap();
    a.write(&mut arena, 0, 100).unwrap();
    {
        let mut a = arena_buffer::buffer::Vec::with_capacity(&mut arena, 30).unwrap();
        a.extend_from_slice(&mut arena, &[41, 42, 43]).unwrap();
        a.write(&mut arena, 0, 55).unwrap();
        assert_eq!(a.as_slice(&arena), vec![55, 42, 43]);
        a.destroy(&mut arena);
    }
    assert_eq!(a.as_slice(&arena), vec![100, 103, 104]);

    let mut a = arena_buffer::buffer::Vec::new(&mut arena).unwrap();
    a.push(&mut arena, 41).unwrap();
    a.push(&mut arena, 42).unwrap();
    assert_eq!(a.as_slice(&arena), vec![41, 42]);

    let mut b = arena_buffer::buffer::Vec::new(&mut arena).unwrap();
    a.pop(&arena);
    assert_eq!(a.as_slice(&arena), vec![41]);
    b.push(&mut arena, 40).unwrap();
    a.push(&mut arena, 42).unwrap();
    a.push(&mut arena, 42).unwrap();
    assert_eq!(a.as_slice(&arena), vec![41, 42, 42]);
    assert_eq!(b.as_slice(&arena), vec![40]);
}

#[test]
fn vec_access_by_index() {
    let mut arena = Arena::new();
    let mut a = arena_buffer::buffer::Vec::new(&mut arena).unwrap();
    a.extend_from_slice(&mut arena, &[102, 103, 104]).unwrap();
    a.write(&mut arena, 0, 100).unwrap();
    assert_eq!(a.as_slice(&arena), vec![100, 103, 104])
}

#[test]
fn vec_access_sadsaby_index() {
    let mut arena = Arena::new();
    let mut a = arena_buffer::buffer::Vec::new(&mut arena).unwrap();
    a.extend_from_slice(&mut arena, &[102, 103, 104]).unwrap();
    a.write(&mut arena, 0, 100).unwrap();
    assert_eq!(a.as_slice(&arena), vec![100, 103, 104])
}

#[test]
fn vec_access_by_indaddex() {
    let mut arena = Arena::new();
    let mut a = arena_buffer::buffer::Vec::new(&mut arena).unwrap();
    a.extend_from_slice(&mut arena, &[102, 103, 104]).unwrap();
    a.write(&mut arena, 0, 100).unwrap();
    assert_eq!(a.as_slice(&arena), vec![100, 103, 104])
}

#[test]
fn vec_access_by_indeasdaddasdx() {
    let mut arena = Arena::new();
    let mut a = arena_buffer::buffer::Vec::new(&mut arena).unwrap();
    a.extend_from_slice(&mut arena, &[102, 103, 104]).unwrap();
    a.write(&mut arena, 0, 100).unwrap();
    assert_eq!(a.as_slice(&arena), vec![100, 103, 104])
}

#[test]
fn vec_access_by_indadjaskjdkex() {
    let mut arena = Arena::new();
    let mut a = arena_buffer::buffer::Vec::new(&mut arena).unwrap();
    a.extend_from_slice(&mut arena, &[102, 103, 104]).unwrap();
    a.write(&mut arena, 0, 100).unwrap();
    assert_eq!(a.as_slice(&arena), vec![100, 103, 104])
}
