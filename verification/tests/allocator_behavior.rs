use arena_buffer::arena::Arena;

use arena_buffer::Error;
use arena_buffer::ARENA_SIZE;
use arena_buffer::POOL_SLOTS;

#[test]
fn appends_keep_order() {
    let mut arena = Arena::new();
    let mut a = arena_buffer::buffer::Vec::with_capacity(&mut arena, 10).unwrap();
    a.extend_from_slice(&mut arena, &[102, 103, 104]).unwrap();
    a.write(&mut arena, 0, 100).unwrap();
    assert_eq!(a.as_slice(&arena), vec![100, 103, 104]);
}

#[test]
fn remove_last_returns_latest_append() {
    let mut arena = Arena::new();
    let mut a = arena_buffer::buffer::Vec::new(&mut arena).unwrap();
    a.push(&mut arena, 41).unwrap();
    a.push(&mut arena, 42).unwrap();
    assert_eq!(a.pop(&arena), Some(42));
    assert_eq!(a.as_slice(&arena), vec![41]);
    assert_eq!(a.pop(&arena), Some(41));
    assert_eq!(a.pop(&arena), None);
    assert!(a.is_empty());
}

#[test]
fn back_to_back_buffers_are_adjacent_and_disjoint() {
    let mut arena = Arena::new();
    let first = arena_buffer::buffer::Vec::new(&mut arena).unwrap();
    let second = arena_buffer::buffer::Vec::new(&mut arena).unwrap();
    // tail placement: no gap existed, so the second starts where the first ends
    assert_eq!(second.extent.start, first.extent.end);
    assert!(first.extent.end <= second.extent.start || second.extent.end <= first.extent.start);
}

#[test]
fn freed_region_is_reused_when_gap_strictly_exceeds_request() {
    let mut arena = Arena::new();
    let a = arena_buffer::buffer::Vec::with_capacity(&mut arena, 10).unwrap();
    let b = arena_buffer::buffer::Vec::with_capacity(&mut arena, 30).unwrap();
    let c = arena_buffer::buffer::Vec::with_capacity(&mut arena, 5).unwrap();
    assert_eq!(b.extent.start, 10);
    assert_eq!(c.extent.start, 40);
    // free the middle extent: a gap of 30 bytes opens between a and c
    b.destroy(&mut arena);
    // 20 < 30: the freed region is reused
    let d = arena_buffer::buffer::Vec::with_capacity(&mut arena, 20).unwrap();
    assert_eq!(d.extent.start, 10);
    assert_eq!(d.extent.end, 30);
    d.destroy(&mut arena);
    // an exact fit of 30 is rejected by the strict gap test: tail placement
    let e = arena_buffer::buffer::Vec::with_capacity(&mut arena, 30).unwrap();
    assert_eq!(e.extent.start, c.extent.end);
    e.destroy(&mut arena);
    // a gap of 30 does accept a request of 29
    let f = arena_buffer::buffer::Vec::with_capacity(&mut arena, 29).unwrap();
    assert_eq!(f.extent.start, 10);
    f.destroy(&mut arena);
    c.destroy(&mut arena);
    a.destroy(&mut arena);
}

#[test]
fn gap_before_head_falls_back_to_tail() {
    let mut arena = Arena::new();
    let a = arena_buffer::buffer::Vec::with_capacity(&mut arena, 10).unwrap();
    let b = arena_buffer::buffer::Vec::with_capacity(&mut arena, 30).unwrap();
    // the space of the first extent is freed, but the first-fit walk only
    // looks at gaps between neighbours, so placement falls back to the tail
    a.destroy(&mut arena);
    let c = arena_buffer::buffer::Vec::with_capacity(&mut arena, 5).unwrap();
    assert_eq!(c.extent.start, b.extent.end);
    c.destroy(&mut arena);
    b.destroy(&mut arena);
}

#[test]
fn destroyed_slot_is_reused() {
    let mut arena = Arena::new();
    let a = arena_buffer::buffer::Vec::with_capacity(&mut arena, 10).unwrap();
    let slot = a.extent.slot;
    a.destroy(&mut arena);
    let b = arena_buffer::buffer::Vec::with_capacity(&mut arena, 10).unwrap();
    // the first empty slot is taken again
    assert_eq!(b.extent.slot, slot);
    b.destroy(&mut arena);
}

#[test]
fn write_then_read_round_trip_and_bounds() {
    let mut arena = Arena::new();
    let mut a = arena_buffer::buffer::Vec::new(&mut arena).unwrap();
    a.extend_from_slice(&mut arena, &[1, 2, 3]).unwrap();
    a.write(&mut arena, 1, 99).unwrap();
    assert_eq!(a.read(&arena, 1), Ok(99));
    assert_eq!(a.read(&arena, 0), Ok(1));
    // an index equal to the logical length is out of bounds
    assert_eq!(a.read(&arena, 3), Err(Error::OutOfBounds));
    assert_eq!(a.write(&mut arena, 3, 7), Err(Error::OutOfBounds));
    assert_eq!(a.as_slice(&arena), vec![1, 99, 3]);
}

#[test]
fn read_and_write_on_empty_buffer_are_out_of_bounds() {
    let mut arena = Arena::new();
    let a = arena_buffer::buffer::Vec::new(&mut arena).unwrap();
    assert_eq!(a.read(&arena, 0), Err(Error::OutOfBounds));
    assert_eq!(a.write(&mut arena, 0, 1), Err(Error::OutOfBounds));
}

#[test]
fn pool_exhaustion_on_the_101st_live_buffer() {
    let mut arena = Arena::new();
    let mut live = Vec::new();
    for _ in 0..POOL_SLOTS {
        live.push(arena_buffer::buffer::Vec::with_capacity(&mut arena, 10).unwrap());
    }
    // every metadata slot is now taken
    assert!(matches!(
        arena_buffer::buffer::Vec::with_capacity(&mut arena, 10),
        Err(Error::ResourceExhausted)
    ));
    // freeing one buffer makes its slot available again
    let freed = live.pop().unwrap();
    freed.destroy(&mut arena);
    let again = arena_buffer::buffer::Vec::with_capacity(&mut arena, 10).unwrap();
    again.destroy(&mut arena);
}

#[test]
fn arena_bound_exhaustion() {
    let mut arena = Arena::new();
    assert!(matches!(
        arena_buffer::buffer::Vec::with_capacity(&mut arena, ARENA_SIZE + 1),
        Err(Error::ResourceExhausted)
    ));
    let whole = arena_buffer::buffer::Vec::with_capacity(&mut arena, ARENA_SIZE).unwrap();
    assert!(matches!(
        arena_buffer::buffer::Vec::with_capacity(&mut arena, 1),
        Err(Error::ResourceExhausted)
    ));
    // destroying the buffer releases the committed space
    whole.destroy(&mut arena);
    let small = arena_buffer::buffer::Vec::with_capacity(&mut arena, 1).unwrap();
    assert_eq!(small.extent.start, 0);
    small.destroy(&mut arena);
}

#[test]
fn capacity_exceeded_is_reported_and_harmless() {
    let mut arena = Arena::new();
    let mut a = arena_buffer::buffer::Vec::with_capacity(&mut arena, 2).unwrap();
    a.push(&mut arena, 1).unwrap();
    a.push(&mut arena, 2).unwrap();
    assert_eq!(a.push(&mut arena, 3), Err(Error::CapacityExceeded));
    assert_eq!(a.as_slice(&arena), vec![1, 2]);
    let mut b = arena_buffer::buffer::Vec::with_capacity(&mut arena, 4).unwrap();
    b.push(&mut arena, 9).unwrap();
    // all or nothing: nothing of the run is written
    assert_eq!(
        b.extend_from_slice(&mut arena, &[1, 2, 3, 4]),
        Err(Error::CapacityExceeded)
    );
    assert_eq!(b.as_slice(&arena), vec![9]);
}

#[test]
fn length_accessors() {
    let mut arena = Arena::new();
    let mut a = arena_buffer::buffer::Vec::with_capacity(&mut arena, 3).unwrap();
    assert_eq!(a.len(), 0);
    assert!(a.is_empty());
    a.push(&mut arena, 7).unwrap();
    assert_eq!(a.len(), 1);
    assert!(!a.is_empty());
}

#[test]
fn zero_capacity_buffer() {
    let mut arena = Arena::new();
    let mut a = arena_buffer::buffer::Vec::with_capacity(&mut arena, 0).unwrap();
    assert!(a.is_empty());
    assert_eq!(a.push(&mut arena, 1), Err(Error::CapacityExceeded));
    assert_eq!(a.as_slice(&arena), Vec::<u8>::new());
}

#[test]
fn disjoint_buffers_do_not_disturb_each_other() {
    let mut arena = Arena::new();
    let mut a = arena_buffer::buffer::Vec::with_capacity(&mut arena, 4).unwrap();
    let mut b = arena_buffer::buffer::Vec::with_capacity(&mut arena, 4).unwrap();
    a.extend_from_slice(&mut arena, &[1, 2, 3, 4]).unwrap();
    b.extend_from_slice(&mut arena, &[5, 6, 7, 8]).unwrap();
    a.write(&mut arena, 0, 11).unwrap();
    b.write(&mut arena, 3, 44).unwrap();
    assert_eq!(a.as_slice(&arena), vec![11, 2, 3, 4]);
    assert_eq!(b.as_slice(&arena), vec![5, 6, 7, 44]);
}

#[test]
fn grow_copies_contents_and_frees_the_old_extent() {
    let mut arena = Arena::new();
    let mut a = arena_buffer::buffer::Vec::with_capacity(&mut arena, 2).unwrap();
    a.push(&mut arena, 1).unwrap();
    a.push(&mut arena, 2).unwrap();
    assert_eq!(a.push(&mut arena, 3), Err(Error::CapacityExceeded));
    let old_slot = a.extent.slot;
    a.grow(&mut arena, 4).unwrap();
    assert_ne!(a.extent.slot, old_slot);
    assert_eq!(a.as_slice(&arena), vec![1, 2]);
    a.push(&mut arena, 3).unwrap();
    assert_eq!(a.as_slice(&arena), vec![1, 2, 3]);
    // the old slot is free again: the next buffer takes it
    let b = arena_buffer::buffer::Vec::with_capacity(&mut arena, 2).unwrap();
    assert_eq!(b.extent.slot, old_slot);
}

#[test]
fn grow_fails_whole_when_nothing_fits() {
    let mut arena = Arena::new();
    let mut a = arena_buffer::buffer::Vec::with_capacity(&mut arena, 2).unwrap();
    a.push(&mut arena, 5).unwrap();
    assert_eq!(a.grow(&mut arena, ARENA_SIZE), Err(Error::ResourceExhausted));
    // nothing changed: the buffer still lives in its old extent
    assert_eq!(a.as_slice(&arena), vec![5]);
    a.grow(&mut arena, 3).unwrap();
    assert_eq!(a.as_slice(&arena), vec![5]);
}
