//! The growable byte buffer: the client-facing type. Each buffer owns one
//! extent of the arena for its whole lifetime and reads and writes arena
//! bytes only inside that extent, bounded by its logical length.

use vstd::prelude::*;

verus! {

use crate::ARENA_SIZE;
use crate::DEFAULT_CAPACITY;
use crate::Error;
use crate::POOL_SLOTS;
use crate::arena::Arena;
use crate::arena::same_occupant;
use crate::extent::Extent;
use crate::extent::first_fit_start;
use crate::extent::fits_between;

/// How growing reshapes the extent list: `post` is `pre` with the fresh
/// extent `nc` spliced in at its ordered position `pos`, and the released
/// extent `[old_start, old_end)` — at position `jj` of the spliced list —
/// removed.
pub open spec fn grown_extents(
    pre: Seq<Extent>,
    nc: Extent,
    old_start: usize,
    old_end: usize,
    post: Seq<Extent>,
    pos: int,
    jj: int,
) -> bool {
    &&& fits_between(pre, pos, nc)
    &&& 0 <= jj < pre.len() + 1
    &&& pre.insert(pos, nc)[jj].start == old_start
    &&& pre.insert(pos, nc)[jj].end == old_end
    &&& post == pre.insert(pos, nc).remove(jj)
}

/// A growable byte buffer: one extent of the arena and the logical length of
/// the bytes committed so far.
#[derive(Debug)]
pub struct Vec {
    pub extent: Extent,
    pub len: usize,
}

impl Vec {
    /// Fixed number of bytes the buffer's extent can hold.
    pub open spec fn capacity(self) -> int {
        self.extent.end - self.extent.start
    }

    /// The buffer is a live client of `a`: its extent carries a slot id, that
    /// slot records exactly this range, the range lies inside the arena, and
    /// the logical length fits the capacity.
    pub open spec fn valid_in(self, a: Arena) -> bool {
        &&& self.extent.slot is Some
        &&& self.extent.slot->Some_0 < POOL_SLOTS
        &&& a.slots@.len() == POOL_SLOTS
        &&& (a.slots@[self.extent.slot->Some_0 as int] matches Some(it) && it.content.start
            == self.extent.start && it.content.end == self.extent.end)
        &&& self.extent.start <= self.extent.end <= ARENA_SIZE
        &&& self.len <= self.capacity()
    }

    /// The committed bytes, in order: the first `len` bytes of the extent.
    pub open spec fn contents(self, a: Arena) -> Seq<u8> {
        a.bytes@.subrange(self.extent.start as int, self.extent.start + self.len)
    }

    /// Construct a buffer over an extent of the given capacity, allocated
    /// from `arena`. Fails with `ResourceExhausted` exactly when the pool is
    /// full or no placement of that size fits inside the arena; every buffer
    /// live before the call keeps its contents and is disjoint from the new
    /// one.
    pub fn with_capacity(arena: &mut Arena, capacity: usize) -> (r: Result<Vec, Error>)
        requires
            old(arena).wf(),
        ensures
            final(arena).wf(),
            final(arena).bytes@ == old(arena).bytes@,
            match r {
                Ok(b) => {
                    &&& b.valid_in(*final(arena))
                    &&& b.len == 0
                    &&& b.capacity() == capacity
                    &&& b.contents(*final(arena)) == Seq::<u8>::empty()
                    &&& b.extent.start == first_fit_start(old(arena).exts(), capacity as int)
                    &&& b.extent.slot is Some
                    &&& old(arena).slots@[b.extent.slot->Some_0 as int] is None
                    &&& forall|i: int|
                        0 <= i < b.extent.slot->Some_0 ==> (#[trigger] old(arena).slots@[i])
                            is Some
                    &&& forall|i: int|
                        0 <= i < POOL_SLOTS && i != b.extent.slot->Some_0 ==> same_occupant(
                            old(arena).slots@[i],
                            #[trigger] final(arena).slots@[i],
                        )
                    &&& exists|pos: int|
                        fits_between(old(arena).exts(), pos, (Extent {
                            start: b.extent.start,
                            end: b.extent.end,
                            slot: None,
                        })) && final(arena).exts() == old(arena).exts().insert(pos, (Extent {
                            start: b.extent.start,
                            end: b.extent.end,
                            slot: None,
                        }))
                    &&& forall|ob: Vec|
                        #[trigger] ob.valid_in(*old(arena)) ==> ob.valid_in(*final(arena))
                            && ob.contents(*final(arena)) == ob.contents(*old(arena))
                            && ob.extent.disjoint_from(b.extent)
                },
                Err(err) => {
                    &&& err == Error::ResourceExhausted
                    &&& final(arena).slots@ == old(arena).slots@
                    &&& final(arena).head == old(arena).head
                    &&& final(arena).ord() == old(arena).ord()
                },
            },
            r is Err <==> (old(arena).pool_full() || first_fit_start(
                old(arena).exts(),
                capacity as int,
            ) + capacity > ARENA_SIZE),
    {
        match arena.allocate(capacity) {
            Ok(e) => {
                let b = Vec { extent: e, len: 0 };
                proof {
                    let id = e.slot->Some_0;
                    assert forall|ob: Vec| #[trigger] ob.valid_in(*old(arena)) implies
                        ob.valid_in(*arena) && ob.contents(*arena) == ob.contents(*old(arena))
                            && ob.extent.disjoint_from(b.extent) by {
                        let oid = ob.extent.slot->Some_0;
                        assert(oid != id);
                        assert(same_occupant(old(arena).slots@[oid as int], arena.slots@[oid as int]));
                        assert(old(arena).ord().contains(oid as usize)) by {
                            assert(old(arena).wf());
                        }
                        let w = choose|w: int|
                            0 <= w < old(arena).ord().len() && old(arena).ord()[w] == oid as usize;
                        assert(old(arena).exts()[w] == old(arena).slots@[oid as int]->Some_0.content);
                        assert(old(arena).exts()[w].disjoint_from(e));
                    }
                }
                Ok(b)
            },
            Err(err) => Err(err),
        }
    }

    /// Construct a buffer with the default capacity.
    pub fn new(arena: &mut Arena) -> (r: Result<Vec, Error>)
        requires
            old(arena).wf(),
        ensures
            final(arena).wf(),
            final(arena).bytes@ == old(arena).bytes@,
            match r {
                Ok(b) => {
                    &&& b.valid_in(*final(arena))
                    &&& b.len == 0
                    &&& b.capacity() == DEFAULT_CAPACITY
                    &&& b.contents(*final(arena)) == Seq::<u8>::empty()
                    &&& b.extent.start == first_fit_start(
                        old(arena).exts(),
                        DEFAULT_CAPACITY as int,
                    )
                    &&& b.extent.slot is Some
                    &&& old(arena).slots@[b.extent.slot->Some_0 as int] is None
                    &&& forall|i: int|
                        0 <= i < b.extent.slot->Some_0 ==> (#[trigger] old(arena).slots@[i])
                            is Some
                    &&& forall|i: int|
                        0 <= i < POOL_SLOTS && i != b.extent.slot->Some_0 ==> same_occupant(
                            old(arena).slots@[i],
                            #[trigger] final(arena).slots@[i],
                        )
                    &&& exists|pos: int|
                        fits_between(old(arena).exts(), pos, (Extent {
                            start: b.extent.start,
                            end: b.extent.end,
                            slot: None,
                        })) && final(arena).exts() == old(arena).exts().insert(pos, (Extent {
                            start: b.extent.start,
                            end: b.extent.end,
                            slot: None,
                        }))
                    &&& forall|ob: Vec|
                        #[trigger] ob.valid_in(*old(arena)) ==> ob.valid_in(*final(arena))
                            && ob.contents(*final(arena)) == ob.contents(*old(arena))
                            && ob.extent.disjoint_from(b.extent)
                },
                Err(err) => {
                    &&& err == Error::ResourceExhausted
                    &&& final(arena).slots@ == old(arena).slots@
                    &&& final(arena).head == old(arena).head
                    &&& final(arena).ord() == old(arena).ord()
                },
            },
            r is Err <==> (old(arena).pool_full() || first_fit_start(
                old(arena).exts(),
                DEFAULT_CAPACITY as int,
            ) + DEFAULT_CAPACITY > ARENA_SIZE),
    {
        Vec::with_capacity(arena, DEFAULT_CAPACITY)
    }

    /// Append one byte at the end of the committed bytes. Fails with
    /// `CapacityExceeded` exactly when the buffer is at capacity; no byte
    /// outside the appended position changes, and every disjoint buffer
    /// keeps its contents.
    pub fn push(&mut self, arena: &mut Arena, item: u8) -> (r: Result<(), Error>)
        requires
            old(arena).wf(),
            old(self).valid_in(*old(arena)),
        ensures
            final(arena).wf(),
            final(self).valid_in(*final(arena)),
            final(self).extent == old(self).extent,
            final(arena).slots@ == old(arena).slots@,
            final(arena).head == old(arena).head,
            final(arena).ord() == old(arena).ord(),
            match r {
                Ok(_) => {
                    &&& old(self).len < old(self).capacity()
                    &&& final(self).len == old(self).len + 1
                    &&& final(self).contents(*final(arena)) == old(self).contents(
                        *old(arena),
                    ).push(item)
                    &&& forall|k: int|
                        0 <= k < ARENA_SIZE && k != old(self).extent.start + old(self).len
                            ==> final(arena).bytes@[k] == old(arena).bytes@[k]
                    &&& forall|ob: Vec|
                        #[trigger] ob.valid_in(*old(arena)) && ob.extent.disjoint_from(
                            old(self).extent,
                        ) ==> ob.contents(*final(arena)) == ob.contents(*old(arena))
                },
                Err(err) => {
                    &&& err == Error::CapacityExceeded
                    &&& old(self).len == old(self).capacity()
                    &&& final(self).len == old(self).len
                    &&& final(arena).bytes@ == old(arena).bytes@
                },
            },
            r is Ok <==> old(self).len < old(self).capacity(),
    {
        if self.len >= self.extent.end - self.extent.start {
            return Err(Error::CapacityExceeded);
        }
        let idx = self.extent.start + self.len;
        arena.bytes.set(idx, item);
        self.len = self.len + 1;
        proof {
            arena.lemma_wf_bytes_update(*old(arena));
            assert(self.contents(*arena) =~= old(self).contents(*old(arena)).push(item));
            assert forall|ob: Vec|
                #[trigger] ob.valid_in(*old(arena)) && ob.extent.disjoint_from(
                    old(self).extent,
                ) implies ob.contents(*arena) == ob.contents(*old(arena)) by {
                assert(ob.contents(*arena) =~= ob.contents(*old(arena)));
            }
        }
        Ok(())
    }

    /// Remove the most recently committed byte and return it; `None` on an
    /// empty buffer. The returned byte is the value last written at the
    /// position the call vacates.
    pub fn pop(&mut self, arena: &Arena) -> (r: Option<u8>)
        requires
            arena.wf(),
            old(self).valid_in(*arena),
        ensures
            final(self).valid_in(*arena),
            final(self).extent == old(self).extent,
            match r {
                Some(b) => {
                    &&& old(self).len > 0
                    &&& final(self).len == old(self).len - 1
                    &&& b == old(self).contents(*arena).last()
                    &&& final(self).contents(*arena) == old(self).contents(*arena).drop_last()
                },
                None => {
                    &&& old(self).len == 0
                    &&& final(self).len == 0
                },
            },
            r is Some <==> old(self).len > 0,
    {
        if self.len == 0 {
            return None;
        }
        self.len = self.len - 1;
        let b = arena.bytes[self.extent.start + self.len];
        proof {
            assert(self.contents(*arena) =~= old(self).contents(*arena).drop_last());
        }
        Some(b)
    }

    /// The committed byte at index `i`; `OutOfBounds` exactly when `i`
    /// reaches past the logical length.
    pub fn read(&self, arena: &Arena, i: usize) -> (r: Result<u8, Error>)
        requires
            arena.wf(),
            self.valid_in(*arena),
        ensures
            match r {
                Ok(b) => i < self.len && b == self.contents(*arena)[i as int],
                Err(err) => err == Error::OutOfBounds && i >= self.len,
            },
            r is Ok <==> i < self.len,
    {
        if i >= self.len {
            return Err(Error::OutOfBounds);
        }
        Ok(arena.bytes[self.extent.start + i])
    }

    /// Overwrite the committed byte at index `i`; `OutOfBounds` exactly when
    /// `i` reaches past the logical length. No byte outside that position
    /// changes, and every disjoint buffer keeps its contents.
    pub fn write(&self, arena: &mut Arena, i: usize, item: u8) -> (r: Result<(), Error>)
        requires
            old(arena).wf(),
            self.valid_in(*old(arena)),
        ensures
            final(arena).wf(),
            self.valid_in(*final(arena)),
            final(arena).slots@ == old(arena).slots@,
            final(arena).head == old(arena).head,
            final(arena).ord() == old(arena).ord(),
            match r {
                Ok(_) => {
                    &&& i < self.len
                    &&& self.contents(*final(arena)) == self.contents(*old(arena)).update(
                        i as int,
                        item,
                    )
                    &&& forall|k: int|
                        0 <= k < ARENA_SIZE && k != self.extent.start + i
                            ==> final(arena).bytes@[k] == old(arena).bytes@[k]
                    &&& forall|ob: Vec|
                        #[trigger] ob.valid_in(*old(arena)) && ob.extent.disjoint_from(self.extent)
                            ==> ob.contents(*final(arena)) == ob.contents(*old(arena))
                },
                Err(err) => {
                    &&& err == Error::OutOfBounds
                    &&& i >= self.len
                    &&& final(arena).bytes@ == old(arena).bytes@
                },
            },
            r is Ok <==> i < self.len,
    {
        if i >= self.len {
            return Err(Error::OutOfBounds);
        }
        arena.bytes.set(self.extent.start + i, item);
        proof {
            arena.lemma_wf_bytes_update(*old(arena));
            assert(self.contents(*arena) =~= self.contents(*old(arena)).update(i as int, item));
            assert forall|ob: Vec|
                #[trigger] ob.valid_in(*old(arena)) && ob.extent.disjoint_from(
                    self.extent,
                ) implies ob.contents(*arena) == ob.contents(*old(arena)) by {
                assert(ob.contents(*arena) =~= ob.contents(*old(arena)));
            }
        }
        Ok(())
    }

    /// Append every byte of `other` in order. All or nothing:
    /// `CapacityExceeded`, with no byte written, exactly when the whole run
    /// would not fit.
    pub fn extend_from_slice(&mut self, arena: &mut Arena, other: &[u8]) -> (r: Result<(), Error>)
        requires
            old(arena).wf(),
            old(self).valid_in(*old(arena)),
        ensures
            final(arena).wf(),
            final(self).valid_in(*final(arena)),
            final(self).extent == old(self).extent,
            final(arena).slots@ == old(arena).slots@,
            final(arena).head == old(arena).head,
            final(arena).ord() == old(arena).ord(),
            match r {
                Ok(_) => {
                    &&& old(self).len + other@.len() <= old(self).capacity()
                    &&& final(self).len == old(self).len + other@.len()
                    &&& final(self).contents(*final(arena)) == old(self).contents(*old(arena))
                        + other@
                    &&& forall|k: int|
                        0 <= k < ARENA_SIZE && !(old(self).extent.start + old(self).len <= k < old(
                            self,
                        ).extent.start + old(self).len + other@.len()) ==> final(arena).bytes@[k]
                            == old(arena).bytes@[k]
                    &&& forall|ob: Vec|
                        #[trigger] ob.valid_in(*old(arena)) && ob.extent.disjoint_from(
                            old(self).extent,
                        ) ==> ob.contents(*final(arena)) == ob.contents(*old(arena))
                },
                Err(err) => {
                    &&& err == Error::CapacityExceeded
                    &&& old(self).len + other@.len() > old(self).capacity()
                    &&& final(self).len == old(self).len
                    &&& final(arena).bytes@ == old(arena).bytes@
                },
            },
            r is Ok <==> old(self).len + other@.len() <= old(self).capacity(),
    {
        if other.len() > self.extent.end - self.extent.start - self.len {
            return Err(Error::CapacityExceeded);
        }
        let mut i: usize = 0;
        while i < other.len()
            invariant
                i <= other@.len(),
                arena.wf(),
                self.valid_in(*arena),
                self.extent == old(self).extent,
                self.len == old(self).len + i,
                old(self).len + other@.len() <= old(self).capacity(),
                arena.slots@ == old(arena).slots@,
                arena.head == old(arena).head,
                arena.ord() == old(arena).ord(),
                self.contents(*arena) == old(self).contents(*old(arena)) + other@.subrange(
                    0,
                    i as int,
                ),
                forall|k: int|
                    0 <= k < ARENA_SIZE && !(old(self).extent.start + old(self).len <= k < old(
                        self,
                    ).extent.start + old(self).len + i) ==> arena.bytes@[k] == old(
                        arena,
                    ).bytes@[k],
            decreases other@.len() - i,
        {
            let ghost pre_self = *self;
            let ghost pre_arena = *arena;
            let res = self.push(arena, other[i]);
            proof {
                assert(res is Ok);
                assert(self.contents(*arena) == pre_self.contents(pre_arena).push(other@[i as int]));
                assert(self.contents(*arena) =~= old(self).contents(*old(arena)) + other@.subrange(
                    0,
                    i + 1,
                ));
            }
            i = i + 1;
        }
        proof {
            assert(other@.subrange(0, other@.len() as int) =~= other@);
            assert forall|ob: Vec|
                #[trigger] ob.valid_in(*old(arena)) && ob.extent.disjoint_from(
                    old(self).extent,
                ) implies ob.contents(*arena) == ob.contents(*old(arena)) by {
                assert(ob.contents(*arena) =~= ob.contents(*old(arena)));
            }
        }
        Ok(())
    }

    /// A copy of the committed bytes, in order.
    pub fn as_slice(&self, arena: &Arena) -> (r: std::vec::Vec<u8>)
        requires
            arena.wf(),
            self.valid_in(*arena),
        ensures
            r@ == self.contents(*arena),
    {
        let mut out: std::vec::Vec<u8> = std::vec::Vec::new();
        let mut i: usize = 0;
        while i < self.len
            invariant
                i <= self.len,
                arena.wf(),
                self.valid_in(*arena),
                out@.len() == i,
                forall|k: int|
                    0 <= k < i ==> out@[k] == arena.bytes@[self.extent.start + k],
            decreases self.len - i,
        {
            out.push(arena.bytes[self.extent.start + i]);
            i = i + 1;
        }
        proof {
            assert(out@ =~= self.contents(*arena));
        }
        out
    }

    /// Number of committed bytes.
    pub fn len(&self) -> (r: usize)
        ensures
            r == self.len,
    {
        self.len
    }

    /// Whether no byte is committed.
    pub fn is_empty(&self) -> (r: bool)
        ensures
            r == (self.len == 0),
    {
        self.len == 0
    }

    /// Grow the buffer to a fresh extent of `new_capacity` bytes: allocate
    /// the new extent, copy the committed bytes over, and release the old
    /// extent. The supported response to `CapacityExceeded`. On
    /// `ResourceExhausted` — exactly when the pool is full or no placement of
    /// the new size fits — nothing changes. Every other live buffer keeps its
    /// slot and its contents either way.
    pub fn grow(&mut self, arena: &mut Arena, new_capacity: usize) -> (r: Result<(), Error>)
        requires
            old(arena).wf(),
            old(self).valid_in(*old(arena)),
            old(self).len <= new_capacity,
        ensures
            final(arena).wf(),
            final(arena).slots@.len() == POOL_SLOTS,
            match r {
                Ok(_) => {
                    &&& final(self).valid_in(*final(arena))
                    &&& final(self).len == old(self).len
                    &&& final(self).capacity() == new_capacity
                    &&& final(self).contents(*final(arena)) == old(self).contents(*old(arena))
                    &&& final(arena).slots@[old(self).extent.slot->Some_0 as int] is None
                    &&& final(self).extent.start == first_fit_start(
                        old(arena).exts(),
                        new_capacity as int,
                    )
                    &&& final(self).extent.slot is Some
                    &&& old(arena).slots@[final(self).extent.slot->Some_0 as int] is None
                    &&& forall|i: int|
                        0 <= i < final(self).extent.slot->Some_0 ==> (
                        #[trigger] old(arena).slots@[i]) is Some
                    &&& forall|i: int|
                        0 <= i < POOL_SLOTS && i != final(self).extent.slot->Some_0 && i != old(
                            self,
                        ).extent.slot->Some_0 ==> same_occupant(
                            old(arena).slots@[i],
                            #[trigger] final(arena).slots@[i],
                        )
                    &&& exists|pos: int, jj: int|
                        grown_extents(
                            old(arena).exts(),
                            (Extent {
                                start: final(self).extent.start,
                                end: final(self).extent.end,
                                slot: None,
                            }),
                            old(self).extent.start,
                            old(self).extent.end,
                            final(arena).exts(),
                            pos,
                            jj,
                        )
                },
                Err(err) => {
                    &&& err == Error::ResourceExhausted
                    &&& *final(self) == *old(self)
                    &&& final(arena).slots@ == old(arena).slots@
                    &&& final(arena).bytes@ == old(arena).bytes@
                    &&& final(arena).head == old(arena).head
                    &&& final(arena).ord() == old(arena).ord()
                },
            },
            r is Err <==> (old(arena).pool_full() || first_fit_start(
                old(arena).exts(),
                new_capacity as int,
            ) + new_capacity > ARENA_SIZE),
            forall|ob: Vec|
                #[trigger] ob.valid_in(*old(arena)) && ob.extent.slot != old(self).extent.slot
                    ==> ob.valid_in(*final(arena)) && ob.contents(*final(arena)) == ob.contents(
                    *old(arena),
                ),
    {
        let target = match arena.allocate(new_capacity) {
            Ok(e) => e,
            Err(err) => {
                return Err(err);
            },
        };
        let ghost mid = *arena;
        proof {
            // the source extent is among the live extents the new one avoids
            let oid = self.extent.slot->Some_0;
            assert(old(arena).ord().contains(oid as usize)) by {
                assert(old(arena).wf());
            }
            let w = choose|w: int|
                0 <= w < old(arena).ord().len() && old(arena).ord()[w] == oid as usize;
            assert(old(arena).exts()[w] == old(arena).slots@[oid as int]->Some_0.content);
            assert(old(arena).exts()[w].disjoint_from(target));
        }
        let mut i: usize = 0;
        while i < self.len
            invariant
                i <= self.len,
                arena.wf(),
                self.valid_in(*arena),
                *self == *old(self),
                self.len <= target.end - target.start,
                target.start <= target.end <= ARENA_SIZE,
                target.end <= self.extent.start || self.extent.end <= target.start,
                arena.slots@ == mid.slots@,
                arena.head == mid.head,
                arena.ord() == mid.ord(),
                forall|k: int|
                    0 <= k < ARENA_SIZE && !(target.start <= k < target.start + i)
                        ==> arena.bytes@[k] == mid.bytes@[k],
                forall|k: int|
                    0 <= k < i ==> arena.bytes@[target.start + k] == old(self).contents(
                        *old(arena),
                    )[k],
                mid.bytes@ == old(arena).bytes@,
                mid.bytes@.len() == ARENA_SIZE,
            decreases self.len - i,
        {
            let byte = arena.bytes[self.extent.start + i];
            let ghost pre = *arena;
            arena.bytes.set(target.start + i, byte);
            proof {
                arena.lemma_wf_bytes_update(pre);
            }
            i = i + 1;
        }
        let old_id = self.extent.slot.unwrap();
        proof {
            // the freshly taken slot is not the one being released
            assert(target.slot->Some_0 != old_id);
            arena.lemma_wf_bytes_update(mid);
        }
        let ghost mid2 = *arena;
        arena.free(old_id);
        self.extent = target;
        proof {
            let nc = (Extent { start: target.start, end: target.end, slot: None });
            let pos = choose|pos: int|
                fits_between(old(arena).exts(), pos, nc) && mid.exts() == old(
                    arena,
                ).exts().insert(pos, nc);
            let jj = choose|jj: int|
                {
                    &&& 0 <= jj < mid2.ord().len()
                    &&& mid2.ord()[jj] == old_id
                    &&& mid2.exts()[jj] == mid2.slots@[old_id as int]->Some_0.content
                    &&& arena.ord() == mid2.ord().remove(jj)
                    &&& arena.exts() == mid2.exts().remove(jj)
                };
            assert(mid2.exts() == mid.exts());
            assert(arena.exts() == old(arena).exts().insert(pos, nc).remove(jj));
            assert(same_occupant(
                old(arena).slots@[old_id as int],
                mid.slots@[old_id as int],
            ));
            assert(mid2.slots@[old_id as int] == mid.slots@[old_id as int]);
            assert(old(arena).exts().insert(pos, nc)[jj].start == old(self).extent.start);
            assert(old(arena).exts().insert(pos, nc)[jj].end == old(self).extent.end);
            assert(0 <= jj < old(arena).exts().len() + 1);
            assert(grown_extents(
                old(arena).exts(),
                nc,
                old(self).extent.start,
                old(self).extent.end,
                arena.exts(),
                pos,
                jj,
            ));
            assert forall|i: int|
                0 <= i < POOL_SLOTS && i != target.slot->Some_0 && i != old_id implies
                same_occupant(old(arena).slots@[i], #[trigger] arena.slots@[i]) by {
                assert(same_occupant(old(arena).slots@[i], mid.slots@[i]));
                assert(mid2.slots@[i] == mid.slots@[i]);
                assert(same_occupant(mid2.slots@[i], arena.slots@[i]));
            }
            assert(self.contents(*arena) =~= old(self).contents(*old(arena)));
            assert forall|ob: Vec|
                #[trigger] ob.valid_in(*old(arena)) && ob.extent.slot != old(self).extent.slot
                    implies ob.valid_in(*arena) && ob.contents(*arena) == ob.contents(
                *old(arena),
            ) by {
                let oid = ob.extent.slot->Some_0;
                assert(oid != old_id);
                assert(same_occupant(old(arena).slots@[oid as int], mid.slots@[oid as int]));
                assert(same_occupant(mid.slots@[oid as int], arena.slots@[oid as int]));
                assert(old(arena).ord().contains(oid as usize)) by {
                    assert(old(arena).wf());
                }
                let w = choose|w: int|
                    0 <= w < old(arena).ord().len() && old(arena).ord()[w] == oid as usize;
                assert(old(arena).exts()[w] == old(arena).slots@[oid as int]->Some_0.content);
                assert(old(arena).exts()[w].disjoint_from(target));
                assert(ob.contents(*arena) =~= ob.contents(*old(arena)));
            }
        }
        Ok(())
    }

    /// End of the buffer's lifetime: release the extent back to the
    /// allocator. The slot and the extent's space become free for a later
    /// allocation; every other live buffer keeps its slot and its contents.
    pub fn destroy(self, arena: &mut Arena)
        requires
            old(arena).wf(),
            self.valid_in(*old(arena)),
        ensures
            final(arena).wf(),
            final(arena).bytes@ == old(arena).bytes@,
            final(arena).slots@[self.extent.slot->Some_0 as int] is None,
            forall|i: int|
                0 <= i < POOL_SLOTS && i != self.extent.slot->Some_0 ==> same_occupant(
                    old(arena).slots@[i],
                    #[trigger] final(arena).slots@[i],
                ),
            exists|j: int|
                {
                    &&& 0 <= j < old(arena).ord().len()
                    &&& old(arena).ord()[j] == self.extent.slot->Some_0
                    &&& final(arena).ord() == old(arena).ord().remove(j)
                    &&& final(arena).exts() == old(arena).exts().remove(j)
                    &&& old(arena).exts()[j].start == self.extent.start
                    &&& old(arena).exts()[j].end == self.extent.end
                },
            forall|ob: Vec|
                #[trigger] ob.valid_in(*old(arena)) && ob.extent.slot != self.extent.slot
                    ==> ob.valid_in(*final(arena)) && ob.contents(*final(arena)) == ob.contents(
                    *old(arena),
                ),
    {
        let id = self.extent.slot.unwrap();
        arena.free(id);
        proof {
            assert forall|ob: Vec|
                #[trigger] ob.valid_in(*old(arena)) && ob.extent.slot != self.extent.slot implies
                ob.valid_in(*arena) && ob.contents(*arena) == ob.contents(*old(arena)) by {
                let oid = ob.extent.slot->Some_0;
                assert(oid != id);
                assert(same_occupant(old(arena).slots@[oid as int], arena.slots@[oid as int]));
            }
        }
    }
}

} // verus!
