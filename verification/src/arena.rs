//! The arena: a fixed byte store, a fixed-capacity metadata pool of extent
//! descriptors, and the first-fit allocator that keeps the occupied extents
//! linked in ascending start order.

use vstd::prelude::*;

verus! {

use crate::ARENA_SIZE;
use crate::Error;
use crate::POOL_SLOTS;
use crate::extent::Extent;
use crate::extent::candidate_ok;
use crate::extent::chain_ok;
use crate::extent::first_fit_start;
use crate::extent::fits_between;
use crate::extent::lemma_ffs_fits;
use crate::extent::lemma_ffs_ge_first_end;
use crate::extent::lemma_ffs_skip_step;
use crate::extent::lemma_ffs_skip_zero;
use crate::extent::lemma_chain_insert;
use crate::extent::lemma_chain_remove;

/// The two slots agree on whether they are taken and, if so, on the extent
/// they record; the links between records are free to differ.
pub open spec fn same_occupant(a: Option<LinkedListItem>, b: Option<LinkedListItem>) -> bool {
    &&& a is Some <==> b is Some
    &&& a is Some ==> a->Some_0.content == b->Some_0.content
}

/// A metadata record: one occupied extent together with the links that place
/// it in the ordered extent list, and its own slot id.
#[derive(Clone, Copy, Debug)]
pub struct LinkedListItem {
    pub content: Extent,
    pub prev_id: Option<usize>,
    pub next_id: Option<usize>,
    pub id: usize,
}

impl LinkedListItem {
    /// Slot id of the record that follows this one in the extent list, if any.
    pub fn next(&self) -> (r: Option<usize>)
        ensures
            r == self.next_id,
    {
        self.next_id
    }
}

/// The arena: the byte store, the metadata pool, and the head of the extent
/// list. A `&mut` receiver serializes every allocator mutation.
pub struct Arena {
    pub bytes: Vec<u8>,
    pub slots: Vec<Option<LinkedListItem>>,
    pub head: Option<usize>,
    /// The occupied slot ids in list order; ghost bookkeeping for the links.
    pub order: Ghost<Seq<usize>>,
}

impl Arena {
    /// The occupied slot ids in ascending start order of their extents.
    pub open spec fn ord(self) -> Seq<usize> {
        self.order@
    }

    /// The record at list position `j`.
    pub open spec fn slot_at(self, j: int) -> LinkedListItem {
        self.slots@[self.ord()[j] as int]->Some_0
    }

    /// The occupied extents in ascending start order.
    pub open spec fn exts(self) -> Seq<Extent> {
        Seq::new(self.ord().len(), |j: int| self.slot_at(j).content)
    }

    /// Every metadata slot is taken: the hard ceiling on live buffers.
    pub open spec fn pool_full(self) -> bool {
        forall|i: int| 0 <= i < POOL_SLOTS ==> (#[trigger] self.slots@[i]) is Some
    }

    /// The allocator state the ensures of all other operations rely on:
    /// the store and the pool have their fixed sizes, the ghost order lists
    /// exactly the occupied slots once each, the prev/next links and the head
    /// mirror that order, and the extents form an ascending, non-overlapping
    /// chain inside the arena.
    pub open spec fn wf(self) -> bool {
        &&& self.bytes@.len() == ARENA_SIZE
        &&& self.slots@.len() == POOL_SLOTS
        &&& self.ord().no_duplicates()
        &&& forall|j: int| 0 <= j < self.ord().len() ==> (#[trigger] self.ord()[j]) < POOL_SLOTS
        &&& forall|i: int|
            0 <= i < POOL_SLOTS ==> ((#[trigger] self.slots@[i]) is Some <==> self.ord().contains(
                i as usize,
            ))
        &&& self.head == (if self.ord().len() == 0 {
            Option::<usize>::None
        } else {
            Option::<usize>::Some(self.ord()[0])
        })
        &&& forall|j: int| 0 <= j < self.ord().len() ==> (#[trigger] self.slot_at(j)).id
            == self.ord()[j]
        &&& forall|j: int|
            0 <= j < self.ord().len() ==> (#[trigger] self.slot_at(j)).prev_id == (if j == 0 {
                Option::<usize>::None
            } else {
                Option::<usize>::Some(self.ord()[j - 1])
            })
        &&& forall|j: int|
            0 <= j < self.ord().len() ==> (#[trigger] self.slot_at(j)).next_id == (if j + 1
                == self.ord().len() {
                Option::<usize>::None
            } else {
                Option::<usize>::Some(self.ord()[j + 1])
            })
        &&& chain_ok(self.exts())
    }

    /// A fresh arena: a zeroed byte store, an empty pool, an empty list.
    pub fn new() -> (r: Arena)
        ensures
            r.wf(),
            r.ord().len() == 0,
            forall|k: int| 0 <= k < ARENA_SIZE ==> r.bytes@[k] == 0u8,
            forall|i: int| 0 <= i < POOL_SLOTS ==> (#[trigger] r.slots@[i]) is None,
    {
        let mut bytes: Vec<u8> = Vec::new();
        while bytes.len() < ARENA_SIZE
            invariant
                bytes@.len() <= ARENA_SIZE,
                forall|k: int| 0 <= k < bytes@.len() ==> bytes@[k] == 0u8,
            decreases ARENA_SIZE - bytes@.len(),
        {
            bytes.push(0u8);
        }
        let mut slots: Vec<Option<LinkedListItem>> = Vec::new();
        while slots.len() < POOL_SLOTS
            invariant
                slots@.len() <= POOL_SLOTS,
                forall|i: int| 0 <= i < slots@.len() ==> (#[trigger] slots@[i]) is None,
            decreases POOL_SLOTS - slots@.len(),
        {
            slots.push(None);
        }
        let r = Arena { bytes, slots, head: None, order: Ghost(Seq::empty()) };
        proof {
            assert forall|i: int| 0 <= i < POOL_SLOTS implies ((#[trigger] r.slots@[i]) is Some
                <==> r.ord().contains(i as usize)) by {
                if r.ord().contains(i as usize) {
                    let j = choose|j: int| 0 <= j < r.ord().len() && r.ord()[j] == i as usize;
                    assert(false);
                }
            }
        }
        r
    }

    /// Writing arena bytes disturbs no allocator state: a state that differs
    /// from a well-formed one only in the byte store is well formed, with the
    /// same extents.
    pub proof fn lemma_wf_bytes_update(self, pre: Arena)
        requires
            pre.wf(),
            self.slots@ == pre.slots@,
            self.head == pre.head,
            self.ord() == pre.ord(),
            self.bytes@.len() == pre.bytes@.len(),
        ensures
            self.wf(),
            self.exts() == pre.exts(),
    {
        assert forall|j: int| 0 <= j < self.ord().len() implies #[trigger] self.slot_at(j)
            == pre.slot_at(j) by {}
        assert(self.exts() =~= pre.exts());
    }

    /// The record stored in an occupied slot.
    fn get_slot(&self, id: usize) -> (it: LinkedListItem)
        requires
            self.slots@.len() == POOL_SLOTS,
            id < POOL_SLOTS,
            self.slots@[id as int] is Some,
        ensures
            it == self.slots@[id as int]->Some_0,
    {
        self.slots[id].unwrap()
    }

    /// First-fit search: the candidate range for a request of `size` bytes,
    /// or `ResourceExhausted` when the placement would overrun the arena.
    pub fn find_space(&self, size: usize) -> (r: Result<Extent, Error>)
        requires
            self.wf(),
        ensures
            match r {
                Ok(e) => {
                    &&& e.start == first_fit_start(self.exts(), size as int)
                    &&& e.end == e.start + size
                    &&& e.end <= ARENA_SIZE
                    &&& e.slot is None
                },
                Err(err) => {
                    &&& err == Error::ResourceExhausted
                    &&& first_fit_start(self.exts(), size as int) + size > ARENA_SIZE
                },
            },
            r is Ok <==> first_fit_start(self.exts(), size as int) + size <= ARENA_SIZE,
    {
        let ghost s = self.exts();
        let start: usize;
        match self.head {
            None => {
                start = 0;
            },
            Some(h) => {
                let mut cur_id: usize = h;
                let ghost mut j: int = 0;
                proof {
                    lemma_ffs_skip_zero(s, size as int);
                }
                loop
                    invariant_except_break
                        self.wf(),
                        s == self.exts(),
                        0 <= j < s.len(),
                        cur_id == self.ord()[j],
                        first_fit_start(s, size as int) == first_fit_start(
                            s.skip(j),
                            size as int,
                        ),
                    ensures
                        0 <= j < s.len(),
                        cur_id == self.ord()[j],
                        first_fit_start(s, size as int) == s[j].end,
                    decreases s.len() - j,
                {
                    proof {
                        assert(self.ord().contains(cur_id)) by {
                            assert(self.ord()[j] == cur_id);
                        }
                        assert(self.slots@[cur_id as int] is Some);
                    }
                    let it = self.get_slot(cur_id);
                    proof {
                        assert(it == self.slot_at(j));
                        assert(it.content == s[j]);
                    }
                    match it.next_id {
                        None => {
                            proof {
                                assert(j == s.len() - 1);
                                let t = s.skip(j);
                                assert(t.len() == 1);
                                assert(t[0] == s[j]);
                            }
                            break ;
                        },
                        Some(nid) => {
                            proof {
                                assert(j + 1 < s.len());
                                assert(nid == self.ord()[j + 1]);
                                assert(self.ord().contains(nid)) by {
                                    assert(self.ord()[j + 1] == nid);
                                }
                            }
                            let nxt = self.get_slot(nid);
                            proof {
                                assert(nxt == self.slot_at(j + 1));
                                assert(nxt.content == s[j + 1]);
                                assert(s[j].end <= s[j + 1].start) by {
                                    assert(chain_ok(s));
                                }
                            }
                            if nxt.content.start - it.content.end > size {
                                proof {
                                    let t = s.skip(j);
                                    assert(t.len() >= 2);
                                    assert(t[0] == s[j]);
                                    assert(t[1] == s[j + 1]);
                                    assert(first_fit_start(t, size as int) == s[j].end);
                                }
                                break ;
                            }
                            proof {
                                lemma_ffs_skip_step(s, size as int, j);
                                j = j + 1;
                            }
                            cur_id = nid;
                        },
                    }
                }
                proof {
                    assert(self.ord().contains(cur_id)) by {
                        assert(self.ord()[j] == cur_id);
                    }
                    assert(chain_ok(s));
                    assert(s[j].wf());
                }
                let it = self.get_slot(cur_id);
                proof {
                    assert(it == self.slot_at(j));
                }
                start = it.content.end;
            },
        }
        if size > ARENA_SIZE || start > ARENA_SIZE - size {
            Err(Error::ResourceExhausted)
        } else {
            Ok(Extent { start, end: start + size, slot: None })
        }
    }
    /// After splicing a fresh record between list position `j` and its old
    /// successor, the arena is well formed again and its extent sequence is
    /// the old one with the candidate inserted right after position `j`.
    proof fn lemma_add_wf(self, pre: Arena, content: Extent, id: usize, j: int)
        requires
            pre.wf(),
            candidate_ok(pre.exts(), content),
            0 <= j < pre.ord().len(),
            forall|k: int| 0 <= k <= j ==> (#[trigger] pre.exts()[k]).start <= content.start,
            j + 1 < pre.ord().len() ==> pre.exts()[j + 1].start > content.start,
            id < POOL_SLOTS,
            pre.slots@[id as int] is None,
            self.bytes@ == pre.bytes@,
            self.head == pre.head,
            self.ord() == pre.ord().insert(j + 1, id),
            self.slots@.len() == POOL_SLOTS,
            self.slots@[id as int] == Some(
                LinkedListItem {
                    content,
                    prev_id: Some(pre.ord()[j]),
                    next_id: (if j + 1 == pre.ord().len() {
                        Option::<usize>::None
                    } else {
                        Option::<usize>::Some(pre.ord()[j + 1])
                    }),
                    id,
                },
            ),
            self.slots@[pre.ord()[j] as int] == Some(
                LinkedListItem {
                    content: pre.slot_at(j).content,
                    prev_id: pre.slot_at(j).prev_id,
                    next_id: Some(id),
                    id: pre.slot_at(j).id,
                },
            ),
            j + 1 < pre.ord().len() ==> self.slots@[pre.ord()[j + 1] as int] == Some(
                LinkedListItem {
                    content: pre.slot_at(j + 1).content,
                    prev_id: Some(id),
                    next_id: pre.slot_at(j + 1).next_id,
                    id: pre.slot_at(j + 1).id,
                },
            ),
            forall|i: int|
                0 <= i < POOL_SLOTS && i != id && i != pre.ord()[j] && (j + 1 == pre.ord().len()
                    || i != pre.ord()[j + 1]) ==> self.slots@[i] == pre.slots@[i],
        ensures
            self.wf(),
            fits_between(pre.exts(), j + 1, content),
            self.exts() == pre.exts().insert(j + 1, content),
            forall|i: int|
                0 <= i < POOL_SLOTS && i != id ==> same_occupant(
                    pre.slots@[i],
                    #[trigger] self.slots@[i],
                ),
    {
        let o = pre.ord();
        let oexts = pre.exts();
        let p = j + 1;
        let n = self.ord();
        let cur = o[j];
        o.insert_ensures(p, id);
        oexts.insert_ensures(p, content);
        assert(!o.contains(id));
        // where each slot id sits in the new order
        assert forall|a: int| 0 <= a < n.len() implies #[trigger] n[a] == (if a < p {
            o[a]
        } else if a == p {
            id
        } else {
            o[a - 1]
        }) by {
            if a > p {
                assert(n[(a - 1) + 1] == o[a - 1]);
            }
        }
        assert(fits_between(oexts, p, content)) by {
            assert forall|k: int| p <= k < oexts.len() implies content.start < (
            #[trigger] oexts[k]).start by {
                assert(oexts[p].start > content.start);
                if k > p {
                    assert(oexts[p].end <= oexts[k].start) by {
                        assert(chain_ok(oexts));
                    }
                    assert(oexts[p].start <= oexts[p].end) by {
                        assert(oexts[p].wf());
                    }
                }
            }
        }
        assert(n.no_duplicates()) by {
            assert forall|a: int, b: int|
                0 <= a < n.len() && 0 <= b < n.len() && a != b implies n[a] != n[b] by {
                if a == p {
                    assert(n[b] == (if b < p {
                        o[b]
                    } else {
                        o[b - 1]
                    }));
                    assert(o.contains(n[b]));
                } else if b == p {
                    assert(o.contains(n[a]));
                } else {
                    let a0 = if a < p {
                        a
                    } else {
                        a - 1
                    };
                    let b0 = if b < p {
                        b
                    } else {
                        b - 1
                    };
                    assert(n[a] == o[a0] && n[b] == o[b0]);
                    assert(a0 != b0);
                }
            }
        }
        // which slots changed, and how
        assert(self.slots@[id as int] is Some);
        assert forall|i: int| 0 <= i < POOL_SLOTS && i != id implies same_occupant(
            pre.slots@[i],
            #[trigger] self.slots@[i],
        ) by {
            if i == cur {
            } else if j + 1 < o.len() && i == o[j + 1] {
            } else {
                assert(self.slots@[i] == pre.slots@[i]);
            }
        }
        assert forall|i: int| 0 <= i < POOL_SLOTS implies ((#[trigger] self.slots@[i]) is Some
            <==> n.contains(i as usize)) by {
            if i == id {
                assert(n[p] == id);
            } else {
                assert(self.slots@[i] is Some <==> pre.slots@[i] is Some);
                if o.contains(i as usize) {
                    let w = choose|w: int| 0 <= w < o.len() && o[w] == i as usize;
                    if w < p {
                        assert(n[w] == i as usize);
                    } else {
                        assert(n[w + 1] == i as usize);
                    }
                    assert(n.contains(i as usize));
                }
                if n.contains(i as usize) {
                    let w = choose|w: int| 0 <= w < n.len() && n[w] == i as usize;
                    assert(w != p);
                    let w0 = if w < p {
                        w
                    } else {
                        w - 1
                    };
                    assert(o[w0] == i as usize);
                    assert(o.contains(i as usize));
                }
            }
        }
        // the record at each new list position
        assert forall|a: int| 0 <= a < n.len() implies #[trigger] self.slot_at(a) == (if a == p {
            self.slots@[id as int]->Some_0
        } else {
            let a0 = if a < p {
                a
            } else {
                a - 1
            };
            if a0 == j {
                self.slots@[cur as int]->Some_0
            } else if a0 == j + 1 {
                self.slots@[o[j + 1] as int]->Some_0
            } else {
                pre.slot_at(a0)
            }
        }) by {
            if a != p {
                let a0 = if a < p {
                    a
                } else {
                    a - 1
                };
                assert(n[a] == o[a0]);
                if a0 != j && a0 != j + 1 {
                    assert(o[a0] != id) by {
                        assert(o.contains(o[a0]));
                    }
                    assert(o[a0] != cur && (j + 1 < o.len() ==> o[a0] != o[j + 1])) by {
                        assert(o.no_duplicates());
                    }
                    assert(self.slots@[o[a0] as int] == pre.slots@[o[a0] as int]);
                }
            }
        }
        // links mirror the new order
        assert forall|a: int| 0 <= a < n.len() implies (#[trigger] self.slot_at(a)).id == n[a] by {
        }
        assert forall|a: int| 0 <= a < n.len() implies (#[trigger] self.slot_at(a)).prev_id == (if a
            == 0 {
            Option::<usize>::None
        } else {
            Option::<usize>::Some(n[a - 1])
        }) by {
            if a == p {
                assert(n[a - 1] == o[j]);
            } else if a == p + 1 {
                assert(n[a - 1] == id);
            } else if a < p {
                assert(a < o.len());
                assert(pre.slot_at(a).prev_id == (if a == 0 {
                    Option::<usize>::None
                } else {
                    Option::<usize>::Some(o[a - 1])
                }));
            } else {
                assert(self.slot_at(a) == pre.slot_at(a - 1));
                assert(n[a - 1] == o[a - 2]);
            }
        }
        assert forall|a: int| 0 <= a < n.len() implies (#[trigger] self.slot_at(a)).next_id == (if a
            + 1 == n.len() {
            Option::<usize>::None
        } else {
            Option::<usize>::Some(n[a + 1])
        }) by {
            if a == p {
                if j + 1 < o.len() {
                    assert(n[a + 1] == o[j + 1]);
                }
            } else if a == j {
                assert(n[a + 1] == id);
            } else if a < j {
                assert(pre.slot_at(a).next_id == Some(o[a + 1]));
                assert(n[a + 1] == o[a + 1]);
            } else {
                assert(self.slot_at(a) == (if a - 1 == j + 1 {
                    self.slots@[o[j + 1] as int]->Some_0
                } else {
                    pre.slot_at(a - 1)
                }));
                assert(self.slot_at(a).next_id == pre.slot_at(a - 1).next_id);
                if a + 1 < n.len() {
                    assert(n[a + 1] == o[a]);
                }
            }
        }
        // the new extent sequence is the old one with the candidate spliced in
        assert(self.exts() =~= oexts.insert(p, content)) by {
            assert forall|a: int| 0 <= a < n.len() implies #[trigger] self.exts()[a]
                == oexts.insert(p, content)[a] by {
                if a < p {
                    assert(oexts.insert(p, content)[a] == oexts[a]);
                    assert(self.slot_at(a).content == pre.slot_at(a).content);
                } else if a == p {
                    assert(oexts.insert(p, content)[a] == content);
                } else {
                    assert(oexts.insert(p, content)[(a - 1) + 1] == oexts[a - 1]);
                    assert(self.slot_at(a).content == pre.slot_at(a - 1).content);
                }
            }
        }
        assert(chain_ok(self.exts())) by {
            lemma_chain_insert(oexts, p, content);
        }
        assert(self.head == (if n.len() == 0 {
            Option::<usize>::None
        } else {
            Option::<usize>::Some(n[0])
        })) by {
            assert(n[0] == o[0]);
        }
        assert forall|a: int| 0 <= a < n.len() implies (#[trigger] n[a]) < POOL_SLOTS by {
            if a != p {
                let a0 = if a < p {
                    a
                } else {
                    a - 1
                };
                assert(o[a0] < POOL_SLOTS);
            }
        }
    }

    /// Register a candidate extent: take the first free metadata slot and
    /// splice the record into the list at the position that keeps ascending
    /// start order. `ResourceExhausted` when every slot is taken.
    pub fn add(&mut self, content: Extent) -> (r: Result<usize, Error>)
        requires
            old(self).wf(),
            content.slot is None,
            candidate_ok(old(self).exts(), content),
            old(self).exts().len() > 0 ==> content.start >= old(self).exts()[0].start,
        ensures
            final(self).wf(),
            final(self).bytes@ == old(self).bytes@,
            match r {
                Ok(id) => {
                    &&& id < POOL_SLOTS
                    &&& old(self).slots@[id as int] is None
                    &&& forall|i: int| 0 <= i < id ==> (#[trigger] old(self).slots@[i]) is Some
                    &&& final(self).slots@[id as int] matches Some(it) && it.content == content
                    &&& forall|i: int|
                        0 <= i < POOL_SLOTS && i != id ==> same_occupant(
                            old(self).slots@[i],
                            #[trigger] final(self).slots@[i],
                        )
                    &&& exists|pos: int|
                        fits_between(old(self).exts(), pos, content) && final(self).exts() == old(
                            self,
                        ).exts().insert(pos, content)
                },
                Err(err) => {
                    &&& err == Error::ResourceExhausted
                    &&& final(self).slots@ == old(self).slots@
                    &&& final(self).head == old(self).head
                    &&& final(self).ord() == old(self).ord()
                },
            },
            r is Err <==> old(self).pool_full(),
    {
        let ghost o = old(self).ord();
        let ghost oexts = old(self).exts();
        // linear scan for the first empty slot
        let mut id: usize = 0;
        let mut found: bool = false;
        while !found && id < POOL_SLOTS
            invariant
                id <= POOL_SLOTS,
                self.slots@.len() == POOL_SLOTS,
                forall|k: int| 0 <= k < id ==> (#[trigger] self.slots@[k]) is Some,
                found ==> id < POOL_SLOTS && self.slots@[id as int] is None,
            decreases (if found { 0int } else { 1int }), POOL_SLOTS - id,
        {
            if self.slots[id].is_none() {
                found = true;
            } else {
                id = id + 1;
            }
        }
        if !found {
            return Err(Error::ResourceExhausted);
        }
        assert(!old(self).pool_full());
        match self.head {
            None => {
                proof {
                    assert(o.len() == 0);
                }
                self.slots.set(
                    id,
                    Some(LinkedListItem { content, prev_id: None, next_id: None, id }),
                );
                self.head = Some(id);
                self.order = Ghost(Seq::empty().push(id));
                proof {
                    let n = self.ord();
                    assert forall|i: int| 0 <= i < POOL_SLOTS implies ((
                    #[trigger] self.slots@[i]) is Some <==> n.contains(i as usize)) by {
                        if i == id {
                            assert(n[0] == id);
                        } else {
                            assert(old(self).slots@[i] == self.slots@[i]);
                            if n.contains(i as usize) {
                                let w = choose|w: int| 0 <= w < n.len() && n[w] == i as usize;
                                assert(false);
                            }
                            if old(self).slots@[i] is Some {
                                assert(o.contains(i as usize));
                                let w = choose|w: int| 0 <= w < o.len() && o[w] == i as usize;
                                assert(false);
                            }
                        }
                    }
                    assert(self.exts() =~= oexts.insert(0, content));
                    assert(fits_between(oexts, 0, content));
                    assert(self.wf());
                }
                Ok(id)
            },
            Some(h) => {
                proof {
                    assert(o.len() > 0);
                }
                let ghost s = oexts;
                let mut cur_id: usize = h;
                let ghost mut j: int = 0;
                loop
                    invariant_except_break
                        self.wf(),
                        s == self.exts(),
                        0 <= j < s.len(),
                        cur_id == self.ord()[j],
                        forall|k: int| 0 <= k <= j ==> (#[trigger] s[k]).start <= content.start,
                    ensures
                        0 <= j < s.len(),
                        cur_id == self.ord()[j],
                        forall|k: int| 0 <= k <= j ==> (#[trigger] s[k]).start <= content.start,
                        j + 1 < s.len() ==> s[j + 1].start > content.start,
                    decreases s.len() - j,
                {
                    proof {
                        assert(self.ord().contains(cur_id)) by {
                            assert(self.ord()[j] == cur_id);
                        }
                    }
                    let it = self.get_slot(cur_id);
                    proof {
                        assert(it == self.slot_at(j));
                    }
                    match it.next_id {
                        None => {
                            proof {
                                assert(j == s.len() - 1);
                            }
                            break ;
                        },
                        Some(nid) => {
                            proof {
                                assert(j + 1 < s.len());
                                assert(nid == self.ord()[j + 1]);
                                assert(self.ord().contains(nid)) by {
                                    assert(self.ord()[j + 1] == nid);
                                }
                            }
                            let nxt = self.get_slot(nid);
                            proof {
                                assert(nxt == self.slot_at(j + 1));
                                assert(nxt.content == s[j + 1]);
                            }
                            if nxt.content.start > content.start {
                                break ;
                            }
                            proof {
                                j = j + 1;
                            }
                            cur_id = nid;
                        },
                    }
                }
                let ghost p = j + 1;
                proof {
                    assert(fits_between(oexts, p, content)) by {
                        assert forall|k: int| p <= k < oexts.len() implies content.start < (
                        #[trigger] oexts[k]).start by {
                            assert(oexts[j + 1].start > content.start);
                            if k > j + 1 {
                                assert(oexts[j + 1].end <= oexts[k].start) by {
                                    assert(chain_ok(oexts));
                                }
                                assert(oexts[j + 1].start <= oexts[j + 1].end) by {
                                    assert(oexts[j + 1].wf());
                                }
                            }
                        }
                    }
                    assert(self.ord().contains(cur_id)) by {
                        assert(self.ord()[j] == cur_id);
                    }
                    // the free slot is none of the occupied ones
                    assert(!o.contains(id));
                }
                let it = self.get_slot(cur_id);
                let nid_opt = it.next_id;
                proof {
                    assert(it == old(self).slot_at(j));
                    assert(nid_opt == (if j + 1 == o.len() {
                        Option::<usize>::None
                    } else {
                        Option::<usize>::Some(o[j + 1])
                    }));
                    assert(id != cur_id);
                }
                self.slots.set(
                    id,
                    Some(LinkedListItem { content, prev_id: Some(cur_id), next_id: nid_opt, id }),
                );
                let mut cur_it = it;
                cur_it.next_id = Some(id);
                self.slots.set(cur_id, Some(cur_it));
                match nid_opt {
                    None => {},
                    Some(nid) => {
                        proof {
                            assert(nid == o[j + 1]);
                            assert(nid != id);
                            assert(nid != cur_id) by {
                                assert(o.no_duplicates());
                            }
                            assert(self.slots@[nid as int] == old(self).slots@[nid as int]);
                            assert(old(self).slots@[nid as int] is Some) by {
                                assert(o.contains(nid)) by {
                                    assert(o[j + 1] == nid);
                                }
                            }
                        }
                        let mut nxt_it = self.get_slot(nid);
                        nxt_it.prev_id = Some(id);
                        self.slots.set(nid, Some(nxt_it));
                    },
                }
                self.order = Ghost(o.insert(p, id));
                proof {
                    self.lemma_add_wf(*old(self), content, id, j);
                }
                Ok(id)
            },
        }
    }

    /// After unlinking the record at list position `j` and clearing its slot,
    /// the arena is well formed again and its extent sequence is the old one
    /// with position `j` removed.
    proof fn lemma_free_wf(self, pre: Arena, id: usize, j: int)
        requires
            pre.wf(),
            id < POOL_SLOTS,
            0 <= j < pre.ord().len(),
            pre.ord()[j] == id,
            self.bytes@ == pre.bytes@,
            self.slots@.len() == POOL_SLOTS,
            self.ord() == pre.ord().remove(j),
            self.slots@[id as int] is None,
            self.head == (if j == 0 {
                if j + 1 == pre.ord().len() {
                    Option::<usize>::None
                } else {
                    Option::<usize>::Some(pre.ord()[j + 1])
                }
            } else {
                pre.head
            }),
            j > 0 ==> self.slots@[pre.ord()[j - 1] as int] == Some(
                LinkedListItem {
                    content: pre.slot_at(j - 1).content,
                    prev_id: pre.slot_at(j - 1).prev_id,
                    next_id: (if j + 1 == pre.ord().len() {
                        Option::<usize>::None
                    } else {
                        Option::<usize>::Some(pre.ord()[j + 1])
                    }),
                    id: pre.slot_at(j - 1).id,
                },
            ),
            j + 1 < pre.ord().len() ==> self.slots@[pre.ord()[j + 1] as int] == Some(
                LinkedListItem {
                    content: pre.slot_at(j + 1).content,
                    prev_id: (if j == 0 {
                        Option::<usize>::None
                    } else {
                        Option::<usize>::Some(pre.ord()[j - 1])
                    }),
                    next_id: pre.slot_at(j + 1).next_id,
                    id: pre.slot_at(j + 1).id,
                },
            ),
            forall|i: int|
                0 <= i < POOL_SLOTS && i != id && (j == 0 || i != pre.ord()[j - 1]) && (j + 1
                    == pre.ord().len() || i != pre.ord()[j + 1]) ==> self.slots@[i]
                    == pre.slots@[i],
        ensures
            self.wf(),
            self.exts() == pre.exts().remove(j),
            forall|i: int|
                0 <= i < POOL_SLOTS && i != id ==> same_occupant(
                    pre.slots@[i],
                    #[trigger] self.slots@[i],
                ),
    {
        let o = pre.ord();
        let oexts = pre.exts();
        let n = self.ord();
        o.remove_ensures(j);
        oexts.remove_ensures(j);
        // where each remaining slot id sits in the new order
        assert forall|a: int| 0 <= a < n.len() implies #[trigger] n[a] == (if a < j {
            o[a]
        } else {
            o[a + 1]
        }) by {
            if a >= j {
                assert(n[a] == o[a + 1]);
            }
        }
        assert(n.no_duplicates()) by {
            assert forall|a: int, b: int|
                0 <= a < n.len() && 0 <= b < n.len() && a != b implies n[a] != n[b] by {
                let a0 = if a < j {
                    a
                } else {
                    a + 1
                };
                let b0 = if b < j {
                    b
                } else {
                    b + 1
                };
                assert(n[a] == o[a0] && n[b] == o[b0]);
                assert(a0 != b0);
            }
        }
        assert forall|i: int| 0 <= i < POOL_SLOTS && i != id implies same_occupant(
            pre.slots@[i],
            #[trigger] self.slots@[i],
        ) by {
            if j > 0 && i == o[j - 1] {
            } else if j + 1 < o.len() && i == o[j + 1] {
            } else {
                assert(self.slots@[i] == pre.slots@[i]);
            }
        }
        assert(!n.contains(id)) by {
            if n.contains(id) {
                let w = choose|w: int| 0 <= w < n.len() && n[w] == id;
                let w0 = if w < j {
                    w
                } else {
                    w + 1
                };
                assert(o[w0] == id && o[j] == id && w0 != j);
                assert(o.no_duplicates());
            }
        }
        assert forall|i: int| 0 <= i < POOL_SLOTS implies ((#[trigger] self.slots@[i]) is Some
            <==> n.contains(i as usize)) by {
            if i == id {
            } else {
                assert(self.slots@[i] is Some <==> pre.slots@[i] is Some);
                if o.contains(i as usize) {
                    let w = choose|w: int| 0 <= w < o.len() && o[w] == i as usize;
                    assert(w != j);
                    if w < j {
                        assert(n[w] == i as usize);
                    } else {
                        assert(n[w - 1] == i as usize);
                    }
                    assert(n.contains(i as usize));
                }
                if n.contains(i as usize) {
                    let w = choose|w: int| 0 <= w < n.len() && n[w] == i as usize;
                    let w0 = if w < j {
                        w
                    } else {
                        w + 1
                    };
                    assert(o[w0] == i as usize);
                    assert(o.contains(i as usize));
                }
            }
        }
        // the record at each remaining list position
        assert forall|a: int| 0 <= a < n.len() implies #[trigger] self.slot_at(a) == (
        if j > 0 && a == j - 1 {
            self.slots@[o[j - 1] as int]->Some_0
        } else if a == j {
            self.slots@[o[j + 1] as int]->Some_0
        } else {
            let a0 = if a < j {
                a
            } else {
                a + 1
            };
            pre.slot_at(a0)
        }) by {
            let a0 = if a < j {
                a
            } else {
                a + 1
            };
            assert(n[a] == o[a0]);
            if !(j > 0 && a == j - 1) && a != j {
                assert(a0 != j && (j == 0 || a0 != j - 1) && a0 != j + 1);
                assert(o[a0] != id && (j == 0 || o[a0] != o[j - 1]) && (j + 1 == o.len() || o[a0]
                    != o[j + 1])) by {
                    assert(o.no_duplicates());
                }
                assert(self.slots@[o[a0] as int] == pre.slots@[o[a0] as int]);
            }
        }
        assert forall|a: int| 0 <= a < n.len() implies (#[trigger] self.slot_at(a)).id == n[a] by {
            if !(j > 0 && a == j - 1) && a != j {
            }
        }
        assert forall|a: int| 0 <= a < n.len() implies (#[trigger] self.slot_at(a)).prev_id == (if a
            == 0 {
            Option::<usize>::None
        } else {
            Option::<usize>::Some(n[a - 1])
        }) by {
            if j > 0 && a == j - 1 {
                if a > 0 {
                    assert(n[a - 1] == o[a - 1]);
                }
            } else if a == j {
                if a > 0 {
                    assert(n[a - 1] == o[j - 1]);
                }
            } else {
                let a0 = if a < j {
                    a
                } else {
                    a + 1
                };
                assert(self.slot_at(a) == pre.slot_at(a0));
                if a > 0 {
                    assert(n[a - 1] == (if a - 1 < j {
                        o[a - 1]
                    } else {
                        o[a]
                    }));
                    assert(pre.slot_at(a0).prev_id == Some(o[a0 - 1]));
                }
            }
        }
        assert forall|a: int| 0 <= a < n.len() implies (#[trigger] self.slot_at(a)).next_id == (if a
            + 1 == n.len() {
            Option::<usize>::None
        } else {
            Option::<usize>::Some(n[a + 1])
        }) by {
            if j > 0 && a == j - 1 {
                if a + 1 < n.len() {
                    assert(n[a + 1] == o[j + 1]);
                }
                assert(a + 1 == n.len() <==> j + 1 == o.len());
            } else if a == j {
                assert(pre.slot_at(j + 1).next_id == (if j + 2 == o.len() {
                    Option::<usize>::None
                } else {
                    Option::<usize>::Some(o[j + 2])
                }));
                if a + 1 < n.len() {
                    assert(n[a + 1] == o[j + 2]);
                }
            } else {
                let a0 = if a < j {
                    a
                } else {
                    a + 1
                };
                assert(self.slot_at(a) == pre.slot_at(a0));
                assert(pre.slot_at(a0).next_id == (if a0 + 1 == o.len() {
                    Option::<usize>::None
                } else {
                    Option::<usize>::Some(o[a0 + 1])
                }));
                if a + 1 < n.len() {
                    assert(n[a + 1] == (if a + 1 < j {
                        o[a + 1]
                    } else {
                        o[a + 2]
                    }));
                }
            }
        }
        assert(self.exts() =~= oexts.remove(j)) by {
            assert forall|a: int| 0 <= a < n.len() implies #[trigger] self.exts()[a]
                == oexts.remove(j)[a] by {
                let a0 = if a < j {
                    a
                } else {
                    a + 1
                };
                assert(self.slot_at(a).content == pre.slot_at(a0).content);
                if a < j {
                    assert(oexts.remove(j)[a] == oexts[a]);
                } else {
                    assert(oexts.remove(j)[a] == oexts[a + 1]);
                }
            }
        }
        assert(chain_ok(self.exts())) by {
            lemma_chain_remove(oexts, j);
        }
        assert(self.head == (if n.len() == 0 {
            Option::<usize>::None
        } else {
            Option::<usize>::Some(n[0])
        })) by {
            if j == 0 {
                if n.len() > 0 {
                    assert(n[0] == o[1]);
                }
            } else {
                assert(n[0] == o[0]);
            }
        }
        assert forall|a: int| 0 <= a < n.len() implies (#[trigger] n[a]) < POOL_SLOTS by {
            let a0 = if a < j {
                a
            } else {
                a + 1
            };
            assert(o[a0] < POOL_SLOTS);
        }
    }

    /// Release the extent recorded in slot `id`: unlink the record from the
    /// list and clear the slot. A slot that is already empty is left as it
    /// is.
    pub fn free(&mut self, id: usize)
        requires
            old(self).wf(),
            id < POOL_SLOTS,
        ensures
            final(self).wf(),
            final(self).bytes@ == old(self).bytes@,
            final(self).slots@[id as int] is None,
            forall|i: int|
                0 <= i < POOL_SLOTS && i != id ==> same_occupant(
                    old(self).slots@[i],
                    #[trigger] final(self).slots@[i],
                ),
            old(self).slots@[id as int] is None ==> (final(self).slots@ == old(self).slots@
                && final(self).head == old(self).head && final(self).ord() == old(self).ord()),
            old(self).slots@[id as int] is Some ==> exists|j: int|
                {
                    &&& 0 <= j < old(self).ord().len()
                    &&& old(self).ord()[j] == id
                    &&& old(self).exts()[j] == old(self).slots@[id as int]->Some_0.content
                    &&& final(self).ord() == old(self).ord().remove(j)
                    &&& final(self).exts() == old(self).exts().remove(j)
                },
    {
        let ghost o = old(self).ord();
        if self.slots[id].is_none() {
            return ;
        }
        proof {
            assert(o.contains(id));
        }
        let ghost j = choose|j: int| 0 <= j < o.len() && o[j] == id;
        let it = self.get_slot(id);
        proof {
            assert(it == old(self).slot_at(j));
        }
        match it.prev_id {
            None => {
                proof {
                    assert(j == 0);
                }
                self.head = it.next_id;
            },
            Some(pid) => {
                proof {
                    assert(j > 0);
                    assert(pid == o[j - 1]);
                    assert(pid != id) by {
                        assert(o.no_duplicates());
                    }
                    assert(o.contains(pid)) by {
                        assert(o[j - 1] == pid);
                    }
                }
                let mut p_it = self.get_slot(pid);
                p_it.next_id = it.next_id;
                self.slots.set(pid, Some(p_it));
            },
        }
        match it.next_id {
            None => {
                proof {
                    assert(j + 1 == o.len());
                }
            },
            Some(nid) => {
                proof {
                    assert(j + 1 < o.len());
                    assert(nid == o[j + 1]);
                    assert(nid != id && (j == 0 || nid != o[j - 1])) by {
                        assert(o.no_duplicates());
                    }
                    assert(o.contains(nid)) by {
                        assert(o[j + 1] == nid);
                    }
                    assert(self.slots@[nid as int] == old(self).slots@[nid as int]);
                }
                let mut n_it = self.get_slot(nid);
                n_it.prev_id = it.prev_id;
                self.slots.set(nid, Some(n_it));
            },
        }
        self.slots.set(id, None);
        self.order = Ghost(o.remove(j));
        proof {
            self.lemma_free_wf(*old(self), id, j);
        }
    }

    /// Allocate `size` bytes: first-fit search, then registration of the
    /// winning candidate. The returned extent carries its slot id, overlaps
    /// no live extent, and `ResourceExhausted` comes exactly when the pool is
    /// full or no placement fits inside the arena.
    pub fn allocate(&mut self, size: usize) -> (r: Result<Extent, Error>)
        requires
            old(self).wf(),
        ensures
            final(self).wf(),
            final(self).bytes@ == old(self).bytes@,
            match r {
                Ok(e) => {
                    &&& e.start == first_fit_start(old(self).exts(), size as int)
                    &&& e.end == e.start + size
                    &&& e.end <= ARENA_SIZE
                    &&& e.slot matches Some(id) && id < POOL_SLOTS && old(self).slots@[id as int]
                        is None && (final(self).slots@[id as int] matches Some(it) && it.content
                        == (Extent { start: e.start, end: e.end, slot: None }))
                    &&& forall|i: int|
                        0 <= i < e.slot->Some_0 ==> (#[trigger] old(self).slots@[i]) is Some
                    &&& forall|i: int|
                        0 <= i < POOL_SLOTS && i != e.slot->Some_0 ==> same_occupant(
                            old(self).slots@[i],
                            #[trigger] final(self).slots@[i],
                        )
                    &&& exists|pos: int|
                        fits_between(old(self).exts(), pos, (Extent {
                            start: e.start,
                            end: e.end,
                            slot: None,
                        })) && final(self).exts() == old(self).exts().insert(pos, (Extent {
                            start: e.start,
                            end: e.end,
                            slot: None,
                        }))
                    &&& forall|k: int|
                        0 <= k < old(self).exts().len() ==> (#[trigger] old(
                            self,
                        ).exts()[k]).disjoint_from(e)
                },
                Err(err) => {
                    &&& err == Error::ResourceExhausted
                    &&& final(self).slots@ == old(self).slots@
                    &&& final(self).head == old(self).head
                    &&& final(self).ord() == old(self).ord()
                },
            },
            r is Err <==> (old(self).pool_full() || first_fit_start(old(self).exts(), size as int)
                + size > ARENA_SIZE),
    {
        let cand = match self.find_space(size) {
            Ok(c) => c,
            Err(e) => {
                return Err(e);
            },
        };
        let ghost s = self.exts();
        proof {
            lemma_ffs_fits(s, size as int);
            if s.len() > 0 {
                lemma_ffs_ge_first_end(s, size as int);
                assert(s[0].wf());
            }
            assert(candidate_ok(s, cand));
        }
        match self.add(cand) {
            Ok(id) => {
                let e = Extent { start: cand.start, end: cand.end, slot: Some(id) };
                proof {
                    assert(cand == (Extent { start: e.start, end: e.end, slot: None }));
                    assert forall|k: int| 0 <= k < s.len() implies (
                    #[trigger] s[k]).disjoint_from(e) by {
                        if s[k].start <= cand.start {
                            assert(s[k].end <= cand.start);
                        } else {
                            assert(cand.end <= s[k].start);
                        }
                    }
                }
                Ok(e)
            },
            Err(e) => Err(e),
        }
    }

}

} // verus!
