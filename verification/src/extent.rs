//! Extents: contiguous committed ranges of the arena, and the specification
//! of the allocator's first-fit placement over a sorted sequence of them.

use vstd::prelude::*;

verus! {

use crate::ARENA_SIZE;

/// A contiguous committed range `[start, end)` of the arena, owned by exactly
/// one buffer at a time. `slot` names the metadata slot that records the
/// range while it is live; a candidate not yet registered carries `None`.
#[derive(Clone, Copy, Debug)]
pub struct Extent {
    pub start: usize,
    pub end: usize,
    pub slot: Option<usize>,
}

impl Extent {
    /// The range is ordered and lies inside the arena.
    pub open spec fn wf(self) -> bool {
        self.start <= self.end <= ARENA_SIZE
    }

    /// Number of bytes the range spans.
    pub open spec fn size(self) -> int {
        self.end - self.start
    }

    /// The two ranges share no byte.
    pub open spec fn disjoint_from(self, other: Extent) -> bool {
        self.end <= other.start || other.end <= self.start
    }
}

/// The occupied extents, listed in ascending start order: every range is well
/// formed and any earlier range ends no later than a later one starts.
pub open spec fn chain_ok(s: Seq<Extent>) -> bool {
    &&& forall|j: int| 0 <= j < s.len() ==> (#[trigger] s[j]).wf()
    &&& forall|i: int, j: int|
        0 <= i < j < s.len() ==> (#[trigger] s[i]).end <= (#[trigger] s[j]).start
}

/// Start offset the first-fit search selects for a request of `size` bytes
/// over the occupied extents `s`: the end of the first extent whose gap to
/// its successor strictly exceeds `size`, or the end of the last extent, or
/// offset zero when nothing is occupied. The gap before the first extent is
/// never considered.
pub open spec fn first_fit_start(s: Seq<Extent>, size: int) -> int
    decreases s.len(),
{
    if s.len() == 0 {
        0
    } else if s.len() == 1 {
        s[0].end as int
    } else if s[1].start - s[0].end > size {
        s[0].end as int
    } else {
        first_fit_start(s.drop_first(), size)
    }
}

/// `e` can be spliced into `s` at position `pos`: every earlier extent starts
/// no later than `e`, every later one starts strictly after `e`.
pub open spec fn fits_between(s: Seq<Extent>, pos: int, e: Extent) -> bool {
    &&& 0 <= pos <= s.len()
    &&& forall|k: int| 0 <= k < pos ==> (#[trigger] s[k]).start <= e.start
    &&& forall|k: int| pos <= k < s.len() ==> e.start < (#[trigger] s[k]).start
}

/// `e` overlaps none of the extents of `s`: whatever starts no later than `e`
/// ends by `e.start`, and whatever starts after `e` starts at or past `e.end`.
pub open spec fn candidate_ok(s: Seq<Extent>, e: Extent) -> bool {
    &&& e.wf()
    &&& forall|k: int|
        0 <= k < s.len() && (#[trigger] s[k]).start <= e.start ==> s[k].end <= e.start
    &&& forall|k: int|
        0 <= k < s.len() && e.start < (#[trigger] s[k]).start ==> e.end <= s[k].start
}

/// Dropping the first extent of an ordered chain leaves an ordered chain.
pub proof fn lemma_chain_drop_first(s: Seq<Extent>)
    requires
        chain_ok(s),
        s.len() > 0,
    ensures
        chain_ok(s.drop_first()),
{
    let t = s.drop_first();
    assert forall|j: int| 0 <= j < t.len() implies (#[trigger] t[j]).wf() by {
        assert(t[j] == s[j + 1]);
    }
    assert forall|i: int, j: int| 0 <= i < j < t.len() implies (#[trigger] t[i]).end <= (
    #[trigger] t[j]).start by {
        assert(t[i] == s[i + 1]);
        assert(t[j] == s[j + 1]);
    }
}

/// The first-fit start is never below the end of the first occupied extent.
pub proof fn lemma_ffs_ge_first_end(s: Seq<Extent>, size: int)
    requires
        chain_ok(s),
        s.len() > 0,
    ensures
        first_fit_start(s, size) >= s[0].end,
    decreases s.len(),
{
    if s.len() == 1 {
    } else if s[1].start - s[0].end > size {
    } else {
        lemma_chain_drop_first(s);
        lemma_ffs_ge_first_end(s.drop_first(), size);
        assert(s.drop_first()[0] == s[1]);
    }
}

/// The range a first-fit placement commits overlaps no occupied extent:
/// whatever starts no later than the chosen offset ends by it, and whatever
/// starts after it leaves at least `size` bytes of room first.
pub proof fn lemma_ffs_fits(s: Seq<Extent>, size: int)
    requires
        chain_ok(s),
        size >= 0,
    ensures
        forall|k: int|
            0 <= k < s.len() && (#[trigger] s[k]).start <= first_fit_start(s, size)
                ==> s[k].end <= first_fit_start(s, size),
        forall|k: int|
            0 <= k < s.len() && (#[trigger] s[k]).start > first_fit_start(s, size)
                ==> first_fit_start(s, size) + size <= s[k].start,
    decreases s.len(),
{
    let st = first_fit_start(s, size);
    if s.len() == 0 {
    } else if s.len() == 1 {
        assert(st == s[0].end);
    } else if s[1].start - s[0].end > size {
        assert(st == s[0].end);
        assert forall|k: int| 0 <= k < s.len() && (#[trigger] s[k]).start > st implies st + size
            <= s[k].start by {
            if k >= 2 {
                assert(s[1].end <= s[k].start);
                assert(s[1].start <= s[1].end);
            }
        }
        assert forall|k: int| 0 <= k < s.len() && (#[trigger] s[k]).start <= st implies s[k].end
            <= st by {
            if k >= 1 {
                assert(s[1].start <= s[k].start || k == 1);
                if k >= 2 {
                    assert(s[1].end <= s[k].start);
                }
                assert(false);
            }
        }
    } else {
        let t = s.drop_first();
        lemma_chain_drop_first(s);
        lemma_ffs_fits(t, size);
        lemma_ffs_ge_first_end(t, size);
        assert(t[0] == s[1]);
        assert(st == first_fit_start(t, size));
        assert forall|k: int| 0 <= k < s.len() && (#[trigger] s[k]).start <= st implies s[k].end
            <= st by {
            if k == 0 {
                assert(s[0].end <= s[1].start);
                assert(s[1].start <= s[1].end);
                assert(s[1].end == t[0].end);
            } else {
                assert(t[k - 1] == s[k]);
            }
        }
        assert forall|k: int| 0 <= k < s.len() && (#[trigger] s[k]).start > st implies st + size
            <= s[k].start by {
            assert(k != 0) by {
                assert(s[0].start <= s[0].end);
                assert(s[0].end <= s[1].end);
            }
            assert(t[k - 1] == s[k]);
        }
    }
}

/// Advancing the first-fit scan past a position whose gap to the next extent
/// is too small does not change the chosen offset.
pub proof fn lemma_ffs_skip_step(s: Seq<Extent>, size: int, j: int)
    requires
        0 <= j,
        j + 1 < s.len(),
        s[j + 1].start - s[j].end <= size,
        first_fit_start(s, size) == first_fit_start(s.skip(j), size),
    ensures
        first_fit_start(s, size) == first_fit_start(s.skip(j + 1), size),
{
    let t = s.skip(j);
    assert(t.len() >= 2);
    assert(t[0] == s[j]);
    assert(t[1] == s[j + 1]);
    assert(first_fit_start(t, size) == first_fit_start(t.drop_first(), size));
    assert(t.drop_first() =~= s.skip(j + 1));
}

/// A first-fit scan that found no usable gap before position `j` chooses the
/// same offset whether it starts from the head or from `j`.
pub proof fn lemma_ffs_skip_zero(s: Seq<Extent>, size: int)
    ensures
        first_fit_start(s, size) == first_fit_start(s.skip(0), size),
{
    assert(s.skip(0) =~= s);
}

/// A first-fit scan that found no usable gap among the first `j` adjacent
/// pairs chooses the same offset whether it starts from the head or from
/// position `j`.
pub proof fn lemma_ffs_skip(s: Seq<Extent>, size: int, j: int)
    requires
        0 <= j < s.len(),
        forall|k: int| 0 <= k < j ==> (#[trigger] s[k]).end + size >= s[k + 1].start,
    ensures
        first_fit_start(s, size) == first_fit_start(s.skip(j), size),
    decreases j,
{
    if j == 0 {
        lemma_ffs_skip_zero(s, size);
    } else {
        lemma_ffs_skip(s, size, j - 1);
        lemma_ffs_skip_step(s, size, j - 1);
    }
}

/// Splicing a non-overlapping candidate into an ordered chain at its ordered
/// position leaves an ordered chain.
pub proof fn lemma_chain_insert(s: Seq<Extent>, pos: int, e: Extent)
    requires
        chain_ok(s),
        fits_between(s, pos, e),
        candidate_ok(s, e),
    ensures
        chain_ok(s.insert(pos, e)),
{
    let t = s.insert(pos, e);
    assert forall|j: int| 0 <= j < t.len() implies (#[trigger] t[j]).wf() by {
        if j < pos {
            assert(t[j] == s[j]);
        } else if j == pos {
            assert(t[j] == e);
        } else {
            assert(t[j] == s[j - 1]);
        }
    }
    assert forall|i: int, j: int| 0 <= i < j < t.len() implies (#[trigger] t[i]).end <= (
    #[trigger] t[j]).start by {
        if i < pos && j < pos {
            assert(t[i] == s[i] && t[j] == s[j]);
        } else if i < pos && j == pos {
            assert(t[i] == s[i] && t[j] == e);
            assert(s[i].start <= e.start);
        } else if i < pos && j > pos {
            assert(t[i] == s[i] && t[j] == s[j - 1]);
        } else if i == pos {
            assert(t[i] == e && t[j] == s[j - 1]);
            assert(e.start < s[j - 1].start);
        } else {
            assert(t[i] == s[i - 1] && t[j] == s[j - 1]);
        }
    }
}

/// Removing an extent from an ordered chain leaves an ordered chain.
pub proof fn lemma_chain_remove(s: Seq<Extent>, pos: int)
    requires
        chain_ok(s),
        0 <= pos < s.len(),
    ensures
        chain_ok(s.remove(pos)),
{
    let t = s.remove(pos);
    assert forall|j: int| 0 <= j < t.len() implies (#[trigger] t[j]).wf() by {
        if j < pos {
            assert(t[j] == s[j]);
        } else {
            assert(t[j] == s[j + 1]);
        }
    }
    assert forall|i: int, j: int| 0 <= i < j < t.len() implies (#[trigger] t[i]).end <= (
    #[trigger] t[j]).start by {
        if i < pos {
            assert(t[i] == s[i]);
        } else {
            assert(t[i] == s[i + 1]);
        }
        if j < pos {
            assert(t[j] == s[j]);
        } else {
            assert(t[j] == s[j + 1]);
        }
    }
}

} // verus!
