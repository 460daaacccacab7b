//! The library's general laws, proved over the same spec functions and views
//! that the executable functions' contracts speak of.

use vstd::prelude::*;

verus! {

use crate::POOL_SLOTS;
use crate::arena::Arena;
use crate::extent::Extent;
use crate::extent::first_fit_start;
use crate::extent::lemma_ffs_skip;
use vstd::set_lib::lemma_len_subset;

/// Contents of a buffer after appending each byte of `appended`, in order,
/// to committed bytes `contents` — each in-capacity append extends the
/// contents by exactly its byte, as `push`'s contract states.
pub open spec fn after_appends(contents: Seq<u8>, appended: Seq<u8>) -> Seq<u8>
    decreases appended.len(),
{
    if appended.len() == 0 {
        contents
    } else {
        after_appends(contents.push(appended[0]), appended.drop_first())
    }
}

/// For any sequence of in-capacity appends, the buffer's contents equal the
/// bytes already committed followed by the appended bytes, in order.
pub proof fn lemma_appends_in_order(contents: Seq<u8>, appended: Seq<u8>)
    ensures
        after_appends(contents, appended) == contents + appended,
    decreases appended.len(),
{
    if appended.len() == 0 {
        assert(contents + appended =~= contents);
    } else {
        lemma_appends_in_order(contents.push(appended[0]), appended.drop_first());
        assert(contents.push(appended[0]) + appended.drop_first() =~= contents + appended);
    }
}

/// For any sequence of in-capacity appends to a buffer that starts empty,
/// the buffer's contents equal the appended sequence, in order.
pub proof fn lemma_appends_from_empty(appended: Seq<u8>)
    ensures
        after_appends(Seq::<u8>::empty(), appended) == appended,
{
    lemma_appends_in_order(Seq::<u8>::empty(), appended);
    assert(Seq::<u8>::empty() + appended =~= appended);
}

/// Removing the last committed byte undoes the append that committed it: on
/// the contents view, the byte handed back is the one most recently appended
/// at the now-vacated position, and what remains is the contents from before
/// that append.
pub proof fn lemma_remove_last_of_append(contents: Seq<u8>, item: u8)
    ensures
        contents.push(item).last() == item,
        contents.push(item).drop_last() == contents,
{
    assert(contents.push(item).drop_last() =~= contents);
}

/// A write followed by a read at the same index hands back the byte written:
/// on the contents view, updating index `i` and then indexing `i` gives the
/// written value.
pub proof fn lemma_write_then_read(contents: Seq<u8>, i: int, item: u8)
    requires
        0 <= i < contents.len(),
    ensures
        contents.update(i, item)[i] == item,
{
}

/// The slot ids strictly below `n`.
pub open spec fn ids_below(n: usize) -> Set<usize> {
    Set::new(|x: usize| x < n)
}

/// There are exactly `n` slot ids below `n`.
pub proof fn lemma_ids_below_card(n: usize)
    ensures
        ids_below(n).finite(),
        ids_below(n).len() == n,
    decreases n,
{
    if n == 0 {
        assert(ids_below(0) =~= Set::<usize>::empty());
    } else {
        lemma_ids_below_card((n - 1) as usize);
        assert(ids_below(n) =~= ids_below((n - 1) as usize).insert((n - 1) as usize));
    }
}

/// With the pool's full complement of extents simultaneously live, every
/// metadata slot is taken — so the next request fails with
/// `ResourceExhausted`, by the constructors' contracts.
pub proof fn lemma_full_pool(a: Arena)
    requires
        a.wf(),
        a.ord().len() == POOL_SLOTS,
    ensures
        a.pool_full(),
{
    let o = a.ord();
    o.unique_seq_to_set();
    lemma_ids_below_card(POOL_SLOTS);
    assert forall|i: int| 0 <= i < POOL_SLOTS implies (#[trigger] a.slots@[i]) is Some by {
        if !(a.slots@[i] is Some) {
            assert(!o.contains(i as usize));
            let t = ids_below(POOL_SLOTS).remove(i as usize);
            assert(o.to_set().subset_of(t)) by {
                assert forall|x: usize| o.to_set().contains(x) implies t.contains(x) by {
                    assert(o.contains(x));
                    let w = choose|w: int| 0 <= w < o.len() && o[w] == x;
                    assert(o[w] < POOL_SLOTS);
                }
            }
            lemma_len_subset(o.to_set(), t);
            assert(t.len() == POOL_SLOTS - 1);
            assert(false);
        }
    }
}

/// First-fit takes the earliest qualifying gap: when no gap among the first
/// `q` adjacent pairs of live extents can hold the request, and the gap
/// after position `q` strictly exceeds it, the chosen offset is exactly the
/// end of extent `q`. In particular, once destroying a buffer has removed
/// its extent from the list, the space it held between two live neighbours
/// is reused by the next request that the gap strictly exceeds.
pub proof fn lemma_first_fit_takes_earliest_gap(s: Seq<Extent>, size: int, q: int)
    requires
        0 <= q,
        q + 1 < s.len(),
        forall|k: int| 0 <= k < q ==> (#[trigger] s[k]).end + size >= s[k + 1].start,
        s[q + 1].start - s[q].end > size,
    ensures
        first_fit_start(s, size) == s[q].end,
{
    lemma_ffs_skip(s, size, q);
    let t = s.skip(q);
    assert(t.len() >= 2);
    assert(t[0] == s[q]);
    assert(t[1] == s[q + 1]);
}

/// When no gap between adjacent live extents can hold the request, the
/// first-fit walk falls back to placing it right after the last extent.
pub proof fn lemma_first_fit_tail_placement(s: Seq<Extent>, size: int)
    requires
        s.len() > 0,
        forall|k: int|
            0 <= k && k + 1 < s.len() ==> (#[trigger] s[k]).end + size >= s[k + 1].start,
    ensures
        first_fit_start(s, size) == s[s.len() - 1].end,
{
    lemma_ffs_skip(s, size, s.len() - 1);
    let t = s.skip(s.len() - 1);
    assert(t.len() == 1);
    assert(t[0] == s[s.len() - 1]);
}

/// A freed metadata slot leaves the pool short of full, so a later request
/// cannot fail for want of a slot: the slot a destroyed buffer held is
/// eligible for reuse.
pub proof fn lemma_freed_slot_reusable(a: Arena, id: usize)
    requires
        a.slots@.len() == POOL_SLOTS,
        id < POOL_SLOTS,
        a.slots@[id as int] is None,
    ensures
        !a.pool_full(),
{
}

} // verus!
