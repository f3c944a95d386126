use vstd::prelude::*;

use crate::list::{geq, leq, geq_rises, sorted, sorted_insertion, spliced, total_order};

verus! {

/// Splitting a sequence at any index and concatenating the two parts gives
/// the sequence back (what `Node::split_at` and `Node::merge` return).
pub proof fn lemma_split_then_merge<T>(s: Seq<T>, k: int)
    requires
        0 <= k <= s.len(),
    ensures
        s.subrange(0, k) + s.subrange(k, s.len() as int) == s,
{
    assert(s.subrange(0, k) + s.subrange(k, s.len() as int) =~= s);
}

/// Appending adds the lengths; splitting off at `k` leaves `k` elements and
/// hands out the other `len - k`.
pub proof fn lemma_length_additivity<T>(a: Seq<T>, b: Seq<T>, s: Seq<T>, k: int)
    requires
        0 <= k <= s.len(),
    ensures
        (a + b).len() == a.len() + b.len(),
        s.subrange(0, k).len() == k,
        s.subrange(k, s.len() as int).len() == s.len() - k,
{
}

/// Walking a list in order meets, after `i` steps, the element at index `i`.
pub proof fn lemma_walk_meets_index<T>(s: Seq<T>, i: int)
    requires
        0 <= i < s.len(),
    ensures
        s.subrange(i, s.len() as int)[0] == s[i],
        s.subrange(i, s.len() as int).drop_first() == s.subrange(i + 1, s.len() as int),
{
    assert(s.subrange(i, s.len() as int).drop_first() =~= s.subrange(i + 1, s.len() as int));
}

/// Splicing in nothing removes exactly the range; splicing the removed
/// elements back over the range that the new ones took restores the
/// sequence and gives the new elements back.
pub proof fn lemma_splice_round_trip<T>(s: Seq<T>, start: int, end: int, with: Seq<T>)
    requires
        0 <= start <= end <= s.len(),
    ensures
        spliced(s, start, end, Seq::empty()) == s.subrange(0, start) + s.subrange(end, s.len() as int),
        spliced(s, start, end, with).subrange(start, start + with.len()) == with,
        spliced(spliced(s, start, end, with), start, start + with.len(), s.subrange(start, end)) == s,
{
    let t = spliced(s, start, end, with);
    assert(spliced(s, start, end, Seq::empty()) =~= s.subrange(0, start) + s.subrange(end, s.len() as int));
    assert(t.subrange(start, start + with.len()) =~= with);
    assert(t.subrange(0, start) =~= s.subrange(0, start));
    assert(t.subrange(start + with.len(), t.len() as int) =~= s.subrange(end, s.len() as int));
    assert(spliced(t, start, start + with.len(), s.subrange(start, end)) =~= s);
}

/// Under a total order, an ascending sequence meets the condition under
/// which `TreeList::insert_sorted` places its element by the first element
/// not below it, and that placement keeps the sequence ascending.
pub proof fn lemma_insert_sorted_keeps_order<T: PartialOrd>(s: Seq<T>, x: T, t: Seq<T>)
    requires
        total_order::<T>(),
        sorted(s),
    ensures
        geq_rises(s, x),
        sorted_insertion(s, x, t) ==> sorted(t),
{
    assert forall|i: int, j: int| 0 <= i <= j < s.len() && #[trigger] geq(s[i], x) implies #[trigger] geq(
        s[j],
        x,
    ) by {
        assert(leq(x, s[i]));
        if i < j {
            assert(leq(s[i], s[j]));
        }
        assert(leq(x, s[j]));
    }
    if sorted_insertion(s, x, t) {
        let k = choose|k: int|
            0 <= k <= s.len() && t == s.insert(k, x) && (forall|j: int| 0 <= j < k ==> !geq(#[trigger] s[j], x))
                && (k < s.len() ==> geq(s[k], x));
        assert forall|i: int, j: int| 0 <= i < j < t.len() implies leq(#[trigger] t[i], #[trigger] t[j]) by {
            if j < k {
                assert(t[i] == s[i] && t[j] == s[j]);
            } else if j == k {
                assert(!geq(s[i], x));
                assert(leq(s[i], x));
            } else if i < k {
                assert(t[i] == s[i] && t[j] == s[j - 1]);
                assert(leq(s[i], s[j - 1]));
            } else if i == k {
                assert(geq(s[k], x));
                assert(leq(x, s[k]));
                if k < j - 1 {
                    assert(leq(s[k], s[j - 1]));
                }
            } else {
                assert(t[i] == s[i - 1] && t[j] == s[j - 1]);
                assert(leq(s[i - 1], s[j - 1]));
            }
        }
    }
}

} // verus!
