//! A stable insertion sort over sequences, specified generically in the
//! strict "comes after" test that drives it, together with the facts the
//! rest of the crate needs: sorting is idempotent, and elements that the
//! test never separates keep their relative order.

use vstd::prelude::*;

verus! {

/// Insert `x` into `s` from the right: `x` slides left past exactly the
/// trailing elements that are strictly greater than it, so elements the
/// test treats as equal keep their order.
pub open spec fn insert_sorted<T>(s: Seq<T>, x: T, gt: spec_fn(T, T) -> bool) -> Seq<T>
    decreases s.len(),
{
    if s.len() > 0 && gt(s.last(), x) {
        insert_sorted(s.drop_last(), x, gt).push(s.last())
    } else {
        s.push(x)
    }
}

/// Stable insertion sort: insert the elements one after the other, in order.
pub open spec fn stable_sort<T>(s: Seq<T>, gt: spec_fn(T, T) -> bool) -> Seq<T>
    decreases s.len(),
{
    if s.len() == 0 {
        s
    } else {
        insert_sorted(stable_sort(s.drop_last(), gt), s.last(), gt)
    }
}

/// No element is strictly greater than the one that follows it.
pub open spec fn ordered<T>(s: Seq<T>, gt: spec_fn(T, T) -> bool) -> bool {
    forall|i: int| 0 <= i < s.len() - 1 ==> !gt(#[trigger] s[i], s[i + 1])
}

/// The test never holds in both directions of a pair.
pub open spec fn asymmetric<T>(gt: spec_fn(T, T) -> bool) -> bool {
    forall|a: T, b: T| #[trigger] gt(a, b) ==> !gt(b, a)
}

pub proof fn lemma_insert_sorted_len<T>(s: Seq<T>, x: T, gt: spec_fn(T, T) -> bool)
    ensures
        insert_sorted(s, x, gt).len() == s.len() + 1,
    decreases s.len(),
{
    if s.len() > 0 && gt(s.last(), x) {
        lemma_insert_sorted_len(s.drop_last(), x, gt);
    }
}

pub proof fn lemma_insert_sorted_ordered<T>(s: Seq<T>, x: T, gt: spec_fn(T, T) -> bool)
    requires
        ordered(s, gt),
        asymmetric(gt),
    ensures
        ordered(insert_sorted(s, x, gt), gt),
    decreases s.len(),
{
    if s.len() > 0 && gt(s.last(), x) {
        let dl = s.drop_last();
        assert(ordered(dl, gt)) by {
            assert(forall|i: int|
                0 <= i < dl.len() - 1 ==> !gt(#[trigger] dl[i], dl[i + 1])) by {
                assert(forall|i: int| 0 <= i < dl.len() ==> dl[i] == s[i]);
            }
        }
        lemma_insert_sorted_ordered(dl, x, gt);
        lemma_insert_sorted_len(dl, x, gt);
        let r0 = insert_sorted(dl, x, gt);
        let r = r0.push(s.last());
        // Every adjacent pair of `r` is either a pair of `r0` or the new
        // final pair `(r0.last(), s.last())`.
        assert(r0.len() > 0);
        if dl.len() > 0 && gt(dl.last(), x) {
            assert(r0.last() == dl.last());
            assert(!gt(dl.last(), s.last())) by {
                assert(dl.last() == s[s.len() - 2]);
                assert(!gt(s[s.len() - 2], s[s.len() - 2 + 1]));
            }
        } else {
            assert(r0.last() == x);
            assert(!gt(x, s.last()));
        }
        assert(forall|i: int| 0 <= i < r.len() - 1 ==> !gt(#[trigger] r[i], r[i + 1])) by {
            assert(forall|i: int| 0 <= i < r0.len() ==> r[i] == r0[i]);
            assert(r[r.len() - 1] == s.last());
        }
    } else {
        let r = s.push(x);
        assert(forall|i: int| 0 <= i < r.len() - 1 ==> !gt(#[trigger] r[i], r[i + 1])) by {
            assert(forall|i: int| 0 <= i < s.len() ==> r[i] == s[i]);
            assert(r[r.len() - 1] == x);
        }
    }
}

pub proof fn lemma_stable_sort_ordered<T>(s: Seq<T>, gt: spec_fn(T, T) -> bool)
    requires
        asymmetric(gt),
    ensures
        ordered(stable_sort(s, gt), gt),
    decreases s.len(),
{
    if s.len() > 0 {
        lemma_stable_sort_ordered(s.drop_last(), gt);
        lemma_insert_sorted_ordered(stable_sort(s.drop_last(), gt), s.last(), gt);
    }
}

pub proof fn lemma_stable_sort_len<T>(s: Seq<T>, gt: spec_fn(T, T) -> bool)
    ensures
        stable_sort(s, gt).len() == s.len(),
    decreases s.len(),
{
    if s.len() > 0 {
        lemma_stable_sort_len(s.drop_last(), gt);
        lemma_insert_sorted_len(stable_sort(s.drop_last(), gt), s.last(), gt);
    }
}

/// Sorting a sequence that is already in order leaves it unchanged.
pub proof fn lemma_sort_of_ordered_id<T>(s: Seq<T>, gt: spec_fn(T, T) -> bool)
    requires
        ordered(s, gt),
    ensures
        stable_sort(s, gt) == s,
    decreases s.len(),
{
    if s.len() > 0 {
        let dl = s.drop_last();
        assert(ordered(dl, gt)) by {
            assert(forall|i: int| 0 <= i < dl.len() ==> dl[i] == s[i]);
        }
        lemma_sort_of_ordered_id(dl, gt);
        if dl.len() > 0 {
            assert(!gt(dl.last(), s.last())) by {
                assert(dl.last() == s[s.len() - 2]);
                assert(!gt(s[s.len() - 2], s[s.len() - 2 + 1]));
            }
        }
        assert(insert_sorted(dl, s.last(), gt) == dl.push(s.last()));
        assert(dl.push(s.last()) =~= s);
    }
}

/// Sorting twice is the same as sorting once.
pub proof fn lemma_stable_sort_idempotent<T>(s: Seq<T>, gt: spec_fn(T, T) -> bool)
    requires
        asymmetric(gt),
    ensures
        stable_sort(stable_sort(s, gt), gt) == stable_sort(s, gt),
{
    lemma_stable_sort_ordered(s, gt);
    lemma_sort_of_ordered_id(stable_sort(s, gt), gt);
}

/// A property that holds of `x` and of every element of `s` holds of every
/// element of the insertion.
pub proof fn lemma_insert_sorted_all<T>(s: Seq<T>, x: T, gt: spec_fn(T, T) -> bool, p: spec_fn(T) -> bool)
    requires
        forall|i: int| 0 <= i < s.len() ==> p(#[trigger] s[i]),
        p(x),
    ensures
        forall|i: int|
            0 <= i < insert_sorted(s, x, gt).len() ==> p(#[trigger] insert_sorted(s, x, gt)[i]),
    decreases s.len(),
{
    if s.len() > 0 && gt(s.last(), x) {
        let dl = s.drop_last();
        assert(forall|i: int| 0 <= i < dl.len() ==> p(#[trigger] dl[i])) by {
            assert(forall|i: int| 0 <= i < dl.len() ==> dl[i] == s[i]);
        }
        lemma_insert_sorted_all(dl, x, gt, p);
        let r0 = insert_sorted(dl, x, gt);
        assert(forall|i: int| 0 <= i < r0.push(s.last()).len() ==> p(#[trigger] r0.push(s.last())[i])) by {
            assert(forall|i: int| 0 <= i < r0.len() ==> r0.push(s.last())[i] == r0[i]);
            assert(r0.push(s.last())[r0.len() as int] == s.last());
        }
    } else {
        let r = s.push(x);
        assert(forall|i: int| 0 <= i < r.len() ==> p(#[trigger] r[i])) by {
            assert(forall|i: int| 0 <= i < s.len() ==> r[i] == s[i]);
            assert(r[s.len() as int] == x);
        }
    }
}

/// A property that holds of every element of `s` holds of every element of
/// its sort.
pub proof fn lemma_stable_sort_all<T>(s: Seq<T>, gt: spec_fn(T, T) -> bool, p: spec_fn(T) -> bool)
    requires
        forall|i: int| 0 <= i < s.len() ==> p(#[trigger] s[i]),
    ensures
        forall|i: int|
            0 <= i < stable_sort(s, gt).len() ==> p(#[trigger] stable_sort(s, gt)[i]),
    decreases s.len(),
{
    if s.len() > 0 {
        let dl = s.drop_last();
        assert(forall|i: int| 0 <= i < dl.len() ==> p(#[trigger] dl[i])) by {
            assert(forall|i: int| 0 <= i < dl.len() ==> dl[i] == s[i]);
        }
        lemma_stable_sort_all(dl, gt, p);
        lemma_insert_sorted_all(stable_sort(dl, gt), s.last(), gt, p);
    }
}

/// Inserting never reorders the elements a predicate selects, provided the
/// test never separates two selected elements.
pub proof fn lemma_insert_sorted_filter<T>(s: Seq<T>, x: T, gt: spec_fn(T, T) -> bool, p: spec_fn(T) -> bool)
    requires
        forall|a: T, b: T| p(a) && p(b) ==> !#[trigger] gt(a, b),
    ensures
        insert_sorted(s, x, gt).filter(p) == if p(x) {
            s.filter(p).push(x)
        } else {
            s.filter(p)
        },
    decreases s.len(),
{
    reveal(Seq::filter);
    if s.len() > 0 && gt(s.last(), x) {
        let dl = s.drop_last();
        lemma_insert_sorted_filter(dl, x, gt, p);
        let r0 = insert_sorted(dl, x, gt);
        let r = r0.push(s.last());
        assert(r.drop_last() =~= r0);
        if p(s.last()) {
            // `x` cannot also satisfy `p`, or the test could not have
            // placed it before `s.last()`.
            assert(!p(x));
            assert(r.filter(p) == r0.filter(p).push(s.last()));
            assert(s.filter(p) == dl.filter(p).push(s.last()));
        } else {
            assert(r.filter(p) == r0.filter(p));
            assert(s.filter(p) == dl.filter(p));
        }
    } else {
        let r = s.push(x);
        assert(r.drop_last() =~= s);
        assert(r.last() == x);
    }
}

/// Stability: the subsequence of elements a predicate selects is unchanged
/// by sorting, provided the test never separates two selected elements.
pub proof fn lemma_stable_sort_filter<T>(s: Seq<T>, gt: spec_fn(T, T) -> bool, p: spec_fn(T) -> bool)
    requires
        forall|a: T, b: T| p(a) && p(b) ==> !#[trigger] gt(a, b),
    ensures
        stable_sort(s, gt).filter(p) == s.filter(p),
    decreases s.len(),
{
    reveal(Seq::filter);
    if s.len() > 0 {
        let dl = s.drop_last();
        lemma_stable_sort_filter(dl, gt, p);
        lemma_insert_sorted_filter(stable_sort(dl, gt), s.last(), gt, p);
        if p(s.last()) {
            assert(s.filter(p) == dl.filter(p).push(s.last()));
        } else {
            assert(s.filter(p) == dl.filter(p));
        }
    }
}

/// The position at which [`insert_sorted`] places the new element.
pub open spec fn insert_position<T>(s: Seq<T>, x: T, gt: spec_fn(T, T) -> bool) -> int
    decreases s.len(),
{
    if s.len() > 0 && gt(s.last(), x) {
        insert_position(s.drop_last(), x, gt)
    } else {
        s.len() as int
    }
}

/// Inserting splices the new element in at [`insert_position`].
pub proof fn lemma_insert_sorted_split<T>(s: Seq<T>, x: T, gt: spec_fn(T, T) -> bool)
    ensures
        0 <= insert_position(s, x, gt) <= s.len(),
        insert_sorted(s, x, gt) == s.subrange(0, insert_position(s, x, gt))
            + seq![x] + s.subrange(insert_position(s, x, gt), s.len() as int),
    decreases s.len(),
{
    let pos = insert_position(s, x, gt);
    if s.len() > 0 && gt(s.last(), x) {
        let dl = s.drop_last();
        lemma_insert_sorted_split(dl, x, gt);
        assert(dl.subrange(0, pos) =~= s.subrange(0, pos));
        assert(dl.subrange(pos, dl.len() as int) =~= s.subrange(pos, s.len() - 1));
        assert((dl.subrange(0, pos) + seq![x] + dl.subrange(pos, dl.len() as int)).push(s.last())
            =~= s.subrange(0, pos) + seq![x] + s.subrange(pos, s.len() as int));
    } else {
        assert(s.subrange(0, pos) =~= s);
        assert(s.subrange(pos, s.len() as int) =~= Seq::<T>::empty());
        assert(s + seq![x] + Seq::<T>::empty() =~= s.push(x));
    }
}

} // verus!
