//! Stable sorting by insertion.

use vstd::prelude::*;

verus! {

/// The place behind the last element that may stand before `x`.
pub open spec fn place<T>(s: Seq<T>, before: spec_fn(T, T) -> bool, x: T) -> int
    decreases s.len(),
{
    if s.len() == 0 || before(s.last(), x) {
        s.len() as int
    } else {
        place(s.drop_last(), before, x)
    }
}

/// A sequence with one more element, behind the last that may stand before it.
pub open spec fn placed<T>(s: Seq<T>, before: spec_fn(T, T) -> bool, x: T) -> Seq<T> {
    s.insert(place(s, before, x), x)
}

/// The elements of a sequence in order, equal ones as they came.
pub open spec fn sorted<T>(s: Seq<T>, before: spec_fn(T, T) -> bool) -> Seq<T>
    decreases s.len(),
{
    if s.len() == 0 {
        s
    } else {
        placed(sorted(s.drop_last(), before), before, s.last())
    }
}

/// Whether each element may stand before each later one.
pub open spec fn ordered<T>(s: Seq<T>, before: spec_fn(T, T) -> bool) -> bool {
    forall|i: int, j: int| 0 <= i < j < s.len() ==> before(#[trigger] s[i], #[trigger] s[j])
}

/// Whether a relation orders any two elements one way or the other.
pub open spec fn total_order<T>(before: spec_fn(T, T) -> bool) -> bool {
    &&& forall|x: T, y: T| #[trigger] before(x, y) || before(y, x)
    &&& forall|x: T, y: T, z: T|
        #![trigger before(x, y), before(y, z)]
        before(x, y) && before(y, z) ==> before(x, z)
}

/// The place of an element lies behind one that may stand before it, and before none that may.
pub proof fn lemma_place<T>(s: Seq<T>, before: spec_fn(T, T) -> bool, x: T)
    ensures
        0 <= place(s, before, x) <= s.len(),
        place(s, before, x) > 0 ==> before(s[place(s, before, x) - 1], x),
        forall|k: int| place(s, before, x) <= k < s.len() ==> !before(#[trigger] s[k], x),
    decreases s.len(),
{
    if s.len() > 0 && !before(s.last(), x) {
        lemma_place(s.drop_last(), before, x);
        let i = place(s, before, x);
        assert forall|k: int| i <= k < s.len() implies !before(#[trigger] s[k], x) by {
            if k < s.len() - 1 {
                assert(s.drop_last()[k] == s[k]);
            }
        }
    }
}

/// Sorting puts the elements in order and neither drops nor adds any.
pub proof fn lemma_sorted<T>(s: Seq<T>, before: spec_fn(T, T) -> bool)
    requires
        total_order(before),
    ensures
        ordered(sorted(s, before), before),
        sorted(s, before).to_multiset() == s.to_multiset(),
        sorted(s, before).len() == s.len(),
    decreases s.len(),
{
    if s.len() > 0 {
        let head = sorted(s.drop_last(), before);
        let x = s.last();
        lemma_sorted(s.drop_last(), before);
        lemma_place(head, before, x);
        let i = place(head, before, x);
        vstd::seq_lib::to_multiset_insert(head, i, x);
        assert(s =~= s.drop_last().push(x));
        s.drop_last().to_multiset_ensures();
        let all = sorted(s, before);
        assert forall|a: int, b: int| 0 <= a < b < all.len() implies before(
            #[trigger] all[a],
            #[trigger] all[b],
        ) by {
            if b == i {
                assert(all[a] == head[a]);
                if a < i - 1 {
                    assert(before(head[a], head[i - 1]));
                }
            } else if a == i {
                assert(all[b] == head[b - 1]);
                assert(!before(head[b - 1], x));
                assert(before(x, head[b - 1]));
            } else {
                let p = if a < i {
                    a
                } else {
                    a - 1
                };
                let q = if b < i {
                    b
                } else {
                    b - 1
                };
                assert(all[a] == head[p] && all[b] == head[q]);
            }
        }
    }
}

/// What is in order already stays as it is, so equal elements keep their order.
pub proof fn lemma_sorting_keeps_order<T>(s: Seq<T>, before: spec_fn(T, T) -> bool)
    requires
        forall|i: int, j: int| 0 <= i < j < s.len() ==> before(#[trigger] s[i], #[trigger] s[j]),
    ensures
        sorted(s, before) == s,
    decreases s.len(),
{
    if s.len() > 0 {
        let head = s.drop_last();
        assert forall|i: int, j: int| 0 <= i < j < head.len() implies before(
            #[trigger] head[i],
            #[trigger] head[j],
        ) by {
            assert(head[i] == s[i] && head[j] == s[j]);
        }
        lemma_sorting_keeps_order(head, before);
        if head.len() > 0 {
            assert(head.last() == s[s.len() - 2]);
            assert(before(s[s.len() - 2], s[s.len() - 1]));
        }
        assert(head.insert(head.len() as int, s.last()) =~= s);
    }
}

} // verus!
