//! Orders on the elements, and what it means for a sequence to be sorted.
use vstd::prelude::*;
use vstd::relations::{sorted_by, strongly_connected, transitive};
use crate::network::{lemma_rearranged_element, SwapRule};

verus! {

/// A relation between elements, read as "is not after".
pub type Relation<T> = spec_fn(T, T) -> bool;

/// A total preorder: any two elements are comparable, and the relation is
/// transitive. Distinct elements may tie.
pub open spec fn total_preorder<T>(le: Relation<T>) -> bool {
    &&& strongly_connected(le)
    &&& transitive(le)
}

/// The relation read the other way round.
pub open spec fn reversed<T>(le: Relation<T>) -> Relation<T> {
    |a: T, b: T| le(b, a)
}

/// The order that a range built in the direction `forward` follows.
pub open spec fn directed<T>(le: Relation<T>, forward: bool) -> Relation<T> {
    if forward {
        le
    } else {
        reversed(le)
    }
}

/// The swap rule leaves every pair in order: after the decision, the element
/// that stands first is not after the one that stands second.
pub open spec fn settles<T>(swap: SwapRule<T>, le: Relation<T>) -> bool {
    forall|a: T, b: T| (#[trigger] swap(a, b) ==> le(b, a)) && (!swap(a, b) ==> le(a, b))
}

/// No two different elements of `s` tie.
pub open spec fn ties_are_equal<T>(s: Seq<T>, le: Relation<T>) -> bool {
    forall|i: int, j: int|
        0 <= i < s.len() && 0 <= j < s.len() && #[trigger] le(s[i], s[j]) && le(s[j], s[i])
            ==> s[i] == s[j]
}

/// Three elements in a chain.
pub proof fn lemma_chain<T>(le: Relation<T>, a: T, b: T, c: T)
    requires
        transitive(le),
        le(a, b),
        le(b, c),
    ensures
        le(a, c),
{
}

/// Of two elements one is not after the other.
pub proof fn lemma_comparable<T>(le: Relation<T>, a: T, b: T)
    requires
        strongly_connected(le),
    ensures
        le(a, b) || le(b, a),
{
}

/// The reverse of a total preorder is a total preorder.
pub proof fn lemma_reversed_total_preorder<T>(le: Relation<T>)
    requires
        total_preorder(le),
    ensures
        total_preorder(reversed(le)),
{
    let rev = reversed(le);
    assert forall|a: T, b: T| #[trigger] rev(a, b) || #[trigger] rev(b, a) by {
        lemma_comparable(le, a, b);
    }
    assert forall|a: T, b: T, c: T| #[trigger] rev(a, b) && #[trigger] rev(b, c) implies rev(
        a,
        c,
    ) by {
        lemma_chain(le, c, b, a);
    }
}

/// Elements tie by the reversed relation when they tie by the relation.
pub proof fn lemma_ties_reversed<T>(s: Seq<T>, le: Relation<T>)
    requires
        ties_are_equal(s, le),
    ensures
        ties_are_equal(s, reversed(le)),
{
    let rev = reversed(le);
    assert forall|i: int, j: int|
        0 <= i < s.len() && 0 <= j < s.len() && #[trigger] rev(s[i], s[j]) && rev(
            s[j],
            s[i],
        ) implies s[i] == s[j] by {
        assert(le(s[i], s[j]));
    }
}

/// A rearrangement has the elements of the sequence, so no two different
/// elements of it tie either.
pub proof fn lemma_ties_of_rearranged<T>(s: Seq<T>, t: Seq<T>, le: Relation<T>)
    requires
        ties_are_equal(s, le),
        t.to_multiset() == s.to_multiset(),
    ensures
        ties_are_equal(t, le),
{
    assert forall|i: int, j: int|
        0 <= i < t.len() && 0 <= j < t.len() && #[trigger] le(t[i], t[j]) && le(
            t[j],
            t[i],
        ) implies t[i] == t[j] by {
        let p = lemma_rearranged_element(s, t, i);
        let q = lemma_rearranged_element(s, t, j);
        assert(le(s[p], s[q]));
    }
}

/// Where no two different elements tie, a multiset of elements has one sorted
/// arrangement only.
pub proof fn lemma_sorted_arrangement_is_unique<T>(a: Seq<T>, b: Seq<T>, le: Relation<T>)
    requires
        total_preorder(le),
        sorted_by(a, le),
        sorted_by(b, le),
        a.to_multiset() == b.to_multiset(),
        ties_are_equal(a, le),
    ensures
        a == b,
    decreases a.len(),
{
    vstd::seq_lib::to_multiset_len(a);
    vstd::seq_lib::to_multiset_len(b);
    if a.len() == 0 {
        assert(a =~= b);
    } else {
        let j = lemma_rearranged_element(b, a, 0);
        let i = lemma_rearranged_element(a, b, 0);
        lemma_comparable(le, a[0], a[0]);
        lemma_comparable(le, b[0], b[0]);
        assert(le(b[0], a[0])) by {
            if j > 0 {
                assert(le(b[0], b[j]));
            }
        }
        assert(le(a[0], b[0])) by {
            if i > 0 {
                assert(le(a[0], a[i]));
            }
        }
        assert(le(a[0], a[i]) && le(a[i], a[0]));
        assert(a[0] == b[0]);
        let rest_a = a.drop_first();
        let rest_b = b.drop_first();
        vstd::seq_lib::to_multiset_remove(a, 0);
        vstd::seq_lib::to_multiset_remove(b, 0);
        assert(a.remove(0) =~= rest_a);
        assert(b.remove(0) =~= rest_b);
        assert forall|p: int, q: int| 0 <= p < q < rest_a.len() implies #[trigger] le(
            rest_a[p],
            rest_a[q],
        ) by {
            assert(le(a[p + 1], a[q + 1]));
        }
        assert forall|p: int, q: int| 0 <= p < q < rest_b.len() implies #[trigger] le(
            rest_b[p],
            rest_b[q],
        ) by {
            assert(le(b[p + 1], b[q + 1]));
        }
        assert forall|p: int, q: int|
            0 <= p < rest_a.len() && 0 <= q < rest_a.len() && #[trigger] le(rest_a[p], rest_a[q])
                && le(rest_a[q], rest_a[p]) implies rest_a[p] == rest_a[q] by {
            assert(le(a[p + 1], a[q + 1]));
        }
        lemma_sorted_arrangement_is_unique(rest_a, rest_b, le);
        assert(a =~= seq![a[0]] + rest_a);
        assert(b =~= seq![b[0]] + rest_b);
    }
}

} // verus!
