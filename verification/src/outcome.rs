//! What a run of the network with a comparator leaves behind.
//!
//! The steps of the sorter share these statements: each says that the range
//! was rearranged, and that, where the comparator computes a three-way
//! comparison `ord`, the range now holds exactly what the network makes of
//! what it held before.
use vstd::prelude::*;
use vstd::relations::sorted_by;
use std::cmp::Ordering;
use crate::bitonic::{lemma_sort_keeps_sorted, lemma_sort_sorts};
use crate::comparator::{
    computes, lemma_total_order_settles, not_greater, orders_totally, swap_if_greater,
    swap_if_less,
};
use crate::length::sortable_length;
use crate::network::{
    bitonic_merge, bitonic_sort, compare_exchange, lemma_sort_permutes, rule_for,
};
use crate::order::{
    directed, lemma_sorted_arrangement_is_unique, lemma_ties_of_rearranged, ties_are_equal,
};

verus! {

/// `after` has the elements of `before`, each as often.
pub open spec fn rearranged<T>(before: Seq<T>, after: Seq<T>) -> bool {
    &&& after.len() == before.len()
    &&& after.to_multiset() == before.to_multiset()
}

/// `after` is `before` after one compare-exchange pass by the comparator.
pub open spec fn passed_by<T, F: Fn(&T, &T) -> Ordering>(
    f: &F,
    before: Seq<T>,
    after: Seq<T>,
    forward: bool,
) -> bool {
    &&& rearranged(before, after)
    &&& forall|ord: spec_fn(T, T) -> Ordering| #[trigger]
        computes(f, ord) ==> after == compare_exchange(
            before,
            rule_for(swap_if_greater(ord), swap_if_less(ord), forward),
        )
}

/// `after` is `before` after the bitonic merger has run by the comparator.
pub open spec fn merged_by<T, F: Fn(&T, &T) -> Ordering>(
    f: &F,
    before: Seq<T>,
    after: Seq<T>,
    forward: bool,
) -> bool {
    &&& rearranged(before, after)
    &&& forall|ord: spec_fn(T, T) -> Ordering| #[trigger]
        computes(f, ord) ==> after == bitonic_merge(
            before,
            rule_for(swap_if_greater(ord), swap_if_less(ord), forward),
        )
}

/// `after` is `before` after the whole network has run by the comparator.
pub open spec fn built_by<T, F: Fn(&T, &T) -> Ordering>(
    f: &F,
    before: Seq<T>,
    after: Seq<T>,
    forward: bool,
) -> bool {
    &&& rearranged(before, after)
    &&& forall|ord: spec_fn(T, T) -> Ordering| #[trigger]
        computes(f, ord) ==> after == bitonic_sort(
            before,
            swap_if_greater(ord),
            swap_if_less(ord),
            forward,
        )
}

/// What the network makes of a sequence of sortable length is sorted in the
/// direction asked for, where the comparison is that of a total preorder.
pub proof fn lemma_network_sorts<T>(s: Seq<T>, ord: spec_fn(T, T) -> Ordering, forward: bool)
    requires
        orders_totally(ord),
        sortable_length(s.len()),
    ensures
        sorted_by(
            bitonic_sort(s, swap_if_greater(ord), swap_if_less(ord), forward),
            directed(not_greater(ord), forward),
        ),
{
    lemma_total_order_settles(ord);
    lemma_sort_sorts(s, not_greater(ord), swap_if_greater(ord), swap_if_less(ord), forward);
}

/// The network leaves a sequence that is sorted in the direction asked for as
/// it is, where no two different elements tie.
pub proof fn lemma_network_keeps_sorted<T>(
    s: Seq<T>,
    ord: spec_fn(T, T) -> Ordering,
    forward: bool,
)
    requires
        orders_totally(ord),
        sortable_length(s.len()),
        sorted_by(s, directed(not_greater(ord), forward)),
        ties_are_equal(s, not_greater(ord)),
    ensures
        bitonic_sort(s, swap_if_greater(ord), swap_if_less(ord), forward) == s,
{
    lemma_total_order_settles(ord);
    lemma_sort_keeps_sorted(
        s,
        not_greater(ord),
        swap_if_greater(ord),
        swap_if_less(ord),
        forward,
    );
}

/// The network going forward makes the same of two arrangements of the same
/// elements, where no two different elements tie.
pub proof fn lemma_network_ignores_arrangement<T>(
    a: Seq<T>,
    b: Seq<T>,
    ord: spec_fn(T, T) -> Ordering,
)
    requires
        orders_totally(ord),
        sortable_length(a.len()),
        a.to_multiset() == b.to_multiset(),
        ties_are_equal(a, not_greater(ord)),
    ensures
        bitonic_sort(a, swap_if_greater(ord), swap_if_less(ord), true) == bitonic_sort(
            b,
            swap_if_greater(ord),
            swap_if_less(ord),
            true,
        ),
{
    let sorted_a = bitonic_sort(a, swap_if_greater(ord), swap_if_less(ord), true);
    let sorted_b = bitonic_sort(b, swap_if_greater(ord), swap_if_less(ord), true);
    vstd::seq_lib::to_multiset_len(a);
    vstd::seq_lib::to_multiset_len(b);
    lemma_total_order_settles(ord);
    lemma_network_sorts(a, ord, true);
    lemma_network_sorts(b, ord, true);
    lemma_sort_permutes(a, swap_if_greater(ord), swap_if_less(ord), true);
    lemma_sort_permutes(b, swap_if_greater(ord), swap_if_less(ord), true);
    lemma_ties_of_rearranged(a, sorted_a, not_greater(ord));
    lemma_sorted_arrangement_is_unique(sorted_a, sorted_b, not_greater(ord));
}

} // verus!
