//! Bitonic sort by a comparator, one step after another.
use vstd::prelude::*;
use vstd::relations::sorted_by;
use vstd::std_specs::cmp::OrdSpec;
use std::cmp::Ordering;
use crate::comparator::{
    callable_on, computes, lemma_callable_on_part, lemma_callable_on_rearranged,
    lemma_opposite_orders_totally, natural_order, not_greater, opposite, orders_totally,
    requested_order, same_answer, swap_if_greater, swap_if_less,
};
use crate::length::{is_sortable_length, length_error, length_error_text, sortable_length};
use crate::network::{
    bitonic_sort, compare_exchange, exchange_prefix, first_half, lemma_exchange_keeps_multiset,
    lemma_halves_join, lemma_join_keeps_multiset, rule_for, second_half,
};
use crate::order::ties_are_equal;
use crate::outcome::{
    built_by, lemma_network_keeps_sorted, lemma_network_sorts, merged_by, passed_by,
};
use crate::SortOrder;

verus! {

/// Sorts `x` in the order asked for, by the natural order of its elements.
///
/// A sequence whose length is neither zero nor a power of two is refused and
/// left as it is. Otherwise the elements are rearranged by the bitonic
/// network, and come out sorted where the natural comparison is that of a
/// total preorder.
pub fn sort<T: Ord>(x: &mut [T], order: &SortOrder) -> (result: Result<(), String>)
    ensures
        result is Ok <==> sortable_length(old(x)@.len()),
        result matches Err(message) ==> final(x)@ == old(x)@ && message@ == length_error_text(
            old(x)@.len(),
        ),
        final(x)@.len() == old(x)@.len(),
        final(x)@.to_multiset() == old(x)@.to_multiset(),
        result is Ok && T::obeys_cmp_spec() ==> final(x)@ == bitonic_sort(
            old(x)@,
            swap_if_greater(requested_order::<T>(*order)),
            swap_if_less(requested_order::<T>(*order)),
            true,
        ),
        result is Ok && T::obeys_cmp_spec() && orders_totally(natural_order::<T>()) ==> sorted_by(
            final(x)@,
            not_greater(requested_order::<T>(*order)),
        ),
        result is Ok && T::obeys_cmp_spec() && orders_totally(natural_order::<T>()) && sorted_by(
            old(x)@,
            not_greater(requested_order::<T>(*order)),
        ) && ties_are_equal(old(x)@, not_greater(requested_order::<T>(*order))) ==> final(x)@
            == old(x)@,
{
    proof {
        if orders_totally(natural_order::<T>()) {
            lemma_opposite_orders_totally(natural_order::<T>());
        }
    }
    match *order {
        SortOrder::Ascending => {
            let ascending = |a: &T, b: &T| -> (answer: Ordering)
                ensures
                    T::obeys_cmp_spec() ==> answer == a.cmp_spec(b),
                { a.cmp(b) };
            assert(T::obeys_cmp_spec() ==> computes(&ascending, natural_order::<T>()));
            sort_by(x, &ascending)
        },
        SortOrder::Descending => {
            let descending = |a: &T, b: &T| -> (answer: Ordering)
                ensures
                    T::obeys_cmp_spec() ==> answer == b.cmp_spec(a),
                { b.cmp(a) };
            assert(T::obeys_cmp_spec() ==> computes(&descending, opposite(natural_order::<T>())));
            sort_by(x, &descending)
        },
    }
}

/// The builder: the first half is built forward and the second backward, so
/// that the two together are bitonic; the merger then orders the whole range
/// in the direction `forward`.
fn do_sort<T, F>(x: &mut [T], forward: bool, comparator: &F) where F: Fn(&T, &T) -> Ordering
    requires
        callable_on(comparator, old(x)@),
    ensures
        built_by(comparator, old(x)@, final(x)@, forward),
    decreases old(x)@.len(),
{
    if x.len() > 1 {
        let mid_point: usize = x.len() / 2;
        let (first, second) = x.split_at_mut(mid_point);
        proof {
            lemma_callable_on_part(comparator, old(x)@, first@);
            lemma_callable_on_part(comparator, old(x)@, second@);
        }
        do_sort(first, true, comparator);
        do_sort(second, false, comparator);
        proof {
            lemma_halves_join(old(x)@);
            lemma_join_keeps_multiset(
                final(first)@,
                final(second)@,
                first_half(old(x)@),
                second_half(old(x)@),
            );
            lemma_callable_on_rearranged(comparator, old(x)@, final(first)@ + final(second)@);
        }
        sub_sort(x, forward, comparator);
    }
}

/// The bitonic merger: one compare-exchange pass over the range, then the
/// merger on each half, in the same direction.
fn sub_sort<T, F>(x: &mut [T], forward: bool, comparator: &F) where F: Fn(&T, &T) -> Ordering
    requires
        callable_on(comparator, old(x)@),
    ensures
        merged_by(comparator, old(x)@, final(x)@, forward),
    decreases old(x)@.len(),
{
    if x.len() > 1 {
        compare_and_swap(x, forward, comparator);
        let ghost passed = x@;
        let mid_point: usize = x.len() / 2;
        let (first, second) = x.split_at_mut(mid_point);
        proof {
            lemma_callable_on_rearranged(comparator, old(x)@, passed);
            lemma_callable_on_part(comparator, passed, first@);
            lemma_callable_on_part(comparator, passed, second@);
        }
        sub_sort(first, forward, comparator);
        sub_sort(second, forward, comparator);
        proof {
            lemma_halves_join(passed);
            lemma_join_keeps_multiset(
                final(first)@,
                final(second)@,
                first_half(passed),
                second_half(passed),
            );
        }
    }
}

/// One compare-exchange pass: each element of the first half is compared with
/// its partner in the second half, and the two change places when the
/// comparator answers `Greater` (going forward) or `Less` (going backward).
/// The answer `Equal` never moves anything.
fn compare_and_swap<T, F>(x: &mut [T], forward: bool, comparator: &F) where
    F: Fn(&T, &T) -> Ordering,

    requires
        callable_on(comparator, old(x)@),
    ensures
        passed_by(comparator, old(x)@, final(x)@, forward),
{
    let swap_condition = if forward {
        Ordering::Greater
    } else {
        Ordering::Less
    };
    let mid_point: usize = x.len() / 2;
    let mut i: usize = 0;
    let ghost mut done: int = 0;
    while i < mid_point
        invariant
            done == i,
            mid_point == old(x)@.len() / 2,
            x@.len() == old(x)@.len(),
            i <= mid_point,
            callable_on(comparator, old(x)@),
            swap_condition == (if forward {
                Ordering::Greater
            } else {
                Ordering::Less
            }),
            x@.to_multiset() == old(x)@.to_multiset(),
            forall|k: int| i <= k < mid_point ==> x@[k] == old(x)@[k],
            forall|k: int| mid_point + i <= k < x@.len() ==> x@[k] == old(x)@[k],
            forall|ord: spec_fn(T, T) -> Ordering| #[trigger]
                computes(comparator, ord) ==> forall|k: int|
                    0 <= k < x@.len() ==> x@[k] == exchange_prefix(
                        old(x)@,
                        rule_for(swap_if_greater(ord), swap_if_less(ord), forward),
                        done,
                    )[k],
        decreases mid_point - i,
    {
        let ghost before = x@;
        assert(old(x)@.contains(before[done]));
        assert(old(x)@.contains(before[mid_point + done]));
        if same_answer(comparator(&x[i], &x[mid_point + i]), swap_condition) {
            x.swap(i, mid_point + i);
            proof {
                lemma_exchange_keeps_multiset(before, done, mid_point + done);
            }
        }
        i += 1;
        proof {
            done = done + 1;
        }
    }
    proof {
        assert forall|ord: spec_fn(T, T) -> Ordering| #[trigger]
            computes(comparator, ord) implies x@ == compare_exchange(
            old(x)@,
            rule_for(swap_if_greater(ord), swap_if_less(ord), forward),
        ) by {
            assert(x@ =~= compare_exchange(
                old(x)@,
                rule_for(swap_if_greater(ord), swap_if_less(ord), forward),
            ));
        }
    }
}

/// Sorts `x` by a comparator.
///
/// A sequence whose length is neither zero nor a power of two is refused and
/// left as it is. Otherwise the elements are rearranged; where the comparator
/// computes a three-way comparison `ord`, what comes out is exactly what the
/// bitonic network makes of what went in, and where `ord` is the comparison of
/// a total preorder that is sorted: no element stands before one that it is
/// greater than. A sequence that was sorted, with no two different elements
/// that tie, comes out as it went in.
pub fn sort_by<T, F>(x: &mut [T], comparator: &F) -> (result: Result<(), String>) where
    F: Fn(&T, &T) -> Ordering,

    requires
        callable_on(comparator, old(x)@),
    ensures
        result is Ok <==> sortable_length(old(x)@.len()),
        result matches Err(message) ==> final(x)@ == old(x)@ && message@ == length_error_text(
            old(x)@.len(),
        ),
        final(x)@.len() == old(x)@.len(),
        final(x)@.to_multiset() == old(x)@.to_multiset(),
        result is Ok ==> forall|ord: spec_fn(T, T) -> Ordering| #[trigger]
            computes(comparator, ord) ==> {
                &&& final(x)@ == bitonic_sort(
                    old(x)@,
                    swap_if_greater(ord),
                    swap_if_less(ord),
                    true,
                )
                &&& orders_totally(ord) ==> sorted_by(final(x)@, not_greater(ord))
                &&& orders_totally(ord) && sorted_by(old(x)@, not_greater(ord)) && ties_are_equal(
                    old(x)@,
                    not_greater(ord),
                ) ==> final(x)@ == old(x)@
            },
{
    if is_sortable_length(x.len()) {
        do_sort(x, true, comparator);
        proof {
            assert forall|ord: spec_fn(T, T) -> Ordering| #[trigger]
                computes(comparator, ord) && orders_totally(ord) implies sorted_by(
                x@,
                not_greater(ord),
            ) && (sorted_by(old(x)@, not_greater(ord)) && ties_are_equal(old(x)@, not_greater(ord))
                ==> x@ == old(x)@) by {
                lemma_network_sorts(old(x)@, ord, true);
                if sorted_by(old(x)@, not_greater(ord)) && ties_are_equal(
                    old(x)@,
                    not_greater(ord),
                ) {
                    lemma_network_keeps_sorted(old(x)@, ord, true);
                }
            }
        }
        Ok(())
    } else {
        Err(length_error(x.len()))
    }
}

} // verus!
