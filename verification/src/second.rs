//! Bitonic sort by the comparison operators of the elements.
use vstd::prelude::*;
use vstd::relations::sorted_by;
use vstd::std_specs::cmp::PartialOrdSpec;
use crate::comparator::{not_greater, operator_order, orders_totally, swap_if_greater, swap_if_less};
use crate::length::{is_sortable_length, length_error, length_error_text, sortable_length};
use crate::network::{
    bitonic_merge, bitonic_sort, compare_exchange, exchange_prefix, first_half,
    lemma_exchange_keeps_multiset, lemma_halves_join, lemma_join_keeps_multiset, rule_for,
    second_half,
};
use crate::order::{directed, ties_are_equal};
use crate::outcome::{lemma_network_keeps_sorted, lemma_network_sorts, rearranged};
use crate::SortOrder;

verus! {

/// Whether the order asked for is the ascending one.
pub open spec fn ascends(order: SortOrder) -> bool {
    order == SortOrder::Ascending
}

/// Sorts `x` in the order asked for, comparing elements with `<` and `>`.
///
/// A sequence whose length is neither zero nor a power of two is refused and
/// left as it is. Otherwise the elements are rearranged by the bitonic
/// network, and come out sorted where the comparison that the operators
/// follow is that of a total preorder. A sequence that was sorted in the order
/// asked for, with no two different elements that tie, comes out as it went
/// in.
pub fn sort<T: Ord>(x: &mut [T], order: &SortOrder) -> (result: Result<(), String>)
    ensures
        result is Ok <==> sortable_length(old(x)@.len()),
        result matches Err(message) ==> final(x)@ == old(x)@ && message@ == length_error_text(
            old(x)@.len(),
        ),
        final(x)@.len() == old(x)@.len(),
        final(x)@.to_multiset() == old(x)@.to_multiset(),
        result is Ok && T::obeys_partial_cmp_spec() ==> final(x)@ == bitonic_sort(
            old(x)@,
            swap_if_greater(operator_order::<T>()),
            swap_if_less(operator_order::<T>()),
            ascends(*order),
        ),
        result is Ok && T::obeys_partial_cmp_spec() && orders_totally(operator_order::<T>())
            ==> sorted_by(
            final(x)@,
            directed(not_greater(operator_order::<T>()), ascends(*order)),
        ),
        result is Ok && T::obeys_partial_cmp_spec() && orders_totally(operator_order::<T>())
            && sorted_by(old(x)@, directed(not_greater(operator_order::<T>()), ascends(*order)))
            && ties_are_equal(old(x)@, not_greater(operator_order::<T>())) ==> final(x)@
            == old(x)@,
{
    if is_sortable_length(x.len()) {
        match *order {
            SortOrder::Ascending => do_sort(x, true),
            SortOrder::Descending => do_sort(x, false),
        };
        proof {
            let ord = operator_order::<T>();
            let up = ascends(*order);
            if T::obeys_partial_cmp_spec() && orders_totally(ord) {
                lemma_network_sorts(old(x)@, ord, up);
                if sorted_by(old(x)@, directed(not_greater(ord), up)) && ties_are_equal(
                    old(x)@,
                    not_greater(ord),
                ) {
                    lemma_network_keeps_sorted(old(x)@, ord, up);
                }
            }
        }
        Ok(())
    } else {
        Err(length_error(x.len()))
    }
}

/// The builder: the first half is built upward and the second downward, so
/// that the two together are bitonic; the merger then orders the whole range,
/// upward if `up`.
fn do_sort<T: Ord>(x: &mut [T], up: bool)
    ensures
        rearranged(old(x)@, final(x)@),
        T::obeys_partial_cmp_spec() ==> final(x)@ == bitonic_sort(
            old(x)@,
            swap_if_greater(operator_order::<T>()),
            swap_if_less(operator_order::<T>()),
            up,
        ),
    decreases old(x)@.len(),
{
    if x.len() > 1 {
        let mid_point: usize = x.len() / 2;
        let (first, second) = x.split_at_mut(mid_point);
        do_sort(first, true);
        do_sort(second, false);
        proof {
            lemma_halves_join(old(x)@);
            lemma_join_keeps_multiset(
                final(first)@,
                final(second)@,
                first_half(old(x)@),
                second_half(old(x)@),
            );
        }
        sub_sort(x, up)
    }
}

/// The bitonic merger: one compare-exchange pass over the range, then the
/// merger on each half, in the same direction.
fn sub_sort<T: Ord>(x: &mut [T], up: bool)
    ensures
        rearranged(old(x)@, final(x)@),
        T::obeys_partial_cmp_spec() ==> final(x)@ == bitonic_merge(
            old(x)@,
            rule_for(
                swap_if_greater(operator_order::<T>()),
                swap_if_less(operator_order::<T>()),
                up,
            ),
        ),
    decreases old(x)@.len(),
{
    if x.len() > 1 {
        compare_and_swap(x, up);
        let ghost passed = x@;
        let mid_point: usize = x.len() / 2;
        let (first, second) = x.split_at_mut(mid_point);
        sub_sort(first, up);
        sub_sort(second, up);
        proof {
            lemma_halves_join(passed);
            lemma_join_keeps_multiset(
                final(first)@,
                final(second)@,
                first_half(passed),
                second_half(passed),
            );
        }
    }
}

/// One compare-exchange pass: each element of the first half is compared with
/// its partner in the second half. Going up, the two change places when the
/// first is greater; going down, when it is less. Elements that tie stay.
fn compare_and_swap<T: Ord>(x: &mut [T], up: bool)
    ensures
        rearranged(old(x)@, final(x)@),
        T::obeys_partial_cmp_spec() ==> final(x)@ == compare_exchange(
            old(x)@,
            rule_for(
                swap_if_greater(operator_order::<T>()),
                swap_if_less(operator_order::<T>()),
                up,
            ),
        ),
{
    let mid_point: usize = x.len() / 2;
    let mut i: usize = 0;
    let ghost mut done: int = 0;
    while i < mid_point
        invariant
            done == i,
            mid_point == old(x)@.len() / 2,
            x@.len() == old(x)@.len(),
            i <= mid_point,
            x@.to_multiset() == old(x)@.to_multiset(),
            forall|k: int| i <= k < mid_point ==> x@[k] == old(x)@[k],
            forall|k: int| mid_point + i <= k < x@.len() ==> x@[k] == old(x)@[k],
            T::obeys_partial_cmp_spec() ==> forall|k: int|
                0 <= k < x@.len() ==> x@[k] == exchange_prefix(
                    old(x)@,
                    rule_for(
                        swap_if_greater(operator_order::<T>()),
                        swap_if_less(operator_order::<T>()),
                        up,
                    ),
                    done,
                )[k],
        decreases mid_point - i,
    {
        let ghost before = x@;
        let out_of_order = if up {
            x[i] > x[mid_point + i]
        } else {
            x[i] < x[mid_point + i]
        };
        if out_of_order {
            x.swap(i, mid_point + i);
            proof {
                lemma_exchange_keeps_multiset(before, done, mid_point + done);
            }
        }
        i += 1;
        proof {
            done = done + 1;
        }
    }
    proof {
        if T::obeys_partial_cmp_spec() {
            assert(x@ =~= compare_exchange(
                old(x)@,
                rule_for(
                    swap_if_greater(operator_order::<T>()),
                    swap_if_less(operator_order::<T>()),
                    up,
                ),
            ));
        }
    }
}

} // verus!
