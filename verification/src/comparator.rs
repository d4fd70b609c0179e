//! Comparators: executable three-way comparisons and what they stand for.
//!
//! A comparator is any `Fn(&T, &T) -> Ordering`. Verus knows a function value
//! only through its precondition and its postcondition, so the contracts of
//! this library speak of a comparator by relating it to a mathematical
//! three-way comparison `ord` that it *computes*.
use vstd::prelude::*;
use std::cmp::Ordering;
use vstd::relations::transitive;
use vstd::std_specs::cmp::{OrdSpec, PartialEqSpec, PartialOrdSpec};
use crate::network::SwapRule;
use crate::order::{lemma_chain, reversed, settles, total_preorder, Relation};
use crate::SortOrder;

verus! {

/// The comparator may be called on every pair of elements of `s`.
pub open spec fn callable_on<T, F: Fn(&T, &T) -> Ordering>(f: &F, s: Seq<T>) -> bool {
    forall|a: T, b: T| s.contains(a) && s.contains(b) ==> #[trigger] call_requires(f, (&a, &b))
}

/// A comparator that may be called on the elements of a sequence may be called
/// on the elements of every rearrangement of it.
pub proof fn lemma_callable_on_rearranged<T, F: Fn(&T, &T) -> Ordering>(
    f: &F,
    s: Seq<T>,
    t: Seq<T>,
)
    requires
        callable_on(f, s),
        t.to_multiset() == s.to_multiset(),
    ensures
        callable_on(f, t),
{
    assert forall|a: T| t.contains(a) implies s.contains(a) by {
        vstd::seq_lib::to_multiset_contains(s, a);
        vstd::seq_lib::to_multiset_contains(t, a);
    }
}

/// A comparator that may be called on the elements of a sequence may be called
/// on the elements of each of its parts.
pub proof fn lemma_callable_on_part<T, F: Fn(&T, &T) -> Ordering>(f: &F, s: Seq<T>, part: Seq<T>)
    requires
        callable_on(f, s),
        forall|i: int| 0 <= i < part.len() ==> s.contains(#[trigger] part[i]),
    ensures
        callable_on(f, part),
{
}

/// Whatever the comparator answers on a pair is what `ord` says of it.
pub open spec fn computes<T, F: Fn(&T, &T) -> Ordering>(
    f: &F,
    ord: spec_fn(T, T) -> Ordering,
) -> bool {
    forall|a: T, b: T, o: Ordering| #[trigger] call_ensures(f, (&a, &b), o) ==> o == ord(a, b)
}

/// The swap rule of a range that is to ascend: exchange a pair when its first
/// element compares greater than its second.
pub open spec fn swap_if_greater<T>(ord: spec_fn(T, T) -> Ordering) -> SwapRule<T> {
    |a: T, b: T| ord(a, b) == Ordering::Greater
}

/// The swap rule of a range that is to descend: exchange a pair when its first
/// element compares less than its second.
pub open spec fn swap_if_less<T>(ord: spec_fn(T, T) -> Ordering) -> SwapRule<T> {
    |a: T, b: T| ord(a, b) == Ordering::Less
}

/// Whether two answers of a comparator are the same.
pub fn same_answer(a: Ordering, b: Ordering) -> (same: bool)
    ensures
        same == (a == b),
{
    match (a, b) {
        (Ordering::Less, Ordering::Less) => true,
        (Ordering::Equal, Ordering::Equal) => true,
        (Ordering::Greater, Ordering::Greater) => true,
        _ => false,
    }
}

/// The relation "is not after" of a three-way comparison.
pub open spec fn not_greater<T>(ord: spec_fn(T, T) -> Ordering) -> Relation<T> {
    |a: T, b: T| ord(a, b) != Ordering::Greater
}

/// The three-way comparison with its arguments exchanged.
pub open spec fn opposite<T>(ord: spec_fn(T, T) -> Ordering) -> spec_fn(T, T) -> Ordering {
    |a: T, b: T| ord(b, a)
}

/// The three-way comparison is that of a total preorder: it answers `Less`
/// on a pair exactly when it answers `Greater` on the pair exchanged, and
/// "is not after" is transitive.
pub open spec fn orders_totally<T>(ord: spec_fn(T, T) -> Ordering) -> bool {
    &&& forall|a: T, b: T| #[trigger] ord(a, b) == Ordering::Less <==> ord(b, a) == Ordering::Greater
    &&& transitive(not_greater(ord))
}

/// The natural three-way comparison of a type with `Ord`.
pub open spec fn natural_order<T: Ord>() -> spec_fn(T, T) -> Ordering {
    |a: T, b: T| a.cmp_spec(&b)
}

/// The three-way comparison that sorts in the order asked for: the natural
/// one to ascend, its opposite to descend.
pub open spec fn requested_order<T: Ord>(order: SortOrder) -> spec_fn(T, T) -> Ordering {
    match order {
        SortOrder::Ascending => natural_order::<T>(),
        SortOrder::Descending => opposite(natural_order::<T>()),
    }
}

/// With the comparison of a total preorder, both swap rules leave every pair
/// in order.
pub proof fn lemma_total_order_settles<T>(ord: spec_fn(T, T) -> Ordering)
    requires
        orders_totally(ord),
    ensures
        total_preorder(not_greater(ord)),
        settles(swap_if_greater(ord), not_greater(ord)),
        settles(swap_if_less(ord), reversed(not_greater(ord))),
{
    let le = not_greater(ord);
    let greater = swap_if_greater(ord);
    let less = swap_if_less(ord);
    let rev = reversed(le);
    assert forall|a: T, b: T| #[trigger] le(a, b) || #[trigger] le(b, a) by {
        assert(ord(b, a) == Ordering::Less <==> ord(a, b) == Ordering::Greater);
    }
    assert forall|a: T, b: T| (#[trigger] greater(a, b) ==> le(b, a)) && (!greater(a, b) ==> le(
        a,
        b,
    )) by {
        assert(ord(b, a) == Ordering::Less <==> ord(a, b) == Ordering::Greater);
    }
    assert forall|a: T, b: T| (#[trigger] less(a, b) ==> rev(b, a)) && (!less(a, b) ==> rev(
        a,
        b,
    )) by {
        assert(ord(a, b) == Ordering::Less <==> ord(b, a) == Ordering::Greater);
    }
}

/// The opposite of the comparison of a total preorder is one too, and its
/// "is not after" is the reverse.
pub proof fn lemma_opposite_orders_totally<T>(ord: spec_fn(T, T) -> Ordering)
    requires
        orders_totally(ord),
    ensures
        orders_totally(opposite(ord)),
        not_greater(opposite(ord)) == reversed(not_greater(ord)),
{
    let opp = opposite(ord);
    let le = not_greater(ord);
    let le_opp = not_greater(opp);
    assert(le_opp =~= reversed(le));
    assert forall|a: T, b: T| #[trigger] opp(a, b) == Ordering::Less <==> opp(b, a)
        == Ordering::Greater by {
        assert(ord(b, a) == Ordering::Less <==> ord(a, b) == Ordering::Greater);
    }
    assert forall|a: T, b: T, c: T| #[trigger] le_opp(a, b) && #[trigger] le_opp(b, c) implies le_opp(
        a,
        c,
    ) by {
        lemma_chain(le, c, b, a);
    }
}

/// The three-way comparison that the operators `<` and `>` of a type with
/// `PartialOrd` follow. Elements that cannot be compared are neither less nor
/// greater, so they count as equal here.
pub open spec fn operator_order<T: PartialOrd>() -> spec_fn(T, T) -> Ordering {
    |a: T, b: T|
        match a.partial_cmp_spec(&b) {
            Some(answer) => answer,
            None => Ordering::Equal,
        }
}

/// A type that keeps the laws of comparison that vstd states has the natural
/// comparison of a total preorder.
pub proof fn lemma_lawful_order_is_total<T: Ord>()
    requires
        vstd::laws_cmp::obeys_cmp::<T>(),
    ensures
        T::obeys_cmp_spec(),
        orders_totally(natural_order::<T>()),
{
    reveal(vstd::laws_cmp::obeys_cmp_partial_ord);
    reveal(vstd::laws_cmp::obeys_cmp_ord);
    reveal(vstd::laws_cmp::obeys_partial_cmp_spec_properties);
    reveal(vstd::laws_eq::obeys_eq_spec_properties);
    let ord = natural_order::<T>();
    let le = not_greater(ord);
    assert forall|a: T, b: T| #[trigger] ord(a, b) == Ordering::Less <==> ord(b, a)
        == Ordering::Greater by {
        assert(a.partial_cmp_spec(&b) == Some(a.cmp_spec(&b)));
        assert(b.partial_cmp_spec(&a) == Some(b.cmp_spec(&a)));
    }
    assert forall|a: T, b: T, c: T| #[trigger] le(a, b) && #[trigger] le(b, c) implies le(a, c) by {
        assert(a.partial_cmp_spec(&b) == Some(a.cmp_spec(&b)));
        assert(b.partial_cmp_spec(&c) == Some(b.cmp_spec(&c)));
        assert(a.partial_cmp_spec(&c) == Some(a.cmp_spec(&c)));
        assert(c.partial_cmp_spec(&a) == Some(c.cmp_spec(&a)));
        assert(c.partial_cmp_spec(&b) == Some(c.cmp_spec(&b)));
        assert(b.partial_cmp_spec(&a) == Some(b.cmp_spec(&a)));
        if a.cmp_spec(&c) == Ordering::Greater {
            assert(c.partial_cmp_spec(&a) == Some(Ordering::Less));
            if a.cmp_spec(&b) == Ordering::Less {
                assert(c.partial_cmp_spec(&b) == Some(Ordering::Less));
                assert(b.partial_cmp_spec(&c) == Some(Ordering::Greater));
            } else if b.cmp_spec(&c) == Ordering::Less {
                assert(b.partial_cmp_spec(&a) == Some(Ordering::Less));
                assert(a.partial_cmp_spec(&b) == Some(Ordering::Greater));
            } else {
                assert(a.eq_spec(&b));
                assert(b.eq_spec(&c));
                assert(a.eq_spec(&c));
            }
        }
    }
}

/// In a type that keeps the laws of comparison that vstd states, the
/// operators follow the natural comparison.
pub proof fn lemma_lawful_operators<T: Ord>()
    requires
        vstd::laws_cmp::obeys_cmp::<T>(),
    ensures
        T::obeys_partial_cmp_spec(),
        operator_order::<T>() == natural_order::<T>(),
{
    reveal(vstd::laws_cmp::obeys_cmp_partial_ord);
    reveal(vstd::laws_cmp::obeys_cmp_ord);
    let operators = operator_order::<T>();
    let natural = natural_order::<T>();
    assert forall|a: T, b: T| #[trigger] operators(a, b) == natural(a, b) by {
        assert(a.partial_cmp_spec(&b) == Some(a.cmp_spec(&b)));
    }
    assert(operators =~= natural);
}

} // verus!
