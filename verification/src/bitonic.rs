//! Why the network sorts.
//!
//! The argument looks at a sequence through a threshold: fix an element `t`
//! and mark every position whose element lies strictly above `t`. A sequence
//! is sorted when, for every threshold, no marked position stands before an
//! unmarked one. It is *bitonic* when, for every threshold, the marked
//! positions are one contiguous band, or all but one contiguous band. One
//! compare-exchange pass over a bitonic sequence leaves two bitonic halves,
//! with nothing in the first half after anything in the second.
use vstd::prelude::*;
use vstd::relations::sorted_by;
use crate::length::{lemma_sortable_halves, sortable_length};
use crate::network::{
    bitonic_merge, bitonic_sort, compare_exchange, first_half, lemma_merge_permutes,
    lemma_pass_permutes, lemma_rearranged_element, lemma_sort_permutes, rule_for, second_half,
    SwapRule,
};
use crate::order::{
    directed, lemma_chain, lemma_comparable, lemma_reversed_total_preorder,
    lemma_sorted_arrangement_is_unique, lemma_ties_reversed, reversed, settles, ties_are_equal,
    total_preorder, Relation,
};

verus! {

/// `a` lies strictly above the threshold `t`.
pub open spec fn above<T>(le: Relation<T>, t: T, a: T) -> bool {
    !le(a, t)
}

/// Seen through the threshold `t`, the marked positions of `s` are exactly
/// those in `[from, to)` (when `inside`), or exactly those outside it.
pub open spec fn band<T>(s: Seq<T>, le: Relation<T>, t: T, from: int, to: int, inside: bool)
    -> bool {
    &&& 0 <= from <= to <= s.len()
    &&& forall|k: int|
        0 <= k < s.len() ==> (above(le, t, #[trigger] s[k]) <==> (inside <==> from <= k < to))
}

/// Seen through the threshold `t`, the marked positions of `s` form a band.
pub open spec fn banded<T>(s: Seq<T>, le: Relation<T>, t: T) -> bool {
    exists|from: int, to: int, inside: bool| band(s, le, t, from, to, inside)
}

/// The sequence is bitonic: banded through every threshold.
pub open spec fn bitonic<T>(s: Seq<T>, le: Relation<T>) -> bool {
    forall|t: T| #[trigger] banded(s, le, t)
}

/// Through any threshold, a pass puts the smaller mark of each pair into the
/// first half and the larger into the second.
proof fn lemma_pass_marks<T>(s: Seq<T>, le: Relation<T>, swap: SwapRule<T>, t: T, k: int)
    requires
        total_preorder(le),
        settles(swap, le),
        0 <= k < s.len() as int / 2,
    ensures
        above(le, t, compare_exchange(s, swap)[k]) <==> (above(le, t, s[k]) && above(
            le,
            t,
            s[k + s.len() as int / 2],
        )),
        above(le, t, compare_exchange(s, swap)[k + s.len() as int / 2]) <==> (above(le, t, s[k])
            || above(le, t, s[k + s.len() as int / 2])),
{
    let half = s.len() as int / 2;
    let a = s[k];
    let b = s[k + half];
    if swap(a, b) {
        assert(le(b, a));
        if le(a, t) {
            lemma_chain(le, b, a, t);
        }
    } else {
        assert(le(a, b));
        if le(b, t) {
            lemma_chain(le, a, b, t);
        }
    }
}

/// One pass over a sequence that is banded through `t` leaves both halves
/// banded through `t`, and either nothing marked in the first half or
/// everything marked in the second.
proof fn lemma_pass_keeps_band<T>(
    s: Seq<T>,
    le: Relation<T>,
    swap: SwapRule<T>,
    t: T,
    from: int,
    to: int,
    inside: bool,
)
    requires
        total_preorder(le),
        settles(swap, le),
        s.len() % 2 == 0,
        band(s, le, t, from, to, inside),
    ensures
        banded(first_half(compare_exchange(s, swap)), le, t),
        banded(second_half(compare_exchange(s, swap)), le, t),
        (forall|k: int|
            0 <= k < s.len() as int / 2 ==> !above(le, t, #[trigger] compare_exchange(s, swap)[k]))
            || (forall|k: int|
            s.len() as int / 2 <= k < s.len() ==> above(
                le,
                t,
                #[trigger] compare_exchange(s, swap)[k],
            )),
{
    let half = s.len() as int / 2;
    let passed = compare_exchange(s, swap);
    let low = first_half(passed);
    let high = second_half(passed);
    assert forall|k: int| 0 <= k < half implies (above(le, t, #[trigger] low[k]) <==> (above(
        le,
        t,
        s[k],
    ) && above(le, t, s[k + half]))) && (above(le, t, #[trigger] high[k]) <==> (above(le, t, s[k])
        || above(le, t, s[k + half]))) by {
        lemma_pass_marks(s, le, swap, t, k);
        assert(low[k] == passed[k]);
        assert(high[k] == passed[k + half]);
    }
    assert forall|k: int| 0 <= k < half implies (above(le, t, #[trigger] passed[k]) <==> above(
        le,
        t,
        low[k],
    )) by {
        assert(low[k] == passed[k]);
    }
    assert forall|k: int| half <= k < s.len() implies (above(le, t, #[trigger] passed[k]) <==> above(
        le,
        t,
        high[k - half],
    )) by {
        assert(high[k - half] == passed[k]);
    }
    if inside {
        if to <= half {
            assert(band(low, le, t, 0, 0, true));
            assert(band(high, le, t, from, to, true));
        } else if from >= half {
            assert(band(low, le, t, 0, 0, true));
            assert(band(high, le, t, from - half, to - half, true));
        } else if to - half >= from {
            assert(band(low, le, t, from, to - half, true));
            assert(band(high, le, t, 0, half, true));
        } else {
            assert(band(low, le, t, 0, 0, true));
            assert(band(high, le, t, to - half, from, false));
        }
    } else {
        if to <= half {
            assert(band(low, le, t, from, to, false));
            assert(band(high, le, t, 0, half, true));
        } else if from >= half {
            assert(band(low, le, t, from - half, to - half, false));
            assert(band(high, le, t, 0, half, true));
        } else if to - half <= from {
            assert(band(low, le, t, to - half, from, true));
            assert(band(high, le, t, 0, half, true));
        } else {
            assert(band(low, le, t, 0, 0, true));
            assert(band(high, le, t, from, to - half, false));
        }
    }
}

/// One pass over a bitonic sequence leaves both halves bitonic.
pub proof fn lemma_pass_keeps_bitonic<T>(s: Seq<T>, le: Relation<T>, swap: SwapRule<T>)
    requires
        total_preorder(le),
        settles(swap, le),
        s.len() % 2 == 0,
        bitonic(s, le),
    ensures
        bitonic(first_half(compare_exchange(s, swap)), le),
        bitonic(second_half(compare_exchange(s, swap)), le),
{
    let passed = compare_exchange(s, swap);
    assert forall|t: T| #[trigger] banded(first_half(passed), le, t) by {
        assert(banded(s, le, t));
        let (from, to, inside) = choose|from: int, to: int, inside: bool|
            band(s, le, t, from, to, inside);
        lemma_pass_keeps_band(s, le, swap, t, from, to, inside);
    }
    assert forall|t: T| #[trigger] banded(second_half(passed), le, t) by {
        assert(banded(s, le, t));
        let (from, to, inside) = choose|from: int, to: int, inside: bool|
            band(s, le, t, from, to, inside);
        lemma_pass_keeps_band(s, le, swap, t, from, to, inside);
    }
}

/// One pass over a bitonic sequence leaves nothing in the first half after
/// anything in the second.
pub proof fn lemma_pass_separates<T>(
    s: Seq<T>,
    le: Relation<T>,
    swap: SwapRule<T>,
    p: int,
    q: int,
)
    requires
        total_preorder(le),
        settles(swap, le),
        s.len() % 2 == 0,
        bitonic(s, le),
        0 <= p < s.len() as int / 2,
        s.len() as int / 2 <= q < s.len(),
    ensures
        le(compare_exchange(s, swap)[p], compare_exchange(s, swap)[q]),
{
    let passed = compare_exchange(s, swap);
    let t = passed[q];
    assert(banded(s, le, t));
    let (from, to, inside) = choose|from: int, to: int, inside: bool|
        band(s, le, t, from, to, inside);
    lemma_pass_keeps_band(s, le, swap, t, from, to, inside);
    lemma_comparable(le, t, t);
    assert(!above(le, t, passed[q]));
    assert(!above(le, t, passed[p]));
}

/// Two sorted sequences side by side, with nothing in the first after
/// anything in the second, are sorted.
proof fn lemma_join_sorted<T>(a: Seq<T>, b: Seq<T>, le: Relation<T>)
    requires
        sorted_by(a, le),
        sorted_by(b, le),
        forall|i: int, j: int| 0 <= i < a.len() && 0 <= j < b.len() ==> #[trigger] le(a[i], b[j]),
    ensures
        sorted_by(a + b, le),
{
    let c = a + b;
    assert forall|i: int, j: int| 0 <= i < j < c.len() implies #[trigger] le(c[i], c[j]) by {
        if j < a.len() {
            assert(c[i] == a[i] && c[j] == a[j]);
        } else if i >= a.len() {
            assert(c[i] == b[i - a.len()] && c[j] == b[j - a.len()]);
        } else {
            assert(c[i] == a[i] && c[j] == b[j - a.len()]);
        }
    }
}

/// The merger sorts a bitonic sequence of sortable length.
pub proof fn lemma_merge_sorts<T>(s: Seq<T>, le: Relation<T>, swap: SwapRule<T>)
    requires
        total_preorder(le),
        settles(swap, le),
        sortable_length(s.len()),
        bitonic(s, le),
    ensures
        sorted_by(bitonic_merge(s, swap), le),
    decreases s.len(),
{
    if s.len() > 1 {
        let passed = compare_exchange(s, swap);
        let low = first_half(passed);
        let high = second_half(passed);
        let half = s.len() as int / 2;
        lemma_sortable_halves(s.len());
        lemma_pass_permutes(s, swap);
        lemma_pass_keeps_bitonic(s, le, swap);
        lemma_merge_sorts(low, le, swap);
        lemma_merge_sorts(high, le, swap);
        lemma_merge_permutes(low, swap);
        lemma_merge_permutes(high, swap);
        let merged_low = bitonic_merge(low, swap);
        let merged_high = bitonic_merge(high, swap);
        assert forall|i: int, j: int|
            0 <= i < merged_low.len() && 0 <= j < merged_high.len() implies #[trigger] le(
            merged_low[i],
            merged_high[j],
        ) by {
            let p = lemma_rearranged_element(low, merged_low, i);
            let q = lemma_rearranged_element(high, merged_high, j);
            assert(low[p] == passed[p]);
            assert(high[q] == passed[q + half]);
            lemma_pass_separates(s, le, swap, p, q + half);
        }
        lemma_join_sorted(merged_low, merged_high, le);
    }
}

/// Where a property of positions, once it holds, holds of every later
/// position, there is a point from which on it holds.
proof fn lemma_step_point(n: int, marked: spec_fn(int) -> bool) -> (at: int)
    requires
        0 <= n,
        forall|i: int, j: int| 0 <= i < j < n && #[trigger] marked(i) ==> #[trigger] marked(j),
    ensures
        0 <= at <= n,
        forall|k: int| 0 <= k < n ==> (#[trigger] marked(k) <==> at <= k),
    decreases n,
{
    if n == 0 {
        0
    } else if !marked(n - 1) {
        assert forall|k: int| 0 <= k < n implies !#[trigger] marked(k) by {
            if k < n - 1 && marked(k) {
                assert(marked(n - 1));
            }
        }
        n
    } else {
        lemma_step_point(n - 1, marked)
    }
}

/// A sequence that rises and then falls is bitonic, by the order and by its
/// reverse.
pub proof fn lemma_rise_and_fall_is_bitonic<T>(a: Seq<T>, b: Seq<T>, le: Relation<T>)
    requires
        total_preorder(le),
        sorted_by(a, le),
        sorted_by(b, reversed(le)),
    ensures
        bitonic(a + b, le),
        bitonic(a + b, reversed(le)),
{
    let c = a + b;
    let rev = reversed(le);
    assert forall|t: T| #[trigger] banded(c, le, t) by {
        let in_a = |k: int| above(le, t, a[k]);
        let not_in_b = |k: int| !above(le, t, b[k]);
        assert forall|i: int, j: int| 0 <= i < j < a.len() && #[trigger] in_a(i) implies #[trigger] in_a(
            j,
        ) by {
            assert(le(a[i], a[j]));
            if le(a[j], t) {
                lemma_chain(le, a[i], a[j], t);
            }
        }
        assert forall|i: int, j: int|
            0 <= i < j < b.len() && #[trigger] not_in_b(i) implies #[trigger] not_in_b(j) by {
            assert(rev(b[i], b[j]));
            lemma_chain(le, b[j], b[i], t);
        }
        let from = lemma_step_point(a.len() as int, in_a);
        let to = lemma_step_point(b.len() as int, not_in_b);
        assert forall|k: int| 0 <= k < c.len() implies (above(le, t, #[trigger] c[k]) <==> (from
            <= k < a.len() + to)) by {
            if k < a.len() {
                assert(c[k] == a[k]);
                assert(in_a(k) <==> from <= k);
            } else {
                assert(c[k] == b[k - a.len()]);
                assert(not_in_b(k - a.len()) <==> to <= k - a.len());
            }
        }
        assert(band(c, le, t, from, a.len() + to, true));
    }
    assert forall|t: T| #[trigger] banded(c, rev, t) by {
        let not_in_a = |k: int| !above(rev, t, a[k]);
        let in_b = |k: int| above(rev, t, b[k]);
        assert forall|i: int, j: int|
            0 <= i < j < a.len() && #[trigger] not_in_a(i) implies #[trigger] not_in_a(j) by {
            assert(le(a[i], a[j]));
            lemma_chain(le, t, a[i], a[j]);
        }
        assert forall|i: int, j: int| 0 <= i < j < b.len() && #[trigger] in_b(i) implies #[trigger] in_b(
            j,
        ) by {
            assert(rev(b[i], b[j]));
            if le(t, b[j]) {
                lemma_chain(le, t, b[j], b[i]);
            }
        }
        let from = lemma_step_point(a.len() as int, not_in_a);
        let to = lemma_step_point(b.len() as int, in_b);
        assert forall|k: int| 0 <= k < c.len() implies (above(rev, t, #[trigger] c[k]) <==> !(from
            <= k < a.len() + to)) by {
            if k < a.len() {
                assert(c[k] == a[k]);
                assert(not_in_a(k) <==> from <= k);
            } else {
                assert(c[k] == b[k - a.len()]);
                assert(in_b(k - a.len()) <==> to <= k - a.len());
            }
        }
        assert(band(c, rev, t, from, a.len() + to, false));
    }
}

/// The network sorts every sequence of sortable length, in the direction
/// asked for.
pub proof fn lemma_sort_sorts<T>(
    s: Seq<T>,
    le: Relation<T>,
    ascending: SwapRule<T>,
    descending: SwapRule<T>,
    forward: bool,
)
    requires
        total_preorder(le),
        settles(ascending, le),
        settles(descending, reversed(le)),
        sortable_length(s.len()),
    ensures
        sorted_by(bitonic_sort(s, ascending, descending, forward), directed(le, forward)),
    decreases s.len(),
{
    if s.len() > 1 {
        let first = bitonic_sort(first_half(s), ascending, descending, true);
        let second = bitonic_sort(second_half(s), ascending, descending, false);
        lemma_sortable_halves(s.len());
        lemma_sort_sorts(first_half(s), le, ascending, descending, true);
        lemma_sort_sorts(second_half(s), le, ascending, descending, false);
        lemma_sort_permutes(first_half(s), ascending, descending, true);
        lemma_sort_permutes(second_half(s), ascending, descending, false);
        lemma_rise_and_fall_is_bitonic(first, second, le);
        lemma_reversed_total_preorder(le);
        lemma_merge_sorts(
            first + second,
            directed(le, forward),
            rule_for(ascending, descending, forward),
        );
    }
}

/// The network leaves a sequence that is sorted in the direction asked for
/// as it is, where no two different elements tie.
pub proof fn lemma_sort_keeps_sorted<T>(
    s: Seq<T>,
    le: Relation<T>,
    ascending: SwapRule<T>,
    descending: SwapRule<T>,
    forward: bool,
)
    requires
        total_preorder(le),
        settles(ascending, le),
        settles(descending, reversed(le)),
        sortable_length(s.len()),
        sorted_by(s, directed(le, forward)),
        ties_are_equal(s, le),
    ensures
        bitonic_sort(s, ascending, descending, forward) == s,
{
    lemma_sort_sorts(s, le, ascending, descending, forward);
    lemma_sort_permutes(s, ascending, descending, forward);
    lemma_reversed_total_preorder(le);
    lemma_ties_reversed(s, le);
    lemma_sorted_arrangement_is_unique(
        s,
        bitonic_sort(s, ascending, descending, forward),
        directed(le, forward),
    );
}

} // verus!
