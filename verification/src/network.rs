//! The bitonic sorting network as a mathematical function on sequences.
//!
//! A network is a fixed arrangement of compare-exchange steps. Each step looks
//! at a pair `(a, b)` of elements, `a` standing before `b`, and exchanges them
//! when a *swap rule* holds of the pair. The functions here say what the
//! network computes from a sequence and its swap rules; they pay no regard to
//! whether the rules come from an order.
use vstd::prelude::*;

verus! {

/// A swap rule: whether the pair `(a, b)`, with `a` standing before `b`, is
/// exchanged.
pub type SwapRule<T> = spec_fn(T, T) -> bool;

/// The element at position `k` after the pairs `(j, j + half)` with
/// `j < done` have been compared and exchanged.
pub open spec fn exchanged_at<T>(s: Seq<T>, swap: SwapRule<T>, done: int, k: int) -> T {
    let half = s.len() as int / 2;
    if 0 <= k < done && k < half {
        if swap(s[k], s[k + half]) {
            s[k + half]
        } else {
            s[k]
        }
    } else if half <= k < half + done && k < 2 * half {
        if swap(s[k - half], s[k]) {
            s[k - half]
        } else {
            s[k]
        }
    } else {
        s[k]
    }
}

/// The sequence after the first `done` pairs have been compared and exchanged.
pub open spec fn exchange_prefix<T>(s: Seq<T>, swap: SwapRule<T>, done: int) -> Seq<T> {
    Seq::new(s.len(), |k: int| exchanged_at(s, swap, done, k))
}

/// One pass of the network over `s`: every element of the first half is
/// compared with its partner in the second half, and the two are exchanged
/// where `swap` holds. With an odd length the last element has no partner and
/// stays.
pub open spec fn compare_exchange<T>(s: Seq<T>, swap: SwapRule<T>) -> Seq<T> {
    exchange_prefix(s, swap, s.len() as int / 2)
}

/// The bitonic merger: one compare-exchange pass, then the merger on each
/// half.
pub open spec fn bitonic_merge<T>(s: Seq<T>, swap: SwapRule<T>) -> Seq<T>
    decreases s.len(),
{
    if s.len() <= 1 {
        s
    } else {
        let passed = compare_exchange(s, swap);
        bitonic_merge(first_half(passed), swap) + bitonic_merge(second_half(passed), swap)
    }
}

/// The rule that a range follows when it is merged: `ascending` when the
/// range is built forward, `descending` otherwise.
pub open spec fn rule_for<T>(ascending: SwapRule<T>, descending: SwapRule<T>, forward: bool)
    -> SwapRule<T> {
    if forward {
        ascending
    } else {
        descending
    }
}

/// The whole network: the first half is built forward, the second half
/// backward, and the two are merged in the direction `forward`.
pub open spec fn bitonic_sort<T>(
    s: Seq<T>,
    ascending: SwapRule<T>,
    descending: SwapRule<T>,
    forward: bool,
) -> Seq<T>
    decreases s.len(),
{
    if s.len() <= 1 {
        s
    } else {
        let first = bitonic_sort(first_half(s), ascending, descending, true);
        let second = bitonic_sort(second_half(s), ascending, descending, false);
        bitonic_merge(first + second, rule_for(ascending, descending, forward))
    }
}

/// Exchanging two elements of a sequence keeps its multiset of elements.
pub proof fn lemma_exchange_keeps_multiset<T>(s: Seq<T>, i: int, j: int)
    requires
        0 <= i < s.len(),
        0 <= j < s.len(),
    ensures
        s.update(i, s[j]).update(j, s[i]).to_multiset() == s.to_multiset(),
{
    broadcast use vstd::seq_lib::group_to_multiset_ensures;
    let t = s.update(i, s[j]).update(j, s[i]);
    assert forall|v: T| t.to_multiset().count(v) == s.to_multiset().count(v) by {
        s.to_multiset_ensures();
        t.to_multiset_ensures();
    }
    assert(t.to_multiset() =~= s.to_multiset());
}

/// The first half of a sequence: its first `len / 2` elements.
pub open spec fn first_half<T>(s: Seq<T>) -> Seq<T> {
    s.subrange(0, s.len() as int / 2)
}

/// The second half of a sequence: what follows its first half.
pub open spec fn second_half<T>(s: Seq<T>) -> Seq<T> {
    s.subrange(s.len() as int / 2, s.len() as int)
}

/// A sequence is its two halves side by side.
pub proof fn lemma_halves_join<T>(s: Seq<T>)
    ensures
        first_half(s) + second_half(s) == s,
{
    assert(first_half(s) + second_half(s) =~= s);
}

/// Rearranging each of two parts rearranges the whole.
pub proof fn lemma_join_keeps_multiset<T>(a: Seq<T>, b: Seq<T>, c: Seq<T>, d: Seq<T>)
    requires
        a.to_multiset() == c.to_multiset(),
        b.to_multiset() == d.to_multiset(),
    ensures
        (a + b).to_multiset() == (c + d).to_multiset(),
{
    vstd::seq_lib::lemma_multiset_commutative(a, b);
    vstd::seq_lib::lemma_multiset_commutative(c, d);
}

/// Comparing and exchanging pairs rearranges the sequence.
pub proof fn lemma_exchange_prefix_permutes<T>(s: Seq<T>, swap: SwapRule<T>, done: int)
    requires
        0 <= done <= s.len() as int / 2,
    ensures
        exchange_prefix(s, swap, done).len() == s.len(),
        exchange_prefix(s, swap, done).to_multiset() == s.to_multiset(),
    decreases done,
{
    if done == 0 {
        assert(exchange_prefix(s, swap, done) =~= s);
    } else {
        let half = s.len() as int / 2;
        let before = exchange_prefix(s, swap, done - 1);
        let after = exchange_prefix(s, swap, done);
        lemma_exchange_prefix_permutes(s, swap, done - 1);
        let i = done - 1;
        if swap(s[i], s[i + half]) {
            assert(after =~= before.update(i, before[i + half]).update(i + half, before[i]));
            lemma_exchange_keeps_multiset(before, i, i + half);
        } else {
            assert(after =~= before);
        }
    }
}

/// A compare-exchange pass rearranges the sequence.
pub proof fn lemma_pass_permutes<T>(s: Seq<T>, swap: SwapRule<T>)
    ensures
        compare_exchange(s, swap).len() == s.len(),
        compare_exchange(s, swap).to_multiset() == s.to_multiset(),
{
    lemma_exchange_prefix_permutes(s, swap, s.len() as int / 2);
}

/// The merger rearranges the sequence.
pub proof fn lemma_merge_permutes<T>(s: Seq<T>, swap: SwapRule<T>)
    ensures
        bitonic_merge(s, swap).len() == s.len(),
        bitonic_merge(s, swap).to_multiset() == s.to_multiset(),
    decreases s.len(),
{
    if s.len() > 1 {
        let passed = compare_exchange(s, swap);
        lemma_pass_permutes(s, swap);
        lemma_merge_permutes(first_half(passed), swap);
        lemma_merge_permutes(second_half(passed), swap);
        lemma_halves_join(passed);
        lemma_join_keeps_multiset(
            bitonic_merge(first_half(passed), swap),
            bitonic_merge(second_half(passed), swap),
            first_half(passed),
            second_half(passed),
        );
    }
}

/// The network rearranges the sequence: what comes out has the elements that
/// went in, each as often as it went in.
pub proof fn lemma_sort_permutes<T>(
    s: Seq<T>,
    ascending: SwapRule<T>,
    descending: SwapRule<T>,
    forward: bool,
)
    ensures
        bitonic_sort(s, ascending, descending, forward).len() == s.len(),
        bitonic_sort(s, ascending, descending, forward).to_multiset() == s.to_multiset(),
    decreases s.len(),
{
    if s.len() > 1 {
        let first = bitonic_sort(first_half(s), ascending, descending, true);
        let second = bitonic_sort(second_half(s), ascending, descending, false);
        lemma_sort_permutes(first_half(s), ascending, descending, true);
        lemma_sort_permutes(second_half(s), ascending, descending, false);
        lemma_halves_join(s);
        lemma_join_keeps_multiset(first, second, first_half(s), second_half(s));
        lemma_merge_permutes(first + second, rule_for(ascending, descending, forward));
    }
}

/// Every element of a rearrangement is an element of the sequence.
pub proof fn lemma_rearranged_element<T>(s: Seq<T>, t: Seq<T>, i: int) -> (j: int)
    requires
        t.to_multiset() == s.to_multiset(),
        0 <= i < t.len(),
    ensures
        0 <= j < s.len(),
        s[j] == t[i],
{
    vstd::seq_lib::to_multiset_contains(s, t[i]);
    vstd::seq_lib::to_multiset_contains(t, t[i]);
    assert(t.contains(t[i]));
    choose|j: int| 0 <= j < s.len() && s[j] == t[i]
}

} // verus!
