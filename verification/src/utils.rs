//! Vectors to try the sorters on, and checks of what they return.
use vstd::prelude::*;
use vstd::relations::sorted_by;
use vstd::std_specs::cmp::{OrdSpec, PartialOrdSpec};
use rand::distributions::{DistIter, Standard};
use rand::{Rng, SeedableRng};
use rand_pcg::Pcg64Mcg;
use std::cmp::Ordering;
use crate::comparator::{natural_order, not_greater, opposite};
use crate::order::Relation;

verus! {

/// The generator `rand_pcg::Pcg64Mcg`. Nothing is said of its state.
#[verifier::external_type_specification]
#[verifier::external_body]
pub struct ExPcg64Mcg(rand_pcg::Pcg64Mcg);

/// The distribution `rand::distributions::Standard`.
#[verifier::external_type_specification]
#[verifier::external_body]
pub struct ExStandard(rand::distributions::Standard);

/// The endless iterator `rand::distributions::DistIter` over the samples that
/// a generator draws from a distribution.
#[verifier::external_type_specification]
#[verifier::external_body]
#[verifier::reject_recursive_types(D)]
#[verifier::reject_recursive_types(R)]
#[verifier::reject_recursive_types(T)]
pub struct ExDistIter<D, R, T>(rand::distributions::DistIter<D, R, T>);

/// `SeedableRng::from_seed` for `Pcg64Mcg`: the generator that starts from
/// the given seed. Every seed is accepted.
#[verifier::external_body]
fn seeded(seed: [u8; 16]) -> Pcg64Mcg {
    Pcg64Mcg::from_seed(seed)
}

/// `Rng::sample` with the standard distribution: the next `u32` of the
/// generator, which may be any.
#[verifier::external_body]
fn sample(rng: &mut Pcg64Mcg) -> u32 {
    rng.sample(&Standard)
}

/// `Rng::sample_iter` with the standard distribution: the iterator over all
/// further `u32` of the generator.
#[verifier::external_body]
fn sample_iter(rng: Pcg64Mcg) -> DistIter<Standard, Pcg64Mcg, u32> {
    rng.sample_iter(Standard)
}

/// `Iterator::next` of `DistIter`: the next sample. The iterator never ends,
/// so there always is one.
#[verifier::external_body]
fn next_sample(samples: &mut DistIter<Standard, Pcg64Mcg, u32>) -> (sample: Option<u32>)
    ensures
        sample is Some,
{
    samples.next()
}

/// A vector of `n` numbers drawn from a generator that always starts from the
/// same seed.
pub fn new_u32_vec(n: usize) -> (v: Vec<u32>)
    ensures
        v@.len() == n,
{
    let mut rng = seeded([0; 16]);
    let mut v = Vec::with_capacity(n);
    for drawn in 0..n
        invariant
            v@.len() == drawn,
    {
        v.push(sample(&mut rng));
    }
    v
}

/// A vector of `n` numbers drawn from a generator that always starts from the
/// same seed, taken from the iterator over its samples.
pub fn refined_new_u32_vec(n: usize) -> (v: Vec<u32>)
    ensures
        v@.len() == n,
{
    let rng = seeded([0; 16]);
    let mut samples = sample_iter(rng);
    let mut v = Vec::new();
    for drawn in 0..n
        invariant
            v@.len() == drawn,
    {
        v.push(next_sample(&mut samples).unwrap());
    }
    v
}

/// The relation `a <= b` of a type with `PartialOrd`.
pub open spec fn at_most<T: PartialOrd>() -> Relation<T> {
    |a: T, b: T| a.partial_cmp_spec(&b) matches Some(Ordering::Less | Ordering::Equal)
}

/// The relation `a >= b` of a type with `PartialOrd`.
pub open spec fn at_least<T: PartialOrd>() -> Relation<T> {
    |a: T, b: T| a.partial_cmp_spec(&b) matches Some(Ordering::Greater | Ordering::Equal)
}

/// Every element stands in the relation to the one after it.
pub open spec fn neighbours_sorted<T>(s: Seq<T>, le: Relation<T>) -> bool {
    forall|i: int| 0 < i < s.len() ==> le(s[i - 1], #[trigger] s[i])
}

/// Of a type that keeps the laws of comparison that vstd states, a sequence
/// that is sorted by the natural comparison passes the ascending check, and
/// one that is sorted by its opposite passes the descending check.
pub proof fn lemma_sorted_passes_check<T: Ord>(s: Seq<T>)
    requires
        vstd::laws_cmp::obeys_cmp::<T>(),
    ensures
        T::obeys_partial_cmp_spec(),
        sorted_by(s, not_greater(natural_order::<T>())) ==> neighbours_sorted(s, at_most::<T>()),
        sorted_by(s, not_greater(opposite(natural_order::<T>()))) ==> neighbours_sorted(
            s,
            at_least::<T>(),
        ),
{
    reveal(vstd::laws_cmp::obeys_cmp_partial_ord);
    reveal(vstd::laws_cmp::obeys_cmp_ord);
    reveal(vstd::laws_cmp::obeys_partial_cmp_spec_properties);
    let up = not_greater(natural_order::<T>());
    let down = not_greater(opposite(natural_order::<T>()));
    if sorted_by(s, up) {
        assert forall|i: int| 0 < i < s.len() implies at_most::<T>()(s[i - 1], #[trigger] s[i]) by {
            assert(up(s[i - 1], s[i]));
            assert(s[i - 1].partial_cmp_spec(&s[i]) == Some(s[i - 1].cmp_spec(&s[i])));
        }
    }
    if sorted_by(s, down) {
        assert forall|i: int| 0 < i < s.len() implies at_least::<T>()(s[i - 1], #[trigger] s[i]) by {
            assert(down(s[i - 1], s[i]));
            assert(s[i - 1].partial_cmp_spec(&s[i]) == Some(s[i - 1].cmp_spec(&s[i])));
            assert(s[i].partial_cmp_spec(&s[i - 1]) == Some(s[i].cmp_spec(&s[i - 1])));
        }
    }
}

/// Whether each element of `x` is `<=` the one after it.
pub fn is_sorted_ascending<T: Ord>(x: &[T]) -> (sorted: bool)
    ensures
        T::obeys_partial_cmp_spec() ==> sorted == neighbours_sorted(x@, at_most::<T>()),
{
    let mut i: usize = 1;
    while i < x.len()
        invariant
            1 <= i,
            T::obeys_partial_cmp_spec() ==> forall|k: int|
                0 < k < i && k < x@.len() ==> at_most::<T>()(x@[k - 1], #[trigger] x@[k]),
        decreases x.len() - i,
    {
        if !(x[i - 1] <= x[i]) {
            return false;
        }
        i += 1;
    }
    true
}

/// Whether each element of `x` is `>=` the one after it.
pub fn is_sorted_descending<T: Ord>(x: &[T]) -> (sorted: bool)
    ensures
        T::obeys_partial_cmp_spec() ==> sorted == neighbours_sorted(x@, at_least::<T>()),
{
    let mut i: usize = 1;
    while i < x.len()
        invariant
            1 <= i,
            T::obeys_partial_cmp_spec() ==> forall|k: int|
                0 < k < i && k < x@.len() ==> at_least::<T>()(x@[k - 1], #[trigger] x@[k]),
        decreases x.len() - i,
    {
        if !(x[i - 1] >= x[i]) {
            return false;
        }
        i += 1;
    }
    true
}

} // verus!
