//! Bitonic sort, verified.
//!
//! A bitonic sorting network orders a sequence whose length is a power of two
//! by a fixed arrangement of compare-exchange steps. This crate holds three
//! sorters built on it, each in a module of its own:
//!
//! - [`second`] compares the elements with `<` and `>`;
//! - [`third`] asks a comparator, and takes one step after another;
//! - [`fourth`] asks a comparator, and hands the two halves of a large range
//!   to two tasks that run in parallel.
//!
//! Every sorter refuses a sequence whose length is neither zero nor a power of
//! two and leaves it untouched; otherwise it rearranges the elements in place.
//! The contracts say that what comes out is a rearrangement of what went in,
//! that it is exactly what the network of [`network`] computes, and that it is
//! sorted where the comparison is that of a total preorder. [`bitonic`] holds
//! the proof that the network sorts.
//!
//! [`utils`] makes vectors to try the sorters on and tests whether a slice is
//! sorted; [`toyvec`] is a small growable vector.
use vstd::prelude::*;

pub mod bitonic;
pub mod comparator;
pub mod fourth;
pub mod length;
pub mod network;
pub mod order;
pub mod outcome;
pub mod second;
pub mod slices;
pub mod third;
pub mod toyvec;
pub mod utils;

verus! {

/// The direction in which a sequence is to be ordered.
#[derive(Clone, Copy, Debug, PartialEq, Eq, Structural)]
pub enum SortOrder {
    Ascending,
    Descending,
}

} // verus!
