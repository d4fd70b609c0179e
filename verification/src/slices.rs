//! What the library assumes of slice operations of the standard library.
use vstd::prelude::*;

verus! {

/// `<[T]>::swap`, as the standard library documents it: the elements at `a`
/// and `b` change places and every other element stays. The standard library
/// panics when an index is out of bounds, so both must be in bounds here.
pub assume_specification<Item>[ <[Item]>::swap ](slice: &mut [Item], a: usize, b: usize)
    requires
        a < old(slice)@.len(),
        b < old(slice)@.len(),
    ensures
        final(slice)@ == old(slice)@.update(a as int, old(slice)@[b as int]).update(
            b as int,
            old(slice)@[a as int],
        ),
;

} // verus!
