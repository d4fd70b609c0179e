//! A growable vector kept in a boxed slice.
//!
//! The slice is the storage; its length is the capacity. The first `len`
//! slots hold the elements, the others hold values of no account. Pushing
//! into full storage doubles it.
use vstd::prelude::*;

verus! {

/// `Vec::into_boxed_slice`: the same elements in the same order, as a boxed
/// slice.
#[verifier::external_body]
fn into_boxed_slice<T>(v: Vec<T>) -> (boxed: Box<[T]>)
    ensures
        boxed@ == v@,
{
    v.into_boxed_slice()
}

/// A vector of elements of type `T`.
pub struct ToyVec<T> {
    elements: Box<[T]>,
    len: usize,
}

/// A pass over the elements of a `ToyVec`, from the first to the last.
pub struct Iter<'a, T> {
    elements: &'a [T],
    len: usize,
    pos: usize,
}

impl<'a, T> Iter<'a, T> {
    /// The storage has room for what is counted, and the position is within.
    #[verifier::type_invariant]
    spec fn well_formed(&self) -> bool {
        self.pos <= self.len <= self.elements@.len()
    }

    /// The elements that the pass has yet to give.
    pub closed spec fn remaining(&self) -> Seq<T> {
        self.elements@.subrange(self.pos as int, self.len as int)
    }

    /// The next element, or `None` when the pass is over.
    pub fn next(&mut self) -> (item: Option<&'a T>)
        ensures
            old(self).remaining().len() == 0 ==> item is None && final(self).remaining()
                == old(self).remaining(),
            old(self).remaining().len() > 0 ==> item == Some(&old(self).remaining()[0])
                && final(self).remaining() == old(self).remaining().drop_first(),
    {
        proof {
            use_type_invariant(&*self);
        }
        if self.pos == self.len {
            None
        } else {
            let res = Some(&self.elements[self.pos]);
            self.pos += 1;
            assert(self.remaining() =~= old(self).remaining().drop_first());
            res
        }
    }
}

impl<T> View for ToyVec<T> {
    type V = Seq<T>;

    /// The elements, from the first pushed to the last.
    closed spec fn view(&self) -> Seq<T> {
        self.elements@.subrange(0, self.len as int)
    }
}

impl<T> ToyVec<T> {
    /// The storage has room for the elements.
    #[verifier::type_invariant]
    spec fn well_formed(&self) -> bool {
        self.len <= self.elements@.len()
    }

    /// How many elements the storage has room for.
    pub closed spec fn spec_capacity(&self) -> nat {
        self.elements@.len()
    }
}

impl<T: Default> ToyVec<T> {
    /// An empty vector without storage.
    pub fn new() -> (v: Self)
        ensures
            v@ == Seq::<T>::empty(),
            v.spec_capacity() == 0,
    {
        Self::with_capacity(0)
    }

    /// An empty vector with room for `capacity` elements.
    pub fn with_capacity(capacity: usize) -> (v: Self)
        ensures
            v@ == Seq::<T>::empty(),
            v.spec_capacity() == capacity,
    {
        let v = Self { elements: Self::allocate_in_heap(capacity), len: 0 };
        assert(v@ =~= Seq::<T>::empty());
        v
    }

    /// Storage of `size` slots, each holding the default value.
    fn allocate_in_heap(size: usize) -> (storage: Box<[T]>)
        ensures
            storage@.len() == size,
    {
        let mut slots: Vec<T> = Vec::new();
        let mut filled: usize = 0;
        while filled < size
            invariant
                filled <= size,
                slots@.len() == filled,
            decreases size - filled,
        {
            slots.push(Default::default());
            filled += 1;
        }
        into_boxed_slice(slots)
    }

    /// The number of elements.
    pub fn len(&self) -> (n: usize)
        ensures
            n == self@.len(),
    {
        proof {
            use_type_invariant(self);
        }
        self.len
    }

    /// How many elements the storage has room for.
    pub fn capacity(&self) -> (c: usize)
        ensures
            c == self.spec_capacity(),
    {
        self.elements.len()
    }

    /// The capacity after a push: full storage doubles, or gets its first
    /// slot; storage with room stays.
    pub open spec fn capacity_after_push(len: nat, capacity: nat) -> nat {
        if len < capacity {
            capacity
        } else if capacity == 0 {
            1
        } else {
            2 * capacity
        }
    }

    /// Adds `element` behind the last element.
    pub fn push(&mut self, element: T)
        requires
            Self::capacity_after_push(old(self)@.len(), old(self).spec_capacity()) <= usize::MAX,
        ensures
            final(self)@ == old(self)@.push(element),
            final(self).spec_capacity() == Self::capacity_after_push(
                old(self)@.len(),
                old(self).spec_capacity(),
            ),
    {
        proof {
            use_type_invariant(&*self);
        }
        if self.len == self.capacity() {
            self.grow();
        }
        proof {
            use_type_invariant(&*self);
        }
        let ghost grown = self@;
        self.elements[self.len] = element;
        self.len += 1;
        assert(self@ =~= grown.push(element));
    }

    /// The element at `index`, if there is one.
    pub fn get(&self, index: usize) -> (element: Option<&T>)
        ensures
            index < self@.len() ==> element == Some(&self@[index as int]),
            index >= self@.len() ==> element is None,
    {
        proof {
            use_type_invariant(self);
        }
        if index < self.len {
            Some(&self.elements[index])
        } else {
            None
        }
    }

    /// Replaces the storage by one twice as large, or by one slot where there
    /// was none, and moves the elements over.
    fn grow(&mut self)
        requires
            Self::capacity_after_push(old(self).spec_capacity(), old(self).spec_capacity())
                <= usize::MAX,
        ensures
            final(self)@ == old(self)@,
            final(self).spec_capacity() == Self::capacity_after_push(
                old(self).spec_capacity(),
                old(self).spec_capacity(),
            ),
    {
        proof {
            use_type_invariant(&*self);
        }
        if self.capacity() == 0 {
            self.elements = Self::allocate_in_heap(1);
            assert(self@ =~= old(self)@);
        } else {
            let mut storage = Self::allocate_in_heap(self.capacity() * 2);
            std::mem::swap(&mut self.elements, &mut storage);
            let mut moving = storage.into_vec();
            while moving.len() > 0
                invariant
                    self.len == old(self).len,
                    self.len <= old(self).elements@.len(),
                    moving@.len() <= old(self).elements@.len(),
                    self.elements@.len() == 2 * old(self).elements@.len(),
                    moving@ == old(self).elements@.subrange(0, moving@.len() as int),
                    forall|k: int|
                        moving@.len() <= k < old(self).elements@.len() ==> self.elements@[k]
                            == old(self).elements@[k],
                decreases moving@.len(),
            {
                let i: usize = moving.len() - 1;
                match moving.pop() {
                    Some(elem) => {
                        self.elements[i] = elem;
                    },
                    None => {},
                }
            }
            assert(self@ =~= old(self)@);
        }
    }

    /// The element at `index`, or `default` if there is none.
    pub fn get_or<'a>(&'a self, index: usize, default: &'a T) -> (element: &'a T)
        ensures
            index < self@.len() ==> *element == self@[index as int],
            index >= self@.len() ==> *element == *default,
    {
        match self.get(index) {
            Some(v) => v,
            None => default,
        }
    }

    /// Takes the last element off, if there is one.
    pub fn pop(&mut self) -> (element: Option<T>)
        ensures
            old(self)@.len() == 0 ==> element is None && final(self)@ == old(self)@,
            old(self)@.len() > 0 ==> element == Some(old(self)@.last()) && final(self)@
                == old(self)@.drop_last(),
            final(self).spec_capacity() == old(self).spec_capacity(),
    {
        proof {
            use_type_invariant(&*self);
        }
        if self.len == 0 {
            None
        } else {
            self.len -= 1;
            let mut elem = Default::default();
            std::mem::swap(&mut self.elements[self.len], &mut elem);
            assert(self@ =~= old(self)@.drop_last());
            Some(elem)
        }
    }

    /// A pass over the elements, from the first to the last.
    pub fn iter<'a>(&'a self) -> (pass: Iter<'a, T>)
        ensures
            pass.remaining() == self@,
    {
        proof {
            use_type_invariant(self);
        }
        Iter { elements: &self.elements, len: self.len, pos: 0 }
    }
}

} // verus!
