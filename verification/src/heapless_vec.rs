//! A vector of fixed capacity that needs no allocator.

use vstd::prelude::*;

verus! {

/// Up to `N` items, stored in place.
pub struct HeaplessVec<T: Copy + Default, const N: usize> {
    data: [T; N],
    len: usize,
}

impl<T: Copy + Default, const N: usize> View for HeaplessVec<T, N> {
    type V = Seq<T>;

    closed spec fn view(&self) -> Seq<T> {
        self.data@.take(self.len as int)
    }
}

impl<T: Copy + Default, const N: usize> HeaplessVec<T, N> {
    #[verifier::type_invariant]
    spec fn within_capacity(self) -> bool {
        self.len <= N
    }

    /// An empty vector.
    pub fn new() -> (r: Self)
        ensures
            r@ == Seq::<T>::empty(),
    {
        HeaplessVec { data: [T::default();N], len: 0 }
    }

    /// Appends an item; refuses it, and changes nothing, where the vector is full.
    pub fn push(&mut self, val: T) -> (r: Result<(), ()>)
        ensures
            r is Ok <==> old(self)@.len() < N,
            r is Ok ==> final(self)@ == old(self)@.push(val),
            r is Err ==> final(self)@ == old(self)@,
    {
        proof {
            use_type_invariant(&*self);
        }
        if self.len >= N {
            return Err(());
        }
        self.data[self.len] = val;
        self.len = self.len + 1;
        assert(self@ =~= old(self)@.push(val));
        Ok(())
    }

    /// The items, in the order in which they were pushed.
    pub fn as_slice(&self) -> (r: &[T])
        ensures
            r@ == self@,
    {
        proof {
            use_type_invariant(self);
        }
        vstd::slice::slice_subrange(self.data.as_slice(), 0, self.len)
    }

    /// The number of items.
    pub fn len(&self) -> (r: usize)
        ensures
            r == self@.len(),
            r <= N,
    {
        proof {
            use_type_invariant(self);
        }
        self.len
    }
}

} // verus!
