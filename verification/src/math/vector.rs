//! A heap-allocated one-dimensional vector.
use crate::error::{is_shape_mismatch, Error};
use vstd::prelude::*;

verus! {

/// A heap-allocated 1-D vector.
#[derive(Debug, Clone, PartialEq)]
pub struct Vector<T> {
    /// Element storage.
    pub data: Vec<T>,
}

impl<T: Copy> Vector<T> {
    /// Creates a vector that owns `data`.
    pub fn from_vec(data: Vec<T>) -> (v: Self)
        ensures
            v.data@ == data@,
    {
        Vector { data }
    }

    /// Creates a vector of `n` copies of `value`.
    pub fn full(n: usize, value: T) -> (v: Self)
        ensures
            v.data@ == Seq::new(n as nat, |_i: int| value),
    {
        let mut data: Vec<T> = Vec::new();
        let mut i: usize = 0;
        while i < n
            invariant
                0 <= i <= n,
                data@ == Seq::new(i as nat, |_i: int| value),
            decreases n - i,
        {
            data.push(value);
            i = i + 1;
            assert(data@ =~= Seq::new(i as nat, |_i: int| value));
        }
        Vector { data }
    }

    /// Returns the number of elements.
    pub fn len(&self) -> (n: usize)
        ensures
            n == self.data@.len(),
    {
        self.data.len()
    }

    /// Returns `true` if the vector has no elements.
    pub fn is_empty(&self) -> (b: bool)
        ensures
            b == (self.data@.len() == 0),
    {
        self.data.len() == 0
    }

    /// Returns the element at index `i`.
    pub fn get(&self, i: usize) -> (x: T)
        requires
            i < self.data@.len(),
        ensures
            x == self.data@[i as int],
    {
        self.data[i]
    }

    /// Sets the element at index `i`.
    pub fn set(&mut self, i: usize, value: T)
        requires
            i < old(self).data@.len(),
        ensures
            final(self).data@ == old(self).data@.update(i as int, value),
    {
        self.data.set(i, value);
    }

    /// Checks that two vectors have the same length, as every
    /// element-wise operation and the dot product require.
    pub fn check_same_len(&self, other: &Vector<T>) -> (r: Result<(), Error>)
        ensures
            r is Ok <==> self.data@.len() == other.data@.len(),
            r matches Err(e) ==> is_shape_mismatch(
                e,
                seq![self.data@.len() as usize],
                seq![other.data@.len() as usize],
            ),
    {
        if self.data.len() != other.data.len() {
            let mut expected: Vec<usize> = Vec::new();
            expected.push(self.data.len());
            let mut got: Vec<usize> = Vec::new();
            got.push(other.data.len());
            assert(expected@ =~= seq![self.data@.len() as usize]);
            assert(got@ =~= seq![other.data@.len() as usize]);
            return Err(Error::ShapeMismatch { expected, got });
        }
        Ok(())
    }
}

} // verus!
