//! The storage of a tensor: flat row-major elements and the shape they
//! are viewed with.
//!
//! The element count always equals the product of the dimensions (one
//! element for the empty, scalar shape).
use crate::error::Error;
use crate::layout::{is_transpose, lemma_transpose_involution, transpose_data};
use crate::shape::{
    batch_shape, check_data_len, lemma_numel_1, lemma_numel_2, numel_fits, shape_numel, shape_to_vec, size_of,
    transpose_dims, transpose_rank_msg,
};
use vstd::prelude::*;

verus! {

/// Flat, row-major elements together with their logical shape.
pub struct TensorStorage<T> {
    data: Vec<T>,
    shape: Vec<usize>,
}

impl<T> TensorStorage<T> {
    #[verifier::type_invariant]
    spec fn sized(self) -> bool {
        self.data@.len() == shape_numel(self.shape@)
    }

    /// The elements in row-major order.
    pub closed spec fn elems(self) -> Seq<T> {
        self.data@
    }

    /// The shape; empty for a scalar.
    pub closed spec fn dims(self) -> Seq<usize> {
        self.shape@
    }

}

impl<T: Copy> TensorStorage<T> {
    /// Wraps `data` viewed with `shape`; fails with a size mismatch when
    /// the element count is not the product of the dimensions.
    pub fn from_vec(data: Vec<T>, shape: Vec<usize>) -> (r: Result<Self, Error>)
        requires
            numel_fits(shape@),
        ensures
            r is Ok <==> data@.len() == shape_numel(shape@),
            r matches Ok(t) ==> t.elems() == data@ && t.dims() == shape@,
            r matches Err(e) ==> e == (Error::SizeMismatch {
                expected: shape_numel(shape@) as usize,
                got: data@.len() as usize,
            }),
    {
        match check_data_len(data.len(), shape.as_slice()) {
            Ok(()) => Ok(TensorStorage { data, shape }),
            Err(e) => Err(e),
        }
    }

    /// A scalar: one element, empty shape.
    pub fn scalar(value: T) -> (t: Self)
        ensures
            t.elems() == seq![value],
            t.dims() == Seq::<usize>::empty(),
    {
        let mut data: Vec<T> = Vec::new();
        data.push(value);
        let shape: Vec<usize> = Vec::new();
        proof {
            assert(data@ =~= seq![value]);
            assert(shape_numel(shape@) == 1);
        }
        TensorStorage { data, shape }
    }

    /// A tensor of the given shape with every element equal to `value`.
    pub fn full(shape: &[usize], value: T) -> (t: Self)
        requires
            numel_fits(shape@),
        ensures
            t.dims() == shape@,
            t.elems() == Seq::new(shape_numel(shape@), |_i: int| value),
    {
        let n = size_of(shape);
        let mut data: Vec<T> = Vec::new();
        let mut i: usize = 0;
        while i < n
            invariant
                0 <= i <= n,
                data@ == Seq::new(i as nat, |_i: int| value),
            decreases n - i,
        {
            data.push(value);
            i = i + 1;
            assert(data@ =~= Seq::new(i as nat, |_i: int| value));
        }
        TensorStorage { data, shape: shape_to_vec(shape) }
    }

    /// The shape (empty for a scalar).
    pub fn shape(&self) -> (s: &Vec<usize>)
        ensures
            s@ == self.dims(),
    {
        &self.shape
    }

    /// The elements in row-major order.
    pub fn data(&self) -> (d: &Vec<T>)
        ensures
            d@ == self.elems(),
            d@.len() == shape_numel(self.dims()),
    {
        proof {
            use_type_invariant(self);
        }
        &self.data
    }

    /// The number of elements: the product of the dimensions.
    pub fn numel(&self) -> (n: usize)
        ensures
            n == self.elems().len(),
            n == shape_numel(self.dims()),
    {
        proof {
            use_type_invariant(self);
        }
        self.data.len()
    }

    /// The number of dimensions (zero for a scalar).
    pub fn ndim(&self) -> (n: usize)
        ensures
            n == self.dims().len(),
    {
        self.shape.len()
    }

    /// The value of a one-element tensor.
    pub fn item(&self) -> (x: T)
        requires
            self.elems().len() == 1,
        ensures
            x == self.elems()[0],
    {
        self.data[0]
    }

    /// Gives up the storage, returning elements and shape.
    pub fn into_parts(self) -> (r: (Vec<T>, Vec<usize>))
        ensures
            r.0@ == self.elems(),
            r.1@ == self.dims(),
            r.0@.len() == shape_numel(r.1@),
    {
        proof {
            use_type_invariant(&self);
        }
        (self.data, self.shape)
    }

    /// The transpose of a 2-D tensor: shape `[m, n]` becomes `[n, m]` and
    /// element `(i, j)` moves to `(j, i)`.  Fails with invalid input for
    /// any other number of dimensions.
    pub fn transpose(&self) -> (r: Result<Self, Error>)
        ensures
            self.dims().len() != 2 ==> (r matches Err(e) && crate::error::is_invalid_input(
                e,
                transpose_rank_msg(),
            )),
            self.dims().len() == 2 ==> (r matches Ok(t) && t.dims() == seq![
                self.dims()[1],
                self.dims()[0],
            ] && is_transpose(
                t.elems(),
                self.elems(),
                self.dims()[0] as nat,
                self.dims()[1] as nat,
            )),
    {
        proof {
            use_type_invariant(self);
        }
        let (m, n) = match transpose_dims(self.shape.as_slice()) {
            Ok(d) => d,
            Err(e) => {
                return Err(e);
            },
        };
        proof {
            lemma_numel_2(self.shape@);
        }
        let data = transpose_data(&self.data, m, n);
        let mut shape: Vec<usize> = Vec::new();
        shape.push(n);
        shape.push(m);
        proof {
            assert(shape@ =~= seq![n, m]);
            lemma_numel_2(shape@);
            assert(n * m == m * n) by (nonlinear_arith);
        }
        Ok(TensorStorage { data, shape })
    }

    /// The storage viewed as a batch: a 1-D tensor of `n` elements becomes
    /// `[1, n]`; any other shape is kept.  The elements are unchanged.
    pub fn to_batch(&self) -> (t: Self)
        ensures
            t.elems() == self.elems(),
            self.dims().len() == 1 ==> t.dims() == seq![1usize, self.dims()[0]],
            self.dims().len() != 1 ==> t.dims() == self.dims(),
    {
        proof {
            use_type_invariant(self);
        }
        let shape = batch_shape(self.shape.as_slice());
        let mut data: Vec<T> = Vec::new();
        let mut i: usize = 0;
        while i < self.data.len()
            invariant
                0 <= i <= self.data@.len(),
                data@ == self.data@.take(i as int),
            decreases self.data@.len() - i,
        {
            data.push(self.data[i]);
            i = i + 1;
            assert(data@ =~= self.data@.take(i as int));
        }
        proof {
            assert(self.data@.take(self.data@.len() as int) =~= self.data@);
            if self.shape@.len() == 1 {
                lemma_numel_1(self.shape@);
                lemma_numel_2(shape@);
                assert(shape@[0] == 1usize);
                assert(shape@[1] == self.shape@[0]);
                let a = shape@[0] as int;
                let b = shape@[1] as int;
                assert(a * b == b) by (nonlinear_arith)
                    requires
                        a == 1,
                ;
            } else {
                assert(shape@ == self.shape@);
            }
            assert(data@ == self.data@);
        }
        TensorStorage { data, shape }
    }
}

/// Transposing a 2-D tensor twice gives back its shape and elements; the
/// backward pass of a transpose is the transpose of the incoming gradient.
pub proof fn lemma_storage_transpose_involution<T: Copy>(
    a: TensorStorage<T>,
    b: TensorStorage<T>,
    c: TensorStorage<T>,
)
    requires
        a.dims().len() == 2,
        b.dims() == seq![a.dims()[1], a.dims()[0]],
        is_transpose(b.elems(), a.elems(), a.dims()[0] as nat, a.dims()[1] as nat),
        c.dims() == seq![b.dims()[1], b.dims()[0]],
        is_transpose(c.elems(), b.elems(), b.dims()[0] as nat, b.dims()[1] as nat),
    ensures
        c.dims() == a.dims(),
        c.elems() == a.elems(),
{
    lemma_transpose_involution(
        a.elems(),
        b.elems(),
        c.elems(),
        a.dims()[0] as nat,
        a.dims()[1] as nat,
    );
    assert(c.dims() =~= a.dims());
}

} // verus!
