//! Shape arithmetic and the shape checks of the tensor operations.
//!
//! A shape is a list of dimensions; the empty shape is a scalar with one
//! element.  Data is stored flat in row-major order, so a shape is valid
//! for a buffer exactly when the product of its dimensions is the buffer's
//! length.
use crate::error::{invalid_input, is_invalid_input, is_shape_mismatch, Error};
use vstd::prelude::*;

verus! {

/// The number of elements of a tensor of shape `s`: the product of the
/// dimensions, 1 for the empty (scalar) shape.
pub open spec fn shape_numel(s: Seq<usize>) -> nat
    decreases s.len(),
{
    if s.len() == 0 {
        1
    } else {
        shape_numel(s.drop_last()) * (s.last() as nat)
    }
}

/// Multiplying the dimensions of `s` from left to right never exceeds
/// `usize::MAX`, so the product can be computed without overflow.
pub open spec fn numel_fits(s: Seq<usize>) -> bool {
    forall|i: int| 0 <= i <= s.len() ==> #[trigger] shape_numel(s.take(i)) <= usize::MAX
}

proof fn lemma_take_succ(s: Seq<usize>, i: int)
    requires
        0 <= i < s.len(),
    ensures
        shape_numel(s.take(i + 1)) == shape_numel(s.take(i)) * (s[i] as nat),
{
    assert(s.take(i + 1).drop_last() =~= s.take(i));
}

/// A one-dimensional shape has as many elements as its dimension.
pub proof fn lemma_numel_1(s: Seq<usize>)
    requires
        s.len() == 1,
    ensures
        shape_numel(s) == s[0],
{
    assert(s.drop_last() =~= Seq::<usize>::empty());
    assert(shape_numel(s.drop_last()) == 1);
    assert(shape_numel(s) == shape_numel(s.drop_last()) * (s.last() as nat));
}

/// A two-dimensional shape has the product of its dimensions as elements.
pub proof fn lemma_numel_2(s: Seq<usize>)
    requires
        s.len() == 2,
    ensures
        shape_numel(s) == s[0] * s[1],
{
    lemma_numel_1(s.drop_last());
}

/// Computes the number of elements of `shape`, or `None` when a partial
/// product of its dimensions overflows `usize`.
pub fn checked_numel(shape: &[usize]) -> (r: Option<usize>)
    ensures
        r is Some <==> numel_fits(shape@),
        r matches Some(n) ==> n == shape_numel(shape@),
{
    let mut acc: usize = 1;
    let mut i: usize = 0;
    assert(shape@.take(0) =~= Seq::<usize>::empty());
    while i < shape.len()
        invariant
            0 <= i <= shape@.len(),
            acc == shape_numel(shape@.take(i as int)),
            forall|j: int| 0 <= j <= i ==> #[trigger] shape_numel(shape@.take(j)) <= usize::MAX,
        decreases shape@.len() - i,
    {
        proof {
            lemma_take_succ(shape@, i as int);
        }
        match acc.checked_mul(shape[i]) {
            Some(next) => {
                acc = next;
                i = i + 1;
            },
            None => {
                assert(shape_numel(shape@.take(i + 1)) > usize::MAX);
                return None;
            },
        }
    }
    assert(shape@.take(shape@.len() as int) =~= shape@);
    Some(acc)
}

/// Returns the total number of elements for a shape; an empty shape
/// (a scalar) has one element.
pub fn size_of(shape: &[usize]) -> (n: usize)
    requires
        numel_fits(shape@),
    ensures
        n == shape_numel(shape@),
{
    match checked_numel(shape) {
        Some(n) => n,
        None => 0,
    }
}

/// Copies a slice of dimensions into a new vector.
pub fn shape_to_vec(shape: &[usize]) -> (v: Vec<usize>)
    ensures
        v@ == shape@,
{
    let mut v: Vec<usize> = Vec::new();
    let mut i: usize = 0;
    while i < shape.len()
        invariant
            0 <= i <= shape@.len(),
            v@ == shape@.take(i as int),
        decreases shape@.len() - i,
    {
        v.push(shape[i]);
        i = i + 1;
        assert(v@ =~= shape@.take(i as int));
    }
    assert(shape@.take(shape@.len() as int) =~= shape@);
    v
}

/// Whether two shapes are identical.
pub fn same_shape(a: &[usize], b: &[usize]) -> (r: bool)
    ensures
        r == (a@ == b@),
{
    if a.len() != b.len() {
        return false;
    }
    let mut i: usize = 0;
    while i < a.len()
        invariant
            a@.len() == b@.len(),
            0 <= i <= a@.len(),
            forall|j: int| 0 <= j < i ==> a@[j] == b@[j],
        decreases a@.len() - i,
    {
        if a[i] != b[i] {
            return false;
        }
        i = i + 1;
    }
    assert(a@ =~= b@);
    true
}

/// Validates that two shapes are identical, as every element-wise
/// operation requires; otherwise a shape mismatch reporting both.
pub fn check_shape(a: &[usize], b: &[usize]) -> (r: Result<(), Error>)
    ensures
        r is Ok <==> a@ == b@,
        r matches Err(e) ==> is_shape_mismatch(e, a@, b@),
{
    if !same_shape(a, b) {
        return Err(Error::ShapeMismatch { expected: shape_to_vec(a), got: shape_to_vec(b) });
    }
    Ok(())
}

/// Validates a flat buffer of `len` elements against `shape`: a size
/// mismatch reporting the expected element count unless they agree.
pub fn check_data_len(len: usize, shape: &[usize]) -> (r: Result<(), Error>)
    requires
        numel_fits(shape@),
    ensures
        r is Ok <==> len == shape_numel(shape@),
        r matches Err(e) ==> e == (Error::SizeMismatch {
            expected: shape_numel(shape@) as usize,
            got: len,
        }),
{
    let expected = size_of(shape);
    if len != expected {
        return Err(Error::SizeMismatch { expected, got: len });
    }
    Ok(())
}

/// The error message of a matrix product of tensors that are not 2-D.
pub open spec fn matmul_rank_msg() -> Seq<char> {
    "matmul requires exactly 2-D tensors"@
}

/// Checks the operands of a matrix product `[m, k] @ [k, n]` and returns
/// `(m, k, n)`.
///
/// Both shapes must have exactly two dimensions, and the inner dimensions
/// must agree; the product has `m * n` elements, which must fit in a
/// `usize`.
pub fn matmul_dims(a: &[usize], b: &[usize]) -> (r: Result<(usize, usize, usize), Error>)
    requires
        a@.len() == 2 && b@.len() == 2 && a@[1] == b@[0] ==> a@[0] * b@[1] <= usize::MAX,
    ensures
        (a@.len() != 2 || b@.len() != 2) ==> (r matches Err(e) && is_invalid_input(
            e,
            matmul_rank_msg(),
        )),
        (a@.len() == 2 && b@.len() == 2 && a@[1] != b@[0]) ==> r == Err::<(usize, usize, usize), Error>(
            Error::MatmulIncompatible { a_cols: a@[1], b_rows: b@[0] },
        ),
        (a@.len() == 2 && b@.len() == 2 && a@[1] == b@[0]) ==> r == Ok::<(usize, usize, usize), Error>(
            (a@[0], a@[1], b@[1]),
        ),
{
    if a.len() != 2 || b.len() != 2 {
        return Err(invalid_input("matmul requires exactly 2-D tensors"));
    }
    if a[1] != b[0] {
        return Err(Error::MatmulIncompatible { a_cols: a[1], b_rows: b[0] });
    }
    Ok((a[0], a[1], b[1]))
}

/// The error message of a transpose of a tensor that is not 2-D.
pub open spec fn transpose_rank_msg() -> Seq<char> {
    "transpose requires a 2-D tensor"@
}

/// Checks the operand of a 2-D transpose and returns its `(rows, cols)`;
/// the result has shape `[cols, rows]`.
pub fn transpose_dims(shape: &[usize]) -> (r: Result<(usize, usize), Error>)
    ensures
        shape@.len() != 2 ==> (r matches Err(e) && is_invalid_input(e, transpose_rank_msg())),
        shape@.len() == 2 ==> r == Ok::<(usize, usize), Error>((shape@[0], shape@[1])),
{
    if shape.len() != 2 {
        return Err(invalid_input("transpose requires a 2-D tensor"));
    }
    Ok((shape[0], shape[1]))
}

/// The error message of a bias added to a tensor that is not 2-D.
pub open spec fn add_bias_rank_msg() -> Seq<char> {
    "add_bias requires a 2-D input tensor"@
}

/// Checks the operands of adding a row bias: the input must be
/// `[batch, features]` and the bias `[features]`.  Returns
/// `(batch, features)`.
pub fn add_bias_dims(shape: &[usize], bias: &[usize]) -> (r: Result<(usize, usize), Error>)
    ensures
        shape@.len() != 2 ==> (r matches Err(e) && is_invalid_input(e, add_bias_rank_msg())),
        shape@.len() == 2 && (bias@.len() != 1 || bias@[0] != shape@[1]) ==> (r matches Err(e)
            && is_shape_mismatch(e, seq![shape@[1]], bias@)),
        shape@.len() == 2 && bias@.len() == 1 && bias@[0] == shape@[1] ==> r == Ok::<
            (usize, usize),
            Error,
        >((shape@[0], shape@[1])),
{
    if shape.len() != 2 {
        return Err(invalid_input("add_bias requires a 2-D input tensor"));
    }
    if bias.len() != 1 || bias[0] != shape[1] {
        let mut expected: Vec<usize> = Vec::new();
        expected.push(shape[1]);
        assert(expected@ =~= seq![shape@[1]]);
        return Err(Error::ShapeMismatch { expected, got: shape_to_vec(bias) });
    }
    Ok((shape[0], shape[1]))
}

/// The error message of Xavier initialisation of a shape with fewer than
/// two dimensions.
pub open spec fn xavier_rank_msg() -> Seq<char> {
    "xavier_uniform requires at least a 2-D shape [fan_in, fan_out]"@
}

/// Returns `fan_in + fan_out` for Xavier initialisation, where `fan_in`
/// and `fan_out` are the last two dimensions of `shape`.
pub fn xavier_fan_sum(shape: &[usize]) -> (r: Result<usize, Error>)
    requires
        shape@.len() >= 2 ==> shape@[shape@.len() - 2] + shape@[shape@.len() - 1]
            <= usize::MAX,
    ensures
        shape@.len() < 2 ==> (r matches Err(e) && is_invalid_input(e, xavier_rank_msg())),
        shape@.len() >= 2 ==> r == Ok::<usize, Error>(
            (shape@[shape@.len() - 2] + shape@[shape@.len() - 1]) as usize,
        ),
{
    if shape.len() < 2 {
        return Err(
            invalid_input("xavier_uniform requires at least a 2-D shape [fan_in, fan_out]"),
        );
    }
    let fan_in = shape[shape.len() - 2];
    let fan_out = shape[shape.len() - 1];
    Ok(fan_in + fan_out)
}

/// The error message of Kaiming initialisation of the empty shape.
pub open spec fn kaiming_rank_msg() -> Seq<char> {
    "kaiming_uniform requires at least a 1-D shape"@
}

/// Returns `fan_in` for Kaiming initialisation: the first dimension.
pub fn kaiming_fan_in(shape: &[usize]) -> (r: Result<usize, Error>)
    ensures
        shape@.len() == 0 ==> (r matches Err(e) && is_invalid_input(e, kaiming_rank_msg())),
        shape@.len() > 0 ==> r == Ok::<usize, Error>(shape@[0]),
{
    if shape.len() == 0 {
        return Err(invalid_input("kaiming_uniform requires at least a 1-D shape"));
    }
    Ok(shape[0])
}

/// The error message of a linear space of fewer than two points.
pub open spec fn linspace_len_msg() -> Seq<char> {
    "linspace: n must be ≥ 2"@
}

/// Checks the number of points of a linear space (at least two) and
/// returns the number of steps between them, `n - 1`.
pub fn linspace_steps(n: usize) -> (r: Result<usize, Error>)
    ensures
        n < 2 ==> (r matches Err(e) && is_invalid_input(e, linspace_len_msg())),
        n >= 2 ==> r == Ok::<usize, Error>((n - 1) as usize),
{
    if n < 2 {
        return Err(invalid_input("linspace: n must be ≥ 2"));
    }
    Ok(n - 1)
}

/// The shape a dense layer works on: a 1-D input of `n` features is one
/// sample, `[1, n]`; any other shape is kept.
pub fn batch_shape(shape: &[usize]) -> (r: Vec<usize>)
    ensures
        shape@.len() == 1 ==> r@ == seq![1usize, shape@[0]],
        shape@.len() != 1 ==> r@ == shape@,
{
    if shape.len() == 1 {
        let mut v: Vec<usize> = Vec::new();
        v.push(1);
        v.push(shape[0]);
        assert(v@ =~= seq![1usize, shape@[0]]);
        v
    } else {
        shape_to_vec(shape)
    }
}

} // verus!
