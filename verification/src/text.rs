//! Human-readable rendering: decimal numbers, shape lists, error
//! messages, device names, and the layout of tensors, matrices and
//! vectors around already formatted elements.
use crate::error::Error;
use crate::gpu::Device;
use crate::layout::lemma_index_in_bounds;
use crate::shape::{lemma_numel_2, shape_numel};
use vstd::prelude::*;

verus! {

/// The decimal digit character for `d` (0 to 9).
pub open spec fn digit_char(d: nat) -> char {
    if d == 0 {
        '0'
    } else if d == 1 {
        '1'
    } else if d == 2 {
        '2'
    } else if d == 3 {
        '3'
    } else if d == 4 {
        '4'
    } else if d == 5 {
        '5'
    } else if d == 6 {
        '6'
    } else if d == 7 {
        '7'
    } else if d == 8 {
        '8'
    } else {
        '9'
    }
}

/// The decimal representation of `n`, without leading zeros.
pub open spec fn decimal(n: nat) -> Seq<char>
    decreases n,
{
    if n < 10 {
        seq![digit_char(n)]
    } else {
        decimal(n / 10).push(digit_char(n % 10))
    }
}

/// `items` separated by `sep`.
pub open spec fn join(items: Seq<Seq<char>>, sep: Seq<char>) -> Seq<char>
    decreases items.len(),
{
    if items.len() == 0 {
        Seq::empty()
    } else if items.len() == 1 {
        items[0]
    } else {
        join(items.drop_last(), sep) + sep + items.last()
    }
}

/// The character sequences of a list of strings.
pub open spec fn views(items: Seq<String>) -> Seq<Seq<char>> {
    items.map_values(|s: String| s@)
}

/// A list of dimensions as `[d0, d1, ...]`.
pub open spec fn dims_text(dims: Seq<usize>) -> Seq<char> {
    "["@ + join(dims.map_values(|d: usize| decimal(d as nat)), ", "@) + "]"@
}

/// The message of an error.
pub open spec fn error_text(e: Error) -> Seq<char> {
    match e {
        Error::ShapeMismatch { expected, got } => "Shape mismatch: expected "@ + dims_text(
            expected@,
        ) + ", got "@ + dims_text(got@),
        Error::SizeMismatch { expected, got } => "Size mismatch: expected "@ + decimal(
            expected as nat,
        ) + " elements, got "@ + decimal(got as nat),
        Error::EmptyTensor => "Tensor is empty (zero elements)"@,
        Error::InvalidInput(msg) => "Invalid input: "@ + msg@,
        Error::DivisionByZero => "Division by zero"@,
        Error::NoGradient => "No gradient available — call backward() first or set requires_grad=true"@,
        Error::BroadcastError { a, b } => "Cannot broadcast shapes "@ + dims_text(a@) + " and "@
            + dims_text(b@),
        Error::MatmulIncompatible { a_cols, b_rows } => "Matmul shape error: A.cols="@ + decimal(
            a_cols as nat,
        ) + " ≠ B.rows="@ + decimal(b_rows as nat),
    }
}

/// The name of a device: `cpu`, or `gpu:` and the ordinal.
pub open spec fn device_text(d: Device) -> Seq<char> {
    match d {
        Device::Cpu => "cpu"@,
        Device::Gpu(idx) => "gpu:"@ + decimal(idx as nat),
    }
}

/// The cells of row `i` of a row-major `? × cols` grid.
pub open spec fn row_cells(cells: Seq<Seq<char>>, i: int, cols: int) -> Seq<Seq<char>> {
    cells.subrange(i * cols, i * cols + cols)
}

/// Each row of a `rows × cols` grid as `[c0, c1, ...]`.
pub open spec fn bracketed_rows(cells: Seq<Seq<char>>, rows: nat, cols: nat) -> Seq<Seq<char>> {
    Seq::new(rows, |i: int| "["@ + join(row_cells(cells, i, cols as int), ", "@) + "]"@)
}

/// The elements of a tensor of shape `dims`: the single value of a
/// scalar, the rows of a matrix one per line, and any other shape as a
/// flat list.
pub open spec fn tensor_body(cells: Seq<Seq<char>>, dims: Seq<usize>) -> Seq<char> {
    if dims.len() == 0 {
        cells[0]
    } else if dims.len() == 2 {
        "["@ + join(bracketed_rows(cells, dims[0] as nat, dims[1] as nat), ",\n        "@) + "]"@
    } else {
        "["@ + join(cells, ", "@) + "]"@
    }
}

/// The rendering of a tensor of shape `dims` whose elements are `cells`.
pub open spec fn tensor_text(
    cells: Seq<Seq<char>>,
    dims: Seq<usize>,
    requires_grad: bool,
    has_grad: bool,
) -> Seq<char> {
    "Tensor("@ + tensor_body(cells, dims) + ", shape="@ + dims_text(dims) + ", dtype=f32"@ + (
    if requires_grad {
        ", requires_grad=true"@
    } else {
        Seq::empty()
    }) + (if has_grad {
        ", grad=Some"@
    } else {
        Seq::empty()
    }) + ")"@
}

/// One line of a matrix rendering: the row, a comma unless it is the
/// last row, and a line break.
pub open spec fn matrix_lines(cells: Seq<Seq<char>>, rows: nat, cols: nat) -> Seq<Seq<char>> {
    Seq::new(
        rows,
        |i: int|
            "  ["@ + join(row_cells(cells, i, cols as int), ", "@) + "]"@ + (if i + 1 < rows {
                ","@
            } else {
                Seq::empty()
            }) + "\n"@,
    )
}

/// The rendering of a `rows × cols` matrix whose elements are `cells`.
pub open spec fn matrix_text(cells: Seq<Seq<char>>, rows: nat, cols: nat) -> Seq<char> {
    "Matrix("@ + decimal(rows) + "×"@ + decimal(cols) + ") [\n"@ + join(
        matrix_lines(cells, rows, cols),
        Seq::empty(),
    ) + "])"@
}

/// The rendering of a vector whose elements are `cells`.
pub open spec fn vector_text(cells: Seq<Seq<char>>) -> Seq<char> {
    "Vector(["@ + join(cells, ", "@) + "])"@
}

proof fn lemma_join_push(items: Seq<Seq<char>>, x: Seq<char>, sep: Seq<char>)
    ensures
        join(items.push(x), sep) == if items.len() == 0 {
            x
        } else {
            join(items, sep) + sep + x
        },
{
    assert(items.push(x).drop_last() =~= items);
    if items.len() == 0 {
        assert(items.push(x)[0] == x);
    }
}

proof fn lemma_join_two(a: Seq<char>, b: Seq<char>, sep: Seq<char>)
    ensures
        join(seq![a, b], sep) == a + sep + b,
{
    lemma_join_push(Seq::empty(), a, sep);
    assert(Seq::<Seq<char>>::empty().push(a) =~= seq![a]);
    lemma_join_push(seq![a], b, sep);
    assert(seq![a].push(b) =~= seq![a, b]);
}

/// Row `i` of a row-major grid with `cols` columns holds the cells at
/// offsets `i * cols .. i * cols + cols`, in order.
proof fn lemma_row_cells_offsets(cells: Seq<Seq<char>>, rows: nat, cols: nat, i: int)
    requires
        cells.len() == rows * cols,
        0 <= i < rows,
    ensures
        row_cells(cells, i, cols as int) == Seq::new(cols, |j: int| cells[i * cols + j]),
{
    assert(i * cols + cols <= rows * cols) by (nonlinear_arith)
        requires
            0 <= i < rows,
    ;
    assert(0 <= i * cols) by (nonlinear_arith)
        requires
            0 <= i,
    ;
    assert(row_cells(cells, i, cols as int) =~= Seq::new(cols, |j: int| cells[i * cols + j]));
}

/// A tensor of shape `[m, n]` renders as `m` bracketed rows, separated by
/// a comma and a line break aligned under the first row; row `i` lists
/// the `n` elements at row-major offsets `i * n .. i * n + n`, so element
/// `(i, j)` is the `j`-th cell of the `i`-th row. The shape follows as
/// `[m, n]`.
pub proof fn lemma_tensor_text_2d(
    cells: Seq<Seq<char>>,
    m: usize,
    n: usize,
    requires_grad: bool,
    has_grad: bool,
)
    requires
        cells.len() == m * n,
    ensures
        tensor_text(cells, seq![m, n], requires_grad, has_grad) == "Tensor("@ + ("["@ + join(
            Seq::new(
                m as nat,
                |i: int| "["@ + join(Seq::new(n as nat, |j: int| cells[i * n + j]), ", "@) + "]"@,
            ),
            ",\n        "@,
        ) + "]"@) + ", shape="@ + ("["@ + decimal(m as nat) + ", "@ + decimal(n as nat) + "]"@)
            + ", dtype=f32"@ + (if requires_grad {
            ", requires_grad=true"@
        } else {
            Seq::empty()
        }) + (if has_grad {
            ", grad=Some"@
        } else {
            Seq::empty()
        }) + ")"@,
{
    let dims = seq![m, n];
    let rows = Seq::new(
        m as nat,
        |i: int| "["@ + join(Seq::new(n as nat, |j: int| cells[i * n + j]), ", "@) + "]"@,
    );
    assert forall|i: int| 0 <= i < m implies #[trigger] bracketed_rows(cells, m as nat, n as nat)[i]
        == rows[i] by {
        lemma_row_cells_offsets(cells, m as nat, n as nat, i);
    }
    assert(bracketed_rows(cells, m as nat, n as nat) =~= rows);
    assert(dims.map_values(|d: usize| decimal(d as nat)) =~= seq![decimal(m as nat), decimal(n as nat)]);
    lemma_join_two(decimal(m as nat), decimal(n as nat), ", "@);
}

/// The gradient flags only add text before the closing parenthesis:
/// `, requires_grad=true` exactly when `requires_grad` is set, whatever
/// the gradient, then `, grad=Some` exactly when a gradient is present.
pub proof fn lemma_tensor_text_flags(
    cells: Seq<Seq<char>>,
    dims: Seq<usize>,
    requires_grad: bool,
    has_grad: bool,
)
    ensures
        tensor_text(cells, dims, false, false).last() == ')',
        tensor_text(cells, dims, requires_grad, has_grad) == tensor_text(
            cells,
            dims,
            false,
            false,
        ).drop_last() + (if requires_grad {
            ", requires_grad=true"@
        } else {
            Seq::empty()
        }) + (if has_grad {
            ", grad=Some"@
        } else {
            Seq::empty()
        }) + ")"@,
{
    reveal_strlit(")");
    let base = "Tensor("@ + tensor_body(cells, dims) + ", shape="@ + dims_text(dims)
        + ", dtype=f32"@;
    assert(tensor_text(cells, dims, false, false) =~= base + ")"@);
    assert((base + ")"@).drop_last() =~= base);
}

/// A `rows × cols` matrix renders as the header `Matrix(rows×cols) [`,
/// the number of rows first, then exactly `rows` lines, line `i` holding
/// the `cols` entries `cells[i * cols + j]` for `j` in `0..cols`, in
/// order, with a comma after every row but the last; then `])`.
pub proof fn lemma_matrix_text_rows(cells: Seq<Seq<char>>, rows: nat, cols: nat)
    requires
        cells.len() == rows * cols,
    ensures
        matrix_text(cells, rows, cols) == "Matrix("@ + decimal(rows) + "×"@ + decimal(cols)
            + ") [\n"@ + join(
            Seq::new(
                rows,
                |i: int|
                    "  ["@ + join(Seq::new(cols, |j: int| cells[i * cols + j]), ", "@) + "]"@ + (
                    if i + 1 < rows {
                        ","@
                    } else {
                        Seq::empty()
                    }) + "\n"@,
            ),
            Seq::empty(),
        ) + "])"@,
{
    let lines = Seq::new(
        rows,
        |i: int|
            "  ["@ + join(Seq::new(cols, |j: int| cells[i * cols + j]), ", "@) + "]"@ + (if i + 1
                < rows {
                ","@
            } else {
                Seq::empty()
            }) + "\n"@,
    );
    assert forall|i: int| 0 <= i < rows implies #[trigger] matrix_lines(cells, rows, cols)[i]
        == lines[i] by {
        lemma_row_cells_offsets(cells, rows, cols, i);
    }
    assert(matrix_lines(cells, rows, cols) =~= lines);
}

fn digit_str(d: usize) -> (s: &'static str)
    requires
        d < 10,
    ensures
        s@ == seq![digit_char(d as nat)],
{
    if d == 0 {
        proof {
            reveal_strlit("0");
        }
        "0"
    } else if d == 1 {
        proof {
            reveal_strlit("1");
        }
        "1"
    } else if d == 2 {
        proof {
            reveal_strlit("2");
        }
        "2"
    } else if d == 3 {
        proof {
            reveal_strlit("3");
        }
        "3"
    } else if d == 4 {
        proof {
            reveal_strlit("4");
        }
        "4"
    } else if d == 5 {
        proof {
            reveal_strlit("5");
        }
        "5"
    } else if d == 6 {
        proof {
            reveal_strlit("6");
        }
        "6"
    } else if d == 7 {
        proof {
            reveal_strlit("7");
        }
        "7"
    } else if d == 8 {
        proof {
            reveal_strlit("8");
        }
        "8"
    } else {
        proof {
            reveal_strlit("9");
        }
        "9"
    }
}

/// Appends the decimal representation of `n`.
pub fn push_decimal(s: &mut String, n: usize)
    ensures
        final(s)@ == old(s)@ + decimal(n as nat),
    decreases n,
{
    let ghost start = s@;
    if n >= 10 {
        push_decimal(s, n / 10);
    }
    s.append(digit_str(n % 10));
    proof {
        if n >= 10 {
            assert(start + decimal(n as nat) =~= start + decimal((n / 10) as nat) + seq![
                digit_char((n % 10) as nat),
            ]);
        } else {
            assert(start + decimal(n as nat) =~= start + seq![digit_char((n % 10) as nat)]);
        }
    }
}

/// The decimal representation of `n`.
pub fn decimal_string(n: usize) -> (s: String)
    ensures
        s@ == decimal(n as nat),
{
    let mut s = String::new();
    push_decimal(&mut s, n);
    proof {
        assert(s@ =~= decimal(n as nat));
    }
    s
}

/// Appends `items[lo..hi]` separated by `sep`.
fn push_joined(s: &mut String, items: &Vec<String>, lo: usize, hi: usize, sep: &str)
    requires
        lo <= hi <= items@.len(),
    ensures
        final(s)@ == old(s)@ + join(views(items@).subrange(lo as int, hi as int), sep@),
{
    let ghost start = s@;
    let ghost vs = views(items@);
    let mut i = lo;
    assert(vs.subrange(lo as int, lo as int) =~= Seq::<Seq<char>>::empty());
    while i < hi
        invariant
            lo <= i <= hi <= items@.len(),
            vs == views(items@),
            s@ == start + join(vs.subrange(lo as int, i as int), sep@),
        decreases hi - i,
    {
        let ghost before = s@;
        if i > lo {
            s.append(sep);
        }
        s.append(items[i].as_str());
        proof {
            let prefix = vs.subrange(lo as int, i as int);
            assert(vs.subrange(lo as int, i + 1) =~= prefix.push(vs[i as int]));
            lemma_join_push(prefix, vs[i as int], sep@);
            if i > lo {
                assert(s@ =~= start + (join(prefix, sep@) + sep@ + vs[i as int]));
            } else {
                assert(s@ =~= start + vs[i as int]);
            }
        }
        i = i + 1;
    }
}

/// Appends a list of dimensions as `[d0, d1, ...]`.
pub fn push_dims(s: &mut String, dims: &[usize])
    ensures
        final(s)@ == old(s)@ + dims_text(dims@),
{
    let ghost start = s@;
    let ghost ds = dims@.map_values(|d: usize| decimal(d as nat));
    s.append("[");
    let mut i: usize = 0;
    assert(ds.take(0) =~= Seq::<Seq<char>>::empty());
    while i < dims.len()
        invariant
            0 <= i <= dims@.len(),
            ds == dims@.map_values(|d: usize| decimal(d as nat)),
            s@ == start + "["@ + join(ds.take(i as int), ", "@),
        decreases dims@.len() - i,
    {
        if i > 0 {
            s.append(", ");
        }
        push_decimal(s, dims[i]);
        proof {
            let prefix = ds.take(i as int);
            assert(ds.take(i + 1) =~= prefix.push(ds[i as int]));
            lemma_join_push(prefix, ds[i as int], ", "@);
            if i > 0 {
                assert(s@ =~= start + "["@ + (join(prefix, ", "@) + ", "@ + ds[i as int]));
            } else {
                assert(s@ =~= start + "["@ + ds[i as int]);
            }
        }
        i = i + 1;
    }
    s.append("]");
    proof {
        assert(ds.take(dims@.len() as int) =~= ds);
        assert(s@ =~= start + dims_text(dims@));
    }
}

/// Appends the rows `0..rows` of a `rows × cols` grid, each as
/// `[c0, c1, ...]`, separated by `sep`.
fn push_bracketed_rows(s: &mut String, cells: &Vec<String>, rows: usize, cols: usize, sep: &str)
    requires
        cells@.len() == rows * cols,
    ensures
        final(s)@ == old(s)@ + join(bracketed_rows(views(cells@), rows as nat, cols as nat), sep@),
{
    let ghost start = s@;
    let ghost vs = views(cells@);
    let ghost br = bracketed_rows(vs, rows as nat, cols as nat);
    let _len = cells.len();
    let mut i: usize = 0;
    assert(br.take(0) =~= Seq::<Seq<char>>::empty());
    while i < rows
        invariant
            cells@.len() == rows * cols,
            cells@.len() <= usize::MAX,
            vs == views(cells@),
            br == bracketed_rows(vs, rows as nat, cols as nat),
            0 <= i <= rows,
            s@ == start + join(br.take(i as int), sep@),
        decreases rows - i,
    {
        proof {
            assert((i + 1) * cols <= rows * cols) by (nonlinear_arith)
                requires
                    i + 1 <= rows,
            ;
            assert(i * cols + cols == (i + 1) * cols) by (nonlinear_arith);
        }
        if i > 0 {
            s.append(sep);
        }
        s.append("[");
        push_joined(s, cells, i * cols, i * cols + cols, ", ");
        s.append("]");
        proof {
            let prefix = br.take(i as int);
            let row = br[i as int];
            assert(row == "["@ + join(row_cells(vs, i as int, cols as int), ", "@) + "]"@);
            assert(br.take(i + 1) =~= prefix.push(row));
            lemma_join_push(prefix, row, sep@);
            if i > 0 {
                assert(s@ =~= start + (join(prefix, sep@) + sep@ + row));
            } else {
                assert(s@ =~= start + row);
            }
        }
        i = i + 1;
    }
    proof {
        assert(br.take(rows as int) =~= br);
    }
}

/// Renders a tensor of shape `dims` around its formatted elements
/// `cells`, with its gradient flags.
pub fn render_tensor(cells: &Vec<String>, dims: &[usize], requires_grad: bool, has_grad: bool) -> (s: String)
    requires
        cells@.len() == shape_numel(dims@),
    ensures
        s@ == tensor_text(views(cells@), dims@, requires_grad, has_grad),
{
    let mut s = String::new();
    s.append("Tensor(");
    let ghost head = s@;
    let ghost vs = views(cells@);
    if dims.len() == 0 {
        proof {
            assert(shape_numel(dims@) == 1);
        }
        s.append(cells[0].as_str());
    } else if dims.len() == 2 {
        proof {
            lemma_numel_2(dims@);
        }
        s.append("[");
        push_bracketed_rows(&mut s, cells, dims[0], dims[1], ",\n        ");
        s.append("]");
    } else {
        s.append("[");
        push_joined(&mut s, cells, 0, cells.len(), ", ");
        s.append("]");
        proof {
            assert(vs.subrange(0, cells@.len() as int) =~= vs);
        }
    }
    proof {
        assert(s@ =~= head + tensor_body(vs, dims@));
    }
    let ghost body = s@;
    s.append(", shape=");
    push_dims(&mut s, dims);
    s.append(", dtype=f32");
    let ghost mid = s@;
    if requires_grad {
        s.append(", requires_grad=true");
    }
    let ghost mid2 = s@;
    assert(mid2 =~= mid + (if requires_grad {
        ", requires_grad=true"@
    } else {
        Seq::<char>::empty()
    }));
    if has_grad {
        s.append(", grad=Some");
    }
    let ghost mid3 = s@;
    assert(mid3 =~= mid2 + (if has_grad {
        ", grad=Some"@
    } else {
        Seq::<char>::empty()
    }));
    s.append(")");
    proof {
        assert(s@ =~= tensor_text(vs, dims@, requires_grad, has_grad));
    }
    s
}

/// Renders a `rows × cols` matrix around its formatted elements `cells`,
/// one row per line.
pub fn render_matrix(rows: usize, cols: usize, cells: &Vec<String>) -> (s: String)
    requires
        cells@.len() == rows * cols,
    ensures
        s@ == matrix_text(views(cells@), rows as nat, cols as nat),
{
    let ghost vs = views(cells@);
    let ghost lines = matrix_lines(vs, rows as nat, cols as nat);
    let _len = cells.len();
    let mut s = String::new();
    s.append("Matrix(");
    push_decimal(&mut s, rows);
    s.append("×");
    push_decimal(&mut s, cols);
    s.append(") [\n");
    let ghost head = s@;
    let mut i: usize = 0;
    assert(lines.take(0) =~= Seq::<Seq<char>>::empty());
    while i < rows
        invariant
            cells@.len() == rows * cols,
            cells@.len() <= usize::MAX,
            vs == views(cells@),
            lines == matrix_lines(vs, rows as nat, cols as nat),
            0 <= i <= rows,
            s@ == head + join(lines.take(i as int), Seq::empty()),
        decreases rows - i,
    {
        proof {
            assert((i + 1) * cols <= rows * cols) by (nonlinear_arith)
                requires
                    i + 1 <= rows,
            ;
            assert(i * cols + cols == (i + 1) * cols) by (nonlinear_arith);
        }
        let ghost before = s@;
        s.append("  [");
        push_joined(&mut s, cells, i * cols, i * cols + cols, ", ");
        s.append("]");
        let ghost mid = s@;
        if i + 1 < rows {
            s.append(",");
        }
        assert(s@ =~= mid + (if i + 1 < rows {
            ","@
        } else {
            Seq::<char>::empty()
        }));
        s.append("\n");
        proof {
            let prefix = lines.take(i as int);
            let line = lines[i as int];
            assert(lines.take(i + 1) =~= prefix.push(line));
            lemma_join_push(prefix, line, Seq::empty());
            assert(s@ =~= before + line);
            if i > 0 {
                assert(s@ =~= head + (join(prefix, Seq::empty()) + Seq::<char>::empty() + line));
            } else {
                assert(s@ =~= head + line);
            }
        }
        i = i + 1;
    }
    s.append("])");
    proof {
        assert(lines.take(rows as int) =~= lines);
        assert(s@ =~= matrix_text(vs, rows as nat, cols as nat));
    }
    s
}

/// Renders a vector around its formatted elements `cells`.
pub fn render_vector(cells: &Vec<String>) -> (s: String)
    ensures
        s@ == vector_text(views(cells@)),
{
    let mut s = String::new();
    s.append("Vector([");
    push_joined(&mut s, cells, 0, cells.len(), ", ");
    s.append("])");
    proof {
        assert(views(cells@).subrange(0, cells@.len() as int) =~= views(cells@));
        assert(s@ =~= vector_text(views(cells@)));
    }
    s
}

impl Error {
    /// The human-readable message of the error.
    pub fn message(&self) -> (s: String)
        ensures
            s@ == error_text(*self),
    {
        let mut s = String::new();
        match self {
            Error::ShapeMismatch { expected, got } => {
                s.append("Shape mismatch: expected ");
                push_dims(&mut s, expected.as_slice());
                s.append(", got ");
                push_dims(&mut s, got.as_slice());
            },
            Error::SizeMismatch { expected, got } => {
                s.append("Size mismatch: expected ");
                push_decimal(&mut s, *expected);
                s.append(" elements, got ");
                push_decimal(&mut s, *got);
            },
            Error::EmptyTensor => {
                s.append("Tensor is empty (zero elements)");
            },
            Error::InvalidInput(msg) => {
                s.append("Invalid input: ");
                s.append(msg.as_str());
            },
            Error::DivisionByZero => {
                s.append("Division by zero");
            },
            Error::NoGradient => {
                s.append(
                    "No gradient available — call backward() first or set requires_grad=true",
                );
            },
            Error::BroadcastError { a, b } => {
                s.append("Cannot broadcast shapes ");
                push_dims(&mut s, a.as_slice());
                s.append(" and ");
                push_dims(&mut s, b.as_slice());
            },
            Error::MatmulIncompatible { a_cols, b_rows } => {
                s.append("Matmul shape error: A.cols=");
                push_decimal(&mut s, *a_cols);
                s.append(" ≠ B.rows=");
                push_decimal(&mut s, *b_rows);
            },
        }
        proof {
            assert(s@ =~= error_text(*self));
        }
        s
    }
}

impl Device {
    /// The name of the device: `cpu`, or `gpu:` and the ordinal.
    pub fn label(&self) -> (s: String)
        ensures
            s@ == device_text(*self),
    {
        let mut s = String::new();
        match self {
            Device::Cpu => {
                s.append("cpu");
            },
            Device::Gpu(idx) => {
                s.append("gpu:");
                push_decimal(&mut s, *idx);
            },
        }
        proof {
            assert(s@ =~= device_text(*self));
        }
        s
    }
}

} // verus!
