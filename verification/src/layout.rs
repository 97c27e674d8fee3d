//! Row-major index arithmetic and the transpose of flat buffers.
//!
//! Element `(i, j)` of an `m × n` buffer is stored at `i * n + j`.
use vstd::prelude::*;

verus! {

/// Row `i`, column `j` of an `m × n` row-major buffer is in bounds.
pub proof fn lemma_index_in_bounds(i: int, j: int, m: int, n: int)
    requires
        0 <= i < m,
        0 <= j < n,
    ensures
        0 <= i * n + j < m * n,
        i * n + j + 1 <= m * n,
        i * n <= i * n + j,
{
    assert(0 <= i * n) by (nonlinear_arith)
        requires
            0 <= i,
            0 <= n,
    ;
    assert(i * n + n <= m * n) by (nonlinear_arith)
        requires
            i + 1 <= m,
            0 <= n,
    ;
}

/// Distinct positions of an `m × n` buffer have distinct offsets.
pub proof fn lemma_index_injective(i1: int, j1: int, i2: int, j2: int, n: int)
    requires
        0 <= j1 < n,
        0 <= j2 < n,
        0 <= i1,
        0 <= i2,
        i1 * n + j1 == i2 * n + j2,
    ensures
        i1 == i2,
        j1 == j2,
{
    if i1 < i2 {
        assert(i1 * n + n <= i2 * n) by (nonlinear_arith)
            requires
                i1 + 1 <= i2,
                0 <= n,
        ;
    } else if i2 < i1 {
        assert(i2 * n + n <= i1 * n) by (nonlinear_arith)
            requires
                i2 + 1 <= i1,
                0 <= n,
        ;
    }
}

/// Every offset of an `m × n` buffer is the offset of some position.
pub proof fn lemma_index_surjective(k: int, m: int, n: int)
    requires
        0 <= k < m * n,
        0 < n,
    ensures
        0 <= k / n < m,
        0 <= k % n < n,
        k == (k / n) * n + k % n,
{
    vstd::arithmetic::div_mod::lemma_fundamental_div_mod(k, n);
    assert(k == n * (k / n) + k % n);
    assert(n * (k / n) == (k / n) * n) by (nonlinear_arith);
    assert(0 <= k % n < n) by {
        vstd::arithmetic::div_mod::lemma_mod_pos_bound(k, n);
    }
    assert(0 <= k / n) by {
        vstd::arithmetic::div_mod::lemma_div_pos_is_pos(k, n);
    }
    if k / n >= m {
        assert((k / n) * n >= m * n) by (nonlinear_arith)
            requires
                k / n >= m,
                n > 0,
        ;
    }
}

/// `t` is the transpose of the `m × n` row-major buffer `d`: an `n × m`
/// buffer holding element `(i, j)` of `d` at position `(j, i)`.
pub open spec fn is_transpose<T>(t: Seq<T>, d: Seq<T>, m: nat, n: nat) -> bool {
    &&& d.len() == m * n
    &&& t.len() == m * n
    &&& forall|i: int, j: int|
        #![trigger d[i * n + j]]
        0 <= i < m && 0 <= j < n ==> t[j * m + i] == d[i * n + j]
}

/// Transposes the `m × n` row-major buffer `data` into an `n × m` one.
pub fn transpose_data<T: Copy>(data: &Vec<T>, m: usize, n: usize) -> (t: Vec<T>)
    requires
        data@.len() == m * n,
    ensures
        is_transpose(t@, data@, m as nat, n as nat),
{
    let ghost total = data@.len();
    let _len = data.len();
    let mut t: Vec<T> = Vec::new();
    let mut j: usize = 0;
    while j < n
        invariant
            data@.len() == m * n,
            total == m * n,
            total <= usize::MAX,
            0 <= j <= n,
            t@.len() == j * m,
            forall|jj: int, ii: int|
                0 <= jj < j && 0 <= ii < m ==> #[trigger] t@[jj * m + ii] == data@[ii * n + jj],
        decreases n - j,
    {
        let mut i: usize = 0;
        while i < m
            invariant
                data@.len() == m * n,
                total == m * n,
                total <= usize::MAX,
                0 <= j < n,
                0 <= i <= m,
                t@.len() == j * m + i,
                forall|jj: int, ii: int|
                    0 <= jj < j && 0 <= ii < m ==> #[trigger] t@[jj * m + ii] == data@[ii * n
                        + jj],
                forall|ii: int| 0 <= ii < i ==> #[trigger] t@[j * m + ii] == data@[ii * n + j],
            decreases m - i,
        {
            proof {
                lemma_index_in_bounds(i as int, j as int, m as int, n as int);
            }
            let x = data[i * n + j];
            let ghost before = t@;
            t.push(x);
            proof {
                assert forall|jj: int, ii: int| 0 <= jj < j && 0 <= ii < m implies #[trigger] t@[jj
                    * m + ii] == data@[ii * n + jj] by {
                    lemma_index_in_bounds(jj, ii, j as int, m as int);
                    assert(t@[jj * m + ii] == before[jj * m + ii]);
                }
                assert forall|ii: int| 0 <= ii < i + 1 implies #[trigger] t@[j * m + ii] == data@[ii
                    * n + j] by {
                    if ii < i {
                        assert(t@[j * m + ii] == before[j * m + ii]);
                    }
                }
            }
            i = i + 1;
        }
        proof {
            assert((j + 1) * m == j * m + m) by (nonlinear_arith);
        }
        j = j + 1;
    }
    proof {
        assert forall|i: int, j: int| 0 <= i < m && 0 <= j < n implies #[trigger] data@[i * n + j]
            == t@[j * m + i] by {
            assert(t@[j * m + i] == data@[i * n + j]);
        }
        assert(n * m == m * n) by (nonlinear_arith);
    }
    t
}

/// Transposing twice gives back the buffer one started from.
pub proof fn lemma_transpose_involution<T>(d: Seq<T>, t: Seq<T>, u: Seq<T>, m: nat, n: nat)
    requires
        is_transpose(t, d, m, n),
        is_transpose(u, t, n, m),
    ensures
        u == d,
{
    assert(n * m == m * n) by (nonlinear_arith);
    assert forall|k: int| 0 <= k < d.len() implies u[k] == d[k] by {
        if n > 0 {
            lemma_index_surjective(k, m as int, n as int);
            let i = k / (n as int);
            let j = k % (n as int);
            lemma_index_in_bounds(i, j, m as int, n as int);
            assert(k == i * n + j);
            assert(t[j * m + i] == d[i * n + j]);
            assert(u[i * n + j] == t[j * m + i]);
        } else {
            assert(m * n == 0) by (nonlinear_arith)
                requires
                    n == 0,
            ;
        }
    }
    assert(u =~= d);
}

/// The transpose of a buffer is unique.
pub proof fn lemma_transpose_unique<T>(d: Seq<T>, t1: Seq<T>, t2: Seq<T>, m: nat, n: nat)
    requires
        is_transpose(t1, d, m, n),
        is_transpose(t2, d, m, n),
    ensures
        t1 == t2,
{
    assert forall|k: int| 0 <= k < t1.len() implies t1[k] == t2[k] by {
        if m > 0 {
            assert(n * m == m * n) by (nonlinear_arith);
            lemma_index_surjective(k, n as int, m as int);
            let j = k / (m as int);
            let i = k % (m as int);
            lemma_index_in_bounds(i, j, m as int, n as int);
            assert(k == j * m + i);
            assert(t1[j * m + i] == d[i * n + j]);
            assert(t2[j * m + i] == d[i * n + j]);
        } else {
            assert(m * n == 0) by (nonlinear_arith)
                requires
                    m == 0,
            ;
        }
    }
    assert(t1 =~= t2);
}

} // verus!
