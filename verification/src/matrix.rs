//! Dense row-major matrices and their task-partitioned multiplication.

use vstd::arithmetic::div_mod::{
    lemma_fundamental_div_mod, lemma_fundamental_div_mod_converse, lemma_mod_bound,
};
use vstd::pervasive::unreached;
use vstd::prelude::*;

use crate::error::Error;
use crate::vector::{dot_fits, dot_prefix, dot_product, dot_spec, Vector};

verus! {

/// A dense matrix: `row * col` numeric elements stored row by row in one
/// flat sequence, so cell `(i, j)` sits at offset `i * col + j`.
#[derive(Debug)]
pub struct Matrix {
    data: Vec<i64>,
    row: usize,
    col: usize,
}

impl Matrix {
    /// The number of rows.
    pub closed spec fn rows(&self) -> int {
        self.row as int
    }

    /// The number of columns.
    pub closed spec fn cols(&self) -> int {
        self.col as int
    }

    /// The flat row-major storage.
    pub closed spec fn entries(&self) -> Seq<i64> {
        self.data@
    }

    /// Shape invariant: the storage holds exactly one element per cell.
    pub open spec fn wf(&self) -> bool {
        &&& self.entries().len() == self.rows() * self.cols()
        &&& self.rows() >= 0
        &&& self.cols() >= 0
    }

    /// The element of cell `(i, j)`.
    pub open spec fn ent(&self, i: int, j: int) -> i64 {
        self.entries()[i * self.cols() + j]
    }

    /// Row `i` as a sequence of `cols()` elements.
    pub open spec fn row_spec(&self, i: int) -> Seq<i64> {
        Seq::new(self.cols() as nat, |j: int| self.ent(i, j))
    }

    /// Column `j` as a sequence of `rows()` elements.
    pub open spec fn col_spec(&self, j: int) -> Seq<i64> {
        Seq::new(self.rows() as nat, |i: int| self.ent(i, j))
    }

    /// A zero-initialized matrix of the given shape; either count may be
    /// zero, yielding an empty matrix.
    pub fn new(row: usize, col: usize) -> (m: Self)
        requires
            row * col <= usize::MAX,
        ensures
            m.wf(),
            m.rows() == row,
            m.cols() == col,
            forall|k: int| 0 <= k < m.entries().len() ==> m.entries()[k] == 0i64,
    {
        let n = row * col;
        let mut data: Vec<i64> = Vec::new();
        while data.len() < n
            invariant
                data.len() <= n,
                forall|k: int| 0 <= k < data.len() ==> data[k] == 0i64,
            decreases n - data.len(),
        {
            data.push(0i64);
        }
        Matrix { data, row, col }
    }

    /// Wraps supplied row-major data in a matrix of the given shape; the
    /// caller must supply exactly one element per cell.
    pub fn from_data(data: Vec<i64>, row: usize, col: usize) -> (m: Self)
        requires
            data@.len() == row * col,
        ensures
            m.wf(),
            m.rows() == row,
            m.cols() == col,
            m.entries() == data@,
    {
        Matrix { data, row, col }
    }

    /// An owned copy of row `n`.
    pub fn row(&self, n: usize) -> (r: Vector)
        requires
            self.wf(),
            n < self.rows(),
        ensures
            r@ == self.row_spec(n as int),
    {
        let mut out: Vec<i64> = Vec::new();
        let mut j: usize = 0;
        while j < self.col
            invariant
                self.wf(),
                n < self.rows(),
                j <= self.cols(),
                out.len() == j,
                forall|q: int| 0 <= q < j ==> out[q] == self.ent(n as int, q),
            decreases self.col - j,
        {
            proof {
                assert(n * self.cols() + j < self.rows() * self.cols()) by (nonlinear_arith)
                    requires
                        0 <= n,
                        n + 1 <= self.rows(),
                        0 <= j < self.cols(),
                ;
                assert(self.data.len() <= usize::MAX);
            }
            out.push(self.data[n * self.col + j]);
            j = j + 1;
        }
        let r = Vector::new(out);
        proof {
            assert(r@ =~= self.row_spec(n as int));
        }
        r
    }

    /// An owned copy of column `n`, gathered by striding through the flat
    /// storage one row at a time.
    pub fn col(&self, n: usize) -> (r: Vector)
        requires
            self.wf(),
            n < self.cols(),
        ensures
            r@ == self.col_spec(n as int),
    {
        let mut out: Vec<i64> = Vec::new();
        let mut i: usize = 0;
        while i < self.row
            invariant
                self.wf(),
                n < self.cols(),
                i <= self.rows(),
                out.len() == i,
                forall|q: int| 0 <= q < i ==> out[q] == self.ent(q, n as int),
            decreases self.row - i,
        {
            proof {
                assert(i * self.cols() + n < self.rows() * self.cols()) by (nonlinear_arith)
                    requires
                        0 <= i,
                        i + 1 <= self.rows(),
                        0 <= n < self.cols(),
                ;
                assert(self.data.len() <= usize::MAX);
            }
            out.push(self.data[i * self.col + n]);
            i = i + 1;
        }
        let r = Vector::new(out);
        proof {
            assert(r@ =~= self.col_spec(n as int));
        }
        r
    }

    /// The number of rows.
    pub fn row_count(&self) -> (n: usize)
        ensures
            n == self.rows(),
    {
        self.row
    }

    /// The number of columns.
    pub fn col_count(&self) -> (n: usize)
        ensures
            n == self.cols(),
    {
        self.col
    }

    /// The element of cell `(i, j)`.
    pub fn get(&self, i: usize, j: usize) -> (v: i64)
        requires
            self.wf(),
            i < self.rows(),
            j < self.cols(),
        ensures
            v == self.ent(i as int, j as int),
    {
        proof {
            assert(i * self.cols() + j < self.rows() * self.cols()) by (nonlinear_arith)
                requires
                    0 <= i,
                    i + 1 <= self.rows(),
                    0 <= j < self.cols(),
            ;
            assert(self.data.len() <= usize::MAX);
        }
        self.data[i * self.col + j]
    }

    /// An owned copy of the flat row-major storage.
    pub fn to_vec(&self) -> (r: Vec<i64>)
        ensures
            r@ == self.entries(),
    {
        let mut out: Vec<i64> = Vec::new();
        let mut k: usize = 0;
        while k < self.data.len()
            invariant
                k <= self.entries().len(),
                out.len() == k,
                forall|q: int| 0 <= q < k ==> out[q] == self.entries()[q],
            decreases self.data.len() - k,
        {
            out.push(self.data[k]);
            k = k + 1;
        }
        proof {
            assert(out@ =~= self.entries());
        }
        out
    }

    /// Writes one collected result into its target cell of the flat
    /// storage.
    fn set_at(&mut self, k: usize, v: i64)
        requires
            old(self).wf(),
            k < old(self).entries().len(),
        ensures
            final(self).wf(),
            final(self).rows() == old(self).rows(),
            final(self).cols() == old(self).cols(),
            final(self).entries() == old(self).entries().update(k as int, v),
    {
        self.data.set(k, v);
    }
}

/// How many workers the plain `multiply` entry point dispatches across.
const NUM_PRODUCERS: usize = 4;

/// One unit of work: compute the dot product whose value belongs at
/// position `idx` of the flattened result, from owned copies of the
/// operand row and column.
pub struct MsgInput {
    pub idx: usize,
    pub row: Vector,
    pub col: Vector,
}

/// One finished unit of work: the value owed to position `idx` of the
/// flattened result.
#[derive(Clone, Copy, Debug)]
pub struct MsgOutput {
    pub idx: usize,
    pub value: i64,
}

/// Every dot product that multiplying `a` by `b` performs stays inside
/// the `i64` range, so the whole product can be computed exactly.
pub open spec fn mul_fits(a: &Matrix, b: &Matrix) -> bool {
    forall|i: int, j: int|
        0 <= i < a.rows() && 0 <= j < b.cols() ==> dot_fits(
            #[trigger] a.row_spec(i),
            #[trigger] b.col_spec(j),
        )
}

/// The value owed to flattened cell `k` of the product of `a` and `b`.
pub open spec fn cell_spec(a: &Matrix, b: &Matrix, k: int) -> int {
    dot_spec(a.row_spec(k / b.cols()), b.col_spec(k % b.cols()))
}

/// `m` is the product of `a` and `b`: the shape matches and every cell
/// holds the dot product of the corresponding operand row and column.
pub open spec fn product_ok(a: &Matrix, b: &Matrix, m: &Matrix) -> bool {
    &&& m.wf()
    &&& m.rows() == a.rows()
    &&& m.cols() == b.cols()
    &&& forall|i: int, j: int|
        0 <= i < a.rows() && 0 <= j < b.cols() ==> #[trigger] m.ent(i, j) == dot_spec(
            a.row_spec(i),
            b.col_spec(j),
        )
}

/// The task at queue position `k` is well-formed: it targets cell `k` of
/// the flattened result and carries owned copies of the operand row and
/// column that cell needs.
pub open spec fn task_ok(a: &Matrix, b: &Matrix, t: MsgInput, k: int) -> bool {
    &&& t.idx == k
    &&& 0 <= k < a.rows() * b.cols()
    &&& 0 < b.cols()
    &&& 0 <= k / b.cols() < a.rows()
    &&& 0 <= k % b.cols() < b.cols()
    &&& t.row@ == a.row_spec(k / b.cols())
    &&& t.col@ == b.col_spec(k % b.cols())
}

/// A completed result is well-formed: it targets a real cell of the
/// product of `a` and `b` and holds exactly that cell's dot product.
pub open spec fn out_ok(a: &Matrix, b: &Matrix, o: MsgOutput) -> bool {
    &&& 0 <= o.idx < a.rows() * b.cols()
    &&& o.value == cell_spec(a, b, o.idx as int)
}

/// Some result among the first `n` recorded ones targets cell `k`.
pub open spec fn covered_upto(outs: Seq<MsgOutput>, n: int, k: int) -> bool {
    exists|t: int| 0 <= t < n && t < outs.len() && #[trigger] outs[t].idx == k
}

/// Recording one more result loses no coverage already established.
proof fn lemma_covered_after_push(outs: Seq<MsgOutput>, o: MsgOutput, n1: int, n2: int, k: int)
    requires
        covered_upto(outs, n1, k),
        n2 >= n1,
    ensures
        covered_upto(outs.push(o), n2, k),
{
    let t = choose|t: int| 0 <= t < n1 && t < outs.len() && #[trigger] outs[t].idx == k;
    assert(outs.push(o)[t].idx == k);
}

/// Multiplies `a` by `b` with a pool of `workers` execution units.
///
/// The output cells are partitioned into one task each, in cell order;
/// task `(i, j)` goes to worker `i % workers`, each worker handles its
/// own queue in arrival order, and every finished value is written back
/// to the cell its task named. The contract pins every cell of the
/// result, so the outcome is the same for every pool size.
pub fn multiply_with_workers(a: &Matrix, b: &Matrix, workers: usize) -> (r: Result<Matrix, Error>)
    requires
        a.wf(),
        b.wf(),
        workers >= 1,
        a.cols() == b.rows() ==> a.rows() * b.cols() <= usize::MAX && mul_fits(a, b),
    ensures
        match r {
            Ok(m) => a.cols() == b.rows() && product_ok(a, b, &m),
            Err(e) => a.cols() != b.rows() && e == Error::DimensionMismatch,
        },
{
    if a.col_count() != b.row_count() {
        return Err(Error::DimensionMismatch);
    }
    let rows = a.row_count();
    let cols = b.col_count();

    // Dispatcher: one task per output cell, in cell order (i outer, j
    // inner), each carrying its own copies of the operand row and column.
    let mut tasks: Vec<MsgInput> = Vec::new();
    let mut i: usize = 0;
    while i < rows
        invariant
            a.wf(),
            b.wf(),
            a.cols() == b.rows(),
            rows == a.rows(),
            cols == b.cols(),
            rows * cols <= usize::MAX,
            i <= rows,
            tasks@.len() == i * cols,
            forall|t: int| 0 <= t < tasks@.len() ==> task_ok(a, b, #[trigger] tasks@[t], t),
        decreases rows - i,
    {
        let mut j: usize = 0;
        while j < cols
            invariant
                a.wf(),
                b.wf(),
                a.cols() == b.rows(),
                rows == a.rows(),
                cols == b.cols(),
                rows * cols <= usize::MAX,
                i < rows,
                j <= cols,
                tasks@.len() == i * cols + j,
                forall|t: int| 0 <= t < tasks@.len() ==> task_ok(a, b, #[trigger] tasks@[t], t),
            decreases cols - j,
        {
            proof {
                assert(i * cols + j < rows * cols) by (nonlinear_arith)
                    requires
                        0 <= i,
                        i + 1 <= rows,
                        0 <= j < cols,
                ;
            }
            let rv = a.row(i);
            let cv = b.col(j);
            let idx = i * cols + j;
            proof {
                lemma_fundamental_div_mod_converse(idx as int, cols as int, i as int, j as int);
            }
            tasks.push(MsgInput { idx, row: rv, col: cv });
            j = j + 1;
        }
        proof {
            assert((i + 1) * cols == i * cols + cols) by (nonlinear_arith);
        }
        i = i + 1;
    }
    let total = tasks.len();

    // Workers: worker `w` walks its own queue (the tasks whose output row
    // is `w` modulo the pool size) in arrival order; results accumulate
    // in completion order, which interleaves the queues.
    let mut outputs: Vec<MsgOutput> = Vec::new();
    let mut w: usize = 0;
    while w < workers
        invariant
            a.wf(),
            b.wf(),
            a.cols() == b.rows(),
            rows == a.rows(),
            cols == b.cols(),
            mul_fits(a, b),
            workers >= 1,
            w <= workers,
            total == tasks@.len(),
            total == rows * cols,
            forall|t: int| 0 <= t < tasks@.len() ==> task_ok(a, b, #[trigger] tasks@[t], t),
            forall|t: int| 0 <= t < outputs@.len() ==> out_ok(a, b, #[trigger] outputs@[t]),
            forall|k: int|
                0 <= k < total && #[trigger] ((k / cols as int) % workers as int) < w
                    ==> covered_upto(outputs@, outputs@.len() as int, k),
        decreases workers - w,
    {
        let mut k: usize = 0;
        while k < total
            invariant
                a.wf(),
                b.wf(),
                a.cols() == b.rows(),
                rows == a.rows(),
                cols == b.cols(),
                mul_fits(a, b),
                workers >= 1,
                w < workers,
                k <= total,
                total == tasks@.len(),
                total == rows * cols,
                forall|t: int| 0 <= t < tasks@.len() ==> task_ok(a, b, #[trigger] tasks@[t], t),
                forall|t: int| 0 <= t < outputs@.len() ==> out_ok(a, b, #[trigger] outputs@[t]),
                forall|k2: int|
                    0 <= k2 < total && #[trigger] ((k2 / cols as int) % workers as int) < w
                        ==> covered_upto(outputs@, outputs@.len() as int, k2),
                forall|k2: int|
                    0 <= k2 < k && #[trigger] ((k2 / cols as int) % workers as int) == w
                        ==> covered_upto(outputs@, outputs@.len() as int, k2),
            decreases total - k,
        {
            proof {
                assert(task_ok(a, b, tasks@[k as int], k as int));
            }
            let t_idx = tasks[k].idx;
            let row_of = t_idx / cols;
            if row_of % workers == w {
                let rv = tasks[k].row.clone();
                let cv = tasks[k].col.clone();
                proof {
                    assert(dot_fits(
                        a.row_spec(k as int / cols as int),
                        b.col_spec(k as int % cols as int),
                    ));
                }
                let v = match dot_product(rv, cv) {
                    Ok(v) => v,
                    // Both operands have the shared inner dimension's
                    // length, so the dot product cannot be refused.
                    Err(_) => unreached(),
                };
                proof {
                    assert(out_ok(a, b, MsgOutput { idx: t_idx, value: v }));
                }
                let ghost outs0 = outputs@;
                outputs.push(MsgOutput { idx: t_idx, value: v });
                proof {
                    assert(outputs@ == outs0.push(MsgOutput { idx: t_idx, value: v }));
                    assert forall|k2: int|
                        (0 <= k2 < total && #[trigger] ((k2 / cols as int) % workers as int) < w)
                            || (0 <= k2 < k + 1 && ((k2 / cols as int) % workers as int)
                            == w) implies covered_upto(outputs@, outputs@.len() as int, k2) by {
                        if k2 == k as int {
                            assert(outputs@[outs0.len() as int].idx == k2);
                        } else {
                            lemma_covered_after_push(
                                outs0,
                                MsgOutput { idx: t_idx, value: v },
                                outs0.len() as int,
                                outputs@.len() as int,
                                k2,
                            );
                        }
                    };
                }
            }
            k = k + 1;
        }
        w = w + 1;
    }
    proof {
        assert forall|k: int| 0 <= k < total implies #[trigger] covered_upto(
            outputs@,
            outputs@.len() as int,
            k,
        ) by {
            assert(task_ok(a, b, tasks@[k], k));
            lemma_mod_bound(k / cols as int, workers as int);
            assert(((k / cols as int) % workers as int) < workers as int);
        };
    }

    // Collector: walk the recorded results and write each value into the
    // cell its task named; the outcome does not depend on the order the
    // results arrived in, because each result carries its target index.
    let mut m = Matrix::new(rows, cols);
    let out_len = outputs.len();
    let mut t: usize = 0;
    while t < out_len
        invariant
            a.wf(),
            b.wf(),
            a.cols() == b.rows(),
            rows == a.rows(),
            cols == b.cols(),
            out_len == outputs@.len(),
            m.wf(),
            m.rows() == rows,
            m.cols() == cols,
            t <= out_len,
            forall|t2: int| 0 <= t2 < outputs@.len() ==> out_ok(a, b, #[trigger] outputs@[t2]),
            forall|k: int|
                0 <= k < rows * cols ==> #[trigger] covered_upto(
                    outputs@,
                    outputs@.len() as int,
                    k,
                ),
            forall|k: int|
                0 <= k < rows * cols && #[trigger] covered_upto(outputs@, t as int, k)
                    ==> m.entries()[k] == cell_spec(a, b, k),
        decreases out_len - t,
    {
        let idx = outputs[t].idx;
        let value = outputs[t].value;
        m.set_at(idx, value);
        proof {
            assert forall|k: int|
                0 <= k < rows * cols && #[trigger] covered_upto(
                    outputs@,
                    t as int + 1,
                    k,
                ) implies m.entries()[k] == cell_spec(a, b, k) by {
                if k == idx as int {
                    assert(out_ok(a, b, outputs@[t as int]));
                } else {
                    let t2 = choose|t2: int|
                        0 <= t2 < t as int + 1 && t2 < outputs@.len() && #[trigger] outputs@[t2].idx
                            == k;
                    assert(0 <= t2 < t as int);
                    assert(covered_upto(outputs@, t as int, k));
                }
            };
        }
        t = t + 1;
    }
    proof {
        assert forall|i2: int, j2: int| 0 <= i2 < a.rows() && 0 <= j2 < b.cols() implies m.ent(
            i2,
            j2,
        ) == dot_spec(a.row_spec(i2), b.col_spec(j2)) by {
            let ki = i2 * (cols as int) + j2;
            assert(0 <= i2 * (cols as int) + j2 < rows * cols) by (nonlinear_arith)
                requires
                    0 <= i2,
                    i2 + 1 <= rows,
                    0 <= j2 < cols,
            ;
            lemma_fundamental_div_mod_converse(ki, cols as int, i2, j2);
            assert(covered_upto(outputs@, outputs@.len() as int, ki));
            assert(covered_upto(outputs@, t as int, ki));
            assert(m.entries()[ki] == cell_spec(a, b, ki));
        };
    }
    Ok(m)
}

/// Multiplies two dense matrices with the library's fixed worker pool.
///
/// Fails with `DimensionMismatch` exactly when the operand shapes are
/// incompatible, before any task is created; otherwise returns the
/// complete product matrix.
pub fn multiply(a: &Matrix, b: &Matrix) -> (r: Result<Matrix, Error>)
    requires
        a.wf(),
        b.wf(),
        a.cols() == b.rows() ==> a.rows() * b.cols() <= usize::MAX && mul_fits(a, b),
    ensures
        match r {
            Ok(m) => a.cols() == b.rows() && product_ok(a, b, &m),
            Err(e) => a.cols() != b.rows() && e == Error::DimensionMismatch,
        },
{
    multiply_with_workers(a, b, NUM_PRODUCERS)
}

/// Matrices of one shape whose cells agree everywhere have the same
/// flat storage.
proof fn lemma_entries_from_cells(m1: &Matrix, m2: &Matrix)
    requires
        m1.wf(),
        m2.wf(),
        m1.rows() == m2.rows(),
        m1.cols() == m2.cols(),
        forall|i: int, j: int|
            0 <= i < m1.rows() && 0 <= j < m1.cols() ==> #[trigger] m1.ent(i, j) == #[trigger] m2.ent(i, j),
    ensures
        m1.entries() =~= m2.entries(),
{
    let rows = m1.rows();
    let c = m1.cols();
    assert forall|k: int| 0 <= k < m1.entries().len() implies m1.entries()[k] == m2.entries()[k] by {
        assert(0 < c) by (nonlinear_arith)
            requires
                0 <= k < rows * c,
                0 <= c,
        ;
        lemma_fundamental_div_mod(k, c);
        lemma_mod_bound(k, c);
        let i = k / c;
        let j = k % c;
        assert(0 <= i < rows) by (nonlinear_arith)
            requires
                k == c * i + j,
                0 <= j < c,
                0 <= k < rows * c,
        ;
        assert(i * c + j == k);
        assert(m1.ent(i, j) == m2.ent(i, j));
    };
}

/// The product is determined by the operands alone: any two matrices
/// that each satisfy the multiplication contract for the same operands
/// have the same shape and the same values. The worker count appears
/// nowhere in that contract, so the result of the multiplication is
/// independent of the pool size it ran with.
pub proof fn lemma_product_unique(a: &Matrix, b: &Matrix, m1: &Matrix, m2: &Matrix)
    requires
        product_ok(a, b, m1),
        product_ok(a, b, m2),
    ensures
        m1.rows() == m2.rows(),
        m1.cols() == m2.cols(),
        m1.entries() =~= m2.entries(),
{
    lemma_entries_from_cells(m1, m2);
}

/// An identity matrix: square, ones on the diagonal, zeroes elsewhere.
pub open spec fn is_identity(m: &Matrix) -> bool {
    &&& m.wf()
    &&& m.rows() == m.cols()
    &&& forall|i: int, j: int|
        0 <= i < m.rows() && 0 <= j < m.cols() ==> #[trigger] m.ent(i, j) == (
        if i == j {
            1i64
        } else {
            0i64
        })
}

/// The first `k` terms of a dot product against the unit vector with a
/// one at position `j` pick out `r[j]` once `k` passes `j`.
proof fn lemma_dot_unit_prefix(r: Seq<i64>, u: Seq<i64>, j: int, k: int)
    requires
        u.len() == r.len(),
        0 <= j < r.len(),
        forall|x: int|
            0 <= x < u.len() ==> u[x] == (
            if x == j {
                1i64
            } else {
                0i64
            }),
        0 <= k <= r.len(),
    ensures
        dot_prefix(r, u, k) == if j < k {
            r[j] as int
        } else {
            0
        },
    decreases k,
{
    if k > 0 {
        lemma_dot_unit_prefix(r, u, j, k - 1);
    }
}

/// Multiplying a matrix by a compatible identity matrix on the right
/// returns the original matrix unchanged.
pub proof fn lemma_identity_preserves(a: &Matrix, id: &Matrix, m: &Matrix)
    requires
        a.wf(),
        is_identity(id),
        a.cols() == id.rows(),
        product_ok(a, id, m),
    ensures
        m.rows() == a.rows(),
        m.cols() == a.cols(),
        m.entries() =~= a.entries(),
{
    assert forall|i: int, j: int| 0 <= i < a.rows() && 0 <= j < a.cols() implies #[trigger] m.ent(
        i,
        j,
    ) == #[trigger] a.ent(i, j) by {
        lemma_dot_unit_prefix(a.row_spec(i), id.col_spec(j), j, a.cols());
        assert(dot_spec(a.row_spec(i), id.col_spec(j)) == a.row_spec(i)[j]);
    };
    lemma_entries_from_cells(m, a);
}

} // verus!

