use vstd::prelude::*;

use crate::field::{Conjugate, Equals, Field};
use crate::vector::{
    add_seq, add_vec, dot_spec, dot_vec, scale_seq, scale_vec, seq_equals, sub_seq, sub_vec, vec_equals,
    Vector,
};

verus! {

/// The rows of a `Vec<Vec<K>>` as a sequence of sequences.
pub open spec fn grid<K>(d: Seq<Vec<K>>) -> Seq<Seq<K>> {
    Seq::new(d.len(), |i: int| d[i]@)
}

/// Every row of `m` has exactly `ncols` entries.
pub open spec fn is_grid<K>(m: Seq<Seq<K>>, ncols: nat) -> bool {
    forall|i: int| 0 <= i < m.len() ==> (#[trigger] m[i]).len() == ncols
}

/// Number of columns of a grid (zero when it has no rows).
pub open spec fn width<K>(m: Seq<Seq<K>>) -> nat {
    if m.len() == 0 {
        0
    } else {
        m[0].len()
    }
}

/// A dense, row-major matrix.
#[derive(Clone, Debug)]
pub struct Matrix<K> {
    pub data: Vec<Vec<K>>,
}

impl<K> View for Matrix<K> {
    type V = Seq<Seq<K>>;

    open spec fn view(&self) -> Seq<Seq<K>> {
        grid(self.data@)
    }
}

impl<K> Matrix<K> {
    /// All rows have the same length.
    pub open spec fn wf(&self) -> bool {
        is_grid(self@, width(self@))
    }

    pub open spec fn rows(&self) -> nat {
        self@.len()
    }

    pub open spec fn cols(&self) -> nat {
        width(self@)
    }

    pub open spec fn is_square(&self) -> bool {
        self.rows() == self.cols()
    }

    pub fn new(data: Vec<Vec<K>>) -> (r: Matrix<K>)
        ensures
            r.data@ == data@,
            r@ == grid(data@),
    {
        Matrix { data }
    }

    /// The shape as `[columns, rows]`.
    pub fn shape(&self) -> (r: [usize; 2])
        ensures
            r[0] == self.cols(),
            r[1] == self.rows(),
    {
        let cols: usize = if self.data.len() == 0 {
            0
        } else {
            self.data[0].len()
        };
        [cols, self.data.len()]
    }

    pub fn is_same_shape(&self, m: &Matrix<K>) -> (r: bool)
        ensures
            r == (self.rows() == m.rows() && self.cols() == m.cols()),
    {
        let a = self.shape();
        let b = m.shape();
        a[0] == b[0] && a[1] == b[1]
    }
}

/// Column `j` of a grid.
pub open spec fn column<K>(m: Seq<Seq<K>>, j: int) -> Seq<K> {
    Seq::new(m.len(), |k: int| m[k][j])
}

/// The matrix product: entry `(i, j)` is the dot product of row `i` of `a`
/// with column `j` of `b`.
pub open spec fn product<K: Field>(a: Seq<Seq<K>>, b: Seq<Seq<K>>) -> Seq<Seq<K>> {
    Seq::new(
        a.len(),
        |i: int| Seq::new(width(b), |j: int| dot_spec(a[i], column(b, j), width(a))),
    )
}

/// Sum of the first `n` diagonal entries, accumulated from the top.
pub open spec fn trace_spec<K: Field>(m: Seq<Seq<K>>, n: nat) -> K
    decreases n,
{
    if n == 0 {
        K::zero_spec()
    } else {
        trace_spec(m, (n - 1) as nat).add_spec(m[n - 1][n - 1])
    }
}

/// A grid whose rows all have `ncols` entries is a well-formed matrix of that width.
proof fn lemma_rows_wf<K>(m: Matrix<K>, ncols: nat)
    requires
        is_grid(m@, ncols),
    ensures
        m.wf(),
        m@.len() > 0 ==> m.cols() == ncols,
{
}

impl<K: Field> Matrix<K> {
    /// Entrywise sum of two matrices of the same shape.
    pub fn _add(&self, m: &Matrix<K>) -> (r: Matrix<K>)
        requires
            self.wf(),
            m.wf(),
            self.rows() == m.rows(),
            self.cols() == m.cols(),
        ensures
            r@ == Seq::new(self.rows(), |i: int| add_seq(self@[i], m@[i])),
            r.wf(),
    {
        let mut data: Vec<Vec<K>> = Vec::new();
        let mut i: usize = 0;
        while i < self.data.len()
            invariant
                self.wf(),
                m.wf(),
                self.rows() == m.rows(),
                self.cols() == m.cols(),
                i <= self.data.len(),
                data@.len() == i,
                forall|k: int| 0 <= k < i ==> (#[trigger] data@[k])@ == add_seq(self@[k], m@[k]),
            decreases self.data.len() - i,
        {
            assert(self@[i as int] == self.data@[i as int]@ && m@[i as int] == m.data@[i as int]@);
            assert(self@[i as int].len() == self.cols() && m@[i as int].len() == m.cols());
            data.push(add_vec(&self.data[i], &m.data[i]));
            i += 1;
        }
        let r = Matrix { data };
        assert(r@ =~= Seq::new(self.rows(), |i: int| add_seq(self@[i], m@[i])));
        proof {
            lemma_rows_wf(r, self.cols());
        }
        r
    }

    /// Entrywise difference of two matrices of the same shape.
    pub fn _sub(&self, m: &Matrix<K>) -> (r: Matrix<K>)
        requires
            self.wf(),
            m.wf(),
            self.rows() == m.rows(),
            self.cols() == m.cols(),
        ensures
            r@ == Seq::new(self.rows(), |i: int| sub_seq(self@[i], m@[i])),
            r.wf(),
    {
        let mut data: Vec<Vec<K>> = Vec::new();
        let mut i: usize = 0;
        while i < self.data.len()
            invariant
                self.wf(),
                m.wf(),
                self.rows() == m.rows(),
                self.cols() == m.cols(),
                i <= self.data.len(),
                data@.len() == i,
                forall|k: int| 0 <= k < i ==> (#[trigger] data@[k])@ == sub_seq(self@[k], m@[k]),
            decreases self.data.len() - i,
        {
            assert(self@[i as int] == self.data@[i as int]@ && m@[i as int] == m.data@[i as int]@);
            assert(self@[i as int].len() == self.cols() && m@[i as int].len() == m.cols());
            data.push(sub_vec(&self.data[i], &m.data[i]));
            i += 1;
        }
        let r = Matrix { data };
        assert(r@ =~= Seq::new(self.rows(), |i: int| sub_seq(self@[i], m@[i])));
        proof {
            lemma_rows_wf(r, self.cols());
        }
        r
    }

    /// Every entry multiplied by `a`.
    pub fn _scl(&self, a: K) -> (r: Matrix<K>)
        requires
            self.wf(),
        ensures
            r@ == Seq::new(self.rows(), |i: int| scale_seq(self@[i], a)),
            r.wf(),
    {
        let mut data: Vec<Vec<K>> = Vec::new();
        let mut i: usize = 0;
        while i < self.data.len()
            invariant
                self.wf(),
                i <= self.data.len(),
                data@.len() == i,
                forall|k: int| 0 <= k < i ==> (#[trigger] data@[k])@ == scale_seq(self@[k], a),
            decreases self.data.len() - i,
        {
            assert(self@[i as int] == self.data@[i as int]@);
            data.push(scale_vec(&self.data[i], a));
            i += 1;
        }
        let r = Matrix { data };
        assert(r@ =~= Seq::new(self.rows(), |i: int| scale_seq(self@[i], a)));
        assert forall|k: int| 0 <= k < r@.len() implies (#[trigger] r@[k]).len() == self.cols() by {
            assert(self@[k].len() == self.cols());
        }
        proof {
            lemma_rows_wf(r, self.cols());
        }
        r
    }

    /// The product with a column vector: entry `i` is the dot product of row `i` with `vec`.
    pub fn mul_vec(&self, vec: &Vector<K>) -> (r: Vector<K>)
        requires
            self.wf(),
            self.cols() == vec@.len(),
        ensures
            r@ == Seq::new(self.rows(), |i: int| dot_spec(self@[i], vec@, vec@.len())),
    {
        let mut data: Vec<K> = Vec::new();
        let mut i: usize = 0;
        while i < self.data.len()
            invariant
                self.wf(),
                self.cols() == vec@.len(),
                i <= self.data.len(),
                data@.len() == i,
                forall|k: int| 0 <= k < i ==> #[trigger] data@[k] == dot_spec(self@[k], vec@, vec@.len()),
            decreases self.data.len() - i,
        {
            assert(self@[i as int] == self.data@[i as int]@);
            assert(self@[i as int].len() == self.cols());
            data.push(dot_vec(&self.data[i], &vec.data));
            i += 1;
        }
        let r = Vector { data };
        assert(r@ =~= Seq::new(self.rows(), |i: int| dot_spec(self@[i], vec@, vec@.len())));
        r
    }

    /// The matrix product: entry `(i, j)` is the dot product of row `i` with column `j` of `mat`.
    pub fn mul_mat(&self, mat: &Matrix<K>) -> (r: Matrix<K>)
        requires
            self.wf(),
            mat.wf(),
            self.cols() == mat.rows(),
        ensures
            r@ == product(self@, mat@),
            r.wf(),
    {
        let p = mat.shape()[0];
        let mut data: Vec<Vec<K>> = Vec::new();
        let mut i: usize = 0;
        while i < self.data.len()
            invariant
                self.wf(),
                mat.wf(),
                self.cols() == mat.rows(),
                p == mat.cols(),
                i <= self.data.len(),
                data@.len() == i,
                forall|k: int|
                    0 <= k < i ==> (#[trigger] data@[k])@ == Seq::new(
                        mat.cols(),
                        |j: int| dot_spec(self@[k], column(mat@, j), self.cols()),
                    ),
            decreases self.data.len() - i,
        {
            assert(self@[i as int] == self.data@[i as int]@);
            assert(self@[i as int].len() == self.cols());
            let mut row: Vec<K> = Vec::new();
            let mut j: usize = 0;
            while j < p
                invariant
                    self.wf(),
                    mat.wf(),
                    self.cols() == mat.rows(),
                    p == mat.cols(),
                    i < self.data.len(),
                    self@[i as int] == self.data@[i as int]@,
                    self@[i as int].len() == self.cols(),
                    j <= p,
                    row@.len() == j,
                    forall|l: int|
                        0 <= l < j ==> #[trigger] row@[l] == dot_spec(
                            self@[i as int],
                            column(mat@, l),
                            self.cols(),
                        ),
                decreases p - j,
            {
                let mut acc = K::zero();
                let mut k: usize = 0;
                while k < mat.data.len()
                    invariant
                        mat.wf(),
                        self.cols() == mat.rows(),
                        p == mat.cols(),
                        j < p,
                        i < self.data.len(),
                        self@[i as int] == self.data@[i as int]@,
                        self@[i as int].len() == self.cols(),
                        k <= mat.data.len(),
                        acc == dot_spec(self@[i as int], column(mat@, j as int), k as nat),
                    decreases mat.data.len() - k,
                {
                    assert(mat@[k as int] == mat.data@[k as int]@);
                    assert(mat@[k as int].len() == mat.cols());
                    acc = mat.data[k][j].mul(&self.data[i][k]).add(&acc);
                    k += 1;
                }
                row.push(acc);
                j += 1;
            }
            assert(row@ =~= Seq::new(
                mat.cols(),
                |l: int| dot_spec(self@[i as int], column(mat@, l), self.cols()),
            ));
            data.push(row);
            i += 1;
        }
        let r = Matrix { data };
        assert(r@ =~= Seq::new(
            self.rows(),
            |i: int| Seq::new(mat.cols(), |j: int| dot_spec(self@[i], column(mat@, j), self.cols())),
        ));
        proof {
            lemma_rows_wf(r, mat.cols());
        }
        r
    }

    /// The sum of the diagonal of a square matrix.
    pub fn trace(&self) -> (r: K)
        requires
            self.wf(),
            self.is_square(),
        ensures
            r == trace_spec(self@, self.rows()),
    {
        let mut r = K::zero();
        let mut i: usize = 0;
        while i < self.data.len()
            invariant
                self.wf(),
                self.is_square(),
                i <= self.data.len(),
                r == trace_spec(self@, i as nat),
            decreases self.data.len() - i,
        {
            assert(self@[i as int] == self.data@[i as int]@);
            assert(self@[i as int].len() == self.cols());
            r = r.add(&self.data[i][i]);
            i += 1;
        }
        r
    }
}

impl<K: Field + Conjugate> Matrix<K> {
    /// The conjugate transpose: entry `(i, j)` is the conjugate of entry `(j, i)`.
    pub fn transpose(&self) -> (r: Matrix<K>)
        requires
            self.wf(),
        ensures
            r@ == Seq::new(
                self.cols(),
                |i: int| Seq::new(self.rows(), |j: int| self@[j][i].conjugate_spec()),
            ),
    {
        let ncols = self.shape()[0];
        let mut data: Vec<Vec<K>> = Vec::new();
        let mut i: usize = 0;
        while i < ncols
            invariant
                self.wf(),
                ncols == self.cols(),
                i <= ncols,
                data@.len() == i,
                forall|k: int|
                    0 <= k < i ==> (#[trigger] data@[k])@ == Seq::new(
                        self.rows(),
                        |j: int| self@[j][k].conjugate_spec(),
                    ),
            decreases ncols - i,
        {
            let mut row: Vec<K> = Vec::new();
            let mut j: usize = 0;
            while j < self.data.len()
                invariant
                    self.wf(),
                    ncols == self.cols(),
                    i < ncols,
                    j <= self.data.len(),
                    row@ == Seq::new(self.rows(), |l: int| self@[l][i as int].conjugate_spec()).subrange(
                        0,
                        j as int,
                    ),
                decreases self.data.len() - j,
            {
                assert(self@[j as int] == self.data@[j as int]@);
                assert(self@[j as int].len() == self.cols());
                row.push(self.data[j][i].conjugate());
                j += 1;
                assert(row@ =~= Seq::new(
                    self.rows(),
                    |l: int| self@[l][i as int].conjugate_spec(),
                ).subrange(0, j as int));
            }
            assert(row@ =~= Seq::new(self.rows(), |l: int| self@[l][i as int].conjugate_spec()));
            data.push(row);
            i += 1;
        }
        let r = Matrix { data };
        assert(r@ =~= Seq::new(
            self.cols(),
            |i: int| Seq::new(self.rows(), |j: int| self@[j][i].conjugate_spec()),
        ));
        r
    }
}

/// Same number of rows, and every pair of rows equal entry by entry.
pub open spec fn grid_equals<K: Equals>(a: Seq<Seq<K>>, b: Seq<Seq<K>>) -> bool {
    a.len() == b.len() && forall|i: int| 0 <= i < a.len() ==> seq_equals(#[trigger] a[i], b[i])
}

impl<K: Equals> PartialEq for Matrix<K> {
    fn eq(&self, m: &Self) -> (r: bool) {
        if self.data.len() != m.data.len() {
            return false;
        }
        let mut i: usize = 0;
        while i < self.data.len()
            invariant
                i <= self.data.len(),
                self.data.len() == m.data.len(),
                forall|k: int| 0 <= k < i ==> seq_equals(#[trigger] self@[k], m@[k]),
            decreases self.data.len() - i,
        {
            assert(self@[i as int] == self.data@[i as int]@ && m@[i as int] == m.data@[i as int]@);
            if !vec_equals(&self.data[i], &m.data[i]) {
                return false;
            }
            i += 1;
        }
        true
    }
}

impl<K: Equals> vstd::std_specs::cmp::PartialEqSpecImpl for Matrix<K> {
    open spec fn obeys_eq_spec() -> bool {
        true
    }

    open spec fn eq_spec(&self, m: &Matrix<K>) -> bool {
        grid_equals(self@, m@)
    }
}

} // verus!
