use vstd::prelude::*;

use crate::echelon::{
    backward_exec, echelon_of, echelon_shape, forward, forward_exec, forward_inv, is_echelon,
    is_rref, is_zero_row, lead, leading_col, lemma_echelon_of, lemma_forward, lemma_lead_bounds, lemma_normalized_echelon,
    lemma_pivot_row, lemma_pivot_step, lemma_rref, pivot_row, pivot_step, rref, Echelon,
};
use crate::field::{Equals, Field};
use crate::matrix::{grid, is_grid, product, width, Matrix};

verus! {

/// Product of the first `n` diagonal entries, multiplied in from the top.
pub open spec fn diag_product<K: Field>(m: Seq<Seq<K>>, n: nat) -> K
    decreases n,
{
    if n == 0 {
        K::one_spec()
    } else {
        diag_product(m, (n - 1) as nat).mul_spec(m[n - 1][n - 1])
    }
}

/// Some diagonal entry among the first `n` is zero.
pub open spec fn has_zero_diag<K: Field>(m: Seq<Seq<K>>, n: nat) -> bool {
    exists|i: int| 0 <= i < n && (#[trigger] m[i][i]).is_zero_spec()
}

/// Determinant of a square grid: the product of the diagonal of its
/// unnormalized echelon form, negated after an odd number of row exchanges,
/// and zero as soon as a diagonal entry is zero.
pub open spec fn det<K: Field>(m: Seq<Seq<K>>) -> K {
    let e = echelon_of(m, m.len(), false);
    if has_zero_diag(e.rows, m.len()) {
        K::zero_spec()
    } else if e.swaps % 2 == 1 {
        diag_product(e.rows, m.len()).neg_spec()
    } else {
        diag_product(e.rows, m.len())
    }
}

/// Number of rows among the first `n` with a non-zero entry.
pub open spec fn count_nonzero_rows<K: Field>(m: Seq<Seq<K>>, n: nat) -> nat
    decreases n,
{
    if n == 0 {
        0
    } else {
        count_nonzero_rows(m, (n - 1) as nat) + if is_zero_row(m[n - 1]) {
            0nat
        } else {
            1nat
        }
    }
}

/// Rank: the number of non-zero rows after forward elimination.
pub open spec fn rank_of<K: Field>(m: Seq<Seq<K>>, ncols: nat) -> nat {
    count_nonzero_rows(echelon_of(m, ncols, false).rows, m.len())
}

/// `[A | I]`: each row of the square grid `m` followed by the matching row of the identity.
pub open spec fn augment<K: Field>(m: Seq<Seq<K>>) -> Seq<Seq<K>> {
    Seq::new(m.len(), |i: int| m[i] + identity_row(m.len(), i))
}

/// Row `i` of the `n × n` identity.
pub open spec fn identity_row<K: Field>(n: nat, i: int) -> Seq<K> {
    Seq::new(
        n,
        |j: int|
            if i == j {
                K::one_spec()
            } else {
                K::zero_spec()
            },
    )
}

/// The left `n` columns of a reduced grid form the identity: row `i` leads in column `i`.
pub open spec fn left_is_identity<K: Field>(m: Seq<Seq<K>>, n: nat) -> bool {
    forall|i: int| 0 <= i < n ==> lead(#[trigger] m[i]) == i
}

/// The left `n × n` block holds ones on the diagonal and zeros elsewhere.
pub open spec fn left_block_is_identity<K: Field>(m: Seq<Seq<K>>, n: nat) -> bool {
    forall|i: int, j: int|
        0 <= i < n && 0 <= j < n ==> if i == j {
            #[trigger] m[i][j] == K::one_spec()
        } else {
            m[i][j].is_zero_spec()
        }
}

/// In a reduced form where row `i` leads in column `i`, the left block is the identity.
proof fn lemma_left_block<K: Field>(m: Seq<Seq<K>>, n: nat)
    requires
        is_rref(m),
        left_is_identity(m, n),
        n <= m.len(),
        forall|i: int| 0 <= i < m.len() ==> n <= (#[trigger] m[i]).len(),
    ensures
        left_block_is_identity(m, n),
{
    assert forall|i: int, j: int| 0 <= i < n && 0 <= j < n implies if i == j {
        #[trigger] m[i][j] == K::one_spec()
    } else {
        m[i][j].is_zero_spec()
    } by {
        assert(lead(m[i]) == i);
        assert(lead(m[j]) == j);
        lemma_lead_bounds(m[i]);
    }
}

/// Columns `n..2n` of each row.
pub open spec fn right_block<K>(m: Seq<Seq<K>>, n: nat) -> Seq<Seq<K>> {
    Seq::new(m.len(), |i: int| m[i].subrange(n as int, 2 * n as int))
}

/// Rows `0..n` of an echelon shape are non-zero exactly up to the pivot count.
proof fn lemma_count_nonzero<K: Field>(e: Echelon<K>, nrows: nat, ncols: nat, normalize: bool, n: nat)
    requires
        echelon_shape(e, nrows, ncols, normalize),
        n <= nrows,
    ensures
        count_nonzero_rows(e.rows, n) == if n < e.pivots {
            n
        } else {
            e.pivots
        },
    decreases n,
{
    if n > 0 {
        lemma_count_nonzero(e, nrows, ncols, normalize, (n - 1) as nat);
        let row = e.rows[n - 1];
        if n - 1 < e.pivots {
            lemma_lead_bounds(row);
            assert(!row[lead(row)].is_zero_spec());
        }
    }
}

/// The rank equals the number of pivots of forward elimination.
proof fn lemma_rank_is_pivots<K: Field>(m: Seq<Seq<K>>, ncols: nat)
    requires
        is_grid(m, ncols),
    ensures
        rank_of(m, ncols) == echelon_of(m, ncols, false).pivots,
        rank_of(m, ncols) <= m.len(),
        rank_of(m, ncols) <= ncols,
{
    lemma_echelon_of(m, ncols, false);
    lemma_count_nonzero(echelon_of(m, ncols, false), m.len(), ncols, false, m.len());
}

/// Why a matrix has no inverse.
#[derive(Clone, Copy, Debug, PartialEq, Eq)]
pub enum MatrixError {
    /// The matrix is not square.
    NotSquare,
    /// The matrix is square but singular.
    Singular,
}

/// A copy of the rows.
fn copy_rows<K: Copy>(data: &Vec<Vec<K>>) -> (out: Vec<Vec<K>>)
    ensures
        grid(out@) == grid(data@),
{
    let mut out: Vec<Vec<K>> = Vec::new();
    let mut i: usize = 0;
    while i < data.len()
        invariant
            i <= data.len(),
            out@.len() == i,
            forall|k: int| 0 <= k < i ==> (#[trigger] out@[k])@ == data@[k]@,
        decreases data.len() - i,
    {
        let mut row: Vec<K> = Vec::new();
        let mut j: usize = 0;
        while j < data[i].len()
            invariant
                i < data.len(),
                j <= data@[i as int].len(),
                row@ == data@[i as int]@.subrange(0, j as int),
            decreases data@[i as int].len() - j,
        {
            row.push(data[i][j]);
            j += 1;
            assert(row@ =~= data@[i as int]@.subrange(0, j as int));
        }
        assert(row@ =~= data@[i as int]@);
        out.push(row);
        i += 1;
    }
    assert(grid(out@) =~= grid(data@));
    out
}

/// Whether some entry of `row` is non-zero.
fn has_nonzero<K: Field>(row: &Vec<K>) -> (b: bool)
    ensures
        b == !is_zero_row(row@),
{
    let mut j: usize = 0;
    while j < row.len()
        invariant
            j <= row.len(),
            forall|k: int| 0 <= k < j ==> (#[trigger] row@[k]).is_zero_spec(),
        decreases row.len() - j,
    {
        if !row[j].is_zero() {
            return true;
        }
        j += 1;
    }
    false
}

impl<K: Field> Matrix<K> {
    /// The reduced row-echelon form: forward elimination with partial pivoting
    /// and normalized pivots, then elimination above each pivot.
    pub fn row_echelon(&self) -> (r: Matrix<K>)
        requires
            self.wf(),
        ensures
            r@ == rref(self@, self.cols()),
            r.wf(),
            r.rows() == self.rows(),
            r.rows() > 0 ==> r.cols() == self.cols(),
            is_rref(r@),
    {
        let mut data = copy_rows(&self.data);
        let ncols = self.shape()[0];
        forward_exec(&mut data, ncols, true);
        proof {
            lemma_normalized_echelon(self@, ncols as nat);
        }
        backward_exec(&mut data, Ghost(ncols as nat));
        proof {
            lemma_rref(self@, ncols as nat);
        }
        Matrix { data }
    }

    /// Forward elimination with partial pivoting, pivots left unnormalized.
    /// Adds the number of row exchanges made to `switch_counter`.
    pub fn row_echelon_count(&self, switch_counter: &mut usize) -> (r: Matrix<K>)
        requires
            self.wf(),
            *old(switch_counter) + self.rows() <= usize::MAX,
        ensures
            r@ == echelon_of(self@, self.cols(), false).rows,
            *final(switch_counter) == *old(switch_counter) + echelon_of(
                self@,
                self.cols(),
                false,
            ).swaps,
            r.wf(),
            r.rows() == self.rows(),
            r.rows() > 0 ==> r.cols() == self.cols(),
            is_echelon(r@),
    {
        let mut data = copy_rows(&self.data);
        let ncols = self.shape()[0];
        let res = forward_exec(&mut data, ncols, false);
        proof {
            lemma_echelon_of(self@, ncols as nat, false);
        }
        *switch_counter = *switch_counter + res.0;
        Matrix { data }
    }

    /// The determinant of a square matrix.
    pub fn determinant(&self) -> (d: K)
        requires
            self.wf(),
            self.is_square(),
        ensures
            d == det(self@),
    {
        let mut data = copy_rows(&self.data);
        let n = self.data.len();
        let res = forward_exec(&mut data, n, false);
        let ghost e = echelon_of(self@, n as nat, false);
        proof {
            lemma_echelon_of(self@, n as nat, false);
        }
        let mut d = K::one();
        let mut i: usize = 0;
        while i < n
            invariant
                i <= n,
                n == self@.len(),
                e == echelon_of(self@, n as nat, false),
                res.0 == e.swaps,
                grid(data@) == e.rows,
                is_grid(e.rows, n as nat),
                e.rows.len() == n,
                d == diag_product(e.rows, i as nat),
                !has_zero_diag(e.rows, i as nat),
            decreases n - i,
        {
            assert(grid(data@)[i as int] == data@[i as int]@);
            if data[i][i].is_zero() {
                assert(e.rows[i as int][i as int].is_zero_spec());
                return K::zero();
            }
            d = d.mul(&data[i][i]);
            i += 1;
        }
        if res.0 % 2 == 1 {
            d = d.neg();
        }
        d
    }

    /// The rank: how many rows are non-zero after forward elimination.
    pub fn rank(&self) -> (r: usize)
        requires
            self.wf(),
        ensures
            r == rank_of(self@, self.cols()),
            r <= self.rows(),
            r <= self.cols(),
    {
        let mut data = copy_rows(&self.data);
        let ncols = self.shape()[0];
        forward_exec(&mut data, ncols, false);
        let ghost e = echelon_of(self@, ncols as nat, false);
        proof {
            lemma_echelon_of(self@, ncols as nat, false);
        }
        let mut count: usize = 0;
        let mut i: usize = 0;
        while i < data.len()
            invariant
                i <= data.len(),
                data.len() == self@.len(),
                grid(data@) == e.rows,
                count == count_nonzero_rows(e.rows, i as nat),
                count <= i,
            decreases data.len() - i,
        {
            assert(grid(data@)[i as int] == data@[i as int]@);
            if has_nonzero(&data[i]) {
                count += 1;
            }
            i += 1;
        }
        proof {
            lemma_rank_is_pivots(self@, ncols as nat);
        }
        count
    }

    /// The right half of the reduced form of `[A | I]`, when its left half is
    /// the identity.
    fn reduce_augmented(&self) -> (r: Result<Matrix<K>, MatrixError>)
        requires
            self.wf(),
            2 * self.rows() <= usize::MAX,
        ensures
            !self.is_square() ==> r == Err::<Matrix<K>, MatrixError>(MatrixError::NotSquare),
            self.is_square() ==> {
                let a = rref(augment(self@), 2 * self.rows());
                &&& (r is Ok <==> left_is_identity(a, self.rows()))
                &&& (r is Ok ==> r->Ok_0@ == right_block(a, self.rows()) && r->Ok_0.wf())
                &&& (r is Ok ==> r->Ok_0.rows() == self.rows() && r->Ok_0.cols() == self.rows())
                &&& (r is Ok ==> left_block_is_identity(a, self.rows()))
                &&& (!(r is Ok) ==> r == Err::<Matrix<K>, MatrixError>(MatrixError::Singular))
            },
    {
        let n = self.data.len();
        if self.shape()[0] != n {
            return Err(MatrixError::NotSquare);
        }
        let ghost aug = augment(self@);
        let mut data: Vec<Vec<K>> = Vec::new();
        let mut i: usize = 0;
        while i < n
            invariant
                n == self@.len(),
                self.wf(),
                self.cols() == n,
                aug == augment(self@),
                i <= n,
                data@.len() == i,
                forall|k: int| 0 <= k < i ==> (#[trigger] data@[k])@ == aug[k],
            decreases n - i,
        {
            assert(self@[i as int] == self.data@[i as int]@);
            assert(self@[i as int].len() == n);
            let mut row: Vec<K> = Vec::new();
            let mut j: usize = 0;
            while j < n
                invariant
                    i < n,
                    n == self@.len(),
                    self@[i as int].len() == n,
                    self@[i as int] == self.data@[i as int]@,
                    j <= n,
                    row@ == self@[i as int].subrange(0, j as int),
                decreases n - j,
            {
                row.push(self.data[i][j]);
                j += 1;
                assert(row@ =~= self@[i as int].subrange(0, j as int));
            }
            assert(row@ =~= self@[i as int]);
            let mut j: usize = 0;
            while j < n
                invariant
                    i < n,
                    n == self@.len(),
                    j <= n,
                    row@ == self@[i as int] + identity_row::<K>(n as nat, i as int).subrange(
                        0,
                        j as int,
                    ),
                decreases n - j,
            {
                let x = if i == j {
                    K::one()
                } else {
                    K::zero()
                };
                row.push(x);
                j += 1;
                assert(row@ =~= self@[i as int] + identity_row::<K>(n as nat, i as int).subrange(
                    0,
                    j as int,
                ));
            }
            assert(row@ =~= aug[i as int]);
            data.push(row);
            i += 1;
        }
        assert(grid(data@) =~= aug);
        let ncols = n + n;
        assert(is_grid(aug, ncols as nat)) by {
            assert forall|k: int| 0 <= k < aug.len() implies (#[trigger] aug[k]).len() == ncols by {
                assert(self@[k].len() == n);
            }
        }
        forward_exec(&mut data, ncols, true);
        proof {
            lemma_normalized_echelon(aug, ncols as nat);
        }
        backward_exec(&mut data, Ghost(ncols as nat));
        let ghost a = rref(aug, ncols as nat);
        proof {
            lemma_rref(aug, ncols as nat);
        }
        let mut i: usize = 0;
        while i < n
            invariant
                i <= n,
                n == aug.len(),
                n == self.rows(),
                self.is_square(),
                ncols == n + n,
                aug == augment(self@),
                a == rref(aug, ncols as nat),
                grid(data@) == a,
                a.len() == n,
                forall|k: int| 0 <= k < i ==> lead(#[trigger] a[k]) == k,
            decreases n - i,
        {
            assert(grid(data@)[i as int] == data@[i as int]@);
            if leading_col(&data[i]) != i {
                return Err(MatrixError::Singular);
            }
            i += 1;
        }
        let mut out: Vec<Vec<K>> = Vec::new();
        let mut i: usize = 0;
        while i < n
            invariant
                i <= n,
                n == aug.len(),
                n == self.rows(),
                self.is_square(),
                ncols == n + n,
                aug == augment(self@),
                a == rref(aug, ncols as nat),
                left_is_identity(a, n as nat),
                grid(data@) == a,
                data.len() == n,
                is_grid(a, ncols as nat),
                a.len() == n,
                out@.len() == i,
                forall|k: int| 0 <= k < i ==> (#[trigger] out@[k])@ == right_block(a, n as nat)[k],
            decreases n - i,
        {
            assert(grid(data@)[i as int] == data@[i as int]@);
            assert(a[i as int].len() == ncols);
            let mut row: Vec<K> = Vec::new();
            let mut j: usize = n;
            while j < ncols
                invariant
                    i < n,
                    ncols == n + n,
                    data.len() == n,
                    a.len() == n,
                    a[i as int] == data@[i as int]@,
                    a[i as int].len() == ncols,
                    n <= j <= ncols,
                    row@ == a[i as int].subrange(n as int, j as int),
                decreases ncols - j,
            {
                row.push(data[i][j]);
                j += 1;
                assert(row@ =~= a[i as int].subrange(n as int, j as int));
            }
            out.push(row);
            i += 1;
        }
        proof {
            lemma_left_block(a, n as nat);
        }
        let r = Matrix { data: out };
        assert(r@ =~= right_block(a, n as nat));
        assert forall|k: int| 0 <= k < r@.len() implies (#[trigger] r@[k]).len() == width(r@) by {
            assert(r@[0].len() == n);
        }
        Ok(r)
    }
}

/// `m` is the `n × n` identity, up to `Equals`.
pub open spec fn is_identity<K: Field + Equals>(m: Seq<Seq<K>>, n: nat) -> bool {
    &&& m.len() == n
    &&& forall|i: int| 0 <= i < n ==> (#[trigger] m[i]).len() == n
    &&& forall|i: int, j: int|
        0 <= i < n && 0 <= j < n ==> if i == j {
            (#[trigger] m[i][j]).equals_spec(K::one_spec())
        } else {
            m[i][j].equals_spec(K::zero_spec())
        }
}

/// Whether `m` is the `n × n` identity, up to `Equals`.
fn check_identity<K: Field + Equals>(m: &Matrix<K>, n: usize) -> (r: bool)
    ensures
        r == is_identity(m@, n as nat),
{
    if m.data.len() != n {
        return false;
    }
    let one = K::one();
    let zero = K::zero();
    let mut i: usize = 0;
    while i < n
        invariant
            i <= n,
            m.data.len() == n,
            one == K::one_spec(),
            zero == K::zero_spec(),
            forall|k: int| 0 <= k < i ==> (#[trigger] m@[k]).len() == n,
            forall|k: int, j: int|
                0 <= k < i && 0 <= j < n ==> if k == j {
                    (#[trigger] m@[k][j]).equals_spec(K::one_spec())
                } else {
                    m@[k][j].equals_spec(K::zero_spec())
                },
        decreases n - i,
    {
        assert(m@[i as int] == m.data@[i as int]@);
        if m.data[i].len() != n {
            return false;
        }
        let mut j: usize = 0;
        while j < n
            invariant
                i < n,
                j <= n,
                m.data.len() == n,
                m@[i as int] == m.data@[i as int]@,
                m@[i as int].len() == n,
                one == K::one_spec(),
                zero == K::zero_spec(),
                forall|l: int|
                    0 <= l < j ==> if i == l {
                        (#[trigger] m@[i as int][l]).equals_spec(K::one_spec())
                    } else {
                        m@[i as int][l].equals_spec(K::zero_spec())
                    },
            decreases n - j,
        {
            let ok = if i == j {
                m.data[i][j].equals(&one)
            } else {
                m.data[i][j].equals(&zero)
            };
            if !ok {
                return false;
            }
            j += 1;
        }
        i += 1;
    }
    true
}

impl<K: Field + Equals> Matrix<K> {
    /// The inverse of a square matrix, read off the reduced form of `[A | I]`.
    /// The candidate is returned only when its products with the matrix, on
    /// both sides, are the identity. Fails with `NotSquare` for a non-square
    /// matrix and with `Singular` otherwise.
    pub fn inverse(&self) -> (r: Result<Matrix<K>, MatrixError>)
        requires
            self.wf(),
            2 * self.rows() <= usize::MAX,
        ensures
            !self.is_square() ==> r == Err::<Matrix<K>, MatrixError>(MatrixError::NotSquare),
            self.is_square() ==> {
                let n = self.rows();
                let a = rref(augment(self@), 2 * n);
                let b = right_block(a, n);
                &&& (r is Ok <==> left_is_identity(a, n) && is_identity(product(self@, b), n)
                    && is_identity(product(b, self@), n))
                &&& (r is Ok ==> r->Ok_0@ == b && r->Ok_0.wf() && left_block_is_identity(a, n))
                &&& (!(r is Ok) ==> r == Err::<Matrix<K>, MatrixError>(MatrixError::Singular))
            },
            r is Ok ==> {
                &&& is_identity(product(self@, r->Ok_0@), self.rows())
                &&& is_identity(product(r->Ok_0@, self@), self.rows())
            },
    {
        let n = self.data.len();
        match self.reduce_augmented() {
            Err(e) => Err(e),
            Ok(b) => {
                let ab = self.mul_mat(&b);
                let ba = b.mul_mat(self);
                if check_identity(&ab, n) && check_identity(&ba, n) {
                    Ok(b)
                } else {
                    Err(MatrixError::Singular)
                }
            },
        }
    }
}

/// Forward elimination from column `c` finds no pivot exactly when the grid is
/// zero from column `c` on.
proof fn lemma_no_pivots<K: Field>(m: Seq<Seq<K>>, ncols: nat, c: nat, normalize: bool)
    requires
        forward_inv(m, ncols, 0, c, normalize),
    ensures
        forward(m, ncols, 0, c, normalize).pivots == 0 <==> forall|i: int, j: int|
            0 <= i < m.len() && c <= j < ncols ==> (#[trigger] m[i][j]).is_zero_spec(),
    decreases ncols - c,
{
    if 0 < m.len() && c < ncols {
        let p = pivot_row(m, 0, c as int);
        lemma_pivot_row(m, ncols, 0, c as int);
        if m[p][c as int].is_zero_spec() {
            lemma_no_pivots(m, ncols, c + 1, normalize);
        } else {
            lemma_pivot_step(m, ncols, 0, c, p, normalize);
            lemma_forward(pivot_step(m, 0, c as int, p, normalize), ncols, 1, c + 1, normalize);
        }
    }
}

/// The rank of a matrix is at most its number of rows and at most its number
/// of columns, and it is zero exactly when every entry is zero.
pub proof fn rank_bounds<K: Field>(a: Matrix<K>)
    requires
        a.wf(),
    ensures
        rank_of(a@, a.cols()) <= a.rows(),
        rank_of(a@, a.cols()) <= a.cols(),
        rank_of(a@, a.cols()) == 0 <==> forall|i: int, j: int|
            0 <= i < a.rows() && 0 <= j < a.cols() ==> (#[trigger] a@[i][j]).is_zero_spec(),
{
    lemma_rank_is_pivots(a@, a.cols());
    lemma_no_pivots(a@, a.cols(), 0, false);
}

/// In the reduced row-echelon form of any matrix, the column of each row's
/// first non-zero entry strictly increases down the rows, and zero rows come
/// last.
pub proof fn row_echelon_is_staircase<K: Field>(a: Matrix<K>)
    requires
        a.wf(),
    ensures
        is_echelon(rref(a@, a.cols())),
{
    lemma_rref(a@, a.cols());
}

/// A square matrix whose rank is below its size has determinant zero.
pub proof fn rank_deficient_determinant<K: Field>(a: Matrix<K>)
    requires
        a.wf(),
        a.is_square(),
        rank_of(a@, a.cols()) < a.rows(),
    ensures
        det(a@) == K::zero_spec(),
{
    let n = a.rows();
    let e = echelon_of(a@, n, false);
    lemma_rank_is_pivots(a@, n);
    lemma_echelon_of(a@, n, false);
    assert(is_zero_row(e.rows[n - 1]));
    assert(e.rows[n - 1].len() == n);
    assert(e.rows[n - 1][n - 1].is_zero_spec());
    assert(has_zero_diag(e.rows, n));
}

proof fn lemma_leads_at_least<K: Field>(e: Echelon<K>, n: nat, k: int)
    requires
        echelon_shape(e, n, n, false),
        e.pivots == n,
        0 <= k < n,
    ensures
        lead(e.rows[k]) >= k,
    decreases k,
{
    if k > 0 {
        lemma_leads_at_least(e, n, k - 1);
        assert(lead(e.rows[k - 1]) < lead(e.rows[k]));
    }
}

proof fn lemma_leads_at_most<K: Field>(e: Echelon<K>, n: nat, k: int)
    requires
        echelon_shape(e, n, n, false),
        e.pivots == n,
        0 <= k < n,
    ensures
        lead(e.rows[k]) <= k,
    decreases n - k,
{
    if k < n - 1 {
        lemma_leads_at_most(e, n, k + 1);
        assert(lead(e.rows[k]) < lead(e.rows[k + 1]));
    } else {
        assert(lead(e.rows[k]) < n);
    }
}

/// A product of non-zero diagonal entries is non-zero.
proof fn lemma_diag_product_nonzero<K: Field>(m: Seq<Seq<K>>, n: nat)
    requires
        !has_zero_diag(m, n),
    ensures
        !diag_product(m, n).is_zero_spec(),
    decreases n,
{
    K::lemma_identities();
    if n > 0 {
        assert(!has_zero_diag(m, (n - 1) as nat)) by {
            if has_zero_diag(m, (n - 1) as nat) {
                let i = choose|i: int| 0 <= i < n - 1 && (#[trigger] m[i][i]).is_zero_spec();
                assert(m[i][i].is_zero_spec());
            }
        }
        lemma_diag_product_nonzero(m, (n - 1) as nat);
        assert(!m[n - 1][n - 1].is_zero_spec());
        K::lemma_no_zero_divisors(diag_product(m, (n - 1) as nat), m[n - 1][n - 1]);
    }
}

/// A square matrix has determinant zero exactly when its rank is below its size.
pub proof fn determinant_zero_iff_rank_deficient<K: Field>(a: Matrix<K>)
    requires
        a.wf(),
        a.is_square(),
    ensures
        det(a@).is_zero_spec() <==> rank_of(a@, a.cols()) < a.rows(),
{
    K::lemma_identities();
    let n = a.rows();
    if rank_of(a@, a.cols()) < n {
        rank_deficient_determinant(a);
    } else {
        let e = echelon_of(a@, n, false);
        lemma_rank_is_pivots(a@, n);
        lemma_echelon_of(a@, n, false);
        assert forall|i: int| 0 <= i < n implies !(#[trigger] e.rows[i][i]).is_zero_spec() by {
            lemma_leads_at_least(e, n, i);
            lemma_leads_at_most(e, n, i);
            lemma_lead_bounds(e.rows[i]);
        }
        assert(!has_zero_diag(e.rows, n));
        lemma_diag_product_nonzero(e.rows, n);
        K::lemma_no_zero_divisors(diag_product(e.rows, n), diag_product(e.rows, n));
    }
}

} // verus!
