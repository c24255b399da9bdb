use vstd::prelude::*;

use crate::field::Field;
use crate::matrix::{grid, is_grid};

verus! {

// ---------------------------------------------------------------------------
// Leading entries and the staircase shape
// ---------------------------------------------------------------------------
/// `p` is the column of the first non-zero entry of `row`.
pub open spec fn is_lead<K: Field>(row: Seq<K>, p: int) -> bool {
    &&& 0 <= p < row.len()
    &&& !row[p].is_zero_spec()
    &&& forall|j: int| 0 <= j < p ==> (#[trigger] row[j]).is_zero_spec()
}

/// Column of the first non-zero entry of `row`, or `row.len()` for a zero row.
pub open spec fn lead<K: Field>(row: Seq<K>) -> int {
    if exists|p: int| is_lead(row, p) {
        choose|p: int| is_lead(row, p)
    } else {
        row.len() as int
    }
}

/// Every entry of `row` is zero.
pub open spec fn is_zero_row<K: Field>(row: Seq<K>) -> bool {
    forall|j: int| 0 <= j < row.len() ==> (#[trigger] row[j]).is_zero_spec()
}

/// Row-echelon shape: the leading column strictly increases down the rows,
/// and zero rows (leading column `len`) come last.
pub open spec fn is_echelon<K: Field>(m: Seq<Seq<K>>) -> bool {
    forall|i: int, j: int|
        0 <= i < j < m.len() && lead(m[j]) < m[j].len() ==> #[trigger] lead(m[i]) < #[trigger] lead(
            m[j],
        )
}

// ---------------------------------------------------------------------------
// One step of elimination, as mathematical functions
// ---------------------------------------------------------------------------
/// Scanning rows `i..` of column `c`, the row whose entry has strictly the
/// largest magnitude; `best` is kept on ties.
pub open spec fn scan_max<K: Field>(m: Seq<Seq<K>>, c: int, best: int, i: int) -> int
    decreases m.len() - i,
{
    if i >= m.len() {
        best
    } else if m[i][c].mag_gt_spec(m[best][c]) {
        scan_max(m, c, i, i + 1)
    } else {
        scan_max(m, c, best, i + 1)
    }
}

/// Partial pivoting: among rows `r..`, the first of largest magnitude in
/// column `c` (see `lemma_pivot_largest`).
pub open spec fn pivot_row<K: Field>(m: Seq<Seq<K>>, r: int, c: int) -> int {
    scan_max(m, c, r, r + 1)
}

pub open spec fn swap_rows<K>(m: Seq<Seq<K>>, a: int, b: int) -> Seq<Seq<K>> {
    m.update(a, m[b]).update(b, m[a])
}

/// Divides `row` by its entry in column `c`; that entry becomes one.
pub open spec fn scale_row<K: Field>(row: Seq<K>, c: int) -> Seq<K> {
    Seq::new(
        row.len(),
        |j: int|
            if j < c {
                row[j]
            } else if j == c {
                K::one_spec()
            } else {
                row[j].div_spec(row[c])
            },
    )
}

/// `target - f * piv`, with the entry in column `col` set to zero. Entries
/// left of `col`, and those where `piv` is zero, are kept as they are.
pub open spec fn cancel_row<K: Field>(target: Seq<K>, piv: Seq<K>, col: int, f: K) -> Seq<K> {
    Seq::new(
        target.len(),
        |j: int|
            if j < col {
                target[j]
            } else if j == col {
                K::zero_spec()
            } else if piv[j].is_zero_spec() {
                target[j]
            } else {
                target[j].sub_spec(piv[j].mul_spec(f))
            },
    )
}

/// Clears column `c` below row `r`, using row `r` as the pivot row.
pub open spec fn eliminate_below<K: Field>(m: Seq<Seq<K>>, r: int, c: int) -> Seq<Seq<K>> {
    Seq::new(
        m.len(),
        |i: int|
            if i > r && !m[i][c].is_zero_spec() {
                cancel_row(m[i], m[r], c, m[i][c].div_spec(m[r][c]))
            } else {
                m[i]
            },
    )
}

/// Clears column `c` above row `r`, whose entry in column `c` is one.
pub open spec fn eliminate_above<K: Field>(m: Seq<Seq<K>>, r: int, c: int) -> Seq<Seq<K>> {
    Seq::new(
        m.len(),
        |i: int|
            if i < r && !m[i][c].is_zero_spec() {
                cancel_row(m[i], m[r], c, m[i][c])
            } else {
                m[i]
            },
    )
}

/// The rows after a pivot has been found in row `p`, column `c`, for cursor row `r`:
/// swap it up, optionally normalize it, and clear the column below it.
pub open spec fn pivot_step<K: Field>(
    m: Seq<Seq<K>>,
    r: int,
    c: int,
    p: int,
    normalize: bool,
) -> Seq<Seq<K>> {
    let m1 = if p != r {
        swap_rows(m, r, p)
    } else {
        m
    };
    let m2 = if normalize {
        m1.update(r, scale_row(m1[r], c))
    } else {
        m1
    };
    eliminate_below(m2, r, c)
}

/// Outcome of forward elimination.
pub struct Echelon<K> {
    /// The rows in echelon form.
    pub rows: Seq<Seq<K>>,
    /// Number of row exchanges made.
    pub swaps: nat,
    /// Number of pivots found, which is the number of non-zero rows.
    pub pivots: nat,
}

/// Forward elimination with partial pivoting from cursor `(r, c)`.
pub open spec fn forward<K: Field>(
    m: Seq<Seq<K>>,
    ncols: nat,
    r: nat,
    c: nat,
    normalize: bool,
) -> Echelon<K>
    decreases ncols - c,
{
    if r >= m.len() || c >= ncols {
        Echelon { rows: m, swaps: 0, pivots: r }
    } else {
        let p = pivot_row(m, r as int, c as int);
        if m[p][c as int].is_zero_spec() {
            forward(m, ncols, r, c + 1, normalize)
        } else {
            let rest = forward(
                pivot_step(m, r as int, c as int, p, normalize),
                ncols,
                r + 1,
                c + 1,
                normalize,
            );
            Echelon {
                rows: rest.rows,
                swaps: rest.swaps + if p != r {
                    1nat
                } else {
                    0nat
                },
                pivots: rest.pivots,
            }
        }
    }
}

/// Forward elimination of a whole grid.
pub open spec fn echelon_of<K: Field>(m: Seq<Seq<K>>, ncols: nat, normalize: bool) -> Echelon<K> {
    forward(m, ncols, 0, 0, normalize)
}

/// Backward elimination over rows `1..=i`, from row `i` upwards.
pub open spec fn backward<K: Field>(m: Seq<Seq<K>>, i: int) -> Seq<Seq<K>>
    decreases i,
{
    if i <= 0 || i >= m.len() {
        m
    } else {
        let p = lead(m[i]);
        let m1 = if p < m[i].len() {
            eliminate_above(m, i, p)
        } else {
            m
        };
        backward(m1, i - 1)
    }
}

/// Reduced row-echelon form: normalized forward elimination, then backward
/// elimination from the last row.
pub open spec fn rref<K: Field>(m: Seq<Seq<K>>, ncols: nat) -> Seq<Seq<K>> {
    let f = echelon_of(m, ncols, true).rows;
    backward(f, f.len() - 1)
}

} // verus!

verus! {

// ---------------------------------------------------------------------------
// Executable elimination
// ---------------------------------------------------------------------------
/// Partial pivot search in column `c`, rows `r..`.
fn find_max_row<K: Field>(data: &Vec<Vec<K>>, r: usize, c: usize, Ghost(ncols): Ghost<nat>) -> (p: usize)
    requires
        r < data.len(),
        c < ncols,
        is_grid(grid(data@), ncols),
    ensures
        p == pivot_row(grid(data@), r as int, c as int),
        r <= p < data.len(),
        forall|k: int|
            r <= k < data.len() ==> !(#[trigger] grid(data@)[k][c as int]).mag_gt_spec(
                grid(data@)[p as int][c as int],
            ),
        forall|k: int|
            r <= k < p ==> grid(data@)[p as int][c as int].mag_gt_spec(
                #[trigger] grid(data@)[k][c as int],
            ),
{
    let ghost g = grid(data@);
    let mut best: usize = r;
    let mut i: usize = r + 1;
    while i < data.len()
        invariant
            r <= best < i <= data.len(),
            g == grid(data@),
            c < ncols,
            is_grid(g, ncols),
            scan_max(g, c as int, best as int, i as int) == pivot_row(g, r as int, c as int),
        decreases data.len() - i,
    {
        assert(g[i as int].len() == ncols && g[best as int].len() == ncols);
        if data[i][c].mag_gt(&data[best][c]) {
            best = i;
        }
        i += 1;
    }
    proof {
        lemma_pivot_largest(g, ncols, r as int, c as int);
    }
    best
}

fn swap_rows_exec<K>(data: &mut Vec<Vec<K>>, a: usize, b: usize)
    requires
        a < old(data).len(),
        b < old(data).len(),
        a != b,
    ensures
        final(data).len() == old(data).len(),
        grid(final(data)@) == swap_rows(grid(old(data)@), a as int, b as int),
{
    let ghost g = grid(data@);
    let mut tmp: Vec<K> = Vec::new();
    core::mem::swap(&mut data[a], &mut tmp);
    core::mem::swap(&mut data[b], &mut tmp);
    core::mem::swap(&mut data[a], &mut tmp);
    assert(grid(data@) =~= swap_rows(g, a as int, b as int));
}

fn scale_row_exec<K: Field>(row: &Vec<K>, c: usize) -> (out: Vec<K>)
    requires
        c < row.len(),
    ensures
        out@ == scale_row(row@, c as int),
{
    let factor = row[c];
    let mut out: Vec<K> = Vec::new();
    let mut j: usize = 0;
    while j < row.len()
        invariant
            j <= row.len(),
            c < row.len(),
            factor == row@[c as int],
            out@.len() == j,
            forall|k: int| 0 <= k < j ==> out@[k] == scale_row(row@, c as int)[k],
        decreases row.len() - j,
    {
        let x = if j < c {
            row[j]
        } else if j == c {
            K::one()
        } else {
            row[j].div(&factor)
        };
        out.push(x);
        j += 1;
    }
    assert(out@ =~= scale_row(row@, c as int));
    out
}

fn cancel_row_exec<K: Field>(target: &Vec<K>, piv: &Vec<K>, col: usize, f: K) -> (out: Vec<K>)
    requires
        target.len() == piv.len(),
    ensures
        out@ == cancel_row(target@, piv@, col as int, f),
{
    let mut out: Vec<K> = Vec::new();
    let mut j: usize = 0;
    while j < target.len()
        invariant
            j <= target.len(),
            target.len() == piv.len(),
            out@.len() == j,
            forall|k: int| 0 <= k < j ==> out@[k] == cancel_row(target@, piv@, col as int, f)[k],
        decreases target.len() - j,
    {
        let x = if j < col {
            target[j]
        } else if j == col {
            K::zero()
        } else if piv[j].is_zero() {
            target[j]
        } else {
            target[j].sub(&piv[j].mul(&f))
        };
        out.push(x);
        j += 1;
    }
    assert(out@ =~= cancel_row(target@, piv@, col as int, f));
    out
}

fn eliminate_below_exec<K: Field>(data: &mut Vec<Vec<K>>, r: usize, c: usize, Ghost(ncols): Ghost<nat>)
    requires
        r < old(data).len(),
        c < ncols,
        is_grid(grid(old(data)@), ncols),
    ensures
        final(data).len() == old(data).len(),
        grid(final(data)@) == eliminate_below(grid(old(data)@), r as int, c as int),
{
    let ghost g0 = grid(data@);
    let ghost target = eliminate_below(g0, r as int, c as int);
    let mut i: usize = r + 1;
    while i < data.len()
        invariant
            data.len() == g0.len(),
            r < i <= data.len(),
            c < ncols,
            is_grid(g0, ncols),
            target == eliminate_below(g0, r as int, c as int),
            forall|k: int| 0 <= k < i ==> (#[trigger] grid(data@)[k]) == target[k],
            forall|k: int| i <= k < data.len() ==> (#[trigger] grid(data@)[k]) == g0[k],
        decreases data.len() - i,
    {
        assert(grid(data@)[i as int] == g0[i as int]);
        assert(grid(data@)[r as int] == g0[r as int]);
        assert(g0[i as int].len() == ncols && g0[r as int].len() == ncols);
        if !data[i][c].is_zero() {
            let f = data[i][c].div(&data[r][c]);
            let row = cancel_row_exec(&data[i], &data[r], c, f);
            let ghost before = grid(data@);
            data.set(i, row);
            assert(grid(data@) =~= before.update(i as int, row@));
        }
        i += 1;
    }
    assert(grid(data@) =~= target);
}

/// Forward elimination in place; returns the number of row exchanges and of pivots.
pub(crate) fn forward_exec<K: Field>(data: &mut Vec<Vec<K>>, ncols: usize, normalize: bool) -> (res: (
    usize,
    usize,
))
    requires
        is_grid(grid(old(data)@), ncols as nat),
    ensures
        ({
            let e = echelon_of(grid(old(data)@), ncols as nat, normalize);
            &&& grid(final(data)@) == e.rows
            &&& res.0 == e.swaps
            &&& res.1 == e.pivots
        }),
{
    let ghost orig = grid(data@);
    let ghost e = echelon_of(orig, ncols as nat, normalize);
    let mut r: usize = 0;
    let mut c: usize = 0;
    let mut swaps: usize = 0;
    while r < data.len() && c < ncols
        invariant
            is_grid(grid(data@), ncols as nat),
            data.len() == orig.len(),
            r <= c <= ncols,
            r <= data.len(),
            swaps <= r,
            e == echelon_of(orig, ncols as nat, normalize),
            forward(grid(data@), ncols as nat, r as nat, c as nat, normalize).rows == e.rows,
            forward(grid(data@), ncols as nat, r as nat, c as nat, normalize).pivots == e.pivots,
            swaps + forward(grid(data@), ncols as nat, r as nat, c as nat, normalize).swaps
                == e.swaps,
        decreases ncols - c,
    {
        let ghost g = grid(data@);
        let p = find_max_row(data, r, c, Ghost(ncols as nat));
        if data[p][c].is_zero() {
            c += 1;
        } else {
            if p != r {
                swap_rows_exec(data, r, p);
                swaps += 1;
            }
            let ghost g1 = grid(data@);
            assert(is_grid(g1, ncols as nat));
            if normalize {
                let row = scale_row_exec(&data[r], c);
                data.set(r, row);
                assert(grid(data@) =~= g1.update(r as int, scale_row(g1[r as int], c as int)));
            }
            assert(is_grid(grid(data@), ncols as nat));
            eliminate_below_exec(data, r, c, Ghost(ncols as nat));
            assert(grid(data@) == pivot_step(g, r as int, c as int, p as int, normalize));
            r += 1;
            c += 1;
        }
    }
    (swaps, r)
}

} // verus!

verus! {

/// The leading column is unique.
pub proof fn lemma_lead_is<K: Field>(row: Seq<K>, p: int)
    requires
        is_lead(row, p),
    ensures
        lead(row) == p,
{
    let q = choose|q: int| is_lead(row, q);
    if q < p {
        assert(row[q].is_zero_spec());
    } else if p < q {
        assert(row[p].is_zero_spec());
    }
}

/// A zero row has no leading column.
pub proof fn lemma_lead_none<K: Field>(row: Seq<K>)
    requires
        is_zero_row(row),
    ensures
        lead(row) == row.len(),
{
    if exists|p: int| is_lead(row, p) {
        let q = choose|q: int| is_lead(row, q);
        assert(row[q].is_zero_spec());
    }
}

/// The leading column is within bounds, or the row is zero.
pub proof fn lemma_lead_bounds<K: Field>(row: Seq<K>)
    ensures
        0 <= lead(row) <= row.len(),
        lead(row) < row.len() ==> is_lead(row, lead(row)),
        lead(row) == row.len() ==> is_zero_row(row),
{
    if exists|p: int| is_lead(row, p) {
        let q = choose|q: int| is_lead(row, q);
        lemma_lead_is(row, q);
    } else {
        assert forall|j: int| 0 <= j < row.len() implies (#[trigger] row[j]).is_zero_spec() by {
            if !row[j].is_zero_spec() {
                lemma_first_nonzero(row, j);
            }
        }
    }
}

/// If some entry at or before `j` is non-zero, a leading column exists.
proof fn lemma_first_nonzero<K: Field>(row: Seq<K>, j: int)
    requires
        0 <= j < row.len(),
        !row[j].is_zero_spec(),
    ensures
        exists|p: int| is_lead(row, p),
    decreases j,
{
    if forall|k: int| 0 <= k < j ==> (#[trigger] row[k]).is_zero_spec() {
        assert(is_lead(row, j));
    } else {
        let k = choose|k: int| 0 <= k < j && !(#[trigger] row[k]).is_zero_spec();
        lemma_first_nonzero(row, k);
    }
}

/// The first non-zero column of `row` (its length for a zero row). In a row
/// of a normalized echelon form, whose leading entry is one, this is also the
/// first column holding one.
pub(crate) fn leading_col<K: Field>(row: &Vec<K>) -> (p: usize)
    ensures
        p == lead(row@),
        p < row@.len() ==> forall|j: int| 0 <= j < p ==> (#[trigger] row@[j]) != K::one_spec(),
{
    let mut j: usize = 0;
    while j < row.len() && row[j].is_zero()
        invariant
            j <= row.len(),
            forall|k: int| 0 <= k < j ==> (#[trigger] row@[k]).is_zero_spec(),
        decreases row.len() - j,
    {
        j += 1;
    }
    proof {
        K::lemma_identities();
        if j < row.len() {
            lemma_lead_is(row@, j as int);
        } else {
            lemma_lead_none(row@);
        }
    }
    j
}

fn eliminate_above_exec<K: Field>(data: &mut Vec<Vec<K>>, r: usize, c: usize, Ghost(ncols): Ghost<nat>)
    requires
        r < old(data).len(),
        c < ncols,
        is_grid(grid(old(data)@), ncols),
    ensures
        final(data).len() == old(data).len(),
        grid(final(data)@) == eliminate_above(grid(old(data)@), r as int, c as int),
        is_grid(grid(final(data)@), ncols),
{
    let ghost g0 = grid(data@);
    let ghost target = eliminate_above(g0, r as int, c as int);
    let mut i: usize = 0;
    while i < r
        invariant
            data.len() == g0.len(),
            0 <= i <= r < data.len(),
            c < ncols,
            is_grid(g0, ncols),
            target == eliminate_above(g0, r as int, c as int),
            forall|k: int| 0 <= k < i ==> (#[trigger] grid(data@)[k]) == target[k],
            forall|k: int| i <= k < data.len() ==> (#[trigger] grid(data@)[k]) == g0[k],
        decreases r - i,
    {
        assert(grid(data@)[i as int] == g0[i as int]);
        assert(grid(data@)[r as int] == g0[r as int]);
        assert(g0[i as int].len() == ncols && g0[r as int].len() == ncols);
        if !data[i][c].is_zero() {
            let f = data[i][c];
            let row = cancel_row_exec(&data[i], &data[r], c, f);
            let ghost before = grid(data@);
            data.set(i, row);
            assert(grid(data@) =~= before.update(i as int, row@));
        }
        i += 1;
    }
    assert(grid(data@) =~= target);
    assert forall|k: int| 0 <= k < target.len() implies (#[trigger] target[k]).len() == ncols by {
        assert(g0[k].len() == ncols);
    }
}

/// Backward elimination in place, from the last row upwards, on a normalized
/// echelon form. Each row's pivot is its first column holding one, which is
/// its first non-zero column; zero rows (at the bottom) have none and are
/// passed over.
pub(crate) fn backward_exec<K: Field>(data: &mut Vec<Vec<K>>, Ghost(ncols): Ghost<nat>)
    requires
        backward_inv(grid(old(data)@), ncols, old(data).len() - 1),
    ensures
        grid(final(data)@) == backward(grid(old(data)@), old(data).len() - 1),
{
    if data.len() == 0 {
        return ;
    }
    let ghost orig = grid(data@);
    let mut i: usize = data.len() - 1;
    while i > 0
        invariant
            is_grid(grid(data@), ncols),
            backward_inv(grid(data@), ncols, i as int),
            i < data.len(),
            data.len() == orig.len(),
            backward(grid(data@), i as int) == backward(orig, orig.len() - 1),
        decreases i,
    {
        let ghost g = grid(data@);
        assert(g[i as int] == data@[i as int]@);
        let p = leading_col(&data[i]);
        if p < data[i].len() {
            assert(g[i as int][p as int] == K::one_spec());
            proof {
                lemma_eliminate_above(g, ncols, i as int);
            }
            eliminate_above_exec(data, i, p, Ghost(ncols));
        }
        i -= 1;
    }
}

} // verus!

verus! {

// ---------------------------------------------------------------------------
// Forward elimination yields an echelon form
// ---------------------------------------------------------------------------
/// What holds at cursor `(r, c)` of forward elimination: rows above `r` lead
/// in increasing columns left of `c`; rows from `r` on are zero left of `c`.
pub open spec fn forward_inv<K: Field>(
    m: Seq<Seq<K>>,
    ncols: nat,
    r: nat,
    c: nat,
    normalize: bool,
) -> bool {
    &&& is_grid(m, ncols)
    &&& r <= c <= ncols
    &&& r <= m.len()
    &&& forall|k: int| 0 <= k < r ==> #[trigger] lead(m[k]) < c
    &&& forall|k1: int, k2: int|
        0 <= k1 < k2 < r ==> #[trigger] lead(m[k1]) < #[trigger] lead(m[k2])
    &&& forall|k: int, j: int| r <= k < m.len() && 0 <= j < c ==> (#[trigger] m[k][j]).is_zero_spec()
    &&& normalize ==> forall|k: int| 0 <= k < r ==> #[trigger] m[k][lead(m[k])] == K::one_spec()
}

/// The shape of a finished forward elimination: the first `pivots` rows lead
/// in strictly increasing columns, and the remaining rows are zero.
pub open spec fn echelon_shape<K: Field>(e: Echelon<K>, nrows: nat, ncols: nat, normalize: bool) -> bool {
    &&& e.rows.len() == nrows
    &&& is_grid(e.rows, ncols)
    &&& e.pivots <= nrows
    &&& e.pivots <= ncols
    &&& e.swaps <= e.pivots
    &&& forall|k: int| 0 <= k < e.pivots ==> #[trigger] lead(e.rows[k]) < ncols
    &&& forall|k1: int, k2: int|
        0 <= k1 < k2 < e.pivots ==> #[trigger] lead(e.rows[k1]) < #[trigger] lead(e.rows[k2])
    &&& forall|k: int| e.pivots <= k < nrows ==> is_zero_row(#[trigger] e.rows[k])
    &&& normalize ==> forall|k: int|
        0 <= k < e.pivots ==> #[trigger] e.rows[k][lead(e.rows[k])] == K::one_spec()
}

proof fn lemma_scan_max<K: Field>(m: Seq<Seq<K>>, c: int, best: int, i: int)
    requires
        0 <= best < i,
        best < m.len(),
        forall|k: int| 0 <= k < m.len() ==> c < (#[trigger] m[k]).len(),
    ensures
        best <= scan_max(m, c, best, i) < m.len(),
        m[scan_max(m, c, best, i)][c].is_zero_spec() ==> {
            &&& m[best][c].is_zero_spec()
            &&& forall|k: int| i <= k < m.len() ==> (#[trigger] m[k][c]).is_zero_spec()
        },
    decreases m.len() - i,
{
    if i < m.len() {
        K::lemma_zero_least(m[i][c], m[best][c]);
        if m[i][c].mag_gt_spec(m[best][c]) {
            lemma_scan_max(m, c, i, i + 1);
        } else {
            lemma_scan_max(m, c, best, i + 1);
        }
    }
}

proof fn lemma_scan_largest<K: Field>(m: Seq<Seq<K>>, c: int, r: int, best: int, i: int)
    requires
        0 <= r <= best < i,
        best < m.len(),
        forall|k: int| 0 <= k < m.len() ==> c < (#[trigger] m[k]).len(),
        forall|k: int| r <= k < i && k < m.len() ==> !(#[trigger] m[k][c]).mag_gt_spec(m[best][c]),
        forall|k: int| r <= k < best ==> m[best][c].mag_gt_spec(#[trigger] m[k][c]),
    ensures
        forall|k: int|
            r <= k < m.len() ==> !(#[trigger] m[k][c]).mag_gt_spec(m[scan_max(m, c, best, i)][c]),
        forall|k: int|
            r <= k < scan_max(m, c, best, i) ==> m[scan_max(m, c, best, i)][c].mag_gt_spec(
                #[trigger] m[k][c],
            ),
    decreases m.len() - i,
{
    if i < m.len() {
        if m[i][c].mag_gt_spec(m[best][c]) {
            assert forall|k: int| r <= k < i + 1 && k < m.len() implies !(
            #[trigger] m[k][c]).mag_gt_spec(m[i][c]) by {
                K::lemma_mag_order(m[k][c], m[i][c], m[best][c]);
                K::lemma_mag_order(m[i][c], m[i][c], m[i][c]);
            }
            assert forall|k: int| r <= k < i implies m[i][c].mag_gt_spec(#[trigger] m[k][c]) by {
                K::lemma_mag_order(m[i][c], m[k][c], m[best][c]);
            }
            lemma_scan_max(m, c, i, i + 1);
            lemma_scan_largest(m, c, r, i, i + 1);
        } else {
            lemma_scan_max(m, c, best, i + 1);
            lemma_scan_largest(m, c, r, best, i + 1);
        }
    }
}

/// No row from `r` down is larger in magnitude than the pivot row in column
/// `c`, and every row between `r` and the pivot row is strictly smaller.
pub proof fn lemma_pivot_largest<K: Field>(m: Seq<Seq<K>>, ncols: nat, r: int, c: int)
    requires
        is_grid(m, ncols),
        0 <= r < m.len(),
        0 <= c < ncols,
    ensures
        forall|k: int| r <= k < m.len() ==> !(#[trigger] m[k][c]).mag_gt_spec(m[pivot_row(m, r, c)][c]),
        forall|k: int| r <= k < pivot_row(m, r, c) ==> m[pivot_row(m, r, c)][c].mag_gt_spec(#[trigger] m[k][c]),
{
    K::lemma_mag_order(m[r][c], m[r][c], m[r][c]);
    lemma_scan_largest(m, c, r, r, r + 1);
}

/// The pivot search finds a zero only when the whole column from `r` down is zero.
pub(crate) proof fn lemma_pivot_row<K: Field>(m: Seq<Seq<K>>, ncols: nat, r: int, c: int)
    requires
        is_grid(m, ncols),
        0 <= r < m.len(),
        0 <= c < ncols,
    ensures
        r <= pivot_row(m, r, c) < m.len(),
        m[pivot_row(m, r, c)][c].is_zero_spec() ==> forall|k: int|
            r <= k < m.len() ==> (#[trigger] m[k][c]).is_zero_spec(),
{
    lemma_scan_max(m, c, r, r + 1);
}

pub(crate) proof fn lemma_pivot_step<K: Field>(
    m: Seq<Seq<K>>,
    ncols: nat,
    r: nat,
    c: nat,
    p: int,
    normalize: bool,
)
    requires
        forward_inv(m, ncols, r, c, normalize),
        r < m.len(),
        c < ncols,
        r <= p < m.len(),
        !m[p][c as int].is_zero_spec(),
    ensures
        forward_inv(pivot_step(m, r as int, c as int, p, normalize), ncols, r + 1, c + 1, normalize),
{
    K::lemma_identities();
    let ri = r as int;
    let ci = c as int;
    let m1 = if p != ri {
        swap_rows(m, ri, p)
    } else {
        m
    };
    let m2 = if normalize {
        m1.update(ri, scale_row(m1[ri], ci))
    } else {
        m1
    };
    let m3 = eliminate_below(m2, ri, ci);
    assert(m3 == pivot_step(m, ri, ci, p, normalize));
    assert(m1[ri] == m[p]);
    assert forall|k: int| 0 <= k < m.len() && k != ri implies (#[trigger] m1[k]).len() == ncols && (
    r < k ==> forall|j: int| 0 <= j < c ==> (#[trigger] m1[k][j]).is_zero_spec()) && (k < r ==> m1[k]
        == m[k]) by {
        if k == p {
            assert(m1[k] == m[ri]);
        } else {
            assert(m1[k] == m[k]);
        }
    }
    assert(m2[ri].len() == ncols);
    assert forall|j: int| 0 <= j < c implies (#[trigger] m2[ri][j]).is_zero_spec() by {
        assert(m[p][j].is_zero_spec());
    }
    assert(!m2[ri][ci].is_zero_spec());
    assert(is_lead(m3[ri], ci));
    lemma_lead_is(m3[ri], ci);
    assert forall|k: int| 0 <= k < m3.len() implies (#[trigger] m3[k]).len() == ncols by {
        if k != ri {
            assert(m2[k] == m1[k]);
        }
    }
    assert forall|k: int| 0 <= k < r implies #[trigger] m3[k] == m[k] by {
        assert(m2[k] == m1[k]);
    }
    assert forall|k: int, j: int| r + 1 <= k < m3.len() && 0 <= j < c + 1 implies (#[trigger] m3[k][
        j]).is_zero_spec() by {
        assert(m2[k] == m1[k]);
        if j < c {
            assert(m1[k][j].is_zero_spec());
        }
    }
    assert forall|k: int| 0 <= k < r + 1 implies #[trigger] lead(m3[k]) < c + 1 by {
        if k < r {
            assert(m3[k] == m[k]);
        }
    }
    assert forall|k1: int, k2: int| 0 <= k1 < k2 < r + 1 implies #[trigger] lead(m3[k1])
        < #[trigger] lead(m3[k2]) by {
        assert(m3[k1] == m[k1]);
        if k2 < r {
            assert(m3[k2] == m[k2]);
        }
    }
    if normalize {
        assert forall|k: int| 0 <= k < r + 1 implies #[trigger] m3[k][lead(m3[k])] == K::one_spec() by {
            if k < r {
                assert(m3[k] == m[k]);
            }
        }
    }
}

/// Forward elimination from a cursor state yields the echelon shape.
pub proof fn lemma_forward<K: Field>(m: Seq<Seq<K>>, ncols: nat, r: nat, c: nat, normalize: bool)
    requires
        forward_inv(m, ncols, r, c, normalize),
    ensures
        echelon_shape(forward(m, ncols, r, c, normalize), m.len(), ncols, normalize),
        forward(m, ncols, r, c, normalize).pivots >= r,
        forward(m, ncols, r, c, normalize).swaps + r <= forward(m, ncols, r, c, normalize).pivots,
    decreases ncols - c,
{
    if r >= m.len() || c >= ncols {
        assert forall|k: int| r <= k < m.len() implies is_zero_row(#[trigger] m[k]) by {
            assert forall|j: int| 0 <= j < m[k].len() implies (#[trigger] m[k][j]).is_zero_spec() by {
                assert(m[k].len() == ncols);
            }
        }
    } else {
        let p = pivot_row(m, r as int, c as int);
        lemma_pivot_row(m, ncols, r as int, c as int);
        if m[p][c as int].is_zero_spec() {
            lemma_forward(m, ncols, r, c + 1, normalize);
        } else {
            lemma_pivot_step(m, ncols, r, c, p, normalize);
            lemma_forward(pivot_step(m, r as int, c as int, p, normalize), ncols, r + 1, c + 1, normalize);
        }
    }
}

/// The echelon shape is a staircase.
pub proof fn lemma_shape_is_echelon<K: Field>(e: Echelon<K>, nrows: nat, ncols: nat, normalize: bool)
    requires
        echelon_shape(e, nrows, ncols, normalize),
    ensures
        is_echelon(e.rows),
{
    assert forall|i: int, j: int|
        0 <= i < j < e.rows.len() && lead(e.rows[j]) < e.rows[j].len() implies #[trigger] lead(
        e.rows[i]) < #[trigger] lead(e.rows[j]) by {
        if j >= e.pivots {
            lemma_lead_none(e.rows[j]);
        }
    }
}

/// Forward elimination of a whole grid yields the echelon shape.
pub proof fn lemma_echelon_of<K: Field>(m: Seq<Seq<K>>, ncols: nat, normalize: bool)
    requires
        is_grid(m, ncols),
    ensures
        echelon_shape(echelon_of(m, ncols, normalize), m.len(), ncols, normalize),
        is_echelon(echelon_of(m, ncols, normalize).rows),
{
    lemma_forward(m, ncols, 0, 0, normalize);
    lemma_shape_is_echelon(echelon_of(m, ncols, normalize), m.len(), ncols, normalize);
}

} // verus!

verus! {

// ---------------------------------------------------------------------------
// Backward elimination yields the reduced form
// ---------------------------------------------------------------------------
/// Reduced row-echelon form: a staircase whose leading entries are one and
/// are the only non-zero entries of their columns.
pub open spec fn is_rref<K: Field>(m: Seq<Seq<K>>) -> bool {
    &&& is_echelon(m)
    &&& forall|k: int|
        0 <= k < m.len() && lead(m[k]) < m[k].len() ==> #[trigger] m[k][lead(m[k])] == K::one_spec()
    &&& forall|k: int, i: int|
        0 <= k < m.len() && 0 <= i < m.len() && i != k && lead(m[k]) < m[k].len() ==> (
        #[trigger] m[i][lead(m[k])]).is_zero_spec()
}

/// What holds before backward elimination treats row `i`: the rows below it
/// have had their pivot columns cleared.
pub open spec fn backward_inv<K: Field>(m: Seq<Seq<K>>, ncols: nat, i: int) -> bool {
    &&& is_grid(m, ncols)
    &&& -1 <= i < m.len()
    &&& is_echelon(m)
    &&& forall|k: int|
        0 <= k < m.len() && lead(m[k]) < m[k].len() ==> #[trigger] m[k][lead(m[k])] == K::one_spec()
    &&& forall|k: int, i2: int|
        i < k < m.len() && 0 <= i2 < m.len() && i2 != k && lead(m[k]) < m[k].len() ==> (
        #[trigger] m[i2][lead(m[k])]).is_zero_spec()
}

/// In a staircase, the entries below a leading entry are zero.
proof fn lemma_below_lead<K: Field>(m: Seq<Seq<K>>, k: int, i2: int)
    requires
        is_echelon(m),
        0 <= k < i2 < m.len(),
        m[i2].len() == m[k].len(),
        lead(m[k]) < m[k].len(),
    ensures
        m[i2][lead(m[k])].is_zero_spec(),
{
    lemma_lead_bounds(m[k]);
    lemma_lead_bounds(m[i2]);
    if lead(m[i2]) < m[i2].len() {
        assert(lead(m[k]) < lead(m[i2]));
    }
}

proof fn lemma_eliminate_above<K: Field>(m: Seq<Seq<K>>, ncols: nat, i: int)
    requires
        backward_inv(m, ncols, i),
        0 < i,
        lead(m[i]) < m[i].len(),
    ensures
        backward_inv(eliminate_above(m, i, lead(m[i])), ncols, i - 1),
{
    K::lemma_identities();
    let p = lead(m[i]);
    let m1 = eliminate_above(m, i, p);
    lemma_lead_bounds(m[i]);
    assert forall|k: int| 0 <= k < m.len() implies #[trigger] lead(m1[k]) == lead(m[k]) && m1[k].len()
        == ncols && (lead(m[k]) < ncols ==> m1[k][lead(m[k])] == m[k][lead(m[k])]) by {
        assert(m[k].len() == ncols);
        if k < i {
            assert(lead(m[k]) < lead(m[i]));
            let q = lead(m[k]);
            lemma_lead_bounds(m[k]);
            assert(is_lead(m1[k], q));
            lemma_lead_is(m1[k], q);
        }
    }
    assert(is_echelon(m1)) by {
        assert forall|a: int, b: int|
            0 <= a < b < m1.len() && lead(m1[b]) < m1[b].len() implies #[trigger] lead(m1[a])
            < #[trigger] lead(m1[b]) by {
            assert(lead(m1[a]) == lead(m[a]));
            assert(lead(m1[b]) == lead(m[b]));
        }
    }
    assert forall|k: int| 0 <= k < m1.len() && lead(m1[k]) < m1[k].len() implies #[trigger] m1[k][lead(
        m1[k])] == K::one_spec() by {
        assert(lead(m1[k]) == lead(m[k]));
    }
    assert forall|k: int, i2: int|
        i - 1 < k < m1.len() && 0 <= i2 < m1.len() && i2 != k && lead(m1[k]) < m1[k].len() implies (
        #[trigger] m1[i2][lead(m1[k])]).is_zero_spec() by {
        assert(lead(m1[k]) == lead(m[k]));
        assert(m[k].len() == ncols && m[i2].len() == ncols);
        if k == i {
            if i2 > i {
                lemma_below_lead(m, i, i2);
            }
        } else {
            assert(lead(m[i]) < lead(m[k]));
            assert(m[i2][lead(m[k])].is_zero_spec());
            if i2 < i {
                assert(m[i][lead(m[k])].is_zero_spec());
            }
        }
    }
}

/// Backward elimination from row `i` upwards yields the reduced form.
pub proof fn lemma_backward<K: Field>(m: Seq<Seq<K>>, ncols: nat, i: int)
    requires
        backward_inv(m, ncols, i),
    ensures
        is_rref(backward(m, i)),
        is_grid(backward(m, i), ncols),
        backward(m, i).len() == m.len(),
    decreases i + 1,
{
    if i <= 0 {
        assert forall|k: int, i2: int|
            0 <= k < m.len() && 0 <= i2 < m.len() && i2 != k && lead(m[k]) < m[k].len() implies (
            #[trigger] m[i2][lead(m[k])]).is_zero_spec() by {
            if k <= i {
                assert(m[k].len() == ncols && m[i2].len() == ncols);
                lemma_below_lead(m, k, i2);
            }
        }
    } else {
        let p = lead(m[i]);
        if p < m[i].len() {
            lemma_eliminate_above(m, ncols, i);
            lemma_backward(eliminate_above(m, i, p), ncols, i - 1);
        } else {
            lemma_backward(m, ncols, i - 1);
        }
    }
}

/// The reduced row-echelon form of a grid is in reduced form and keeps its shape.
pub proof fn lemma_rref<K: Field>(m: Seq<Seq<K>>, ncols: nat)
    requires
        is_grid(m, ncols),
    ensures
        is_rref(rref(m, ncols)),
        is_grid(rref(m, ncols), ncols),
        rref(m, ncols).len() == m.len(),
{
    let e = echelon_of(m, ncols, true);
    lemma_normalized_echelon(m, ncols);
    lemma_backward(e.rows, ncols, e.rows.len() - 1);
}

/// Normalized forward elimination leaves a staircase whose leading entries
/// are one: what backward elimination starts from.
pub proof fn lemma_normalized_echelon<K: Field>(m: Seq<Seq<K>>, ncols: nat)
    requires
        is_grid(m, ncols),
    ensures
        backward_inv(echelon_of(m, ncols, true).rows, ncols, m.len() - 1),
        echelon_shape(echelon_of(m, ncols, true), m.len(), ncols, true),
{
    let e = echelon_of(m, ncols, true);
    lemma_echelon_of(m, ncols, true);
    assert forall|k: int| 0 <= k < e.rows.len() && lead(e.rows[k]) < e.rows[k].len() implies #[trigger] e.rows[k][lead(e.rows[k])] == K::one_spec() by {
        if k >= e.pivots {
            lemma_lead_none(e.rows[k]);
        }
    }
}

} // verus!
