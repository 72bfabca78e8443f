//! The sparse matrices of `nalgebra_sparse`, with `i128` values, and what this
//! crate relies on of them.
//!
//! A compressed matrix is modelled row by row: each row is the sequence of its
//! stored entries `(column, value)`, columns ascending. A stored entry may
//! hold the value zero; a column without a stored entry reads as zero.
use vstd::prelude::*;
use nalgebra_sparse::coo::CooMatrix;
use nalgebra_sparse::csr::CsrMatrix;

verus! {

#[verifier::external_type_specification]
#[verifier::external_body]
#[verifier::reject_recursive_types(T)]
pub struct ExCooMatrix<T>(CooMatrix<T>);

#[verifier::external_type_specification]
#[verifier::external_body]
#[verifier::reject_recursive_types(T)]
pub struct ExCsrMatrix<T>(CsrMatrix<T>);

/// The triplets `(row, column, value)` of a coordinate matrix, in the order
/// in which they were pushed.
pub uninterp spec fn coo_triplets(m: CooMatrix<i128>) -> Seq<(int, int, int)>;

/// The numbers of rows and of columns that a coordinate matrix was made with.
pub uninterp spec fn coo_shape(m: CooMatrix<i128>) -> (int, int);

/// The rows of a compressed matrix: for each row its stored entries
/// `(column, value)`, in storage order.
pub uninterp spec fn csr_rows(m: CsrMatrix<i128>) -> Seq<Seq<(int, int)>>;

/// The number of columns of a compressed matrix.
pub uninterp spec fn csr_ncols(m: CsrMatrix<i128>) -> int;

/// A row is well formed for `ncols` columns when its columns are in range and
/// strictly ascending, so that no column is stored twice.
pub open spec fn row_wf(row: Seq<(int, int)>, ncols: int) -> bool {
    &&& forall|p: int| 0 <= p < row.len() ==> 0 <= (#[trigger] row[p]).0 < ncols
    &&& forall|p: int, q: int| 0 <= p < q < row.len() ==> (#[trigger] row[p]).0 < (#[trigger] row[q]).0
}

pub open spec fn rows_wf(rows: Seq<Seq<(int, int)>>, ncols: int) -> bool {
    forall|i: int| 0 <= i < rows.len() ==> row_wf(#[trigger] rows[i], ncols)
}

/// Whether the row stores an entry at column `j`.
pub open spec fn row_has(row: Seq<(int, int)>, j: int) -> bool {
    exists|p: int| 0 <= p < row.len() && (#[trigger] row[p]).0 == j
}

/// The value of the row at column `j`: that of its stored entry, zero where
/// it has none.
pub open spec fn row_value(row: Seq<(int, int)>, j: int) -> int
    decreases row.len(),
{
    if row.len() == 0 {
        0
    } else if row.last().0 == j {
        row.last().1
    } else {
        row_value(row.drop_last(), j)
    }
}

/// The number of stored entries of all rows together.
pub open spec fn stored_count(rows: Seq<Seq<(int, int)>>) -> int
    decreases rows.len(),
{
    if rows.len() == 0 {
        0
    } else {
        stored_count(rows.drop_last()) + rows.last().len()
    }
}

pub open spec fn abs(x: int) -> int {
    if x < 0 {
        -x
    } else {
        x
    }
}

/// Cell `j` of the product of one row with a matrix `b`: the sum, over the
/// row's stored entries `(k, v)`, of `v` times the value of row `k` of `b` at
/// column `j`.
pub open spec fn product_cell(row: Seq<(int, int)>, b: Seq<Seq<(int, int)>>, j: int) -> int
    decreases row.len(),
{
    if row.len() == 0 {
        0
    } else {
        product_cell(row.drop_last(), b, j) + row.last().1 * row_value(b[row.last().0], j)
    }
}

/// The same sum over absolute values: a bound on every partial sum of
/// `product_cell`, in whatever order the terms are added.
pub open spec fn product_cell_abs(row: Seq<(int, int)>, b: Seq<Seq<(int, int)>>, j: int) -> int
    decreases row.len(),
{
    if row.len() == 0 {
        0
    } else {
        product_cell_abs(row.drop_last(), b, j) + abs(row.last().1) * abs(
            row_value(b[row.last().0], j),
        )
    }
}

/// Whether the product of one row with `b` stores cell `j`: some stored entry
/// `(k, _)` of the row meets a stored entry of row `k` of `b` at column `j`.
pub open spec fn product_has(row: Seq<(int, int)>, b: Seq<Seq<(int, int)>>, j: int) -> bool {
    exists|p: int| 0 <= p < row.len() && row_has(b[(#[trigger] row[p]).0], j)
}

/// No two triplets share a position.
pub open spec fn distinct_positions(t: Seq<(int, int, int)>) -> bool {
    forall|p: int, q: int|
        0 <= p < q < t.len() ==> !((#[trigger] t[p]).0 == (#[trigger] t[q]).0 && t[p].1 == t[q].1)
}

/// `CooMatrix::new`: a matrix of the given shape without triplets.
#[verifier::external_body]
pub(crate) fn coo_new(nrows: usize, ncols: usize) -> (m: CooMatrix<i128>)
    ensures
        coo_triplets(m) == Seq::<(int, int, int)>::empty(),
        coo_shape(m) == (nrows as int, ncols as int),
{
    CooMatrix::new(nrows, ncols)
}

/// `CooMatrix::push`: appends one triplet; the shape stays. The outside
/// function panics on an index out of bounds, which `requires` leaves out.
#[verifier::external_body]
pub(crate) fn coo_push(m: &mut CooMatrix<i128>, i: usize, j: usize, v: i128)
    requires
        i < coo_shape(*old(m)).0,
        j < coo_shape(*old(m)).1,
    ensures
        coo_triplets(*final(m)) == coo_triplets(*old(m)).push((i as int, j as int, v as int)),
        coo_shape(*final(m)) == coo_shape(*old(m)),
{
    m.push(i, j, v)
}

/// `CsrMatrix::from(&CooMatrix)`: the compressed matrix of the same shape.
/// The outside function sorts each row by column and adds up the values of
/// triplets that share a position; this contract is for triplets that share
/// none, where each triplet becomes one stored entry, zero values included,
/// and nothing is added.
#[verifier::external_body]
pub(crate) fn csr_from_coo(m: &CooMatrix<i128>) -> (c: CsrMatrix<i128>)
    requires
        distinct_positions(coo_triplets(*m)),
    ensures
        csr_rows(c).len() == coo_shape(*m).0,
        csr_ncols(c) == coo_shape(*m).1,
        rows_wf(csr_rows(c), csr_ncols(c)),
        stored_count(csr_rows(c)) == coo_triplets(*m).len(),
        forall|i: int, j: int, v: int|
            0 <= i < csr_rows(c).len() ==> (csr_rows(c)[i].contains((j, v)) <==> #[trigger] coo_triplets(
                *m,
            ).contains((i, j, v))),
{
    CsrMatrix::from(m)
}

/// `CsrMatrix::nrows`.
#[verifier::external_body]
pub(crate) fn csr_nrows(m: &CsrMatrix<i128>) -> (n: usize)
    ensures
        n == csr_rows(*m).len(),
{
    m.nrows()
}

/// `CsrMatrix::ncols`.
#[verifier::external_body]
pub(crate) fn csr_ncols_of(m: &CsrMatrix<i128>) -> (n: usize)
    ensures
        n == csr_ncols(*m),
{
    m.ncols()
}

/// `CsrMatrix::row` and `CsrRow::col_indices`: the columns of the stored
/// entries of row `i`, copied. The outside function panics on a row out of
/// bounds.
#[verifier::external_body]
pub(crate) fn csr_row_cols(m: &CsrMatrix<i128>, i: usize) -> (cols: Vec<usize>)
    requires
        i < csr_rows(*m).len(),
    ensures
        cols@.len() == csr_rows(*m)[i as int].len(),
        forall|p: int| 0 <= p < cols@.len() ==> (#[trigger] cols@[p]) as int == csr_rows(*m)[i as int][p].0,
{
    m.row(i).col_indices().to_vec()
}

/// `CsrMatrix::row` and `CsrRow::values`: the values of the stored entries of
/// row `i`, copied, in the order of `csr_row_cols`.
#[verifier::external_body]
pub(crate) fn csr_row_values(m: &CsrMatrix<i128>, i: usize) -> (vals: Vec<i128>)
    requires
        i < csr_rows(*m).len(),
    ensures
        vals@.len() == csr_rows(*m)[i as int].len(),
        forall|p: int| 0 <= p < vals@.len() ==> (#[trigger] vals@[p]) as int == csr_rows(*m)[i as int][p].1,
{
    m.row(i).values().to_vec()
}

/// `CsrMatrix::row_mut` and `CsrRowMut::values_mut`: overwrites the values
/// of the stored entries of row `i`, in storage order. Which columns are
/// stored does not change, nor does any other row. The copy panics where the
/// lengths differ.
#[verifier::external_body]
pub(crate) fn csr_set_row_values(m: &mut CsrMatrix<i128>, i: usize, vals: &Vec<i128>)
    requires
        i < csr_rows(*old(m)).len(),
        vals@.len() == csr_rows(*old(m))[i as int].len(),
    ensures
        csr_ncols(*final(m)) == csr_ncols(*old(m)),
        csr_rows(*final(m)).len() == csr_rows(*old(m)).len(),
        forall|r: int|
            0 <= r < csr_rows(*old(m)).len() && r != i ==> #[trigger] csr_rows(*final(m))[r]
                == csr_rows(*old(m))[r],
        csr_rows(*final(m))[i as int].len() == vals@.len(),
        forall|p: int|
            0 <= p < vals@.len() ==> #[trigger] csr_rows(*final(m))[i as int][p] == (
                csr_rows(*old(m))[i as int][p].0,
                vals@[p] as int,
            ),
{
    m.row_mut(i).values_mut().copy_from_slice(vals)
}

/// `&CsrMatrix * &CsrMatrix`: the matrix product. A cell is stored where some
/// stored entry of the left row meets a stored entry of the right matrix, and
/// holds the sum of their products. The outside function panics where the
/// shapes do not fit, and adds in `i128`: `requires` keeps every sum in range.
#[verifier::external_body]
pub(crate) fn csr_mul(a: &CsrMatrix<i128>, b: &CsrMatrix<i128>) -> (c: CsrMatrix<i128>)
    requires
        csr_ncols(*a) == csr_rows(*b).len(),
        rows_wf(csr_rows(*a), csr_ncols(*a)),
        rows_wf(csr_rows(*b), csr_ncols(*b)),
        forall|i: int, j: int|
            0 <= i < csr_rows(*a).len() && 0 <= j < csr_ncols(*b) ==> #[trigger] product_cell_abs(
                csr_rows(*a)[i],
                csr_rows(*b),
                j,
            ) <= i128::MAX,
    ensures
        csr_rows(c).len() == csr_rows(*a).len(),
        csr_ncols(c) == csr_ncols(*b),
        rows_wf(csr_rows(c), csr_ncols(c)),
        forall|i: int, j: int|
            0 <= i < csr_rows(c).len() && 0 <= j < csr_ncols(c) ==> (#[trigger] row_has(
                csr_rows(c)[i],
                j,
            ) <==> product_has(csr_rows(*a)[i], csr_rows(*b), j)),
        forall|i: int, j: int|
            0 <= i < csr_rows(c).len() && 0 <= j < csr_ncols(c) ==> #[trigger] row_value(
                csr_rows(c)[i],
                j,
            ) == product_cell(csr_rows(*a)[i], csr_rows(*b), j),
{
    a * b
}

} // verus!
