//! The rating matrix: one row per user, one column per item, stored sparsely.
use vstd::prelude::*;
use nalgebra_sparse::csr::CsrMatrix;
use crate::rows::lemma_row_len;
use crate::sparse::{
    csr_ncols, csr_ncols_of, csr_nrows, csr_row_cols, csr_row_values, csr_rows,
    csr_set_row_values, rows_wf, stored_count,
};

verus! {

/// The most rows (users) a rating matrix may have.
pub const MAX_USERS: u64 = 0x1_0000_0000;

/// The most columns (items) a rating matrix may have.
pub const MAX_ITEMS: u64 = 0x100_0000;

/// What one rating step is in the matrix: ratings are stored in millionths
/// of a step, so that a centred rating keeps its fraction.
pub const RATING_STEP: i64 = 1_000_000;

/// The largest absolute value of a stored rating, centred or not: 255 steps.
pub const MAX_RATING: i64 = 255_000_000;

/// Every stored value of the row lies within `-limit ..= limit`.
pub open spec fn row_bounded(row: Seq<(int, int)>, limit: int) -> bool {
    forall|p: int| 0 <= p < row.len() ==> -limit <= (#[trigger] row[p]).1 <= limit
}

/// No stored value of the row is negative.
pub open spec fn row_nonnegative(row: Seq<(int, int)>) -> bool {
    forall|p: int| 0 <= p < row.len() ==> 0 <= (#[trigger] row[p]).1
}

/// The entries of an executable row, as the mathematical row they stand for.
pub open spec fn row_view(v: Seq<(usize, i64)>) -> Seq<(int, int)> {
    Seq::new(v.len(), |p: int| (v[p].0 as int, v[p].1 as int))
}

/// A sparse user × item matrix of ratings. Its view is the sequence of its
/// rows, each the sequence of the user's stored ratings `(item, value)` with
/// items ascending and values in millionths of a rating step.
pub struct RatingMatrix {
    csr: CsrMatrix<i128>,
    centered: bool,
}

impl View for RatingMatrix {
    type V = Seq<Seq<(int, int)>>;

    closed spec fn view(&self) -> Seq<Seq<(int, int)>> {
        csr_rows(self.csr)
    }
}

impl RatingMatrix {
    /// The number of items (columns) the matrix was declared with.
    pub closed spec fn items(&self) -> int {
        csr_ncols(self.csr)
    }

    /// Whether the rows have been mean-centred.
    pub closed spec fn is_centered(&self) -> bool {
        self.centered
    }

    /// The invariant of every rating matrix this crate hands out. Until the
    /// rows are centred no stored rating is negative.
    pub open spec fn wf(&self) -> bool {
        &&& rows_wf(self@, self.items())
        &&& self@.len() <= MAX_USERS
        &&& 0 <= self.items() <= MAX_ITEMS
        &&& forall|i: int| 0 <= i < self@.len() ==> row_bounded(#[trigger] self@[i], MAX_RATING as int)
        &&& !self.is_centered() ==> forall|i: int|
            0 <= i < self@.len() ==> row_nonnegative(#[trigger] self@[i])
    }

    /// The number of stored ratings.
    pub open spec fn stored(&self) -> int {
        stored_count(self@)
    }

    /// The rating matrix that a compressed matrix holds, not yet centred.
    pub(crate) fn from_csr(csr: CsrMatrix<i128>) -> (matrix: Self)
        ensures
            matrix@ == csr_rows(csr),
            matrix.items() == csr_ncols(csr),
            !matrix.is_centered(),
    {
        RatingMatrix { csr, centered: false }
    }

    /// Whether the rows have been mean-centred.
    pub fn centered(&self) -> (c: bool)
        ensures
            c == self.is_centered(),
    {
        self.centered
    }

    /// Overwrites the stored values of one row, in storage order; the items
    /// stay.
    pub(crate) fn replace_row_values(&mut self, user: usize, values: &Vec<i128>)
        requires
            user < old(self)@.len(),
            values@.len() == old(self)@[user as int].len(),
        ensures
            final(self).items() == old(self).items(),
            final(self).is_centered() == old(self).is_centered(),
            final(self)@.len() == old(self)@.len(),
            forall|r: int|
                0 <= r < old(self)@.len() && r != user ==> #[trigger] final(self)@[r] == old(self)@[r],
            final(self)@[user as int].len() == values@.len(),
            forall|p: int|
                0 <= p < values@.len() ==> #[trigger] final(self)@[user as int][p] == (
                    old(self)@[user as int][p].0,
                    values@[p] as int,
                ),
    {
        csr_set_row_values(&mut self.csr, user, values);
    }

    /// Records that the rows have been mean-centred.
    pub(crate) fn mark_centered(&mut self)
        ensures
            final(self)@ == old(self)@,
            final(self).items() == old(self).items(),
            final(self).is_centered(),
    {
        self.centered = true;
    }

    /// The compressed matrix that holds the ratings.
    pub(crate) fn inner(&self) -> (c: &CsrMatrix<i128>)
        ensures
            csr_rows(*c) == self@,
            csr_ncols(*c) == self.items(),
    {
        &self.csr
    }

    /// The number of users (rows).
    pub fn nrows(&self) -> (n: usize)
        ensures
            n == self@.len(),
    {
        csr_nrows(&self.csr)
    }

    /// The number of items (columns).
    pub fn ncols(&self) -> (n: usize)
        ensures
            n == self.items(),
    {
        csr_ncols_of(&self.csr)
    }

    /// The stored ratings of one user as `(item, value)` pairs, items
    /// ascending, values in millionths of a rating step.
    pub fn row(&self, user: usize) -> (r: Vec<(usize, i64)>)
        requires
            user < self@.len(),
            row_bounded(self@[user as int], MAX_RATING as int),
        ensures
            row_view(r@) == self@[user as int],
            self.wf() ==> r@.len() <= self.items(),
    {
        let cols = csr_row_cols(&self.csr, user);
        let vals = csr_row_values(&self.csr, user);
        let mut r: Vec<(usize, i64)> = Vec::new();
        let mut p: usize = 0;
        while p < cols.len()
            invariant
                p <= cols@.len(),
                cols@.len() == vals@.len(),
                cols@.len() == self@[user as int].len(),
                row_bounded(self@[user as int], MAX_RATING as int),
                r@.len() == p,
                forall|q: int| 0 <= q < cols@.len() ==> (#[trigger] cols@[q]) as int == self@[user as int][q].0,
                forall|q: int| 0 <= q < vals@.len() ==> (#[trigger] vals@[q]) as int == self@[user as int][q].1,
                forall|q: int|
                    0 <= q < p ==> (#[trigger] r@[q]).0 as int == self@[user as int][q].0
                        && r@[q].1 as int == self@[user as int][q].1,
            decreases cols@.len() - p,
        {
            assert(-MAX_RATING <= self@[user as int][p as int].1 <= MAX_RATING);
            r.push((cols[p], vals[p] as i64));
            p += 1;
        }
        assert(row_view(r@) =~= self@[user as int]);
        proof {
            if self.wf() {
                lemma_row_len(self@[user as int], self.items());
            }
        }
        r
    }
}

} // verus!
