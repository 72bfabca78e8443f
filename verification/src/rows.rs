//! Sums over one sparse row, and the facts about them that the rest of the
//! crate builds on.
use vstd::prelude::*;
use crate::matrix::row_bounded;
use crate::sparse::{row_has, row_value, row_wf};

verus! {

/// The sum of the squares of the stored values of a row: the square of its
/// Euclidean norm.
pub open spec fn square_sum(row: Seq<(int, int)>) -> int
    decreases row.len(),
{
    if row.len() == 0 {
        0
    } else {
        square_sum(row.drop_last()) + row.last().1 * row.last().1
    }
}

/// The sum of the stored values of a row.
pub open spec fn value_sum(row: Seq<(int, int)>) -> int
    decreases row.len(),
{
    if row.len() == 0 {
        0
    } else {
        value_sum(row.drop_last()) + row.last().1
    }
}

/// The dot product of a row with a query: the sum, over the row's stored
/// entries `(k, v)`, of `v` times the query's value at `k`.
pub open spec fn row_dot(row: Seq<(int, int)>, query: Seq<(int, int)>) -> int
    decreases row.len(),
{
    if row.len() == 0 {
        0
    } else {
        row_dot(row.drop_last(), query) + row.last().1 * row_value(query, row.last().0)
    }
}

/// No item occurs twice among the entries.
pub open spec fn distinct_items(row: Seq<(int, int)>) -> bool {
    forall|p: int, q: int| 0 <= p < q < row.len() ==> (#[trigger] row[p]).0 != (#[trigger] row[q]).0
}

/// A well-formed row has no more entries than there are columns.
pub proof fn lemma_row_len(row: Seq<(int, int)>, ncols: int)
    requires
        row_wf(row, ncols),
        0 <= ncols,
    ensures
        row.len() <= ncols,
    decreases row.len(),
{
    if row.len() > 0 {
        let init = row.drop_last();
        assert(forall|p: int| 0 <= p < init.len() ==> init[p] == row[p]);
        if ncols == 0 {
            assert(0 <= row[0].0 < ncols);
        } else {
            assert forall|p: int| 0 <= p < init.len() implies 0 <= (#[trigger] init[p]).0 < ncols
                - 1 by {
                assert(row[p].0 < row[row.len() - 1].0);
            }
            lemma_row_len(init, ncols - 1);
        }
    }
}

/// The value at the item of a stored entry is that entry's value.
pub proof fn lemma_row_value_at(row: Seq<(int, int)>, p: int)
    requires
        distinct_items(row),
        0 <= p < row.len(),
    ensures
        row_value(row, row[p].0) == row[p].1,
    decreases row.len(),
{
    if p < row.len() - 1 {
        let init = row.drop_last();
        assert(row[p].0 != row[row.len() - 1].0);
        assert(forall|q: int| 0 <= q < init.len() ==> init[q] == row[q]);
        lemma_row_value_at(init, p);
    }
}

/// An item without a stored entry reads as zero.
pub proof fn lemma_row_value_absent(row: Seq<(int, int)>, j: int)
    requires
        !row_has(row, j),
    ensures
        row_value(row, j) == 0,
    decreases row.len(),
{
    if row.len() > 0 {
        let init = row.drop_last();
        assert(row[row.len() - 1].0 != j);
        assert forall|q: int| 0 <= q < init.len() implies (#[trigger] init[q]).0 != j by {
            assert(init[q] == row[q]);
        }
        lemma_row_value_absent(init, j);
    }
}

/// Every value of a bounded row is within the bound.
pub proof fn lemma_row_value_bounded(row: Seq<(int, int)>, limit: int, j: int)
    requires
        row_bounded(row, limit),
        0 <= limit,
    ensures
        -limit <= row_value(row, j) <= limit,
    decreases row.len(),
{
    if row.len() > 0 {
        let init = row.drop_last();
        assert(forall|q: int| 0 <= q < init.len() ==> init[q] == row[q]);
        assert(-limit <= row[row.len() - 1].1 <= limit);
        lemma_row_value_bounded(init, limit, j);
    }
}

/// The square sum of a bounded row is at most `limit * limit` per entry.
pub proof fn lemma_square_sum_bound(row: Seq<(int, int)>, limit: int)
    requires
        row_bounded(row, limit),
        0 <= limit,
    ensures
        0 <= square_sum(row) <= row.len() * (limit * limit),
    decreases row.len(),
{
    if row.len() > 0 {
        let init = row.drop_last();
        let v = row.last().1;
        assert(forall|q: int| 0 <= q < init.len() ==> init[q] == row[q]);
        assert(-limit <= row[row.len() - 1].1 <= limit);
        lemma_square_sum_bound(init, limit);
        assert(0 <= v * v <= limit * limit) by (nonlinear_arith)
            requires
                -limit <= v <= limit,
        ;
        assert(row.len() * (limit * limit) == init.len() * (limit * limit) + limit * limit)
            by (nonlinear_arith)
            requires
                row.len() == init.len() + 1,
        ;
    }
}

/// The square sum of a row is zero exactly when every stored value is zero.
pub proof fn lemma_square_sum_zero(row: Seq<(int, int)>)
    ensures
        0 <= square_sum(row),
        square_sum(row) == 0 <==> forall|p: int| 0 <= p < row.len() ==> (#[trigger] row[p]).1 == 0,
    decreases row.len(),
{
    if row.len() > 0 {
        let init = row.drop_last();
        let v = row.last().1;
        assert(forall|q: int| 0 <= q < init.len() ==> init[q] == row[q]);
        lemma_square_sum_zero(init);
        assert(v * v >= 0 && (v * v == 0 <==> v == 0)) by (nonlinear_arith);
        if square_sum(row) == 0 {
            assert forall|p: int| 0 <= p < row.len() implies (#[trigger] row[p]).1 == 0 by {
                if p < init.len() {
                    assert(init[p].1 == 0);
                }
            }
        }
        if forall|p: int| 0 <= p < row.len() ==> (#[trigger] row[p]).1 == 0 {
            assert(row[row.len() - 1].1 == 0);
            assert forall|p: int| 0 <= p < init.len() implies (#[trigger] init[p]).1 == 0 by {
                assert(row[p].1 == 0);
            }
        }
    }
}

/// The sum, over the row's stored entries `(k, _)`, of the square of the
/// query's value at `k`.
pub open spec fn met_square_sum(row: Seq<(int, int)>, query: Seq<(int, int)>) -> int
    decreases row.len(),
{
    if row.len() == 0 {
        0
    } else {
        met_square_sum(row.drop_last(), query) + row_value(query, row.last().0) * row_value(
            query,
            row.last().0,
        )
    }
}

/// One more term on both sides keeps the square of the sum of products
/// within the product of the sums of squares.
proof fn lemma_square_step(d: int, s: int, t: int, v: int, w: int)
    requires
        0 <= s,
        0 <= t,
        d * d <= s * t,
    ensures
        (d + v * w) * (d + v * w) <= (s + v * v) * (t + w * w),
{
    let x = s * (w * w);
    let y = t * (v * v);
    let z = 2 * d * (v * w);
    assert(0 <= x && 0 <= y) by (nonlinear_arith)
        requires
            0 <= s,
            0 <= t,
            x == s * (w * w),
            y == t * (v * v),
    ;
    assert((x + y) * (x + y) >= 4 * (x * y)) by (nonlinear_arith);
    assert(x * y == (s * t) * ((v * w) * (v * w))) by (nonlinear_arith)
        requires
            x == s * (w * w),
            y == t * (v * v),
    ;
    assert((d * d) * ((v * w) * (v * w)) <= (s * t) * ((v * w) * (v * w))) by (nonlinear_arith)
        requires
            d * d <= s * t,
    ;
    assert(z * z == 4 * ((d * d) * ((v * w) * (v * w)))) by (nonlinear_arith)
        requires
            z == 2 * d * (v * w),
    ;
    assert(z * z <= (x + y) * (x + y));
    assert(z <= x + y) by (nonlinear_arith)
        requires
            z * z <= (x + y) * (x + y),
            0 <= x + y,
    ;
    assert((d + v * w) * (d + v * w) == d * d + z + (v * v) * (w * w)) by (nonlinear_arith)
        requires
            z == 2 * d * (v * w),
    ;
    assert((s + v * v) * (t + w * w) == s * t + x + y + (v * v) * (w * w)) by (nonlinear_arith)
        requires
            x == s * (w * w),
            y == t * (v * v),
    ;
}

/// The square of the dot product is within the squared norm of the row
/// times the squares of the query at the row's items.
proof fn lemma_dot_within_met(row: Seq<(int, int)>, query: Seq<(int, int)>)
    ensures
        0 <= square_sum(row),
        0 <= met_square_sum(row, query),
        row_dot(row, query) * row_dot(row, query) <= square_sum(row) * met_square_sum(row, query),
    decreases row.len(),
{
    if row.len() > 0 {
        let init = row.drop_last();
        let v = row.last().1;
        let w = row_value(query, row.last().0);
        lemma_dot_within_met(init, query);
        assert(0 <= v * v && 0 <= w * w) by (nonlinear_arith);
        lemma_square_step(row_dot(init, query), square_sum(init), met_square_sum(init, query), v, w);
    } else {
        assert(0 * 0 <= 0 * 0) by (nonlinear_arith);
    }
}

/// With one more entry `(k, w)` in the query, the sum grows by `w * w` where
/// the row stores `k`, and not at all where it does not.
proof fn lemma_met_grows(row: Seq<(int, int)>, query: Seq<(int, int)>)
    requires
        distinct_items(row),
        distinct_items(query),
        query.len() > 0,
    ensures
        met_square_sum(row, query) == met_square_sum(row, query.drop_last()) + if row_has(
            row,
            query.last().0,
        ) {
            query.last().1 * query.last().1
        } else {
            0
        },
    decreases row.len(),
{
    let k = query.last().0;
    let w = query.last().1;
    let short = query.drop_last();
    if row.len() > 0 {
        let init = row.drop_last();
        let j = row.last().0;
        assert(forall|q: int| 0 <= q < init.len() ==> init[q] == row[q]);
        lemma_met_grows(init, query);
        if j == k {
            // no earlier entry of the row stores k, and the query held no k before
            assert(row[row.len() - 1].0 == k);
            assert(!row_has(init, k)) by {
                if row_has(init, k) {
                    let p = choose|p: int| 0 <= p < init.len() && (#[trigger] init[p]).0 == k;
                    assert(row[p].0 != row[row.len() - 1].0);
                }
            }
            assert(!row_has(short, k)) by {
                if row_has(short, k) {
                    let p = choose|p: int| 0 <= p < short.len() && (#[trigger] short[p]).0 == k;
                    assert(query[p] == short[p]);
                    assert(query[p].0 != query[query.len() - 1].0);
                }
            }
            lemma_row_value_absent(short, k);
            assert(row_has(row, k));
        } else {
            assert(row_has(row, k) == row_has(init, k)) by {
                if row_has(row, k) {
                    let p = choose|p: int| 0 <= p < row.len() && (#[trigger] row[p]).0 == k;
                    assert(p < init.len());
                    assert(init[p].0 == k);
                }
                if row_has(init, k) {
                    let p = choose|p: int| 0 <= p < init.len() && (#[trigger] init[p]).0 == k;
                    assert(row[p].0 == k);
                }
            }
        }
    } else {
        assert(!row_has(row, k));
    }
}

/// The squares of the query at the row's items are within the squared norm
/// of the query.
proof fn lemma_met_within_norm(row: Seq<(int, int)>, query: Seq<(int, int)>)
    requires
        distinct_items(row),
        distinct_items(query),
    ensures
        met_square_sum(row, query) <= square_sum(query),
    decreases query.len(),
{
    if query.len() > 0 {
        let short = query.drop_last();
        let w = query.last().1;
        assert(forall|q: int| 0 <= q < short.len() ==> short[q] == query[q]);
        lemma_met_within_norm(row, short);
        lemma_met_grows(row, query);
        assert(0 <= w * w) by (nonlinear_arith);
    } else {
        assert(query =~= Seq::<(int, int)>::empty());
        lemma_met_of_nothing(row);
    }
}

/// An empty query reads zero everywhere.
proof fn lemma_met_of_nothing(row: Seq<(int, int)>)
    ensures
        met_square_sum(row, Seq::empty()) == 0,
    decreases row.len(),
{
    if row.len() > 0 {
        lemma_met_of_nothing(row.drop_last());
    }
}

/// The square of the dot product of two rows is at most the product of
/// their squared norms: a cosine is never beyond one.
pub proof fn lemma_dot_within_norms(row: Seq<(int, int)>, query: Seq<(int, int)>)
    requires
        distinct_items(row),
        distinct_items(query),
    ensures
        row_dot(row, query) * row_dot(row, query) <= square_sum(row) * square_sum(query),
{
    lemma_dot_within_met(row, query);
    lemma_met_within_norm(row, query);
    let s = square_sum(row);
    let t = met_square_sum(row, query);
    let u = square_sum(query);
    assert(s * t <= s * u) by (nonlinear_arith)
        requires
            0 <= s,
            t <= u,
    ;
}

} // verus!
