//! The similarity engine: the cosine of a query with every row of the matrix,
//! by one sparse matrix product and a division by the norms.
use vstd::prelude::*;
use crate::fixed::{
    lemma_sqrt_exists, lemma_sqrt_of_quotient, lemma_sqrt_of_square, product_in_parts, sqrt_floor,
    PART,
};
use crate::matrix::{row_bounded, row_view, RatingMatrix, MAX_ITEMS, MAX_RATING};
use crate::recommendation::row_square_sum;
use crate::rows::{
    distinct_items, lemma_dot_within_norms, lemma_row_len, lemma_row_value_absent,
    lemma_row_value_at, lemma_row_value_bounded, lemma_square_sum_bound, lemma_square_sum_zero,
    row_dot, square_sum,
};
use crate::sparse::{
    abs, coo_new, coo_push, coo_shape, coo_triplets, csr_from_coo, csr_mul, csr_ncols,
    csr_row_values, csr_rows, distinct_positions, product_cell, product_cell_abs, row_has,
    row_value, row_wf, rows_wf,
};

verus! {

/// The score that stands for a cosine of one: scores are in millionths.
pub const SCORE_ONE: i64 = 1_000_000;

/// The largest dot product, or squared norm, of two rows of a rating matrix.
pub const MAX_DOT: u128 = 0x100_0000 * 65_025_000_000_000_000;

/// The cosine `dot / sqrt(query_norm * row_norm)` of two rows, from their dot
/// product and their squared norms: in millionths, rounded toward zero.
pub open spec fn cosine(dot: int, query_norm: int, row_norm: int) -> int {
    let size = sqrt_floor((dot * dot * 1_000_000_000_000) / (query_norm * row_norm));
    if dot >= 0 {
        size
    } else {
        -size
    }
}

/// The cosine of two rows from their dot product and squared norms. The
/// square of a dot product is never more than the product of the norms, so
/// the score lies between minus one and one. The root is found by bisection
/// on products held in two parts, which do not fit one number.
pub fn cosine_score(dot: i128, query_norm: u128, row_norm: u128) -> (score: i64)
    requires
        0 < query_norm <= MAX_DOT,
        0 < row_norm <= MAX_DOT,
        dot * dot <= query_norm * row_norm,
    ensures
        score == cosine(dot as int, query_norm as int, row_norm as int),
        -SCORE_ONE <= score <= SCORE_ONE,
{
    let ghost d = query_norm as int * row_norm as int;
    let ghost x = dot as int * dot as int * 1_000_000_000_000;
    assert(0 < d < 0x1_0000_0000_0000_0000_0000 * 0x1_0000_0000_0000_0000_0000)
        by (nonlinear_arith)
        requires
            d == query_norm as int * row_norm as int,
            0 < query_norm < 0x1_0000_0000_0000_0000_0000,
            0 < row_norm < 0x1_0000_0000_0000_0000_0000,
    ;
    assert(-0x1_0000_0000_0000_0000_0000 < dot < 0x1_0000_0000_0000_0000_0000) by (nonlinear_arith)
        requires
            dot * dot <= d,
            d < 0x1_0000_0000_0000_0000_0000 * 0x1_0000_0000_0000_0000_0000,
    ;
    let size: u128 = if dot >= 0 {
        dot as u128
    } else {
        (-dot) as u128
    };
    assert(size * size == dot * dot) by (nonlinear_arith)
        requires
            size == dot || size == -dot,
    ;
    let target = product_in_parts(size, size, 1_000_000_000_000);
    assert(target.0 * PART + target.1 == x);
    let mut low: u128 = 0;
    let mut high: u128 = 1_000_001;
    assert(x < 1_000_001 * 1_000_001 * d) by (nonlinear_arith)
        requires
            x == dot * dot * 1_000_000_000_000,
            dot * dot <= d,
            0 < d,
    ;
    assert(0 * 0 * d <= x) by (nonlinear_arith)
        requires
            x == dot * dot * 1_000_000_000_000,
    ;
    while high - low > 1
        invariant
            low < high <= 1_000_001,
            0 < query_norm <= MAX_DOT,
            0 < row_norm <= MAX_DOT,
            d == query_norm as int * row_norm as int,
            target.1 < PART,
            target.0 * PART + target.1 == x,
            low * low * d <= x,
            x < high * high * d,
        decreases high - low,
    {
        let middle = low + (high - low) / 2;
        assert(middle * middle <= 1_000_000 * 1_000_000) by (nonlinear_arith)
            requires
                0 <= middle <= 1_000_000,
        ;
        let candidate = product_in_parts(query_norm, row_norm, middle * middle);
        assert(candidate.0 * PART + candidate.1 == middle * middle * d) by (nonlinear_arith)
            requires
                candidate.0 * PART + candidate.1 == query_norm * row_norm * (middle * middle),
                d == query_norm as int * row_norm as int,
        ;
        if candidate.0 < target.0 || (candidate.0 == target.0 && candidate.1 <= target.1) {
            low = middle;
        } else {
            high = middle;
        }
    }
    proof {
        lemma_sqrt_of_quotient(x, d, low as int);
    }
    if dot >= 0 {
        low as i64
    } else {
        -(low as i64)
    }
}

/// The cosine of a row with itself is one.
pub proof fn lemma_cosine_of_equal(norm: int)
    requires
        0 < norm,
    ensures
        cosine(norm, norm, norm) == SCORE_ONE,
{
    assert((norm * norm * 1_000_000_000_000) / (norm * norm) == 1_000_000_000_000)
        by (nonlinear_arith)
        requires
            0 < norm,
    ;
    lemma_sqrt_of_square(1_000_000);
}

/// The score of one row against a query.
pub open spec fn score_of(row: Seq<(int, int)>, query: Seq<(int, int)>) -> int {
    cosine(row_dot(row, query), square_sum(query), square_sum(row))
}

/// A score lies between minus one and one.
pub proof fn lemma_score_within_one(row: Seq<(int, int)>, query: Seq<(int, int)>)
    requires
        distinct_items(row),
        distinct_items(query),
        square_sum(row) != 0,
        square_sum(query) != 0,
    ensures
        -SCORE_ONE <= score_of(row, query) <= SCORE_ONE,
{
    let dot = row_dot(row, query);
    let s = square_sum(row);
    let t = square_sum(query);
    lemma_dot_within_norms(row, query);
    lemma_square_sum_zero(row);
    lemma_square_sum_zero(query);
    assert(0 < t * s && 0 <= dot * dot <= t * s) by (nonlinear_arith)
        requires
            0 < s,
            0 < t,
            dot * dot <= s * t,
    ;
    let q = (dot * dot * 1_000_000_000_000) / (t * s);
    assert(0 <= q <= 1_000_000_000_000) by (nonlinear_arith)
        requires
            q == (dot * dot * 1_000_000_000_000) / (t * s),
            0 <= dot * dot <= t * s,
            0 < t * s,
    ;
    lemma_sqrt_exists(q);
    let r = sqrt_floor(q);
    assert(r <= 1_000_000) by (nonlinear_arith)
        requires
            0 <= r,
            r * r <= q,
            q <= 1_000_000_000_000,
    ;
}

/// The scores of the first `n` rows, in row order: one `(row, score)` for
/// each row whose norm is not zero and which is not the row `skip`.
pub open spec fn scores_upto(
    rows: Seq<Seq<(int, int)>>,
    query: Seq<(int, int)>,
    skip: Option<int>,
    n: int,
) -> Seq<(int, int)>
    decreases n,
{
    if n <= 0 {
        Seq::empty()
    } else if square_sum(rows[n - 1]) == 0 || skip == Some(n - 1) {
        scores_upto(rows, query, skip, n - 1)
    } else {
        scores_upto(rows, query, skip, n - 1).push((n - 1, score_of(rows[n - 1], query)))
    }
}

/// The similarity scores of a query against a matrix: none for a query
/// whose norm is zero.
pub open spec fn similarity_scores(
    rows: Seq<Seq<(int, int)>>,
    query: Seq<(int, int)>,
    skip: Option<int>,
) -> Seq<(int, int)> {
    if square_sum(query) == 0 {
        Seq::empty()
    } else {
        scores_upto(rows, query, skip, rows.len() as int)
    }
}

/// What a query must be: items of the matrix, none twice, values in range.
/// A cosine does not change when all values of the query are scaled alike, so
/// the values may be in steps or in millionths of a step.
pub open spec fn query_wf(query: Seq<(int, int)>, items: int) -> bool {
    &&& forall|p: int| 0 <= p < query.len() ==> 0 <= (#[trigger] query[p]).0 < items
    &&& distinct_items(query)
    &&& row_bounded(query, MAX_RATING as int)
    &&& query.len() <= MAX_ITEMS
}

/// An optional row index as the mathematical index it stands for.
pub open spec fn option_int(o: Option<usize>) -> Option<int> {
    match o {
        Some(i) => Some(i as int),
        None => None,
    }
}

/// The column matrix that holds a query agrees with the query at each item.
proof fn lemma_column_value(
    column: Seq<Seq<(int, int)>>,
    triplets: Seq<(int, int, int)>,
    query: Seq<(int, int)>,
    k: int,
)
    requires
        0 <= k < column.len(),
        rows_wf(column, 1),
        distinct_items(query),
        triplets.len() == query.len(),
        forall|t: int| 0 <= t < query.len() ==> #[trigger] triplets[t] == (query[t].0, 0int, query[t].1),
        forall|i: int, j: int, v: int|
            0 <= i < column.len() ==> (column[i].contains((j, v)) <==> #[trigger] triplets.contains(
                (i, j, v),
            )),
    ensures
        row_value(column[k], 0) == row_value(query, k),
{
    let cell = column[k];
    assert(row_wf(cell, 1));
    if row_has(query, k) {
        let p = choose|p: int| 0 <= p < query.len() && (#[trigger] query[p]).0 == k;
        let v = query[p].1;
        assert(triplets[p] == (k, 0int, v));
        assert(triplets.contains((k, 0int, v)));
        assert(cell.contains((0int, v)));
        let x = choose|x: int| 0 <= x < cell.len() && cell[x] == (0int, v);
        lemma_row_value_at(cell, x);
        lemma_row_value_at(query, p);
    } else {
        if row_has(cell, 0) {
            let x = choose|x: int| 0 <= x < cell.len() && (#[trigger] cell[x]).0 == 0;
            let v = cell[x].1;
            assert(cell[x] == (0int, v));
            assert(cell.contains((0int, v)));
            assert(triplets.contains((k, 0int, v)));
            let t = choose|t: int| 0 <= t < triplets.len() && triplets[t] == (k, 0int, v);
            assert(query[t].0 == k);
            assert(false);
        }
        lemma_row_value_absent(cell, 0);
        lemma_row_value_absent(query, k);
    }
}

/// Against the column matrix of a query, the product cell of a row is its
/// dot product with the query, and the sum of absolute values is bounded.
proof fn lemma_product_is_dot(
    row: Seq<(int, int)>,
    column: Seq<Seq<(int, int)>>,
    query: Seq<(int, int)>,
)
    requires
        row_bounded(row, MAX_RATING as int),
        row_bounded(query, MAX_RATING as int),
        forall|p: int| 0 <= p < row.len() ==> 0 <= (#[trigger] row[p]).0 < column.len(),
        forall|k: int| 0 <= k < column.len() ==> #[trigger] row_value(column[k], 0) == row_value(query, k),
    ensures
        product_cell(row, column, 0) == row_dot(row, query),
        product_cell_abs(row, column, 0) <= row.len() * 65_025_000_000_000_000,
    decreases row.len(),
{
    if row.len() > 0 {
        let init = row.drop_last();
        let k = row.last().0;
        let v = row.last().1;
        let w = row_value(query, k);
        assert(forall|q: int| 0 <= q < init.len() ==> init[q] == row[q]);
        assert(row[row.len() - 1] == row.last());
        assert(row_value(column[k], 0) == w);
        lemma_row_value_bounded(query, MAX_RATING as int, k);
        assert(-255_000_000 <= v <= 255_000_000);
        lemma_product_is_dot(init, column, query);
        assert(abs(v) * abs(w) <= 65_025_000_000_000_000) by (nonlinear_arith)
            requires
                0 <= abs(v) <= 255_000_000,
                0 <= abs(w) <= 255_000_000,
        ;
    }
}

/// The similarity engine. Scores a query against every row of the matrix.
///
/// The dot products come from one sparse product of the matrix with the
/// query as a column. A row whose norm is zero gets no score, nor does the
/// row `query_self_index`; a query whose norm is zero gets no scores at all.
/// The scores come in row order.
pub fn similarities(
    matrix: &RatingMatrix,
    norms: &Vec<u128>,
    query: &Vec<(usize, i64)>,
    query_self_index: Option<usize>,
) -> (scores: Vec<(usize, i64)>)
    requires
        matrix.wf(),
        norms@.len() == matrix@.len(),
        forall|i: int| 0 <= i < norms@.len() ==> #[trigger] norms@[i] == square_sum(matrix@[i]),
        query_wf(row_view(query@), matrix.items()),
    ensures
        row_view(scores@) == similarity_scores(
            matrix@,
            row_view(query@),
            option_int(query_self_index),
        ),
        forall|p: int| 0 <= p < scores@.len() ==> -SCORE_ONE <= (#[trigger] scores@[p]).1 <= SCORE_ONE,
        forall|p: int| 0 <= p < scores@.len() ==> (#[trigger] scores@[p]).0 < matrix@.len(),
        forall|p: int| 0 <= p < scores@.len() ==> query_self_index != Some((#[trigger] scores@[p]).0),
        scores@.len() <= matrix@.len(),
{
    let ghost qv = row_view(query@);
    let ghost skip = option_int(query_self_index);
    let mut scores: Vec<(usize, i64)> = Vec::new();
    let query_norm = row_square_sum(query);
    if query_norm == 0 {
        assert(row_view(scores@) =~= similarity_scores(matrix@, qv, skip));
        return scores;
    }
    proof {
        lemma_square_sum_bound(qv, MAX_RATING as int);
        assert(qv.len() * (255_000_000 * 255_000_000) <= MAX_DOT) by (nonlinear_arith)
            requires
                qv.len() <= 0x100_0000,
        ;
    }
    let ncols = matrix.ncols();
    let nrows = matrix.nrows();
    let mut coo = coo_new(ncols, 1);
    let mut p: usize = 0;
    while p < query.len()
        invariant
            p <= query@.len(),
            qv == row_view(query@),
            query_wf(qv, matrix.items()),
            ncols == matrix.items(),
            coo_shape(coo) == (ncols as int, 1int),
            coo_triplets(coo).len() == p,
            forall|t: int| 0 <= t < p ==> #[trigger] coo_triplets(coo)[t] == (qv[t].0, 0int, qv[t].1),
        decreases query@.len() - p,
    {
        let entry = query[p];
        assert(qv[p as int] == (entry.0 as int, entry.1 as int));
        coo_push(&mut coo, entry.0, 0, entry.1 as i128);
        p += 1;
    }
    proof {
        let t = coo_triplets(coo);
        assert forall|a: int, b: int| 0 <= a < b < t.len() implies !((#[trigger] t[a]).0 == (
            #[trigger] t[b]).0 && t[a].1 == t[b].1) by {
            assert(qv[a].0 != qv[b].0);
        }
        assert(distinct_positions(t));
    }
    let column = csr_from_coo(&coo);
    let ghost cells = csr_rows(column);
    proof {
        assert forall|k: int| 0 <= k < cells.len() implies #[trigger] row_value(cells[k], 0)
            == row_value(qv, k) by {
            lemma_column_value(cells, coo_triplets(coo), qv, k);
        }
        assert forall|i: int, j: int|
            0 <= i < matrix@.len() && 0 <= j < csr_ncols(column) implies #[trigger] product_cell_abs(
            matrix@[i],
            cells,
            j,
        ) <= i128::MAX by {
            lemma_row_len(matrix@[i], matrix.items());
            lemma_product_is_dot(matrix@[i], cells, qv);
            assert(matrix@[i].len() * 65_025_000_000_000_000 <= MAX_DOT) by (nonlinear_arith)
                requires
                    matrix@[i].len() <= 0x100_0000,
            ;
        }
    }
    let dots = csr_mul(matrix.inner(), &column);
    let mut i: usize = 0;
    while i < nrows
        invariant
            i <= nrows,
            nrows == matrix@.len(),
            matrix.wf(),
            norms@.len() == matrix@.len(),
            forall|r: int| 0 <= r < norms@.len() ==> #[trigger] norms@[r] == square_sum(matrix@[r]),
            qv == row_view(query@),
            query_wf(qv, matrix.items()),
            skip == option_int(query_self_index),
            query_norm == square_sum(qv),
            0 < query_norm <= MAX_DOT,
            cells.len() == matrix.items(),
            forall|k: int| 0 <= k < cells.len() ==> #[trigger] row_value(cells[k], 0) == row_value(qv, k),
            csr_rows(dots).len() == matrix@.len(),
            csr_ncols(dots) == 1,
            rows_wf(csr_rows(dots), 1),
            forall|r: int, j: int|
                0 <= r < csr_rows(dots).len() && 0 <= j < 1 ==> #[trigger] row_value(
                    csr_rows(dots)[r],
                    j,
                ) == product_cell(matrix@[r], cells, j),
            row_view(scores@) == scores_upto(matrix@, qv, skip, i as int),
            forall|x: int| 0 <= x < scores@.len() ==> -SCORE_ONE <= (#[trigger] scores@[x]).1 <= SCORE_ONE,
            forall|x: int| 0 <= x < scores@.len() ==> (#[trigger] scores@[x]).0 < matrix@.len(),
            forall|x: int| 0 <= x < scores@.len() ==> query_self_index != Some((#[trigger] scores@[x]).0),
            scores@.len() <= i,
        decreases nrows - i,
    {
        let row_norm = norms[i];
        let is_self = match query_self_index {
            Some(s) => s == i,
            None => false,
        };
        if row_norm != 0 && !is_self {
            let values = csr_row_values(&dots, i);
            let dot: i128 = if values.len() > 0 {
                values[0]
            } else {
                0
            };
            proof {
                let cell = csr_rows(dots)[i as int];
                let row = matrix@[i as int];
                assert(row_wf(cell, 1));
                if cell.len() > 0 {
                    assert(cell[0].0 == 0);
                    lemma_row_value_at(cell, 0);
                } else {
                    lemma_row_value_absent(cell, 0);
                }
                assert(dot == row_value(cell, 0));
                assert(row_wf(row, matrix.items()));
                lemma_product_is_dot(row, cells, qv);
                lemma_row_len(row, matrix.items());
                lemma_dot_within_norms(row, qv);
                lemma_square_sum_bound(row, MAX_RATING as int);
                assert(row.len() * (255_000_000 * 255_000_000) <= MAX_DOT) by (nonlinear_arith)
                    requires
                        row.len() <= 0x100_0000,
                ;
            }
            let score = cosine_score(dot, query_norm, row_norm);
            let ghost before = row_view(scores@);
            scores.push((i, score));
            assert(row_view(scores@) =~= before.push((i as int, score as int)));
        }
        i += 1;
    }
    proof {
        assert(square_sum(qv) != 0);
    }
    scores
}

/// The scores name rows below `n` only, and never the row `skip`.
pub proof fn lemma_scored_rows(
    rows: Seq<Seq<(int, int)>>,
    query: Seq<(int, int)>,
    skip: Option<int>,
    n: int,
)
    ensures
        forall|p: int|
            0 <= p < scores_upto(rows, query, skip, n).len() ==> {
                &&& 0 <= (#[trigger] scores_upto(rows, query, skip, n)[p]).0 < n
                &&& skip != Some(scores_upto(rows, query, skip, n)[p].0)
                &&& square_sum(rows[scores_upto(rows, query, skip, n)[p].0]) != 0
            },
    decreases n,
{
    if n > 0 {
        lemma_scored_rows(rows, query, skip, n - 1);
        let all = scores_upto(rows, query, skip, n);
        let before = scores_upto(rows, query, skip, n - 1);
        assert forall|p: int| 0 <= p < all.len() implies {
            &&& 0 <= (#[trigger] all[p]).0 < n
            &&& skip != Some(all[p].0)
            &&& square_sum(rows[all[p].0]) != 0
        } by {
            if p < before.len() {
                assert(all[p] == before[p]);
            }
        }
    }
}

/// Every row below `n` whose norm is not zero, but for the row `skip`, has
/// its score among the scores.
pub proof fn lemma_row_is_scored(
    rows: Seq<Seq<(int, int)>>,
    query: Seq<(int, int)>,
    skip: Option<int>,
    n: int,
    i: int,
)
    requires
        0 <= i < n,
        square_sum(rows[i]) != 0,
        skip != Some(i),
    ensures
        scores_upto(rows, query, skip, n).contains((i, score_of(rows[i], query))),
    decreases n,
{
    let all = scores_upto(rows, query, skip, n);
    if i == n - 1 {
        assert(all[all.len() - 1] == (i, score_of(rows[i], query)));
    } else {
        lemma_row_is_scored(rows, query, skip, n - 1, i);
        let before = scores_upto(rows, query, skip, n - 1);
        let x = choose|x: int| 0 <= x < before.len() && before[x] == (i, score_of(rows[i], query));
        assert(all[x] == before[x]);
    }
}

/// The dot product of a row with itself is its squared norm.
pub proof fn lemma_row_dot_self(row: Seq<(int, int)>, n: int)
    requires
        distinct_items(row),
        0 <= n <= row.len(),
    ensures
        row_dot(row.take(n), row) == square_sum(row.take(n)),
    decreases n,
{
    if n > 0 {
        let cur = row.take(n);
        assert(cur.drop_last() =~= row.take(n - 1));
        assert(cur.last() == row[n - 1]);
        lemma_row_dot_self(row, n - 1);
        lemma_row_value_at(row, n - 1);
    }
}

/// A user is never its own neighbour: the scores of the query that is row
/// `a`, with `a` as its own index, do not name `a`. Another row that holds
/// the same ratings scores one.
pub proof fn lemma_self_and_copy(rows: Seq<Seq<(int, int)>>, a: int, b: int)
    requires
        0 <= a < rows.len(),
        0 <= b < rows.len(),
        a != b,
        rows[a] == rows[b],
        distinct_items(rows[a]),
        square_sum(rows[a]) != 0,
    ensures
        forall|p: int|
            0 <= p < similarity_scores(rows, rows[a], Some(a)).len() ==> (
            #[trigger] similarity_scores(rows, rows[a], Some(a))[p]).0 != a,
        similarity_scores(rows, rows[a], Some(a)).contains((b, SCORE_ONE as int)),
{
    let row = rows[a];
    lemma_scored_rows(rows, row, Some(a), rows.len() as int);
    lemma_row_is_scored(rows, row, Some(a), rows.len() as int, b);
    lemma_row_dot_self(row, row.len() as int);
    assert(row.take(row.len() as int) =~= row);
    lemma_square_sum_zero(row);
    lemma_cosine_of_equal(square_sum(row));
}

} // verus!
