//! The recommendation pipeline: norms, similarities, neighbours, predictions
//! and their ranking.
use vstd::prelude::*;
use crate::matrix::{row_bounded, row_nonnegative, row_view, RatingMatrix, MAX_ITEMS, MAX_RATING};
use crate::movies::{lemma_query_entries, query_entries, RecoQuery};
use crate::prediction::{
    item_ids, lemma_predictions_ascending, lemma_predictions_skip, neighbors_wf, predict,
    predictable, predictions_upto,
};
use crate::rows::{lemma_row_len, lemma_square_sum_zero, square_sum, value_sum};
use crate::selection::{
    at_least, discard_below, lemma_ranked, lemma_ranked_names_once, option_score, rank, ranked,
    select_top_k, top_k,
};
use crate::similarity::{option_int, query_wf, similarities, similarity_scores, SCORE_ONE};
use crate::sparse::{row_wf, rows_wf};

verus! {

/// The square sum of an executable row.
pub fn row_square_sum(row: &Vec<(usize, i64)>) -> (s: u128)
    requires
        row@.len() <= MAX_ITEMS,
        row_bounded(row_view(row@), MAX_RATING as int),
    ensures
        s == square_sum(row_view(row@)),
{
    let mut s: u128 = 0;
    let mut p: usize = 0;
    let ghost full = row_view(row@);
    while p < row.len()
        invariant
            p <= row@.len(),
            row@.len() <= MAX_ITEMS,
            full == row_view(row@),
            row_bounded(full, MAX_RATING as int),
            s == square_sum(full.take(p as int)),
            s <= p * 65_025_000_000_000_000,
        decreases row@.len() - p,
    {
        let v = row[p].1 as i128;
        proof {
            let next = full.take(p + 1);
            assert(next.drop_last() =~= full.take(p as int));
            assert(next.last() == full[p as int]);
            assert(-255_000_000 <= full[p as int].1 <= 255_000_000);
            assert(0 <= v * v <= 65_025_000_000_000_000) by (nonlinear_arith)
                requires
                    -255_000_000 <= v <= 255_000_000,
            ;
        }
        s = s + (v * v) as u128;
        p += 1;
    }
    assert(full.take(row@.len() as int) =~= full);
    s
}

/// The norm calculator. For each row the square of its Euclidean norm, the
/// sum of the squares of its stored ratings; kept squared, it is exact. The
/// norm of a row is zero exactly when the row stores no rating other than
/// zero.
pub fn compute_norms(matrix: &RatingMatrix) -> (norms: Vec<u128>)
    requires
        matrix.wf(),
    ensures
        norms@.len() == matrix@.len(),
        forall|i: int| 0 <= i < norms@.len() ==> #[trigger] norms@[i] == square_sum(matrix@[i]),
        forall|i: int|
            0 <= i < norms@.len() ==> (#[trigger] norms@[i] == 0 <==> forall|p: int|
                0 <= p < matrix@[i].len() ==> (#[trigger] matrix@[i][p]).1 == 0),
{
    let n = matrix.nrows();
    let mut norms: Vec<u128> = Vec::new();
    let mut i: usize = 0;
    while i < n
        invariant
            matrix.wf(),
            n == matrix@.len(),
            i <= n,
            norms@.len() == i,
            forall|r: int| 0 <= r < i ==> #[trigger] norms@[r] == square_sum(matrix@[r]),
        decreases n - i,
    {
        let row = matrix.row(i);
        proof {
            lemma_row_len(matrix@[i as int], matrix.items());
        }
        let s = row_square_sum(&row);
        norms.push(s);
        i += 1;
    }
    proof {
        assert forall|r: int| 0 <= r < norms@.len() implies (#[trigger] norms@[r] == 0 <==> forall|
            p: int,
        |
            0 <= p < matrix@[r].len() ==> (#[trigger] matrix@[r][p]).1 == 0) by {
            lemma_square_sum_zero(matrix@[r]);
        }
    }
    norms
}

/// The norm of a row is never negative, and zero exactly when every stored
/// value of the row is zero.
pub proof fn lemma_norm_zero_iff_no_rating(row: Seq<(int, int)>)
    ensures
        square_sum(row) >= 0,
        square_sum(row) == 0 <==> forall|p: int| 0 <= p < row.len() ==> (#[trigger] row[p]).1 == 0,
{
    lemma_square_sum_zero(row);
}

/// The mean of the stored values of a row; zero for a row that stores
/// nothing. The values are in millionths of a rating step, and so is the mean:
/// it is the real mean rounded down by less than one millionth.
pub open spec fn row_mean(row: Seq<(int, int)>) -> int {
    if row.len() == 0 {
        0
    } else {
        value_sum(row) / (row.len() as int)
    }
}

/// The row with `by` taken off every stored value.
pub open spec fn lowered(row: Seq<(int, int)>, by: int) -> Seq<(int, int)> {
    Seq::new(row.len(), |p: int| (row[p].0, row[p].1 - by))
}

/// The row with its mean taken off every stored value.
pub open spec fn centered(row: Seq<(int, int)>) -> Seq<(int, int)> {
    lowered(row, row_mean(row))
}

/// Lowering every value by `by` lowers the sum by `by` for each value.
proof fn lemma_value_sum_lowered(row: Seq<(int, int)>, by: int)
    ensures
        value_sum(lowered(row, by)) == value_sum(row) - row.len() * by,
    decreases row.len(),
{
    if row.len() > 0 {
        let init = row.drop_last();
        assert(lowered(row, by).drop_last() =~= lowered(init, by));
        lemma_value_sum_lowered(init, by);
        assert(row.len() * by == init.len() * by + by) by (nonlinear_arith)
            requires
                row.len() == init.len() + 1,
        ;
    }
}

/// A centred value is the value minus the mean of the row's ratings, to
/// within one millionth of a rating step: `len` times the new value is `len`
/// times the old one minus the sum of the row, and less than `len` more.
pub proof fn lemma_centered_is_value_minus_mean(row: Seq<(int, int)>, p: int)
    requires
        0 <= p < row.len(),
    ensures
        centered(row)[p].0 == row[p].0,
        row.len() * row[p].1 - value_sum(row) <= row.len() * centered(row)[p].1 < row.len()
            * row[p].1 - value_sum(row) + row.len(),
{
    let n = row.len() as int;
    let sum = value_sum(row);
    let v = row[p].1;
    let mean = row_mean(row);
    assert(n * mean <= sum < n * mean + n) by (nonlinear_arith)
        requires
            n > 0,
            mean == sum / n,
    ;
    assert(n * (v - mean) == n * v - n * mean) by (nonlinear_arith);
}

/// A centred row sums to zero, to within one millionth of a rating step for
/// each of its ratings.
pub proof fn lemma_centered_sums_to_zero(row: Seq<(int, int)>)
    ensures
        0 <= value_sum(centered(row)) <= row.len(),
        row.len() > 0 ==> value_sum(centered(row)) < row.len(),
{
    if row.len() > 0 {
        let n = row.len() as int;
        let sum = value_sum(row);
        let mean = row_mean(row);
        lemma_value_sum_lowered(row, mean);
        assert(n * mean <= sum < n * mean + n) by (nonlinear_arith)
            requires
                n > 0,
                mean == sum / n,
        ;
    } else {
        assert(centered(row) =~= row);
    }
}

/// Centring a centred row changes nothing: its mean, rounded down, is zero.
pub proof fn lemma_centering_idempotent(row: Seq<(int, int)>)
    ensures
        row_mean(centered(row)) == 0,
        centered(centered(row)) == centered(row),
{
    let once = centered(row);
    if row.len() > 0 {
        let n = row.len() as int;
        let sum = value_sum(row);
        lemma_value_sum_lowered(row, row_mean(row));
        assert(sum - n * (sum / n) == sum % n) by (nonlinear_arith)
            requires
                n > 0,
        ;
        assert((sum % n) / n == 0) by (nonlinear_arith)
            requires
                n > 0,
        ;
    }
    assert(lowered(once, 0) =~= once);
}

/// The sum of the values of an executable row.
fn row_value_sum(row: &Vec<(usize, i64)>) -> (s: i64)
    requires
        row@.len() <= MAX_ITEMS,
        row_bounded(row_view(row@), MAX_RATING as int),
        row_nonnegative(row_view(row@)),
    ensures
        s == value_sum(row_view(row@)),
        0 <= s <= 255_000_000 * row@.len(),
{
    let mut s: i64 = 0;
    let mut p: usize = 0;
    let ghost full = row_view(row@);
    while p < row.len()
        invariant
            p <= row@.len(),
            row@.len() <= MAX_ITEMS,
            full == row_view(row@),
            row_bounded(full, MAX_RATING as int),
            row_nonnegative(full),
            s == value_sum(full.take(p as int)),
            0 <= s <= 255_000_000 * p,
        decreases row@.len() - p,
    {
        proof {
            let next = full.take(p + 1);
            assert(next.drop_last() =~= full.take(p as int));
            assert(next.last() == full[p as int]);
            assert(0 <= full[p as int].1 <= 255_000_000);
        }
        s = s + row[p].1;
        p += 1;
    }
    assert(full.take(row@.len() as int) =~= full);
    s
}

/// The normalizer. Takes from every stored rating of a row the mean of the
/// stored ratings of that row; a row that stores nothing stays as it is. The
/// ratings are in millionths of a rating step and the mean is rounded down to
/// one, so a centred row sums to zero to within a millionth for each rating.
/// A matrix that is centred already is left alone, so centring twice is
/// centring once.
pub fn normalize_matrix(matrix: &mut RatingMatrix)
    requires
        old(matrix).wf(),
    ensures
        final(matrix).wf(),
        final(matrix).is_centered(),
        final(matrix).items() == old(matrix).items(),
        final(matrix)@.len() == old(matrix)@.len(),
        old(matrix).is_centered() ==> final(matrix)@ == old(matrix)@,
        !old(matrix).is_centered() ==> forall|i: int|
            0 <= i < old(matrix)@.len() ==> #[trigger] final(matrix)@[i] == centered(old(matrix)@[i]),
        !old(matrix).is_centered() ==> forall|i: int|
            0 <= i < old(matrix)@.len() ==> 0 <= value_sum(#[trigger] final(matrix)@[i])
                <= old(matrix)@[i].len(),
{
    if matrix.centered() {
        return ;
    }
    let ghost before = matrix@;
    let ghost items = matrix.items();
    let n = matrix.nrows();
    let mut i: usize = 0;
    while i < n
        invariant
            i <= n,
            n == before.len(),
            matrix@.len() == before.len(),
            matrix.items() == items,
            !matrix.is_centered(),
            rows_wf(before, items),
            0 <= items <= MAX_ITEMS,
            forall|r: int| 0 <= r < before.len() ==> row_bounded(#[trigger] before[r], MAX_RATING as int),
            forall|r: int| 0 <= r < before.len() ==> row_nonnegative(#[trigger] before[r]),
            forall|r: int| 0 <= r < i ==> #[trigger] matrix@[r] == centered(before[r]),
            forall|r: int| i <= r < n ==> #[trigger] matrix@[r] == before[r],
        decreases n - i,
    {
        let row = matrix.row(i);
        let ghost rv = before[i as int];
        proof {
            assert(matrix@[i as int] == rv);
            assert(row_wf(rv, items));
            lemma_row_len(rv, items);
        }
        if row.len() > 0 {
            let sum = row_value_sum(&row);
            let mean = sum / (row.len() as i64);
            assert(0 <= mean <= 255_000_000) by (nonlinear_arith)
                requires
                    mean == (sum as int) / (row@.len() as int),
                    0 <= sum <= 255_000_000 * row@.len(),
                    row@.len() > 0,
            ;
            let mut values: Vec<i128> = Vec::new();
            let mut p: usize = 0;
            while p < row.len()
                invariant
                    p <= row@.len(),
                    values@.len() == p,
                    row_view(row@) == rv,
                    row_bounded(rv, MAX_RATING as int),
                    0 <= mean <= 255_000_000,
                    forall|q: int| 0 <= q < p ==> #[trigger] values@[q] == rv[q].1 - mean,
                decreases row@.len() - p,
            {
                assert(rv[p as int] == (row@[p as int].0 as int, row@[p as int].1 as int));
                assert(-255_000_000 <= rv[p as int].1 <= 255_000_000);
                values.push((row[p].1 - mean) as i128);
                p += 1;
            }
            matrix.replace_row_values(i, &values);
            assert(mean == row_mean(rv));
            assert(matrix@[i as int] =~= centered(rv));
        } else {
            assert(matrix@[i as int] =~= centered(rv));
        }
        i += 1;
    }
    matrix.mark_centered();
    proof {
        assert forall|r: int| 0 <= r < matrix@.len() implies row_wf(#[trigger] matrix@[r], items)
            && row_bounded(matrix@[r], MAX_RATING as int) && 0 <= value_sum(matrix@[r])
            <= before[r].len() by {
            let src = before[r];
            let out = matrix@[r];
            assert(out == centered(src));
            lemma_centered_sums_to_zero(src);
            assert(row_wf(src, items));
            assert(row_bounded(src, MAX_RATING as int));
            assert(row_nonnegative(src));
            lemma_mean_within(src);
            assert forall|p: int| 0 <= p < out.len() implies -255_000_000 <= (#[trigger] out[p]).1
                <= 255_000_000 by {
                assert(0 <= src[p].1 <= 255_000_000);
            }
            assert forall|p: int| 0 <= p < out.len() implies 0 <= (#[trigger] out[p]).0 < items by {
                assert(0 <= src[p].0 < items);
            }
            assert forall|p: int, q: int| 0 <= p < q < out.len() implies (#[trigger] out[p]).0 < (
            #[trigger] out[q]).0 by {
                assert(src[p].0 < src[q].0);
            }
        }
    }
}

/// The mean of ratings between zero and the largest rating lies there too.
proof fn lemma_mean_within(row: Seq<(int, int)>)
    requires
        row_bounded(row, MAX_RATING as int),
        row_nonnegative(row),
    ensures
        0 <= row_mean(row) <= MAX_RATING,
{
    lemma_value_sum_within(row);
    if row.len() > 0 {
        let sum = value_sum(row);
        let n = row.len() as int;
        assert(0 <= sum / n <= 255_000_000) by (nonlinear_arith)
            requires
                0 <= sum <= 255_000_000 * n,
                n > 0,
        ;
    }
}

/// The sum of ratings between zero and the largest rating is at most the
/// largest rating for each.
proof fn lemma_value_sum_within(row: Seq<(int, int)>)
    requires
        row_bounded(row, MAX_RATING as int),
        row_nonnegative(row),
    ensures
        0 <= value_sum(row) <= 255_000_000 * row.len(),
    decreases row.len(),
{
    if row.len() > 0 {
        let init = row.drop_last();
        assert(forall|q: int| 0 <= q < init.len() ==> init[q] == row[q]);
        assert(0 <= row[row.len() - 1].1 <= 255_000_000);
        lemma_value_sum_within(init);
    }
}

/// The number of neighbours that `get_recommendations` keeps.
pub const NEIGHBORS: usize = 10000;

/// The items of a query.
pub open spec fn items_of(query: Seq<(int, int)>) -> Seq<int> {
    Seq::new(query.len(), |p: int| query[p].0)
}

/// The recommendations for a query: the predictions from its `k` nearest
/// neighbours, none of them less similar than `minimum`, for the items it
/// does not hold, ranked.
pub open spec fn recommendations(
    rows: Seq<Seq<(int, int)>>,
    items: int,
    query: Seq<(int, int)>,
    skip: Option<int>,
    k: int,
    minimum: Option<int>,
) -> Seq<(int, int)> {
    ranked(
        predictions_upto(
            rows,
            top_k(at_least(similarity_scores(rows, query, skip), minimum), k),
            items_of(query),
            items,
        ),
    )
}

/// No item occurs twice among the recommendations.
pub proof fn lemma_recommendations_name_once(
    rows: Seq<Seq<(int, int)>>,
    items: int,
    query: Seq<(int, int)>,
    skip: Option<int>,
    k: int,
    minimum: Option<int>,
)
    ensures
        forall|p: int, q: int|
            0 <= p < q < recommendations(rows, items, query, skip, k, minimum).len() ==> (
            #[trigger] recommendations(rows, items, query, skip, k, minimum)[p]).0 != (
            #[trigger] recommendations(rows, items, query, skip, k, minimum)[q]).0,
{
    let neighbors = top_k(at_least(similarity_scores(rows, query, skip), minimum), k);
    let predictions = predictions_upto(rows, neighbors, items_of(query), items);
    lemma_predictions_ascending(rows, neighbors, items_of(query), items);
    lemma_ranked_names_once(predictions);
}

/// Without neighbours there is no prediction.
pub proof fn lemma_no_neighbors(rows: Seq<Seq<(int, int)>>, exclude: Seq<int>, items: int)
    requires
        0 <= items,
    ensures
        predictions_upto(rows, Seq::empty(), exclude, items) == Seq::<(int, int)>::empty(),
{
    let none = Seq::<(int, int)>::empty();
    assert forall|j: int| 0 <= j < items implies !#[trigger] predictable(rows, none, exclude, j) by {}
    lemma_predictions_skip(rows, none, exclude, 0, items);
}

/// A query that holds no rating other than zero gets no recommendations.
pub proof fn lemma_empty_query(
    rows: Seq<Seq<(int, int)>>,
    items: int,
    query: Seq<(int, int)>,
    skip: Option<int>,
    k: int,
    minimum: Option<int>,
)
    requires
        0 <= items,
        0 <= k,
        square_sum(query) == 0,
    ensures
        recommendations(rows, items, query, skip, k, minimum) == Seq::<(int, int)>::empty(),
{
    let none = Seq::<(int, int)>::empty();
    assert(at_least(none, minimum) =~= none);
    assert(top_k(none, k) =~= none);
    lemma_no_neighbors(rows, items_of(query), items);
    assert(ranked(none) =~= none);
}

/// Recommends items for a query: scores it against every row, discards the
/// rows less similar than `minimum_similarity`, keeps the `k` nearest
/// neighbours, predicts from them every item that the query does not hold,
/// and ranks the predictions, highest first.
pub fn recommend(
    matrix: &RatingMatrix,
    norms: &Vec<u128>,
    query: &Vec<(usize, i64)>,
    query_self_index: Option<usize>,
    k: usize,
    minimum_similarity: Option<i64>,
) -> (ranking: Vec<(usize, i64)>)
    requires
        matrix.wf(),
        norms@.len() == matrix@.len(),
        forall|i: int| 0 <= i < norms@.len() ==> #[trigger] norms@[i] == square_sum(matrix@[i]),
        query_wf(row_view(query@), matrix.items()),
    ensures
        row_view(ranking@) == recommendations(
            matrix@,
            matrix.items(),
            row_view(query@),
            option_int(query_self_index),
            k as int,
            option_score(minimum_similarity),
        ),
        square_sum(row_view(query@)) == 0 ==> ranking@.len() == 0,
        forall|p: int| 0 <= p < ranking@.len() ==> (#[trigger] ranking@[p]).0 < matrix.items(),
{
    let scores = similarities(matrix, norms, query, query_self_index);
    let similar = discard_below(&scores, minimum_similarity);
    let neighbors = select_top_k(&similar, k);
    let mut held: Vec<usize> = Vec::new();
    let mut p: usize = 0;
    while p < query.len()
        invariant
            p <= query@.len(),
            held@.len() == p,
            forall|q: int| 0 <= q < p ==> #[trigger] held@[q] == query@[q].0,
        decreases query@.len() - p,
    {
        held.push(query[p].0);
        p += 1;
    }
    proof {
        assert(item_ids(held@) =~= items_of(row_view(query@)));
        let nv = row_view(neighbors@);
        assert forall|x: int| 0 <= x < nv.len() implies 0 <= (#[trigger] nv[x]).0 < matrix@.len()
            && -SCORE_ONE <= nv[x].1 <= SCORE_ONE by {
            assert(similar@.contains(neighbors@[x]));
            let z = choose|z: int| 0 <= z < similar@.len() && similar@[z] == neighbors@[x];
            assert(scores@.contains(similar@[z]));
            let y = choose|y: int| 0 <= y < scores@.len() && scores@[y] == neighbors@[x];
            assert(scores@[y].0 < matrix@.len());
        }
        assert(neighbors_wf(nv, matrix@.len() as int));
    }
    let predictions = predict(matrix, &neighbors, &held);
    let ranking = rank(&predictions);
    proof {
        if square_sum(row_view(query@)) == 0 {
            lemma_empty_query(
                matrix@,
                matrix.items(),
                row_view(query@),
                option_int(query_self_index),
                k as int,
                option_score(minimum_similarity),
            );
            assert(row_view(ranking@).len() == ranking@.len());
        }
        let rv = row_view(ranking@);
        let pv = row_view(predictions@);
        lemma_ranked(pv);
        assert forall|x: int| 0 <= x < ranking@.len() implies (#[trigger] ranking@[x]).0
            < matrix.items() by {
            broadcast use vstd::seq_lib::group_to_multiset_ensures;

            assert(rv[x] == (ranking@[x].0 as int, ranking@[x].1 as int));
            assert(rv.contains(rv[x]));
            assert(rv.to_multiset().count(rv[x]) > 0);
            assert(pv.to_multiset().count(rv[x]) > 0);
            assert(pv.contains(rv[x]));
            let y = choose|y: int| 0 <= y < pv.len() && pv[y] == rv[x];
            assert(pv[y] == (predictions@[y].0 as int, predictions@[y].1 as int));
        }
    }
    ranking
}

/// Recommends items for the user of row `to_predict`, from that user's
/// `NEIGHBORS` nearest neighbours, however similar. The user is never its own
/// neighbour, and no item that the user has rated is recommended.
pub fn get_recommendations(matrix: &RatingMatrix, norms: &Vec<u128>, to_predict: usize) -> (ranking:
    Vec<(usize, i64)>)
    requires
        matrix.wf(),
        norms@.len() == matrix@.len(),
        forall|i: int| 0 <= i < norms@.len() ==> #[trigger] norms@[i] == square_sum(matrix@[i]),
        to_predict < matrix@.len(),
    ensures
        row_view(ranking@) == recommendations(
            matrix@,
            matrix.items(),
            matrix@[to_predict as int],
            Some(to_predict as int),
            NEIGHBORS as int,
            None,
        ),
        square_sum(matrix@[to_predict as int]) == 0 ==> ranking@.len() == 0,
        forall|p: int| 0 <= p < ranking@.len() ==> (#[trigger] ranking@[p]).0 < matrix.items(),
{
    let query = matrix.row(to_predict);
    proof {
        let qv = matrix@[to_predict as int];
        assert(row_wf(qv, matrix.items()));
        assert(row_bounded(qv, MAX_RATING as int));
        lemma_row_len(qv, matrix.items());
    }
    recommend(matrix, norms, &query, Some(to_predict), NEIGHBORS, None)
}

/// Recommends items for a user who has no row in the matrix, from the
/// ratings of the query and `NEIGHBORS` nearest neighbours. Ratings of items
/// that the matrix does not have are left out of the query; the others are
/// taken as they are, not centred.
pub fn recommend_for_query(matrix: &RatingMatrix, norms: &Vec<u128>, query: &RecoQuery) -> (ranking:
    Vec<(usize, i64)>)
    requires
        matrix.wf(),
        norms@.len() == matrix@.len(),
        forall|i: int| 0 <= i < norms@.len() ==> #[trigger] norms@[i] == square_sum(matrix@[i]),
    ensures
        row_view(ranking@) == recommendations(
            matrix@,
            matrix.items(),
            query_entries(query.ratings@, matrix.items()),
            None,
            NEIGHBORS as int,
            None,
        ),
        square_sum(query_entries(query.ratings@, matrix.items())) == 0 ==> ranking@.len() == 0,
        forall|p: int| 0 <= p < ranking@.len() ==> (#[trigger] ranking@[p]).0 < matrix.items(),
{
    let entries = query.query_vector(matrix.ncols());
    proof {
        lemma_query_entries(query.ratings@, matrix.items());
    }
    recommend(matrix, norms, &entries, None, NEIGHBORS, None)
}

} // verus!
