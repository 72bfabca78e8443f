//! The prediction aggregator: for each item that a neighbour rated, the
//! average of the neighbours' ratings of it, weighted by their similarity.
use vstd::prelude::*;
use nalgebra_sparse::coo::CooMatrix;
use nalgebra_sparse::csr::CsrMatrix;
use crate::fixed::div_toward_zero;
use crate::matrix::{row_bounded, row_view, RatingMatrix, MAX_RATING, MAX_USERS};
use crate::rows::{
    distinct_items, lemma_row_value_absent, lemma_row_value_at, lemma_row_value_bounded,
};
use crate::similarity::SCORE_ONE;
use crate::sparse::{
    abs, coo_new, coo_push, coo_shape, coo_triplets, csr_from_coo, csr_mul, csr_ncols,
    csr_row_cols, csr_row_values, csr_rows, distinct_positions, product_cell, product_cell_abs,
    product_has, row_has, row_value, row_wf, rows_wf, stored_count,
};

verus! {

/// The sum, over the neighbours that rated `item`, of score times rating.
pub open spec fn weighted_sum(
    rows: Seq<Seq<(int, int)>>,
    neighbors: Seq<(int, int)>,
    item: int,
) -> int
    decreases neighbors.len(),
{
    if neighbors.len() == 0 {
        0
    } else {
        weighted_sum(rows, neighbors.drop_last(), item) + neighbors.last().1 * row_value(
            rows[neighbors.last().0],
            item,
        )
    }
}

/// The sum of the absolute scores of exactly the neighbours that rated
/// `item`.
pub open spec fn weight_sum(rows: Seq<Seq<(int, int)>>, neighbors: Seq<(int, int)>, item: int) -> int
    decreases neighbors.len(),
{
    if neighbors.len() == 0 {
        0
    } else {
        weight_sum(rows, neighbors.drop_last(), item) + if row_has(
            rows[neighbors.last().0],
            item,
        ) {
            abs(neighbors.last().1)
        } else {
            0
        }
    }
}

/// Whether some neighbour rated `item`.
pub open spec fn touched(rows: Seq<Seq<(int, int)>>, neighbors: Seq<(int, int)>, item: int) -> bool {
    exists|p: int| 0 <= p < neighbors.len() && row_has(rows[(#[trigger] neighbors[p]).0], item)
}

/// The predicted score of `item`: the weighted sum over the sum of the
/// weights, rounded toward zero. It is in millionths of a rating step, as the
/// ratings are.
pub open spec fn predicted(rows: Seq<Seq<(int, int)>>, neighbors: Seq<(int, int)>, item: int) -> int {
    div_toward_zero(weighted_sum(rows, neighbors, item), weight_sum(rows, neighbors, item))
}

/// The items of an executable list, as the mathematical items they stand for.
pub open spec fn item_ids(items: Seq<usize>) -> Seq<int> {
    Seq::new(items.len(), |p: int| items[p] as int)
}

/// Whether `item` is among the excluded items.
pub open spec fn excluded(exclude: Seq<int>, item: int) -> bool {
    exists|p: int| 0 <= p < exclude.len() && #[trigger] exclude[p] == item
}

/// Whether `item` gets a prediction: a neighbour rated it, the weights of
/// those who did do not add up to zero, and it is not excluded.
pub open spec fn predictable(
    rows: Seq<Seq<(int, int)>>,
    neighbors: Seq<(int, int)>,
    exclude: Seq<int>,
    item: int,
) -> bool {
    touched(rows, neighbors, item) && weight_sum(rows, neighbors, item) != 0 && !excluded(
        exclude,
        item,
    )
}

/// The predictions for the items below `n`, items ascending.
pub open spec fn predictions_upto(
    rows: Seq<Seq<(int, int)>>,
    neighbors: Seq<(int, int)>,
    exclude: Seq<int>,
    n: int,
) -> Seq<(int, int)>
    decreases n,
{
    if n <= 0 {
        Seq::empty()
    } else if predictable(rows, neighbors, exclude, n - 1) {
        predictions_upto(rows, neighbors, exclude, n - 1).push(
            (n - 1, predicted(rows, neighbors, n - 1)),
        )
    } else {
        predictions_upto(rows, neighbors, exclude, n - 1)
    }
}

/// The predictions name items below `n`, items ascending, so none twice.
pub proof fn lemma_predictions_ascending(
    rows: Seq<Seq<(int, int)>>,
    neighbors: Seq<(int, int)>,
    exclude: Seq<int>,
    n: int,
)
    ensures
        forall|p: int|
            0 <= p < predictions_upto(rows, neighbors, exclude, n).len() ==> 0 <= (
            #[trigger] predictions_upto(rows, neighbors, exclude, n)[p]).0 < n,
        forall|p: int, q: int|
            0 <= p < q < predictions_upto(rows, neighbors, exclude, n).len() ==> (
            #[trigger] predictions_upto(rows, neighbors, exclude, n)[p]).0 < (
            #[trigger] predictions_upto(rows, neighbors, exclude, n)[q]).0,
    decreases n,
{
    if n > 0 {
        lemma_predictions_ascending(rows, neighbors, exclude, n - 1);
        let before = predictions_upto(rows, neighbors, exclude, n - 1);
        let all = predictions_upto(rows, neighbors, exclude, n);
        assert forall|p: int| 0 <= p < all.len() implies 0 <= (#[trigger] all[p]).0 < n by {
            if p < before.len() {
                assert(all[p] == before[p]);
            }
        }
        assert forall|p: int, q: int| 0 <= p < q < all.len() implies (#[trigger] all[p]).0 < (
        #[trigger] all[q]).0 by {
            assert(all[p] == before[p]);
            if q < before.len() {
                assert(all[q] == before[q]);
            }
        }
    }
}

/// What a neighbour set must be: users of the matrix, scores within one.
pub open spec fn neighbors_wf(neighbors: Seq<(int, int)>, users: int) -> bool {
    &&& neighbors.len() <= MAX_USERS
    &&& forall|p: int| 0 <= p < neighbors.len() ==> 0 <= (#[trigger] neighbors[p]).0 < users
    &&& forall|p: int| 0 <= p < neighbors.len() ==> -SCORE_ONE <= (#[trigger] neighbors[p]).1 <= SCORE_ONE
}

/// Two rows without repeated items that hold the same entries read the same
/// at every item.
proof fn lemma_same_entries(a: Seq<(int, int)>, b: Seq<(int, int)>, j: int)
    requires
        distinct_items(a),
        distinct_items(b),
        forall|c: int, v: int| a.contains((c, v)) <==> b.contains((c, v)),
    ensures
        row_has(a, j) == row_has(b, j),
        row_value(a, j) == row_value(b, j),
{
    if row_has(a, j) {
        let p = choose|p: int| 0 <= p < a.len() && (#[trigger] a[p]).0 == j;
        assert(a[p] == (j, a[p].1));
        assert(a.contains((j, a[p].1)));
        assert(b.contains((j, a[p].1)));
        let x = choose|x: int| 0 <= x < b.len() && b[x] == (j, a[p].1);
        assert(b[x].0 == j);
        lemma_row_value_at(a, p);
        lemma_row_value_at(b, x);
    } else {
        if row_has(b, j) {
            let x = choose|x: int| 0 <= x < b.len() && (#[trigger] b[x]).0 == j;
            assert(b[x] == (j, b[x].1));
            assert(b.contains((j, b[x].1)));
            assert(a.contains((j, b[x].1)));
            let p = choose|p: int| 0 <= p < a.len() && a[p] == (j, b[x].1);
            assert(a[p].0 == j);
            assert(false);
        }
        lemma_row_value_absent(a, j);
        lemma_row_value_absent(b, j);
    }
}

/// A row that marks with one the items of another reads one where the other
/// stores an entry, zero elsewhere.
proof fn lemma_marks(a: Seq<(int, int)>, b: Seq<(int, int)>, j: int)
    requires
        distinct_items(a),
        forall|c: int, v: int| a.contains((c, v)) <==> (v == 1 && row_has(b, c)),
    ensures
        row_has(a, j) == row_has(b, j),
        row_value(a, j) == if row_has(b, j) {
            1int
        } else {
            0int
        },
{
    if row_has(b, j) {
        assert(a.contains((j, 1int)));
        let x = choose|x: int| 0 <= x < a.len() && a[x] == (j, 1int);
        assert(a[x].0 == j);
        lemma_row_value_at(a, x);
    } else {
        if row_has(a, j) {
            let x = choose|x: int| 0 <= x < a.len() && (#[trigger] a[x]).0 == j;
            assert(a[x] == (j, a[x].1));
            assert(a.contains((j, a[x].1)));
            assert(false);
        }
        lemma_row_value_absent(a, j);
    }
}

/// Ascending columns are at least their place.
proof fn lemma_ascending_lower(w: Seq<(int, int)>, n: int, p: int)
    requires
        row_wf(w, n),
        0 <= p < w.len(),
    ensures
        p <= w[p].0,
    decreases p,
{
    if p > 0 {
        lemma_ascending_lower(w, n, p - 1);
        assert(w[p - 1].0 < w[p].0);
    }
}

/// Ascending columns below `n` are at most as far from `n` as their place
/// is from the end.
proof fn lemma_ascending_upper(w: Seq<(int, int)>, n: int, p: int)
    requires
        row_wf(w, n),
        0 <= p < w.len(),
    ensures
        w[p].0 <= n - (w.len() - p),
    decreases w.len() - p,
{
    if p < w.len() - 1 {
        lemma_ascending_upper(w, n, p + 1);
        assert(w[p].0 < w[p + 1].0);
    }
}

/// A well-formed row with as many entries as columns stores every column,
/// in order.
proof fn lemma_full_row(w: Seq<(int, int)>, n: int)
    requires
        row_wf(w, n),
        w.len() == n,
    ensures
        forall|p: int| 0 <= p < n ==> (#[trigger] w[p]).0 == p,
{
    assert forall|p: int| 0 <= p < n implies (#[trigger] w[p]).0 == p by {
        lemma_ascending_lower(w, n, p);
        lemma_ascending_upper(w, n, p);
    }
}

/// The sum, over the first `n` entries `(p, s)` of `w`, of `s` times the
/// value of row `p` of `right` at column `j`.
spec fn sum_of_products(w: Seq<(int, int)>, right: Seq<Seq<(int, int)>>, j: int, n: int) -> int
    decreases n,
{
    if n <= 0 {
        0
    } else {
        sum_of_products(w, right, j, n - 1) + w[n - 1].1 * row_value(right[n - 1], j)
    }
}

/// The product cell of a row that stores every column in order is that sum,
/// and the sum of absolute values is bounded where the scores and the values
/// on the right are.
proof fn lemma_product_is_sum(
    w: Seq<(int, int)>,
    right: Seq<Seq<(int, int)>>,
    j: int,
    n: int,
    limit: int,
)
    requires
        0 <= n <= w.len(),
        w.len() <= right.len(),
        0 <= limit,
        forall|p: int| 0 <= p < w.len() ==> (#[trigger] w[p]).0 == p,
        forall|p: int| 0 <= p < w.len() ==> -SCORE_ONE <= (#[trigger] w[p]).1 <= SCORE_ONE,
        forall|p: int| 0 <= p < w.len() ==> -limit <= #[trigger] row_value(right[p], j) <= limit,
    ensures
        product_cell(w.take(n), right, j) == sum_of_products(w, right, j, n),
        product_cell_abs(w.take(n), right, j) <= n * (SCORE_ONE * limit),
    decreases n,
{
    if n > 0 {
        let cur = w.take(n);
        assert(cur.drop_last() =~= w.take(n - 1));
        assert(cur.last() == w[n - 1]);
        lemma_product_is_sum(w, right, j, n - 1, limit);
        let s = w[n - 1].1;
        let v = row_value(right[n - 1], j);
        assert(abs(s) * abs(v) <= SCORE_ONE * limit) by (nonlinear_arith)
            requires
                0 <= abs(s) <= SCORE_ONE,
                0 <= abs(v) <= limit,
        ;
        assert(n * (SCORE_ONE * limit) == (n - 1) * (SCORE_ONE * limit) + SCORE_ONE * limit)
            by (nonlinear_arith);
    }
}

/// With the neighbours' rows on the right, that sum is the weighted sum.
proof fn lemma_sum_is_weighted(
    w: Seq<(int, int)>,
    right: Seq<Seq<(int, int)>>,
    rows: Seq<Seq<(int, int)>>,
    neighbors: Seq<(int, int)>,
    j: int,
    n: int,
)
    requires
        0 <= n <= neighbors.len(),
        w.len() == neighbors.len(),
        right.len() >= neighbors.len(),
        forall|p: int| 0 <= p < w.len() ==> (#[trigger] w[p]).1 == neighbors[p].1,
        forall|p: int|
            0 <= p < neighbors.len() ==> #[trigger] row_value(right[p], j) == row_value(
                rows[neighbors[p].0],
                j,
            ),
    ensures
        sum_of_products(w, right, j, n) == weighted_sum(rows, neighbors.take(n), j),
    decreases n,
{
    if n > 0 {
        let cur = neighbors.take(n);
        assert(cur.drop_last() =~= neighbors.take(n - 1));
        assert(cur.last() == neighbors[n - 1]);
        assert(row_value(right[n - 1], j) == row_value(rows[neighbors[n - 1].0], j));
        lemma_sum_is_weighted(w, right, rows, neighbors, j, n - 1);
    }
}

/// With the marks on the right and the absolute scores on the left, that sum
/// is the sum of the weights.
proof fn lemma_sum_is_weight(
    w: Seq<(int, int)>,
    right: Seq<Seq<(int, int)>>,
    rows: Seq<Seq<(int, int)>>,
    neighbors: Seq<(int, int)>,
    j: int,
    n: int,
)
    requires
        0 <= n <= neighbors.len(),
        w.len() == neighbors.len(),
        right.len() >= neighbors.len(),
        forall|p: int| 0 <= p < w.len() ==> (#[trigger] w[p]).1 == abs(neighbors[p].1),
        forall|p: int|
            0 <= p < neighbors.len() ==> #[trigger] row_value(right[p], j) == if row_has(
                rows[neighbors[p].0],
                j,
            ) {
                1int
            } else {
                0int
            },
    ensures
        sum_of_products(w, right, j, n) == weight_sum(rows, neighbors.take(n), j),
        0 <= weight_sum(rows, neighbors.take(n), j),
    decreases n,
{
    if n > 0 {
        let cur = neighbors.take(n);
        assert(cur.drop_last() =~= neighbors.take(n - 1));
        assert(cur.last() == neighbors[n - 1]);
        let v = row_value(right[n - 1], j);
        assert(v == if row_has(rows[neighbors[n - 1].0], j) {
            1int
        } else {
            0int
        });
        lemma_times_mark(w[n - 1].1, v);
        lemma_sum_is_weight(w, right, rows, neighbors, j, n - 1);
    }
}

/// A score times a mark is the score or zero.
proof fn lemma_times_mark(s: int, v: int)
    requires
        v == 0 || v == 1,
    ensures
        s * v == if v == 1 {
            s
        } else {
            0
        },
{
}

/// The weighted sum is within the sum of the weights times the largest
/// rating.
pub proof fn lemma_weighted_within_weights(
    rows: Seq<Seq<(int, int)>>,
    neighbors: Seq<(int, int)>,
    item: int,
)
    requires
        forall|p: int|
            0 <= p < neighbors.len() ==> 0 <= (#[trigger] neighbors[p]).0 < rows.len(),
        forall|i: int| 0 <= i < rows.len() ==> row_bounded(#[trigger] rows[i], MAX_RATING as int),
    ensures
        0 <= weight_sum(rows, neighbors, item),
        abs(weighted_sum(rows, neighbors, item)) <= MAX_RATING * weight_sum(rows, neighbors, item),
    decreases neighbors.len(),
{
    if neighbors.len() > 0 {
        let init = neighbors.drop_last();
        let last = neighbors.last();
        assert(forall|p: int| 0 <= p < init.len() ==> init[p] == neighbors[p]);
        assert(neighbors[neighbors.len() - 1] == last);
        lemma_weighted_within_weights(rows, init, item);
        let row = rows[last.0];
        let v = row_value(row, item);
        assert(row_bounded(row, MAX_RATING as int));
        lemma_row_value_bounded(row, MAX_RATING as int, item);
        if row_has(row, item) {
            assert(abs(last.1 * v) <= 255_000_000 * abs(last.1)) by (nonlinear_arith)
                requires
                    -255_000_000 <= v <= 255_000_000,
            ;
        } else {
            lemma_row_value_absent(row, item);
            assert(last.1 * v == 0) by (nonlinear_arith)
                requires
                    v == 0,
            ;
        }
    }
}

/// Where the row stores an entry at `j` is where a neighbour rated `j`.
proof fn lemma_product_has_is_touched(
    w: Seq<(int, int)>,
    right: Seq<Seq<(int, int)>>,
    rows: Seq<Seq<(int, int)>>,
    neighbors: Seq<(int, int)>,
    j: int,
)
    requires
        w.len() == neighbors.len(),
        right.len() >= neighbors.len(),
        forall|p: int| 0 <= p < w.len() ==> (#[trigger] w[p]).0 == p,
        forall|p: int|
            0 <= p < neighbors.len() ==> row_has(#[trigger] right[p], j) == row_has(
                rows[neighbors[p].0],
                j,
            ),
    ensures
        product_has(w, right, j) == touched(rows, neighbors, j),
{
    if product_has(w, right, j) {
        let p = choose|p: int| 0 <= p < w.len() && row_has(right[(#[trigger] w[p]).0], j);
        assert(row_has(right[p], j));
        assert(row_has(rows[neighbors[p].0], j));
    }
    if touched(rows, neighbors, j) {
        let p = choose|p: int|
            0 <= p < neighbors.len() && row_has(rows[(#[trigger] neighbors[p]).0], j);
        assert(row_has(right[p], j));
        assert(row_has(right[w[p].0], j));
    }
}

/// Items that get no prediction add nothing.
pub proof fn lemma_predictions_skip(
    rows: Seq<Seq<(int, int)>>,
    neighbors: Seq<(int, int)>,
    exclude: Seq<int>,
    from: int,
    to: int,
)
    requires
        0 <= from <= to,
        forall|j: int| from <= j < to ==> !#[trigger] predictable(rows, neighbors, exclude, j),
    ensures
        predictions_upto(rows, neighbors, exclude, to) == predictions_upto(
            rows,
            neighbors,
            exclude,
            from,
        ),
    decreases to - from,
{
    if from < to {
        assert(!predictable(rows, neighbors, exclude, to - 1));
        lemma_predictions_skip(rows, neighbors, exclude, from, to - 1);
    }
}

/// For each item below `n`, whether it is among `exclude`.
fn exclusion_mask(exclude: &Vec<usize>, n: usize) -> (mask: Vec<bool>)
    ensures
        mask@.len() == n,
        forall|j: int| 0 <= j < n ==> #[trigger] mask@[j] == excluded(item_ids(exclude@), j),
{
    let mut mask: Vec<bool> = Vec::new();
    let mut j: usize = 0;
    while j < n
        invariant
            j <= n,
            mask@.len() == j,
            forall|x: int| 0 <= x < j ==> !#[trigger] mask@[x],
        decreases n - j,
    {
        mask.push(false);
        j += 1;
    }
    let mut p: usize = 0;
    while p < exclude.len()
        invariant
            p <= exclude@.len(),
            mask@.len() == n,
            forall|x: int|
                0 <= x < n ==> (#[trigger] mask@[x] <==> exists|q: int|
                    0 <= q < p && #[trigger] exclude@[q] == x),
        decreases exclude@.len() - p,
    {
        let item = exclude[p];
        if item < n {
            mask.set(item, true);
        }
        p += 1;
    }
    proof {
        let ids = item_ids(exclude@);
        assert forall|j: int| 0 <= j < n implies #[trigger] mask@[j] == excluded(ids, j) by {
            if mask@[j] {
                let q = choose|q: int| 0 <= q < exclude@.len() && #[trigger] exclude@[q] == j;
                assert(ids[q] == j);
            }
            if excluded(ids, j) {
                let q = choose|q: int| 0 <= q < ids.len() && #[trigger] ids[q] == j;
                assert(exclude@[q] == j);
            }
        }
    }
    mask
}

/// The values of a row at every column below `n`.
fn dense_row(cols: &Vec<usize>, vals: &Vec<i128>, n: usize, Ghost(row): Ghost<Seq<(int, int)>>) -> (dense:
    Vec<i128>)
    requires
        cols@.len() == row.len(),
        vals@.len() == row.len(),
        forall|p: int| 0 <= p < row.len() ==> (#[trigger] cols@[p]) as int == row[p].0,
        forall|p: int| 0 <= p < row.len() ==> (#[trigger] vals@[p]) as int == row[p].1,
        row_wf(row, n as int),
    ensures
        dense@.len() == n,
        forall|j: int| 0 <= j < n ==> (#[trigger] dense@[j]) as int == row_value(row, j),
{
    let mut dense: Vec<i128> = Vec::new();
    let mut j: usize = 0;
    while j < n
        invariant
            j <= n,
            dense@.len() == j,
            forall|x: int| 0 <= x < j ==> #[trigger] dense@[x] == 0,
        decreases n - j,
    {
        dense.push(0);
        j += 1;
    }
    let mut p: usize = 0;
    assert(row.take(0) =~= Seq::<(int, int)>::empty());
    while p < cols.len()
        invariant
            p <= row.len(),
            cols@.len() == row.len(),
            vals@.len() == row.len(),
            forall|q: int| 0 <= q < row.len() ==> (#[trigger] cols@[q]) as int == row[q].0,
            forall|q: int| 0 <= q < row.len() ==> (#[trigger] vals@[q]) as int == row[q].1,
            row_wf(row, n as int),
            dense@.len() == n,
            forall|x: int| 0 <= x < n ==> (#[trigger] dense@[x]) as int == row_value(row.take(p as int), x),
        decreases row.len() - p,
    {
        let c = cols[p];
        proof {
            let next = row.take(p + 1);
            assert(next.drop_last() =~= row.take(p as int));
            assert(next.last() == row[p as int]);
            assert(0 <= row[p as int].0 < n);
        }
        dense.set(c, vals[p]);
        p += 1;
    }
    assert(row.take(row.len() as int) =~= row);
    dense
}

/// Appends the entries of one neighbour's row as row `i` of the neighbours'
/// ratings, and a one at each of its items as row `i` of the marks.
fn push_row(ratings: &mut CooMatrix<i128>, marks: &mut CooMatrix<i128>, i: usize, row: &Vec<(usize, i64)>)
    requires
        coo_shape(*old(ratings)) == coo_shape(*old(marks)),
        i < coo_shape(*old(ratings)).0,
        forall|q: int| 0 <= q < row@.len() ==> (#[trigger] row@[q]).0 < coo_shape(*old(ratings)).1,
    ensures
        coo_shape(*final(ratings)) == coo_shape(*old(ratings)),
        coo_shape(*final(marks)) == coo_shape(*old(marks)),
        coo_triplets(*final(ratings)) == coo_triplets(*old(ratings)) + Seq::new(
            row@.len(),
            |q: int| (i as int, row@[q].0 as int, row@[q].1 as int),
        ),
        coo_triplets(*final(marks)) == coo_triplets(*old(marks)) + Seq::new(
            row@.len(),
            |q: int| (i as int, row@[q].0 as int, 1int),
        ),
{
    let mut p: usize = 0;
    assert(coo_triplets(*ratings) =~= coo_triplets(*old(ratings)) + Seq::new(
        0nat,
        |q: int| (i as int, row@[q].0 as int, row@[q].1 as int),
    ));
    assert(coo_triplets(*marks) =~= coo_triplets(*old(marks)) + Seq::new(
        0nat,
        |q: int| (i as int, row@[q].0 as int, 1int),
    ));
    while p < row.len()
        invariant
            p <= row@.len(),
            coo_shape(*ratings) == coo_shape(*old(ratings)),
            coo_shape(*marks) == coo_shape(*old(marks)),
            i < coo_shape(*old(ratings)).0,
            coo_shape(*old(ratings)) == coo_shape(*old(marks)),
            forall|q: int| 0 <= q < row@.len() ==> (#[trigger] row@[q]).0 < coo_shape(*old(ratings)).1,
            coo_triplets(*ratings) == coo_triplets(*old(ratings)) + Seq::new(
                p as nat,
                |q: int| (i as int, row@[q].0 as int, row@[q].1 as int),
            ),
            coo_triplets(*marks) == coo_triplets(*old(marks)) + Seq::new(
                p as nat,
                |q: int| (i as int, row@[q].0 as int, 1int),
            ),
        decreases row@.len() - p,
    {
        let entry = row[p];
        let ghost before_ratings = coo_triplets(*ratings);
        let ghost before_marks = coo_triplets(*marks);
        coo_push(ratings, i, entry.0, entry.1 as i128);
        coo_push(marks, i, entry.0, 1);
        p += 1;
        assert(coo_triplets(*ratings) =~= coo_triplets(*old(ratings)) + Seq::new(
            p as nat,
            |q: int| (i as int, row@[q].0 as int, row@[q].1 as int),
        ));
        assert(coo_triplets(*marks) =~= coo_triplets(*old(marks)) + Seq::new(
            p as nat,
            |q: int| (i as int, row@[q].0 as int, 1int),
        ));
    }
}

/// A matrix of one row that stores, at each column `p`, what `values` holds
/// at `p`.
spec fn is_row_of(m: CsrMatrix<i128>, values: Seq<int>) -> bool {
    &&& csr_rows(m).len() == 1
    &&& csr_ncols(m) == values.len()
    &&& rows_wf(csr_rows(m), csr_ncols(m))
    &&& csr_rows(m)[0].len() == values.len()
    &&& forall|p: int| 0 <= p < values.len() ==> #[trigger] csr_rows(m)[0][p] == (p, values[p])
}

/// The neighbours' scores as a matrix of one row.
fn build_weights(neighbors: &Vec<(usize, i64)>, absolute: bool) -> (w: CsrMatrix<i128>)
    requires
        forall|p: int| 0 <= p < neighbors@.len() ==> -SCORE_ONE <= (#[trigger] neighbors@[p]).1 <= SCORE_ONE,
    ensures
        is_row_of(
            w,
            Seq::new(
                neighbors@.len(),
                |p: int|
                    if absolute {
                        abs(neighbors@[p].1 as int)
                    } else {
                        neighbors@[p].1 as int
                    },
            ),
        ),
{
    let k = neighbors.len();
    let ghost values = Seq::new(
        neighbors@.len(),
        |p: int|
            if absolute {
                abs(neighbors@[p].1 as int)
            } else {
                neighbors@[p].1 as int
            },
    );
    let mut coo = coo_new(1, k);
    let mut i: usize = 0;
    while i < k
        invariant
            i <= k,
            k == neighbors@.len(),
            values.len() == k,
            forall|p: int| 0 <= p < k ==> #[trigger] values[p] == if absolute {
                abs(neighbors@[p].1 as int)
            } else {
                neighbors@[p].1 as int
            },
            forall|p: int| 0 <= p < neighbors@.len() ==> -SCORE_ONE <= (#[trigger] neighbors@[p]).1 <= SCORE_ONE,
            coo_shape(coo) == (1int, k as int),
            coo_triplets(coo).len() == i,
            forall|a: int| 0 <= a < i ==> #[trigger] coo_triplets(coo)[a] == (0int, a, values[a]),
        decreases k - i,
    {
        let score = neighbors[i].1;
        let weight = if absolute && score < 0 {
            -score
        } else {
            score
        };
        coo_push(&mut coo, 0, i, weight as i128);
        i += 1;
    }
    let ghost t = coo_triplets(coo);
    proof {
        assert forall|a: int, b: int| 0 <= a < b < t.len() implies !((#[trigger] t[a]).0 == (
            #[trigger] t[b]).0 && t[a].1 == t[b].1) by {}
        assert(distinct_positions(t));
    }
    let w = csr_from_coo(&coo);
    proof {
        let rows = csr_rows(w);
        let row = rows[0];
        assert(rows.drop_last() =~= Seq::<Seq<(int, int)>>::empty());
        assert(stored_count(rows.drop_last()) == 0);
        assert(rows.last() == row);
        assert(row.len() == k);
        assert(row_wf(row, k as int));
        lemma_full_row(row, k as int);
        assert forall|p: int| 0 <= p < values.len() implies #[trigger] row[p] == (p, values[p]) by {
            let v = row[p].1;
            assert(row[p] == (p, v));
            assert(row.contains((p, v)));
            assert(t.contains((0int, p, v)));
            let x = choose|x: int| 0 <= x < t.len() && t[x] == (0int, p, v);
            assert(t[x] == (0int, x, values[x]));
        }
    }
    w
}

/// The neighbours' rows as a matrix, row `a` that of neighbour `a`; with
/// `mark` set, a one in place of each rating.
spec fn is_rows_of(
    m: CsrMatrix<i128>,
    rows: Seq<Seq<(int, int)>>,
    neighbors: Seq<(int, int)>,
    items: int,
    mark: bool,
) -> bool {
    &&& csr_rows(m).len() == neighbors.len()
    &&& csr_ncols(m) == items
    &&& rows_wf(csr_rows(m), items)
    &&& forall|a: int, j: int|
        0 <= a < neighbors.len() ==> #[trigger] row_has(csr_rows(m)[a], j) == row_has(
            rows[neighbors[a].0],
            j,
        )
    &&& forall|a: int, j: int|
        0 <= a < neighbors.len() ==> #[trigger] row_value(csr_rows(m)[a], j) == if mark {
            if row_has(rows[neighbors[a].0], j) {
                1int
            } else {
                0int
            }
        } else {
            row_value(rows[neighbors[a].0], j)
        }
}

/// The neighbours' rows as a matrix, and the marks of what they rated.
fn build_rows(matrix: &RatingMatrix, neighbors: &Vec<(usize, i64)>) -> (r: (
    CsrMatrix<i128>,
    CsrMatrix<i128>,
))
    requires
        matrix.wf(),
        forall|p: int| 0 <= p < neighbors@.len() ==> (#[trigger] neighbors@[p]).0 < matrix@.len(),
    ensures
        is_rows_of(r.0, matrix@, row_view(neighbors@), matrix.items(), false),
        is_rows_of(r.1, matrix@, row_view(neighbors@), matrix.items(), true),
{
    let k = neighbors.len();
    let ncols = matrix.ncols();
    let ghost nb = row_view(neighbors@);
    let ghost rows = matrix@;
    let mut ratings = coo_new(k, ncols);
    let mut marks = coo_new(k, ncols);
    let ghost mut owner: Seq<int> = Seq::empty();
    let ghost mut slot: Seq<int> = Seq::empty();
    let ghost mut index_of: Seq<Seq<int>> = Seq::empty();
    let mut i: usize = 0;
    while i < k
        invariant
            i <= k,
            k == neighbors@.len(),
            nb == row_view(neighbors@),
            rows == matrix@,
            matrix.wf(),
            ncols == matrix.items(),
            forall|p: int| 0 <= p < neighbors@.len() ==> (#[trigger] neighbors@[p]).0 < matrix@.len(),
            coo_shape(ratings) == (k as int, ncols as int),
            coo_shape(marks) == (k as int, ncols as int),
            coo_triplets(ratings).len() == owner.len(),
            coo_triplets(marks).len() == owner.len(),
            slot.len() == owner.len(),
            index_of.len() == i,
            forall|x: int|
                0 <= x < owner.len() ==> {
                    &&& 0 <= #[trigger] owner[x] < i
                    &&& 0 <= slot[x] < rows[nb[owner[x]].0].len()
                    &&& x == index_of[owner[x]][slot[x]]
                    &&& coo_triplets(ratings)[x] == (
                        owner[x],
                        rows[nb[owner[x]].0][slot[x]].0,
                        rows[nb[owner[x]].0][slot[x]].1,
                    )
                    &&& coo_triplets(marks)[x] == (owner[x], rows[nb[owner[x]].0][slot[x]].0, 1int)
                },
            forall|a: int| 0 <= a < i ==> (#[trigger] index_of[a]).len() == rows[nb[a].0].len(),
            forall|a: int, q: int|
                0 <= a < i && 0 <= q < rows[nb[a].0].len() ==> {
                    &&& 0 <= #[trigger] index_of[a][q] < owner.len()
                    &&& owner[index_of[a][q]] == a
                    &&& slot[index_of[a][q]] == q
                },
        decreases k - i,
    {
        let user = neighbors[i].0;
        let row = matrix.row(user);
        let ghost len = row@.len() as int;
        let ghost base = owner.len() as int;
        proof {
            assert(nb[i as int].0 == user);
            assert(row_view(row@) == rows[user as int]);
            assert(row_wf(rows[user as int], matrix.items()));
            assert forall|q: int| 0 <= q < row@.len() implies (#[trigger] row@[q]).0 < ncols by {
                assert(row_view(row@)[q].0 == row@[q].0);
                assert(0 <= rows[user as int][q].0 < matrix.items());
            }
        }
        push_row(&mut ratings, &mut marks, i, &row);
        proof {
            owner = owner + Seq::new(len as nat, |q: int| i as int);
            slot = slot + Seq::new(len as nat, |q: int| q);
            index_of = index_of.push(Seq::new(len as nat, |q: int| base + q));
            assert forall|x: int| 0 <= x < owner.len() implies {
                &&& 0 <= #[trigger] owner[x] < i + 1
                &&& 0 <= slot[x] < rows[nb[owner[x]].0].len()
                &&& x == index_of[owner[x]][slot[x]]
                &&& coo_triplets(ratings)[x] == (
                    owner[x],
                    rows[nb[owner[x]].0][slot[x]].0,
                    rows[nb[owner[x]].0][slot[x]].1,
                )
                &&& coo_triplets(marks)[x] == (owner[x], rows[nb[owner[x]].0][slot[x]].0, 1int)
            } by {
                if x >= base {
                    let q = x - base;
                    assert(owner[x] == i);
                    assert(slot[x] == q);
                    assert(row_view(row@)[q] == (row@[q].0 as int, row@[q].1 as int));
                }
            }
            assert forall|a: int, q: int| 0 <= a < i + 1 && 0 <= q < rows[nb[a].0].len() implies {
                &&& 0 <= #[trigger] index_of[a][q] < owner.len()
                &&& owner[index_of[a][q]] == a
                &&& slot[index_of[a][q]] == q
            } by {
                if a == i {
                    assert(index_of[a][q] == base + q);
                }
            }
        }
        i += 1;
    }
    let ghost tr = coo_triplets(ratings);
    let ghost tm = coo_triplets(marks);
    proof {
        assert forall|x: int, y: int| 0 <= x < y < tr.len() implies !((#[trigger] tr[x]).0 == (
            #[trigger] tr[y]).0 && tr[x].1 == tr[y].1) by {
            if tr[x].0 == tr[y].0 && tr[x].1 == tr[y].1 {
                let a = owner[x];
                assert(owner[y] == a);
                assert(row_wf(rows[nb[a].0], matrix.items()));
                if slot[x] < slot[y] {
                    assert(rows[nb[a].0][slot[x]].0 < rows[nb[a].0][slot[y]].0);
                } else if slot[y] < slot[x] {
                    assert(rows[nb[a].0][slot[y]].0 < rows[nb[a].0][slot[x]].0);
                }
            }
        }
        assert(distinct_positions(tr));
        assert forall|x: int, y: int| 0 <= x < y < tm.len() implies !((#[trigger] tm[x]).0 == (
            #[trigger] tm[y]).0 && tm[x].1 == tm[y].1) by {
            let a = owner[x];
            let c = owner[y];
            assert(tr[x].0 == tm[x].0 && tr[x].1 == tm[x].1);
            assert(tr[y].0 == tm[y].0 && tr[y].1 == tm[y].1);
        }
        assert(distinct_positions(tm));
    }
    let r = csr_from_coo(&ratings);
    let b = csr_from_coo(&marks);
    proof {
        let rr = csr_rows(r);
        let br = csr_rows(b);
        assert forall|a: int, j: int|
            #![trigger row_has(rr[a], j)]
            #![trigger row_value(rr[a], j)]
            #![trigger row_has(br[a], j)]
            #![trigger row_value(br[a], j)]
            0 <= a < nb.len() implies row_has(rr[a], j) == row_has(rows[nb[a].0], j) && row_value(
            rr[a],
            j,
        ) == row_value(rows[nb[a].0], j) && row_has(br[a], j) == row_has(rows[nb[a].0], j)
            && row_value(br[a], j) == if row_has(rows[nb[a].0], j) {
            1int
        } else {
            0int
        } by {
            let src = rows[nb[a].0];
            assert(row_wf(src, matrix.items()));
            assert(row_wf(rr[a], matrix.items()));
            assert(row_wf(br[a], matrix.items()));
            assert forall|c: int, v: int| rr[a].contains((c, v)) <==> src.contains((c, v)) by {
                assert(rr[a].contains((c, v)) <==> tr.contains((a, c, v)));
                if tr.contains((a, c, v)) {
                    let x = choose|x: int| 0 <= x < tr.len() && tr[x] == (a, c, v);
                    assert(owner[x] == a);
                    assert(src[slot[x]] == (c, v));
                }
                if src.contains((c, v)) {
                    let q = choose|q: int| 0 <= q < src.len() && src[q] == (c, v);
                    let x = index_of[a][q];
                    assert(owner[x] == a && slot[x] == q);
                    assert(tr[x] == (a, c, v));
                }
            }
            lemma_same_entries(rr[a], src, j);
            assert forall|c: int, v: int| br[a].contains((c, v)) <==> (v == 1 && row_has(
                src,
                c,
            )) by {
                assert(br[a].contains((c, v)) <==> tm.contains((a, c, v)));
                if tm.contains((a, c, v)) {
                    let x = choose|x: int| 0 <= x < tm.len() && tm[x] == (a, c, v);
                    assert(owner[x] == a);
                    assert(src[slot[x]].0 == c);
                }
                if v == 1 && row_has(src, c) {
                    let q = choose|q: int| 0 <= q < src.len() && (#[trigger] src[q]).0 == c;
                    let x = index_of[a][q];
                    assert(owner[x] == a && slot[x] == q);
                    assert(tm[x] == (a, c, v));
                }
            }
            lemma_marks(br[a], src, j);
        }
    }
    (r, b)
}

/// The weighted sum over the sum of the weights, rounded toward zero.
pub fn weighted_average(weighted: i128, weights: i128) -> (average: i64)
    requires
        0 < weights,
        abs(weighted as int) <= MAX_RATING * weights,
    ensures
        average == div_toward_zero(weighted as int, weights as int),
        -MAX_RATING <= average <= MAX_RATING,
{
    let size: u128 = if weighted >= 0 {
        weighted as u128
    } else {
        (-(weighted + 1)) as u128 + 1
    };
    let quotient = size / (weights as u128);
    assert(quotient <= 255_000_000) by (nonlinear_arith)
        requires
            quotient == size / (weights as u128),
            0 <= size <= 255_000_000 * weights,
            0 < weights,
    ;
    if weighted >= 0 {
        quotient as i64
    } else {
        -(quotient as i64)
    }
}

/// The prediction aggregator. For every item that at least one neighbour
/// rated, the neighbours' ratings of it averaged with their scores as
/// weights; the weights are those of the neighbours that rated the item, and
/// of no others. An item whose weights add up to zero gets no prediction, nor
/// does an item of `exclude_items`. The predictions come with items
/// ascending.
///
/// Both sums are sparse matrix products: the scores times the neighbours'
/// rows, and the absolute scores times the marks of what they rated.
pub fn predict(matrix: &RatingMatrix, neighbors: &Vec<(usize, i64)>, exclude_items: &Vec<usize>) -> (predictions:
    Vec<(usize, i64)>)
    requires
        matrix.wf(),
        neighbors_wf(row_view(neighbors@), matrix@.len() as int),
    ensures
        row_view(predictions@) == predictions_upto(
            matrix@,
            row_view(neighbors@),
            item_ids(exclude_items@),
            matrix.items(),
        ),
        forall|p: int| 0 <= p < predictions@.len() ==> (#[trigger] predictions@[p]).0 < matrix.items(),
{
    let ghost nb = row_view(neighbors@);
    let ghost rows = matrix@;
    let ghost ex = item_ids(exclude_items@);
    let ncols = matrix.ncols();
    let ghost k = neighbors@.len() as int;
    proof {
        assert forall|p: int| 0 <= p < neighbors@.len() implies (#[trigger] neighbors@[p]).0
            < matrix@.len() && -SCORE_ONE <= neighbors@[p].1 <= SCORE_ONE by {
            assert(nb[p] == (neighbors@[p].0 as int, neighbors@[p].1 as int));
        }
    }
    let (ratings, marks) = build_rows(matrix, neighbors);
    let weights = build_weights(neighbors, false);
    let sizes = build_weights(neighbors, true);
    let ghost rr = csr_rows(ratings);
    let ghost mr = csr_rows(marks);
    let ghost w0 = csr_rows(weights)[0];
    let ghost a0 = csr_rows(sizes)[0];
    proof {
        assert(w0.take(k) =~= w0);
        assert(a0.take(k) =~= a0);
        assert(k * (SCORE_ONE * 255_000_000) <= i128::MAX) by (nonlinear_arith)
            requires
                0 <= k <= 0x1_0000_0000,
        ;
        assert forall|p: int| 0 <= p < k implies (#[trigger] w0[p]).0 == p && -SCORE_ONE <= w0[p].1
            <= SCORE_ONE && w0[p].1 == nb[p].1 by {
            assert(nb[p] == (neighbors@[p].0 as int, neighbors@[p].1 as int));
        }
        assert forall|p: int| 0 <= p < k implies (#[trigger] a0[p]).0 == p && -SCORE_ONE <= a0[p].1
            <= SCORE_ONE && a0[p].1 == abs(nb[p].1) by {
            assert(nb[p] == (neighbors@[p].0 as int, neighbors@[p].1 as int));
        }
        assert forall|i: int, j: int|
            0 <= i < csr_rows(weights).len() && 0 <= j < csr_ncols(
                ratings,
            ) implies #[trigger] product_cell_abs(csr_rows(weights)[i], rr, j) <= i128::MAX by {
            assert forall|p: int| 0 <= p < w0.len() implies -255_000_000 <= #[trigger] row_value(
                rr[p],
                j,
            ) <= 255_000_000 by {
                lemma_row_value_bounded(rows[nb[p].0], MAX_RATING as int, j);
            }
            lemma_product_is_sum(w0, rr, j, k, 255_000_000);
        }
        assert forall|i: int, j: int|
            0 <= i < csr_rows(sizes).len() && 0 <= j < csr_ncols(
                marks,
            ) implies #[trigger] product_cell_abs(csr_rows(sizes)[i], mr, j) <= i128::MAX by {
            assert forall|p: int| 0 <= p < a0.len() implies -1 <= #[trigger] row_value(mr[p], j)
                <= 1 by {}
            lemma_product_is_sum(a0, mr, j, k, 1);
            assert(k * (SCORE_ONE * 1) <= i128::MAX) by (nonlinear_arith)
                requires
                    0 <= k <= 0x1_0000_0000,
            ;
        }
    }
    let numer = csr_mul(&weights, &ratings);
    let denom = csr_mul(&sizes, &marks);
    let ghost n0 = csr_rows(numer)[0];
    let ghost d0 = csr_rows(denom)[0];
    proof {
        assert(nb.take(k) =~= nb);
        assert forall|j: int| 0 <= j < ncols implies #[trigger] row_has(n0, j) == touched(
            rows,
            nb,
            j,
        ) by {
            lemma_product_has_is_touched(w0, rr, rows, nb, j);
        }
        assert forall|j: int| 0 <= j < ncols implies #[trigger] row_value(n0, j) == weighted_sum(
            rows,
            nb,
            j,
        ) by {
            assert forall|p: int| 0 <= p < w0.len() implies -255_000_000 <= #[trigger] row_value(
                rr[p],
                j,
            ) <= 255_000_000 by {
                lemma_row_value_bounded(rows[nb[p].0], MAX_RATING as int, j);
            }
            lemma_product_is_sum(w0, rr, j, k, 255_000_000);
            lemma_sum_is_weighted(w0, rr, rows, nb, j, k);
        }
        assert forall|j: int| 0 <= j < ncols implies #[trigger] row_value(d0, j) == weight_sum(
            rows,
            nb,
            j,
        ) by {
            assert forall|p: int| 0 <= p < a0.len() implies -1 <= #[trigger] row_value(mr[p], j)
                <= 1 by {}
            lemma_product_is_sum(a0, mr, j, k, 1);
            lemma_sum_is_weight(a0, mr, rows, nb, j, k);
        }
    }
    let cols = csr_row_cols(&numer, 0);
    let vals = csr_row_values(&numer, 0);
    let dcols = csr_row_cols(&denom, 0);
    let dvals = csr_row_values(&denom, 0);
    assert(row_wf(d0, ncols as int));
    assert(row_wf(n0, ncols as int));
    let weights_at = dense_row(&dcols, &dvals, ncols, Ghost(d0));
    let mask = exclusion_mask(exclude_items, ncols);
    let mut predictions: Vec<(usize, i64)> = Vec::new();
    let mut p: usize = 0;
    let ghost mut done: int = 0;
    assert(row_view(predictions@) =~= predictions_upto(rows, nb, ex, 0));
    while p < cols.len()
        invariant
            p <= cols@.len(),
            cols@.len() == n0.len(),
            vals@.len() == n0.len(),
            forall|q: int| 0 <= q < n0.len() ==> (#[trigger] cols@[q]) as int == n0[q].0,
            forall|q: int| 0 <= q < n0.len() ==> (#[trigger] vals@[q]) as int == n0[q].1,
            row_wf(n0, ncols as int),
            ncols == matrix.items(),
            rows == matrix@,
            nb == row_view(neighbors@),
            ex == item_ids(exclude_items@),
            matrix.wf(),
            neighbors_wf(nb, rows.len() as int),
            done == if p == 0 {
                0
            } else {
                cols@[p - 1] + 1
            },
            0 <= done <= ncols,
            row_view(predictions@) == predictions_upto(rows, nb, ex, done),
            forall|x: int| 0 <= x < predictions@.len() ==> (#[trigger] predictions@[x]).0 < ncols,
            forall|j: int| 0 <= j < ncols ==> #[trigger] row_has(n0, j) == touched(rows, nb, j),
            forall|j: int| 0 <= j < ncols ==> #[trigger] row_value(n0, j) == weighted_sum(rows, nb, j),
            weights_at@.len() == ncols,
            forall|j: int| 0 <= j < ncols ==> (#[trigger] weights_at@[j]) as int == weight_sum(rows, nb, j),
            mask@.len() == ncols,
            forall|j: int| 0 <= j < ncols ==> #[trigger] mask@[j] == excluded(ex, j),
        decreases cols@.len() - p,
    {
        let j = cols[p];
        let weighted = vals[p];
        proof {
            assert(0 <= n0[p as int].0 < ncols);
            assert forall|x: int| done <= x < j implies !#[trigger] predictable(rows, nb, ex, x) by {
                if row_has(n0, x) {
                    let q = choose|q: int| 0 <= q < n0.len() && (#[trigger] n0[q]).0 == x;
                    if q < p {
                        if q < p - 1 {
                            assert(n0[q].0 < n0[p - 1].0);
                        }
                    } else if q > p {
                        assert(n0[p as int].0 < n0[q].0);
                    }
                    assert(false);
                }
            }
            lemma_predictions_skip(rows, nb, ex, done, j as int);
            lemma_row_value_at(n0, p as int);
            assert(row_has(n0, j as int));
            lemma_weighted_within_weights(rows, nb, j as int);
        }
        let weight = weights_at[j];
        if weight != 0 && !mask[j] {
            let value = weighted_average(weighted, weight);
            let ghost before = row_view(predictions@);
            predictions.push((j, value));
            assert(row_view(predictions@) =~= before.push((j as int, value as int)));
        }
        proof {
            done = j + 1;
        }
        p += 1;
    }
    proof {
        assert forall|x: int| done <= x < ncols implies !#[trigger] predictable(rows, nb, ex, x) by {
            if row_has(n0, x) {
                let q = choose|q: int| 0 <= q < n0.len() && (#[trigger] n0[q]).0 == x;
                if q < n0.len() - 1 {
                    assert(n0[q].0 < n0[n0.len() - 1].0);
                }
                assert(false);
            }
        }
        lemma_predictions_skip(rows, nb, ex, done, ncols as int);
    }
    predictions
}

} // verus!
