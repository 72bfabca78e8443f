use collab_filter::fixed::product_in_parts;
use collab_filter::matrix::RatingMatrix;
use collab_filter::movies::{get_matrix_and_ratings, Movie, RatingEvent, RecoQuery};
use collab_filter::prediction::{predict, weighted_average};
use collab_filter::recommendation::{
    compute_norms, get_recommendations, normalize_matrix, recommend, recommend_for_query,
    row_square_sum,
};
use collab_filter::selection::{discard_below, rank, select_top_k};
use collab_filter::similarity::{cosine_score, similarities};

fn matrix_of(rows: &[&[(usize, u8)]], items: usize) -> RatingMatrix {
    let mut events = Vec::new();
    for (user_id, row) in rows.iter().enumerate() {
        for &(item_id, rating) in row.iter() {
            events.push(RatingEvent { user_id, item_id, rating });
        }
    }
    get_matrix_and_ratings(&events, rows.len(), items).unwrap().0
}

fn three_users() -> RatingMatrix {
    matrix_of(&[&[(0, 5), (1, 3)], &[(0, 4), (1, 2), (2, 5)], &[(3, 5)]], 4)
}

fn four_users() -> RatingMatrix {
    matrix_of(
        &[
            &[(0, 4), (1, 2)],
            &[(0, 4), (1, 2), (2, 5), (3, 1)],
            &[(0, 1), (1, 5), (2, 3)],
            &[(0, 2), (1, 1), (4, 4)],
        ],
        5,
    )
}

#[test]
fn product_in_parts_is_the_product() {
    let part: u128 = 1 << 80;
    assert_eq!(product_in_parts(0, 5, 7), (0, 0));
    assert_eq!(product_in_parts(3, 5, 7), (0, 105));
    assert_eq!(product_in_parts(1 << 40, 1 << 40, 1), (1, 0));
    assert_eq!(product_in_parts(1 << 40, 1 << 40, 3), (3, 0));
    assert_eq!(product_in_parts(part - 1, 1, 1), (0, part - 1));
    assert_eq!(product_in_parts(part - 1, 2, 1), (1, part - 2));
    assert_eq!(product_in_parts(part - 1, part - 1, 1), (part - 2, 1));
    let (high, low) = product_in_parts(part - 1, part - 1, 1 << 40);
    assert_eq!(high, ((part - 2) << 40) + 0);
    assert_eq!(low, 1 << 40);
}

#[test]
fn norms_are_sums_of_squares() {
    let matrix = three_users();
    assert_eq!(
        compute_norms(&matrix),
        vec![34_000_000_000_000, 45_000_000_000_000, 25_000_000_000_000]
    );
    assert_eq!(row_square_sum(&vec![(0, 3), (4, -4)]), 25);
}

#[test]
fn norm_is_zero_only_without_nonzero_rating() {
    let matrix = matrix_of(&[&[], &[(1, 0), (2, 0)], &[(0, 1)]], 3);
    assert_eq!(compute_norms(&matrix), vec![0, 0, 1_000_000_000_000]);
}

#[test]
fn cosine_score_is_in_millionths_toward_zero() {
    assert_eq!(cosine_score(26, 34, 45), 664_702);
    assert_eq!(cosine_score(-3, 10, 10), -300_000);
    assert_eq!(cosine_score(7, 49, 1), 1_000_000);
    assert_eq!(cosine_score(1, 2, 3), 408_248);
    assert_eq!(cosine_score(0, 5, 5), 0);
    assert_eq!(
        cosine_score(26_000_000_000_000, 34_000_000_000_000, 45_000_000_000_000),
        664_702
    );
    assert_eq!(
        cosine_score(-2_000_000_000_000, 2_000_000_000_000, 4_666_666_666_668),
        -654_653
    );
    let largest: u128 = 16_777_216 * 65_025_000_000_000_000;
    assert_eq!(cosine_score(largest as i128, largest, largest), 1_000_000);
    assert_eq!(cosine_score(-(largest as i128), largest, largest), -1_000_000);
    assert_eq!(cosine_score(1, largest, largest), 0);
}

#[test]
fn row_is_not_its_own_neighbor() {
    let matrix = three_users();
    let norms = compute_norms(&matrix);
    let scores = similarities(&matrix, &norms, &matrix.row(0), Some(0));
    assert_eq!(scores, vec![(1, 664_702), (2, 0)]);
}

#[test]
fn identical_copy_scores_one() {
    let matrix = matrix_of(&[&[(0, 5), (2, 3)], &[(1, 4)], &[(0, 5), (2, 3)]], 3);
    let norms = compute_norms(&matrix);
    let scores = similarities(&matrix, &norms, &matrix.row(0), Some(0));
    assert_eq!(scores, vec![(1, 0), (2, 1_000_000)]);
}

#[test]
fn cold_query_is_scored_against_every_row() {
    let matrix = three_users();
    let norms = compute_norms(&matrix);
    let scores = similarities(&matrix, &norms, &vec![(1, 3), (0, 5)], None);
    assert_eq!(scores, vec![(0, 1_000_000), (1, 664_702), (2, 0)]);
}

#[test]
fn rows_without_ratings_get_no_score() {
    let matrix = matrix_of(&[&[(0, 2)], &[], &[(0, 1)]], 1);
    let norms = compute_norms(&matrix);
    let scores = similarities(&matrix, &norms, &vec![(0, 3)], None);
    assert_eq!(scores, vec![(0, 1_000_000), (2, 1_000_000)]);
}

#[test]
fn query_without_ratings_gets_no_scores() {
    let matrix = three_users();
    let norms = compute_norms(&matrix);
    assert_eq!(similarities(&matrix, &norms, &vec![], None), vec![]);
    assert_eq!(similarities(&matrix, &norms, &vec![(1, 0)], None), vec![]);
}

#[test]
fn top_k_takes_the_highest_scores_in_order() {
    let scores = vec![(0, 10), (1, 50), (2, 30), (3, 50), (4, -5)];
    assert_eq!(select_top_k(&scores, 3), vec![(1, 50), (3, 50), (2, 30)]);
    assert_eq!(select_top_k(&scores, 1), vec![(1, 50)]);
    assert_eq!(select_top_k(&scores, 0), vec![]);
}

#[test]
fn top_k_of_fewer_than_k_is_all() {
    let scores = vec![(7, 1), (3, 2)];
    assert_eq!(select_top_k(&scores, 5), vec![(3, 2), (7, 1)]);
    assert_eq!(select_top_k(&vec![], 5), vec![]);
}

#[test]
fn top_k_keeps_ties_in_the_order_produced() {
    let scores = vec![(9, 4), (2, 4), (5, 4), (1, 4)];
    assert_eq!(select_top_k(&scores, 2), vec![(9, 4), (2, 4)]);
    assert_eq!(select_top_k(&scores, 4), vec![(9, 4), (2, 4), (5, 4), (1, 4)]);
}

#[test]
fn returned_scores_are_at_least_the_rest() {
    let scores = vec![(0, 3), (1, -2), (2, 9), (3, 9), (4, 0), (5, 7), (6, 3)];
    for k in 0..9 {
        let chosen = select_top_k(&scores, k);
        assert_eq!(chosen.len(), k.min(scores.len()));
        let rest: Vec<(usize, i64)> =
            scores.iter().filter(|s| !chosen.contains(s)).cloned().collect();
        for c in chosen.iter() {
            for r in rest.iter() {
                assert!(c.1 >= r.1);
            }
        }
    }
}

#[test]
fn rank_is_by_score_then_item() {
    let predictions = vec![(4, 10), (1, 30), (3, 30), (0, 10), (2, 20)];
    assert_eq!(rank(&predictions), vec![(1, 30), (3, 30), (2, 20), (0, 10), (4, 10)]);
    assert_eq!(rank(&vec![(3, 5), (1, 5)]), vec![(1, 5), (3, 5)]);
    assert_eq!(rank(&vec![]), vec![]);
}

#[test]
fn weighted_average_rounds_toward_zero() {
    assert_eq!(weighted_average(7_000_000, 3), 2_333_333);
    assert_eq!(weighted_average(-7_000_000, 3), -2_333_333);
    assert_eq!(weighted_average(0, 9), 0);
    assert_eq!(weighted_average(3_323_510_000_000, 664_702), 5_000_000);
    assert_eq!(weighted_average(-255_000_000, 1), -255_000_000);
}

#[test]
fn weights_are_those_of_the_neighbors_that_rated_the_item() {
    let matrix = four_users();
    let neighbors = vec![(1, 659_380), (2, 529_150), (3, 487_950)];
    let predictions = predict(&matrix, &neighbors, &vec![]);
    assert_eq!(
        predictions,
        vec![(0, 2_470_992), (1, 2_655_838), (2, 4_109_572), (3, 1_000_000), (4, 4_000_000)]
    );
}

#[test]
fn excluded_items_get_no_prediction() {
    let matrix = four_users();
    let neighbors = vec![(1, 659_380), (2, 529_150), (3, 487_950)];
    let predictions = predict(&matrix, &neighbors, &vec![1, 0, 4, 17]);
    assert_eq!(predictions, vec![(2, 4_109_572), (3, 1_000_000)]);
}

#[test]
fn items_with_zero_weight_get_no_prediction() {
    let matrix = four_users();
    let predictions = predict(&matrix, &vec![(1, 0), (3, 500_000)], &vec![]);
    assert_eq!(predictions, vec![(0, 2_000_000), (1, 1_000_000), (4, 4_000_000)]);
}

#[test]
fn negative_scores_weigh_by_their_size() {
    let matrix = four_users();
    let predictions = predict(&matrix, &vec![(1, -400_000), (2, 100_000)], &vec![0, 1]);
    assert_eq!(predictions, vec![(2, -3_400_000), (3, -1_000_000)]);
}

#[test]
fn no_neighbors_no_predictions() {
    let matrix = four_users();
    assert_eq!(predict(&matrix, &vec![], &vec![]), vec![]);
}

#[test]
fn a_neighbor_listed_twice_counts_twice() {
    let matrix = four_users();
    let predictions = predict(&matrix, &vec![(2, 300_000), (2, 300_000)], &vec![0, 1]);
    assert_eq!(predictions, vec![(2, 3_000_000)]);
}

#[test]
fn end_to_end_three_users() {
    let matrix = three_users();
    let norms = compute_norms(&matrix);
    let scores = similarities(&matrix, &norms, &matrix.row(0), Some(0));
    assert_eq!(select_top_k(&scores, 1), vec![(1, 664_702)]);
    let predictions = predict(&matrix, &select_top_k(&scores, 2), &vec![0, 1]);
    assert_eq!(predictions, vec![(2, 5_000_000)]);
    let ranking = get_recommendations(&matrix, &norms, 0);
    assert_eq!(ranking, vec![(2, 5_000_000)]);
}

#[test]
fn end_to_end_four_users() {
    let matrix = four_users();
    let norms = compute_norms(&matrix);
    let ranking = get_recommendations(&matrix, &norms, 0);
    assert_eq!(ranking, vec![(2, 4_109_572), (4, 4_000_000), (3, 1_000_000)]);
    let nearest = recommend(&matrix, &norms, &matrix.row(0), Some(0), 1, None);
    assert_eq!(nearest, vec![(2, 5_000_000), (3, 1_000_000)]);
}

#[test]
fn user_without_ratings_gets_an_empty_list() {
    let matrix = matrix_of(&[&[], &[(0, 3)], &[(0, 2), (1, 4)]], 2);
    let norms = compute_norms(&matrix);
    assert_eq!(get_recommendations(&matrix, &norms, 0), vec![]);
    assert_eq!(recommend(&matrix, &norms, &vec![], None, 10, None), vec![]);
}

#[test]
fn centering_subtracts_the_row_mean() {
    let mut matrix = matrix_of(&[&[(0, 5), (1, 3), (3, 4)], &[], &[(2, 1), (3, 2)], &[(1, 7)]], 4);
    normalize_matrix(&mut matrix);
    assert!(matrix.centered());
    assert_eq!(matrix.row(0), vec![(0, 1_000_000), (1, -1_000_000), (3, 0)]);
    assert_eq!(matrix.row(1), vec![]);
    assert_eq!(matrix.row(2), vec![(2, -500_000), (3, 500_000)]);
    assert_eq!(matrix.row(3), vec![(1, 0)]);
}

#[test]
fn centered_row_sums_to_zero_within_a_millionth_each() {
    let mut matrix = matrix_of(&[&[(0, 5), (1, 4)], &[(0, 4), (1, 2), (2, 5)], &[(0, 2), (1, 1), (2, 4)]], 3);
    normalize_matrix(&mut matrix);
    assert_eq!(matrix.row(0), vec![(0, 500_000), (1, -500_000)]);
    assert_eq!(matrix.row(1), vec![(0, 333_334), (1, -1_666_666), (2, 1_333_334)]);
    assert_eq!(matrix.row(2), vec![(0, -333_333), (1, -1_333_333), (2, 1_666_667)]);
    for user in 0..3 {
        let row = matrix.row(user);
        let sum: i64 = row.iter().map(|entry| entry.1).sum();
        assert!(0 <= sum && sum < row.len() as i64);
    }
}

#[test]
fn centering_twice_is_centering_once() {
    let mut once = four_users();
    normalize_matrix(&mut once);
    let mut twice = four_users();
    normalize_matrix(&mut twice);
    normalize_matrix(&mut twice);
    for user in 0..4 {
        assert_eq!(once.row(user), twice.row(user));
    }
}

#[test]
fn norms_follow_the_centered_values() {
    let mut matrix = three_users();
    normalize_matrix(&mut matrix);
    assert_eq!(matrix.row(1), vec![(0, 333_334), (1, -1_666_666), (2, 1_333_334)]);
    assert_eq!(compute_norms(&matrix), vec![2_000_000_000_000, 4_666_666_666_668, 0]);
    let norms = compute_norms(&matrix);
    let scores = similarities(&matrix, &norms, &matrix.row(0), Some(0));
    assert_eq!(scores, vec![(1, 654_653)]);
}

#[test]
fn scores_below_the_minimum_are_discarded() {
    let scores = vec![(0, 5), (1, -3), (2, 0), (3, 9), (4, 4)];
    assert_eq!(discard_below(&scores, Some(4)), vec![(0, 5), (3, 9), (4, 4)]);
    assert_eq!(discard_below(&scores, Some(10)), vec![]);
    assert_eq!(discard_below(&scores, Some(-3)), scores);
    assert_eq!(discard_below(&scores, None), scores);
}

#[test]
fn neighbors_below_the_minimum_similarity_do_not_predict() {
    let matrix = four_users();
    let norms = compute_norms(&matrix);
    let ranking = recommend(&matrix, &norms, &matrix.row(0), Some(0), 10, Some(500_000));
    assert_eq!(ranking, vec![(2, 4_109_572), (3, 1_000_000)]);
    let none = recommend(&matrix, &norms, &matrix.row(0), Some(0), 10, Some(700_000));
    assert_eq!(none, vec![]);
}

#[test]
fn query_vector_is_by_item_within_the_matrix() {
    let query = RecoQuery::from(vec![Movie::new(3, 5), Movie::new(0, 2), Movie::new(9, 1)]);
    assert_eq!(query.query_vector(4), vec![(0, 2_000_000), (3, 5_000_000)]);
    assert_eq!(
        query.query_vector(10),
        vec![(0, 2_000_000), (3, 5_000_000), (9, 1_000_000)]
    );
    assert_eq!(query.query_vector(0), vec![]);
}

#[test]
fn cold_query_gets_recommendations() {
    let matrix = three_users();
    let norms = compute_norms(&matrix);
    let query = RecoQuery::from(vec![Movie::new(0, 5), Movie::new(1, 3)]);
    assert_eq!(recommend_for_query(&matrix, &norms, &query), vec![(2, 5_000_000)]);
    let empty = RecoQuery::from(Vec::<Movie>::new());
    assert_eq!(recommend_for_query(&matrix, &norms, &empty), vec![]);
}
