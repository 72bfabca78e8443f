use collab_filter::movies::{
    get_matrix_and_ratings, item_totals, ItemTotal, OutOfRangeError, RatingEvent,
};

fn event(user_id: usize, item_id: usize, rating: u8) -> RatingEvent {
    RatingEvent { user_id, item_id, rating }
}

#[test]
fn ingest_builds_rows_sorted_by_item() {
    let events = vec![event(1, 3, 4), event(0, 2, 5), event(1, 0, 2), event(0, 0, 1)];
    let matrix = get_matrix_and_ratings(&events, 3, 4).unwrap().0;
    assert_eq!(matrix.nrows(), 3);
    assert_eq!(matrix.ncols(), 4);
    assert_eq!(matrix.row(0), vec![(0, 1_000_000), (2, 5_000_000)]);
    assert_eq!(matrix.row(1), vec![(0, 2_000_000), (3, 4_000_000)]);
    assert_eq!(matrix.row(2), vec![]);
    assert!(!matrix.centered());
}

#[test]
fn ingest_of_nothing_is_an_empty_matrix() {
    let matrix = get_matrix_and_ratings(&vec![], 2, 2).unwrap().0;
    assert_eq!(matrix.nrows(), 2);
    assert_eq!(matrix.ncols(), 2);
    assert_eq!(matrix.row(0), vec![]);
    assert_eq!(matrix.row(1), vec![]);
}

#[test]
fn capacity_violation_is_rejected() {
    let events = vec![event(1000, 0, 4)];
    let result = get_matrix_and_ratings(&events, 500, 500);
    assert_eq!(
        result.err(),
        Some(OutOfRangeError { position: 0, user_id: 1000, item_id: 0 })
    );
}

#[test]
fn first_violation_is_reported() {
    let events = vec![event(0, 0, 4), event(1, 7, 3), event(9, 0, 2)];
    let result = get_matrix_and_ratings(&events, 2, 5);
    assert_eq!(
        result.err(),
        Some(OutOfRangeError { position: 1, user_id: 1, item_id: 7 })
    );
}

#[test]
fn index_equal_to_capacity_is_out_of_range() {
    assert!(get_matrix_and_ratings(&vec![event(2, 0, 1)], 2, 2).is_err());
    assert!(get_matrix_and_ratings(&vec![event(0, 2, 1)], 2, 2).is_err());
    assert!(get_matrix_and_ratings(&vec![event(1, 1, 1)], 2, 2).is_ok());
}

#[test]
fn last_rating_of_a_pair_counts() {
    let events = vec![event(0, 1, 2), event(0, 0, 3), event(0, 1, 5), event(0, 1, 4)];
    let matrix = get_matrix_and_ratings(&events, 1, 2).unwrap().0;
    assert_eq!(matrix.row(0), vec![(0, 3_000_000), (1, 4_000_000)]);
}

#[test]
fn stored_count_is_number_of_accepted_events() {
    let events = vec![
        event(0, 1, 2),
        event(1, 1, 3),
        event(0, 1, 5),
        event(2, 0, 4),
        event(1, 1, 1),
    ];
    let matrix = get_matrix_and_ratings(&events, 3, 2).unwrap().0;
    let stored: usize = (0..3).map(|u| matrix.row(u).len()).sum();
    assert_eq!(stored, 3);
}

#[test]
fn rating_of_zero_is_stored() {
    let matrix = get_matrix_and_ratings(&vec![event(0, 1, 0)], 1, 2).unwrap().0;
    assert_eq!(matrix.row(0), vec![(1, 0)]);
    let largest = get_matrix_and_ratings(&vec![event(0, 1, 255)], 1, 2).unwrap().0;
    assert_eq!(largest.row(0), vec![(1, 255_000_000)]);
}

#[test]
fn totals_count_every_event_of_an_item() {
    let events = vec![event(0, 1, 2), event(1, 1, 3), event(0, 1, 5), event(2, 0, 4)];
    let (_, totals) = get_matrix_and_ratings(&events, 3, 3).unwrap();
    assert_eq!(
        totals,
        vec![
            ItemTotal { count: 1, sum: 4 },
            ItemTotal { count: 3, sum: 10 },
            ItemTotal { count: 0, sum: 0 },
        ]
    );
}

#[test]
fn totals_leave_out_items_beyond_the_range() {
    let events = vec![event(0, 0, 1), event(0, 5, 9), event(7, 0, 2)];
    assert_eq!(item_totals(&events, 1), vec![ItemTotal { count: 2, sum: 3 }]);
    assert_eq!(item_totals(&events, 0), vec![]);
    assert_eq!(item_totals(&vec![], 2), vec![ItemTotal { count: 0, sum: 0 }; 2]);
}
