use collab_filter::movies::{Movie, RecoQuery, UserRatings};
use std::collections::HashMap;

#[test]
fn movie_new_keeps_its_fields() {
    let movie = Movie::new(7, 4);
    assert_eq!(movie.id, 7);
    assert_eq!(movie.rating, 4);
    assert_eq!(movie, Movie { id: 7, rating: 4 });
}

#[test]
fn query_from_movies_has_user_zero() {
    let query = RecoQuery::from(vec![Movie::new(3, 5), Movie::new(1, 2)]);
    let mut expected = HashMap::new();
    expected.insert(3, 5);
    expected.insert(1, 2);
    assert_eq!(query.user_id, 0);
    assert_eq!(query.ratings, expected);
}

#[test]
fn query_from_movies_keeps_the_last_rating_of_an_id() {
    let query = RecoQuery::from(vec![Movie::new(3, 5), Movie::new(3, 1)]);
    assert_eq!(query.ratings.len(), 1);
    assert_eq!(query.ratings.get(&3), Some(&1));
}

#[test]
fn query_from_user_ratings_keeps_the_user() {
    let user_ratings = UserRatings { user_id: 12, ratings: vec![Movie::new(0, 4), Movie::new(9, 3)] };
    let query = RecoQuery::from(user_ratings);
    let mut expected = HashMap::new();
    expected.insert(0, 4);
    expected.insert(9, 3);
    assert_eq!(query.user_id, 12);
    assert_eq!(query.ratings, expected);
}

#[test]
fn ratings_hashmap_is_a_copy() {
    let query = RecoQuery::from(vec![Movie::new(2, 2), Movie::new(4, 5)]);
    let ratings = query.get_ratings_hashmap();
    assert_eq!(ratings, query.ratings);
    assert_eq!(ratings.get(&4), Some(&5));
}

#[test]
fn query_from_no_movies_is_empty() {
    let query = RecoQuery::from(Vec::<Movie>::new());
    assert!(query.get_ratings_hashmap().is_empty());
}

#[test]
fn user_ratings_hold_a_movie_with_its_rating_once() {
    let mut user_ratings = UserRatings::new(4);
    assert_eq!(user_ratings.user_id, 4);
    assert!(user_ratings.ratings.is_empty());
    assert!(user_ratings.insert(Movie::new(1, 5)));
    assert!(user_ratings.insert(Movie::new(2, 5)));
    assert!(!user_ratings.insert(Movie::new(1, 5)));
    assert!(user_ratings.insert(Movie::new(1, 3)));
    assert_eq!(user_ratings.ratings, vec![Movie::new(1, 5), Movie::new(2, 5), Movie::new(1, 3)]);
    assert!(user_ratings.contains(&Movie::new(2, 5)));
    assert!(!user_ratings.contains(&Movie::new(2, 4)));
    assert!(user_ratings.is_wf());
}

#[test]
fn repeated_movie_is_found() {
    let twice = UserRatings { user_id: 0, ratings: vec![Movie::new(1, 5), Movie::new(2, 1), Movie::new(1, 5)] };
    assert!(!twice.is_wf());
    let once = UserRatings { user_id: 0, ratings: vec![Movie::new(1, 5), Movie::new(1, 4)] };
    assert!(once.is_wf());
    assert!(UserRatings::new(9).is_wf());
}
