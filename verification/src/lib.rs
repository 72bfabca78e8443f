//! Neighbourhood-based collaborative filtering over a sparse rating matrix.
//!
//! Ratings come in as small integers; the caller chooses what one step stands
//! for (half a star, say). Everything is computed in integers, so that every
//! result is exact or rounded in a stated direction by less than a millionth:
//!
//! - the matrix holds ratings in millionths of a step, so that a centred
//!   rating, the rating minus the mean of its row, keeps its fraction;
//! - a norm is kept as its square, the sum of the squares of a row;
//! - a similarity score is a cosine in millionths, rounded toward zero;
//! - a predicted score is a rating in millionths of a step, rounded toward
//!   zero.
//!
//! The pipeline: [`movies::get_matrix_and_ratings`] builds the matrix from
//! rating events, [`recommendation::normalize_matrix`] centres its rows,
//! [`recommendation::compute_norms`] takes the norms,
//! [`similarity::similarities`] scores a query against every row,
//! [`selection::select_top_k`] keeps the nearest neighbours,
//! [`prediction::predict`] predicts from them and [`selection::rank`] orders
//! the predictions. [`recommendation::get_recommendations`] runs all of it
//! for one user of the matrix.
pub mod fixed;
pub mod matrix;
pub mod movies;
pub mod prediction;
pub mod recommendation;
pub mod rows;
pub mod selection;
pub mod similarity;
pub mod sparse;
