//! Univariate linear regression by batch gradient descent, over
//! fixed-point numbers.
//!
//! Every quantity (a mileage, a price, a slope, a learning rate) is held as
//! an `i64` counting millionths: the real value `v` is stored as
//! `v * SCALE`. All arithmetic is exact integer arithmetic with floor
//! division, so every result is pinned down by the contracts.

pub mod fixed;
pub mod linear_regression;
pub mod model;
pub mod laws;


pub use fixed::{MAX_ROWS, SCALE, VALUE_LIMIT};
pub use linear_regression::{Dataset, DatasetRow, RegressionError};
pub use model::LinearModel;
