//! Brute-force k-nearest-neighbour classification over `ndarray` arrays.
//!
//! Points live on an integer grid, so distances are exact and every step,
//! from the distance to the vote, is stated and proved.

pub mod error;
pub mod arrays;
pub mod distance;
pub mod neighbors;
pub mod vote;
pub mod classifier;
