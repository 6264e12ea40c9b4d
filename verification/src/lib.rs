//! A k-nearest-neighbour classifier over labeled feature vectors.
//!
//! Feature values are fixed-point numbers: each is stored as an integer
//! scaled by ten thousand, so four decimal digits are kept exactly.
//! Distances are reported as squared Euclidean distances in those scaled
//! units; the square root is strictly monotone, so nearest-neighbour
//! order and ties are exactly those of the Euclidean metric, and callers
//! wanting the metric itself take the root at the edge.

pub mod record;
pub mod distance;
pub mod select;
pub mod classify;
pub mod parse;
pub mod serialize;
