//! K-means clustering: points are gathered round a fixed number of
//! centroids by rounds of assignment and recomputation, until a round forms
//! the groups that the round before it formed.
//!
//! - [`k_means`] holds the engine and its steps.
//! - [`model`] says what a run of the engine is, round by round.
//! - [`theorems`] proves what holds of every run.
//! - [`order`] says what the engine needs of a point type, and sorts.
//! - [`point`] is a point type for the plane, with its centroid function.

pub mod k_means;
pub mod model;
pub mod order;
pub mod point;
pub mod theorems;
