//! A verified wave-function-collapse grid generator.
//!
//! Every cell of a toroidal 2-D grid starts as a superposition of all
//! tile states; repeatedly the cell with the fewest remaining candidates
//! is collapsed to a single state and the directional adjacency
//! constraints are propagated to a fixpoint (arc consistency), until the
//! whole grid is resolved or some cell runs out of candidates.
#![allow(non_snake_case)]

pub mod candidate;
pub mod entropy;
pub mod laws;
pub mod tiles;
pub mod wave;
