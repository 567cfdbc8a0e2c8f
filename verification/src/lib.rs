//! Wave-function-collapse texture synthesis.
//!
//! A sample image, given as a grid of packed pixel values, is decomposed into
//! fixed-size tiles.  The model builder assigns each distinct tile a stable
//! identifier and an occurrence weight, and mines directed adjacency rules
//! from every 4-connected pair of sample positions.  The collapse solver then
//! fills an output grid: it repeatedly collapses one cell to a single tile by
//! a weighted random draw and restricts the immediate neighbours' candidate
//! sets, retrying the whole attempt when a candidate set empties out.

use vstd::prelude::*;

pub mod catalog;
pub mod direction;
pub mod generator;
pub mod rng;
pub mod rules;
pub mod tile;

verus! {

/// Everything that can go wrong while building a model or generating output.
#[derive(Clone, Copy, Debug, PartialEq, Eq, Structural)]
pub enum WfcError {
    /// The sample grid is empty, ragged, or not divisible into tiles.
    InvalidSampleDimensions,
    /// The requested output width or height is zero.
    InvalidDimensions,
    /// A cell's candidate set emptied out; the attempt is discarded.
    Contradiction,
    /// Every attempt within the configured limit hit a contradiction.
    GenerationFailed,
}

} // verus!
