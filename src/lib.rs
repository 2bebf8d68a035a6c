//! A multi-resolution spatial index over integer grid positions.
//!
//! Positions live on an integer grid. The index keeps a ladder of
//! progressively coarser copies of a point set, each coarsening step
//! dropping low-order bits of every coordinate, and answers lookups by
//! identifier, by exact positions and by rasterised shapes.

pub mod coordinate;
pub mod position;
pub mod shape;
pub mod seqs;
pub mod space_index;
pub mod ladder;
pub mod space_db;
