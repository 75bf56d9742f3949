//! Grouping of the non-zero cells of a detector grid into particle tracks,
//! and classification of each track.
//!
//! - `extractor` labels the grid in one scan with a union-find over labels
//!   and gathers the cells of each set into a track.
//! - `union_find` is that forest of labels.
//! - `particle` holds one track in scan order.
//! - `classifier` turns a track's size and feature outcomes into a type,
//!   asking only for the features it reads.
//! - `viewer` holds what a display of the tracks decides: drawing, filtering
//!   by type, counting and stepping through tracks.
use vstd::prelude::*;

pub mod classifier;
pub mod extractor;
pub mod particle;
pub mod union_find;
pub mod viewer;

verus! {

} // verus!
