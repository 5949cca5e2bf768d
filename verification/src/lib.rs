//! A bicycle-aware routing core.
//!
//! The library turns a street graph and crowd-sourced cyclability ratings
//! into traversal costs, finds a best path between two points on that
//! graph, reconstructs the path's geometry, and merges partial path
//! results.  All coordinates are fixed-point integers (millionths of a
//! unit) and all scores are fixed-point integers (ten-thousandths), so
//! every computation here is exact and verified; reading the street
//! network and rendering the results are the embedding application's
//! business.

pub mod codec;
pub mod cost;
pub mod graph;
pub mod locate;
pub mod merge;
pub mod panel;
pub mod route;
pub mod score;
pub mod ways;

use vstd::prelude::*;

verus! {

/// The state of the segment-editing controls: a row of buttons that is
/// either idle or in editing mode.
pub struct EditButtons {
    pub editing: bool,
}

/// The initial editing controls: not editing yet.
pub fn get_start_buttons() -> (r: EditButtons)
    ensures
        !r.editing,
{
    EditButtons { editing: false }
}

} // verus!
