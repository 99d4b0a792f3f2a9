//! Lobby-map graph extraction and label rendering.
//!
//! The crate turns a decoded game level into a labeled spatial graph (spawn
//! point, ordered chapter anchors, ordered warp anchors, an optional door
//! anchor), persists the label-to-position map as canonical text, and plans
//! the drawing of labels and directed edges over a raster image.  All
//! coordinates are whole pixels; every ordering used for tie-breaks is total,
//! so extraction and drawing are fully reproducible.

pub mod bytes;
pub mod codec;
pub mod extract;
pub mod labels;
pub mod level;
pub mod nodemap;
pub mod plan;
pub mod render;

use vstd::prelude::*;

verus! {

/// A point in map or canvas space, in whole pixels.
#[derive(Clone, Copy, PartialEq, Eq, Structural, Debug)]
pub struct Pos {
    pub x: i64,
    pub y: i64,
}

/// Largest coordinate magnitude the crate works with; squares and sums of
/// bounded coordinates then stay well inside `i64`.
pub const COORD_BOUND: i64 = 0x2000_0000;

/// Keyword of the image metadata chunk that carries the node-map text.
pub const PNG_MAGIC_STR: &'static str = "Draw List";

/// A position whose coordinates are small enough for the arithmetic below.
pub open spec fn coord_ok(p: Pos) -> bool {
    -COORD_BOUND <= p.x <= COORD_BOUND && -COORD_BOUND <= p.y <= COORD_BOUND
}

/// Why an operation failed; the pipeline is fail-fast and never retries.
#[derive(Clone, Copy, PartialEq, Eq, Structural, Debug)]
pub enum Failure {
    /// A required anchor, attribute, or identifier is absent.
    MissingData,
    /// The persisted text cannot be decoded.
    MalformedInput,
    /// An edge or path token names a label absent from the node map.
    UnresolvedReference,
}

} // verus!
