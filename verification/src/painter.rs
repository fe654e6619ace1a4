//! Painter settings.
use vstd::prelude::*;

verus! {

/// The grid or point mode of the painter.
#[derive(Debug, Clone, Copy, PartialEq, Eq)]
pub enum GridMode {
    /// No grid and no points.
    NoGrid,
    VoronoiPoints,
    HexGrid,
}

} // verus!
