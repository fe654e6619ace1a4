//! The map data: province definitions, the province graph and the editing commands.
pub mod command;
pub mod definition;
pub mod graph;
pub mod pixels;
pub mod region;
pub mod bmp;

use vstd::prelude::*;
use std::path::PathBuf;
use crate::map::definition::DefinitionTable;
use crate::map::graph::ProvinceGraph;
use crate::renderer::DirtyRect;

verus! {

/// A loaded map project.
pub struct ProjectState {
    /// The RGB pixels of `provinces.bmp`, 3 bytes per pixel, row by row.
    pub pixels: Vec<u8>,
    pub width: u32,
    pub height: u32,
    /// The province definitions.
    pub definitions: DefinitionTable,
    /// The province graph.
    pub graph: ProvinceGraph,
    /// The directory the project was loaded from.
    pub project_dir: PathBuf,
    /// The changed part of the map, for updating its texture; `None` when nothing changed.
    pub dirty_rect: Option<DirtyRect>,
}

} // verus!
