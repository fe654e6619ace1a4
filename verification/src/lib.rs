//! World Smith: the map-editing core of a Hearts of Iron IV map tool.
//!
//! Province definitions (`definition.csv`), the province graph built from a
//! `provinces.bmp` pixel buffer, editing commands with undo/redo, and the
//! bookkeeping around them.
pub mod command;
pub mod text;
pub mod map;
pub mod renderer;
pub mod painter;
pub mod vfs;
pub mod rng;
pub mod i18n;
pub mod tools;
