# World Smith

A map editor for the provinces of a Hearts of Iron IV map: it reads
`provinces.bmp` and `definition.csv`, builds the province graph, and edits the
map with undoable commands (fill, brush strokes, new provinces cut out of a
region, bulk property edits, hex map generation), then writes the files back.

## Layout

- `src/` — the library, verified with Verus:
  - `command.rs` — the command trait and the undo/redo history.
  - `text.rs` — trimming, splitting, line breaking and decimal numbers, as the
    standard library does them.
  - `map/definition.rs` — reading and writing `definition.csv`, the definition
    table and its operations.
  - `map/graph.rs` — province colours, the province graph (statistics and
    4-neighbour adjacency) built from the pixels.
  - `map/pixels.rs` — the RGB pixel buffer.
  - `map/bmp.rs` — decoding `provinces.bmp` to exact RGB pixels and encoding
    pixels as an uncompressed BMP (the `image` crate does the codec work).
  - `map/region.rs` — connected regions (flood fill), picking and inspecting the
    province under the pointer, recolouring a province.
  - `map/command.rs` — the editing commands with their undo.
  - `renderer.rs`, `painter.rs`, `tools.rs` — changed-region tracking, painter
    modes, and what a click does with each tool.
  - `vfs.rs` — the search order of a Paradox game (mod before game).
  - `rng.rs` — the seeded random number generator (xoshiro256++ seeded through
    SplitMix64), whose outputs are a function of the seed and the draw count.
  - `i18n.rs` — the checks made while translation files are loaded, the choice
    of locale and the rule for a missing translation.
- `tests/` — tests of the library.
- `app/` — the program around it: the egui window, file input and output, Fluent bundles and message formatting, floating-point view and hex-grid
  geometry, and the spatial index of province centroids.
