use std::collections::{HashMap, HashSet};
use std::path::PathBuf;
use world_smith::command::{Command, CommandError, CommandStack};
use world_smith::map::command::{
    paint_brush, EditProvincesCommand, FillCommand, GenerateHexMapCommand, NewProvinceCommand, PaintStrokeCommand,
};
use world_smith::map::definition::{DefinitionTable, ProvinceType};
use world_smith::map::graph::{ProvinceColor, ProvinceGraph};
use world_smith::map::ProjectState;
use world_smith::renderer::DirtyRect;

const A: ProvinceColor = ProvinceColor { r: 10, g: 0, b: 0 };
const B: ProvinceColor = ProvinceColor { r: 20, g: 0, b: 0 };
const C: ProvinceColor = ProvinceColor { r: 30, g: 0, b: 0 };
const D: ProvinceColor = ProvinceColor { r: 40, g: 0, b: 0 };

const CSV: &str = "1;10;0;0;land;false;plains;1\n2;20;0;0;sea;false;ocean;0\n3;30;0;0;land;true;hills;2\n";

fn bytes(colors: &[ProvinceColor]) -> Vec<u8> {
    let mut v = Vec::new();
    for c in colors {
        v.push(c.r);
        v.push(c.g);
        v.push(c.b);
    }
    v
}

/// A 3 by 2 map: `A A B` over `A C B`.
fn project() -> ProjectState {
    let pixels = bytes(&[A, A, B, A, C, B]);
    let definitions = DefinitionTable::parse(CSV).unwrap();
    let graph = ProvinceGraph::build_from_pixels(&pixels, 3, 2, definitions.color_id_map());
    ProjectState { pixels, width: 3, height: 2, definitions, graph, project_dir: PathBuf::new(), dirty_rect: None }
}

#[test]
fn fill_recolours_and_undo_gives_the_map_back() {
    let mut p = project();
    let mut cmd = FillCommand::new(A, D);
    cmd.execute(&mut p).unwrap();
    assert_eq!(p.pixels, bytes(&[D, D, B, D, C, B]));
    assert_eq!(p.dirty_rect, Some(DirtyRect { x: 0, y: 0, width: 3, height: 2 }));
    assert_eq!(p.graph.get_province(1).unwrap().pixel_count, 0);
    cmd.undo(&mut p).unwrap();
    assert_eq!(p.pixels, bytes(&[A, A, B, A, C, B]));
    assert_eq!(p.graph.get_province(1).unwrap().pixel_count, 3);
}

#[test]
fn fill_moves_pixels_between_provinces() {
    let mut p = project();
    FillCommand::apply(&mut p, A, C).unwrap();
    assert_eq!(p.graph.get_province(3).unwrap().pixel_count, 4);
    assert_eq!(p.graph.get_province(1).unwrap().pixel_count, 0);
}

#[test]
fn fill_on_a_short_buffer_is_refused() {
    let mut p = project();
    p.pixels.truncate(10);
    let mut cmd = FillCommand::new(A, D);
    assert_eq!(cmd.execute(&mut p), Err(CommandError::InvalidContext));
    let mut same = FillCommand::new(A, A);
    assert_eq!(same.execute(&mut p), Ok(()));
}

#[test]
fn stroke_paints_and_undo_restores() {
    let mut p = project();
    let mut stroke = PaintStrokeCommand { color: C, history: vec![(0, 0, A), (2, 0, B)] };
    stroke.execute(&mut p).unwrap();
    assert_eq!(p.pixels, bytes(&[C, A, C, A, C, B]));
    assert_eq!(p.dirty_rect, Some(DirtyRect { x: 0, y: 0, width: 3, height: 1 }));
    assert_eq!(p.graph.get_province(3).unwrap().pixel_count, 3);
    stroke.undo(&mut p).unwrap();
    assert_eq!(p.pixels, bytes(&[A, A, B, A, C, B]));
    assert_eq!(p.graph.get_province(3).unwrap().pixel_count, 1);
}

#[test]
fn stroke_outside_the_map_is_refused() {
    let mut p = project();
    let mut stroke = PaintStrokeCommand { color: C, history: vec![(5, 0, A)] };
    assert_eq!(stroke.execute(&mut p), Err(CommandError::InvalidContext));
    assert_eq!(p.pixels, bytes(&[A, A, B, A, C, B]));
}

#[test]
fn brush_records_only_pixels_of_another_colour() {
    let mut p = project();
    let mut stroke = PaintStrokeCommand { color: C, history: Vec::new() };
    let area = DirtyRect { x: 0, y: 0, width: 2, height: 2 };
    paint_brush(&mut p, &mut stroke, &vec![(0, 0), (1, 0), (1, 1), (0, 0)], C, area).unwrap();
    assert_eq!(stroke.history, vec![(0, 0, A), (1, 0, A)]);
    assert_eq!(p.pixels, bytes(&[C, C, B, A, C, B]));
    assert_eq!(p.dirty_rect, Some(area));
    assert_eq!(p.graph.get_province(1).unwrap().pixel_count, 1);
    // taking the stroke back gives the map back
    stroke.undo(&mut p).unwrap();
    assert_eq!(p.pixels, bytes(&[A, A, B, A, C, B]));
}

#[test]
fn brush_that_changes_nothing_keeps_the_changed_region() {
    let mut p = project();
    let mut stroke = PaintStrokeCommand { color: C, history: Vec::new() };
    paint_brush(&mut p, &mut stroke, &vec![(1, 1)], C, DirtyRect { x: 1, y: 1, width: 1, height: 1 }).unwrap();
    assert!(stroke.history.is_empty());
    assert_eq!(p.dirty_rect, None);
    let r = paint_brush(&mut p, &mut stroke, &vec![(3, 1)], C, DirtyRect { x: 1, y: 1, width: 1, height: 1 });
    assert_eq!(r, Err(CommandError::InvalidContext));
}

#[test]
fn new_province_paints_its_region_and_undo_restores_it() {
    let mut p = project();
    let cmd = p.new_province_at(0, 0).unwrap().unwrap();
    assert_eq!(cmd.old_color, A);
    assert_eq!(cmd.new_color, ProvinceColor::new(1, 0, 0));
    assert_eq!(cmd.province_type, ProvinceType::Land);
    assert_eq!(cmd.terrain, "plains");
    assert_eq!(cmd.continent, 1);
    let region: HashSet<(u32, u32)> = cmd.history.iter().cloned().collect();
    assert_eq!(region, [(0, 0), (1, 0), (0, 1)].into_iter().collect());
    let mut stack = CommandStack::<ProjectState>::new(10);
    stack.execute(Box::new(cmd), &mut p).unwrap();
    let n = ProvinceColor::new(1, 0, 0);
    assert_eq!(p.pixels, bytes(&[n, n, B, n, C, B]));
    let added = p.definitions.get(4).unwrap();
    assert_eq!(added.color, n);
    assert_eq!(added.terrain, "plains");
    assert_eq!(p.dirty_rect, Some(DirtyRect { x: 0, y: 0, width: 2, height: 2 }));
    stack.undo(&mut p).unwrap();
    assert_eq!(p.pixels, bytes(&[A, A, B, A, C, B]));
    // the province the command added is gone again
    assert!(p.definitions.get(4).is_none());
    assert_eq!(p.definitions.to_csv(), DefinitionTable::parse(CSV).unwrap().to_csv());
}

#[test]
fn fill_undo_keeps_pixels_that_had_the_target_colour() {
    let mut p = project();
    let mut cmd = FillCommand::new(A, B);
    cmd.execute(&mut p).unwrap();
    assert_eq!(cmd.history, vec![(0, 0), (1, 0), (0, 1)]);
    assert_eq!(p.pixels, bytes(&[B, B, B, B, C, B]));
    cmd.undo(&mut p).unwrap();
    assert_eq!(p.pixels, bytes(&[A, A, B, A, C, B]));
    assert_eq!(p.graph.get_province(1).unwrap().pixel_count, 3);
    assert_eq!(p.graph.get_province(2).unwrap().pixel_count, 2);
}

#[test]
fn new_province_off_the_map_is_none() {
    let p = project();
    assert!(p.new_province_at(3, 0).unwrap().is_none());
    assert!(p.new_province_at(-1, 0).unwrap().is_none());
}

#[test]
fn new_province_without_a_free_id_is_refused() {
    let mut p = project();
    p.definitions = DefinitionTable::parse("4294967295;10;0;0;land;false;plains;1\n").unwrap();
    let mut cmd = NewProvinceCommand {
        new_color: D,
        old_color: A,
        province_type: ProvinceType::Land,
        terrain: "plains".to_string(),
        continent: 1,
        history: vec![(0, 0)],
        province_id: None,
    };
    assert_eq!(cmd.execute(&mut p), Err(CommandError::CounterOverflow));
    let mut off = NewProvinceCommand {
        new_color: D,
        old_color: A,
        province_type: ProvinceType::Land,
        terrain: "plains".to_string(),
        continent: 1,
        history: vec![(9, 9)],
        province_id: None,
    };
    assert_eq!(off.execute(&mut p), Err(CommandError::InvalidContext));
}

#[test]
fn edit_changes_the_chosen_lines_and_undo_restores_them() {
    let mut p = project();
    let before = p.definitions.to_csv();
    let mut cmd = EditProvincesCommand {
        province_ids: [1u32, 3, 99].into_iter().collect(),
        new_terrain: Some("forest".to_string()),
        new_province_type: None,
        new_continent: Some(5),
        history: HashMap::new(),
    };
    cmd.execute(&mut p).unwrap();
    assert_eq!(
        p.definitions.to_csv(),
        "1;10;0;0;land;false;forest;5\n2;20;0;0;sea;false;ocean;0\n3;30;0;0;land;true;forest;5\n"
    );
    assert_eq!(cmd.history.len(), 2);
    assert_eq!(cmd.history.get(&3).unwrap().0, "hills");
    cmd.undo(&mut p).unwrap();
    assert_eq!(p.definitions.to_csv(), before);
}

#[test]
fn hex_generation_gives_each_cell_a_province() {
    let mut p = project();
    let before_csv = p.definitions.to_csv();
    let cells = vec![(0, 0), (0, 0), (1, 0), (0, 1), (0, 1), (1, 0)];
    let mut cmd = GenerateHexMapCommand::new(cells);
    cmd.execute(&mut p).unwrap();
    let c0 = ProvinceColor::new(1, 0, 0);
    let c1 = ProvinceColor::new(1, 0, 1);
    let c2 = ProvinceColor::new(1, 0, 2);
    assert_eq!(p.pixels, bytes(&[c0, c0, c1, c2, c2, c1]));
    assert_eq!(
        p.definitions.to_csv(),
        "1;1;0;0;land;false;plains;1\n2;1;0;1;land;false;plains;1\n3;1;0;2;land;false;plains;1\n"
    );
    assert_eq!(p.graph.province_count(), 3);
    assert_eq!(p.dirty_rect, Some(DirtyRect { x: 0, y: 0, width: 3, height: 2 }));
    cmd.undo(&mut p).unwrap();
    assert_eq!(p.pixels, bytes(&[A, A, B, A, C, B]));
    assert_eq!(p.definitions.to_csv(), before_csv);
    assert_eq!(p.graph.province_count(), 3);
    assert_eq!(p.graph.get_province(1).unwrap().pixel_count, 3);
}

#[test]
fn hex_generation_needs_one_cell_per_pixel() {
    let mut p = project();
    let mut cmd = GenerateHexMapCommand::new(vec![(0, 0)]);
    assert_eq!(cmd.execute(&mut p), Err(CommandError::InvalidContext));
    let mut fresh = GenerateHexMapCommand::new(vec![(0, 0); 6]);
    assert_eq!(fresh.undo(&mut p), Err(CommandError::InvalidContext));
}

#[test]
fn command_descriptions() {
    assert_eq!(FillCommand::new(A, B).description(), "プロヴィンスの塗りつぶし");
    assert_eq!(PaintStrokeCommand { color: A, history: Vec::new() }.description(), "ブラシ描画");
    assert_eq!(GenerateHexMapCommand::new(Vec::new()).description(), "Hexマップの全体生成");
}
