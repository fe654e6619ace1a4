use std::collections::HashSet;
use std::path::PathBuf;
use world_smith::map::definition::DefinitionTable;
use world_smith::map::graph::{ProvinceColor, ProvinceGraph};
use world_smith::map::region::connected_region;
use world_smith::map::ProjectState;

const A: ProvinceColor = ProvinceColor { r: 10, g: 0, b: 0 };
const B: ProvinceColor = ProvinceColor { r: 20, g: 0, b: 0 };
const C: ProvinceColor = ProvinceColor { r: 30, g: 0, b: 0 };
const D: ProvinceColor = ProvinceColor { r: 40, g: 0, b: 0 };

fn bytes(colors: &[ProvinceColor]) -> Vec<u8> {
    let mut v = Vec::new();
    for c in colors {
        v.push(c.r);
        v.push(c.g);
        v.push(c.b);
    }
    v
}

fn project_of(colors: &[ProvinceColor], width: u32, height: u32) -> ProjectState {
    let pixels = bytes(colors);
    let definitions = DefinitionTable::parse(
        "1;10;0;0;land;false;plains;1\n2;20;0;0;sea;false;ocean;0\n3;30;0;0;land;true;hills;2\n",
    )
    .unwrap();
    let graph = ProvinceGraph::build_from_pixels(&pixels, width, height, definitions.color_id_map());
    ProjectState { pixels, width, height, definitions, graph, project_dir: PathBuf::new(), dirty_rect: None }
}

fn set(v: Vec<(u32, u32)>) -> HashSet<(u32, u32)> {
    let n = v.len();
    let s: HashSet<(u32, u32)> = v.into_iter().collect();
    assert_eq!(s.len(), n, "a pixel came twice");
    s
}

#[test]
fn region_follows_four_neighbours_of_one_colour() {
    // A A B
    // B A B
    // A B A
    let pixels = bytes(&[A, A, B, B, A, B, A, B, A]);
    let r = set(connected_region(&pixels, 3, 3, 0, 0));
    assert_eq!(r, [(0, 0), (1, 0), (1, 1)].into_iter().collect());
    let corner = set(connected_region(&pixels, 3, 3, 2, 2));
    assert_eq!(corner, [(2, 2)].into_iter().collect());
    let right = set(connected_region(&pixels, 3, 3, 2, 1));
    assert_eq!(right, [(2, 0), (2, 1)].into_iter().collect());
}

#[test]
fn region_of_a_single_colour_map_is_the_whole_map() {
    let pixels = bytes(&[D; 12]);
    let r = set(connected_region(&pixels, 4, 3, 3, 2));
    assert_eq!(r.len(), 12);
}

#[test]
fn pick_province_reads_the_pixel_and_the_lookup() {
    let p = project_of(&[A, A, B, A, C, D], 3, 2);
    assert_eq!(p.pick_province_at(1, 1), Some((3, C)));
    assert_eq!(p.pick_province_at(2, 0), Some((2, B)));
    assert_eq!(p.pick_province_at(2, 1), None);
    assert_eq!(p.pick_province_at(-1, 0), None);
    assert_eq!(p.pick_province_at(0, 2), None);
}

#[test]
fn inspector_shows_the_province_under_the_pointer() {
    let p = project_of(&[A, A, B, A, C, B], 3, 2);
    let info = p.inspect_at(0, 1).unwrap();
    assert_eq!(info.id, 1);
    assert_eq!(info.color, A);
    assert_eq!(info.province_type, "land");
    assert_eq!(info.terrain, "plains");
    assert_eq!(info.pixel_count, 3);
    assert_eq!(info.neighbor_count, 2);
    let sea = p.inspect_at(2, 1).unwrap();
    assert_eq!(sea.province_type, "sea");
    assert_eq!(sea.neighbor_count, 2);
    assert!(p.inspect_at(5, 5).is_none());
}

#[test]
fn inspector_without_a_definition_line_says_unknown() {
    let mut p = project_of(&[A, B], 2, 1);
    p.definitions.remove(1);
    let info = p.inspect_at(0, 0).unwrap();
    assert_eq!(info.province_type, "不明");
    assert_eq!(info.terrain, "不明");
}

#[test]
fn recolouring_a_province_rebuilds_the_graph() {
    let mut p = project_of(&[A, A, B, A, C, B], 3, 2);
    assert!(p.fill_province_color(A, C));
    assert_eq!(p.pixels, bytes(&[C, C, B, C, C, B]));
    assert_eq!(p.graph.province_count(), 2);
    assert_eq!(p.graph.get_province(3).unwrap().pixel_count, 4);
    assert!(!p.fill_province_color(D, B));
    assert!(!p.fill_province_color(B, B));
    assert_eq!(p.pixels, bytes(&[C, C, B, C, C, B]));
}
