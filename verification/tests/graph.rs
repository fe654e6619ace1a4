use std::collections::HashMap;
use world_smith::map::graph::{check_buffer, ProvinceColor, ProvinceGraph};

#[test]
fn test_province_color_key_roundtrip() {
    let color = ProvinceColor::new(128, 64, 255);
    let key = color.to_key();
    let back = ProvinceColor::from_key(key);
    assert_eq!(color, back);
}

#[test]
fn test_build_simple_graph() {
    let pixels: Vec<u8> = vec![255, 0, 0, 0, 0, 255, 255, 0, 0, 0, 0, 255];
    let mut color_id_map = HashMap::new();
    let red_key = (255u32) << 16;
    let blue_key = 255u32;
    color_id_map.insert(red_key, 1u32);
    color_id_map.insert(blue_key, 2u32);

    let graph = ProvinceGraph::build_from_pixels(&pixels, 2, 2, &color_id_map);

    assert_eq!(graph.province_count(), 2);
    assert!(graph.neighbors(1).unwrap().contains(&2));
    assert!(graph.neighbors(2).unwrap().contains(&1));
}

#[test]
fn color_key_formula() {
    assert_eq!(ProvinceColor::new(0x12, 0x34, 0x56).to_key(), 0x123456);
    assert_eq!(ProvinceColor::from_key(0x00abcdef), ProvinceColor::new(0xab, 0xcd, 0xef));
    assert_eq!(ProvinceColor::from_key(0xff010203), ProvinceColor::new(1, 2, 3));
}

#[test]
fn province_statistics_of_a_built_graph() {
    // 3x2: red red blue / green blue blue
    let pixels: Vec<u8> = vec![
        255, 0, 0, 255, 0, 0, 0, 0, 255, //
        0, 255, 0, 0, 0, 255, 0, 0, 255,
    ];
    let mut colors = HashMap::new();
    colors.insert(0xff0000u32, 1u32);
    colors.insert(0x0000ffu32, 2u32);
    colors.insert(0x00ff00u32, 3u32);
    let graph = ProvinceGraph::build_from_pixels(&pixels, 3, 2, &colors);
    assert_eq!(graph.province_count(), 3);
    let blue = graph.get_province(2).unwrap();
    assert_eq!(blue.pixel_count, 3);
    assert_eq!(blue.sum_x, 2 + 1 + 2);
    assert_eq!(blue.sum_y, 0 + 1 + 1);
    assert_eq!(blue.bounds, [1, 0, 2, 1]);
    assert_eq!(blue.color, ProvinceColor::new(0, 0, 255));
    let red = graph.get_province(1).unwrap();
    assert_eq!(red.bounds, [0, 0, 1, 0]);
    // borders go both ways
    for (a, b) in [(1u32, 2u32), (1, 3), (2, 3)] {
        assert!(graph.neighbors(a).unwrap().contains(&b));
        assert!(graph.neighbors(b).unwrap().contains(&a));
    }
    assert!(!graph.neighbors(1).unwrap().contains(&1));
    assert_eq!(graph.id_from_color(&ProvinceColor::new(0, 255, 0)), Some(3));
    assert_eq!(graph.id_from_color(&ProvinceColor::new(1, 1, 1)), None);
    assert_eq!(graph.provinces().len(), 3);
}

#[test]
fn unknown_colours_make_no_province() {
    let pixels: Vec<u8> = vec![9, 9, 9, 255, 0, 0];
    let mut colors = HashMap::new();
    colors.insert(0xff0000u32, 1u32);
    let graph = ProvinceGraph::build_from_pixels(&pixels, 2, 1, &colors);
    assert_eq!(graph.province_count(), 1);
    assert!(graph.neighbors(1).is_none());
    assert!(graph.get_province(5).is_none());
}

#[test]
fn update_pixel_moves_a_pixel_between_provinces() {
    let pixels: Vec<u8> = vec![255, 0, 0, 0, 0, 255];
    let mut colors = HashMap::new();
    colors.insert(0xff0000u32, 1u32);
    colors.insert(0x0000ffu32, 2u32);
    let mut graph = ProvinceGraph::build_from_pixels(&pixels, 2, 1, &colors);
    assert!(graph.can_take_pixel(Some(2), 0, 0));
    graph.update_pixel(0, 0, Some(1), Some(2));
    assert_eq!(graph.get_province(1).unwrap().pixel_count, 0);
    let blue = graph.get_province(2).unwrap();
    assert_eq!(blue.pixel_count, 2);
    assert_eq!(blue.sum_x, 1);
    assert_eq!(blue.bounds, [0, 0, 1, 0]);
    // the same province on both sides changes nothing
    graph.update_pixel(1, 0, Some(2), Some(2));
    assert_eq!(graph.get_province(2).unwrap().pixel_count, 2);
}

#[test]
fn buffer_check() {
    assert!(check_buffer(&[0u8; 12], 2, 2));
    assert!(!check_buffer(&[0u8; 11], 2, 2));
    assert!(check_buffer(&[], 0, 5));
    assert!(!check_buffer(&[], 100000, 100000));
}

#[test]
fn new_graph_is_empty() {
    let graph = ProvinceGraph::new();
    assert_eq!(graph.province_count(), 0);
    assert!(graph.neighbors(1).is_none());
}

#[test]
fn moving_a_pixel_there_and_back_restores_the_statistics() {
    // 2x1: red blue
    let pixels: Vec<u8> = vec![255, 0, 0, 0, 0, 255];
    let mut color_id_map = HashMap::new();
    color_id_map.insert(255u32 << 16, 1u32);
    color_id_map.insert(255u32, 2u32);
    let mut graph = ProvinceGraph::build_from_pixels(&pixels, 2, 1, &color_id_map);
    let red = *graph.get_province(1).unwrap();
    let blue = *graph.get_province(2).unwrap();
    graph.update_pixel(0, 0, Some(1), Some(2));
    assert_eq!(graph.get_province(1).unwrap().pixel_count, 0);
    assert_eq!(graph.get_province(2).unwrap().pixel_count, 2);
    graph.update_pixel(0, 0, Some(2), Some(1));
    let red2 = graph.get_province(1).unwrap();
    let blue2 = graph.get_province(2).unwrap();
    assert_eq!((red2.pixel_count, red2.sum_x, red2.sum_y), (red.pixel_count, red.sum_x, red.sum_y));
    assert_eq!((blue2.pixel_count, blue2.sum_x, blue2.sum_y), (blue.pixel_count, blue.sum_x, blue.sum_y));
}
