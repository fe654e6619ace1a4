use world_smith::map::definition::{ColorChannel, DefinitionError, DefinitionTable, ProvinceType};
use world_smith::map::graph::ProvinceColor;

#[test]
fn test_parse_definition_csv() {
    let csv = r#"province;red;green;blue;type;coastal;terrain;continent
1;128;0;64;land;false;plains;1
2;0;128;255;sea;false;ocean;0
3;64;64;64;lake;false;lakes;1
"#;
    let table = DefinitionTable::parse(csv).unwrap();
    assert_eq!(table.entries().len(), 3);
    assert_eq!(table.get(1).unwrap().terrain, "plains");
    assert_eq!(table.get(2).unwrap().province_type, ProvinceType::Sea);
}

#[test]
fn test_allocate_unused_color() {
    let table = DefinitionTable::new();
    let color = table.allocate_unused_color().unwrap();
    assert!(color.r >= 1 || color.g >= 1 || color.b >= 1);
}

#[test]
fn allocate_takes_the_first_free_key() {
    let csv = "1;1;0;0;land;false;plains;1\n2;1;0;1;land;false;plains;1\n3;1;0;3;land;false;plains;1\n";
    let table = DefinitionTable::parse(csv).unwrap();
    assert_eq!(table.allocate_unused_color(), Some(ProvinceColor::new(1, 0, 2)));
    let empty = DefinitionTable::new();
    assert_eq!(empty.allocate_unused_color(), Some(ProvinceColor::new(1, 0, 0)));
}

#[test]
fn roundtrip_through_csv_text() {
    let csv = "1;100;200;50;land;true;forest;2\n";
    let table = DefinitionTable::parse(csv).unwrap();
    let text = table.to_csv();
    assert_eq!(text, csv);
    let table2 = DefinitionTable::parse(&text).unwrap();
    assert_eq!(table2.entries().len(), 1);
    assert_eq!(table2.get(1).unwrap().color.r, 100);
}

#[test]
fn csv_roundtrip_keeps_headers_kinds_and_extras() {
    let csv = "# comment\nprovince;red;green;blue;type;coastal;terrain;continent\n\
               1;10;20;30;sea;false;ocean;0\n\
               2;40;50;60;river;true;hills;3;extra1;;x\n";
    let table = DefinitionTable::parse(csv).unwrap();
    assert_eq!(table.to_csv(), csv);
    let again = DefinitionTable::parse(&table.to_csv()).unwrap();
    assert_eq!(again.entries().len(), 2);
    let second = again.get(2).unwrap();
    assert_eq!(second.province_type, ProvinceType::Unknown("river".to_string()));
    assert!(second.is_coastal);
    assert_eq!(second.raw_extra_fields, vec!["extra1".to_string(), String::new(), "x".to_string()]);
    assert_eq!(again.color_id_map().get(&0x28323c), Some(&2));
}

#[test]
fn parse_trims_and_lowercases_fields() {
    let csv = "  7 ; 1 ;2; 3 ; LAND ; TRUE ; farmlands ; 4 \n";
    let table = DefinitionTable::parse(csv).unwrap();
    let d = table.get(7).unwrap();
    assert_eq!(d.color, ProvinceColor::new(1, 2, 3));
    assert_eq!(d.province_type, ProvinceType::Land);
    assert!(d.is_coastal);
    assert_eq!(d.terrain, "farmlands");
    assert_eq!(d.continent, 4);
}

#[test]
fn parse_reports_a_bad_colour_channel() {
    let csv = "title line\n1;300;0;0;land;false;plains;1\n";
    match DefinitionTable::parse(csv) {
        Err(e) => assert_eq!(e, DefinitionError::InvalidColor { line: 2, channel: ColorChannel::Red }),
        Ok(_) => panic!("a red channel of 300 was accepted"),
    }
    match DefinitionTable::parse("1;0;0;x;land;false;plains;1\n") {
        Err(e) => assert_eq!(e, DefinitionError::InvalidColor { line: 1, channel: ColorChannel::Blue }),
        Ok(_) => panic!("a blue channel of x was accepted"),
    }
}

#[test]
fn short_data_lines_take_the_defaults() {
    let table = DefinitionTable::parse("7;10;20;30;sea\n").unwrap();
    assert_eq!(table.entries().len(), 1);
    let d = table.get(7).unwrap();
    assert_eq!(d.color, ProvinceColor::new(10, 20, 30));
    assert_eq!(d.province_type, ProvinceType::Sea);
    assert!(!d.is_coastal);
    assert_eq!(d.terrain, "unknown");
    assert_eq!(d.continent, 0);
    assert!(d.raw_extra_fields.is_empty());
    let six = DefinitionTable::parse("1;0;0;0;land;TRUE\n").unwrap();
    assert!(six.get(1).unwrap().is_coastal);
    assert_eq!(six.get(1).unwrap().terrain, "unknown");
    let seven = DefinitionTable::parse("1;0;0;0;land;false; hills \n").unwrap();
    assert_eq!(seven.get(1).unwrap().terrain, "hills");
    assert_eq!(seven.get(1).unwrap().continent, 0);
}

#[test]
fn lines_after_the_first_data_line_that_are_not_data_are_skipped() {
    let csv = "header\n1;1;1;1;land;false;plains;1\n# late comment\n2;2;2;2;lake;false;lakes;1\n";
    let table = DefinitionTable::parse(csv).unwrap();
    assert_eq!(table.entries().len(), 2);
    assert_eq!(table.to_csv(), "header\n1;1;1;1;land;false;plains;1\n2;2;2;2;lake;false;lakes;1\n");
}

#[test]
fn add_then_remove_gives_the_lines_back() {
    let csv = "1;1;0;0;land;false;plains;1\n5;2;0;0;sea;false;ocean;0\n";
    let mut table = DefinitionTable::parse(csv).unwrap();
    let before = table.to_csv();
    let id = table.add_province(ProvinceColor::new(9, 9, 9), ProvinceType::Lake, "lakes", 3);
    assert_eq!(id, 6);
    assert!(table.get(6).is_some());
    assert_eq!(table.color_id_map().get(&0x090909), Some(&6));
    table.remove(id);
    assert_eq!(table.to_csv(), before);
    assert_eq!(table.color_id_map().get(&0x090909), None);
}

#[test]
fn added_id_is_one_more_than_the_largest() {
    let mut table = DefinitionTable::new();
    assert_eq!(table.add_province(ProvinceColor::new(1, 0, 0), ProvinceType::Land, "plains", 1), 1);
    assert_eq!(table.add_province(ProvinceColor::new(1, 0, 1), ProvinceType::Land, "plains", 1), 2);
    let mut other = DefinitionTable::parse("40;1;0;0;land;false;plains;1\n3;2;0;0;land;false;plains;1\n").unwrap();
    assert_eq!(other.add_province(ProvinceColor::new(3, 0, 0), ProvinceType::Sea, "ocean", 0), 41);
}

#[test]
fn can_add_province_is_false_at_the_largest_id() {
    let table = DefinitionTable::parse("4294967295;1;0;0;land;false;plains;1\n").unwrap();
    assert!(!table.can_add_province());
    assert!(DefinitionTable::new().can_add_province());
}

#[test]
fn get_mut_changes_the_first_line_of_an_id() {
    let mut table = DefinitionTable::parse("1;1;0;0;land;false;plains;1\n1;2;0;0;sea;false;ocean;0\n").unwrap();
    table.get_mut(1).unwrap().terrain = "hills".to_string();
    assert_eq!(table.entries()[0].terrain, "hills");
    assert_eq!(table.entries()[1].terrain, "ocean");
    assert!(table.get_mut(9).is_none());
}

#[test]
fn used_colors_are_the_keys_of_the_lookup() {
    let table = DefinitionTable::parse("1;1;2;3;land;false;plains;1\n2;0;0;255;sea;false;ocean;0\n").unwrap();
    let used = table.used_colors();
    assert_eq!(used.len(), 2);
    assert!(used.contains(&0x010203));
    assert!(used.contains(&0x0000ff));
    assert_eq!(table.get_color_map().len(), 2);
}

#[test]
fn province_type_names() {
    assert_eq!(ProvinceType::from_str(" Sea "), ProvinceType::Sea);
    assert_eq!(ProvinceType::from_str("LAKE"), ProvinceType::Lake);
    assert_eq!(ProvinceType::from_str("land"), ProvinceType::Land);
    assert_eq!(ProvinceType::from_str(" Marsh"), ProvinceType::Unknown("marsh".to_string()));
    assert_eq!(ProvinceType::Land.as_str(), "land");
    assert_eq!(ProvinceType::Unknown("marsh".to_string()).as_str(), "marsh");
}

#[test]
fn duplicate_keeps_every_line() {
    let table = DefinitionTable::parse("title\n1;1;2;3;land;true;plains;1;a\n").unwrap();
    let copy = table.duplicate();
    assert_eq!(copy.to_csv(), table.to_csv());
    assert_eq!(copy.get(1).unwrap().raw_extra_fields, vec!["a".to_string()]);
}

#[test]
fn data_lines_read_back_whatever_the_header_lines_end_with() {
    let csv = "title;\r\r\n1;10;0;0;land;false;plains;1\n2;20;0;0;sea;true;ocean;0;x;y\n";
    let table = DefinitionTable::parse(csv).unwrap();
    let written = table.to_csv();
    let again = DefinitionTable::parse(&written).unwrap();
    assert_eq!(again.entries().len(), 2);
    for (a, b) in table.entries().iter().zip(again.entries().iter()) {
        assert_eq!(a.id, b.id);
        assert_eq!(a.color, b.color);
        assert_eq!(a.province_type, b.province_type);
        assert_eq!(a.is_coastal, b.is_coastal);
        assert_eq!(a.terrain, b.terrain);
        assert_eq!(a.continent, b.continent);
        assert_eq!(a.raw_extra_fields, b.raw_extra_fields);
    }
    // the header line comes back without one carriage return
    assert!(written.starts_with("title;\r\n"));
    assert!(again.to_csv().starts_with("title;\n"));
}
