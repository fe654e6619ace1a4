use world_smith::map::definition::DefinitionTable;
use world_smith::text::trim_chars;

#[test]
fn white_space_is_what_the_standard_library_trims() {
    for code in 0u32..=0x10FFFF {
        if let Some(c) = char::from_u32(code) {
            assert_eq!(trim_chars(&[c]).is_empty(), c.is_whitespace(), "U+{:04X}", code);
        }
    }
}

#[test]
fn numbers_are_written_in_decimal() {
    let csv = "4294967295;255;0;9;land;false;plains;0\n10;100;20;3;sea;true;ocean;12\n";
    let table = DefinitionTable::parse(csv).unwrap();
    assert_eq!(table.to_csv(), csv);
}
