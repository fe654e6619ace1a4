use world_smith::map::graph::ProvinceColor;
use world_smith::tools::{click_action, stroke_color, ActiveTool, ClickAction};

#[test]
fn clicks_of_each_tool() {
    let picked = ProvinceColor::new(1, 2, 3);
    let brush = ProvinceColor::new(4, 5, 6);
    assert!(matches!(click_action(ActiveTool::Inspect, picked, None), ClickAction::TakeColor));
    assert!(matches!(click_action(ActiveTool::Eyedropper, picked, Some(brush)), ClickAction::TakeColor));
    match click_action(ActiveTool::Fill, picked, Some(brush)) {
        ClickAction::Fill(cmd) => {
            assert_eq!(cmd.from_color, picked);
            assert_eq!(cmd.to_color, brush);
        }
        other => panic!("{:?}", other),
    }
    assert!(matches!(click_action(ActiveTool::Fill, picked, None), ClickAction::NeedBrushColor));
    assert!(matches!(click_action(ActiveTool::NewProvince, picked, None), ClickAction::NewProvince));
    assert!(matches!(click_action(ActiveTool::Brush, picked, Some(brush)), ClickAction::Nothing));
    assert!(matches!(click_action(ActiveTool::BoxSelect, picked, None), ClickAction::Nothing));
}

#[test]
fn stroke_colour_is_white_without_a_brush_colour() {
    assert_eq!(stroke_color(None), ProvinceColor::new(255, 255, 255));
    assert_eq!(stroke_color(Some(ProvinceColor::new(7, 8, 9))), ProvinceColor::new(7, 8, 9));
}
