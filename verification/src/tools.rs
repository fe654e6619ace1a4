//! What a click on the map does with each editing tool.
use vstd::prelude::*;
use crate::map::command::FillCommand;
use crate::map::graph::ProvinceColor;

verus! {

/// The editing tools.
#[derive(Debug, Clone, Copy, PartialEq, Eq, Structural)]
pub enum ActiveTool {
    Inspect,
    Eyedropper,
    Fill,
    Brush,
    NewProvince,
    BoxSelect,
}

/// What a click on a province does.
#[derive(Debug)]
pub enum ClickAction {
    /// The picked colour becomes the brush colour.
    TakeColor,
    /// The picked province is recoloured with the brush colour.
    Fill(FillCommand),
    /// Filling needs a brush colour first.
    NeedBrushColor,
    /// A new province is cut out where the click was.
    NewProvince,
    /// Nothing happens.
    Nothing,
}

/// What a click with `tool` on a province of colour `picked` does, with the brush
/// colour `brush`. The brush paints while dragging, not on a click.
pub fn click_action(tool: ActiveTool, picked: ProvinceColor, brush: Option<ProvinceColor>) -> (a: ClickAction)
    ensures
        match tool {
            ActiveTool::Inspect | ActiveTool::Eyedropper => a is TakeColor,
            ActiveTool::Fill => match brush {
                Some(b) => a matches ClickAction::Fill(c) && c.from_color == picked && c.to_color == b && c.history@.len() == 0,
                None => a is NeedBrushColor,
            },
            ActiveTool::NewProvince => a is NewProvince,
            ActiveTool::Brush | ActiveTool::BoxSelect => a is Nothing,
        },
{
    match tool {
        ActiveTool::Inspect | ActiveTool::Eyedropper => ClickAction::TakeColor,
        ActiveTool::Fill => match brush {
            Some(b) => ClickAction::Fill(FillCommand::new(picked, b)),
            None => ClickAction::NeedBrushColor,
        },
        ActiveTool::NewProvince => ClickAction::NewProvince,
        ActiveTool::Brush | ActiveTool::BoxSelect => ClickAction::Nothing,
    }
}

/// The colour of a stroke started with the brush colour `brush`: white when none is chosen.
pub fn stroke_color(brush: Option<ProvinceColor>) -> (c: ProvinceColor)
    ensures
        c == match brush {
            Some(b) => b,
            None => ProvinceColor { r: 255, g: 255, b: 255 },
        },
{
    match brush {
        Some(b) => b,
        None => ProvinceColor::new(255, 255, 255),
    }
}

} // verus!
