//! The editing commands of the map, each with its undo.
use vstd::prelude::*;
use crate::command::{Command, CommandError};
use crate::map::ProjectState;
use crate::map::definition::{
    allocatable, is_first_with_id, lemma_position_of, max_id, position_of, province_added, province_removed,
    DefinitionLine, DefinitionTable, Definitions, ProvinceKind, ProvinceType,
};
use std::collections::HashMap;
use std::collections::HashSet;
use vstd::std_specs::iter::IteratorSpec;
use crate::map::graph::{
    law_color_key_roundtrip, ProvinceGraph,
    buffer_fits, check_buffer, pixel_before, pixel_fits, pixel_moved, pixel_removed, ProvinceColor, ProvinceData, ProvinceId,
};
use crate::map::pixels::{
    all_on_map, bounds_of, color_at, distinct_positions, lemma_with_pixel, lemma_write_all, on_map, positions,
    read_pixel, same_image, lemma_same_image_equal, with_pixel, write_all, write_pixel, BoundsTracker,
};
use crate::renderer::DirtyRect;

verus! {

broadcast use vstd::std_specs::hash::group_hash_axioms;

/// The province id that `colors` gives the colour `c`.
pub open spec fn lookup(colors: Map<u32, ProvinceId>, c: ProvinceColor) -> Option<ProvinceId> {
    if colors.contains_key(c.key()) {
        Some(colors[c.key()])
    } else {
        None
    }
}

/// The whole `width` by `height` map as a rectangle.
pub open spec fn whole_map(width: u32, height: u32) -> DirtyRect {
    DirtyRect { x: 0, y: 0, width, height }
}

/// The province statistics after the pixels of colour `from` before `(x, y)` (in row
/// order) moved from province `old_id` to `new_id`, one by one.
pub open spec fn fill_graph(
    m: Map<ProvinceId, ProvinceData>,
    pixels: Seq<u8>,
    width: nat,
    from: ProvinceColor,
    old_id: Option<ProvinceId>,
    new_id: Option<ProvinceId>,
    y: nat,
    x: nat,
) -> Map<ProvinceId, ProvinceData>
    decreases y, x,
{
    if x == 0 {
        if y == 0 {
            m
        } else {
            fill_graph(m, pixels, width, from, old_id, new_id, (y - 1) as nat, width)
        }
    } else {
        let before = fill_graph(m, pixels, width, from, old_id, new_id, y, (x - 1) as nat);
        if color_at(pixels, width, x - 1, y as int) == from {
            pixel_moved(before, (x - 1) as u32, y as u32, old_id, new_id)
        } else {
            before
        }
    }
}

/// Whether every pixel move of [`fill_graph`] before `(x, y)` keeps the counters in range.
pub open spec fn fill_fits(
    m: Map<ProvinceId, ProvinceData>,
    pixels: Seq<u8>,
    width: nat,
    from: ProvinceColor,
    old_id: Option<ProvinceId>,
    new_id: Option<ProvinceId>,
    y: nat,
    x: nat,
) -> bool
    decreases y, x,
{
    if x == 0 {
        if y == 0 {
            true
        } else {
            fill_fits(m, pixels, width, from, old_id, new_id, (y - 1) as nat, width)
        }
    } else {
        &&& fill_fits(m, pixels, width, from, old_id, new_id, y, (x - 1) as nat)
        &&& color_at(pixels, width, x - 1, y as int) == from ==> pixel_fits(
            fill_graph(m, pixels, width, from, old_id, new_id, y, (x - 1) as nat),
            new_id,
            (x - 1) as u32,
            y as u32,
        )
    }
}

/// A counter that leaves its range stops the fill: the fill does not fit any more.
proof fn lemma_fill_stops(
    m: Map<ProvinceId, ProvinceData>,
    pixels: Seq<u8>,
    width: nat,
    from: ProvinceColor,
    old_id: Option<ProvinceId>,
    new_id: Option<ProvinceId>,
    y: nat,
    x: nat,
    height: nat,
)
    requires
        !fill_fits(m, pixels, width, from, old_id, new_id, y, x),
        x <= width,
        y < height,
    ensures
        !fill_fits(m, pixels, width, from, old_id, new_id, height, 0),
    decreases height - y, width - x,
{
    if x < width {
        lemma_fill_stops(m, pixels, width, from, old_id, new_id, y, x + 1, height);
    } else if y + 1 < height {
        lemma_fill_stops(m, pixels, width, from, old_id, new_id, y + 1, 0, height);
    } else {
        assert(fill_fits(m, pixels, width, from, old_id, new_id, height, 0) == fill_fits(m, pixels, width, from, old_id, new_id, y, width));
    }
}

/// `after` is `before` with every pixel of colour `from` recoloured `to`.
pub open spec fn recolored(before: Seq<u8>, after: Seq<u8>, width: nat, height: nat, from: ProvinceColor, to: ProvinceColor) -> bool {
    &&& after.len() == before.len()
    &&& forall|x: int, y: int| on_map(width, height, x, y) ==> #[trigger] color_at(after, width, x, y) == if color_at(
        before,
        width,
        x,
        y,
    ) == from {
        to
    } else {
        color_at(before, width, x, y)
    }
    &&& forall|i: int| 3 * (width * height) <= i < before.len() ==> after[i] == before[i]
}

/// What recolouring every pixel of colour `from` to `to` does to a project, with result `r`.
pub open spec fn fill_outcome(
    before: ProjectState,
    after: ProjectState,
    from: ProvinceColor,
    to: ProvinceColor,
    r: Result<(), CommandError>,
) -> bool {
    let w = before.width as nat;
    let h = before.height as nat;
    let old_id = lookup(before.graph.color_map(), from);
    let new_id = lookup(before.graph.color_map(), to);
    let m = before.graph.province_map();
    &&& after.width == before.width
    &&& after.height == before.height
    &&& after.definitions == before.definitions
    &&& after.project_dir == before.project_dir
    &&& if from == to {
        &&& r is Ok
        &&& after == before
    } else {
        &&& (r == Err::<(), CommandError>(CommandError::InvalidContext)) == !buffer_fits(before.pixels@, w, h)
        &&& (r is Ok) == (buffer_fits(before.pixels@, w, h) && fill_fits(m, before.pixels@, w, from, old_id, new_id, h, 0))
        &&& r is Ok ==> {
            &&& recolored(before.pixels@, after.pixels@, w, h, from, to)
            &&& after.graph.province_map() == fill_graph(m, before.pixels@, w, from, old_id, new_id, h, 0)
            &&& after.graph.adjacency_map() == before.graph.adjacency_map()
            &&& after.graph.color_map() == before.graph.color_map()
            &&& after.dirty_rect == Some(whole_map(before.width, before.height))
        }
    }
}

/// Whether `ps` lists, each at least once and nothing else, the positions of the map
/// whose pixel has colour `c`.
pub open spec fn color_list(ps: Seq<(u32, u32)>, pixels: Seq<u8>, width: nat, height: nat, c: ProvinceColor) -> bool {
    &&& positions_on_map(ps, width, height)
    &&& forall|j: int| 0 <= j < ps.len() ==> color_at(pixels, width, (#[trigger] ps[j]).0 as int, ps[j].1 as int) == c
    &&& forall|x: int, y: int| on_map(width, height, x, y) && #[trigger] color_at(pixels, width, x, y) == c ==> covers(ps, x, y)
}

/// The positions of the map whose pixel has colour `c`, in row order.
fn pixels_of_color(pixels: &Vec<u8>, width: u32, height: u32, c: ProvinceColor) -> (ps: Vec<(u32, u32)>)
    requires
        buffer_fits(pixels@, width as nat, height as nat),
    ensures
        color_list(ps@, pixels@, width as nat, height as nat, c),
{
    let ghost w = width as nat;
    let ghost h = height as nat;
    let mut ps: Vec<(u32, u32)> = Vec::new();
    let mut y: u32 = 0;
    while y < height
        invariant
            w == width,
            h == height,
            y <= height,
            buffer_fits(pixels@, w, h),
            positions_on_map(ps@, w, h),
            forall|j: int| 0 <= j < ps@.len() ==> color_at(pixels@, w, (#[trigger] ps@[j]).0 as int, ps@[j].1 as int) == c,
            forall|x2: int, y2: int| on_map(w, h, x2, y2) && pixel_before(w, x2, y2, y as int, 0) && #[trigger] color_at(pixels@, w, x2, y2) == c ==> covers(ps@, x2, y2),
        decreases height - y,
    {
        let mut x: u32 = 0;
        while x < width
            invariant
                w == width,
                h == height,
                y < height,
                x <= width,
                buffer_fits(pixels@, w, h),
                positions_on_map(ps@, w, h),
                forall|j: int| 0 <= j < ps@.len() ==> color_at(pixels@, w, (#[trigger] ps@[j]).0 as int, ps@[j].1 as int) == c,
                forall|x2: int, y2: int| on_map(w, h, x2, y2) && pixel_before(w, x2, y2, y as int, x as int) && #[trigger] color_at(pixels@, w, x2, y2) == c ==> covers(ps@, x2, y2),
            decreases width - x,
        {
            let d = read_pixel(pixels, width, height, x, y);
            let ghost before = ps@;
            if d == c {
                ps.push((x, y));
                proof {
                    assert(ps@[before.len() as int] == (x, y));
                    assert forall|x2: int, y2: int| covers(before, x2, y2) implies covers(ps@, x2, y2) by {
                        let j = choose|j: int| 0 <= j < before.len() && (#[trigger] before[j]).0 == x2 && before[j].1 == y2;
                        assert(ps@[j] == before[j]);
                    }
                    assert(covers(ps@, x as int, y as int));
                }
            }
            x = x + 1;
        }
        y = y + 1;
    }
    proof {
        assert forall|x2: int, y2: int| on_map(w, h, x2, y2) && #[trigger] color_at(pixels@, w, x2, y2) == c implies covers(ps@, x2, y2) by {
            assert(pixel_before(w, x2, y2, h as int, 0));
        }
    }
    ps
}

/// Fill: recolours every pixel of one colour.
#[derive(Debug)]
pub struct FillCommand {
    pub from_color: ProvinceColor,
    pub to_color: ProvinceColor,
    /// The positions the last execution recoloured, in row order; the undo gives
    /// these, and only these, their colour back.
    pub history: Vec<(u32, u32)>,
}

/// What taking a fill back does to a project, with result `r`: the recorded
/// positions get the colour `from_color` again, their pixels moving back from the
/// province of `to_color` to that of `from_color`.
pub open spec fn fill_undo_outcome(before: ProjectState, after: ProjectState, cmd: FillCommand, r: Result<(), CommandError>) -> bool {
    let w = before.width as nat;
    let h = before.height as nat;
    let ps = cmd.history@;
    let fits = buffer_fits(before.pixels@, w, h) && positions_on_map(ps, w, h);
    let from_id = lookup(before.graph.color_map(), cmd.to_color);
    let to_id = lookup(before.graph.color_map(), cmd.from_color);
    if cmd.from_color == cmd.to_color {
        &&& r is Ok
        &&& after == before
    } else {
        &&& (r == Err::<(), CommandError>(CommandError::InvalidContext)) == !fits
        &&& (r is Ok) == (fits && moves_fit(before.graph.province_map(), ps, from_id, to_id))
        &&& r is Ok ==> {
            &&& painted_outcome(before, after, ps, cmd.from_color, from_id, to_id)
            &&& after.definitions == before.definitions
        }
    }
}

/// What holds of a fill after it ran from `before` with result `r`: it recoloured as
/// [`fill_outcome`] says and recorded the positions that had the colour `from_color`.
pub open spec fn fill_ran(before: ProjectState, after: ProjectState, cmd: FillCommand, r: Result<(), CommandError>) -> bool {
    &&& fill_outcome(before, after, cmd.from_color, cmd.to_color, r)
    &&& cmd.from_color != cmd.to_color && r is Ok ==> color_list(
        cmd.history@,
        before.pixels@,
        before.width as nat,
        before.height as nat,
        cmd.from_color,
    )
}

impl FillCommand {
    /// A fill of colour `from` with colour `to` that has not run yet.
    pub fn new(from: ProvinceColor, to: ProvinceColor) -> (c: Self)
        ensures
            c.from_color == from,
            c.to_color == to,
            c.history@.len() == 0,
    {
        FillCommand { from_color: from, to_color: to, history: Vec::new() }
    }

    /// Recolours every pixel of colour `from` to `to`, moving the pixels in the graph
    /// statistics, and marks the whole map changed.
    pub fn apply(project: &mut ProjectState, from: ProvinceColor, to: ProvinceColor) -> (r: Result<(), CommandError>)
        ensures
            fill_outcome(*old(project), *final(project), from, to, r),
    {
        if from == to {
            return Ok(());
        }
        let width = project.width;
        let height = project.height;
        if !check_buffer(project.pixels.as_slice(), width, height) {
            return Err(CommandError::InvalidContext);
        }
        let ghost p0 = *project;
        let ghost px0 = project.pixels@;
        let ghost w = width as nat;
        let ghost h = height as nat;
        let ghost m0 = project.graph.province_map();
        let old_id = project.graph.id_from_color(&from);
        let new_id = project.graph.id_from_color(&to);
        let mut y: u32 = 0;
        while y < height
            invariant
                width == project.width,
                height == project.height,
                w == width,
                h == height,
                y <= height,
                buffer_fits(px0, w, h),
                project.pixels@.len() == px0.len(),
                project.width == p0.width,
                project.height == p0.height,
                project.definitions == p0.definitions,
                project.project_dir == p0.project_dir,
                project.dirty_rect == p0.dirty_rect,
                from != to,
                p0 == *old(project),
                old_id == lookup(p0.graph.color_map(), from),
                new_id == lookup(p0.graph.color_map(), to),
                m0 == p0.graph.province_map(),
                px0 == p0.pixels@,
                project.graph.adjacency_map() == p0.graph.adjacency_map(),
                project.graph.color_map() == p0.graph.color_map(),
                project.graph.province_map() == fill_graph(m0, px0, w, from, old_id, new_id, y as nat, 0),
                fill_fits(m0, px0, w, from, old_id, new_id, y as nat, 0),
                forall|x2: int, y2: int| on_map(w, h, x2, y2) ==> #[trigger] color_at(project.pixels@, w, x2, y2) == if pixel_before(w, x2, y2, y as int, 0) && color_at(px0, w, x2, y2) == from {
                    to
                } else {
                    color_at(px0, w, x2, y2)
                },
                forall|i: int| 3 * (w * h) <= i < px0.len() ==> project.pixels@[i] == px0[i],
            decreases height - y,
        {
            let mut x: u32 = 0;
            while x < width
                invariant
                    width == project.width,
                    height == project.height,
                    w == width,
                    h == height,
                    y < height,
                    x <= width,
                    buffer_fits(px0, w, h),
                    project.pixels@.len() == px0.len(),
                    project.width == p0.width,
                    project.height == p0.height,
                    project.definitions == p0.definitions,
                    project.project_dir == p0.project_dir,
                    project.dirty_rect == p0.dirty_rect,
                    from != to,
                    p0 == *old(project),
                    old_id == lookup(p0.graph.color_map(), from),
                    new_id == lookup(p0.graph.color_map(), to),
                    m0 == p0.graph.province_map(),
                    px0 == p0.pixels@,
                    project.graph.adjacency_map() == p0.graph.adjacency_map(),
                    project.graph.color_map() == p0.graph.color_map(),
                    project.graph.province_map() == fill_graph(m0, px0, w, from, old_id, new_id, y as nat, x as nat),
                    fill_fits(m0, px0, w, from, old_id, new_id, y as nat, x as nat),
                    forall|x2: int, y2: int| on_map(w, h, x2, y2) ==> #[trigger] color_at(project.pixels@, w, x2, y2) == if pixel_before(w, x2, y2, y as int, x as int) && color_at(px0, w, x2, y2) == from {
                        to
                    } else {
                        color_at(px0, w, x2, y2)
                    },
                    forall|i: int| 3 * (w * h) <= i < px0.len() ==> project.pixels@[i] == px0[i],
                decreases width - x,
            {
                let c = read_pixel(&project.pixels, width, height, x, y);
                assert(c == color_at(px0, w, x as int, y as int));
                if c == from {
                    if !project.graph.can_take_pixel(new_id, x, y) {
                        proof {
                            lemma_fill_stops(m0, px0, w, from, old_id, new_id, y as nat, (x + 1) as nat, h);
                        }
                        return Err(CommandError::CounterOverflow);
                    }
                    let ghost before = project.pixels@;
                    write_pixel(&mut project.pixels, width, height, x, y, to);
                    proof {
                        lemma_with_pixel(before, w, h, x as int, y as int, to);
                    }
                    project.graph.update_pixel(x, y, old_id, new_id);
                }
                x = x + 1;
            }
            y = y + 1;
        }
        project.dirty_rect = Some(DirtyRect { x: 0, y: 0, width, height });
        proof {
            assert forall|x2: int, y2: int| on_map(w, h, x2, y2) implies #[trigger] color_at(project.pixels@, w, x2, y2) == if color_at(px0, w, x2, y2) == from {
                to
            } else {
                color_at(px0, w, x2, y2)
            } by {
                assert(pixel_before(w, x2, y2, h as int, 0));
            }
        }
        Ok(())
    }
}

impl Command<ProjectState> for FillCommand {
    open spec fn executes(&self, before: ProjectState, after: ProjectState, r: Result<(), CommandError>) -> bool {
        fill_outcome(before, after, self.from_color, self.to_color, r)
    }

    open spec fn ran(&self, before: ProjectState, after: ProjectState, r: Result<(), CommandError>) -> bool {
        fill_ran(before, after, *self, r)
    }

    open spec fn undoes(&self, before: ProjectState, after: ProjectState, r: Result<(), CommandError>) -> bool {
        fill_undo_outcome(before, after, *self, r)
    }

    open spec fn undid(&self, before: ProjectState, after: ProjectState, r: Result<(), CommandError>) -> bool {
        fill_undo_outcome(before, after, *self, r)
    }

    open spec fn description_text(&self) -> Seq<char> {
         "プロヴィンスの塗りつぶし"@
    }

    /// Records the positions of colour `from_color`, then recolours them `to_color`.
    fn execute(&mut self, project: &mut ProjectState) -> (r: Result<(), CommandError>)
        ensures
            fill_ran(*old(project), *final(project), *final(self), r),
            final(self).from_color == old(self).from_color,
            final(self).to_color == old(self).to_color,
    {
        if self.from_color == self.to_color || !check_buffer(project.pixels.as_slice(), project.width, project.height) {
            self.history = Vec::new();
        } else {
            self.history = pixels_of_color(&project.pixels, project.width, project.height, self.from_color);
        }
        Self::apply(project, self.from_color, self.to_color)
    }

    /// Gives the recorded positions the colour `from_color` back.
    fn undo(&mut self, project: &mut ProjectState) -> (r: Result<(), CommandError>)
        ensures
            fill_undo_outcome(*old(project), *final(project), *old(self), r),
            *final(self) == *old(self),
    {
        if self.from_color == self.to_color {
            return Ok(());
        }
        if !check_positions(project, &self.history) {
            return Err(CommandError::InvalidContext);
        }
        let from_id = project.graph.id_from_color(&self.to_color);
        let to_id = project.graph.id_from_color(&self.from_color);
        paint_positions(project, &self.history, self.from_color, from_id, to_id)
    }

    fn description(&self) -> (r: &str)
        ensures
            r@ == "プロヴィンスの塗りつぶし"@,
    {
        "プロヴィンスの塗りつぶし"
    }
}

/// Undoing a fill gives the map back: every pixel has the colour it had before the
/// fill, also those that already had the target colour, and the definitions are kept.
pub proof fn law_fill_undo(p0: ProjectState, p1: ProjectState, p2: ProjectState, cmd: FillCommand)
    requires
        fill_ran(p0, p1, cmd, Ok(())),
        fill_undo_outcome(p1, p2, cmd, Ok(())),
    ensures
        same_image(p0.pixels@, p2.pixels@, p0.width as nat, p0.height as nat),
        p2.pixels@ == p0.pixels@,
        p2.width == p0.width,
        p2.height == p0.height,
        p2.definitions == p0.definitions,
{
    let w = p0.width as nat;
    let h = p0.height as nat;
    if cmd.from_color != cmd.to_color {
        let ps = cmd.history@;
        lemma_paint_uniform(p1.pixels@, w, h, ps, cmd.from_color);
        assert forall|x: int, y: int| on_map(w, h, x, y) implies #[trigger] color_at(p0.pixels@, w, x, y) == color_at(p2.pixels@, w, x, y) by {
            if covers(ps, x, y) {
                let j = choose|j: int| 0 <= j < ps.len() && (#[trigger] ps[j]).0 == x && ps[j].1 == y;
                assert(color_at(p0.pixels@, w, ps[j].0 as int, ps[j].1 as int) == cmd.from_color);
            } else {
                assert(color_at(p0.pixels@, w, x, y) != cmd.from_color);
            }
        }
        lemma_same_image_equal(p0.pixels@, p2.pixels@, w, h);
    }
}

/// The steps of a stroke that paints every position of `hist` with `c`.
pub open spec fn paint_steps(hist: Seq<(u32, u32, ProvinceColor)>, c: ProvinceColor) -> Seq<(u32, u32, ProvinceColor)> {
    hist.map_values(|t: (u32, u32, ProvinceColor)| (t.0, t.1, c))
}

/// The province moves of one stroke step: forward, a pixel goes from the province of
/// its old colour to `new_id`; backward, it goes back.
pub open spec fn step_ids(
    colors: Map<u32, ProvinceId>,
    t: (u32, u32, ProvinceColor),
    new_id: Option<ProvinceId>,
    forward: bool,
) -> (Option<ProvinceId>, Option<ProvinceId>) {
    if forward {
        (lookup(colors, t.2), new_id)
    } else {
        (new_id, lookup(colors, t.2))
    }
}

/// The province statistics after the moves of the steps `hist`, in order.
pub open spec fn stroke_moves(
    m: Map<ProvinceId, ProvinceData>,
    colors: Map<u32, ProvinceId>,
    hist: Seq<(u32, u32, ProvinceColor)>,
    new_id: Option<ProvinceId>,
    forward: bool,
) -> Map<ProvinceId, ProvinceData>
    decreases hist.len(),
{
    if hist.len() == 0 {
        m
    } else {
        let t = hist.last();
        let ids = step_ids(colors, t, new_id, forward);
        pixel_moved(stroke_moves(m, colors, hist.drop_last(), new_id, forward), t.0, t.1, ids.0, ids.1)
    }
}

/// Whether every move of [`stroke_moves`] keeps the counters in range.
pub open spec fn stroke_fits(
    m: Map<ProvinceId, ProvinceData>,
    colors: Map<u32, ProvinceId>,
    hist: Seq<(u32, u32, ProvinceColor)>,
    new_id: Option<ProvinceId>,
    forward: bool,
) -> bool
    decreases hist.len(),
{
    if hist.len() == 0 {
        true
    } else {
        let t = hist.last();
        let ids = step_ids(colors, t, new_id, forward);
        &&& stroke_fits(m, colors, hist.drop_last(), new_id, forward)
        &&& ids.0 != ids.1 ==> pixel_fits(stroke_moves(m, colors, hist.drop_last(), new_id, forward), ids.1, t.0, t.1)
    }
}

proof fn lemma_stroke_fits_prefix(
    m: Map<ProvinceId, ProvinceData>,
    colors: Map<u32, ProvinceId>,
    hist: Seq<(u32, u32, ProvinceColor)>,
    new_id: Option<ProvinceId>,
    forward: bool,
    k: int,
)
    requires
        0 <= k <= hist.len(),
        !stroke_fits(m, colors, hist.take(k), new_id, forward),
    ensures
        !stroke_fits(m, colors, hist, new_id, forward),
    decreases hist.len() - k,
{
    if k < hist.len() {
        assert(hist.take(k + 1).drop_last() =~= hist.take(k));
        lemma_stroke_fits_prefix(m, colors, hist, new_id, forward, k + 1);
    } else {
        assert(hist.take(k) =~= hist);
    }
}

/// What painting the steps of a stroke does to a project, with result `r`: forward
/// paints every position with `color`; backward paints each position's recorded colour.
pub open spec fn stroke_outcome(
    before: ProjectState,
    after: ProjectState,
    color: ProvinceColor,
    hist: Seq<(u32, u32, ProvinceColor)>,
    forward: bool,
    r: Result<(), CommandError>,
) -> bool {
    let w = before.width as nat;
    let h = before.height as nat;
    let new_id = lookup(before.graph.color_map(), color);
    let m = before.graph.province_map();
    let colors = before.graph.color_map();
    &&& after.width == before.width
    &&& after.height == before.height
    &&& after.definitions == before.definitions
    &&& after.project_dir == before.project_dir
    &&& (r == Err::<(), CommandError>(CommandError::InvalidContext)) == !(buffer_fits(before.pixels@, w, h)
        && all_on_map(hist, w, h))
    &&& (r is Ok) == (buffer_fits(before.pixels@, w, h) && all_on_map(hist, w, h) && stroke_fits(
        m,
        colors,
        hist,
        new_id,
        forward,
    ))
    &&& r is Ok ==> {
        &&& after.pixels@ == write_all(before.pixels@, w, if forward { paint_steps(hist, color) } else { hist })
        &&& after.graph.province_map() == stroke_moves(m, colors, hist, new_id, forward)
        &&& after.graph.adjacency_map() == before.graph.adjacency_map()
        &&& after.graph.color_map() == before.graph.color_map()
        &&& after.dirty_rect == if hist.len() > 0 {
            Some(bounds_of(positions(hist)))
        } else {
            before.dirty_rect
        }
    }
}

/// A brush stroke: the pixels a drag painted, as one undoable step.
#[derive(Debug)]
pub struct PaintStrokeCommand {
    /// The colour painted.
    pub color: ProvinceColor,
    /// Each painted pixel with the colour it had before, `(x, y, old_color)`.
    pub history: Vec<(u32, u32, ProvinceColor)>,
}

/// Paints the steps of a stroke: forward with `color`, backward with each step's colour.
fn paint_stroke(
    project: &mut ProjectState,
    color: ProvinceColor,
    history: &Vec<(u32, u32, ProvinceColor)>,
    forward: bool,
) -> (r: Result<(), CommandError>)
    ensures
        stroke_outcome(*old(project), *final(project), color, history@, forward, r),
{
    let width = project.width;
    let height = project.height;
    let ghost p0 = *project;
    let ghost w = width as nat;
    let ghost h = height as nat;
    let ghost hist = history@;
    if !check_buffer(project.pixels.as_slice(), width, height) {
        return Err(CommandError::InvalidContext);
    }
    let n = history.len();
    for j in 0..n
        invariant
            n == hist.len(),
            hist == history@,
            w == width,
            h == height,
            forall|i: int| 0 <= i < j ==> on_map(w, h, (#[trigger] hist[i]).0 as int, hist[i].1 as int),
            p0 == *old(project),
            *project == p0,
            buffer_fits(p0.pixels@, w, h),
            width == p0.width,
            height == p0.height,
    {
        let (x, y, _) = history[j];
        if !(x < width && y < height) {
            assert(!on_map(w, h, hist[j as int].0 as int, hist[j as int].1 as int));
            return Err(CommandError::InvalidContext);
        }
    }
    assert(all_on_map(hist, w, h));
    let new_id = project.graph.id_from_color(&color);
    let ghost m0 = project.graph.province_map();
    let ghost colors = project.graph.color_map();
    let ghost steps = if forward { paint_steps(hist, color) } else { hist };
    let mut bounds = BoundsTracker::new();
    for j in 0..n
        invariant
            n == hist.len(),
            hist == history@,
            w == width,
            h == height,
            width == project.width,
            height == project.height,
            p0 == *old(project),
            all_on_map(hist, w, h),
            steps == if forward { paint_steps(hist, color) } else { hist },
            buffer_fits(p0.pixels@, w, h),
            project.pixels@ == write_all(p0.pixels@, w, steps.take(j as int)),
            project.pixels@.len() == p0.pixels@.len(),
            new_id == lookup(colors, color),
            m0 == p0.graph.province_map(),
            colors == p0.graph.color_map(),
            project.graph.province_map() == stroke_moves(m0, colors, hist.take(j as int), new_id, forward),
            stroke_fits(m0, colors, hist.take(j as int), new_id, forward),
            project.graph.adjacency_map() == p0.graph.adjacency_map(),
            project.graph.color_map() == colors,
            project.width == p0.width,
            project.height == p0.height,
            project.definitions == p0.definitions,
            project.project_dir == p0.project_dir,
            project.dirty_rect == p0.dirty_rect,
            bounds.holds(positions(hist.take(j as int))),
    {
        let (x, y, old_color) = history[j];
        assert(on_map(w, h, hist[j as int].0 as int, hist[j as int].1 as int));
        let old_id = project.graph.id_from_color(&old_color);
        let (from_id, to_id) = if forward { (old_id, new_id) } else { (new_id, old_id) };
        assert(hist.take(j + 1).drop_last() =~= hist.take(j as int));
        assert(steps.take(j + 1).drop_last() =~= steps.take(j as int));
        if from_id != to_id && !project.graph.can_take_pixel(to_id, x, y) {
            proof {
                lemma_stroke_fits_prefix(m0, colors, hist, new_id, forward, j + 1);
            }
            return Err(CommandError::CounterOverflow);
        }
        let paint = if forward { color } else { old_color };
        let ghost pb = project.pixels@;
        proof {
            lemma_with_pixel(pb, w, h, x as int, y as int, paint);
        }
        write_pixel(&mut project.pixels, width, height, x, y, paint);
        project.graph.update_pixel(x, y, from_id, to_id);
        let ghost ps = positions(hist.take(j as int));
        bounds.add(x, y, Ghost(ps));
        assert(positions(hist.take(j + 1)) =~= ps.push((x, y)));
    }
    assert(hist.take(n as int) =~= hist);
    assert(steps.take(n as int) =~= steps);
    if n > 0 {
        proof {
            let ps = positions(hist);
            crate::map::pixels::lemma_bounds_of(ps);
            let jx = choose|j: int| 0 <= j < ps.len() && crate::map::pixels::max_x_of(ps) == ps[j].0;
            let jy = choose|j: int| 0 <= j < ps.len() && crate::map::pixels::max_y_of(ps) == ps[j].1;
            assert(on_map(w, h, hist[jx].0 as int, hist[jx].1 as int));
            assert(on_map(w, h, hist[jy].0 as int, hist[jy].1 as int));
        }
        let rect = bounds.rect(Ghost(positions(hist)));
        project.dirty_rect = Some(rect);
    }
    Ok(())
}

impl Command<ProjectState> for PaintStrokeCommand {
    open spec fn executes(&self, before: ProjectState, after: ProjectState, r: Result<(), CommandError>) -> bool {
        stroke_outcome(before, after, self.color, self.history@, true, r)
    }

    open spec fn ran(&self, before: ProjectState, after: ProjectState, r: Result<(), CommandError>) -> bool {
        stroke_outcome(before, after, self.color, self.history@, true, r)
    }

    open spec fn undoes(&self, before: ProjectState, after: ProjectState, r: Result<(), CommandError>) -> bool {
        stroke_outcome(before, after, self.color, self.history@, false, r)
    }

    open spec fn undid(&self, before: ProjectState, after: ProjectState, r: Result<(), CommandError>) -> bool {
        stroke_outcome(before, after, self.color, self.history@, false, r)
    }

    open spec fn description_text(&self) -> Seq<char> {
         "ブラシ描画"@
    }

    /// Paints every pixel of the stroke with its colour.
    fn execute(&mut self, project: &mut ProjectState) -> (r: Result<(), CommandError>)
        ensures
            stroke_outcome(*old(project), *final(project), old(self).color, old(self).history@, true, r),
            *final(self) == *old(self),
    {
        paint_stroke(project, self.color, &self.history, true)
    }

    /// Paints every pixel of the stroke with the colour it had before.
    fn undo(&mut self, project: &mut ProjectState) -> (r: Result<(), CommandError>)
        ensures
            stroke_outcome(*old(project), *final(project), old(self).color, old(self).history@, false, r),
            *final(self) == *old(self),
    {
        paint_stroke(project, self.color, &self.history, false)
    }

    fn description(&self) -> (r: &str)
        ensures
            r@ == "ブラシ描画"@,
    {
        "ブラシ描画"
    }
}

/// Whether step `t` of a stroke painting with the colour of province `new_id` takes its
/// pixel away from province `k`: its recorded colour belongs to `k`, which is not the
/// stroke's province.
pub open spec fn takes_from(
    colors: Map<u32, ProvinceId>,
    t: (u32, u32, ProvinceColor),
    new_id: Option<ProvinceId>,
    k: ProvinceId,
) -> bool {
    lookup(colors, t.2) == Some(k) && new_id != Some(k)
}

/// How many pixels the steps `hist` take away from province `k`, and the sums of
/// their x and y coordinates.
pub open spec fn taken(
    colors: Map<u32, ProvinceId>,
    hist: Seq<(u32, u32, ProvinceColor)>,
    new_id: Option<ProvinceId>,
    k: ProvinceId,
) -> (nat, nat, nat)
    decreases hist.len(),
{
    if hist.len() == 0 {
        (0, 0, 0)
    } else {
        let r = taken(colors, hist.drop_last(), new_id, k);
        let t = hist.last();
        if takes_from(colors, t, new_id, k) {
            (r.0 + 1, r.1 + t.0 as nat, r.2 + t.1 as nat)
        } else {
            r
        }
    }
}

/// How many pixels of the steps `hist` change province (their recorded colour's
/// province is not `new_id`), and the sums of their x and y coordinates.
pub open spec fn moved(
    colors: Map<u32, ProvinceId>,
    hist: Seq<(u32, u32, ProvinceColor)>,
    new_id: Option<ProvinceId>,
) -> (nat, nat, nat)
    decreases hist.len(),
{
    if hist.len() == 0 {
        (0, 0, 0)
    } else {
        let r = moved(colors, hist.drop_last(), new_id);
        let t = hist.last();
        if lookup(colors, t.2) != new_id {
            (r.0 + 1, r.1 + t.0 as nat, r.2 + t.1 as nat)
        } else {
            r
        }
    }
}

/// The stroke's own province loses nothing to it.
proof fn lemma_taken_from_stroke_province(
    colors: Map<u32, ProvinceId>,
    hist: Seq<(u32, u32, ProvinceColor)>,
    k: ProvinceId,
)
    ensures
        taken(colors, hist, Some(k), k) == (0nat, 0nat, 0nat),
    decreases hist.len(),
{
    if hist.len() > 0 {
        lemma_taken_from_stroke_province(colors, hist.drop_last(), k);
    }
}

/// What the moves of a stroke remove from province `k`: forward, the pixels taken
/// from it; backward, when it is the stroke's province, the pixels that changed.
spec fn removed_totals(
    colors: Map<u32, ProvinceId>,
    hist: Seq<(u32, u32, ProvinceColor)>,
    new_id: Option<ProvinceId>,
    forward: bool,
    k: ProvinceId,
) -> (nat, nat, nat) {
    if forward {
        taken(colors, hist, new_id, k)
    } else if new_id == Some(k) {
        moved(colors, hist, new_id)
    } else {
        (0, 0, 0)
    }
}

/// What the moves of a stroke add to province `k`: the other way round.
spec fn added_totals(
    colors: Map<u32, ProvinceId>,
    hist: Seq<(u32, u32, ProvinceColor)>,
    new_id: Option<ProvinceId>,
    forward: bool,
    k: ProvinceId,
) -> (nat, nat, nat) {
    removed_totals(colors, hist, new_id, !forward, k)
}

/// The statistics after the moves of a stroke, province by province, when no removal
/// meets a province with too few pixels: the pixels added come on top, the pixels
/// removed come off.
proof fn lemma_stroke_totals(
    m: Map<ProvinceId, ProvinceData>,
    colors: Map<u32, ProvinceId>,
    hist: Seq<(u32, u32, ProvinceColor)>,
    new_id: Option<ProvinceId>,
    forward: bool,
)
    requires
        stroke_fits(m, colors, hist, new_id, forward),
        forall|k: ProvinceId| #[trigger] m.contains_key(k) ==> {
            let r = removed_totals(colors, hist, new_id, forward, k);
            m[k].pixel_count >= r.0 && m[k].sum_x >= r.1 && m[k].sum_y >= r.2
        },
    ensures
        stroke_moves(m, colors, hist, new_id, forward).dom() == m.dom(),
        forall|k: ProvinceId| #[trigger] m.contains_key(k) ==> {
            let d = stroke_moves(m, colors, hist, new_id, forward)[k];
            let r = removed_totals(colors, hist, new_id, forward, k);
            let a = added_totals(colors, hist, new_id, forward, k);
            &&& d.pixel_count == m[k].pixel_count - r.0 + a.0
            &&& d.sum_x == m[k].sum_x - r.1 + a.1
            &&& d.sum_y == m[k].sum_y - r.2 + a.2
        },
    decreases hist.len(),
{
    if hist.len() > 0 {
        let rest = hist.drop_last();
        let t = hist.last();
        let ids = step_ids(colors, t, new_id, forward);
        lemma_stroke_totals(m, colors, rest, new_id, forward);
        let prev = stroke_moves(m, colors, rest, new_id, forward);
        let next = stroke_moves(m, colors, hist, new_id, forward);
        assert(next == pixel_moved(prev, t.0, t.1, ids.0, ids.1));
        assert(next.dom() =~= m.dom());
        assert forall|k: ProvinceId| #[trigger] m.contains_key(k) implies {
            let d = next[k];
            let r = removed_totals(colors, hist, new_id, forward, k);
            let a = added_totals(colors, hist, new_id, forward, k);
            &&& d.pixel_count == m[k].pixel_count - r.0 + a.0
            &&& d.sum_x == m[k].sum_x - r.1 + a.1
            &&& d.sum_y == m[k].sum_y - r.2 + a.2
        } by {
            let r0 = removed_totals(colors, rest, new_id, forward, k);
            let a0 = added_totals(colors, rest, new_id, forward, k);
            assert(prev.contains_key(k));
            if ids.0 != ids.1 {
                let m1 = match ids.0 {
                    Some(o) => if prev.contains_key(o) {
                        prev.insert(o, pixel_removed(prev[o], t.0, t.1))
                    } else {
                        prev
                    },
                    None => prev,
                };
                if ids.0 == Some(k) {
                    assert(m1[k] == pixel_removed(prev[k], t.0, t.1));
                    assert(ids.1 != Some(k));
                } else {
                    assert(m1[k] == prev[k]);
                }
                if ids.1 == Some(k) {
                    assert(pixel_fits(prev, ids.1, t.0, t.1));
                }
            }
        }
    }
}

/// Taking a stroke back gives every province the statistics it had before the stroke
/// (pixel count and coordinate sums), when the stroke recorded its pixels with the
/// colours they had and each province whose colour was painted over held those pixels
/// in its statistics: the pixels leave the stroke's province again and go back to the
/// provinces of their recorded colours.
pub proof fn law_stroke_undo_statistics(
    p0: ProjectState,
    p1: ProjectState,
    p2: ProjectState,
    color: ProvinceColor,
    hist: Seq<(u32, u32, ProvinceColor)>,
)
    requires
        stroke_outcome(p0, p1, color, hist, true, Ok(())),
        stroke_outcome(p1, p2, color, hist, false, Ok(())),
        forall|k: ProvinceId| #[trigger] p0.graph.province_map().contains_key(k) ==> {
            let tk = taken(p0.graph.color_map(), hist, lookup(p0.graph.color_map(), color), k);
            &&& p0.graph.province_map()[k].pixel_count >= tk.0
            &&& p0.graph.province_map()[k].sum_x >= tk.1
            &&& p0.graph.province_map()[k].sum_y >= tk.2
        },
    ensures
        p2.graph.province_map().dom() == p0.graph.province_map().dom(),
        forall|k: ProvinceId| #[trigger] p0.graph.province_map().contains_key(k) ==> {
            &&& p2.graph.province_map()[k].pixel_count == p0.graph.province_map()[k].pixel_count
            &&& p2.graph.province_map()[k].sum_x == p0.graph.province_map()[k].sum_x
            &&& p2.graph.province_map()[k].sum_y == p0.graph.province_map()[k].sum_y
        },
{
    let m0 = p0.graph.province_map();
    let colors = p0.graph.color_map();
    let n = lookup(colors, color);
    lemma_stroke_totals(m0, colors, hist, n, true);
    let m1 = p1.graph.province_map();
    assert forall|k: ProvinceId| #[trigger] m1.contains_key(k) implies {
        let r = removed_totals(colors, hist, n, false, k);
        m1[k].pixel_count >= r.0 && m1[k].sum_x >= r.1 && m1[k].sum_y >= r.2
    } by {
        assert(m0.contains_key(k));
        if n == Some(k) {
            lemma_taken_from_stroke_province(colors, hist, k);
        }
    }
    lemma_stroke_totals(m1, colors, hist, n, false);
    assert forall|k: ProvinceId| #[trigger] m0.contains_key(k) implies {
        &&& p2.graph.province_map()[k].pixel_count == m0[k].pixel_count
        &&& p2.graph.province_map()[k].sum_x == m0[k].sum_x
        &&& p2.graph.province_map()[k].sum_y == m0[k].sum_y
    } by {
        assert(m1.contains_key(k));
        if n == Some(k) {
            lemma_taken_from_stroke_province(colors, hist, k);
        }
    }
}

/// Undoing a stroke gives the map back: when the stroke recorded each pixel once,
/// with the colour it had, every pixel has its colour again.
pub proof fn law_stroke_undo(
    p0: ProjectState,
    p1: ProjectState,
    p2: ProjectState,
    color: ProvinceColor,
    hist: Seq<(u32, u32, ProvinceColor)>,
)
    requires
        stroke_outcome(p0, p1, color, hist, true, Ok(())),
        stroke_outcome(p1, p2, color, hist, false, Ok(())),
        distinct_positions(hist),
        forall|j: int| 0 <= j < hist.len() ==> (#[trigger] hist[j]).2 == color_at(p0.pixels@, p0.width as nat, hist[j].0 as int, hist[j].1 as int),
    ensures
        same_image(p0.pixels@, p2.pixels@, p0.width as nat, p0.height as nat),
        p2.pixels@ == p0.pixels@,
        p2.width == p0.width,
        p2.height == p0.height,
{
    let w = p0.width as nat;
    let h = p0.height as nat;
    let fwd = paint_steps(hist, color);
    assert(all_on_map(fwd, w, h)) by {
        assert forall|j: int| 0 <= j < fwd.len() implies on_map(w, h, (#[trigger] fwd[j]).0 as int, fwd[j].1 as int) by {
            assert(fwd[j].0 == hist[j].0 && fwd[j].1 == hist[j].1);
        }
    }
    assert(distinct_positions(fwd)) by {
        assert forall|i: int, j: int| 0 <= i < j < fwd.len() implies ((#[trigger] fwd[i]).0, fwd[i].1) != ((#[trigger] fwd[j]).0, fwd[j].1) by {
            assert(fwd[i].0 == hist[i].0 && fwd[i].1 == hist[i].1);
            assert(fwd[j].0 == hist[j].0 && fwd[j].1 == hist[j].1);
        }
    }
    lemma_write_all(p0.pixels@, w, h, fwd);
    lemma_write_all(p1.pixels@, w, h, hist);
    assert forall|x: int, y: int| on_map(w, h, x, y) implies #[trigger] color_at(p0.pixels@, w, x, y) == color_at(p2.pixels@, w, x, y) by {
        if exists|j: int| 0 <= j < hist.len() && hist[j].0 == x && hist[j].1 == y {
            let j = choose|j: int| 0 <= j < hist.len() && hist[j].0 == x && hist[j].1 == y;
            assert(color_at(p2.pixels@, w, x, y) == hist[j].2);
        } else {
            assert forall|j: int| 0 <= j < fwd.len() implies (#[trigger] fwd[j]).0 != x || fwd[j].1 != y by {
                assert(fwd[j].0 == hist[j].0 && fwd[j].1 == hist[j].1);
            }
            assert(color_at(p1.pixels@, w, x, y) == color_at(p0.pixels@, w, x, y));
            assert forall|j: int| 0 <= j < hist.len() implies (#[trigger] hist[j]).0 != x || hist[j].1 != y by {}
        }
    }
    lemma_same_image_equal(p0.pixels@, p2.pixels@, w, h);
}

/// The stroke steps of painting the positions `ps` with `c` over `pixels`, one after
/// the other: each position whose pixel has, by then, another colour than `c`, with
/// that colour.
pub open spec fn brush_steps(pixels: Seq<u8>, width: nat, ps: Seq<(u32, u32)>, c: ProvinceColor) -> Seq<(u32, u32, ProvinceColor)>
    decreases ps.len(),
{
    if ps.len() == 0 {
        Seq::empty()
    } else {
        let e = brush_steps(pixels, width, ps.drop_last(), c);
        let p = ps.last();
        let cur = color_at(write_all(pixels, width, paint_steps(e, c)), width, p.0 as int, p.1 as int);
        if cur != c {
            e.push((p.0, p.1, cur))
        } else {
            e
        }
    }
}

/// The steps of painting a prefix of the positions are a prefix of the steps of all.
proof fn lemma_brush_prefix(pixels: Seq<u8>, width: nat, ps: Seq<(u32, u32)>, c: ProvinceColor, k: int)
    requires
        0 <= k <= ps.len(),
    ensures
        brush_steps(pixels, width, ps.take(k), c).len() <= brush_steps(pixels, width, ps, c).len(),
        brush_steps(pixels, width, ps, c).take(brush_steps(pixels, width, ps.take(k), c).len() as int)
            == brush_steps(pixels, width, ps.take(k), c),
    decreases ps.len() - k,
{
    if k == ps.len() {
        assert(ps.take(k) =~= ps);
        assert(brush_steps(pixels, width, ps, c).take(brush_steps(pixels, width, ps, c).len() as int) =~= brush_steps(
            pixels,
            width,
            ps,
            c,
        ));
    } else {
        lemma_brush_prefix(pixels, width, ps, c, k + 1);
        let a = brush_steps(pixels, width, ps.take(k), c);
        let b = brush_steps(pixels, width, ps.take(k + 1), c);
        let all = brush_steps(pixels, width, ps, c);
        assert(ps.take(k + 1).drop_last() =~= ps.take(k));
        assert(b == a || b == a.push(b.last()));
        assert(all.take(a.len() as int) =~= a) by {
            assert(all.take(b.len() as int) == b);
            assert forall|i: int| 0 <= i < a.len() implies all.take(a.len() as int)[i] == a[i] by {
                assert(all.take(b.len() as int)[i] == b[i]);
            }
        }
    }
}

/// What painting the positions `ps` of a brush dab with `c` does to a project and to
/// the stroke it belongs to, with result `r`; `area` is the region the dab covers.
pub open spec fn brush_outcome(
    before: ProjectState,
    after: ProjectState,
    stroke_before: PaintStrokeCommand,
    stroke_after: PaintStrokeCommand,
    ps: Seq<(u32, u32)>,
    c: ProvinceColor,
    area: DirtyRect,
    r: Result<(), CommandError>,
) -> bool {
    let w = before.width as nat;
    let h = before.height as nat;
    let e = brush_steps(before.pixels@, w, ps, c);
    let m = before.graph.province_map();
    let colors = before.graph.color_map();
    let new_id = lookup(colors, c);
    let fits = buffer_fits(before.pixels@, w, h) && positions_on_map(ps, w, h);
    &&& after.width == before.width
    &&& after.height == before.height
    &&& after.definitions == before.definitions
    &&& after.project_dir == before.project_dir
    &&& stroke_after.color == stroke_before.color
    &&& (r == Err::<(), CommandError>(CommandError::InvalidContext)) == !fits
    &&& (r is Ok) == (fits && stroke_fits(m, colors, e, new_id, true))
    &&& r is Ok ==> {
        &&& after.pixels@ == write_all(before.pixels@, w, paint_steps(e, c))
        &&& after.graph.province_map() == stroke_moves(m, colors, e, new_id, true)
        &&& after.graph.adjacency_map() == before.graph.adjacency_map()
        &&& after.graph.color_map() == colors
        &&& after.dirty_rect == if e.len() > 0 {
            Some(area)
        } else {
            before.dirty_rect
        }
        &&& stroke_after.history@ == stroke_before.history@ + e
    }
}

/// Paints one dab of a brush stroke: each position whose pixel has another colour than
/// `c` is recorded in the stroke with that colour and painted, and its pixel moves to
/// the province of `c`; when any was, the changed region is `area`.
pub fn paint_brush(
    project: &mut ProjectState,
    stroke: &mut PaintStrokeCommand,
    ps: &Vec<(u32, u32)>,
    c: ProvinceColor,
    area: DirtyRect,
) -> (r: Result<(), CommandError>)
    ensures
        brush_outcome(*old(project), *final(project), *old(stroke), *final(stroke), ps@, c, area, r),
{
    if !check_positions(project, ps) {
        return Err(CommandError::InvalidContext);
    }
    let width = project.width;
    let height = project.height;
    let ghost p0 = *project;
    let ghost s0 = *stroke;
    let ghost w = width as nat;
    let ghost h = height as nat;
    let ghost pv = ps@;
    let ghost px0 = p0.pixels@;
    let ghost m0 = p0.graph.province_map();
    let ghost colors = p0.graph.color_map();
    let new_id = project.graph.id_from_color(&c);
    let n = ps.len();
    let mut changed = false;
    for k in 0..n
        invariant
            n == pv.len(),
            pv == ps@,
            w == width,
            h == height,
            width == project.width,
            height == project.height,
            p0 == *old(project),
            s0 == *old(stroke),
            px0 == p0.pixels@,
            positions_on_map(pv, w, h),
            buffer_fits(px0, w, h),
            new_id == lookup(colors, c),
            m0 == p0.graph.province_map(),
            colors == p0.graph.color_map(),
            project.pixels@ == write_all(px0, w, paint_steps(brush_steps(px0, w, pv.take(k as int), c), c)),
            project.pixels@.len() == px0.len(),
            project.graph.province_map() == stroke_moves(m0, colors, brush_steps(px0, w, pv.take(k as int), c), new_id, true),
            stroke_fits(m0, colors, brush_steps(px0, w, pv.take(k as int), c), new_id, true),
            project.graph.adjacency_map() == p0.graph.adjacency_map(),
            project.graph.color_map() == colors,
            project.width == p0.width,
            project.height == p0.height,
            project.definitions == p0.definitions,
            project.project_dir == p0.project_dir,
            project.dirty_rect == p0.dirty_rect,
            stroke.color == s0.color,
            stroke.history@ == s0.history@ + brush_steps(px0, w, pv.take(k as int), c),
            changed == (brush_steps(px0, w, pv.take(k as int), c).len() > 0),
    {
        let (x, y) = ps[k];
        let ghost e0 = brush_steps(px0, w, pv.take(k as int), c);
        assert(on_map(w, h, pv[k as int].0 as int, pv[k as int].1 as int));
        assert(pv.take(k + 1).drop_last() =~= pv.take(k as int));
        assert(pv.take(k + 1).last() == (x, y));
        let cur = read_pixel(&project.pixels, width, height, x, y);
        if cur != c {
            let ghost e1 = e0.push((x, y, cur));
            assert(brush_steps(px0, w, pv.take(k + 1), c) == e1);
            assert(e1.drop_last() =~= e0);
            assert(paint_steps(e1, c).drop_last() =~= paint_steps(e0, c));
            let old_id = project.graph.id_from_color(&cur);
            if old_id != new_id && !project.graph.can_take_pixel(new_id, x, y) {
                proof {
                    lemma_brush_prefix(px0, w, pv, c, k + 1);
                    lemma_stroke_fits_prefix(m0, colors, brush_steps(px0, w, pv, c), new_id, true, e1.len() as int);
                }
                return Err(CommandError::CounterOverflow);
            }
            let ghost pb = project.pixels@;
            proof {
                lemma_with_pixel(pb, w, h, x as int, y as int, c);
            }
            write_pixel(&mut project.pixels, width, height, x, y, c);
            project.graph.update_pixel(x, y, old_id, new_id);
            stroke.history.push((x, y, cur));
            assert(stroke.history@ =~= s0.history@ + e1);
            changed = true;
        } else {
            assert(brush_steps(px0, w, pv.take(k + 1), c) == e0);
        }
    }
    assert(pv.take(n as int) =~= pv);
    if changed {
        project.dirty_rect = Some(area);
    }
    Ok(())
}

/// The steps of a brush dab are at distinct positions on the map, each with the colour
/// its pixel had before the dab, never `c`.
proof fn lemma_brush_steps(pixels: Seq<u8>, w: nat, h: nat, ps: Seq<(u32, u32)>, c: ProvinceColor)
    requires
        pixels.len() >= 3 * (w * h),
        positions_on_map(ps, w, h),
    ensures
        distinct_positions(brush_steps(pixels, w, ps, c)),
        all_on_map(brush_steps(pixels, w, ps, c), w, h),
        forall|j: int| 0 <= j < brush_steps(pixels, w, ps, c).len() ==> (#[trigger] brush_steps(pixels, w, ps, c)[j]).2
            == color_at(pixels, w, brush_steps(pixels, w, ps, c)[j].0 as int, brush_steps(pixels, w, ps, c)[j].1 as int),
    decreases ps.len(),
{
    if ps.len() > 0 {
        let rest = ps.drop_last();
        assert(positions_on_map(rest, w, h)) by {
            assert forall|j: int| 0 <= j < rest.len() implies on_map(w, h, (#[trigger] rest[j]).0 as int, rest[j].1 as int) by {
                assert(rest[j] == ps[j]);
            }
        }
        lemma_brush_steps(pixels, w, h, rest, c);
        let e = brush_steps(pixels, w, rest, c);
        let steps = paint_steps(e, c);
        let p = ps.last();
        assert(on_map(w, h, p.0 as int, p.1 as int)) by {
            assert(ps[ps.len() - 1] == p);
        }
        assert(all_on_map(steps, w, h)) by {
            assert forall|j: int| 0 <= j < steps.len() implies on_map(w, h, (#[trigger] steps[j]).0 as int, steps[j].1 as int) by {
                assert(on_map(w, h, e[j].0 as int, e[j].1 as int));
            }
        }
        assert(distinct_positions(steps)) by {
            assert forall|i: int, j: int| 0 <= i < j < steps.len() implies ((#[trigger] steps[i]).0, steps[i].1) != ((#[trigger] steps[j]).0, steps[j].1) by {
                assert((e[i].0, e[i].1) != (e[j].0, e[j].1));
            }
        }
        lemma_write_all(pixels, w, h, steps);
        let cur = color_at(write_all(pixels, w, steps), w, p.0 as int, p.1 as int);
        if cur != c {
            let e1 = e.push((p.0, p.1, cur));
            assert forall|j: int| 0 <= j < e.len() implies (#[trigger] e[j]).0 != p.0 || e[j].1 != p.1 by {
                if e[j].0 == p.0 && e[j].1 == p.1 {
                    assert(steps[j].2 == c);
                }
            }
            assert forall|j: int| 0 <= j < steps.len() implies (#[trigger] steps[j]).0 != p.0 || steps[j].1 != p.1 by {
                assert(e[j].0 != p.0 || e[j].1 != p.1);
            }
            assert(distinct_positions(e1)) by {
                assert forall|i: int, j: int| 0 <= i < j < e1.len() implies ((#[trigger] e1[i]).0, e1[i].1) != ((#[trigger] e1[j]).0, e1[j].1) by {
                    if j == e.len() {
                        assert(e1[i] == e[i]);
                    } else {
                        assert(e1[i] == e[i] && e1[j] == e[j]);
                    }
                }
            }
            assert forall|j: int| 0 <= j < e1.len() implies (#[trigger] e1[j]).2 == color_at(pixels, w, e1[j].0 as int, e1[j].1 as int) by {
                if j < e.len() {
                    assert(e1[j] == e[j]);
                }
            }
            assert(all_on_map(e1, w, h)) by {
                assert forall|j: int| 0 <= j < e1.len() implies on_map(w, h, (#[trigger] e1[j]).0 as int, e1[j].1 as int) by {
                    if j < e.len() {
                        assert(e1[j] == e[j]);
                    }
                }
            }
        }
    }
}

/// Taking back a stroke of one brush dab gives the map back: every pixel has the
/// colour it had before the dab.
pub proof fn law_brush_undo(
    p0: ProjectState,
    p1: ProjectState,
    p2: ProjectState,
    s0: PaintStrokeCommand,
    s1: PaintStrokeCommand,
    ps: Seq<(u32, u32)>,
    c: ProvinceColor,
    area: DirtyRect,
)
    requires
        brush_outcome(p0, p1, s0, s1, ps, c, area, Ok(())),
        s0.history@.len() == 0,
        stroke_outcome(p1, p2, s1.color, s1.history@, false, Ok(())),
    ensures
        same_image(p0.pixels@, p2.pixels@, p0.width as nat, p0.height as nat),
        p2.pixels@ == p0.pixels@,
        p2.width == p0.width,
        p2.height == p0.height,
{
    let w = p0.width as nat;
    let h = p0.height as nat;
    let e = brush_steps(p0.pixels@, w, ps, c);
    assert(s1.history@ =~= e);
    lemma_brush_steps(p0.pixels@, w, h, ps, c);
    let fwd = paint_steps(e, c);
    assert(all_on_map(fwd, w, h)) by {
        assert forall|j: int| 0 <= j < fwd.len() implies on_map(w, h, (#[trigger] fwd[j]).0 as int, fwd[j].1 as int) by {
            assert(on_map(w, h, e[j].0 as int, e[j].1 as int));
        }
    }
    assert(distinct_positions(fwd)) by {
        assert forall|i: int, j: int| 0 <= i < j < fwd.len() implies ((#[trigger] fwd[i]).0, fwd[i].1) != ((#[trigger] fwd[j]).0, fwd[j].1) by {
            assert((e[i].0, e[i].1) != (e[j].0, e[j].1));
        }
    }
    lemma_write_all(p0.pixels@, w, h, fwd);
    lemma_write_all(p1.pixels@, w, h, e);
    assert forall|x: int, y: int| on_map(w, h, x, y) implies #[trigger] color_at(p0.pixels@, w, x, y) == color_at(p2.pixels@, w, x, y) by {
        if exists|j: int| 0 <= j < e.len() && e[j].0 == x && e[j].1 == y {
            let j = choose|j: int| 0 <= j < e.len() && e[j].0 == x && e[j].1 == y;
            assert(color_at(p2.pixels@, w, x, y) == e[j].2);
        } else {
            assert forall|j: int| 0 <= j < fwd.len() implies (#[trigger] fwd[j]).0 != x || fwd[j].1 != y by {
                assert(fwd[j].0 == e[j].0 && fwd[j].1 == e[j].1);
            }
            assert(color_at(p1.pixels@, w, x, y) == color_at(p0.pixels@, w, x, y));
            assert forall|j: int| 0 <= j < e.len() implies (#[trigger] e[j]).0 != x || e[j].1 != y by {}
        }
    }
    lemma_same_image_equal(p0.pixels@, p2.pixels@, w, h);
}

/// The steps that paint every position of `ps` with `c`.
pub open spec fn colored_steps(ps: Seq<(u32, u32)>, c: ProvinceColor) -> Seq<(u32, u32, ProvinceColor)> {
    ps.map_values(|p: (u32, u32)| (p.0, p.1, c))
}

/// The province statistics after every pixel of `ps` moved from `from_id` to `to_id`, in order.
pub open spec fn moves_all(
    m: Map<ProvinceId, ProvinceData>,
    ps: Seq<(u32, u32)>,
    from_id: Option<ProvinceId>,
    to_id: Option<ProvinceId>,
) -> Map<ProvinceId, ProvinceData>
    decreases ps.len(),
{
    if ps.len() == 0 {
        m
    } else {
        pixel_moved(moves_all(m, ps.drop_last(), from_id, to_id), ps.last().0, ps.last().1, from_id, to_id)
    }
}

/// Whether every move of [`moves_all`] keeps the counters in range.
pub open spec fn moves_fit(
    m: Map<ProvinceId, ProvinceData>,
    ps: Seq<(u32, u32)>,
    from_id: Option<ProvinceId>,
    to_id: Option<ProvinceId>,
) -> bool
    decreases ps.len(),
{
    if ps.len() == 0 {
        true
    } else {
        &&& moves_fit(m, ps.drop_last(), from_id, to_id)
        &&& from_id != to_id ==> pixel_fits(moves_all(m, ps.drop_last(), from_id, to_id), to_id, ps.last().0, ps.last().1)
    }
}

proof fn lemma_moves_fit_prefix(
    m: Map<ProvinceId, ProvinceData>,
    ps: Seq<(u32, u32)>,
    from_id: Option<ProvinceId>,
    to_id: Option<ProvinceId>,
    k: int,
)
    requires
        0 <= k <= ps.len(),
        !moves_fit(m, ps.take(k), from_id, to_id),
    ensures
        !moves_fit(m, ps, from_id, to_id),
    decreases ps.len() - k,
{
    if k < ps.len() {
        assert(ps.take(k + 1).drop_last() =~= ps.take(k));
        lemma_moves_fit_prefix(m, ps, from_id, to_id, k + 1);
    } else {
        assert(ps.take(k) =~= ps);
    }
}

/// Whether every position of `ps` is on the map.
pub open spec fn positions_on_map(ps: Seq<(u32, u32)>, width: nat, height: nat) -> bool {
    forall|j: int| 0 <= j < ps.len() ==> on_map(width, height, (#[trigger] ps[j]).0 as int, ps[j].1 as int)
}

/// What painting the positions `ps` with `color` (moving their pixels from `from_id`
/// to `to_id`) does to the pixels, graph and changed region of a project.
pub open spec fn painted_outcome(
    before: ProjectState,
    after: ProjectState,
    ps: Seq<(u32, u32)>,
    color: ProvinceColor,
    from_id: Option<ProvinceId>,
    to_id: Option<ProvinceId>,
) -> bool {
    let w = before.width as nat;
    &&& after.width == before.width
    &&& after.height == before.height
    &&& after.project_dir == before.project_dir
    &&& after.pixels@ == write_all(before.pixels@, w, colored_steps(ps, color))
    &&& after.graph.province_map() == moves_all(before.graph.province_map(), ps, from_id, to_id)
    &&& after.graph.adjacency_map() == before.graph.adjacency_map()
    &&& after.graph.color_map() == before.graph.color_map()
    &&& after.dirty_rect == if ps.len() > 0 {
        Some(bounds_of(ps))
    } else {
        before.dirty_rect
    }
}

/// Paints every position of `ps` with `color`, moving its pixel from `from_id` to `to_id`.
/// Fails, having painted the positions before it, at the first move that would take a
/// counter out of its range.
fn paint_positions(
    project: &mut ProjectState,
    ps: &Vec<(u32, u32)>,
    color: ProvinceColor,
    from_id: Option<ProvinceId>,
    to_id: Option<ProvinceId>,
) -> (r: Result<(), CommandError>)
    requires
        buffer_fits(old(project).pixels@, old(project).width as nat, old(project).height as nat),
        positions_on_map(ps@, old(project).width as nat, old(project).height as nat),
    ensures
        final(project).definitions == old(project).definitions,
        final(project).width == old(project).width,
        final(project).height == old(project).height,
        r is Ok <==> moves_fit(old(project).graph.province_map(), ps@, from_id, to_id),
        r is Ok ==> painted_outcome(*old(project), *final(project), ps@, color, from_id, to_id),
        r is Err ==> r == Err::<(), CommandError>(CommandError::CounterOverflow),
{
    let width = project.width;
    let height = project.height;
    let ghost p0 = *project;
    let ghost w = width as nat;
    let ghost h = height as nat;
    let ghost pv = ps@;
    let ghost m0 = project.graph.province_map();
    let ghost steps = colored_steps(pv, color);
    let n = ps.len();
    let mut bounds = BoundsTracker::new();
    for j in 0..n
        invariant
            n == pv.len(),
            pv == ps@,
            w == width,
            h == height,
            width == project.width,
            height == project.height,
            p0 == *old(project),
            positions_on_map(pv, w, h),
            steps == colored_steps(pv, color),
            buffer_fits(p0.pixels@, w, h),
            project.pixels@ == write_all(p0.pixels@, w, steps.take(j as int)),
            project.pixels@.len() == p0.pixels@.len(),
            m0 == p0.graph.province_map(),
            project.graph.province_map() == moves_all(m0, pv.take(j as int), from_id, to_id),
            moves_fit(m0, pv.take(j as int), from_id, to_id),
            project.graph.adjacency_map() == p0.graph.adjacency_map(),
            project.graph.color_map() == p0.graph.color_map(),
            project.width == p0.width,
            project.height == p0.height,
            project.definitions == p0.definitions,
            project.project_dir == p0.project_dir,
            project.dirty_rect == p0.dirty_rect,
            bounds.holds(pv.take(j as int)),
    {
        let (x, y) = ps[j];
        assert(on_map(w, h, pv[j as int].0 as int, pv[j as int].1 as int));
        assert(pv.take(j + 1).drop_last() =~= pv.take(j as int));
        assert(steps.take(j + 1).drop_last() =~= steps.take(j as int));
        if from_id != to_id && !project.graph.can_take_pixel(to_id, x, y) {
            proof {
                lemma_moves_fit_prefix(m0, pv, from_id, to_id, j + 1);
            }
            return Err(CommandError::CounterOverflow);
        }
        let ghost pb = project.pixels@;
        proof {
            lemma_with_pixel(pb, w, h, x as int, y as int, color);
        }
        write_pixel(&mut project.pixels, width, height, x, y, color);
        project.graph.update_pixel(x, y, from_id, to_id);
        let ghost before_ps = pv.take(j as int);
        bounds.add(x, y, Ghost(before_ps));
        assert(pv.take(j + 1) =~= before_ps.push((x, y)));
    }
    assert(pv.take(n as int) =~= pv);
    assert(steps.take(n as int) =~= steps);
    if n > 0 {
        proof {
            crate::map::pixels::lemma_bounds_of(pv);
            let jx = choose|j: int| 0 <= j < pv.len() && crate::map::pixels::max_x_of(pv) == pv[j].0;
            let jy = choose|j: int| 0 <= j < pv.len() && crate::map::pixels::max_y_of(pv) == pv[j].1;
            assert(on_map(w, h, pv[jx].0 as int, pv[jx].1 as int));
            assert(on_map(w, h, pv[jy].0 as int, pv[jy].1 as int));
        }
        let rect = bounds.rect(Ghost(pv));
        project.dirty_rect = Some(rect);
    }
    Ok(())
}

/// Whether the project's buffer fits and every position of `ps` is on its map.
fn check_positions(project: &ProjectState, ps: &Vec<(u32, u32)>) -> (r: bool)
    ensures
        r == (buffer_fits(project.pixels@, project.width as nat, project.height as nat) && positions_on_map(
            ps@,
            project.width as nat,
            project.height as nat,
        )),
{
    if !check_buffer(project.pixels.as_slice(), project.width, project.height) {
        return false;
    }
    let n = ps.len();
    for j in 0..n
        invariant
            n == ps@.len(),
            forall|i: int| 0 <= i < j ==> on_map(project.width as nat, project.height as nat, (#[trigger] ps@[i]).0 as int, ps@[i].1 as int),
    {
        let (x, y) = ps[j];
        if !(x < project.width && y < project.height) {
            assert(!on_map(project.width as nat, project.height as nat, ps@[j as int].0 as int, ps@[j as int].1 as int));
            return false;
        }
    }
    true
}

/// New province: the pixels of a connected region get a new colour, and a new
/// province of that colour is defined.
#[derive(Debug)]
pub struct NewProvinceCommand {
    /// The colour of the new province.
    pub new_color: ProvinceColor,
    /// The colour the region had.
    pub old_color: ProvinceColor,
    pub province_type: ProvinceType,
    pub terrain: String,
    pub continent: u32,
    /// The pixels of the region.
    pub history: Vec<(u32, u32)>,
    /// The id the last execution gave the new province; the undo removes that province.
    pub province_id: Option<ProvinceId>,
}

/// What defining the new province and painting its region does to a project, with result `r`.
pub open spec fn new_province_outcome(
    before: ProjectState,
    after: ProjectState,
    cmd: NewProvinceCommand,
    r: Result<(), CommandError>,
) -> bool {
    let w = before.width as nat;
    let h = before.height as nat;
    let ps = cmd.history@;
    let fits = buffer_fits(before.pixels@, w, h) && positions_on_map(ps, w, h);
    let id = (max_id(before.definitions.spec().entries) + 1) as ProvinceId;
    let old_id = lookup(before.graph.color_map(), cmd.old_color);
    &&& (r == Err::<(), CommandError>(CommandError::InvalidContext)) == !fits
    &&& (r is Ok) == (fits && max_id(before.definitions.spec().entries) < u32::MAX && moves_fit(
        before.graph.province_map(),
        ps,
        old_id,
        Some(id),
    ))
    &&& r is Ok ==> {
        &&& province_added(
            before.definitions.spec(),
            after.definitions.spec(),
            cmd.new_color,
            cmd.province_type@,
            cmd.terrain@,
            cmd.continent,
            id,
        )
        &&& painted_outcome(before, after, ps, cmd.new_color, old_id, Some(id))
    }
}

/// What taking the new province back does to a project, with result `r`: the region
/// gets its old colour again, its pixels moving from the province the execution added
/// back to the one of the old colour, and that added province is removed from the
/// definitions.
pub open spec fn new_province_undo_outcome(
    before: ProjectState,
    after: ProjectState,
    cmd: NewProvinceCommand,
    r: Result<(), CommandError>,
) -> bool {
    let w = before.width as nat;
    let h = before.height as nat;
    let ps = cmd.history@;
    let fits = buffer_fits(before.pixels@, w, h) && positions_on_map(ps, w, h);
    let old_id = lookup(before.graph.color_map(), cmd.old_color);
    &&& (r == Err::<(), CommandError>(CommandError::InvalidContext)) == !fits
    &&& (r is Ok) == (fits && moves_fit(before.graph.province_map(), ps, cmd.province_id, old_id))
    &&& r is Ok ==> {
        &&& painted_outcome(before, after, ps, cmd.old_color, cmd.province_id, old_id)
        &&& match cmd.province_id {
            Some(id) => province_removed(before.definitions.spec(), after.definitions.spec(), id),
            None => after.definitions == before.definitions,
        }
    }
}

/// What holds of the command after it ran from `before` with result `r`: the project
/// changed as [`new_province_outcome`] says, and the command knows the id it gave.
pub open spec fn new_province_ran(
    before: ProjectState,
    after: ProjectState,
    cmd: NewProvinceCommand,
    r: Result<(), CommandError>,
) -> bool {
    &&& new_province_outcome(before, after, cmd, r)
    &&& r is Ok ==> cmd.province_id == Some((max_id(before.definitions.spec().entries) + 1) as ProvinceId)
}

impl Command<ProjectState> for NewProvinceCommand {
    open spec fn executes(&self, before: ProjectState, after: ProjectState, r: Result<(), CommandError>) -> bool {
        new_province_outcome(before, after, *self, r)
    }

    open spec fn ran(&self, before: ProjectState, after: ProjectState, r: Result<(), CommandError>) -> bool {
        new_province_ran(before, after, *self, r)
    }

    open spec fn undoes(&self, before: ProjectState, after: ProjectState, r: Result<(), CommandError>) -> bool {
        new_province_undo_outcome(before, after, *self, r)
    }

    open spec fn undid(&self, before: ProjectState, after: ProjectState, r: Result<(), CommandError>) -> bool {
        new_province_undo_outcome(before, after, *self, r)
    }

    open spec fn description_text(&self) -> Seq<char> {
         "新規プロヴィンス作成"@
    }

    /// Defines the new province (id one more than the largest) and paints its region.
    fn execute(&mut self, project: &mut ProjectState) -> (r: Result<(), CommandError>)
        ensures
            new_province_outcome(*old(project), *final(project), *old(self), r),
            new_province_ran(*old(project), *final(project), *final(self), r),
            final(self).new_color == old(self).new_color,
            final(self).old_color == old(self).old_color,
            final(self).province_type == old(self).province_type,
            final(self).terrain == old(self).terrain,
            final(self).continent == old(self).continent,
            final(self).history == old(self).history,
    {
        if !check_positions(project, &self.history) {
            return Err(CommandError::InvalidContext);
        }
        if !project.definitions.can_add_province() {
            return Err(CommandError::CounterOverflow);
        }
        let old_id = project.graph.id_from_color(&self.old_color);
        let new_id = project.definitions.add_province(
            self.new_color,
            self.province_type.duplicate(),
            self.terrain.as_str(),
            self.continent,
        );
        self.province_id = Some(new_id);
        paint_positions(project, &self.history, self.new_color, old_id, Some(new_id))
    }

    /// Gives the region its old colour and removes the province the execution added.
    fn undo(&mut self, project: &mut ProjectState) -> (r: Result<(), CommandError>)
        ensures
            new_province_undo_outcome(*old(project), *final(project), *old(self), r),
            *final(self) == *old(self),
    {
        if !check_positions(project, &self.history) {
            return Err(CommandError::InvalidContext);
        }
        let new_id = self.province_id;
        let old_id = project.graph.id_from_color(&self.old_color);
        let res = paint_positions(project, &self.history, self.old_color, new_id, old_id);
        match res {
            Ok(()) => {
                match new_id {
                    Some(id) => project.definitions.remove(id),
                    None => {},
                }
                Ok(())
            },
            Err(e) => Err(e),
        }
    }

    fn description(&self) -> (r: &str)
        ensures
            r@ == "新規プロヴィンス作成"@,
    {
        "新規プロヴィンス作成"
    }
}


/// Whether some position of `ps` is `(x, y)`.
pub open spec fn covers(ps: Seq<(u32, u32)>, x: int, y: int) -> bool {
    exists|j: int| 0 <= j < ps.len() && (#[trigger] ps[j]).0 == x && ps[j].1 == y
}

/// Painting one colour at many positions, repeats allowed: each of them has that
/// colour, the other pixels and the bytes after the map keep theirs.
proof fn lemma_paint_uniform(pixels: Seq<u8>, w: nat, h: nat, ps: Seq<(u32, u32)>, c: ProvinceColor)
    requires
        pixels.len() >= 3 * (w * h),
        positions_on_map(ps, w, h),
    ensures
        write_all(pixels, w, colored_steps(ps, c)).len() == pixels.len(),
        forall|i: int| 3 * (w * h) <= i < pixels.len() ==> #[trigger] write_all(pixels, w, colored_steps(ps, c))[i] == pixels[i],
        forall|x: int, y: int| on_map(w, h, x, y) ==> #[trigger] color_at(write_all(pixels, w, colored_steps(ps, c)), w, x, y)
            == if covers(ps, x, y) { c } else { color_at(pixels, w, x, y) },
    decreases ps.len(),
{
    if ps.len() > 0 {
        let rest = ps.drop_last();
        let t = ps.last();
        assert(colored_steps(ps, c).drop_last() =~= colored_steps(rest, c));
        assert(colored_steps(ps, c).last() == (t.0, t.1, c));
        assert(positions_on_map(rest, w, h)) by {
            assert forall|j: int| 0 <= j < rest.len() implies on_map(w, h, (#[trigger] rest[j]).0 as int, rest[j].1 as int) by {
                assert(rest[j] == ps[j]);
            }
        }
        lemma_paint_uniform(pixels, w, h, rest, c);
        let before = write_all(pixels, w, colored_steps(rest, c));
        assert(on_map(w, h, t.0 as int, t.1 as int)) by {
            assert(ps[ps.len() - 1] == t);
        }
        lemma_with_pixel(before, w, h, t.0 as int, t.1 as int, c);
        assert forall|x: int, y: int| on_map(w, h, x, y) implies #[trigger] color_at(write_all(pixels, w, colored_steps(ps, c)), w, x, y)
            == if covers(ps, x, y) { c } else { color_at(pixels, w, x, y) } by {
            if x == t.0 && y == t.1 {
                assert(ps[ps.len() - 1] == t);
                assert(covers(ps, x, y));
            } else if covers(rest, x, y) {
                let j = choose|j: int| 0 <= j < rest.len() && (#[trigger] rest[j]).0 == x && rest[j].1 == y;
                assert(rest[j] == ps[j]);
                assert(covers(ps, x, y));
            } else {
                if covers(ps, x, y) {
                    let j = choose|j: int| 0 <= j < ps.len() && (#[trigger] ps[j]).0 == x && ps[j].1 == y;
                    if j < ps.len() - 1 {
                        assert(rest[j] == ps[j]);
                    }
                }
            }
        }
    }
}

/// Taking a new province back gives its region the old colour again and removes the
/// province: when every pixel of the region had that colour, the map is as it was
/// before the province, and so are the definition lines (and the colour lookup, when
/// the new colour was not in use).
pub proof fn law_new_province_undo(p0: ProjectState, p1: ProjectState, p2: ProjectState, cmd: NewProvinceCommand)
    requires
        new_province_ran(p0, p1, cmd, Ok(())),
        new_province_undo_outcome(p1, p2, cmd, Ok(())),
        forall|j: int| 0 <= j < cmd.history@.len() ==> color_at(p0.pixels@, p0.width as nat, (#[trigger] cmd.history@[j]).0 as int, cmd.history@[j].1 as int) == cmd.old_color,
    ensures
        same_image(p0.pixels@, p2.pixels@, p0.width as nat, p0.height as nat),
        p2.pixels@ == p0.pixels@,
        p2.width == p0.width,
        p2.height == p0.height,
        p2.definitions.spec().entries == p0.definitions.spec().entries,
        p2.definitions.spec().header_lines == p0.definitions.spec().header_lines,
        !p0.definitions.spec().colors.contains_key(cmd.new_color.key()) ==> p2.definitions.spec().colors == p0.definitions.spec().colors,
{
    let w = p0.width as nat;
    let h = p0.height as nat;
    let ps = cmd.history@;
    lemma_paint_uniform(p0.pixels@, w, h, ps, cmd.new_color);
    lemma_paint_uniform(p1.pixels@, w, h, ps, cmd.old_color);
    assert forall|x: int, y: int| on_map(w, h, x, y) implies #[trigger] color_at(p0.pixels@, w, x, y) == color_at(p2.pixels@, w, x, y) by {
        if covers(ps, x, y) {
            let j = choose|j: int| 0 <= j < ps.len() && (#[trigger] ps[j]).0 == x && ps[j].1 == y;
            assert(color_at(p0.pixels@, w, ps[j].0 as int, ps[j].1 as int) == cmd.old_color);
        }
    }
    let id = (max_id(p0.definitions.spec().entries) + 1) as ProvinceId;
    crate::map::definition::law_add_then_remove(
        p0.definitions.spec(),
        p1.definitions.spec(),
        p2.definitions.spec(),
        cmd.new_color,
        cmd.province_type@,
        cmd.terrain@,
        cmd.continent,
        id,
    );
    lemma_same_image_equal(p0.pixels@, p2.pixels@, w, h);
}


/// Edits the terrain, kind and continent of several provinces at once.
#[derive(Debug)]
pub struct EditProvincesCommand {
    /// The provinces to edit.
    pub province_ids: HashSet<ProvinceId>,
    pub new_terrain: Option<String>,
    pub new_province_type: Option<ProvinceType>,
    pub new_continent: Option<u32>,
    /// Per edited province: its terrain, kind and continent before the edit.
    pub history: HashMap<ProvinceId, (String, ProvinceType, u32)>,
}

/// Line `l` with the new values of `cmd` put in.
pub open spec fn edited_line(l: DefinitionLine, cmd: EditProvincesCommand) -> DefinitionLine {
    DefinitionLine {
        id: l.id,
        color: l.color,
        province_type: match cmd.new_province_type {
            Some(k) => k@,
            None => l.province_type,
        },
        is_coastal: l.is_coastal,
        terrain: match cmd.new_terrain {
            Some(t) => t@,
            None => l.terrain,
        },
        continent: match cmd.new_continent {
            Some(c) => c,
            None => l.continent,
        },
        raw_extra_fields: l.raw_extra_fields,
    }
}

/// Line `l` with the terrain, kind and continent of `saved`.
pub open spec fn restored_line(l: DefinitionLine, saved: (String, ProvinceType, u32)) -> DefinitionLine {
    DefinitionLine {
        id: l.id,
        color: l.color,
        province_type: saved.1@,
        is_coastal: l.is_coastal,
        terrain: saved.0@,
        continent: saved.2,
        raw_extra_fields: l.raw_extra_fields,
    }
}

/// Whether `saved` holds the terrain, kind and continent of line `l`.
pub open spec fn saved_from(saved: (String, ProvinceType, u32), l: DefinitionLine) -> bool {
    &&& saved.0@ == l.terrain
    &&& saved.1@ == l.province_type
    &&& saved.2 == l.continent
}

/// Whether line `i` of `entries` is the line of its id (the first with that id) and
/// that id is in `chosen`.
pub open spec fn selected(entries: Seq<DefinitionLine>, i: int, chosen: Set<ProvinceId>) -> bool {
    chosen.contains(entries[i].id) && is_first_with_id(entries, entries[i].id, i)
}

/// Whether `after` differs from `before` in its definitions at most.
pub open spec fn only_definitions_changed(before: ProjectState, after: ProjectState) -> bool {
    &&& after.pixels == before.pixels
    &&& after.width == before.width
    &&& after.height == before.height
    &&& after.graph == before.graph
    &&& after.project_dir == before.project_dir
    &&& after.dirty_rect == before.dirty_rect
}

/// What editing does to a project and to the command: the line of each chosen id gets
/// the new values, and the command keeps, per id that has a line, what that line had.
pub open spec fn edit_outcome(
    before: ProjectState,
    after: ProjectState,
    cmd: EditProvincesCommand,
    cmd_after: EditProvincesCommand,
) -> bool {
    let e0 = before.definitions.spec().entries;
    let e1 = after.definitions.spec().entries;
    &&& e1.len() == e0.len()
    &&& forall|i: int| 0 <= i < e0.len() ==> #[trigger] e1[i] == if selected(e0, i, cmd.province_ids@) {
        edited_line(e0[i], cmd)
    } else {
        e0[i]
    }
    &&& after.definitions.spec().colors == before.definitions.spec().colors
    &&& after.definitions.spec().header_lines == before.definitions.spec().header_lines
    &&& only_definitions_changed(before, after)
    &&& cmd_after.province_ids == cmd.province_ids
    &&& cmd_after.new_terrain == cmd.new_terrain
    &&& cmd_after.new_province_type == cmd.new_province_type
    &&& cmd_after.new_continent == cmd.new_continent
    &&& forall|id: ProvinceId| #[trigger] cmd_after.history@.contains_key(id)
        <==> cmd.province_ids@.contains(id) && position_of(e0, id) is Some
    &&& forall|id: ProvinceId| #[trigger] cmd_after.history@.contains_key(id)
        ==> saved_from(cmd_after.history@[id], e0[position_of(e0, id)->0])
}

/// What taking the edit back does to a project: the line of each id the command kept
/// gets the values kept for it.
pub open spec fn edit_undo_outcome(before: ProjectState, after: ProjectState, cmd: EditProvincesCommand) -> bool {
    let e0 = before.definitions.spec().entries;
    let e1 = after.definitions.spec().entries;
    &&& e1.len() == e0.len()
    &&& forall|i: int| 0 <= i < e0.len() ==> #[trigger] e1[i] == if selected(e0, i, cmd.history@.dom()) {
        restored_line(e0[i], cmd.history@[e0[i].id])
    } else {
        e0[i]
    }
    &&& after.definitions.spec().colors == before.definitions.spec().colors
    &&& after.definitions.spec().header_lines == before.definitions.spec().header_lines
    &&& only_definitions_changed(before, after)
}

/// Whether `id` is among the first `k` elements of `s`.
pub open spec fn seen(s: Seq<ProvinceId>, k: int, id: ProvinceId) -> bool {
    exists|j: int| 0 <= j < k && s[j] == id
}

/// Lines with the same ids, position by position, have their first line of each id
/// at the same place.
proof fn lemma_same_ids(a: Seq<DefinitionLine>, b: Seq<DefinitionLine>, id: ProvinceId)
    requires
        a.len() == b.len(),
        forall|i: int| 0 <= i < a.len() ==> (#[trigger] a[i]).id == b[i].id,
    ensures
        position_of(a, id) == position_of(b, id),
        forall|i: int| is_first_with_id(a, id, i) <==> is_first_with_id(b, id, i),
{
    assert forall|i: int| is_first_with_id(a, id, i) <==> is_first_with_id(b, id, i) by {
        if is_first_with_id(a, id, i) {
            assert forall|j: int| 0 <= j < i implies b[j].id != id by {
                assert(a[j].id == b[j].id);
            }
        }
        if is_first_with_id(b, id, i) {
            assert forall|j: int| 0 <= j < i implies a[j].id != id by {
                assert(a[j].id == b[j].id);
            }
            assert(a[i].id == b[i].id);
        }
    }
    lemma_position_of(a, id);
    lemma_position_of(b, id);
    match position_of(a, id) {
        Some(i) => {
            assert(is_first_with_id(b, id, i));
        },
        None => {
            assert forall|j: int| 0 <= j < b.len() implies b[j].id != id by {
                assert(a[j].id == b[j].id);
            }
        },
    }
}

/// The elements of `ids`, each once.
fn set_elements(ids: &HashSet<ProvinceId>) -> (v: Vec<ProvinceId>)
    ensures
        v@.no_duplicates(),
        forall|id: ProvinceId| ids@.contains(id) <==> v@.contains(id),
{
    let mut v: Vec<ProvinceId> = Vec::new();
    for idr in it: ids.iter()
        invariant
            it.seq() == vstd::std_specs::hash::spec_hash_keys_iter(ids).remaining(),
            v@.len() == it.index(),
            forall|i: int| 0 <= i < v@.len() ==> v@[i] == *it.seq()[i],
    {
        v.push(*idr);
    }
    proof {
        let rem = vstd::std_specs::hash::spec_hash_keys_iter(ids).remaining();
        assert(v@ =~= rem.unref());
        assert(rem.unref().to_set() == ids@);
        assert forall|id: ProvinceId| ids@.contains(id) <==> v@.contains(id) by {
            assert(rem.unref().to_set().contains(id) <==> rem.unref().contains(id));
        }
        assert forall|i: int, j: int| 0 <= i < v@.len() && 0 <= j < v@.len() && i != j implies v@[i] != v@[j] by {
            assert(rem[i] != rem[j]);
        }
    }
    v
}

/// The keys of `m`, each once.
fn map_keys<V>(m: &HashMap<ProvinceId, V>) -> (v: Vec<ProvinceId>)
    ensures
        v@.no_duplicates(),
        forall|id: ProvinceId| m@.contains_key(id) <==> v@.contains(id),
{
    let mut v: Vec<ProvinceId> = Vec::new();
    for kr in it: m.keys()
        invariant
            it.seq() == vstd::std_specs::hash::spec_keys_iter(m).remaining(),
            v@.len() == it.index(),
            forall|i: int| 0 <= i < v@.len() ==> v@[i] == *it.seq()[i],
    {
        v.push(*kr);
    }
    proof {
        let rem = vstd::std_specs::hash::spec_keys_iter(m).remaining();
        assert(v@ =~= rem.unref());
        assert(rem.unref().to_set() == m@.dom());
        assert forall|id: ProvinceId| m@.contains_key(id) <==> v@.contains(id) by {
            assert(rem.unref().to_set().contains(id) <==> rem.unref().contains(id));
        }
        assert forall|i: int, j: int| 0 <= i < v@.len() && 0 <= j < v@.len() && i != j implies v@[i] != v@[j] by {
            assert(rem[i] != rem[j]);
        }
    }
    v
}

impl Command<ProjectState> for EditProvincesCommand {
    open spec fn executes(&self, before: ProjectState, after: ProjectState, r: Result<(), CommandError>) -> bool {
        r is Ok && exists|c: EditProvincesCommand| edit_outcome(before, after, *self, c)
    }

    open spec fn ran(&self, before: ProjectState, after: ProjectState, r: Result<(), CommandError>) -> bool {
        r is Ok && exists|c: EditProvincesCommand| #[trigger] edit_outcome(before, after, c, *self)
    }

    open spec fn undoes(&self, before: ProjectState, after: ProjectState, r: Result<(), CommandError>) -> bool {
        r is Ok && edit_undo_outcome(before, after, *self)
    }

    open spec fn undid(&self, before: ProjectState, after: ProjectState, r: Result<(), CommandError>) -> bool {
        r is Ok && edit_undo_outcome(before, after, *self)
    }

    open spec fn description_text(&self) -> Seq<char> {
         "プロパティ一括編集"@
    }

    /// Puts the new values into the line of each chosen province that has one, keeping
    /// what the line had.
    fn execute(&mut self, project: &mut ProjectState) -> (r: Result<(), CommandError>)
        ensures
            edit_outcome(*old(project), *final(project), *old(self), *final(self)),
            r is Ok,
    {
        let ghost c0 = *self;
        self.history.clear();
        let ids = set_elements(&self.province_ids);
        let ghost e0 = project.definitions.spec().entries;
        let ghost p0 = *project;
        let n = ids.len();
        for k in 0..n
            invariant
                n == ids@.len(),
                ids@.no_duplicates(),
                forall|id: ProvinceId| c0.province_ids@.contains(id) <==> ids@.contains(id),
                p0 == *old(project),
                c0 == *old(self),
                e0 == p0.definitions.spec().entries,
                self.province_ids == c0.province_ids,
                self.new_terrain == c0.new_terrain,
                self.new_province_type == c0.new_province_type,
                self.new_continent == c0.new_continent,
                project.definitions.spec().entries.len() == e0.len(),
                forall|i: int| 0 <= i < e0.len() ==> #[trigger] project.definitions.spec().entries[i] == if seen(
                    ids@,
                    k as int,
                    e0[i].id,
                ) && is_first_with_id(e0, e0[i].id, i) {
                    edited_line(e0[i], c0)
                } else {
                    e0[i]
                },
                project.definitions.spec().colors == p0.definitions.spec().colors,
                project.definitions.spec().header_lines == p0.definitions.spec().header_lines,
                only_definitions_changed(p0, *project),
                forall|id: ProvinceId| #[trigger] self.history@.contains_key(id)
                    <==> seen(ids@, k as int, id) && position_of(e0, id) is Some,
                forall|id: ProvinceId| #[trigger] self.history@.contains_key(id)
                    ==> saved_from(self.history@[id], e0[position_of(e0, id)->0]),
        {
            let id = ids[k];
            let ghost cur = project.definitions.spec().entries;
            proof {
                assert forall|i: int| 0 <= i < cur.len() implies (#[trigger] cur[i]).id == e0[i].id by {
                    assert(cur[i] == project.definitions.spec().entries[i]);
                }
                lemma_same_ids(cur, e0, id);
                lemma_position_of(e0, id);
                assert(!seen(ids@, k as int, id)) by {
                    if seen(ids@, k as int, id) {
                        let j = choose|j: int| 0 <= j < k && ids@[j] == id;
                        assert(ids@[j] == ids@[k as int]);
                    }
                }
            }
            match project.definitions.get_mut(id) {
                Some(def) => {
                    let ghost p = position_of(e0, id)->0;
                    assert(is_first_with_id(e0, id, p));
                    assert(cur[p] == e0[p]);
                    self.history.insert(id, (def.terrain.clone(), def.province_type.duplicate(), def.continent));
                    match &self.new_terrain {
                        Some(t) => {
                            def.terrain = t.clone();
                        },
                        None => {},
                    }
                    match &self.new_province_type {
                        Some(pt) => {
                            def.province_type = pt.duplicate();
                        },
                        None => {},
                    }
                    match self.new_continent {
                        Some(c) => {
                            def.continent = c;
                        },
                        None => {},
                    }
                },
                None => {},
            }
            proof {
                let now = project.definitions.spec().entries;
                assert forall|i: int| 0 <= i < e0.len() implies #[trigger] now[i] == if seen(
                    ids@,
                    k + 1,
                    e0[i].id,
                ) && is_first_with_id(e0, e0[i].id, i) {
                    edited_line(e0[i], c0)
                } else {
                    e0[i]
                } by {
                    if e0[i].id == id {
                        assert(ids@[k as int] == id);
                    } else {
                        if seen(ids@, k + 1, e0[i].id) {
                            let j = choose|j: int| 0 <= j < k + 1 && ids@[j] == e0[i].id;
                            assert(j < k);
                        }
                        if seen(ids@, k as int, e0[i].id) {
                            let j = choose|j: int| 0 <= j < k && ids@[j] == e0[i].id;
                            assert(seen(ids@, k + 1, e0[i].id));
                        }
                    }
                }
                assert forall|id2: ProvinceId| #[trigger] self.history@.contains_key(id2)
                    <==> seen(ids@, k + 1, id2) && position_of(e0, id2) is Some by {
                    if id2 == id {
                        assert(ids@[k as int] == id);
                    } else {
                        if seen(ids@, k + 1, id2) {
                            let j = choose|j: int| 0 <= j < k + 1 && ids@[j] == id2;
                            assert(j < k);
                        }
                        if seen(ids@, k as int, id2) {
                            let j = choose|j: int| 0 <= j < k && ids@[j] == id2;
                            assert(seen(ids@, k + 1, id2));
                        }
                    }
                }
            }
        }
        proof {
            let now = project.definitions.spec().entries;
            assert forall|id: ProvinceId| seen(ids@, n as int, id) <==> c0.province_ids@.contains(id) by {
                if ids@.contains(id) {
                    let j = choose|j: int| 0 <= j < ids@.len() && ids@[j] == id;
                    assert(seen(ids@, n as int, id));
                }
            }
            assert forall|i: int| 0 <= i < e0.len() implies #[trigger] now[i] == if selected(e0, i, c0.province_ids@) {
                edited_line(e0[i], c0)
            } else {
                e0[i]
            } by {
                assert(seen(ids@, n as int, e0[i].id) <==> c0.province_ids@.contains(e0[i].id));
            }
            assert forall|id: ProvinceId| #[trigger] self.history@.contains_key(id)
                <==> c0.province_ids@.contains(id) && position_of(e0, id) is Some by {
                assert(seen(ids@, n as int, id) <==> c0.province_ids@.contains(id));
            }
            assert(edit_outcome(*old(project), *project, *old(self), *self));
        }
        Ok(())
    }

    /// Gives the line of each province the command kept the values kept for it.
    fn undo(&mut self, project: &mut ProjectState) -> (r: Result<(), CommandError>)
        ensures
            edit_undo_outcome(*old(project), *final(project), *old(self)),
            *final(self) == *old(self),
            r is Ok,
    {
        let ids = map_keys(&self.history);
        let ghost e0 = project.definitions.spec().entries;
        let ghost p0 = *project;
        let ghost hist = self.history@;
        let n = ids.len();
        for k in 0..n
            invariant
                n == ids@.len(),
                ids@.no_duplicates(),
                forall|id: ProvinceId| hist.contains_key(id) <==> ids@.contains(id),
                hist == self.history@,
                p0 == *old(project),
                e0 == p0.definitions.spec().entries,
                project.definitions.spec().entries.len() == e0.len(),
                forall|i: int| 0 <= i < e0.len() ==> #[trigger] project.definitions.spec().entries[i] == if seen(
                    ids@,
                    k as int,
                    e0[i].id,
                ) && is_first_with_id(e0, e0[i].id, i) {
                    restored_line(e0[i], hist[e0[i].id])
                } else {
                    e0[i]
                },
                project.definitions.spec().colors == p0.definitions.spec().colors,
                project.definitions.spec().header_lines == p0.definitions.spec().header_lines,
                only_definitions_changed(p0, *project),
        {
            let id = ids[k];
            let ghost cur = project.definitions.spec().entries;
            proof {
                assert forall|i: int| 0 <= i < cur.len() implies (#[trigger] cur[i]).id == e0[i].id by {
                    assert(cur[i] == project.definitions.spec().entries[i]);
                }
                lemma_same_ids(cur, e0, id);
                lemma_position_of(e0, id);
                assert(!seen(ids@, k as int, id)) by {
                    if seen(ids@, k as int, id) {
                        let j = choose|j: int| 0 <= j < k && ids@[j] == id;
                        assert(ids@[j] == ids@[k as int]);
                    }
                }
                assert(hist.contains_key(id));
            }
            match self.history.get(&id) {
                Some(saved) => {
                    match project.definitions.get_mut(id) {
                        Some(def) => {
                            let ghost p = position_of(e0, id)->0;
                            assert(is_first_with_id(e0, id, p));
                            assert(cur[p] == e0[p]);
                            def.terrain = saved.0.clone();
                            def.province_type = saved.1.duplicate();
                            def.continent = saved.2;
                        },
                        None => {},
                    }
                },
                None => {},
            }
            proof {
                let now = project.definitions.spec().entries;
                assert forall|i: int| 0 <= i < e0.len() implies #[trigger] now[i] == if seen(
                    ids@,
                    k + 1,
                    e0[i].id,
                ) && is_first_with_id(e0, e0[i].id, i) {
                    restored_line(e0[i], hist[e0[i].id])
                } else {
                    e0[i]
                } by {
                    if e0[i].id == id {
                        assert(ids@[k as int] == id);
                    } else {
                        if seen(ids@, k + 1, e0[i].id) {
                            let j = choose|j: int| 0 <= j < k + 1 && ids@[j] == e0[i].id;
                            assert(j < k);
                        }
                        if seen(ids@, k as int, e0[i].id) {
                            let j = choose|j: int| 0 <= j < k && ids@[j] == e0[i].id;
                            assert(seen(ids@, k + 1, e0[i].id));
                        }
                    }
                }
            }
        }
        proof {
            let now = project.definitions.spec().entries;
            assert forall|id: ProvinceId| seen(ids@, n as int, id) <==> hist.contains_key(id) by {
                if ids@.contains(id) {
                    let j = choose|j: int| 0 <= j < ids@.len() && ids@[j] == id;
                    assert(seen(ids@, n as int, id));
                }
            }
            assert forall|i: int| 0 <= i < e0.len() implies #[trigger] now[i] == if selected(e0, i, hist.dom()) {
                restored_line(e0[i], hist[e0[i].id])
            } else {
                e0[i]
            } by {
                assert(seen(ids@, n as int, e0[i].id) <==> hist.contains_key(e0[i].id));
            }
        }
        Ok(())
    }

    fn description(&self) -> (r: &str)
        ensures
            r@ == "プロパティ一括編集"@,
    {
        "プロパティ一括編集"
    }
}

/// Editing gives the first line of each chosen id the new kind, terrain and
/// continent that are set, and keeps what is not set; every other field of every
/// line, and every line of an id that was not chosen (or a later line of a chosen id),
/// stays as it was.
pub proof fn law_edit_sets_fields(p0: ProjectState, p1: ProjectState, c0: EditProvincesCommand, c1: EditProvincesCommand)
    requires
        edit_outcome(p0, p1, c0, c1),
    ensures
        ({
            let e0 = p0.definitions.spec().entries;
            let e1 = p1.definitions.spec().entries;
            &&& e1.len() == e0.len()
            &&& forall|i: int| 0 <= i < e0.len() ==> {
                &&& (#[trigger] e1[i]).id == e0[i].id
                &&& e1[i].color == e0[i].color
                &&& e1[i].is_coastal == e0[i].is_coastal
                &&& e1[i].raw_extra_fields == e0[i].raw_extra_fields
                &&& if c0.province_ids@.contains(e0[i].id) && position_of(e0, e0[i].id) == Some(i) {
                    &&& e1[i].province_type == match c0.new_province_type {
                        Some(k) => k@,
                        None => e0[i].province_type,
                    }
                    &&& e1[i].terrain == match c0.new_terrain {
                        Some(t) => t@,
                        None => e0[i].terrain,
                    }
                    &&& e1[i].continent == match c0.new_continent {
                        Some(c) => c,
                        None => e0[i].continent,
                    }
                } else {
                    e1[i] == e0[i]
                }
            }
        }),
{
    let e0 = p0.definitions.spec().entries;
    let e1 = p1.definitions.spec().entries;
    assert forall|i: int| 0 <= i < e0.len() implies (position_of(e0, e0[i].id) == Some(i)) == is_first_with_id(e0, e0[i].id, i) by {
        lemma_position_of(e0, e0[i].id);
        if position_of(e0, e0[i].id) == Some(i) {
            let k = choose|k: int| is_first_with_id(e0, e0[i].id, k);
            assert(is_first_with_id(e0, e0[i].id, k));
        }
    }
    assert forall|i: int| 0 <= i < e0.len() implies #[trigger] e1[i] == if selected(e0, i, c0.province_ids@) {
        edited_line(e0[i], c0)
    } else {
        e0[i]
    } by {}
}

/// Editing several provinces and taking the edit back gives the table as it was.
pub proof fn law_edit_undo(
    p0: ProjectState,
    p1: ProjectState,
    p2: ProjectState,
    cmd0: EditProvincesCommand,
    cmd1: EditProvincesCommand,
)
    requires
        edit_outcome(p0, p1, cmd0, cmd1),
        edit_undo_outcome(p1, p2, cmd1),
    ensures
        p2.definitions.spec() == p0.definitions.spec(),
        only_definitions_changed(p0, p2),
{
    let e0 = p0.definitions.spec().entries;
    let e1 = p1.definitions.spec().entries;
    let e2 = p2.definitions.spec().entries;
    assert forall|i: int| 0 <= i < e0.len() implies #[trigger] e2[i] == e0[i] by {
        let id = e0[i].id;
        assert forall|j: int| 0 <= j < e1.len() implies (#[trigger] e1[j]).id == e0[j].id by {
            assert(e1[j] == (if selected(e0, j, cmd0.province_ids@) { edited_line(e0[j], cmd0) } else { e0[j] }));
        }
        lemma_same_ids(e1, e0, id);
        lemma_position_of(e0, id);
        assert(e1[i].id == id);
        if is_first_with_id(e0, id, i) {
            assert(position_of(e0, id) == Some(i));
        }
    }
    assert(e2 =~= e0);
}


/// The cells of `cs` in the order in which each first comes, each once.
pub open spec fn first_cells(cs: Seq<(i32, i32)>) -> Seq<(i32, i32)>
    decreases cs.len(),
{
    if cs.len() == 0 {
        Seq::empty()
    } else {
        let d = first_cells(cs.drop_last());
        if d.contains(cs.last()) {
            d
        } else {
            d.push(cs.last())
        }
    }
}

/// The place of `c` in `d`.
pub open spec fn place_of(d: Seq<(i32, i32)>, c: (i32, i32)) -> int {
    choose|k: int| 0 <= k < d.len() && d[k] == c
}

/// The colour of the `k`-th province of a generated map: the colour keys from
/// `0x010000` up, in order, and white once they have run out.
pub open spec fn hex_color(k: nat) -> ProvinceColor {
    if k < 0xFF_0000 {
        ProvinceColor::of_key((0x01_0000 + k) as u32)
    } else {
        ProvinceColor { r: 255, g: 255, b: 255 }
    }
}

/// The definition line of the `k`-th province of a generated map.
pub open spec fn hex_line(k: nat) -> DefinitionLine {
    DefinitionLine {
        id: (k + 1) as ProvinceId,
        color: hex_color(k),
        province_type: ProvinceKind::Land,
        is_coastal: false,
        terrain: "plains"@,
        continent: 1,
        raw_extra_fields: Seq::empty(),
    }
}

/// The definitions of a generated map with `n` provinces.
pub open spec fn hex_definitions(n: nat) -> Definitions
    decreases n,
{
    if n == 0 {
        Definitions { entries: Seq::empty(), colors: Map::empty(), header_lines: Seq::empty() }
    } else {
        let t = hex_definitions((n - 1) as nat);
        Definitions {
            entries: t.entries.push(hex_line((n - 1) as nat)),
            colors: t.colors.insert(hex_color((n - 1) as nat).key(), n as ProvinceId),
            header_lines: t.header_lines,
        }
    }
}

/// The 64-bit lookup key of a hex cell.
pub open spec fn cell_key(c: (i32, i32)) -> u64 {
    ((c.0 + 0x8000_0000) * 0x1_0000_0000 + (c.1 + 0x8000_0000)) as u64
}

/// The colour of pixel `i` of a buffer, counting pixels row by row.
pub open spec fn nth_color(pixels: Seq<u8>, i: int) -> ProvinceColor {
    ProvinceColor { r: pixels[3 * i], g: pixels[3 * i + 1], b: pixels[3 * i + 2] }
}

/// What a sequence with one more element at its end contains.
proof fn lemma_push_contains(s: Seq<(i32, i32)>, a: (i32, i32), b: (i32, i32))
    ensures
        s.push(a).contains(b) <==> s.contains(b) || a == b,
{
    if s.contains(b) {
        let j = choose|j: int| 0 <= j < s.len() && s[j] == b;
        assert(s.push(a)[j] == b);
    }
    if a == b {
        assert(s.push(a)[s.len() as int] == b);
    }
    if s.push(a).contains(b) && a != b {
        let j = choose|j: int| 0 <= j < s.push(a).len() && s.push(a)[j] == b;
        assert(s[j] == b);
    }
}

/// The first cells are distinct, no more than the cells, and the same set of cells.
proof fn lemma_first_cells(cs: Seq<(i32, i32)>)
    ensures
        first_cells(cs).no_duplicates(),
        first_cells(cs).len() <= cs.len(),
        forall|c: (i32, i32)| first_cells(cs).contains(c) <==> cs.contains(c),
    decreases cs.len(),
{
    if cs.len() > 0 {
        let rest = cs.drop_last();
        let last = cs.last();
        let d = first_cells(rest);
        lemma_first_cells(rest);
        assert(cs =~= rest.push(last));
        if !d.contains(last) {
            assert(d.push(last).no_duplicates()) by {
                assert forall|a: int, b: int| 0 <= a < b < d.push(last).len() implies d.push(last)[a] != d.push(last)[b] by {
                    if b == d.len() {
                        assert(d[a] == d.push(last)[a]);
                    }
                }
            }
        }
        assert forall|c: (i32, i32)| first_cells(cs).contains(c) <==> cs.contains(c) by {
            lemma_push_contains(rest, last, c);
            lemma_push_contains(d, last, c);
        }
    }
}

/// In a sequence without repeats, the place of an element is its only index.
proof fn lemma_place_of(d: Seq<(i32, i32)>, c: (i32, i32))
    requires
        d.no_duplicates(),
        d.contains(c),
    ensures
        0 <= place_of(d, c) < d.len(),
        d[place_of(d, c)] == c,
        forall|k: int| 0 <= k < d.len() && d[k] == c ==> k == place_of(d, c),
{
}

/// The generated definitions: `n` lines, largest id `n`, no header, and the colour
/// keys from `0x010000` below `0x010000 + n` in use.
proof fn lemma_hex_definitions(n: nat)
    requires
        n <= u32::MAX,
    ensures
        hex_definitions(n).entries.len() == n,
        max_id(hex_definitions(n).entries) == n,
        hex_definitions(n).header_lines.len() == 0,
        forall|k: u32| #[trigger] hex_definitions(n).colors.contains_key(k) <==> allocatable(k) && k < 0x01_0000 + n,
    decreases n,
{
    if n > 0 {
        let m = (n - 1) as nat;
        lemma_hex_definitions(m);
        let t = hex_definitions(m);
        assert(hex_definitions(n).entries.drop_last() =~= t.entries);
        law_color_key_roundtrip(hex_color(m));
        if m < 0xFF_0000 {
            crate::map::graph::law_key_color_roundtrip((0x01_0000 + m) as u32, hex_color(m), hex_color(m));
        }
        assert(hex_color(m).key() == if m < 0xFF_0000 { (0x01_0000 + m) as u32 } else { 0xFF_FFFFu32 });
    }
}

/// Distinct cells have distinct keys.
proof fn lemma_cell_key(c: (i32, i32), d: (i32, i32))
    ensures
        cell_key(c) == cell_key(d) ==> c == d,
{
    let a1 = c.0 + 0x8000_0000;
    let b1 = c.1 + 0x8000_0000;
    let a2 = d.0 + 0x8000_0000;
    let b2 = d.1 + 0x8000_0000;
    assert(0 <= a1 * 0x1_0000_0000 + b1 < 0x1_0000_0000_0000_0000);
    assert(0 <= a2 * 0x1_0000_0000 + b2 < 0x1_0000_0000_0000_0000);
}

/// The lookup key of hex cell `c`.
fn key_of_cell(c: (i32, i32)) -> (k: u64)
    ensures
        k == cell_key(c),
{
    let a = (c.0 as i64 + 0x8000_0000i64) as u64;
    let b = (c.1 as i64 + 0x8000_0000i64) as u64;
    a * 0x1_0000_0000u64 + b
}

/// Hex map generation: each pixel gets the colour of a new province for its hex
/// cell, one province per cell, and the graph is built anew.
#[derive(Debug)]
pub struct GenerateHexMapCommand {
    /// The hex cell of each pixel, row by row: that of `(x, y)` at `y * width + x`.
    pub cells: Vec<(i32, i32)>,
    /// The pixels before the generation.
    old_pixels: Vec<u8>,
    /// The definitions before the generation.
    old_definitions: DefinitionTable,
}

impl GenerateHexMapCommand {
    /// The hex cell of each pixel, row by row.
    pub closed spec fn pixel_cells(&self) -> Seq<(i32, i32)> {
        self.cells@
    }

    /// The pixels kept for undoing.
    pub closed spec fn saved_pixels(&self) -> Seq<u8> {
        self.old_pixels@
    }

    /// The definitions kept for undoing.
    pub closed spec fn saved_definitions(&self) -> Definitions {
        self.old_definitions.spec()
    }

    /// A generation over the given cells, with nothing kept yet.
    pub fn new(cells: Vec<(i32, i32)>) -> (c: Self)
        ensures
            c.pixel_cells() == cells@,
            c.saved_pixels().len() == 0,
            c.saved_definitions().entries.len() == 0,
            c.saved_definitions().colors == Map::<u32, ProvinceId>::empty(),
            c.saved_definitions().header_lines.len() == 0,
    {
        GenerateHexMapCommand { cells, old_pixels: Vec::new(), old_definitions: DefinitionTable::new() }
    }
}

/// What generating does to a project and to the command, with result `r`.
pub open spec fn hex_outcome(
    before: ProjectState,
    after: ProjectState,
    cmd: GenerateHexMapCommand,
    cmd_after: GenerateHexMapCommand,
    r: Result<(), CommandError>,
) -> bool {
    let w = before.width as nat;
    let h = before.height as nat;
    let cs = cmd.pixel_cells();
    let d = first_cells(cs);
    &&& (r is Ok) == (buffer_fits(before.pixels@, w, h) && cs.len() == w * h)
    &&& r is Err ==> r == Err::<(), CommandError>(CommandError::InvalidContext) && after == before && cmd_after == cmd
    &&& r is Ok ==> {
        &&& after.width == before.width
        &&& after.height == before.height
        &&& after.project_dir == before.project_dir
        &&& after.pixels@.len() == before.pixels@.len()
        &&& forall|x: int, y: int| on_map(w, h, x, y) ==> #[trigger] color_at(after.pixels@, w, x, y) == hex_color(
            place_of(d, cs[y * w + x]) as nat,
        )
        &&& forall|i: int| 3 * (w * h) <= i < before.pixels@.len() ==> after.pixels@[i] == before.pixels@[i]
        &&& after.definitions.spec() == hex_definitions(d.len())
        &&& after.graph.built_from(after.pixels@, w, h, after.definitions.spec().colors)
        &&& after.dirty_rect == Some(whole_map(before.width, before.height))
        &&& cmd_after.pixel_cells() == cmd.pixel_cells()
        &&& cmd_after.saved_pixels() == before.pixels@
        &&& cmd_after.saved_definitions() == before.definitions.spec()
    }
}

/// What taking a generation back does to a project, with result `r`.
pub open spec fn hex_undo_outcome(
    before: ProjectState,
    after: ProjectState,
    cmd: GenerateHexMapCommand,
    r: Result<(), CommandError>,
) -> bool {
    let w = before.width as nat;
    let h = before.height as nat;
    &&& (r is Ok) == buffer_fits(cmd.saved_pixels(), w, h)
    &&& r is Err ==> r == Err::<(), CommandError>(CommandError::InvalidContext) && after == before
    &&& r is Ok ==> {
        &&& after.width == before.width
        &&& after.height == before.height
        &&& after.project_dir == before.project_dir
        &&& after.pixels@ == cmd.saved_pixels()
        &&& after.definitions.spec() == cmd.saved_definitions()
        &&& after.graph.built_from(cmd.saved_pixels(), w, h, cmd.saved_definitions().colors)
        &&& after.dirty_rect == Some(whole_map(before.width, before.height))
    }
}

/// `d` with `cell` at its end, unless it has it already.
pub open spec fn grown(d: Seq<(i32, i32)>, cell: (i32, i32)) -> Seq<(i32, i32)> {
    if d.contains(cell) {
        d
    } else {
        d.push(cell)
    }
}

/// Whether `seen` maps the key of each cell of `d`, and no other cell, to its colour.
pub open spec fn seen_matches(seen: Map<u64, ProvinceColor>, d: Seq<(i32, i32)>) -> bool {
    &&& forall|c: (i32, i32)| #[trigger] seen.contains_key(cell_key(c)) <==> d.contains(c)
    &&& forall|c: (i32, i32)| d.contains(c) ==> seen[#[trigger] cell_key(c)] == hex_color(place_of(d, c) as nat)
}

/// Growing keeps the places of the cells already there and adds `cell`.
proof fn lemma_grown(d: Seq<(i32, i32)>, cell: (i32, i32))
    requires
        d.no_duplicates(),
    ensures
        grown(d, cell).no_duplicates(),
        grown(d, cell).contains(cell),
        forall|c: (i32, i32)| #[trigger] grown(d, cell).contains(c) <==> d.contains(c) || c == cell,
        forall|c: (i32, i32)| d.contains(c) ==> #[trigger] place_of(grown(d, cell), c) == place_of(d, c),
        !d.contains(cell) ==> place_of(grown(d, cell), cell) == d.len(),
{
    let g = grown(d, cell);
    if !d.contains(cell) {
        assert(g.no_duplicates()) by {
            assert forall|a: int, b: int| 0 <= a < b < g.len() implies g[a] != g[b] by {
                if b == d.len() {
                    assert(d[a] == g[a]);
                }
            }
        }
        assert(g[d.len() as int] == cell);
        lemma_place_of(g, cell);
        assert forall|c: (i32, i32)| d.contains(c) implies #[trigger] place_of(grown(d, cell), c) == place_of(d, c) by {
            lemma_place_of(d, c);
            lemma_push_contains(d, cell, c);
            lemma_place_of(g, c);
            assert(g[place_of(d, c)] == c);
        }
    }
    assert forall|c: (i32, i32)| #[trigger] grown(d, cell).contains(c) <==> d.contains(c) || c == cell by {
        lemma_push_contains(d, cell, c);
    }
}

/// The colour of the province for `cell`: the one `seen` has for it, or the colour of
/// a new province, defined here, for a cell not seen before.
fn cell_color(
    defs: &mut DefinitionTable,
    seen: &mut HashMap<u64, ProvinceColor>,
    cell: (i32, i32),
    Ghost(d): Ghost<Seq<(i32, i32)>>,
) -> (color: ProvinceColor)
    requires
        old(defs).spec() == hex_definitions(d.len()),
        d.no_duplicates(),
        d.len() < u32::MAX,
        seen_matches(old(seen)@, d),
    ensures
        final(defs).spec() == hex_definitions(grown(d, cell).len()),
        seen_matches(final(seen)@, grown(d, cell)),
        color == hex_color(place_of(grown(d, cell), cell) as nat),
{
    proof {
        lemma_grown(d, cell);
    }
    let key = key_of_cell(cell);
    match seen.get(&key) {
        Some(c) => {
            proof {
                lemma_place_of(d, cell);
            }
            *c
        },
        None => {
            let n: Ghost<nat> = Ghost(d.len());
            proof {
                lemma_hex_definitions(n@);
            }
            let c = match defs.allocate_unused_color() {
                Some(c) => c,
                None => ProvinceColor::new(255, 255, 255),
            };
            proof {
                law_color_key_roundtrip(c);
                if n@ < 0xFF_0000 {
                    let k0 = (0x01_0000 + n@) as u32;
                    assert(allocatable(k0));
                    assert(!hex_definitions(n@).colors.contains_key(k0));
                    crate::map::graph::law_key_color_roundtrip(k0, c, c);
                } else {
                    assert(hex_definitions(n@).colors.contains_key(0xFF_FFFFu32));
                }
                assert(c == hex_color(n@));
            }
            defs.add_province(c, ProvinceType::Land, "plains", 1);
            seen.insert(key, c);
            proof {
                let g = grown(d, cell);
                assert(defs.spec().entries =~= hex_definitions(n@ + 1).entries);
                assert forall|c2: (i32, i32)| #[trigger] seen@.contains_key(cell_key(c2)) <==> g.contains(c2) by {
                    lemma_cell_key(c2, cell);
                }
                assert forall|c2: (i32, i32)| g.contains(c2) implies seen@[#[trigger] cell_key(c2)] == hex_color(
                    place_of(g, c2) as nat,
                ) by {
                    lemma_cell_key(c2, cell);
                }
            }
            c
        },
    }
}

impl Command<ProjectState> for GenerateHexMapCommand {
    open spec fn executes(&self, before: ProjectState, after: ProjectState, r: Result<(), CommandError>) -> bool {
        exists|c: GenerateHexMapCommand| hex_outcome(before, after, *self, c, r)
    }

    open spec fn ran(&self, before: ProjectState, after: ProjectState, r: Result<(), CommandError>) -> bool {
        exists|c: GenerateHexMapCommand| #[trigger] hex_outcome(before, after, c, *self, r)
    }

    open spec fn undoes(&self, before: ProjectState, after: ProjectState, r: Result<(), CommandError>) -> bool {
        hex_undo_outcome(before, after, *self, r)
    }

    open spec fn undid(&self, before: ProjectState, after: ProjectState, r: Result<(), CommandError>) -> bool {
        hex_undo_outcome(before, after, *self, r)
    }

    open spec fn description_text(&self) -> Seq<char> {
         "Hexマップの全体生成"@
    }

    /// Keeps the pixels and definitions, then gives every pixel the colour of a new
    /// province for its cell (cells in the order in which they first come, row by
    /// row) and builds the graph anew.
    fn execute(&mut self, project: &mut ProjectState) -> (r: Result<(), CommandError>)
        ensures
            hex_outcome(*old(project), *final(project), *old(self), *final(self), r),
    {
        let width = project.width;
        let height = project.height;
        if !check_buffer(project.pixels.as_slice(), width, height) {
            assert(hex_outcome(*old(project), *project, *old(self), *self, Err(CommandError::InvalidContext)));
            return Err(CommandError::InvalidContext);
        }
        let ghost w = width as nat;
        let ghost h = height as nat;
        assert(w * h <= 1_431_655_766);
        let total = width as usize * height as usize;
        if self.cells.len() != total {
            assert(hex_outcome(*old(project), *project, *old(self), *self, Err(CommandError::InvalidContext)));
            return Err(CommandError::InvalidContext);
        }
        let ghost p0 = *project;
        let ghost cs = self.cells@;
        self.old_pixels = project.pixels.clone();
        assert(self.old_pixels@ =~= p0.pixels@);
        self.old_definitions = project.definitions.duplicate();
        project.definitions = DefinitionTable::new();
        proof {
            lemma_hex_definitions(0);
            assert(project.definitions.spec().entries =~= hex_definitions(0).entries);
            assert(project.definitions.spec().header_lines =~= hex_definitions(0).header_lines);
            assert(project.definitions.spec().colors =~= hex_definitions(0).colors);
        }
        let mut seen_cells: HashMap<u64, ProvinceColor> = HashMap::new();
        let ghost mut d: Seq<(i32, i32)> = Seq::empty();
        let len = project.pixels.len();
        for i in 0..total
            invariant
                total == w * h,
                total == cs.len(),
                cs == self.cells@,
                w == width,
                h == height,
                width == project.width,
                height == project.height,
                buffer_fits(p0.pixels@, w, h),
                len == p0.pixels@.len(),
                project.pixels@.len() == len,
                project.project_dir == p0.project_dir,
                d == first_cells(cs.take(i as int)),
                d.no_duplicates(),
                d.len() <= i,
                project.definitions.spec() == hex_definitions(d.len()),
                seen_matches(seen_cells@, d),
                forall|j: int| 0 <= j < i ==> d.contains(#[trigger] cs[j]),
                forall|j: int| 0 <= j < i ==> #[trigger] nth_color(project.pixels@, j) == hex_color(
                    place_of(d, cs[j]) as nat,
                ),
                forall|k: int| 3 * i <= k < len ==> project.pixels@[k] == p0.pixels@[k],
        {
            let cell = self.cells[i];
            let ghost d0 = d;
            let ghost px0 = project.pixels@;
            let color = cell_color(&mut project.definitions, &mut seen_cells, cell, Ghost(d));
            proof {
                lemma_grown(d0, cell);
                assert(cs.take(i + 1).drop_last() =~= cs.take(i as int));
                assert(cs.take(i + 1).last() == cell);
                d = grown(d0, cell);
            }
            let at = 3 * i;
            project.pixels.set(at, color.r);
            project.pixels.set(at + 1, color.g);
            project.pixels.set(at + 2, color.b);
            proof {
                assert forall|j: int| 0 <= j < i + 1 implies d.contains(#[trigger] cs[j]) by {
                    if j < i {
                        assert(d0.contains(cs[j]));
                    }
                }
                assert forall|j: int| 0 <= j < i + 1 implies #[trigger] nth_color(project.pixels@, j) == hex_color(
                    place_of(d, cs[j]) as nat,
                ) by {
                    if j < i {
                        assert(nth_color(px0, j) == hex_color(place_of(d0, cs[j]) as nat));
                        assert(d0.contains(cs[j]));
                    }
                }
            }
        }
        proof {
            assert(cs.take(total as int) =~= cs);
        }
        project.graph = ProvinceGraph::build_from_pixels(
            project.pixels.as_slice(),
            width,
            height,
            project.definitions.get_color_map(),
        );
        project.dirty_rect = Some(DirtyRect { x: 0, y: 0, width, height });
        proof {
            let px = project.pixels@;
            assert forall|x: int, y: int| on_map(w, h, x, y) implies #[trigger] color_at(px, w, x, y) == hex_color(
                place_of(d, cs[y * w + x]) as nat,
            ) by {
                crate::map::pixels::lemma_offsets(w, h, x, y, x, y);
                assert(nth_color(px, y * w + x) == color_at(px, w, x, y));
            }
        }
        assert(hex_outcome(*old(project), *project, *old(self), *self, Ok(())));
        Ok(())
    }

    /// Gives the project the pixels and definitions kept, and builds the graph anew.
    fn undo(&mut self, project: &mut ProjectState) -> (r: Result<(), CommandError>)
        ensures
            hex_undo_outcome(*old(project), *final(project), *old(self), r),
            *final(self) == *old(self),
    {
        if !check_buffer(self.old_pixels.as_slice(), project.width, project.height) {
            return Err(CommandError::InvalidContext);
        }
        project.pixels = self.old_pixels.clone();
        assert(project.pixels@ =~= self.old_pixels@);
        project.definitions = self.old_definitions.duplicate();
        project.graph = ProvinceGraph::build_from_pixels(
            project.pixels.as_slice(),
            project.width,
            project.height,
            project.definitions.get_color_map(),
        );
        project.dirty_rect = Some(DirtyRect { x: 0, y: 0, width: project.width, height: project.height });
        Ok(())
    }

    fn description(&self) -> (r: &str)
        ensures
            r@ == "Hexマップの全体生成"@,
    {
        "Hexマップの全体生成"
    }
}

/// Taking a generation back succeeds and gives the pixels and definitions as they
/// were before it, with the graph built from them.
pub proof fn law_hex_undo(
    p0: ProjectState,
    p1: ProjectState,
    p2: ProjectState,
    c0: GenerateHexMapCommand,
    c1: GenerateHexMapCommand,
    r: Result<(), CommandError>,
)
    requires
        hex_outcome(p0, p1, c0, c1, Ok(())),
        hex_undo_outcome(p1, p2, c1, r),
    ensures
        r is Ok,
        p2.pixels@ == p0.pixels@,
        p2.definitions.spec() == p0.definitions.spec(),
        p2.graph.built_from(p0.pixels@, p0.width as nat, p0.height as nat, p0.definitions.spec().colors),
        p2.width == p0.width,
        p2.height == p0.height,
        p2.dirty_rect == Some(whole_map(p0.width, p0.height)),
{
}


/// In a generated map with no more cells than colour keys, two pixels have the same
/// colour exactly when they lie in the same cell.
pub proof fn law_hex_cells_colors(
    p0: ProjectState,
    p1: ProjectState,
    c0: GenerateHexMapCommand,
    c1: GenerateHexMapCommand,
    x1: int,
    y1: int,
    x2: int,
    y2: int,
)
    requires
        hex_outcome(p0, p1, c0, c1, Ok(())),
        first_cells(c0.pixel_cells()).len() <= 0xFF_0000,
        on_map(p0.width as nat, p0.height as nat, x1, y1),
        on_map(p0.width as nat, p0.height as nat, x2, y2),
    ensures
        (color_at(p1.pixels@, p0.width as nat, x1, y1) == color_at(p1.pixels@, p0.width as nat, x2, y2)) <==> (
        c0.pixel_cells()[y1 * p0.width + x1] == c0.pixel_cells()[y2 * p0.width + x2]),
{
    let w = p0.width as nat;
    let h = p0.height as nat;
    let cs = c0.pixel_cells();
    let d = first_cells(cs);
    let i1 = y1 * w + x1;
    let i2 = y2 * w + x2;
    crate::map::pixels::lemma_offsets(w, h, x1, y1, x1, y1);
    crate::map::pixels::lemma_offsets(w, h, x2, y2, x2, y2);
    lemma_first_cells(cs);
    assert(cs.contains(cs[i1]));
    assert(cs.contains(cs[i2]));
    lemma_place_of(d, cs[i1]);
    lemma_place_of(d, cs[i2]);
    let k1 = place_of(d, cs[i1]);
    let k2 = place_of(d, cs[i2]);
    assert(color_at(p1.pixels@, w, x1, y1) == hex_color(k1 as nat));
    assert(color_at(p1.pixels@, w, x2, y2) == hex_color(k2 as nat));
    if hex_color(k1 as nat) == hex_color(k2 as nat) {
        crate::map::graph::law_key_color_roundtrip((0x01_0000 + k1) as u32, hex_color(k1 as nat), hex_color(k2 as nat));
        crate::map::graph::law_key_color_roundtrip((0x01_0000 + k2) as u32, hex_color(k1 as nat), hex_color(k2 as nat));
        assert(k1 == k2);
    }
}

} // verus!
