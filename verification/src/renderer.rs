//! Change tracking for partial texture updates.
use vstd::prelude::*;

verus! {

/// A rectangle of the map, in pixels: `width` by `height` from corner `(x, y)`.
#[derive(Debug, Clone, Copy, PartialEq, Eq, Structural)]
pub struct DirtyRect {
    pub x: u32,
    pub y: u32,
    pub width: u32,
    pub height: u32,
}

/// The smallest rectangle holding both `a` and the rectangle `(x, y, width, height)`.
pub open spec fn bounding_box(a: DirtyRect, x: u32, y: u32, width: u32, height: u32) -> DirtyRect {
    let min_x = if a.x < x { a.x } else { x };
    let min_y = if a.y < y { a.y } else { y };
    let max_x = if a.x + a.width > x + width { a.x + a.width } else { x + width };
    let max_y = if a.y + a.height > y + height { a.y + a.height } else { y + height };
    DirtyRect { x: min_x, y: min_y, width: (max_x - min_x) as u32, height: (max_y - min_y) as u32 }
}

/// Whether the point `(px, py)` lies in rectangle `r`.
pub open spec fn covers(r: DirtyRect, px: int, py: int) -> bool {
    r.x <= px < r.x + r.width && r.y <= py < r.y + r.height
}

/// Whether the far corner of `r` fits in `u32` coordinates.
pub open spec fn in_range(r: DirtyRect) -> bool {
    r.x + r.width <= u32::MAX && r.y + r.height <= u32::MAX
}

/// Merging keeps every changed point: the bounding box covers both rectangles, and
/// it is the smallest rectangle that does.
pub proof fn law_bounding_box_covers(a: DirtyRect, b: DirtyRect, c: DirtyRect)
    requires
        in_range(a),
        in_range(b),
    ensures
        forall|px: int, py: int|
            covers(a, px, py) || covers(b, px, py) ==> covers(bounding_box(a, b.x, b.y, b.width, b.height), px, py),
        (forall|px: int, py: int| covers(a, px, py) || covers(b, px, py) ==> covers(c, px, py)) && a.width > 0
            && a.height > 0 && b.width > 0 && b.height > 0 ==> {
            let m = bounding_box(a, b.x, b.y, b.width, b.height);
            c.x <= m.x && c.y <= m.y && m.x + m.width <= c.x + c.width && m.y + m.height <= c.y + c.height
        },
{
    let m = bounding_box(a, b.x, b.y, b.width, b.height);
    if (forall|px: int, py: int| covers(a, px, py) || covers(b, px, py) ==> covers(c, px, py)) && a.width > 0
        && a.height > 0 && b.width > 0 && b.height > 0 {
        assert(covers(a, a.x as int, a.y as int));
        assert(covers(b, b.x as int, b.y as int));
        assert(covers(a, a.x + a.width - 1, a.y + a.height - 1));
        assert(covers(b, b.x + b.width - 1, b.y + b.height - 1));
    }
}

/// The changed region after the rectangles `ms` were marked, in order, on a tracker
/// whose region was `start`.
pub open spec fn marked(start: Option<DirtyRect>, ms: Seq<DirtyRect>) -> Option<DirtyRect>
    decreases ms.len(),
{
    if ms.len() == 0 {
        start
    } else {
        let m = ms.last();
        Some(
            match marked(start, ms.drop_last()) {
                None => m,
                Some(r) => bounding_box(r, m.x, m.y, m.width, m.height),
            },
        )
    }
}

/// Whether the far corner of every rectangle of `ms` fits in `u32` coordinates.
pub open spec fn all_in_range(ms: Seq<DirtyRect>) -> bool {
    forall|i: int| 0 <= i < ms.len() ==> in_range(#[trigger] ms[i])
}

/// Whether the edges of `r` are the outermost edges of the rectangles of `ms`: its left
/// and top edges are the least of theirs, its right and bottom edges the greatest.
pub open spec fn spans(r: DirtyRect, ms: Seq<DirtyRect>) -> bool {
    &&& forall|i: int| 0 <= i < ms.len() ==> {
        &&& r.x <= (#[trigger] ms[i]).x
        &&& r.y <= ms[i].y
        &&& ms[i].x + ms[i].width <= r.x + r.width
        &&& ms[i].y + ms[i].height <= r.y + r.height
    }
    &&& exists|i: int| 0 <= i < ms.len() && r.x == (#[trigger] ms[i]).x
    &&& exists|i: int| 0 <= i < ms.len() && r.y == (#[trigger] ms[i]).y
    &&& exists|i: int| 0 <= i < ms.len() && r.x + r.width == (#[trigger] ms[i]).x + ms[i].width
    &&& exists|i: int| 0 <= i < ms.len() && r.y + r.height == (#[trigger] ms[i]).y + ms[i].height
}

/// Marking the rectangles `ms` on a clean tracker gives the rectangle whose edges are
/// their outermost edges.
pub proof fn law_marks_span(ms: Seq<DirtyRect>)
    requires
        ms.len() > 0,
        all_in_range(ms),
    ensures
        marked(None, ms) matches Some(r) && spans(r, ms) && in_range(r),
    decreases ms.len(),
{
    let m = ms.last();
    assert(in_range(ms[ms.len() - 1]));
    if ms.len() == 1 {
        assert(marked(None, ms.drop_last()) is None);
        assert(ms[0] == m);
    } else {
        let rest = ms.drop_last();
        assert forall|i: int| 0 <= i < rest.len() implies in_range(#[trigger] rest[i]) by {
            assert(rest[i] == ms[i]);
        }
        law_marks_span(rest);
        let r0 = marked(None, rest)->0;
        let r = bounding_box(r0, m.x, m.y, m.width, m.height);
        assert(marked(None, ms) == Some(r));
        assert forall|i: int| 0 <= i < ms.len() implies {
            &&& r.x <= (#[trigger] ms[i]).x
            &&& r.y <= ms[i].y
            &&& ms[i].x + ms[i].width <= r.x + r.width
            &&& ms[i].y + ms[i].height <= r.y + r.height
        } by {
            if i < rest.len() {
                assert(rest[i] == ms[i]);
            }
        }
        let last = ms.len() - 1;
        if r0.x < m.x {
            let i = choose|i: int| 0 <= i < rest.len() && r0.x == (#[trigger] rest[i]).x;
            assert(rest[i] == ms[i]);
        } else {
            assert(r.x == ms[last].x);
        }
        if r0.y < m.y {
            let i = choose|i: int| 0 <= i < rest.len() && r0.y == (#[trigger] rest[i]).y;
            assert(rest[i] == ms[i]);
        } else {
            assert(r.y == ms[last].y);
        }
        if r0.x + r0.width > m.x + m.width {
            let i = choose|i: int| 0 <= i < rest.len() && r0.x + r0.width == (#[trigger] rest[i]).x + rest[i].width;
            assert(rest[i] == ms[i]);
        } else {
            assert(r.x + r.width == ms[last].x + ms[last].width);
        }
        if r0.y + r0.height > m.y + m.height {
            let i = choose|i: int| 0 <= i < rest.len() && r0.y + r0.height == (#[trigger] rest[i]).y + rest[i].height;
            assert(rest[i] == ms[i]);
        } else {
            assert(r.y + r.height == ms[last].y + ms[last].height);
        }
    }
}

/// The order of the marks does not matter: marking the same rectangles, in any order
/// and with repeats, on a clean tracker gives the same region.
pub proof fn law_marks_order_free(ms1: Seq<DirtyRect>, ms2: Seq<DirtyRect>)
    requires
        ms1.len() > 0,
        all_in_range(ms1),
        all_in_range(ms2),
        forall|m: DirtyRect| ms1.contains(m) <==> ms2.contains(m),
    ensures
        marked(None, ms1) == marked(None, ms2),
{
    assert(ms2.contains(ms1[0]));
    law_marks_span(ms1);
    law_marks_span(ms2);
    let r1 = marked(None, ms1)->0;
    let r2 = marked(None, ms2)->0;
    let a1 = choose|i: int| 0 <= i < ms1.len() && r1.x == (#[trigger] ms1[i]).x;
    let a2 = choose|i: int| 0 <= i < ms2.len() && r2.x == (#[trigger] ms2[i]).x;
    let b1 = choose|i: int| 0 <= i < ms1.len() && r1.y == (#[trigger] ms1[i]).y;
    let b2 = choose|i: int| 0 <= i < ms2.len() && r2.y == (#[trigger] ms2[i]).y;
    let c1 = choose|i: int| 0 <= i < ms1.len() && r1.x + r1.width == (#[trigger] ms1[i]).x + ms1[i].width;
    let c2 = choose|i: int| 0 <= i < ms2.len() && r2.x + r2.width == (#[trigger] ms2[i]).x + ms2[i].width;
    let d1 = choose|i: int| 0 <= i < ms1.len() && r1.y + r1.height == (#[trigger] ms1[i]).y + ms1[i].height;
    let d2 = choose|i: int| 0 <= i < ms2.len() && r2.y + r2.height == (#[trigger] ms2[i]).y + ms2[i].height;
    assert(ms2.contains(ms1[a1]) && ms2.contains(ms1[b1]) && ms2.contains(ms1[c1]) && ms2.contains(ms1[d1]));
    assert(ms1.contains(ms2[a2]) && ms1.contains(ms2[b2]) && ms1.contains(ms2[c2]) && ms1.contains(ms2[d2]));
}

/// The region of marked rectangles is the least rectangle holding them: it holds every
/// point of every mark, and every rectangle that holds all those points holds it.
pub proof fn law_marks_least(ms: Seq<DirtyRect>, c: DirtyRect)
    requires
        ms.len() > 0,
        all_in_range(ms),
    ensures
        marked(None, ms) matches Some(r) && {
            &&& forall|i: int, px: int, py: int| 0 <= i < ms.len() && #[trigger] covers(ms[i], px, py) ==> covers(r, px, py)
            &&& (forall|i: int| 0 <= i < ms.len() ==> (#[trigger] ms[i]).width > 0 && ms[i].height > 0) && (forall|
                i: int,
                px: int,
                py: int,
            | 0 <= i < ms.len() && #[trigger] covers(ms[i], px, py) ==> covers(c, px, py)) ==> {
                &&& c.x <= r.x
                &&& c.y <= r.y
                &&& r.x + r.width <= c.x + c.width
                &&& r.y + r.height <= c.y + c.height
            }
        },
{
    law_marks_span(ms);
    let r = marked(None, ms)->0;
    if (forall|i: int| 0 <= i < ms.len() ==> (#[trigger] ms[i]).width > 0 && ms[i].height > 0) && (forall|
        i: int,
        px: int,
        py: int,
    | 0 <= i < ms.len() && #[trigger] covers(ms[i], px, py) ==> covers(c, px, py)) {
        let a = choose|i: int| 0 <= i < ms.len() && r.x == (#[trigger] ms[i]).x;
        let b = choose|i: int| 0 <= i < ms.len() && r.y == (#[trigger] ms[i]).y;
        let e = choose|i: int| 0 <= i < ms.len() && r.x + r.width == (#[trigger] ms[i]).x + ms[i].width;
        let f = choose|i: int| 0 <= i < ms.len() && r.y + r.height == (#[trigger] ms[i]).y + ms[i].height;
        assert(covers(ms[a], ms[a].x as int, ms[a].y as int));
        assert(covers(ms[b], ms[b].x as int, ms[b].y as int));
        assert(covers(ms[e], ms[e].x + ms[e].width - 1, ms[e].y as int));
        assert(covers(ms[f], ms[f].x as int, ms[f].y + ms[f].height - 1));
    }
}

/// A tracker is dirty after a run of marks exactly when it was dirty before or some
/// rectangle was marked.
pub proof fn law_dirty_after_marks(start: Option<DirtyRect>, ms: Seq<DirtyRect>)
    ensures
        (marked(start, ms) is Some) == (start is Some || ms.len() > 0),
    decreases ms.len(),
{
    if ms.len() > 0 {
        law_dirty_after_marks(start, ms.drop_last());
    }
}

/// Marking one rectangle merges it with the region so far.
proof fn lemma_mark_one(start: Option<DirtyRect>, m: DirtyRect)
    ensures
        marked(start, seq![m]) == Some(
            match start {
                None => m,
                Some(r) => bounding_box(r, m.x, m.y, m.width, m.height),
            },
        ),
{
    assert(seq![m].drop_last() =~= Seq::<DirtyRect>::empty());
    assert(marked(start, seq![m].drop_last()) == start);
    assert(seq![m].last() == m);
}

/// Marking one more rectangle continues a run of marks.
pub proof fn law_marks_continue(start: Option<DirtyRect>, ms: Seq<DirtyRect>, m: DirtyRect)
    ensures
        marked(marked(start, ms), seq![m]) == marked(start, ms.push(m)),
{
    lemma_mark_one(marked(start, ms), m);
    assert(ms.push(m).drop_last() =~= ms);
    assert(ms.push(m).last() == m);
}

/// A call that changes a tracker's region.
#[derive(Debug, Clone, Copy, PartialEq, Eq, Structural)]
pub enum TrackerCall {
    /// `mark_dirty` of the rectangle.
    Mark(DirtyRect),
    /// `mark_all_dirty` of a map of this width and height.
    MarkAll(u32, u32),
    /// `take_dirty`.
    Take,
}

/// The region after the call `c` on a tracker whose region was `region`.
pub open spec fn after_call(region: Option<DirtyRect>, c: TrackerCall) -> Option<DirtyRect> {
    match c {
        TrackerCall::Mark(m) => Some(
            match region {
                None => m,
                Some(r) => bounding_box(r, m.x, m.y, m.width, m.height),
            },
        ),
        TrackerCall::MarkAll(width, height) => Some(DirtyRect { x: 0, y: 0, width, height }),
        TrackerCall::Take => None,
    }
}

/// The region after the calls `cs`, in order, on a tracker whose region was `start`.
pub open spec fn after_calls(start: Option<DirtyRect>, cs: Seq<TrackerCall>) -> Option<DirtyRect>
    decreases cs.len(),
{
    if cs.len() == 0 {
        start
    } else {
        after_call(after_calls(start, cs.drop_last()), cs.last())
    }
}

/// The rectangles of a run of `mark_dirty` calls.
pub open spec fn marks_of(cs: Seq<TrackerCall>) -> Seq<DirtyRect> {
    cs.map_values(|c: TrackerCall| c->Mark_0)
}

/// A tracker is dirty after a sequence of calls exactly when some mark came after the
/// last `take_dirty`, or, with no `take_dirty` among the calls, when it was dirty
/// before or some mark came.
pub proof fn law_dirty_after_calls(start: Option<DirtyRect>, cs: Seq<TrackerCall>)
    ensures
        (after_calls(start, cs) is Some) == ({
            ||| exists|i: int| 0 <= i < cs.len() && !(#[trigger] cs[i] is Take) && forall|j: int| i < j < cs.len() ==> !(cs[j] is Take)
            ||| start is Some && forall|j: int| 0 <= j < cs.len() ==> !(#[trigger] cs[j] is Take)
        }),
    decreases cs.len(),
{
    if cs.len() > 0 {
        let rest = cs.drop_last();
        let n = cs.len() - 1;
        law_dirty_after_calls(start, rest);
        if cs[n] is Take {
            assert forall|i: int| 0 <= i < cs.len() && !(#[trigger] cs[i] is Take) implies !forall|j: int| i < j < cs.len() ==> !(cs[j] is Take) by {
                assert(i < n);
            }
        } else {
            assert(!(cs[n] is Take) && forall|j: int| n < j < cs.len() ==> !(cs[j] is Take));
        }
        if exists|i: int| 0 <= i < rest.len() && !(#[trigger] rest[i] is Take) && forall|j: int| i < j < rest.len() ==> !(rest[j] is Take) {
            let i = choose|i: int| 0 <= i < rest.len() && !(#[trigger] rest[i] is Take) && forall|j: int| i < j < rest.len() ==> !(rest[j] is Take);
            assert(cs[i] == rest[i]);
            if !(cs[n] is Take) {
                assert forall|j: int| i < j < cs.len() implies !(cs[j] is Take) by {
                    if j < n {
                        assert(cs[j] == rest[j]);
                    }
                }
            }
        }
        if exists|i: int| 0 <= i < cs.len() && !(#[trigger] cs[i] is Take) && forall|j: int| i < j < cs.len() ==> !(cs[j] is Take) {
            let i = choose|i: int| 0 <= i < cs.len() && !(#[trigger] cs[i] is Take) && forall|j: int| i < j < cs.len() ==> !(cs[j] is Take);
            if i < n {
                assert(rest[i] == cs[i]);
                assert forall|j: int| i < j < rest.len() implies !(#[trigger] rest[j] is Take) by {
                    assert(rest[j] == cs[j]);
                }
            }
        }
        if start is Some && forall|j: int| 0 <= j < rest.len() ==> !(#[trigger] rest[j] is Take) {
            if !(cs[n] is Take) {
                assert forall|j: int| 0 <= j < cs.len() implies !(#[trigger] cs[j] is Take) by {
                    if j < n {
                        assert(cs[j] == rest[j]);
                    }
                }
            }
        }
        if forall|j: int| 0 <= j < cs.len() ==> !(#[trigger] cs[j] is Take) {
            assert forall|j: int| 0 <= j < rest.len() implies !(#[trigger] rest[j] is Take) by {
                assert(rest[j] == cs[j]);
            }
        }
    }
}

/// The calls after a `take_dirty` alone decide the region.
pub proof fn law_calls_after_take(start: Option<DirtyRect>, before: Seq<TrackerCall>, cs: Seq<TrackerCall>)
    ensures
        after_calls(start, before.push(TrackerCall::Take) + cs) == after_calls(None, cs),
    decreases cs.len(),
{
    let pre = before.push(TrackerCall::Take);
    if cs.len() == 0 {
        assert(pre + cs =~= pre);
        assert(pre.drop_last() =~= before);
    } else {
        law_calls_after_take(start, before, cs.drop_last());
        assert((pre + cs).drop_last() =~= pre + cs.drop_last());
        assert((pre + cs).last() == cs.last());
    }
}

/// A run of `mark_dirty` calls on a clean tracker gives the region of [`marked`]
/// of their rectangles: with [`law_marks_span`], [`law_marks_least`] and
/// [`law_marks_order_free`], the least rectangle holding them all, whatever the order.
pub proof fn law_calls_of_marks(cs: Seq<TrackerCall>)
    requires
        forall|i: int| 0 <= i < cs.len() ==> #[trigger] cs[i] is Mark,
    ensures
        after_calls(None, cs) == marked(None, marks_of(cs)),
    decreases cs.len(),
{
    if cs.len() > 0 {
        let rest = cs.drop_last();
        assert forall|i: int| 0 <= i < rest.len() implies #[trigger] rest[i] is Mark by {
            assert(rest[i] == cs[i]);
        }
        law_calls_of_marks(rest);
        assert(marks_of(cs).drop_last() =~= marks_of(rest));
        assert(cs[cs.len() - 1] is Mark);
    }
}

/// Tracks the part of the map that changed since the texture was last updated.
pub struct DirtyRectTracker {
    /// The changed region, or `None` when nothing changed.
    current: Option<DirtyRect>,
}

impl DirtyRectTracker {
    /// The changed region, or `None` when nothing changed.
    pub closed spec fn region(&self) -> Option<DirtyRect> {
        self.current
    }

    /// A tracker with nothing changed.
    pub fn new() -> (t: Self)
        ensures
            t.region() is None,
    {
        DirtyRectTracker { current: None }
    }

    /// Marks the rectangle `(x, y, width, height)` as changed; it is merged with the
    /// region changed so far into their bounding box.
    pub fn mark_dirty(&mut self, x: u32, y: u32, width: u32, height: u32)
        requires
            old(self).region() matches Some(r) ==> in_range(r) && x + width <= u32::MAX && y + height
                <= u32::MAX,
        ensures
            final(self).region() == Some(
                match old(self).region() {
                    None => DirtyRect { x, y, width, height },
                    Some(r) => bounding_box(r, x, y, width, height),
                },
            ),
            final(self).region() == marked(old(self).region(), seq![DirtyRect { x, y, width, height }]),
            final(self).region() == after_call(old(self).region(), TrackerCall::Mark(DirtyRect { x, y, width, height })),
    {
        proof {
            lemma_mark_one(self.current, DirtyRect { x, y, width, height });
        }
        match self.current {
            None => {
                self.current = Some(DirtyRect { x, y, width, height });
            },
            Some(rect) => {
                let min_x = if rect.x < x { rect.x } else { x };
                let min_y = if rect.y < y { rect.y } else { y };
                let max_x = if rect.x + rect.width > x + width { rect.x + rect.width } else { x + width };
                let max_y = if rect.y + rect.height > y + height { rect.y + rect.height } else { y + height };
                self.current = Some(DirtyRect { x: min_x, y: min_y, width: max_x - min_x, height: max_y - min_y });
            },
        }
    }

    /// Marks the whole `width` by `height` map as changed (after loading, say).
    pub fn mark_all_dirty(&mut self, width: u32, height: u32)
        ensures
            final(self).region() == Some(DirtyRect { x: 0, y: 0, width, height }),
            final(self).region() == after_call(old(self).region(), TrackerCall::MarkAll(width, height)),
    {
        self.current = Some(DirtyRect { x: 0, y: 0, width, height });
    }

    /// The changed region, which is then forgotten.
    pub fn take_dirty(&mut self) -> (r: Option<DirtyRect>)
        ensures
            r == old(self).region(),
            final(self).region() is None,
            final(self).region() == after_call(old(self).region(), TrackerCall::Take),
    {
        let r = self.current;
        self.current = None;
        r
    }

    /// Whether some region changed.
    pub fn is_dirty(&self) -> (r: bool)
        ensures
            r == (self.region() is Some),
    {
        self.current.is_some()
    }
}

/// The layers of the map view.
#[derive(Debug, Clone, Copy, PartialEq, Eq, Hash)]
pub enum LayerType {
    Provinces,
    Terrain,
    Rivers,
    Trees,
    Heightmap,
    /// A half-transparent reference picture of the user's.
    Reference,
}

} // verus!
