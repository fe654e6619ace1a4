//! The RGB pixel buffer of `provinces.bmp`: three bytes per pixel, row by row.
use vstd::prelude::*;
use crate::map::graph::{buffer_fits, ProvinceColor};
use crate::renderer::DirtyRect;

verus! {

/// The byte offset of pixel `(x, y)` in a buffer `width` pixels wide.
pub open spec fn offset(width: nat, x: int, y: int) -> int {
    3 * (y * width + x)
}

/// The colour of pixel `(x, y)`.
pub open spec fn color_at(pixels: Seq<u8>, width: nat, x: int, y: int) -> ProvinceColor {
    let i = offset(width, x, y);
    ProvinceColor { r: pixels[i], g: pixels[i + 1], b: pixels[i + 2] }
}

/// The buffer with pixel `(x, y)` set to `c`.
pub open spec fn with_pixel(pixels: Seq<u8>, width: nat, x: int, y: int, c: ProvinceColor) -> Seq<u8> {
    let i = offset(width, x, y);
    pixels.update(i, c.r).update(i + 1, c.g).update(i + 2, c.b)
}

/// Whether `(x, y)` is a pixel of a `width` by `height` map.
pub open spec fn on_map(width: nat, height: nat, x: int, y: int) -> bool {
    0 <= x < width && 0 <= y < height
}

/// Whether two buffers hold the same colour at every pixel of the map and the same
/// bytes after it (and have the same length).
pub open spec fn same_image(a: Seq<u8>, b: Seq<u8>, width: nat, height: nat) -> bool {
    &&& a.len() == b.len()
    &&& forall|x: int, y: int| on_map(width, height, x, y) ==> #[trigger] color_at(a, width, x, y) == color_at(b, width, x, y)
    &&& forall|i: int| 3 * (width * height) <= i < a.len() ==> a[i] == b[i]
}

/// Buffers that hold the same image are equal: every byte of the map belongs to one
/// pixel's colour.
pub proof fn lemma_same_image_equal(a: Seq<u8>, b: Seq<u8>, width: nat, height: nat)
    requires
        same_image(a, b, width, height),
        a.len() >= 3 * (width * height),
    ensures
        a == b,
{
    assert forall|i: int| 0 <= i < a.len() implies a[i] == b[i] by {
        if i < 3 * (width * height) {
            let p = i / 3;
            let c = i % 3;
            assert(i == 3 * p + c && 0 <= c < 3) by (nonlinear_arith)
                requires 0 <= i, p == i / 3, c == i % 3;
            assert(0 <= p < width * height) by (nonlinear_arith)
                requires 0 <= i < 3 * (width * height), i == 3 * p + c, 0 <= c < 3;
            assert(width > 0) by (nonlinear_arith)
                requires 0 <= p < width * height;
            let w = width as int;
            let x = p % w;
            let y = p / w;
            assert(p == y * w + x && 0 <= x < w) by (nonlinear_arith)
                requires w > 0, x == p % w, y == p / w, p >= 0;
            assert(0 <= y < height) by (nonlinear_arith)
                requires p == y * w + x, 0 <= x < w, 0 <= p < w * height, w > 0;
            assert(on_map(width, height, x, y));
            assert(color_at(a, width, x, y) == color_at(b, width, x, y));
            assert(offset(width, x, y) == 3 * p);
        }
    }
    assert(a =~= b);
}

/// Distinct pixels of the map have disjoint bytes, all inside the map's part of the buffer.
pub proof fn lemma_offsets(width: nat, height: nat, x: int, y: int, x2: int, y2: int)
    requires
        on_map(width, height, x, y),
        on_map(width, height, x2, y2),
    ensures
        offset(width, x, y) + 3 <= 3 * (width * height),
        offset(width, x, y) >= 0,
        (x != x2 || y != y2) ==> (offset(width, x, y) + 3 <= offset(width, x2, y2) || offset(width, x2, y2) + 3
            <= offset(width, x, y)),
{
    assert(y * width + x < width * height) by (nonlinear_arith)
        requires 0 <= x < width, 0 <= y < height;
    assert(y * width + x >= 0) by (nonlinear_arith)
        requires 0 <= x < width, 0 <= y < height;
    if y < y2 {
        assert(y * width + x < y2 * width + x2) by (nonlinear_arith)
            requires 0 <= x < width, 0 <= x2, y < y2;
    } else if y2 < y {
        assert(y2 * width + x2 < y * width + x) by (nonlinear_arith)
            requires 0 <= x2 < width, 0 <= x, y2 < y;
    }
}

/// Setting one pixel changes that pixel only.
pub proof fn lemma_with_pixel(pixels: Seq<u8>, width: nat, height: nat, x: int, y: int, c: ProvinceColor)
    requires
        on_map(width, height, x, y),
        pixels.len() >= 3 * (width * height),
    ensures
        with_pixel(pixels, width, x, y, c).len() == pixels.len(),
        forall|x2: int, y2: int| on_map(width, height, x2, y2) ==> #[trigger] color_at(with_pixel(pixels, width, x, y, c), width, x2, y2)
            == if x2 == x && y2 == y { c } else { color_at(pixels, width, x2, y2) },
        forall|i: int| 3 * (width * height) <= i < pixels.len() ==> #[trigger] with_pixel(pixels, width, x, y, c)[i] == pixels[i],
{
    lemma_offsets(width, height, x, y, x, y);
    assert forall|x2: int, y2: int| on_map(width, height, x2, y2) implies #[trigger] color_at(
        with_pixel(pixels, width, x, y, c),
        width,
        x2,
        y2,
    ) == if x2 == x && y2 == y { c } else { color_at(pixels, width, x2, y2) } by {
        lemma_offsets(width, height, x, y, x2, y2);
        lemma_offsets(width, height, x2, y2, x, y);
    }
}

/// The colour of pixel `(x, y)`.
pub fn read_pixel(pixels: &Vec<u8>, width: u32, height: u32, x: u32, y: u32) -> (c: ProvinceColor)
    requires
        buffer_fits(pixels@, width as nat, height as nat),
        x < width,
        y < height,
    ensures
        c == color_at(pixels@, width as nat, x as int, y as int),
{
    proof {
        lemma_offsets(width as nat, height as nat, x as int, y as int, x as int, y as int);
    }
    let i = ((y * width + x) * 3) as usize;
    assert(i as int == offset(width as nat, x as int, y as int));
    assert(i + 2 < pixels@.len());
    let _n = pixels.len();
    ProvinceColor { r: pixels[i], g: pixels[i + 1], b: pixels[i + 2] }
}

/// Sets pixel `(x, y)` to `c`.
pub fn write_pixel(pixels: &mut Vec<u8>, width: u32, height: u32, x: u32, y: u32, c: ProvinceColor)
    requires
        buffer_fits(old(pixels)@, width as nat, height as nat),
        x < width,
        y < height,
    ensures
        final(pixels)@ == with_pixel(old(pixels)@, width as nat, x as int, y as int, c),
{
    proof {
        lemma_offsets(width as nat, height as nat, x as int, y as int, x as int, y as int);
    }
    let i = ((y * width + x) * 3) as usize;
    assert(i as int == offset(width as nat, x as int, y as int));
    assert(i + 2 < pixels@.len());
    let _n = pixels.len();
    pixels.set(i, c.r);
    pixels.set(i + 1, c.g);
    pixels.set(i + 2, c.b);
}

/// The buffer after writing, in order, the colour of each step at its position.
pub open spec fn write_all(pixels: Seq<u8>, width: nat, steps: Seq<(u32, u32, ProvinceColor)>) -> Seq<u8>
    decreases steps.len(),
{
    if steps.len() == 0 {
        pixels
    } else {
        let t = steps.last();
        with_pixel(write_all(pixels, width, steps.drop_last()), width, t.0 as int, t.1 as int, t.2)
    }
}

/// The positions of the steps.
pub open spec fn positions(steps: Seq<(u32, u32, ProvinceColor)>) -> Seq<(u32, u32)> {
    steps.map_values(|t: (u32, u32, ProvinceColor)| (t.0, t.1))
}

/// Whether every step is on the map.
pub open spec fn all_on_map(steps: Seq<(u32, u32, ProvinceColor)>, width: nat, height: nat) -> bool {
    forall|j: int| 0 <= j < steps.len() ==> on_map(width, height, (#[trigger] steps[j]).0 as int, steps[j].1 as int)
}

/// Whether no two steps have the same position.
pub open spec fn distinct_positions(steps: Seq<(u32, u32, ProvinceColor)>) -> bool {
    forall|i: int, j: int| 0 <= i < j < steps.len() ==> ((#[trigger] steps[i]).0, steps[i].1) != ((#[trigger] steps[j]).0, steps[j].1)
}

/// Writing steps at distinct positions: a written pixel has its step's colour, the
/// others keep theirs, and the bytes after the map are kept.
pub proof fn lemma_write_all(pixels: Seq<u8>, width: nat, height: nat, steps: Seq<(u32, u32, ProvinceColor)>)
    requires
        pixels.len() >= 3 * (width * height),
        all_on_map(steps, width, height),
        distinct_positions(steps),
    ensures
        write_all(pixels, width, steps).len() == pixels.len(),
        forall|i: int| 3 * (width * height) <= i < pixels.len() ==> #[trigger] write_all(pixels, width, steps)[i] == pixels[i],
        forall|j: int, x: int, y: int| 0 <= j < steps.len() && x == steps[j].0 && y == steps[j].1
            ==> #[trigger] color_at(write_all(pixels, width, steps), width, x, y) == (#[trigger] steps[j]).2,
        forall|x: int, y: int| on_map(width, height, x, y) && (forall|j: int| 0 <= j < steps.len() ==> (#[trigger] steps[j]).0 != x || steps[j].1 != y)
            ==> #[trigger] color_at(write_all(pixels, width, steps), width, x, y) == color_at(pixels, width, x, y),
    decreases steps.len(),
{
    if steps.len() > 0 {
        let rest = steps.drop_last();
        let t = steps.last();
        assert(all_on_map(rest, width, height)) by {
            assert forall|j: int| 0 <= j < rest.len() implies on_map(width, height, (#[trigger] rest[j]).0 as int, rest[j].1 as int) by {
                assert(rest[j] == steps[j]);
            }
        }
        assert(distinct_positions(rest)) by {
            assert forall|i: int, j: int| 0 <= i < j < rest.len() implies ((#[trigger] rest[i]).0, rest[i].1) != ((#[trigger] rest[j]).0, rest[j].1) by {
                assert(rest[i] == steps[i]);
                assert(rest[j] == steps[j]);
            }
        }
        lemma_write_all(pixels, width, height, rest);
        let before = write_all(pixels, width, rest);
        assert(on_map(width, height, t.0 as int, t.1 as int)) by {
            assert(steps[steps.len() - 1] == t);
        }
        lemma_with_pixel(before, width, height, t.0 as int, t.1 as int, t.2);
        assert forall|j: int, x: int, y: int| 0 <= j < steps.len() && x == steps[j].0 && y == steps[j].1
            implies #[trigger] color_at(write_all(pixels, width, steps), width, x, y) == (#[trigger] steps[j]).2 by {
            if j < steps.len() - 1 {
                assert(rest[j] == steps[j]);
                assert(on_map(width, height, x, y));
                assert((steps[j].0, steps[j].1) != (steps[steps.len() - 1].0, steps[steps.len() - 1].1));
            }
        }
        assert forall|x: int, y: int| on_map(width, height, x, y) && (forall|j: int| 0 <= j < steps.len() ==> (#[trigger] steps[j]).0 != x || steps[j].1 != y)
            implies #[trigger] color_at(write_all(pixels, width, steps), width, x, y) == color_at(pixels, width, x, y) by {
            assert(steps[steps.len() - 1].0 != x || steps[steps.len() - 1].1 != y);
            assert forall|j: int| 0 <= j < rest.len() implies (#[trigger] rest[j]).0 != x || rest[j].1 != y by {
                assert(rest[j] == steps[j]);
            }
        }
    }
}

/// The rectangle `(min_x, min_y)`–`(max_x, max_y)` with both corners inside.
pub open spec fn rect_between(min_x: u32, min_y: u32, max_x: u32, max_y: u32) -> DirtyRect {
    DirtyRect { x: min_x, y: min_y, width: (max_x + 1 - min_x) as u32, height: (max_y + 1 - min_y) as u32 }
}

/// The smallest x of the positions `ps`, or `u32::MAX` when there is none.
pub open spec fn min_x_of(ps: Seq<(u32, u32)>) -> u32
    decreases ps.len(),
{
    if ps.len() == 0 {
        u32::MAX
    } else {
        let m = min_x_of(ps.drop_last());
        if ps.last().0 < m { ps.last().0 } else { m }
    }
}

/// The smallest y of the positions `ps`, or `u32::MAX` when there is none.
pub open spec fn min_y_of(ps: Seq<(u32, u32)>) -> u32
    decreases ps.len(),
{
    if ps.len() == 0 {
        u32::MAX
    } else {
        let m = min_y_of(ps.drop_last());
        if ps.last().1 < m { ps.last().1 } else { m }
    }
}

/// The largest x of the positions `ps`, or 0 when there is none.
pub open spec fn max_x_of(ps: Seq<(u32, u32)>) -> u32
    decreases ps.len(),
{
    if ps.len() == 0 {
        0
    } else {
        let m = max_x_of(ps.drop_last());
        if ps.last().0 > m { ps.last().0 } else { m }
    }
}

/// The largest y of the positions `ps`, or 0 when there is none.
pub open spec fn max_y_of(ps: Seq<(u32, u32)>) -> u32
    decreases ps.len(),
{
    if ps.len() == 0 {
        0
    } else {
        let m = max_y_of(ps.drop_last());
        if ps.last().1 > m { ps.last().1 } else { m }
    }
}

/// The rectangle that holds all the positions `ps` (which must not be empty).
pub open spec fn bounds_of(ps: Seq<(u32, u32)>) -> DirtyRect {
    rect_between(min_x_of(ps), min_y_of(ps), max_x_of(ps), max_y_of(ps))
}

/// The bounds of a non-empty set of positions are attained and hold every position.
pub proof fn lemma_bounds_of(ps: Seq<(u32, u32)>)
    requires
        ps.len() > 0,
    ensures
        min_x_of(ps) <= max_x_of(ps),
        min_y_of(ps) <= max_y_of(ps),
        forall|j: int| 0 <= j < ps.len() ==> min_x_of(ps) <= (#[trigger] ps[j]).0 <= max_x_of(ps) && min_y_of(ps)
            <= ps[j].1 <= max_y_of(ps),
        exists|j: int| 0 <= j < ps.len() && max_x_of(ps) == ps[j].0,
        exists|j: int| 0 <= j < ps.len() && max_y_of(ps) == ps[j].1,
    decreases ps.len(),
{
    if ps.len() == 1 {
        assert(max_x_of(ps) == ps[0].0);
        assert(max_y_of(ps) == ps[0].1);
    }
    if ps.len() > 1 {
        lemma_bounds_of(ps.drop_last());
        let last = ps.len() - 1;
        if ps.last().0 > max_x_of(ps.drop_last()) {
            assert(max_x_of(ps) == ps[last].0);
        } else {
            let j = choose|j: int| 0 <= j < ps.drop_last().len() && max_x_of(ps.drop_last()) == ps.drop_last()[j].0;
            assert(max_x_of(ps) == ps[j].0);
        }
        if ps.last().1 > max_y_of(ps.drop_last()) {
            assert(max_y_of(ps) == ps[last].1);
        } else {
            let j = choose|j: int| 0 <= j < ps.drop_last().len() && max_y_of(ps.drop_last()) == ps.drop_last()[j].1;
            assert(max_y_of(ps) == ps[j].1);
        }
        assert forall|j: int| 0 <= j < ps.len() implies min_x_of(ps) <= (#[trigger] ps[j]).0 <= max_x_of(ps)
            && min_y_of(ps) <= ps[j].1 <= max_y_of(ps) by {
            if j < ps.len() - 1 {
                assert(ps.drop_last()[j] == ps[j]);
            }
        }
    }
}

/// Tracks the bounds of positions as they are met.
pub struct BoundsTracker {
    pub min_x: u32,
    pub min_y: u32,
    pub max_x: u32,
    pub max_y: u32,
}

impl BoundsTracker {
    pub open spec fn holds(self, ps: Seq<(u32, u32)>) -> bool {
        &&& self.min_x == min_x_of(ps)
        &&& self.min_y == min_y_of(ps)
        &&& self.max_x == max_x_of(ps)
        &&& self.max_y == max_y_of(ps)
    }

    pub fn new() -> (t: Self)
        ensures
            t.holds(Seq::empty()),
    {
        BoundsTracker { min_x: u32::MAX, min_y: u32::MAX, max_x: 0, max_y: 0 }
    }

    pub fn add(&mut self, x: u32, y: u32, Ghost(ps): Ghost<Seq<(u32, u32)>>)
        requires
            old(self).holds(ps),
        ensures
            final(self).holds(ps.push((x, y))),
    {
        assert(ps.push((x, y)).drop_last() =~= ps);
        if x < self.min_x {
            self.min_x = x;
        }
        if y < self.min_y {
            self.min_y = y;
        }
        if x > self.max_x {
            self.max_x = x;
        }
        if y > self.max_y {
            self.max_y = y;
        }
    }

    /// The rectangle from the smallest to the largest position (both inside it).
    pub fn rect(&self, Ghost(ps): Ghost<Seq<(u32, u32)>>) -> (r: DirtyRect)
        requires
            self.holds(ps),
            ps.len() > 0,
            self.max_x < u32::MAX,
            self.max_y < u32::MAX,
        ensures
            r == bounds_of(ps),
    {
        proof {
            lemma_bounds_of(ps);
        }
        DirtyRect {
            x: self.min_x,
            y: self.min_y,
            width: self.max_x + 1 - self.min_x,
            height: self.max_y + 1 - self.min_y,
        }
    }
}

} // verus!
