//! Province colours, per-province statistics and the province adjacency graph.
use vstd::prelude::*;
use std::collections::HashMap;
use std::collections::HashSet;
use vstd::std_specs::iter::IteratorSpec;

verus! {

/// A province id (the first column of `definition.csv`).
pub type ProvinceId = u32;

/// An RGB colour of `provinces.bmp`; every province has its own colour.
#[derive(Debug, Clone, Copy, PartialEq, Eq, Hash, Structural)]
pub struct ProvinceColor {
    pub r: u8,
    pub g: u8,
    pub b: u8,
}

/// The 24-bit key `0xRRGGBB` of the colour `(r, g, b)`.
pub open spec fn rgb_key(r: u8, g: u8, b: u8) -> u32 {
    (r as int * 65536 + g as int * 256 + b as int) as u32
}

impl ProvinceColor {
    /// The 24-bit key `0xRRGGBB` of this colour.
    pub open spec fn key(self) -> u32 {
        rgb_key(self.r, self.g, self.b)
    }

    /// The colour whose 24-bit key is the low 24 bits of `key`.
    pub open spec fn of_key(key: u32) -> ProvinceColor {
        ProvinceColor {
            r: ((key as int / 65536) % 256) as u8,
            g: ((key as int / 256) % 256) as u8,
            b: (key as int % 256) as u8,
        }
    }

    /// The colour `(r, g, b)`.
    pub fn new(r: u8, g: u8, b: u8) -> (c: Self)
        ensures
            c == (ProvinceColor { r, g, b }),
    {
        ProvinceColor { r, g, b }
    }

    /// The 24-bit lookup key `0xRRGGBB` of this colour.
    pub fn to_key(&self) -> (k: u32)
        ensures
            k == self.key(),
            k < 0x100_0000,
    {
        let r = self.r as u32;
        let g = self.g as u32;
        let b = self.b as u32;
        let k = r << 16 | g << 8 | b;
        assert(k == r * 65536 + g * 256 + b && k < 0x100_0000) by (bit_vector)
            requires r < 256, g < 256, b < 256, k == r << 16 | g << 8 | b;
        k
    }

    /// The colour of a lookup key (its low 24 bits).
    pub fn from_key(key: u32) -> (c: Self)
        ensures
            c == Self::of_key(key),
    {
        let r = (key >> 16) & 0xFF;
        let g = (key >> 8) & 0xFF;
        let b = key & 0xFF;
        assert(r == (key / 65536) % 256 && g == (key / 256) % 256 && b == key % 256) by (bit_vector)
            requires r == (key >> 16) & 0xFF, g == (key >> 8) & 0xFF, b == key & 0xFF;
        ProvinceColor { r: r as u8, g: g as u8, b: b as u8 }
    }
}

/// A colour comes back unchanged from its key.
pub proof fn law_color_key_roundtrip(c: ProvinceColor)
    ensures
        ProvinceColor::of_key(c.key()) == c,
        c.key() < 0x100_0000,
{
    let r = c.r as u32;
    let g = c.g as u32;
    let b = c.b as u32;
    let k = c.key();
    assert(k == r * 65536 + g * 256 + b);
    assert((k / 65536) % 256 == r && (k / 256) % 256 == g && k % 256 == b) by (nonlinear_arith)
        requires k == r * 65536 + g * 256 + b, r < 256, g < 256, b < 256;
}

/// A 24-bit key comes back unchanged from its colour; different colours have different keys.
pub proof fn law_key_color_roundtrip(key: u32, c1: ProvinceColor, c2: ProvinceColor)
    requires
        key < 0x100_0000,
    ensures
        ProvinceColor::of_key(key).key() == key,
        c1.key() == c2.key() ==> c1 == c2,
{
    let k = key as int;
    assert((k / 65536) % 256 * 65536 + (k / 256) % 256 * 256 + k % 256 == k) by (nonlinear_arith)
        requires 0 <= k < 0x100_0000;
    law_color_key_roundtrip(c1);
    law_color_key_roundtrip(c2);
}


broadcast use vstd::std_specs::hash::group_hash_axioms;

/// Area, coordinate sums and bounding box of one province.
#[derive(Debug, Clone, Copy)]
pub struct ProvinceData {
    pub id: ProvinceId,
    pub color: ProvinceColor,
    /// Number of pixels of the province.
    pub pixel_count: u32,
    /// Sum of the x coordinates of its pixels (the centroid is `sum_x / pixel_count`).
    pub sum_x: u64,
    /// Sum of the y coordinates of its pixels.
    pub sum_y: u64,
    /// Bounding box `[min_x, min_y, max_x, max_y]`.
    pub bounds: [u32; 4],
}

/// The colour key of pixel `(x, y)` of an RGB buffer `width` pixels wide.
pub open spec fn pixel_key(pixels: Seq<u8>, width: nat, x: int, y: int) -> u32 {
    let i = 3 * (y * width + x);
    rgb_key(pixels[i], pixels[i + 1], pixels[i + 2])
}

/// The province whose colour pixel `(x, y)` has, if its colour is known.
pub open spec fn owner_at(pixels: Seq<u8>, width: nat, colors: Map<u32, ProvinceId>, x: int, y: int) -> Option<ProvinceId> {
    let k = pixel_key(pixels, width, x, y);
    if colors.contains_key(k) {
        Some(colors[k])
    } else {
        None
    }
}

/// Pixel count, coordinate sums and bounding box of a set of pixels.
pub ghost struct Tally {
    pub count: nat,
    pub sum_x: nat,
    pub sum_y: nat,
    pub min_x: int,
    pub min_y: int,
    pub max_x: int,
    pub max_y: int,
}

pub open spec fn empty_tally() -> Tally {
    Tally { count: 0, sum_x: 0, sum_y: 0, min_x: 0, min_y: 0, max_x: 0, max_y: 0 }
}

/// `t` with the pixel `(x, y)` added.
pub open spec fn add_pixel(t: Tally, x: nat, y: nat) -> Tally {
    if t.count == 0 {
        Tally { count: 1, sum_x: x, sum_y: y, min_x: x as int, min_y: y as int, max_x: x as int, max_y: y as int }
    } else {
        Tally {
            count: t.count + 1,
            sum_x: t.sum_x + x,
            sum_y: t.sum_y + y,
            min_x: if (x as int) < t.min_x { x as int } else { t.min_x },
            min_y: if (y as int) < t.min_y { y as int } else { t.min_y },
            max_x: if (x as int) > t.max_x { x as int } else { t.max_x },
            max_y: if (y as int) > t.max_y { y as int } else { t.max_y },
        }
    }
}

/// The tally of the pixels of province `id` among the pixels before `(x, y)` in
/// row order (all of rows `0..y`, and columns `0..x` of row `y`).
pub open spec fn tally_before(
    pixels: Seq<u8>,
    width: nat,
    colors: Map<u32, ProvinceId>,
    id: ProvinceId,
    y: nat,
    x: nat,
) -> Tally
    decreases y, x,
{
    if x == 0 {
        if y == 0 {
            empty_tally()
        } else {
            tally_before(pixels, width, colors, id, (y - 1) as nat, width)
        }
    } else {
        let t = tally_before(pixels, width, colors, id, y, (x - 1) as nat);
        if owner_at(pixels, width, colors, x - 1, y as int) == Some(id) {
            add_pixel(t, (x - 1) as nat, y)
        } else {
            t
        }
    }
}

/// The tally of all pixels of province `id` in a `width` by `height` buffer.
pub open spec fn province_tally(
    pixels: Seq<u8>,
    width: nat,
    height: nat,
    colors: Map<u32, ProvinceId>,
    id: ProvinceId,
) -> Tally {
    tally_before(pixels, width, colors, id, height, 0)
}

/// Whether the pixel `(nx, ny)`, a 4-neighbour of `(x, y)` inside the buffer, has
/// another colour than `(x, y)` and that colour belongs to province `nid`.
pub open spec fn neighbour_in(
    pixels: Seq<u8>,
    width: nat,
    height: nat,
    colors: Map<u32, ProvinceId>,
    x: int,
    y: int,
    nx: int,
    ny: int,
    nid: ProvinceId,
) -> bool {
    &&& 0 <= nx < width
    &&& 0 <= ny < height
    &&& pixel_key(pixels, width, nx, ny) != pixel_key(pixels, width, x, y)
    &&& owner_at(pixels, width, colors, nx, ny) == Some(nid)
}

/// The province of the neighbour `(nx, ny)` of `(x, y)`, when that neighbour is inside
/// the buffer, has another colour than `(x, y)` and its colour is known (else nothing).
pub open spec fn neighbour_set(
    pixels: Seq<u8>,
    width: nat,
    height: nat,
    colors: Map<u32, ProvinceId>,
    x: int,
    y: int,
    nx: int,
    ny: int,
) -> Set<ProvinceId> {
    Set::new(|nid: ProvinceId| neighbour_in(pixels, width, height, colors, x, y, nx, ny, nid))
}

/// The provinces of the 4-neighbours of pixel `(x, y)` that have another colour than it.
pub open spec fn neighbour_ids(
    pixels: Seq<u8>,
    width: nat,
    height: nat,
    colors: Map<u32, ProvinceId>,
    x: int,
    y: int,
) -> Set<ProvinceId> {
    neighbour_set(pixels, width, height, colors, x, y, x - 1, y)
        .union(neighbour_set(pixels, width, height, colors, x, y, x + 1, y))
        .union(neighbour_set(pixels, width, height, colors, x, y, x, y - 1))
        .union(neighbour_set(pixels, width, height, colors, x, y, x, y + 1))
}

/// The adjacency found among the pixels before `(x, y)` in row order: each pixel of
/// a known province adds the provinces of its differently coloured 4-neighbours.
pub open spec fn adjacency_before(
    pixels: Seq<u8>,
    width: nat,
    height: nat,
    colors: Map<u32, ProvinceId>,
    y: nat,
    x: nat,
) -> Map<ProvinceId, Set<ProvinceId>>
    decreases y, x,
{
    if x == 0 {
        if y == 0 {
            Map::empty()
        } else {
            adjacency_before(pixels, width, height, colors, (y - 1) as nat, width)
        }
    } else {
        let m = adjacency_before(pixels, width, height, colors, y, (x - 1) as nat);
        let px = x - 1;
        let ns = neighbour_ids(pixels, width, height, colors, px, y as int);
        match owner_at(pixels, width, colors, px, y as int) {
            Some(id) => if exists|nid: ProvinceId| ns.contains(nid) {
                m.insert(id, (if m.contains_key(id) { m[id] } else { Set::empty() }).union(ns))
            } else {
                m
            },
            None => m,
        }
    }
}

/// An accumulating tally of one province while the pixels are scanned.
#[derive(Clone, Copy)]
struct Accum {
    count: u32,
    sum_x: u64,
    sum_y: u64,
    min_x: u32,
    min_y: u32,
    max_x: u32,
    max_y: u32,
}

impl Accum {
    spec fn holds(self, t: Tally) -> bool {
        &&& self.count == t.count
        &&& self.sum_x == t.sum_x
        &&& self.sum_y == t.sum_y
        &&& self.min_x == t.min_x
        &&& self.min_y == t.min_y
        &&& self.max_x == t.max_x
        &&& self.max_y == t.max_y
    }
}

/// Whether `d` describes province `id` with tally `t`; its colour is one whose key
/// `colors` maps to `id`.
pub open spec fn data_matches(d: ProvinceData, id: ProvinceId, t: Tally, colors: Map<u32, ProvinceId>) -> bool {
    &&& d.id == id
    &&& d.pixel_count == t.count
    &&& d.sum_x == t.sum_x
    &&& d.sum_y == t.sum_y
    &&& d.bounds@ == seq![t.min_x as u32, t.min_y as u32, t.max_x as u32, t.max_y as u32]
    &&& exists|k: u32| colors.contains_key(k) && colors[k] == id && d.color == ProvinceColor::of_key(k)
}

/// Whether an RGB buffer of `width` by `height` pixels fits in `pixels` and its byte
/// offsets fit in a `u32`.
pub open spec fn buffer_fits(pixels: Seq<u8>, width: nat, height: nat) -> bool {
    &&& pixels.len() >= 3 * (width * height)
    &&& 3 * (width * height) <= u32::MAX + 3
}

/// Whether a `width` by `height` RGB buffer fits in `pixels` (see [`buffer_fits`]).
pub fn check_buffer(pixels: &[u8], width: u32, height: u32) -> (r: bool)
    ensures
        r == buffer_fits(pixels@, width as nat, height as nat),
{
    assert((width as u64) * (height as u64) <= u64::MAX) by (nonlinear_arith)
        requires width <= u32::MAX, height <= u32::MAX;
    let area = width as u64 * height as u64;
    if area > 1_431_655_766 {
        return false;
    }
    pixels.len() as u64 >= 3 * area
}

/// The province graph: per-province statistics, adjacency between provinces, and the
/// colour lookup it was built with.
pub struct ProvinceGraph {
    /// Province id to its statistics.
    provinces: HashMap<ProvinceId, ProvinceData>,
    /// Province id to the ids of the provinces next to it.
    adjacency: HashMap<ProvinceId, HashSet<ProvinceId>>,
    /// Colour key `0xRRGGBB` to province id.
    color_to_id: HashMap<u32, ProvinceId>,
}

proof fn lemma_pixel_offset(width: nat, height: nat, x: nat, y: nat)
    requires
        x < width,
        y < height,
        3 * (width * height) <= u32::MAX + 3,
    ensures
        y * width + x < width * height,
        3 * (y * width + x) + 2 < 3 * (width * height),
        3 * (y * width + x) <= u32::MAX,
{
    assert(y * width + x < width * height) by (nonlinear_arith)
        requires x < width, y < height;
}

/// The tally of a province never counts more pixels than were scanned, and its
/// coordinate sums stay below the count times the largest coordinate.
proof fn lemma_tally_bounds(pixels: Seq<u8>, width: nat, colors: Map<u32, ProvinceId>, id: ProvinceId, y: nat, x: nat)
    requires
        x <= width,
        width <= 0xFFFF_FFFF,
        y <= 0xFFFF_FFFF,
    ensures
        tally_before(pixels, width, colors, id, y, x).count <= y * width + x,
        tally_before(pixels, width, colors, id, y, x).sum_x <= tally_before(pixels, width, colors, id, y, x).count * 0xFFFF_FFFF,
        tally_before(pixels, width, colors, id, y, x).sum_y <= tally_before(pixels, width, colors, id, y, x).count * 0xFFFF_FFFF,
    decreases y, x,
{
    if x == 0 {
        if y > 0 {
            lemma_tally_bounds(pixels, width, colors, id, (y - 1) as nat, width);
            assert((y - 1) * width + width == y * width) by (nonlinear_arith);
        }
    } else {
        lemma_tally_bounds(pixels, width, colors, id, y, (x - 1) as nat);
    }
}

proof fn lemma_union_exists(a: Set<ProvinceId>, b: Set<ProvinceId>)
    ensures
        (exists|x: ProvinceId| a.union(b).contains(x)) <==> ((exists|x: ProvinceId| a.contains(x)) || (exists|x: ProvinceId| b.contains(x))),
{
    if exists|x: ProvinceId| a.union(b).contains(x) {
        let x = choose|x: ProvinceId| a.union(b).contains(x);
        assert(a.contains(x) || b.contains(x));
    }
    if exists|x: ProvinceId| a.contains(x) {
        let x = choose|x: ProvinceId| a.contains(x);
        assert(a.union(b).contains(x));
    }
    if exists|x: ProvinceId| b.contains(x) {
        let x = choose|x: ProvinceId| b.contains(x);
        assert(a.union(b).contains(x));
    }
}

/// `d` without one pixel at `(x, y)`: count down by one, sums down (not below zero);
/// the bounding box is kept. A province with no pixels is left as it is.
pub open spec fn pixel_removed(d: ProvinceData, x: u32, y: u32) -> ProvinceData {
    if d.pixel_count > 0 {
        ProvinceData {
            pixel_count: (d.pixel_count - 1) as u32,
            sum_x: if d.sum_x >= x { (d.sum_x - x) as u64 } else { 0 },
            sum_y: if d.sum_y >= y { (d.sum_y - y) as u64 } else { 0 },
            ..d
        }
    } else {
        d
    }
}

/// `d` with one more pixel at `(x, y)`: count and sums up, bounding box grown to hold it.
pub open spec fn pixel_added(d: ProvinceData, x: u32, y: u32) -> ProvinceData {
    ProvinceData {
        pixel_count: (d.pixel_count + 1) as u32,
        sum_x: (d.sum_x + x) as u64,
        sum_y: (d.sum_y + y) as u64,
        bounds: [
            if x < d.bounds@[0] { x } else { d.bounds@[0] },
            if y < d.bounds@[1] { y } else { d.bounds@[1] },
            if x > d.bounds@[2] { x } else { d.bounds@[2] },
            if y > d.bounds@[3] { y } else { d.bounds@[3] },
        ],
        ..d
    }
}

/// Whether province `id`, if it is known, can take one more pixel at `(x, y)`.
pub open spec fn pixel_fits(m: Map<ProvinceId, ProvinceData>, id: Option<ProvinceId>, x: u32, y: u32) -> bool {
    match id {
        Some(n) => m.contains_key(n) ==> {
            &&& m[n].pixel_count < u32::MAX
            &&& m[n].sum_x + x <= u64::MAX
            &&& m[n].sum_y + y <= u64::MAX
        },
        None => true,
    }
}

/// The statistics after pixel `(x, y)` moved from province `old_id` to `new_id`.
pub open spec fn pixel_moved(
    m: Map<ProvinceId, ProvinceData>,
    x: u32,
    y: u32,
    old_id: Option<ProvinceId>,
    new_id: Option<ProvinceId>,
) -> Map<ProvinceId, ProvinceData> {
    if old_id == new_id {
        m
    } else {
        let m1 = match old_id {
            Some(o) => if m.contains_key(o) {
                m.insert(o, pixel_removed(m[o], x, y))
            } else {
                m
            },
            None => m,
        };
        match new_id {
            Some(n) => if m1.contains_key(n) {
                m1.insert(n, pixel_added(m1[n], x, y))
            } else {
                m1
            },
            None => m1,
        }
    }
}

/// Moving a pixel from one province to another and back gives both provinces their
/// pixel counts and coordinate sums again (only the bounding box of the second may stay
/// grown), and the second move is within the counters' range.
pub proof fn law_pixel_move_back(m: Map<ProvinceId, ProvinceData>, x: u32, y: u32, i: ProvinceId, j: ProvinceId)
    requires
        i != j,
        m.contains_key(i),
        m.contains_key(j),
        m[i].pixel_count >= 1,
        m[i].sum_x >= x,
        m[i].sum_y >= y,
        pixel_fits(m, Some(j), x, y),
    ensures
        pixel_fits(pixel_moved(m, x, y, Some(i), Some(j)), Some(i), x, y),
        ({
            let m2 = pixel_moved(pixel_moved(m, x, y, Some(i), Some(j)), x, y, Some(j), Some(i));
            &&& m2.dom() == m.dom()
            &&& m2[i].pixel_count == m[i].pixel_count
            &&& m2[i].sum_x == m[i].sum_x
            &&& m2[i].sum_y == m[i].sum_y
            &&& m2[j].pixel_count == m[j].pixel_count
            &&& m2[j].sum_x == m[j].sum_x
            &&& m2[j].sum_y == m[j].sum_y
            &&& forall|k: ProvinceId| k != i && k != j && #[trigger] m.contains_key(k) ==> m2[k] == m[k]
        }),
{
    let m1 = pixel_moved(m, x, y, Some(i), Some(j));
    let m2 = pixel_moved(m1, x, y, Some(j), Some(i));
    assert(m2.dom() =~= m.dom());
}

/// Whether `m` records `nid` as a neighbour of `id`.
pub open spec fn adjacency_has(m: Map<ProvinceId, Set<ProvinceId>>, id: ProvinceId, nid: ProvinceId) -> bool {
    m.contains_key(id) && m[id].contains(nid)
}

/// Whether the pixel `(px, py)` comes before `(x, y)` in row order in a buffer `width` wide.
pub open spec fn pixel_before(width: nat, px: int, py: int, y: int, x: int) -> bool {
    ||| (0 <= py < y && 0 <= px < width)
    ||| (py == y && 0 <= px < x)
}

/// Whether some pixel before `(x, y)` belongs to province `id` and has a differently
/// coloured 4-neighbour of province `nid`.
pub open spec fn borders_before(
    pixels: Seq<u8>,
    width: nat,
    height: nat,
    colors: Map<u32, ProvinceId>,
    id: ProvinceId,
    nid: ProvinceId,
    y: int,
    x: int,
) -> bool {
    exists|px: int, py: int|
        #![trigger owner_at(pixels, width, colors, px, py), neighbour_ids(pixels, width, height, colors, px, py)]
        pixel_before(width, px, py, y, x) && owner_at(pixels, width, colors, px, py) == Some(id)
            && neighbour_ids(pixels, width, height, colors, px, py).contains(nid)
}

/// Whether provinces `id` and `nid` touch: some pixel of `id` has a differently
/// coloured 4-neighbour of `nid`.
pub open spec fn borders(
    pixels: Seq<u8>,
    width: nat,
    height: nat,
    colors: Map<u32, ProvinceId>,
    id: ProvinceId,
    nid: ProvinceId,
) -> bool {
    borders_before(pixels, width, height, colors, id, nid, height as int, 0)
}

/// The adjacency found up to a pixel holds exactly the pairs of provinces that touch
/// at the pixels before it, and only provinces with at least one neighbour.
pub proof fn lemma_adjacency_before(
    pixels: Seq<u8>,
    width: nat,
    height: nat,
    colors: Map<u32, ProvinceId>,
    y: nat,
    x: nat,
)
    requires
        x <= width,
    ensures
        forall|id: ProvinceId, nid: ProvinceId|
            #![trigger adjacency_has(adjacency_before(pixels, width, height, colors, y, x), id, nid)]
            #![trigger borders_before(pixels, width, height, colors, id, nid, y as int, x as int)]
            adjacency_has(adjacency_before(pixels, width, height, colors, y, x), id, nid)
                <==> borders_before(pixels, width, height, colors, id, nid, y as int, x as int),
        forall|id: ProvinceId| #[trigger] adjacency_before(pixels, width, height, colors, y, x).contains_key(id)
            ==> exists|nid: ProvinceId| adjacency_before(pixels, width, height, colors, y, x)[id].contains(nid),
    decreases y, x,
{
    let m = adjacency_before(pixels, width, height, colors, y, x);
    if x == 0 {
        if y == 0 {
            assert(m =~= Map::empty());
            assert forall|id: ProvinceId, nid: ProvinceId|
                !borders_before(pixels, width, height, colors, id, nid, y as int, x as int) by {}
        } else {
            let prev = adjacency_before(pixels, width, height, colors, (y - 1) as nat, width);
            assert(m == prev);
            lemma_adjacency_before(pixels, width, height, colors, (y - 1) as nat, width);
            assert forall|id: ProvinceId| #[trigger] m.contains_key(id)
                implies exists|nid: ProvinceId| m[id].contains(nid) by {
                assert(prev.contains_key(id));
            }
            assert forall|id: ProvinceId, nid: ProvinceId|
                adjacency_has(m, id, nid)
                    <==> borders_before(pixels, width, height, colors, id, nid, y as int, x as int) by {
                if borders_before(pixels, width, height, colors, id, nid, y as int, x as int) {
                    let (px, py) = choose|px: int, py: int|
                        #![trigger owner_at(pixels, width, colors, px, py), neighbour_ids(pixels, width, height, colors, px, py)]
                        pixel_before(width, px, py, y as int, x as int) && owner_at(pixels, width, colors, px, py) == Some(id)
                            && neighbour_ids(pixels, width, height, colors, px, py).contains(nid);
                    assert(pixel_before(width, px, py, y - 1, width as int));
                    assert(borders_before(pixels, width, height, colors, id, nid, y - 1, width as int));
                    assert(adjacency_has(prev, id, nid));
                }
                if borders_before(pixels, width, height, colors, id, nid, y - 1, width as int) {
                    let (px, py) = choose|px: int, py: int|
                        #![trigger owner_at(pixels, width, colors, px, py), neighbour_ids(pixels, width, height, colors, px, py)]
                        pixel_before(width, px, py, y - 1, width as int) && owner_at(pixels, width, colors, px, py) == Some(id)
                            && neighbour_ids(pixels, width, height, colors, px, py).contains(nid);
                    assert(pixel_before(width, px, py, y as int, x as int));
                }
                if adjacency_has(prev, id, nid) {
                    assert(borders_before(pixels, width, height, colors, id, nid, y - 1, width as int));
                }
            }
        }
    } else {
        let px0 = x - 1;
        let prev = adjacency_before(pixels, width, height, colors, y, (x - 1) as nat);
        lemma_adjacency_before(pixels, width, height, colors, y, (x - 1) as nat);
        let ns = neighbour_ids(pixels, width, height, colors, px0, y as int);
        let own = owner_at(pixels, width, colors, px0, y as int);
        assert forall|id: ProvinceId, nid: ProvinceId|
            adjacency_has(m, id, nid)
                <==> borders_before(pixels, width, height, colors, id, nid, y as int, x as int) by {
            if borders_before(pixels, width, height, colors, id, nid, y as int, x as int) {
                let (px, py) = choose|px: int, py: int|
                    #![trigger owner_at(pixels, width, colors, px, py), neighbour_ids(pixels, width, height, colors, px, py)]
                    pixel_before(width, px, py, y as int, x as int) && owner_at(pixels, width, colors, px, py) == Some(id)
                        && neighbour_ids(pixels, width, height, colors, px, py).contains(nid);
                if px == px0 && py == y {
                    assert(ns.contains(nid));
                } else {
                    assert(pixel_before(width, px, py, y as int, x - 1));
                    assert(borders_before(pixels, width, height, colors, id, nid, y as int, x - 1));
                    assert(adjacency_has(prev, id, nid));
                }
            }
            if m.contains_key(id) && m[id].contains(nid) {
                if own == Some(id) && (exists|n: ProvinceId| ns.contains(n)) && ns.contains(nid) {
                    assert(pixel_before(width, px0, y as int, y as int, x as int));
                    assert(owner_at(pixels, width, colors, px0, y as int) == Some(id));
                } else {
                    assert(adjacency_has(prev, id, nid));
                    let (px, py) = choose|px: int, py: int|
                        #![trigger owner_at(pixels, width, colors, px, py), neighbour_ids(pixels, width, height, colors, px, py)]
                        pixel_before(width, px, py, y as int, x - 1) && owner_at(pixels, width, colors, px, py) == Some(id)
                            && neighbour_ids(pixels, width, height, colors, px, py).contains(nid);
                    assert(pixel_before(width, px, py, y as int, x as int));
                }
            }
        }
        assert forall|id: ProvinceId| #[trigger] m.contains_key(id)
            implies exists|nid: ProvinceId| m[id].contains(nid) by {
            if own == Some(id) && (exists|n: ProvinceId| ns.contains(n)) {
                let n = choose|n: ProvinceId| ns.contains(n);
                assert(m[id].contains(n));
            } else {
                let n = choose|n: ProvinceId| prev[id].contains(n);
                assert(m[id].contains(n));
            }
        }
    }
}

/// Adjacency is symmetric: when one province touches another, the other touches it.
pub proof fn law_borders_symmetric(
    pixels: Seq<u8>,
    width: nat,
    height: nat,
    colors: Map<u32, ProvinceId>,
    id: ProvinceId,
    nid: ProvinceId,
)
    requires
        borders(pixels, width, height, colors, id, nid),
    ensures
        borders(pixels, width, height, colors, nid, id),
{
    let (px, py) = choose|px: int, py: int|
        #![trigger owner_at(pixels, width, colors, px, py), neighbour_ids(pixels, width, height, colors, px, py)]
        pixel_before(width, px, py, height as int, 0) && owner_at(pixels, width, colors, px, py) == Some(id)
            && neighbour_ids(pixels, width, height, colors, px, py).contains(nid);
    let (qx, qy) = if neighbour_in(pixels, width, height, colors, px, py, px - 1, py, nid) {
        (px - 1, py)
    } else if neighbour_in(pixels, width, height, colors, px, py, px + 1, py, nid) {
        (px + 1, py)
    } else if neighbour_in(pixels, width, height, colors, px, py, px, py - 1, nid) {
        (px, py - 1)
    } else {
        (px, py + 1)
    };
    assert(neighbour_in(pixels, width, height, colors, px, py, qx, qy, nid));
    assert(neighbour_in(pixels, width, height, colors, qx, qy, px, py, id));
    assert(neighbour_ids(pixels, width, height, colors, qx, qy).contains(id));
    assert(pixel_before(width, qx, qy, height as int, 0));
    assert(owner_at(pixels, width, colors, qx, qy) == Some(nid));
}

/// In a graph built from a buffer, the neighbours of each province are exactly the
/// provinces it touches, and the relation goes both ways.
pub proof fn law_graph_adjacency(
    g: ProvinceGraph,
    pixels: Seq<u8>,
    width: nat,
    height: nat,
    colors: Map<u32, ProvinceId>,
    id: ProvinceId,
    nid: ProvinceId,
)
    requires
        g.built_from(pixels, width, height, colors),
    ensures
        (g.adjacency_map().contains_key(id) && g.adjacency_map()[id].contains(nid))
            <==> borders(pixels, width, height, colors, id, nid),
        (g.adjacency_map().contains_key(id) && g.adjacency_map()[id].contains(nid))
            ==> g.adjacency_map().contains_key(nid) && g.adjacency_map()[nid].contains(id),
{
    lemma_adjacency_before(pixels, width, height, colors, height, 0);
    let m = adjacency_before(pixels, width, height, colors, height, 0);
    assert(g.adjacency_map() == m);
    assert(adjacency_has(m, id, nid) <==> borders(pixels, width, height, colors, id, nid));
    if borders(pixels, width, height, colors, id, nid) {
        law_borders_symmetric(pixels, width, height, colors, id, nid);
        assert(adjacency_has(m, nid, id) <==> borders(pixels, width, height, colors, nid, id));
    }
}

/// Whether `(qx, qy)` is one of the four pixels left of, right of, above and below
/// `(px, py)` (not a diagonal one).
pub open spec fn adjacent4(px: int, py: int, qx: int, qy: int) -> bool {
    ||| (py == qy && (px - qx == 1 || qx - px == 1))
    ||| (px == qx && (py - qy == 1 || qy - py == 1))
}

/// Whether some pixel of province `id` has, left, right, above or below it, a pixel of
/// another colour that belongs to province `nid`.
pub open spec fn touch4(
    pixels: Seq<u8>,
    width: nat,
    height: nat,
    colors: Map<u32, ProvinceId>,
    id: ProvinceId,
    nid: ProvinceId,
) -> bool {
    exists|px: int, py: int, qx: int, qy: int|
        #![trigger owner_at(pixels, width, colors, px, py), owner_at(pixels, width, colors, qx, qy)]
        {
            &&& 0 <= px < width && 0 <= py < height
            &&& 0 <= qx < width && 0 <= qy < height
            &&& adjacent4(px, py, qx, qy)
            &&& pixel_key(pixels, width, px, py) != pixel_key(pixels, width, qx, qy)
            &&& owner_at(pixels, width, colors, px, py) == Some(id)
            &&& owner_at(pixels, width, colors, qx, qy) == Some(nid)
        }
}

/// Two provinces are next to each other in a built graph exactly when a pixel of one
/// has a differently coloured pixel of the other left, right, above or below it:
/// provinces that meet only at a corner are not neighbours.
pub proof fn law_graph_adjacent4(
    g: ProvinceGraph,
    pixels: Seq<u8>,
    width: nat,
    height: nat,
    colors: Map<u32, ProvinceId>,
    id: ProvinceId,
    nid: ProvinceId,
)
    requires
        g.built_from(pixels, width, height, colors),
    ensures
        (g.adjacency_map().contains_key(id) && g.adjacency_map()[id].contains(nid))
            <==> touch4(pixels, width, height, colors, id, nid),
{
    law_graph_adjacency(g, pixels, width, height, colors, id, nid);
    if borders(pixels, width, height, colors, id, nid) {
        let (px, py) = choose|px: int, py: int|
            #![trigger owner_at(pixels, width, colors, px, py), neighbour_ids(pixels, width, height, colors, px, py)]
            pixel_before(width, px, py, height as int, 0) && owner_at(pixels, width, colors, px, py) == Some(id)
                && neighbour_ids(pixels, width, height, colors, px, py).contains(nid);
        let (qx, qy) = if neighbour_in(pixels, width, height, colors, px, py, px - 1, py, nid) {
            (px - 1, py)
        } else if neighbour_in(pixels, width, height, colors, px, py, px + 1, py, nid) {
            (px + 1, py)
        } else if neighbour_in(pixels, width, height, colors, px, py, px, py - 1, nid) {
            (px, py - 1)
        } else {
            (px, py + 1)
        };
        assert(neighbour_in(pixels, width, height, colors, px, py, qx, qy, nid));
        assert(adjacent4(px, py, qx, qy));
        assert(owner_at(pixels, width, colors, qx, qy) == Some(nid));
    }
    if touch4(pixels, width, height, colors, id, nid) {
        let (px, py, qx, qy) = choose|px: int, py: int, qx: int, qy: int|
            #![trigger owner_at(pixels, width, colors, px, py), owner_at(pixels, width, colors, qx, qy)]
            {
                &&& 0 <= px < width && 0 <= py < height
                &&& 0 <= qx < width && 0 <= qy < height
                &&& adjacent4(px, py, qx, qy)
                &&& pixel_key(pixels, width, px, py) != pixel_key(pixels, width, qx, qy)
                &&& owner_at(pixels, width, colors, px, py) == Some(id)
                &&& owner_at(pixels, width, colors, qx, qy) == Some(nid)
            };
        assert(neighbour_in(pixels, width, height, colors, px, py, qx, qy, nid));
        assert(neighbour_set(pixels, width, height, colors, px, py, qx, qy).contains(nid));
        assert(neighbour_ids(pixels, width, height, colors, px, py).contains(nid));
        assert(pixel_before(width, px, py, height as int, 0));
        assert(borders_before(pixels, width, height, colors, id, nid, height as int, 0));
    }
}

/// A province with pixels has a colour key that maps to it.
proof fn lemma_tally_owner(pixels: Seq<u8>, width: nat, colors: Map<u32, ProvinceId>, id: ProvinceId, y: nat, x: nat)
    requires
        tally_before(pixels, width, colors, id, y, x).count > 0,
    ensures
        exists|k: u32| colors.contains_key(k) && colors[k] == id,
    decreases y, x,
{
    if x == 0 {
        if y > 0 {
            lemma_tally_owner(pixels, width, colors, id, (y - 1) as nat, width);
        }
    } else {
        if owner_at(pixels, width, colors, x - 1, y as int) == Some(id) {
            let k = pixel_key(pixels, width, x - 1, y as int);
            assert(colors.contains_key(k) && colors[k] == id);
        } else {
            lemma_tally_owner(pixels, width, colors, id, y, (x - 1) as nat);
        }
    }
}

impl ProvinceGraph {
    /// Province id to its statistics.
    pub closed spec fn province_map(&self) -> Map<ProvinceId, ProvinceData> {
        self.provinces@
    }

    /// Province id to the set of ids of the provinces next to it.
    pub closed spec fn adjacency_map(&self) -> Map<ProvinceId, Set<ProvinceId>> {
        self.adjacency@.map_values(|s: HashSet<ProvinceId>| s@)
    }

    /// The colour lookup the graph was built with.
    pub closed spec fn color_map(&self) -> Map<u32, ProvinceId> {
        self.color_to_id@
    }

    /// Whether this graph is the one built from `pixels` (`width` by `height`) with `colors`.
    pub open spec fn built_from(&self, pixels: Seq<u8>, width: nat, height: nat, colors: Map<u32, ProvinceId>) -> bool {
        &&& self.color_map() == colors
        &&& forall|id: ProvinceId| #[trigger] self.province_map().contains_key(id)
            <==> province_tally(pixels, width, height, colors, id).count > 0
        &&& forall|id: ProvinceId| #[trigger] self.province_map().contains_key(id) ==> data_matches(
            self.province_map()[id],
            id,
            province_tally(pixels, width, height, colors, id),
            colors,
        )
        &&& self.adjacency_map() == adjacency_before(pixels, width, height, colors, height, 0)
    }

    /// An empty graph.
    pub fn new() -> (g: Self)
        ensures
            g.province_map() == Map::<ProvinceId, ProvinceData>::empty(),
            g.adjacency_map() == Map::<ProvinceId, Set<ProvinceId>>::empty(),
            g.color_map() == Map::<u32, ProvinceId>::empty(),
    {
        let g = ProvinceGraph { provinces: HashMap::new(), adjacency: HashMap::new(), color_to_id: HashMap::new() };
        assert(g.adjacency_map() =~= Map::empty());
        g
    }

    /// Builds the graph of an RGB pixel buffer (3 bytes per pixel, row by row).
    /// Pixels whose colour `color_id_map` does not know are skipped; two provinces are
    /// next to each other when a pixel of one has a differently coloured 4-neighbour
    /// (left, right, above, below) of the other.
    pub fn build_from_pixels(
        pixels: &[u8],
        width: u32,
        height: u32,
        color_id_map: &HashMap<u32, ProvinceId>,
    ) -> (g: Self)
        requires
            buffer_fits(pixels@, width as nat, height as nat),
        ensures
            g.built_from(pixels@, width as nat, height as nat, color_id_map@),
    {
        let ghost px = pixels@;
        let ghost w = width as nat;
        let ghost h = height as nat;
        let ghost cm = color_id_map@;
        let mut accumulators: HashMap<ProvinceId, Accum> = HashMap::new();
        let mut adjacency: HashMap<ProvinceId, HashSet<ProvinceId>> = HashMap::new();
        assert(adjacency@.map_values(|s: HashSet<ProvinceId>| s@) =~= Map::empty());
        let mut y: u32 = 0;
        while y < height
            invariant
                px == pixels@,
                w == width,
                h == height,
                cm == color_id_map@,
                buffer_fits(px, w, h),
                y <= height,
                forall|id: ProvinceId| #[trigger] accumulators@.contains_key(id)
                    <==> tally_before(px, w, cm, id, y as nat, 0).count > 0,
                forall|id: ProvinceId| #[trigger] accumulators@.contains_key(id)
                    ==> accumulators@[id].holds(tally_before(px, w, cm, id, y as nat, 0)),
                adjacency@.map_values(|s: HashSet<ProvinceId>| s@) == adjacency_before(px, w, h, cm, y as nat, 0),
            decreases height - y,
        {
            let mut x: u32 = 0;
            while x < width
                invariant
                    px == pixels@,
                    w == width,
                    h == height,
                    cm == color_id_map@,
                    buffer_fits(px, w, h),
                    y < height,
                    x <= width,
                    forall|id: ProvinceId| #[trigger] accumulators@.contains_key(id)
                        <==> tally_before(px, w, cm, id, y as nat, x as nat).count > 0,
                    forall|id: ProvinceId| #[trigger] accumulators@.contains_key(id)
                        ==> accumulators@[id].holds(tally_before(px, w, cm, id, y as nat, x as nat)),
                    adjacency@.map_values(|s: HashSet<ProvinceId>| s@) == adjacency_before(
                        px,
                        w,
                        h,
                        cm,
                        y as nat,
                        x as nat,
                    ),
                decreases width - x,
            {
                let key = Self::key_at(pixels, width, height, x, y);
                match color_id_map.get(&key) {
                    None => {
                        assert forall|id: ProvinceId| #[trigger] accumulators@.contains_key(id)
                            <==> tally_before(px, w, cm, id, y as nat, (x + 1) as nat).count > 0 by {}
                        assert(adjacency@.map_values(|s: HashSet<ProvinceId>| s@) =~= adjacency_before(
                            px,
                            w,
                            h,
                            cm,
                            y as nat,
                            (x + 1) as nat,
                        ));
                    },
                    Some(idr) => {
                        let id = *idr;
                        Self::count_pixel(&mut accumulators, Ghost(px), Ghost(cm), id, x, y, width, height);
                        Self::record_neighbours(pixels, width, height, color_id_map, &mut adjacency, id, key, x, y);
                    },
                }
                x = x + 1;
            }
            y = y + 1;
        }
        let provinces = Self::collect_provinces(&accumulators, color_id_map, Ghost(px), Ghost(w), Ghost(h));
        ProvinceGraph { provinces, adjacency, color_to_id: color_id_map.clone() }
    }

    /// Adds pixel `(x, y)` of province `id` to the tallies.
    fn count_pixel(
        acc: &mut HashMap<ProvinceId, Accum>,
        Ghost(px): Ghost<Seq<u8>>,
        Ghost(cm): Ghost<Map<u32, ProvinceId>>,
        id: ProvinceId,
        x: u32,
        y: u32,
        width: u32,
        height: u32,
    )
        requires
            buffer_fits(px, width as nat, height as nat),
            x < width,
            y < height,
            owner_at(px, width as nat, cm, x as int, y as int) == Some(id),
            forall|i: ProvinceId| #[trigger] old(acc)@.contains_key(i)
                <==> tally_before(px, width as nat, cm, i, y as nat, x as nat).count > 0,
            forall|i: ProvinceId| #[trigger] old(acc)@.contains_key(i)
                ==> old(acc)@[i].holds(tally_before(px, width as nat, cm, i, y as nat, x as nat)),
        ensures
            forall|i: ProvinceId| #[trigger] final(acc)@.contains_key(i)
                <==> tally_before(px, width as nat, cm, i, y as nat, (x + 1) as nat).count > 0,
            forall|i: ProvinceId| #[trigger] final(acc)@.contains_key(i)
                ==> final(acc)@[i].holds(tally_before(px, width as nat, cm, i, y as nat, (x + 1) as nat)),
    {
        let ghost w = width as nat;
        proof {
            lemma_tally_bounds(px, w, cm, id, y as nat, x as nat);
            lemma_pixel_offset(w, height as nat, x as nat, y as nat);
        }
        let a = match acc.get(&id) {
            Some(a) => {
                let a = *a;
                assert(a.count <= 1431655765);
                Accum {
                    count: a.count + 1,
                    sum_x: a.sum_x + x as u64,
                    sum_y: a.sum_y + y as u64,
                    min_x: if x < a.min_x { x } else { a.min_x },
                    min_y: if y < a.min_y { y } else { a.min_y },
                    max_x: if x > a.max_x { x } else { a.max_x },
                    max_y: if y > a.max_y { y } else { a.max_y },
                }
            },
            None => Accum { count: 1, sum_x: x as u64, sum_y: y as u64, min_x: x, min_y: y, max_x: x, max_y: y },
        };
        acc.insert(id, a);
        assert forall|i: ProvinceId| #[trigger] acc@.contains_key(i)
            <==> tally_before(px, w, cm, i, y as nat, (x + 1) as nat).count > 0 by {}
    }

    /// Adds to `set` the province of the neighbour `(nx, ny)` of `(x, y)`, when that
    /// neighbour has another colour and its colour is known; tells whether it did.
    fn add_neighbour(
        pixels: &[u8],
        width: u32,
        height: u32,
        color_id_map: &HashMap<u32, ProvinceId>,
        key: u32,
        x: u32,
        y: u32,
        nx: u32,
        ny: u32,
        set: &mut HashSet<ProvinceId>,
    ) -> (added: bool)
        requires
            buffer_fits(pixels@, width as nat, height as nat),
            x < width,
            y < height,
            nx < width,
            ny < height,
            key == pixel_key(pixels@, width as nat, x as int, y as int),
        ensures
            final(set)@ == old(set)@.union(
                neighbour_set(pixels@, width as nat, height as nat, color_id_map@, x as int, y as int, nx as int, ny as int),
            ),
            added == exists|nid: ProvinceId|
                neighbour_set(pixels@, width as nat, height as nat, color_id_map@, x as int, y as int, nx as int, ny as int)
                    .contains(nid),
    {
        let ghost ns = neighbour_set(pixels@, width as nat, height as nat, color_id_map@, x as int, y as int, nx as int, ny as int);
        let nkey = Self::key_at(pixels, width, height, nx, ny);
        if nkey != key {
            match color_id_map.get(&nkey) {
                Some(nid) => {
                    let nid = *nid;
                    set.insert(nid);
                    assert(ns =~= set![nid]);
                    assert(ns.contains(nid));
                    assert(set@ =~= old(set)@.union(ns));
                    return true;
                },
                None => {},
            }
        }
        assert(ns =~= Set::<ProvinceId>::empty());
        assert(set@ =~= old(set)@.union(ns));
        assert(!exists|nid: ProvinceId| ns.contains(nid));
        false
    }

    /// Adds the provinces next to pixel `(x, y)` of province `id` to the adjacency.
    fn record_neighbours(
        pixels: &[u8],
        width: u32,
        height: u32,
        color_id_map: &HashMap<u32, ProvinceId>,
        adjacency: &mut HashMap<ProvinceId, HashSet<ProvinceId>>,
        id: ProvinceId,
        key: u32,
        x: u32,
        y: u32,
    )
        requires
            buffer_fits(pixels@, width as nat, height as nat),
            x < width,
            y < height,
            key == pixel_key(pixels@, width as nat, x as int, y as int),
            owner_at(pixels@, width as nat, color_id_map@, x as int, y as int) == Some(id),
            old(adjacency)@.map_values(|s: HashSet<ProvinceId>| s@) == adjacency_before(
                pixels@,
                width as nat,
                height as nat,
                color_id_map@,
                y as nat,
                x as nat,
            ),
        ensures
            final(adjacency)@.map_values(|s: HashSet<ProvinceId>| s@) == adjacency_before(
                pixels@,
                width as nat,
                height as nat,
                color_id_map@,
                y as nat,
                (x + 1) as nat,
            ),
    {
        let ghost px = pixels@;
        let ghost w = width as nat;
        let ghost h = height as nat;
        let ghost cm = color_id_map@;
        let ghost view0 = adjacency@.map_values(|s: HashSet<ProvinceId>| s@);
        let ghost ns = neighbour_ids(px, w, h, cm, x as int, y as int);
        let existing = adjacency.remove(&id);
        let had = existing.is_some();
        let mut set = match existing {
            Some(s) => s,
            None => HashSet::new(),
        };
        let ghost base = set@;
        assert(had == view0.contains_key(id));
        assert(had ==> base == view0[id]);
        assert(!had ==> base == Set::<ProvinceId>::empty());
        let mut any = false;
        let ghost s1 = neighbour_set(px, w, h, cm, x as int, y as int, x - 1, y as int);
        let ghost s2 = neighbour_set(px, w, h, cm, x as int, y as int, x + 1, y as int);
        let ghost s3 = neighbour_set(px, w, h, cm, x as int, y as int, x as int, y - 1);
        let ghost s4 = neighbour_set(px, w, h, cm, x as int, y as int, x as int, y + 1);
        if x > 0 {
            let a = Self::add_neighbour(pixels, width, height, color_id_map, key, x, y, x - 1, y, &mut set);
            any = any || a;
        } else {
            assert(s1 =~= Set::<ProvinceId>::empty());
            assert(!exists|nid: ProvinceId| s1.contains(nid));
        }
        assert(set@ =~= base.union(s1));
        assert(any == exists|nid: ProvinceId| s1.contains(nid));
        if x + 1 < width {
            let a = Self::add_neighbour(pixels, width, height, color_id_map, key, x, y, x + 1, y, &mut set);
            any = any || a;
        } else {
            assert(s2 =~= Set::<ProvinceId>::empty());
            assert(!exists|nid: ProvinceId| s2.contains(nid));
        }
        assert(set@ =~= base.union(s1).union(s2));
        proof { lemma_union_exists(s1, s2); }
        assert(any == exists|nid: ProvinceId| s1.union(s2).contains(nid));
        if y > 0 {
            let a = Self::add_neighbour(pixels, width, height, color_id_map, key, x, y, x, y - 1, &mut set);
            any = any || a;
        } else {
            assert(s3 =~= Set::<ProvinceId>::empty());
            assert(!exists|nid: ProvinceId| s3.contains(nid));
        }
        assert(set@ =~= base.union(s1).union(s2).union(s3));
        proof { lemma_union_exists(s1.union(s2), s3); }
        assert(any == exists|nid: ProvinceId| s1.union(s2).union(s3).contains(nid));
        if y + 1 < height {
            let a = Self::add_neighbour(pixels, width, height, color_id_map, key, x, y, x, y + 1, &mut set);
            any = any || a;
        } else {
            assert(s4 =~= Set::<ProvinceId>::empty());
            assert(!exists|nid: ProvinceId| s4.contains(nid));
        }
        assert(ns =~= s1.union(s2).union(s3).union(s4));
        assert(set@ =~= base.union(ns));
        proof { lemma_union_exists(s1.union(s2).union(s3), s4); }
        assert(any == exists|nid: ProvinceId| ns.contains(nid));
        let ghost removed = adjacency@.map_values(|s: HashSet<ProvinceId>| s@);
        assert(removed =~= view0.remove(id));
        if had || any {
            adjacency.insert(id, set);
            assert(adjacency@.map_values(|s: HashSet<ProvinceId>| s@) =~= view0.remove(id).insert(id, base.union(ns)));
            if !any {
                assert(base.union(ns) =~= base);
                assert(view0.remove(id).insert(id, base) =~= view0);
            }
        } else {
            assert(view0.remove(id) =~= view0);
        }
    }

    /// The first key, in the order in which `colors` is walked, that maps to `id`.
    fn find_color_key(colors: &HashMap<u32, ProvinceId>, id: ProvinceId) -> (k: u32)
        requires
            exists|k: u32| colors@.contains_key(k) && colors@[k] == id,
        ensures
            colors@.contains_key(k),
            colors@[k] == id,
    {
        let mut found: Option<u32> = None;
        for pair in it: colors.iter()
            invariant
                it.seq() == vstd::std_specs::hash::spec_hash_map_iter(colors).remaining(),
                found matches Some(k) ==> colors@.contains_key(k) && colors@[k] == id,
                found is None ==> forall|j: int| 0 <= j < it.index() ==> *(#[trigger] it.seq()[j]).1 != id,
        {
            let (kr, vr) = pair;
            if found.is_none() && *vr == id {
                found = Some(*kr);
            }
        }
        match found {
            Some(k) => k,
            None => {
                proof {
                    let v = vstd::std_specs::hash::spec_hash_map_iter(colors).remaining();
                    let k = choose|k: u32| colors@.contains_key(k) && colors@[k] == id;
                    assert(v.contains((&k, &colors@[k])));
                    let j = choose|j: int| 0 <= j < v.len() && v[j] == (&k, &colors@[k]);
                    assert(*v[j].1 == id);
                }
                0
            },
        }
    }

    /// The per-province statistics of the finished tallies.
    fn collect_provinces(
        acc: &HashMap<ProvinceId, Accum>,
        colors: &HashMap<u32, ProvinceId>,
        Ghost(px): Ghost<Seq<u8>>,
        Ghost(w): Ghost<nat>,
        Ghost(h): Ghost<nat>,
    ) -> (provinces: HashMap<ProvinceId, ProvinceData>)
        requires
            forall|i: ProvinceId| #[trigger] acc@.contains_key(i)
                <==> province_tally(px, w, h, colors@, i).count > 0,
            forall|i: ProvinceId| #[trigger] acc@.contains_key(i)
                ==> acc@[i].holds(province_tally(px, w, h, colors@, i)),
        ensures
            forall|i: ProvinceId| #[trigger] provinces@.contains_key(i)
                <==> province_tally(px, w, h, colors@, i).count > 0,
            forall|i: ProvinceId| #[trigger] provinces@.contains_key(i)
                ==> data_matches(provinces@[i], i, province_tally(px, w, h, colors@, i), colors@),
    {
        let mut provinces: HashMap<ProvinceId, ProvinceData> = HashMap::new();
        let ghost cm = colors@;
        for pair in it: acc.iter()
            invariant
                cm == colors@,
                it.seq() == vstd::std_specs::hash::spec_hash_map_iter(acc).remaining(),
                forall|i: ProvinceId| #[trigger] acc@.contains_key(i)
                    <==> province_tally(px, w, h, cm, i).count > 0,
                forall|i: ProvinceId| #[trigger] acc@.contains_key(i)
                    ==> acc@[i].holds(province_tally(px, w, h, cm, i)),
                forall|i: ProvinceId| #[trigger] provinces@.contains_key(i)
                    ==> acc@.contains_key(i) && data_matches(provinces@[i], i, province_tally(px, w, h, cm, i), cm),
                forall|j: int| 0 <= j < it.index() ==> provinces@.contains_key(*(#[trigger] it.seq()[j]).0),
        {
            let (idr, ar) = pair;
            let id = *idr;
            let a = *ar;
            assert(pair == it.seq()[it.index() as int]);
            assert(acc@.contains_key(id));
            proof {
                let t = province_tally(px, w, h, cm, id);
                lemma_tally_owner(px, w, cm, id, h, 0);
            }
            let color_key = Self::find_color_key(colors, id);
            let data = ProvinceData {
                id,
                color: ProvinceColor::from_key(color_key),
                pixel_count: a.count,
                sum_x: a.sum_x,
                sum_y: a.sum_y,
                bounds: [a.min_x, a.min_y, a.max_x, a.max_y],
            };
            assert(data.bounds@ =~= seq![a.min_x, a.min_y, a.max_x, a.max_y]);
            provinces.insert(id, data);
        }
        proof {
            let v = vstd::std_specs::hash::spec_hash_map_iter(acc).remaining();
            assert(forall|j: int| 0 <= j < v.len() ==> provinces@.contains_key(*(#[trigger] v[j]).0));
            assert forall|i: ProvinceId| #[trigger] acc@.contains_key(i) implies provinces@.contains_key(i) by {
                assert(v.contains((&i, &acc@[i])));
                let j = choose|j: int| 0 <= j < v.len() && v[j] == (&i, &acc@[i]);
                assert(*v[j].0 == i);
            }
            assert forall|i: ProvinceId| #[trigger] provinces@.contains_key(i)
                <==> province_tally(px, w, h, colors@, i).count > 0 by {
                if province_tally(px, w, h, colors@, i).count > 0 {
                    assert(acc@.contains_key(i));
                }
            }
        }
        provinces
    }

    /// The id of the province with colour `color`, as the colour lookup gives it.
    pub fn id_from_color(&self, color: &ProvinceColor) -> (r: Option<ProvinceId>)
        ensures
            r == (if self.color_map().contains_key(color.key()) {
                Some(self.color_map()[color.key()])
            } else {
                None::<ProvinceId>
            }),
    {
        match self.color_to_id.get(&color.to_key()) {
            Some(id) => Some(*id),
            None => None,
        }
    }

    /// The statistics of province `id`.
    pub fn get_province(&self, id: ProvinceId) -> (r: Option<&ProvinceData>)
        ensures
            match r {
                Some(d) => self.province_map().contains_key(id) && *d == self.province_map()[id],
                None => !self.province_map().contains_key(id),
            },
    {
        self.provinces.get(&id)
    }

    /// The ids of the provinces next to province `id`, when it has any.
    pub fn neighbors(&self, id: ProvinceId) -> (r: Option<&HashSet<ProvinceId>>)
        ensures
            match r {
                Some(s) => self.adjacency_map().contains_key(id) && s@ == self.adjacency_map()[id],
                None => !self.adjacency_map().contains_key(id),
            },
    {
        self.adjacency.get(&id)
    }

    /// The number of provinces with statistics.
    pub fn province_count(&self) -> (n: usize)
        ensures
            n == self.province_map().len(),
    {
        self.provinces.len()
    }

    /// All provinces with their statistics, in no particular order.
    pub fn provinces(&self) -> (r: Vec<(ProvinceId, ProvinceData)>)
        ensures
            r@.len() == self.province_map().len(),
            forall|i: int| 0 <= i < r@.len() ==> self.province_map().contains_key(#[trigger] r@[i].0)
                && self.province_map()[r@[i].0] == r@[i].1,
            forall|id: ProvinceId| #[trigger] self.province_map().contains_key(id)
                ==> exists|i: int| 0 <= i < r@.len() && r@[i].0 == id,
    {
        let mut r: Vec<(ProvinceId, ProvinceData)> = Vec::new();
        for pair in it: self.provinces.iter()
            invariant
                it.seq() == vstd::std_specs::hash::spec_hash_map_iter(&self.provinces).remaining(),
                r@.len() == it.index(),
                forall|i: int| 0 <= i < r@.len() ==> r@[i].0 == *it.seq()[i].0 && r@[i].1 == *it.seq()[i].1,
        {
            let (k, v) = pair;
            r.push((*k, *v));
        }
        proof {
            let v = vstd::std_specs::hash::spec_hash_map_iter(&self.provinces).remaining();
            assert forall|id: ProvinceId| #[trigger] self.province_map().contains_key(id)
                implies exists|i: int| 0 <= i < r@.len() && r@[i].0 == id by {
                assert(v.contains((&id, &self.provinces@[id])));
                let j = choose|j: int| 0 <= j < v.len() && v[j] == (&id, &self.provinces@[id]);
                assert(r@[j].0 == id);
            }
        }
        r
    }

    /// Whether the statistics of province `id` can take one more pixel at `(x, y)`
    /// without a counter leaving its range.
    pub fn can_take_pixel(&self, id: Option<ProvinceId>, x: u32, y: u32) -> (r: bool)
        ensures
            r == pixel_fits(self.province_map(), id, x, y),
    {
        match id {
            Some(n) => match self.provinces.get(&n) {
                Some(d) => d.pixel_count < u32::MAX && d.sum_x <= u64::MAX - x as u64 && d.sum_y <= u64::MAX
                    - y as u64,
                None => true,
            },
            None => true,
        }
    }

    /// Moves pixel `(x, y)` from province `old_id` to province `new_id` in the statistics
    /// (pixel count, coordinate sums; the bounding box of `new_id` grows to take it).
    /// Adjacency is left as it is; a province that is not known is left alone.
    pub fn update_pixel(&mut self, x: u32, y: u32, old_id: Option<ProvinceId>, new_id: Option<ProvinceId>)
        requires
            old_id != new_id ==> pixel_fits(old(self).province_map(), new_id, x, y),
        ensures
            final(self).province_map() == pixel_moved(old(self).province_map(), x, y, old_id, new_id),
            final(self).adjacency_map() == old(self).adjacency_map(),
            final(self).color_map() == old(self).color_map(),
    {
        if old_id == new_id {
            return;
        }
        match old_id {
            Some(oid) => match self.provinces.get(&oid) {
                Some(d) => {
                    let mut data = *d;
                    if data.pixel_count > 0 {
                        data.pixel_count = data.pixel_count - 1;
                        data.sum_x = data.sum_x.saturating_sub(x as u64);
                        data.sum_y = data.sum_y.saturating_sub(y as u64);
                    }
                    self.provinces.insert(oid, data);
                },
                None => {},
            },
            None => {},
        }
        match new_id {
            Some(nid) => match self.provinces.get(&nid) {
                Some(d) => {
                    let mut data = *d;
                    data.pixel_count = data.pixel_count + 1;
                    data.sum_x = data.sum_x + x as u64;
                    data.sum_y = data.sum_y + y as u64;
                    let b0 = if x < data.bounds[0] { x } else { data.bounds[0] };
                    let b1 = if y < data.bounds[1] { y } else { data.bounds[1] };
                    let b2 = if x > data.bounds[2] { x } else { data.bounds[2] };
                    let b3 = if y > data.bounds[3] { y } else { data.bounds[3] };
                    data.bounds = [b0, b1, b2, b3];
                    self.provinces.insert(nid, data);
                },
                None => {},
            },
            None => {},
        }
    }

    /// The colour key of pixel `(x, y)`.
    fn key_at(pixels: &[u8], width: u32, height: u32, x: u32, y: u32) -> (k: u32)
        requires
            buffer_fits(pixels@, width as nat, height as nat),
            x < width,
            y < height,
        ensures
            k == pixel_key(pixels@, width as nat, x as int, y as int),
    {
        proof {
            lemma_pixel_offset(width as nat, height as nat, x as nat, y as nat);
        }
        let idx = ((y * width + x) * 3) as usize;
        ProvinceColor::new(pixels[idx], pixels[idx + 1], pixels[idx + 2]).to_key()
    }
}

} // verus!
