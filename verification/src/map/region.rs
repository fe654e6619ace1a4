//! Connected regions of one colour: the pixels a new province is cut from.
use vstd::prelude::*;
use crate::command::CommandError;
use crate::map::ProjectState;
use crate::map::command::{lookup, recolored, NewProvinceCommand};
use crate::map::definition::{allocatable, kind_name, lemma_position_of, position_of, ProvinceKind, ProvinceType};
use crate::map::graph::{buffer_fits, pixel_before, ProvinceColor, ProvinceGraph, ProvinceId};
use crate::map::pixels::{color_at, lemma_offsets, lemma_with_pixel, on_map, read_pixel, write_pixel};

verus! {

/// Whether `a` and `b` are 4-neighbours: one apart in x or in y, not both.
pub open spec fn adjacent4(a: (int, int), b: (int, int)) -> bool {
    ||| a.0 == b.0 && (a.1 - b.1 == 1 || b.1 - a.1 == 1)
    ||| a.1 == b.1 && (a.0 - b.0 == 1 || b.0 - a.0 == 1)
}

/// Whether `p` is a pixel of the map with colour `c`.
pub open spec fn in_region(pixels: Seq<u8>, width: nat, height: nat, c: ProvinceColor, p: (int, int)) -> bool {
    on_map(width, height, p.0, p.1) && color_at(pixels, width, p.0, p.1) == c
}

/// Whether step `i` of `path` goes to a 4-neighbour.
pub open spec fn steps_to_neighbour(path: Seq<(int, int)>, i: int) -> bool {
    adjacent4(path[i], path[i + 1])
}

/// Whether `path` walks through pixels of colour `c`, each step to a 4-neighbour.
pub open spec fn is_walk(pixels: Seq<u8>, width: nat, height: nat, c: ProvinceColor, path: Seq<(int, int)>) -> bool {
    &&& path.len() > 0
    &&& forall|i: int| 0 <= i < path.len() ==> #[trigger] in_region(pixels, width, height, c, path[i])
    &&& forall|i: int| 0 <= i < path.len() - 1 ==> #[trigger] steps_to_neighbour(path, i)
}

/// Whether a walk through pixels of colour `c` leads from `a` to `b`.
pub open spec fn connected(
    pixels: Seq<u8>,
    width: nat,
    height: nat,
    c: ProvinceColor,
    a: (int, int),
    b: (int, int),
) -> bool {
    exists|path: Seq<(int, int)>| #[trigger] is_walk(pixels, width, height, c, path) && path[0] == a && path.last() == b
}

/// A pixel position as a pair of integers.
pub open spec fn pos(p: (u32, u32)) -> (int, int) {
    (p.0 as int, p.1 as int)
}

/// Whether `r` holds, each once, exactly the pixels that a walk through the colour of
/// `start` leads to from `start`.
pub open spec fn is_region_of(pixels: Seq<u8>, width: nat, height: nat, start: (u32, u32), r: Seq<(u32, u32)>) -> bool {
    let c = color_at(pixels, width, start.0 as int, start.1 as int);
    &&& r.no_duplicates()
    &&& forall|i: int| 0 <= i < r.len() ==> connected(pixels, width, height, c, pos(start), pos(#[trigger] r[i]))
    &&& forall|p: (u32, u32)| connected(pixels, width, height, c, pos(start), #[trigger] pos(p)) ==> r.contains(p)
}

/// The number of `true` entries of `v`.
pub open spec fn trues(v: Seq<bool>) -> nat
    decreases v.len(),
{
    if v.len() == 0 {
        0
    } else {
        trues(v.drop_last()) + if v.last() {
            1nat
        } else {
            0nat
        }
    }
}

proof fn lemma_trues_bound(v: Seq<bool>)
    ensures
        trues(v) <= v.len(),
    decreases v.len(),
{
    if v.len() > 0 {
        lemma_trues_bound(v.drop_last());
    }
}

proof fn lemma_trues_set(v: Seq<bool>, i: int)
    requires
        0 <= i < v.len(),
        !v[i],
    ensures
        trues(v.update(i, true)) == trues(v) + 1,
    decreases v.len(),
{
    let u = v.update(i, true);
    if i < v.len() - 1 {
        assert(u.drop_last() =~= v.drop_last().update(i, true));
        lemma_trues_set(v.drop_last(), i);
    } else {
        assert(u.drop_last() =~= v.drop_last());
    }
}

/// The index of pixel `p` in a row-by-row list of the pixels of a map `width` wide.
pub open spec fn index_of_pixel(width: nat, p: (u32, u32)) -> int {
    p.1 * width + p.0
}

/// Whether `visited` marks exactly the pixels of `queue`, which are on the map, each once.
pub open spec fn tracks(visited: Seq<bool>, queue: Seq<(u32, u32)>, width: nat, height: nat) -> bool {
    &&& visited.len() == width * height
    &&& queue.no_duplicates()
    &&& forall|j: int| 0 <= j < queue.len() ==> on_map(width, height, (#[trigger] queue[j]).0 as int, queue[j].1 as int)
    &&& forall|p: (u32, u32)| on_map(width, height, p.0 as int, p.1 as int) ==> (visited[#[trigger] index_of_pixel(width, p)]
        <==> queue.contains(p))
    &&& trues(visited) == queue.len()
}

/// Distinct pixels of the map have distinct indices, inside the list.
proof fn lemma_pixel_index(width: nat, height: nat, p: (u32, u32), q: (u32, u32))
    requires
        on_map(width, height, p.0 as int, p.1 as int),
        on_map(width, height, q.0 as int, q.1 as int),
    ensures
        0 <= index_of_pixel(width, p) < width * height,
        p != q ==> index_of_pixel(width, p) != index_of_pixel(width, q),
{
    lemma_offsets(width, height, p.0 as int, p.1 as int, q.0 as int, q.1 as int);
}

/// Marks pixel `(x, y)` and puts it at the end of the queue, unless it is marked.
fn visit(visited: &mut Vec<bool>, queue: &mut Vec<(u32, u32)>, width: u32, height: u32, x: u32, y: u32)
    requires
        tracks(old(visited)@, old(queue)@, width as nat, height as nat),
        x < width,
        y < height,
        width as nat * height as nat <= 1_431_655_766,
    ensures
        tracks(final(visited)@, final(queue)@, width as nat, height as nat),
        final(queue)@ == if old(queue)@.contains((x, y)) {
            old(queue)@
        } else {
            old(queue)@.push((x, y))
        },
        final(queue)@.contains((x, y)),
        final(queue)@.len() >= old(queue)@.len(),
        forall|j: int| 0 <= j < old(queue)@.len() ==> final(queue)@[j] == old(queue)@[j],
        forall|j: int| old(queue)@.len() <= j < final(queue)@.len() ==> final(queue)@[j] == (x, y),
{
    let ghost w = width as nat;
    let ghost h = height as nat;
    let ghost p = (x, y);
    proof {
        lemma_pixel_index(w, h, p, p);
    }
    let i = y as usize * width as usize + x as usize;
    assert(i == index_of_pixel(w, p));
    if !visited[i] {
        let ghost v0 = visited@;
        let ghost q0 = queue@;
        assert(!q0.contains(p));
        visited.set(i, true);
        queue.push((x, y));
        proof {
            lemma_trues_set(v0, i as int);
            let q = queue@;
            assert(q[q0.len() as int] == p);
            assert(q.no_duplicates()) by {
                assert forall|a: int, b: int| 0 <= a < b < q.len() implies q[a] != q[b] by {
                    if b == q0.len() {
                        assert(q0[a] == q[a]);
                    }
                }
            }
            assert forall|p2: (u32, u32)| on_map(w, h, p2.0 as int, p2.1 as int) implies (visited@[#[trigger] index_of_pixel(w, p2)]
                <==> queue@.contains(p2)) by {
                lemma_pixel_index(w, h, p2, p);
                if q0.contains(p2) {
                    let j = choose|j: int| 0 <= j < q0.len() && q0[j] == p2;
                    assert(q[j] == p2);
                }
                if q.contains(p2) && p2 != p {
                    let j = choose|j: int| 0 <= j < q.len() && q[j] == p2;
                    assert(q0[j] == p2);
                }
                if p2 == p {
                    assert(q[q0.len() as int] == p);
                }
            }
        }
    } else {
        assert(queue@.contains(p));
    }
}

/// Whether every on-map 4-neighbour of `p` is in `queue`.
pub open spec fn neighbours_queued(queue: Seq<(u32, u32)>, width: nat, height: nat, p: (u32, u32)) -> bool {
    &&& p.0 > 0 ==> queue.contains(((p.0 - 1) as u32, p.1))
    &&& p.0 + 1 < width ==> queue.contains(((p.0 + 1) as u32, p.1))
    &&& p.1 > 0 ==> queue.contains((p.0, (p.1 - 1) as u32))
    &&& p.1 + 1 < height ==> queue.contains((p.0, (p.1 + 1) as u32))
}

/// Visits the on-map 4-neighbours of `(x, y)`.
fn visit_neighbours(visited: &mut Vec<bool>, queue: &mut Vec<(u32, u32)>, width: u32, height: u32, x: u32, y: u32)
    requires
        tracks(old(visited)@, old(queue)@, width as nat, height as nat),
        x < width,
        y < height,
        width as nat * height as nat <= 1_431_655_766,
    ensures
        tracks(final(visited)@, final(queue)@, width as nat, height as nat),
        final(queue)@.len() >= old(queue)@.len(),
        forall|j: int| 0 <= j < old(queue)@.len() ==> final(queue)@[j] == old(queue)@[j],
        neighbours_queued(final(queue)@, width as nat, height as nat, (x, y)),
        forall|j: int| old(queue)@.len() <= j < final(queue)@.len() ==> adjacent4(pos((x, y)), pos(#[trigger] final(queue)@[j])),
{
    let ghost q0 = queue@;
    let ghost p = (x, y);
    if x > 0 {
        visit(visited, queue, width, height, x - 1, y);
    }
    let ghost q1 = queue@;
    assert(x > 0 ==> q1.contains(((x - 1) as u32, y)));
    if x + 1 < width {
        visit(visited, queue, width, height, x + 1, y);
    }
    let ghost q2 = queue@;
    proof {
        if x > 0 {
            let k = choose|k: int| 0 <= k < q1.len() && q1[k] == ((x - 1) as u32, y);
            assert(q2[k] == q1[k]);
        }
    }
    assert(x + 1 < width ==> q2.contains(((x + 1) as u32, y)));
    if y > 0 {
        visit(visited, queue, width, height, x, y - 1);
    }
    let ghost q3 = queue@;
    proof {
        if x > 0 {
            let k = choose|k: int| 0 <= k < q2.len() && q2[k] == ((x - 1) as u32, y);
            assert(q3[k] == q2[k]);
        }
        if x + 1 < width {
            let k = choose|k: int| 0 <= k < q2.len() && q2[k] == ((x + 1) as u32, y);
            assert(q3[k] == q2[k]);
        }
    }
    assert(y > 0 ==> q3.contains((x, (y - 1) as u32)));
    if y + 1 < height {
        visit(visited, queue, width, height, x, y + 1);
    }
    let ghost q4 = queue@;
    proof {
        if x > 0 {
            let k = choose|k: int| 0 <= k < q3.len() && q3[k] == ((x - 1) as u32, y);
            assert(q4[k] == q3[k]);
        }
        if x + 1 < width {
            let k = choose|k: int| 0 <= k < q3.len() && q3[k] == ((x + 1) as u32, y);
            assert(q4[k] == q3[k]);
        }
        if y > 0 {
            let k = choose|k: int| 0 <= k < q3.len() && q3[k] == (x, (y - 1) as u32);
            assert(q4[k] == q3[k]);
        }
        assert(y + 1 < height ==> q4.contains((x, (y + 1) as u32)));
        assert forall|j: int| 0 <= j < q0.len() implies q4[j] == q0[j] by {
            assert(q1[j] == q0[j]);
            assert(q2[j] == q1[j]);
            assert(q3[j] == q2[j]);
        }
        assert forall|j: int| q0.len() <= j < q4.len() implies adjacent4(pos((x, y)), pos(#[trigger] q4[j])) by {
            if j < q1.len() {
                assert(q4[j] == q1[j]);
                assert(q2[j] == q1[j]);
                assert(q3[j] == q2[j]);
            } else if j < q2.len() {
                assert(q3[j] == q2[j]);
            } else if j < q3.len() {
            }
        }
    }
}

/// Whether `p` is among the first `k` elements of `q`.
pub open spec fn among_first(q: Seq<(u32, u32)>, k: int, p: (u32, u32)) -> bool {
    exists|j: int| 0 <= j < k && q[j] == p
}

/// A walk that starts in a set closed under going to neighbours of the colour ends in it.
proof fn lemma_walk_stays(
    pixels: Seq<u8>,
    width: nat,
    height: nat,
    c: ProvinceColor,
    queue: Seq<(u32, u32)>,
    path: Seq<(int, int)>,
)
    requires
        width <= u32::MAX,
        height <= u32::MAX,
        is_walk(pixels, width, height, c, path),
        queue.contains((path[0].0 as u32, path[0].1 as u32)),
        forall|p: (u32, u32)| #[trigger] queue.contains(p) && in_region(pixels, width, height, c, pos(p))
            ==> neighbours_queued(queue, width, height, p),
    ensures
        queue.contains((path.last().0 as u32, path.last().1 as u32)),
    decreases path.len(),
{
    if path.len() > 1 {
        let front = path.drop_last();
        assert(is_walk(pixels, width, height, c, front)) by {
            assert forall|i: int| 0 <= i < front.len() implies #[trigger] in_region(pixels, width, height, c, front[i]) by {
                assert(in_region(pixels, width, height, c, path[i]));
            }
            assert forall|i: int| 0 <= i < front.len() - 1 implies #[trigger] steps_to_neighbour(front, i) by {
                assert(steps_to_neighbour(path, i));
            }
        }
        lemma_walk_stays(pixels, width, height, c, queue, front);
        let a = path[path.len() - 2];
        let b = path.last();
        assert(in_region(pixels, width, height, c, a));
        assert(in_region(pixels, width, height, c, path[path.len() - 1]));
        assert(steps_to_neighbour(path, path.len() - 2));
        let pa = (a.0 as u32, a.1 as u32);
        assert(pos(pa) == a);
        assert(neighbours_queued(queue, width, height, pa));
    }
}

/// A walk to `a` followed by a step to a neighbour `b` of the colour is a walk to `b`.
proof fn lemma_extend_walk(
    pixels: Seq<u8>,
    width: nat,
    height: nat,
    c: ProvinceColor,
    s: (int, int),
    a: (int, int),
    b: (int, int),
)
    requires
        connected(pixels, width, height, c, s, a),
        adjacent4(a, b),
        in_region(pixels, width, height, c, b),
    ensures
        connected(pixels, width, height, c, s, b),
{
    let path = choose|path: Seq<(int, int)>| #[trigger] is_walk(pixels, width, height, c, path) && path[0] == s && path.last() == a;
    let longer = path.push(b);
    assert(is_walk(pixels, width, height, c, longer)) by {
        assert forall|i: int| 0 <= i < longer.len() implies #[trigger] in_region(pixels, width, height, c, longer[i]) by {
            if i < path.len() {
                assert(in_region(pixels, width, height, c, path[i]));
            }
        }
        assert forall|i: int| 0 <= i < longer.len() - 1 implies #[trigger] steps_to_neighbour(longer, i) by {
            if i < path.len() - 1 {
                assert(steps_to_neighbour(path, i));
            }
        }
    }
    assert(longer[0] == s);
    assert(longer.last() == b);
}

/// The pixels a walk through the colour of `(x, y)` leads to from `(x, y)`, each once,
/// found breadth-first through 4-neighbours.
pub fn connected_region(pixels: &Vec<u8>, width: u32, height: u32, x: u32, y: u32) -> (r: Vec<(u32, u32)>)
    requires
        buffer_fits(pixels@, width as nat, height as nat),
        x < width,
        y < height,
    ensures
        is_region_of(pixels@, width as nat, height as nat, (x, y), r@),
{
    let ghost px = pixels@;
    let ghost w = width as nat;
    let ghost h = height as nat;
    let ghost start = (x, y);
    let c = read_pixel(pixels, width, height, x, y);
    assert(w * h <= 1_431_655_766);
    let total = width as usize * height as usize;
    let mut visited: Vec<bool> = Vec::new();
    for k in 0..total
        invariant
            visited@.len() == k,
            forall|i: int| 0 <= i < k ==> !visited@[i],
            trues(visited@) == 0,
    {
        let ghost v0 = visited@;
        visited.push(false);
        assert(visited@.drop_last() =~= v0);
    }
    let mut queue: Vec<(u32, u32)> = Vec::new();
    proof {
        assert forall|p: (u32, u32)| on_map(w, h, p.0 as int, p.1 as int) implies (visited@[#[trigger] index_of_pixel(w, p)]
            <==> queue@.contains(p)) by {
            lemma_pixel_index(w, h, p, p);
        }
    }
    visit(&mut visited, &mut queue, width, height, x, y);
    assert(queue@[0] == start);
    let mut affected: Vec<(u32, u32)> = Vec::new();
    let mut head: usize = 0;
    while head < queue.len()
        invariant
            px == pixels@,
            w == width,
            h == height,
            w * h <= 1_431_655_766,
            buffer_fits(px, w, h),
            on_map(w, h, x as int, y as int),
            c == color_at(px, w, x as int, y as int),
            tracks(visited@, queue@, w, h),
            queue@.len() > 0,
            queue@[0] == start,
            head <= queue@.len(),
            affected@.no_duplicates(),
            forall|i: int| 0 <= i < affected@.len() ==> in_region(px, w, h, c, pos(#[trigger] affected@[i])),
            forall|i: int| 0 <= i < affected@.len() ==> among_first(queue@, head as int, #[trigger] affected@[i]),
            forall|j: int| 0 <= j < head && in_region(px, w, h, c, pos(#[trigger] queue@[j])) ==> affected@.contains(queue@[j]),
            forall|i: int| 0 <= i < affected@.len() ==> connected(px, w, h, c, pos(start), pos(#[trigger] affected@[i])),
            forall|j: int| 0 <= j < queue@.len() ==> (#[trigger] queue@[j]) == start || exists|i: int|
                0 <= i < affected@.len() && adjacent4(pos(#[trigger] affected@[i]), pos(queue@[j])),
            forall|j: int| 0 <= j < head && in_region(px, w, h, c, pos(#[trigger] queue@[j])) ==> neighbours_queued(
                queue@,
                w,
                h,
                queue@[j],
            ),
        decreases w * h - head,
    {
        proof {
            lemma_trues_bound(visited@);
        }
        let (cx, cy) = queue[head];
        let ghost q = (cx, cy);
        let ghost q0 = queue@;
        let ghost a0 = affected@;
        let ghost hd = head as int;
        assert(q0[hd] == q);
        assert(on_map(w, h, cx as int, cy as int));
        assert(!among_first(q0, hd, q)) by {
            if among_first(q0, hd, q) {
                let j = choose|j: int| 0 <= j < hd && q0[j] == q;
                assert(q0[j] == q0[hd]);
            }
        }
        head = head + 1;
        let pc = read_pixel(pixels, width, height, cx, cy);
        if pc == c {
            proof {
                assert(in_region(px, w, h, c, pos(q)));
                if q == start {
                    let path = seq![pos(start)];
                    assert(is_walk(px, w, h, c, path));
                    assert(connected(px, w, h, c, pos(start), pos(q)));
                } else {
                    let i = choose|i: int| 0 <= i < a0.len() && adjacent4(pos(#[trigger] a0[i]), pos(q0[hd]));
                    assert(connected(px, w, h, c, pos(start), pos(a0[i])));
                    lemma_extend_walk(px, w, h, c, pos(start), pos(a0[i]), pos(q));
                }
            }
            affected.push((cx, cy));
            proof {
                let a1 = affected@;
                assert(a1[a0.len() as int] == q);
                assert(a1.no_duplicates()) by {
                    assert forall|i: int, j: int| 0 <= i < j < a1.len() implies a1[i] != a1[j] by {
                        if j == a0.len() {
                            assert(a1[i] == a0[i]);
                            assert(among_first(q0, hd, a0[i]));
                        }
                    }
                }
            }
            visit_neighbours(&mut visited, &mut queue, width, height, cx, cy);
        }
        proof {
            let qn = queue@;
            let an = affected@;
            assert forall|i: int| 0 <= i < an.len() implies among_first(qn, head as int, #[trigger] an[i]) by {
                if i < a0.len() {
                    assert(an[i] == a0[i]);
                    assert(among_first(q0, hd, a0[i]));
                    let j = choose|j: int| 0 <= j < hd && q0[j] == a0[i];
                    assert(qn[j] == an[i]);
                } else {
                    assert(qn[hd] == an[i]);
                }
            }
            assert forall|j: int| 0 <= j < head && in_region(px, w, h, c, pos(#[trigger] qn[j])) implies an.contains(qn[j]) by {
                assert(qn[j] == q0[j]);
                if j < hd {
                    assert(a0.contains(q0[j]));
                    let i = choose|i: int| 0 <= i < a0.len() && a0[i] == q0[j];
                    assert(an[i] == a0[i]);
                } else {
                    assert(an[a0.len() as int] == q);
                }
            }
            assert forall|j: int| 0 <= j < qn.len() implies (#[trigger] qn[j]) == start || exists|i: int|
                0 <= i < an.len() && adjacent4(pos(#[trigger] an[i]), pos(qn[j])) by {
                if j < q0.len() {
                    assert(qn[j] == q0[j]);
                    if q0[j] != start {
                        let i = choose|i: int| 0 <= i < a0.len() && adjacent4(pos(#[trigger] a0[i]), pos(q0[j]));
                        assert(an[i] == a0[i]);
                    }
                } else {
                    assert(an[a0.len() as int] == q);
                    assert(adjacent4(pos(an[a0.len() as int]), pos(qn[j])));
                }
            }
            assert forall|j: int| 0 <= j < head && in_region(px, w, h, c, pos(#[trigger] qn[j])) implies neighbours_queued(
                qn,
                w,
                h,
                qn[j],
            ) by {
                assert(qn[j] == q0[j]);
                if j < hd {
                    assert(in_region(px, w, h, c, pos(q0[j])));
                    assert(neighbours_queued(q0, w, h, q0[j]));
                    let p = q0[j];
                    if p.0 > 0 {
                        let k = choose|k: int| 0 <= k < q0.len() && q0[k] == ((p.0 - 1) as u32, p.1);
                        assert(qn[k] == q0[k]);
                    }
                    if p.0 + 1 < w {
                        let k = choose|k: int| 0 <= k < q0.len() && q0[k] == ((p.0 + 1) as u32, p.1);
                        assert(qn[k] == q0[k]);
                    }
                    if p.1 > 0 {
                        let k = choose|k: int| 0 <= k < q0.len() && q0[k] == (p.0, (p.1 - 1) as u32);
                        assert(qn[k] == q0[k]);
                    }
                    if p.1 + 1 < h {
                        let k = choose|k: int| 0 <= k < q0.len() && q0[k] == (p.0, (p.1 + 1) as u32);
                        assert(qn[k] == q0[k]);
                    }
                }
            }
        }
    }
    proof {
        let qn = queue@;
        let an = affected@;
        assert forall|p: (u32, u32)| connected(px, w, h, c, pos(start), #[trigger] pos(p)) implies an.contains(p) by {
            let path = choose|path: Seq<(int, int)>| #[trigger] is_walk(px, w, h, c, path) && path[0] == pos(start) && path.last() == pos(p);
            assert(qn.contains(start));
            assert forall|p2: (u32, u32)| #[trigger] qn.contains(p2) && in_region(px, w, h, c, pos(p2)) implies neighbours_queued(
                qn,
                w,
                h,
                p2,
            ) by {
                let j = choose|j: int| 0 <= j < qn.len() && qn[j] == p2;
            }
            lemma_walk_stays(px, w, h, c, qn, path);
            assert(in_region(px, w, h, c, path[path.len() - 1]));
            let j = choose|j: int| 0 <= j < qn.len() && qn[j] == p;
            assert(in_region(px, w, h, c, pos(qn[j])));
        }
    }
    affected
}


/// The pixel `(x, y)` of the project's map, if it is one.
pub open spec fn map_pixel(project: ProjectState, x: i32, y: i32) -> Option<(u32, u32)> {
    if 0 <= x < project.width && 0 <= y < project.height {
        Some((x as u32, y as u32))
    } else {
        None
    }
}

/// The kind, terrain and continent a new province cut out of the province with
/// colour `c` takes: those of that province's line, or land, `unknown` and 0.
pub open spec fn inherited(project: ProjectState, c: ProvinceColor) -> (ProvinceKind, Seq<char>, u32) {
    let entries = project.definitions.spec().entries;
    match lookup(project.graph.color_map(), c) {
        Some(id) => match position_of(entries, id) {
            Some(i) => (entries[i].province_type, entries[i].terrain, entries[i].continent),
            None => (ProvinceKind::Land, "unknown"@, 0),
        },
        None => (ProvinceKind::Land, "unknown"@, 0),
    }
}

/// A new province takes over the kind, terrain and continent of the line of the
/// province it is cut out of, found by the id the graph gives its colour; without
/// such a province or line it is land, terrain `unknown`, continent 0.
pub proof fn law_inherits_line(project: ProjectState, c: ProvinceColor, kind: ProvinceKind, terrain: Seq<char>, continent: u32)
    requires
        (kind, terrain, continent) == inherited(project, c),
    ensures
        match lookup(project.graph.color_map(), c) {
            Some(id) => match position_of(project.definitions.spec().entries, id) {
                Some(i) => {
                    &&& kind == project.definitions.spec().entries[i].province_type
                    &&& terrain == project.definitions.spec().entries[i].terrain
                    &&& continent == project.definitions.spec().entries[i].continent
                },
                None => kind == ProvinceKind::Land && terrain == "unknown"@ && continent == 0,
            },
            None => kind == ProvinceKind::Land && terrain == "unknown"@ && continent == 0,
        },
{
}

impl ProjectState {
    /// The province under pixel `(x, y)` and its colour: `None` off the map or where
    /// the graph knows no province of that colour.
    pub fn pick_province_at(&self, x: i32, y: i32) -> (r: Option<(ProvinceId, ProvinceColor)>)
        requires
            buffer_fits(self.pixels@, self.width as nat, self.height as nat),
        ensures
            r == match map_pixel(*self, x, y) {
                Some(p) => {
                    let c = color_at(self.pixels@, self.width as nat, p.0 as int, p.1 as int);
                    match lookup(self.graph.color_map(), c) {
                        Some(id) => Some((id, c)),
                        None => None,
                    }
                },
                None => None,
            },
    {
        if x < 0 || y < 0 || x as i64 >= self.width as i64 || y as i64 >= self.height as i64 {
            return None;
        }
        let px = x as u32;
        let py = y as u32;
        let color = read_pixel(&self.pixels, self.width, self.height, px, py);
        match self.graph.id_from_color(&color) {
            Some(id) => Some((id, color)),
            None => None,
        }
    }

    /// The command that cuts a new province out of the region of pixel `(x, y)`: the
    /// pixels a walk through its colour leads to, a new colour for them, and the kind,
    /// terrain and continent of the province they belong to. `Ok(None)` off the map;
    /// `Err(NoFreeColor)` when no colour is left.
    pub fn new_province_at(&self, x: i32, y: i32) -> (r: Result<Option<NewProvinceCommand>, CommandError>)
        requires
            buffer_fits(self.pixels@, self.width as nat, self.height as nat),
        ensures
            match map_pixel(*self, x, y) {
                None => r == Ok::<Option<NewProvinceCommand>, CommandError>(None),
                Some(p) => {
                    let w = self.width as nat;
                    let h = self.height as nat;
                    let c = color_at(self.pixels@, w, p.0 as int, p.1 as int);
                    let colors = self.definitions.spec().colors;
                    match r {
                        Ok(Some(cmd)) => {
                            &&& allocatable(cmd.new_color.key())
                            &&& !colors.contains_key(cmd.new_color.key())
                            &&& forall|k: u32| allocatable(k) && k < cmd.new_color.key() ==> colors.contains_key(k)
                            &&& cmd.old_color == c
                            &&& (cmd.province_type@, cmd.terrain@, cmd.continent) == inherited(*self, c)
                            &&& match lookup(self.graph.color_map(), c) {
                                Some(id) => match position_of(self.definitions.spec().entries, id) {
                                    Some(i) => {
                                        &&& cmd.province_type@ == self.definitions.spec().entries[i].province_type
                                        &&& cmd.terrain@ == self.definitions.spec().entries[i].terrain
                                        &&& cmd.continent == self.definitions.spec().entries[i].continent
                                    },
                                    None => cmd.province_type@ == ProvinceKind::Land && cmd.terrain@ == "unknown"@ && cmd.continent == 0,
                                },
                                None => cmd.province_type@ == ProvinceKind::Land && cmd.terrain@ == "unknown"@ && cmd.continent == 0,
                            }
                            &&& is_region_of(self.pixels@, w, h, p, cmd.history@)
                            &&& cmd.province_id is None
                        },
                        Ok(None) => false,
                        Err(e) => {
                            &&& e == CommandError::NoFreeColor
                            &&& forall|k: u32| allocatable(k) ==> colors.contains_key(k)
                        },
                    }
                },
            },
    {
        if x < 0 || y < 0 || x as i64 >= self.width as i64 || y as i64 >= self.height as i64 {
            return Ok(None);
        }
        let px = x as u32;
        let py = y as u32;
        let src_color = read_pixel(&self.pixels, self.width, self.height, px, py);
        let existing_id = self.graph.id_from_color(&src_color);
        let (province_type, terrain, continent) = match existing_id {
            Some(id) => {
                proof {
                    lemma_position_of(self.definitions.spec().entries, id);
                }
                match self.definitions.get(id) {
                    Some(def) => (def.province_type.duplicate(), def.terrain.clone(), def.continent),
                    None => (ProvinceType::Land, "unknown".to_owned(), 0u32),
                }
            },
            None => (ProvinceType::Land, "unknown".to_owned(), 0u32),
        };
        let new_color = match self.definitions.allocate_unused_color() {
            Some(c) => c,
            None => {
                return Err(CommandError::NoFreeColor);
            },
        };
        let history = connected_region(&self.pixels, self.width, self.height, px, py);
        Ok(Some(NewProvinceCommand { new_color, old_color: src_color, province_type, terrain, continent, history, province_id: None }))
    }
}


/// Whether some pixel of the map has colour `c`.
pub open spec fn has_color(pixels: Seq<u8>, width: nat, height: nat, c: ProvinceColor) -> bool {
    exists|x: int, y: int| on_map(width, height, x, y) && #[trigger] color_at(pixels, width, x, y) == c
}

impl ProjectState {
    /// Recolours every pixel of colour `from` to `to` and builds the graph anew from the
    /// pixels and the colour lookup of the definitions. Returns whether any pixel changed;
    /// when none did, the project is left as it was.
    pub fn fill_province_color(&mut self, from: ProvinceColor, to: ProvinceColor) -> (changed: bool)
        requires
            buffer_fits(old(self).pixels@, old(self).width as nat, old(self).height as nat),
        ensures
            changed == (from != to && has_color(old(self).pixels@, old(self).width as nat, old(self).height as nat, from)),
            final(self).width == old(self).width,
            final(self).height == old(self).height,
            final(self).definitions == old(self).definitions,
            final(self).project_dir == old(self).project_dir,
            final(self).dirty_rect == old(self).dirty_rect,
            !changed ==> final(self).pixels@ == old(self).pixels@ && final(self).graph == old(self).graph,
            changed ==> {
                let w = old(self).width as nat;
                let h = old(self).height as nat;
                &&& recolored(old(self).pixels@, final(self).pixels@, w, h, from, to)
                &&& final(self).graph.built_from(final(self).pixels@, w, h, old(self).definitions.spec().colors)
            },
    {
        if from == to {
            return false;
        }
        let width = self.width;
        let height = self.height;
        let ghost p0 = *self;
        let ghost px0 = self.pixels@;
        let ghost w = width as nat;
        let ghost h = height as nat;
        let mut changed = false;
        let mut y: u32 = 0;
        while y < height
            invariant
                width == self.width,
                height == self.height,
                w == width,
                h == height,
                y <= height,
                buffer_fits(px0, w, h),
                px0 == p0.pixels@,
                p0 == *old(self),
                from != to,
                self.pixels@.len() == px0.len(),
                self.width == p0.width,
                self.height == p0.height,
                self.definitions == p0.definitions,
                self.project_dir == p0.project_dir,
                self.dirty_rect == p0.dirty_rect,
                self.graph == p0.graph,
                changed == exists|x2: int, y2: int| pixel_before(w, x2, y2, y as int, 0) && #[trigger] color_at(px0, w, x2, y2) == from,
                !changed ==> self.pixels@ == px0,
                forall|x2: int, y2: int| on_map(w, h, x2, y2) ==> #[trigger] color_at(self.pixels@, w, x2, y2) == if pixel_before(w, x2, y2, y as int, 0) && color_at(px0, w, x2, y2) == from {
                    to
                } else {
                    color_at(px0, w, x2, y2)
                },
                forall|i: int| 3 * (w * h) <= i < px0.len() ==> self.pixels@[i] == px0[i],
            decreases height - y,
        {
            let mut x: u32 = 0;
            while x < width
                invariant
                    width == self.width,
                    height == self.height,
                    w == width,
                    h == height,
                    y < height,
                    x <= width,
                    buffer_fits(px0, w, h),
                    px0 == p0.pixels@,
                    p0 == *old(self),
                    from != to,
                    self.pixels@.len() == px0.len(),
                    self.width == p0.width,
                    self.height == p0.height,
                    self.definitions == p0.definitions,
                    self.project_dir == p0.project_dir,
                    self.dirty_rect == p0.dirty_rect,
                    self.graph == p0.graph,
                    changed == exists|x2: int, y2: int| pixel_before(w, x2, y2, y as int, x as int) && #[trigger] color_at(px0, w, x2, y2) == from,
                    !changed ==> self.pixels@ == px0,
                    forall|x2: int, y2: int| on_map(w, h, x2, y2) ==> #[trigger] color_at(self.pixels@, w, x2, y2) == if pixel_before(w, x2, y2, y as int, x as int) && color_at(px0, w, x2, y2) == from {
                        to
                    } else {
                        color_at(px0, w, x2, y2)
                    },
                    forall|i: int| 3 * (w * h) <= i < px0.len() ==> self.pixels@[i] == px0[i],
                decreases width - x,
            {
                let c = read_pixel(&self.pixels, width, height, x, y);
                assert(c == color_at(px0, w, x as int, y as int));
                if c == from {
                    let ghost before = self.pixels@;
                    write_pixel(&mut self.pixels, width, height, x, y, to);
                    proof {
                        lemma_with_pixel(before, w, h, x as int, y as int, to);
                    }
                    changed = true;
                }
                proof {
                    if exists|x2: int, y2: int| pixel_before(w, x2, y2, y as int, x + 1) && #[trigger] color_at(px0, w, x2, y2) == from {
                        let (x2, y2) = choose|x2: int, y2: int| pixel_before(w, x2, y2, y as int, x + 1) && #[trigger] color_at(px0, w, x2, y2) == from;
                        if !(x2 == x && y2 == y) {
                            assert(pixel_before(w, x2, y2, y as int, x as int));
                        }
                    }
                    if c == from {
                        assert(pixel_before(w, x as int, y as int, y as int, x + 1));
                    }
                }
                x = x + 1;
            }
            proof {
                if exists|x2: int, y2: int| pixel_before(w, x2, y2, y + 1, 0) && #[trigger] color_at(px0, w, x2, y2) == from {
                    let (x2, y2) = choose|x2: int, y2: int| pixel_before(w, x2, y2, y + 1, 0) && #[trigger] color_at(px0, w, x2, y2) == from;
                    assert(pixel_before(w, x2, y2, y as int, width as int));
                }
                if changed {
                    let (x2, y2) = choose|x2: int, y2: int| pixel_before(w, x2, y2, y as int, width as int) && #[trigger] color_at(px0, w, x2, y2) == from;
                    assert(pixel_before(w, x2, y2, y + 1, 0));
                }
            }
            y = y + 1;
        }
        proof {
            assert forall|x2: int, y2: int| pixel_before(w, x2, y2, h as int, 0) <==> on_map(w, h, x2, y2) by {}
        }
        if !changed {
            return false;
        }
        self.graph = ProvinceGraph::build_from_pixels(
            self.pixels.as_slice(),
            width,
            height,
            self.definitions.color_id_map(),
        );
        proof {
            assert forall|x2: int, y2: int| on_map(w, h, x2, y2) implies #[trigger] color_at(self.pixels@, w, x2, y2) == if color_at(px0, w, x2, y2) == from {
                to
            } else {
                color_at(px0, w, x2, y2)
            } by {
                assert(pixel_before(w, x2, y2, h as int, 0));
            }
        }
        true
    }
}


/// What the inspector shows of the province under the pointer.
#[derive(Debug)]
pub struct InspectorInfo {
    pub id: ProvinceId,
    pub color: ProvinceColor,
    /// The name of the province's kind, or `不明` when it has no definition line.
    pub province_type: String,
    /// The province's terrain, or `不明` when it has no definition line.
    pub terrain: String,
    /// The number of its pixels, 0 when the graph has no statistics for it.
    pub pixel_count: u32,
    /// The number of provinces next to it.
    pub neighbor_count: usize,
}

impl ProjectState {
    /// What the inspector shows of the province under pixel `(x, y)`, if there is one.
    pub fn inspect_at(&self, x: i32, y: i32) -> (r: Option<InspectorInfo>)
        requires
            buffer_fits(self.pixels@, self.width as nat, self.height as nat),
        ensures
            match map_pixel(*self, x, y) {
                Some(p) => {
                    let c = color_at(self.pixels@, self.width as nat, p.0 as int, p.1 as int);
                    let entries = self.definitions.spec().entries;
                    let stats = self.graph.province_map();
                    let adjacency = self.graph.adjacency_map();
                    match lookup(self.graph.color_map(), c) {
                        Some(id) => r matches Some(info) && {
                            &&& info.id == id
                            &&& info.color == c
                            &&& (info.province_type@, info.terrain@) == match position_of(entries, id) {
                                Some(i) => (kind_name(entries[i].province_type), entries[i].terrain),
                                None => ("不明"@, "不明"@),
                            }
                            &&& info.pixel_count == if stats.contains_key(id) {
                                stats[id].pixel_count
                            } else {
                                0u32
                            }
                            &&& info.neighbor_count == if adjacency.contains_key(id) {
                                adjacency[id].len()
                            } else {
                                0nat
                            }
                        },
                        None => r is None,
                    }
                },
                None => r is None,
            },
    {
        match self.pick_province_at(x, y) {
            None => None,
            Some((id, color)) => {
                proof {
                    lemma_position_of(self.definitions.spec().entries, id);
                }
                let (province_type, terrain) = match self.definitions.get(id) {
                    Some(d) => (d.province_type.as_str().to_owned(), d.terrain.clone()),
                    None => ("不明".to_owned(), "不明".to_owned()),
                };
                let pixel_count = match self.graph.get_province(id) {
                    Some(p) => p.pixel_count,
                    None => 0,
                };
                let neighbor_count = match self.graph.neighbors(id) {
                    Some(n) => n.len(),
                    None => 0,
                };
                Some(InspectorInfo { id, color, province_type, terrain, pixel_count, neighbor_count })
            },
        }
    }
}

} // verus!
