//! Image operations on lake maps: picking out the depth-contour boundaries of
//! a map, and separating a boundary image into its connected dark regions.

use vstd::prelude::*;
use crate::raster::{ImageRGB8, ImageBW, rgb_dims, bw_dims};
use crate::region::{WHITE, idx, point_of, in_bounds, dark, adjacent, connected};

verus! {

/// The colours in which the lake map draws its depth-contour boundaries.
pub open spec fn boundary_colors() -> Seq<(u8, u8, u8)> {
    seq![
        (85u8, 199u8, 251u8),
        (68u8, 189u8, 242u8),
        (52u8, 181u8, 232u8),
        (20u8, 165u8, 213u8),
        (40u8, 172u8, 218u8),
        (4u8, 156u8, 207u8),
        (50u8, 157u8, 185u8),
    ]
}

/// The grey level that thresholding gives a pixel of colour `c`: black (0)
/// for a boundary colour, white (255) for every other.
pub open spec fn threshold_value(c: (u8, u8, u8)) -> u8 {
    if boundary_colors().contains(c) {
        0
    } else {
        255
    }
}

/// Whether `c` is one of `colors`.
fn color_in(colors: &[(u8, u8, u8)], c: (u8, u8, u8)) -> (found: bool)
    ensures
        found == colors@.contains(c),
{
    let mut i: usize = 0;
    while i < colors.len()
        invariant
            0 <= i <= colors@.len(),
            forall|j: int| 0 <= j < i ==> colors@[j] != c,
        decreases colors@.len() - i,
    {
        let d = colors[i];
        if d.0 == c.0 && d.1 == c.1 && d.2 == c.2 {
            assert(colors@[i as int] == c);
            return true;
        }
        i = i + 1;
    }
    false
}

/// The grey-level image of the same size as `image` in which each pixel is
/// black where `image` has one of the boundary colours and white elsewhere.
pub fn threshold_image_luma(image: &ImageRGB8) -> (out: ImageBW)
    ensures
        bw_dims(out) == rgb_dims(*image),
        out.exact(),
        forall|i: int|
            0 <= i < image.w() * image.h() ==> #[trigger] out.samples()[i] == threshold_value(
                image.pixel(i),
            ),
{
    let threshold: [(u8, u8, u8); 7] = [
        (85, 199, 251),
        (68, 189, 242),
        (52, 181, 232),
        (20, 165, 213),
        (40, 172, 218),
        (4, 156, 207),
        (50, 157, 185),
    ];
    assert(threshold@ =~= boundary_colors());
    let (width, height) = image.dimensions();
    proof {
        assert(width * height <= 3 * width * height) by (nonlinear_arith);
    }
    let mut new_im = ImageBW::new(width, height);
    let ghost n: int = width * height;
    let ghost mut k: int = 0;
    let mut y: u32 = 0;
    while y < height
        invariant
            threshold@ == boundary_colors(),
            (width, height) == rgb_dims(*image),
            n == width * height,
            bw_dims(new_im) == (width, height),
            new_im.samples().len() == n,
            0 <= y <= height,
            k == y * width,
            forall|i: int| 0 <= i < k ==> #[trigger] new_im.samples()[i] == threshold_value(image.pixel(i)),
        decreases height - y,
    {
        proof {
            assert(k + width <= n) by (nonlinear_arith)
                requires k == y * width, y < height, n == width * height;
        }
        let mut x: u32 = 0;
        while x < width
            invariant
                threshold@ == boundary_colors(),
                (width, height) == rgb_dims(*image),
                n == width * height,
                bw_dims(new_im) == (width, height),
                new_im.samples().len() == n,
                y < height,
                0 <= x <= width,
                k == y * width + x,
                k <= n - width + x,
                forall|i: int| 0 <= i < k ==> #[trigger] new_im.samples()[i] == threshold_value(image.pixel(i)),
            decreases width - x,
        {
            let px = image.rgb_at(x, y);
            if color_in(&threshold, px) {
                new_im.set_luma(x, y, 0);
            } else {
                new_im.set_luma(x, y, 255);
            }
            proof {
                k = k + 1;
            }
            x = x + 1;
        }
        proof {
            assert(k == (y + 1) * width) by (nonlinear_arith)
                requires k == y * width + width;
        }
        y = y + 1;
    }
    proof {
        assert(k == n) by (nonlinear_arith)
            requires k == height * width, n == width * height;
        assert(image.w() * image.h() == n);
    }
    new_im
}


/// A stack entry as a pixel.
pub open spec fn pt(e: (u32, u32)) -> (int, int) {
    (e.0 as int, e.1 as int)
}

/// Whether the visit flags `vis` of a raster of width `w` mark pixel `p`.
pub open spec fn marked(w: int, vis: Seq<u8>, p: (int, int)) -> bool {
    vis[idx(w, p)] == 1
}

/// Every visit flag is 0 (not visited) or 1 (visited).
pub open spec fn flags(vis: Seq<u8>) -> bool {
    forall|i: int| 0 <= i < vis.len() ==> #[trigger] vis[i] == 0 || vis[i] == 1
}

/// Pixel `q` is dark-connected to `a` through one of its neighbours: it
/// touches a pixel of the dark region of `a`.
pub open spec fn touches(w: int, h: int, s: Seq<u8>, a: (int, int), q: (int, int)) -> bool {
    exists|p: (int, int)| #[trigger] connected(w, h, s, a, p) && adjacent(p, q)
}

/// Pixel `q` stands in `st` above position `k`.
pub open spec fn on_stack_above(st: Seq<(u32, u32)>, k: int, q: (int, int)) -> bool {
    exists|j: int| 0 <= j && k < j < st.len() && #[trigger] pt(st[j]) == q
}

/// The offset of the `k`-th of the eight neighbours, in the order in which
/// they are visited.
pub open spec fn neighbor_delta(k: int) -> (int, int) {
    if k == 0 {
        (-1, -1)
    } else if k == 1 {
        (0, -1)
    } else if k == 2 {
        (1, -1)
    } else if k == 3 {
        (-1, 0)
    } else if k == 4 {
        (1, 0)
    } else if k == 5 {
        (-1, 1)
    } else if k == 6 {
        (0, 1)
    } else {
        (1, 1)
    }
}

/// The `k`-th neighbour of `p`.
pub open spec fn shifted(p: (int, int), k: int) -> (int, int) {
    (p.0 + neighbor_delta(k).0, p.1 + neighbor_delta(k).1)
}

/// The number of pixels not yet visited.
pub open spec fn unmarked_count(vis: Seq<u8>) -> nat
    decreases vis.len(),
{
    if vis.len() == 0 {
        0
    } else {
        unmarked_count(vis.drop_last()) + if vis.last() == 1 {
            0nat
        } else {
            1nat
        }
    }
}

/// Marking a pixel not yet visited lowers the count of those not visited.
proof fn lemma_mark_lowers_count(vis: Seq<u8>, i: int)
    requires
        0 <= i < vis.len(),
        vis[i] != 1,
    ensures
        unmarked_count(vis.update(i, 1)) < unmarked_count(vis),
    decreases vis.len(),
{
    let u = vis.update(i, 1);
    if i == vis.len() - 1 {
        assert(u.drop_last() =~= vis.drop_last());
    } else {
        assert(u.drop_last() =~= vis.drop_last().update(i, 1));
        lemma_mark_lowers_count(vis.drop_last(), i);
    }
}

/// The offset of neighbour `k`.
fn delta(k: usize) -> (d: (i64, i64))
    requires
        k < 8,
    ensures
        d.0 as int == neighbor_delta(k as int).0,
        d.1 as int == neighbor_delta(k as int).1,
{
    if k == 0 {
        (-1, -1)
    } else if k == 1 {
        (0, -1)
    } else if k == 2 {
        (1, -1)
    } else if k == 3 {
        (-1, 0)
    } else if k == 4 {
        (1, 0)
    } else if k == 5 {
        (-1, 1)
    } else if k == 6 {
        (0, 1)
    } else {
        (1, 1)
    }
}

/// Every pixel touching `p` is one of its eight neighbours.
proof fn lemma_adjacent_is_shift(p: (int, int), q: (int, int)) -> (k: int)
    requires
        adjacent(p, q),
    ensures
        0 <= k < 8,
        q == shifted(p, k),
{
    let dx = q.0 - p.0;
    let dy = q.1 - p.1;
    if dy == -1 {
        if dx == -1 { 0 } else if dx == 0 { 1 } else { 2 }
    } else if dy == 0 {
        if dx == -1 { 3 } else { 4 }
    } else {
        if dx == -1 { 5 } else if dx == 0 { 6 } else { 7 }
    }
}

/// Setting the flag of pixel `e` changes the mark of `e` alone.
proof fn lemma_mark_update(w: int, h: int, vis: Seq<u8>, e: (int, int))
    requires
        in_bounds(w, h, e),
        vis.len() >= w * h,
    ensures
        forall|q: (int, int)|
            in_bounds(w, h, q) ==> (#[trigger] marked(w, vis.update(idx(w, e), 1), q) <==> (q == e
                || marked(w, vis, q))),
{
    crate::region::lemma_index(w, h, e);
    assert forall|q: (int, int)| in_bounds(w, h, q) implies (#[trigger] marked(
        w,
        vis.update(idx(w, e), 1),
        q,
    ) <==> (q == e || marked(w, vis, q))) by {
        crate::region::lemma_index(w, h, q);
        if idx(w, q) == idx(w, e) {
            crate::region::lemma_index_injective(w, h, q, e);
        }
    }
}

/// The buffer, `len` samples long, of a `w` by `h` grey-level image holds
/// no sample at the places just below pixel `p` in the row under the image:
/// the buffer's reads there find nothing, as for any place outside.
pub open spec fn nothing_below(w: int, h: int, len: int, p: (int, int)) -> bool {
    p.1 == h - 1 ==> w * h + (if p.0 > 0 { p.0 - 1 } else { 0 }) >= len
}

/// Pushes onto `stack` each in-bounds neighbour of `(ex, ey)` that `visited`
/// does not mark, in the order of `neighbor_delta`.
fn push_neighbors(image: &ImageBW, visited: &ImageBW, stack: &mut Vec<(u32, u32)>, ex: u32, ey: u32)
    requires
        image.samples().len() >= image.w() * image.h(),
        nothing_below(image.w(), image.h(), image.samples().len() as int, (ex as int, ey as int)),
        bw_dims(*visited) == bw_dims(*image),
        ex < image.w(),
        ey < image.h(),
    ensures
        final(stack)@.len() >= old(stack)@.len(),
        final(stack)@.subrange(0, old(stack)@.len() as int) == old(stack)@,
        forall|j: int|
            old(stack)@.len() <= j < final(stack)@.len() ==> {
                let q = #[trigger] pt(final(stack)@[j]);
                &&& in_bounds(image.w(), image.h(), q)
                &&& adjacent((ex as int, ey as int), q)
                &&& !marked(image.w(), visited.samples(), q)
            },
        forall|q: (int, int)|
            in_bounds(image.w(), image.h(), q) && #[trigger] adjacent((ex as int, ey as int), q)
                ==> marked(image.w(), visited.samples(), q) || on_stack_above(
                final(stack)@,
                old(stack)@.len() - 1,
                q,
            ),
{
    let ghost w = image.w();
    let ghost h = image.h();
    let ghost e = (ex as int, ey as int);
    let ghost base = stack@.len();
    let mut k: usize = 0;
    while k < 8
        invariant
            0 <= k <= 8,
            w == image.w(),
            h == image.h(),
            e == (ex as int, ey as int),
            image.samples().len() >= w * h,
            nothing_below(w, h, image.samples().len() as int, e),
            bw_dims(*visited) == bw_dims(*image),
            ex < w,
            ey < h,
            base == old(stack)@.len(),
            stack@.len() >= base,
            stack@.subrange(0, base as int) == old(stack)@,
            forall|j: int|
                base <= j < stack@.len() ==> {
                    let q = #[trigger] pt(stack@[j]);
                    &&& in_bounds(w, h, q)
                    &&& adjacent(e, q)
                    &&& !marked(w, visited.samples(), q)
                },
            forall|i: int|
                0 <= i < k && in_bounds(w, h, #[trigger] shifted(e, i)) ==> marked(
                    w,
                    visited.samples(),
                    shifted(e, i),
                ) || on_stack_above(stack@, base - 1, shifted(e, i)),
        decreases 8 - k,
    {
        let ghost prev = stack@;
        let d = delta(k);
        let nx = ex as i64 + d.0;
        let ny = ey as i64 + d.1;
        if nx < 0 || nx > u32::MAX as i64 {
            k = k + 1;
            continue;
        }
        if ny < 0 || ny > u32::MAX as i64 {
            k = k + 1;
            continue;
        }
        let nx = nx as u32;
        let ny = ny as u32;
        let ghost q = (nx as int, ny as int);
        assert(q == shifted(e, k as int));
        proof {
            if nx < w && ny < h {
                crate::region::lemma_index(w, h, q);
            } else if nx < w {
                assert(ny == h);
                assert(ny * w == w * h) by (nonlinear_arith)
                    requires ny == h;
            }
        }
        match image.luma_at_checked(nx, ny) {
            None => {
                k = k + 1;
                continue;
            },
            Some(_) => {},
        }
        assert(in_bounds(w, h, q));
        if visited.luma_at(nx, ny) == 1 {
            k = k + 1;
            continue;
        }
        stack.push((nx, ny));
        proof {
            assert(pt(stack@[stack@.len() - 1]) == q);
            assert(stack@.subrange(0, base as int) =~= prev.subrange(0, base as int));
            assert forall|i: int|
                0 <= i < k + 1 && in_bounds(w, h, #[trigger] shifted(e, i)) implies marked(
                w,
                visited.samples(),
                shifted(e, i),
            ) || on_stack_above(stack@, base - 1, shifted(e, i)) by {
                if i < k {
                    if !marked(w, visited.samples(), shifted(e, i)) {
                        let j = choose|j: int| 0 <= j && base - 1 < j < prev.len() && #[trigger] pt(prev[j]) == shifted(e, i);
                        assert(pt(stack@[j]) == shifted(e, i));
                    }
                } else {
                    assert(pt(stack@[stack@.len() - 1]) == shifted(e, i));
                }
            }
        }
        k = k + 1;
    }
    proof {
        assert forall|q: (int, int)|
            in_bounds(w, h, q) && #[trigger] adjacent(e, q) implies marked(w, visited.samples(), q)
                || on_stack_above(stack@, base - 1, q) by {
            let i = lemma_adjacent_is_shift(e, q);
            assert(in_bounds(w, h, shifted(e, i)));
        }
    }
}


/// The stack after popping its top entry holds every pixel the stack held,
/// above any position, but the popped one.
proof fn lemma_pop_keeps(old_st: Seq<(u32, u32)>, new_st: Seq<(u32, u32)>, k: int, q: (int, int))
    requires
        old_st.len() > 0,
        new_st == old_st.subrange(0, old_st.len() - 1),
        on_stack_above(old_st, k, q),
    ensures
        on_stack_above(new_st, k, q) || q == pt(old_st[old_st.len() - 1]),
{
    let j = choose|j: int| 0 <= j && k < j < old_st.len() && #[trigger] pt(old_st[j]) == q;
    if j < old_st.len() - 1 {
        assert(pt(new_st[j]) == q);
    }
}

/// A stack that keeps its first `n` entries keeps every pixel standing among them.
proof fn lemma_prefix_keeps(st: Seq<(u32, u32)>, longer: Seq<(u32, u32)>, k: int, q: (int, int))
    requires
        longer.len() >= st.len(),
        longer.subrange(0, st.len() as int) == st,
        on_stack_above(st, k, q),
    ensures
        on_stack_above(longer, k, q),
{
    let j = choose|j: int| 0 <= j && k < j < st.len() && #[trigger] pt(st[j]) == q;
    assert(longer[j] == longer.subrange(0, st.len() as int)[j]);
    assert(pt(longer[j]) == q);
}

/// The flood fill from `s0` visits `q`: `q` is `s0` or touches the dark
/// region of `s0`.
pub open spec fn walk_reaches(w: int, h: int, s: Seq<u8>, s0: (int, int), q: (int, int)) -> bool {
    in_bounds(w, h, q) && (q == s0 || touches(w, h, s, s0, q))
}

/// A pixel other than `a` in the dark region of `a` touches that region.
proof fn lemma_connected_touches(w: int, h: int, s: Seq<u8>, a: (int, int), q: (int, int))
    requires
        connected(w, h, s, a, q),
        q != a,
    ensures
        touches(w, h, s, a, q),
{
    let path = choose|path: Seq<(int, int)>|
        #![trigger crate::region::is_dark_path(w, h, s, path), path[0], path.last()]
        crate::region::is_dark_path(w, h, s, path) && path[0] == a && path.last() == q;
    let n = path.len() as int;
    assert(n >= 2);
    let prefix = path.subrange(0, n - 1);
    assert forall|k: int| 0 <= k < prefix.len() implies dark(w, h, s, #[trigger] prefix[k]) by {
        assert(prefix[k] == path[k]);
    }
    assert forall|k: int| 0 <= k < prefix.len() - 1 implies #[trigger] crate::region::step_ok(prefix, k) by {
        assert(crate::region::step_ok(path, k));
    }
    assert(crate::region::is_dark_path(w, h, s, prefix));
    assert(prefix[0] == a && prefix.last() == path[n - 2]);
    assert(connected(w, h, s, a, path[n - 2]));
    assert(crate::region::step_ok(path, n - 2));
}

/// A dark pixel that the flood fill from `s0` visits lies in the dark region of `s0`.
proof fn lemma_walk_dark_connected(w: int, h: int, s: Seq<u8>, s0: (int, int), q: (int, int))
    requires
        walk_reaches(w, h, s, s0, q),
        dark(w, h, s, q),
    ensures
        connected(w, h, s, s0, q),
{
    if q == s0 {
        crate::region::lemma_connected_refl(w, h, s, q);
    } else {
        let p = choose|p: (int, int)| #[trigger] connected(w, h, s, s0, p) && adjacent(p, q);
        crate::region::lemma_connected_extend(w, h, s, s0, p, q);
    }
}

/// Flood-fills from `(x, y)` through dark pixels of `image` (every value but
/// white), walking the eight neighbours with an explicit stack. Every pixel
/// the walk reaches (the dark region of `(x, y)`, its in-bounds neighbours,
/// and `(x, y)` itself) gets visit flag 1 in `visited`; every other flag keeps
/// its value. The dark region of `(x, y)` is painted black (0) in
/// `write_img`; every other sample keeps its value. The walk treats a pixel
/// flagged 1 as visited, so the region itself must start unflagged.
fn log_pixel(image: &ImageBW, write_img: &mut ImageBW, visited: &mut ImageBW, x: u32, y: u32)
    requires
        image.samples().len() >= image.w() * image.h(),
        forall|q: (int, int)|
            connected(image.w(), image.h(), image.samples(), (x as int, y as int), q) ==> nothing_below(
                image.w(),
                image.h(),
                image.samples().len() as int,
                q,
            ),
        bw_dims(*old(write_img)) == bw_dims(*image),
        old(write_img).samples().len() >= image.w() * image.h(),
        bw_dims(*old(visited)) == bw_dims(*image),
        old(visited).samples().len() >= image.w() * image.h(),
        x < image.w(),
        y < image.h(),
        forall|q: (int, int)|
            connected(image.w(), image.h(), image.samples(), (x as int, y as int), q) ==> !#[trigger] marked(
                image.w(),
                old(visited).samples(),
                q,
            ),
    ensures
        bw_dims(*final(write_img)) == bw_dims(*image),
        final(write_img).samples().len() == old(write_img).samples().len(),
        bw_dims(*final(visited)) == bw_dims(*image),
        final(visited).samples().len() == old(visited).samples().len(),
        forall|q: (int, int)|
            in_bounds(image.w(), image.h(), q) ==> #[trigger] final(visited).samples()[idx(image.w(), q)]
                == if walk_reaches(image.w(), image.h(), image.samples(), (x as int, y as int), q) {
                1u8
            } else {
                old(visited).samples()[idx(image.w(), q)]
            },
        forall|i: int|
            image.w() * image.h() <= i < old(visited).samples().len() ==> #[trigger] final(visited).samples()[i]
                == old(visited).samples()[i],
        forall|q: (int, int)|
            in_bounds(image.w(), image.h(), q) ==> #[trigger] final(write_img).samples()[idx(
                image.w(),
                q,
            )] == if connected(image.w(), image.h(), image.samples(), (x as int, y as int), q) {
                0u8
            } else {
                old(write_img).samples()[idx(image.w(), q)]
            },
        forall|i: int|
            image.w() * image.h() <= i < old(write_img).samples().len() ==> #[trigger] final(write_img).samples()[i]
                == old(write_img).samples()[i],
{
    let ghost w = image.w();
    let ghost h = image.h();
    let ghost s = image.samples();
    let ghost s0 = (x as int, y as int);
    let ghost vis0 = visited.samples();
    let ghost wr0 = write_img.samples();
    let mut stack: Vec<(u32, u32)> = vec![(x, y)];
    proof {
        assert(pt(stack@[0]) == s0);
        if dark(w, h, s, s0) {
            crate::region::lemma_connected_refl(w, h, s, s0);
        }
    }
    while stack.len() > 0
        invariant
            w == image.w(),
            h == image.h(),
            s == image.samples(),
            s.len() >= w * h,
            forall|q: (int, int)| connected(w, h, s, s0, q) ==> nothing_below(w, h, s.len() as int, q),
            bw_dims(*write_img) == bw_dims(*image),
            bw_dims(*visited) == bw_dims(*image),
            visited.samples().len() == vis0.len(),
            write_img.samples().len() == wr0.len(),
            vis0.len() >= w * h,
            wr0.len() >= w * h,
            in_bounds(w, h, s0),
            forall|q: (int, int)| connected(w, h, s, s0, q) ==> !#[trigger] marked(w, vis0, q),
            forall|k: int| 0 <= k < stack@.len() ==> in_bounds(w, h, #[trigger] pt(stack@[k])),
            forall|k: int|
                0 <= k < stack@.len() ==> #[trigger] pt(stack@[k]) == s0 || touches(
                    w,
                    h,
                    s,
                    s0,
                    pt(stack@[k]),
                ),
            forall|q: (int, int)|
                in_bounds(w, h, q) ==> #[trigger] visited.samples()[idx(w, q)] == vis0[idx(w, q)] || (
                visited.samples()[idx(w, q)] == 1 && walk_reaches(w, h, s, s0, q)),
            forall|i: int| w * h <= i < vis0.len() ==> #[trigger] visited.samples()[i] == vis0[i],
            forall|p: (int, int)|
                in_bounds(w, h, p) ==> #[trigger] write_img.samples()[idx(w, p)] == if dark(w, h, s, p)
                    && marked(w, visited.samples(), p) && !marked(w, vis0, p) {
                    0u8
                } else {
                    wr0[idx(w, p)]
                },
            forall|i: int| w * h <= i < wr0.len() ==> #[trigger] write_img.samples()[i] == wr0[i],
            forall|p: (int, int), q: (int, int)|
                #![trigger marked(w, visited.samples(), p), adjacent(p, q)]
                dark(w, h, s, p) && marked(w, visited.samples(), p) && !marked(w, vis0, p)
                    && in_bounds(w, h, q) && adjacent(p, q) ==> marked(w, visited.samples(), q)
                    || on_stack_above(stack@, -1, q),
            forall|k: int, q: (int, int)|
                #![trigger pt(stack@[k]), adjacent(pt(stack@[k]), q)]
                0 <= k < stack@.len() && dark(w, h, s, pt(stack@[k])) && marked(
                    w,
                    visited.samples(),
                    pt(stack@[k]),
                ) && in_bounds(w, h, q) && adjacent(pt(stack@[k]), q) && !marked(
                    w,
                    visited.samples(),
                    q,
                ) ==> on_stack_above(stack@, k, q),
            marked(w, visited.samples(), s0) || on_stack_above(stack@, -1, s0),
        decreases unmarked_count(visited.samples()), stack@.len(),
    {
        let ghost old_stack = stack@;
        let ghost vis = visited.samples();
        let ghost wr = write_img.samples();
        let ghost t = stack@.len() - 1;
        let (ex, ey) = stack.pop().unwrap();
        let ghost e = (ex as int, ey as int);
        let ghost was = marked(w, vis, e);
        proof {
            assert(pt(old_stack[t]) == e);
            assert(walk_reaches(w, h, s, s0, e));
            crate::region::lemma_index(w, h, e);
            lemma_mark_update(w, h, vis, e);
            if was {
                assert(vis.update(idx(w, e), 1) =~= vis);
            } else {
                lemma_mark_lowers_count(vis, idx(w, e));
            }
            assert forall|k: int| 0 <= k < stack@.len() implies stack@[k] == old_stack[k] by {}
        }
        visited.set_luma(ex, ey, 1);
        let ghost vis1 = visited.samples();
        proof {
            assert(vis1 == vis.update(idx(w, e), 1));
            assert forall|q: (int, int)| in_bounds(w, h, q) implies #[trigger] vis1[idx(w, q)] == vis0[idx(
                w,
                q,
            )] || (vis1[idx(w, q)] == 1 && walk_reaches(w, h, s, s0, q)) by {
                crate::region::lemma_index(w, h, q);
                if q != e {
                    if idx(w, q) == idx(w, e) {
                        crate::region::lemma_index_injective(w, h, q, e);
                    }
                    assert(vis1[idx(w, q)] == vis[idx(w, q)]);
                }
            }
            assert forall|i: int| w * h <= i < vis0.len() implies #[trigger] vis1[i] == vis0[i] by {
                assert(vis1[i] == vis[i]);
            }
            assert forall|k: int, q: (int, int)| on_stack_above(old_stack, k, q) && q != e implies on_stack_above(
                stack@,
                k,
                q,
            ) by {
                lemma_pop_keeps(old_stack, stack@, k, q);
            }
        }
        let pix = match image.luma_at_checked(ex, ey) {
            None => {
                continue;
            },
            Some(pix) => pix,
        };
        if pix == 255 {
            proof {
                assert(!dark(w, h, s, e));
                assert forall|p: (int, int)| in_bounds(w, h, p) implies #[trigger] write_img.samples()[idx(
                    w,
                    p,
                )] == if dark(w, h, s, p) && marked(w, vis1, p) && !marked(w, vis0, p) {
                    0u8
                } else {
                    wr0[idx(w, p)]
                } by {
                    if p != e {
                        assert(marked(w, vis1, p) == marked(w, vis, p));
                    }
                }
                assert forall|p: (int, int), q: (int, int)|
                    #![trigger marked(w, visited.samples(), p), adjacent(p, q)]
                    dark(w, h, s, p) && marked(w, visited.samples(), p) && !marked(w, vis0, p)
                        && in_bounds(w, h, q) && adjacent(p, q) implies marked(w, visited.samples(), q)
                        || on_stack_above(stack@, -1, q) by {
                    assert(p != e);
                    assert(marked(w, vis, p));
                    if !marked(w, visited.samples(), q) {
                        assert(marked(w, vis, p) && adjacent(p, q));
                        assert(on_stack_above(old_stack, -1, q));
                    }
                }
                assert forall|k: int, q: (int, int)|
                    #![trigger pt(stack@[k]), adjacent(pt(stack@[k]), q)]
                    0 <= k < stack@.len() && dark(w, h, s, pt(stack@[k])) && marked(
                        w,
                        visited.samples(),
                        pt(stack@[k]),
                    ) && in_bounds(w, h, q) && adjacent(pt(stack@[k]), q) && !marked(
                        w,
                        visited.samples(),
                        q,
                    ) implies on_stack_above(stack@, k, q) by {
                    assert(stack@[k] == old_stack[k]);
                    assert(pt(old_stack[k]) != e);
                    assert(adjacent(pt(old_stack[k]), q));
                    assert(on_stack_above(old_stack, k, q));
                }
            }
            continue;
        }
        proof {
            assert(dark(w, h, s, e));
            lemma_walk_dark_connected(w, h, s, s0, e);
            assert(!marked(w, vis0, e));
        }
        write_img.set_luma(ex, ey, 0);
        let ghost popped = stack@;
        push_neighbors(image, visited, &mut stack, ex, ey);
        proof {
            let wr1 = write_img.samples();
            assert(wr1 == wr.update(idx(w, e), 0));
            assert forall|k: int| 0 <= k < popped.len() implies stack@[k] == popped[k] by {
                assert(stack@[k] == stack@.subrange(0, popped.len() as int)[k]);
            }
            if was {
                assert forall|q: (int, int)| in_bounds(w, h, q) && adjacent(e, q) implies marked(w, vis, q) by {
                    assert(adjacent(pt(old_stack[t]), q));
                    if !marked(w, vis, q) {
                        assert(on_stack_above(old_stack, t, q));
                    }
                }
                assert(stack@.len() == popped.len()) by {
                    if stack@.len() > popped.len() {
                        let q = pt(stack@[popped.len() as int]);
                        assert(in_bounds(w, h, q) && adjacent(e, q));
                    }
                }
            }
            assert forall|k: int| 0 <= k < stack@.len() implies #[trigger] pt(stack@[k]) == s0 || touches(
                w,
                h,
                s,
                s0,
                pt(stack@[k]),
            ) by {
                if k >= popped.len() {
                    assert(connected(w, h, s, s0, e) && adjacent(e, pt(stack@[k])));
                } else {
                    assert(stack@[k] == old_stack[k]);
                }
            }
            assert forall|k: int| 0 <= k < stack@.len() implies in_bounds(w, h, #[trigger] pt(stack@[k])) by {
                if k < popped.len() {
                    assert(stack@[k] == old_stack[k]);
                }
            }
            assert forall|p: (int, int)| in_bounds(w, h, p) implies #[trigger] wr1[idx(w, p)] == if dark(w, h, s, p)
                && marked(w, vis1, p) && !marked(w, vis0, p) {
                0u8
            } else {
                wr0[idx(w, p)]
            } by {
                crate::region::lemma_index(w, h, p);
                if p != e {
                    if idx(w, p) == idx(w, e) {
                        crate::region::lemma_index_injective(w, h, p, e);
                    }
                    assert(marked(w, vis1, p) == marked(w, vis, p));
                }
            }
            assert forall|i: int| w * h <= i < wr0.len() implies #[trigger] wr1[i] == wr0[i] by {
                assert(wr1[i] == wr[i]);
            }
            assert forall|p: (int, int), q: (int, int)|
                #![trigger marked(w, vis1, p), adjacent(p, q)]
                dark(w, h, s, p) && marked(w, vis1, p) && !marked(w, vis0, p) && in_bounds(w, h, q)
                    && adjacent(p, q) implies marked(w, vis1, q) || on_stack_above(stack@, -1, q) by {
                if p == e {
                    if !marked(w, vis1, q) {
                        assert(on_stack_above(stack@, popped.len() - 1, q));
                        let j = choose|j: int| 0 <= j && popped.len() - 1 < j < stack@.len() && #[trigger] pt(stack@[j]) == q;
                        assert(-1 < j);
                    }
                } else {
                    assert(marked(w, vis, p));
                    if !marked(w, vis1, q) {
                        assert(marked(w, vis, p) && adjacent(p, q));
                        assert(on_stack_above(old_stack, -1, q));
                        assert(on_stack_above(popped, -1, q));
                        lemma_prefix_keeps(popped, stack@, -1, q);
                    }
                }
            }
            assert forall|k: int, q: (int, int)|
                #![trigger pt(stack@[k]), adjacent(pt(stack@[k]), q)]
                0 <= k < stack@.len() && dark(w, h, s, pt(stack@[k])) && marked(w, vis1, pt(stack@[k]))
                    && in_bounds(w, h, q) && adjacent(pt(stack@[k]), q) && !marked(w, vis1, q)
                    implies on_stack_above(stack@, k, q) by {
                if k >= popped.len() {
                    assert(!marked(w, vis1, pt(stack@[k])));
                } else {
                    assert(stack@[k] == old_stack[k]);
                    if pt(stack@[k]) == e {
                        assert(on_stack_above(stack@, popped.len() - 1, q));
                        let j = choose|j: int| 0 <= j && popped.len() - 1 < j < stack@.len() && #[trigger] pt(stack@[j]) == q;
                        assert(k < j);
                    } else {
                        assert(marked(w, vis, pt(old_stack[k])));
                        assert(adjacent(pt(old_stack[k]), q));
                        assert(on_stack_above(old_stack, k, q));
                        assert(on_stack_above(popped, k, q));
                        lemma_prefix_keeps(popped, stack@, k, q);
                    }
                }
            }
            if !marked(w, vis1, s0) {
                assert(on_stack_above(popped, -1, s0));
                lemma_prefix_keeps(popped, stack@, -1, s0);
            }
        }
    }
    proof {
        let vis = visited.samples();
        let inside = |p: (int, int)| marked(w, vis, p) && connected(w, h, s, s0, p);
        assert(marked(w, vis, s0));
        assert forall|p: (int, int), q: (int, int)|
            #![trigger inside(p), adjacent(p, q), inside(q)]
            dark(w, h, s, p) && dark(w, h, s, q) && adjacent(p, q) && inside(p) implies inside(q) by {
            crate::region::lemma_connected_extend(w, h, s, s0, p, q);
            assert(!marked(w, vis0, p));
            assert(marked(w, vis, p) && adjacent(p, q));
        }
        assert(crate::region::closed_under(w, h, s, inside));
        assert forall|q: (int, int)| connected(w, h, s, s0, q) implies marked(w, vis, q) by {
            crate::region::lemma_connected_ends_dark(w, h, s, s0, q);
            crate::region::lemma_connected_refl(w, h, s, s0);
            crate::region::lemma_closed_reaches(w, h, s, inside, s0, q);
        }
        assert forall|q: (int, int)| in_bounds(w, h, q) implies #[trigger] vis[idx(w, q)] == if walk_reaches(
            w,
            h,
            s,
            s0,
            q,
        ) {
            1u8
        } else {
            vis0[idx(w, q)]
        } by {
            if walk_reaches(w, h, s, s0, q) && q != s0 {
                let p = choose|p: (int, int)| #[trigger] connected(w, h, s, s0, p) && adjacent(p, q);
                crate::region::lemma_connected_ends_dark(w, h, s, s0, p);
                assert(marked(w, vis, p));
                assert(!marked(w, vis0, p));
                assert(marked(w, vis, p) && adjacent(p, q));
            }
        }
        assert forall|q: (int, int)| in_bounds(w, h, q) implies #[trigger] write_img.samples()[idx(w, q)] == if connected(
            w,
            h,
            s,
            s0,
            q,
        ) {
            0u8
        } else {
            wr0[idx(w, q)]
        } by {
            if connected(w, h, s, s0, q) {
                crate::region::lemma_connected_ends_dark(w, h, s, s0, q);
            }
            if dark(w, h, s, q) && marked(w, vis, q) && !marked(w, vis0, q) {
                assert(vis[idx(w, q)] != vis0[idx(w, q)]);
                lemma_walk_dark_connected(w, h, s, s0, q);
            }
        }
    }
}

/// Pixel `q` lies in the dark region of a black (0) pixel whose row-major
/// index is below `k`.
pub open spec fn reached_before(w: int, h: int, s: Seq<u8>, k: int, q: (int, int)) -> bool {
    exists|t: (int, int)|
        in_bounds(w, h, t) && idx(w, t) < k && s[idx(w, t)] == 0 && #[trigger] connected(w, h, s, t, q)
}

/// The buffer `s` of a `w` by `h` grey-level image holds every pixel, and no
/// dark region of a black pixel has, in its bottom row, a pixel with a
/// sample just below it past the image's pixels.
pub open spec fn regions_in_buffer(w: int, h: int, s: Seq<u8>) -> bool {
    &&& s.len() >= w * h
    &&& forall|t: (int, int), q: (int, int)|
        in_bounds(w, h, t) && s[idx(w, t)] == 0 && #[trigger] connected(w, h, s, t, q) ==> nothing_below(
            w,
            h,
            s.len() as int,
            q,
        )
}

/// Pixel `p` is black and is the first black pixel of its dark region in
/// row-major order.
pub open spec fn starts_region(w: int, h: int, s: Seq<u8>, p: (int, int)) -> bool {
    s[idx(w, p)] == 0 && !reached_before(w, h, s, idx(w, p), p)
}

/// The pixels with row-major index below `k` that start a region, in order.
pub open spec fn seeds_upto(w: int, h: int, s: Seq<u8>, k: nat) -> Seq<(int, int)>
    decreases k,
{
    if k == 0 {
        seq![]
    } else {
        let prev = seeds_upto(w, h, s, (k - 1) as nat);
        let p = point_of(w, k - 1);
        if starts_region(w, h, s, p) {
            prev.push(p)
        } else {
            prev
        }
    }
}

/// The first black pixel of each dark region that holds a black pixel, in
/// row-major order.
pub open spec fn region_seeds(w: int, h: int, s: Seq<u8>) -> Seq<(int, int)> {
    seeds_upto(w, h, s, (w * h) as nat)
}

/// The image of the dark region of `a`: black (0) on the region, white (255)
/// elsewhere.
pub open spec fn region_mask(w: int, h: int, s: Seq<u8>, a: (int, int)) -> Seq<u8> {
    Seq::new(
        (w * h) as nat,
        |i: int|
            if connected(w, h, s, a, point_of(w, i)) {
                0u8
            } else {
                255u8
            },
    )
}

/// Passing the pixel with index `k` adds its region to those reached, if it is black.
proof fn lemma_reached_step(w: int, h: int, s: Seq<u8>, p: (int, int), q: (int, int))
    requires
        in_bounds(w, h, p),
    ensures
        reached_before(w, h, s, idx(w, p) + 1, q) <==> reached_before(w, h, s, idx(w, p), q) || (s[idx(w, p)]
            == 0 && connected(w, h, s, p, q)),
{
    let k = idx(w, p);
    if reached_before(w, h, s, k + 1, q) {
        let t = choose|t: (int, int)|
            in_bounds(w, h, t) && idx(w, t) < k + 1 && s[idx(w, t)] == 0 && #[trigger] connected(w, h, s, t, q);
        if idx(w, t) == k {
            crate::region::lemma_index_injective(w, h, t, p);
        } else {
            assert(reached_before(w, h, s, k, q));
        }
    }
    if s[k] == 0 && connected(w, h, s, p, q) {
        assert(idx(w, p) < k + 1);
        assert(reached_before(w, h, s, k + 1, q));
    }
    if reached_before(w, h, s, k, q) {
        let t = choose|t: (int, int)|
            in_bounds(w, h, t) && idx(w, t) < k && s[idx(w, t)] == 0 && #[trigger] connected(w, h, s, t, q);
        assert(idx(w, t) < k + 1);
    }
}

/// Splits a grey-level image into its dark regions (connected through the
/// eight neighbours; dark is every value but white). Walking the pixels row
/// by row, each black (0) pixel not yet reached starts a new region; the
/// result holds, in that order, one image per region, black on the region and
/// white elsewhere.
pub fn separate_image(image: &ImageBW) -> (images: Vec<ImageBW>)
    requires
        regions_in_buffer(image.w(), image.h(), image.samples()),
    ensures
        images@.len() == region_seeds(image.w(), image.h(), image.samples()).len(),
        forall|j: int|
            0 <= j < images@.len() ==> bw_dims(#[trigger] images@[j]) == bw_dims(*image)
                && images@[j].samples() == region_mask(
                image.w(),
                image.h(),
                image.samples(),
                region_seeds(image.w(), image.h(), image.samples())[j],
            ),
{
    let ghost w = image.w();
    let ghost h = image.h();
    let ghost s = image.samples();
    let mut images: Vec<ImageBW> = Vec::new();
    let mut visited = ImageBW::new(image.width(), image.height());
    visited.fill(0);
    let width = image.width();
    let height = image.height();
    proof {
        assert forall|q: (int, int)| dark(w, h, s, q) implies (#[trigger] marked(w, visited.samples(), q)
            <==> reached_before(w, h, s, 0, q)) by {
            crate::region::lemma_index(w, h, q);
        }
    }
    let ghost mut k: int = 0;
    let mut y: u32 = 0;
    while y < height
        invariant
            w == image.w(),
            h == image.h(),
            s == image.samples(),
            regions_in_buffer(w, h, s),
            width == w,
            height == h,
            0 <= y <= height,
            k == y * w,
            bw_dims(visited) == bw_dims(*image),
            visited.exact(),
            flags(visited.samples()),
            forall|q: (int, int)|
                dark(w, h, s, q) ==> (#[trigger] marked(w, visited.samples(), q) <==> reached_before(
                    w,
                    h,
                    s,
                    k,
                    q,
                )),
            images@.len() == seeds_upto(w, h, s, k as nat).len(),
            forall|j: int|
                0 <= j < images@.len() ==> bw_dims(#[trigger] images@[j]) == bw_dims(*image)
                    && images@[j].samples() == region_mask(w, h, s, seeds_upto(w, h, s, k as nat)[j]),
        decreases height - y,
    {
        let mut x: u32 = 0;
        while x < width
            invariant
                w == image.w(),
                h == image.h(),
                s == image.samples(),
                regions_in_buffer(w, h, s),
                width == w,
                height == h,
                y < height,
                0 <= x <= width,
                k == y * w + x,
                bw_dims(visited) == bw_dims(*image),
                visited.exact(),
                flags(visited.samples()),
                    forall|q: (int, int)|
                    dark(w, h, s, q) ==> (#[trigger] marked(w, visited.samples(), q) <==> reached_before(
                        w,
                        h,
                        s,
                        k,
                        q,
                    )),
                images@.len() == seeds_upto(w, h, s, k as nat).len(),
                forall|j: int|
                    0 <= j < images@.len() ==> bw_dims(#[trigger] images@[j]) == bw_dims(*image)
                        && images@[j].samples() == region_mask(w, h, s, seeds_upto(w, h, s, k as nat)[j]),
            decreases width - x,
        {
            let ghost p = (x as int, y as int);
            let ghost seeds = seeds_upto(w, h, s, k as nat);
            proof {
                crate::region::lemma_index(w, h, p);
                assert(idx(w, p) == k);
                assert(point_of(w, k) == p);
                assert forall|q: (int, int)| #[trigger] reached_before(w, h, s, k + 1, q) <==> reached_before(w, h, s, k, q)
                    || (s[k] == 0 && connected(w, h, s, p, q)) by {
                    lemma_reached_step(w, h, s, p, q);
                }
                assert(seeds_upto(w, h, s, (k + 1) as nat) == if starts_region(w, h, s, p) {
                    seeds.push(p)
                } else {
                    seeds
                });
            }
            let px = image.luma_at(x, y);
            if px == 0 && visited.luma_at(x, y) == 0 {
                proof {
                    assert(dark(w, h, s, p));
                    assert(!marked(w, visited.samples(), p));
                    assert(starts_region(w, h, s, p));
                }
                let mut im2 = ImageBW::new(image.width(), image.height());
                im2.fill(255);
                let ghost before = visited.samples();
                let ghost blank = im2.samples();
                proof {
                    assert forall|q: (int, int)| connected(w, h, s, p, q) implies !#[trigger] marked(w, before, q) by {
                        crate::region::lemma_connected_ends_dark(w, h, s, p, q);
                        if marked(w, before, q) {
                            assert(reached_before(w, h, s, k, q));
                            let t = choose|t: (int, int)|
                                in_bounds(w, h, t) && idx(w, t) < k && s[idx(w, t)] == 0 && #[trigger] connected(w, h, s, t, q);
                            crate::region::lemma_connected_symm(w, h, s, p, q);
                            crate::region::lemma_connected_trans(w, h, s, t, q, p);
                            assert(reached_before(w, h, s, k, p));
                        }
                    }
                }
                log_pixel(image, &mut im2, &mut visited, x, y);
                proof {
                    assert forall|i: int| 0 <= i < visited.samples().len() implies #[trigger] visited.samples()[i] == 0
                        || visited.samples()[i] == 1 by {
                        crate::region::lemma_point_of(w, h, i);
                        assert(before[i] == 0 || before[i] == 1);
                    }
                    assert(im2.samples() =~= region_mask(w, h, s, p)) by {
                        assert forall|i: int| 0 <= i < w * h implies #[trigger] im2.samples()[i] == region_mask(
                            w,
                            h,
                            s,
                            p,
                        )[i] by {
                            crate::region::lemma_point_of(w, h, i);
                            let q = point_of(w, i);
                            assert(im2.samples()[idx(w, q)] == if connected(w, h, s, p, q) {
                                0u8
                            } else {
                                blank[idx(w, q)]
                            });
                        }
                    }
                    assert forall|q: (int, int)| dark(w, h, s, q) implies (#[trigger] marked(
                        w,
                        visited.samples(),
                        q,
                    ) <==> reached_before(w, h, s, k + 1, q)) by {
                        assert(marked(w, before, q) <==> reached_before(w, h, s, k, q));
                        assert(reached_before(w, h, s, k + 1, q) <==> reached_before(w, h, s, k, q)
                            || (s[k] == 0 && connected(w, h, s, p, q)));
                        if connected(w, h, s, p, q) && q != p {
                            lemma_connected_touches(w, h, s, p, q);
                        }
                        if walk_reaches(w, h, s, p, q) {
                            lemma_walk_dark_connected(w, h, s, p, q);
                        }
                    }
                }
                images.push(im2);
                proof {
                    let seeds1 = seeds_upto(w, h, s, (k + 1) as nat);
                    assert(seeds1 == seeds.push(p));
                    assert forall|j: int| 0 <= j < images@.len() implies bw_dims(#[trigger] images@[j]) == bw_dims(*image)
                        && images@[j].samples() == region_mask(w, h, s, seeds1[j]) by {
                        if j < images@.len() - 1 {
                            assert(seeds1[j] == seeds[j]);
                        }
                    }
                }
            } else {
                proof {
                    if px == 0 {
                        assert(dark(w, h, s, p));
                        assert(marked(w, visited.samples(), p));
                        assert(reached_before(w, h, s, k, p));
                        assert(!starts_region(w, h, s, p));
                        assert forall|q: (int, int)| connected(w, h, s, p, q) implies reached_before(w, h, s, k, q) by {
                            let t = choose|t: (int, int)|
                                in_bounds(w, h, t) && idx(w, t) < k && s[idx(w, t)] == 0 && #[trigger] connected(w, h, s, t, p);
                            crate::region::lemma_connected_trans(w, h, s, t, p, q);
                        }
                    }
                    assert forall|q: (int, int)| dark(w, h, s, q) implies (#[trigger] marked(
                        w,
                        visited.samples(),
                        q,
                    ) <==> reached_before(w, h, s, k + 1, q)) by {
                        assert(reached_before(w, h, s, k + 1, q) <==> reached_before(w, h, s, k, q)
                            || (s[k] == 0 && connected(w, h, s, p, q)));
                    }
                }
            }
            proof {
                k = k + 1;
            }
            x = x + 1;
        }
        proof {
            assert(k == (y + 1) * w) by (nonlinear_arith)
                requires k == y * w + w;
        }
        y = y + 1;
    }
    proof {
        assert(k == w * h) by (nonlinear_arith)
            requires k == h * w;
    }
    images
}


/// The seeds found below index `k` start regions, lie in the raster below
/// `k`, come in increasing row-major order, and include every pixel below
/// `k` that starts a region.
proof fn lemma_seeds_upto(w: int, h: int, s: Seq<u8>, k: nat)
    requires
        w > 0,
        h >= 0,
        k <= w * h,
    ensures
        forall|j: int|
            0 <= j < seeds_upto(w, h, s, k).len() ==> {
                let p = #[trigger] seeds_upto(w, h, s, k)[j];
                &&& in_bounds(w, h, p)
                &&& idx(w, p) < k
                &&& starts_region(w, h, s, p)
            },
        forall|j1: int, j2: int|
            0 <= j1 < j2 < seeds_upto(w, h, s, k).len() ==> idx(w, #[trigger] seeds_upto(w, h, s, k)[j1])
                < idx(w, #[trigger] seeds_upto(w, h, s, k)[j2]),
        forall|p: (int, int)|
            in_bounds(w, h, p) && idx(w, p) < k && #[trigger] starts_region(w, h, s, p) ==> seeds_upto(
                w,
                h,
                s,
                k,
            ).contains(p),
    decreases k,
{
    if k > 0 {
        let k1 = (k - 1) as nat;
        lemma_seeds_upto(w, h, s, k1);
        let prev = seeds_upto(w, h, s, k1);
        let p = point_of(w, k1 as int);
        crate::region::lemma_point_of(w, h, k1 as int);
        assert forall|q: (int, int)|
            in_bounds(w, h, q) && idx(w, q) < k && #[trigger] starts_region(w, h, s, q) implies seeds_upto(
            w,
            h,
            s,
            k,
        ).contains(q) by {
            if idx(w, q) == k1 {
                crate::region::lemma_index_injective(w, h, q, p);
                assert(seeds_upto(w, h, s, k).last() == q);
            } else {
                let j = choose|j: int| 0 <= j < prev.len() && prev[j] == q;
                assert(seeds_upto(w, h, s, k)[j] == q);
            }
        }
    }
}

/// Distinct regions that separation finds share no pixel.
pub proof fn lemma_regions_disjoint(w: int, h: int, s: Seq<u8>, j1: int, j2: int)
    requires
        w >= 0,
        h >= 0,
        0 <= j1 < j2 < region_seeds(w, h, s).len(),
    ensures
        forall|i: int|
            0 <= i < w * h ==> !(#[trigger] region_mask(w, h, s, region_seeds(w, h, s)[j1])[i] == 0
                && region_mask(w, h, s, region_seeds(w, h, s)[j2])[i] == 0),
{
    if w == 0 {
        assert(w * h == 0);
        assert(region_seeds(w, h, s).len() == 0);
    } else {
        lemma_seeds_upto(w, h, s, (w * h) as nat);
        let a = region_seeds(w, h, s)[j1];
        let b = region_seeds(w, h, s)[j2];
        assert(idx(w, a) < idx(w, b));
        assert forall|i: int| 0 <= i < w * h implies !(#[trigger] region_mask(w, h, s, a)[i] == 0
            && region_mask(w, h, s, b)[i] == 0) by {
            let q = point_of(w, i);
            if connected(w, h, s, a, q) && connected(w, h, s, b, q) {
                crate::region::lemma_connected_symm(w, h, s, b, q);
                crate::region::lemma_connected_trans(w, h, s, a, q, b);
                assert(starts_region(w, h, s, a));
                assert(reached_before(w, h, s, idx(w, b), b));
            }
        }
    }
}

/// Every black (0) pixel of the image is black in the image of some region
/// that separation finds.
pub proof fn lemma_black_pixels_covered(w: int, h: int, s: Seq<u8>, q: (int, int))
    requires
        in_bounds(w, h, q),
        s.len() == w * h,
        s[idx(w, q)] == 0,
    ensures
        exists|j: int|
            0 <= j < region_seeds(w, h, s).len() && #[trigger] region_mask(w, h, s, region_seeds(w, h, s)[j])[idx(
                w,
                q,
            )] == 0,
{
    crate::region::lemma_index(w, h, q);
    lemma_seeds_upto(w, h, s, (w * h) as nat);
    let seeds = region_seeds(w, h, s);
    let a = lemma_black_pixel_seed(w, h, s, q);
    crate::region::lemma_index(w, h, a);
    assert(seeds.contains(a));
    let j = choose|j: int| 0 <= j < seeds.len() && seeds[j] == a;
    assert(point_of(w, idx(w, q)) == q);
    assert(region_mask(w, h, s, seeds[j])[idx(w, q)] == 0);
}

/// The first black pixel of the region of a black pixel `q`: it starts a
/// region, and `q` lies in that region.
proof fn lemma_black_pixel_seed(w: int, h: int, s: Seq<u8>, q: (int, int)) -> (a: (int, int))
    requires
        in_bounds(w, h, q),
        s.len() == w * h,
        s[idx(w, q)] == 0,
    ensures
        in_bounds(w, h, a),
        starts_region(w, h, s, a),
        connected(w, h, s, a, q),
    decreases idx(w, q),
{
    crate::region::lemma_index(w, h, q);
    if starts_region(w, h, s, q) {
        crate::region::lemma_connected_refl(w, h, s, q);
        q
    } else {
        let t = choose|t: (int, int)|
            in_bounds(w, h, t) && idx(w, t) < idx(w, q) && s[idx(w, t)] == 0 && #[trigger] connected(w, h, s, t, q);
        crate::region::lemma_index(w, h, t);
        let a = lemma_black_pixel_seed(w, h, s, t);
        crate::region::lemma_connected_trans(w, h, s, a, t, q);
        a
    }
}

/// The black pixels of each region image are dark pixels of the image.
pub proof fn lemma_region_pixels_dark(w: int, h: int, s: Seq<u8>, j: int, i: int)
    requires
        w > 0,
        h >= 0,
        0 <= j < region_seeds(w, h, s).len(),
        0 <= i < w * h,
        region_mask(w, h, s, region_seeds(w, h, s)[j])[i] == 0,
    ensures
        s[i] != WHITE,
{
    crate::region::lemma_point_of(w, h, i);
    crate::region::lemma_connected_ends_dark(w, h, s, region_seeds(w, h, s)[j], point_of(w, i));
}

/// On an image of black and white pixels only (such as a thresholded map),
/// separation partitions the black pixels: each black pixel is black in
/// exactly one region image, and each pixel black in a region image is black.
pub proof fn lemma_binary_partition(w: int, h: int, s: Seq<u8>, i: int)
    requires
        w > 0,
        h >= 0,
        s.len() == w * h,
        forall|k: int| 0 <= k < s.len() ==> #[trigger] s[k] == 0 || s[k] == WHITE,
        0 <= i < w * h,
    ensures
        s[i] == 0 <==> exists|j: int|
            0 <= j < region_seeds(w, h, s).len() && #[trigger] region_mask(w, h, s, region_seeds(w, h, s)[j])[i]
                == 0,
        forall|j1: int, j2: int|
            0 <= j1 < region_seeds(w, h, s).len() && 0 <= j2 < region_seeds(w, h, s).len()
                && #[trigger] region_mask(w, h, s, region_seeds(w, h, s)[j1])[i] == 0
                && #[trigger] region_mask(w, h, s, region_seeds(w, h, s)[j2])[i] == 0 ==> j1 == j2,
{
    crate::region::lemma_point_of(w, h, i);
    let q = point_of(w, i);
    if s[i] == 0 {
        lemma_black_pixels_covered(w, h, s, q);
    }
    if exists|j: int|
        0 <= j < region_seeds(w, h, s).len() && #[trigger] region_mask(w, h, s, region_seeds(w, h, s)[j])[i] == 0 {
        let j = choose|j: int|
            0 <= j < region_seeds(w, h, s).len() && #[trigger] region_mask(w, h, s, region_seeds(w, h, s)[j])[i] == 0;
        lemma_region_pixels_dark(w, h, s, j, i);
    }
    assert forall|j1: int, j2: int|
        0 <= j1 < region_seeds(w, h, s).len() && 0 <= j2 < region_seeds(w, h, s).len()
            && #[trigger] region_mask(w, h, s, region_seeds(w, h, s)[j1])[i] == 0
            && #[trigger] region_mask(w, h, s, region_seeds(w, h, s)[j2])[i] == 0 implies j1 == j2 by {
        if j1 < j2 {
            lemma_regions_disjoint(w, h, s, j1, j2);
        } else if j2 < j1 {
            lemma_regions_disjoint(w, h, s, j2, j1);
        }
    }
}

/// Thresholding gives an image of black and white pixels only.
pub proof fn lemma_threshold_is_binary(c: (u8, u8, u8))
    ensures
        threshold_value(c) == 0 || threshold_value(c) == WHITE,
{
}

/// Thresholding makes a pixel black exactly when its colour is one of the
/// seven colours of the map's depth-contour boundaries, and white for every
/// other colour.
pub proof fn lemma_threshold_black_exactly_on_boundaries(c: (u8, u8, u8))
    ensures
        threshold_value(c) == 0 <==> (c == (85u8, 199u8, 251u8) || c == (68u8, 189u8, 242u8) || c == (
            52u8,
            181u8,
            232u8,
        ) || c == (20u8, 165u8, 213u8) || c == (40u8, 172u8, 218u8) || c == (4u8, 156u8, 207u8) || c == (
            50u8,
            157u8,
            185u8,
        )),
        threshold_value(c) == 255 <==> !(c == (85u8, 199u8, 251u8) || c == (68u8, 189u8, 242u8) || c == (
            52u8,
            181u8,
            232u8,
        ) || c == (20u8, 165u8, 213u8) || c == (40u8, 172u8, 218u8) || c == (4u8, 156u8, 207u8) || c == (
            50u8,
            157u8,
            185u8,
        )),
{
    let b = boundary_colors();
    assert(b.len() == 7);
    if b.contains(c) {
        let i = choose|i: int| 0 <= i < b.len() && b[i] == c;
        assert(i == 0 || i == 1 || i == 2 || i == 3 || i == 4 || i == 5 || i == 6);
    }
    if c == b[0] || c == b[1] || c == b[2] || c == b[3] || c == b[4] || c == b[5] || c == b[6] {
        if c == b[0] { assert(b.contains(c)); }
        if c == b[1] { assert(b.contains(c)); }
        if c == b[2] { assert(b.contains(c)); }
        if c == b[3] { assert(b.contains(c)); }
        if c == b[4] { assert(b.contains(c)); }
        if c == b[5] { assert(b.contains(c)); }
        if c == b[6] { assert(b.contains(c)); }
    }
}

} // verus!
