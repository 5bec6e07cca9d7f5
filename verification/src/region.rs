//! The geometry of a grey-level raster: pixels, their eight neighbours, dark
//! pixels (every value but white, 255) and the dark regions that connect them.
//! A raster is given by its width `w`, height `h` and row-major samples `s`.

use vstd::prelude::*;

verus! {

/// The value of a white pixel; every other value is dark.
pub const WHITE: u8 = 255;

/// The row-major index of pixel `p` in a raster of width `w`.
pub open spec fn idx(w: int, p: (int, int)) -> int {
    p.1 * w + p.0
}

/// The pixel at row-major index `i` in a raster of width `w`.
pub open spec fn point_of(w: int, i: int) -> (int, int) {
    (i % w, i / w)
}

/// Whether `p` lies in a `w` by `h` raster.
pub open spec fn in_bounds(w: int, h: int, p: (int, int)) -> bool {
    0 <= p.0 < w && 0 <= p.1 < h
}

/// Whether `p` is a dark pixel of the raster.
pub open spec fn dark(w: int, h: int, s: Seq<u8>, p: (int, int)) -> bool {
    in_bounds(w, h, p) && s[idx(w, p)] != WHITE
}

/// Whether `p` and `q` are distinct pixels that touch at an edge or a corner.
pub open spec fn adjacent(p: (int, int), q: (int, int)) -> bool {
    &&& p != q
    &&& -1 <= p.0 - q.0 <= 1
    &&& -1 <= p.1 - q.1 <= 1
}

/// The `k`-th and `k + 1`-th pixels of `path` touch.
pub open spec fn step_ok(path: Seq<(int, int)>, k: int) -> bool {
    adjacent(path[k], path[k + 1])
}

/// A non-empty sequence of dark pixels, each touching the next.
pub open spec fn is_dark_path(w: int, h: int, s: Seq<u8>, path: Seq<(int, int)>) -> bool {
    &&& path.len() > 0
    &&& forall|k: int| 0 <= k < path.len() ==> dark(w, h, s, #[trigger] path[k])
    &&& forall|k: int| 0 <= k < path.len() - 1 ==> #[trigger] step_ok(path, k)
}

/// Whether a dark path leads from `a` to `b`: both lie in the same dark region.
pub open spec fn connected(w: int, h: int, s: Seq<u8>, a: (int, int), b: (int, int)) -> bool {
    exists|path: Seq<(int, int)>|
        #![trigger is_dark_path(w, h, s, path), path[0], path.last()]
        is_dark_path(w, h, s, path) && path[0] == a && path.last() == b
}

/// A set of pixels that no dark pixel of it touches a dark pixel outside it.
pub open spec fn closed_under(w: int, h: int, s: Seq<u8>, inside: spec_fn((int, int)) -> bool) -> bool {
    forall|p: (int, int), q: (int, int)|
        #![trigger inside(p), adjacent(p, q), inside(q)]
        dark(w, h, s, p) && dark(w, h, s, q) && adjacent(p, q) && inside(p) ==> inside(q)
}

/// A dark pixel is connected to itself.
pub proof fn lemma_connected_refl(w: int, h: int, s: Seq<u8>, a: (int, int))
    requires
        dark(w, h, s, a),
    ensures
        connected(w, h, s, a, a),
{
    let path = seq![a];
    assert(is_dark_path(w, h, s, path));
    assert(path[0] == a && path.last() == a);
}

/// Both ends of a dark path are dark.
pub proof fn lemma_connected_ends_dark(w: int, h: int, s: Seq<u8>, a: (int, int), b: (int, int))
    requires
        connected(w, h, s, a, b),
    ensures
        dark(w, h, s, a),
        dark(w, h, s, b),
{
    let path = choose|path: Seq<(int, int)>|
        #![trigger is_dark_path(w, h, s, path), path[0], path.last()]
        is_dark_path(w, h, s, path) && path[0] == a && path.last() == b;
    assert(dark(w, h, s, path[0]));
    assert(dark(w, h, s, path[path.len() - 1]));
}

/// A dark path extends by a dark pixel touching its end.
pub proof fn lemma_connected_extend(w: int, h: int, s: Seq<u8>, a: (int, int), b: (int, int), c: (int, int))
    requires
        connected(w, h, s, a, b),
        dark(w, h, s, c),
        adjacent(b, c),
    ensures
        connected(w, h, s, a, c),
{
    let path = choose|path: Seq<(int, int)>|
        #![trigger is_dark_path(w, h, s, path), path[0], path.last()]
        is_dark_path(w, h, s, path) && path[0] == a && path.last() == b;
    let longer = path.push(c);
    assert forall|k: int| 0 <= k < longer.len() implies dark(w, h, s, #[trigger] longer[k]) by {
        if k < path.len() {
            assert(longer[k] == path[k]);
        }
    }
    assert forall|k: int| 0 <= k < longer.len() - 1 implies #[trigger] step_ok(longer, k) by {
        if k < path.len() - 1 {
            assert(step_ok(path, k));
        }
    }
    assert(is_dark_path(w, h, s, longer));
    assert(longer[0] == a && longer.last() == c);
}

/// Dark regions are transitive.
pub proof fn lemma_connected_trans(w: int, h: int, s: Seq<u8>, a: (int, int), b: (int, int), c: (int, int))
    requires
        connected(w, h, s, a, b),
        connected(w, h, s, b, c),
    ensures
        connected(w, h, s, a, c),
{
    let p1 = choose|path: Seq<(int, int)>|
        #![trigger is_dark_path(w, h, s, path), path[0], path.last()]
        is_dark_path(w, h, s, path) && path[0] == a && path.last() == b;
    let p2 = choose|path: Seq<(int, int)>|
        #![trigger is_dark_path(w, h, s, path), path[0], path.last()]
        is_dark_path(w, h, s, path) && path[0] == b && path.last() == c;
    let joined = p1 + p2.drop_first();
    assert forall|k: int| 0 <= k < joined.len() implies dark(w, h, s, #[trigger] joined[k]) by {
        if k < p1.len() {
            assert(joined[k] == p1[k]);
        } else {
            assert(joined[k] == p2[k - p1.len() + 1]);
        }
    }
    assert forall|k: int| 0 <= k < joined.len() - 1 implies #[trigger] step_ok(joined, k) by {
        if k < p1.len() - 1 {
            assert(step_ok(p1, k));
        } else if k == p1.len() - 1 {
            assert(joined[k] == p1[k]);
            assert(joined[k + 1] == p2[1]);
            assert(step_ok(p2, 0));
        } else {
            assert(step_ok(p2, k - p1.len() + 1));
        }
    }
    assert(is_dark_path(w, h, s, joined));
    if p2.len() == 1 {
        assert(joined.last() == p1.last());
    } else {
        assert(joined.last() == p2.last());
    }
    assert(joined[0] == a);
}

/// Dark regions are symmetric: a dark path read backwards is a dark path.
pub proof fn lemma_connected_symm(w: int, h: int, s: Seq<u8>, a: (int, int), b: (int, int))
    requires
        connected(w, h, s, a, b),
    ensures
        connected(w, h, s, b, a),
{
    let path = choose|path: Seq<(int, int)>|
        #![trigger is_dark_path(w, h, s, path), path[0], path.last()]
        is_dark_path(w, h, s, path) && path[0] == a && path.last() == b;
    let n = path.len() as int;
    let back = Seq::new(path.len(), |k: int| path[n - 1 - k]);
    assert forall|k: int| 0 <= k < back.len() implies dark(w, h, s, #[trigger] back[k]) by {
        assert(dark(w, h, s, path[n - 1 - k]));
    }
    assert forall|k: int| 0 <= k < back.len() - 1 implies #[trigger] step_ok(back, k) by {
        assert(step_ok(path, n - 2 - k));
    }
    assert(is_dark_path(w, h, s, back));
    assert(back[0] == b && back.last() == a);
}

/// A set closed under touching dark pixels holds every pixel connected to a
/// pixel in it; run backwards, a pixel connected to one inside it is inside.
pub proof fn lemma_closed_reaches(
    w: int,
    h: int,
    s: Seq<u8>,
    inside: spec_fn((int, int)) -> bool,
    a: (int, int),
    b: (int, int),
)
    requires
        closed_under(w, h, s, inside),
        connected(w, h, s, a, b),
    ensures
        inside(a) <==> inside(b),
{
    let path = choose|path: Seq<(int, int)>|
        #![trigger is_dark_path(w, h, s, path), path[0], path.last()]
        is_dark_path(w, h, s, path) && path[0] == a && path.last() == b;
    if inside(a) {
        lemma_path_inside_forward(w, h, s, inside, path, 0);
    }
    if inside(b) {
        lemma_path_inside_backward(w, h, s, inside, path, path.len() - 1);
    }
}

proof fn lemma_path_inside_forward(
    w: int,
    h: int,
    s: Seq<u8>,
    inside: spec_fn((int, int)) -> bool,
    path: Seq<(int, int)>,
    k: int,
)
    requires
        closed_under(w, h, s, inside),
        is_dark_path(w, h, s, path),
        0 <= k < path.len(),
        inside(path[k]),
    ensures
        inside(path.last()),
    decreases path.len() - k,
{
    if k < path.len() - 1 {
        assert(step_ok(path, k));
        assert(dark(w, h, s, path[k]));
        assert(dark(w, h, s, path[k + 1]));
        lemma_path_inside_forward(w, h, s, inside, path, k + 1);
    }
}

proof fn lemma_path_inside_backward(
    w: int,
    h: int,
    s: Seq<u8>,
    inside: spec_fn((int, int)) -> bool,
    path: Seq<(int, int)>,
    k: int,
)
    requires
        closed_under(w, h, s, inside),
        is_dark_path(w, h, s, path),
        0 <= k < path.len(),
        inside(path[k]),
    ensures
        inside(path[0]),
    decreases k,
{
    if k > 0 {
        assert(step_ok(path, k - 1));
        assert(dark(w, h, s, path[k]));
        assert(dark(w, h, s, path[k - 1]));
        assert(adjacent(path[k], path[k - 1]));
        lemma_path_inside_backward(w, h, s, inside, path, k - 1);
    }
}

/// Row-major indexing is a bijection between the pixels of a `w` by `h`
/// raster and the indices below `w * h`.
pub proof fn lemma_index(w: int, h: int, p: (int, int))
    requires
        in_bounds(w, h, p),
    ensures
        0 <= idx(w, p) < w * h,
        point_of(w, idx(w, p)) == p,
{
    assert(0 <= p.1 * w + p.0 < w * h) by (nonlinear_arith)
        requires 0 <= p.0 < w, 0 <= p.1 < h;
    vstd::arithmetic::div_mod::lemma_fundamental_div_mod_converse(p.1 * w + p.0, w, p.1, p.0);
}

/// The pixel at an index below `w * h` lies in the raster and has that index.
pub proof fn lemma_point_of(w: int, h: int, i: int)
    requires
        w > 0,
        0 <= i < w * h,
    ensures
        in_bounds(w, h, point_of(w, i)),
        idx(w, point_of(w, i)) == i,
{
    vstd::arithmetic::div_mod::lemma_fundamental_div_mod(i, w);
    vstd::arithmetic::div_mod::lemma_mod_bound(i, w);
    vstd::arithmetic::div_mod::lemma_div_pos_is_pos(i, w);
    assert(i / w < h) by {
        if i / w >= h {
            assert(w * (i / w) >= w * h) by (nonlinear_arith)
                requires i / w >= h, w > 0;
        }
    }
    assert(w * (i / w) == (i / w) * w) by (nonlinear_arith);
}

/// Distinct pixels of a raster have distinct indices.
pub proof fn lemma_index_injective(w: int, h: int, p: (int, int), q: (int, int))
    requires
        in_bounds(w, h, p),
        in_bounds(w, h, q),
        idx(w, p) == idx(w, q),
    ensures
        p == q,
{
    lemma_index(w, h, p);
    lemma_index(w, h, q);
}

} // verus!
