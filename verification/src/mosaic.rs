//! Joining the downloaded tiles of a map rectangle into one image.

use vstd::prelude::*;
use crate::location::{Location, MapRectView};
use crate::raster::{ImageRGB8, TileMerger, rgb_dims, rgb_samples, merger_layout, merger_pasted,
    merger_canvas, rows_for, png_rgb8};
use vstd::arithmetic::div_mod::{lemma_fundamental_div_mod, lemma_fundamental_div_mod_converse,
    lemma_mod_bound, lemma_div_pos_is_pos};

verus! {

/// Sample `i` of the mosaic of the first `n` of `tiles` (each its width,
/// height and samples) in places `tw` by `th` pixels, laid `cols` to a row
/// on a canvas `tw * cols` pixels wide: the pixel of the canvas at `(x, y)`
/// lies in the place of tile `(y / th) * cols + x / tw`, at offset
/// `(x % tw, y % th)`; it shows the tile's pixel at that offset when the tile
/// has one there, and is black where no tile was laid or the tile is smaller
/// than its place.
pub open spec fn mosaic_sample(tiles: Seq<(u32, u32, Seq<u8>)>, n: int, tw: int, th: int, cols: int, i: int) -> u8 {
    let p = i / 3;
    let x = p % (tw * cols);
    let y = p / (tw * cols);
    let k = (y / th) * cols + x / tw;
    if k < n && x % tw < tiles[k].0 && y % th < tiles[k].1 {
        tiles[k].2[3 * ((y % th) * tiles[k].0 + x % tw) + i % 3]
    } else {
        0
    }
}

/// The samples of the mosaic of the first `n` tiles in a grid of `cols` by `rows` places.
pub open spec fn mosaic(tiles: Seq<(u32, u32, Seq<u8>)>, n: int, tw: int, th: int, cols: int, rows: int) -> Seq<u8> {
    Seq::new((3 * (tw * cols) * (th * rows)) as nat, |i: int| mosaic_sample(tiles, n, tw, th, cols, i))
}

/// The width, height and samples of each image of `tiles`.
pub open spec fn tile_samples(tiles: Seq<ImageRGB8>) -> Seq<(u32, u32, Seq<u8>)> {
    tiles.map_values(|t: ImageRGB8| (rgb_dims(t).0, rgb_dims(t).1, rgb_samples(t)))
}

/// The sizes for which the merger can lay tiles `tw` by `th` pixels,
/// `cols` to a row, with room for `total` tiles.
pub open spec fn mosaic_fits(tw: int, th: int, cols: int, total: int) -> bool {
    &&& cols >= 1
    &&& tw * cols <= u32::MAX
    &&& 3 * (tw * cols) <= usize::MAX
    &&& tw * th <= u32::MAX + 1
    &&& th * rows_for(total, cols) <= u32::MAX
    &&& 3 * (tw * cols) * (th * rows_for(total, cols)) <= usize::MAX
}

/// A pixel lies in the place of tile `j` exactly when `j` is the tile
/// that the mosaic shows there, and then its offset in the tile is its
/// position modulo the tile size.
proof fn lemma_slot(x: int, y: int, tw: int, th: int, cols: int, j: int)
    requires
        tw > 0,
        th > 0,
        cols > 0,
        0 <= x < tw * cols,
        0 <= y,
        0 <= j,
    ensures
        ((j % cols) * tw <= x < (j % cols) * tw + tw && (j / cols) * th <= y < (j / cols) * th + th)
            <==> (y / th) * cols + x / tw == j,
        (y / th) * cols + x / tw == j ==> x - (j % cols) * tw == x % tw && y - (j / cols) * th == y % th,
{
    lemma_fundamental_div_mod(x, tw);
    lemma_fundamental_div_mod(y, th);
    lemma_fundamental_div_mod(j, cols);
    lemma_mod_bound(x, tw);
    lemma_mod_bound(y, th);
    lemma_mod_bound(j, cols);
    lemma_div_pos_is_pos(x, tw);
    lemma_div_pos_is_pos(y, th);
    lemma_div_pos_is_pos(j, cols);
    let a = x / tw;
    let b = y / th;
    assert(a < cols) by {
        if a >= cols {
            assert(tw * a >= tw * cols) by (nonlinear_arith)
                requires a >= cols, tw > 0;
        }
    }
    assert(tw * a == a * tw) by (nonlinear_arith);
    assert(th * b == b * th) by (nonlinear_arith);
    assert(cols * (j / cols) == (j / cols) * cols) by (nonlinear_arith);
    if (j % cols) * tw <= x < (j % cols) * tw + tw && (j / cols) * th <= y < (j / cols) * th + th {
        lemma_fundamental_div_mod_converse(x, tw, j % cols, x - (j % cols) * tw);
        lemma_fundamental_div_mod_converse(y, th, j / cols, y - (j / cols) * th);
    }
    if b * cols + a == j {
        lemma_fundamental_div_mod_converse(j, cols, b, a);
    }
}

/// Joins `tiles`, the tiles of the rectangle of `view` in the order of its
/// walk, into one image: `view.width()` tiles to a row, as many rows as the
/// rectangle holds, each tile in its place.
pub fn merge_tiles(tiles: &Vec<ImageRGB8>, view: &MapRectView) -> (m: ImageRGB8)
    requires
        1 <= tiles@.len() <= view.total(),
        forall|k: int|
            0 <= k < tiles@.len() ==> rgb_dims(#[trigger] tiles@[k]).0 <= rgb_dims(tiles@[0]).0
                && rgb_dims(tiles@[k]).1 <= rgb_dims(tiles@[0]).1
                && rgb_samples(tiles@[k]).len() == 3 * rgb_dims(tiles@[k]).0 * rgb_dims(tiles@[k]).1,
        mosaic_fits(
            rgb_dims(tiles@[0]).0 as int,
            rgb_dims(tiles@[0]).1 as int,
            view.columns() as int,
            view.total() as int,
        ),
    ensures
        rgb_dims(m).0 == rgb_dims(tiles@[0]).0 * view.columns(),
        rgb_dims(m).1 == rgb_dims(tiles@[0]).1 * rows_for(view.total() as int, view.columns() as int),
        rgb_samples(m) == mosaic(
            tile_samples(tiles@),
            tiles@.len() as int,
            rgb_dims(tiles@[0]).0 as int,
            rgb_dims(tiles@[0]).1 as int,
            view.columns() as int,
            rows_for(view.total() as int, view.columns() as int),
        ),
{
    let first = &tiles[0];
    let ghost tw = rgb_dims(tiles@[0]).0 as int;
    let ghost th = rgb_dims(tiles@[0]).1 as int;
    let ghost cols = view.columns() as int;
    let ghost rows = rows_for(view.total() as int, cols);
    let ghost n = tiles@.len() as int;
    let per_row = view.width() as u32;
    let total = view.num_imgs();
    let dims = first.dimensions();
    proof {
        view.lemma_size_bounds();
        assert(view.total() <= 65535 * 65535) by (nonlinear_arith)
            requires view.total() == view.columns() * view.rows(), view.columns() <= 65535, view.rows() <= 65535;
        lemma_fundamental_div_mod(view.total() + cols - 1, cols);
        lemma_mod_bound(view.total() + cols - 1, cols);
        assert(n <= cols * rows);
        lemma_div_pos_is_pos(view.total() + cols - 1, cols);
        assert(rows <= view.total()) by {
            let t = view.total() as int;
            assert(cols * rows <= t + cols - 1);
            if rows > t {
                assert(false) by (nonlinear_arith)
                    requires cols >= 1, rows >= t + 1, t >= 1, cols * rows <= t + cols - 1;
            }
        }
    }
    let mut merger = TileMerger::new(dims, per_row, total);
    proof {
        let c = merger_canvas(merger);
        let z = mosaic(tile_samples(tiles@), 0, tw, th, cols, rows);
        assert(c.len() == z.len());
        assert forall|i: int| 0 <= i < c.len() implies c[i] == z[i] by {
            let cw = tw * cols;
            assert(cw > 0 && th > 0) by {
                if tw == 0 || th == 0 {
                    assert(3 * (tw * cols) * (th * rows) == 0) by (nonlinear_arith)
                        requires tw == 0 || th == 0;
                }
                assert(tw * cols > 0) by (nonlinear_arith)
                    requires tw > 0, cols > 0;
            }
            lemma_div_pos_is_pos(i, 3);
            lemma_div_pos_is_pos(i / 3, cw);
            lemma_mod_bound(i / 3, cw);
            lemma_div_pos_is_pos((i / 3) / cw, th);
            lemma_div_pos_is_pos((i / 3) % cw, tw);
            assert(((i / 3) / cw / th) * cols >= 0) by (nonlinear_arith)
                requires (i / 3) / cw / th >= 0, cols >= 0;
        }
        assert(c =~= z);
    }
    let mut k: usize = 0;
    while k < tiles.len()
        invariant
            0 <= k <= n,
            n == tiles@.len(),
            1 <= cols <= 65535,
            0 <= rows <= u32::MAX,
            0 <= tw <= u32::MAX,
            0 <= th <= u32::MAX,
            n <= cols * rows,
            merger_layout(merger) == (tw as u32, th as u32, cols as u32, rows as u32),
            merger_pasted(merger) == k,
            merger_canvas(merger) == mosaic(tile_samples(tiles@), k as int, tw, th, cols, rows),
            tw == rgb_dims(tiles@[0]).0,
            th == rgb_dims(tiles@[0]).1,
            cols >= 1,
            tw * th <= u32::MAX + 1,
            forall|j: int|
                0 <= j < tiles@.len() ==> rgb_dims(#[trigger] tiles@[j]).0 <= tw && rgb_dims(tiles@[j]).1 <= th
                    && rgb_samples(tiles@[j]).len() == 3 * rgb_dims(tiles@[j]).0 * rgb_dims(tiles@[j]).1,
        decreases n - k,
    {
        let ghost before = merger_canvas(merger);
        merger.push(&tiles[k]);
        proof {
            let after = merger_canvas(merger);
            let next = mosaic(tile_samples(tiles@), k + 1, tw, th, cols, rows);
            let tile = rgb_samples(tiles@[k as int]);
            let a = rgb_dims(tiles@[k as int]).0 as int;
            let b = rgb_dims(tiles@[k as int]).1 as int;
            assert(after.len() == next.len());
            assert forall|i: int| 0 <= i < after.len() implies after[i] == next[i] by {
                let p = i / 3;
                let cw = tw * cols;
                let x = p % cw;
                let y = p / cw;
                assert(cw > 0 && th > 0 && tw > 0) by {
                    if tw == 0 || th == 0 {
                        assert(3 * (tw * cols) * (th * rows) == 0) by (nonlinear_arith)
                            requires tw == 0 || th == 0;
                    }
                    assert(tw * cols > 0) by (nonlinear_arith)
                        requires tw > 0, cols > 0;
                }
                vstd::arithmetic::div_mod::lemma_mod_bound(p, cw);
                vstd::arithmetic::div_mod::lemma_div_pos_is_pos(p, cw);
                vstd::arithmetic::div_mod::lemma_div_pos_is_pos(i, 3);
                lemma_slot(x, y, tw, th, cols, k as int);
                let x0 = (k as int % cols) * tw;
                let y0 = (k as int / cols) * th;
                assert(after[i] == (if x0 <= x < x0 + a && y0 <= y < y0 + b {
                    tile[3 * ((y - y0) * a + (x - x0)) + i % 3]
                } else {
                    before[i]
                }));
                assert(tile_samples(tiles@)[k as int] == (a as u32, b as u32, tile));
                assert(before[i] == mosaic_sample(tile_samples(tiles@), k as int, tw, th, cols, i));
                assert(next[i] == mosaic_sample(tile_samples(tiles@), k + 1, tw, th, cols, i));
            }
            assert(after =~= next);
        }
        k = k + 1;
    }
    merger.into_canvas()
}

/// The PNG files of `tiles` all decode, to images no larger than the first,
/// and the merger can lay them out for `view` in places the size of the
/// first.
pub open spec fn pngs_fit(tiles: Seq<Seq<u8>>, view: MapRectView) -> bool {
    &&& 1 <= tiles.len() <= view.total()
    &&& forall|k: int| 0 <= k < tiles.len() ==> (#[trigger] png_rgb8(tiles[k])).is_some()
    &&& forall|k: int|
        0 <= k < tiles.len() ==> {
            let d = #[trigger] png_rgb8(tiles[k]).unwrap();
            let d0 = png_rgb8(tiles[0]).unwrap();
            &&& d.0 <= d0.0
            &&& d.1 <= d0.1
        }
    &&& mosaic_fits(
        png_rgb8(tiles[0]).unwrap().0 as int,
        png_rgb8(tiles[0]).unwrap().1 as int,
        view.columns() as int,
        view.total() as int,
    )
}

/// The width, height and samples of the images decoded from the PNG files
/// of `tiles`.
pub open spec fn png_samples(tiles: Seq<Seq<u8>>) -> Seq<(u32, u32, Seq<u8>)> {
    tiles.map_values(|b: Seq<u8>| png_rgb8(b).unwrap())
}

/// The byte contents of each buffer of `tiles`.
pub open spec fn byte_views(tiles: Seq<Vec<u8>>) -> Seq<Seq<u8>> {
    tiles.map_values(|b: Vec<u8>| b@)
}

/// Decodes the PNG files `tiles` of the rectangle of `view`, given in the
/// order of its walk, and joins them into one image as `merge_tiles` does.
/// Each tile gets a place the size of the first; `None` when a file does
/// not decode, a tile is larger than the first, or the mosaic does not fit.
pub fn mosaic_from_png(tiles: &Vec<Vec<u8>>, view: &MapRectView) -> (m: Option<ImageRGB8>)
    ensures
        m.is_some() <==> pngs_fit(byte_views(tiles@), *view),
        m matches Some(m) ==> {
            let d0 = png_rgb8(tiles@[0]@).unwrap();
            &&& rgb_dims(m).0 == d0.0 * view.columns()
            &&& rgb_dims(m).1 == d0.1 * rows_for(view.total() as int, view.columns() as int)
            &&& rgb_samples(m) == mosaic(
                png_samples(byte_views(tiles@)),
                tiles@.len() as int,
                d0.0 as int,
                d0.1 as int,
                view.columns() as int,
                rows_for(view.total() as int, view.columns() as int),
            )
        },
{
    let ghost bytes = byte_views(tiles@);
    let n = tiles.len();
    let total = view.num_imgs();
    if n == 0 || n as u64 > total as u64 {
        assert(!pngs_fit(bytes, *view));
        return None;
    }
    let mut images: Vec<ImageRGB8> = Vec::new();
    let mut k: usize = 0;
    while k < n
        invariant
            n == tiles@.len(),
            bytes == byte_views(tiles@),
            0 <= k <= n,
            images@.len() == k,
            forall|j: int|
                0 <= j < k ==> png_rgb8(bytes[j]) == Some(
                    (rgb_dims(#[trigger] images@[j]).0, rgb_dims(images@[j]).1, rgb_samples(images@[j])),
                ),
            forall|j: int|
                0 <= j < k ==> rgb_samples(#[trigger] images@[j]).len() == 3 * rgb_dims(images@[j]).0
                    * rgb_dims(images@[j]).1,
        decreases n - k,
    {
        match ImageRGB8::decode_png(tiles[k].as_slice()) {
            None => {
                proof {
                    assert(bytes[k as int] == tiles@[k as int]@);
                    assert(png_rgb8(bytes[k as int]).is_none());
                    assert(!pngs_fit(bytes, *view));
                }
                return None;
            },
            Some(img) => {
                images.push(img);
            },
        }
        k = k + 1;
    }
    let (tw, th) = images[0].dimensions();
    let mut j: usize = 0;
    while j < n
        invariant
            n == tiles@.len(),
            n == images@.len(),
            bytes == byte_views(tiles@),
            0 <= j <= n,
            (tw, th) == rgb_dims(images@[0]),
            forall|i: int|
                0 <= i < n ==> png_rgb8(bytes[i]) == Some(
                    (rgb_dims(#[trigger] images@[i]).0, rgb_dims(images@[i]).1, rgb_samples(images@[i])),
                ),
            forall|i: int|
                0 <= i < n ==> rgb_samples(#[trigger] images@[i]).len() == 3 * rgb_dims(images@[i]).0
                    * rgb_dims(images@[i]).1,
            forall|i: int| 0 <= i < j ==> rgb_dims(#[trigger] images@[i]).0 <= tw && rgb_dims(images@[i]).1 <= th,
        decreases n - j,
    {
        let (wj, hj) = images[j].dimensions();
        if wj > tw || hj > th {
            proof {
                assert(png_rgb8(bytes[0]).unwrap().0 == tw);
                assert(png_rgb8(bytes[0]).unwrap().1 == th);
                assert(png_rgb8(bytes[j as int]).unwrap().0 == wj);
                assert(png_rgb8(bytes[j as int]).unwrap().1 == hj);
                assert(!pngs_fit(bytes, *view));
            }
            return None;
        }
        j = j + 1;
    }
    let cols = view.width() as u128;
    if cols == 0 {
        assert(!pngs_fit(bytes, *view));
        return None;
    }
    let rows = (total as u128 + cols - 1) / cols;
    proof {
        assert(rows <= total as u128 + cols) by {
            vstd::arithmetic::div_mod::lemma_div_is_ordered_by_denominator((total as u128 + cols - 1) as int, 1, cols as int);
        }
        assert(tw as u128 * cols <= 0x1_0000_0000 * 0x1_0000) by (nonlinear_arith)
            requires tw <= u32::MAX, cols <= 0xffff;
        assert(th as u128 * rows <= 0x1_0000_0000 * 0x2_0000_0000) by (nonlinear_arith)
            requires th <= u32::MAX, rows <= 0x2_0000_0000;
    }
    let w = tw as u128 * cols;
    let h = th as u128 * rows;
    proof {
        assert(tw as u128 * th as u128 <= 0x1_0000_0000 * 0x1_0000_0000) by (nonlinear_arith)
            requires tw <= u32::MAX, th <= u32::MAX;
    }
    proof {
        assert(3 * w * h <= 3 * 0x1_0000_0000 * 0x2_0000_0000 * 0x1_0000_0000 * 0x1_0000) by (nonlinear_arith)
            requires w <= 0x1_0000_0000 * 0x1_0000, h <= 0x1_0000_0000 * 0x2_0000_0000;
    }
    if w > u32::MAX as u128 || 3 * w > usize::MAX as u128 || (tw as u128) * (th as u128) > u32::MAX
        as u128 + 1 || h > u32::MAX as u128 || 3 * w * h > usize::MAX as u128 {
        proof {
            assert(rows == rows_for(view.total() as int, view.columns() as int));
            assert(png_rgb8(bytes[0]).unwrap().0 == tw);
            assert(png_rgb8(bytes[0]).unwrap().1 == th);
        }
        assert(!pngs_fit(bytes, *view));
        return None;
    }
    proof {
        assert(rows == rows_for(view.total() as int, view.columns() as int));
        assert(tile_samples(images@) =~= png_samples(bytes));
        assert(png_rgb8(bytes[0]).unwrap().0 == tw);
        assert(png_rgb8(bytes[0]).unwrap().1 == th);
        assert forall|i: int| 0 <= i < bytes.len() implies (#[trigger] png_rgb8(bytes[i])).is_some() by {
            assert(rgb_dims(images@[i]).0 <= tw);
        }
        assert forall|i: int| 0 <= i < bytes.len() implies {
            let d = #[trigger] png_rgb8(bytes[i]).unwrap();
            let d0 = png_rgb8(bytes[0]).unwrap();
            &&& d.0 <= d0.0
            &&& d.1 <= d0.1
        } by {
            assert(rgb_dims(images@[i]).0 <= tw && rgb_dims(images@[i]).1 <= th);
        }
        assert(mosaic_fits(tw as int, th as int, view.columns() as int, view.total() as int));
        assert(pngs_fit(bytes, *view));
    }
    Some(merge_tiles(&images, view))
}

/// The PNG files `tiles` of the rectangle of `view` make a mosaic exactly
/// when they are at least one and at most the rectangle's tiles, every one
/// decodes, none is wider or taller than the first, and the canvas fits:
/// `view.columns()` places of the first tile's size to a row, in as many rows
/// as the rectangle's tiles take, at most `u32::MAX` pixels wide and high,
/// its samples (and those of one row) countable in a `usize`, and the first
/// tile holding at most 2^32 pixels.
pub proof fn lemma_mosaic_accepts(tiles: Seq<Seq<u8>>, view: MapRectView)
    ensures
        pngs_fit(tiles, view) <==> {
            &&& 1 <= tiles.len() <= view.columns() * view.rows()
            &&& forall|k: int| 0 <= k < tiles.len() ==> (#[trigger] png_rgb8(tiles[k])).is_some()
            &&& forall|k: int|
                0 <= k < tiles.len() ==> (#[trigger] png_rgb8(tiles[k])).unwrap().0 <= png_rgb8(tiles[0]).unwrap().0
                    && png_rgb8(tiles[k]).unwrap().1 <= png_rgb8(tiles[0]).unwrap().1
            &&& png_rgb8(tiles[0]).unwrap().0 * view.columns() <= 0xffff_ffff
            &&& png_rgb8(tiles[0]).unwrap().1 * ((view.columns() * view.rows() + view.columns() - 1)
                / view.columns() as int) <= 0xffff_ffff
            &&& 3 * (png_rgb8(tiles[0]).unwrap().0 * view.columns()) <= usize::MAX
            &&& 3 * (png_rgb8(tiles[0]).unwrap().0 * view.columns()) * (png_rgb8(tiles[0]).unwrap().1 * ((
            view.columns() * view.rows() + view.columns() - 1) / view.columns() as int)) <= usize::MAX
            &&& png_rgb8(tiles[0]).unwrap().0 * png_rgb8(tiles[0]).unwrap().1 <= 0x1_0000_0000
        },
{
    if 1 <= view.columns() * view.rows() {
        assert(view.columns() >= 1) by {
            if view.columns() == 0 {
                assert(view.columns() * view.rows() == 0);
            }
        }
    }
}

/// The tile that the mosaic of a walk shows at pixel `(x, y)` is the tile of
/// the map `x / tw` columns right of and `y / th` rows below the top-left
/// tile of the rectangle, when the tiles are given in the order of the walk.
pub proof fn lemma_mosaic_place_is_map_tile(view: MapRectView, tw: int, th: int, x: int, y: int)
    requires
        view.fits(),
        tw > 0,
        th > 0,
        0 <= x < tw * view.columns(),
        0 <= y,
        (y / th) * view.columns() + x / tw < view.total(),
    ensures
        view.location_at((y / th) * view.columns() + x / tw) == (Location {
            x: (view.top_left().x + x / tw) as u16,
            y: (view.top_left().y + y / th) as u16,
            layer: view.top_left().layer,
        }),
{
    let cols = view.columns() as int;
    let rows = view.rows() as int;
    lemma_div_pos_is_pos(x, tw);
    lemma_div_pos_is_pos(y, th);
    lemma_fundamental_div_mod(x, tw);
    lemma_mod_bound(x, tw);
    assert(x / tw < cols) by {
        if x / tw >= cols {
            assert(tw * (x / tw) >= tw * cols) by (nonlinear_arith)
                requires x / tw >= cols, tw > 0;
        }
    }
    assert(y / th < rows) by {
        if y / th >= rows {
            assert((y / th) * cols >= rows * cols) by (nonlinear_arith)
                requires y / th >= rows, cols >= 0;
            assert(rows * cols == cols * rows) by (nonlinear_arith);
        }
    }
    view.lemma_walk_covers_rectangle();
    assert(view.step_of(x / tw, y / th) == (y / th) * cols + x / tw);
}

} // verus!
