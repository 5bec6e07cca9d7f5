//! The images the library works on, RGB and grey-level with 8-bit channels,
//! each an `image_merger` image over an `image` buffer held in a struct of
//! this crate; the tile merger that lays RGB tiles onto a canvas; PNG
//! decoding and encoding. Each is read and changed only through the
//! functions below, whose contracts describe the samples of the buffers.

use vstd::prelude::*;
use image::{ImageBuffer, Luma, Rgb};
use image_merger::Merger;

verus! {

/// An RGB image with 8-bit channels. Its samples are those of the `image`
/// buffer it holds: three per pixel (red, green, blue), pixels row by row.
#[verifier::external_body]
pub struct ImageRGB8 {
    image: image_merger::Image<Rgb<u8>, ImageBuffer<Rgb<u8>, Vec<u8>>>,
}

/// A grey-level image with 8-bit pixels. Its samples are those of the `image`
/// buffer it holds: one per pixel, pixels row by row.
#[verifier::external_body]
pub struct ImageBW {
    image: image_merger::Image<Luma<u8>, ImageBuffer<Luma<u8>, Vec<u8>>>,
}

/// The width and height an RGB image was made with.
pub uninterp spec fn rgb_dims(img: ImageRGB8) -> (u32, u32);

/// The sample buffer of an RGB image.
pub uninterp spec fn rgb_samples(img: ImageRGB8) -> Seq<u8>;

/// The width, height and samples of the 8-bit RGB image that `image` decodes
/// from `bytes` as a PNG file; `None` when it cannot decode them.
pub uninterp spec fn png_rgb8(bytes: Seq<u8>) -> Option<(u32, u32, Seq<u8>)>;

/// The PNG file that `image` encodes from a grey-level image of the given
/// size whose pixels, row by row, are `pixels`; `None` when it cannot.
/// The width, height and samples of the image that `image` decodes from
/// `bytes` in the format its file extension `ext` names, when that is an
/// 8-bit RGB image; `None` when the extension names no format, the bytes do
/// not decode, or the image holds other pixels.
pub uninterp spec fn rgb8_file(ext: Seq<char>, bytes: Seq<u8>) -> Option<(u32, u32, Seq<u8>)>;

pub uninterp spec fn png_gray8(width: u32, height: u32, pixels: Seq<u8>) -> Option<Seq<u8>>;

#[verifier::external_type_specification]
#[verifier::external_body]
pub struct ExImageError(image::ImageError);

/// The width and height a grey-level image was made with.
pub uninterp spec fn bw_dims(img: ImageBW) -> (u32, u32);

/// The sample buffer of a grey-level image.
pub uninterp spec fn bw_samples(img: ImageBW) -> Seq<u8>;

impl ImageRGB8 {
    /// The width of the image.
    pub open spec fn w(self) -> int {
        rgb_dims(self).0 as int
    }

    /// The height of the image.
    pub open spec fn h(self) -> int {
        rgb_dims(self).1 as int
    }

    /// The red, green and blue values of the pixel at row-major index `i`.
    pub open spec fn pixel(self, i: int) -> (u8, u8, u8) {
        let s = rgb_samples(self);
        (s[3 * i], s[3 * i + 1], s[3 * i + 2])
    }

    /// `image_merger::Image::new_from_raw` (through `ImageBuffer::from_raw`):
    /// the image of the given size over the given samples, when they suffice.
    #[verifier::external_body]
    fn from_raw(width: u32, height: u32, samples: Vec<u8>) -> (img: Option<ImageRGB8>)
        ensures
            img.is_some() <==> (3 * width <= usize::MAX && 3 * width * height <= samples@.len()),
            img matches Some(i) ==> rgb_dims(i) == (width, height) && rgb_samples(i) == samples@,
    {
        image_merger::Image::new_from_raw(width, height, samples).map(|image| ImageRGB8 { image })
    }

    /// The image of the given size over the given samples (three per pixel,
    /// pixels row by row), or `None` when there are too few samples.
    pub fn from_samples(width: u32, height: u32, samples: Vec<u8>) -> (img: Option<ImageRGB8>)
        ensures
            img.is_some() <==> (3 * width <= usize::MAX && 3 * width * height <= samples@.len()),
            img matches Some(i) ==> rgb_dims(i) == (width, height) && rgb_samples(i) == samples@,
    {
        ImageRGB8::from_raw(width, height, samples)
    }

    /// `ImageBuffer::dimensions`: the width and height. The buffer holds at
    /// least three samples for every pixel.
    #[verifier::external_body]
    pub(crate) fn buffer_dimensions(&self) -> (d: (u32, u32))
        ensures
            d == rgb_dims(*self),
            3 * d.0 <= usize::MAX && 3 * d.0 * d.1 <= rgb_samples(*self).len() <= usize::MAX,
    {
        self.image.dimensions()
    }

    /// The width and height of the image.
    pub fn dimensions(&self) -> (d: (u32, u32))
        ensures
            d == rgb_dims(*self),
            3 * d.0 <= usize::MAX && 3 * d.0 * d.1 <= rgb_samples(*self).len() <= usize::MAX,
    {
        self.buffer_dimensions()
    }

    /// `image_merger::Image::into_buffer` then `ImageBuffer::into_raw`: the samples.
    #[verifier::external_body]
    fn into_raw(self) -> (samples: Vec<u8>)
        ensures
            samples@ == rgb_samples(self),
    {
        self.image.into_buffer().into_raw()
    }

    /// The samples of the image: red, green and blue of each pixel, pixels row by row.
    pub fn into_samples(self) -> (samples: Vec<u8>)
        ensures
            samples@ == rgb_samples(self),
    {
        self.into_raw()
    }

    /// `image::load_from_memory_with_format` as PNG, then
    /// `DynamicImage::into_rgb8`: the decoded image, or `None` when the bytes
    /// do not decode.
    #[verifier::external_body]
    pub(crate) fn decode_png(bytes: &[u8]) -> (img: Option<ImageRGB8>)
        ensures
            img.is_some() <==> png_rgb8(bytes@).is_some(),
            img matches Some(i) ==> png_rgb8(bytes@) == Some((rgb_dims(i).0, rgb_dims(i).1, rgb_samples(i))),
            img matches Some(i) ==> rgb_samples(i).len() == 3 * rgb_dims(i).0 * rgb_dims(i).1,
    {
        match image::load_from_memory_with_format(bytes, image::ImageFormat::Png) {
            Ok(decoded) => Some(ImageRGB8 { image: image_merger::Image::from(decoded.into_rgb8()) }),
            Err(_) => None,
        }
    }

    /// `image::ImageFormat::from_extension`, then
    /// `image::load_from_memory_with_format` in that format, then
    /// `DynamicImage::as_rgb8`: the image in a file with extension `ext`
    /// holding `bytes`, read as `image::open` reads it (no decoding hooks are
    /// registered), when it is an 8-bit RGB image. A decoded buffer holds
    /// exactly three samples per pixel.
    #[verifier::external_body]
    pub(crate) fn decode_rgb8_file(ext: &str, bytes: &[u8]) -> (img: Option<ImageRGB8>)
        ensures
            img.is_some() <==> rgb8_file(ext@, bytes@).is_some(),
            img matches Some(i) ==> rgb8_file(ext@, bytes@) == Some((rgb_dims(i).0, rgb_dims(i).1, rgb_samples(i))),
            img matches Some(i) ==> rgb_samples(i).len() == 3 * rgb_dims(i).0 * rgb_dims(i).1,
    {
        let format = image::ImageFormat::from_extension(ext)?;
        match image::load_from_memory_with_format(bytes, format) {
            Ok(decoded) => decoded.as_rgb8().map(|b| ImageRGB8 { image: image_merger::Image::from(b.clone()) }),
            Err(_) => None,
        }
    }

    /// `Vec::len` of the image's sample buffer (through `ImageBuffer::as_raw`).
    #[verifier::external_body]
    pub(crate) fn buffer_len(&self) -> (n: usize)
        ensures
            n == rgb_samples(*self).len(),
    {
        self.image.as_raw().len()
    }

    /// The number of samples the image holds.
    pub fn samples_len(&self) -> (n: usize)
        ensures
            n == rgb_samples(*self).len(),
    {
        self.buffer_len()
    }

    /// `ImageBuffer::get_pixel`: the red, green and blue values at `(x, y)`.
    #[verifier::external_body]
    pub(crate) fn rgb_at(&self, x: u32, y: u32) -> (p: (u8, u8, u8))
        requires
            x < self.w(),
            y < self.h(),
        ensures
            p == self.pixel(y * self.w() + x),
    {
        let px = self.image.get_pixel(x, y);
        (px.0[0], px.0[1], px.0[2])
    }
}

impl ImageBW {
    /// The width of the image.
    pub open spec fn w(self) -> int {
        bw_dims(self).0 as int
    }

    /// The height of the image.
    pub open spec fn h(self) -> int {
        bw_dims(self).1 as int
    }

    /// The samples of the image.
    pub open spec fn samples(self) -> Seq<u8> {
        bw_samples(self)
    }

    /// The image has exactly one sample for each of its pixels.
    pub open spec fn exact(self) -> bool {
        bw_samples(self).len() == self.w() * self.h()
    }

    /// `image_merger::Image::new` (through `ImageBuffer::new`): a `width` by
    /// `height` image, every sample zero.
    #[verifier::external_body]
    pub(crate) fn new(width: u32, height: u32) -> (img: ImageBW)
        requires
            width * height <= usize::MAX,
        ensures
            bw_dims(img) == (width, height),
            bw_samples(img) == Seq::new((width * height) as nat, |i: int| 0u8),
    {
        ImageBW { image: image_merger::Image::new(width, height) }
    }

    /// `image_merger::Image::new_from_raw` (through `ImageBuffer::from_raw`):
    /// the image of the given size over the given samples, when they suffice.
    #[verifier::external_body]
    fn from_raw(width: u32, height: u32, samples: Vec<u8>) -> (img: Option<ImageBW>)
        ensures
            img.is_some() <==> width * height <= samples@.len(),
            img matches Some(i) ==> bw_dims(i) == (width, height) && bw_samples(i) == samples@,
    {
        image_merger::Image::new_from_raw(width, height, samples).map(|image| ImageBW { image })
    }

    /// The image of the given size over the given samples (one per pixel,
    /// pixels row by row), or `None` when there are too few samples.
    pub fn from_samples(width: u32, height: u32, samples: Vec<u8>) -> (img: Option<ImageBW>)
        ensures
            img.is_some() <==> width * height <= samples@.len(),
            img matches Some(i) ==> bw_dims(i) == (width, height) && bw_samples(i) == samples@,
    {
        ImageBW::from_raw(width, height, samples)
    }

    /// `image_merger::Image::into_buffer` then `ImageBuffer::into_raw`: the samples.
    #[verifier::external_body]
    fn into_raw(self) -> (samples: Vec<u8>)
        ensures
            samples@ == bw_samples(self),
    {
        self.image.into_buffer().into_raw()
    }

    /// The samples of the image, pixels row by row.
    pub fn into_samples(self) -> (samples: Vec<u8>)
        ensures
            samples@ == bw_samples(self),
    {
        self.into_raw()
    }

    /// `ImageBuffer::width`. The buffer holds at least one sample per pixel.
    #[verifier::external_body]
    pub(crate) fn buffer_width(&self) -> (w: u32)
        ensures
            w == self.w() && w * self.h() <= bw_samples(*self).len() <= usize::MAX,
    {
        self.image.width()
    }

    /// `ImageBuffer::height`. The buffer holds at least one sample per pixel.
    #[verifier::external_body]
    pub(crate) fn buffer_height(&self) -> (h: u32)
        ensures
            h == self.h() && self.w() * h <= bw_samples(*self).len() <= usize::MAX,
    {
        self.image.height()
    }

    /// The width of the image.
    pub fn width(&self) -> (w: u32)
        ensures
            w == self.w(),
            self.w() * self.h() <= bw_samples(*self).len() <= usize::MAX,
    {
        self.buffer_width()
    }

    /// The height of the image.
    pub fn height(&self) -> (h: u32)
        ensures
            h == self.h(),
            self.w() * self.h() <= bw_samples(*self).len() <= usize::MAX,
    {
        self.buffer_height()
    }

    /// The pixels of the image, row by row: the first `w * h` samples.
    pub open spec fn pixels(self) -> Seq<u8> {
        bw_samples(self).subrange(0, self.w() * self.h())
    }

    /// `ImageBuffer::write_to` with `ImageFormat::Png` into an in-memory
    /// buffer: the PNG file of the image, or the encoder's error.
    #[verifier::external_body]
    pub(crate) fn encode_png(&self) -> (r: Result<Vec<u8>, image::ImageError>)
        ensures
            r matches Ok(bytes) ==> png_gray8(bw_dims(*self).0, bw_dims(*self).1, self.pixels()) == Some(bytes@),
            r is Err ==> png_gray8(bw_dims(*self).0, bw_dims(*self).1, self.pixels()).is_none(),
    {
        let mut bytes = std::io::Cursor::new(Vec::new());
        match self.image.write_to(&mut bytes, image::ImageFormat::Png) {
            Ok(()) => Ok(bytes.into_inner()),
            Err(e) => Err(e),
        }
    }

    /// `ImageBuffer::get_pixel`: the value at `(x, y)`.
    #[verifier::external_body]
    pub(crate) fn luma_at(&self, x: u32, y: u32) -> (v: u8)
        requires
            x < self.w(),
            y < self.h(),
        ensures
            v == bw_samples(*self)[y * self.w() + x],
    {
        self.image.get_pixel(x, y).0[0]
    }

    /// `ImageBuffer::get_pixel_checked`: the value at `(x, y)`, or `None` when
    /// `x` is not below the width or the buffer has no sample at that place.
    #[verifier::external_body]
    pub(crate) fn luma_at_checked(&self, x: u32, y: u32) -> (v: Option<u8>)
        ensures
            v == (if x < self.w() && y * self.w() + x < bw_samples(*self).len() {
                Some(bw_samples(*self)[y * self.w() + x])
            } else {
                None
            }),
    {
        self.image.get_pixel_checked(x, y).map(|p| p.0[0])
    }

    /// `ImageBuffer::get_pixel_mut`, then a store: sets the value at `(x, y)`.
    #[verifier::external_body]
    pub(crate) fn set_luma(&mut self, x: u32, y: u32, v: u8)
        requires
            x < old(self).w(),
            y < old(self).h(),
        ensures
            bw_dims(*final(self)) == bw_dims(*old(self)),
            bw_samples(*final(self)) == bw_samples(*old(self)).update(y * old(self).w() + x, v),
    {
        self.image.get_pixel_mut(x, y).0 = [v];
    }

    /// `slice::fill` on the buffer (through the image's `Deref`): sets every
    /// sample to `v`.
    #[verifier::external_body]
    pub(crate) fn fill(&mut self, v: u8)
        ensures
            bw_dims(*final(self)) == bw_dims(*old(self)),
            bw_samples(*final(self)) == Seq::new(bw_samples(*old(self)).len(), |i: int| v),
    {
        self.image.fill(v)
    }
}

/// A mosaic under construction: an `image_merger::KnownSizeMerger` that lays
/// equal-sized RGB tiles onto a canvas row by row, a fixed number per row.
#[verifier::external_body]
pub struct TileMerger {
    merger: image_merger::KnownSizeMerger<Rgb<u8>, Vec<u8>>,
}

/// The tile width, tile height, tiles per row and number of rows a merger
/// was made with.
pub uninterp spec fn merger_layout(m: TileMerger) -> (u32, u32, u32, u32);

/// How many tiles have been laid onto the canvas of a merger.
pub uninterp spec fn merger_pasted(m: TileMerger) -> nat;

/// The sample buffer of the canvas of a merger.
pub uninterp spec fn merger_canvas(m: TileMerger) -> Seq<u8>;

/// The samples of an RGB canvas `cw` pixels wide after the tile with samples
/// `tile`, `tw` by `th` pixels, is copied onto it with its top-left corner
/// at `(x0, y0)`.
pub open spec fn pasted(canvas: Seq<u8>, cw: int, tile: Seq<u8>, tw: int, th: int, x0: int, y0: int) -> Seq<u8> {
    Seq::new(
        canvas.len(),
        |i: int|
            {
                let p = i / 3;
                let px = p % cw;
                let py = p / cw;
                if x0 <= px < x0 + tw && y0 <= py < y0 + th {
                    tile[3 * ((py - y0) * tw + (px - x0)) + i % 3]
                } else {
                    canvas[i]
                }
            },
    )
}

/// The number of rows that `total` tiles take, `per_row` to a row.
pub open spec fn rows_for(total: int, per_row: int) -> int {
    (total + per_row - 1) / per_row
}

impl TileMerger {
    /// The width of the canvas.
    pub open spec fn canvas_w(self) -> int {
        merger_layout(self).0 * merger_layout(self).2
    }

    /// The height of the canvas.
    pub open spec fn canvas_h(self) -> int {
        merger_layout(self).1 * merger_layout(self).3
    }

    /// `KnownSizeMerger::new` without padding: a black canvas with room for
    /// `total` tiles of size `tile_dims`, `per_row` to a row, in as many rows
    /// as that takes.
    #[verifier::external_body]
    pub(crate) fn new(tile_dims: (u32, u32), per_row: u32, total: u32) -> (m: TileMerger)
        requires
            per_row >= 1,
            total >= 1,
            total + per_row - 1 <= u32::MAX,
            tile_dims.0 * per_row <= u32::MAX,
            3 * (tile_dims.0 * per_row) <= usize::MAX,
            tile_dims.1 * rows_for(total as int, per_row as int) <= u32::MAX,
            3 * (tile_dims.0 * per_row) * (tile_dims.1 * rows_for(total as int, per_row as int)) <= usize::MAX,
        ensures
            merger_layout(m) == (tile_dims.0, tile_dims.1, per_row, rows_for(total as int, per_row as int) as u32),
            merger_pasted(m) == 0,
            merger_canvas(m) == Seq::new(
                (3 * (tile_dims.0 * per_row) * (tile_dims.1 * rows_for(total as int, per_row as int))) as nat,
                |i: int| 0u8,
            ),
    {
        TileMerger { merger: image_merger::KnownSizeMerger::new(tile_dims, per_row, total, None) }
    }

    /// `Merger::push`: copies `tile` into the next free place of the canvas,
    /// which for the `n`-th tile (from 0) is column `n % per_row`, row
    /// `n / per_row` of the grid of tiles, its top-left corner on the place's
    /// top-left corner. A tile smaller than its place covers only its own
    /// pixels; the rest of the place is left as it was.
    #[verifier::external_body]
    pub(crate) fn push(&mut self, tile: &ImageRGB8)
        requires
            merger_pasted(*old(self)) < merger_layout(*old(self)).2 * merger_layout(*old(self)).3,
            rgb_dims(*tile).0 <= merger_layout(*old(self)).0,
            rgb_dims(*tile).1 <= merger_layout(*old(self)).1,
            rgb_samples(*tile).len() == 3 * rgb_dims(*tile).0 * rgb_dims(*tile).1,
            merger_layout(*old(self)).0 * merger_layout(*old(self)).1 <= u32::MAX + 1,
        ensures
            merger_layout(*final(self)) == merger_layout(*old(self)),
            merger_pasted(*final(self)) == merger_pasted(*old(self)) + 1,
            merger_canvas(*final(self)) == pasted(
                merger_canvas(*old(self)),
                old(self).canvas_w(),
                rgb_samples(*tile),
                rgb_dims(*tile).0 as int,
                rgb_dims(*tile).1 as int,
                ((merger_pasted(*old(self)) as int) % (merger_layout(*old(self)).2 as int)) * merger_layout(*old(self)).0,
                ((merger_pasted(*old(self)) as int) / (merger_layout(*old(self)).2 as int)) * merger_layout(*old(self)).1,
            ),
    {
        self.merger.push(&tile.image)
    }

    /// `Merger::into_canvas`: the finished canvas.
    #[verifier::external_body]
    pub(crate) fn into_canvas(self) -> (img: ImageRGB8)
        ensures
            rgb_dims(img).0 == self.canvas_w() && rgb_dims(img).1 == self.canvas_h(),
            rgb_samples(img) == merger_canvas(self),
    {
        ImageRGB8 { image: self.merger.into_canvas() }
    }
}

} // verus!
