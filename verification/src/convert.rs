//! The file conversions of the command line tool, on the bytes of the files:
//! reading an RGB map image, writing its thresholded image as PNG, and
//! writing its dark regions as a zip archive of PNG files.

use vstd::prelude::*;
use crate::raster::{ImageRGB8, rgb_dims, rgb_samples, rgb8_file, png_gray8};
use crate::archive::{
    path_extension, extension_of, archive_images, pngs_of, failure_from, ArchiveError,
    ArchiveStep, entries_upto, stored_zip,
};
use crate::img_ops::{
    threshold_image_luma, threshold_value, separate_image, region_seeds, region_mask, nothing_below,
};
use crate::region::{in_bounds, idx, connected};

verus! {

/// The width, height and samples of the RGB image that `image::open` reads
/// from a file named `path` holding `bytes`: decoded in the format its
/// extension names, when that gives an 8-bit RGB image.
pub open spec fn file_rgb8(path: Seq<char>, bytes: Seq<u8>) -> Option<(u32, u32, Seq<u8>)> {
    match path_extension(path) {
        Some(ext) => rgb8_file(ext, bytes),
        None => None,
    }
}

/// The pixels of the thresholded image of a `w` by `h` RGB image with
/// samples `s`: black on the boundary colours, white elsewhere.
pub open spec fn threshold_pixels(w: int, h: int, s: Seq<u8>) -> Seq<u8> {
    Seq::new((w * h) as nat, |i: int| threshold_value((s[3 * i], s[3 * i + 1], s[3 * i + 2])))
}

/// The PNG files of the dark regions of the `w` by `h` grey-level pixels
/// `t`, in the order `separate_image` finds them.
pub open spec fn region_pngs(w: u32, h: u32, t: Seq<u8>) -> Seq<Option<Seq<u8>>> {
    let seeds = region_seeds(w as int, h as int, t);
    Seq::new(seeds.len(), |j: int| png_gray8(w, h, region_mask(w as int, h as int, t, seeds[j])))
}

/// Why converting an image file failed.
#[derive(Debug)]
pub enum FileError {
    /// The file does not hold an 8-bit RGB image in the format its name says.
    Unreadable,
    /// The result could not be encoded as PNG.
    Encode(image::ImageError),
    /// The archive of the regions could not be written.
    Archive(ArchiveError),
}

/// Whether `r` is what packing the PNG files `pngs` into an archive gives,
/// as the result of a file conversion.
pub open spec fn packed_outcome(pngs: Seq<Option<Seq<u8>>>, r: Result<Vec<u8>, FileError>) -> bool {
    match failure_from(pngs, 0) {
        None => r matches Ok(bytes) && bytes@ == stored_zip(entries_upto(pngs, pngs.len() as int)),
        Some(ArchiveStep::Open) => r matches Err(FileError::Archive(ArchiveError::Zip(_))),
        Some(ArchiveStep::Encode) => r matches Err(FileError::Archive(ArchiveError::Image(_))),
        Some(ArchiveStep::Write) => r matches Err(FileError::Archive(ArchiveError::Io(_))),
        Some(ArchiveStep::Close) => r matches Err(FileError::Archive(ArchiveError::Zip(_))),
    }
}

/// The RGB image in a file named `path` holding `bytes`, read as
/// `image::open` reads it; `None` when it holds no 8-bit RGB image in the
/// format that its extension names.
pub fn decode_image_file(path: &str, bytes: &[u8]) -> (img: Option<ImageRGB8>)
    ensures
        img.is_some() <==> file_rgb8(path@, bytes@).is_some(),
        img matches Some(i) ==> file_rgb8(path@, bytes@) == Some((rgb_dims(i).0, rgb_dims(i).1, rgb_samples(i))),
        img matches Some(i) ==> rgb_samples(i).len() == 3 * rgb_dims(i).0 * rgb_dims(i).1,
{
    match extension_of(path) {
        Some(ext) => ImageRGB8::decode_rgb8_file(ext.as_str(), bytes),
        None => None,
    }
}

/// The PNG file of the thresholded image of the RGB image in a file named
/// `path` holding `bytes`.
pub fn threshold_png(path: &str, bytes: &[u8]) -> (r: Result<Vec<u8>, FileError>)
    ensures
        match file_rgb8(path@, bytes@) {
            None => r matches Err(FileError::Unreadable),
            Some((w, h, s)) => match png_gray8(w, h, threshold_pixels(w as int, h as int, s)) {
                Some(png) => r matches Ok(out) && out@ == png,
                None => r matches Err(FileError::Encode(_)),
            },
        },
{
    let img = match decode_image_file(path, bytes) {
        Some(img) => img,
        None => {
            return Err(FileError::Unreadable);
        },
    };
    let thresholded = threshold_image_luma(&img);
    proof {
        let (w, h, s) = file_rgb8(path@, bytes@).unwrap();
        assert(s == rgb_samples(img) && (w, h) == rgb_dims(img));
        assert forall|i: int| 0 <= i < w * h implies #[trigger] thresholded.pixels()[i] == threshold_pixels(
            w as int,
            h as int,
            s,
        )[i] by {
            assert(thresholded.samples()[i] == threshold_value(img.pixel(i)));
        }
        assert(thresholded.pixels() =~= threshold_pixels(w as int, h as int, s));
    }
    match thresholded.encode_png() {
        Ok(png) => Ok(png),
        Err(e) => Err(FileError::Encode(e)),
    }
}

/// The zip archive of the dark regions of the thresholded image of the RGB
/// image in a file named `path` holding `bytes`: one PNG file per region, as
/// `archive_images` packs them.
pub fn separate_png(path: &str, bytes: &[u8]) -> (r: Result<Vec<u8>, FileError>)
    ensures
        match file_rgb8(path@, bytes@) {
            None => r matches Err(FileError::Unreadable),
            Some((w, h, s)) => {
                let pngs = region_pngs(w, h, threshold_pixels(w as int, h as int, s));
                &&& packed_outcome(pngs, r)
                &&& pngs.len() == 0 ==> r is Ok
            },
        },
{
    let img = match decode_image_file(path, bytes) {
        Some(img) => img,
        None => {
            return Err(FileError::Unreadable);
        },
    };
    let thresholded = threshold_image_luma(&img);
    proof {
        let (w, h) = (thresholded.w(), thresholded.h());
        assert forall|t: (int, int), q: (int, int)|
            in_bounds(w, h, t) && thresholded.samples()[idx(w, t)] == 0 && #[trigger] connected(
                w,
                h,
                thresholded.samples(),
                t,
                q,
            ) implies nothing_below(w, h, thresholded.samples().len() as int, q) by {}
    }
    let regions = separate_image(&thresholded);
    proof {
        let (w, h, s) = file_rgb8(path@, bytes@).unwrap();
        let t = threshold_pixels(w as int, h as int, s);
        assert(s == rgb_samples(img) && (w, h) == rgb_dims(img));
        assert forall|i: int| 0 <= i < w * h implies #[trigger] thresholded.samples()[i] == t[i] by {
            assert(thresholded.samples()[i] == threshold_value(img.pixel(i)));
        }
        assert(thresholded.samples() =~= t);
        assert forall|j: int| 0 <= j < regions@.len() implies #[trigger] regions@[j].pixels()
            == region_mask(w as int, h as int, t, region_seeds(w as int, h as int, t)[j]) by {
            assert(regions@[j].pixels() =~= regions@[j].samples());
        }
        assert(pngs_of(regions@) =~= region_pngs(w, h, t));
    }
    match archive_images(&regions) {
        Ok(archive) => Ok(archive),
        Err(e) => Err(FileError::Archive(e)),
    }
}

} // verus!
