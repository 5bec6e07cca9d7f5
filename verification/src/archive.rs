//! Packing region images into a zip archive of PNG files, and the name of
//! the archive file.

use vstd::prelude::*;
use vstd::string::StringExecFns;
use zip::write::SimpleFileOptions;
use zip::CompressionMethod;
use crate::raster::{ImageBW, bw_dims, png_gray8};
use crate::text::{decimal, push_decimal, digits_value, lemma_decimal_value, lemma_decimal_injective};

verus! {

#[verifier::external_type_specification]
#[verifier::external_body]
pub struct ExZipError(zip::result::ZipError);

#[verifier::external_type_specification]
#[verifier::external_body]
pub struct ExIoError(std::io::Error);

/// The extension of `path` as `std::path::Path::extension` reads it: the part
/// of the file name after its last dot, if any.
pub uninterp spec fn path_extension(path: Seq<char>) -> Option<Seq<char>>;

/// `Path::extension` of `path`, as a string.
#[verifier::external_body]
pub(crate) fn extension_of(path: &str) -> (ext: Option<String>)
    ensures
        ext matches Some(e) ==> path_extension(path@) == Some(e@),
        ext is None ==> path_extension(path@).is_none(),
{
    std::path::Path::new(path).extension().and_then(|e| e.to_str()).map(|e| e.to_string())
}

/// The file the archive is written to: `out` itself when its extension is
/// `zip`, otherwise `out` with `.zip` appended.
pub fn archive_path(out: &str) -> (p: String)
    ensures
        p@ == if path_extension(out@) == Some("zip"@) {
            out@
        } else {
            out@ + ".zip"@
        },
{
    let zip = String::from_str("zip");
    let is_zip = match extension_of(out) {
        Some(ext) => ext == zip,
        None => false,
    };
    if is_zip {
        String::from_str(out)
    } else {
        String::from_str(out).concat(".zip")
    }
}

/// A zip archive being written into memory.
#[verifier::external_body]
pub struct ZipBuilder {
    writer: zip::ZipWriter<std::io::Cursor<Vec<u8>>>,
}

/// The entries written into a zip archive so far, as names and contents;
/// the last one is the one still open.
pub uninterp spec fn zip_entries(z: ZipBuilder) -> Seq<(Seq<char>, Seq<u8>)>;

/// Every call on the writer so far has succeeded, so that its state is the
/// one its entries determine.
pub uninterp spec fn zip_sound(z: ZipBuilder) -> bool;

/// Whether `zip`, having written `entries`, accepts a new stored entry named
/// `name`.
pub uninterp spec fn zip_opens(entries: Seq<(Seq<char>, Seq<u8>)>, name: Seq<char>) -> bool;

/// Whether `zip`, having written `entries` (the last one open), accepts
/// `data` as more contents of the open entry.
pub uninterp spec fn zip_takes(entries: Seq<(Seq<char>, Seq<u8>)>, data: Seq<u8>) -> bool;

/// Whether `zip`, having written `entries`, finishes the archive.
pub uninterp spec fn zip_closes(entries: Seq<(Seq<char>, Seq<u8>)>) -> bool;

/// The bytes of the zip archive that `zip` writes for the given entries, each
/// stored without compression.
pub uninterp spec fn stored_zip(entries: Seq<(Seq<char>, Seq<u8>)>) -> Seq<u8>;

impl ZipBuilder {
    /// `ZipWriter::new` over an empty in-memory buffer.
    #[verifier::external_body]
    fn new() -> (z: ZipBuilder)
        ensures
            zip_entries(z) == Seq::<(Seq<char>, Seq<u8>)>::empty(),
            zip_sound(z),
    {
        ZipBuilder { writer: zip::ZipWriter::new(std::io::Cursor::new(Vec::new())) }
    }

    /// `ZipWriter::start_file` with stored (uncompressed) entries: opens a new
    /// entry named `name`. The writer works in memory, so whether it succeeds
    /// depends on what was written before and on `name` alone.
    #[verifier::external_body]
    fn start_stored(&mut self, name: &str) -> (r: Result<(), zip::result::ZipError>)
        requires
            zip_sound(*old(self)),
        ensures
            r is Ok <==> zip_opens(zip_entries(*old(self)), name@),
            r is Ok ==> zip_sound(*final(self)) && zip_entries(*final(self)) == zip_entries(*old(self)).push(
                (name@, Seq::<u8>::empty()),
            ),
    {
        let options = SimpleFileOptions::default().compression_method(CompressionMethod::Stored);
        self.writer.start_file(name, options)
    }

    /// `Write::write_all`: appends `data` to the open entry. The writer works
    /// in memory, so whether it succeeds depends on what was written before
    /// and on `data` alone.
    #[verifier::external_body]
    fn write_all(&mut self, data: &[u8]) -> (r: Result<(), std::io::Error>)
        requires
            zip_sound(*old(self)),
            zip_entries(*old(self)).len() > 0,
        ensures
            r is Ok <==> zip_takes(zip_entries(*old(self)), data@),
            r is Ok ==> zip_sound(*final(self)) && zip_entries(*final(self)) == zip_entries(*old(self)).update(
                zip_entries(*old(self)).len() - 1,
                (zip_entries(*old(self)).last().0, zip_entries(*old(self)).last().1 + data@),
            ),
    {
        std::io::Write::write_all(&mut self.writer, data)
    }

    /// `ZipWriter::finish`: the bytes of the finished archive. An archive with
    /// no entries always finishes: only the end of the central directory is
    /// written, into memory.
    #[verifier::external_body]
    fn finish(self) -> (r: Result<Vec<u8>, zip::result::ZipError>)
        requires
            zip_sound(self),
        ensures
            r is Ok <==> zip_closes(zip_entries(self)),
            zip_entries(self).len() == 0 ==> r is Ok,
            r matches Ok(bytes) ==> bytes@ == stored_zip(zip_entries(self)),
    {
        self.writer.finish().map(|cursor| cursor.into_inner())
    }
}

/// Why packing the region images failed.
#[derive(Debug)]
pub enum ArchiveError {
    Image(image::ImageError),
    Zip(zip::result::ZipError),
    Io(std::io::Error),
}

/// A step of writing the archive: opening an entry, encoding its image as
/// PNG, writing the PNG file into the entry, finishing the archive.
#[derive(PartialEq, Eq, Structural, Debug, Clone, Copy)]
pub enum ArchiveStep {
    Open,
    Encode,
    Write,
    Close,
}

/// The name of the `i`-th image in the archive: its number, then `.png`.
pub open spec fn entry_name(i: int) -> Seq<char> {
    decimal(i as nat) + ".png"@
}

/// Entry `i` of an archive is named by the decimal digits of `i` followed by
/// `.png`, so that distinct entries have distinct names.
pub proof fn lemma_entry_names(i: int, j: int)
    requires
        0 <= i,
        0 <= j,
    ensures
        entry_name(i) == decimal(i as nat) + ".png"@,
        digits_value(entry_name(i).subrange(0, entry_name(i).len() - 4)) == i,
        i != j ==> entry_name(i) != entry_name(j),
{
    reveal_strlit(".png");
    let ni = entry_name(i);
    let nj = entry_name(j);
    assert(ni.subrange(0, ni.len() - 4) =~= decimal(i as nat));
    assert(nj.subrange(0, nj.len() - 4) =~= decimal(j as nat));
    lemma_decimal_value(i as nat);
    if ni == nj {
        lemma_decimal_injective(i as nat, j as nat);
    }
}

/// The PNG file of a grey-level image, if `image` can encode it.
pub open spec fn png_of(img: ImageBW) -> Option<Seq<u8>> {
    png_gray8(bw_dims(img).0, bw_dims(img).1, img.pixels())
}

/// The PNG files of `images`, in order.
pub open spec fn pngs_of(images: Seq<ImageBW>) -> Seq<Option<Seq<u8>>> {
    Seq::new(images.len(), |i: int| png_of(images[i]))
}

/// The first `n` entries of the archive of the PNG files `pngs`: the `i`-th
/// named `i.png` and holding `pngs[i]`.
pub open spec fn entries_upto(pngs: Seq<Option<Seq<u8>>>, n: int) -> Seq<(Seq<char>, Seq<u8>)> {
    Seq::new(n as nat, |i: int| (entry_name(i), pngs[i].unwrap()))
}

/// The entries of the archive of `images`.
pub open spec fn archive_entries(images: Seq<ImageBW>) -> Seq<(Seq<char>, Seq<u8>)> {
    entries_upto(pngs_of(images), images.len() as int)
}

/// The first step that fails when the archive of `pngs` is written from its
/// `i`-th entry on, the earlier ones written; `None` when none fails.
pub open spec fn failure_from(pngs: Seq<Option<Seq<u8>>>, i: nat) -> Option<ArchiveStep>
    decreases pngs.len() - i,
{
    if i >= pngs.len() {
        if zip_closes(entries_upto(pngs, pngs.len() as int)) {
            None
        } else {
            Some(ArchiveStep::Close)
        }
    } else if !zip_opens(entries_upto(pngs, i as int), entry_name(i as int)) {
        Some(ArchiveStep::Open)
    } else if pngs[i as int] is None {
        Some(ArchiveStep::Encode)
    } else if !zip_takes(
        entries_upto(pngs, i as int).push((entry_name(i as int), Seq::<u8>::empty())),
        pngs[i as int].unwrap(),
    ) {
        Some(ArchiveStep::Write)
    } else {
        failure_from(pngs, i + 1)
    }
}

/// The first step that fails when the archive of `images` is written.
pub open spec fn archive_failure(images: Seq<ImageBW>) -> Option<ArchiveStep> {
    failure_from(pngs_of(images), 0)
}

/// Whether `r` is what packing the PNG files `pngs` gives: the archive of
/// their entries when no step fails, otherwise the error of the first step
/// that fails.
pub open spec fn archive_outcome(pngs: Seq<Option<Seq<u8>>>, r: Result<Vec<u8>, ArchiveError>) -> bool {
    match failure_from(pngs, 0) {
        None => r matches Ok(bytes) && bytes@ == stored_zip(entries_upto(pngs, pngs.len() as int)),
        Some(ArchiveStep::Open) => r matches Err(ArchiveError::Zip(_)),
        Some(ArchiveStep::Encode) => r matches Err(ArchiveError::Image(_)),
        Some(ArchiveStep::Write) => r matches Err(ArchiveError::Io(_)),
        Some(ArchiveStep::Close) => r matches Err(ArchiveError::Zip(_)),
    }
}

/// Packs `images` into a zip archive in memory, the `i`-th as the stored
/// entry `i.png` holding its PNG file. Step by step (open the entry, encode
/// the image, write it in), and then finishing the archive; the first step
/// that fails ends it with that step's error.
pub fn archive_images(images: &Vec<ImageBW>) -> (r: Result<Vec<u8>, ArchiveError>)
    ensures
        archive_outcome(pngs_of(images@), r),
        r is Ok <==> archive_failure(images@) is None,
        r matches Ok(bytes) ==> bytes@ == stored_zip(archive_entries(images@)),
        images@.len() == 0 ==> r is Ok,
{
    let ghost pngs = pngs_of(images@);
    let mut zip = ZipBuilder::new();
    let mut i: usize = 0;
    while i < images.len()
        invariant
            pngs == pngs_of(images@),
            0 <= i <= images@.len(),
            zip_sound(zip),
            zip_entries(zip) == entries_upto(pngs, i as int),
            failure_from(pngs, 0) == failure_from(pngs, i as nat),
        decreases images@.len() - i,
    {
        let mut name = String::new();
        push_decimal(&mut name, i as u64);
        name.append(".png");
        let ghost before = zip_entries(zip);
        match zip.start_stored(name.as_str()) {
            Ok(()) => {},
            Err(e) => {
                return Err(ArchiveError::Zip(e));
            },
        }
        let png = match images[i].encode_png() {
            Ok(bytes) => bytes,
            Err(e) => {
                return Err(ArchiveError::Image(e));
            },
        };
        match zip.write_all(png.as_slice()) {
            Ok(()) => {},
            Err(e) => {
                return Err(ArchiveError::Io(e));
            },
        }
        proof {
            assert(pngs[i as int] == Some(png@));
            assert(zip_entries(zip) =~= entries_upto(pngs, i + 1)) by {
                assert(Seq::<u8>::empty() + png@ =~= png@);
            }
        }
        i = i + 1;
    }
    match zip.finish() {
        Ok(bytes) => Ok(bytes),
        Err(e) => Err(ArchiveError::Zip(e)),
    }
}

} // verus!
