use std::io::Read;

use mdnr_map_downloader::archive::{archive_images, archive_path};
use mdnr_map_downloader::raster::ImageBW;

#[test]
fn zip_extension_is_kept() {
    assert_eq!(archive_path("seperated.zip"), "seperated.zip");
    assert_eq!(archive_path("dir/out.zip"), "dir/out.zip");
}

#[test]
fn other_names_get_zip_appended() {
    assert_eq!(archive_path("out"), "out.zip");
    assert_eq!(archive_path("layers.png"), "layers.png.zip");
    assert_eq!(archive_path(".zip"), ".zip.zip");
    assert_eq!(archive_path("a.ZIP"), "a.ZIP.zip");
}

#[test]
fn archive_holds_numbered_pngs() {
    let a = ImageBW::from_samples(2, 1, vec![0, 255]).unwrap();
    let b = ImageBW::from_samples(2, 1, vec![255, 0]).unwrap();
    let bytes = archive_images(&vec![a, b]).expect("archive written");
    let mut zip = zip::ZipArchive::new(std::io::Cursor::new(bytes)).unwrap();
    assert_eq!(zip.len(), 2);
    for (i, expected) in [vec![0u8, 255], vec![255u8, 0]].iter().enumerate() {
        let mut entry = zip.by_index(i).unwrap();
        assert_eq!(entry.name().unwrap().to_string(), format!("{}.png", i));
        let mut png = Vec::new();
        entry.read_to_end(&mut png).unwrap();
        let img = image::load_from_memory_with_format(&png, image::ImageFormat::Png)
            .unwrap()
            .into_luma8();
        assert_eq!(img.dimensions(), (2, 1));
        assert_eq!(&img.into_raw(), expected);
    }
}

#[test]
fn empty_archive() {
    let bytes = archive_images(&Vec::new()).expect("archive written");
    let zip = zip::ZipArchive::new(std::io::Cursor::new(bytes)).unwrap();
    assert_eq!(zip.len(), 0);
}
