use std::io::Read;

use mdnr_map_downloader::convert::{decode_image_file, separate_png, threshold_png, FileError};

fn rgb_png(w: u32, h: u32, samples: Vec<u8>) -> Vec<u8> {
    let img = image::RgbImage::from_raw(w, h, samples).unwrap();
    let mut out = std::io::Cursor::new(Vec::new());
    img.write_to(&mut out, image::ImageFormat::Png).unwrap();
    out.into_inner()
}

const B: [u8; 3] = [85, 199, 251];
const O: [u8; 3] = [1, 2, 3];

fn pixels(colours: &[[u8; 3]]) -> Vec<u8> {
    colours.iter().flat_map(|c| c.iter().copied()).collect()
}

fn gray_of(png: &[u8]) -> ((u32, u32), Vec<u8>) {
    let img = image::load_from_memory_with_format(png, image::ImageFormat::Png).unwrap();
    assert!(img.as_luma8().is_some());
    let img = img.into_luma8();
    (img.dimensions(), img.into_raw())
}

#[test]
fn decoded_file_keeps_its_pixels() {
    let samples = pixels(&[B, O, O, B]);
    let img = decode_image_file("map.png", &rgb_png(2, 2, samples.clone())).unwrap();
    assert_eq!(img.dimensions(), (2, 2));
    assert_eq!(img.into_samples(), samples);
}

#[test]
fn upper_case_extension_is_read() {
    assert!(decode_image_file("MAP.PNG", &rgb_png(1, 1, vec![1, 2, 3])).is_some());
}

#[test]
fn file_without_known_extension_is_unreadable() {
    let png = rgb_png(1, 1, vec![1, 2, 3]);
    assert!(decode_image_file("map", &png).is_none());
    assert!(decode_image_file("map.xyz", &png).is_none());
    assert!(matches!(threshold_png("map.xyz", &png), Err(FileError::Unreadable)));
}

#[test]
fn wrong_format_or_pixels_is_unreadable() {
    let png = rgb_png(1, 1, vec![1, 2, 3]);
    assert!(decode_image_file("map.jpg", &png).is_none());
    let rgba = image::RgbaImage::from_raw(1, 1, vec![1, 2, 3, 4]).unwrap();
    let mut out = std::io::Cursor::new(Vec::new());
    rgba.write_to(&mut out, image::ImageFormat::Png).unwrap();
    assert!(matches!(threshold_png("map.png", out.get_ref()), Err(FileError::Unreadable)));
    assert!(matches!(separate_png("map.png", out.get_ref()), Err(FileError::Unreadable)));
}

#[test]
fn threshold_png_writes_boundaries_black() {
    let png = rgb_png(3, 1, pixels(&[B, O, [4, 156, 207]]));
    let out = threshold_png("in.png", &png).expect("thresholded");
    assert_eq!(gray_of(&out), ((3, 1), vec![0, 255, 0]));
}

#[test]
fn separate_png_packs_one_png_per_region() {
    // two regions: the left column and the lone pixel at the right
    let png = rgb_png(3, 2, pixels(&[B, O, B, B, O, O]));
    let archive = separate_png("in.png", &png).expect("archive written");
    let mut zip = zip::ZipArchive::new(std::io::Cursor::new(archive)).unwrap();
    assert_eq!(zip.len(), 2);
    let expected = [vec![0u8, 255, 255, 0, 255, 255], vec![255u8, 255, 0, 255, 255, 255]];
    for (i, want) in expected.iter().enumerate() {
        let mut entry = zip.by_index(i).unwrap();
        assert_eq!(entry.name().unwrap().to_string(), format!("{}.png", i));
        let mut data = Vec::new();
        entry.read_to_end(&mut data).unwrap();
        assert_eq!(gray_of(&data), ((3, 2), want.clone()));
    }
}

#[test]
fn separate_png_of_image_without_regions_is_empty_archive() {
    let png = rgb_png(2, 1, pixels(&[O, O]));
    let archive = separate_png("in.png", &png).expect("archive written");
    let zip = zip::ZipArchive::new(std::io::Cursor::new(archive)).unwrap();
    assert_eq!(zip.len(), 0);
}
