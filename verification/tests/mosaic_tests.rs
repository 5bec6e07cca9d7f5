use mdnr_map_downloader::location::{Location, MapRectView};
use mdnr_map_downloader::mosaic::merge_tiles;
use mdnr_map_downloader::raster::ImageRGB8;

fn solid(w: u32, h: u32, c: [u8; 3]) -> ImageRGB8 {
    let mut s = Vec::new();
    for _ in 0..(w * h) {
        s.extend_from_slice(&c);
    }
    ImageRGB8::from_samples(w, h, s).unwrap()
}

#[test]
fn tiles_are_laid_row_by_row() {
    let view = MapRectView::new(Location::new(0, 0, 16), 2, 2);
    let tiles = vec![
        solid(1, 1, [1, 1, 1]),
        solid(1, 1, [2, 2, 2]),
        solid(1, 1, [3, 3, 3]),
        solid(1, 1, [4, 4, 4]),
    ];
    let m = merge_tiles(&tiles, &view);
    assert_eq!(m.dimensions(), (2, 2));
    assert_eq!(m.into_samples(), vec![1, 1, 1, 2, 2, 2, 3, 3, 3, 4, 4, 4]);
}

#[test]
fn missing_tiles_stay_black() {
    let view = MapRectView::new(Location::new(0, 0, 16), 2, 2);
    let tiles = vec![solid(2, 1, [9, 8, 7]), solid(2, 1, [5, 5, 5]), solid(2, 1, [1, 2, 3])];
    let m = merge_tiles(&tiles, &view);
    assert_eq!(m.dimensions(), (4, 2));
    assert_eq!(
        m.into_samples(),
        vec![
            9, 8, 7, 9, 8, 7, 5, 5, 5, 5, 5, 5, //
            1, 2, 3, 1, 2, 3, 0, 0, 0, 0, 0, 0,
        ]
    );
}

#[test]
fn tile_pixels_keep_their_offsets() {
    let view = MapRectView::new(Location::new(0, 0, 16), 1, 1);
    let tile = ImageRGB8::from_samples(2, 2, (0u8..12).collect()).unwrap();
    let m = merge_tiles(&vec![tile], &view);
    assert_eq!(m.into_samples(), (0u8..12).collect::<Vec<u8>>());
}

use mdnr_map_downloader::mosaic::mosaic_from_png;

fn png_of(w: u32, h: u32, samples: Vec<u8>) -> Vec<u8> {
    let img = image::RgbImage::from_raw(w, h, samples).unwrap();
    let mut out = std::io::Cursor::new(Vec::new());
    img.write_to(&mut out, image::ImageFormat::Png).unwrap();
    out.into_inner()
}

#[test]
fn png_tiles_are_decoded_and_laid_out() {
    let view = MapRectView::new(Location::new(0, 0, 16), 2, 1);
    let tiles = vec![png_of(1, 1, vec![10, 20, 30]), png_of(1, 1, vec![40, 50, 60])];
    let m = mosaic_from_png(&tiles, &view).expect("tiles decode");
    assert_eq!(m.dimensions(), (2, 1));
    assert_eq!(m.samples_len(), 6);
    assert_eq!(m.into_samples(), vec![10, 20, 30, 40, 50, 60]);
}

#[test]
fn undecodable_tile_gives_none() {
    let view = MapRectView::new(Location::new(0, 0, 16), 2, 1);
    let tiles = vec![png_of(1, 1, vec![1, 2, 3]), vec![1, 2, 3, 4]];
    assert!(mosaic_from_png(&tiles, &view).is_none());
}

#[test]
fn tile_larger_than_first_gives_none() {
    let view = MapRectView::new(Location::new(0, 0, 16), 2, 1);
    let tiles = vec![png_of(1, 1, vec![1, 2, 3]), png_of(2, 1, vec![0; 6])];
    assert!(mosaic_from_png(&tiles, &view).is_none());
}

#[test]
fn no_tiles_or_too_many_give_none() {
    let view = MapRectView::new(Location::new(0, 0, 16), 1, 1);
    assert!(mosaic_from_png(&Vec::new(), &view).is_none());
    let tiles = vec![png_of(1, 1, vec![1, 2, 3]), png_of(1, 1, vec![1, 2, 3])];
    assert!(mosaic_from_png(&tiles, &view).is_none());
}

#[test]
fn smaller_tile_covers_part_of_its_place() {
    let view = MapRectView::new(Location::new(0, 0, 16), 2, 1);
    let tiles = vec![png_of(2, 2, (1u8..=12).collect()), png_of(1, 1, vec![40, 50, 60])];
    let m = mosaic_from_png(&tiles, &view).expect("tiles decode");
    assert_eq!(m.dimensions(), (4, 2));
    assert_eq!(
        m.into_samples(),
        vec![1, 2, 3, 4, 5, 6, 40, 50, 60, 0, 0, 0, 7, 8, 9, 10, 11, 12, 0, 0, 0, 0, 0, 0]
    );
}
