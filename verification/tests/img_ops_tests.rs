use mdnr_map_downloader::img_ops::{separate_image, threshold_image_luma};
use mdnr_map_downloader::raster::{ImageBW, ImageRGB8};

fn bw(width: u32, height: u32, samples: Vec<u8>) -> ImageBW {
    ImageBW::from_samples(width, height, samples).expect("enough samples")
}

#[test]
fn rgb_from_too_few_samples_is_none() {
    assert!(ImageRGB8::from_samples(2, 2, vec![0; 11]).is_none());
    assert!(ImageRGB8::from_samples(2, 2, vec![0; 12]).is_some());
}

#[test]
fn bw_from_too_few_samples_is_none() {
    assert!(ImageBW::from_samples(3, 2, vec![0; 5]).is_none());
    assert!(ImageBW::from_samples(3, 2, vec![0; 6]).is_some());
}

#[test]
fn bw_samples_round_trip() {
    let img = bw(2, 2, vec![1, 2, 3, 4]);
    assert_eq!(img.width(), 2);
    assert_eq!(img.height(), 2);
    assert_eq!(img.into_samples(), vec![1, 2, 3, 4]);
}

#[test]
fn threshold_marks_boundary_colours_black() {
    let samples = vec![
        85, 199, 251, 0, 0, 0, 4, 156, 207, //
        50, 157, 185, 255, 255, 255, 85, 199, 250,
    ];
    let img = ImageRGB8::from_samples(3, 2, samples).unwrap();
    let out = threshold_image_luma(&img);
    assert_eq!(out.width(), 3);
    assert_eq!(out.height(), 2);
    assert_eq!(out.into_samples(), vec![0, 255, 0, 0, 255, 255]);
}

#[test]
fn threshold_all_boundary_colours() {
    let colours: [(u8, u8, u8); 7] = [
        (85, 199, 251),
        (68, 189, 242),
        (52, 181, 232),
        (20, 165, 213),
        (40, 172, 218),
        (4, 156, 207),
        (50, 157, 185),
    ];
    let mut samples = Vec::new();
    for c in colours.iter() {
        samples.push(c.0);
        samples.push(c.1);
        samples.push(c.2);
    }
    samples.extend_from_slice(&[68, 189, 243]);
    let img = ImageRGB8::from_samples(8, 1, samples).unwrap();
    let out = threshold_image_luma(&img).into_samples();
    assert_eq!(out, vec![0, 0, 0, 0, 0, 0, 0, 255]);
}

#[test]
fn threshold_empty_image() {
    let img = ImageRGB8::from_samples(0, 5, vec![]).unwrap();
    let out = threshold_image_luma(&img);
    assert_eq!(out.width(), 0);
    assert_eq!(out.height(), 5);
    assert!(out.into_samples().is_empty());
}

#[test]
fn separate_finds_regions_in_row_major_order() {
    let img = bw(
        4,
        3,
        vec![
            0, 255, 255, 0, //
            255, 0, 255, 255, //
            255, 255, 255, 128,
        ],
    );
    let regions = separate_image(&img);
    assert_eq!(regions.len(), 2);
    let masks: Vec<Vec<u8>> = regions.into_iter().map(|r| r.into_samples()).collect();
    assert_eq!(
        masks[0],
        vec![0, 255, 255, 255, 255, 0, 255, 255, 255, 255, 255, 255]
    );
    assert_eq!(
        masks[1],
        vec![255, 255, 255, 0, 255, 255, 255, 255, 255, 255, 255, 255]
    );
}

#[test]
fn separate_joins_through_grey_pixels() {
    let img = bw(3, 1, vec![0, 100, 0]);
    let regions = separate_image(&img);
    assert_eq!(regions.len(), 1);
    assert_eq!(regions.into_iter().next().unwrap().into_samples(), vec![0, 0, 0]);
}

#[test]
fn separate_ignores_regions_without_black() {
    let img = bw(3, 2, vec![255, 7, 255, 255, 255, 255]);
    assert!(separate_image(&img).is_empty());
}

#[test]
fn separate_white_image_has_no_regions() {
    let img = bw(2, 2, vec![255; 4]);
    assert!(separate_image(&img).is_empty());
}

#[test]
fn separate_regions_partition_thresholded_map() {
    // a ring of boundary colour around another colour, and a separate dot
    let band = [1u8, 2, 3];
    let edge = [85u8, 199, 251];
    let mut samples = Vec::new();
    let layout = [
        [1, 1, 1, 0, 0],
        [1, 0, 1, 0, 1],
        [1, 1, 1, 0, 0],
    ];
    for row in layout.iter() {
        for &v in row.iter() {
            let c = if v == 1 { edge } else { band };
            samples.extend_from_slice(&c);
        }
    }
    let img = ImageRGB8::from_samples(5, 3, samples).unwrap();
    let thresholded = threshold_image_luma(&img);
    let black: Vec<u8> = layout
        .iter()
        .flat_map(|r| r.iter().map(|&v| if v == 1 { 0u8 } else { 255u8 }))
        .collect();
    let regions = separate_image(&thresholded);
    assert_eq!(regions.len(), 2);
    let masks: Vec<Vec<u8>> = regions.into_iter().map(|r| r.into_samples()).collect();
    for i in 0..15 {
        let in_first = masks[0][i] == 0;
        let in_second = masks[1][i] == 0;
        assert!(!(in_first && in_second));
        assert_eq!(black[i] == 0, in_first || in_second);
    }
    assert_eq!(masks[1][9], 0);
}

#[test]
fn separate_reads_only_the_pixels_of_a_longer_buffer() {
    // the region stays above the bottom row, so the extra sample is never read
    let img = bw(3, 2, vec![0, 255, 255, 255, 255, 255, 9]);
    let regions = separate_image(&img);
    assert_eq!(regions.len(), 1);
    assert_eq!(
        regions.into_iter().next().unwrap().into_samples(),
        vec![0, 255, 255, 255, 255, 255]
    );
}
