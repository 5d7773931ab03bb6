use fiducial::raster::GrayImage;
use fiducial::threshold::{add_border, binarize, create_threshold};

fn raster(width: u32, height: u32, value: &dyn Fn(u32, u32) -> u8) -> GrayImage {
    let mut data = Vec::new();
    for y in 0..height {
        for x in 0..width {
            data.push(value(x, y));
        }
    }
    GrayImage::from_raw(width, height, data).unwrap()
}

#[test]
fn raster_round_trip() {
    let mut img = raster(3, 2, &|x, y| (10 * y + x) as u8);
    assert_eq!(img.dimensions(), (3, 2));
    assert_eq!(img.get(2, 1), Some(12));
    assert_eq!(img.get(3, 1), None);
    assert_eq!(img.get(0, 2), None);
    assert!(img.set(1, 0, 99));
    assert!(!img.set(1, 2, 99));
    assert_eq!(img.get(1, 0), Some(99));
    assert_eq!(img.get(0, 0), Some(0));
    assert_eq!(img.get(1, 1), Some(11));
    assert!(GrayImage::from_raw(3, 2, vec![0; 5]).is_none());
    assert!(GrayImage::from_raw(3, 2, vec![0; 7]).is_none());
    let blank = GrayImage::blank(4, 3);
    assert_eq!(blank.dimensions(), (4, 3));
    assert_eq!(blank.get(3, 2), Some(0));
}

#[test]
fn threshold_needs_multiples_of_eight() {
    assert!(create_threshold(&raster(12, 16, &|_, _| 0)).is_none());
    assert!(create_threshold(&raster(16, 12, &|_, _| 0)).is_none());
    assert!(create_threshold(&raster(16, 16, &|_, _| 0)).is_some());
    assert!(binarize(&raster(7, 8, &|_, _| 0), 50).is_none());
    assert!(create_threshold(&raster(0, 0, &|_, _| 0)).is_some());
}

#[test]
fn threshold_of_a_flat_raster_is_its_value() {
    let map = create_threshold(&raster(24, 16, &|_, _| 77)).unwrap();
    for y in 0..16 {
        for x in 0..24 {
            assert_eq!(map.get(x, y), Some(77));
        }
    }
}

#[test]
fn threshold_is_weighed_between_block_means() {
    // blocks of mean 16 (left) and 80 (right), one row of blocks above another of mean 48
    let img = raster(16, 16, &|x, y| if y >= 8 { 48 } else if x < 8 { 16 } else { 80 });
    let map = create_threshold(&img).unwrap();
    // at the corner of the first block its mean alone counts
    assert_eq!(map.get(0, 0), Some(16));
    // two pixels to the right: (80 * 2 + 16 * 6) * 8 / 64 = 32
    assert_eq!(map.get(2, 0), Some(32));
    // three rows down as well: upper = 256, lower = 48 * 8 = 384, (384 * 3 + 256 * 5) / 64 = 38
    assert_eq!(map.get(2, 3), Some(38));
    // the last column and the last row of blocks take the mean of their block
    assert_eq!(map.get(8, 0), Some(80));
    assert_eq!(map.get(15, 7), Some(80));
    assert_eq!(map.get(3, 8), Some(48));
    assert_eq!(map.get(12, 15), Some(48));
}

#[test]
fn threshold_mean_rounds_down() {
    // one pixel of 63 in a block of zeros has mean 0, one of 64 has mean 1
    let low = create_threshold(&raster(8, 8, &|x, y| if x == 3 && y == 4 { 63 } else { 0 })).unwrap();
    assert_eq!(low.get(0, 0), Some(0));
    let high = create_threshold(&raster(8, 8, &|x, y| if x == 3 && y == 4 { 64 } else { 0 })).unwrap();
    assert_eq!(high.get(0, 0), Some(1));
}

#[test]
fn border_is_blackened() {
    let mut img = raster(5, 4, &|_, _| 200);
    add_border(&mut img);
    for y in 0..4 {
        for x in 0..5 {
            let rim = x == 0 || y == 0 || x == 4 || y == 3;
            assert_eq!(img.get(x, y), Some(if rim { 0 } else { 200 }));
        }
    }
    let mut empty = raster(0, 0, &|_, _| 0);
    add_border(&mut empty);
    assert_eq!(empty.dimensions(), (0, 0));
    let mut line = raster(3, 1, &|_, _| 9);
    add_border(&mut line);
    assert_eq!(line.get(1, 0), Some(0));
}

#[test]
fn binarize_tells_bright_from_dark() {
    // a bright square on a dark ground
    let img = raster(32, 32, &|x, y| if (12..20).contains(&x) && (12..20).contains(&y) { 220 } else { 30 });
    let bin = binarize(&img, 10).unwrap();
    for y in 0..32 {
        for x in 0..32 {
            let inside = (12..20).contains(&x) && (12..20).contains(&y);
            assert_eq!(bin.get(x, y), Some(if inside { 255 } else { 0 }), "at {} {}", x, y);
        }
    }
}

#[test]
fn binarize_keeps_shadows_dark_and_glare_bright() {
    // a flat raster equals its threshold: nothing is brighter than it
    let flat = binarize(&raster(16, 16, &|_, _| 100), 50).unwrap();
    assert_eq!(flat.get(5, 5), Some(0));
    // nearly saturated pixels are foreground although none exceeds the threshold
    let glare = binarize(&raster(16, 16, &|_, _| 250), 50).unwrap();
    assert_eq!(glare.get(5, 5), Some(255));
    assert_eq!(glare.get(0, 5), Some(0));
    assert_eq!(glare.get(15, 15), Some(0));
    // 205 is not above 255 - 50
    let edge = binarize(&raster(16, 16, &|_, _| 205), 50).unwrap();
    assert_eq!(edge.get(5, 5), Some(0));
    let over = binarize(&raster(16, 16, &|_, _| 206), 50).unwrap();
    assert_eq!(over.get(5, 5), Some(255));
    // a pixel above its threshold but not above the lower bound stays dark
    let shadow = binarize(&raster(16, 16, &|x, y| if x == 5 && y == 5 { 40 } else { 0 }), 50).unwrap();
    assert_eq!(shadow.get(5, 5), Some(0));
    let lit = binarize(&raster(16, 16, &|x, y| if x == 5 && y == 5 { 51 } else { 0 }), 50).unwrap();
    assert_eq!(lit.get(5, 5), Some(255));
}
