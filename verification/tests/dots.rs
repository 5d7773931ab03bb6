use fiducial::dots::{dilate_fv, refine_moments, try_dilate_fv};
use fiducial::raster::GrayImage;
use fiducial::segmentation::{to_topo, AugmentedLabel, FeatureVector};

fn raster(width: u32, height: u32, value: &dyn Fn(u32, u32) -> u8) -> GrayImage {
    let mut data = Vec::new();
    for y in 0..height {
        for x in 0..width {
            data.push(value(x, y));
        }
    }
    GrayImage::from_raw(width, height, data).unwrap()
}

fn in_dot(x: u32, y: u32) -> bool {
    (14..=16).contains(&x) && (14..=16).contains(&y)
}

#[test]
fn ring_around_a_dot_is_weighed_in() {
    // a dark dot of three by three pixels in a white raster
    let bin = raster(32, 32, &|x, y| if in_dot(x, y) { 0 } else { 255 });
    let grey = raster(32, 32, &|x, y| if in_dot(x, y) { 20 } else { 100 });
    let topo = to_topo(&bin, &grey);
    let mut dot = topo[0];
    assert!(!dot.color);
    assert_eq!(dot.area, 9);
    assert_eq!(dot.bounding_box, [(14, 14), (16, 16)]);
    assert_eq!(dot.zom, 9 * 235);
    assert_eq!(dot.fom, [235 * 135, 235 * 135]);
    dilate_fv(&bin, &grey, &mut dot);
    // sixteen pixels of weight 155 lie around the dot; their columns add up to 240
    assert_eq!(dot.area, 9);
    assert_eq!(dot.bounding_box, [(14, 14), (16, 16)]);
    assert_eq!(dot.zom, 9 * 235 + 16 * 155);
    assert_eq!(dot.fom, [235 * 135 + 155 * 240, 235 * 135 + 155 * 240]);
    assert_eq!(dot.get_com(), (15, 15));
}

#[test]
fn ring_leaves_out_other_dark_pixels() {
    // a second dark pixel touches the ring of the dot at a corner
    let dark = |x: u32, y: u32| in_dot(x, y) || (x == 18 && y == 18) || (x == 17 && y == 17);
    let bin = raster(32, 32, &|x, y| if dark(x, y) { 0 } else { 255 });
    let grey = raster(32, 32, &|_, _| 55);
    let mut dot = FeatureVector::new(14, 14, 55, false, AugmentedLabel::bg());
    dot.bounding_box = [(14, 14), (16, 16)];
    dot.max_x = 16;
    let before = dot;
    dilate_fv(&bin, &grey, &mut dot);
    // (17, 17) is dark and linked to the dot over no edge, so fifteen white pixels are left
    assert_eq!(dot.zom - before.zom, 15 * 200);
    assert_eq!(dot.fom[0] - before.fom[0], 200 * (240 - 17));
    assert_eq!(dot.fom[1] - before.fom[1], 200 * (240 - 17));
}

#[test]
fn dot_near_the_rim_is_left_alone() {
    let bin = raster(32, 32, &|x, y| if x <= 2 && y == 10 { 0 } else { 255 });
    let grey = raster(32, 32, &|_, _| 90);
    let mut dot = FeatureVector::new(0, 10, 90, false, AugmentedLabel::bg());
    dot.bounding_box = [(0, 10), (2, 10)];
    dot.max_x = 2;
    let before = dot;
    assert!(try_dilate_fv(&bin, &grey, &mut dot));
    assert_eq!(dot, before);
    // a box that ends six pixels before the right rim is too close as well
    let mut right = FeatureVector::new(24, 10, 90, false, AugmentedLabel::bg());
    right.bounding_box = [(24, 10), (26, 12)];
    right.max_x = 26;
    let before = right;
    dilate_fv(&bin, &grey, &mut right);
    assert_eq!(right, before);
}

#[test]
fn recovery_is_refused_where_it_cannot_be_done() {
    let bin = raster(32, 32, &|_, _| 255);
    let small = raster(16, 32, &|_, _| 90);
    let grey = raster(32, 32, &|_, _| 90);
    let mut dot = FeatureVector::new(14, 14, 90, false, AugmentedLabel::bg());
    let before = dot;
    // rasters of different size
    assert!(!try_dilate_fv(&bin, &small, &mut dot));
    assert_eq!(dot, before);
    // a box that is out of order
    dot.max_x = 20;
    let before = dot;
    assert!(!try_dilate_fv(&bin, &grey, &mut dot));
    assert_eq!(dot, before);
    // moments without room
    let mut full = FeatureVector::new(14, 14, 90, false, AugmentedLabel::bg());
    full.zom = u64::MAX - 10;
    let before = full;
    assert!(!try_dilate_fv(&bin, &grey, &mut full));
    assert_eq!(full, before);
}

#[test]
fn ring_of_a_flat_dot_tells_columns_from_rows() {
    // a dark dot three pixels wide and one high
    let dark = |x: u32, y: u32| (14..=16).contains(&x) && y == 14;
    let bin = raster(32, 32, &|x, y| if dark(x, y) { 0 } else { 255 });
    let grey = raster(32, 32, &|x, y| if dark(x, y) { 0 } else { 254 });
    let topo = to_topo(&bin, &grey);
    let mut dot = topo[0];
    assert_eq!(dot.bounding_box, [(14, 14), (16, 14)]);
    assert_eq!(dot.zom, 3 * 255);
    assert_eq!(dot.fom, [255 * 45, 255 * 42]);
    dilate_fv(&bin, &grey, &mut dot);
    // twelve pixels of weight 1 around it: their columns add up to 180, their rows to 168
    assert_eq!(dot.zom, 3 * 255 + 12);
    assert_eq!(dot.fom, [255 * 45 + 180, 255 * 42 + 168]);
}

#[test]
fn ring_is_read_off_a_grid_of_labels() {
    // a window of four by three pixels at (2, 1): label 7 in the middle, label 0 around it
    let labels = vec![vec![0, 0, 0, 0], vec![0, 7, 3, 0], vec![0, 0, 0, 0]];
    let grey = raster(8, 8, &|_, _| 255);
    let mut fv = FeatureVector::new(3, 2, 255, true, AugmentedLabel::bg());
    let before = fv;
    refine_moments(&grey, 2, 1, &labels, 7, &mut fv);
    // the pixels next to the 7 that carry a 0: all of the window but the 7, the 3 and the last column
    assert_eq!(fv.zom - before.zom, 7 * 255);
    assert_eq!(fv.fom[0] - before.fom[0], 255 * (2 + 3 + 4 + 2 + 2 + 3 + 4));
    assert_eq!(fv.fom[1] - before.fom[1], 255 * (1 + 1 + 1 + 2 + 3 + 3 + 3));
    assert_eq!(fv.area, 1);
    let mut other = before;
    refine_moments(&grey, 2, 1, &labels, 9, &mut other);
    assert_eq!(other, before);
}

#[test]
fn window_without_a_repeated_pixel_is_refused() {
    // gray values 0 and 1 in turn: no pixel is white, none repeats a neighbor
    let bin = raster(32, 32, &|x, y| ((x + y) % 2) as u8);
    let grey = raster(32, 32, &|_, _| 90);
    let mut dot = FeatureVector::new(14, 14, 90, false, AugmentedLabel::bg());
    dot.bounding_box = [(14, 14), (16, 16)];
    dot.max_x = 16;
    let before = dot;
    assert!(!try_dilate_fv(&bin, &grey, &mut dot));
    assert_eq!(dot, before);
}

#[test]
fn window_with_one_white_pixel_is_labelled() {
    // as before, but for a white pixel in the last row of the window, next to no pixel of the dot
    let bin = raster(32, 32, &|x, y| if x == 21 && y == 21 { 255 } else { ((x + y) % 2) as u8 });
    let grey = raster(32, 32, &|_, _| 90);
    let mut dot = FeatureVector::new(14, 14, 90, false, AugmentedLabel::bg());
    dot.bounding_box = [(14, 14), (16, 16)];
    dot.max_x = 16;
    let before = dot;
    assert!(try_dilate_fv(&bin, &grey, &mut dot));
    // the pixel (16, 16) is a component of its own, and no pixel around it is white
    assert_eq!(dot, before);
}

#[test]
fn window_of_one_gray_value_is_labelled() {
    // a raster that is neither black nor white, but repeats its pixels
    let bin = raster(32, 32, &|_, _| 7);
    let grey = raster(32, 32, &|_, _| 90);
    let mut dot = FeatureVector::new(14, 14, 90, false, AugmentedLabel::bg());
    dot.bounding_box = [(14, 14), (16, 16)];
    dot.max_x = 16;
    let before = dot;
    assert!(try_dilate_fv(&bin, &grey, &mut dot));
    assert_eq!(dot, before);
}
