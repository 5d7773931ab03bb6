use fiducial::raster::GrayImage;
use fiducial::segmentation::{area, to_topo, FeatureVector};

fn raster(width: u32, height: u32, lit: &dyn Fn(u32, u32) -> bool) -> GrayImage {
    let mut data = Vec::new();
    for y in 0..height {
        for x in 0..width {
            data.push(if lit(x, y) { 255u8 } else { 0u8 });
        }
    }
    GrayImage::from_raw(width, height, data).unwrap()
}

fn area_sum(topo: &Vec<FeatureVector>) -> u64 {
    topo.iter().map(|c| c.area as u64).sum()
}

#[test]
fn solid_square_has_one_child() {
    // a lit 16 x 16 square in the middle of a dark 64 x 64 raster
    let img = raster(64, 64, &|x, y| (24..40).contains(&x) && (24..40).contains(&y));
    let topo = to_topo(&img, &img);
    assert_eq!(topo.len(), 2);
    assert_eq!(area_sum(&topo), 4096);
    let square = &topo[0];
    let background = &topo[1];
    assert!(square.color);
    assert_eq!(square.area, 256);
    assert_eq!(square.bounding_box, [(24, 24), (39, 39)]);
    assert_eq!(square.child, None);
    assert_eq!(square.sibling, None);
    assert!(!background.color);
    assert_eq!(background.area, 4096 - 256);
    assert_eq!(background.bounding_box, [(0, 0), (64, 64)]);
    assert_eq!(background.child, Some(0));
    assert_eq!(background.last_child, 0);
}

#[test]
fn all_dark_raster_is_background_only() {
    let img = raster(16, 8, &|_, _| false);
    let topo = to_topo(&img, &img);
    assert_eq!(topo.len(), 1);
    assert_eq!(topo[0].area, 128);
    assert_eq!(topo[0].child, None);
}

#[test]
fn nested_rings_alternate_in_color() {
    // dark border, lit ring, dark ring, lit core
    let img = raster(16, 16, &|x, y| {
        let d = x.min(y).min(15 - x).min(15 - y);
        d == 1 || d == 2 || d >= 5
    });
    let topo = to_topo(&img, &img);
    assert_eq!(topo.len(), 4);
    assert_eq!(area_sum(&topo), 256);
    // closed from the inside out
    assert!(topo[0].color);
    assert!(!topo[1].color);
    assert!(topo[2].color);
    assert!(!topo[3].color);
    assert_eq!(topo[0].area, 36);
    assert_eq!(topo[1].child, Some(0));
    assert_eq!(topo[2].child, Some(1));
    assert_eq!(topo[3].child, Some(2));
}

#[test]
fn pseudo_random_rasters_keep_their_area() {
    let mut seed: u32 = 12345;
    for round in 0..200u32 {
        let size = 3 + round % 23;
        let mut bits = Vec::new();
        for _ in 0..size * size {
            seed = seed.wrapping_mul(1664525).wrapping_add(1013904223);
            bits.push((seed >> 16) & 1 == 1);
        }
        let img = raster(size, size, &|x, y| {
            x > 0 && y > 0 && x < size - 1 && y < size - 1 && bits[(y * size + x) as usize]
        });
        let topo = to_topo(&img, &img);
        assert_eq!(area_sum(&topo), (size * size) as u64);
        for (i, c) in topo.iter().enumerate() {
            let mut child = c.child;
            while let Some(k) = child {
                assert!((k as usize) < i);
                assert_ne!(topo[k as usize].color, c.color);
                child = topo[k as usize].sibling;
            }
        }
    }
}

#[test]
fn same_raster_same_components() {
    let img = raster(24, 24, &|x, y| x > 0 && y > 0 && x < 23 && y < 23 && (x * 7 + y * 13) % 5 < 2);
    let first = to_topo(&img, &img);
    let second = to_topo(&img, &img);
    assert_eq!(first, second);
}

#[test]
fn a_child_hangs_below_its_last_pixel() {
    // two squares side by side, one with a hole
    let img = raster(32, 16, &|x, y| {
        let left = (2..10).contains(&x) && (3..11).contains(&y) && !((4..7).contains(&x) && (5..8).contains(&y));
        let right = (14..20).contains(&x) && (6..9).contains(&y);
        left || right
    });
    let topo = to_topo(&img, &img);
    assert_eq!(topo.len(), 4);
    // the hole is closed first, then the right square, then the left one
    assert_eq!(topo[0].bounding_box, [(4, 5), (6, 7)]);
    assert_eq!(topo[0].max_x, 6);
    assert_eq!(topo[1].bounding_box, [(14, 6), (19, 8)]);
    assert_eq!(topo[2].bounding_box, [(2, 3), (9, 10)]);
    assert_eq!(topo[2].child, Some(0));
    assert_eq!(topo[2].area, 64 - 9);
    // the background lists the square closed last first
    assert_eq!(topo[3].child, Some(2));
    assert_eq!(topo[3].last_child, 1);
    assert_eq!(topo[2].sibling, Some(1));
    assert_eq!(topo[1].sibling, None);
    // the moments of a parent hold those of its children
    assert_eq!(topo[2].zom, 55 * 255 + topo[0].zom);
    assert_eq!(topo[0].zom, 9 * 255);
    assert_eq!(topo[3].zom, (512 - 64 - 18) as u64 * 255 + topo[2].zom + topo[1].zom);
    assert!(topo.iter().all(|c| !c.visited));
}

#[test]
fn merged_arms_are_one_component() {
    // a lit U: two arms that meet on the lowest row of the shape
    let img = raster(16, 16, &|x, y| {
        (3..13).contains(&x) && (3..12).contains(&y) && !((5..11).contains(&x) && y < 10)
    });
    let topo = to_topo(&img, &img);
    assert_eq!(topo.len(), 2);
    assert_eq!(topo[0].area, 10 * 9 - 6 * 7);
    assert_eq!(topo[0].bounding_box, [(3, 3), (12, 11)]);
    assert_eq!(topo[0].max_x, 12);
    assert_eq!(topo[1].area, 256 - 48);
}

#[test]
fn raster_with_a_lit_bottom_row_loses_what_stays_open() {
    let img = raster(8, 8, &|_, _| true);
    let topo = to_topo(&img, &img);
    assert_eq!(topo.len(), 1);
    assert_eq!(topo[0].area, 0);
    assert_eq!(area_sum(&topo), 0);
}

#[test]
fn empty_raster_has_the_background_alone() {
    let img = raster(0, 0, &|_, _| false);
    let topo = to_topo(&img, &img);
    assert_eq!(topo.len(), 1);
    assert_eq!(topo[0].bounding_box, [(0, 0), (0, 0)]);
    let img = raster(5, 0, &|_, _| false);
    assert_eq!(to_topo(&img, &img).len(), 1);
}

#[test]
fn busy_rasters_run_out_of_no_labels() {
    // a checkerboard of single pixels opens and closes a component with every pixel
    let img = raster(40, 12, &|x, y| x > 0 && y > 0 && x < 39 && y < 11 && (x + y) % 2 == 1);
    let topo = to_topo(&img, &img);
    assert_eq!(area_sum(&topo), 480);
    assert_eq!(topo.iter().filter(|c| c.color).count(), 38 * 10 / 2);
}

#[test]
fn area_from_the_root_is_the_raster() {
    // square rasters filled from a list of bits, with a dark rim around them
    let mut seed: u64 = 0x2545_f491_4f6c_dd1d;
    for length in [9usize, 10, 17, 100, 257, 1000] {
        let mut input = Vec::new();
        for _ in 0..length {
            seed ^= seed << 13;
            seed ^= seed >> 7;
            seed ^= seed << 17;
            input.push(seed & 1 == 1);
        }
        let side = (length as f64).sqrt().ceil() as u32 + 2;
        let img = raster(side, side, &|x, y| {
            if x == 0 || y == 0 || x == side - 1 || y == side - 1 {
                return false;
            }
            let idx = ((x - 1) * (side - 2) + (y - 1)) as usize;
            idx < length && input[idx]
        });
        let mut topo = to_topo(&img, &img);
        let root = (topo.len() - 1) as u32;
        assert_eq!(area(&mut topo, root), side * side);
    }
}

#[test]
fn noisy_raster_of_camera_size_keeps_its_area() {
    let (width, height) = (640u32, 480u32);
    let mut seed: u32 = 99;
    let mut data = Vec::new();
    for y in 0..height {
        for x in 0..width {
            seed = seed.wrapping_mul(1664525).wrapping_add(1013904223);
            let rim = x == 0 || y == 0 || x == width - 1 || y == height - 1;
            data.push(if !rim && (seed >> 24) < 140 { 255u8 } else { 0u8 });
        }
    }
    let img = GrayImage::from_raw(width, height, data).unwrap();
    let mut topo = to_topo(&img, &img);
    assert_eq!(area_sum(&topo), (width * height) as u64);
    let root = (topo.len() - 1) as u32;
    assert_eq!(area(&mut topo, root), width * height);
}

#[test]
fn background_takes_what_reaches_the_rim() {
    // a lit frame one pixel inside the rim: the dark rim goes to the
    // background, the dark field inside the frame does not
    let img = raster(8, 8, &|x, y| x.min(y).min(7 - x).min(7 - y) == 1);
    let topo = to_topo(&img, &img);
    assert_eq!(topo.len(), 3);
    assert!(!topo[0].color);
    assert_eq!(topo[0].area, 16);
    assert_eq!(topo[0].bounding_box, [(2, 2), (5, 5)]);
    assert!(topo[1].color);
    assert_eq!(topo[1].area, 20);
    assert_eq!(topo[1].child, Some(0));
    let background = &topo[2];
    assert!(!background.color);
    assert_eq!(background.area, 28);
    assert_eq!(background.child, Some(1));
    assert_eq!(background.sibling, None);
    assert_eq!(background.max_x, 8);
}

#[test]
fn dark_pixel_at_the_right_rim_is_no_background() {
    // lit but for the leftmost column, the lowest row and one pixel of the
    // rightmost column
    let img = raster(6, 6, &|x, y| x > 0 && y < 5 && !(x == 5 && y == 2));
    let topo = to_topo(&img, &img);
    assert_eq!(topo.len(), 3);
    assert!(!topo[0].color);
    assert_eq!(topo[0].area, 1);
    assert_eq!(topo[0].bounding_box, [(5, 2), (5, 2)]);
    assert!(topo[1].color);
    assert_eq!(topo[1].area, 24);
    assert_eq!(topo[1].child, Some(0));
    assert_eq!(topo[2].area, 11);
    assert_eq!(topo[2].child, Some(1));
}

#[test]
fn a_child_is_closed_into_the_component_below_its_last_pixel() {
    // a lit pixel on top of a dark pixel that a lit U holds: the lit pixel
    // is closed into the dark one, which lies below it and not around it
    let lit = |x: u32, y: u32| {
        (x == 3 && y == 2) || ((2..=4).contains(&x) && y == 4) || ((x == 2 || x == 4) && y == 3)
    };
    let img = raster(8, 8, &lit);
    let topo = to_topo(&img, &img);
    assert_eq!(topo.len(), 4);
    assert!(topo[0].color);
    assert_eq!(topo[0].bounding_box, [(3, 2), (3, 2)]);
    assert!(!topo[1].color);
    assert_eq!(topo[1].bounding_box, [(3, 3), (3, 3)]);
    assert_eq!(topo[1].child, Some(0));
    assert!(topo[2].color);
    assert_eq!(topo[2].area, 5);
    assert_eq!(topo[2].bounding_box, [(2, 3), (4, 4)]);
    assert_eq!(topo[2].child, Some(1));
    assert_eq!(topo[3].area, 64 - 7);
    assert_eq!(topo[3].child, Some(2));
    // the last pixel of each child lies right above a pixel of its parent
    assert_eq!((topo[0].max_x, topo[0].bounding_box[1].1 + 1), (3, 3));
    assert_eq!((topo[1].max_x, topo[1].bounding_box[1].1 + 1), (3, 4));
}
