use fiducial::decode::{LFTagClass, LFTagComponents, TopotagClass, TopotagComponents};
use fiducial::pipeline::{find_lftags, find_topotags, is_scannable};
use fiducial::raster::GrayImage;
use fiducial::segmentation::{to_topo, AugmentedLabel, sort_aug_label, mut_two, FeatureVector};
use fiducial::threshold::add_border;

fn raster(width: u32, height: u32, value: &dyn Fn(u32, u32) -> u8) -> GrayImage {
    let mut data = Vec::new();
    for y in 0..height {
        for x in 0..width {
            data.push(value(x, y));
        }
    }
    GrayImage::from_raw(width, height, data).unwrap()
}

fn inside(x: u32, y: u32, x0: u32, y0: u32, w: u32, h: u32) -> bool {
    x >= x0 && x < x0 + w && y >= y0 && y < y0 + h
}

fn topotag_lit(x: u32, y: u32, bits: u32) -> bool {
    if !inside(x, y, 4, 4, 64, 64) {
        return false;
    }
    for row in 0..3u32 {
        for col in 0..3u32 {
            if row == 1 && col == 1 {
                continue;
            }
            let cx = 8 + 20 * col;
            let cy = 8 + 20 * row;
            if inside(x, y, cx, cy, 16, 16) {
                let cell = row * 3 + col;
                if cell == 0 {
                    return inside(x, y, cx + 2, cy + 6, 4, 4) || inside(x, y, cx + 10, cy + 6, 4, 4);
                }
                return bits >> cell & 1 == 1 && inside(x, y, cx + 6, cy + 6, 4, 4);
            }
        }
    }
    true
}

#[test]
fn topotag_in_a_gray_raster() {
    let img = raster(72, 72, &|x, y| if topotag_lit(x, y, 0b0_0010_1010) { 220 } else { 30 });
    let tags = find_topotags(&img).unwrap();
    assert_eq!(tags.len(), 1);
    assert_eq!(tags.keys[0], [(4, 4), (67, 67)]);
    match &tags.values[0] {
        TopotagComponents::Root { nodes, class } => {
            assert_eq!(*class, TopotagClass::Topotag3x3);
            assert_eq!(nodes.len(), 8);
            let bits: Vec<bool> = nodes[1..]
                .iter()
                .map(|n| match n {
                    TopotagComponents::Normal { data, .. } => *data,
                    _ => panic!("a data node was expected"),
                })
                .collect();
            assert_eq!(bits.iter().filter(|b| **b).count(), 3);
        },
        _ => panic!("a frame was expected"),
    }
}

#[test]
fn rasters_of_other_sizes_are_turned_down() {
    assert!(find_topotags(&raster(70, 72, &|_, _| 0)).is_none());
    assert!(find_topotags(&raster(72, 70, &|_, _| 0)).is_none());
    assert!(find_lftags(&raster(12, 8, &|_, _| 0)).is_none());
}

#[test]
fn dark_raster_yields_no_tags() {
    let img = raster(64, 48, &|_, _| 0);
    assert_eq!(find_topotags(&img).unwrap().len(), 0);
    assert_eq!(find_lftags(&img).unwrap().len(), 0);
}

#[test]
fn raster_without_tags_yields_none() {
    // a bright blob and some stripes, but nothing of the shape of a tag
    let img = raster(64, 64, &|x, y| if inside(x, y, 10, 10, 20, 20) || (y > 40 && x % 8 < 4) { 230 } else { 20 });
    assert_eq!(find_topotags(&img).unwrap().len(), 0);
    assert_eq!(find_lftags(&img).unwrap().len(), 0);
}

#[test]
fn lftag_in_a_gray_raster_has_its_dots_recovered() {
    let dark = |x: u32, y: u32| {
        if !inside(x, y, 6, 6, 52, 52) {
            return true;
        }
        (0..9u32).any(|i| inside(x, y, 12 + 12 * (i % 3), 12 + 12 * (i / 3), 4, 4))
    };
    let img = raster(64, 64, &|x, y| if dark(x, y) { 5 } else { 250 });
    let tags = find_lftags(&img).unwrap();
    assert_eq!(tags.len(), 1);
    match &tags.values[0] {
        LFTagComponents::Root { nodes, bg, class } => {
            assert_eq!(*class, LFTagClass::LFTag3x3);
            assert_eq!(nodes.len(), 9);
            assert_eq!(bg.bounding_box, [(6, 6), (57, 57)]);
            for node in nodes {
                match node {
                    LFTagComponents::Normal { node } => {
                        assert_eq!(node.area, 16);
                        // sixteen own pixels of weight 250 and twenty around them of weight 5
                        assert_eq!(node.zom, 16 * 250 + 20 * 5);
                        let (cx, cy) = node.get_com();
                        assert_eq!(cx, (node.bounding_box[0].0 + 1) as i32);
                        assert_eq!(cy, (node.bounding_box[0].1 + 1) as i32);
                    },
                    _ => panic!("a dot was expected"),
                }
            }
        },
        _ => panic!("a quadrilateral was expected"),
    }
}

#[test]
fn checkerboard_cells_are_components() {
    // eight by eight cells of eight pixels, lit where column and row of the cell differ in parity
    let mut img = raster(64, 64, &|x, y| if (x / 8 + y / 8) % 2 == 1 { 255 } else { 0 });
    add_border(&mut img);
    let topo = to_topo(&img, &img);
    assert_eq!(topo.len(), 32 + 18 + 1);
    let lit: Vec<&FeatureVector> = topo.iter().filter(|c| c.color).collect();
    let dark: Vec<&FeatureVector> = topo[..topo.len() - 1].iter().filter(|c| !c.color).collect();
    assert_eq!(lit.len(), 32);
    assert_eq!(dark.len(), 18);
    assert!(dark.iter().all(|c| c.area == 64));
    assert_eq!(lit.iter().filter(|c| c.area == 64).count(), 18);
    assert_eq!(lit.iter().filter(|c| c.area == 56).count(), 12);
    assert_eq!(lit.iter().filter(|c| c.area == 49).count(), 2);
    assert_eq!(topo[topo.len() - 1].area, 1022);
    assert_eq!(topo.iter().map(|c| c.area).sum::<u32>(), 4096);
    // cells that touch at a corner only are no part of one another: a cell is
    // closed into the cell below it, which does not reach up to it
    let outside = (0..topo.len()).any(|p| {
        let mut child = topo[p].child;
        let mut found = false;
        while let Some(k) = child {
            let c = &topo[k as usize];
            if c.bounding_box[0].1 < topo[p].bounding_box[0].1 {
                found = true;
            }
            child = c.sibling;
        }
        found
    });
    assert!(outside);
}

#[test]
fn saturated_rectangle_has_a_center() {
    let img = raster(32, 32, &|x, y| if inside(x, y, 8, 12, 10, 6) { 255 } else { 0 });
    let topo = to_topo(&img, &img);
    assert_eq!(topo.len(), 2);
    let rect = &topo[0];
    assert_eq!(rect.area, 60);
    assert_eq!(rect.zom, 60 * 255);
    assert!(rect.zom >= rect.area as u64);
    // columns 8 to 17 and rows 12 to 17: the center lies at (12.5, 14.5)
    assert_eq!(rect.fom, [255 * 6 * 125, 255 * 10 * 87]);
    assert_eq!(rect.get_com(), (12, 14));
    // the background took its own pixels at weight 255 and the moments of the rectangle
    let bg = &topo[1];
    assert_eq!(bg.zom, (1024 - 60) * 255 + 60 * 255);
}

#[test]
fn a_component_without_mass_has_its_center_at_the_origin() {
    let mut c = FeatureVector::new(5, 7, 0, true, AugmentedLabel::bg());
    assert_eq!(c.zom, 0);
    assert_eq!(c.get_com(), (0, 0));
    c.add_pixel(9, 7, 10, true);
    assert_eq!(c.area, 2);
    assert_eq!(c.max_x, 9);
    assert_eq!(c.bounding_box, [(5, 7), (9, 7)]);
    assert_eq!(c.get_com(), (9, 7));
    c.add_pixel(2, 8, 30, true);
    assert_eq!(c.max_x, 2);
    assert_eq!(c.bounding_box, [(2, 7), (9, 8)]);
    assert_eq!(c.zom, 40);
    assert_eq!(c.fom, [90 + 60, 70 + 240]);
    c.add_pixel(1, 8, 0, true);
    assert_eq!(c.max_x, 2);
    c.add_pixel_no_area(100, 100, 5, false);
    assert_eq!(c.area, 4);
    assert_eq!(c.zom, 40 + 250);
    assert_eq!(c.bounding_box, [(1, 7), (9, 8)]);
}

#[test]
fn merge_takes_the_lower_row_for_max_x() {
    let label = AugmentedLabel::bg();
    let mut upper = FeatureVector::new(10, 3, 255, true, label);
    let lower = FeatureVector::new(4, 4, 255, true, label);
    upper.merge(&lower);
    assert_eq!(upper.area, 2);
    assert_eq!(upper.max_x, 4);
    assert_eq!(upper.bounding_box, [(4, 3), (10, 4)]);
    assert_eq!(upper.zom, 510);
    assert_eq!(upper.fom, [255 * 14, 255 * 7]);
    let mut left = FeatureVector::new(2, 9, 1, false, label);
    let right = FeatureVector::new(8, 9, 1, false, label);
    left.merge(&right);
    assert_eq!(left.max_x, 8);
    let mut low = FeatureVector::new(2, 9, 1, false, label);
    let high = FeatureVector::new(8, 8, 1, false, label);
    low.merge(&high);
    assert_eq!(low.max_x, 2);
}

#[test]
fn merge_takes_max_x_from_a_row_far_below() {
    let label = AugmentedLabel::bg();
    let mut upper = FeatureVector::new(10, 3, 255, true, label);
    let lower = FeatureVector::new(4, 7, 255, true, label);
    upper.merge(&lower);
    assert_eq!(upper.max_x, 4);
    assert_eq!(upper.bounding_box, [(4, 3), (10, 7)]);
    let mut low = FeatureVector::new(2, 9, 1, false, label);
    let high = FeatureVector::new(8, 1, 1, false, label);
    low.merge(&high);
    assert_eq!(low.max_x, 2);
    assert_eq!(low.bounding_box, [(2, 1), (8, 9)]);
}

#[test]
fn older_label_comes_first() {
    let a = AugmentedLabel { label: 7, row: 2 };
    let b = AugmentedLabel { label: 3, row: 5 };
    let c = AugmentedLabel { label: 3, row: 2 };
    assert_eq!(sort_aug_label(a, b), (a, b));
    assert_eq!(sort_aug_label(b, a), (a, b));
    assert_eq!(sort_aug_label(a, c), (c, a));
    assert_eq!(sort_aug_label(c, a), (c, a));
    assert_eq!(sort_aug_label(AugmentedLabel::bg(), c), (AugmentedLabel::bg(), c));
    assert_eq!(AugmentedLabel::bg(), AugmentedLabel { label: 0, row: 0 });
}

#[test]
fn two_elements_are_borrowed_at_once() {
    let mut items = vec![10, 20, 30, 40];
    {
        let (a, b) = mut_two(3, 1, &mut items);
        assert_eq!((*a, *b), (40, 20));
        *a += 1;
        *b += 2;
    }
    assert_eq!(items, vec![10, 22, 30, 41]);
    let (a, b) = mut_two(0, 1, &mut items);
    std::mem::swap(a, b);
    assert_eq!(items, vec![22, 10, 30, 41]);
}

#[test]
fn common_sizes_can_be_scanned() {
    assert!(is_scannable(&raster(640, 480, &|_, _| 0)));
    assert!(is_scannable(&raster(0, 0, &|_, _| 0)));
    assert!(is_scannable(&raster(4000, 3000, &|_, _| 0)));
}
