use fiducial::decode::bits::{pack_bits, pack_quads};
use fiducial::decode::lftag::{dot_list, is_dot, recover_dots, recover_tag};
use fiducial::decode::strength::{strongest_dots, too_uneven, weaker};
use fiducial::decode::topotag::classify;
use fiducial::decode::walk::{heavy_list, list_children};
use fiducial::decode::{
    detect_lftag, detect_topotag, LFTagClass, LFTagComponents, TagMap, TopotagClass, TopotagComponents,
};
use fiducial::raster::GrayImage;
use fiducial::segmentation::{
    area, areas_add_up, check_invariants, to_topo, AugmentedLabel, FeatureVector,
};

fn raster(width: u32, height: u32, lit: &dyn Fn(u32, u32) -> bool) -> GrayImage {
    let mut data = Vec::new();
    for y in 0..height {
        for x in 0..width {
            data.push(if lit(x, y) { 255u8 } else { 0u8 });
        }
    }
    GrayImage::from_raw(width, height, data).unwrap()
}

fn inside(x: u32, y: u32, x0: u32, y0: u32, w: u32, h: u32) -> bool {
    x >= x0 && x < x0 + w && y >= y0 && y < y0 + h
}

/// A lit frame with a grid of three by three dark cells, the middle one left
/// out; the first cell holds the two dots of the baseline, and cell `i` a dot
/// where bit `i` of `bits` is set.
fn topotag(bits: u32) -> GrayImage {
    raster(72, 72, &|x, y| {
        if !inside(x, y, 4, 4, 64, 64) {
            return false;
        }
        for row in 0..3u32 {
            for col in 0..3u32 {
                if row == 1 && col == 1 {
                    continue;
                }
                let cx = 8 + 20 * col;
                let cy = 8 + 20 * row;
                if inside(x, y, cx, cy, 16, 16) {
                    let cell = row * 3 + col;
                    if cell == 0 {
                        return inside(x, y, cx + 2, cy + 6, 4, 4) || inside(x, y, cx + 10, cy + 6, 4, 4);
                    }
                    return bits >> cell & 1 == 1 && inside(x, y, cx + 6, cy + 6, 4, 4);
                }
            }
        }
        true
    })
}

#[test]
fn class_counts() {
    assert_eq!(TopotagClass::Topotag3x3.normal_node_count(), 7);
    assert_eq!(TopotagClass::Topotag4x4.normal_node_count(), 14);
    assert_eq!(TopotagClass::Topotag5x5.normal_node_count(), 23);
    assert_eq!(TopotagClass::Topotag3x3.total_node_count(), 8);
    assert_eq!(TopotagClass::Topotag5x5.total_node_count(), 24);
    assert_eq!(TopotagClass::Topotag4x4.get_height(), 4);
    assert_eq!(TopotagClass::Topotag5x5.get_width(), 5);
    assert_eq!(LFTagClass::LFTag2x2.data_node_count(), 2);
    assert_eq!(LFTagClass::LFTag3x3.data_node_count(), 7);
    assert_eq!(LFTagClass::LFTag4x4.data_node_count(), 14);
    assert_eq!(LFTagClass::LFTag5x5.data_node_count(), 23);
    assert_eq!(LFTagClass::LFTag2x2.total_node_count(), 4);
    assert_eq!(LFTagClass::LFTag4x4.total_node_count(), 16);
    assert_eq!(LFTagClass::LFTag3x3.get_height(), 3);
    assert_eq!(LFTagClass::LFTag3x3.get_width(), 3);
    assert_eq!(LFTagClass::LFTag2x2.get_pix_size(), 18);
    assert_eq!(LFTagClass::LFTag4x4.get_pix_size(), 30);
}

#[test]
fn topotag_frame_is_found() {
    let img = topotag(0b1_0100_0100);
    let topo = to_topo(&img, &img);
    let root = (topo.len() - 1) as u32;
    let mut tags = TagMap::new();
    let classes = vec![TopotagClass::Topotag4x4, TopotagClass::Topotag3x3];
    let found = detect_topotag(&topo, root, &mut tags, &classes);
    assert!(matches!(found, TopotagComponents::Nothing));
    assert_eq!(tags.len(), 1);
    assert_eq!(tags.keys[0], [(4, 4), (67, 67)]);
    match &tags.values[0] {
        TopotagComponents::Root { nodes, class } => {
            assert_eq!(*class, TopotagClass::Topotag3x3);
            assert_eq!(nodes.len(), 8);
            match &nodes[0] {
                TopotagComponents::Baseline { nodes } => {
                    assert_eq!(nodes[0].area, 16);
                    assert_eq!(nodes[1].area, 16);
                    assert!(nodes[0].color && nodes[1].color);
                },
                _ => panic!("the baseline comes first"),
            }
            let mut dots = 0;
            for node in &nodes[1..] {
                match node {
                    TopotagComponents::Normal { data, node } => {
                        assert!(!node.color);
                        assert_eq!(node.area, if *data { 256 - 16 } else { 256 });
                        if *data {
                            dots += 1;
                        }
                    },
                    _ => panic!("data nodes follow"),
                }
            }
            assert_eq!(dots, 3);
        },
        _ => panic!("a frame was expected"),
    }
}

#[test]
fn topotag_nodes_are_told_apart() {
    let img = topotag(0);
    let topo = to_topo(&img, &img);
    let classes = vec![TopotagClass::Topotag3x3];
    let mut tags = TagMap::new();
    let mut baselines = 0;
    let mut empty_nodes = 0;
    for i in 0..topo.len() as u32 {
        match detect_topotag(&topo, i, &mut tags, &classes) {
            TopotagComponents::Baseline { .. } => baselines += 1,
            TopotagComponents::Normal { data: false, .. } => empty_nodes += 1,
            _ => {},
        }
    }
    assert_eq!(baselines, 1);
    // seven cells without a dot; the background itself holds the frame
    assert_eq!(empty_nodes, 7);
}

#[test]
fn frame_with_a_cell_too_few_is_no_tag() {
    // the last cell is lit over: seven children are left
    let base = topotag(0);
    let img = raster(72, 72, &|x, y| {
        base.get(x, y).unwrap() > 0 || inside(x, y, 48, 48, 16, 16)
    });
    let topo = to_topo(&img, &img);
    let mut tags = TagMap::new();
    let classes = vec![TopotagClass::Topotag3x3, TopotagClass::Topotag4x4, TopotagClass::Topotag5x5];
    detect_topotag(&topo, (topo.len() - 1) as u32, &mut tags, &classes);
    assert_eq!(tags.len(), 0);
}

#[test]
fn dark_raster_holds_no_tag() {
    let img = raster(32, 32, &|_, _| false);
    let topo = to_topo(&img, &img);
    assert_eq!(topo.len(), 1);
    let mut topo_tags = TagMap::new();
    let found = detect_topotag(&topo, 0, &mut topo_tags, &vec![TopotagClass::Topotag3x3]);
    assert!(matches!(found, TopotagComponents::Normal { data: false, .. }));
    assert_eq!(topo_tags.len(), 0);
    let mut lf_tags = TagMap::new();
    let found = detect_lftag(&topo, 0, &mut lf_tags, &vec![LFTagClass::LFTag3x3]);
    assert!(matches!(found, LFTagComponents::Normal { .. }));
    assert_eq!(lf_tags.len(), 0);
}

/// A lit quadrilateral with `dots` dark dots in it.
fn lftag(dots: u32) -> GrayImage {
    raster(64, 64, &|x, y| {
        if !inside(x, y, 6, 6, 52, 52) {
            return false;
        }
        for i in 0..dots {
            let cx = 10 + 12 * (i % 4);
            let cy = 10 + 12 * (i / 4);
            if inside(x, y, cx, cy, 4, 4) {
                return false;
            }
        }
        true
    })
}

#[test]
fn lftag_quadrilateral_is_found() {
    let img = lftag(9);
    let topo = to_topo(&img, &img);
    assert_eq!(topo.len(), 11);
    let mut tags = TagMap::new();
    let classes = vec![LFTagClass::LFTag3x3, LFTagClass::LFTag4x4];
    let found = detect_lftag(&topo, (topo.len() - 1) as u32, &mut tags, &classes);
    assert!(matches!(found, LFTagComponents::Nothing));
    assert_eq!(tags.len(), 1);
    assert_eq!(tags.keys[0], [(6, 6), (57, 57)]);
    match &tags.values[0] {
        LFTagComponents::Root { nodes, bg, class } => {
            assert_eq!(*class, LFTagClass::LFTag3x3);
            assert_eq!(nodes.len(), 9);
            assert_eq!(bg.area, 52 * 52 - 9 * 16);
            for node in nodes {
                match node {
                    LFTagComponents::Normal { node } => assert_eq!(node.area, 16),
                    _ => panic!("a dot was expected"),
                }
            }
        },
        _ => panic!("a quadrilateral was expected"),
    }
}

#[test]
fn lftag_dot_counts_decide_the_class() {
    let classes = vec![LFTagClass::LFTag3x3, LFTagClass::LFTag4x4];
    for (dots, expected) in [
        (8u32, None),
        (9, Some(LFTagClass::LFTag3x3)),
        (12, Some(LFTagClass::LFTag3x3)),
        (13, None),
        (16, Some(LFTagClass::LFTag4x4)),
    ] {
        let img = lftag(dots);
        let topo = to_topo(&img, &img);
        let mut tags = TagMap::new();
        detect_lftag(&topo, (topo.len() - 1) as u32, &mut tags, &classes);
        match expected {
            None => assert_eq!(tags.len(), 0, "{} dots", dots),
            Some(class) => {
                assert_eq!(tags.len(), 1, "{} dots", dots);
                match &tags.values[0] {
                    LFTagComponents::Root { class: found, nodes, .. } => {
                        assert_eq!(*found, class);
                        assert_eq!(nodes.len(), dots as usize);
                    },
                    _ => panic!("a quadrilateral was expected"),
                }
            },
        }
    }
}

#[test]
fn later_tag_replaces_earlier_one_under_the_same_box() {
    let mut tags: TagMap<u32> = TagMap::new();
    tags.insert([(1, 2), (3, 4)], 10);
    tags.insert([(1, 2), (3, 5)], 20);
    tags.insert([(1, 2), (3, 4)], 30);
    assert_eq!(tags.len(), 2);
    assert_eq!(tags.keys, vec![[(1, 2), (3, 4)], [(1, 2), (3, 5)]]);
    assert_eq!(tags.values, vec![30, 20]);
}

#[test]
fn tree_area_is_the_raster() {
    let img = topotag(0b1_1111_1110);
    let mut topo = to_topo(&img, &img);
    assert!(areas_add_up(&topo, 72 * 72));
    assert!(!areas_add_up(&topo, 72 * 72 - 1));
    assert!(!areas_add_up(&topo, 72 * 72 + 1));
    check_invariants(&topo, 72 * 72);
    let root = (topo.len() - 1) as u32;
    assert_eq!(area(&mut topo, root), 72 * 72);
    assert!(topo.iter().all(|c| c.visited));
}

#[test]
fn subtree_area_marks_only_the_subtree() {
    let img = topotag(0);
    let mut topo = to_topo(&img, &img);
    // the frame is the only child of the background
    let frame = topo[topo.len() - 1].child.unwrap();
    assert_eq!(area(&mut topo, frame), 64 * 64);
    assert!(!topo[topo.len() - 1].visited);
    assert_eq!(topo.iter().filter(|c| !c.visited).count(), 1);
}

#[test]
fn bits_spell_a_number() {
    assert_eq!(pack_bits(&vec![]), 0);
    assert_eq!(pack_bits(&vec![true]), 1);
    assert_eq!(pack_bits(&vec![true, false, true, false, true, false]), 42);
    assert_eq!(pack_bits(&vec![false, false, true, true]), 3);
    assert_eq!(pack_bits(&vec![true; 64]), u64::MAX);
    assert_eq!(pack_quads(&vec![]), 0);
    assert_eq!(pack_quads(&vec![1, 2, 3]), 0b01_10_11);
    assert_eq!(pack_quads(&vec![0, 0, 2]), 2);
    assert_eq!(pack_quads(&vec![3; 32]), u64::MAX);
    // the digits 1, 1, 2, 2, 1, 1 spell 0x5A5
    assert_eq!(pack_quads(&vec![1, 1, 2, 2, 1, 1]), 0x5A5);
}

#[test]
fn data_cells_leave_out_the_baseline() {
    assert_eq!(LFTagClass::LFTag2x2.get_data_cells(), vec![(0, 1), (1, 1)]);
    assert_eq!(
        LFTagClass::LFTag3x3.get_data_cells(),
        vec![(1, 0), (0, 1), (1, 1), (2, 1), (0, 2), (1, 2), (2, 2)]
    );
    for class in [LFTagClass::LFTag2x2, LFTagClass::LFTag3x3, LFTagClass::LFTag4x4, LFTagClass::LFTag5x5] {
        assert_eq!(class.get_data_cells().len(), class.data_node_count());
    }
}

#[test]
fn copies_have_the_same_parts() {
    let img = topotag(0b0_0000_0110);
    let topo = to_topo(&img, &img);
    let mut tags = TagMap::new();
    detect_topotag(&topo, (topo.len() - 1) as u32, &mut tags, &vec![TopotagClass::Topotag3x3]);
    assert_eq!(tags.values[0].duplicate(), tags.values[0]);
    let img = lftag(9);
    let topo = to_topo(&img, &img);
    let mut tags = TagMap::new();
    detect_lftag(&topo, (topo.len() - 1) as u32, &mut tags, &vec![LFTagClass::LFTag3x3]);
    assert_eq!(tags.values[0].duplicate(), tags.values[0]);
}

fn dot(zom: u64, area: u32, x: u32) -> FeatureVector {
    let mut fv = FeatureVector::new(x, 0, 0, false, AugmentedLabel::bg());
    fv.zom = zom;
    fv.area = area;
    fv
}

#[test]
fn strongest_dots_come_first() {
    let dots = vec![dot(10, 2, 0), dot(50, 1, 1), dot(5, 4, 2), dot(7, 9, 3), dot(25, 2, 4), dot(1, 1, 5)];
    let picked = strongest_dots(&dots, 4);
    // strengths 20, 50, 20, 63, 50, 1: equal ones keep their order
    let order: Vec<u32> = picked.iter().map(|d| d.max_x).collect();
    assert_eq!(order, vec![3, 1, 4, 0]);
    let all = strongest_dots(&dots, 10);
    let order: Vec<u32> = all.iter().map(|d| d.max_x).collect();
    assert_eq!(order, vec![3, 1, 4, 0, 2, 5]);
    assert!(strongest_dots(&vec![], 3).is_empty());
    assert!(strongest_dots(&dots, 0).is_empty());
}

#[test]
fn uneven_dots_are_told() {
    assert!(!too_uneven(&vec![]));
    assert!(!too_uneven(&vec![dot(50, 1, 0), dot(10, 1, 1)]));
    assert!(too_uneven(&vec![dot(51, 1, 0), dot(10, 1, 1)]));
    assert!(!too_uneven(&vec![dot(0, 1, 0)]));
    assert!(too_uneven(&vec![dot(1, 1, 0), dot(0, 1, 1)]));
}

#[test]
fn children_are_listed_and_sifted() {
    let img = topotag(0b0_0000_0010);
    let topo = to_topo(&img, &img);
    let root = (topo.len() - 1) as u32;
    let frame = list_children(&topo, root);
    assert_eq!(frame.len(), 1);
    let cells = list_children(&topo, frame[0]);
    assert_eq!(cells.len(), 8);
    // the list runs from the cell closed last to the cell closed first
    assert!(cells.windows(2).all(|w| w[0] > w[1]));
    assert_eq!(heavy_list(&topo, &cells, frame[0], 30), cells);
    // a cell is more than a 30th of the frame but less than a 5th
    assert!(heavy_list(&topo, &cells, frame[0], 5).is_empty());
    assert_eq!(heavy_list(&topo, &vec![], frame[0], 30), Vec::<u32>::new());
    let mut baselines = 0;
    let mut with_dot = 0;
    for &c in &cells {
        match classify(&topo, c) {
            TopotagComponents::Baseline { .. } => baselines += 1,
            TopotagComponents::Normal { data: true, .. } => with_dot += 1,
            TopotagComponents::Normal { data: false, .. } => {},
            _ => panic!("every cell is a node"),
        }
        // a cell is dark, and its dots are less than half of it
        assert!(is_dot(&topo, c));
    }
    assert_eq!((baselines, with_dot), (1, 1));
    assert!(matches!(classify(&topo, frame[0]), TopotagComponents::Nothing));
    assert!(matches!(classify(&topo, frame[0]).copy_leaf(), TopotagComponents::Nothing));
}

#[test]
fn dots_are_leaves_of_the_background_color() {
    let img = lftag(9);
    let topo = to_topo(&img, &img);
    let root = (topo.len() - 1) as u32;
    let quad = list_children(&topo, root)[0];
    let dots = list_children(&topo, quad);
    assert_eq!(dot_list(&topo, &dots), dots);
    assert!(dots.iter().all(|&d| is_dot(&topo, d)));
    assert!(!is_dot(&topo, quad));
    // the quadrilateral is more than half as large as the background around it
    assert!(!is_dot(&topo, root));
    assert_eq!(dot_list(&topo, &vec![quad, dots[0], root]), vec![dots[0]]);
}

#[test]
fn dots_of_a_table_are_recovered() {
    let dark = |x: u32, y: u32| !inside(x, y, 6, 6, 52, 52) || (0..9u32).any(|i| inside(x, y, 12 + 12 * (i % 3), 12 + 12 * (i / 3), 4, 4));
    let bin = raster(64, 64, &|x, y| !dark(x, y));
    let grey = {
        let mut data = Vec::new();
        for y in 0..64 {
            for x in 0..64 {
                data.push(if dark(x, y) { 15u8 } else { 215u8 });
            }
        }
        GrayImage::from_raw(64, 64, data).unwrap()
    };
    let topo = to_topo(&bin, &grey);
    let mut tags = TagMap::new();
    detect_lftag(&topo, (topo.len() - 1) as u32, &mut tags, &vec![LFTagClass::LFTag3x3]);
    let before = tags.values[0].duplicate();
    recover_dots(&bin, &grey, &mut tags);
    assert_eq!(tags.len(), 1);
    assert_eq!(recover_tag(&bin, &grey, &before), tags.values[0]);
    match (&before, &tags.values[0]) {
        (LFTagComponents::Root { nodes: old, .. }, LFTagComponents::Root { nodes: new, bg, .. }) => {
            assert_eq!(old.len(), new.len());
            for (a, b) in old.iter().zip(new.iter()) {
                match (a, b) {
                    (LFTagComponents::Normal { node: a }, LFTagComponents::Normal { node: b }) => {
                        assert_eq!(a.zom, 16 * 240);
                        assert_eq!(b.zom, 16 * 240 + 20 * 40);
                        assert_eq!(a.area, b.area);
                    },
                    _ => panic!("dots were expected"),
                }
            }
            assert_eq!(bg.area, 52 * 52 - 9 * 16);
        },
        _ => panic!("quadrilaterals were expected"),
    }
    assert!(matches!(recover_tag(&bin, &grey, &LFTagComponents::Nothing), LFTagComponents::Nothing));
}

#[test]
fn weaker_dots_are_told() {
    assert!(weaker(&dot(3, 3, 0), &dot(5, 2, 0)));
    assert!(!weaker(&dot(5, 2, 0), &dot(2, 5, 0)));
    assert!(!weaker(&dot(u64::MAX, u32::MAX, 0), &dot(u64::MAX, u32::MAX - 1, 0)));
    assert!(weaker(&dot(u64::MAX, u32::MAX - 1, 0), &dot(u64::MAX, u32::MAX, 0)));
    let blank = FeatureVector::unused(AugmentedLabel { label: 6, row: 2 });
    assert!(!blank.valid);
    assert_eq!(blank.area, 0);
    assert_eq!(blank.merge, AugmentedLabel { label: 6, row: 2 });
    assert_eq!(blank.bounding_box, [(u32::MAX, u32::MAX), (0, 0)]);
}
