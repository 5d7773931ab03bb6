//! From a gray raster to the tags in it: binarization, the scan for
//! components, and the walk over their tree.

use crate::decode::lftag::{detect_lftag, lf_registry, lf_view, recover, recover_dots};
use crate::decode::table::{Registry, TagMap};
use crate::decode::topotag::{detect_topotag, topo_registry, topo_view};
use crate::decode::{LFShape, LFTagClass, LFTagComponents, TopoShape, TopotagClass, TopotagComponents};
use crate::raster::{buffer_dimensions, GrayImage};
use crate::segmentation::{to_topo, topology};
use crate::threshold::{binarize, binary};
use vstd::prelude::*;

verus! {

/// Whether `input` can be scanned.
pub fn is_scannable(input: &GrayImage) -> (ok: bool)
    ensures
        ok == input@.scannable(),
{
    let (w, h) = buffer_dimensions(input);
    assert(w * h <= 0xffff_ffff * 0xffff_ffff) by (nonlinear_arith)
        requires
            w <= 0xffff_ffff,
            h <= 0xffff_ffff,
    ;
    w <= 0xff_ffff && h <= 0xff_ffff && (w as u64) * (h as u64) + (w as u64) + 10 < u32::MAX as u64
}

/// The lower bound on foreground pixels for topological tags.
pub const TOPOTAG_HARD_THRESHOLD: u8 = 50;

/// The lower bound on foreground pixels for tags of dots.
pub const LFTAG_HARD_THRESHOLD: u8 = 10;

/// The topological tags that the walk from the root finds in `topo`, tags
/// of four by four looked for before tags of three by three.
pub open spec fn topotags_of(topo: Seq<crate::segmentation::FeatureVector>) -> Registry<TopoShape> {
    topo_registry(
        topo,
        topo.len() - 1,
        seq![TopotagClass::Topotag4x4, TopotagClass::Topotag3x3],
        Registry { keys: Seq::empty(), shapes: Seq::empty() },
    )
}

/// The tags of dots that the walk from the root finds in `topo`, tags of
/// three by three looked for before tags of four by four.
pub open spec fn lftags_of(topo: Seq<crate::segmentation::FeatureVector>) -> Registry<LFShape> {
    lf_registry(
        topo,
        topo.len() - 1,
        seq![LFTagClass::LFTag3x3, LFTagClass::LFTag4x4],
        Registry { keys: Seq::empty(), shapes: Seq::empty() },
    )
}

/// The frames of the topological tags in `input`, each under its bounding
/// box; `None` unless width and height are multiples of 8.
pub fn find_topotags(input: &GrayImage) -> (r: Option<TagMap<TopotagComponents>>)
    requires
        input@.scannable(),
    ensures
        r.is_some() <==> input.width() % 8 == 0 && input.height() % 8 == 0,
        r matches Some(tags) ==> tags.wf() && topo_view(tags) == topotags_of(
            topology(binary(input@, TOPOTAG_HARD_THRESHOLD), input@),
        ),
{
    let bin = match binarize(input, TOPOTAG_HARD_THRESHOLD) {
        Some(bin) => bin,
        None => {
            return None;
        },
    };
    let topo = to_topo(&bin, input);
    let root = (topo.len() - 1) as u32;
    let mut tags: TagMap<TopotagComponents> = TagMap::new();
    let mut classes: Vec<TopotagClass> = Vec::new();
    classes.push(TopotagClass::Topotag4x4);
    classes.push(TopotagClass::Topotag3x3);
    assert(classes@ =~= seq![TopotagClass::Topotag4x4, TopotagClass::Topotag3x3]);
    assert(topo_view(tags) =~= (Registry { keys: Seq::empty(), shapes: Seq::empty() }));
    let _ = detect_topotag(&topo, root, &mut tags, &classes);
    Some(tags)
}

/// The tags of dots in `input`, each under the bounding box of its
/// quadrilateral and with the moments of its dots made up; `None` unless
/// width and height are multiples of 8.
pub fn find_lftags(input: &GrayImage) -> (r: Option<TagMap<LFTagComponents>>)
    requires
        input@.scannable(),
    ensures
        r.is_some() <==> input.width() % 8 == 0 && input.height() % 8 == 0,
        r matches Some(tags) ==> {
            let bin = binary(input@, LFTAG_HARD_THRESHOLD);
            let found = lftags_of(topology(bin, input@));
            &&& tags.wf()
            &&& lf_view(tags).keys == found.keys
            &&& lf_view(tags).shapes == found.shapes.map_values(recover(bin, input@))
        },
{
    let bin = match binarize(input, LFTAG_HARD_THRESHOLD) {
        Some(bin) => bin,
        None => {
            return None;
        },
    };
    let topo = to_topo(&bin, input);
    let root = (topo.len() - 1) as u32;
    let mut tags: TagMap<LFTagComponents> = TagMap::new();
    let mut classes: Vec<LFTagClass> = Vec::new();
    classes.push(LFTagClass::LFTag3x3);
    classes.push(LFTagClass::LFTag4x4);
    assert(classes@ =~= seq![LFTagClass::LFTag3x3, LFTagClass::LFTag4x4]);
    assert(lf_view(tags) =~= (Registry { keys: Seq::empty(), shapes: Seq::empty() }));
    let _ = detect_lftag(&topo, root, &mut tags, &classes);
    recover_dots(&bin, input, &mut tags);
    Some(tags)
}

} // verus!
