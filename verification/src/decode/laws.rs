//! What holds of the walks whatever the tree.

use crate::decode::lftag::{lf_class, lf_registry, lf_registry_kids};
use crate::decode::table::Registry;
use crate::decode::topotag::{lemma_no_frame, topo_registry, topo_registry_kids};
use crate::decode::{LFShape, LFTagClass, TopoShape, TopotagClass};
use crate::raster::Raster;
use crate::segmentation::regions::{boxed, in_component, is_segmentation, placed};
use crate::segmentation::FeatureVector;
use vstd::prelude::*;

verus! {

/// No component of `topo` is foreground.
pub open spec fn all_dark(topo: Seq<FeatureVector>) -> bool {
    forall|k: int| 0 <= k < topo.len() ==> !(#[trigger] topo[k]).color
}

/// A raster without a lit pixel has no foreground component.
pub proof fn lemma_dark_raster_dark_components(
    topo: Seq<FeatureVector>,
    bin: Raster,
    seg: Map<(int, int), int>,
)
    requires
        is_segmentation(topo, bin, seg),
        topo.len() >= 1,
        !topo[topo.len() - 1].color,
        forall|i: int, j: int| !#[trigger] bin.lit(i, j),
    ensures
        all_dark(topo),
{
    assert forall|k: int| 0 <= k < topo.len() implies !(#[trigger] topo[k]).color by {
        if k < topo.len() - 1 {
            assert(boxed(topo, bin, seg, k));
            let (i, j) = choose|i: int, j: int|
                bin.contains(i, j) && #[trigger] in_component(seg, k, i, j) && i == topo[k].xmin();
            assert(placed(topo, bin, seg, i, j));
            assert(!bin.lit(i, j));
        }
    }
}

/// A background component is the quadrilateral of no tag of dots.
pub proof fn lemma_no_quadrilateral(topo: Seq<FeatureVector>, p: int, classes: Seq<LFTagClass>)
    requires
        !topo[p].color,
    ensures
        lf_class(topo, p, classes) is None,
    decreases classes.len(),
{
    if classes.len() > 0 {
        lemma_no_quadrilateral(topo, p, classes.drop_first());
    }
}

/// Where no component is foreground, the walk finds no topological tag:
/// the registry stays as it is.
pub proof fn lemma_dark_no_topotags(
    topo: Seq<FeatureVector>,
    p: int,
    classes: Seq<TopotagClass>,
    reg: Registry<TopoShape>,
)
    requires
        all_dark(topo),
        p < topo.len(),
    ensures
        topo_registry(topo, p, classes, reg) == reg,
    decreases p, 1int, 0int,
{
    if p >= 0 {
        lemma_no_frame(topo, p, classes);
        lemma_dark_no_topotags_kids(topo, crate::segmentation::forest::children(topo, p), p, classes, reg);
    }
}

pub proof fn lemma_dark_no_topotags_kids(
    topo: Seq<FeatureVector>,
    ks: Seq<int>,
    bound: int,
    classes: Seq<TopotagClass>,
    reg: Registry<TopoShape>,
)
    requires
        all_dark(topo),
        bound <= topo.len(),
    ensures
        topo_registry_kids(topo, ks, bound, classes, reg) == reg,
    decreases bound, 0int, ks.len(),
{
    if ks.len() > 0 {
        lemma_dark_no_topotags_kids(topo, ks.drop_last(), bound, classes, reg);
        if 0 <= ks.last() < bound {
            lemma_dark_no_topotags(topo, ks.last(), classes, reg);
        }
    }
}

/// Where no component is foreground, the walk finds no tag of dots: the
/// registry stays as it is.
pub proof fn lemma_dark_no_lftags(
    topo: Seq<FeatureVector>,
    p: int,
    classes: Seq<LFTagClass>,
    reg: Registry<LFShape>,
)
    requires
        all_dark(topo),
        p < topo.len(),
    ensures
        lf_registry(topo, p, classes, reg) == reg,
    decreases p, 1int, 0int,
{
    if p >= 0 {
        lemma_no_quadrilateral(topo, p, classes);
        lemma_dark_no_lftags_kids(topo, crate::segmentation::forest::children(topo, p), p, classes, reg);
    }
}

pub proof fn lemma_dark_no_lftags_kids(
    topo: Seq<FeatureVector>,
    ks: Seq<int>,
    bound: int,
    classes: Seq<LFTagClass>,
    reg: Registry<LFShape>,
)
    requires
        all_dark(topo),
        bound <= topo.len(),
    ensures
        lf_registry_kids(topo, ks, bound, classes, reg) == reg,
    decreases bound, 0int, ks.len(),
{
    if ks.len() > 0 {
        lemma_dark_no_lftags_kids(topo, ks.drop_last(), bound, classes, reg);
        if 0 <= ks.last() < bound {
            lemma_dark_no_lftags(topo, ks.last(), classes, reg);
        }
    }
}

} // verus!
