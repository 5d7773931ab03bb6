//! Tags of dots in the containment tree: a foreground quadrilateral with
//! the right number of background dots in it.

use crate::decode::table::{lemma_place, place, Registry, TagMap};
use crate::decode::walk::{heavy_children, heavy_list, ints, lemma_ints_push, list_children};
use crate::decode::{LFShape, LFTagClass, LFTagComponents};
use crate::dots::{can_refine, refined, try_dilate_fv};
use crate::raster::{GrayImage, Raster};
use crate::segmentation::forest::{children, is_forest};
use crate::segmentation::FeatureVector;
use vstd::prelude::*;

verus! {

/// The component `c` is a dot: background, with no child of more than half
/// its area.
pub open spec fn lf_is_dot(topo: Seq<FeatureVector>, c: int) -> bool {
    !topo[c].color && heavy_children(topo, c, 2).len() == 0
}

pub open spec fn dot_test(topo: Seq<FeatureVector>) -> spec_fn(int) -> bool {
    |c: int| lf_is_dot(topo, c)
}

/// The dots among the children of `p` of more than a 500th of its area.
pub open spec fn lf_dots(topo: Seq<FeatureVector>, p: int) -> Seq<int> {
    heavy_children(topo, p, 500).filter(dot_test(topo))
}

/// The component `p` is the quadrilateral of a tag of the class `class`: it
/// is foreground and holds as many dots as the class has, or up to three
/// more.
pub open spec fn lf_fits(topo: Seq<FeatureVector>, p: int, class: LFTagClass) -> bool {
    &&& topo[p].color
    &&& heavy_children(topo, p, 500).len() >= class.total_nodes()
    &&& class.total_nodes() <= lf_dots(topo, p).len() <= class.total_nodes() + 3
}

/// The first of `classes` that `p` fits.
pub open spec fn lf_class(topo: Seq<FeatureVector>, p: int, classes: Seq<LFTagClass>) -> Option<LFTagClass>
    decreases classes.len(),
{
    if classes.len() == 0 {
        None
    } else if lf_fits(topo, p, classes[0]) {
        Some(classes[0])
    } else {
        lf_class(topo, p, classes.drop_first())
    }
}

/// What the component `p` is to a tag of dots.
pub open spec fn lf_shape(topo: Seq<FeatureVector>, p: int, classes: Seq<LFTagClass>) -> LFShape {
    if lf_is_dot(topo, p) {
        LFShape::Normal { node: topo[p] }
    } else {
        match lf_class(topo, p, classes) {
            Some(class) => LFShape::Root {
                nodes: lf_dots(topo, p).map_values(|c: int| Some(topo[c])),
                bg: topo[p],
                class,
            },
            None => LFShape::Nothing,
        }
    }
}

/// The registry after the tags at and below `p` have been put in it: those
/// below `p` first, child by child.
pub open spec fn lf_registry(
    topo: Seq<FeatureVector>,
    p: int,
    classes: Seq<LFTagClass>,
    reg: Registry<LFShape>,
) -> Registry<LFShape>
    decreases p, 1int, 0int,
{
    if p < 0 {
        reg
    } else {
        let below = lf_registry_kids(topo, children(topo, p), p, classes, reg);
        if lf_shape(topo, p, classes) is Root {
            below.put(topo[p].bounding_box, lf_shape(topo, p, classes))
        } else {
            below
        }
    }
}

/// The registry after the tags at and below each of `ks` have been put in
/// it, in the order of `ks`; only what stands before `bound` counts.
pub open spec fn lf_registry_kids(
    topo: Seq<FeatureVector>,
    ks: Seq<int>,
    bound: int,
    classes: Seq<LFTagClass>,
    reg: Registry<LFShape>,
) -> Registry<LFShape>
    decreases bound, 0int, ks.len(),
{
    if ks.len() == 0 {
        reg
    } else {
        let before = lf_registry_kids(topo, ks.drop_last(), bound, classes, reg);
        if 0 <= ks.last() < bound {
            lf_registry(topo, ks.last(), classes, before)
        } else {
            before
        }
    }
}

/// What a table of tags of dots holds.
pub open spec fn lf_view(t: TagMap<LFTagComponents>) -> Registry<LFShape> {
    Registry { keys: t.keys@, shapes: t.values@.map_values(|c: LFTagComponents| c.shape()) }
}

impl LFTagComponents {
    /// A copy with the same parts.
    pub fn duplicate(&self) -> (r: LFTagComponents)
        ensures
            r.shape() == self.shape(),
    {
        match self {
            LFTagComponents::Root { nodes, bg, class } => {
                let mut copies: Vec<LFTagComponents> = Vec::new();
                let mut i: usize = 0;
                while i < nodes.len()
                    invariant
                        i <= nodes.len(),
                        copies.len() == i,
                        forall|j: int| 0 <= j < i ==> (#[trigger] copies[j]).dot() == nodes[j].dot(),
                    decreases nodes.len() - i,
                {
                    let copy = match &nodes[i] {
                        LFTagComponents::Normal { node } => LFTagComponents::Normal { node: *node },
                        _ => LFTagComponents::Nothing,
                    };
                    copies.push(copy);
                    i = i + 1;
                }
                assert(copies@.map_values(|c: LFTagComponents| c.dot()) =~= nodes@.map_values(
                    |c: LFTagComponents| c.dot(),
                ));
                LFTagComponents::Root { nodes: copies, bg: *bg, class: *class }
            },
            LFTagComponents::Nothing => LFTagComponents::Nothing,
            LFTagComponents::Normal { node } => LFTagComponents::Normal { node: *node },
            LFTagComponents::Baseline { node } => LFTagComponents::Baseline { node: *node },
        }
    }
}

/// Whether the component `c` is a dot.
pub fn is_dot(topo: &Vec<FeatureVector>, c: u32) -> (r: bool)
    requires
        is_forest(topo@),
        c < topo.len(),
    ensures
        r == lf_is_dot(topo@, c as int),
{
    if topo[c as usize].color {
        false
    } else {
        let ks = list_children(topo, c);
        let big = heavy_list(topo, &ks, c, 2);
        assert(ints(big@).len() == big.len());
        big.len() == 0
    }
}

/// The dots among `ks`.
pub fn dot_list(topo: &Vec<FeatureVector>, ks: &Vec<u32>) -> (dots: Vec<u32>)
    requires
        is_forest(topo@),
        forall|i: int| 0 <= i < ks.len() ==> #[trigger] ks[i] < topo.len(),
    ensures
        ints(dots@) == ints(ks@).filter(dot_test(topo@)),
        forall|i: int| 0 <= i < dots.len() ==> #[trigger] dots[i] < topo.len(),
{
    let ghost pred = dot_test(topo@);
    let mut dots: Vec<u32> = Vec::new();
    let mut i: usize = 0;
    proof {
        reveal(Seq::filter);
        assert(ints(ks@).take(0).filter(pred) =~= ints(dots@));
    }
    while i < ks.len()
        invariant
            i <= ks.len(),
            is_forest(topo@),
            pred == dot_test(topo@),
            forall|j: int| 0 <= j < ks.len() ==> #[trigger] ks[j] < topo.len(),
            ints(dots@) == ints(ks@).take(i as int).filter(pred),
            forall|j: int| 0 <= j < dots.len() ==> #[trigger] dots[j] < topo.len(),
        decreases ks.len() - i,
    {
        let c = ks[i];
        let dot = is_dot(topo, c);
        proof {
            assert(ints(ks@).take(i + 1) =~= ints(ks@).take(i as int).push(c as int));
            ints(ks@).take(i as int).lemma_filter_push(c as int, pred);
            assert(dot == pred(c as int));
            if dot {
                lemma_ints_push(dots@, c);
            }
        }
        if dot {
            dots.push(c);
        }
        i = i + 1;
    }
    assert(ints(ks@).take(ks.len() as int) =~= ints(ks@));
    dots
}

/// Walks the tree from `start` down and puts every tag of dots that it
/// finds into `output`, under the bounding box of its quadrilateral; what
/// `start` itself is comes back.
pub fn detect_lftag(
    topo: &Vec<FeatureVector>,
    start: u32,
    output: &mut TagMap<LFTagComponents>,
    class: &Vec<LFTagClass>,
) -> (r: LFTagComponents)
    requires
        is_forest(topo@),
        start < topo.len(),
        old(output).wf(),
    ensures
        r.shape() == lf_shape(topo@, start as int, class@),
        final(output).wf(),
        lf_view(*final(output)) == lf_registry(topo@, start as int, class@, lf_view(*old(output))),
    decreases start,
{
    let current = topo[start as usize];
    let all_children = list_children(topo, start);
    let ghost full = children(topo@, start as int);
    let ghost before = lf_view(*output);
    let mut i: usize = 0;
    assert(full.take(0) =~= Seq::<int>::empty());
    while i < all_children.len()
        invariant
            i <= all_children.len(),
            is_forest(topo@),
            start < topo.len(),
            output.wf(),
            ints(all_children@) == full,
            forall|j: int| 0 <= j < all_children.len() ==> #[trigger] all_children[j] < start,
            lf_view(*output) == lf_registry_kids(topo@, full.take(i as int), start as int, class@, before),
        decreases all_children.len() - i,
    {
        let c = all_children[i];
        proof {
            assert(full[i as int] == c as int);
            assert(full.take(i + 1).drop_last() =~= full.take(i as int));
            assert(full.take(i + 1).last() == c as int);
        }
        let _ = detect_lftag(topo, c, output, class);
        i = i + 1;
    }
    assert(full.take(all_children.len() as int) =~= full);
    let big_children = heavy_list(topo, &all_children, start, 2);
    let node_children = heavy_list(topo, &all_children, start, 500);
    assert(ints(big_children@).len() == big_children.len());
    assert(ints(node_children@).len() == node_children.len());
    if big_children.len() == 0 && !current.color {
        return LFTagComponents::Normal { node: current };
    }
    let dots = dot_list(topo, &node_children);
    assert(ints(dots@).len() == dots.len());
    assert(ints(dots@) == lf_dots(topo@, start as int));
    let mut k: usize = 0;
    assert(class@.skip(0) =~= class@);
    while k < class.len()
        invariant
            k <= class.len(),
            start < topo.len(),
            output.wf(),
            current == topo[start as int],
            full == children(topo@, start as int),
            before == lf_view(*old(output)),
            !lf_is_dot(topo@, start as int),
            ints(dots@) == lf_dots(topo@, start as int),
            ints(dots@).len() == dots.len(),
            ints(node_children@) == heavy_children(topo@, start as int, 500),
            ints(node_children@).len() == node_children.len(),
            forall|j: int| 0 <= j < dots.len() ==> #[trigger] dots[j] < topo.len(),
            lf_class(topo@, start as int, class@) == lf_class(topo@, start as int, class@.skip(k as int)),
            lf_view(*output) == lf_registry_kids(topo@, full, start as int, class@, before),
        decreases class.len() - k,
    {
        let tag_class = class[k];
        let total = tag_class.total_node_count();
        proof {
            assert(class@.skip(k as int)[0] == tag_class);
            assert(class@.skip(k as int).drop_first() =~= class@.skip(k + 1));
        }
        if node_children.len() >= total && current.color && dots.len() >= total && dots.len() <= total + 3 {
            let mut nodes: Vec<LFTagComponents> = Vec::new();
            let mut d: usize = 0;
            while d < dots.len()
                invariant
                    d <= dots.len(),
                    nodes.len() == d,
                    forall|j: int| 0 <= j < dots.len() ==> #[trigger] dots[j] < topo.len(),
                    forall|j: int| 0 <= j < d ==> (#[trigger] nodes[j]).dot() == Some(topo[dots[j] as int]),
                decreases dots.len() - d,
            {
                nodes.push(LFTagComponents::Normal { node: topo[dots[d] as usize] });
                d = d + 1;
            }
            let root = LFTagComponents::Root { nodes, bg: current, class: tag_class };
            assert(root.shape() == lf_shape(topo@, start as int, class@)) by {
                assert(nodes@.map_values(|c: LFTagComponents| c.dot()) =~= lf_dots(
                    topo@,
                    start as int,
                ).map_values(|c: int| Some(topo@[c]))) by {
                    assert forall|j: int| 0 <= j < dots.len() implies ints(dots@)[j] == dots[j] as int by {}
                }
            }
            let ghost held = *output;
            let copy = root.duplicate();
            output.insert(current.bounding_box, copy);
            proof {
                lemma_place(held.keys@, current.bounding_box);
                let at = place(held.keys@, current.bounding_box);
                let want = lf_view(held).put(current.bounding_box, root.shape());
                if at < held.keys.len() {
                    assert(output.values@ == held.values@.update(at, copy));
                }
                assert(lf_view(*output).keys =~= want.keys);
                assert(lf_view(*output).shapes =~= want.shapes);
                assert(lf_view(*output) =~= want);
            }
            return root;
        }
        k = k + 1;
    }
    LFTagComponents::Nothing
}

/// A dot with its moments made up, where that can be done.
pub open spec fn recovered_dot(bin: Raster, grey: Raster, d: Option<FeatureVector>) -> Option<
    FeatureVector,
> {
    match d {
        Some(fv) => Some(
            if can_refine(bin, grey, fv) {
                refined(bin, grey, fv)
            } else {
                fv
            },
        ),
        None => None,
    }
}

pub open spec fn recover(bin: Raster, grey: Raster) -> spec_fn(LFShape) -> LFShape {
    |s: LFShape| recovered(bin, grey, s)
}

/// A tag with the moments of its dots made up.
pub open spec fn recovered(bin: Raster, grey: Raster, s: LFShape) -> LFShape {
    match s {
        LFShape::Root { nodes, bg, class } => LFShape::Root {
            nodes: nodes.map_values(|d: Option<FeatureVector>| recovered_dot(bin, grey, d)),
            bg,
            class,
        },
        _ => s,
    }
}

/// A copy of `tag` with the moments of its dots made up.
pub fn recover_tag(bin_input: &GrayImage, input: &GrayImage, tag: &LFTagComponents) -> (r: LFTagComponents)
    ensures
        r.shape() == recovered(bin_input@, input@, tag.shape()),
{
    match tag {
        LFTagComponents::Root { nodes, bg, class } => {
            let mut made: Vec<LFTagComponents> = Vec::new();
            let mut i: usize = 0;
            while i < nodes.len()
                invariant
                    i <= nodes.len(),
                    made.len() == i,
                    forall|j: int|
                        0 <= j < i ==> (#[trigger] made[j]).dot() == recovered_dot(
                            bin_input@,
                            input@,
                            nodes[j].dot(),
                        ),
                decreases nodes.len() - i,
            {
                let next = match &nodes[i] {
                    LFTagComponents::Normal { node } => {
                        let mut fv = *node;
                        let _ = try_dilate_fv(bin_input, input, &mut fv);
                        LFTagComponents::Normal { node: fv }
                    },
                    _ => LFTagComponents::Nothing,
                };
                made.push(next);
                i = i + 1;
            }
            assert(made@.map_values(|c: LFTagComponents| c.dot()) =~= nodes@.map_values(
                |c: LFTagComponents| c.dot(),
            ).map_values(|d: Option<FeatureVector>| recovered_dot(bin_input@, input@, d)));
            LFTagComponents::Root { nodes: made, bg: *bg, class: *class }
        },
        LFTagComponents::Nothing => LFTagComponents::Nothing,
        LFTagComponents::Normal { node } => LFTagComponents::Normal { node: *node },
        LFTagComponents::Baseline { node } => LFTagComponents::Baseline { node: *node },
    }
}

/// Makes up the moments of the dots of every tag in the table.
pub fn recover_dots(bin_input: &GrayImage, input: &GrayImage, tags: &mut TagMap<LFTagComponents>)
    requires
        old(tags).wf(),
    ensures
        final(tags).wf(),
        lf_view(*final(tags)).keys == lf_view(*old(tags)).keys,
        lf_view(*final(tags)).shapes == lf_view(*old(tags)).shapes.map_values(
            recover(bin_input@, input@),
        ),
{
    let mut made: Vec<LFTagComponents> = Vec::new();
    let mut i: usize = 0;
    while i < tags.values.len()
        invariant
            i <= tags.values.len(),
            *tags == *old(tags),
            made.len() == i,
            forall|j: int|
                0 <= j < i ==> (#[trigger] made[j]).shape() == recovered(
                    bin_input@,
                    input@,
                    tags.values[j].shape(),
                ),
        decreases tags.values.len() - i,
    {
        made.push(recover_tag(bin_input, input, &tags.values[i]));
        i = i + 1;
    }
    tags.values = made;
    assert(lf_view(*tags).shapes =~= lf_view(*old(tags)).shapes.map_values(
        recover(bin_input@, input@),
    ));
}

} // verus!
