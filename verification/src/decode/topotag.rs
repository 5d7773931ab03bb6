//! Topological tags in the containment tree: a foreground frame whose
//! children are one baseline node and the right number of data nodes.

use crate::decode::table::{lemma_place, place, Registry, TagMap};
use crate::decode::walk::{heavy_children, heavy_list, ints, list_children};
use crate::decode::{TopoLeaf, TopoShape, TopotagClass, TopotagComponents};
use crate::segmentation::forest::{children, is_forest};
use crate::segmentation::FeatureVector;
use vstd::prelude::*;

verus! {

/// What the component `c` is as a node of a tag. Children of no more than a
/// 30th of its area are taken for speckle. A background component with two
/// children that have none themselves is a baseline; one with no child is a
/// data node without a dot, one with one child that has none itself a data
/// node with a dot.
pub open spec fn topo_leaf(topo: Seq<FeatureVector>, c: int) -> TopoLeaf {
    let kept = heavy_children(topo, c, 30);
    if topo[c].color {
        TopoLeaf::Other
    } else if kept.len() == 2 && topo[kept[0]].child.is_none() && topo[kept[1]].child.is_none() {
        TopoLeaf::Baseline { first: topo[kept[0]], second: topo[kept[1]] }
    } else if kept.len() == 0 {
        TopoLeaf::Normal { data: false, node: topo[c] }
    } else if kept.len() == 1 && topo[kept[0]].child.is_none() {
        TopoLeaf::Normal { data: true, node: topo[c] }
    } else {
        TopoLeaf::Other
    }
}

pub open spec fn normal_test(topo: Seq<FeatureVector>) -> spec_fn(int) -> bool {
    |c: int| topo_leaf(topo, c) is Normal
}

pub open spec fn baseline_test(topo: Seq<FeatureVector>) -> spec_fn(int) -> bool {
    |c: int| topo_leaf(topo, c) is Baseline
}

pub open spec fn leaf_of(topo: Seq<FeatureVector>) -> spec_fn(int) -> TopoLeaf {
    |c: int| topo_leaf(topo, c)
}

/// The data nodes among the children of `p`.
pub open spec fn topo_normals(topo: Seq<FeatureVector>, p: int) -> Seq<int> {
    heavy_children(topo, p, 30).filter(normal_test(topo))
}

/// The baseline nodes among the children of `p`.
pub open spec fn topo_baselines(topo: Seq<FeatureVector>, p: int) -> Seq<int> {
    heavy_children(topo, p, 30).filter(baseline_test(topo))
}

/// The component `p` is the frame of a tag of the class `class`: it is
/// foreground and has as many children as the class has nodes, one of them
/// a baseline and all others data nodes.
pub open spec fn topo_fits(topo: Seq<FeatureVector>, p: int, class: TopotagClass) -> bool {
    &&& topo[p].color
    &&& heavy_children(topo, p, 30).len() == class.total_nodes()
    &&& topo_normals(topo, p).len() == class.normal_nodes()
    &&& topo_baselines(topo, p).len() == 1
}

/// The first of `classes` that `p` fits.
pub open spec fn topo_class(topo: Seq<FeatureVector>, p: int, classes: Seq<TopotagClass>) -> Option<
    TopotagClass,
>
    decreases classes.len(),
{
    if classes.len() == 0 {
        None
    } else if topo_fits(topo, p, classes[0]) {
        Some(classes[0])
    } else {
        topo_class(topo, p, classes.drop_first())
    }
}

/// What the component `p` is to a topological tag. A frame lists its
/// baseline first and then its data nodes in the order of the tree.
pub open spec fn topo_shape(topo: Seq<FeatureVector>, p: int, classes: Seq<TopotagClass>) -> TopoShape {
    match topo_leaf(topo, p) {
        TopoLeaf::Baseline { first, second } => TopoShape::Baseline { first, second },
        TopoLeaf::Normal { data, node } => TopoShape::Normal { data, node },
        TopoLeaf::Other => match topo_class(topo, p, classes) {
            Some(class) => TopoShape::Root {
                nodes: seq![topo_leaf(topo, topo_baselines(topo, p)[0])] + topo_normals(topo, p).map_values(
                    leaf_of(topo),
                ),
                class,
            },
            None => TopoShape::Nothing,
        },
    }
}

/// The registry after the tags at and below `p` have been put in it. The
/// walk does not go below a node, nor below a frame.
pub open spec fn topo_registry(
    topo: Seq<FeatureVector>,
    p: int,
    classes: Seq<TopotagClass>,
    reg: Registry<TopoShape>,
) -> Registry<TopoShape>
    decreases p, 1int, 0int,
{
    if p < 0 || !(topo_leaf(topo, p) is Other) {
        reg
    } else if topo_class(topo, p, classes) is Some {
        reg.put(topo[p].bounding_box, topo_shape(topo, p, classes))
    } else {
        topo_registry_kids(topo, children(topo, p), p, classes, reg)
    }
}

/// The registry after the tags at and below each of `ks` have been put in
/// it, in the order of `ks`; only what stands before `bound` counts.
pub open spec fn topo_registry_kids(
    topo: Seq<FeatureVector>,
    ks: Seq<int>,
    bound: int,
    classes: Seq<TopotagClass>,
    reg: Registry<TopoShape>,
) -> Registry<TopoShape>
    decreases bound, 0int, ks.len(),
{
    if ks.len() == 0 {
        reg
    } else {
        let before = topo_registry_kids(topo, ks.drop_last(), bound, classes, reg);
        if 0 <= ks.last() < bound {
            topo_registry(topo, ks.last(), classes, before)
        } else {
            before
        }
    }
}

/// What a table of topological tags holds.
pub open spec fn topo_view(t: TagMap<TopotagComponents>) -> Registry<TopoShape> {
    Registry { keys: t.keys@, shapes: t.values@.map_values(|c: TopotagComponents| c.shape()) }
}

pub open spec fn leaves(v: Seq<TopotagComponents>) -> Seq<TopoLeaf> {
    v.map_values(|c: TopotagComponents| c.leaf())
}

/// What the component `c` is as a node of a tag; `Nothing` where it is
/// none.
pub fn classify(topo: &Vec<FeatureVector>, c: u32) -> (r: TopotagComponents)
    requires
        is_forest(topo@),
        c < topo.len(),
    ensures
        r.leaf() == topo_leaf(topo@, c as int),
        !(r is Root),
        r is Normal <==> topo_leaf(topo@, c as int) is Normal,
        r is Baseline <==> topo_leaf(topo@, c as int) is Baseline,
{
    let current = topo[c as usize];
    if current.color {
        return TopotagComponents::Nothing;
    }
    let ks = list_children(topo, c);
    let kept = heavy_list(topo, &ks, c, 30);
    assert(ints(kept@).len() == kept.len());
    assert forall|i: int| 0 <= i < kept.len() implies ints(kept@)[i] == kept[i] as int by {}
    if kept.len() == 2 && topo[kept[0] as usize].child.is_none() && topo[kept[1] as usize].child.is_none() {
        TopotagComponents::Baseline { nodes: [topo[kept[0] as usize], topo[kept[1] as usize]] }
    } else if kept.len() == 0 {
        TopotagComponents::Normal { data: false, node: current }
    } else if kept.len() == 1 && topo[kept[0] as usize].child.is_none() {
        TopotagComponents::Normal { data: true, node: current }
    } else {
        TopotagComponents::Nothing
    }
}

/// Walks the tree from `start` down and puts every topological tag that it
/// finds into `output`, under the bounding box of its frame; what `start`
/// itself is comes back.
pub fn detect_topotag(
    topo: &Vec<FeatureVector>,
    start: u32,
    output: &mut TagMap<TopotagComponents>,
    class: &Vec<TopotagClass>,
) -> (r: TopotagComponents)
    requires
        is_forest(topo@),
        start < topo.len(),
        old(output).wf(),
    ensures
        r.shape() == topo_shape(topo@, start as int, class@),
        final(output).wf(),
        topo_view(*final(output)) == topo_registry(topo@, start as int, class@, topo_view(*old(output))),
    decreases start,
{
    let current = topo[start as usize];
    let own = classify(topo, start);
    match own {
        TopotagComponents::Baseline { nodes } => {
            return TopotagComponents::Baseline { nodes };
        },
        TopotagComponents::Normal { data, node } => {
            return TopotagComponents::Normal { data, node };
        },
        _ => {},
    }
    assert(topo_leaf(topo@, start as int) is Other);
    let all_children = list_children(topo, start);
    let ghost full = children(topo@, start as int);
    let ghost before = topo_view(*output);
    if current.color {
        let kept = heavy_list(topo, &all_children, start, 30);
        let ghost kept_ints = ints(kept@);
        let ghost is_normal = normal_test(topo@);
        let ghost is_baseline = baseline_test(topo@);
        let ghost to_leaf = leaf_of(topo@);
        let mut normal_nodes: Vec<TopotagComponents> = Vec::new();
        let mut baseline_nodes: Vec<TopotagComponents> = Vec::new();
        let mut i: usize = 0;
        proof {
            reveal(Seq::filter);
            assert(kept_ints.take(0).filter(is_normal).map_values(to_leaf) =~= leaves(normal_nodes@));
            assert(kept_ints.take(0).filter(is_baseline).map_values(to_leaf) =~= leaves(baseline_nodes@));
        }
        while i < kept.len()
            invariant
                i <= kept.len(),
                is_forest(topo@),
                kept_ints == ints(kept@),
                is_normal == normal_test(topo@),
                is_baseline == baseline_test(topo@),
                to_leaf == leaf_of(topo@),
                forall|j: int| 0 <= j < kept.len() ==> #[trigger] kept[j] < topo.len(),
                leaves(normal_nodes@) == kept_ints.take(i as int).filter(is_normal).map_values(to_leaf),
                leaves(baseline_nodes@) == kept_ints.take(i as int).filter(is_baseline).map_values(to_leaf),
            decreases kept.len() - i,
        {
            let c = kept[i];
            let kind = classify(topo, c);
            proof {
                assert(kept_ints.take(i + 1) =~= kept_ints.take(i as int).push(c as int));
                kept_ints.take(i as int).lemma_filter_push(c as int, is_normal);
                kept_ints.take(i as int).lemma_filter_push(c as int, is_baseline);
                assert(is_normal(c as int) == (kind is Normal));
                assert(is_baseline(c as int) == (kind is Baseline));
                assert(to_leaf(c as int) == kind.leaf());
            }
            match kind {
                TopotagComponents::Normal { data, node } => {
                    proof {
                        assert(leaves(normal_nodes@.push(kind)) =~= leaves(normal_nodes@).push(kind.leaf()));
                        assert(kept_ints.take(i as int).filter(is_normal).push(c as int).map_values(to_leaf)
                            =~= kept_ints.take(i as int).filter(is_normal).map_values(to_leaf).push(
                            to_leaf(c as int),
                        ));
                    }
                    normal_nodes.push(TopotagComponents::Normal { data, node });
                },
                TopotagComponents::Baseline { nodes } => {
                    proof {
                        assert(leaves(baseline_nodes@.push(kind)) =~= leaves(baseline_nodes@).push(
                            kind.leaf(),
                        ));
                        assert(kept_ints.take(i as int).filter(is_baseline).push(c as int).map_values(to_leaf)
                            =~= kept_ints.take(i as int).filter(is_baseline).map_values(to_leaf).push(
                            to_leaf(c as int),
                        ));
                    }
                    baseline_nodes.push(TopotagComponents::Baseline { nodes });
                },
                _ => {},
            }
            i = i + 1;
        }
        proof {
            assert(kept_ints.take(kept.len() as int) =~= kept_ints);
            assert(kept_ints == heavy_children(topo@, start as int, 30));
            assert(leaves(normal_nodes@) == topo_normals(topo@, start as int).map_values(to_leaf));
            assert(leaves(baseline_nodes@) == topo_baselines(topo@, start as int).map_values(to_leaf));
            assert(leaves(normal_nodes@).len() == normal_nodes.len());
            assert(leaves(baseline_nodes@).len() == baseline_nodes.len());
            assert(kept_ints.len() == kept.len());
        }
        let mut k: usize = 0;
        assert(class@.skip(0) =~= class@);
        while k < class.len()
            invariant
                k <= class.len(),
                start < topo.len(),
                output.wf(),
                current == topo[start as int],
                current.color,
                to_leaf == leaf_of(topo@),
                before == topo_view(*old(output)),
                *output == *old(output),
                topo_leaf(topo@, start as int) is Other,
                heavy_children(topo@, start as int, 30).len() == kept.len(),
                leaves(normal_nodes@) == topo_normals(topo@, start as int).map_values(to_leaf),
                leaves(baseline_nodes@) == topo_baselines(topo@, start as int).map_values(to_leaf),
                topo_normals(topo@, start as int).len() == normal_nodes.len(),
                topo_baselines(topo@, start as int).len() == baseline_nodes.len(),
                topo_class(topo@, start as int, class@) == topo_class(
                    topo@,
                    start as int,
                    class@.skip(k as int),
                ),
            decreases class.len() - k,
        {
            let tag_class = class[k];
            proof {
                assert(class@.skip(k as int)[0] == tag_class);
                assert(class@.skip(k as int).drop_first() =~= class@.skip(k + 1));
            }
            if kept.len() == tag_class.total_node_count() && normal_nodes.len()
                == tag_class.normal_node_count() && baseline_nodes.len() == 1 {
                let mut nodes: Vec<TopotagComponents> = Vec::new();
                nodes.push(baseline_nodes[0].copy_leaf());
                let mut d: usize = 0;
                while d < normal_nodes.len()
                    invariant
                        d <= normal_nodes.len(),
                        nodes.len() == d + 1,
                        baseline_nodes.len() == 1,
                        nodes[0].leaf() == baseline_nodes[0].leaf(),
                        forall|j: int| 0 <= j < d ==> (#[trigger] nodes[j + 1]).leaf() == normal_nodes[j].leaf(),
                    decreases normal_nodes.len() - d,
                {
                    nodes.push(normal_nodes[d].copy_leaf());
                    d = d + 1;
                }
                let root = TopotagComponents::Root { nodes, class: tag_class };
                assert(root.shape() == topo_shape(topo@, start as int, class@)) by {
                    let want = seq![topo_leaf(topo@, topo_baselines(topo@, start as int)[0])] + topo_normals(
                        topo@,
                        start as int,
                    ).map_values(to_leaf);
                    assert(leaves(baseline_nodes@)[0] == baseline_nodes[0].leaf());
                    assert forall|j: int| 0 <= j < normal_nodes.len() implies leaves(normal_nodes@)[j]
                        == normal_nodes[j].leaf() by {}
                    assert(topo_baselines(topo@, start as int).map_values(to_leaf)[0] == to_leaf(
                        topo_baselines(topo@, start as int)[0],
                    ));
                    assert(leaves(nodes@).len() == want.len());
                    assert forall|j: int| 0 <= j < want.len() implies leaves(nodes@)[j] == want[j] by {
                        if j > 0 {
                            assert(nodes[(j - 1) + 1].leaf() == normal_nodes[j - 1].leaf());
                            assert(want[j] == topo_normals(topo@, start as int).map_values(to_leaf)[j - 1]);
                        }
                    }
                    assert(leaves(nodes@) =~= want);
                }
                let copy = root.duplicate();
                let ghost held = *output;
                output.insert(current.bounding_box, copy);
                proof {
                    lemma_place(held.keys@, current.bounding_box);
                    let at = place(held.keys@, current.bounding_box);
                    let want = topo_view(held).put(current.bounding_box, root.shape());
                    if at < held.keys.len() {
                        assert(output.values@ == held.values@.update(at, copy));
                    }
                    assert(topo_view(*output).keys =~= want.keys);
                    assert(topo_view(*output).shapes =~= want.shapes);
                    assert(topo_view(*output) =~= want);
                }
                return root;
            }
            k = k + 1;
        }
    }
    assert(topo_class(topo@, start as int, class@) is None) by {
        if !current.color {
            lemma_no_frame(topo@, start as int, class@);
        }
    }
    let mut i: usize = 0;
    assert(full.take(0) =~= Seq::<int>::empty());
    while i < all_children.len()
        invariant
            i <= all_children.len(),
            is_forest(topo@),
            start < topo.len(),
            output.wf(),
            ints(all_children@) == full,
            forall|j: int| 0 <= j < all_children.len() ==> #[trigger] all_children[j] < start,
            topo_view(*output) == topo_registry_kids(topo@, full.take(i as int), start as int, class@, before),
        decreases all_children.len() - i,
    {
        let c = all_children[i];
        proof {
            assert(full[i as int] == c as int);
            assert(full.take(i + 1).drop_last() =~= full.take(i as int));
            assert(full.take(i + 1).last() == c as int);
        }
        let _ = detect_topotag(topo, c, output, class);
        i = i + 1;
    }
    assert(full.take(all_children.len() as int) =~= full);
    TopotagComponents::Nothing
}

/// A background component is the frame of no tag.
pub proof fn lemma_no_frame(topo: Seq<FeatureVector>, p: int, classes: Seq<TopotagClass>)
    requires
        !topo[p].color,
    ensures
        topo_class(topo, p, classes) is None,
    decreases classes.len(),
{
    if classes.len() > 0 {
        lemma_no_frame(topo, p, classes.drop_first());
    }
}

} // verus!
