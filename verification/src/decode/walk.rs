//! Reading the lists of children out of the tree.

use crate::segmentation::forest::{chain_ok, children, is_forest, link_ok, node_ok};
use crate::segmentation::FeatureVector;
use vstd::prelude::*;

verus! {

/// A list of indices as mathematical integers.
pub open spec fn ints(v: Seq<u32>) -> Seq<int> {
    v.map_values(|k: u32| k as int)
}

/// Whether a component has more than the `factor`-th part of the area of
/// the component `p`: smaller ones are taken for speckle.
pub open spec fn heavy(topo: Seq<FeatureVector>, p: int, factor: int) -> spec_fn(int) -> bool {
    |c: int| topo[c].area * factor > topo[p].area
}

/// The children of `p` that are no speckle.
pub open spec fn heavy_children(topo: Seq<FeatureVector>, p: int, factor: int) -> Seq<int> {
    children(topo, p).filter(heavy(topo, p, factor))
}

pub proof fn lemma_ints_push(v: Seq<u32>, k: u32)
    ensures
        ints(v.push(k)) == ints(v).push(k as int),
{
    assert(ints(v.push(k)) =~= ints(v).push(k as int));
}

/// The children of `start`, in the order of its list.
pub fn list_children(topo: &Vec<FeatureVector>, start: u32) -> (ks: Vec<u32>)
    requires
        is_forest(topo@),
        start < topo.len(),
    ensures
        ints(ks@) == children(topo@, start as int),
        forall|i: int| 0 <= i < ks.len() ==> #[trigger] ks[i] < start,
{
    let ghost full = children(topo@, start as int);
    assert(node_ok(topo@, start as int));
    let mut ks: Vec<u32> = Vec::new();
    let mut child = topo[start as usize].child;
    assert(ints(ks@) =~= full.take(0));
    while child.is_some()
        invariant
            start < topo.len(),
            ks.len() <= full.len(),
            ints(ks@) == full.take(ks.len() as int),
            child.is_some() <==> ks.len() < full.len(),
            child.is_some() ==> child.unwrap() as int == full[ks.len() as int],
            chain_ok(topo@, topo[start as int].child, topo[start as int].last_child, full),
            forall|j: int| 0 <= j < full.len() ==> #[trigger] full[j] < start,
            forall|i: int| 0 <= i < ks.len() ==> #[trigger] ks[i] < start,
        decreases full.len() - ks.len(),
    {
        let c = child.unwrap();
        proof {
            assert(link_ok(topo@, full, ks.len() as int));
            assert(0 <= full[ks.len() as int] < topo.len());
            lemma_ints_push(ks@, c);
            assert(full.take(ks.len() + 1) =~= full.take(ks.len() as int).push(c as int));
        }
        child = topo[c as usize].sibling;
        ks.push(c);
    }
    assert(full.take(ks.len() as int) =~= full);
    ks
}

/// Those of `ks` that are no speckle beside `p`.
pub fn heavy_list(topo: &Vec<FeatureVector>, ks: &Vec<u32>, p: u32, factor: u64) -> (kept: Vec<u32>)
    requires
        p < topo.len(),
        factor <= 0xffff_ffff,
        forall|i: int| 0 <= i < ks.len() ==> #[trigger] ks[i] < topo.len(),
    ensures
        ints(kept@) == ints(ks@).filter(heavy(topo@, p as int, factor as int)),
        forall|i: int| 0 <= i < kept.len() ==> #[trigger] kept[i] < topo.len(),
{
    let ghost pred = heavy(topo@, p as int, factor as int);
    let mut kept: Vec<u32> = Vec::new();
    let mut i: usize = 0;
    proof {
        reveal(Seq::filter);
        assert(ints(ks@).take(0).filter(pred) =~= ints(kept@));
    }
    while i < ks.len()
        invariant
            i <= ks.len(),
            p < topo.len(),
            factor <= 0xffff_ffff,
            pred == heavy(topo@, p as int, factor as int),
            forall|j: int| 0 <= j < ks.len() ==> #[trigger] ks[j] < topo.len(),
            ints(kept@) == ints(ks@).take(i as int).filter(pred),
            forall|j: int| 0 <= j < kept.len() ==> #[trigger] kept[j] < topo.len(),
        decreases ks.len() - i,
    {
        let c = ks[i];
        assert(topo[c as int].area * factor <= 0xffff_ffff * 0xffff_ffff) by (nonlinear_arith)
            requires
                topo[c as int].area <= 0xffff_ffff,
                factor <= 0xffff_ffff,
        ;
        let is_heavy = topo[c as usize].area as u64 * factor > topo[p as usize].area as u64;
        proof {
            assert(ints(ks@).take(i + 1) =~= ints(ks@).take(i as int).push(c as int));
            ints(ks@).take(i as int).lemma_filter_push(c as int, pred);
            assert(is_heavy == pred(c as int));
            if is_heavy {
                lemma_ints_push(kept@, c);
            }
        }
        if is_heavy {
            kept.push(c);
        }
        i = i + 1;
    }
    assert(ints(ks@).take(ks.len() as int) =~= ints(ks@));
    kept
}

} // verus!
