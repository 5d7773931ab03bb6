//! Walks over the containment tree.

use crate::segmentation::forest::{chain, chain_ok, children, is_forest, link_ok, node_ok};
use crate::segmentation::sums::total_area;
use crate::segmentation::FeatureVector;
use vstd::prelude::*;

verus! {

/// The area of the component `p` and of all components below it.
pub open spec fn subtree_area(topo: Seq<FeatureVector>, p: int) -> int
    decreases p, 1int, 0int,
{
    if p < 0 {
        0
    } else {
        topo[p].area + kids_area(topo, children(topo, p), p)
    }
}

/// The areas of the subtrees of `ks`, added up; only what stands before
/// `bound` counts.
pub open spec fn kids_area(topo: Seq<FeatureVector>, ks: Seq<int>, bound: int) -> int
    decreases bound, 0int, ks.len(),
{
    if ks.len() == 0 {
        0
    } else {
        kids_area(topo, ks.drop_last(), bound) + if 0 <= ks.last() < bound {
            subtree_area(topo, ks.last())
        } else {
            0
        }
    }
}

/// The component `k` is `p` or lies below it in the tree.
pub open spec fn below(topo: Seq<FeatureVector>, k: int, p: int) -> bool
    decreases p, 1int, 0int,
{
    p >= 0 && (k == p || below_kids(topo, k, children(topo, p), p))
}

/// The component `k` is one of `ks` or lies below one; only what stands
/// before `bound` counts.
pub open spec fn below_kids(topo: Seq<FeatureVector>, k: int, ks: Seq<int>, bound: int) -> bool
    decreases bound, 0int, ks.len(),
{
    ks.len() > 0 && (below_kids(topo, k, ks.drop_last(), bound) || (0 <= ks.last() < bound && below(
        topo,
        k,
        ks.last(),
    )))
}

/// Two lists of components have the same links and the same areas.
pub open spec fn same_links(a: Seq<FeatureVector>, b: Seq<FeatureVector>) -> bool {
    &&& a.len() == b.len()
    &&& forall|k: int|
        0 <= k < a.len() ==> (#[trigger] a[k]).child == b[k].child && a[k].sibling == b[k].sibling
            && a[k].last_child == b[k].last_child && a[k].area == b[k].area
}

pub proof fn lemma_chain_same(a: Seq<FeatureVector>, b: Seq<FeatureVector>, start: Option<u32>, fuel: nat)
    requires
        same_links(a, b),
    ensures
        chain(a, start, fuel) == chain(b, start, fuel),
    decreases fuel,
{
    if !(fuel == 0 || start.is_none() || start.unwrap() >= a.len()) {
        lemma_chain_same(a, b, a[start.unwrap() as int].sibling, (fuel - 1) as nat);
    }
}

/// The same links make the same tree.
pub proof fn lemma_forest_same(a: Seq<FeatureVector>, b: Seq<FeatureVector>)
    requires
        same_links(a, b),
        is_forest(a),
    ensures
        is_forest(b),
        forall|p: int| 0 <= p < a.len() ==> #[trigger] children(b, p) == children(a, p),
{
    assert forall|p: int| 0 <= p < a.len() implies #[trigger] children(b, p) == children(a, p) by {
        lemma_chain_same(a, b, a[p].child, a.len());
    }
    assert forall|p: int| 0 <= p < b.len() implies #[trigger] node_ok(b, p) by {
        assert(node_ok(a, p));
        let ks = children(a, p);
        assert(children(b, p) == ks);
        assert forall|j: int| 0 <= j < ks.len() implies 0 <= #[trigger] ks[j] < b.len() && link_ok(b, ks, j) by {
            assert(link_ok(a, ks, j));
        }
    }
    assert forall|p: int, q: int, i: int, j: int|
        0 <= p < b.len() && 0 <= q < b.len() && 0 <= i < children(b, p).len() && 0 <= j < children(
            b,
            q,
        ).len() && #[trigger] children(b, p)[i] == #[trigger] children(b, q)[j] implies p == q && i
        == j by {
        assert(children(b, p) == children(a, p));
        assert(children(b, q) == children(a, q));
        assert(children(a, p)[i] == children(a, q)[j]);
    }
}

pub proof fn lemma_subtree_same(a: Seq<FeatureVector>, b: Seq<FeatureVector>, p: int)
    requires
        same_links(a, b),
        p < a.len(),
    ensures
        subtree_area(a, p) == subtree_area(b, p),
    decreases p, 1int, 0int,
{
    if p >= 0 {
        lemma_chain_same(a, b, a[p].child, a.len());
        lemma_kids_same(a, b, children(a, p), p);
    }
}

pub proof fn lemma_kids_same(a: Seq<FeatureVector>, b: Seq<FeatureVector>, ks: Seq<int>, bound: int)
    requires
        same_links(a, b),
        bound <= a.len(),
    ensures
        kids_area(a, ks, bound) == kids_area(b, ks, bound),
    decreases bound, 0int, ks.len(),
{
    if ks.len() > 0 {
        lemma_kids_same(a, b, ks.drop_last(), bound);
        if 0 <= ks.last() < bound {
            lemma_subtree_same(a, b, ks.last());
        }
    }
}

pub proof fn lemma_below_same(a: Seq<FeatureVector>, b: Seq<FeatureVector>, k: int, p: int)
    requires
        same_links(a, b),
        p < a.len(),
    ensures
        below(a, k, p) == below(b, k, p),
    decreases p, 1int, 0int,
{
    if p >= 0 {
        lemma_chain_same(a, b, a[p].child, a.len());
        lemma_below_kids_same(a, b, k, children(a, p), p);
    }
}

pub proof fn lemma_below_kids_same(
    a: Seq<FeatureVector>,
    b: Seq<FeatureVector>,
    k: int,
    ks: Seq<int>,
    bound: int,
)
    requires
        same_links(a, b),
        bound <= a.len(),
    ensures
        below_kids(a, k, ks, bound) == below_kids(b, k, ks, bound),
    decreases bound, 0int, ks.len(),
{
    if ks.len() > 0 {
        lemma_below_kids_same(a, b, k, ks.drop_last(), bound);
        if 0 <= ks.last() < bound {
            lemma_below_same(a, b, k, ks.last());
        }
    }
}

pub proof fn lemma_subtree_nonneg(topo: Seq<FeatureVector>, p: int)
    ensures
        subtree_area(topo, p) >= 0,
    decreases p, 1int, 0int,
{
    if p >= 0 {
        lemma_kids_nonneg(topo, children(topo, p), p);
    }
}

pub proof fn lemma_kids_nonneg(topo: Seq<FeatureVector>, ks: Seq<int>, bound: int)
    ensures
        kids_area(topo, ks, bound) >= 0,
    decreases bound, 0int, ks.len(),
{
    if ks.len() > 0 {
        lemma_kids_nonneg(topo, ks.drop_last(), bound);
        if 0 <= ks.last() < bound {
            lemma_subtree_nonneg(topo, ks.last());
        }
    }
}

/// The subtrees of the first `j` of `ks` have no more area than those of
/// all of `ks`.
pub proof fn lemma_kids_prefix(topo: Seq<FeatureVector>, ks: Seq<int>, bound: int, j: int)
    requires
        0 <= j <= ks.len(),
    ensures
        kids_area(topo, ks.take(j), bound) <= kids_area(topo, ks, bound),
    decreases ks.len() - j,
{
    if j < ks.len() {
        lemma_kids_prefix(topo, ks, bound, j + 1);
        assert(ks.take(j + 1).drop_last() =~= ks.take(j));
        if 0 <= ks[j] < bound {
            lemma_subtree_nonneg(topo, ks[j]);
        }
    } else {
        assert(ks.take(j) =~= ks);
    }
}

/// `topo` with the mark set on `start` and on the components reached over
/// the first `j` children of `start`.
pub open spec fn marked(
    orig: Seq<FeatureVector>,
    topo: Seq<FeatureVector>,
    start: int,
    j: int,
) -> bool {
    &&& topo.len() == orig.len()
    &&& forall|k: int|
        0 <= k < orig.len() ==> #[trigger] topo[k] == (FeatureVector {
            visited: orig[k].visited || k == start || below_kids(
                orig,
                k,
                children(orig, start).take(j),
                start,
            ),
            ..orig[k]
        })
}

/// Adds up the areas of `start` and of all components below it, and marks
/// each of them as visited.
fn walk(topo: &mut Vec<FeatureVector>, start: u32) -> (sum: u32)
    requires
        is_forest(old(topo)@),
        start < old(topo).len(),
        subtree_area(old(topo)@, start as int) <= u32::MAX,
    ensures
        sum == subtree_area(old(topo)@, start as int),
        final(topo).len() == old(topo).len(),
        forall|k: int|
            0 <= k < old(topo).len() ==> #[trigger] final(topo)[k] == (FeatureVector {
                visited: old(topo)[k].visited || below(old(topo)@, k, start as int),
                ..old(topo)[k]
            }),
    decreases start,
{
    let ghost orig = topo@;
    let ghost full = children(orig, start as int);
    assert(node_ok(orig, start as int));
    topo[start as usize].visited = true;
    let mut child = topo[start as usize].child;
    let mut sum = topo[start as usize].area;
    let ghost mut j: int = 0;
    proof {
        assert(full.take(0) =~= Seq::<int>::empty());
        lemma_kids_nonneg(orig, full, start as int);
    }
    while child.is_some()
        invariant
            is_forest(orig),
            start < orig.len(),
            full == children(orig, start as int),
            chain_ok(orig, orig[start as int].child, orig[start as int].last_child, full),
            forall|i: int| 0 <= i < full.len() ==> #[trigger] full[i] < start,
            0 <= j <= full.len(),
            child.is_some() <==> j < full.len(),
            child.is_some() ==> child.unwrap() as int == full[j],
            marked(orig, topo@, start as int, j),
            sum == orig[start as int].area + kids_area(orig, full.take(j), start as int),
            subtree_area(orig, start as int) <= u32::MAX,
        decreases full.len() - j,
    {
        let c = child.unwrap();
        let ghost mid = topo@;
        proof {
            assert(link_ok(orig, full, j));
            assert(0 <= full[j] < orig.len());
            assert(same_links(orig, mid));
            lemma_forest_same(orig, mid);
            lemma_subtree_same(orig, mid, c as int);
            lemma_kids_prefix(orig, full, start as int, j + 1);
            assert(full.take(j + 1).drop_last() =~= full.take(j));
            assert(full.take(j + 1).last() == c as int);
        }
        let part = walk(topo, c);
        sum = sum + part;
        child = topo[c as usize].sibling;
        proof {
            assert forall|k: int| 0 <= k < orig.len() implies #[trigger] topo@[k] == (FeatureVector {
                visited: orig[k].visited || k == start || below_kids(
                    orig,
                    k,
                    full.take(j + 1),
                    start as int,
                ),
                ..orig[k]
            }) by {
                lemma_below_same(orig, mid, k, c as int);
                assert(topo@[k] == (FeatureVector {
                    visited: mid[k].visited || below(mid, k, c as int),
                    ..mid[k]
                }));
            }
            j = j + 1;
        }
    }
    proof {
        assert(full.take(j) =~= full);
    }
    sum
}

/// The area of `start` and of all components below it. The walk marks each
/// component that it passes as visited, and expects to find none marked.
pub fn area(topo: &mut Vec<FeatureVector>, start: u32) -> (sum: u32)
    requires
        is_forest(old(topo)@),
        start < old(topo).len(),
        subtree_area(old(topo)@, start as int) <= u32::MAX,
        forall|k: int|
            0 <= k < old(topo).len() && below(old(topo)@, k, start as int) ==> !(#[trigger] old(
                topo,
            )[k]).visited,
    ensures
        sum == subtree_area(old(topo)@, start as int),
        final(topo).len() == old(topo).len(),
        forall|k: int|
            0 <= k < old(topo).len() ==> #[trigger] final(topo)[k] == (FeatureVector {
                visited: old(topo)[k].visited || below(old(topo)@, k, start as int),
                ..old(topo)[k]
            }),
{
    walk(topo, start)
}

/// Whether the areas of the components add up to `total_area`.
pub fn areas_add_up(topo: &Vec<FeatureVector>, total_area: u32) -> (ok: bool)
    ensures
        ok == (self::total_area(topo@) == total_area),
{
    let mut sum: u64 = 0;
    let mut i: usize = 0;
    assert(topo@.take(0) =~= Seq::<FeatureVector>::empty());
    while i < topo.len()
        invariant
            i <= topo.len(),
            sum == self::total_area(topo@.take(i as int)),
            sum <= total_area,
        decreases topo.len() - i,
    {
        proof {
            assert(topo@.take(i + 1).drop_last() =~= topo@.take(i as int));
            lemma_prefix_area(topo@, i + 1);
        }
        sum = sum + topo[i].area as u64;
        if sum > total_area as u64 {
            return false;
        }
        i = i + 1;
    }
    assert(topo@.take(topo.len() as int) =~= topo@);
    sum == total_area as u64
}

/// A checkpoint for a list whose areas add up to `total_area`: a call
/// verifies for such a list and for no other. `areas_add_up` answers the
/// question at run time.
pub fn check_invariants(topo: &Vec<FeatureVector>, total_area: u32)
    requires
        self::total_area(topo@) == total_area,
{
    let ok = areas_add_up(topo, total_area);
    assert(ok);
}

/// The first `j` components have no more area than all of them.
pub proof fn lemma_prefix_area(s: Seq<FeatureVector>, j: int)
    requires
        0 <= j <= s.len(),
    ensures
        self::total_area(s.take(j)) <= self::total_area(s),
    decreases s.len() - j,
{
    if j < s.len() {
        lemma_prefix_area(s, j + 1);
        assert(s.take(j + 1).drop_last() =~= s.take(j));
    } else {
        assert(s.take(j) =~= s);
    }
}

} // verus!
