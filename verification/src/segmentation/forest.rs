//! The containment tree that the list of components holds in its links.

use crate::segmentation::FeatureVector;
use vstd::prelude::*;
use vstd::set_lib::{lemma_int_range, lemma_len_subset, set_int_range};

verus! {

/// The links of `topo` run through `ks` from `first` to `last` and end
/// there.
pub open spec fn chain_ok(topo: Seq<FeatureVector>, first: Option<u32>, last: u32, ks: Seq<int>) -> bool {
    &&& ks.len() == 0 <==> first.is_none()
    &&& ks.len() > 0 ==> first.unwrap() as int == ks[0] && last as int == ks[ks.len() - 1]
    &&& forall|j: int| 0 <= j < ks.len() ==> 0 <= #[trigger] ks[j] < topo.len() && link_ok(topo, ks, j)
}

/// The component `ks[j]` is linked to the next one of `ks`, the last one to
/// none.
pub open spec fn link_ok(topo: Seq<FeatureVector>, ks: Seq<int>, j: int) -> bool {
    if j + 1 < ks.len() {
        topo[ks[j]].sibling.is_some() && topo[ks[j]].sibling.unwrap() as int == ks[j + 1]
    } else {
        topo[ks[j]].sibling.is_none()
    }
}

/// The components reached from `start` over at most `fuel` sibling links.
pub open spec fn chain(topo: Seq<FeatureVector>, start: Option<u32>, fuel: nat) -> Seq<int>
    decreases fuel,
{
    if fuel == 0 || start.is_none() || start.unwrap() >= topo.len() {
        Seq::empty()
    } else {
        seq![start.unwrap() as int] + chain(topo, topo[start.unwrap() as int].sibling, (fuel - 1) as nat)
    }
}

/// The children of the component `p`, the one closed last first.
pub open spec fn children(topo: Seq<FeatureVector>, p: int) -> Seq<int> {
    chain(topo, topo[p].child, topo.len())
}

/// The list of the children of `p` is whole, and each child was closed
/// before `p`.
pub open spec fn node_ok(topo: Seq<FeatureVector>, p: int) -> bool {
    let ks = children(topo, p);
    &&& chain_ok(topo, topo[p].child, topo[p].last_child, ks)
    &&& forall|j: int| 0 <= j < ks.len() ==> #[trigger] ks[j] < p
}

/// The links of `topo` make up trees: every list of children is whole, a
/// child stands before its parent, and no component is listed twice.
pub open spec fn is_forest(topo: Seq<FeatureVector>) -> bool {
    &&& forall|p: int| 0 <= p < topo.len() ==> #[trigger] node_ok(topo, p)
    &&& forall|p: int, q: int, i: int, j: int|
        0 <= p < topo.len() && 0 <= q < topo.len() && 0 <= i < children(topo, p).len() && 0 <= j
            < children(topo, q).len() && #[trigger] children(topo, p)[i] == #[trigger] children(
            topo,
            q,
        )[j] ==> p == q && i == j
}

/// The component `k` is a child of some component of `topo`.
pub open spec fn has_parent(topo: Seq<FeatureVector>, k: int) -> bool {
    exists|p: int, j: int|
        0 <= p < topo.len() && 0 <= j < children(topo, p).len() && #[trigger] children(topo, p)[j] == k
}

/// Parent and child differ in color throughout `topo`.
pub open spec fn colors_differ(topo: Seq<FeatureVector>) -> bool {
    forall|p: int, j: int|
        0 <= p < topo.len() && 0 <= j < children(topo, p).len() ==> topo[#[trigger] children(topo, p)[j]].color
            != topo[p].color
}

/// The component `path[i + 1]` is a child of `path[i]`.
pub open spec fn steps_down(topo: Seq<FeatureVector>, path: Seq<int>, i: int) -> bool {
    exists|j: int| 0 <= j < children(topo, path[i]).len() && #[trigger] children(topo, path[i])[j] == path[i + 1]
}

/// Each component of `path` is a child of the one before it.
pub open spec fn is_descent(topo: Seq<FeatureVector>, path: Seq<int>) -> bool {
    &&& path.len() >= 1
    &&& 0 <= path[0] < topo.len()
    &&& forall|i: int| 0 <= i < path.len() - 1 ==> #[trigger] steps_down(topo, path, i)
}

/// On the way down from a component, the colors alternate: a component an
/// even number of steps below it has its color, one an odd number of steps
/// below it has the other color.
pub proof fn lemma_colors_alternate(topo: Seq<FeatureVector>, path: Seq<int>, k: int)
    requires
        is_forest(topo),
        colors_differ(topo),
        is_descent(topo, path),
        0 <= k < path.len(),
    ensures
        0 <= path[k] < topo.len(),
        topo[path[k]].color == (topo[path[0]].color == (k % 2 == 0)),
        k > 0 ==> topo[path[k]].color != topo[path[k - 1]].color,
    decreases k,
{
    if k > 0 {
        lemma_colors_alternate(topo, path, k - 1);
        let p = path[k - 1];
        assert(steps_down(topo, path, k - 1));
        let j = choose|j: int| 0 <= j < children(topo, p).len() && #[trigger] children(topo, p)[j] == path[k - 1 + 1];
        assert(node_ok(topo, p));
        assert(children(topo, p)[j] < p);
        assert(topo[children(topo, p)[j]].color != topo[p].color);
    }
}

/// A list without repetition, of numbers from 0 up to `m`, has at most `m`
/// entries.
pub proof fn lemma_short(ks: Seq<int>, m: int)
    requires
        0 <= m,
        ks.no_duplicates(),
        forall|j: int| 0 <= j < ks.len() ==> 0 <= #[trigger] ks[j] < m,
    ensures
        ks.len() <= m,
{
    ks.unique_seq_to_set();
    lemma_int_range(0, m);
    assert(ks.to_set().subset_of(set_int_range(0, m))) by {
        assert forall|a: int| ks.to_set().contains(a) implies set_int_range(0, m).contains(a) by {
            let j = choose|j: int| 0 <= j < ks.len() && ks[j] == a;
            assert(0 <= ks[j] < m);
        }
    }
    lemma_len_subset(ks.to_set(), set_int_range(0, m));
}

/// Links that run through `ks` are found again by following them.
pub proof fn lemma_chain_is(topo: Seq<FeatureVector>, first: Option<u32>, last: u32, ks: Seq<int>, fuel: nat)
    requires
        chain_ok(topo, first, last, ks),
        ks.len() <= fuel,
    ensures
        chain(topo, first, fuel) == ks,
    decreases fuel,
{
    if ks.len() == 0 {
        assert(chain(topo, first, fuel) =~= ks);
    } else {
        let rest = ks.drop_first();
        let next = topo[ks[0]].sibling;
        assert(0 <= ks[0] < topo.len());
        assert(link_ok(topo, ks, 0));
        assert forall|j: int| 0 <= j < rest.len() implies 0 <= #[trigger] rest[j] < topo.len() && link_ok(
            topo,
            rest,
            j,
        ) by {
            assert(rest[j] == ks[j + 1]);
            assert(link_ok(topo, ks, j + 1));
            if j + 1 < rest.len() {
                assert(rest[j + 1] == ks[j + 2]);
            }
        }
        assert(chain_ok(topo, next, last, rest)) by {
            if rest.len() > 0 {
                assert(rest[0] == ks[1]);
                assert(rest[rest.len() - 1] == ks[ks.len() - 1]);
            }
        }
        lemma_chain_is(topo, next, last, rest, (fuel - 1) as nat);
        assert(chain(topo, first, fuel) =~= seq![ks[0]] + rest);
        assert(seq![ks[0]] + rest =~= ks);
    }
}

} // verus!
