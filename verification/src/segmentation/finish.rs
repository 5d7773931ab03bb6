//! What holds of the list of components once the scan is over.

use crate::raster::Raster;
use crate::segmentation::forest::{
    chain_ok, children, has_parent, is_forest, lemma_chain_is, lemma_short, link_ok, node_ok,
};
use crate::segmentation::moments::{
    has_moments, kids_moment, lemma_kids_moment_frame, lemma_rows_moment_same, moment_of, rows_moment,
};
use crate::segmentation::regions::{
    boxed, hangs_below, in_component, is_segmentation, lemma_linked_sym, lemma_linked_trans, root_at_rim,
    lemma_rows_count_same, linked, placed, rows_count,
};
use crate::segmentation::state::{dark_prefix, State};
use crate::segmentation::sums::{
    kids_mass, lemma_area_le_total, lemma_le_total, lemma_len_le_total_area, lemma_total_area_push,
    lemma_total_area_single, lemma_total_single, total_area,
};
use crate::segmentation::tree::{kids_area, subtree_area};

use vstd::prelude::*;

verus! {

/// The children on record for a component of the result are the ones that
/// its links lead to.
pub proof fn lemma_listed(s: State, p: int)
    requires
        s.shape(),
        s.tags_ok(),
        s.tree_ok(),
        0 <= p <= s.out.len(),
    ensures
        children(s.result(), p) == s.listed(p),
        chain_ok(s.result(), s.result()[p].child, s.result()[p].last_child, s.listed(p)),
        forall|j: int| 0 <= j < s.listed(p).len() ==> 0 <= #[trigger] s.listed(p)[j] < p,
{
    let topo = s.result();
    let ks = s.listed(p);
    let code = if p < s.out.len() {
        -1 - p
    } else {
        0
    };
    if p < s.out.len() {
        assert(s.out_kids(p));
    } else {
        assert(s.lab_kids(0));
    }
    assert forall|j: int| 0 <= j < ks.len() implies 0 <= #[trigger] ks[j] < p && link_ok(topo, ks, j)
        && s.par[ks[j]] == code && s.pos[ks[j]] == j by {
        assert(link_ok(s.out, ks, j));
        assert(s.out_par(ks[j]));
    }
    assert(chain_ok(topo, topo[p].child, topo[p].last_child, ks));
    assert(ks.no_duplicates()) by {
        assert forall|i: int, j: int| 0 <= i < ks.len() && 0 <= j < ks.len() && i != j implies ks[i]
            != ks[j] by {
            assert(s.pos[ks[i]] == i);
            assert(s.pos[ks[j]] == j);
        }
    }
    lemma_short(ks, topo.len() as int);
    lemma_chain_is(topo, topo[p].child, topo[p].last_child, ks, topo.len());
}

/// The area in and below a component of the result is the mass on record
/// for it.
pub proof fn lemma_subtree_is_mass(s: State, p: int)
    requires
        s.shape(),
        s.tags_ok(),
        s.tree_ok(),
        forall|l: int| 0 <= l < s.n() ==> #[trigger] s.lab_mass(l),
        forall|i: int| 0 <= i < s.out.len() ==> #[trigger] s.out_mass(i),
        0 <= p <= s.out.len(),
    ensures
        subtree_area(s.result(), p) == (if p < s.out.len() {
            s.omass[p]
        } else {
            s.mass[0]
        }),
    decreases p, 1int, 0int,
{
    lemma_listed(s, p);
    lemma_kids_are_mass(s, s.listed(p), p);
    if p < s.out.len() {
        assert(s.out_mass(p));
    } else {
        assert(s.lab_mass(0));
    }
}

pub proof fn lemma_kids_are_mass(s: State, ks: Seq<int>, bound: int)
    requires
        s.shape(),
        s.tags_ok(),
        s.tree_ok(),
        forall|l: int| 0 <= l < s.n() ==> #[trigger] s.lab_mass(l),
        forall|i: int| 0 <= i < s.out.len() ==> #[trigger] s.out_mass(i),
        0 <= bound <= s.out.len(),
        forall|j: int| 0 <= j < ks.len() ==> 0 <= #[trigger] ks[j] < bound,
    ensures
        kids_area(s.result(), ks, bound) == kids_mass(s.omass, ks),
    decreases bound, 0int, ks.len(),
{
    if ks.len() > 0 {
        assert(0 <= ks[ks.len() - 1] < bound);
        assert forall|j: int| 0 <= j < ks.drop_last().len() implies 0 <= #[trigger] ks.drop_last()[j]
            < bound by {
            assert(ks.drop_last()[j] == ks[j]);
        }
        lemma_kids_are_mass(s, ks.drop_last(), bound);
        lemma_subtree_is_mass(s, ks.last());
    }
}

/// Once the last row is scanned, the closed components and the background
/// make up a forest in which parent and child differ in color, and every
/// scanned pixel is counted once, unless it lies in a component that the
/// lowest row has left open.
pub proof fn lemma_finish(s: State, img: Raster, done: int)
    requires
        s.inv(img, 0, s.h, done),
        img.width == s.w,
        img.height() == s.h,
    ensures
        is_forest(s.result()),
        forall|p: int| 0 <= p <= s.out.len() ==> #[trigger] children(s.result(), p) == s.listed(p),
        forall|p: int, j: int|
            0 <= p <= s.out.len() && 0 <= j < s.listed(p).len() ==> {
                let k = #[trigger] s.listed(p)[j];
                &&& 0 <= k < p
                &&& s.result()[k].color != s.result()[p].color
                &&& s.result()[k].ymax() < s.result()[p].ymax()
            },
        forall|k: int| 0 <= k < s.out.len() ==> (#[trigger] s.result()[k]).within(s.w, s.h),
        forall|k: int| 0 <= k <= s.out.len() ==> (#[trigger] s.result()[k]).valid && !s.result()[k].visited,
        forall|k: int|
            0 <= k <= s.out.len() ==> (#[trigger] s.result()[k]).zom <= 255 * done && s.result()[k].fom[0]
                <= 255 * s.w * done && s.result()[k].fom[1] <= 255 * s.h * done,
        total_area(s.result()) <= done,
        s.out.len() <= done,
        img.bottom_dark() ==> total_area(s.result()) == done,
        img.bottom_dark() ==> subtree_area(s.result(), s.out.len() as int) == done,
        img.bottom_dark() ==> forall|k: int| 0 <= k < s.out.len() ==> #[trigger] has_parent(s.result(), k),
{
    let topo = s.result();
    let n = s.out.len() as int;
    assert forall|p: int| 0 <= p <= n implies #[trigger] children(topo, p) == s.listed(p) && node_ok(
        topo,
        p,
    ) by {
        lemma_listed(s, p);
    }
    assert forall|p: int| 0 <= p < topo.len() implies #[trigger] node_ok(topo, p) by {
        assert(children(topo, p) == s.listed(p));
    }
    assert forall|p: int, j: int| 0 <= p <= n && 0 <= j < s.listed(p).len() implies {
        let k = #[trigger] s.listed(p)[j];
        &&& 0 <= k < p
        &&& s.par[k] == (if p < n {
            -1 - p
        } else {
            0
        })
        &&& s.pos[k] == j
        &&& topo[k].color != topo[p].color
        &&& topo[k].ymax() < topo[p].ymax()
    } by {
        lemma_listed(s, p);
        let k = s.listed(p)[j];
        if p < n {
            assert(s.out_kids(p));
        } else {
            assert(s.lab_kids(0));
        }
        assert(s.out_par(k));
    }
    assert forall|p: int, q: int, i: int, j: int|
        0 <= p < topo.len() && 0 <= q < topo.len() && 0 <= i < children(topo, p).len() && 0 <= j
            < children(topo, q).len() && #[trigger] children(topo, p)[i] == #[trigger] children(
            topo,
            q,
        )[j] implies p == q && i == j by {
        assert(children(topo, p) == s.listed(p));
        assert(children(topo, q) == s.listed(q));
        let k = s.listed(p)[i];
        assert(k == s.listed(q)[j]);
    }
    assert forall|k: int| 0 <= k < n implies (#[trigger] topo[k]).within(s.w, s.h) by {
        assert(s.out_par(k));
    }
    assert forall|k: int| 0 <= k <= n implies (#[trigger] topo[k]).valid && !topo[k].visited by {
        if k < n {
            assert(s.out_par(k));
        } else {
            assert(s.lab_tag(0));
        }
    }
    lemma_total_area_push(s.out, s.comps[0]);
    lemma_area_le_total(s.comps, 0);
    assert forall|k: int| 0 <= k < s.out.len() implies (#[trigger] s.out[k]).area >= 1 by {
        assert(s.out_par(k));
    }
    lemma_len_le_total_area(s.out);
    assert forall|k: int| 0 <= k <= n implies (#[trigger] topo[k]).zom <= 255 * done && topo[k].fom[0] <= 255
        * s.w * done && topo[k].fom[1] <= 255 * s.h * done by {
        let m = if k < n {
            s.omass[k] as int
        } else {
            s.mass[0] as int
        };
        if k < n {
            assert(s.out_mass(k));
            assert(s.omass[k] <= done);
        } else {
            assert(s.lab_acct(0));
            lemma_le_total(s.mass, 0);
        }
        assert(255 * s.w * m <= 255 * s.w * done) by (nonlinear_arith)
            requires
                0 <= m <= done,
                0 <= s.w,
        ;
        assert(255 * s.h * m <= 255 * s.h * done) by (nonlinear_arith)
            requires
                0 <= m <= done,
                0 <= s.h,
        ;
    }
    if img.bottom_dark() {
        // a component still open would end on the lowest row, yet the
        // background owns that row
        assert forall|l: int| 0 <= l < s.n() && l != 0 implies !(#[trigger] s.comps[l]).valid by {
            assert(s.lab_geom(0, s.h, l));
            if s.comps[l].valid {
                let m = s.comps[l].max_x as int;
                assert(s.prev_ok(img, s.h, m));
                assert(dark_prefix(img, s.h - 1, m)) by {
                    assert forall|k: int| 0 <= k <= m implies !#[trigger] img.lit(k, s.h - 1) by {}
                }
            }
        }
        assert forall|l: int| 0 <= l < s.n() && l != 0 implies (#[trigger] s.comps[l]).area == 0 by {
            assert(s.lab_tag(l));
        }
        lemma_total_area_single(s.comps, 0);
        assert forall|l: int| 0 <= l < s.n() && l != 0 implies #[trigger] s.mass[l] == 0 by {
            assert(!s.comps[l].valid);
            assert(s.lab_tag(l));
        }
        lemma_total_single(s.mass, 0);
        lemma_subtree_is_mass(s, n);
        assert forall|k: int| 0 <= k < n implies #[trigger] has_parent(topo, k) by {
            assert(s.out_par(k));
            let c = s.par[k];
            if c >= 0 {
                assert(c != 0 ==> !s.comps[c].valid);
                assert(c == 0);
                assert(children(topo, n) == s.listed(n));
                assert(children(topo, n)[s.pos[k]] == k);
            } else {
                let p = -1 - c;
                assert(children(topo, p) == s.listed(p));
                assert(children(topo, p)[s.pos[k]] == k);
            }
        }
    }
}

/// Once the last row is scanned, the books on the pixels tell to which
/// component of the result each pixel belongs.
pub proof fn lemma_finish_own(s: State, bin: Raster, done: int)
    requires
        s.inv(bin, 0, s.h, done),
        s.own_ok(bin, 0, 0, 0, s.h),
        s.rim_ok(bin, 0, s.h),
    ensures
        is_segmentation(s.result(), bin, s.segments()),
        bin.bottom_dark() ==> forall|i: int, j: int| bin.contains(i, j) ==> #[trigger] s.segments()[(i, j)] >= 0,
{
    let topo = s.result();
    let seg = s.segments();
    let n = s.out.len() as int;
    assert forall|i: int, j: int| bin.contains(i, j) implies (#[trigger] in_component(seg, n, i, j) <==> s.own[(
        i,
        j,
    )] == 0) && s.rim_pixel(bin, i, j) by {
        assert(s.scanned(0, s.h, i, j));
        assert(s.pixel_ok(bin, i, j));
        assert(s.rim_pixel(bin, i, j));
    }
    assert(root_at_rim(topo, bin, seg));
    assert forall|i: int, j: int| bin.contains(i, j) implies #[trigger] placed(topo, bin, seg, i, j) by {
        assert(s.scanned(0, s.h, i, j));
        assert(s.pixel_ok(bin, i, j));
        if i > 0 {
            assert(s.scanned(0, s.h, i - 1, j));
            assert(s.pixel_ok(bin, i - 1, j));
        }
        if j > 0 {
            assert(s.scanned(0, s.h, i, j - 1));
            assert(s.pixel_ok(bin, i, j - 1));
        }
    }
    assert forall|i: int, j: int, p: int, q: int|
        bin.contains(i, j) && bin.contains(p, q) && #[trigger] seg[(i, j)] == #[trigger] seg[(p, q)] && 0
            <= seg[(i, j)] < topo.len() - 1 implies linked(bin, (i, j), (p, q)) by {
        assert(s.scanned(0, s.h, i, j));
        assert(s.pixel_ok(bin, i, j));
        assert(s.scanned(0, s.h, p, q));
        assert(s.pixel_ok(bin, p, q));
        let c = s.own[(i, j)];
        assert(s.own[(p, q)] == c);
        lemma_linked_sym(bin, (p, q), s.anchor_of(c));
        lemma_linked_trans(bin, (i, j), s.anchor_of(c), (p, q));
    }
    assert forall|k: int| 0 <= k < topo.len() implies (#[trigger] topo[k]).area == rows_count(
        seg,
        k,
        bin.width,
        bin.height(),
    ) by {
        let c = if k < n {
            -1 - k
        } else {
            0
        };
        if k < n {
            assert(s.out_count(0, s.h, k));
        } else {
            assert(s.lab_count(0, s.h, 0));
        }
        assert forall|i: int, j: int| 0 <= i < bin.width && 0 <= j < bin.height() implies (
        #[trigger] seg[(i, j)] == k <==> s.own[(i, j)] == c) by {
            assert(s.scanned(0, s.h, i, j));
            assert(s.pixel_ok(bin, i, j));
        }
        lemma_rows_count_same(seg, s.own, k, c, bin.width, bin.height());
    }
    assert forall|k: int| 0 <= k < topo.len() - 1 implies #[trigger] hangs_below(topo, bin, seg, k) by {
        assert(s.out_below(0, s.h, k));
        assert(s.out_par(k));
        let i = s.out[k].max_x as int;
        let j = s.out[k].ymax() + 1;
        assert(s.pixel_ok(bin, i, j));
        let p = seg[(i, j)];
        if p >= 0 {
            lemma_listed(s, p);
            assert(children(topo, p)[s.pos[k]] == k);
        }
        assert forall|q: int, m: int|
            0 <= q < topo.len() && 0 <= m < children(topo, q).len() && #[trigger] children(topo, q)[m]
                == k implies seg[(i, j)] == q by {
            lemma_listed(s, q);
            if q < n {
                assert(s.out_kids(q));
                assert(s.par[s.okids[q][m]] == -1 - q);
            } else {
                assert(s.lab_kids(0));
                assert(s.par[s.kids[0][m]] == 0);
            }
        }
    }
    assert forall|k: int| 0 <= k < topo.len() - 1 implies #[trigger] boxed(topo, bin, seg, k) by {
        assert(s.out_box(0, s.h, k));
        let c = -1 - k;
        let fv = s.out[k];
        assert forall|i: int, j: int| bin.contains(i, j) && #[trigger] in_component(seg, k, i, j) implies fv.xmin()
            <= i <= fv.xmax() && fv.ymin() <= j <= fv.ymax() && (j == fv.ymax() ==> i <= fv.max_x) by {
            assert(s.scanned(0, s.h, i, j));
            assert(s.pixel_ok(bin, i, j));
            assert(s.owned(c, i, j));
        }
        let (i1, j1) =
            choose|i: int, j: int| s.scanned(0, s.h, i, j) && #[trigger] s.owned(c, i, j) && i == fv.xmin();
        assert(s.pixel_ok(bin, i1, j1));
        assert(bin.contains(i1, j1) && in_component(seg, k, i1, j1));
        let (i2, j2) =
            choose|i: int, j: int| s.scanned(0, s.h, i, j) && #[trigger] s.owned(c, i, j) && i == fv.xmax();
        assert(s.pixel_ok(bin, i2, j2));
        assert(bin.contains(i2, j2) && in_component(seg, k, i2, j2));
        let (i3, j3) =
            choose|i: int, j: int| s.scanned(0, s.h, i, j) && #[trigger] s.owned(c, i, j) && j == fv.ymin();
        assert(s.pixel_ok(bin, i3, j3));
        assert(bin.contains(i3, j3) && in_component(seg, k, i3, j3));
        assert(s.pixel_ok(bin, fv.max_x as int, fv.ymax()));
    }
    if bin.bottom_dark() {
        assert forall|l: int| 0 <= l < s.n() && l != 0 implies !(#[trigger] s.comps[l]).valid by {
            assert(s.lab_geom(0, s.h, l));
            if s.comps[l].valid {
                let m = s.comps[l].max_x as int;
                assert(s.prev_ok(bin, s.h, m));
                assert(dark_prefix(bin, s.h - 1, m)) by {
                    assert forall|k: int| 0 <= k <= m implies !#[trigger] bin.lit(k, s.h - 1) by {}
                }
            }
        }
        assert forall|i: int, j: int| bin.contains(i, j) implies #[trigger] seg[(i, j)] >= 0 by {
            assert(s.scanned(0, s.h, i, j));
            assert(s.pixel_ok(bin, i, j));
        }
    }
}

/// Once the last row is scanned, every moment is the sum of what the
/// pixels of its component and the moments of its children add to it.
pub proof fn lemma_finish_sums(s: State, bin: Raster, grey: Raster, done: int)
    requires
        s.inv(bin, 0, s.h, done),
        s.own_ok(bin, 0, 0, 0, s.h),
        s.sums_ok(bin, grey, 0, s.h),
    ensures
        has_moments(s.result(), bin, grey, s.segments()),
{
    let topo = s.result();
    let seg = s.segments();
    let n = s.out.len() as int;
    assert forall|k: int, which: int| 0 <= k < topo.len() && 0 <= which <= 2 implies #[trigger] moment_of(
        topo[k],
        which,
    ) == rows_moment(bin, grey, seg, k, which, bin.width, bin.height()) + kids_moment(
        topo,
        children(topo, k),
        which,
    ) by {
        let c = if k < n {
            -1 - k
        } else {
            0
        };
        if k < n {
            assert(s.out_moment(bin, grey, 0, s.h, k, which));
        } else {
            assert(s.lab_moment(bin, grey, 0, s.h, 0, which));
        }
        assert forall|i: int, j: int| 0 <= i < bin.width && 0 <= j < bin.height() implies (
        #[trigger] seg[(i, j)] == k <==> s.own[(i, j)] == c) by {
            assert(s.scanned(0, s.h, i, j));
            assert(s.pixel_ok(bin, i, j));
        }
        lemma_rows_moment_same(bin, grey, seg, s.own, k, c, which, bin.width, bin.height());
        lemma_listed(s, k);
        lemma_kids_moment_frame(s.out, topo, s.listed(k), which);
    }
}

} // verus!
