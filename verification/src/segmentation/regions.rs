//! The pixels of each component: how many they are, and how they hang
//! together.

use crate::raster::Raster;
use crate::segmentation::forest::children;
use crate::segmentation::FeatureVector;
use vstd::prelude::*;

verus! {

/// How many of the first `n` pixels of row `j` `seg` gives to `c`.
pub open spec fn row_count(seg: Map<(int, int), int>, c: int, j: int, n: nat) -> nat
    decreases n,
{
    if n == 0 {
        0
    } else {
        row_count(seg, c, j, (n - 1) as nat) + if seg[(n - 1, j)] == c {
            1nat
        } else {
            0nat
        }
    }
}

/// How many pixels of the first `m` rows, each `w` pixels long, `seg`
/// gives to `c`.
pub open spec fn rows_count(seg: Map<(int, int), int>, c: int, w: nat, m: nat) -> nat
    decreases m,
{
    if m == 0 {
        0
    } else {
        rows_count(seg, c, w, (m - 1) as nat) + row_count(seg, c, m - 1, w)
    }
}

/// How many pixels `seg` gives to `c` among the first `y` rows and the
/// first `nx` pixels of row `y`.
pub open spec fn count_upto(seg: Map<(int, int), int>, c: int, w: nat, nx: nat, y: nat) -> nat {
    rows_count(seg, c, w, y) + row_count(seg, c, y as int, nx)
}

/// Two pixels lie side by side or one above the other.
pub open spec fn adjacent(a: (int, int), b: (int, int)) -> bool {
    ||| a.0 == b.0 && (a.1 == b.1 + 1 || a.1 + 1 == b.1)
    ||| a.1 == b.1 && (a.0 == b.0 + 1 || a.0 + 1 == b.0)
}

/// A walk through the raster from pixel to adjacent pixel that keeps to
/// one color.
pub open spec fn is_path(bin: Raster, path: Seq<(int, int)>) -> bool {
    &&& path.len() >= 1
    &&& forall|k: int|
        0 <= k < path.len() ==> bin.contains((#[trigger] path[k]).0, path[k].1) && bin.lit(
            path[k].0,
            path[k].1,
        ) == bin.lit(path[0].0, path[0].1)
    &&& forall|k: int| 0 <= k < path.len() - 1 ==> adjacent(#[trigger] path[k], path[k + 1])
}

/// The pixels `a` and `b` belong to one connected region of one color.
pub open spec fn linked(bin: Raster, a: (int, int), b: (int, int)) -> bool {
    exists|path: Seq<(int, int)>| #[trigger] is_path(bin, path) && path[0] == a && path[path.len() - 1] == b
}

/// The pixel `(i, j)` is linked with a pixel of the uppermost row or of the
/// leftmost column.
pub open spec fn reaches_rim(bin: Raster, i: int, j: int) -> bool {
    exists|a: int, b: int| (a == 0 || b == 0) && #[trigger] linked(bin, (i, j), (a, b))
}

/// `seg` gives the pixel `(i, j)` to a component of its color, or to none
/// (-1), and to the same as the pixel to its left and the pixel above it,
/// where they have its color.
pub open spec fn placed(
    topo: Seq<FeatureVector>,
    bin: Raster,
    seg: Map<(int, int), int>,
    i: int,
    j: int,
) -> bool {
    let k = seg[(i, j)];
    &&& seg.dom().contains((i, j))
    &&& -1 <= k < topo.len()
    &&& k >= 0 ==> topo[k].color == bin.lit(i, j)
    &&& i > 0 && bin.lit(i - 1, j) == bin.lit(i, j) ==> seg[(i - 1, j)] == k
    &&& j > 0 && bin.lit(i, j - 1) == bin.lit(i, j) ==> seg[(i, j - 1)] == k
}

/// The component `k` is a child of the component `p`.
pub open spec fn is_child(topo: Seq<FeatureVector>, p: int, k: int) -> bool {
    exists|m: int| 0 <= m < children(topo, p).len() && #[trigger] children(topo, p)[m] == k
}

/// The pixel below the last pixel of the component `k`, which is the
/// rightmost pixel of its lowest row, belongs to the parent of `k`, if to
/// any component.
pub open spec fn hangs_below(
    topo: Seq<FeatureVector>,
    bin: Raster,
    seg: Map<(int, int), int>,
    k: int,
) -> bool {
    let i = topo[k].max_x as int;
    let j = topo[k].ymax() + 1;
    &&& bin.contains(i, j)
    &&& seg[(i, j)] < topo.len()
    &&& seg[(i, j)] >= 0 ==> is_child(topo, seg[(i, j)], k)
    &&& forall|p: int, m: int|
        0 <= p < topo.len() && 0 <= m < children(topo, p).len() && #[trigger] children(topo, p)[m] == k
            ==> seg[(i, j)] == p
}

/// The scan passes below the last pixel of `a` before it passes below the
/// last pixel of `b`.
pub open spec fn closes_before(a: FeatureVector, b: FeatureVector) -> bool {
    a.ymax() < b.ymax() || (a.ymax() == b.ymax() && a.max_x < b.max_x)
}

/// `seg` gives the pixel `(i, j)` to the component `k`.
pub open spec fn in_component(seg: Map<(int, int), int>, k: int, i: int, j: int) -> bool {
    seg[(i, j)] == k
}

/// The bounding box of the component `k` is the box of its pixels, and
/// `(max_x, ymax)` is the rightmost pixel of its lowest row.
pub open spec fn boxed(topo: Seq<FeatureVector>, bin: Raster, seg: Map<(int, int), int>, k: int) -> bool {
    let c = topo[k];
    &&& forall|i: int, j: int|
        bin.contains(i, j) && #[trigger] in_component(seg, k, i, j) ==> c.xmin() <= i <= c.xmax() && c.ymin()
            <= j <= c.ymax() && (j == c.ymax() ==> i <= c.max_x)
    &&& exists|i: int, j: int| bin.contains(i, j) && #[trigger] in_component(seg, k, i, j) && i == c.xmin()
    &&& exists|i: int, j: int| bin.contains(i, j) && #[trigger] in_component(seg, k, i, j) && i == c.xmax()
    &&& exists|i: int, j: int| bin.contains(i, j) && #[trigger] in_component(seg, k, i, j) && j == c.ymin()
    &&& bin.contains(c.max_x as int, c.ymax())
    &&& in_component(seg, k, c.max_x as int, c.ymax())
}

/// The root, which ends the list, takes the dark pixels of the uppermost row
/// and of the leftmost column, and each of its pixels is linked with one of
/// them.
pub open spec fn root_at_rim(topo: Seq<FeatureVector>, bin: Raster, seg: Map<(int, int), int>) -> bool {
    &&& forall|i: int, j: int|
        bin.contains(i, j) && (i == 0 || j == 0) && !bin.lit(i, j) ==> #[trigger] in_component(
            seg,
            topo.len() - 1,
            i,
            j,
        )
    &&& forall|i: int, j: int|
        bin.contains(i, j) && #[trigger] in_component(seg, topo.len() - 1, i, j) ==> reaches_rim(bin, i, j)
}

/// `seg` tells to which component of `topo` each pixel of `bin` belongs.
/// Pixels of one color that lie side by side or one above the other belong
/// to the same component; two pixels of a component, the root left aside,
/// are linked by a walk of one color; and the area of a component is the
/// number of its pixels, and its bounding box their box. A component is the
/// child of the component that lies below its last pixel, and the
/// components stand in the order in which the scan passes below their last
/// pixels. The root takes the dark pixels that are linked with the upper or
/// the left rim.
pub open spec fn is_segmentation(topo: Seq<FeatureVector>, bin: Raster, seg: Map<(int, int), int>) -> bool {
    &&& forall|i: int, j: int| bin.contains(i, j) ==> #[trigger] placed(topo, bin, seg, i, j)
    &&& root_at_rim(topo, bin, seg)
    &&& forall|i: int, j: int, p: int, q: int|
        bin.contains(i, j) && bin.contains(p, q) && #[trigger] seg[(i, j)] == #[trigger] seg[(p, q)] && 0
            <= seg[(i, j)] < topo.len() - 1 ==> linked(bin, (i, j), (p, q))
    &&& forall|k: int|
        0 <= k < topo.len() ==> (#[trigger] topo[k]).area == rows_count(seg, k, bin.width, bin.height())
    &&& forall|k: int| 0 <= k < topo.len() - 1 ==> #[trigger] hangs_below(topo, bin, seg, k)
    &&& forall|k: int| 0 <= k < topo.len() - 1 ==> #[trigger] boxed(topo, bin, seg, k)
    &&& forall|k: int, m: int| 0 <= k < m < topo.len() - 1 ==> closes_before(#[trigger] topo[k], #[trigger] topo[m])
}

/// The last pixel of a child lies right above a pixel of its parent: the
/// child ends above the lowest row of the parent, and between its left and
/// its right side.
pub proof fn lemma_child_ends_in_parent(
    topo: Seq<FeatureVector>,
    bin: Raster,
    seg: Map<(int, int), int>,
    p: int,
    m: int,
)
    requires
        is_segmentation(topo, bin, seg),
        0 <= p < topo.len() - 1,
        0 <= m < children(topo, p).len(),
        0 <= children(topo, p)[m] < topo.len() - 1,
    ensures
        ({
            let c = topo[children(topo, p)[m]];
            &&& in_component(seg, p, c.max_x as int, c.ymax() + 1)
            &&& topo[p].xmin() <= c.max_x <= topo[p].xmax()
            &&& topo[p].ymin() <= c.ymax() + 1 <= topo[p].ymax()
        }),
{
    let k = children(topo, p)[m];
    assert(hangs_below(topo, bin, seg, k));
    assert(boxed(topo, bin, seg, p));
    assert(in_component(seg, p, topo[k].max_x as int, topo[k].ymax() + 1));
}

/// The pixels of the root are the dark pixels that a dark walk links with
/// the uppermost row or the leftmost column.
pub proof fn lemma_root_pixels(topo: Seq<FeatureVector>, bin: Raster, seg: Map<(int, int), int>, i: int, j: int)
    requires
        is_segmentation(topo, bin, seg),
        topo.len() >= 1,
        !topo[topo.len() - 1].color,
        bin.contains(i, j),
    ensures
        seg[(i, j)] == topo.len() - 1 <==> !bin.lit(i, j) && reaches_rim(bin, i, j),
{
    let r = topo.len() - 1;
    assert(placed(topo, bin, seg, i, j));
    if seg[(i, j)] == r {
        assert(in_component(seg, r, i, j));
    }
    if !bin.lit(i, j) && reaches_rim(bin, i, j) {
        let (a, b) = choose|a: int, b: int| (a == 0 || b == 0) && #[trigger] linked(bin, (i, j), (a, b));
        let path = choose|path: Seq<(int, int)>| #[trigger]
            is_path(bin, path) && path[0] == (i, j) && path[path.len() - 1] == (a, b);
        assert(bin.contains(path[path.len() - 1].0, path[path.len() - 1].1));
        assert(bin.lit(path[path.len() - 1].0, path[path.len() - 1].1) == bin.lit(path[0].0, path[0].1));
        assert(in_component(seg, r, a, b));
        lemma_linked_same_component(topo, bin, seg, (i, j), (a, b));
    }
}

/// Pixels that a walk of one color links belong to the same component.
pub proof fn lemma_linked_same_component(
    topo: Seq<FeatureVector>,
    bin: Raster,
    seg: Map<(int, int), int>,
    a: (int, int),
    b: (int, int),
)
    requires
        is_segmentation(topo, bin, seg),
        linked(bin, a, b),
    ensures
        seg[a] == seg[b],
{
    let path =
        choose|path: Seq<(int, int)>| #[trigger] is_path(bin, path) && path[0] == a && path[path.len() - 1] == b;
    lemma_path_same_component(topo, bin, seg, path, path.len() - 1);
}

pub proof fn lemma_path_same_component(
    topo: Seq<FeatureVector>,
    bin: Raster,
    seg: Map<(int, int), int>,
    path: Seq<(int, int)>,
    k: int,
)
    requires
        is_segmentation(topo, bin, seg),
        is_path(bin, path),
        0 <= k < path.len(),
    ensures
        seg[path[k]] == seg[path[0]],
    decreases k,
{
    if k > 0 {
        lemma_path_same_component(topo, bin, seg, path, k - 1);
        let u = path[k - 1];
        let v = path[k];
        assert(adjacent(u, path[k - 1 + 1]));
        assert(bin.contains(u.0, u.1) && bin.contains(v.0, v.1));
        assert(bin.lit(u.0, u.1) == bin.lit(v.0, v.1));
        assert(placed(topo, bin, seg, u.0, u.1));
        assert(placed(topo, bin, seg, v.0, v.1));
        assert(u == (u.0, u.1) && v == (v.0, v.1));
    }
}

pub proof fn lemma_linked_self(bin: Raster, a: (int, int))
    requires
        bin.contains(a.0, a.1),
    ensures
        linked(bin, a, a),
{
    let path = seq![a];
    assert(is_path(bin, path));
}

pub proof fn lemma_linked_step(bin: Raster, a: (int, int), b: (int, int))
    requires
        bin.contains(a.0, a.1),
        bin.contains(b.0, b.1),
        adjacent(a, b),
        bin.lit(a.0, a.1) == bin.lit(b.0, b.1),
    ensures
        linked(bin, a, b),
{
    let path = seq![a, b];
    assert(is_path(bin, path));
}

pub proof fn lemma_linked_trans(bin: Raster, a: (int, int), b: (int, int), c: (int, int))
    requires
        linked(bin, a, b),
        linked(bin, b, c),
    ensures
        linked(bin, a, c),
{
    let p =
        choose|path: Seq<(int, int)>| #[trigger] is_path(bin, path) && path[0] == a && path[path.len() - 1] == b;
    let q =
        choose|path: Seq<(int, int)>| #[trigger] is_path(bin, path) && path[0] == b && path[path.len() - 1] == c;
    let r = p + q.subrange(1, q.len() as int);
    assert forall|k: int| 0 <= k < r.len() implies bin.contains((#[trigger] r[k]).0, r[k].1) && bin.lit(
        r[k].0,
        r[k].1,
    ) == bin.lit(r[0].0, r[0].1) by {
        if k < p.len() {
            assert(r[k] == p[k]);
        } else {
            assert(r[k] == q[k - p.len() + 1]);
            assert(bin.lit(q[0].0, q[0].1) == bin.lit(p[p.len() - 1].0, p[p.len() - 1].1));
        }
        assert(r[0] == p[0]);
    }
    assert forall|k: int| 0 <= k < r.len() - 1 implies adjacent(#[trigger] r[k], r[k + 1]) by {
        if k + 1 < p.len() {
            assert(r[k] == p[k] && r[k + 1] == p[k + 1]);
        } else if k + 1 == p.len() {
            assert(r[k] == p[k]);
            assert(r[k + 1] == q[1]);
            assert(p[k] == q[0]);
            assert(adjacent(q[0], q[1]));
        } else {
            assert(r[k] == q[k - p.len() + 1]);
            assert(r[k + 1] == q[(k - p.len() + 1) + 1]);
        }
    }
    assert(is_path(bin, r));
    assert(r[0] == a);
    if q.len() == 1 {
        assert(r =~= p);
    } else {
        assert(r[r.len() - 1] == q[q.len() - 1]);
    }
}

pub proof fn lemma_linked_sym(bin: Raster, a: (int, int), b: (int, int))
    requires
        linked(bin, a, b),
    ensures
        linked(bin, b, a),
{
    let p =
        choose|path: Seq<(int, int)>| #[trigger] is_path(bin, path) && path[0] == a && path[path.len() - 1] == b;
    let r = Seq::new(p.len(), |k: int| p[p.len() - 1 - k]);
    assert(r.len() == p.len());
    assert forall|k: int| 0 <= k < r.len() implies bin.contains((#[trigger] r[k]).0, r[k].1) && bin.lit(
        r[k].0,
        r[k].1,
    ) == bin.lit(r[0].0, r[0].1) by {
        assert(r[k] == p[p.len() - 1 - k]);
        assert(r[0] == p[p.len() - 1]);
    }
    assert forall|k: int| 0 <= k < r.len() - 1 implies adjacent(#[trigger] r[k], r[k + 1]) by {
        let m: int = p.len() - 2 - k;
        assert(adjacent(p[m], p[m + 1]));
    }
    assert(is_path(bin, r));
}

/// Where two maps give `ca` and `cb` to the same pixels of a row, the
/// counts agree.
pub proof fn lemma_row_count_same(
    a: Map<(int, int), int>,
    b: Map<(int, int), int>,
    ca: int,
    cb: int,
    j: int,
    n: nat,
)
    requires
        forall|i: int| 0 <= i < n ==> (#[trigger] a[(i, j)] == ca <==> b[(i, j)] == cb),
    ensures
        row_count(a, ca, j, n) == row_count(b, cb, j, n),
    decreases n,
{
    if n > 0 {
        lemma_row_count_same(a, b, ca, cb, j, (n - 1) as nat);
        assert(a[(n - 1, j)] == ca <==> b[(n - 1, j)] == cb);
    }
}

pub proof fn lemma_rows_count_same(
    a: Map<(int, int), int>,
    b: Map<(int, int), int>,
    ca: int,
    cb: int,
    w: nat,
    m: nat,
)
    requires
        forall|i: int, j: int| 0 <= i < w && 0 <= j < m ==> (#[trigger] a[(i, j)] == ca <==> b[(i, j)] == cb),
    ensures
        rows_count(a, ca, w, m) == rows_count(b, cb, w, m),
    decreases m,
{
    if m > 0 {
        lemma_rows_count_same(a, b, ca, cb, w, (m - 1) as nat);
        lemma_row_count_same(a, b, ca, cb, m - 1, w);
    }
}

/// No pixel of the row has `c`: the count is zero.
pub proof fn lemma_row_count_none(a: Map<(int, int), int>, c: int, j: int, n: nat)
    requires
        forall|i: int| 0 <= i < n ==> #[trigger] a[(i, j)] != c,
    ensures
        row_count(a, c, j, n) == 0,
    decreases n,
{
    if n > 0 {
        lemma_row_count_none(a, c, j, (n - 1) as nat);
        assert(a[(n - 1, j)] != c);
    }
}

pub proof fn lemma_rows_count_none(a: Map<(int, int), int>, c: int, w: nat, m: nat)
    requires
        forall|i: int, j: int| 0 <= i < w && 0 <= j < m ==> #[trigger] a[(i, j)] != c,
    ensures
        rows_count(a, c, w, m) == 0,
    decreases m,
{
    if m > 0 {
        lemma_rows_count_none(a, c, w, (m - 1) as nat);
        lemma_row_count_none(a, c, m - 1, w);
    }
}

/// Where `b` gives to `to` what `a` gives to `from` or to `to`, the counts
/// of the two add up.
pub proof fn lemma_row_count_join(
    a: Map<(int, int), int>,
    b: Map<(int, int), int>,
    from: int,
    to: int,
    j: int,
    n: nat,
)
    requires
        from != to,
        forall|i: int|
            0 <= i < n ==> #[trigger] b[(i, j)] == (if a[(i, j)] == from {
                to
            } else {
                a[(i, j)]
            }),
    ensures
        row_count(b, to, j, n) == row_count(a, to, j, n) + row_count(a, from, j, n),
    decreases n,
{
    if n > 0 {
        lemma_row_count_join(a, b, from, to, j, (n - 1) as nat);
        assert(b[(n - 1, j)] == (if a[(n - 1, j)] == from {
            to
        } else {
            a[(n - 1, j)]
        }));
    }
}

pub proof fn lemma_rows_count_join(
    a: Map<(int, int), int>,
    b: Map<(int, int), int>,
    from: int,
    to: int,
    w: nat,
    m: nat,
)
    requires
        from != to,
        forall|i: int, j: int|
            0 <= i < w && 0 <= j < m ==> #[trigger] b[(i, j)] == (if a[(i, j)] == from {
                to
            } else {
                a[(i, j)]
            }),
    ensures
        rows_count(b, to, w, m) == rows_count(a, to, w, m) + rows_count(a, from, w, m),
    decreases m,
{
    if m > 0 {
        lemma_rows_count_join(a, b, from, to, w, (m - 1) as nat);
        lemma_row_count_join(a, b, from, to, m - 1, w);
    }
}

} // verus!
