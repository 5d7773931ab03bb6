//! The bounding box of a component is the box of its pixels.

use crate::segmentation::state::State;
use crate::segmentation::FeatureVector;
use vstd::prelude::*;

verus! {

/// The component `c2` owns in `s2` what `c` owned in `s`: its box is still
/// the box of its pixels.
pub proof fn lemma_box_frame(
    s: State,
    s2: State,
    nx: int,
    y: int,
    nx2: int,
    y2: int,
    c: int,
    c2: int,
    fv: FeatureVector,
)
    requires
        s.fits_box(nx, y, c, fv),
        s.touches(nx, y, c, fv),
        forall|i: int, j: int|
            s2.scanned(nx2, y2, i, j) && #[trigger] s2.owned(c2, i, j) ==> s.scanned(nx, y, i, j) && s.owned(
                c,
                i,
                j,
            ),
        forall|i: int, j: int|
            s.scanned(nx, y, i, j) && #[trigger] s.owned(c, i, j) ==> s2.scanned(nx2, y2, i, j) && s2.owned(
                c2,
                i,
                j,
            ),
    ensures
        s2.fits_box(nx2, y2, c2, fv),
        s2.touches(nx2, y2, c2, fv),
{
    assert forall|i: int, j: int| s2.scanned(nx2, y2, i, j) && #[trigger] s2.owned(c2, i, j) implies fv.xmin()
        <= i <= fv.xmax() && fv.ymin() <= j <= fv.ymax() && (j == fv.ymax() ==> i <= fv.max_x) by {
        assert(s.owned(c, i, j));
    }
    let (i1, j1) = choose|i: int, j: int| s.scanned(nx, y, i, j) && #[trigger] s.owned(c, i, j) && i == fv.xmin();
    assert(s2.scanned(nx2, y2, i1, j1) && s2.owned(c2, i1, j1));
    let (i2, j2) = choose|i: int, j: int| s.scanned(nx, y, i, j) && #[trigger] s.owned(c, i, j) && i == fv.xmax();
    assert(s2.scanned(nx2, y2, i2, j2) && s2.owned(c2, i2, j2));
    let (i3, j3) = choose|i: int, j: int| s.scanned(nx, y, i, j) && #[trigger] s.owned(c, i, j) && j == fv.ymin();
    assert(s2.scanned(nx2, y2, i3, j3) && s2.owned(c2, i3, j3));
}

/// The component `c` takes the pixel `(x, y)`, which lies on or below its
/// lowest row and right of all its pixels there.
pub proof fn lemma_box_grow(s: State, s2: State, nx: int, y: int, c: int, fv: FeatureVector, fv2: FeatureVector)
    requires
        s.fits_box(nx, y, c, fv),
        s.touches(nx, y, c, fv),
        0 <= nx < s.w,
        s2.w == s.w,
        fv.ymax() <= y,
        fv.ymax() == y ==> fv.max_x < nx,
        fv2.xmin() == (if nx < fv.xmin() {
            nx
        } else {
            fv.xmin()
        }),
        fv2.xmax() == (if nx > fv.xmax() {
            nx
        } else {
            fv.xmax()
        }),
        fv2.ymin() == fv.ymin(),
        fv2.ymax() == y,
        fv2.max_x == nx,
        fv.ymin() <= fv.ymax(),
        forall|i: int, j: int|
            s2.scanned(nx + 1, y, i, j) && #[trigger] s2.owned(c, i, j) ==> (i == nx && j == y) || (s.scanned(
                nx,
                y,
                i,
                j,
            ) && s.owned(c, i, j)),
        forall|i: int, j: int| s.scanned(nx, y, i, j) && #[trigger] s.owned(c, i, j) ==> s2.owned(c, i, j),
        s2.owned(c, nx, y),
    ensures
        s2.fits_box(nx + 1, y, c, fv2),
        s2.touches(nx + 1, y, c, fv2),
{
    assert forall|i: int, j: int| s2.scanned(nx + 1, y, i, j) && #[trigger] s2.owned(c, i, j) implies fv2.xmin()
        <= i <= fv2.xmax() && fv2.ymin() <= j <= fv2.ymax() && (j == fv2.ymax() ==> i <= fv2.max_x) by {
        if !(i == nx && j == y) {
            assert(s.owned(c, i, j));
        }
    }
    assert(s2.scanned(nx + 1, y, nx, y));
    let (i1, j1) = choose|i: int, j: int| s.scanned(nx, y, i, j) && #[trigger] s.owned(c, i, j) && i == fv.xmin();
    assert(s2.scanned(nx + 1, y, i1, j1) && s2.owned(c, i1, j1));
    let (i2, j2) = choose|i: int, j: int| s.scanned(nx, y, i, j) && #[trigger] s.owned(c, i, j) && i == fv.xmax();
    assert(s2.scanned(nx + 1, y, i2, j2) && s2.owned(c, i2, j2));
    let (i3, j3) = choose|i: int, j: int| s.scanned(nx, y, i, j) && #[trigger] s.owned(c, i, j) && j == fv.ymin();
    assert(s2.scanned(nx + 1, y, i3, j3) && s2.owned(c, i3, j3));
}

/// The component `c` takes over the component `d`: the box of the two is
/// the box of their pixels.
pub proof fn lemma_box_join(
    s: State,
    s2: State,
    nx: int,
    y: int,
    c: int,
    d: int,
    a: FeatureVector,
    b: FeatureVector,
)
    requires
        s.fits_box(nx, y, c, a),
        s.touches(nx, y, c, a),
        s.fits_box(nx, y, d, b),
        s.touches(nx, y, d, b),
        a.ymax() == b.ymax() || a.ymax() + 1 == b.ymax() || a.ymax() == b.ymax() + 1,
        a.area + b.area <= u32::MAX,
        forall|i: int, j: int|
            s2.scanned(nx, y, i, j) && #[trigger] s2.owned(c, i, j) ==> s.scanned(nx, y, i, j) && (s.owned(
                c,
                i,
                j,
            ) || s.owned(d, i, j)),
        forall|i: int, j: int| s.scanned(nx, y, i, j) && #[trigger] s.owned(c, i, j) ==> s2.owned(c, i, j),
        forall|i: int, j: int| s.scanned(nx, y, i, j) && #[trigger] s.owned(d, i, j) ==> s2.owned(c, i, j),
        s2.w == s.w,
    ensures
        s2.fits_box(nx, y, c, a.absorbed(b)),
        s2.touches(nx, y, c, a.absorbed(b)),
{
    let fv2 = a.absorbed(b);
    assert(fv2.bounding_box[0] == (
        if b.xmin() < a.xmin() {
            b.bounding_box[0].0
        } else {
            a.bounding_box[0].0
        },
        if b.ymin() < a.ymin() {
            b.bounding_box[0].1
        } else {
            a.bounding_box[0].1
        },
    ));
    assert(fv2.bounding_box[1] == (
        if b.xmax() > a.xmax() {
            b.bounding_box[1].0
        } else {
            a.bounding_box[1].0
        },
        if b.ymax() > a.ymax() {
            b.bounding_box[1].1
        } else {
            a.bounding_box[1].1
        },
    ));
    assert forall|i: int, j: int| s2.scanned(nx, y, i, j) && #[trigger] s2.owned(c, i, j) implies fv2.xmin()
        <= i <= fv2.xmax() && fv2.ymin() <= j <= fv2.ymax() && (j == fv2.ymax() ==> i <= fv2.max_x) by {
        if s.owned(c, i, j) {
        } else {
            assert(s.owned(d, i, j));
        }
    }
    let (i1, j1) = choose|i: int, j: int| s.scanned(nx, y, i, j) && #[trigger] s.owned(c, i, j) && i == a.xmin();
    let (k1, l1) = choose|i: int, j: int| s.scanned(nx, y, i, j) && #[trigger] s.owned(d, i, j) && i == b.xmin();
    if b.xmin() < a.xmin() {
        assert(s2.scanned(nx, y, k1, l1) && s2.owned(c, k1, l1));
    } else {
        assert(s2.scanned(nx, y, i1, j1) && s2.owned(c, i1, j1));
    }
    let (i2, j2) = choose|i: int, j: int| s.scanned(nx, y, i, j) && #[trigger] s.owned(c, i, j) && i == a.xmax();
    let (k2, l2) = choose|i: int, j: int| s.scanned(nx, y, i, j) && #[trigger] s.owned(d, i, j) && i == b.xmax();
    if b.xmax() > a.xmax() {
        assert(s2.scanned(nx, y, k2, l2) && s2.owned(c, k2, l2));
    } else {
        assert(s2.scanned(nx, y, i2, j2) && s2.owned(c, i2, j2));
    }
    let (i3, j3) = choose|i: int, j: int| s.scanned(nx, y, i, j) && #[trigger] s.owned(c, i, j) && j == a.ymin();
    let (k3, l3) = choose|i: int, j: int| s.scanned(nx, y, i, j) && #[trigger] s.owned(d, i, j) && j == b.ymin();
    if b.ymin() < a.ymin() {
        assert(s2.scanned(nx, y, k3, l3) && s2.owned(c, k3, l3));
    } else {
        assert(s2.scanned(nx, y, i3, j3) && s2.owned(c, i3, j3));
    }
}

} // verus!
