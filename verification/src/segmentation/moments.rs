//! The moments of a component are those of its pixels and of its children.

use crate::raster::Raster;
use crate::segmentation::forest::children;
use crate::segmentation::{weight, FeatureVector};
use vstd::prelude::*;

verus! {

/// The weight of the pixel `(i, j)`: its gray value where it is lit, and
/// what its gray value lacks to 255 where it is dark.
pub open spec fn pixel_weight(bin: Raster, grey: Raster, i: int, j: int) -> int {
    weight(grey.at(i, j) as u32, bin.lit(i, j))
}

/// What the pixel `(i, j)` adds to a moment: its weight to the moment of
/// order zero (`which` 0), its weight times its column or its row to the
/// moments of order one (`which` 1 and 2).
pub open spec fn pixel_moment(bin: Raster, grey: Raster, which: int, i: int, j: int) -> int {
    if which == 0 {
        pixel_weight(bin, grey, i, j)
    } else if which == 1 {
        i * pixel_weight(bin, grey, i, j)
    } else {
        j * pixel_weight(bin, grey, i, j)
    }
}

/// The moment `which` of a component.
pub open spec fn moment_of(fv: FeatureVector, which: int) -> int {
    if which == 0 {
        fv.zom as int
    } else if which == 1 {
        fv.fom[0] as int
    } else {
        fv.fom[1] as int
    }
}

/// What those of the first `n` pixels of row `j` that `seg` gives to `c`
/// add to the moment `which`.
pub open spec fn row_moment(
    bin: Raster,
    grey: Raster,
    seg: Map<(int, int), int>,
    c: int,
    which: int,
    j: int,
    n: nat,
) -> int
    decreases n,
{
    if n == 0 {
        0
    } else {
        row_moment(bin, grey, seg, c, which, j, (n - 1) as nat) + if seg[(n - 1, j)] == c {
            pixel_moment(bin, grey, which, n - 1, j)
        } else {
            0
        }
    }
}

/// What the pixels of the first `m` rows that `seg` gives to `c` add to the
/// moment `which`.
pub open spec fn rows_moment(
    bin: Raster,
    grey: Raster,
    seg: Map<(int, int), int>,
    c: int,
    which: int,
    w: nat,
    m: nat,
) -> int
    decreases m,
{
    if m == 0 {
        0
    } else {
        rows_moment(bin, grey, seg, c, which, w, (m - 1) as nat) + row_moment(bin, grey, seg, c, which, m - 1, w)
    }
}

/// What the pixels that `seg` gives to `c` among the first `y` rows and
/// the first `nx` pixels of row `y` add to the moment `which`.
pub open spec fn moment_upto(
    bin: Raster,
    grey: Raster,
    seg: Map<(int, int), int>,
    c: int,
    which: int,
    w: nat,
    nx: nat,
    y: nat,
) -> int {
    rows_moment(bin, grey, seg, c, which, w, y) + row_moment(bin, grey, seg, c, which, y as int, nx)
}

/// The moments `which` of the components `ks`, added up.
pub open spec fn kids_moment(topo: Seq<FeatureVector>, ks: Seq<int>, which: int) -> int
    decreases ks.len(),
{
    if ks.len() == 0 {
        0
    } else {
        kids_moment(topo, ks.drop_last(), which) + moment_of(topo[ks.last()], which)
    }
}

/// Every moment of every component of `topo` is the sum of what the pixels
/// that `seg` gives it add to it, and of the like moments of its children.
pub open spec fn has_moments(
    topo: Seq<FeatureVector>,
    bin: Raster,
    grey: Raster,
    seg: Map<(int, int), int>,
) -> bool {
    forall|k: int, which: int|
        0 <= k < topo.len() && 0 <= which <= 2 ==> #[trigger] moment_of(topo[k], which) == rows_moment(
            bin,
            grey,
            seg,
            k,
            which,
            bin.width,
            bin.height(),
        ) + kids_moment(topo, children(topo, k), which)
}

pub proof fn lemma_kids_moment_concat(topo: Seq<FeatureVector>, a: Seq<int>, b: Seq<int>, which: int)
    ensures
        kids_moment(topo, a + b, which) == kids_moment(topo, a, which) + kids_moment(topo, b, which),
    decreases b.len(),
{
    if b.len() == 0 {
        assert(a + b =~= a);
    } else {
        lemma_kids_moment_concat(topo, a, b.drop_last(), which);
        assert((a + b).drop_last() =~= a + b.drop_last());
    }
}

pub proof fn lemma_kids_moment_one(topo: Seq<FeatureVector>, k: int, which: int)
    ensures
        kids_moment(topo, seq![k], which) == moment_of(topo[k], which),
{
    assert(seq![k].drop_last() =~= Seq::<int>::empty());
    assert(kids_moment(topo, Seq::<int>::empty(), which) == 0);
    assert(seq![k].last() == k);
}

/// The sum looks at no other components than those of `ks`.
pub proof fn lemma_kids_moment_frame(a: Seq<FeatureVector>, b: Seq<FeatureVector>, ks: Seq<int>, which: int)
    requires
        forall|j: int| 0 <= j < ks.len() ==> moment_of(b[#[trigger] ks[j]], which) == moment_of(a[ks[j]], which),
    ensures
        kids_moment(b, ks, which) == kids_moment(a, ks, which),
    decreases ks.len(),
{
    if ks.len() > 0 {
        assert(ks.last() == ks[ks.len() - 1]);
        assert forall|j: int| 0 <= j < ks.drop_last().len() implies moment_of(
            b[#[trigger] ks.drop_last()[j]],
            which,
        ) == moment_of(a[ks.drop_last()[j]], which) by {
            assert(ks.drop_last()[j] == ks[j]);
        }
        lemma_kids_moment_frame(a, b, ks.drop_last(), which);
    }
}

pub proof fn lemma_row_moment_same(
    bin: Raster,
    grey: Raster,
    a: Map<(int, int), int>,
    b: Map<(int, int), int>,
    ca: int,
    cb: int,
    which: int,
    j: int,
    n: nat,
)
    requires
        forall|i: int| 0 <= i < n ==> (#[trigger] a[(i, j)] == ca <==> b[(i, j)] == cb),
    ensures
        row_moment(bin, grey, a, ca, which, j, n) == row_moment(bin, grey, b, cb, which, j, n),
    decreases n,
{
    if n > 0 {
        lemma_row_moment_same(bin, grey, a, b, ca, cb, which, j, (n - 1) as nat);
        assert(a[(n - 1, j)] == ca <==> b[(n - 1, j)] == cb);
    }
}

pub proof fn lemma_rows_moment_same(
    bin: Raster,
    grey: Raster,
    a: Map<(int, int), int>,
    b: Map<(int, int), int>,
    ca: int,
    cb: int,
    which: int,
    w: nat,
    m: nat,
)
    requires
        forall|i: int, j: int| 0 <= i < w && 0 <= j < m ==> (#[trigger] a[(i, j)] == ca <==> b[(i, j)] == cb),
    ensures
        rows_moment(bin, grey, a, ca, which, w, m) == rows_moment(bin, grey, b, cb, which, w, m),
    decreases m,
{
    if m > 0 {
        lemma_rows_moment_same(bin, grey, a, b, ca, cb, which, w, (m - 1) as nat);
        lemma_row_moment_same(bin, grey, a, b, ca, cb, which, m - 1, w);
    }
}

pub proof fn lemma_row_moment_none(
    bin: Raster,
    grey: Raster,
    a: Map<(int, int), int>,
    c: int,
    which: int,
    j: int,
    n: nat,
)
    requires
        forall|i: int| 0 <= i < n ==> #[trigger] a[(i, j)] != c,
    ensures
        row_moment(bin, grey, a, c, which, j, n) == 0,
    decreases n,
{
    if n > 0 {
        lemma_row_moment_none(bin, grey, a, c, which, j, (n - 1) as nat);
        assert(a[(n - 1, j)] != c);
    }
}

pub proof fn lemma_rows_moment_none(
    bin: Raster,
    grey: Raster,
    a: Map<(int, int), int>,
    c: int,
    which: int,
    w: nat,
    m: nat,
)
    requires
        forall|i: int, j: int| 0 <= i < w && 0 <= j < m ==> #[trigger] a[(i, j)] != c,
    ensures
        rows_moment(bin, grey, a, c, which, w, m) == 0,
    decreases m,
{
    if m > 0 {
        lemma_rows_moment_none(bin, grey, a, c, which, w, (m - 1) as nat);
        lemma_row_moment_none(bin, grey, a, c, which, m - 1, w);
    }
}

pub proof fn lemma_row_moment_join(
    bin: Raster,
    grey: Raster,
    a: Map<(int, int), int>,
    b: Map<(int, int), int>,
    from: int,
    to: int,
    which: int,
    j: int,
    n: nat,
)
    requires
        from != to,
        forall|i: int|
            0 <= i < n ==> #[trigger] b[(i, j)] == (if a[(i, j)] == from {
                to
            } else {
                a[(i, j)]
            }),
    ensures
        row_moment(bin, grey, b, to, which, j, n) == row_moment(bin, grey, a, to, which, j, n) + row_moment(
            bin,
            grey,
            a,
            from,
            which,
            j,
            n,
        ),
    decreases n,
{
    if n > 0 {
        lemma_row_moment_join(bin, grey, a, b, from, to, which, j, (n - 1) as nat);
        assert(b[(n - 1, j)] == (if a[(n - 1, j)] == from {
            to
        } else {
            a[(n - 1, j)]
        }));
    }
}

pub proof fn lemma_rows_moment_join(
    bin: Raster,
    grey: Raster,
    a: Map<(int, int), int>,
    b: Map<(int, int), int>,
    from: int,
    to: int,
    which: int,
    w: nat,
    m: nat,
)
    requires
        from != to,
        forall|i: int, j: int|
            0 <= i < w && 0 <= j < m ==> #[trigger] b[(i, j)] == (if a[(i, j)] == from {
                to
            } else {
                a[(i, j)]
            }),
    ensures
        rows_moment(bin, grey, b, to, which, w, m) == rows_moment(bin, grey, a, to, which, w, m) + rows_moment(
            bin,
            grey,
            a,
            from,
            which,
            w,
            m,
        ),
    decreases m,
{
    if m > 0 {
        lemma_rows_moment_join(bin, grey, a, b, from, to, which, w, (m - 1) as nat);
        lemma_row_moment_join(bin, grey, a, b, from, to, which, m - 1, w);
    }
}

} // verus!
