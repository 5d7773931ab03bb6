//! Each step of the scan keeps the books on who owns which pixel.

use crate::raster::Raster;
use crate::segmentation::boxes::{lemma_box_frame, lemma_box_grow, lemma_box_join};
use crate::segmentation::regions::{
    closes_before,
    count_upto, lemma_linked_self, lemma_linked_step, lemma_linked_sym, lemma_linked_trans,
    lemma_row_count_join, lemma_row_count_none, lemma_row_count_same, lemma_rows_count_join,
    lemma_rows_count_none, lemma_rows_count_same, linked,
};
use crate::segmentation::state::State;
use vstd::prelude::*;

verus! {

/// Where two maps give `ca` and `cb` to the same scanned pixels, the counts
/// agree.
pub proof fn lemma_count_same(
    a: Map<(int, int), int>,
    b: Map<(int, int), int>,
    ca: int,
    cb: int,
    w: nat,
    nx: nat,
    y: nat,
)
    requires
        forall|i: int, j: int| 0 <= i < w && 0 <= j < y ==> (#[trigger] a[(i, j)] == ca <==> b[(i, j)] == cb),
        forall|i: int| 0 <= i < nx ==> (#[trigger] a[(i, y as int)] == ca <==> b[(i, y as int)] == cb),
    ensures
        count_upto(a, ca, w, nx, y) == count_upto(b, cb, w, nx, y),
{
    lemma_rows_count_same(a, b, ca, cb, w, y);
    lemma_row_count_same(a, b, ca, cb, y as int, nx);
}

/// No scanned pixel has `c`: the count is zero.
pub proof fn lemma_count_none(a: Map<(int, int), int>, c: int, w: nat, nx: nat, y: nat)
    requires
        forall|i: int, j: int| 0 <= i < w && 0 <= j < y ==> #[trigger] a[(i, j)] != c,
        forall|i: int| 0 <= i < nx ==> #[trigger] a[(i, y as int)] != c,
    ensures
        count_upto(a, c, w, nx, y) == 0,
{
    lemma_rows_count_none(a, c, w, y);
    lemma_row_count_none(a, c, y as int, nx);
}

/// Where `b` gives to `to` what `a` gives to `from` or to `to`, the counts
/// of the two add up.
pub proof fn lemma_count_join(
    a: Map<(int, int), int>,
    b: Map<(int, int), int>,
    from: int,
    to: int,
    w: nat,
    nx: nat,
    y: nat,
)
    requires
        from != to,
        forall|i: int, j: int|
            0 <= i < w && 0 <= j < y ==> #[trigger] b[(i, j)] == (if a[(i, j)] == from {
                to
            } else {
                a[(i, j)]
            }),
        forall|i: int|
            0 <= i < nx ==> #[trigger] b[(i, y as int)] == (if a[(i, y as int)] == from {
                to
            } else {
                a[(i, y as int)]
            }),
    ensures
        count_upto(b, to, w, nx, y) == count_upto(a, to, w, nx, y) + count_upto(a, from, w, nx, y),
{
    lemma_rows_count_join(a, b, from, to, w, y);
    lemma_row_count_join(a, b, from, to, y as int, nx);
}

/// With one more pixel of row `y` scanned, the count of its owner goes up
/// by one and no other count changes.
pub proof fn lemma_count_push(a: Map<(int, int), int>, c: int, cl: int, w: nat, x: nat, y: nat)
    ensures
        count_upto(a.insert((x as int, y as int), cl), c, w, x + 1, y) == count_upto(a, c, w, x, y) + if c
            == cl {
            1nat
        } else {
            0nat
        },
{
    let b = a.insert((x as int, y as int), cl);
    lemma_rows_count_same(a, b, c, c, w, y);
    lemma_row_count_same(a, b, c, c, y as int, x);
}

/// A code that stands for no component owns no pixel.
pub proof fn lemma_count_unused(s: State, bin: Raster, nx: int, xc: int, xp: int, y: int, c: int)
    requires
        s.own_ok(bin, nx, xc, xp, y),
        !s.code_ok(c),
    ensures
        count_upto(s.own, c, s.w as nat, nx as nat, y as nat) == 0,
{
    assert forall|i: int, j: int| 0 <= i < s.w && 0 <= j < y implies #[trigger] s.own[(i, j)] != c by {
        assert(s.scanned(nx, y, i, j));
        assert(s.pixel_ok(bin, i, j));
    }
    assert forall|i: int| 0 <= i < nx implies #[trigger] s.own[(i, y)] != c by {
        assert(s.scanned(nx, y, i, y));
        assert(s.pixel_ok(bin, i, y));
    }
    lemma_count_none(s.own, c, s.w as nat, nx as nat, y as nat);
}

/// Nothing but the front has changed: the boxes are as before.
pub proof fn lemma_boxes_same(s: State, s2: State, nx: int, y: int, nx2: int, y2: int)
    requires
        s2.own == s.own,
        s2.comps == s.comps,
        s2.out == s.out,
        s2.w == s.w,
        forall|i: int, j: int| s.scanned(nx, y, i, j) <==> s2.scanned(nx2, y2, i, j),
        forall|l: int| 0 <= l < s.n() ==> #[trigger] s.lab_box(nx, y, l),
        forall|k: int| 0 <= k < s.out.len() ==> #[trigger] s.out_box(nx, y, k),
    ensures
        forall|l: int| 0 <= l < s2.n() ==> #[trigger] s2.lab_box(nx2, y2, l),
        forall|k: int| 0 <= k < s2.out.len() ==> #[trigger] s2.out_box(nx2, y2, k),
{
    assert forall|l: int| 0 <= l < s2.n() implies #[trigger] s2.lab_box(nx2, y2, l) by {
        assert(s.lab_box(nx, y, l));
        if l != 0 && s.comps[l].valid {
            lemma_box_frame(s, s2, nx, y, nx2, y2, l, l, s.comps[l]);
        }
    }
    assert forall|k: int| 0 <= k < s2.out.len() implies #[trigger] s2.out_box(nx2, y2, k) by {
        assert(s.out_box(nx, y, k));
        lemma_box_frame(s, s2, nx, y, nx2, y2, -1 - k, -1 - k, s.out[k]);
    }
}

/// Before the first pixel nothing is owned.
pub proof fn lemma_own_start(w: u32, h: u32, bin: Raster)
    requires
        bin.width == w,
        bin.height() == h,
    ensures
        State::start(w, h).own_ok(bin, 0, 0, 0, 0),
{
    let s = State::start(w, h);
    assert forall|l: int| 0 <= l < s.n() implies #[trigger] s.lab_count(0, 0, l) by {
        lemma_count_none(s.own, l, w as nat, 0, 0);
    }
}

/// The pixel `(x, y)` joins a label in use.
pub proof fn lemma_own_add(s: State, bin: Raster, x: u32, y: u32, done: int, cl: int, value: u32)
    requires
        s.base(bin, x as int, y as int, done),
        s.own_ok(bin, x as int, x as int, x as int, y as int),
        x < s.w,
        y < s.h,
        s.live(cl),
        s.comps[cl].area < u32::MAX,
        s.comps[cl].color == bin.lit(x as int, y as int),
        x > 0 && bin.lit(x - 1, y as int) == bin.lit(x as int, y as int) ==> cl == s.rep[s.cur[x
            - 1].label as int],
        y > 0 && bin.lit(x as int, y - 1) == bin.lit(x as int, y as int) ==> cl == s.rep[s.prev[x as int].label as int],
        cl != 0 ==> (x > 0 && bin.lit(x - 1, y as int) == bin.lit(x as int, y as int)) || (y > 0
            && bin.lit(x as int, y - 1) == bin.lit(x as int, y as int)),
    ensures
        s.add(cl, x, y, value, s.comps[cl].color).own_ok(bin, x + 1, x as int, x + 1, y as int),
        s.add(cl, x, y, value, s.comps[cl].color).own[(x as int, y as int)] == cl,
        y > 0 ==> s.add(cl, x, y, value, s.comps[cl].color).own[(x as int, y - 1)] == s.own[(x as int, y - 1)],
{
    let s2 = s.add(cl, x, y, value, s.comps[cl].color);
    let p = (x as int, y as int);
    assert forall|l: int| 0 <= l < s2.n() implies #[trigger] s2.lab_box(x + 1, y as int, l) by {
        assert(s.lab_box(x as int, y as int, l));
        if l != 0 && s2.comps[l].valid {
            if l == cl {
                assert(s.lab_geom(x as int, y as int, cl));
                lemma_box_grow(s, s2, x as int, y as int, cl, s.comps[cl], s2.comps[cl]);
            } else {
                lemma_box_frame(s, s2, x as int, y as int, x + 1, y as int, l, l, s.comps[l]);
            }
        }
    }
    assert forall|k: int| 0 <= k < s2.out.len() implies #[trigger] s2.out_box(x + 1, y as int, k) by {
        assert(s.out_box(x as int, y as int, k));
        lemma_box_frame(s, s2, x as int, y as int, x + 1, y as int, -1 - k, -1 - k, s.out[k]);
    }
    assert forall|l: int| 0 <= l < s2.n() implies #[trigger] s2.lab_count(x + 1, y as int, l) by {
        assert(s.lab_count(x as int, y as int, l));
        lemma_count_push(s.own, l, cl, s.w as nat, x as nat, y as nat);
    }
    assert forall|k: int| 0 <= k < s2.out.len() implies #[trigger] s2.out_count(x + 1, y as int, k) by {
        assert(s.out_count(x as int, y as int, k));
        lemma_count_push(s.own, -1 - k, cl, s.w as nat, x as nat, y as nat);
    }
    assert forall|k: int| 0 <= k < s2.out.len() implies #[trigger] s2.out_below(x + 1, y as int, k) by {
        assert(s.out_below(x as int, y as int, k));
    }
    assert forall|i: int, j: int| s2.scanned(x + 1, y as int, i, j) implies
        #[trigger] s2.pixel_ok(bin, i, j) by {
        if i == x && j == y {
            if x > 0 {
                assert(s.scanned(x as int, y as int, x - 1, y as int));
                assert(s.pixel_ok(bin, x - 1, y as int));
            }
            if y > 0 {
                assert(s.scanned(x as int, y as int, x as int, y - 1));
                assert(s.pixel_ok(bin, x as int, y - 1));
            }
            if cl != 0 {
                if x > 0 && bin.lit(x - 1, y as int) == bin.lit(x as int, y as int) {
                    let q = (x - 1, y as int);
                    lemma_linked_step(bin, p, q);
                    lemma_linked_trans(bin, p, q, s.anchor_of(cl));
                } else {
                    let q = (x as int, y - 1);
                    lemma_linked_step(bin, p, q);
                    lemma_linked_trans(bin, p, q, s.anchor_of(cl));
                }
            }
        } else {
            assert(s.pixel_ok(bin, i, j));
        }
    }
}

/// The pixel `(x, y)` starts a component under the label `cl`, which was
/// not in use; `s2` is the state after that.
pub proof fn lemma_own_open(s: State, s2: State, bin: Raster, x: u32, y: u32, done: int, cl: int)
    requires
        s.base(bin, x as int, y as int, done),
        s.own_ok(bin, x as int, x as int, x as int, y as int),
        x < s.w,
        y < s.h,
        0 <= cl,
        cl < s.n() ==> !s.comps[cl].valid && s.rep[cl] == -1,
        cl <= s.n(),
        s2.live(cl),
        s2.rep.len() == s2.n(),
        s2.anchor.len() == s2.n(),
        s2.comps[cl].color == bin.lit(x as int, y as int),
        s2.comps[cl].area == 1,
        s2.anchor[cl] == (x as int, y as int),
        s2.w == s.w,
        s2.h == s.h,
        s2.out == s.out,
        s2.par == s.par,
        s2.oanchor == s.oanchor,
        s2.prev == s.prev,
        s2.cur == s.cur,
        s2.n() >= s.n(),
        s2.n() <= cl + 1 || s2.n() == s.n(),
        forall|l: int|
            0 <= l < s.n() && l != cl ==> s2.comps[l] == s.comps[l] && s2.rep[l] == s.rep[l]
                && s2.anchor[l] == s.anchor[l],
        s2.own == s.own.insert((x as int, y as int), cl),
        x > 0 ==> bin.lit(x - 1, y as int) != bin.lit(x as int, y as int),
        y > 0 ==> bin.lit(x as int, y - 1) != bin.lit(x as int, y as int),
        s2.comps[cl].bounding_box[0] == (x, y),
        s2.comps[cl].bounding_box[1] == (x, y),
        s2.comps[cl].max_x == x,
    ensures
        s2.own_ok(bin, x + 1, x as int, x + 1, y as int),
        s2.own[(x as int, y as int)] == cl,
        y > 0 ==> s2.own[(x as int, y - 1)] == s.own[(x as int, y - 1)],
{
    let p = (x as int, y as int);
    assert(!s.code_ok(cl));
    assert forall|l: int| 0 <= l < s2.n() implies #[trigger] s2.lab_box(x + 1, y as int, l) by {
        if l != 0 && s2.comps[l].valid {
            if l == cl {
                assert forall|i: int, j: int| s2.scanned(x + 1, y as int, i, j) && #[trigger] s2.owned(
                    cl,
                    i,
                    j,
                ) implies i == x && j == y by {
                    if !(i == x && j == y) {
                        assert(s.scanned(x as int, y as int, i, j));
                        assert(s.pixel_ok(bin, i, j));
                    }
                }
                assert(s2.scanned(x + 1, y as int, x as int, y as int) && s2.owned(cl, x as int, y as int));
            } else {
                assert(s.lab_box(x as int, y as int, l));
                lemma_box_frame(s, s2, x as int, y as int, x + 1, y as int, l, l, s.comps[l]);
            }
        }
    }
    assert forall|k: int| 0 <= k < s2.out.len() implies #[trigger] s2.out_box(x + 1, y as int, k) by {
        assert(s.out_box(x as int, y as int, k));
        lemma_box_frame(s, s2, x as int, y as int, x + 1, y as int, -1 - k, -1 - k, s.out[k]);
    }
    lemma_count_unused(s, bin, x as int, x as int, x as int, y as int, cl);
    assert forall|l: int| 0 <= l < s2.n() implies #[trigger] s2.lab_count(x + 1, y as int, l) by {
        lemma_count_push(s.own, l, cl, s.w as nat, x as nat, y as nat);
        if l != cl {
            assert(s.lab_count(x as int, y as int, l));
        }
    }
    assert forall|k: int| 0 <= k < s2.out.len() implies #[trigger] s2.out_count(x + 1, y as int, k) by {
        assert(s.out_count(x as int, y as int, k));
        lemma_count_push(s.own, -1 - k, cl, s.w as nat, x as nat, y as nat);
    }
    assert forall|k: int| 0 <= k < s2.out.len() implies #[trigger] s2.out_below(x + 1, y as int, k) by {
        assert(s.out_below(x as int, y as int, k));
    }
    lemma_linked_self(bin, p);
    assert forall|i: int, j: int| s2.scanned(x + 1, y as int, i, j) implies
        #[trigger] s2.pixel_ok(bin, i, j) by {
        if !(i == x && j == y) {
            assert(s.pixel_ok(bin, i, j));
        }
    }
    assert forall|i: int| x + 1 <= i < s2.w && y >= 1 implies s2.own[(i, y - 1)] == s2.rep[(
    #[trigger] s2.prev[i]).label as int] by {
        assert(s.prev_ok(bin, y as int, i));
        assert(s.lab_tag(s.prev[i].label as int));
    }
    assert forall|i: int| 0 <= i < x implies
        s2.own[(i, y as int)] == s2.rep[(#[trigger] s2.cur[i]).label as int] by {
        assert(s.cur_ok(bin, y as int, i));
        assert(s.lab_tag(s.cur[i].label as int));
    }
}

/// The pixel to the left of `(x, y)` and the pixel above it have its color
/// and belong to the labels `l` and `t`: the anchors of the two are linked.
pub proof fn lemma_anchors_linked(s: State, bin: Raster, x: int, y: int, done: int, l: int, t: int)
    requires
        s.base(bin, x, y, done),
        s.own_ok(bin, x, x, x, y),
        0 < x < s.w,
        0 < y < s.h,
        l != 0,
        t != 0,
        s.own[(x - 1, y)] == l,
        s.own[(x, y - 1)] == t,
        bin.lit(x - 1, y) == bin.lit(x, y),
        bin.lit(x, y - 1) == bin.lit(x, y),
    ensures
        linked(bin, s.anchor_of(l), s.anchor_of(t)),
        linked(bin, s.anchor_of(t), s.anchor_of(l)),
{
    let left = (x - 1, y);
    let above = (x, y - 1);
    let here = (x, y);
    assert(s.scanned(x, y, x - 1, y));
    assert(s.pixel_ok(bin, x - 1, y));
    assert(s.scanned(x, y, x, y - 1));
    assert(s.pixel_ok(bin, x, y - 1));
    lemma_linked_step(bin, left, here);
    lemma_linked_step(bin, here, above);
    lemma_linked_trans(bin, left, here, above);
    lemma_linked_sym(bin, left, s.anchor_of(l));
    lemma_linked_trans(bin, s.anchor_of(l), left, above);
    lemma_linked_trans(bin, s.anchor_of(l), above, s.anchor_of(t));
    lemma_linked_sym(bin, s.anchor_of(l), s.anchor_of(t));
}

/// The label `sv` takes over the label `v`: so it does with its pixels.
#[verifier::rlimit(40)]
pub proof fn lemma_own_merge(s: State, bin: Raster, x: int, y: int, done: int, sv: int, v: int)
    requires
        s.base(bin, x, y, done),
        s.own_ok(bin, x, x, x, y),
        s.live(sv),
        s.live(v),
        sv != v,
        v != 0,
        s.comps[sv].color == s.comps[v].color,
        s.comps[sv].area + s.comps[v].area <= u32::MAX,
        sv != 0 ==> linked(bin, s.anchor_of(v), s.anchor_of(sv)),
    ensures
        s.merge(sv, v).own_ok(bin, x, x, x, y),
{
    let s2 = s.merge(sv, v);
    let w = s.w as nat;
    assert(s.lab_tag(sv));
    assert(s.lab_kids(sv));
    assert(s.lab_kids(v));
    assert(s2.out.len() == s.out.len());
    assert forall|k: int| 0 <= k < s.out.len() implies (#[trigger] s2.out[k]).color == s.out[k].color
        && s2.out[k].area == s.out[k].area by {}
    assert(s2.comps[sv].color == s.comps[sv].color);
    assert(s2.comps[sv].area == s.comps[sv].area + s.comps[v].area);
    assert forall|i: int, j: int| s.scanned(x, y, i, j) implies #[trigger] s2.own[(i, j)] == (if s.own[(
        i,
        j,
    )] == v {
        sv
    } else {
        s.own[(i, j)]
    }) by {
        assert(s.pixel_ok(bin, i, j));
    }
    assert forall|l: int| 0 <= l < s2.n() implies #[trigger] s2.lab_count(x, y, l) by {
        assert(s.lab_count(x, y, l));
        assert(s.lab_count(x, y, sv));
        assert(s.lab_count(x, y, v));
        if l == sv {
            assert forall|i: int, j: int| 0 <= i < w && 0 <= j < y implies #[trigger] s2.own[(i, j)] == (
            if s.own[(i, j)] == v {
                sv
            } else {
                s.own[(i, j)]
            }) by {
                assert(s.scanned(x, y, i, j));
            }
            assert forall|i: int| 0 <= i < x implies #[trigger] s2.own[(i, y)] == (if s.own[(i, y)] == v {
                sv
            } else {
                s.own[(i, y)]
            }) by {
                assert(s.scanned(x, y, i, y));
            }
            lemma_count_join(s.own, s2.own, v, sv, w, x as nat, y as nat);
        } else if l == v {
            assert forall|i: int, j: int| 0 <= i < w && 0 <= j < y implies #[trigger] s2.own[(i, j)] != v by {
                assert(s.scanned(x, y, i, j));
            }
            assert forall|i: int| 0 <= i < x implies #[trigger] s2.own[(i, y)] != v by {
                assert(s.scanned(x, y, i, y));
            }
            lemma_count_none(s2.own, v, w, x as nat, y as nat);
        } else {
            assert forall|i: int, j: int| 0 <= i < w && 0 <= j < y implies (#[trigger] s.own[(i, j)] == l
                <==> s2.own[(i, j)] == l) by {
                assert(s.scanned(x, y, i, j));
            }
            assert forall|i: int| 0 <= i < x implies (#[trigger] s.own[(i, y)] == l <==> s2.own[(i, y)]
                == l) by {
                assert(s.scanned(x, y, i, y));
            }
            lemma_count_same(s.own, s2.own, l, l, w, x as nat, y as nat);
        }
    }
    assert forall|k: int| 0 <= k < s2.out.len() implies #[trigger] s2.out_count(x, y, k) by {
        assert(s.out_count(x, y, k));
        let c = -1 - k;
        assert forall|i: int, j: int| 0 <= i < w && 0 <= j < y implies (#[trigger] s.own[(i, j)] == c
            <==> s2.own[(i, j)] == c) by {
            assert(s.scanned(x, y, i, j));
        }
        assert forall|i: int| 0 <= i < x implies (#[trigger] s.own[(i, y)] == c <==> s2.own[(i, y)] == c) by {
            assert(s.scanned(x, y, i, y));
        }
        lemma_count_same(s.own, s2.own, c, c, w, x as nat, y as nat);
    }
    assert forall|k: int| 0 <= k < s2.out.len() implies #[trigger] s2.out_below(x, y, k) by {
        assert(s.out_below(x, y, k));
        assert(s2.out[k].max_x == s.out[k].max_x && s2.out[k].bounding_box == s.out[k].bounding_box);
    }
    assert(s.lab_geom(x, y, v));
    assert forall|l: int| 0 <= l < s2.n() implies #[trigger] s2.lab_box(x, y, l) by {
        assert(s.lab_box(x, y, l));
        if l != 0 && s2.comps[l].valid {
            if l == sv {
                assert(s.lab_box(x, y, v));
                assert(s.lab_geom(x, y, sv));
                lemma_box_join(s, s2, x, y, sv, v, s.comps[sv], s.comps[v]);
                let joined = s.comps[sv].absorbed(s.comps[v]);
                assert(s2.comps[sv].bounding_box == joined.bounding_box && s2.comps[sv].max_x
                    == joined.max_x);
                lemma_box_frame(s2, s2, x, y, x, y, sv, sv, joined);
            } else {
                lemma_box_frame(s, s2, x, y, x, y, l, l, s.comps[l]);
            }
        }
    }
    assert forall|k: int| 0 <= k < s2.out.len() implies #[trigger] s2.out_box(x, y, k) by {
        assert(s.out_box(x, y, k));
        assert(s2.out[k].max_x == s.out[k].max_x && s2.out[k].bounding_box == s.out[k].bounding_box);
        lemma_box_frame(s, s2, x, y, x, y, -1 - k, -1 - k, s.out[k]);
    }
    assert forall|i: int, j: int| s2.scanned(x, y, i, j) implies #[trigger] s2.pixel_ok(bin, i, j) by {
        assert(s.scanned(x, y, i, j));
        assert(s.pixel_ok(bin, i, j));
        let c = s.own[(i, j)];
        if c < 0 {
            assert(s2.out[-1 - c].color == s.out[-1 - c].color);
        }
        if i > 0 {
            assert(s.scanned(x, y, i - 1, j));
            assert(s.pixel_ok(bin, i - 1, j));
        }
        if j > 0 {
            assert(s.scanned(x, y, i, j - 1));
            assert(s.pixel_ok(bin, i, j - 1));
        }
        if c == v && sv != 0 {
            lemma_linked_trans(bin, (i, j), s.anchor_of(v), s.anchor_of(sv));
        }
    }
    assert forall|i: int| x <= i < s2.w && y >= 1 implies s2.own[(i, y - 1)] == s2.rep[(
    #[trigger] s2.prev[i]).label as int] by {
        assert(s.prev_ok(bin, y, i));
        assert(s.scanned(x, y, i, y - 1));
        assert(s.pixel_ok(bin, i, y - 1));
    }
    assert forall|i: int| 0 <= i < x implies s2.own[(i, y)] == s2.rep[(#[trigger] s2.cur[i]).label as int] by {
        assert(s.cur_ok(bin, y, i));
        assert(s.scanned(x, y, i, y));
        assert(s.pixel_ok(bin, i, y));
    }
}

/// The component `t` is closed: its pixels go to its closed record.
#[verifier::rlimit(40)]
pub proof fn lemma_own_close(s: State, bin: Raster, x: int, y: int, done: int, cl: int, t: int)
    requires
        s.mid(bin, x, y, done, cl, t),
        s.own_ok(bin, x + 1, x, x + 1, y),
        s.own[(x, y)] == cl,
        s.own[(x, y - 1)] == t,
        forall|k: int|
            0 <= k < s.out.len() ==> s.scanned(x, y, (#[trigger] s.out[k]).max_x as int, s.out[k].ymax() + 1),
        t >= 0,
        s.comps[t].ymax() < y,
        s.comps[t].max_x <= x,
    ensures
        s.close(t, cl).own_ok(bin, x + 1, x, x + 1, y),
        s.close(t, cl).own[(x, y)] == cl,
{
    let s2 = s.close(t, cl);
    let idx = s.out.len() as int;
    let w = s.w as nat;
    let to = -1 - idx;
    assert(t != 0);
    assert(s.lab_tag(cl));
    assert(s.lab_tag(t));
    assert(s.scanned(x + 1, y, x, y));
    assert(s.pixel_ok(bin, x, y));
    assert(!s.code_ok(to));
    lemma_count_unused(s, bin, x + 1, x, x + 1, y, to);
    assert forall|i: int, j: int| s.scanned(x + 1, y, i, j) implies #[trigger] s2.own[(i, j)] == (if s.own[(
        i,
        j,
    )] == t {
        to
    } else {
        s.own[(i, j)]
    }) by {
        assert(s.pixel_ok(bin, i, j));
    }
    assert forall|l: int| 0 <= l < s2.n() implies #[trigger] s2.lab_count(x + 1, y, l) by {
        assert(s.lab_count(x + 1, y, l));
        if l == t {
            assert forall|i: int, j: int| 0 <= i < w && 0 <= j < y implies #[trigger] s2.own[(i, j)] != t by {
                assert(s.scanned(x + 1, y, i, j));
            }
            assert forall|i: int| 0 <= i < x + 1 implies #[trigger] s2.own[(i, y)] != t by {
                assert(s.scanned(x + 1, y, i, y));
            }
            lemma_count_none(s2.own, t, w, (x + 1) as nat, y as nat);
        } else {
            assert forall|i: int, j: int| 0 <= i < w && 0 <= j < y implies (#[trigger] s.own[(i, j)] == l
                <==> s2.own[(i, j)] == l) by {
                assert(s.scanned(x + 1, y, i, j));
            }
            assert forall|i: int| 0 <= i < x + 1 implies (#[trigger] s.own[(i, y)] == l <==> s2.own[(i, y)]
                == l) by {
                assert(s.scanned(x + 1, y, i, y));
            }
            lemma_count_same(s.own, s2.own, l, l, w, (x + 1) as nat, y as nat);
        }
    }
    assert forall|k: int| 0 <= k < s2.out.len() implies #[trigger] s2.out_count(x + 1, y, k) by {
        let c = -1 - k;
        if k == idx {
            assert(s.lab_count(x + 1, y, t));
            assert forall|i: int, j: int| 0 <= i < w && 0 <= j < y implies #[trigger] s2.own[(i, j)] == (
            if s.own[(i, j)] == t {
                to
            } else {
                s.own[(i, j)]
            }) by {
                assert(s.scanned(x + 1, y, i, j));
            }
            assert forall|i: int| 0 <= i < x + 1 implies #[trigger] s2.own[(i, y)] == (if s.own[(i, y)]
                == t {
                to
            } else {
                s.own[(i, y)]
            }) by {
                assert(s.scanned(x + 1, y, i, y));
            }
            lemma_count_join(s.own, s2.own, t, to, w, (x + 1) as nat, y as nat);
        } else {
            assert(s.out_count(x + 1, y, k));
            assert forall|i: int, j: int| 0 <= i < w && 0 <= j < y implies (#[trigger] s.own[(i, j)] == c
                <==> s2.own[(i, j)] == c) by {
                assert(s.scanned(x + 1, y, i, j));
            }
            assert forall|i: int| 0 <= i < x + 1 implies (#[trigger] s.own[(i, y)] == c <==> s2.own[(i, y)]
                == c) by {
                assert(s.scanned(x + 1, y, i, y));
            }
            lemma_count_same(s.own, s2.own, c, c, w, (x + 1) as nat, y as nat);
        }
    }
    assert(s.lab_geom_mid(x, y, cl, t, t));
    assert forall|k: int, m: int| 0 <= k < m < s2.out.len() implies closes_before(
        #[trigger] s2.out[k],
        #[trigger] s2.out[m],
    ) by {
        if m == idx {
            assert(s.scanned(x, y, s.out[k].max_x as int, s.out[k].ymax() + 1));
        } else {
            assert(closes_before(s.out[k], s.out[m]));
        }
    }
    assert forall|k: int| 0 <= k < s2.out.len() implies #[trigger] s2.out_below(x + 1, y, k) by {
        if k < idx {
            assert(s.out_below(x + 1, y, k));
        }
    }
    assert forall|l: int| 0 <= l < s2.n() implies #[trigger] s2.lab_box(x + 1, y, l) by {
        assert(s.lab_box(x + 1, y, l));
        if l != 0 && s2.comps[l].valid {
            assert(s2.comps[l].bounding_box == s.comps[l].bounding_box && s2.comps[l].max_x
                == s.comps[l].max_x);
            lemma_box_frame(s, s2, x + 1, y, x + 1, y, l, l, s.comps[l]);
            lemma_box_frame(s2, s2, x + 1, y, x + 1, y, l, l, s.comps[l]);
        }
    }
    assert forall|k: int| 0 <= k < s2.out.len() implies #[trigger] s2.out_box(x + 1, y, k) by {
        if k < idx {
            assert(s.out_box(x + 1, y, k));
            lemma_box_frame(s, s2, x + 1, y, x + 1, y, -1 - k, -1 - k, s.out[k]);
        } else {
            assert(s.lab_box(x + 1, y, t));
            assert forall|i: int, j: int| s2.scanned(x + 1, y, i, j) && #[trigger] s2.owned(
                to,
                i,
                j,
            ) implies s.scanned(x + 1, y, i, j) && s.owned(t, i, j) by {
                assert(s.pixel_ok(bin, i, j));
            }
            lemma_box_frame(s, s2, x + 1, y, x + 1, y, t, to, s.comps[t]);
            assert(s2.out[idx].bounding_box == s.comps[t].bounding_box && s2.out[idx].max_x
                == s.comps[t].max_x);
            assert(s.scanned(x + 1, y, x, y - 1));
            assert(s.pixel_ok(bin, x, y - 1));
        }
    }
    assert forall|i: int, j: int| s2.scanned(x + 1, y, i, j) implies #[trigger] s2.pixel_ok(bin, i, j) by {
        assert(s.scanned(x + 1, y, i, j));
        assert(s.pixel_ok(bin, i, j));
        if i > 0 {
            assert(s.scanned(x + 1, y, i - 1, j));
            assert(s.pixel_ok(bin, i - 1, j));
        }
        if j > 0 {
            assert(s.scanned(x + 1, y, i, j - 1));
            assert(s.pixel_ok(bin, i, j - 1));
        }
    }
    assert forall|i: int| x + 1 <= i < s2.w && y >= 1 implies s2.own[(i, y - 1)] == s2.rep[(
    #[trigger] s2.prev[i]).label as int] by {
        assert(s.prev_ok(bin, y, i));
        assert(s.scanned(x + 1, y, i, y - 1));
        assert(s.pixel_ok(bin, i, y - 1));
    }
    assert forall|i: int| 0 <= i < x implies s2.own[(i, y)] == s2.rep[(#[trigger] s2.cur[i]).label as int] by {
        assert(s.cur_ok(bin, y, i));
        assert(s.scanned(x + 1, y, i, y));
        assert(s.pixel_ok(bin, i, y));
    }
}

/// The label of the pixel `(x, y)` is written down.
pub proof fn lemma_own_note(s: State, bin: Raster, x: int, y: int, done: int, cl: int)
    requires
        s.mid(bin, x, y, done, cl, -1),
        s.own_ok(bin, x + 1, x, x + 1, y),
        s.own[(x, y)] == cl,
    ensures
        s.note(cl).own_ok(bin, x + 1, x + 1, x + 1, y),
{
    let s2 = s.note(cl);
    assert(s.lab_tag(cl));
    lemma_boxes_same(s, s2, x + 1, y, x + 1, y);
    assert forall|l: int| 0 <= l < s2.n() implies #[trigger] s2.lab_count(x + 1, y, l) by {
        assert(s.lab_count(x + 1, y, l));
    }
    assert forall|k: int| 0 <= k < s2.out.len() implies #[trigger] s2.out_count(x + 1, y, k) by {
        assert(s.out_count(x + 1, y, k));
    }
    assert forall|k: int| 0 <= k < s2.out.len() implies #[trigger] s2.out_below(x + 1, y, k) by {
        assert(s.out_below(x + 1, y, k));
    }
    assert forall|i: int, j: int| s2.scanned(x + 1, y, i, j) implies #[trigger] s2.pixel_ok(bin, i, j) by {
        assert(s.pixel_ok(bin, i, j));
    }
    assert forall|i: int| 0 <= i < x + 1 implies
        s2.own[(i, y)] == s2.rep[(#[trigger] s2.cur[i]).label as int] by {
        if i < x {
            assert(s.cur[i] == s2.cur[i]);
        }
    }
}

/// A label of the row is replaced by the label that stands for it.
pub proof fn lemma_own_settle(s: State, bin: Raster, y: int, done: int, k: int)
    requires
        s.base(bin, s.w, y, done),
        s.own_ok(bin, s.w, s.w, s.w, y),
        0 <= k < s.w,
    ensures
        s.settle(k).own_ok(bin, s.w, s.w, s.w, y),
{
    let s2 = s.settle(k);
    assert(s.cur_ok(bin, y, k));
    assert(s.lab_tag(s.rep[s.cur[k].label as int]));
    lemma_boxes_same(s, s2, s.w, y, s.w, y);
    assert forall|l: int| 0 <= l < s2.n() implies #[trigger] s2.lab_count(s.w, y, l) by {
        assert(s.lab_count(s.w, y, l));
    }
    assert forall|i: int| 0 <= i < s2.out.len() implies #[trigger] s2.out_count(s.w, y, i) by {
        assert(s.out_count(s.w, y, i));
    }
    assert forall|i: int| 0 <= i < s2.out.len() implies #[trigger] s2.out_below(s.w, y, i) by {
        assert(s.out_below(s.w, y, i));
    }
    assert forall|i: int, j: int| s2.scanned(s.w, y, i, j) implies #[trigger] s2.pixel_ok(bin, i, j) by {
        assert(s.pixel_ok(bin, i, j));
    }
    assert forall|i: int| 0 <= i < s.w implies
        s2.own[(i, y)] == s2.rep[(#[trigger] s2.cur[i]).label as int] by {
        if i != k {
            assert(s.cur[i] == s2.cur[i]);
        }
    }
}

/// The scan turns to the next row.
pub proof fn lemma_own_turn(s: State, bin: Raster, y: int, done: int)
    requires
        s.base(bin, s.w, y, done),
        s.own_ok(bin, s.w, s.w, s.w, y),
        y < s.h,
        forall|i: int| 0 <= i < s.w ==> s.comps[(#[trigger] s.cur[i]).label as int].valid,
    ensures
        s.turn().own_ok(bin, 0, 0, 0, y + 1),
{
    let s2 = s.turn();
    lemma_boxes_same(s, s2, s.w, y, 0, y + 1);
    assert forall|l: int| 0 <= l < s2.n() implies #[trigger] s2.lab_count(0, y + 1, l) by {
        assert(s.lab_count(s.w, y, l));
    }
    assert forall|k: int| 0 <= k < s2.out.len() implies #[trigger] s2.out_count(0, y + 1, k) by {
        assert(s.out_count(s.w, y, k));
    }
    assert forall|k: int| 0 <= k < s2.out.len() implies #[trigger] s2.out_below(0, y + 1, k) by {
        assert(s.out_below(s.w, y, k));
    }
    assert forall|i: int, j: int| s2.scanned(0, y + 1, i, j) implies #[trigger] s2.pixel_ok(bin, i, j) by {
        assert(s.scanned(s.w, y, i, j));
        assert(s.pixel_ok(bin, i, j));
    }
    assert forall|i: int| 0 <= i < s2.w implies
        s2.own[(i, y)] == s2.rep[(#[trigger] s2.prev[i]).label as int] by {
        assert(s.cur[i] == s2.prev[i]);
        assert(s.cur_ok(bin, y, i));
    }
}

} // verus!
