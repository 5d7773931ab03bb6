//! Each step of the scan keeps the moments the sums that they are.

use crate::raster::Raster;
use crate::segmentation::forest::chain_ok;
use crate::segmentation::moments::{
    kids_moment, lemma_kids_moment_concat, lemma_kids_moment_frame, lemma_kids_moment_one,
    lemma_row_moment_join, lemma_row_moment_none, lemma_row_moment_same, lemma_rows_moment_join,
    lemma_rows_moment_none, lemma_rows_moment_same, moment_of, moment_upto, pixel_moment,
};
use crate::segmentation::state::State;
use crate::segmentation::{weight, FeatureVector};
use vstd::prelude::*;

verus! {

/// With one more pixel of row `y` scanned, the moments of its owner go up
/// by what the pixel adds, and no other moment changes.
pub proof fn lemma_moment_push(
    bin: Raster,
    grey: Raster,
    a: Map<(int, int), int>,
    c: int,
    cl: int,
    which: int,
    w: nat,
    x: nat,
    y: nat,
)
    ensures
        moment_upto(bin, grey, a.insert((x as int, y as int), cl), c, which, w, x + 1, y) == moment_upto(
            bin,
            grey,
            a,
            c,
            which,
            w,
            x,
            y,
        ) + if c == cl {
            pixel_moment(bin, grey, which, x as int, y as int)
        } else {
            0
        },
{
    let b = a.insert((x as int, y as int), cl);
    lemma_rows_moment_same(bin, grey, a, b, c, c, which, w, y);
    lemma_row_moment_same(bin, grey, a, b, c, c, which, y as int, x);
}

/// A code that owns no scanned pixel adds nothing.
pub proof fn lemma_moment_unused(
    s: State,
    bin: Raster,
    grey: Raster,
    nx: int,
    xc: int,
    xp: int,
    y: int,
    c: int,
    which: int,
)
    requires
        s.own_ok(bin, nx, xc, xp, y),
        !s.code_ok(c),
    ensures
        moment_upto(bin, grey, s.own, c, which, s.w as nat, nx as nat, y as nat) == 0,
{
    assert forall|i: int, j: int| 0 <= i < s.w && 0 <= j < y implies #[trigger] s.own[(i, j)] != c by {
        assert(s.scanned(nx, y, i, j));
        assert(s.pixel_ok(bin, i, j));
    }
    assert forall|i: int| 0 <= i < nx implies #[trigger] s.own[(i, y)] != c by {
        assert(s.scanned(nx, y, i, y));
        assert(s.pixel_ok(bin, i, y));
    }
    lemma_rows_moment_none(bin, grey, s.own, c, which, s.w as nat, y as nat);
    lemma_row_moment_none(bin, grey, s.own, c, which, y, nx as nat);
}

/// The code `c` owns in `s2` what it owned in `s`.
pub proof fn lemma_moment_kept(
    s: State,
    s2: State,
    bin: Raster,
    grey: Raster,
    nx: int,
    y: int,
    c: int,
    which: int,
)
    requires
        forall|i: int, j: int|
            s.scanned(nx, y, i, j) ==>
                (#[trigger] s.own[(i, j)] == c <==> s2.own[(i, j)] == c),
        s.w >= 0,
        0 <= nx <= s.w,
        y >= 0,
    ensures
        moment_upto(bin, grey, s2.own, c, which, s.w as nat, nx as nat, y as nat) == moment_upto(
            bin,
            grey,
            s.own,
            c,
            which,
            s.w as nat,
            nx as nat,
            y as nat,
        ),
{
    assert forall|i: int, j: int| 0 <= i < s.w && 0 <= j < y implies (#[trigger] s.own[(i, j)] == c
        <==> s2.own[(i, j)] == c) by {
        assert(s.scanned(nx, y, i, j));
    }
    assert forall|i: int| 0 <= i < nx implies (#[trigger] s.own[(i, y)] == c <==> s2.own[(i, y)] == c) by {
        assert(s.scanned(nx, y, i, y));
    }
    lemma_rows_moment_same(bin, grey, s.own, s2.own, c, c, which, s.w as nat, y as nat);
    lemma_row_moment_same(bin, grey, s.own, s2.own, c, c, which, y, nx as nat);
}

/// The code `to` owns in `s2` what `from` and `to` owned in `s`.
pub proof fn lemma_moment_joined(
    s: State,
    s2: State,
    bin: Raster,
    grey: Raster,
    nx: int,
    y: int,
    from: int,
    to: int,
    which: int,
)
    requires
        from != to,
        forall|i: int, j: int|
            s.scanned(nx, y, i, j) ==> #[trigger] s2.own[(i, j)] == (if s.own[(i, j)] == from {
                to
            } else {
                s.own[(i, j)]
            }),
        s.w >= 0,
        0 <= nx <= s.w,
        y >= 0,
    ensures
        moment_upto(bin, grey, s2.own, to, which, s.w as nat, nx as nat, y as nat) == moment_upto(
            bin,
            grey,
            s.own,
            to,
            which,
            s.w as nat,
            nx as nat,
            y as nat,
        ) + moment_upto(bin, grey, s.own, from, which, s.w as nat, nx as nat, y as nat),
        moment_upto(bin, grey, s2.own, from, which, s.w as nat, nx as nat, y as nat) == 0,
{
    assert forall|i: int, j: int| 0 <= i < s.w && 0 <= j < y implies #[trigger] s2.own[(i, j)] == (if s.own[(
        i,
        j,
    )] == from {
        to
    } else {
        s.own[(i, j)]
    }) by {
        assert(s.scanned(nx, y, i, j));
    }
    assert forall|i: int| 0 <= i < nx implies #[trigger] s2.own[(i, y)] == (if s.own[(i, y)] == from {
        to
    } else {
        s.own[(i, y)]
    }) by {
        assert(s.scanned(nx, y, i, y));
    }
    lemma_rows_moment_join(bin, grey, s.own, s2.own, from, to, which, s.w as nat, y as nat);
    lemma_row_moment_join(bin, grey, s.own, s2.own, from, to, which, y, nx as nat);
    assert forall|i: int, j: int| 0 <= i < s.w && 0 <= j < y implies #[trigger] s2.own[(i, j)] != from by {
        assert(s.scanned(nx, y, i, j));
    }
    assert forall|i: int| 0 <= i < nx implies #[trigger] s2.own[(i, y)] != from by {
        assert(s.scanned(nx, y, i, y));
    }
    lemma_rows_moment_none(bin, grey, s2.own, from, which, s.w as nat, y as nat);
    lemma_row_moment_none(bin, grey, s2.own, from, which, y, nx as nat);
}

/// The lists of children hold the same components with the same moments.
pub proof fn lemma_kids_kept(s: State, s2: State, ks: Seq<int>, first: Option<u32>, last: u32, which: int)
    requires
        chain_ok(s.out, first, last, ks),
        s2.out.len() >= s.out.len(),
        forall|k: int|
            0 <= k < s.out.len() ==>
                #[trigger] moment_of(s2.out[k], which) == moment_of(s.out[k], which),
    ensures
        kids_moment(s2.out, ks, which) == kids_moment(s.out, ks, which),
{
    lemma_kids_moment_frame(s.out, s2.out, ks, which);
}

/// Before the first pixel every moment is zero.
pub proof fn lemma_sum_start(w: u32, h: u32, bin: Raster, grey: Raster)
    ensures
        State::start(w, h).sums_ok(bin, grey, 0, 0),
{
    let s = State::start(w, h);
    assert forall|l: int, which: int| 0 <= l < s.n() && 0 <= which <= 2 implies #[trigger] s.lab_moment(
        bin,
        grey,
        0,
        0,
        l,
        which,
    ) by {
        assert(s.comps[l].zom == 0 && s.comps[l].fom[0] == 0 && s.comps[l].fom[1] == 0);
        lemma_rows_moment_none(bin, grey, s.own, l, which, w as nat, 0);
        lemma_row_moment_none(bin, grey, s.own, l, which, 0, 0);
    }
}

/// The pixel `(x, y)` joins a label in use.
pub proof fn lemma_sum_add(s: State, bin: Raster, grey: Raster, x: u32, y: u32, done: int, cl: int, value: u32)
    requires
        s.base(bin, x as int, y as int, done),
        s.sums_ok(bin, grey, x as int, y as int),
        s.live(cl),
        value == grey.at(x as int, y as int),
        s.comps[cl].color == bin.lit(x as int, y as int),
        s.comps[cl].zom + weight(value, s.comps[cl].color) <= u64::MAX,
        s.comps[cl].fom[0] + x * weight(value, s.comps[cl].color) <= u64::MAX,
        s.comps[cl].fom[1] + y * weight(value, s.comps[cl].color) <= u64::MAX,
    ensures
        s.add(cl, x, y, value, s.comps[cl].color).sums_ok(bin, grey, x + 1, y as int),
{
    let s2 = s.add(cl, x, y, value, s.comps[cl].color);
    let wgt = weight(value, s.comps[cl].color);
    assert(0 <= x * wgt && 0 <= y * wgt) by (nonlinear_arith)
        requires
            0 <= wgt,
            0 <= x,
            0 <= y,
    ;
    assert(s2.comps[cl].zom == s.comps[cl].zom + wgt);
    assert(s2.comps[cl].fom[0] == s.comps[cl].fom[0] + x * wgt);
    assert(s2.comps[cl].fom[1] == s.comps[cl].fom[1] + y * wgt);
    assert forall|l: int, which: int| 0 <= l < s2.n() && 0 <= which <= 2 implies #[trigger] s2.lab_moment(
        bin,
        grey,
        x + 1,
        y as int,
        l,
        which,
    ) by {
        assert(s.lab_moment(bin, grey, x as int, y as int, l, which));
        lemma_moment_push(bin, grey, s.own, l, cl, which, s.w as nat, x as nat, y as nat);
    }
    assert forall|k: int, which: int| 0 <= k < s2.out.len() && 0 <= which <= 2 implies #[trigger] s2.out_moment(
        bin,
        grey,
        x + 1,
        y as int,
        k,
        which,
    ) by {
        assert(s.out_moment(bin, grey, x as int, y as int, k, which));
        lemma_moment_push(bin, grey, s.own, -1 - k, cl, which, s.w as nat, x as nat, y as nat);
    }
}

/// The pixel `(x, y)` starts a component under the label `cl`, which was
/// not in use; `s2` is the state after that.
pub proof fn lemma_sum_open(
    s: State,
    s2: State,
    bin: Raster,
    grey: Raster,
    x: u32,
    y: u32,
    done: int,
    cl: int,
    value: u32,
)
    requires
        s.base(bin, x as int, y as int, done),
        s.own_ok(bin, x as int, x as int, x as int, y as int),
        s.sums_ok(bin, grey, x as int, y as int),
        0 <= cl <= s.n(),
        cl < s.n() ==> !s.comps[cl].valid,
        value == grey.at(x as int, y as int),
        value <= 255,
        s2.n() >= s.n(),
        s2.n() <= cl + 1 || s2.n() == s.n(),
        cl < s2.n(),
        s2.kids.len() == s2.n(),
        s2.kids[cl].len() == 0,
        s2.comps[cl] == FeatureVector::single(x, y, value, bin.lit(x as int, y as int), s2.comps[cl].merge),
        s2.w == s.w,
        s2.out == s.out,
        s2.okids == s.okids,
        forall|l: int| 0 <= l < s.n() && l != cl ==> s2.comps[l] == s.comps[l] && s2.kids[l] == s.kids[l],
        s2.own == s.own.insert((x as int, y as int), cl),
    ensures
        s2.sums_ok(bin, grey, x + 1, y as int),
{
    let wgt = weight(value, bin.lit(x as int, y as int));
    assert(0 <= x * wgt <= 0xffff_ffff * 255 && 0 <= y * wgt <= 0xffff_ffff * 255) by (nonlinear_arith)
        requires
            0 <= wgt <= 255,
            0 <= x <= 0xffff_ffff,
            0 <= y <= 0xffff_ffff,
    ;
    assert(s2.comps[cl].zom == wgt);
    assert(s2.comps[cl].fom[0] == x * wgt);
    assert(s2.comps[cl].fom[1] == y * wgt);
    assert(!s.code_ok(cl));
    assert forall|l: int, which: int| 0 <= l < s2.n() && 0 <= which <= 2 implies #[trigger] s2.lab_moment(
        bin,
        grey,
        x + 1,
        y as int,
        l,
        which,
    ) by {
        lemma_moment_push(bin, grey, s.own, l, cl, which, s.w as nat, x as nat, y as nat);
        if l == cl {
            lemma_moment_unused(s, bin, grey, x as int, x as int, x as int, y as int, cl, which);
        } else {
            assert(s.lab_moment(bin, grey, x as int, y as int, l, which));
        }
    }
    assert forall|k: int, which: int| 0 <= k < s2.out.len() && 0 <= which <= 2 implies #[trigger] s2.out_moment(
        bin,
        grey,
        x + 1,
        y as int,
        k,
        which,
    ) by {
        assert(s.out_moment(bin, grey, x as int, y as int, k, which));
        lemma_moment_push(bin, grey, s.own, -1 - k, cl, which, s.w as nat, x as nat, y as nat);
    }
}

/// The label `sv` takes over the label `v`: its moments and its children.
#[verifier::rlimit(40)]
pub proof fn lemma_sum_merge(s: State, bin: Raster, grey: Raster, x: int, y: int, done: int, sv: int, v: int)
    requires
        s.base(bin, x, y, done),
        s.own_ok(bin, x, x, x, y),
        s.sums_ok(bin, grey, x, y),
        s.live(sv),
        s.live(v),
        sv != v,
        s.comps[sv].zom + s.comps[v].zom <= u64::MAX,
        s.comps[sv].fom[0] + s.comps[v].fom[0] <= u64::MAX,
        s.comps[sv].fom[1] + s.comps[v].fom[1] <= u64::MAX,
    ensures
        s.merge(sv, v).sums_ok(bin, grey, x, y),
{
    let s2 = s.merge(sv, v);
    let kv = s.kids[v];
    let ks = s.kids[sv];
    assert(s.lab_kids(sv));
    assert(s.lab_kids(v));
    assert(s2.out.len() == s.out.len());
    assert forall|k: int, which: int| 0 <= k < s.out.len() && 0 <= which <= 2 implies #[trigger] moment_of(
        s2.out[k],
        which,
    ) == moment_of(s.out[k], which) by {}
    assert forall|i: int, j: int| s.scanned(x, y, i, j) implies #[trigger] s2.own[(i, j)] == (if s.own[(
        i,
        j,
    )] == v {
        sv
    } else {
        s.own[(i, j)]
    }) by {
        assert(s.pixel_ok(bin, i, j));
    }
    assert forall|l: int, which: int| 0 <= l < s2.n() && 0 <= which <= 2 implies #[trigger] s2.lab_moment(
        bin,
        grey,
        x,
        y,
        l,
        which,
    ) by {
        assert(s.lab_moment(bin, grey, x, y, l, which));
        assert(s.lab_moment(bin, grey, x, y, sv, which));
        assert(s.lab_moment(bin, grey, x, y, v, which));
        assert(s.lab_kids(l));
        lemma_moment_joined(s, s2, bin, grey, x, y, v, sv, which);
        if l == sv {
            lemma_kids_moment_concat(s2.out, kv, ks, which);
            lemma_kids_kept(s, s2, kv, s.comps[v].child, s.comps[v].last_child, which);
            lemma_kids_kept(s, s2, ks, s.comps[sv].child, s.comps[sv].last_child, which);
        } else if l == v {
        } else {
            assert forall|i: int, j: int| s.scanned(x, y, i, j) implies (#[trigger] s.own[(i, j)] == l
                <==> s2.own[(i, j)] == l) by {}
            lemma_moment_kept(s, s2, bin, grey, x, y, l, which);
            lemma_kids_kept(s, s2, s.kids[l], s.comps[l].child, s.comps[l].last_child, which);
        }
    }
    assert forall|k: int, which: int| 0 <= k < s2.out.len() && 0 <= which <= 2 implies #[trigger] s2.out_moment(
        bin,
        grey,
        x,
        y,
        k,
        which,
    ) by {
        assert(s.out_moment(bin, grey, x, y, k, which));
        assert(s.out_kids(k));
        assert forall|i: int, j: int| s.scanned(x, y, i, j) implies (#[trigger] s.own[(i, j)] == -1 - k
            <==> s2.own[(i, j)] == -1 - k) by {}
        lemma_moment_kept(s, s2, bin, grey, x, y, -1 - k, which);
        lemma_kids_kept(s, s2, s.okids[k], s.out[k].child, s.out[k].last_child, which);
    }
}

/// The component `t` is closed into `cl`, which takes its moments on top
/// of its own.
#[verifier::rlimit(40)]
pub proof fn lemma_sum_close(s: State, bin: Raster, grey: Raster, x: int, y: int, done: int, cl: int, t: int)
    requires
        s.mid(bin, x, y, done, cl, t),
        s.own_ok(bin, x + 1, x, x + 1, y),
        s.sums_ok(bin, grey, x + 1, y),
        t >= 0,
        s.out.len() < 0xffff_ffff,
        s.comps[cl].zom + s.comps[t].zom <= u64::MAX,
        s.comps[cl].fom[0] + s.comps[t].fom[0] <= u64::MAX,
        s.comps[cl].fom[1] + s.comps[t].fom[1] <= u64::MAX,
    ensures
        s.close(t, cl).sums_ok(bin, grey, x + 1, y),
{
    let s2 = s.close(t, cl);
    let idx = s.out.len() as int;
    let to = -1 - idx;
    let kt = s.kids[t];
    let kc = s.kids[cl];
    assert(s.lab_kids(cl));
    assert(s.lab_kids(t));
    assert(!s.code_ok(to));
    assert(s2.out[idx] == s.sealed(t, cl));
    assert forall|k: int, which: int| 0 <= k < s.out.len() && 0 <= which <= 2 implies #[trigger] moment_of(
        s2.out[k],
        which,
    ) == moment_of(s.out[k], which) by {}
    assert forall|i: int, j: int| s.scanned(x + 1, y, i, j) implies #[trigger] s2.own[(i, j)] == (if s.own[(
        i,
        j,
    )] == t {
        to
    } else {
        s.own[(i, j)]
    }) by {
        assert(s.pixel_ok(bin, i, j));
    }
    assert forall|l: int, which: int| 0 <= l < s2.n() && 0 <= which <= 2 implies #[trigger] s2.lab_moment(
        bin,
        grey,
        x + 1,
        y,
        l,
        which,
    ) by {
        assert(s.lab_moment(bin, grey, x + 1, y, l, which));
        assert(s.lab_moment(bin, grey, x + 1, y, cl, which));
        assert(s.lab_moment(bin, grey, x + 1, y, t, which));
        assert(s.lab_kids(l));
        lemma_moment_joined(s, s2, bin, grey, x + 1, y, t, to, which);
        if l == t {
        } else {
            assert forall|i: int, j: int| s.scanned(x + 1, y, i, j) implies (#[trigger] s.own[(i, j)] == l
                <==> s2.own[(i, j)] == l) by {
                assert(s.pixel_ok(bin, i, j));
            }
            lemma_moment_kept(s, s2, bin, grey, x + 1, y, l, which);
            lemma_kids_kept(s, s2, s.kids[l], s.comps[l].child, s.comps[l].last_child, which);
            if l == cl {
                lemma_kids_moment_one(s2.out, idx, which);
                lemma_kids_moment_concat(s2.out, seq![idx], kc, which);
            }
        }
    }
    assert forall|k: int, which: int| 0 <= k < s2.out.len() && 0 <= which <= 2 implies #[trigger] s2.out_moment(
        bin,
        grey,
        x + 1,
        y,
        k,
        which,
    ) by {
        lemma_moment_joined(s, s2, bin, grey, x + 1, y, t, to, which);
        if k < idx {
            assert(s.out_moment(bin, grey, x + 1, y, k, which));
            assert(s.out_kids(k));
            assert forall|i: int, j: int| s.scanned(x + 1, y, i, j) implies (#[trigger] s.own[(i, j)] == -1
                - k <==> s2.own[(i, j)] == -1 - k) by {
                assert(s.pixel_ok(bin, i, j));
            }
            lemma_moment_kept(s, s2, bin, grey, x + 1, y, -1 - k, which);
            lemma_kids_kept(s, s2, s.okids[k], s.out[k].child, s.out[k].last_child, which);
        } else {
            assert(s.lab_moment(bin, grey, x + 1, y, t, which));
            lemma_moment_unused(s, bin, grey, x + 1, x, x + 1, y, to, which);
            lemma_kids_kept(s, s2, kt, s.comps[t].child, s.comps[t].last_child, which);
        }
    }
}

/// Neither pixels nor components have changed.
pub proof fn lemma_sum_same(s: State, s2: State, bin: Raster, grey: Raster, nx: int, y: int)
    requires
        s.sums_ok(bin, grey, nx, y),
        s2.own == s.own,
        s2.comps == s.comps,
        s2.out == s.out,
        s2.kids == s.kids,
        s2.okids == s.okids,
        s2.w == s.w,
    ensures
        s2.sums_ok(bin, grey, nx, y),
{
    assert forall|l: int, which: int| 0 <= l < s2.n() && 0 <= which <= 2 implies #[trigger] s2.lab_moment(
        bin,
        grey,
        nx,
        y,
        l,
        which,
    ) by {
        assert(s.lab_moment(bin, grey, nx, y, l, which));
    }
    assert forall|k: int, which: int| 0 <= k < s2.out.len() && 0 <= which <= 2 implies #[trigger] s2.out_moment(
        bin,
        grey,
        nx,
        y,
        k,
        which,
    ) by {
        assert(s.out_moment(bin, grey, nx, y, k, which));
    }
}

/// The scan turns to the next row.
pub proof fn lemma_sum_turn(s: State, bin: Raster, grey: Raster, y: int)
    requires
        s.sums_ok(bin, grey, s.w, y),
        s.w >= 0,
        y >= 0,
    ensures
        s.turn().sums_ok(bin, grey, 0, y + 1),
{
    let s2 = s.turn();
    assert forall|l: int, which: int| 0 <= l < s2.n() && 0 <= which <= 2 implies #[trigger] s2.lab_moment(
        bin,
        grey,
        0,
        y + 1,
        l,
        which,
    ) by {
        assert(s.lab_moment(bin, grey, s.w, y, l, which));
    }
    assert forall|k: int, which: int| 0 <= k < s2.out.len() && 0 <= which <= 2 implies #[trigger] s2.out_moment(
        bin,
        grey,
        0,
        y + 1,
        k,
        which,
    ) by {
        assert(s.out_moment(bin, grey, s.w, y, k, which));
    }
}

} // verus!
