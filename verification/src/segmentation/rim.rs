//! The pixels of the background: the dark pixels that a dark walk links
//! with the uppermost row or the leftmost column of the raster.

use crate::raster::Raster;
use crate::segmentation::regions::{
    adjacent, lemma_linked_self, lemma_linked_step, lemma_linked_sym, lemma_linked_trans, linked,
    reaches_rim,
};
use crate::segmentation::state::{dark_prefix, State};
use vstd::prelude::*;

verus! {

/// What is linked with a pixel that reaches the rim reaches it too.
pub proof fn lemma_reach_linked(bin: Raster, a: (int, int), b: (int, int))
    requires
        reaches_rim(bin, a.0, a.1),
        linked(bin, a, b),
    ensures
        reaches_rim(bin, b.0, b.1),
{
    let (p, q) = choose|p: int, q: int| (p == 0 || q == 0) && #[trigger] linked(bin, (a.0, a.1), (p, q));
    assert(a == (a.0, a.1) && b == (b.0, b.1));
    lemma_linked_sym(bin, a, b);
    lemma_linked_trans(bin, b, a, (p, q));
}

/// A neighbor of the same color reaches the rim with its neighbor.
pub proof fn lemma_reach_step(bin: Raster, a: (int, int), b: (int, int))
    requires
        reaches_rim(bin, a.0, a.1),
        bin.contains(a.0, a.1),
        bin.contains(b.0, b.1),
        adjacent(a, b),
        bin.lit(a.0, a.1) == bin.lit(b.0, b.1),
    ensures
        reaches_rim(bin, b.0, b.1),
{
    lemma_linked_step(bin, a, b);
    lemma_reach_linked(bin, a, b);
}

/// A pixel of the uppermost row or of the leftmost column reaches the rim.
pub proof fn lemma_reach_self(bin: Raster, i: int, j: int)
    requires
        bin.contains(i, j),
        i == 0 || j == 0,
    ensures
        reaches_rim(bin, i, j),
{
    lemma_linked_self(bin, (i, j));
}

/// Before the first pixel nothing is to be said.
pub proof fn lemma_rim_start(w: u32, h: u32, bin: Raster)
    ensures
        State::start(w, h).rim_ok(bin, 0, 0),
{
}

/// The scan of a pixel leaves the background with the dark pixels that
/// reach the rim.
pub proof fn lemma_rim_scan(s: State, bin: Raster, grey: Raster, x: u32, y: u32, done: int)
    requires
        s.inv(bin, x as int, y as int, done),
        s.own_ok(bin, x as int, x as int, x as int, y as int),
        s.rim_ok(bin, x as int, y as int),
        x < s.w,
        y < s.h,
    ensures
        s.scan(bin, grey, x, y).rim_ok(bin, x + 1, y as int),
{
    let xi = x as int;
    let yi = y as int;
    let current = bin.lit(xi, yi);
    let top = bin.lit(xi, yi - 1);
    let left = bin.lit(xi - 1, yi);
    let t = s.rep[s.prev[xi].label as int];
    let l = if x > 0 {
        s.cur[xi - 1].label as int
    } else {
        0
    };
    let t_older = s.comps[t].merge.older_than(s.comps[l].merge);
    let older = if t_older {
        t
    } else {
        l
    };
    let newer = if t_older {
        l
    } else {
        t
    };
    let merged = current == left && current == top && t != l;
    let fresh = current != left && current != top;
    let cl = if current == left && current == top {
        if t == l {
            l
        } else {
            older
        }
    } else if current == left {
        l
    } else if current == top {
        t
    } else if s.free.len() > 0 {
        s.free[0].label as int
    } else {
        s.n()
    };
    let s2 = s.scan(bin, grey, x, y);
    // the pixel to the left and the pixel above
    assert(bin.contains(xi, yi));
    assert(s.lab_tag(0));
    assert(s.prev_ok(bin, yi, xi));
    assert(s.lab_tag(t));
    if x > 0 {
        assert(s.cur_ok(bin, yi, xi - 1));
        assert(s.lab_tag(l));
        assert(s.scanned(xi, yi, xi - 1, yi));
        assert(s.pixel_ok(bin, xi - 1, yi));
        assert(s.rim_pixel(bin, xi - 1, yi));
        assert(s.own[(xi - 1, yi)] == l);
    }
    if y > 0 {
        assert(s.scanned(xi, yi, xi, yi - 1));
        assert(s.pixel_ok(bin, xi, yi - 1));
        assert(s.rim_pixel(bin, xi, yi - 1));
        assert(s.own[(xi, yi - 1)] == t);
    } else {
        assert(dark_prefix(bin, -1, xi));
    }
    assert(s.live(l) && s.comps[l].color == left);
    assert(s.live(t) && s.comps[t].color == top);
    assert(y == 0 ==> t == 0);
    if s.free.len() > 0 {
        assert(s.free_ok(0));
        assert(s.lab_tag(s.free[0].label as int));
    }
    assert(fresh ==> cl != 0 && !s.live(cl));
    // a dark pixel of the rim goes to the background
    assert((xi == 0 || yi == 0) && !current ==> cl == 0);
    // two components are merged away from the rim, and the background is
    // the one that stays
    if merged {
        assert(x > 0 && y > 0);
        assert(s.comps[0].merge.label == 0 && s.comps[0].merge.row == 0);
        assert(newer != 0);
        if older == 0 {
            let mine = if l == 0 {
                (xi - 1, yi)
            } else {
                (xi, yi - 1)
            };
            let other = if l == 0 {
                (xi, yi - 1)
            } else {
                (xi - 1, yi)
            };
            lemma_reach_step(bin, mine, (xi, yi));
            lemma_reach_step(bin, (xi, yi), other);
            assert(s.own[other] == newer);
            assert(linked(bin, other, s.anchor_of(newer)));
            lemma_reach_linked(bin, other, s.anchor_of(newer));
        }
    }
    // the pixel reaches the rim where it goes to the background
    if cl == 0 {
        if xi == 0 || yi == 0 {
            lemma_reach_self(bin, xi, yi);
        } else if current == left && l == 0 {
            lemma_reach_step(bin, (xi - 1, yi), (xi, yi));
        } else {
            assert(current == top && t == 0);
            lemma_reach_step(bin, (xi, yi - 1), (xi, yi));
        }
    }
    // the background is never closed
    let given = if current == left && current == top {
        if t == l {
            s.add(l, x, y, grey.at(xi, yi) as u32, current)
        } else {
            s.merge(older, newer).add(older, x, y, grey.at(xi, yi) as u32, current)
        }
    } else if current == left {
        s.add(l, x, y, grey.at(xi, yi) as u32, current)
    } else if current == top {
        s.add(t, x, y, grey.at(xi, yi) as u32, current)
    } else if s.free.len() > 0 {
        s.take(x, y, grey.at(xi, yi) as u32, current)
    } else {
        s.grow(x, y, grey.at(xi, yi) as u32, current)
    };
    let closing = top != current && given.comps[t].ymax() < y && given.comps[t].max_x <= x;
    if top != current && t == 0 {
        assert(cl != 0);
        assert(given.comps[0] == s.comps[0]);
        assert(s.comps[0].ymax() == s.h);
    }
    assert(closing ==> t != 0 && t != cl);
    assert(s2.w == s.w);
    assert(given.own[(xi, yi)] == cl);
    assert(s2.own[(xi, yi)] == cl);
    assert forall|i: int, j: int| s2.scanned(x + 1, yi, i, j) implies #[trigger] s2.rim_pixel(bin, i, j) by {
        if !(i == xi && j == yi) {
            assert(s.scanned(xi, yi, i, j));
            assert(s.pixel_ok(bin, i, j));
            assert(s.rim_pixel(bin, i, j));
            let c = s.own[(i, j)];
            let c1 = if merged && c == newer {
                older
            } else {
                c
            };
            assert(given.own[(i, j)] == c1);
            let c2 = if closing && c1 == t {
                -1 - given.out.len()
            } else {
                c1
            };
            assert(s2.own[(i, j)] == c2);
            if merged && c == newer && older == 0 {
                lemma_linked_sym(bin, (i, j), s.anchor_of(newer));
                lemma_reach_linked(bin, s.anchor_of(newer), (i, j));
            }
        }
    }
}

/// The labels of a row are settled without a change to the owners of the
/// pixels.
pub proof fn lemma_settled_same(s: State, n: nat)
    ensures
        s.settle_row(n).own == s.own,
        s.settle_row(n).w == s.w,
    decreases n,
{
    if n > 0 {
        lemma_settled_same(s, (n - 1) as nat);
    }
}

/// The end of a row changes nothing for the background.
pub proof fn lemma_rim_row(s: State, bin: Raster, y: int)
    requires
        s.rim_ok(bin, s.w, y),
        0 <= s.w,
    ensures
        s.settle_row(s.w as nat).turn().rim_ok(bin, 0, y + 1),
{
    lemma_settled_same(s, s.w as nat);
    let s2 = s.settle_row(s.w as nat).turn();
    assert forall|i: int, j: int| s2.scanned(0, y + 1, i, j) implies #[trigger] s2.rim_pixel(bin, i, j) by {
        assert(s.scanned(s.w, y, i, j));
        assert(s.rim_pixel(bin, i, j));
    }
}

} // verus!
