//! Each step of the scan keeps what holds of its state.

use crate::raster::Raster;
use crate::segmentation::forest::link_ok;
use crate::segmentation::state::{dark_prefix, State};
use crate::segmentation::sums::{
    lemma_area_le_total, lemma_le_total, lemma_len_le_total_area, lemma_total_area_push,
    kids_mass, lemma_kids_mass_concat, lemma_kids_mass_frame, lemma_kids_mass_one,
    lemma_total_area_update, lemma_total_area_zero, lemma_total_push, lemma_total_update,
    lemma_total_zero, lemma_two_le_total, total, total_area,
};
use crate::segmentation::{weight, FeatureVector};
use vstd::prelude::*;

verus! {

/// One more pixel of weight `wgt` at column `x < w` keeps a moment under its
/// bound.
pub proof fn lemma_moment_step(m: int, w: int, mass: int, x: int, wgt: int)
    requires
        0 <= m <= 255 * w * mass,
        0 <= x < w,
        0 <= wgt <= 255,
        0 <= mass,
    ensures
        m + x * wgt <= 255 * w * (mass + 1),
        0 <= x * wgt,
{
    assert(x * wgt <= 255 * w) by (nonlinear_arith)
        requires
            0 <= x < w,
            0 <= wgt <= 255,
    ;
    assert(0 <= x * wgt) by (nonlinear_arith)
        requires
            0 <= x,
            0 <= wgt,
    ;
    assert(255 * w * (mass + 1) == 255 * w * mass + 255 * w) by (nonlinear_arith);
}

/// Two moments under their bounds add up to one under the bound of both
/// masses.
pub proof fn lemma_moment_sum(a: int, b: int, w: int, ma: int, mb: int)
    requires
        a <= 255 * w * ma,
        b <= 255 * w * mb,
    ensures
        a + b <= 255 * w * (ma + mb),
{
    assert(255 * w * (ma + mb) == 255 * w * ma + 255 * w * mb) by (nonlinear_arith);
}

/// A bound on what a moment can come to.
pub proof fn lemma_moment_fits(w: int, mass: int)
    requires
        0 <= w <= 0xff_ffff,
        0 <= mass <= 0xffff_ffff,
    ensures
        255 * w * mass <= 0xffff_ffff_ffff_ffff,
        255 * mass <= 0xffff_ffff_ffff_ffff,
{
    assert(255 * w * mass <= 255 * 0xff_ffff * 0xffff_ffff) by (nonlinear_arith)
        requires
            0 <= w <= 0xff_ffff,
            0 <= mass <= 0xffff_ffff,
    ;
}

/// The lists of children and the closed components are as before, and the
/// mass of every label is still its area and the masses below it: whatever
/// the total of the masses is, the books on who lies below whom are sound.
pub proof fn lemma_weigh_frame(s: State, s2: State, done: int, done2: int)
    requires
        s.weigh_ok(done),
        s2.out == s.out,
        s2.okids == s.okids,
        s2.omass == s.omass,
        s2.n() >= s.n(),
        s2.w == s.w,
        s2.h == s.h,
        done <= done2,
        s2.kids.len() == s2.n(),
        s2.mass.len() == s2.n(),
        total(s2.mass) == done2,
        forall|l: int|
            0 <= l < s2.n() ==> (#[trigger] s2.mass[l]) == s2.comps[l].area + kids_mass(
                s2.omass,
                s2.kids[l],
            ),
    ensures
        s2.weigh_ok(done2),
{
    assert forall|l: int| 0 <= l < s2.n() implies #[trigger] s2.lab_mass(l) by {
        assert(s2.mass[l] == s2.comps[l].area + kids_mass(s2.omass, s2.kids[l]));
    }
    assert forall|i: int| 0 <= i < s2.out.len() implies #[trigger] s2.out_mass(i) by {
        assert(s.out_mass(i));
    }
}

/// The pixel `(x, y)` joins a label in use: the one to its left, or the one
/// above it.
pub proof fn lemma_add(s: State, img: Raster, x: u32, y: u32, done: int, cl: int, t: int, value: u32)
    requires
        s.base(img, x as int, y as int, done),
        x < s.w,
        y < s.h,
        done < 0xffff_ffff,
        value <= 255,
        s.live(cl),
        s.comps[cl].color == img.lit(x as int, y as int),
        t == s.rep[s.prev[x as int].label as int],
        cl == t || s.comps[t].color != s.comps[cl].color,
        dark_prefix(img, y as int, x as int) ==> cl == 0,
    ensures
        s.add(cl, x, y, value, s.comps[cl].color).mid(
            img,
            x as int,
            y as int,
            done + 1,
            cl,
            if cl == t {
                -1
            } else {
                t
            },
        ),
        s.comps[cl].area < u32::MAX,
        s.comps[cl].zom + weight(value, s.comps[cl].color) <= u64::MAX,
        s.comps[cl].fom[0] + x * weight(value, s.comps[cl].color) <= u64::MAX,
        s.comps[cl].fom[1] + y * weight(value, s.comps[cl].color) <= u64::MAX,
{
    let color = s.comps[cl].color;
    let s2 = s.add(cl, x, y, value, color);
    let tt = if cl == t {
        -1
    } else {
        t
    };
    let c = s.comps[cl];
    let c2 = s2.comps[cl];
    assert(s.lab_acct(cl));
    assert(s.lab_tag(cl));
    assert(s.prev_ok(img, y as int, x as int));
    lemma_le_total(s.mass, cl);
    lemma_moment_step(c.fom[0] as int, s.w, s.mass[cl] as int, x as int, weight(value, color));
    lemma_moment_step(c.fom[1] as int, s.h, s.mass[cl] as int, y as int, weight(value, color));
    lemma_moment_fits(s.w, (s.mass[cl] + 1) as int);
    lemma_moment_fits(s.h, (s.mass[cl] + 1) as int);
    assert(c2.area == c.area + 1);
    assert(c2.zom == c.zom + weight(value, color));
    assert(c2.fom[0] == c.fom[0] + x * weight(value, color));
    assert(c2.fom[1] == c.fom[1] + y * weight(value, color));
    assert(cl != 0 ==> s.lab_geom(x as int, y as int, cl));
    assert(cl != 0 ==> c2.ymax() == y && c2.max_x == x);
    assert(c2.ymax() >= c.ymax());
    assert(cl == 0 ==> c2.bounding_box[0] == c.bounding_box[0] && c2.bounding_box[1]
        == c.bounding_box[1] && c2.max_x == c.max_x);
    assert(s2.shape());
    assert forall|l: int| 0 <= l < s2.n() implies #[trigger] s2.lab_tag(l) by {
        assert(s.lab_tag(l));
    }
    assert(s2.pool_ok()) by {
        assert forall|i: int| 0 <= i < s2.free.len() implies #[trigger] s2.free_ok(i) by {
            assert(s.free_ok(i));
        }
        assert forall|i: int| 0 <= i < s2.retired.len() implies #[trigger] s2.retired_ok(i) by {
            assert(s.retired_ok(i));
        }
    }
    assert(s2.acct_ok(done + 1)) by {
        lemma_total_area_update(s.comps, cl, c2);
        lemma_total_update(s.mass, cl, s.mass[cl] + 1);
        assert forall|l: int| 0 <= l < s2.n() implies #[trigger] s2.lab_acct(l) by {
            assert(s.lab_acct(l));
        }
    }
    assert(s2.weigh_ok(done + 1)) by {
        lemma_total_update(s.mass, cl, s.mass[cl] + 1);
        assert forall|l: int| 0 <= l < s2.n() implies (#[trigger] s2.mass[l]) == s2.comps[l].area
            + kids_mass(s2.omass, s2.kids[l]) by {
            assert(s.lab_mass(l));
        }
        lemma_weigh_frame(s, s2, done, done + 1);
    }
    assert(s2.tree_ok()) by {
        assert forall|l: int| 0 <= l < s2.n() implies #[trigger] s2.lab_kids(l) by {
            assert(s.lab_kids(l));
        }
        assert forall|i: int| 0 <= i < s2.out.len() implies #[trigger] s2.out_kids(i) by {
            assert(s.out_kids(i));
        }
        assert forall|k: int| 0 <= k < s2.out.len() implies #[trigger] s2.out_par(k) by {
            assert(s.out_par(k));
        }
    }
    assert(s2.front_ok(img, x as int, x + 1, y as int)) by {
        assert forall|i: int| x + 1 <= i < s2.w implies #[trigger] s2.prev_ok(img, y as int, i) by {
            assert(s.prev_ok(img, y as int, i));
        }
        assert forall|i: int| 0 <= i < x implies #[trigger] s2.cur_ok(img, y as int, i) by {
            assert(s.cur_ok(img, y as int, i));
        }
    }
    assert forall|l: int| 0 < l < s2.n() implies #[trigger] s2.lab_geom_mid(
        x as int,
        y as int,
        cl,
        tt,
        l,
    ) by {
        assert(s.lab_geom(x as int, y as int, l));
    }
}

/// The pixel `(x, y)` starts a component under the first label of the pool.
pub proof fn lemma_take(s: State, img: Raster, x: u32, y: u32, done: int, t: int, value: u32, color: bool)
    requires
        s.base(img, x as int, y as int, done),
        x < s.w,
        y < s.h,
        done < 0xffff_ffff,
        value <= 255,
        s.free.len() > 0,
        color == img.lit(x as int, y as int),
        t == s.rep[s.prev[x as int].label as int],
        s.comps[t].color != color,
        !dark_prefix(img, y as int, x as int),
    ensures
        s.take(x, y, value, color).mid(img, x as int, y as int, done + 1, s.free[0].label as int, t),
{
    let s2 = s.take(x, y, value, color);
    let cl = s.free[0].label as int;
    assert(s.free_ok(0));
    assert(s.lab_tag(cl));
    assert(s.lab_acct(cl));
    assert(s.lab_kids(cl));
    assert(s.prev_ok(img, y as int, x as int));
    assert(s.lab_tag(t));
    lemma_moment_step(0, s.w, 0, x as int, weight(value, color));
    lemma_moment_step(0, s.h, 0, y as int, weight(value, color));
    let c2 = s2.comps[cl];
    assert(c2.fom[0] == x * weight(value, color));
    assert(c2.fom[1] == y * weight(value, color));
    assert(c2.bounding_box[0] == (x, y));
    assert(c2.bounding_box[1] == (x, y));
    assert(s2.shape());
    assert forall|l: int| 0 <= l < s2.n() implies #[trigger] s2.lab_tag(l) by {
        assert(s.lab_tag(l));
        if l != cl && s.rep[l] >= 0 && !s.comps[l].valid {
            assert(s.lab_tag(s.comps[l].merge.label as int));
        }
    }
    assert(s2.pool_ok()) by {
        assert forall|i: int| 0 <= i < s2.free.len() implies #[trigger] s2.free_ok(i) by {
            assert(s.free_ok(i + 1));
            assert(s2.free[i] == s.free[i + 1]);
            assert(s.free[0].label != s.free[i + 1].label);
        }
        assert forall|i: int, j: int| 0 <= i < j < s2.free.len() implies (#[trigger] s2.free[i]).label != (
        #[trigger] s2.free[j]).label by {
            assert(s2.free[i] == s.free[i + 1]);
            assert(s2.free[j] == s.free[j + 1]);
        }
        assert forall|i: int| 0 <= i < s2.retired.len() implies #[trigger] s2.retired_ok(i) by {
            assert(s.retired_ok(i));
        }
    }
    assert(s2.acct_ok(done + 1)) by {
        lemma_total_area_update(s.comps, cl, c2);
        lemma_total_update(s.mass, cl, 1);
        assert forall|l: int| 0 <= l < s2.n() implies #[trigger] s2.lab_acct(l) by {
            assert(s.lab_acct(l));
        }
    }
    assert(s2.weigh_ok(done + 1)) by {
        lemma_total_update(s.mass, cl, 1);
        assert(s.lab_mass(cl));
        assert forall|l: int| 0 <= l < s2.n() implies (#[trigger] s2.mass[l]) == s2.comps[l].area
            + kids_mass(s2.omass, s2.kids[l]) by {
            assert(s.lab_mass(l));
        }
        lemma_weigh_frame(s, s2, done, done + 1);
    }
    assert(s2.tree_ok()) by {
        assert forall|l: int| 0 <= l < s2.n() implies #[trigger] s2.lab_kids(l) by {
            assert(s.lab_kids(l));
        }
        assert forall|i: int| 0 <= i < s2.out.len() implies #[trigger] s2.out_kids(i) by {
            assert(s.out_kids(i));
        }
        assert forall|k: int| 0 <= k < s2.out.len() implies #[trigger] s2.out_par(k) by {
            assert(s.out_par(k));
        }
    }
    assert(s2.front_ok(img, x as int, x + 1, y as int)) by {
        assert forall|i: int| x + 1 <= i < s2.w implies #[trigger] s2.prev_ok(img, y as int, i) by {
            assert(s.prev_ok(img, y as int, i));
        }
        assert forall|i: int| 0 <= i < x implies #[trigger] s2.cur_ok(img, y as int, i) by {
            assert(s.cur_ok(img, y as int, i));
        }
    }
    assert forall|l: int| 0 < l < s2.n() implies #[trigger] s2.lab_geom_mid(
        x as int,
        y as int,
        cl,
        t,
        l,
    ) by {
        assert(s.lab_geom(x as int, y as int, l));
        if l != cl && s.comps[l].valid {
            if s.comps[l].ymax() == y {
                assert(s.cur_ok(img, y as int, s.comps[l].max_x as int));
            } else {
                assert(s.prev_ok(img, y as int, s.comps[l].max_x as int));
            }
        }
    }
}

/// The pixel `(x, y)` starts a component under a label that the table did
/// not have yet.
pub proof fn lemma_grow(s: State, img: Raster, x: u32, y: u32, done: int, t: int, value: u32, color: bool)
    requires
        s.base(img, x as int, y as int, done),
        x < s.w,
        y < s.h,
        done < 0xffff_ffff,
        s.n() <= 0xffff_ffff,
        value <= 255,
        color == img.lit(x as int, y as int),
        t == s.rep[s.prev[x as int].label as int],
        s.comps[t].color != color,
        !dark_prefix(img, y as int, x as int),
    ensures
        s.grow(x, y, value, color).mid(img, x as int, y as int, done + 1, s.n(), t),
{
    let s2 = s.grow(x, y, value, color);
    let cl = s.n();
    assert(s.prev_ok(img, y as int, x as int));
    assert(s.lab_tag(t));
    lemma_moment_step(0, s.w, 0, x as int, weight(value, color));
    lemma_moment_step(0, s.h, 0, y as int, weight(value, color));
    let c2 = s2.comps[cl];
    assert(c2.fom[0] == x * weight(value, color));
    assert(c2.fom[1] == y * weight(value, color));
    assert(c2.bounding_box[0] == (x, y));
    assert(c2.bounding_box[1] == (x, y));
    assert(s2.shape());
    assert forall|l: int| 0 <= l < s2.n() implies #[trigger] s2.lab_tag(l) by {
        if l < s.n() {
            assert(s.lab_tag(l));
        }
    }
    assert(s2.pool_ok()) by {
        assert forall|i: int| 0 <= i < s2.free.len() implies #[trigger] s2.free_ok(i) by {
            assert(s.free_ok(i));
        }
        assert forall|i: int| 0 <= i < s2.retired.len() implies #[trigger] s2.retired_ok(i) by {
            assert(s.retired_ok(i));
        }
    }
    assert(s2.acct_ok(done + 1)) by {
        lemma_total_area_push(s.comps, c2);
        lemma_total_push(s.mass, 1);
        assert forall|l: int| 0 <= l < s2.n() implies #[trigger] s2.lab_acct(l) by {
            if l < s.n() {
                assert(s.lab_acct(l));
            }
        }
    }
    assert(s2.weigh_ok(done + 1)) by {
        lemma_total_push(s.mass, 1);
        assert forall|l: int| 0 <= l < s2.n() implies (#[trigger] s2.mass[l]) == s2.comps[l].area
            + kids_mass(s2.omass, s2.kids[l]) by {
            if l < s.n() {
                assert(s.lab_mass(l));
            }
        }
        lemma_weigh_frame(s, s2, done, done + 1);
    }
    assert(s2.tree_ok()) by {
        assert forall|l: int| 0 <= l < s2.n() implies #[trigger] s2.lab_kids(l) by {
            if l < s.n() {
                assert(s.lab_kids(l));
            }
        }
        assert forall|i: int| 0 <= i < s2.out.len() implies #[trigger] s2.out_kids(i) by {
            assert(s.out_kids(i));
        }
        assert forall|k: int| 0 <= k < s2.out.len() implies #[trigger] s2.out_par(k) by {
            assert(s.out_par(k));
        }
    }
    assert(s2.front_ok(img, x as int, x + 1, y as int)) by {
        assert forall|i: int| x + 1 <= i < s2.w implies #[trigger] s2.prev_ok(img, y as int, i) by {
            assert(s.prev_ok(img, y as int, i));
        }
        assert forall|i: int| 0 <= i < x implies #[trigger] s2.cur_ok(img, y as int, i) by {
            assert(s.cur_ok(img, y as int, i));
        }
    }
    assert forall|l: int| 0 < l < s2.n() implies #[trigger] s2.lab_geom_mid(
        x as int,
        y as int,
        cl,
        t,
        l,
    ) by {
        if l < s.n() {
            assert(s.lab_geom(x as int, y as int, l));
            if s.comps[l].valid {
                if s.comps[l].ymax() == y {
                    assert(s.cur_ok(img, y as int, s.comps[l].max_x as int));
                } else {
                    assert(s.prev_ok(img, y as int, s.comps[l].max_x as int));
                }
            }
        }
    }
}

/// The component above the pixel `(x, y)` stays open: it reaches the row of
/// the pixel, or goes on to the right of it.
pub proof fn lemma_skip(s: State, img: Raster, x: int, y: int, done: int, cl: int, t: int)
    requires
        s.mid(img, x, y, done, cl, t),
        t >= 0,
        !(s.comps[t].ymax() < y && s.comps[t].max_x <= x),
    ensures
        s.mid(img, x, y, done, cl, -1),
{
    assert forall|l: int| 0 < l < s.n() implies #[trigger] s.lab_geom_mid(x, y, cl, -1, l) by {
        assert(s.lab_geom_mid(x, y, cl, t, l));
    }
}

/// The label of the pixel `(x, y)` is written down, and the scan moves on.
pub proof fn lemma_note(s: State, img: Raster, x: int, y: int, done: int, cl: int)
    requires
        s.mid(img, x, y, done, cl, -1),
    ensures
        s.note(cl).inv(img, x + 1, y, done),
{
    let s2 = s.note(cl);
    assert(s.lab_tag(cl));
    assert(s2.cur[x] == s.comps[cl].merge);
    assert forall|l: int| 0 <= l < s2.n() implies #[trigger] s2.lab_tag(l) by {
        assert(s.lab_tag(l));
    }
    assert(s2.pool_ok()) by {
        assert forall|i: int| 0 <= i < s2.free.len() implies #[trigger] s2.free_ok(i) by {
            assert(s.free_ok(i));
        }
        assert forall|i: int| 0 <= i < s2.retired.len() implies #[trigger] s2.retired_ok(i) by {
            assert(s.retired_ok(i));
        }
    }
    assert(s2.acct_ok(done)) by {
        assert forall|l: int| 0 <= l < s2.n() implies #[trigger] s2.lab_acct(l) by {
            assert(s.lab_acct(l));
        }
    }
    assert(s2.weigh_ok(done)) by {
        assert forall|l: int| 0 <= l < s2.n() implies (#[trigger] s2.mass[l]) == s2.comps[l].area
            + kids_mass(s2.omass, s2.kids[l]) by {
            assert(s.lab_mass(l));
        }
        lemma_weigh_frame(s, s2, done, done);
    }
    assert(s2.tree_ok()) by {
        assert forall|l: int| 0 <= l < s2.n() implies #[trigger] s2.lab_kids(l) by {
            assert(s.lab_kids(l));
        }
        assert forall|i: int| 0 <= i < s2.out.len() implies #[trigger] s2.out_kids(i) by {
            assert(s.out_kids(i));
        }
        assert forall|k: int| 0 <= k < s2.out.len() implies #[trigger] s2.out_par(k) by {
            assert(s.out_par(k));
        }
    }
    assert(cl != 0 ==> s.lab_geom_mid(x, y, cl, -1, cl));
    assert(s2.front_ok(img, x + 1, x + 1, y)) by {
        assert forall|i: int| x + 1 <= i < s2.w implies #[trigger] s2.prev_ok(img, y, i) by {
            assert(s.prev_ok(img, y, i));
        }
        assert forall|i: int| 0 <= i < x + 1 implies #[trigger] s2.cur_ok(img, y, i) by {
            if i < x {
                assert(s.cur_ok(img, y, i));
            }
        }
    }
    assert forall|l: int| 0 < l < s2.n() implies #[trigger] s2.lab_geom(x + 1, y, l) by {
        assert(s.lab_geom_mid(x, y, cl, -1, l));
    }
}

/// The label `sv` takes over the label `v`, which has the same color.
#[verifier::rlimit(40)]
pub proof fn lemma_merge(s: State, img: Raster, x: int, y: int, done: int, sv: int, v: int)
    requires
        s.base(img, x, y, done),
        done <= 0xffff_ffff,
        s.live(sv),
        s.live(v),
        sv != v,
        v != 0,
        s.comps[sv].color == s.comps[v].color,
    ensures
        s.merge(sv, v).base(img, x, y, done),
        s.comps[sv].area + s.comps[v].area <= u32::MAX,
        s.comps[sv].zom + s.comps[v].zom <= u64::MAX,
        s.comps[sv].fom[0] + s.comps[v].fom[0] <= u64::MAX,
        s.comps[sv].fom[1] + s.comps[v].fom[1] <= u64::MAX,
        s.comps[v].child.is_some() ==> s.comps[v].last_child < s.out.len(),
        s.merge(sv, v).live(sv),
        s.merge(sv, v).comps[sv].color == s.comps[sv].color,
        forall|l: int| 0 <= l < s.n() && s.rep[l] == v ==> s.merge(sv, v).rep[l] == sv,
        forall|l: int| 0 <= l < s.n() && s.rep[l] != v ==> s.merge(sv, v).rep[l] == s.rep[l],
{
    let s2 = s.merge(sv, v);
    let a = s.comps[sv];
    let b = s.comps[v];
    let a2 = s2.comps[sv];
    let kv = s.kids[v];
    let ks = s.kids[sv];
    assert(s.lab_tag(sv));
    assert(s.lab_tag(v));
    assert(s.lab_acct(sv));
    assert(s.lab_acct(v));
    assert(s.lab_kids(sv));
    assert(s.lab_kids(v));
    assert(s.lab_geom(x, y, v));
    assert(sv != 0 ==> s.lab_geom(x, y, sv));
    lemma_two_le_total(s.mass, sv, v);
    lemma_moment_sum(a.fom[0] as int, b.fom[0] as int, s.w, s.mass[sv] as int, s.mass[v] as int);
    lemma_moment_sum(a.fom[1] as int, b.fom[1] as int, s.h, s.mass[sv] as int, s.mass[v] as int);
    lemma_moment_fits(s.w, (s.mass[sv] + s.mass[v]) as int);
    lemma_moment_fits(s.h, (s.mass[sv] + s.mass[v]) as int);
    assert(a2.area == a.area + b.area);
    assert(a2.zom == a.zom + b.zom);
    assert(a2.fom[0] == a.fom[0] + b.fom[0]);
    assert(a2.fom[1] == a.fom[1] + b.fom[1]);
    assert(a2.ymax() >= a.ymax() && a2.ymax() >= b.ymax());
    assert(sv == 0 ==> a2.bounding_box[0] == a.bounding_box[0] && a2.bounding_box[1]
        == a.bounding_box[1] && a2.max_x == a.max_x);
    assert(s2.shape());

    assert forall|l: int| 0 <= l < s2.n() implies #[trigger] s2.lab_tag(l) by {
        assert(s.lab_tag(l));
    }
    assert(s2.pool_ok()) by {
        assert forall|i: int| 0 <= i < s2.free.len() implies #[trigger] s2.free_ok(i) by {
            assert(s.free_ok(i));
        }
        assert forall|i: int| 0 <= i < s2.retired.len() implies #[trigger] s2.retired_ok(i) by {
            if i < s.retired.len() {
                assert(s.retired_ok(i));
            }
        }
        assert forall|i: int, j: int| 0 <= i < j < s2.retired.len() implies (
        #[trigger] s2.retired[i]).label != (#[trigger] s2.retired[j]).label by {
            assert(s.retired_ok(i));
        }
    }
    assert(s2.acct_ok(done)) by {
        let mid_comps = s.comps.update(sv, s.joined(sv, v));
        lemma_total_area_update(s.comps, sv, s.joined(sv, v));
        lemma_total_area_update(mid_comps, v, FeatureVector::blank(a.merge));
        let mid_mass = s.mass.update(sv, s.mass[sv] + s.mass[v]);
        lemma_total_update(s.mass, sv, s.mass[sv] + s.mass[v]);
        lemma_total_update(mid_mass, v, 0);
        if a.child.is_some() && b.child.is_some() {
            lemma_total_area_update(s.out, b.last_child as int, s2.out[b.last_child as int]);
        }
        assert forall|l: int| 0 <= l < s2.n() implies #[trigger] s2.lab_acct(l) by {
            assert(s.lab_acct(l));
        }
    }
    assert(s2.weigh_ok(done)) by {
        let mid_mass = s.mass.update(sv, s.mass[sv] + s.mass[v]);
        lemma_total_update(s.mass, sv, s.mass[sv] + s.mass[v]);
        lemma_total_update(mid_mass, v, 0);
        lemma_kids_mass_concat(s.omass, kv, ks);
        assert(s.lab_mass(sv));
        assert(s.lab_mass(v));
        assert forall|l: int| 0 <= l < s2.n() implies #[trigger] s2.lab_mass(l) by {
            assert(s.lab_mass(l));
        }
        assert forall|i: int| 0 <= i < s2.out.len() implies #[trigger] s2.out_mass(i) by {
            assert(s.out_mass(i));
        }
        assert forall|i: int| 0 <= i < s2.out.len() implies #[trigger] s2.omass[i] <= done by {
            assert(s.omass[i] <= done);
        }
    }
    lemma_merge_tree(s, sv, v);
    assert(s2.front_ok(img, x, x, y)) by {
        assert forall|i: int| x <= i < s2.w implies #[trigger] s2.prev_ok(img, y, i) by {
            assert(s.prev_ok(img, y, i));
        }
        assert forall|i: int| 0 <= i < x implies #[trigger] s2.cur_ok(img, y, i) by {
            assert(s.cur_ok(img, y, i));
        }
    }
    assert forall|l: int| 0 < l < s2.n() implies #[trigger] s2.lab_geom(x, y, l) by {
        assert(s.lab_geom(x, y, l));
        if s2.comps[l].valid {
            if s.comps[l].ymax() == y {
                assert(s.cur_ok(img, y, s.comps[l].max_x as int));
            } else {
                assert(s.prev_ok(img, y, s.comps[l].max_x as int));
            }
            if b.ymax() == y {
                assert(s.cur_ok(img, y, b.max_x as int));
            } else {
                assert(s.prev_ok(img, y, b.max_x as int));
            }
        }
    }
}

/// A merge joins two lists of children and leaves every other list alone.
#[verifier::rlimit(40)]
pub proof fn lemma_merge_tree(s: State, sv: int, v: int)
    requires
        s.shape(),
        s.tags_ok(),
        s.tree_ok(),
        s.live(sv),
        s.live(v),
        sv != v,
        s.comps[sv].color == s.comps[v].color,
    ensures
        s.merge(sv, v).tree_ok(),
{
    let s2 = s.merge(sv, v);
    let a = s.comps[sv];
    let b = s.comps[v];
    let kv = s.kids[v];
    let ks = s.kids[sv];
    let both = a.child.is_some() && b.child.is_some();
    let cut = b.last_child as int;
    assert(s.lab_kids(sv));
    assert(s.lab_kids(v));
    assert(s.lab_tag(sv));
    assert(s.lab_tag(v));
    // the one record of `out` that a merge writes to is the last child of `v`
    assert forall|k: int| 0 <= k < s.out.len() && !(both && k == cut) implies s2.out[k] == s.out[k] by {}
    assert(both ==> cut == kv[kv.len() - 1] && s.par[cut] == v && s.pos[cut] == kv.len() - 1);
    assert forall|k: int| 0 <= k < s.out.len() implies (#[trigger] s2.out[k]).child == s.out[k].child
        && s2.out[k].last_child == s.out[k].last_child && s2.out[k].color == s.out[k].color
        && s2.out[k].area == s.out[k].area && s2.out[k].valid == s.out[k].valid
        && s2.out[k].bounding_box == s.out[k].bounding_box by {}

    assert forall|l: int| 0 <= l < s2.n() implies #[trigger] s2.lab_kids(l) by {
        assert(s.lab_kids(l));
        if l == sv {
            let k2 = kv + ks;
            assert(s2.kids[sv] == k2);
            assert forall|j: int| 0 <= j < k2.len() implies 0 <= #[trigger] k2[j] < s2.out.len()
                && link_ok(s2.out, k2, j) && s2.par[k2[j]] == sv && s2.pos[k2[j]] == j by {
                if j < kv.len() {
                    assert(k2[j] == kv[j]);
                    assert(link_ok(s.out, kv, j));
                    if j + 1 < kv.len() {
                        assert(k2[j + 1] == kv[j + 1]);
                    } else if ks.len() > 0 {
                        assert(k2[j + 1] == ks[0]);
                    }
                } else {
                    assert(k2[j] == ks[j - kv.len()]);
                    assert(link_ok(s.out, ks, j - kv.len()));
                    if j + 1 < k2.len() {
                        assert(k2[j + 1] == ks[j + 1 - kv.len()]);
                    }
                }
            }
        } else if l == v {
        } else {
            assert forall|j: int| 0 <= j < s.kids[l].len() implies link_ok(s2.out, s2.kids[l], j) by {
                assert(link_ok(s.out, s.kids[l], j));
                assert(s.par[s.kids[l][j]] == l);
            }
        }
    }
    assert forall|i: int| 0 <= i < s2.out.len() implies #[trigger] s2.out_kids(i) by {
        assert(s.out_kids(i));
        assert forall|j: int| 0 <= j < s.okids[i].len() implies link_ok(s2.out, s2.okids[i], j) by {
            assert(link_ok(s.out, s.okids[i], j));
            assert(s.par[s.okids[i][j]] == -1 - i);
        }
    }
    assert forall|k: int| 0 <= k < s2.out.len() implies #[trigger] s2.out_par(k) by {
        assert(s.out_par(k));
        let p = s.par[k];
        if p == v {
            assert((kv + ks)[s.pos[k]] == kv[s.pos[k]]);
        } else if p == sv {
            assert((kv + ks)[s.pos[k] + kv.len()] == ks[s.pos[k]]);
        }
    }
}

/// There are fewer closed components than scanned pixels that lie in them.
pub proof fn lemma_out_len(s: State, done: int)
    requires
        s.tree_ok(),
        s.acct_ok(done),
    ensures
        s.out.len() <= total_area(s.out),
{
    assert forall|k: int| 0 <= k < s.out.len() implies (#[trigger] s.out[k]).area >= 1 by {
        assert(s.out_par(k));
    }
    lemma_len_le_total_area(s.out);
}

/// The component `t` above the pixel `(x, y)` ends on the row above, at or
/// left of `x`: it is closed and becomes the first child of the component
/// `cl` of the pixel.
#[verifier::rlimit(40)]
pub proof fn lemma_close(s: State, img: Raster, x: int, y: int, done: int, cl: int, t: int)
    requires
        s.mid(img, x, y, done, cl, t),
        done <= 0xffff_ffff,
        t >= 0,
        s.comps[t].ymax() < y,
        s.comps[t].max_x <= x,
    ensures
        s.close(t, cl).mid(img, x, y, done, cl, -1),
        s.out.len() < 0xffff_ffff,
        t != cl,
        s.comps[cl].zom + s.comps[t].zom <= u64::MAX,
        s.comps[cl].fom[0] + s.comps[t].fom[0] <= u64::MAX,
        s.comps[cl].fom[1] + s.comps[t].fom[1] <= u64::MAX,
{
    let s2 = s.close(t, cl);
    let a = s.comps[t];
    let b = s.comps[cl];
    let b2 = s2.comps[cl];
    let idx = s.out.len() as int;
    assert(t != 0);
    assert(s.lab_tag(cl));
    assert(s.lab_tag(t));
    assert(s.lab_acct(cl));
    assert(s.lab_acct(t));
    assert(s.lab_kids(cl));
    assert(s.lab_kids(t));
    assert(s.lab_geom_mid(x, y, cl, t, t));
    assert(cl != 0 ==> s.lab_geom_mid(x, y, cl, t, cl));
    assert(a.ymax() == y - 1 && a.max_x == x);
    lemma_out_len(s, done);
    lemma_area_le_total(s.comps, t);
    assert(idx < 0xffff_ffff);
    lemma_two_le_total(s.mass, cl, t);
    lemma_moment_sum(b.fom[0] as int, a.fom[0] as int, s.w, s.mass[cl] as int, s.mass[t] as int);
    lemma_moment_sum(b.fom[1] as int, a.fom[1] as int, s.h, s.mass[cl] as int, s.mass[t] as int);
    lemma_moment_fits(s.w, (s.mass[cl] + s.mass[t]) as int);
    lemma_moment_fits(s.h, (s.mass[cl] + s.mass[t]) as int);
    assert(b2.zom == b.zom + a.zom);
    assert(b2.fom[0] == b.fom[0] + a.fom[0]);
    assert(b2.fom[1] == b.fom[1] + a.fom[1]);
    assert(b2.child == Some(idx as u32));
    assert(s2.shape());

    assert forall|l: int| 0 <= l < s2.n() implies #[trigger] s2.lab_tag(l) by {
        assert(s.lab_tag(l));
    }
    assert(s2.pool_ok()) by {
        assert forall|i: int| 0 <= i < s2.free.len() implies #[trigger] s2.free_ok(i) by {
            assert(s.free_ok(i));
        }
        assert forall|i: int| 0 <= i < s2.retired.len() implies #[trigger] s2.retired_ok(i) by {
            if i < s.retired.len() {
                assert(s.retired_ok(i));
            }
        }
        assert forall|i: int, j: int| 0 <= i < j < s2.retired.len() implies (
        #[trigger] s2.retired[i]).label != (#[trigger] s2.retired[j]).label by {
            assert(s.retired_ok(i));
        }
    }
    assert(s2.acct_ok(done)) by {
        let mid_comps = s.comps.update(cl, s.parent_of(t, cl));
        lemma_total_area_update(s.comps, cl, s.parent_of(t, cl));
        lemma_total_area_update(mid_comps, t, FeatureVector::blank(a.merge));
        lemma_total_area_push(s.out, s.sealed(t, cl));
        let mid_mass = s.mass.update(cl, s.mass[cl] + s.mass[t]);
        lemma_total_update(s.mass, cl, s.mass[cl] + s.mass[t]);
        lemma_total_update(mid_mass, t, 0);
        assert forall|l: int| 0 <= l < s2.n() implies #[trigger] s2.lab_acct(l) by {
            assert(s.lab_acct(l));
        }
    }
    assert(s2.weigh_ok(done)) by {
        let mid_mass = s.mass.update(cl, s.mass[cl] + s.mass[t]);
        lemma_total_update(s.mass, cl, s.mass[cl] + s.mass[t]);
        lemma_total_update(mid_mass, t, 0);
        assert(s.lab_mass(cl));
        assert(s.lab_mass(t));
        lemma_kids_mass_one(s2.omass, idx);
        lemma_kids_mass_concat(s2.omass, seq![idx], s.kids[cl]);
        assert forall|l: int| 0 <= l < s2.n() implies #[trigger] s2.lab_mass(l) by {
            assert(s.lab_mass(l));
            assert(s.lab_kids(l));
            lemma_kids_mass_frame(s.omass, s2.omass, s.kids[l]);
        }
        assert forall|i: int| 0 <= i < s2.out.len() implies #[trigger] s2.out_mass(i) by {
            if i < idx {
                assert(s.out_mass(i));
                assert(s.out_kids(i));
                lemma_kids_mass_frame(s.omass, s2.omass, s.okids[i]);
            } else {
                lemma_kids_mass_frame(s.omass, s2.omass, s.kids[t]);
            }
        }
        lemma_le_total(s.mass, t);
        assert forall|i: int| 0 <= i < s2.out.len() implies #[trigger] s2.omass[i] <= done by {
            if i < idx {
                assert(s.omass[i] <= done);
            }
        }
    }
    lemma_close_tree(s, t, cl, y);
    assert(s2.front_ok(img, x, x + 1, y)) by {
        assert forall|i: int| x + 1 <= i < s2.w implies #[trigger] s2.prev_ok(img, y, i) by {
            assert(s.prev_ok(img, y, i));
        }
        assert forall|i: int| 0 <= i < x implies #[trigger] s2.cur_ok(img, y, i) by {
            assert(s.cur_ok(img, y, i));
        }
    }
    assert forall|l: int| 0 < l < s2.n() implies #[trigger] s2.lab_geom_mid(x, y, cl, -1, l) by {
        assert(s.lab_geom_mid(x, y, cl, t, l));
        if s2.comps[l].valid && l != cl {
            if s.comps[l].ymax() == y {
                assert(s.cur_ok(img, y, s.comps[l].max_x as int));
            } else {
                assert(s.prev_ok(img, y, s.comps[l].max_x as int));
            }
        }
    }
}

/// Closing a component hands its children to its closed record, puts that
/// record in front of the children of its parent, and leaves every other
/// list alone.
#[verifier::rlimit(40)]
pub proof fn lemma_close_tree(s: State, t: int, cl: int, y: int)
    requires
        s.shape(),
        s.tags_ok(),
        s.tree_ok(),
        s.live(t),
        s.live(cl),
        t != cl,
        s.comps[t].color != s.comps[cl].color,
        s.comps[t].within(s.w, s.h),
        s.comps[t].ymax() < s.comps[cl].ymax(),
        s.out.len() < 0xffff_ffff,
    ensures
        s.close(t, cl).tree_ok(),
{
    let s2 = s.close(t, cl);
    let a = s.comps[t];
    let b = s.comps[cl];
    let idx = s.out.len() as int;
    let kt = s.kids[t];
    let kc = s.kids[cl];
    assert(s.lab_kids(cl));
    assert(s.lab_kids(t));
    assert(s.lab_tag(cl));
    assert(s.lab_tag(t));
    assert forall|k: int| 0 <= k < s.out.len() implies s2.out[k] == s.out[k] by {}
    assert(s2.out[idx] == s.sealed(t, cl));

    assert forall|l: int| 0 <= l < s2.n() implies #[trigger] s2.lab_kids(l) by {
        assert(s.lab_kids(l));
        if l == cl {
            let k2 = seq![idx] + kc;
            assert(s2.kids[cl] == k2);
            assert(k2[0] == idx);
            assert forall|j: int| 0 <= j < k2.len() implies 0 <= #[trigger] k2[j] < s2.out.len()
                && link_ok(s2.out, k2, j) && s2.par[k2[j]] == cl && s2.pos[k2[j]] == j by {
                if j == 0 {
                    if kc.len() > 0 {
                        assert(k2[1] == kc[0]);
                    }
                } else {
                    assert(k2[j] == kc[j - 1]);
                    assert(link_ok(s.out, kc, j - 1));
                    if j + 1 < k2.len() {
                        assert(k2[j + 1] == kc[j]);
                    }
                }
            }
        } else if l == t {
        } else {
            assert forall|j: int| 0 <= j < s.kids[l].len() implies link_ok(s2.out, s2.kids[l], j) by {
                assert(link_ok(s.out, s.kids[l], j));
            }
        }
    }
    assert forall|i: int| 0 <= i < s2.out.len() implies #[trigger] s2.out_kids(i) by {
        if i < idx {
            assert(s.out_kids(i));
            assert forall|j: int| 0 <= j < s.okids[i].len() implies link_ok(s2.out, s2.okids[i], j) by {
                assert(link_ok(s.out, s.okids[i], j));
            }
        } else {
            assert(s2.okids[idx] == kt);
            assert forall|j: int| 0 <= j < kt.len() implies link_ok(s2.out, kt, j) by {
                assert(link_ok(s.out, kt, j));
            }
        }
    }
    assert forall|k: int| 0 <= k < s2.out.len() implies #[trigger] s2.out_par(k) by {
        if k < idx {
            assert(s.out_par(k));
            let p = s.par[k];
            if p == cl {
                assert((seq![idx] + kc)[s.pos[k] + 1] == kc[s.pos[k]]);
            }
        } else {
            assert((seq![idx] + kc)[0] == idx);
        }
    }
}

/// Before the first pixel everything holds.
pub proof fn lemma_start(w: u32, h: u32, img: Raster)
    requires
        w <= 0xff_ffff,
        h <= 0xff_ffff,
    ensures
        State::start(w, h).inv(img, 0, 0, 0),
{
    let s = State::start(w, h);
    assert(s.comps[0] == FeatureVector::backdrop(w, h));
    assert(s.shape());
    assert forall|l: int| 0 <= l < s.n() implies #[trigger] s.lab_tag(l) by {}
    assert(s.pool_ok()) by {
        assert forall|i: int| 0 <= i < s.free.len() implies #[trigger] s.free_ok(i) by {}
    }
    assert(s.acct_ok(0)) by {
        lemma_total_area_zero(s.comps);
        lemma_total_zero(s.mass);
        assert forall|l: int| 0 <= l < s.n() implies #[trigger] s.lab_acct(l) by {
            assert(255 * s.w * 0 == 0);
            assert(255 * s.h * 0 == 0);
        }
    }
    assert(s.weigh_ok(0)) by {
        lemma_total_zero(s.mass);
        assert forall|l: int| 0 <= l < s.n() implies #[trigger] s.lab_mass(l) by {}
    }
    assert(s.tree_ok()) by {
        assert forall|l: int| 0 <= l < s.n() implies #[trigger] s.lab_kids(l) by {}
    }
    assert(s.front_ok(img, 0, 0, 0)) by {
        assert forall|i: int| 0 <= i < s.w implies #[trigger] s.prev_ok(img, 0, i) by {}
    }
    assert forall|l: int| 0 < l < s.n() implies #[trigger] s.lab_geom(0, 0, l) by {}
}

/// At the end of a row, the label written down for a pixel is replaced by
/// the label in use that stands for it.
pub proof fn lemma_settle(s: State, img: Raster, y: int, done: int, i: int)
    requires
        s.base(img, s.w, y, done),
        0 <= i < s.w,
    ensures
        s.settle(i).base(img, s.w, y, done),
        s.settle(i).comps[s.settle(i).cur[i].label as int].valid,
{
    let s2 = s.settle(i);
    let x = s.w;
    assert(s.cur_ok(img, y, i));
    let o = s.rep[s.cur[i].label as int];
    assert(s.lab_tag(o));
    assert forall|l: int| 0 <= l < s2.n() implies #[trigger] s2.lab_tag(l) by {
        assert(s.lab_tag(l));
    }
    assert(s2.pool_ok()) by {
        assert forall|k: int| 0 <= k < s2.free.len() implies #[trigger] s2.free_ok(k) by {
            assert(s.free_ok(k));
        }
        assert forall|k: int| 0 <= k < s2.retired.len() implies #[trigger] s2.retired_ok(k) by {
            assert(s.retired_ok(k));
        }
    }
    assert(s2.acct_ok(done)) by {
        assert forall|l: int| 0 <= l < s2.n() implies #[trigger] s2.lab_acct(l) by {
            assert(s.lab_acct(l));
        }
    }
    assert(s2.weigh_ok(done)) by {
        assert forall|l: int| 0 <= l < s2.n() implies (#[trigger] s2.mass[l]) == s2.comps[l].area
            + kids_mass(s2.omass, s2.kids[l]) by {
            assert(s.lab_mass(l));
        }
        lemma_weigh_frame(s, s2, done, done);
    }
    assert(s2.tree_ok()) by {
        assert forall|l: int| 0 <= l < s2.n() implies #[trigger] s2.lab_kids(l) by {
            assert(s.lab_kids(l));
        }
        assert forall|k: int| 0 <= k < s2.out.len() implies #[trigger] s2.out_kids(k) by {
            assert(s.out_kids(k));
        }
        assert forall|k: int| 0 <= k < s2.out.len() implies #[trigger] s2.out_par(k) by {
            assert(s.out_par(k));
        }
    }
    assert(s2.front_ok(img, x, x, y)) by {
        assert forall|k: int| 0 <= k < x implies #[trigger] s2.cur_ok(img, y, k) by {
            assert(s.cur_ok(img, y, k));
        }
    }
    assert forall|l: int| 0 < l < s2.n() implies #[trigger] s2.lab_geom(x, y, l) by {
        assert(s.lab_geom(x, y, l));
    }
}

/// At the end of a row whose labels are all in use, the labels set aside go
/// back to the pool and the scan turns to the next row.
pub proof fn lemma_turn(s: State, img: Raster, y: int, done: int)
    requires
        s.base(img, s.w, y, done),
        forall|i: int| 0 <= i < s.w ==> s.comps[(#[trigger] s.cur[i]).label as int].valid,
    ensures
        s.turn().inv(img, 0, y + 1, done),
{
    let s2 = s.turn();
    let x = s.w;
    assert(s2.shape());
    assert forall|l: int| 0 <= l < s2.n() implies #[trigger] s2.lab_tag(l) by {
        assert(s.lab_tag(l));
    }
    assert(s2.pool_ok()) by {
        assert forall|k: int| 0 <= k < s2.free.len() implies #[trigger] s2.free_ok(k) by {
            if k < s.free.len() {
                assert(s.free_ok(k));
            } else {
                assert(s.retired_ok(k - s.free.len()));
            }
        }
        assert forall|i: int, j: int| 0 <= i < j < s2.free.len() implies (#[trigger] s2.free[i]).label != (
        #[trigger] s2.free[j]).label by {
            if i < s.free.len() {
                assert(s.free_ok(i));
            } else {
                assert(s.retired_ok(i - s.free.len()));
            }
            if j < s.free.len() {
                assert(s.free_ok(j));
            } else {
                assert(s.retired_ok(j - s.free.len()));
            }
        }
    }
    assert(s2.acct_ok(done)) by {
        assert forall|l: int| 0 <= l < s2.n() implies #[trigger] s2.lab_acct(l) by {
            assert(s.lab_acct(l));
        }
    }
    assert(s2.weigh_ok(done)) by {
        assert forall|l: int| 0 <= l < s2.n() implies (#[trigger] s2.mass[l]) == s2.comps[l].area
            + kids_mass(s2.omass, s2.kids[l]) by {
            assert(s.lab_mass(l));
        }
        lemma_weigh_frame(s, s2, done, done);
    }
    assert(s2.tree_ok()) by {
        assert forall|l: int| 0 <= l < s2.n() implies #[trigger] s2.lab_kids(l) by {
            assert(s.lab_kids(l));
        }
        assert forall|k: int| 0 <= k < s2.out.len() implies #[trigger] s2.out_kids(k) by {
            assert(s.out_kids(k));
        }
        assert forall|k: int| 0 <= k < s2.out.len() implies #[trigger] s2.out_par(k) by {
            assert(s.out_par(k));
        }
    }
    assert(s2.front_ok(img, 0, 0, y + 1)) by {
        assert forall|i: int| 0 <= i < s2.w implies #[trigger] s2.prev_ok(img, y + 1, i) by {
            assert(s.cur_ok(img, y, i));
            assert(s.lab_tag(s.cur[i].label as int));
        }
    }
    assert forall|l: int| 0 < l < s2.n() implies #[trigger] s2.lab_geom(0, y + 1, l) by {
        assert(s.lab_geom(x, y, l));
        if s.comps[l].valid {
            let m = s.comps[l].max_x as int;
            assert(s.cur_ok(img, y, m));
            assert(s.lab_tag(s.cur[m].label as int));
        }
    }
}

} // verus!
