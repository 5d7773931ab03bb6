//! The state of the raster scan as a mathematical value, the steps that
//! change it, and what holds of it between two pixels.

use crate::raster::Raster;
use crate::segmentation::forest::chain_ok;
use crate::segmentation::moments::{kids_moment, moment_of, moment_upto};
use crate::segmentation::regions::{closes_before, count_upto, linked, reaches_rim};
use crate::segmentation::sums::{kids_mass, total, total_area};
use crate::segmentation::{AugmentedLabel, FeatureVector};
use vstd::prelude::*;

verus! {

/// The scan between two pixels. Beside what the scan keeps at run time
/// (`comps` to `out`) it records, for the proof alone, which label stands for
/// each label (`rep`), how many pointers away it is (`dist`), where each label
/// is (`tag`: 0 in use, 1 set aside until the row ends, 2 in the pool), the
/// children of each label and of each closed component (`kids`, `okids`), the
/// parent of each closed component and its place in that parent's list
/// (`par`, `pos`; a parent that is closed is written as `-1 - index`), and how
/// many pixels lie in and below each label and each closed component
/// (`mass`, `omass`), and to which component each scanned pixel belongs
/// (`own`, with a closed component written as `-1 - index`), and for each
/// component a pixel of it with which all its pixels are linked (`anchor`,
/// `oanchor`).
#[verifier::ext_equal]
pub struct State {
    pub w: int,
    pub h: int,
    pub comps: Seq<FeatureVector>,
    pub free: Seq<AugmentedLabel>,
    pub retired: Seq<AugmentedLabel>,
    pub prev: Seq<AugmentedLabel>,
    pub cur: Seq<AugmentedLabel>,
    pub out: Seq<FeatureVector>,
    pub rep: Seq<int>,
    pub dist: Seq<nat>,
    pub tag: Seq<int>,
    pub kids: Seq<Seq<int>>,
    pub okids: Seq<Seq<int>>,
    pub par: Seq<int>,
    pub pos: Seq<int>,
    pub mass: Seq<nat>,
    pub omass: Seq<nat>,
    pub own: Map<(int, int), int>,
    pub anchor: Seq<(int, int)>,
    pub oanchor: Seq<(int, int)>,
}

/// No pixel of row `row` up to column `i` is lit.
pub open spec fn dark_prefix(img: Raster, row: int, i: int) -> bool {
    forall|k: int| 0 <= k <= i ==> !#[trigger] img.lit(k, row)
}

impl State {
    pub open spec fn n(self) -> int {
        self.comps.len() as int
    }

    pub open spec fn live(self, l: int) -> bool {
        0 <= l < self.n() && self.comps[l].valid
    }

    pub open spec fn kids_of(self, p: int) -> Seq<int> {
        if p >= 0 {
            self.kids[p]
        } else {
            self.okids[-1 - p]
        }
    }

    pub open spec fn color_of(self, p: int) -> bool {
        if p >= 0 {
            self.comps[p].color
        } else {
            self.out[-1 - p].color
        }
    }

    pub open spec fn ymax_of(self, p: int) -> int {
        if p >= 0 {
            self.comps[p].ymax()
        } else {
            self.out[-1 - p].ymax()
        }
    }

    /// The list of components that the scan hands out: the closed ones in
    /// the order in which they were closed, then the background.
    pub open spec fn result(self) -> Seq<FeatureVector> {
        self.out.push(self.comps[0])
    }

    /// The children that the proof has on record for the component `p` of the
    /// result.
    pub open spec fn listed(self, p: int) -> Seq<int> {
        if p < self.out.len() {
            self.okids[p]
        } else {
            self.kids[0]
        }
    }

    // ----- what holds of the table as a whole

    pub open spec fn shape(self) -> bool {
        &&& 0 <= self.w <= 0xff_ffff
        &&& 0 <= self.h <= 0xff_ffff
        &&& self.n() >= 1
        &&& self.rep.len() == self.n()
        &&& self.dist.len() == self.n()
        &&& self.tag.len() == self.n()
        &&& self.kids.len() == self.n()
        &&& self.mass.len() == self.n()
        &&& self.okids.len() == self.out.len()
        &&& self.par.len() == self.out.len()
        &&& self.pos.len() == self.out.len()
        &&& self.omass.len() == self.out.len()
        &&& self.prev.len() == self.w
        &&& self.comps[0].valid
        &&& !self.comps[0].color
        &&& self.comps[0].merge == (AugmentedLabel { label: 0, row: 0 })
        &&& self.comps[0].bounding_box[0] == (0u32, 0u32)
        &&& self.comps[0].bounding_box[1] == (self.w as u32, self.h as u32)
        &&& self.comps[0].max_x == self.w
    }

    /// Label `l` is in one of its three places, and resolves as `rep` says.
    pub open spec fn lab_tag(self, l: int) -> bool {
        let c = self.comps[l];
        &&& 0 <= self.tag[l] <= 2
        &&& c.valid <==> self.tag[l] == 0
        &&& c.sibling.is_none()
        &&& !c.visited
        &&& c.valid ==> c.merge.label == l && self.rep[l] == l && self.dist[l] == 0
        &&& !c.valid ==> c == FeatureVector::blank(c.merge) && self.kids[l].len() == 0 && self.mass[l] == 0
        &&& self.tag[l] == 2 ==> self.rep[l] == -1
        &&& self.rep[l] >= -1
        &&& self.rep[l] >= 0 ==> {
            &&& self.rep[l] < self.n()
            &&& self.comps[self.rep[l]].valid
            &&& !c.valid ==> {
                &&& (c.merge.label as int) < self.n()
                &&& self.rep[c.merge.label as int] == self.rep[l]
                &&& self.dist[c.merge.label as int] < self.dist[l]
            }
        }
    }

    pub open spec fn tags_ok(self) -> bool {
        forall|l: int| 0 <= l < self.n() ==> #[trigger] self.lab_tag(l)
    }

    pub open spec fn free_ok(self, i: int) -> bool {
        (self.free[i].label as int) < self.n() && self.tag[self.free[i].label as int] == 2
    }

    pub open spec fn retired_ok(self, i: int) -> bool {
        (self.retired[i].label as int) < self.n() && self.tag[self.retired[i].label as int] == 1
    }

    pub open spec fn pool_ok(self) -> bool {
        &&& forall|i: int| 0 <= i < self.free.len() ==> #[trigger] self.free_ok(i)
        &&& forall|i: int, j: int|
            0 <= i < j < self.free.len() ==> (#[trigger] self.free[i]).label != (#[trigger] self.free[j]).label
        &&& forall|i: int| 0 <= i < self.retired.len() ==> #[trigger] self.retired_ok(i)
        &&& forall|i: int, j: int|
            0 <= i < j < self.retired.len() ==> (#[trigger] self.retired[i]).label
                != (#[trigger] self.retired[j]).label
    }

    // ----- the books

    pub open spec fn lab_acct(self, l: int) -> bool {
        let c = self.comps[l];
        &&& c.area <= self.mass[l]
        &&& c.zom <= 255 * self.mass[l]
        &&& c.fom[0] <= 255 * self.w * self.mass[l]
        &&& c.fom[1] <= 255 * self.h * self.mass[l]
    }

    /// `done` pixels have been scanned: each lies in exactly one component,
    /// open or closed.
    pub open spec fn acct_ok(self, done: int) -> bool {
        &&& total_area(self.comps) + total_area(self.out) == done
        &&& total(self.mass) <= done
        &&& self.n() <= self.w + 10 + done
        &&& forall|l: int| 0 <= l < self.n() ==> #[trigger] self.lab_acct(l)
    }

    /// The pixels in and below the label `l` are its own and those in and
    /// below its children.
    pub open spec fn lab_mass(self, l: int) -> bool {
        self.mass[l] == self.comps[l].area + kids_mass(self.omass, self.kids[l])
    }

    pub open spec fn out_mass(self, i: int) -> bool {
        &&& self.omass[i] == self.out[i].area + kids_mass(self.omass, self.okids[i])
        &&& self.out[i].zom <= 255 * self.omass[i]
        &&& self.out[i].fom[0] <= 255 * self.w * self.omass[i]
        &&& self.out[i].fom[1] <= 255 * self.h * self.omass[i]
    }

    /// Every scanned pixel lies in or below exactly one label.
    pub open spec fn weigh_ok(self, done: int) -> bool {
        &&& total(self.mass) == done
        &&& forall|l: int| 0 <= l < self.n() ==> #[trigger] self.lab_mass(l)
        &&& forall|i: int| 0 <= i < self.out.len() ==> #[trigger] self.out_mass(i)
        &&& forall|i: int| 0 <= i < self.out.len() ==> #[trigger] self.omass[i] <= done
    }

    // ----- the tree

    pub open spec fn lab_kids(self, l: int) -> bool {
        &&& chain_ok(self.out, self.comps[l].child, self.comps[l].last_child, self.kids[l])
        &&& forall|j: int|
            0 <= j < self.kids[l].len() ==> self.par[#[trigger] self.kids[l][j]] == l
                && self.pos[self.kids[l][j]] == j
    }

    pub open spec fn out_kids(self, i: int) -> bool {
        &&& chain_ok(self.out, self.out[i].child, self.out[i].last_child, self.okids[i])
        &&& forall|j: int|
            0 <= j < self.okids[i].len() ==> self.par[#[trigger] self.okids[i][j]] == -1 - i
                && self.pos[self.okids[i][j]] == j
    }

    /// The closed component `k` stands in the list of its parent, which has
    /// the other color and reaches further down.
    pub open spec fn out_par(self, k: int) -> bool {
        let p = self.par[k];
        &&& self.out[k].within(self.w, self.h)
        &&& self.out[k].valid
        &&& !self.out[k].visited
        &&& -1 - self.out.len() < p < self.n()
        &&& p >= 0 ==> self.comps[p].valid
        &&& p < 0 ==> k < -1 - p
        &&& 0 <= self.pos[k] < self.kids_of(p).len()
        &&& self.kids_of(p)[self.pos[k]] == k
        &&& self.color_of(p) != self.out[k].color
        &&& self.out[k].ymax() < self.ymax_of(p)
    }

    pub open spec fn tree_ok(self) -> bool {
        &&& forall|l: int| 0 <= l < self.n() ==> #[trigger] self.lab_kids(l)
        &&& forall|i: int| 0 <= i < self.out.len() ==> #[trigger] self.out_kids(i)
        &&& forall|k: int| 0 <= k < self.out.len() ==> #[trigger] self.out_par(k)
    }

    // ----- the front: the labels of the pixels that still have an unscanned
    // neighbor, `cur[i]` for `i < xc` on row `y` and `prev[i]` for `xp <= i`
    // on the row above

    /// The label `a` stands for the pixel `(i, row)` on the front while row
    /// `y` is scanned.
    pub open spec fn entry_ok(self, img: Raster, a: AugmentedLabel, i: int, row: int, y: int) -> bool {
        let l = a.label as int;
        let o = self.rep[l];
        &&& l < self.n()
        &&& 0 <= o < self.n()
        &&& self.comps[o].valid
        &&& self.comps[o].color == img.lit(i, row)
        &&& dark_prefix(img, row, i) ==> o == 0
        &&& o != 0 ==> {
            ||| self.comps[o].ymax() == y && (row == y ==> i <= self.comps[o].max_x)
            ||| row == y - 1 && self.comps[o].ymax() == y - 1 && i <= self.comps[o].max_x
        }
    }

    pub open spec fn prev_ok(self, img: Raster, y: int, i: int) -> bool {
        self.entry_ok(img, self.prev[i], i, y - 1, y)
    }

    pub open spec fn cur_ok(self, img: Raster, y: int, i: int) -> bool {
        self.entry_ok(img, self.cur[i], i, y, y)
    }

    pub open spec fn front_ok(self, img: Raster, xc: int, xp: int, y: int) -> bool {
        &&& 0 <= xc <= xp <= self.w
        &&& 0 <= y
        &&& self.cur.len() == xc
        &&& forall|i: int| xp <= i < self.w ==> #[trigger] self.prev_ok(img, y, i)
        &&& forall|i: int| 0 <= i < xc ==> #[trigger] self.cur_ok(img, y, i)
    }

    // ----- where each open component ends

    pub open spec fn sane(self, l: int) -> bool {
        self.comps[l].within(self.w, self.h)
    }

    /// The rightmost pixel on the lowest row of the open component `l` is on
    /// the front and still resolves to `l`.
    pub open spec fn placed(self, xc: int, xp: int, y: int, l: int) -> bool {
        let c = self.comps[l];
        ||| c.ymax() == y && c.max_x < xc && self.rep[self.cur[c.max_x as int].label as int] == l
        ||| c.ymax() == y - 1 && xp <= c.max_x && self.rep[self.prev[c.max_x as int].label as int] == l
    }

    pub open spec fn lab_geom(self, x: int, y: int, l: int) -> bool {
        self.comps[l].valid ==> self.sane(l) && self.placed(x, x, y, l)
    }

    pub open spec fn geom_ok(self, x: int, y: int) -> bool {
        forall|l: int| 0 < l < self.n() ==> #[trigger] self.lab_geom(x, y, l)
    }

    /// As `lab_geom`, after the pixel `(x, y)` has gone to the label `cl` and
    /// before the component above it, `t`, has been looked at.
    pub open spec fn lab_geom_mid(self, x: int, y: int, cl: int, t: int, l: int) -> bool {
        let c = self.comps[l];
        c.valid ==> self.sane(l) && if l == cl {
            c.ymax() == y && c.max_x == x
        } else {
            ||| self.placed(x, x + 1, y, l)
            ||| l == t && c.ymax() == y - 1 && c.max_x == x
        }
    }

    pub open spec fn geom_mid(self, x: int, y: int, cl: int, t: int) -> bool {
        forall|l: int| 0 < l < self.n() ==> #[trigger] self.lab_geom_mid(x, y, cl, t, l)
    }

    // ----- all of it

    /// What holds before the pixel `(x, y)` has gone to a label.
    pub open spec fn base(self, img: Raster, x: int, y: int, done: int) -> bool {
        &&& self.shape()
        &&& self.tags_ok()
        &&& self.pool_ok()
        &&& self.acct_ok(done)
        &&& self.weigh_ok(done)
        &&& self.tree_ok()
        &&& self.front_ok(img, x, x, y)
        &&& self.geom_ok(x, y)
    }

    /// What holds between two pixels: beside `base`, the label of the pixel
    /// scanned last is in use.
    pub open spec fn inv(self, img: Raster, x: int, y: int, done: int) -> bool {
        &&& self.base(img, x, y, done)
        &&& x > 0 ==> self.comps[self.cur[x - 1].label as int].valid
    }

    /// What holds once the pixel `(x, y)` has gone to the label `cl`; `t`
    /// owned the pixel above it, and `-1` stands for a `t` that needs no
    /// further look.
    pub open spec fn mid(self, img: Raster, x: int, y: int, done: int, cl: int, t: int) -> bool {
        &&& self.shape()
        &&& self.tags_ok()
        &&& self.pool_ok()
        &&& self.acct_ok(done)
        &&& self.weigh_ok(done)
        &&& self.tree_ok()
        &&& self.front_ok(img, x, x + 1, y)
        &&& self.geom_mid(x, y, cl, t)
        &&& x < self.w
        &&& y < self.h
        &&& self.live(cl)
        &&& self.comps[cl].color == img.lit(x, y)
        &&& dark_prefix(img, y, x) ==> cl == 0
        &&& t >= 0 ==> {
            &&& self.live(t)
            &&& t != cl
            &&& self.comps[t].color != self.comps[cl].color
            &&& t != 0 ==> self.comps[t].ymax() == y || (self.comps[t].ymax() == y - 1 && x
                <= self.comps[t].max_x)
        }
    }

    // ----- who owns which pixel

    /// The pixel `(i, j)` has been scanned when `nx` pixels of row `y` have.
    pub open spec fn scanned(self, nx: int, y: int, i: int, j: int) -> bool {
        0 <= i < self.w && 0 <= j && (j < y || (j == y && i < nx))
    }

    /// `c` stands for a label in use or for a closed component.
    pub open spec fn code_ok(self, c: int) -> bool {
        if c >= 0 {
            c < self.n() && self.comps[c].valid
        } else {
            -1 - c < self.out.len()
        }
    }

    /// The pixel of the component `c` with which all its pixels are linked.
    pub open spec fn anchor_of(self, c: int) -> (int, int) {
        if c >= 0 {
            self.anchor[c]
        } else {
            self.oanchor[-1 - c]
        }
    }

    /// The pixel `(i, j)` belongs to a component of its color, and to the
    /// same one as the pixel to its left and the pixel above it, where they
    /// have its color; unless it belongs to the background, it is linked
    /// with the anchor of its component.
    pub open spec fn pixel_ok(self, bin: Raster, i: int, j: int) -> bool {
        let c = self.own[(i, j)];
        &&& self.own.dom().contains((i, j))
        &&& bin.contains(i, j)
        &&& self.code_ok(c)
        &&& self.color_of(c) == bin.lit(i, j)
        &&& i > 0 && bin.lit(i - 1, j) == bin.lit(i, j) ==> self.own[(i - 1, j)] == c
        &&& j > 0 && bin.lit(i, j - 1) == bin.lit(i, j) ==> self.own[(i, j - 1)] == c
        &&& c != 0 ==> linked(bin, (i, j), self.anchor_of(c))
    }

    /// The area of the label `l` is the number of its pixels.
    pub open spec fn lab_count(self, nx: int, y: int, l: int) -> bool {
        self.comps[l].area == count_upto(self.own, l, self.w as nat, nx as nat, y as nat)
    }

    /// The area of the closed component `k` is the number of its pixels.
    pub open spec fn out_count(self, nx: int, y: int, k: int) -> bool {
        self.out[k].area == count_upto(self.own, -1 - k, self.w as nat, nx as nat, y as nat)
    }

    /// The pixel `(i, j)` belongs to the component `c`.
    pub open spec fn owned(self, c: int, i: int, j: int) -> bool {
        self.own[(i, j)] == c
    }

    /// The pixels of the component `c` lie in the box of `fv`, and on its
    /// lowest row none of them lies right of `max_x`.
    pub open spec fn fits_box(self, nx: int, y: int, c: int, fv: FeatureVector) -> bool {
        forall|i: int, j: int|
            self.scanned(nx, y, i, j) && #[trigger] self.owned(c, i, j) ==> fv.xmin() <= i <= fv.xmax()
                && fv.ymin() <= j <= fv.ymax() && (j == fv.ymax() ==> i <= fv.max_x)
    }

    /// The component `c` has a pixel on the left side, on the right side
    /// and on the upper side of the box of `fv`.
    pub open spec fn touches(self, nx: int, y: int, c: int, fv: FeatureVector) -> bool {
        &&& exists|i: int, j: int| self.scanned(nx, y, i, j) && #[trigger] self.owned(c, i, j) && i == fv.xmin()
        &&& exists|i: int, j: int| self.scanned(nx, y, i, j) && #[trigger] self.owned(c, i, j) && i == fv.xmax()
        &&& exists|i: int, j: int| self.scanned(nx, y, i, j) && #[trigger] self.owned(c, i, j) && j == fv.ymin()
    }

    /// The box of the label `l` is the box of its pixels.
    pub open spec fn lab_box(self, nx: int, y: int, l: int) -> bool {
        l != 0 && self.comps[l].valid ==> self.fits_box(nx, y, l, self.comps[l]) && self.touches(
            nx,
            y,
            l,
            self.comps[l],
        )
    }

    /// The box of the closed component `k` is the box of its pixels, and
    /// its last pixel is the rightmost of its lowest row.
    pub open spec fn out_box(self, nx: int, y: int, k: int) -> bool {
        &&& self.fits_box(nx, y, -1 - k, self.out[k])
        &&& self.touches(nx, y, -1 - k, self.out[k])
        &&& self.scanned(nx, y, self.out[k].max_x as int, self.out[k].ymax())
        &&& self.owned(-1 - k, self.out[k].max_x as int, self.out[k].ymax())
    }

    /// The pixel below the last pixel of the closed component `k` belongs
    /// to its parent.
    pub open spec fn out_below(self, nx: int, y: int, k: int) -> bool {
        let i = self.out[k].max_x as int;
        let j = self.out[k].ymax() + 1;
        self.scanned(nx, y, i, j) && self.own[(i, j)] == self.par[k]
    }

    /// The owners of the scanned pixels are in order, and the pixels on the
    /// front belong to the labels that their entries resolve to.
    pub open spec fn own_ok(self, bin: Raster, nx: int, xc: int, xp: int, y: int) -> bool {
        &&& bin.width == self.w
        &&& bin.height() == self.h
        &&& 0 <= nx <= self.w
        &&& 0 <= y <= self.h
        &&& nx > 0 ==> y < self.h
        &&& self.anchor.len() == self.n()
        &&& self.oanchor.len() == self.out.len()
        &&& forall|l: int| 0 <= l < self.n() ==> #[trigger] self.lab_count(nx, y, l)
        &&& forall|k: int| 0 <= k < self.out.len() ==> #[trigger] self.out_count(nx, y, k)
        &&& forall|k: int| 0 <= k < self.out.len() ==> #[trigger] self.out_below(nx, y, k)
        &&& forall|l: int| 0 <= l < self.n() ==> #[trigger] self.lab_box(nx, y, l)
        &&& forall|k: int| 0 <= k < self.out.len() ==> #[trigger] self.out_box(nx, y, k)
        &&& forall|k: int, m: int|
            0 <= k < m < self.out.len() ==> closes_before(#[trigger] self.out[k], #[trigger] self.out[m])
        &&& forall|i: int, j: int| self.scanned(nx, y, i, j) ==> #[trigger] self.pixel_ok(bin, i, j)
        &&& forall|i: int|
            xp <= i < self.w && y >= 1 ==> self.own[(i, y - 1)] == self.rep[(#[trigger] self.prev[i]).label as int]
        &&& forall|i: int| 0 <= i < xc ==> self.own[(i, y)] == self.rep[(#[trigger] self.cur[i]).label as int]
    }

    /// The background has the dark pixels of the uppermost row and of the
    /// leftmost column, and each of its pixels is linked with one of them.
    pub open spec fn rim_pixel(self, bin: Raster, i: int, j: int) -> bool {
        &&& (i == 0 || j == 0) && !bin.lit(i, j) ==> self.own[(i, j)] == 0
        &&& self.own[(i, j)] == 0 ==> reaches_rim(bin, i, j)
    }

    pub open spec fn rim_ok(self, bin: Raster, nx: int, y: int) -> bool {
        forall|i: int, j: int| self.scanned(nx, y, i, j) ==> #[trigger] self.rim_pixel(bin, i, j)
    }

    /// The moment `which` of the label `l` is that of its pixels and of its
    /// children.
    pub open spec fn lab_moment(self, bin: Raster, grey: Raster, nx: int, y: int, l: int, which: int) -> bool {
        moment_of(self.comps[l], which) == moment_upto(
            bin,
            grey,
            self.own,
            l,
            which,
            self.w as nat,
            nx as nat,
            y as nat,
        ) + kids_moment(self.out, self.kids[l], which)
    }

    /// The moment `which` of the closed component `k` is that of its pixels
    /// and of its children.
    pub open spec fn out_moment(self, bin: Raster, grey: Raster, nx: int, y: int, k: int, which: int) -> bool {
        moment_of(self.out[k], which) == moment_upto(
            bin,
            grey,
            self.own,
            -1 - k,
            which,
            self.w as nat,
            nx as nat,
            y as nat,
        ) + kids_moment(self.out, self.okids[k], which)
    }

    /// Every moment is the sum of what the pixels of its component and the
    /// moments of its children add to it.
    pub open spec fn sums_ok(self, bin: Raster, grey: Raster, nx: int, y: int) -> bool {
        &&& forall|l: int, which: int|
            0 <= l < self.n() && 0 <= which <= 2 ==> #[trigger] self.lab_moment(bin, grey, nx, y, l, which)
        &&& forall|k: int, which: int|
            0 <= k < self.out.len() && 0 <= which <= 2 ==> #[trigger] self.out_moment(bin, grey, nx, y, k, which)
    }

    /// The place in the result of the component `c`; -1 for a component
    /// that the end of the scan has left open.
    pub open spec fn final_index(self, c: int) -> int {
        if c < 0 {
            -1 - c
        } else if c == 0 {
            self.out.len() as int
        } else {
            -1
        }
    }

    /// For each pixel, the place in the result of its component.
    pub open spec fn segments(self) -> Map<(int, int), int> {
        Map::new(|p: (int, int)| self.own.dom().contains(p), |p: (int, int)| self.final_index(self.own[p]))
    }

    /// The owners after all pixels of `from` have gone to `to`.
    pub open spec fn moved(self, from: int, to: int) -> Map<(int, int), int> {
        Map::new(
            |p: (int, int)| self.own.dom().contains(p),
            |p: (int, int)|
                if self.own[p] == from {
                    to
                } else {
                    self.own[p]
                },
        )
    }

    // ----- the steps

    /// The pixel `(x, y)` joins the label `l`.
    pub open spec fn add(self, l: int, x: u32, y: u32, value: u32, color: bool) -> State {
        State {
            comps: self.comps.update(l, self.comps[l].with_pixel(x, y, value, color)),
            mass: self.mass.update(l, self.mass[l] + 1),
            own: self.own.insert((x as int, y as int), l),
            ..self
        }
    }

    /// The pixel `(x, y)` starts a component under the first label of the
    /// pool.
    pub open spec fn take(self, x: u32, y: u32, value: u32, color: bool) -> State {
        let l = self.free[0].label as int;
        let own = AugmentedLabel { label: self.free[0].label, row: y };
        State {
            comps: self.comps.update(l, FeatureVector::single(x, y, value, color, own)),
            free: self.free.subrange(1, self.free.len() as int),
            rep: self.rep.update(l, l),
            dist: self.dist.update(l, 0),
            tag: self.tag.update(l, 0),
            mass: self.mass.update(l, 1),
            own: self.own.insert((x as int, y as int), l),
            anchor: self.anchor.update(l, (x as int, y as int)),
            ..self
        }
    }

    /// The pixel `(x, y)` starts a component under a label that the table
    /// did not have yet.
    pub open spec fn grow(self, x: u32, y: u32, value: u32, color: bool) -> State {
        let l = self.n();
        let own = AugmentedLabel { label: l as u32, row: y };
        State {
            comps: self.comps.push(FeatureVector::single(x, y, value, color, own)),
            rep: self.rep.push(l),
            dist: self.dist.push(0),
            tag: self.tag.push(0),
            kids: self.kids.push(Seq::empty()),
            mass: self.mass.push(1),
            own: self.own.insert((x as int, y as int), l),
            anchor: self.anchor.push((x as int, y as int)),
            ..self
        }
    }

    /// The record of `sv` once it has taken over `v`: the children of `v`
    /// come first.
    pub open spec fn joined(self, sv: int, v: int) -> FeatureVector {
        let a = self.comps[sv];
        let b = self.comps[v];
        FeatureVector {
            child: if b.child.is_some() {
                b.child
            } else {
                a.child
            },
            last_child: if a.child.is_some() || b.child.is_none() {
                a.last_child
            } else {
                b.last_child
            },
            ..a.absorbed(b)
        }
    }

    /// The closed components after `sv` has taken over `v`: the last child of
    /// `v` is linked to the first of `sv`.
    pub open spec fn spliced(self, sv: int, v: int) -> Seq<FeatureVector> {
        let a = self.comps[sv];
        let b = self.comps[v];
        if a.child.is_some() && b.child.is_some() {
            self.out.update(
                b.last_child as int,
                FeatureVector {
                    sibling: a.child,
                    last_sibling: a.last_child,
                    ..self.out[b.last_child as int]
                },
            )
        } else {
            self.out
        }
    }

    /// The label `sv` takes over the label `v`.
    pub open spec fn merge(self, sv: int, v: int) -> State {
        State {
            comps: self.comps.update(sv, self.joined(sv, v)).update(
                v,
                FeatureVector::blank(self.comps[sv].merge),
            ),
            out: self.spliced(sv, v),
            retired: self.retired.push(self.comps[v].merge),
            rep: Seq::new(
                self.rep.len(),
                |l: int|
                    if self.rep[l] == v {
                        sv
                    } else {
                        self.rep[l]
                    },
            ),
            dist: Seq::new(
                self.dist.len(),
                |l: int|
                    if self.rep[l] == v {
                        self.dist[l] + 1
                    } else {
                        self.dist[l]
                    },
            ),
            tag: self.tag.update(v, 1),
            kids: self.kids.update(sv, self.kids[v] + self.kids[sv]).update(v, Seq::empty()),
            par: Seq::new(
                self.par.len(),
                |k: int|
                    if self.par[k] == v {
                        sv
                    } else {
                        self.par[k]
                    },
            ),
            pos: Seq::new(
                self.pos.len(),
                |k: int|
                    if self.par[k] == sv {
                        self.pos[k] + self.kids[v].len()
                    } else {
                        self.pos[k]
                    },
            ),
            mass: self.mass.update(sv, self.mass[sv] + self.mass[v]).update(v, 0),
            own: self.moved(v, sv),
            ..self
        }
    }

    /// The record under which `t` is closed into `c`: it is put in front of
    /// the children that `c` has.
    pub open spec fn sealed(self, t: int, c: int) -> FeatureVector {
        FeatureVector { sibling: self.comps[c].child, ..self.comps[t] }
    }

    /// The record of `c` once `t` has been closed into it: it takes the
    /// moments of `t` on top of its own.
    pub open spec fn parent_of(self, t: int, c: int) -> FeatureVector {
        let a = self.comps[t];
        let b = self.comps[c];
        FeatureVector {
            zom: (b.zom + a.zom) as u64,
            fom: [(b.fom[0] + a.fom[0]) as u64, (b.fom[1] + a.fom[1]) as u64],
            child: Some(self.out.len() as u32),
            last_child: if b.child.is_some() {
                b.last_child
            } else {
                self.out.len() as u32
            },
            ..b
        }
    }

    /// The component `t` is closed and becomes the first child of `c`.
    pub open spec fn close(self, t: int, c: int) -> State {
        let idx = self.out.len() as int;
        State {
            out: self.out.push(self.sealed(t, c)),
            comps: self.comps.update(c, self.parent_of(t, c)).update(
                t,
                FeatureVector::blank(self.comps[t].merge),
            ),
            retired: self.retired.push(self.comps[t].merge),
            rep: Seq::new(
                self.rep.len(),
                |l: int|
                    if self.rep[l] == t {
                        -1
                    } else {
                        self.rep[l]
                    },
            ),
            tag: self.tag.update(t, 1),
            kids: self.kids.update(c, seq![idx] + self.kids[c]).update(t, Seq::empty()),
            okids: self.okids.push(self.kids[t]),
            omass: self.omass.push(self.mass[t]),
            par: Seq::new(
                self.par.len() + 1,
                |k: int|
                    if k == idx {
                        c
                    } else if self.par[k] == t {
                        -1 - idx
                    } else {
                        self.par[k]
                    },
            ),
            pos: Seq::new(
                self.pos.len() + 1,
                |k: int|
                    if k == idx {
                        0
                    } else if self.par[k] == c {
                        self.pos[k] + 1
                    } else {
                        self.pos[k]
                    },
            ),
            mass: self.mass.update(c, self.mass[c] + self.mass[t]).update(t, 0),
            own: self.moved(t, -1 - idx),
            oanchor: self.oanchor.push(self.anchor[t]),
            ..self
        }
    }

    /// The label `l` is written down for the pixel just scanned.
    pub open spec fn note(self, l: int) -> State {
        State { cur: self.cur.push(self.comps[l].merge), ..self }
    }

    /// The label written down for the pixel in column `i` is replaced by the
    /// label that stands for it.
    pub open spec fn settle(self, i: int) -> State {
        State {
            cur: self.cur.update(i, self.comps[self.rep[self.cur[i].label as int]].merge),
            ..self
        }
    }

    /// The scan before the first pixel of a raster of `w` by `h` pixels: the
    /// background under label 0, and `w + 9` more labels in the pool.
    pub open spec fn start(w: u32, h: u32) -> State {
        State {
            w: w as int,
            h: h as int,
            comps: Seq::new(
                (w + 10) as nat,
                |l: int|
                    if l == 0 {
                        FeatureVector::backdrop(w, h)
                    } else {
                        FeatureVector::blank(AugmentedLabel { label: l as u32, row: 0 })
                    },
            ),
            free: Seq::new((w + 9) as nat, |i: int| AugmentedLabel { label: (i + 1) as u32, row: 0 }),
            retired: Seq::empty(),
            prev: Seq::new(w as nat, |i: int| AugmentedLabel { label: 0, row: 0 }),
            cur: Seq::empty(),
            out: Seq::empty(),
            rep: Seq::new(
                (w + 10) as nat,
                |l: int|
                    if l == 0 {
                        0
                    } else {
                        -1
                    },
            ),
            dist: Seq::new((w + 10) as nat, |l: int| 0nat),
            tag: Seq::new(
                (w + 10) as nat,
                |l: int|
                    if l == 0 {
                        0
                    } else {
                        2
                    },
            ),
            kids: Seq::new((w + 10) as nat, |l: int| Seq::empty()),
            okids: Seq::empty(),
            par: Seq::empty(),
            pos: Seq::empty(),
            mass: Seq::new((w + 10) as nat, |l: int| 0nat),
            omass: Seq::empty(),
            own: Map::empty(),
            anchor: Seq::new((w + 10) as nat, |l: int| (0int, 0int)),
            oanchor: Seq::empty(),
        }
    }

    /// The scan of the pixel `(x, y)`. The pixel joins the component to its
    /// left or the one above it, whichever has its color; where both have,
    /// the older of the two takes over the other; where neither has, the
    /// pixel starts a component. Then the component above, if it has the other
    /// color, ends on the row above and does not go on to the right of `x`, is
    /// closed into the component of the pixel.
    pub open spec fn scan(self, bin: Raster, grey: Raster, x: u32, y: u32) -> State {
        let current = bin.lit(x as int, y as int);
        let top = bin.lit(x as int, y - 1);
        let left = bin.lit(x - 1, y as int);
        let value = grey.at(x as int, y as int) as u32;
        let t = self.rep[self.prev[x as int].label as int];
        let l = if x > 0 {
            self.cur[x - 1].label as int
        } else {
            0
        };
        let older = if self.comps[t].merge.older_than(self.comps[l].merge) {
            t
        } else {
            l
        };
        let newer = if self.comps[t].merge.older_than(self.comps[l].merge) {
            l
        } else {
            t
        };
        let cl = if current == left && current == top {
            if t == l {
                l
            } else {
                older
            }
        } else if current == left {
            l
        } else if current == top {
            t
        } else if self.free.len() > 0 {
            self.free[0].label as int
        } else {
            self.n()
        };
        let given = if current == left && current == top {
            if t == l {
                self.add(l, x, y, value, current)
            } else {
                self.merge(older, newer).add(older, x, y, value, current)
            }
        } else if current == left {
            self.add(l, x, y, value, current)
        } else if current == top {
            self.add(t, x, y, value, current)
        } else if self.free.len() > 0 {
            self.take(x, y, value, current)
        } else {
            self.grow(x, y, value, current)
        };
        let closed = if top != current && given.comps[t].ymax() < y && given.comps[t].max_x <= x {
            given.close(t, cl)
        } else {
            given
        };
        closed.note(cl)
    }

    /// The scan of the first `n` pixels of row `y`.
    pub open spec fn scan_row(self, bin: Raster, grey: Raster, y: u32, n: nat) -> State
        decreases n,
    {
        if n == 0 {
            self
        } else {
            self.scan_row(bin, grey, y, (n - 1) as nat).scan(bin, grey, (n - 1) as u32, y)
        }
    }

    /// The first `n` labels of the row are replaced by the labels that stand
    /// for them.
    pub open spec fn settle_row(self, n: nat) -> State
        decreases n,
    {
        if n == 0 {
            self
        } else {
            self.settle_row((n - 1) as nat).settle(n - 1)
        }
    }

    /// The scan of the first `m` rows.
    pub open spec fn scan_rows(self, bin: Raster, grey: Raster, m: nat) -> State
        decreases m,
    {
        if m == 0 {
            self
        } else {
            let row = self.scan_rows(bin, grey, (m - 1) as nat).scan_row(
                bin,
                grey,
                (m - 1) as u32,
                self.w as nat,
            );
            row.settle_row(self.w as nat).turn()
        }
    }

    /// The labels set aside go back to the pool, and the row just scanned
    /// becomes the row above.
    pub open spec fn turn(self) -> State {
        State {
            free: self.free + self.retired,
            retired: Seq::empty(),
            prev: self.cur,
            cur: Seq::empty(),
            rep: Seq::new(
                self.rep.len(),
                |l: int|
                    if self.comps[l].valid {
                        self.rep[l]
                    } else {
                        -1
                    },
            ),
            tag: Seq::new(
                self.tag.len(),
                |l: int|
                    if self.tag[l] == 1 {
                        2
                    } else {
                        self.tag[l]
                    },
            ),
            ..self
        }
    }
}

} // verus!
