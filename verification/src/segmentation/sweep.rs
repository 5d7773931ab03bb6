//! The raster scan itself.

use crate::raster::{pixel, GrayImage, Raster};
use crate::segmentation::owners::{
    lemma_anchors_linked, lemma_own_add, lemma_own_close, lemma_own_merge, lemma_own_note,
    lemma_own_open, lemma_own_settle, lemma_own_turn,
};
use crate::segmentation::state::{dark_prefix, State};
use crate::segmentation::tallies::{
    lemma_sum_add, lemma_sum_close, lemma_sum_merge, lemma_sum_open, lemma_sum_same, lemma_sum_turn,
};
use crate::segmentation::steps::{
    lemma_add, lemma_close, lemma_grow, lemma_merge, lemma_note, lemma_settle, lemma_skip,
    lemma_take, lemma_turn,
};
use crate::segmentation::{mut_two, sort_aug_label, weight, AugmentedLabel, FeatureVector};
use std::collections::VecDeque;
use vstd::prelude::*;

verus! {

/// The scan of a binary raster, row by row and pixel by pixel.
pub struct Sweep {
    pub width: u32,
    pub height: u32,
    /// The record of each label.
    pub active: Vec<FeatureVector>,
    /// The labels that can be handed out, the one longest out of use first.
    pub free: VecDeque<AugmentedLabel>,
    /// The labels that went out of use on this row. Labels written down for
    /// earlier pixels of the row may still point to them, so they wait here
    /// until the row ends.
    pub retired: Vec<AugmentedLabel>,
    /// The labels of the row above.
    pub prev: Vec<AugmentedLabel>,
    /// The labels of this row as far as it is scanned.
    pub cur: Vec<AugmentedLabel>,
    /// The closed components in the order in which they were closed.
    pub out: Vec<FeatureVector>,
    pub rep: Ghost<Seq<int>>,
    pub dist: Ghost<Seq<nat>>,
    pub tag: Ghost<Seq<int>>,
    pub kids: Ghost<Seq<Seq<int>>>,
    pub okids: Ghost<Seq<Seq<int>>>,
    pub par: Ghost<Seq<int>>,
    pub pos: Ghost<Seq<int>>,
    pub mass: Ghost<Seq<nat>>,
    pub omass: Ghost<Seq<nat>>,
    pub own: Ghost<Map<(int, int), int>>,
    pub anchor: Ghost<Seq<(int, int)>>,
    pub oanchor: Ghost<Seq<(int, int)>>,
}

impl View for Sweep {
    type V = State;

    open spec fn view(&self) -> State {
        State {
            w: self.width as int,
            h: self.height as int,
            comps: self.active@,
            free: self.free@,
            retired: self.retired@,
            prev: self.prev@,
            cur: self.cur@,
            out: self.out@,
            rep: self.rep@,
            dist: self.dist@,
            tag: self.tag@,
            kids: self.kids@,
            okids: self.okids@,
            par: self.par@,
            pos: self.pos@,
            mass: self.mass@,
            omass: self.omass@,
            own: self.own@,
            anchor: self.anchor@,
            oanchor: self.oanchor@,
        }
    }
}

impl Sweep {
    /// The scan before the first pixel.
    pub fn new(width: u32, height: u32) -> (sw: Sweep)
        requires
            width <= 0xff_ffff,
            height <= 0xff_ffff,
        ensures
            sw@ == State::start(width, height),
    {
        let mut active: Vec<FeatureVector> = Vec::new();
        let mut free: VecDeque<AugmentedLabel> = VecDeque::new();
        let mut prev: Vec<AugmentedLabel> = Vec::new();
        active.push(
            FeatureVector {
                area: 0,
                bounding_box: [(0, 0), (width, height)],
                max_x: width,
                valid: true,
                merge: AugmentedLabel::bg(),
                child: None,
                last_child: 0,
                sibling: None,
                last_sibling: 0,
                color: false,
                visited: false,
                fom: [0, 0],
                zom: 0,
            },
        );
        assert(active@[0].bounding_box =~= FeatureVector::backdrop(width, height).bounding_box);
        assert(active@[0].fom =~= FeatureVector::backdrop(width, height).fom);
        let mut i: u32 = 1;
        while i < width + 10
            invariant
                1 <= i <= width + 10,
                width <= 0xff_ffff,
                active@ == State::start(width, height).comps.take(i as int),
                free@ == State::start(width, height).free.take(i - 1),
            decreases width + 10 - i,
        {
            let own = AugmentedLabel { label: i, row: 0 };
            active.push(FeatureVector::unused(own));
            free.push_back(own);
            i = i + 1;
            assert(active@ =~= State::start(width, height).comps.take(i as int));
            assert(free@ =~= State::start(width, height).free.take(i - 1));
        }
        let mut j: u32 = 0;
        while j < width
            invariant
                j <= width,
                prev@ == State::start(width, height).prev.take(j as int),
            decreases width - j,
        {
            prev.push(AugmentedLabel::bg());
            j = j + 1;
            assert(prev@ =~= State::start(width, height).prev.take(j as int));
        }
        let sw = Sweep {
            width,
            height,
            active,
            free,
            retired: Vec::new(),
            prev,
            cur: Vec::new(),
            out: Vec::new(),
            rep: Ghost(State::start(width, height).rep),
            dist: Ghost(State::start(width, height).dist),
            tag: Ghost(State::start(width, height).tag),
            kids: Ghost(State::start(width, height).kids),
            okids: Ghost(Seq::empty()),
            par: Ghost(Seq::empty()),
            pos: Ghost(Seq::empty()),
            mass: Ghost(State::start(width, height).mass),
            omass: Ghost(Seq::empty()),
            own: Ghost(Map::empty()),
            anchor: Ghost(State::start(width, height).anchor),
            oanchor: Ghost(Seq::empty()),
        };
        assert(sw@ =~= State::start(width, height));
        sw
    }

    /// The label in use that stands for `a`.
    pub fn resolve(&self, a: AugmentedLabel) -> (r: u32)
        requires
            self@.shape(),
            self@.tags_ok(),
            (a.label as int) < self@.n(),
            self@.rep[a.label as int] >= 0,
        ensures
            r as int == self@.rep[a.label as int],
            self@.live(r as int),
    {
        let mut l = a.label;
        proof {
            assert(self@.lab_tag(l as int));
        }
        while !self.active[l as usize].valid
            invariant
                self@.shape(),
                self@.tags_ok(),
                (l as int) < self@.n(),
                self@.rep[l as int] == self@.rep[a.label as int],
                self@.rep[l as int] >= 0,
            decreases self@.dist[l as int],
        {
            proof {
                assert(self@.lab_tag(l as int));
            }
            l = self.active[l as usize].merge.label;
        }
        proof {
            assert(self@.lab_tag(l as int));
        }
        l
    }

    /// The pixel `(x, y)` joins the label `l`.
    pub fn add(&mut self, l: u32, x: u32, y: u32, value: u32, color: bool)
        requires
            (l as int) < old(self)@.n(),
            old(self)@.mass.len() == old(self)@.n(),
            value <= 255,
            old(self)@.comps[l as int].area < u32::MAX,
            old(self)@.comps[l as int].zom + weight(value, color) <= u64::MAX,
            old(self)@.comps[l as int].fom[0] + x * weight(value, color) <= u64::MAX,
            old(self)@.comps[l as int].fom[1] + y * weight(value, color) <= u64::MAX,
        ensures
            final(self)@ == old(self)@.add(l as int, x, y, value, color),
    {
        self.active[l as usize].add_pixel(x, y, value, color);
        self.mass = Ghost(self.mass@.update(l as int, self.mass@[l as int] + 1));
        self.own = Ghost(self.own@.insert((x as int, y as int), l as int));
        assert(self@ =~= old(self)@.add(l as int, x, y, value, color));
    }

    /// The pixel `(x, y)` starts a component: under the first label of the
    /// pool, or, where the pool is empty, under a new label.
    pub fn open_label(&mut self, x: u32, y: u32, value: u32, color: bool) -> (l: u32)
        requires
            old(self)@.shape(),
            old(self)@.pool_ok(),
            old(self)@.n() < u32::MAX,
            value <= 255,
        ensures
            old(self)@.free.len() > 0 ==> l == old(self)@.free[0].label && final(self)@ == old(self)@.take(
                x,
                y,
                value,
                color,
            ),
            old(self)@.free.len() == 0 ==> l == old(self)@.n() && final(self)@ == old(self)@.grow(
                x,
                y,
                value,
                color,
            ),
    {
        match self.free.pop_front() {
            Some(a) => {
                proof {
                    assert(old(self)@.free_ok(0));
                }
                let own = AugmentedLabel { label: a.label, row: y };
                self.active[a.label as usize] = FeatureVector::new(x, y, value, color, own);
                self.rep = Ghost(self.rep@.update(a.label as int, a.label as int));
                self.dist = Ghost(self.dist@.update(a.label as int, 0));
                self.tag = Ghost(self.tag@.update(a.label as int, 0));
                self.mass = Ghost(self.mass@.update(a.label as int, 1));
                self.own = Ghost(self.own@.insert((x as int, y as int), a.label as int));
                self.anchor = Ghost(self.anchor@.update(a.label as int, (x as int, y as int)));
                assert(self@ =~= old(self)@.take(x, y, value, color));
                a.label
            },
            None => {
                let l = self.active.len() as u32;
                let own = AugmentedLabel { label: l, row: y };
                self.active.push(FeatureVector::new(x, y, value, color, own));
                self.rep = Ghost(self.rep@.push(l as int));
                self.dist = Ghost(self.dist@.push(0));
                self.tag = Ghost(self.tag@.push(0));
                self.kids = Ghost(self.kids@.push(Seq::empty()));
                self.mass = Ghost(self.mass@.push(1));
                self.own = Ghost(self.own@.insert((x as int, y as int), l as int));
                self.anchor = Ghost(self.anchor@.push((x as int, y as int)));
                assert(self@ =~= old(self)@.grow(x, y, value, color));
                l
            },
        }
    }

    /// The label `sv` takes over the label `v`.
    pub fn merge(&mut self, sv: u32, v: u32)
        requires
            old(self)@.shape(),
            (sv as int) < old(self)@.n(),
            (v as int) < old(self)@.n(),
            sv != v,
            old(self)@.comps[sv as int].area + old(self)@.comps[v as int].area <= u32::MAX,
            old(self)@.comps[sv as int].zom + old(self)@.comps[v as int].zom <= u64::MAX,
            old(self)@.comps[sv as int].fom[0] + old(self)@.comps[v as int].fom[0] <= u64::MAX,
            old(self)@.comps[sv as int].fom[1] + old(self)@.comps[v as int].fom[1] <= u64::MAX,
            old(self)@.comps[v as int].child.is_some() ==> old(self)@.comps[v as int].last_child
                < old(self)@.out.len(),
        ensures
            final(self)@ == old(self)@.merge(sv as int, v as int),
    {
        let ghost before = self@;
        let (merged_fv, free_fv) = mut_two(sv as usize, v as usize, self.active.as_mut_slice());
        let a = *merged_fv;
        let b = *free_fv;
        merged_fv.merge(free_fv);
        if b.child.is_some() {
            merged_fv.child = b.child;
            if a.child.is_none() {
                merged_fv.last_child = b.last_child;
            }
        }
        *free_fv = FeatureVector::unused(a.merge);
        assert(self.active@ =~= before.comps.update(sv as int, before.joined(sv as int, v as int)).update(
            v as int,
            FeatureVector::blank(a.merge),
        ));
        if a.child.is_some() && b.child.is_some() {
            let tail = b.last_child as usize;
            self.out[tail].sibling = a.child;
            self.out[tail].last_sibling = a.last_child;
        }
        assert(self.out@ =~= before.spliced(sv as int, v as int));
        self.retired.push(b.merge);
        self.rep = Ghost(before.merge(sv as int, v as int).rep);
        self.dist = Ghost(before.merge(sv as int, v as int).dist);
        self.tag = Ghost(before.merge(sv as int, v as int).tag);
        self.kids = Ghost(before.merge(sv as int, v as int).kids);
        self.par = Ghost(before.merge(sv as int, v as int).par);
        self.pos = Ghost(before.merge(sv as int, v as int).pos);
        self.mass = Ghost(before.merge(sv as int, v as int).mass);
        self.own = Ghost(before.merge(sv as int, v as int).own);
        assert(self@ =~= before.merge(sv as int, v as int));
    }

    /// The component `t` is closed and becomes the first child of `c`.
    pub fn close(&mut self, t: u32, c: u32)
        requires
            old(self)@.shape(),
            (t as int) < old(self)@.n(),
            (c as int) < old(self)@.n(),
            t != c,
            old(self)@.out.len() < u32::MAX,
            old(self)@.comps[c as int].zom + old(self)@.comps[t as int].zom <= u64::MAX,
            old(self)@.comps[c as int].fom[0] + old(self)@.comps[t as int].fom[0] <= u64::MAX,
            old(self)@.comps[c as int].fom[1] + old(self)@.comps[t as int].fom[1] <= u64::MAX,
        ensures
            final(self)@ == old(self)@.close(t as int, c as int),
    {
        let ghost before = self@;
        let a = self.active[t as usize];
        let b = self.active[c as usize];
        let idx = self.out.len() as u32;
        let mut sealed = a;
        sealed.sibling = b.child;
        self.out.push(sealed);
        let mut parent = b;
        parent.zom = b.zom + a.zom;
        parent.fom = [b.fom[0] + a.fom[0], b.fom[1] + a.fom[1]];
        if b.child.is_none() {
            parent.last_child = idx;
        }
        parent.child = Some(idx);
        assert(parent.fom =~= before.parent_of(t as int, c as int).fom);
        assert(parent == before.parent_of(t as int, c as int));
        self.active[c as usize] = parent;
        self.active[t as usize] = FeatureVector::unused(a.merge);
        self.retired.push(a.merge);
        self.rep = Ghost(before.close(t as int, c as int).rep);
        self.tag = Ghost(before.close(t as int, c as int).tag);
        self.kids = Ghost(before.close(t as int, c as int).kids);
        self.okids = Ghost(before.close(t as int, c as int).okids);
        self.par = Ghost(before.close(t as int, c as int).par);
        self.pos = Ghost(before.close(t as int, c as int).pos);
        self.mass = Ghost(before.close(t as int, c as int).mass);
        self.omass = Ghost(before.close(t as int, c as int).omass);
        self.own = Ghost(before.close(t as int, c as int).own);
        self.oanchor = Ghost(before.close(t as int, c as int).oanchor);
        assert(self@ =~= before.close(t as int, c as int));
    }

    /// The label `l` is written down for the pixel just scanned.
    pub fn note(&mut self, l: u32)
        requires
            (l as int) < old(self)@.n(),
        ensures
            final(self)@ == old(self)@.note(l as int),
    {
        let own = self.active[l as usize].merge;
        self.cur.push(own);
        assert(self@ =~= old(self)@.note(l as int));
    }
    /// Scans the pixel `(x, y)`: it joins the component to its left or the
    /// one above it, which are merged where it joins both, or starts a new
    /// one; the component above it is closed where it ends there.
    #[verifier::rlimit(40)]
    pub fn step(&mut self, img: &GrayImage, grey: &GrayImage, x: u32, y: u32, Ghost(done): Ghost<int>)
        requires
            old(self)@.inv(img@, x as int, y as int, done),
            old(self)@.own_ok(img@, x as int, x as int, x as int, y as int),
            old(self)@.sums_ok(img@, grey@, x as int, y as int),
            img.wf(),
            grey.wf(),
            img.width() == old(self).width,
            img.height() == old(self).height,
            grey.width() == old(self).width,
            grey.height() == old(self).height,
            x < old(self).width,
            y < old(self).height,
            0 <= done,
            done + old(self).width + 10 < u32::MAX,
        ensures
            final(self)@.inv(img@, x + 1, y as int, done + 1),
            final(self)@.own_ok(img@, x + 1, x + 1, x + 1, y as int),
            final(self)@.sums_ok(img@, grey@, x + 1, y as int),
            final(self)@ == old(self)@.scan(img@, grey@, x, y),
            final(self).width == old(self).width,
            final(self).height == old(self).height,
    {
        let current = pixel(img, x, y) > 0;
        let value = pixel(grey, x, y) as u32;
        let top = y > 0 && pixel(img, x, y - 1) > 0;
        let left = x > 0 && pixel(img, x - 1, y) > 0;
        let ghost start = self@;
        proof {
            assert forall|k: int| 0 <= k < start.out.len() implies start.scanned(
                x as int,
                y as int,
                (#[trigger] start.out[k]).max_x as int,
                start.out[k].ymax() + 1,
            ) by {
                assert(start.out_below(x as int, y as int, k));
            }
            assert(self@.prev_ok(img@, y as int, x as int));
            if x > 0 {
                assert(self@.cur_ok(img@, y as int, x - 1));
                assert(self@.lab_tag(self@.cur[x - 1].label as int));
            }
        }
        let top_label = self.resolve(self.prev[x as usize]);
        let left_label = if x > 0 {
            self.cur[(x - 1) as usize].label
        } else {
            0
        };
        assert(self@.live(left_label as int));
        assert(self@.comps[left_label as int].color == left);
        assert(self@.comps[top_label as int].color == top);
        assert(current == img.lit(x as int, y as int));
        proof {
            // a lit pixel at or left of `x` rules out a dark row so far
            if current {
                assert(img.lit(x as int, y as int));
            }
            if left {
                assert(img.lit(x - 1, y as int));
            }
            if x > 0 && dark_prefix(img@, y as int, x as int) {
                assert(dark_prefix(img@, y as int, x - 1));
            }
        }
        let cl: u32;
        let ghost tt: int;
        if current == left && current == top {
            if top_label == left_label {
                proof {
                    lemma_add(self@, img@, x, y, done, left_label as int, top_label as int, value);
                    lemma_own_add(self@, img@, x, y, done, left_label as int, value);
                    lemma_sum_add(self@, img@, grey@, x, y, done, left_label as int, value);
                    tt = -1;
                }
                self.add(left_label, x, y, value, current);
                cl = left_label;
            } else {
                proof {
                    assert(self@.lab_tag(top_label as int));
                    assert(self@.lab_tag(left_label as int));
                }
                let (older, newer) = sort_aug_label(
                    self.active[top_label as usize].merge,
                    self.active[left_label as usize].merge,
                );
                let ghost before = self@;
                proof {
                    lemma_merge(before, img@, x as int, y as int, done, older.label as int, newer.label as int);
                    if older.label != 0 {
                        lemma_anchors_linked(
                            before,
                            img@,
                            x as int,
                            y as int,
                            done,
                            left_label as int,
                            top_label as int,
                        );
                    }
                    lemma_own_merge(
                        before,
                        img@,
                        x as int,
                        y as int,
                        done,
                        older.label as int,
                        newer.label as int,
                    );
                    lemma_sum_merge(
                        before,
                        img@,
                        grey@,
                        x as int,
                        y as int,
                        done,
                        older.label as int,
                        newer.label as int,
                    );
                }
                self.merge(older.label, newer.label);
                proof {
                    lemma_add(self@, img@, x, y, done, older.label as int, older.label as int, value);
                    lemma_own_add(self@, img@, x, y, done, older.label as int, value);
                    lemma_sum_add(self@, img@, grey@, x, y, done, older.label as int, value);
                    tt = -1;
                }
                self.add(older.label, x, y, value, current);
                cl = older.label;
            }
        } else if current == left {
            proof {
                lemma_add(self@, img@, x, y, done, left_label as int, top_label as int, value);
                lemma_own_add(self@, img@, x, y, done, left_label as int, value);
                lemma_sum_add(self@, img@, grey@, x, y, done, left_label as int, value);
                tt = top_label as int;
            }
            self.add(left_label, x, y, value, current);
            cl = left_label;
        } else if current == top {
            proof {
                lemma_add(self@, img@, x, y, done, top_label as int, top_label as int, value);
                lemma_own_add(self@, img@, x, y, done, top_label as int, value);
                lemma_sum_add(self@, img@, grey@, x, y, done, top_label as int, value);
                tt = -1;
            }
            self.add(top_label, x, y, value, current);
            cl = top_label;
        } else {
            proof {
                if self@.free.len() > 0 {
                    lemma_take(self@, img@, x, y, done, top_label as int, value, current);
                } else {
                    lemma_grow(self@, img@, x, y, done, top_label as int, value, current);
                }
                tt = top_label as int;
            }
            let ghost before = self@;
            cl = self.open_label(x, y, value, current);
            proof {
                if before.free.len() > 0 {
                    assert(before.free_ok(0));
                    assert(before.lab_tag(cl as int));
                }
                lemma_own_open(before, self@, img@, x, y, done, cl as int);
                lemma_sum_open(before, self@, img@, grey@, x, y, done, cl as int, value);
            }
        }
        assert(self@.mid(img@, x as int, y as int, done + 1, cl as int, tt));
        assert(self@.own_ok(img@, x + 1, x as int, x + 1, y as int));
        assert(self@.own[(x as int, y as int)] == cl);
        assert(y > 0 && tt >= 0 ==> self@.own[(x as int, y - 1)] == tt);
        assert(self@.sums_ok(img@, grey@, x + 1, y as int));
        assert(top != current ==> self@.out == start.out);
        if top != current {
            let above = self.active[top_label as usize];
            if above.bounding_box[1].1 < y && above.max_x <= x {
                proof {
                    lemma_close(self@, img@, x as int, y as int, done + 1, cl as int, tt);
                    lemma_own_close(self@, img@, x as int, y as int, done + 1, cl as int, tt);
                    lemma_sum_close(self@, img@, grey@, x as int, y as int, done + 1, cl as int, tt);
                }
                self.close(top_label, cl);
            } else {
                proof {
                    lemma_skip(self@, img@, x as int, y as int, done + 1, cl as int, tt);
                }
            }
        }
        proof {
            lemma_note(self@, img@, x as int, y as int, done + 1, cl as int);
            lemma_own_note(self@, img@, x as int, y as int, done + 1, cl as int);
            lemma_sum_same(self@, self@.note(cl as int), img@, grey@, x + 1, y as int);
        }
        self.note(cl);
    }

    /// Ends the row `y`: every label written down for it is replaced by the
    /// label in use that stands for it, the labels that went out of use go
    /// back to the pool, and the row becomes the row above.
    pub fn end_row(
        &mut self,
        Ghost(img): Ghost<Raster>,
        Ghost(grey): Ghost<Raster>,
        Ghost(y): Ghost<int>,
        Ghost(done): Ghost<int>,
    )
        requires
            old(self)@.inv(img, old(self).width as int, y, done),
            old(self)@.sums_ok(img, grey, old(self).width as int, y),
            0 <= y,
            old(self)@.own_ok(img, old(self).width as int, old(self).width as int, old(self).width as int, y),
            y < old(self).height,
        ensures
            final(self)@.inv(img, 0, y + 1, done),
            final(self)@.own_ok(img, 0, 0, 0, y + 1),
            final(self)@.sums_ok(img, grey, 0, y + 1),
            final(self)@ == old(self)@.settle_row(old(self).width as nat).turn(),
            final(self).width == old(self).width,
            final(self).height == old(self).height,
    {
        let mut i: usize = 0;
        while i < self.cur.len()
            invariant
                self@.base(img, self.width as int, y, done),
                self@.own_ok(img, self.width as int, self.width as int, self.width as int, y),
                self@.sums_ok(img, grey, self.width as int, y),
                0 <= y < self.height,
                self@ == old(self)@.settle_row(i as nat),
                self.width == old(self).width,
                self.height == old(self).height,
                i <= self.cur.len(),
                forall|k: int| 0 <= k < i ==> self@.comps[(#[trigger] self@.cur[k]).label as int].valid,
            decreases self.cur.len() - i,
        {
            let ghost before = self@;
            proof {
                assert(before.cur_ok(img, y, i as int));
                lemma_settle(before, img, y, done, i as int);
                lemma_own_settle(before, img, y, done, i as int);
                lemma_sum_same(before, before.settle(i as int), img, grey, self.width as int, y);
            }
            let r = self.resolve(self.cur[i]);
            let own = self.active[r as usize].merge;
            self.cur[i] = own;
            assert(self@ =~= before.settle(i as int));
            i = i + 1;
        }
        let ghost settled = self@;
        proof {
            lemma_turn(settled, img, y, done);
            lemma_own_turn(settled, img, y, done);
            lemma_sum_turn(settled, img, grey, y);
        }
        let mut j: usize = 0;
        while j < self.retired.len()
            invariant
                j <= self.retired.len(),
                self.free@ == settled.free + settled.retired.take(j as int),
                self.retired@ == settled.retired,
                self.active@ == settled.comps,
                self.cur@ == settled.cur,
                self.prev@ == settled.prev,
                self.out@ == settled.out,
                self.width == old(self).width,
                self.height == old(self).height,
                self.rep@ == settled.rep,
                self.dist@ == settled.dist,
                self.tag@ == settled.tag,
                self.kids@ == settled.kids,
                self.okids@ == settled.okids,
                self.par@ == settled.par,
                self.pos@ == settled.pos,
                self.mass@ == settled.mass,
                self.omass@ == settled.omass,
                self.own@ == settled.own,
                self.anchor@ == settled.anchor,
                self.oanchor@ == settled.oanchor,
            decreases self.retired.len() - j,
        {
            self.free.push_back(self.retired[j]);
            j = j + 1;
            assert(self.free@ =~= settled.free + settled.retired.take(j as int));
        }
        assert(settled.retired.take(j as int) =~= settled.retired);
        self.retired.clear();
        std::mem::swap(&mut self.prev, &mut self.cur);
        self.cur.clear();
        self.rep = Ghost(settled.turn().rep);
        self.tag = Ghost(settled.turn().tag);
        assert(self@ =~= settled.turn());
    }
    /// Ends the scan: the closed components in the order in which they were
    /// closed, and behind them the background.
    pub fn finish(self) -> (topo: Vec<FeatureVector>)
        requires
            self@.shape(),
        ensures
            topo@ == self@.result(),
    {
        let bg = self.active[0];
        let mut topo = self.out;
        topo.push(bg);
        topo
    }
}

} // verus!
