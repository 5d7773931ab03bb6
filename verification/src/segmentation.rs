//! Connected components of a binary image, with their moments and their
//! containment tree.

use crate::raster::{buffer_dimensions, GrayImage, Raster};
use crate::segmentation::finish::{lemma_finish, lemma_finish_own, lemma_finish_sums};
use crate::segmentation::forest::{children, colors_differ, has_parent, is_forest};
use crate::segmentation::moments::has_moments;
use crate::segmentation::owners::lemma_own_start;
use crate::segmentation::regions::is_segmentation;
use crate::segmentation::rim::{lemma_rim_row, lemma_rim_scan, lemma_rim_start};
use crate::segmentation::state::State;
use crate::segmentation::steps::lemma_start;
use crate::segmentation::sums::total_area;
use crate::segmentation::sweep::Sweep;
use crate::segmentation::tallies::lemma_sum_start;
use crate::segmentation::tree::subtree_area;
use vstd::prelude::*;

pub use crate::segmentation::tree::{area, areas_add_up, check_invariants};

pub(crate) mod boxes;
pub(crate) mod finish;
pub mod forest;
pub mod moments;
pub(crate) mod owners;
pub mod regions;
pub(crate) mod rim;
pub mod state;
pub(crate) mod steps;
pub mod sums;
pub(crate) mod sweep;
pub(crate) mod tallies;
pub mod tree;

verus! {

/// A label of the component table together with the row on which it was handed out.
#[derive(Debug, Clone, Copy, PartialEq, Eq, Structural)]
pub struct AugmentedLabel {
    pub label: u32,
    pub row: u32,
}

impl AugmentedLabel {
    /// The label of the synthetic background component.
    pub fn bg() -> (l: AugmentedLabel)
        ensures
            l == (AugmentedLabel { label: 0, row: 0 }),
    {
        AugmentedLabel { label: 0, row: 0 }
    }

    /// `self` was handed out before `other`: on an earlier row, or on the same
    /// row under a smaller label.
    pub open spec fn older_than(self, other: AugmentedLabel) -> bool {
        self.row < other.row || (self.row == other.row && self.label < other.label)
    }
}

/// Orders two distinct labels, the older one first.
pub fn sort_aug_label(a: AugmentedLabel, b: AugmentedLabel) -> (r: (AugmentedLabel, AugmentedLabel))
    requires
        a != b,
    ensures
        r == (if a.older_than(b) {
            (a, b)
        } else {
            (b, a)
        }),
        r.0.older_than(r.1),
{
    if a.row < b.row || (a.row == b.row && a.label < b.label) {
        (a, b)
    } else {
        (b, a)
    }
}

/// Borrows two distinct elements of a slice mutably at once.
pub fn mut_two<T>(first_index: usize, second_index: usize, items: &mut [T]) -> (r: (&mut T, &mut T))
    requires
        first_index != second_index,
        first_index < old(items).len(),
        second_index < old(items).len(),
    ensures
        *r.0 == old(items)[first_index as int],
        *r.1 == old(items)[second_index as int],
        final(items)@ == old(items)@.update(first_index as int, *final(r.0)).update(
            second_index as int,
            *final(r.1),
        ),
{
    if first_index < second_index {
        let (first_slice, second_slice) = items.split_at_mut(second_index);
        (&mut first_slice[first_index], &mut second_slice[0])
    } else {
        let (first_slice, second_slice) = items.split_at_mut(first_index);
        (&mut second_slice[0], &mut first_slice[second_index])
    }
}

/// The weight with which a pixel of gray value `value` enters the moments of a
/// component of the given color: bright pixels weigh most in a foreground
/// component, dark ones in a background component.
pub open spec fn weight(value: u32, color: bool) -> int {
    if color {
        value as int
    } else {
        255 - value
    }
}

/// What is known of one connected component.
#[derive(Debug, Clone, Copy, PartialEq, Eq)]
pub struct FeatureVector {
    /// Number of pixels.
    pub area: u32,
    /// `[(xmin, ymin), (xmax, ymax)]`.
    pub bounding_box: [(u32, u32); 2],
    /// The rightmost pixel on the lowest row reached so far.
    pub max_x: u32,
    /// The label of this component is in use.
    pub valid: bool,
    /// For a label in use, the label itself; for one merged away, the label
    /// that took its pixels.
    pub merge: AugmentedLabel,
    /// The first enclosed component.
    pub child: Option<u32>,
    /// The last enclosed component; meaningful where `child` is set.
    pub last_child: u32,
    /// The next component enclosed by the same parent.
    pub sibling: Option<u32>,
    /// The end of a child list that was appended behind this component.
    pub last_sibling: u32,
    /// The component is foreground.
    pub color: bool,
    /// Set by a tree walk that has passed the component.
    pub visited: bool,
    /// First-order moments `[sum of w * x, sum of w * y]`.
    pub fom: [u64; 2],
    /// Zero-order moment `sum of w`.
    pub zom: u64,
}

impl FeatureVector {
    pub open spec fn xmin(self) -> int {
        self.bounding_box[0].0 as int
    }

    pub open spec fn ymin(self) -> int {
        self.bounding_box[0].1 as int
    }

    pub open spec fn xmax(self) -> int {
        self.bounding_box[1].0 as int
    }

    pub open spec fn ymax(self) -> int {
        self.bounding_box[1].1 as int
    }

    /// The component has a pixel, and lies in a raster of `w` by `h` pixels.
    pub open spec fn within(self, w: int, h: int) -> bool {
        &&& self.area >= 1
        &&& 0 <= self.xmin() <= self.max_x <= self.xmax() < w
        &&& 0 <= self.ymin() <= self.ymax() < h
    }

    /// The component made of the single pixel `(x, y)`.
    pub open spec fn single(x: u32, y: u32, value: u32, color: bool, merge: AugmentedLabel) -> FeatureVector {
        FeatureVector {
            area: 1,
            bounding_box: [(x, y), (x, y)],
            max_x: x,
            valid: true,
            merge,
            child: None,
            last_child: 0,
            sibling: None,
            last_sibling: 0,
            color,
            visited: false,
            fom: [(x * weight(value, color)) as u64, (y * weight(value, color)) as u64],
            zom: weight(value, color) as u64,
        }
    }

    /// The moments of `self` after the pixel `(x, y)` has been weighed in.
    pub open spec fn with_moments(self, x: u32, y: u32, value: u32, color: bool) -> FeatureVector {
        FeatureVector {
            fom: [
                (self.fom[0] + x * weight(value, color)) as u64,
                (self.fom[1] + y * weight(value, color)) as u64,
            ],
            zom: (self.zom + weight(value, color)) as u64,
            ..self
        }
    }

    /// `self` after the pixel `(x, y)` has joined it. A pixel below the
    /// bounding box opens a new lowest row.
    pub open spec fn with_pixel(self, x: u32, y: u32, value: u32, color: bool) -> FeatureVector {
        FeatureVector {
            area: (self.area + 1) as u32,
            max_x: if y > self.ymax() || x > self.max_x {
                x
            } else {
                self.max_x
            },
            bounding_box: [
                (
                    if x < self.xmin() {
                        x
                    } else {
                        self.bounding_box[0].0
                    },
                    if y < self.ymin() {
                        y
                    } else {
                        self.bounding_box[0].1
                    },
                ),
                (
                    if x > self.xmax() {
                        x
                    } else {
                        self.bounding_box[1].0
                    },
                    if y > self.ymax() {
                        y
                    } else {
                        self.bounding_box[1].1
                    },
                ),
            ],
            ..self.with_moments(x, y, value, color)
        }
    }

    /// `self` after it has taken over the pixels of `other`. Of the two, the
    /// one that reaches further down gives `max_x`; where both end in the
    /// same row, it is the greater of the two.
    pub open spec fn absorbed(self, other: FeatureVector) -> FeatureVector {
        FeatureVector {
            area: (self.area + other.area) as u32,
            max_x: if self.ymax() < other.ymax() {
                other.max_x
            } else if self.ymax() == other.ymax() && other.max_x > self.max_x {
                other.max_x
            } else {
                self.max_x
            },
            bounding_box: [
                (
                    if other.xmin() < self.xmin() {
                        other.bounding_box[0].0
                    } else {
                        self.bounding_box[0].0
                    },
                    if other.ymin() < self.ymin() {
                        other.bounding_box[0].1
                    } else {
                        self.bounding_box[0].1
                    },
                ),
                (
                    if other.xmax() > self.xmax() {
                        other.bounding_box[1].0
                    } else {
                        self.bounding_box[1].0
                    },
                    if other.ymax() > self.ymax() {
                        other.bounding_box[1].1
                    } else {
                        self.bounding_box[1].1
                    },
                ),
            ],
            fom: [(self.fom[0] + other.fom[0]) as u64, (self.fom[1] + other.fom[1]) as u64],
            zom: (self.zom + other.zom) as u64,
            ..self
        }
    }

    /// The center of mass, each coordinate rounded down and cut off at
    /// `i32::MAX`; the origin where the component has no mass.
    pub open spec fn center(self) -> (int, int) {
        if self.zom == 0 {
            (0, 0)
        } else {
            (
                if self.fom[0] / self.zom > i32::MAX {
                    i32::MAX as int
                } else {
                    (self.fom[0] / self.zom) as int
                },
                if self.fom[1] / self.zom > i32::MAX {
                    i32::MAX as int
                } else {
                    (self.fom[1] / self.zom) as int
                },
            )
        }
    }

    /// The record of a label that is not in use.
    pub open spec fn blank(merge: AugmentedLabel) -> FeatureVector {
        FeatureVector {
            area: 0,
            bounding_box: [(u32::MAX, u32::MAX), (0, 0)],
            max_x: 0,
            valid: false,
            merge,
            child: None,
            last_child: 0,
            sibling: None,
            last_sibling: 0,
            color: false,
            visited: false,
            fom: [0, 0],
            zom: 0,
        }
    }

    /// The record of the background before any pixel has joined it: it
    /// spans the whole raster and is never closed.
    pub open spec fn backdrop(width: u32, height: u32) -> FeatureVector {
        FeatureVector {
            area: 0,
            bounding_box: [(0, 0), (width, height)],
            max_x: width,
            valid: true,
            merge: AugmentedLabel { label: 0, row: 0 },
            child: None,
            last_child: 0,
            sibling: None,
            last_sibling: 0,
            color: false,
            visited: false,
            fom: [0, 0],
            zom: 0,
        }
    }

    /// The record of a label that is not in use.
    pub fn unused(merge: AugmentedLabel) -> (fv: FeatureVector)
        ensures
            fv == FeatureVector::blank(merge),
    {
        FeatureVector {
            area: 0,
            bounding_box: [(u32::MAX, u32::MAX), (0, 0)],
            max_x: 0,
            valid: false,
            merge,
            child: None,
            last_child: 0,
            sibling: None,
            last_sibling: 0,
            color: false,
            visited: false,
            fom: [0, 0],
            zom: 0,
        }
    }

    /// A component that starts with the pixel `(x, y)`.
    pub fn new(x: u32, y: u32, value: u32, color: bool, merge: AugmentedLabel) -> (fv: FeatureVector)
        requires
            value <= 255,
        ensures
            fv == FeatureVector::single(x, y, value, color, merge),
    {
        let actual_value: u64 = if color {
            value as u64
        } else {
            255 - value as u64
        };
        assert(x * actual_value <= 0xffff_ffff * 255) by (nonlinear_arith)
            requires
                x <= 0xffff_ffff,
                actual_value <= 255,
        ;
        assert(y * actual_value <= 0xffff_ffff * 255) by (nonlinear_arith)
            requires
                y <= 0xffff_ffff,
                actual_value <= 255,
        ;
        FeatureVector {
            max_x: x,
            area: 1,
            bounding_box: [(x, y), (x, y)],
            valid: true,
            merge,
            child: None,
            last_child: 0,
            sibling: None,
            last_sibling: 0,
            color,
            visited: false,
            fom: [x as u64 * actual_value, y as u64 * actual_value],
            zom: actual_value,
        }
    }

    /// The center of mass in whole pixels.
    pub fn get_com(&self) -> (c: (i32, i32))
        ensures
            (c.0 as int, c.1 as int) == self.center(),
    {
        if self.zom == 0 {
            (0, 0)
        } else {
            let cx: u64 = self.fom[0] / self.zom;
            let cy: u64 = self.fom[1] / self.zom;
            (
                if cx > i32::MAX as u64 {
                    i32::MAX
                } else {
                    cx as i32
                },
                if cy > i32::MAX as u64 {
                    i32::MAX
                } else {
                    cy as i32
                },
            )
        }
    }

    /// Weighs the pixel `(x, y)` into the moments and leaves area and
    /// bounding box as they are.
    pub fn add_pixel_no_area(&mut self, x: u32, y: u32, value: u32, color: bool)
        requires
            value <= 255,
            old(self).zom + weight(value, color) <= u64::MAX,
            old(self).fom[0] + x * weight(value, color) <= u64::MAX,
            old(self).fom[1] + y * weight(value, color) <= u64::MAX,
        ensures
            *final(self) == old(self).with_moments(x, y, value, color),
    {
        let actual_value: u64 = if color {
            value as u64
        } else {
            255 - value as u64
        };
        assert(x * actual_value <= 0xffff_ffff * 255) by (nonlinear_arith)
            requires
                x <= 0xffff_ffff,
                actual_value <= 255,
        ;
        assert(y * actual_value <= 0xffff_ffff * 255) by (nonlinear_arith)
            requires
                y <= 0xffff_ffff,
                actual_value <= 255,
        ;
        self.fom = [self.fom[0] + x as u64 * actual_value, self.fom[1] + y as u64 * actual_value];
        self.zom = self.zom + actual_value;
    }

    /// Adds the pixel `(x, y)` to the component.
    pub fn add_pixel(&mut self, x: u32, y: u32, value: u32, color: bool)
        requires
            value <= 255,
            old(self).area < u32::MAX,
            old(self).zom + weight(value, color) <= u64::MAX,
            old(self).fom[0] + x * weight(value, color) <= u64::MAX,
            old(self).fom[1] + y * weight(value, color) <= u64::MAX,
        ensures
            *final(self) == old(self).with_pixel(x, y, value, color),
    {
        let before = *self;
        self.add_pixel_no_area(x, y, value, color);
        self.area = self.area + 1;
        if y > before.bounding_box[1].1 || x > before.max_x {
            self.max_x = x;
        }
        let xmin = if x < before.bounding_box[0].0 {
            x
        } else {
            before.bounding_box[0].0
        };
        let ymin = if y < before.bounding_box[0].1 {
            y
        } else {
            before.bounding_box[0].1
        };
        let xmax = if x > before.bounding_box[1].0 {
            x
        } else {
            before.bounding_box[1].0
        };
        let ymax = if y > before.bounding_box[1].1 {
            y
        } else {
            before.bounding_box[1].1
        };
        self.bounding_box = [(xmin, ymin), (xmax, ymax)];
        assert(self.bounding_box =~= old(self).with_pixel(x, y, value, color).bounding_box);
        assert(self.fom =~= old(self).with_pixel(x, y, value, color).fom);
    }

    /// Takes over area, moments and bounding box of `other`.
    pub fn merge(&mut self, other: &FeatureVector)
        requires
            old(self).area + other.area <= u32::MAX,
            old(self).zom + other.zom <= u64::MAX,
            old(self).fom[0] + other.fom[0] <= u64::MAX,
            old(self).fom[1] + other.fom[1] <= u64::MAX,
        ensures
            *final(self) == old(self).absorbed(*other),
    {
        let before = *self;
        if before.bounding_box[1].1 < other.bounding_box[1].1 {
            self.max_x = other.max_x;
        } else if before.bounding_box[1].1 == other.bounding_box[1].1 && other.max_x > before.max_x {
            self.max_x = other.max_x;
        }
        self.area = self.area + other.area;
        self.fom = [before.fom[0] + other.fom[0], before.fom[1] + other.fom[1]];
        self.zom = self.zom + other.zom;
        let xmin = if other.bounding_box[0].0 < before.bounding_box[0].0 {
            other.bounding_box[0].0
        } else {
            before.bounding_box[0].0
        };
        let ymin = if other.bounding_box[0].1 < before.bounding_box[0].1 {
            other.bounding_box[0].1
        } else {
            before.bounding_box[0].1
        };
        let xmax = if other.bounding_box[1].0 > before.bounding_box[1].0 {
            other.bounding_box[1].0
        } else {
            before.bounding_box[1].0
        };
        let ymax = if other.bounding_box[1].1 > before.bounding_box[1].1 {
            other.bounding_box[1].1
        } else {
            before.bounding_box[1].1
        };
        self.bounding_box = [(xmin, ymin), (xmax, ymax)];
        assert(self.bounding_box =~= old(self).absorbed(*other).bounding_box);
        assert(self.fom =~= old(self).absorbed(*other).fom);
    }
}

/// The list of components that the scan of the binary raster `bin` comes
/// to, with moments weighed by the gray values of `grey`: what `to_topo`
/// returns.
pub open spec fn topology(bin: Raster, grey: Raster) -> Seq<FeatureVector> {
    State::start(bin.width as u32, bin.height() as u32).scan_rows(bin, grey, bin.height()).result()
}

/// For each pixel of `bin`, the place in `topology(bin, grey)` of the
/// component to which the scan gives it; -1 for a pixel of a component that
/// the end of the scan has left open.
pub open spec fn segmentation(bin: Raster, grey: Raster) -> Map<(int, int), int> {
    State::start(bin.width as u32, bin.height() as u32).scan_rows(bin, grey, bin.height()).segments()
}

/// Scans the binary raster `input` once, row by row, and returns its
/// connected components (4-connectivity, lit pixels as foreground) with the
/// tree in which each component is the child of the one around it. A
/// component is closed, and put on the list, when the scan passes below its
/// lowest row; the background, which is never closed, ends the list and is
/// the root. It takes the dark pixels that a dark walk links with the
/// uppermost row or the leftmost column. The gray values of `input_grey`
/// weigh the moments, and a parent holds the moments of its children on top
/// of its own.
///
/// A component that reaches the lowest row of the raster is never closed
/// and is left out, unless it is the background: where the lowest row is
/// dark, as it is behind `add_border`, every pixel is counted.
pub fn to_topo(input: &GrayImage, input_grey: &GrayImage) -> (topo: Vec<FeatureVector>)
    requires
        input_grey.width() == input.width(),
        input_grey.height() == input.height(),
        input@.scannable(),
    ensures
        topo@ == topology(input@, input_grey@),
        // the components are the connected regions of one color, with their
        // areas, boxes and moments
        is_segmentation(topo@, input@, segmentation(input@, input_grey@)),
        has_moments(topo@, input@, input_grey@, segmentation(input@, input_grey@)),
        input.bottom_dark() ==> forall|i: int, j: int|
            input.contains(i, j) ==> #[trigger] segmentation(input@, input_grey@)[(i, j)] >= 0,
        // the list is a forest whose root, the background, comes last, has
        // no sibling and spans the raster
        1 <= topo.len() <= input.width() * input.height() + 1,
        is_forest(topo@),
        !topo[topo.len() - 1].color,
        topo[topo.len() - 1].sibling.is_none(),
        topo[topo.len() - 1].max_x == input.width(),
        topo[topo.len() - 1].bounding_box[0] == (0u32, 0u32),
        topo[topo.len() - 1].bounding_box[1] == (input.width() as u32, input.height() as u32),
        input.bottom_dark() ==> forall|k: int| 0 <= k < topo.len() - 1 ==> #[trigger] has_parent(topo@, k),
        // parent and child differ in color, and the parent reaches further down
        colors_differ(topo@),
        forall|p: int, j: int|
            0 <= p < topo.len() && 0 <= j < children(topo@, p).len() ==> topo[#[trigger] children(
                topo@,
                p,
            )[j]].ymax() < topo[p].ymax(),
        // every pixel is counted at most once, and once where the lowest row
        // is dark
        total_area(topo@) <= input.width() * input.height(),
        input.bottom_dark() ==> total_area(topo@) == input.width() * input.height(),
        input.bottom_dark() ==> subtree_area(topo@, topo.len() - 1) == input.width() * input.height(),
        // every component but the root has a pixel and lies in the raster;
        // none is marked as visited
        forall|k: int|
            0 <= k < topo.len() - 1 ==> (#[trigger] topo[k]).within(
                input.width() as int,
                input.height() as int,
            ),
        forall|k: int| 0 <= k < topo.len() ==> (#[trigger] topo[k]).valid && !topo[k].visited,
        // the moments are bounded by the number of pixels
        forall|k: int|
            0 <= k < topo.len() ==> (#[trigger] topo[k]).zom <= 255 * (input.width() * input.height())
                && topo[k].fom[0] <= 255 * input.width() * (input.width() * input.height())
                && topo[k].fom[1] <= 255 * input.height() * (input.width() * input.height()),
{
    let (w, h) = buffer_dimensions(input);
    let (gw, gh) = buffer_dimensions(input_grey);
    let mut sw = Sweep::new(w, h);
    let ghost mut done: int = 0;
    proof {
        lemma_start(w, h, input@);
        lemma_own_start(w, h, input@);
        lemma_rim_start(w, h, input@);
        lemma_sum_start(w, h, input@, input_grey@);
    }
    let mut y: u32 = 0;
    while y < h
        invariant
            sw@.inv(input@, 0, y as int, done),
            sw@.own_ok(input@, 0, 0, 0, y as int),
            sw@.rim_ok(input@, 0, y as int),
            sw@.sums_ok(input@, input_grey@, 0, y as int),
            sw@ == State::start(w, h).scan_rows(input@, input_grey@, y as nat),
            done == y * w,
            y <= h,
            sw.width == w,
            sw.height == h,
            input.wf(),
            input_grey.wf(),
            input.width() == w,
            input.height() == h,
            input_grey.width() == w,
            input_grey.height() == h,
            w * h + w + 10 < u32::MAX,
        decreases h - y,
    {
        let ghost above = sw@;
        let mut x: u32 = 0;
        while x < w
            invariant
                sw@.inv(input@, x as int, y as int, done),
                sw@.own_ok(input@, x as int, x as int, x as int, y as int),
                sw@.rim_ok(input@, x as int, y as int),
                sw@.sums_ok(input@, input_grey@, x as int, y as int),
                above == State::start(w, h).scan_rows(input@, input_grey@, y as nat),
                sw@ == above.scan_row(input@, input_grey@, y, x as nat),
                done == y * w + x,
                x <= w,
                y < h,
                sw.width == w,
                sw.height == h,
                input.wf(),
                input_grey.wf(),
                input.width() == w,
                input.height() == h,
                input_grey.width() == w,
                input_grey.height() == h,
                w * h + w + 10 < u32::MAX,
            decreases w - x,
        {
            proof {
                assert(y * w + x < w * h) by (nonlinear_arith)
                    requires
                        0 <= x < w,
                        0 <= y < h,
                ;
                lemma_rim_scan(sw@, input@, input_grey@, x, y, done);
            }
            sw.step(input, input_grey, x, y, Ghost(done));
            x = x + 1;
            proof {
                done = done + 1;
            }
        }
        proof {
            lemma_rim_row(sw@, input@, y as int);
        }
        sw.end_row(Ghost(input@), Ghost(input_grey@), Ghost(y as int), Ghost(done));
        proof {
            assert((y + 1) * w == y * w + w) by (nonlinear_arith);
        }
        y = y + 1;
    }
    proof {
        lemma_finish(sw@, input@, done);
        lemma_finish_own(sw@, input@, done);
        lemma_finish_sums(sw@, input@, input_grey@, done);
        assert(sw@.lab_tag(0));
        assert(done == w * h) by (nonlinear_arith)
            requires
                done == y * w,
                y == h,
        ;
    }
    let topo = sw.finish();
    assert forall|p: int, j: int| 0 <= p < topo.len() && 0 <= j < children(topo@, p).len() implies topo[
        #[trigger] children(topo@, p)[j]].color != topo[p].color && topo[children(topo@, p)[j]].ymax()
        < topo[p].ymax() by {
        assert(children(topo@, p) == sw@.listed(p));
        let k = sw@.listed(p)[j];
    }
    topo
}

} // verus!
