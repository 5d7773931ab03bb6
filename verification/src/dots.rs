//! Dot recovery: where binarization has clipped the rim of a small dot, the
//! moments of the dot are made up by the pixels that lie around it.

use crate::raster::{
    buffer_dimensions, crop, dark_components, dilate_one, grid, label_dark, pixel, set_pixel,
    zeroed_buffer, GrayImage, Raster,
};
use crate::segmentation::{weight, FeatureVector};
use vstd::prelude::*;

verus! {

/// The pixel `(i, j)` of the window carries the label `id`.
pub open spec fn picked(labels: Seq<Seq<u32>>, id: u32, i: int, j: int) -> bool {
    0 <= j < labels.len() && 0 <= i < labels[j].len() && labels[j][i] == id
}

/// A pixel with the label `id` lies at `(i, j)` or next to it, diagonals
/// counted.
pub open spec fn near_picked(labels: Seq<Seq<u32>>, id: u32, i: int, j: int) -> bool {
    exists|a: int, b: int| i - 1 <= a <= i + 1 && j - 1 <= b <= j + 1 && #[trigger] picked(labels, id, a, b)
}

/// The pixel `(i, j)` of the window lies on the ring around the component
/// `id`: next to it, and white in the binary raster.
pub open spec fn on_ring(labels: Seq<Seq<u32>>, id: u32, i: int, j: int) -> bool {
    near_picked(labels, id, i, j) && labels[j][i] == 0
}

/// `fv` after the ring pixels among the first `n` pixels of row `j` of the
/// window have been weighed in. The window has its upper left corner at
/// `(x0, y0)`.
pub open spec fn ring_row(
    fv: FeatureVector,
    grey: Raster,
    x0: int,
    y0: int,
    labels: Seq<Seq<u32>>,
    id: u32,
    j: int,
    n: nat,
) -> FeatureVector
    decreases n,
{
    if n == 0 {
        fv
    } else {
        let before = ring_row(fv, grey, x0, y0, labels, id, j, (n - 1) as nat);
        if on_ring(labels, id, n - 1, j) {
            before.with_moments(
                (x0 + n - 1) as u32,
                (y0 + j) as u32,
                grey.at(x0 + n - 1, y0 + j) as u32,
                before.color,
            )
        } else {
            before
        }
    }
}

/// `fv` after the ring pixels of the first `m` rows of the window have been
/// weighed in, row by row.
pub open spec fn ring_rows(
    fv: FeatureVector,
    grey: Raster,
    x0: int,
    y0: int,
    labels: Seq<Seq<u32>>,
    id: u32,
    width: nat,
    m: nat,
) -> FeatureVector
    decreases m,
{
    if m == 0 {
        fv
    } else {
        ring_row(
            ring_rows(fv, grey, x0, y0, labels, id, width, (m - 1) as nat),
            grey,
            x0,
            y0,
            labels,
            id,
            m - 1,
            width,
        )
    }
}

/// The moments can take every pixel of a window of `count` pixels in a
/// raster of `w` by `h` pixels.
pub open spec fn has_room(fv: FeatureVector, w: int, h: int, count: int) -> bool {
    &&& fv.zom + 255 * count <= u64::MAX
    &&& fv.fom[0] + 255 * w * count <= u64::MAX
    &&& fv.fom[1] + 255 * h * count <= u64::MAX
}

/// The box of `fv` is too close to the rim of a raster of `w` by `h`
/// pixels for a window around it.
pub open spec fn near_rim(fv: FeatureVector, w: int, h: int) -> bool {
    fv.xmin() <= 3 || fv.ymin() <= 3 || fv.xmax() + 6 >= w || fv.ymax() + 6 >= h
}

proof fn lemma_cell_count(i: int, j: int, rw: int, rh: int)
    requires
        0 <= i < rw,
        0 <= j < rh,
    ensures
        0 <= j * rw + i < rw * rh,
        (j + 1) * rw == j * rw + rw,
{
    assert(j * rw + rw <= rw * rh) by (nonlinear_arith)
        requires
            0 <= j < rh,
            0 <= rw,
    ;
    assert(0 <= j * rw) by (nonlinear_arith)
        requires
            0 <= j,
            0 <= rw,
    ;
    assert((j + 1) * rw == j * rw + rw) by (nonlinear_arith);
}

proof fn lemma_room_step(m: int, cap: int, cnt: int, total: int, c: int, wgt: int, limit: int)
    requires
        m <= cap + 255 * limit * cnt,
        cap + 255 * limit * total <= u64::MAX,
        0 <= cnt < total,
        0 <= c <= limit,
        0 <= wgt <= 255,
    ensures
        m + c * wgt <= cap + 255 * limit * (cnt + 1),
        m + c * wgt <= u64::MAX,
        0 <= c * wgt,
{
    assert(c * wgt <= 255 * limit && 0 <= c * wgt) by (nonlinear_arith)
        requires
            0 <= c <= limit,
            0 <= wgt <= 255,
    ;
    assert(255 * limit * (cnt + 1) == 255 * limit * cnt + 255 * limit) by (nonlinear_arith);
    assert(255 * limit * (cnt + 1) <= 255 * limit * total) by (nonlinear_arith)
        requires
            cnt + 1 <= total,
            0 <= limit,
    ;
}

/// Weighs the ring around the component `id` of the window into the
/// moments of `fv`: the pixels of the window that carry the label 0 and lie
/// next to a pixel with the label `id`. The window has its upper left corner
/// at `(x0, y0)` of `input`, and `labels` holds a label for each of its
/// pixels; its width and height together fit in 32 bits. The area of `fv`
/// stays as it is.
pub fn refine_moments(
    input: &GrayImage,
    x0: u32,
    y0: u32,
    labels: &Vec<Vec<u32>>,
    id: u32,
    fv: &mut FeatureVector,
)
    requires
        labels.len() > 0,
        labels[0].len() > 0,
        forall|j: int| 0 <= j < labels.len() ==> (#[trigger] labels[j]).len() == labels[0].len(),
        labels[0].len() + labels.len() <= u32::MAX,
        x0 + labels[0].len() <= input.width(),
        y0 + labels.len() <= input.height(),
        has_room(*old(fv), input.width() as int, input.height() as int, labels[0].len() * labels.len()),
    ensures
        *final(fv) == ring_rows(
            *old(fv),
            input@,
            x0 as int,
            y0 as int,
            grid(labels@),
            id,
            labels[0].len() as nat,
            labels.len() as nat,
        ),
{
    let (w, h) = buffer_dimensions(input);
    let rh = labels.len() as u32;
    let rw = labels[0].len() as u32;
    let ghost lab = grid(labels@);
    assert forall|j: int| 0 <= j < rh implies #[trigger] lab[j] == labels[j]@ by {}
    proof {
        assert(rw * rh <= w * h) by (nonlinear_arith)
            requires
                0 <= rw <= w,
                0 <= rh <= h,
        ;
    }
    // the pixels with the label `id`, white on black
    let mut mask = zeroed_buffer(rw, rh);
    let mut j: u32 = 0;
    while j < rh
        invariant
            j <= rh,
            rh == labels.len(),
            rw == labels[0].len(),
            forall|b: int| 0 <= b < labels.len() ==> (#[trigger] labels[b]).len() == rw,
            mask.wf(),
            mask.width() == rw,
            mask.height() == rh,
            forall|a: int, b: int|
                mask.contains(a, b) ==> #[trigger] mask.at(a, b) == (if b < j && labels[b][a] == id {
                    255u8
                } else {
                    0u8
                }),
        decreases rh - j,
    {
        let mut i: u32 = 0;
        while i < rw
            invariant
                i <= rw,
                j < rh,
                rh == labels.len(),
                rw == labels[0].len(),
                forall|b: int| 0 <= b < labels.len() ==> (#[trigger] labels[b]).len() == rw,
                mask.wf(),
                mask.width() == rw,
                mask.height() == rh,
                forall|a: int, b: int|
                    mask.contains(a, b) ==> #[trigger] mask.at(a, b) == (if (b < j || (b == j && a < i))
                        && labels[b][a] == id {
                        255u8
                    } else {
                        0u8
                    }),
            decreases rw - i,
        {
            if labels[j as usize][i as usize] == id {
                let ghost before = mask;
                set_pixel(&mut mask, i, j, 255);
                assert forall|a: int, b: int| mask.contains(a, b) && !(a == i && b == j) implies mask.at(a, b)
                    == before.at(a, b) by {}
            }
            i = i + 1;
        }
        j = j + 1;
    }
    let dilated = dilate_one(&mask);
    assert forall|a: int, b: int| 0 <= a < rw && 0 <= b < rh implies (#[trigger] dilated.at(a, b) != 0)
        == near_picked(lab, id, a, b) by {
        assert(dilated.contains(a, b));
        if mask.lit_near(a, b) {
            let (p, q) = choose|p: int, q: int|
                a - 1 <= p <= a + 1 && b - 1 <= q <= b + 1 && #[trigger] mask.lit(p, q);
            assert(mask.contains(p, q) && mask.at(p, q) > 0);
            assert(picked(lab, id, p, q));
        }
        if near_picked(lab, id, a, b) {
            let (p, q) = choose|p: int, q: int|
                a - 1 <= p <= a + 1 && b - 1 <= q <= b + 1 && #[trigger] picked(lab, id, p, q);
            assert(mask.contains(p, q) && mask.at(p, q) == 255);
            assert(mask.lit(p, q));
        }
    }
    let ghost start = *fv;
    let ghost mut cnt: int = 0;
    let mut j: u32 = 0;
    while j < rh
        invariant
            j <= rh,
            rh == labels.len(),
            rw == labels[0].len(),
            0 < rw,
            lab == grid(labels@),
            forall|b: int| 0 <= b < labels.len() ==> (#[trigger] labels[b]).len() == rw,
            forall|b: int| 0 <= b < rh ==> #[trigger] lab[b] == labels[b]@,
            input.wf(),
            input.width() == w,
            input.height() == h,
            x0 + rw <= w,
            y0 + rh <= h,
            dilated.wf(),
            dilated.width() == rw,
            dilated.height() == rh,
            forall|a: int, b: int|
                0 <= a < rw && 0 <= b < rh ==> (#[trigger] dilated.at(a, b) != 0) == near_picked(lab, id, a, b),
            has_room(start, w as int, h as int, rw * rh),
            cnt == j * rw,
            fv.zom <= start.zom + 255 * cnt,
            fv.fom[0] <= start.fom[0] + 255 * w * cnt,
            fv.fom[1] <= start.fom[1] + 255 * h * cnt,
            *fv == ring_rows(start, input@, x0 as int, y0 as int, lab, id, rw as nat, j as nat),
        decreases rh - j,
    {
        let ghost row_start = *fv;
        let mut i: u32 = 0;
        while i < rw
            invariant
                i <= rw,
                j < rh,
                rh == labels.len(),
                rw == labels[0].len(),
                lab == grid(labels@),
                forall|b: int| 0 <= b < labels.len() ==> (#[trigger] labels[b]).len() == rw,
                forall|b: int| 0 <= b < rh ==> #[trigger] lab[b] == labels[b]@,
                input.wf(),
                input.width() == w,
                input.height() == h,
                x0 + rw <= w,
                y0 + rh <= h,
                dilated.wf(),
                dilated.width() == rw,
                dilated.height() == rh,
                forall|a: int, b: int|
                    0 <= a < rw && 0 <= b < rh ==> (#[trigger] dilated.at(a, b) != 0) == near_picked(
                        lab,
                        id,
                        a,
                        b,
                    ),
                has_room(start, w as int, h as int, rw * rh),
                cnt == j * rw + i,
                fv.zom <= start.zom + 255 * cnt,
                fv.fom[0] <= start.fom[0] + 255 * w * cnt,
                fv.fom[1] <= start.fom[1] + 255 * h * cnt,
                *fv == ring_row(row_start, input@, x0 as int, y0 as int, lab, id, j as int, i as nat),
            decreases rw - i,
        {
            proof {
                lemma_cell_count(i as int, j as int, rw as int, rh as int);
            }
            let near = pixel(&dilated, i, j) != 0;
            if near && labels[j as usize][i as usize] == 0 {
                let value = pixel(input, x0 + i, y0 + j) as u32;
                let color = fv.color;
                proof {
                    let wgt = weight(value, color);
                    lemma_room_step(fv.zom as int, start.zom as int, cnt, rw * rh, 1, wgt, 1);
                    lemma_room_step(
                        fv.fom[0] as int,
                        start.fom[0] as int,
                        cnt,
                        rw * rh,
                        x0 + i,
                        wgt,
                        w as int,
                    );
                    lemma_room_step(
                        fv.fom[1] as int,
                        start.fom[1] as int,
                        cnt,
                        rw * rh,
                        y0 + j,
                        wgt,
                        h as int,
                    );
                }
                fv.add_pixel_no_area(x0 + i, y0 + j, value, color);
            }
            proof {
                assert(255 * w * (cnt + 1) == 255 * w * cnt + 255 * w) by (nonlinear_arith);
                assert(255 * h * (cnt + 1) == 255 * h * cnt + 255 * h) by (nonlinear_arith);
                cnt = cnt + 1;
            }
            i = i + 1;
        }
        proof {
            lemma_cell_count(0, j as int, rw as int, rh as int);
        }
        j = j + 1;
    }
}

/// The window around the box of `fv`: three pixels wider to the left and
/// above, and five to the right and below.
pub open spec fn window_around(bin: Raster, fv: FeatureVector) -> Raster {
    Raster {
        rows: bin.window(
            fv.xmin() - 3,
            fv.ymin() - 3,
            (fv.xmax() - fv.xmin() + 9) as nat,
            (fv.ymax() - fv.ymin() + 9) as nat,
        ),
        width: (fv.xmax() - fv.xmin() + 9) as nat,
    }
}

/// The window around the box of `fv` holds fewer than 2^32 - 1 pixels, its
/// components can be labelled, and the moments of `fv` can take all its
/// pixels. The window of a raster in black and white can always be
/// labelled.
pub open spec fn can_refine(bin: Raster, grey: Raster, fv: FeatureVector) -> bool {
    &&& grey.width == bin.width
    &&& grey.height() == bin.height()
    &&& fv.xmin() <= fv.max_x <= fv.xmax()
    &&& fv.ymin() <= fv.ymax()
    &&& !near_rim(fv, bin.width as int, bin.height() as int) ==> {
        &&& (fv.xmax() - fv.xmin() + 9) * (fv.ymax() - fv.ymin() + 9) < u32::MAX
        &&& has_room(
            fv,
            bin.width as int,
            bin.height() as int,
            (fv.xmax() - fv.xmin() + 9) * (fv.ymax() - fv.ymin() + 9),
        )
        &&& window_around(bin, fv).labelable()
    }
}

/// In a raster in black and white, the window around a box that keeps off
/// the rim can be labelled: of its first two pixels one is white, or both
/// are black.
pub proof fn lemma_window_labelable(bin: Raster, fv: FeatureVector)
    requires
        bin.black_and_white(),
        fv.xmin() <= fv.xmax(),
        fv.ymin() <= fv.ymax(),
        !near_rim(fv, bin.width as int, bin.height() as int),
    ensures
        window_around(bin, fv).labelable(),
{
    let win = window_around(bin, fv);
    let x0 = fv.xmin() - 3;
    let y0 = fv.ymin() - 3;
    assert(win.contains(0, 0) && win.contains(1, 0));
    assert(win.at(0, 0) == bin.at(x0, y0));
    assert(win.at(1, 0) == bin.at(x0 + 1, y0));
    assert(bin.contains(x0, y0) && bin.contains(x0 + 1, y0));
    if win.at(0, 0) == 255 {
        assert(win.repeats(0, 0));
    } else {
        assert(win.repeats(1, 0));
    }
}

/// `fv` with the moments of a dot made up. In a window around the box of
/// `fv`, three pixels wider to the left and above and five to the right and
/// below, the dark component that holds the pixel `(max_x, ymax)` of `fv` is
/// looked up, and the white pixels next to it are weighed into the moments.
/// A box too close to the rim is left as it is.
pub open spec fn refined(bin: Raster, grey: Raster, fv: FeatureVector) -> FeatureVector {
    if near_rim(fv, bin.width as int, bin.height() as int) {
        fv
    } else {
        let x0 = fv.xmin() - 3;
        let y0 = fv.ymin() - 3;
        let rw = (fv.xmax() - fv.xmin() + 9) as nat;
        let rh = (fv.ymax() - fv.ymin() + 9) as nat;
        let labels = dark_components(window_around(bin, fv).rows);
        ring_rows(fv, grey, x0, y0, labels, labels[fv.ymax() - y0][fv.max_x - x0], rw, rh)
    }
}

/// Makes up for what binarization has clipped off a small dot.
pub fn dilate_fv(bin_input: &GrayImage, input: &GrayImage, fv: &mut FeatureVector)
    requires
        can_refine(bin_input@, input@, *old(fv)),
    ensures
        *final(fv) == refined(bin_input@, input@, *old(fv)),
{
    let (w, h) = buffer_dimensions(bin_input);
    let (gw, gh) = buffer_dimensions(input);
    let buffer: u32 = 3;
    let xmin = fv.bounding_box[0].0;
    let ymin = fv.bounding_box[0].1;
    let xmax = fv.bounding_box[1].0;
    let ymax = fv.bounding_box[1].1;
    if xmin <= buffer || ymin <= buffer || xmax as u64 + buffer as u64 * 2 >= w as u64 || ymax as u64
        + buffer as u64 * 2 >= h as u64 {
        return ;
    }
    let x = xmin - buffer;
    let y = ymin - buffer;
    let width = xmax - x + buffer * 2;
    let height = ymax - y + buffer * 2;
    assert(width + height <= width * height) by (nonlinear_arith)
        requires
            width >= 9,
            height >= 9,
    ;
    let roi = crop(bin_input, x, y, width, height);
    assert(roi@ == window_around(bin_input@, *fv));
    let connected = label_dark(&roi);
    let connected_id = connected[(ymax - y) as usize][(fv.max_x - x) as usize];
    assert(grid(connected@)[ymax - y] == connected[ymax - y]@);
    refine_moments(input, x, y, &connected, connected_id, fv);
}

/// Whether the moments of `fv` can take `count` more pixels of a raster of
/// `w` by `h` pixels.
fn room_for(fv: &FeatureVector, w: u32, h: u32, count: u64) -> (ok: bool)
    requires
        count < 0x1_0000_0000,
    ensures
        ok == has_room(*fv, w as int, h as int, count as int),
{
    assert(255 * count <= 255 * 0xffff_ffff);
    assert(255 * w * count <= 255 * 0xffff_ffff * 0xffff_ffff && 255 * h * count <= 255 * 0xffff_ffff
        * 0xffff_ffff && 0 <= 255 * w * count && 0 <= 255 * h * count) by (nonlinear_arith)
        requires
            0 <= w <= 0xffff_ffff,
            0 <= h <= 0xffff_ffff,
            0 <= count <= 0xffff_ffff,
    ;
    assert(255 * w <= 255 * 0xffff_ffff && 255 * h <= 255 * 0xffff_ffff);
    let zom_add: u128 = 255 * count as u128;
    let x_add: u128 = 255 * w as u128 * count as u128;
    let y_add: u128 = 255 * h as u128 * count as u128;
    fv.zom as u128 + zom_add <= u64::MAX as u128 && fv.fom[0] as u128 + x_add <= u64::MAX as u128
        && fv.fom[1] as u128 + y_add <= u64::MAX as u128
}

/// Whether the components of the window of `rw` by `rh` pixels whose upper
/// left corner is `(x0, y0)` can be labelled. The rows are read until a
/// pixel is found that is white or repeats a neighbor: in a raster in black
/// and white that is the first pixel or the second.
fn window_labelable(img: &GrayImage, x0: u32, y0: u32, rw: u32, rh: u32) -> (ok: bool)
    requires
        img.wf(),
        rw > 0,
        rh > 0,
        x0 + rw <= img.width(),
        y0 + rh <= img.height(),
    ensures
        ok == (Raster {
            rows: img.window(x0 as int, y0 as int, rw as nat, rh as nat),
            width: rw as nat,
        }).labelable(),
{
    let ghost win = Raster { rows: img.window(x0 as int, y0 as int, rw as nat, rh as nat), width: rw as nat };
    assert(win.height() == rh);
    assert forall|a: int, b: int| 0 <= a < rw && 0 <= b < rh implies #[trigger] win.at(a, b) == img.at(
        x0 + a,
        y0 + b,
    ) by {}
    let mut j: u32 = 0;
    while j < rh
        invariant
            j <= rh,
            rw > 0,
            img.wf(),
            x0 + rw <= img.width(),
            y0 + rh <= img.height(),
            win == (Raster { rows: img.window(x0 as int, y0 as int, rw as nat, rh as nat), width: rw as nat }),
            win.height() == rh,
            forall|a: int, b: int| 0 <= a < rw && 0 <= b < rh ==> #[trigger] win.at(a, b) == img.at(x0 + a, y0 + b),
            forall|a: int, b: int| 0 <= a < rw && 0 <= b < j ==> !#[trigger] win.repeats(a, b),
        decreases rh - j,
    {
        let mut i: u32 = 0;
        while i < rw
            invariant
                i <= rw,
                j < rh,
                img.wf(),
                x0 + rw <= img.width(),
                y0 + rh <= img.height(),
                win == (Raster {
                    rows: img.window(x0 as int, y0 as int, rw as nat, rh as nat),
                    width: rw as nat,
                }),
                win.height() == rh,
                forall|a: int, b: int|
                    0 <= a < rw && 0 <= b < rh ==> #[trigger] win.at(a, b) == img.at(x0 + a, y0 + b),
                forall|a: int, b: int| 0 <= a < rw && 0 <= b < j ==> !#[trigger] win.repeats(a, b),
                forall|a: int| 0 <= a < i ==> !#[trigger] win.repeats(a, j as int),
            decreases rw - i,
        {
            let v = pixel(img, x0 + i, y0 + j);
            let hit = v == 255 || (i > 0 && pixel(img, x0 + i - 1, y0 + j) == v) || (j > 0 && pixel(
                img,
                x0 + i,
                y0 + j - 1,
            ) == v);
            proof {
                assert(win.at(i as int, j as int) == v);
                if i > 0 {
                    assert(win.at(i - 1, j as int) == img.at(x0 + i - 1, y0 + j));
                }
                if j > 0 {
                    assert(win.at(i as int, j - 1) == img.at(x0 + i, y0 + j - 1));
                }
                assert(hit == win.repeats(i as int, j as int));
            }
            if hit {
                assert(win.contains(i as int, j as int));
                return true;
            }
            i = i + 1;
        }
        j = j + 1;
    }
    false
}

/// Makes up for what binarization has clipped off a small dot, where the
/// rasters agree in size, the box of `fv` is in order, its moments have
/// room and the window around it can be labelled; else `fv` stays as it
/// is. Tells whether that was so.
pub fn try_dilate_fv(bin_input: &GrayImage, input: &GrayImage, fv: &mut FeatureVector) -> (done: bool)
    ensures
        done == can_refine(bin_input@, input@, *old(fv)),
        done ==> *final(fv) == refined(bin_input@, input@, *old(fv)),
        !done ==> *final(fv) == *old(fv),
{
    let (w, h) = buffer_dimensions(bin_input);
    let (gw, gh) = buffer_dimensions(input);
    let xmin = fv.bounding_box[0].0;
    let ymin = fv.bounding_box[0].1;
    let xmax = fv.bounding_box[1].0;
    let ymax = fv.bounding_box[1].1;
    if gw != w || gh != h || xmin > fv.max_x || fv.max_x > xmax || ymin > ymax {
        return false;
    }
    if !(xmin <= 3 || ymin <= 3 || xmax as u64 + 6 >= w as u64 || ymax as u64 + 6 >= h as u64) {
        let rw = (xmax - xmin) as u64 + 9;
        let rh = (ymax - ymin) as u64 + 9;
        assert(rw * rh <= 0x1_0000_0008 * 0x1_0000_0008) by (nonlinear_arith)
            requires
                rw <= 0x1_0000_0008,
                rh <= 0x1_0000_0008,
        ;
        let count: u128 = rw as u128 * rh as u128;
        if count >= 0xffff_ffff {
            return false;
        }
        if !room_for(fv, w, h, count as u64) {
            return false;
        }
        if !window_labelable(bin_input, xmin - 3, ymin - 3, xmax - xmin + 9, ymax - ymin + 9) {
            return false;
        }
    }
    dilate_fv(bin_input, input, fv);
    true
}

} // verus!
