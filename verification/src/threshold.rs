//! Adaptive binarization: a threshold for every pixel out of the mean gray
//! values of the 8 x 8 blocks around it.

use crate::raster::{buffer_dimensions, pixel, set_pixel, zeroed_buffer, GrayImage, Raster};
use vstd::prelude::*;

verus! {

/// The gray values of `k` pixels of row `y` from column `x0` on, added up.
pub open spec fn row_sum(img: Raster, y: int, x0: int, k: nat) -> int
    decreases k,
{
    if k == 0 {
        0
    } else {
        row_sum(img, y, x0, (k - 1) as nat) + img.at(x0 + k - 1, y)
    }
}

/// The gray values of the first `rows` rows of the block `(bx, by)`, added
/// up.
pub open spec fn block_sum(img: Raster, bx: int, by: int, rows: nat) -> int
    decreases rows,
{
    if rows == 0 {
        0
    } else {
        block_sum(img, bx, by, (rows - 1) as nat) + row_sum(img, by * 8 + rows - 1, bx * 8, 8)
    }
}

/// The mean gray value of the block `(bx, by)`, rounded down.
pub open spec fn block_mean(img: Raster, bx: int, by: int) -> int {
    block_sum(img, bx, by, 8) / 64
}

/// The threshold at `(x, y)`: the means of the block of the pixel and of
/// its neighbors to the right and below, weighed by where the pixel lies in
/// its block; in the last column and the last row of blocks, the mean of the
/// block alone.
pub open spec fn local_threshold(img: Raster, x: int, y: int) -> int {
    let bx = x / 8;
    let by = y / 8;
    if x >= img.width - 8 || y >= img.height() - 8 {
        block_mean(img, bx, by)
    } else {
        let fx = x % 8;
        let fy = y % 8;
        let upper = block_mean(img, bx + 1, by) * fx + block_mean(img, bx, by) * (8 - fx);
        let lower = block_mean(img, bx + 1, by + 1) * fx + block_mean(img, bx, by + 1) * (8 - fx);
        (lower * fy + upper * (8 - fy)) / 64
    }
}

/// The pixel `(x, y)` is foreground under the lower bound `hard`: it is
/// brighter than `hard`, and brighter than its threshold or nearly
/// saturated.
pub open spec fn is_foreground(img: Raster, x: int, y: int, hard: u8) -> bool {
    (img.at(x, y) > local_threshold(img, x, y) || img.at(x, y) > 255 - hard) && img.at(x, y) > hard
}

/// The binary raster of `img` under the lower bound `hard`: white (255)
/// where a pixel off the rim is foreground, black elsewhere.
pub open spec fn binary(img: Raster, hard: u8) -> Raster {
    Raster {
        rows: Seq::new(
            img.height(),
            |y: int|
                Seq::new(
                    img.width,
                    |x: int|
                        if !on_border(img.width as int, img.height() as int, x, y) && is_foreground(
                            img,
                            x,
                            y,
                            hard,
                        ) {
                            255u8
                        } else {
                            0u8
                        },
                ),
        ),
        width: img.width,
    }
}

/// A binary raster is black and white.
pub proof fn lemma_binary_black_and_white(img: Raster, hard: u8)
    ensures
        binary(img, hard).black_and_white(),
{
    let bin = binary(img, hard);
    assert forall|x: int, y: int| bin.contains(x, y) implies #[trigger] bin.at(x, y) == 0 || bin.at(x, y)
        == 255 by {}
}

/// The pixel `(x, y)` lies on the rim of a raster of `w` by `h` pixels.
pub open spec fn on_border(w: int, h: int, x: int, y: int) -> bool {
    x == 0 || y == 0 || x == w - 1 || y == h - 1
}

proof fn lemma_row_sum_bound(img: Raster, y: int, x0: int, k: nat)
    ensures
        0 <= row_sum(img, y, x0, k) <= 255 * k,
    decreases k,
{
    if k > 0 {
        lemma_row_sum_bound(img, y, x0, (k - 1) as nat);
    }
}

proof fn lemma_block_sum_bound(img: Raster, bx: int, by: int, rows: nat)
    ensures
        0 <= block_sum(img, bx, by, rows) <= 2040 * rows,
    decreases rows,
{
    if rows > 0 {
        lemma_block_sum_bound(img, bx, by, (rows - 1) as nat);
        lemma_row_sum_bound(img, by * 8 + rows - 1, bx * 8, 8);
    }
}

/// A threshold is a gray value.
pub proof fn lemma_threshold_bound(img: Raster, x: int, y: int)
    ensures
        0 <= local_threshold(img, x, y) <= 255,
{
    let bx = x / 8;
    let by = y / 8;
    lemma_block_sum_bound(img, bx, by, 8);
    lemma_block_sum_bound(img, bx + 1, by, 8);
    lemma_block_sum_bound(img, bx, by + 1, 8);
    lemma_block_sum_bound(img, bx + 1, by + 1, 8);
    let a = block_mean(img, bx, by);
    let b = block_mean(img, bx + 1, by);
    let c = block_mean(img, bx, by + 1);
    let d = block_mean(img, bx + 1, by + 1);
    let fx = x % 8;
    let fy = y % 8;
    let upper = b * fx + a * (8 - fx);
    let lower = d * fx + c * (8 - fx);
    assert(0 <= upper <= 255 * 8) by (nonlinear_arith)
        requires
            upper == b * fx + a * (8 - fx),
            0 <= a <= 255,
            0 <= b <= 255,
            0 <= fx < 8,
    ;
    assert(0 <= lower <= 255 * 8) by (nonlinear_arith)
        requires
            lower == d * fx + c * (8 - fx),
            0 <= c <= 255,
            0 <= d <= 255,
            0 <= fx < 8,
    ;
    assert(0 <= lower * fy + upper * (8 - fy) <= 255 * 64) by (nonlinear_arith)
        requires
            0 <= upper <= 255 * 8,
            0 <= lower <= 255 * 8,
            0 <= fy < 8,
    ;
}

/// The mean gray value of the block `(bx, by)`.
fn mean_of_block(input: &GrayImage, bx: u32, by: u32) -> (m: u32)
    requires
        input.wf(),
        bx * 8 + 8 <= input.width(),
        by * 8 + 8 <= input.height(),
    ensures
        m == block_mean(input@, bx as int, by as int),
        m <= 255,
{
    let mut sum: u32 = 0;
    let mut dy: u32 = 0;
    while dy < 8
        invariant
            dy <= 8,
            input.wf(),
            bx * 8 + 8 <= input.width(),
            by * 8 + 8 <= input.height(),
            sum == block_sum(input@, bx as int, by as int, dy as nat),
            sum <= 2040 * dy,
        decreases 8 - dy,
    {
        let mut line: u32 = 0;
        let mut dx: u32 = 0;
        while dx < 8
            invariant
                dx <= 8,
                dy < 8,
                input.wf(),
                bx * 8 + 8 <= input.width(),
                by * 8 + 8 <= input.height(),
                line == row_sum(input@, by * 8 + dy, bx * 8, dx as nat),
                line <= 255 * dx,
            decreases 8 - dx,
        {
            line = line + pixel(input, bx * 8 + dx, by * 8 + dy) as u32;
            dx = dx + 1;
        }
        sum = sum + line;
        dy = dy + 1;
    }
    sum / 64
}

/// The threshold of every pixel of `input`, as a raster of the same size;
/// `None` unless width and height are multiples of 8.
pub fn create_threshold(input: &GrayImage) -> (r: Option<GrayImage>)
    ensures
        r.is_some() <==> input.width() % 8 == 0 && input.height() % 8 == 0,
        r matches Some(out) ==> {
            &&& out.wf()
            &&& out.width() == input.width()
            &&& out.height() == input.height()
            &&& forall|x: int, y: int|
                out.contains(x, y) ==> #[trigger] out.at(x, y) == local_threshold(input@, x, y)
        },
{
    let (w, h) = buffer_dimensions(input);
    if w % 8 != 0 || h % 8 != 0 {
        return None;
    }
    let bw = w / 8;
    let bh = h / 8;
    let mut means: Vec<Vec<u32>> = Vec::new();
    let mut by: u32 = 0;
    while by < bh
        invariant
            by <= bh,
            bw * 8 == w,
            bh * 8 == h,
            input.wf(),
            input.width() == w,
            input.height() == h,
            means.len() == by,
            forall|j: int| 0 <= j < by ==> (#[trigger] means[j]).len() == bw,
            forall|j: int, i: int|
                0 <= j < by && 0 <= i < bw ==> #[trigger] means[j][i] == block_mean(input@, i, j),
        decreases bh - by,
    {
        let mut line: Vec<u32> = Vec::new();
        let mut bx: u32 = 0;
        while bx < bw
            invariant
                bx <= bw,
                by < bh,
                bw * 8 == w,
                bh * 8 == h,
                input.wf(),
                input.width() == w,
                input.height() == h,
                line.len() == bx,
                forall|i: int| 0 <= i < bx ==> #[trigger] line[i] == block_mean(input@, i, by as int),
            decreases bw - bx,
        {
            line.push(mean_of_block(input, bx, by));
            bx = bx + 1;
        }
        means.push(line);
        by = by + 1;
    }
    let mut output = zeroed_buffer(w, h);
    let mut y: u32 = 0;
    while y < h
        invariant
            y <= h,
            bw * 8 == w,
            bh * 8 == h,
            input.wf(),
            input.width() == w,
            input.height() == h,
            output.wf(),
            output.width() == w,
            output.height() == h,
            means.len() == bh,
            forall|j: int| 0 <= j < bh ==> (#[trigger] means[j]).len() == bw,
            forall|j: int, i: int|
                0 <= j < bh && 0 <= i < bw ==> #[trigger] means[j][i] == block_mean(input@, i, j),
            forall|i: int, j: int|
                0 <= i < w && 0 <= j < y ==> #[trigger] output.at(i, j) == local_threshold(input@, i, j),
        decreases h - y,
    {
        let mut x: u32 = 0;
        while x < w
            invariant
                x <= w,
                y < h,
                bw * 8 == w,
                bh * 8 == h,
                input.wf(),
                input.width() == w,
                input.height() == h,
                output.wf(),
                output.width() == w,
                output.height() == h,
                means.len() == bh,
                forall|j: int| 0 <= j < bh ==> (#[trigger] means[j]).len() == bw,
                forall|j: int, i: int|
                    0 <= j < bh && 0 <= i < bw ==> #[trigger] means[j][i] == block_mean(input@, i, j),
                forall|i: int, j: int|
                    0 <= i < w && 0 <= j < y ==> #[trigger] output.at(i, j) == local_threshold(
                        input@,
                        i,
                        j,
                    ),
                forall|i: int|
                    0 <= i < x ==> #[trigger] output.at(i, y as int) == local_threshold(
                        input@,
                        i,
                        y as int,
                    ),
            decreases w - x,
        {
            let bx = x / 8;
            let by = y / 8;
            proof {
                lemma_threshold_bound(input@, x as int, y as int);
            }
            let t: u32 = if x >= w - 8 || y >= h - 8 {
                means[by as usize][bx as usize]
            } else {
                let here = means[by as usize][bx as usize];
                let below = means[by as usize + 1][bx as usize];
                let right = means[by as usize][bx as usize + 1];
                let across = means[by as usize + 1][bx as usize + 1];
                let fx = x % 8;
                let fy = y % 8;
                proof {
                    lemma_block_sum_bound(input@, bx as int, by as int, 8);
                    lemma_block_sum_bound(input@, bx + 1, by as int, 8);
                    lemma_block_sum_bound(input@, bx as int, by + 1, 8);
                    lemma_block_sum_bound(input@, bx + 1, by + 1, 8);
                    assert(right * fx + here * (8 - fx) <= 255 * 8) by (nonlinear_arith)
                        requires
                            0 <= here <= 255,
                            0 <= right <= 255,
                            0 <= fx < 8,
                    ;
                    assert(across * fx + below * (8 - fx) <= 255 * 8) by (nonlinear_arith)
                        requires
                            0 <= below <= 255,
                            0 <= across <= 255,
                            0 <= fx < 8,
                    ;
                    assert(right * fx <= 255 * 8 && across * fx <= 255 * 8 && here * (8 - fx) <= 255 * 8 && below * (8
                        - fx) <= 255 * 8) by (nonlinear_arith)
                        requires
                            0 <= here <= 255,
                            0 <= below <= 255,
                            0 <= right <= 255,
                            0 <= across <= 255,
                            0 <= fx < 8,
                    ;
                }
                let upper = right * fx + here * (8 - fx);
                let lower = across * fx + below * (8 - fx);
                proof {
                    assert(lower * fy <= 255 * 64 && upper * (8 - fy) <= 255 * 64) by (nonlinear_arith)
                        requires
                            0 <= upper <= 255 * 8,
                            0 <= lower <= 255 * 8,
                            0 <= fy < 8,
                    ;
                }
                (lower * fy + upper * (8 - fy)) / 64
            };
            assert(t == local_threshold(input@, x as int, y as int));
            let ghost before = output;
            set_pixel(&mut output, x, y, t as u8);
            assert forall|i: int, j: int| 0 <= i < w && 0 <= j < h && !(i == x && j == y) implies output.at(i, j)
                == before.at(i, j) by {}
            x = x + 1;
        }
        y = y + 1;
    }
    Some(output)
}

/// Blackens the rim of the raster, one pixel wide, so that no component
/// but the background touches it.
pub fn add_border(input: &mut GrayImage)
    ensures
        final(input).wf(),
        final(input).width() == old(input).width(),
        final(input).height() == old(input).height(),
        forall|x: int, y: int|
            old(input).contains(x, y) ==> #[trigger] final(input).at(x, y) == (if on_border(
                old(input).width() as int,
                old(input).height() as int,
                x,
                y,
            ) {
                0u8
            } else {
                old(input).at(x, y)
            }),
{
    let (w, h) = buffer_dimensions(input);
    if w == 0 || h == 0 {
        return ;
    }
    let mut i: u32 = 0;
    while i < w
        invariant
            i <= w,
            0 < w,
            0 < h,
            input.wf(),
            input.width() == w,
            input.height() == h,
            old(input).width() == w,
            old(input).height() == h,
            forall|x: int, y: int|
                input.contains(x, y) ==> #[trigger] input.at(x, y) == (if x < i && (y == 0 || y == h - 1) {
                    0u8
                } else {
                    old(input).at(x, y)
                }),
        decreases w - i,
    {
        let ghost before = *input;
        set_pixel(input, i, 0, 0);
        let ghost between = *input;
        set_pixel(input, i, h - 1, 0);
        assert forall|x: int, y: int| input.contains(x, y) implies #[trigger] input.at(x, y) == (if x < i + 1
            && (y == 0 || y == h - 1) {
            0u8
        } else {
            old(input).at(x, y)
        }) by {
            assert(before.at(x, y) == (if x < i && (y == 0 || y == h - 1) {
                0u8
            } else {
                old(input).at(x, y)
            }));
            assert(between.contains(x, y));
        }
        i = i + 1;
    }
    let mut j: u32 = 0;
    while j < h
        invariant
            j <= h,
            0 < w,
            0 < h,
            input.wf(),
            input.width() == w,
            input.height() == h,
            old(input).width() == w,
            old(input).height() == h,
            forall|x: int, y: int|
                input.contains(x, y) ==> #[trigger] input.at(x, y) == (if y == 0 || y == h - 1 || (y < j && (x
                    == 0 || x == w - 1)) {
                    0u8
                } else {
                    old(input).at(x, y)
                }),
        decreases h - j,
    {
        let ghost before = *input;
        set_pixel(input, 0, j, 0);
        let ghost between = *input;
        set_pixel(input, w - 1, j, 0);
        assert forall|x: int, y: int| input.contains(x, y) implies #[trigger] input.at(x, y) == (if y == 0 || y
            == h - 1 || (y < j + 1 && (x == 0 || x == w - 1)) {
            0u8
        } else {
            old(input).at(x, y)
        }) by {
            assert(before.at(x, y) == (if y == 0 || y == h - 1 || (y < j && (x == 0 || x == w - 1)) {
                0u8
            } else {
                old(input).at(x, y)
            }));
            assert(between.contains(x, y));
        }
        j = j + 1;
    }
}

/// The binary raster of `input`: 255 where a pixel off the rim is
/// foreground under the lower bound `hard_thresh`, 0 elsewhere; `None`
/// unless width and height are multiples of 8.
pub fn binarize(input: &GrayImage, hard_thresh: u8) -> (r: Option<GrayImage>)
    ensures
        r.is_some() <==> input.width() % 8 == 0 && input.height() % 8 == 0,
        r matches Some(out) ==> {
            &&& out.wf()
            &&& out@ == binary(input@, hard_thresh)
            &&& out.width() == input.width()
            &&& out.height() == input.height()
            &&& forall|x: int, y: int|
                out.contains(x, y) ==> #[trigger] out.at(x, y) == (if !on_border(
                    input.width() as int,
                    input.height() as int,
                    x,
                    y,
                ) && is_foreground(input@, x, y, hard_thresh) {
                    255u8
                } else {
                    0u8
                })
        },
{
    let (w, h) = buffer_dimensions(input);
    let threshold_map = match create_threshold(input) {
        Some(map) => map,
        None => {
            return None;
        },
    };
    let mut output = zeroed_buffer(w, h);
    let mut y: u32 = 0;
    while y < h
        invariant
            y <= h,
            input.wf(),
            input.width() == w,
            input.height() == h,
            threshold_map.wf(),
            threshold_map.width() == w,
            threshold_map.height() == h,
            forall|i: int, j: int|
                threshold_map.contains(i, j) ==> #[trigger] threshold_map.at(i, j) == local_threshold(
                    input@,
                    i,
                    j,
                ),
            output.wf(),
            output.width() == w,
            output.height() == h,
            forall|i: int, j: int|
                0 <= i < w && 0 <= j < y ==> #[trigger] output.at(i, j) == (if is_foreground(
                    input@,
                    i,
                    j,
                    hard_thresh,
                ) {
                    255u8
                } else {
                    0u8
                }),
        decreases h - y,
    {
        let mut x: u32 = 0;
        while x < w
            invariant
                x <= w,
                y < h,
                input.wf(),
                input.width() == w,
                input.height() == h,
                threshold_map.wf(),
                threshold_map.width() == w,
                threshold_map.height() == h,
                forall|i: int, j: int|
                    threshold_map.contains(i, j) ==> #[trigger] threshold_map.at(i, j) == local_threshold(
                        input@,
                        i,
                        j,
                    ),
                output.wf(),
                output.width() == w,
                output.height() == h,
                forall|i: int, j: int|
                    0 <= i < w && 0 <= j < y ==> #[trigger] output.at(i, j) == (if is_foreground(
                        input@,
                        i,
                        j,
                        hard_thresh,
                    ) {
                        255u8
                    } else {
                        0u8
                    }),
                forall|i: int|
                    0 <= i < x ==> #[trigger] output.at(i, y as int) == (if is_foreground(
                        input@,
                        i,
                        y as int,
                        hard_thresh,
                    ) {
                        255u8
                    } else {
                        0u8
                    }),
            decreases w - x,
        {
            let v = pixel(input, x, y);
            let t = pixel(&threshold_map, x, y);
            assert(threshold_map.contains(x as int, y as int));
            let lit = (v > t || v > 255 - hard_thresh) && v > hard_thresh;
            let ghost before = output;
            set_pixel(&mut output, x, y, if lit {
                255
            } else {
                0
            });
            assert forall|i: int, j: int| 0 <= i < w && 0 <= j < h && !(i == x && j == y) implies output.at(i, j)
                == before.at(i, j) by {}
            x = x + 1;
        }
        y = y + 1;
    }
    add_border(&mut output);
    proof {
        let want = binary(input@, hard_thresh);
        assert forall|y: int| 0 <= y < h implies #[trigger] output@.rows[y] =~= want.rows[y] by {
            assert forall|x: int| 0 <= x < w implies output@.rows[y][x] == want.rows[y][x] by {
                assert(output.contains(x, y));
                assert(output.at(x, y) == output@.rows[y][x]);
            }
        }
        assert(output@.rows =~= want.rows);
    }
    Some(output)
}

} // verus!
