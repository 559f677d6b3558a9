//! Color averaging: reducing a square block of pixels to its mean RGB triple,
//! and averaging every block of the partition grid in one pass.

use vstd::prelude::*;
use crate::MosaicError;
use crate::grid::divide_to_squares;
use crate::grid::grid_len;
use crate::grid::grid_x;
use crate::grid::grid_y;
use crate::pixel::PixelBuffer;
use crate::pixel::Rgb;
use vstd::arithmetic::div_mod::lemma_div_by_multiple;
use vstd::arithmetic::div_mod::lemma_div_is_ordered;
use vstd::arithmetic::mul::lemma_mul_strictly_positive;

verus! {

/// The integer-truncated mean of each channel over a square block, together
/// with the side length the mean was computed over.
#[derive(Clone, Copy, Debug, PartialEq, Eq, Structural)]
pub struct AverageColor {
    pub r: u8,
    pub g: u8,
    pub b: u8,
    pub size: u32,
}

/// An average color with its grid placement in the target image. The
/// placement is present for tiling and absent when only a whole-image
/// average was taken.
#[derive(Clone, Copy, Debug)]
pub struct TargetBlock {
    pub avg: AverageColor,
    pub x: Option<u32>,
    pub y: Option<u32>,
}

/// Channel sums over the first `n` pixels of the row at height `y` starting
/// at column `x`: (red, green, blue).
pub open spec fn row_sum(buf: PixelBuffer, x: int, y: int, n: int) -> (int, int, int)
    decreases n,
{
    if n <= 0 {
        (0, 0, 0)
    } else {
        let p = row_sum(buf, x, y, n - 1);
        let q = buf.pixel(x + n - 1, y);
        (p.0 + q.r, p.1 + q.g, p.2 + q.b)
    }
}

/// Channel sums over the first `m` rows of the width-`s` block at (x, y).
pub open spec fn block_sum(buf: PixelBuffer, x: int, y: int, s: int, m: int) -> (int, int, int)
    decreases m,
{
    if m <= 0 {
        (0, 0, 0)
    } else {
        let p = block_sum(buf, x, y, s, m - 1);
        let q = row_sum(buf, x, y + m - 1, s);
        (p.0 + q.0, p.1 + q.1, p.2 + q.2)
    }
}

/// The mean color of the side-`s` block at (x, y): each channel sum divided,
/// integer-truncated, by the pixel count `s * s`.
pub open spec fn block_avg(buf: PixelBuffer, x: int, y: int, s: int) -> (int, int, int) {
    let t = block_sum(buf, x, y, s, s);
    (t.0 / (s * s), t.1 / (s * s), t.2 / (s * s))
}

/// Each channel sum over a row of `n` pixels lies between 0 and `255 * n`.
pub proof fn lemma_row_sum_bounds(buf: PixelBuffer, x: int, y: int, n: int)
    requires
        0 <= n,
    ensures
        0 <= row_sum(buf, x, y, n).0 <= 255 * n,
        0 <= row_sum(buf, x, y, n).1 <= 255 * n,
        0 <= row_sum(buf, x, y, n).2 <= 255 * n,
    decreases n,
{
    if n > 0 {
        lemma_row_sum_bounds(buf, x, y, n - 1);
    }
}

/// Each channel sum over `m` rows of `s` pixels lies between 0 and
/// `255 * s * m`.
pub proof fn lemma_block_sum_bounds(buf: PixelBuffer, x: int, y: int, s: int, m: int)
    requires
        0 <= s,
        0 <= m,
    ensures
        0 <= block_sum(buf, x, y, s, m).0 <= 255 * s * m,
        0 <= block_sum(buf, x, y, s, m).1 <= 255 * s * m,
        0 <= block_sum(buf, x, y, s, m).2 <= 255 * s * m,
    decreases m,
{
    if m > 0 {
        lemma_block_sum_bounds(buf, x, y, s, m - 1);
        lemma_row_sum_bounds(buf, x, y + m - 1, s);
        assert(255 * s * (m - 1) + 255 * s == 255 * s * m) by (nonlinear_arith);
    } else {
        assert(255 * s * 0 == 0) by (nonlinear_arith);
    }
}

/// The integer-truncated mean color of the side-`size` block of `buf` whose
/// top-left corner is (x, y).
pub fn avg_color_block(buf: &PixelBuffer, x: u32, y: u32, size: u32) -> (avg: AverageColor)
    requires
        buf.wf(),
        size > 0,
        x + size <= buf.width,
        y + size <= buf.height,
    ensures
        avg.size == size,
        avg.r as int == block_avg(*buf, x as int, y as int, size as int).0,
        avg.g as int == block_avg(*buf, x as int, y as int, size as int).1,
        avg.b as int == block_avg(*buf, x as int, y as int, size as int).2,
{
    let total: usize = buf.pixels.len();
    let ghost bx = x as int;
    let ghost by = y as int;
    let ghost s = size as int;
    let mut sr: u128 = 0;
    let mut sg: u128 = 0;
    let mut sb: u128 = 0;
    let mut j: u32 = 0;
    while j < size
        invariant
            buf.wf(),
            buf.pixels@.len() == total,
            bx == x,
            by == y,
            s == size,
            0 < s,
            x + size <= buf.width,
            y + size <= buf.height,
            j <= size,
            sr == block_sum(*buf, bx, by, s, j as int).0,
            sg == block_sum(*buf, bx, by, s, j as int).1,
            sb == block_sum(*buf, bx, by, s, j as int).2,
        decreases size - j,
    {
        let ghost row_base_r = sr as int;
        let ghost row_base_g = sg as int;
        let ghost row_base_b = sb as int;
        let mut i: u32 = 0;
        while i < size
            invariant
                buf.wf(),
                buf.pixels@.len() == total,
                bx == x,
                by == y,
                s == size,
                0 < s,
                x + size <= buf.width,
                y + size <= buf.height,
                j < size,
                i <= size,
                sr == row_base_r + row_sum(*buf, bx, by + j, i as int).0,
                sg == row_base_g + row_sum(*buf, bx, by + j, i as int).1,
                sb == row_base_b + row_sum(*buf, bx, by + j, i as int).2,
                row_base_r == block_sum(*buf, bx, by, s, j as int).0,
                row_base_g == block_sum(*buf, bx, by, s, j as int).1,
                row_base_b == block_sum(*buf, bx, by, s, j as int).2,
            decreases size - i,
        {
            proof {
                crate::pixel::lemma_index_in_bounds(
                    bx + i,
                    by + j,
                    buf.width as int,
                    buf.height as int,
                );
                lemma_block_sum_bounds(*buf, bx, by, s, j as int);
                lemma_row_sum_bounds(*buf, bx, by + j, i as int);
                assert(255 * s * s <= 255 * 0x1_0000_0000 * 0x1_0000_0000) by (nonlinear_arith)
                    requires
                        0 <= s <= 0xffff_ffff,
                ;
                assert(255 * s * (j as int) + 255 * (i as int) + 255 < 255 * s * s + 255 * s + 255)
                    by (nonlinear_arith)
                    requires
                        0 <= i < s,
                        0 <= j < s,
                ;
            }
            let idx: usize = ((y + j) as usize) * (buf.width as usize) + ((x + i) as usize);
            let p = buf.pixels[idx];
            sr = sr + (p.r as u128);
            sg = sg + (p.g as u128);
            sb = sb + (p.b as u128);
            i = i + 1;
        }
        j = j + 1;
    }
    proof {
        lemma_block_sum_bounds(*buf, bx, by, s, s);
        lemma_mul_strictly_positive(s, s);
        assert(255 * s * s == 255 * (s * s)) by (nonlinear_arith);
        lemma_div_is_ordered(sr as int, 255 * (s * s), s * s);
        lemma_div_is_ordered(sg as int, 255 * (s * s), s * s);
        lemma_div_is_ordered(sb as int, 255 * (s * s), s * s);
        lemma_div_by_multiple(255, s * s);
        assert(255 * s * s <= 255 * 0x1_0000_0000 * 0x1_0000_0000) by (nonlinear_arith)
            requires
                0 <= s <= 0xffff_ffff,
        ;
    }
    let num: u128 = (size as u128) * (size as u128);
    let ar = (sr / num) as u8;
    let ag = (sg / num) as u8;
    let ab = (sb / num) as u8;
    AverageColor { r: ar, g: ag, b: ab, size }
}

/// The mean color of a whole square image whose side is `size`.
pub fn avg_color(buf: &PixelBuffer, size: u32) -> (avg: AverageColor)
    requires
        buf.wf(),
        size > 0,
        buf.width == size,
        buf.height == size,
    ensures
        avg.size == size,
        avg.r as int == block_avg(*buf, 0, 0, size as int).0,
        avg.g as int == block_avg(*buf, 0, 0, size as int).1,
        avg.b as int == block_avg(*buf, 0, 0, size as int).2,
{
    avg_color_block(buf, 0, 0, size)
}

/// Partitions the image into the side-`size` grid and averages every block,
/// keeping each block's grid placement. A zero side is refused.
pub fn div_avg_color(buf: &PixelBuffer, size: u32) -> (r: Result<Vec<TargetBlock>, MosaicError>)
    requires
        buf.wf(),
    ensures
        r is Err <==> size == 0,
        r is Err ==> r == Err::<Vec<TargetBlock>, MosaicError>(MosaicError::InvalidBlockSize),
        r is Ok ==> {
            let v = r->Ok_0;
            &&& v@.len() == grid_len(buf.width as int, buf.height as int, size as int)
            &&& forall|k: int|
                0 <= k < v@.len() ==> {
                    let tb = #[trigger] v@[k];
                    let gx = grid_x(buf.height as int, size as int, k);
                    let gy = grid_y(buf.height as int, size as int, k);
                    &&& tb.x == Some(gx as u32)
                    &&& tb.y == Some(gy as u32)
                    &&& tb.avg.size == size
                    &&& tb.avg.r as int == block_avg(*buf, gx, gy, size as int).0
                    &&& tb.avg.g as int == block_avg(*buf, gx, gy, size as int).1
                    &&& tb.avg.b as int == block_avg(*buf, gx, gy, size as int).2
                }
        },
{
    let blocks = match divide_to_squares(buf.width, buf.height, size) {
        Ok(blocks) => blocks,
        Err(e) => {
            return Err(e);
        },
    };
    let mut v: Vec<TargetBlock> = Vec::new();
    let mut k: usize = 0;
    while k < blocks.len()
        invariant
            buf.wf(),
            size > 0,
            k <= blocks@.len(),
            blocks@.len() == grid_len(buf.width as int, buf.height as int, size as int),
            forall|t: int|
                0 <= t < blocks@.len() ==> {
                    let b = #[trigger] blocks@[t];
                    &&& b.x == grid_x(buf.height as int, size as int, t)
                    &&& b.y == grid_y(buf.height as int, size as int, t)
                    &&& b.size == size
                    &&& b.x + size <= buf.width
                    &&& b.y + size <= buf.height
                },
            v@.len() == k,
            forall|t: int|
                0 <= t < k ==> {
                    let tb = #[trigger] v@[t];
                    let gx = grid_x(buf.height as int, size as int, t);
                    let gy = grid_y(buf.height as int, size as int, t);
                    &&& tb.x == Some(gx as u32)
                    &&& tb.y == Some(gy as u32)
                    &&& tb.avg.size == size
                    &&& tb.avg.r as int == block_avg(*buf, gx, gy, size as int).0
                    &&& tb.avg.g as int == block_avg(*buf, gx, gy, size as int).1
                    &&& tb.avg.b as int == block_avg(*buf, gx, gy, size as int).2
                },
        decreases blocks@.len() - k,
    {
        let b = blocks[k];
        let avg = avg_color_block(buf, b.x, b.y, size);
        v.push(TargetBlock { avg, x: Some(b.x), y: Some(b.y) });
        k = k + 1;
    }
    Ok(v)
}

/// Averaging a uniformly colored block gives back exactly that color.
pub proof fn lemma_uniform_block_average(buf: PixelBuffer, x: int, y: int, s: int, c: Rgb)
    requires
        0 < s,
        forall|i: int, j: int|
            0 <= i < s && 0 <= j < s ==> #[trigger] buf.pixel(x + i, y + j) == c,
    ensures
        block_avg(buf, x, y, s).0 == c.r as int,
        block_avg(buf, x, y, s).1 == c.g as int,
        block_avg(buf, x, y, s).2 == c.b as int,
{
    lemma_uniform_block_sum(buf, x, y, s, s, c);
    lemma_mul_strictly_positive(s, s);
    assert(block_sum(buf, x, y, s, s).0 == (c.r as int) * (s * s)) by (nonlinear_arith)
        requires
            block_sum(buf, x, y, s, s).0 == (s * s) * c.r,
    ;
    assert(block_sum(buf, x, y, s, s).1 == (c.g as int) * (s * s)) by (nonlinear_arith)
        requires
            block_sum(buf, x, y, s, s).1 == (s * s) * c.g,
    ;
    assert(block_sum(buf, x, y, s, s).2 == (c.b as int) * (s * s)) by (nonlinear_arith)
        requires
            block_sum(buf, x, y, s, s).2 == (s * s) * c.b,
    ;
    lemma_div_by_multiple(c.r as int, s * s);
    lemma_div_by_multiple(c.g as int, s * s);
    lemma_div_by_multiple(c.b as int, s * s);
}

/// Channel sums over a uniform block are the pixel count times the color.
proof fn lemma_uniform_block_sum(buf: PixelBuffer, x: int, y: int, s: int, m: int, c: Rgb)
    requires
        0 <= m <= s,
        forall|i: int, j: int|
            0 <= i < s && 0 <= j < s ==> #[trigger] buf.pixel(x + i, y + j) == c,
    ensures
        block_sum(buf, x, y, s, m).0 == (s * m) * c.r as int,
        block_sum(buf, x, y, s, m).1 == (s * m) * c.g as int,
        block_sum(buf, x, y, s, m).2 == (s * m) * c.b as int,
    decreases m,
{
    if m <= 0 {
        assert((s * 0) * c.r as int == 0) by (nonlinear_arith);
        assert((s * 0) * c.g as int == 0) by (nonlinear_arith);
        assert((s * 0) * c.b as int == 0) by (nonlinear_arith);
    } else {
        lemma_uniform_block_sum(buf, x, y, s, m - 1, c);
        lemma_uniform_row_sum(buf, x, y, s, m - 1, s, c);
        assert((s * (m - 1)) * c.r as int + s * c.r as int == (s * m) * c.r as int)
            by (nonlinear_arith);
        assert((s * (m - 1)) * c.g as int + s * c.g as int == (s * m) * c.g as int)
            by (nonlinear_arith);
        assert((s * (m - 1)) * c.b as int + s * c.b as int == (s * m) * c.b as int)
            by (nonlinear_arith);
    }
}

/// Channel sums over a uniform row are the pixel count times the color.
proof fn lemma_uniform_row_sum(buf: PixelBuffer, x: int, y: int, s: int, j: int, n: int, c: Rgb)
    requires
        0 <= n <= s,
        0 <= j < s,
        forall|i2: int, j2: int|
            0 <= i2 < s && 0 <= j2 < s ==> #[trigger] buf.pixel(x + i2, y + j2) == c,
    ensures
        row_sum(buf, x, y + j, n).0 == n * c.r as int,
        row_sum(buf, x, y + j, n).1 == n * c.g as int,
        row_sum(buf, x, y + j, n).2 == n * c.b as int,
    decreases n,
{
    if n <= 0 {
    } else {
        lemma_uniform_row_sum(buf, x, y, s, j, n - 1, c);
        assert(buf.pixel(x + (n - 1), y + j) == c);
        assert((n - 1) * c.r as int + c.r as int == n * c.r as int) by (nonlinear_arith);
        assert((n - 1) * c.g as int + c.g as int == n * c.g as int) by (nonlinear_arith);
        assert((n - 1) * c.b as int + c.b as int == n * c.b as int) by (nonlinear_arith);
    }
}

} // verus!
