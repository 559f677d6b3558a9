//! Source catalog: each candidate image cropped to a top-left square of side
//! `min(width, height)`, paired with the mean color of that square.

use vstd::prelude::*;
use crate::average::AverageColor;
use crate::average::avg_color;
use crate::average::block_avg;
use crate::average::block_sum;
use crate::average::row_sum;
use crate::pixel::PixelBuffer;

verus! {

/// One catalog entry: a square-cropped source image and its mean color.
pub struct CatalogEntry {
    pub buffer: PixelBuffer,
    pub avg: AverageColor,
}

/// The side of the square a source image is cropped to.
pub open spec fn square_side(buf: PixelBuffer) -> int {
    vstd::math::min(buf.width as int, buf.height as int)
}

/// The mean color a source image contributes to the catalog: the average
/// over its top-left `square_side` square.
pub open spec fn source_avg(src: PixelBuffer) -> AverageColor {
    let side = square_side(src);
    let t = block_avg(src, 0, 0, side);
    AverageColor { r: t.0 as u8, g: t.1 as u8, b: t.2 as u8, size: side as u32 }
}

impl CatalogEntry {
    /// An entry holds a non-empty square buffer whose recorded mean was
    /// computed over the full square.
    pub open spec fn wf(self) -> bool {
        &&& self.buffer.wf()
        &&& self.buffer.width == self.buffer.height
        &&& self.buffer.width > 0
        &&& self.avg.size == self.buffer.width
    }
}

/// Row sums agree between two buffers wherever the rows hold equal pixels.
proof fn lemma_row_sum_congruence(a: PixelBuffer, b: PixelBuffer, y: int, n: int)
    requires
        forall|i: int, j: int| 0 <= i < n && 0 <= j <= y ==> #[trigger] a.pixel(i, j) == b.pixel(
            i,
            j,
        ),
        0 <= y,
    ensures
        row_sum(a, 0, y, n).0 == row_sum(b, 0, y, n).0,
        row_sum(a, 0, y, n).1 == row_sum(b, 0, y, n).1,
        row_sum(a, 0, y, n).2 == row_sum(b, 0, y, n).2,
    decreases n,
{
    if n > 0 {
        lemma_row_sum_congruence(a, b, y, n - 1);
        assert(a.pixel(n - 1, y) == b.pixel(n - 1, y));
    }
}

/// Block sums agree between two buffers wherever the block holds equal
/// pixels.
proof fn lemma_block_sum_congruence(a: PixelBuffer, b: PixelBuffer, s: int, m: int)
    requires
        forall|i: int, j: int| 0 <= i < s && 0 <= j < m ==> #[trigger] a.pixel(i, j) == b.pixel(
            i,
            j,
        ),
    ensures
        block_sum(a, 0, 0, s, m).0 == block_sum(b, 0, 0, s, m).0,
        block_sum(a, 0, 0, s, m).1 == block_sum(b, 0, 0, s, m).1,
        block_sum(a, 0, 0, s, m).2 == block_sum(b, 0, 0, s, m).2,
    decreases m,
{
    if m > 0 {
        lemma_block_sum_congruence(a, b, s, m - 1);
        lemma_row_sum_congruence(a, b, m - 1, s);
    }
}

/// The whole-square average agrees between two buffers wherever the square
/// holds equal pixels.
pub proof fn lemma_block_avg_congruence(a: PixelBuffer, b: PixelBuffer, s: int)
    requires
        forall|i: int, j: int| 0 <= i < s && 0 <= j < s ==> #[trigger] a.pixel(i, j) == b.pixel(
            i,
            j,
        ),
    ensures
        block_avg(a, 0, 0, s).0 == block_avg(b, 0, 0, s).0,
        block_avg(a, 0, 0, s).1 == block_avg(b, 0, 0, s).1,
        block_avg(a, 0, 0, s).2 == block_avg(b, 0, 0, s).2,
{
    lemma_block_sum_congruence(a, b, s, s);
}

/// Crops an image to the top-left square of side `min(width, height)`.
pub fn square_crop(buf: &PixelBuffer) -> (out: PixelBuffer)
    requires
        buf.wf(),
    ensures
        out.wf(),
        out.width as int == square_side(*buf),
        out.height as int == square_side(*buf),
        forall|i: int, j: int|
            0 <= i < square_side(*buf) && 0 <= j < square_side(*buf) ==> #[trigger] out.pixel(
                i,
                j,
            ) == buf.pixel(i, j),
{
    let side = if buf.width <= buf.height {
        buf.width
    } else {
        buf.height
    };
    buf.crop(0, 0, side)
}

/// Builds the catalog: every source image square-cropped and averaged, in
/// encounter order.
pub fn build_catalog(sources: &Vec<PixelBuffer>) -> (cat: Vec<CatalogEntry>)
    requires
        forall|i: int|
            0 <= i < sources@.len() ==> {
                let src = #[trigger] sources@[i];
                &&& src.wf()
                &&& src.width > 0
                &&& src.height > 0
            },
    ensures
        cat@.len() == sources@.len(),
        forall|i: int|
            0 <= i < cat@.len() ==> {
                let e = #[trigger] cat@[i];
                let src = sources@[i];
                &&& e.wf()
                &&& e.buffer.width as int == square_side(src)
                &&& e.buffer.height as int == square_side(src)
                &&& (forall|px: int, py: int|
                    0 <= px < square_side(src) && 0 <= py < square_side(src)
                        ==> #[trigger] e.buffer.pixel(px, py) == src.pixel(px, py))
                &&& e.avg == source_avg(src)
            },
{
    let mut cat: Vec<CatalogEntry> = Vec::new();
    let mut i: usize = 0;
    while i < sources.len()
        invariant
            forall|t: int|
                0 <= t < sources@.len() ==> {
                    let src = #[trigger] sources@[t];
                    &&& src.wf()
                    &&& src.width > 0
                    &&& src.height > 0
                },
            i <= sources@.len(),
            cat@.len() == i,
            forall|t: int|
                0 <= t < i ==> {
                    let e = #[trigger] cat@[t];
                    let src = sources@[t];
                    &&& e.wf()
                    &&& e.buffer.width as int == square_side(src)
                    &&& e.buffer.height as int == square_side(src)
                    &&& (forall|px: int, py: int|
                        0 <= px < square_side(src) && 0 <= py < square_side(src)
                            ==> #[trigger] e.buffer.pixel(px, py) == src.pixel(px, py))
                    &&& e.avg == source_avg(src)
                },
        decreases sources@.len() - i,
    {
        let src = &sources[i];
        let cropped = square_crop(src);
        let avg = avg_color(&cropped, cropped.width);
        proof {
            lemma_block_avg_congruence(cropped, *src, square_side(*src));
            assert(avg == source_avg(*src));
        }
        cat.push(CatalogEntry { buffer: cropped, avg });
        i = i + 1;
    }
    cat
}

} // verus!
