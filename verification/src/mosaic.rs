//! The full pipeline: partition the target into a grid, average each block,
//! match every block against the catalog of square-cropped sources, and copy
//! each matched tile onto the output canvas at its block's origin.

use vstd::prelude::*;
use crate::MosaicError;
use crate::average::AverageColor;
use crate::average::avg_color_block;
use crate::average::block_avg;
use crate::catalog::CatalogEntry;
use crate::catalog::build_catalog;
use crate::catalog::source_avg;
use crate::catalog::square_side;
use crate::compose::copy_into;
use crate::grid::divide_to_squares;
use crate::grid::grid_len;
use crate::grid::grid_x;
use crate::grid::grid_y;
use crate::matcher::find_nearest;
use crate::matcher::nearest_idx;
use crate::pixel::PixelBuffer;
use crate::pixel::Rgb;

verus! {

/// The catalog's average colors, one per source image, in encounter order.
pub open spec fn source_avgs(sources: Seq<PixelBuffer>) -> Seq<AverageColor> {
    sources.map_values(|src: PixelBuffer| source_avg(src))
}

/// The average color of the `k`-th grid block of the target.
pub open spec fn block_color(target: PixelBuffer, s: int, k: int) -> AverageColor {
    let gx = grid_x(target.height as int, s, k);
    let gy = grid_y(target.height as int, s, k);
    let t = block_avg(target, gx, gy, s);
    AverageColor { r: t.0 as u8, g: t.1 as u8, b: t.2 as u8, size: s as u32 }
}

/// The catalog index matched to the `k`-th grid block.
pub open spec fn match_idx(target: PixelBuffer, sources: Seq<PixelBuffer>, s: int, k: int) -> int {
    nearest_idx(block_color(target, s, k), source_avgs(sources), sources.len() as int)
}

/// Whether the tile matched to the `k`-th block stays inside the canvas when
/// placed at the block's origin. The tile keeps its own square side, which
/// may differ from the grid side.
pub open spec fn mosaic_tile_fits(
    target: PixelBuffer,
    sources: Seq<PixelBuffer>,
    s: int,
    k: int,
) -> bool {
    let side = square_side(sources[match_idx(target, sources, s, k)]);
    &&& grid_x(target.height as int, s, k) + side <= target.width
    &&& grid_y(target.height as int, s, k) + side <= target.height
}

/// The color at (px, py) of the canvas after the tiles matched to the first
/// `n` grid blocks are copied in, in grid order: the last covering tile
/// wins, black where none covers.
pub open spec fn mosaic_pixel(
    target: PixelBuffer,
    sources: Seq<PixelBuffer>,
    s: int,
    n: int,
    px: int,
    py: int,
) -> Rgb
    decreases n,
{
    if n <= 0 {
        Rgb { r: 0, g: 0, b: 0 }
    } else {
        let k = n - 1;
        let src = sources[match_idx(target, sources, s, k)];
        let side = square_side(src);
        let gx = grid_x(target.height as int, s, k);
        let gy = grid_y(target.height as int, s, k);
        if gx <= px < gx + side && gy <= py < gy + side {
            src.pixel(px - gx, py - gy)
        } else {
            mosaic_pixel(target, sources, s, n - 1, px, py)
        }
    }
}

/// Builds the photomosaic of `target` from the catalog of `sources` with
/// grid side `block_size`. A zero side is refused; a matched tile whose
/// square leaves the canvas aborts the build with an out-of-bounds write.
pub fn build_mosaic(target: &PixelBuffer, sources: &Vec<PixelBuffer>, block_size: u32) -> (r:
    Result<PixelBuffer, MosaicError>)
    requires
        target.wf(),
        target.width * target.height <= usize::MAX,
        forall|i: int|
            0 <= i < sources@.len() ==> {
                let src = #[trigger] sources@[i];
                &&& src.wf()
                &&& src.width > 0
                &&& src.height > 0
            },
        block_size > 0 && grid_len(target.width as int, target.height as int, block_size as int)
            > 0 ==> sources@.len() > 0,
    ensures
        block_size == 0 ==> r == Err::<PixelBuffer, MosaicError>(MosaicError::InvalidBlockSize),
        block_size > 0 ==> (r is Ok <==> (forall|k: int|
            0 <= k < grid_len(target.width as int, target.height as int, block_size as int)
                ==> #[trigger] mosaic_tile_fits(*target, sources@, block_size as int, k))),
        block_size > 0 && r is Err ==> r == Err::<PixelBuffer, MosaicError>(
            MosaicError::OutOfBoundsWrite,
        ),
        r is Ok ==> {
            let out = r->Ok_0;
            &&& out.wf()
            &&& out.width == target.width
            &&& out.height == target.height
            &&& (forall|px: int, py: int|
                0 <= px < target.width && 0 <= py < target.height ==> #[trigger] out.pixel(px, py)
                    == mosaic_pixel(
                    *target,
                    sources@,
                    block_size as int,
                    grid_len(target.width as int, target.height as int, block_size as int),
                    px,
                    py,
                ))
        },
{
    if block_size == 0 {
        return Err(MosaicError::InvalidBlockSize);
    }
    let ghost t = *target;
    let ghost srcs = sources@;
    let ghost s = block_size as int;
    let blocks = match divide_to_squares(target.width, target.height, block_size) {
        Ok(blocks) => blocks,
        Err(_) => {
            return Err(MosaicError::InvalidBlockSize);
        },
    };
    let catalog = build_catalog(sources);
    proof {
        let cavgs = catalog@.map_values(|e: CatalogEntry| e.avg);
        let savgs = source_avgs(srcs);
        assert forall|q: int| 0 <= q < catalog@.len() implies cavgs[q] == savgs[q] by {
            assert(catalog@[q].avg == source_avg(srcs[q]));
        }
        assert(cavgs =~= savgs);
    }
    let mut canvas = PixelBuffer::new_canvas(target.width, target.height);
    let mut k: usize = 0;
    while k < blocks.len()
        invariant
            t == *target,
            srcs == sources@,
            s == block_size as int,
            s > 0,
            t.wf(),
            forall|i: int|
                0 <= i < srcs.len() ==> {
                    let src = #[trigger] srcs[i];
                    &&& src.wf()
                    &&& src.width > 0
                    &&& src.height > 0
                },
            blocks@.len() > 0 ==> srcs.len() > 0,
            blocks@.len() == grid_len(t.width as int, t.height as int, s),
            forall|q: int|
                0 <= q < blocks@.len() ==> {
                    let b = #[trigger] blocks@[q];
                    &&& b.x == grid_x(t.height as int, s, q)
                    &&& b.y == grid_y(t.height as int, s, q)
                    &&& b.size == block_size
                    &&& b.x + block_size <= t.width
                    &&& b.y + block_size <= t.height
                },
            catalog@.len() == srcs.len(),
            forall|q: int|
                0 <= q < catalog@.len() ==> {
                    let e = #[trigger] catalog@[q];
                    let src = srcs[q];
                    &&& e.wf()
                    &&& e.buffer.width as int == square_side(src)
                    &&& e.buffer.height as int == square_side(src)
                    &&& (forall|px: int, py: int|
                        0 <= px < square_side(src) && 0 <= py < square_side(src)
                            ==> #[trigger] e.buffer.pixel(px, py) == src.pixel(px, py))
                    &&& e.avg == source_avg(src)
                },
            catalog@.map_values(|e: CatalogEntry| e.avg) == source_avgs(srcs),
            canvas.wf(),
            canvas.width == t.width,
            canvas.height == t.height,
            k <= blocks@.len(),
            forall|q: int| 0 <= q < k ==> #[trigger] mosaic_tile_fits(t, srcs, s, q),
            forall|px: int, py: int|
                0 <= px < t.width && 0 <= py < t.height ==> #[trigger] canvas.pixel(px, py)
                    == mosaic_pixel(t, srcs, s, k as int, px, py),
        decreases blocks@.len() - k,
    {
        let b = blocks[k];
        let avg = avg_color_block(target, b.x, b.y, block_size);
        proof {
            assert(avg == block_color(t, s, k as int));
        }
        let m = find_nearest(&avg, &catalog);
        proof {
            assert(m == match_idx(t, srcs, s, k as int));
        }
        let ghost before = canvas;
        let entry = &catalog[m];
        match copy_into(&mut canvas, &entry.buffer, b.x, b.y) {
            Ok(_) => {},
            Err(_) => {
                proof {
                    assert(!mosaic_tile_fits(t, srcs, s, k as int));
                }
                return Err(MosaicError::OutOfBoundsWrite);
            },
        }
        proof {
            let gx = grid_x(t.height as int, s, k as int);
            let gy = grid_y(t.height as int, s, k as int);
            let side = square_side(srcs[m as int]);
            assert(mosaic_tile_fits(t, srcs, s, k as int));
            assert forall|px: int, py: int|
                0 <= px < t.width && 0 <= py < t.height implies #[trigger] canvas.pixel(px, py)
                == mosaic_pixel(t, srcs, s, k + 1, px, py) by {
                if gx <= px < gx + side && gy <= py < gy + side {
                    let i2 = px - gx;
                    let j2 = py - gy;
                    assert(canvas.pixel(b.x + i2, b.y + j2) == entry.buffer.pixel(i2, j2));
                    assert(entry.buffer.pixel(i2, j2) == srcs[m as int].pixel(i2, j2));
                    assert(b.x + i2 == px && b.y + j2 == py);
                } else {
                    assert(canvas.pixel(px, py) == before.pixel(px, py));
                }
            }
        }
        k = k + 1;
    }
    Ok(canvas)
}

} // verus!
