//! Mosaic composition: writing square tiles into an output canvas at their
//! grid placements, later tiles overwriting earlier ones where they overlap.

use vstd::prelude::*;
use crate::MosaicError;
use crate::average::TargetBlock;
use crate::pixel::PixelBuffer;
use crate::pixel::Rgb;
use crate::pixel::lemma_flat_index_injective;
use crate::pixel::lemma_index_in_bounds;

verus! {

/// One tile to place: the pixel buffer to copy and the top-left corner of
/// the canvas region it overwrites.
pub struct Placement {
    pub x: u32,
    pub y: u32,
    pub tile: PixelBuffer,
}

/// Whether the placement's region contains the canvas coordinate (px, py).
pub open spec fn covers(p: Placement, px: int, py: int) -> bool {
    &&& p.x <= px < p.x + p.tile.width
    &&& p.y <= py < p.y + p.tile.height
}

/// Whether the placement's region lies inside a `w` by `h` canvas.
pub open spec fn placement_fits(p: Placement, w: int, h: int) -> bool {
    &&& p.x + p.tile.width <= w
    &&& p.y + p.tile.height <= h
}

/// The color at (px, py) after the first `n` placements are written onto a
/// blank canvas: the last placement covering the point wins, black where
/// none does.
pub open spec fn composed_pixel(ps: Seq<Placement>, n: int, px: int, py: int) -> Rgb
    decreases n,
{
    if n <= 0 {
        Rgb { r: 0, g: 0, b: 0 }
    } else if covers(ps[n - 1], px, py) {
        ps[n - 1].tile.pixel(px - ps[n - 1].x, py - ps[n - 1].y)
    } else {
        composed_pixel(ps, n - 1, px, py)
    }
}

/// Copies `tile` into `canvas` with its top-left corner at (x, y): a full
/// overwrite of that region, every other pixel untouched. Fails, leaving the
/// canvas unchanged, when the region leaves the canvas.
pub fn copy_into(canvas: &mut PixelBuffer, tile: &PixelBuffer, x: u32, y: u32) -> (r: Result<
    (),
    MosaicError,
>)
    requires
        old(canvas).wf(),
        tile.wf(),
    ensures
        final(canvas).wf(),
        final(canvas).width == old(canvas).width,
        final(canvas).height == old(canvas).height,
        r is Ok <==> (x + tile.width <= old(canvas).width && y + tile.height <= old(
            canvas,
        ).height),
        r is Err ==> r == Err::<(), MosaicError>(MosaicError::OutOfBoundsWrite) && *final(canvas)
            == *old(canvas),
        r is Ok ==> forall|i: int, j: int|
            0 <= i < tile.width && 0 <= j < tile.height ==> #[trigger] final(canvas).pixel(
                x + i,
                y + j,
            ) == tile.pixel(i, j),
        r is Ok ==> forall|px: int, py: int|
            0 <= px < old(canvas).width && 0 <= py < old(canvas).height && !(x <= px < x
                + tile.width && y <= py < y + tile.height) ==> #[trigger] final(canvas).pixel(
                px,
                py,
            ) == old(canvas).pixel(px, py),
{
    if !(x <= canvas.width && tile.width <= canvas.width - x && y <= canvas.height && tile.height
        <= canvas.height - y) {
        return Err(MosaicError::OutOfBoundsWrite);
    }
    let ghost orig = *canvas;
    let cw = canvas.width;
    let ch = canvas.height;
    let tw = tile.width;
    let th = tile.height;
    let ctotal: usize = canvas.pixels.len();
    let ttotal: usize = tile.pixels.len();
    let mut j: u32 = 0;
    while j < th
        invariant
            canvas.wf(),
            tile.wf(),
            orig.wf(),
            canvas.width == cw,
            canvas.height == ch,
            orig.width == cw,
            orig.height == ch,
            tile.width == tw,
            tile.height == th,
            canvas.pixels@.len() == ctotal,
            tile.pixels@.len() == ttotal,
            x + tw <= cw,
            y + th <= ch,
            j <= th,
            forall|i2: int, j2: int|
                0 <= i2 < tw && 0 <= j2 < j ==> #[trigger] canvas.pixel(x + i2, y + j2)
                    == tile.pixel(i2, j2),
            forall|px: int, py: int|
                0 <= px < cw && 0 <= py < ch && !(x <= px < x + tw && y <= py < y + j)
                    ==> #[trigger] canvas.pixel(px, py) == orig.pixel(px, py),
        decreases th - j,
    {
        let mut i: u32 = 0;
        while i < tw
            invariant
                canvas.wf(),
                tile.wf(),
                orig.wf(),
                canvas.width == cw,
                canvas.height == ch,
                orig.width == cw,
                orig.height == ch,
                tile.width == tw,
                tile.height == th,
                canvas.pixels@.len() == ctotal,
                tile.pixels@.len() == ttotal,
                x + tw <= cw,
                y + th <= ch,
                j < th,
                i <= tw,
                forall|i2: int, j2: int|
                    0 <= i2 < tw && 0 <= j2 < j ==> #[trigger] canvas.pixel(x + i2, y + j2)
                        == tile.pixel(i2, j2),
                forall|i2: int|
                    0 <= i2 < i ==> #[trigger] canvas.pixel(x + i2, y + j) == tile.pixel(i2, j as int),
                forall|px: int, py: int|
                    0 <= px < cw && 0 <= py < ch && !(x <= px < x + tw && y <= py < y + j) && !(x
                        <= px < x + i && py == y + j) ==> #[trigger] canvas.pixel(px, py)
                        == orig.pixel(px, py),
            decreases tw - i,
        {
            proof {
                lemma_index_in_bounds(x + i, y + j, cw as int, ch as int);
                lemma_index_in_bounds(i as int, j as int, tw as int, th as int);
            }
            let ghost prev = *canvas;
            let tidx: usize = (j as usize) * (tw as usize) + (i as usize);
            let cidx: usize = ((y + j) as usize) * (cw as usize) + ((x + i) as usize);
            let p = tile.pixels[tidx];
            canvas.pixels.set(cidx, p);
            proof {
                assert(canvas.pixel(x + i, y + j) == tile.pixel(i as int, j as int));
                assert forall|px: int, py: int|
                    0 <= px < cw && 0 <= py < ch && !(px == x + i && py == y + j)
                        implies #[trigger] canvas.pixel(px, py) == prev.pixel(px, py) by {
                    lemma_index_in_bounds(px, py, cw as int, ch as int);
                    if py * cw + px == (y + j) * cw + (x + i) {
                        lemma_flat_index_injective(px, py, x + i, y + j, cw as int);
                    }
                }
            }
            i = i + 1;
        }
        j = j + 1;
    }
    Ok(())
}

/// Writes every placement, in order, onto a blank canvas of the given
/// dimensions. Fails with an out-of-bounds write as soon as a placement
/// leaves the canvas.
pub fn compose(width: u32, height: u32, placements: &Vec<Placement>) -> (r: Result<
    PixelBuffer,
    MosaicError,
>)
    requires
        width * height <= usize::MAX,
        forall|k: int| 0 <= k < placements@.len() ==> (#[trigger] placements@[k]).tile.wf(),
    ensures
        r is Ok <==> (forall|k: int|
            0 <= k < placements@.len() ==> placement_fits(
                #[trigger] placements@[k],
                width as int,
                height as int,
            )),
        r is Err ==> r == Err::<PixelBuffer, MosaicError>(MosaicError::OutOfBoundsWrite),
        r is Ok ==> {
            let out = r->Ok_0;
            &&& out.wf()
            &&& out.width == width
            &&& out.height == height
            &&& (forall|px: int, py: int|
                0 <= px < width && 0 <= py < height ==> #[trigger] out.pixel(px, py)
                    == composed_pixel(placements@, placements@.len() as int, px, py))
        },
{
    let mut canvas = PixelBuffer::new_canvas(width, height);
    let mut k: usize = 0;
    while k < placements.len()
        invariant
            canvas.wf(),
            canvas.width == width,
            canvas.height == height,
            k <= placements@.len(),
            forall|t: int| 0 <= t < placements@.len() ==> (#[trigger] placements@[t]).tile.wf(),
            forall|t: int|
                0 <= t < k ==> placement_fits(#[trigger] placements@[t], width as int,
                height as int),
            forall|px: int, py: int|
                0 <= px < width && 0 <= py < height ==> #[trigger] canvas.pixel(px, py)
                    == composed_pixel(placements@, k as int, px, py),
        decreases placements@.len() - k,
    {
        let p = &placements[k];
        let ghost before = canvas;
        match copy_into(&mut canvas, &p.tile, p.x, p.y) {
            Ok(_) => {},
            Err(_) => {
                proof {
                    assert(!placement_fits(placements@[k as int], width as int, height as int));
                }
                return Err(MosaicError::OutOfBoundsWrite);
            },
        }
        proof {
            assert forall|px: int, py: int|
                0 <= px < width && 0 <= py < height implies #[trigger] canvas.pixel(px, py)
                == composed_pixel(placements@, k + 1, px, py) by {
                let pl = placements@[k as int];
                if covers(pl, px, py) {
                    let i2 = px - pl.x;
                    let j2 = py - pl.y;
                    assert(canvas.pixel(pl.x + i2, pl.y + j2) == pl.tile.pixel(i2, j2));
                    assert(pl.x + i2 == px && pl.y + j2 == py);
                } else {
                    assert(canvas.pixel(px, py) == before.pixel(px, py));
                }
            }
        }
        k = k + 1;
    }
    Ok(canvas)
}

/// Whether a target block carries a placement and its solid tile stays
/// inside a `w` by `h` canvas.
pub open spec fn solid_fits(tb: TargetBlock, w: int, h: int) -> bool {
    &&& tb.x is Some
    &&& tb.y is Some
    &&& tb.x->Some_0 + tb.avg.size <= w
    &&& tb.y->Some_0 + tb.avg.size <= h
}

/// Whether the solid square of a target block covers the coordinate
/// (px, py).
pub open spec fn solid_covers(tb: TargetBlock, px: int, py: int) -> bool {
    &&& tb.x->Some_0 <= px < tb.x->Some_0 + tb.avg.size
    &&& tb.y->Some_0 <= py < tb.y->Some_0 + tb.avg.size
}

/// The color at (px, py) after the first `n` blocks are painted as solid
/// squares of their average color onto a blank canvas.
pub open spec fn pixellated_pixel(bs: Seq<TargetBlock>, n: int, px: int, py: int) -> Rgb
    decreases n,
{
    if n <= 0 {
        Rgb { r: 0, g: 0, b: 0 }
    } else if solid_covers(bs[n - 1], px, py) {
        Rgb { r: bs[n - 1].avg.r, g: bs[n - 1].avg.g, b: bs[n - 1].avg.b }
    } else {
        pixellated_pixel(bs, n - 1, px, py)
    }
}

/// Paints every block as a solid square of its average color onto a blank
/// canvas of the given dimensions: a pixellated rendition of the image the
/// blocks were averaged from.
pub fn pixellate(blocks: &Vec<TargetBlock>, width: u32, height: u32) -> (r: Result<
    PixelBuffer,
    MosaicError,
>)
    requires
        width * height <= usize::MAX,
        forall|k: int|
            0 <= k < blocks@.len() ==> {
                let tb = #[trigger] blocks@[k];
                &&& tb.x is Some
                &&& tb.y is Some
                &&& tb.avg.size * tb.avg.size <= usize::MAX
            },
    ensures
        r is Ok <==> (forall|k: int|
            0 <= k < blocks@.len() ==> solid_fits(#[trigger] blocks@[k], width as int,
            height as int)),
        r is Err ==> r == Err::<PixelBuffer, MosaicError>(MosaicError::OutOfBoundsWrite),
        r is Ok ==> {
            let out = r->Ok_0;
            &&& out.wf()
            &&& out.width == width
            &&& out.height == height
            &&& (forall|px: int, py: int|
                0 <= px < width && 0 <= py < height ==> #[trigger] out.pixel(px, py)
                    == pixellated_pixel(blocks@, blocks@.len() as int, px, py))
        },
{
    let mut placements: Vec<Placement> = Vec::new();
    let mut k: usize = 0;
    while k < blocks.len()
        invariant
            k <= blocks@.len(),
            placements@.len() == k,
            forall|t: int|
                0 <= t < blocks@.len() ==> {
                    let tb = #[trigger] blocks@[t];
                    &&& tb.x is Some
                    &&& tb.y is Some
                    &&& tb.avg.size * tb.avg.size <= usize::MAX
                },
            forall|t: int|
                0 <= t < k ==> {
                    let pl = #[trigger] placements@[t];
                    let tb = blocks@[t];
                    &&& pl.tile.wf()
                    &&& pl.x == tb.x->Some_0
                    &&& pl.y == tb.y->Some_0
                    &&& pl.tile.width == tb.avg.size
                    &&& pl.tile.height == tb.avg.size
                    &&& (forall|i: int, j: int|
                        0 <= i < tb.avg.size && 0 <= j < tb.avg.size ==> #[trigger] pl.tile.pixel(
                            i,
                            j,
                        ) == (Rgb { r: tb.avg.r, g: tb.avg.g, b: tb.avg.b }))
                },
        decreases blocks@.len() - k,
    {
        let tb = &blocks[k];
        let color = Rgb { r: tb.avg.r, g: tb.avg.g, b: tb.avg.b };
        let tile = PixelBuffer::filled(tb.avg.size, tb.avg.size, color);
        proof {
            assert(blocks@[k as int].x is Some && blocks@[k as int].y is Some);
        }
        let bx = match tb.x {
            Some(v) => v,
            None => { return Err(MosaicError::OutOfBoundsWrite) },
        };
        let by = match tb.y {
            Some(v) => v,
            None => { return Err(MosaicError::OutOfBoundsWrite) },
        };
        placements.push(Placement { x: bx, y: by, tile });
        k = k + 1;
    }
    let result = compose(width, height, &placements);
    proof {
        assert(solid_placements_match(placements@, blocks@));
        assert forall|t: int|
            #![trigger placements@[t]]
            #![trigger blocks@[t]]
            0 <= t < blocks@.len() implies (placement_fits(placements@[t], width as int,
        height as int) <==> solid_fits(blocks@[t], width as int, height as int)) by {}
        assert forall|px: int, py: int|
            composed_pixel(placements@, blocks@.len() as int, px, py) == pixellated_pixel(
            blocks@,
            blocks@.len() as int,
            px,
            py,
        ) by {
            lemma_solid_compose(placements@, blocks@, blocks@.len() as int, px, py);
        }
    }
    result
}

/// The placements are the blocks' solid tiles, one per block, in order.
pub open spec fn solid_placements_match(ps: Seq<Placement>, bs: Seq<TargetBlock>) -> bool {
    &&& ps.len() == bs.len()
    &&& forall|t: int|
        0 <= t < bs.len() ==> {
            let pl = #[trigger] ps[t];
            let tb = bs[t];
            &&& tb.x is Some
            &&& tb.y is Some
            &&& pl.x == tb.x->Some_0
            &&& pl.y == tb.y->Some_0
            &&& pl.tile.width == tb.avg.size
            &&& pl.tile.height == tb.avg.size
            &&& (forall|i: int, j: int|
                0 <= i < tb.avg.size && 0 <= j < tb.avg.size ==> #[trigger] pl.tile.pixel(i, j)
                    == (Rgb { r: tb.avg.r, g: tb.avg.g, b: tb.avg.b }))
        }
}

/// Composing solid tiles built from target blocks paints the same picture
/// as painting the blocks directly.
proof fn lemma_solid_compose(ps: Seq<Placement>, bs: Seq<TargetBlock>, n: int, px: int, py: int)
    requires
        solid_placements_match(ps, bs),
        n <= ps.len(),
    ensures
        composed_pixel(ps, n, px, py) == pixellated_pixel(bs, n, px, py),
    decreases n,
{
    if n > 0 {
        lemma_solid_compose(ps, bs, n - 1, px, py);
    }
}

} // verus!
