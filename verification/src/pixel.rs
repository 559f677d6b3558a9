//! Pixel buffers: rectangular grids of RGB triples with explicit dimensions.

use vstd::prelude::*;

verus! {

/// One pixel: three 8-bit channels.
#[derive(Clone, Copy, Debug, PartialEq, Eq, Structural)]
pub struct Rgb {
    pub r: u8,
    pub g: u8,
    pub b: u8,
}

/// A rectangular grid of RGB pixels stored row by row, top row first.
pub struct PixelBuffer {
    pub width: u32,
    pub height: u32,
    pub pixels: Vec<Rgb>,
}

impl PixelBuffer {
    /// A buffer is well formed when it holds exactly one pixel per grid cell.
    pub open spec fn wf(self) -> bool {
        self.pixels@.len() == self.width * self.height
    }

    /// The pixel at column `x`, row `y`.
    pub open spec fn pixel(self, x: int, y: int) -> Rgb {
        self.pixels@[y * self.width + x]
    }
}

/// Row-major order keeps every in-bounds coordinate inside the pixel vector.
pub proof fn lemma_index_in_bounds(x: int, y: int, w: int, h: int)
    requires
        0 <= x < w,
        0 <= y < h,
    ensures
        0 <= y * w + x < w * h,
{
    assert(y * w + x < w * h) by (nonlinear_arith)
        requires
            0 <= x < w,
            0 <= y < h,
    ;
    assert(0 <= y * w) by (nonlinear_arith)
        requires
            0 <= y,
            0 < w,
    ;
}

/// Distinct in-bounds coordinates have distinct flat row-major indices.
pub proof fn lemma_flat_index_injective(x1: int, y1: int, x2: int, y2: int, w: int)
    requires
        0 <= x1 < w,
        0 <= x2 < w,
        0 <= y1,
        0 <= y2,
        y1 * w + x1 == y2 * w + x2,
    ensures
        x1 == x2,
        y1 == y2,
{
    lemma_flat_index(x1, y1, w);
    lemma_flat_index(x2, y2, w);
}

/// Splitting a flat row-major index back into its column and row.
pub proof fn lemma_flat_index(i: int, j: int, s: int)
    requires
        0 <= i < s,
        0 <= j,
    ensures
        (j * s + i) % s == i,
        (j * s + i) / s == j,
{
    vstd::arithmetic::div_mod::lemma_fundamental_div_mod_converse_mod(j * s + i, s, j, i);
    vstd::arithmetic::div_mod::lemma_fundamental_div_mod_converse_div(j * s + i, s, j, i);
}

impl PixelBuffer {
    /// A canvas of the given dimensions with every pixel set to `color`.
    pub fn filled(width: u32, height: u32, color: Rgb) -> (out: PixelBuffer)
        requires
            width * height <= usize::MAX,
        ensures
            out.wf(),
            out.width == width,
            out.height == height,
            forall|x: int, y: int|
                0 <= x < width && 0 <= y < height ==> out.pixel(x, y) == color,
    {
        let count: usize = (width as usize) * (height as usize);
        let mut pixels: Vec<Rgb> = Vec::new();
        let mut i: usize = 0;
        while i < count
            invariant
                i <= count,
                pixels@.len() == i,
                forall|k: int| 0 <= k < i ==> pixels@[k] == color,
            decreases count - i,
        {
            pixels.push(color);
            i = i + 1;
        }
        let out = PixelBuffer { width, height, pixels };
        proof {
            assert forall|x: int, y: int|
                0 <= x < width && 0 <= y < height implies out.pixel(x, y) == color by {
                lemma_index_in_bounds(x, y, width as int, height as int);
            }
        }
        out
    }

    /// A blank (all-black) canvas of the given dimensions.
    pub fn new_canvas(width: u32, height: u32) -> (out: PixelBuffer)
        requires
            width * height <= usize::MAX,
        ensures
            out.wf(),
            out.width == width,
            out.height == height,
            forall|x: int, y: int|
                0 <= x < width && 0 <= y < height ==> out.pixel(x, y) == (Rgb {
                    r: 0,
                    g: 0,
                    b: 0,
                }),
    {
        PixelBuffer::filled(width, height, Rgb { r: 0, g: 0, b: 0 })
    }

    /// Builds a buffer from a row-major pixel vector, refusing a vector whose
    /// length does not match the dimensions.
    pub fn from_pixels(width: u32, height: u32, pixels: Vec<Rgb>) -> (out: Option<PixelBuffer>)
        ensures
            out is Some <==> pixels@.len() == width * height,
            out is Some ==> {
                let buf = out->Some_0;
                &&& buf.wf()
                &&& buf.width == width
                &&& buf.height == height
                &&& buf.pixels@ == pixels@
            },
    {
        proof {
            assert(width * height <= u32::MAX * u32::MAX) by (nonlinear_arith)
                requires
                    width <= u32::MAX,
                    height <= u32::MAX,
            ;
        }
        if (width as u64) * (height as u64) == (pixels.len() as u64) {
            Some(PixelBuffer { width, height, pixels })
        } else {
            None
        }
    }

    /// The side-`size` square of this buffer whose top-left corner is (x, y).
    pub fn crop(&self, x: u32, y: u32, size: u32) -> (out: PixelBuffer)
        requires
            self.wf(),
            x + size <= self.width,
            y + size <= self.height,
        ensures
            out.wf(),
            out.width == size,
            out.height == size,
            forall|i: int, j: int|
                0 <= i < size && 0 <= j < size ==> out.pixel(i, j) == self.pixel(x + i, y + j),
    {
        let total: usize = self.pixels.len();
        let mut pixels: Vec<Rgb> = Vec::new();
        let mut j: u32 = 0;
        while j < size
            invariant
                self.wf(),
                self.pixels@.len() == total,
                x + size <= self.width,
                y + size <= self.height,
                j <= size,
                pixels@.len() == j * size,
                forall|k: int|
                    0 <= k < pixels@.len() ==> #[trigger] pixels@[k] == self.pixel(
                        x + k % (size as int),
                        y + k / (size as int),
                    ),
            decreases size - j,
        {
            let mut i: u32 = 0;
            while i < size
                invariant
                    self.wf(),
                    self.pixels@.len() == total,
                    x + size <= self.width,
                    y + size <= self.height,
                    j < size,
                    i <= size,
                    pixels@.len() == j * size + i,
                    forall|k: int|
                        0 <= k < pixels@.len() ==> #[trigger] pixels@[k] == self.pixel(
                            x + k % (size as int),
                            y + k / (size as int),
                        ),
                decreases size - i,
            {
                proof {
                    lemma_index_in_bounds(
                        x + i,
                        y + j,
                        self.width as int,
                        self.height as int,
                    );
                }
                let idx: usize = ((y + j) as usize) * (self.width as usize) + ((x + i) as usize);
                pixels.push(self.pixels[idx]);
                proof {
                    lemma_flat_index(i as int, j as int, size as int);
                }
                i = i + 1;
            }
            j = j + 1;
            proof {
                assert(pixels@.len() == (j - 1) * size + size == j * size) by (nonlinear_arith)
                    requires
                        pixels@.len() == (j - 1) * size + size,
                ;
            }
        }
        let out = PixelBuffer { width: size, height: size, pixels };
        proof {
            assert forall|i: int, j2: int|
                0 <= i < size && 0 <= j2 < size implies out.pixel(i, j2) == self.pixel(
                x + i,
                y + j2,
            ) by {
                lemma_index_in_bounds(i, j2, size as int, size as int);
                lemma_flat_index(i, j2, size as int);
            }
        }
        out
    }
}

} // verus!
