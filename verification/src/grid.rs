//! Grid partitioning: the ordered sequence of full square blocks that tile an
//! image, any trailing partial row or column dropped.

use vstd::prelude::*;
use crate::MosaicError;
use crate::pixel::lemma_flat_index;
use vstd::arithmetic::div_mod::lemma_div_pos_is_pos;
use vstd::arithmetic::div_mod::lemma_fundamental_div_mod;
use vstd::arithmetic::div_mod::lemma_mod_bound;
use vstd::arithmetic::div_mod::lemma_mod_multiples_basic;
use vstd::arithmetic::div_mod::lemma_multiply_divide_lt;
use vstd::arithmetic::mul::lemma_mul_inequality;
use vstd::arithmetic::mul::lemma_mul_nonnegative;

verus! {

/// A square sub-region of an image: top-left origin and side length. It owns
/// no pixel data; it is a coordinate descriptor.
#[derive(Clone, Copy, Debug, PartialEq, Eq, Structural)]
pub struct Block {
    pub x: u32,
    pub y: u32,
    pub size: u32,
}

/// How many full block rows fit under height `h` with side `s`.
pub open spec fn grid_rows(h: int, s: int) -> int {
    h / s
}

/// How many full block columns fit across width `w` with side `s`.
pub open spec fn grid_cols(w: int, s: int) -> int {
    w / s
}

/// The number of blocks in the grid over a `w` by `h` image with side `s`.
pub open spec fn grid_len(w: int, h: int, s: int) -> int {
    grid_cols(w, s) * grid_rows(h, s)
}

/// The x origin of the `k`-th block: blocks are emitted column by column,
/// the y coordinate varying fastest.
pub open spec fn grid_x(h: int, s: int, k: int) -> int {
    (k / grid_rows(h, s)) * s
}

/// The y origin of the `k`-th block.
pub open spec fn grid_y(h: int, s: int, k: int) -> int {
    (k % grid_rows(h, s)) * s
}

/// Every grid block lies fully inside the image and its origin is a multiple
/// of the block side.
pub proof fn lemma_grid_cell(w: int, h: int, s: int, k: int)
    requires
        0 < s,
        0 <= w,
        0 <= h,
        0 <= k < grid_len(w, h, s),
    ensures
        0 <= grid_x(h, s, k),
        grid_x(h, s, k) + s <= w,
        0 <= grid_y(h, s, k),
        grid_y(h, s, k) + s <= h,
        grid_x(h, s, k) % s == 0,
        grid_y(h, s, k) % s == 0,
{
    let rows = grid_rows(h, s);
    let cols = grid_cols(w, s);
    lemma_div_pos_is_pos(w, s);
    lemma_div_pos_is_pos(h, s);
    if rows == 0 {
        assert(cols * rows == 0);
    }
    let q = k / rows;
    let r = k % rows;
    lemma_div_pos_is_pos(k, rows);
    lemma_mod_bound(k, rows);
    lemma_multiply_divide_lt(k, rows, cols);
    // q <= cols - 1 and r <= rows - 1, so both origins stay a full block short
    // of the image edge.
    lemma_mul_inequality(q, cols - 1, s);
    lemma_mul_inequality(r, rows - 1, s);
    lemma_fundamental_div_mod(w, s);
    lemma_mod_bound(w, s);
    lemma_fundamental_div_mod(h, s);
    lemma_mod_bound(h, s);
    assert((cols - 1) * s == cols * s - s) by (nonlinear_arith);
    assert((rows - 1) * s == rows * s - s) by (nonlinear_arith);
    assert(cols * s == s * cols) by (nonlinear_arith);
    assert(rows * s == s * rows) by (nonlinear_arith);
    lemma_mul_nonnegative(q, s);
    lemma_mul_nonnegative(r, s);
    lemma_mod_multiples_basic(q, s);
    lemma_mod_multiples_basic(r, s);
}

/// The ordered grid of full side-`size` blocks over a `width` by `height`
/// image. The outer loop walks the x axis, the inner loop the y axis; any
/// trailing strip narrower than `size` is dropped. A zero side is refused.
pub fn divide_to_squares(width: u32, height: u32, size: u32) -> (r: Result<
    Vec<Block>,
    MosaicError,
>)
    ensures
        r is Err <==> size == 0,
        r is Err ==> r == Err::<Vec<Block>, MosaicError>(MosaicError::InvalidBlockSize),
        r is Ok ==> {
            let v = r->Ok_0;
            &&& v@.len() == grid_len(width as int, height as int, size as int)
            &&& forall|k: int|
                0 <= k < v@.len() ==> {
                    let b = #[trigger] v@[k];
                    &&& b.x == grid_x(height as int, size as int, k)
                    &&& b.y == grid_y(height as int, size as int, k)
                    &&& b.size == size
                    &&& b.x + size <= width
                    &&& b.y + size <= height
                    &&& b.x % size == 0
                    &&& b.y % size == 0
                }
        },
{
    if size == 0 {
        return Err(MosaicError::InvalidBlockSize);
    }
    let cols = width / size;
    let rows = height / size;
    let ghost w = width as int;
    let ghost h = height as int;
    let ghost s = size as int;
    let mut v: Vec<Block> = Vec::new();
    let mut c: u32 = 0;
    while c < cols
        invariant
            0 < s,
            w == width,
            h == height,
            s == size,
            cols == grid_cols(w, s),
            rows == grid_rows(h, s),
            c <= cols,
            v@.len() == c * rows,
            forall|k: int|
                0 <= k < v@.len() ==> {
                    let b = #[trigger] v@[k];
                    &&& b.x == grid_x(h, s, k)
                    &&& b.y == grid_y(h, s, k)
                    &&& b.size == size
                },
        decreases cols - c,
    {
        let mut rr: u32 = 0;
        proof {
            lemma_mul_nonnegative(c as int, rows as int);
        }
        while rr < rows
            invariant
                0 < s,
                w == width,
                h == height,
                s == size,
                cols == grid_cols(w, s),
                rows == grid_rows(h, s),
                c < cols,
                rr <= rows,
                v@.len() == c * rows + rr,
                forall|k: int|
                    0 <= k < v@.len() ==> {
                        let b = #[trigger] v@[k];
                        &&& b.x == grid_x(h, s, k)
                        &&& b.y == grid_y(h, s, k)
                        &&& b.size == size
                    },
            decreases rows - rr,
        {
            proof {
                lemma_mul_inequality(c as int + 1, cols as int, s);
                lemma_mul_inequality(rr as int + 1, rows as int, s);
                lemma_fundamental_div_mod(w, s);
                lemma_mod_bound(w, s);
                lemma_fundamental_div_mod(h, s);
                lemma_mod_bound(h, s);
                assert((c + 1) * s == c * s + s) by (nonlinear_arith);
                assert((rr + 1) * s == rr * s + s) by (nonlinear_arith);
                assert(cols * s == s * cols) by (nonlinear_arith);
                assert(rows * s == s * rows) by (nonlinear_arith);
                lemma_mul_nonnegative(c as int, s);
                lemma_mul_nonnegative(rr as int, s);
            }
            let bx = c * size;
            let by = rr * size;
            v.push(Block { x: bx, y: by, size });
            proof {
                lemma_flat_index(rr as int, c as int, rows as int);
            }
            rr = rr + 1;
        }
        c = c + 1;
        proof {
            assert((c - 1) * rows + rows == c * rows) by (nonlinear_arith);
        }
    }
    proof {
        assert(v@.len() == grid_len(w, h, s));
        assert forall|k: int| 0 <= k < v@.len() implies {
            let b = #[trigger] v@[k];
            &&& b.x + size <= width
            &&& b.y + size <= height
            &&& b.x % size == 0
            &&& b.y % size == 0
        } by {
            lemma_grid_cell(w, h, s, k);
        }
    }
    Ok(v)
}

} // verus!
