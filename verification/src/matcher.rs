//! Nearest-color matching: the distance between two average colors is the
//! square root applied twice to the sum of squared channel differences, each
//! root truncated to an integer; the catalog entry at minimum distance wins,
//! first-encountered on ties.

use vstd::prelude::*;
use crate::average::AverageColor;
use crate::catalog::CatalogEntry;

verus! {

/// The integer square root: the largest `r` with `r * r <= n` (0 for a
/// negative argument).
pub open spec fn sqrt_floor(n: int) -> int
    decreases (if n >= 0 { n } else { 0 }),
{
    if n <= 0 {
        0
    } else {
        let p = sqrt_floor(n - 1);
        if (p + 1) * (p + 1) <= n {
            p + 1
        } else {
            p
        }
    }
}

/// `sqrt_floor(n)` is the floor of the square root of `n`.
pub proof fn lemma_sqrt_floor_bounds(n: int)
    requires
        0 <= n,
    ensures
        0 <= sqrt_floor(n),
        sqrt_floor(n) * sqrt_floor(n) <= n,
        n < (sqrt_floor(n) + 1) * (sqrt_floor(n) + 1),
    decreases n,
{
    if n == 0 {
    } else {
        lemma_sqrt_floor_bounds(n - 1);
        let p = sqrt_floor(n - 1);
        if (p + 1) * (p + 1) <= n {
            assert(n - 1 < (p + 1) * (p + 1));
            assert((p + 1 + 1) * (p + 1 + 1) > (p + 1) * (p + 1)) by (nonlinear_arith)
                requires
                    0 <= p,
            ;
        }
    }
}

/// Any `r` within the floor-square-root bounds is `sqrt_floor(n)`.
pub proof fn lemma_sqrt_floor_unique(n: int, r: int)
    requires
        0 <= n,
        0 <= r,
        r * r <= n,
        n < (r + 1) * (r + 1),
    ensures
        r == sqrt_floor(n),
{
    lemma_sqrt_floor_bounds(n);
    let q = sqrt_floor(n);
    if r < q {
        assert((r + 1) * (r + 1) <= q * q) by (nonlinear_arith)
            requires
                0 <= r,
                r + 1 <= q,
        ;
    }
    if q < r {
        assert((q + 1) * (q + 1) <= r * r) by (nonlinear_arith)
            requires
                0 <= q,
                q + 1 <= r,
        ;
    }
}

/// The integer square root of a 32-bit value.
pub fn isqrt(n: u32) -> (r: u32)
    ensures
        r == sqrt_floor(n as int),
{
    let mut r: u32 = 0;
    loop
        invariant
            r * r <= n,
            r <= 0x1_0000,
        ensures
            r * r <= n,
            n < (r + 1) * (r + 1),
        decreases n - r,
    {
        proof {
            assert((r + 1) * (r + 1) <= 0x1_0001 * 0x1_0001) by (nonlinear_arith)
                requires
                    0 <= r <= 0x1_0000,
            ;
        }
        let next: u64 = ((r as u64) + 1) * ((r as u64) + 1);
        if next > (n as u64) {
            break;
        }
        proof {
            assert(r + 1 <= 0x1_0000) by (nonlinear_arith)
                requires
                    (r + 1) * (r + 1) < 0x1_0000_0000,
                    0 <= r,
            ;
            assert(r + 1 <= (r + 1) * (r + 1)) by (nonlinear_arith)
                requires
                    0 <= r,
            ;
        }
        r = r + 1;
    }
    proof {
        lemma_sqrt_floor_unique(n as int, r as int);
    }
    r
}

/// The squared channel differences between two average colors, summed.
pub open spec fn dist2(a: AverageColor, b: AverageColor) -> int {
    (a.r - b.r) * (a.r - b.r) + (a.g - b.g) * (a.g - b.g) + (a.b - b.b) * (a.b - b.b)
}

/// The distance transform used for matching: the square root taken twice,
/// each truncated to an integer.
pub open spec fn color_dist(a: AverageColor, b: AverageColor) -> int {
    sqrt_floor(sqrt_floor(dist2(a, b)))
}

/// Two average colors with equal channels (their sides may differ).
pub open spec fn same_color(a: AverageColor, b: AverageColor) -> bool {
    a.r == b.r && a.g == b.g && a.b == b.b
}

/// The distance between two average colors is zero exactly when their
/// channels are equal.
pub proof fn lemma_dist_zero(a: AverageColor, b: AverageColor)
    ensures
        color_dist(a, b) == 0 <==> same_color(a, b),
        color_dist(a, b) >= 0,
{
    assert((a.r - b.r) * (a.r - b.r) + (a.g - b.g) * (a.g - b.g) + (a.b - b.b) * (a.b - b.b)
        >= 0) by (nonlinear_arith);
    assert(dist2(a, b) == (a.r - b.r) * (a.r - b.r) + (a.g - b.g) * (a.g - b.g) + (a.b - b.b) * (
    a.b - b.b));
    lemma_sqrt_floor_bounds(dist2(a, b));
    lemma_sqrt_floor_bounds(sqrt_floor(dist2(a, b)));
    if same_color(a, b) {
        assert(dist2(a, b) == 0) by (nonlinear_arith)
            requires
                a.r == b.r,
                a.g == b.g,
                a.b == b.b,
        ;
    }
    if color_dist(a, b) == 0 {
        let inner = sqrt_floor(dist2(a, b));
        assert(sqrt_floor(inner) == 0);
        assert(inner < (sqrt_floor(inner) + 1) * (sqrt_floor(inner) + 1));
        assert(inner < 1);
        assert(dist2(a, b) < (inner + 1) * (inner + 1));
        assert(inner == 0);
        assert(dist2(a, b) < 1 * 1);
        assert(dist2(a, b) == 0);
        assert(same_color(a, b)) by (nonlinear_arith)
            requires
                (a.r - b.r) * (a.r - b.r) + (a.g - b.g) * (a.g - b.g) + (a.b - b.b) * (a.b
                    - b.b) == 0,
        ;
    }
}

/// The distance between two average colors, truncated exactly as the
/// double square-root transform truncates it.
pub fn distance(a: &AverageColor, b: &AverageColor) -> (d: u32)
    ensures
        d == color_dist(*a, *b),
{
    let dr: u32 = if a.r >= b.r {
        (a.r - b.r) as u32
    } else {
        (b.r - a.r) as u32
    };
    let dg: u32 = if a.g >= b.g {
        (a.g - b.g) as u32
    } else {
        (b.g - a.g) as u32
    };
    let db: u32 = if a.b >= b.b {
        (a.b - b.b) as u32
    } else {
        (b.b - a.b) as u32
    };
    proof {
        assert(dr * dr == (a.r - b.r) * (a.r - b.r)) by (nonlinear_arith)
            requires
                dr == a.r - b.r || dr == b.r - a.r,
        ;
        assert(dg * dg == (a.g - b.g) * (a.g - b.g)) by (nonlinear_arith)
            requires
                dg == a.g - b.g || dg == b.g - a.g,
        ;
        assert(db * db == (a.b - b.b) * (a.b - b.b)) by (nonlinear_arith)
            requires
                db == a.b - b.b || db == b.b - a.b,
        ;
        assert(dr * dr <= 255 * 255 && dg * dg <= 255 * 255 && db * db <= 255 * 255)
            by (nonlinear_arith)
            requires
                0 <= dr <= 255,
                0 <= dg <= 255,
                0 <= db <= 255,
        ;
    }
    let sum: u32 = dr * dr + dg * dg + db * db;
    isqrt(isqrt(sum))
}

/// The index the stable linear scan selects among the first `n` entries:
/// a later entry wins only with a strictly smaller distance.
pub open spec fn nearest_idx(t: AverageColor, avgs: Seq<AverageColor>, n: int) -> int
    decreases n,
{
    if n <= 1 {
        0
    } else {
        let p = nearest_idx(t, avgs, n - 1);
        if color_dist(t, avgs[n - 1]) < color_dist(t, avgs[p]) {
            n - 1
        } else {
            p
        }
    }
}

/// The selected index is in range, has minimal distance, and is the first
/// index attaining that distance.
pub proof fn lemma_nearest_props(t: AverageColor, avgs: Seq<AverageColor>, n: int)
    requires
        1 <= n <= avgs.len(),
    ensures
        0 <= nearest_idx(t, avgs, n) < n,
        forall|j: int|
            0 <= j < n ==> color_dist(t, avgs[nearest_idx(t, avgs, n)]) <= color_dist(
                t,
                #[trigger] avgs[j],
            ),
        forall|j: int|
            0 <= j < nearest_idx(t, avgs, n) ==> color_dist(t, #[trigger] avgs[j]) > color_dist(
                t,
                avgs[nearest_idx(t, avgs, n)],
            ),
    decreases n,
{
    if n > 1 {
        lemma_nearest_props(t, avgs, n - 1);
    }
}

/// The catalog entry whose average color is nearest to the target block's
/// average; on ties the earliest entry wins.
pub fn find_nearest(target: &AverageColor, catalog: &Vec<CatalogEntry>) -> (idx: usize)
    requires
        catalog@.len() > 0,
    ensures
        idx < catalog@.len(),
        idx == nearest_idx(
            *target,
            catalog@.map_values(|e: CatalogEntry| e.avg),
            catalog@.len() as int,
        ),
        forall|j: int|
            0 <= j < catalog@.len() ==> color_dist(*target, catalog@[idx as int].avg)
                <= color_dist(*target, (#[trigger] catalog@[j]).avg),
        forall|j: int|
            0 <= j < idx ==> color_dist(*target, (#[trigger] catalog@[j]).avg) > color_dist(
                *target,
                catalog@[idx as int].avg,
            ),
{
    let ghost avgs = catalog@.map_values(|e: CatalogEntry| e.avg);
    let mut best: usize = 0;
    let mut best_dist: u32 = distance(target, &catalog[0].avg);
    let mut i: usize = 1;
    while i < catalog.len()
        invariant
            0 < catalog@.len(),
            avgs == catalog@.map_values(|e: CatalogEntry| e.avg),
            1 <= i <= catalog@.len(),
            best < i,
            best == nearest_idx(*target, avgs, i as int),
            best_dist == color_dist(*target, catalog@[best as int].avg),
        decreases catalog@.len() - i,
    {
        proof {
            assert(avgs[i as int] == catalog@[i as int].avg);
            assert(avgs[best as int] == catalog@[best as int].avg);
        }
        let d = distance(target, &catalog[i].avg);
        if d < best_dist {
            best = i;
            best_dist = d;
        }
        i = i + 1;
    }
    proof {
        lemma_nearest_props(*target, avgs, catalog@.len() as int);
        assert forall|j: int| 0 <= j < catalog@.len() implies color_dist(
            *target,
            catalog@[best as int].avg,
        ) <= color_dist(*target, (#[trigger] catalog@[j]).avg) by {
            assert(avgs[j] == catalog@[j].avg);
        }
        assert forall|j: int| 0 <= j < best implies color_dist(
            *target,
            (#[trigger] catalog@[j]).avg,
        ) > color_dist(*target, catalog@[best as int].avg) by {
            assert(avgs[j] == catalog@[j].avg);
        }
    }
    best
}

/// A target color equal to some catalog entry's average is matched to the
/// first such entry, at distance zero.
pub proof fn lemma_exact_match_selected(t: AverageColor, avgs: Seq<AverageColor>, i: int)
    requires
        0 <= i < avgs.len(),
        same_color(avgs[i], t),
        forall|j: int| 0 <= j < i ==> !same_color(#[trigger] avgs[j], t),
    ensures
        nearest_idx(t, avgs, avgs.len() as int) == i,
        color_dist(t, avgs[i]) == 0,
{
    let n = avgs.len() as int;
    let w = nearest_idx(t, avgs, n);
    lemma_nearest_props(t, avgs, n);
    lemma_dist_zero(t, avgs[i]);
    assert(color_dist(t, avgs[i]) == 0);
    assert(color_dist(t, avgs[w]) <= 0);
    lemma_dist_zero(t, avgs[w]);
    assert(color_dist(t, avgs[w]) == 0);
    assert(same_color(avgs[w], t));
    if w < i {
        assert(!same_color(avgs[w], t));
    }
    if i < w {
        assert(color_dist(t, avgs[i]) > color_dist(t, avgs[w]));
    }
}

} // verus!
