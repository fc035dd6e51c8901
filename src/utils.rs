use vstd::prelude::*;
use crate::unit::Pos;

verus! {

/// Distances and scores are kept in thousandths.
pub const SCALE: i128 = 1000;

/// `r` is the integer square root of `n`.
pub open spec fn is_isqrt(n: int, r: int) -> bool {
    0 <= r && r * r <= n < (r + 1) * (r + 1)
}

pub open spec fn isqrt(n: int) -> int {
    choose|r: int| is_isqrt(n, r)
}

pub open spec fn sq_dist(a: Pos, b: Pos) -> int {
    (a.x - b.x) * (a.x - b.x) + (a.y - b.y) * (a.y - b.y)
}

/// Euclidean distance in thousandths of a square, rounded down.
pub open spec fn dist_scaled(a: Pos, b: Pos) -> int {
    isqrt(sq_dist(a, b) * SCALE * SCALE)
}

proof fn lemma_isqrt_unique(n: int, r: int)
    requires
        is_isqrt(n, r),
    ensures
        isqrt(n) == r,
{
    let q = isqrt(n);
    assert(is_isqrt(n, q));
    if q < r {
        assert((q + 1) * (q + 1) <= r * r) by (nonlinear_arith)
            requires
                0 <= q < r,
        ;
    } else if r < q {
        assert((r + 1) * (r + 1) <= q * q) by (nonlinear_arith)
            requires
                0 <= r < q,
        ;
    }
}

pub proof fn lemma_isqrt_exists(n: int)
    requires
        0 <= n,
    ensures
        is_isqrt(n, isqrt(n)),
    decreases n,
{
    if n == 0 {
        assert(is_isqrt(0, 0));
    } else {
        lemma_isqrt_exists(n - 1);
        let r = isqrt(n - 1);
        if (r + 1) * (r + 1) <= n {
            assert(n < (r + 2) * (r + 2)) by (nonlinear_arith)
                requires
                    n - 1 < (r + 1) * (r + 1),
                    0 <= r,
            ;
            assert(is_isqrt(n, r + 1));
        } else {
            assert(is_isqrt(n, r));
        }
    }
}

/// Integer square root by bisection.
fn isqrt_exec(n: u128) -> (r: u128)
    requires
        n < 0x4000_0000_0000_0000_0000_0000_0000_0000,
    ensures
        is_isqrt(n as int, r as int),
        r == isqrt(n as int),
        r < 0x8000_0000_0000_0000,
{
    let mut lo: u128 = 0;
    let mut hi: u128 = 0x8000_0000_0000_0000;
    assert(hi * hi == 0x4000_0000_0000_0000_0000_0000_0000_0000);
    while hi - lo > 1
        invariant
            lo < hi <= 0x8000_0000_0000_0000,
            lo * lo <= n,
            n < hi * hi,
        decreases hi - lo,
    {
        let mid = lo + (hi - lo) / 2;
        assert(mid * mid <= 0x4000_0000_0000_0000_0000_0000_0000_0000) by (nonlinear_arith)
            requires
                mid <= 0x8000_0000_0000_0000,
        ;
        if mid * mid <= n {
            lo = mid;
        } else {
            hi = mid;
        }
    }
    assert(hi == lo + 1);
    proof {
        lemma_isqrt_unique(n as int, lo as int);
    }
    lo
}

/// Distance between two squares in thousandths, rounded down.
pub fn dist(v1: &Pos, v2: &Pos) -> (r: i128)
    ensures
        r == dist_scaled(*v1, *v2),
        0 <= r < 0x8_0000_0000_0000,
{
    let dx = v1.x as i128 - v2.x as i128;
    let dy = v1.y as i128 - v2.y as i128;
    assert(0 <= dx * dx <= 0x1_0000_0000_0000_0000 && 0 <= dy * dy <= 0x1_0000_0000_0000_0000)
        by (nonlinear_arith)
        requires
            -0x1_0000_0000 <= dx <= 0x1_0000_0000,
            -0x1_0000_0000 <= dy <= 0x1_0000_0000,
    ;
    let d2 = (dx * dx + dy * dy) as u128;
    let n = d2 * 1_000_000;
    let r = isqrt_exec(n);
    assert(r < 0x8_0000_0000_0000) by (nonlinear_arith)
        requires
            r * r <= n,
            n <= 0x2_0000_0000_0000_0000 * 1_000_000,
            0 <= r,
    ;
    r as i128
}

/// Squared distance between two squares.
pub fn dist2(v1: &Pos, v2: &Pos) -> (r: i128)
    ensures
        r == sq_dist(*v1, *v2),
{
    let dx = v1.x as i128 - v2.x as i128;
    let dy = v1.y as i128 - v2.y as i128;
    assert(0 <= dx * dx <= 0x1_0000_0000_0000_0000 && 0 <= dy * dy <= 0x1_0000_0000_0000_0000)
        by (nonlinear_arith)
        requires
            -0x1_0000_0000 <= dx <= 0x1_0000_0000,
            -0x1_0000_0000 <= dy <= 0x1_0000_0000,
    ;
    dx * dx + dy * dy
}

} // verus!
