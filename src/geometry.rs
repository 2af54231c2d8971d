//! Integer geometry of the wrap-around plane.
//!
//! Positions, sizes and diameters are fixed-point integers ("units"); the
//! surrounding program chooses how many units make one length.

use vstd::prelude::*;

verus! {

/// Largest world extent (and thus coordinate) on either axis, in units.
pub const MAX_EXTENT: i64 = 268435456;

/// `v + d` brought back into `[0, size)` by adding or subtracting one period.
pub open spec fn wrapped(v: int, d: int, size: int) -> int {
    if v + d < 0 {
        v + d + size
    } else if v + d >= size {
        v + d - size
    } else {
        v + d
    }
}

/// Moves the coordinate `v` by `d` on an axis of length `size`, wrapping by
/// exactly one period. The displacement must be shorter than the axis.
pub fn wrap_add(v: i64, d: i64, size: i64) -> (r: i64)
    requires
        0 < size <= MAX_EXTENT,
        0 <= v < size,
        -size < d < size,
    ensures
        r == wrapped(v as int, d as int, size as int),
        0 <= r < size,
{
    let s = v + d;
    if s < 0 {
        s + size
    } else if s >= size {
        s - size
    } else {
        s
    }
}

/// `r` is the integer square root of `n`.
pub open spec fn is_isqrt(n: int, r: int) -> bool {
    0 <= r && r * r <= n < (r + 1) * (r + 1)
}

/// The integer square root of `n`: the largest `r` with `r * r <= n`.
pub open spec fn int_sqrt(n: int) -> int {
    choose|r: int| is_isqrt(n, r)
}

/// Only one integer is the square root of `n`, and it exists.
pub proof fn lemma_int_sqrt(n: int, r: int)
    requires
        0 <= n,
        is_isqrt(n, r),
    ensures
        int_sqrt(n) == r,
{
    assert(is_isqrt(n, r));
    let q = int_sqrt(n);
    assert(is_isqrt(n, q));
    if q < r {
        assert((q + 1) * (q + 1) <= r * r) by (nonlinear_arith)
            requires 0 <= q < r;
    } else if r < q {
        assert((r + 1) * (r + 1) <= q * q) by (nonlinear_arith)
            requires 0 <= r < q;
    }
}

/// Integer square root (rounded down) by bisection.
pub fn isqrt(n: u64) -> (r: u64)
    requires
        n < 0x4000_0000_0000_0000,
    ensures
        is_isqrt(n as int, r as int),
        r == int_sqrt(n as int),
{
    let mut lo: u64 = 0;
    let mut hi: u64 = 0x8000_0000;
    assert(hi * hi == 0x4000_0000_0000_0000) by (nonlinear_arith)
        requires hi == 0x8000_0000;
    while hi - lo > 1
        invariant
            lo < hi <= 0x8000_0000,
            lo * lo <= n,
            n < hi * hi,
        decreases hi - lo,
    {
        let mid = lo + (hi - lo) / 2;
        assert(mid * mid <= 0x4000_0000_0000_0000) by (nonlinear_arith)
            requires mid <= 0x8000_0000;
        if mid * mid <= n {
            lo = mid;
        } else {
            hi = mid;
        }
    }
    proof {
        lemma_int_sqrt(n as int, lo as int);
    }
    lo
}

/// `a / b` rounded toward zero, as Rust's integer division does.
pub open spec fn div_trunc(a: int, b: int) -> int {
    if a >= 0 {
        a / b
    } else {
        -((-a) / b)
    }
}

/// Whether two discs, `dx`, `dy` apart with diameters summing to `dsum`,
/// touch or overlap: the centre distance is at most the sum of the radii.
pub open spec fn discs_overlap(dx: int, dy: int, dsum: int) -> bool {
    4 * (dx * dx + dy * dy) <= dsum * dsum
}

/// How far each of two overlapping discs is moved apart, along each axis,
/// when the second lies `dx`, `dy` from the first and their diameters sum to
/// `dsum`: half the overlap, along the line of centres, with distances
/// measured as integer square roots. Coincident centres separate along the
/// x axis.
pub open spec fn separation(dx: int, dy: int, dsum: int, dist: int) -> (int, int) {
    if dist == 0 {
        (dsum / 4, 0)
    } else {
        (div_trunc((dsum - 2 * dist) * dx, 4 * dist), div_trunc((dsum - 2 * dist) * dy, 4 * dist))
    }
}

/// `a / b` rounded toward zero, for a positive divisor.
fn div_toward_zero(a: i64, b: i64) -> (r: i64)
    requires
        b > 0,
        a > i64::MIN,
    ensures
        r == div_trunc(a as int, b as int),
{
    if a >= 0 {
        a / b
    } else {
        -((-a) / b)
    }
}

/// The displacement by which a disc is pushed away from an overlapping
/// neighbour lying `dx`, `dy` from it; the neighbour moves by the opposite.
pub fn separation_of(dx: i64, dy: i64, dsum: i64) -> (r: (i64, i64))
    requires
        -MAX_EXTENT <= dx <= MAX_EXTENT,
        -MAX_EXTENT <= dy <= MAX_EXTENT,
        0 <= dsum <= 2 * MAX_EXTENT,
        discs_overlap(dx as int, dy as int, dsum as int),
    ensures
        r.0 == separation(dx as int, dy as int, dsum as int, int_sqrt(dx * dx + dy * dy)).0,
        r.1 == separation(dx as int, dy as int, dsum as int, int_sqrt(dx * dx + dy * dy)).1,
        -MAX_EXTENT <= r.0 <= MAX_EXTENT,
        -MAX_EXTENT <= r.1 <= MAX_EXTENT,
{
    assert(0 <= dx * dx <= 0x100_0000_0000_0000 && 0 <= dy * dy <= 0x100_0000_0000_0000)
        by (nonlinear_arith)
        requires -0x1000_0000 <= dx <= 0x1000_0000, -0x1000_0000 <= dy <= 0x1000_0000;
    let n = (dx * dx + dy * dy) as u64;
    let root = isqrt(n);
    assert(root <= 0x2000_0000) by (nonlinear_arith)
        requires root * root <= n, n <= 0x200_0000_0000_0000;
    let dist = root as i64;
    assert(2 * dist <= dsum) by (nonlinear_arith)
        requires
            dist * dist <= dx * dx + dy * dy,
            4 * (dx * dx + dy * dy) <= dsum * dsum,
            0 <= dist,
            0 <= dsum;
    if dist == 0 {
        (dsum / 4, 0)
    } else {
        let gap = dsum - 2 * dist;
        assert(gap * dx <= gap * MAX_EXTENT && -(gap * MAX_EXTENT) <= gap * dx) by (nonlinear_arith)
            requires 0 <= gap, -MAX_EXTENT <= dx <= MAX_EXTENT;
        assert(gap * dy <= gap * MAX_EXTENT && -(gap * MAX_EXTENT) <= gap * dy) by (nonlinear_arith)
            requires 0 <= gap, -MAX_EXTENT <= dy <= MAX_EXTENT;
        assert(gap * MAX_EXTENT <= 2 * MAX_EXTENT * MAX_EXTENT) by (nonlinear_arith)
            requires 0 <= gap <= 2 * MAX_EXTENT;
        let mx = div_toward_zero(gap * dx, 4 * dist);
        let my = div_toward_zero(gap * dy, 4 * dist);
        proof {
            // |gap * d| / (4 dist) <= MAX_EXTENT because gap <= dsum and |d| <= dist + 1
            lemma_push_bound(gap as int, dx as int, dist as int, dx * dx + dy * dy);
            lemma_push_bound(gap as int, dy as int, dist as int, dx * dx + dy * dy);
        }
        (mx, my)
    }
}

proof fn lemma_push_bound(gap: int, d: int, dist: int, n: int)
    requires
        0 <= gap <= 2 * MAX_EXTENT,
        0 < dist,
        d * d <= n,
        n < (dist + 1) * (dist + 1),
    ensures
        -MAX_EXTENT <= div_trunc(gap * d, 4 * dist) <= MAX_EXTENT,
{
    assert(d * d < (dist + 1) * (dist + 1));
    assert(-(dist + 1) < d < dist + 1) by (nonlinear_arith)
        requires d * d < (dist + 1) * (dist + 1), 0 < dist;
    assert(gap * d <= gap * dist && -(gap * dist) <= gap * d) by (nonlinear_arith)
        requires 0 <= gap, -dist <= d <= dist;
    assert(gap * dist <= MAX_EXTENT * (4 * dist)) by (nonlinear_arith)
        requires 0 <= gap <= 2 * MAX_EXTENT, 0 < dist;
    if gap * d >= 0 {
        assert((gap * d) / (4 * dist) <= MAX_EXTENT) by (nonlinear_arith)
            requires 0 <= gap * d <= MAX_EXTENT * (4 * dist), 0 < dist;
    } else {
        assert((-(gap * d)) / (4 * dist) <= MAX_EXTENT) by (nonlinear_arith)
            requires 0 <= -(gap * d) <= MAX_EXTENT * (4 * dist), 0 < dist;
    }
}

} // verus!
