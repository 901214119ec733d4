use vstd::prelude::*;
use vstd::arithmetic::div_mod::{
    lemma_div_is_ordered,
    lemma_div_multiples_vanish,
    lemma_fundamental_div_mod,
    lemma_fundamental_div_mod_converse_div,
};
use crate::coverage::{after_line, max_int, min_int};
use crate::geometry::{Point, SUBPIXEL};

verus! {

/// Curves whose deviation, in square pixels, stays below 333/1000 are drawn
/// as their chord.
pub const FLAT_NUM: i128 = 333;

pub const FLAT_DEN: i128 = 1000;

/// Tolerance factor of the segment count.
pub const TOLERANCE: i128 = 3;

pub open spec fn is_isqrt(v: int, r: int) -> bool {
    0 <= r && r * r <= v < (r + 1) * (r + 1)
}

/// The integer square root of `v >= 0`, rounded down.
pub open spec fn isqrt(v: int) -> int {
    choose|r: int| is_isqrt(v, r)
}

pub proof fn lemma_isqrt_unique(v: int, r: int, q: int)
    requires
        is_isqrt(v, r),
        is_isqrt(v, q),
    ensures
        r == q,
{
    if r < q {
        assert((r + 1) * (r + 1) <= q * q) by (nonlinear_arith) requires 0 <= r < q;
    } else if q < r {
        assert((q + 1) * (q + 1) <= r * r) by (nonlinear_arith) requires 0 <= q < r;
    }
}

/// The second difference `p0 - 2 p1 + p2`, squared, in subpixel-squared units.
pub open spec fn deviation_sq(p0: Point, p1: Point, p2: Point) -> int {
    let dx = p0.x - 2 * p1.x + p2.x;
    let dy = p0.y - 2 * p1.y + p2.y;
    dx * dx + dy * dy
}

pub open spec fn is_flat(p0: Point, p1: Point, p2: Point) -> bool {
    FLAT_DEN * deviation_sq(p0, p1, p2) < FLAT_NUM * (SUBPIXEL * SUBPIXEL)
}

/// The number of segments of a curve that is not flat: one more than the
/// fourth root, rounded down, of the tolerance times the deviation in
/// square pixels.
pub open spec fn segment_count(p0: Point, p1: Point, p2: Point) -> int {
    1 + isqrt(isqrt((TOLERANCE * deviation_sq(p0, p1, p2)) / (SUBPIXEL * SUBPIXEL)))
}

/// Coordinate of the curve at `t = k / n`, rounded down.
pub open spec fn bezier_coord(v0: int, v1: int, v2: int, n: int, k: int) -> int {
    ((n - k) * (n - k) * v0 + 2 * k * (n - k) * v1 + k * k * v2) / (n * n)
}

/// The `k`-th of the `n + 1` vertices of the polyline drawn for the curve:
/// the end points themselves at `k == 0` and `k == n`.
pub open spec fn curve_vertex(p0: Point, p1: Point, p2: Point, n: int, k: int) -> Point {
    if k <= 0 {
        p0
    } else if k >= n {
        p2
    } else {
        Point {
            x: bezier_coord(p0.x as int, p1.x as int, p2.x as int, n, k) as i32,
            y: bezier_coord(p0.y as int, p1.y as int, p2.y as int, n, k) as i32,
        }
    }
}

/// The buffer after the first `k` segments of the curve's polyline.
pub open spec fn after_polyline(
    a: Seq<i64>,
    w: int,
    h: int,
    p0: Point,
    p1: Point,
    p2: Point,
    n: int,
    k: int,
) -> Seq<i64>
    decreases k,
{
    if k <= 0 {
        a
    } else {
        after_line(
            after_polyline(a, w, h, p0, p1, p2, n, k - 1),
            w,
            h,
            curve_vertex(p0, p1, p2, n, k - 1),
            curve_vertex(p0, p1, p2, n, k),
        )
    }
}

/// The buffer after the curve from `p0` to `p2` with control point `p1` was
/// drawn: its chord if it is flat, else its polyline of `segment_count` pieces.
pub open spec fn after_curve(a: Seq<i64>, w: int, h: int, p0: Point, p1: Point, p2: Point) -> Seq<
    i64,
> {
    if is_flat(p0, p1, p2) {
        after_line(a, w, h, p0, p2)
    } else {
        let n = segment_count(p0, p1, p2);
        after_polyline(a, w, h, p0, p1, p2, n, n)
    }
}

/// Integer square root by bisection, for `v < 2^64`.
pub fn isqrt_exec(v: u128) -> (r: u128)
    requires
        v < 0x1_0000_0000_0000_0000,
    ensures
        r == isqrt(v as int),
        r < 0x1_0000_0000,
        v < 0x1_0000_0000 ==> r <= 0xFFFF,
{
    let mut lo: u128 = 0;
    let mut hi: u128 = 0x1_0000_0000;
    assert(hi * hi == 0x1_0000_0000_0000_0000);
    while hi - lo > 1
        invariant
            lo < hi <= 0x1_0000_0000,
            lo * lo <= v < hi * hi,
        decreases hi - lo,
    {
        let mid = lo + (hi - lo) / 2;
        assert(mid * mid <= 0x1_0000_0000_0000_0000) by (nonlinear_arith)
            requires mid <= 0x1_0000_0000;
        if mid * mid <= v {
            lo = mid;
        } else {
            hi = mid;
        }
    }
    assert(is_isqrt(v as int, lo as int));
    assert(v < 0x1_0000_0000 ==> lo <= 0xFFFF) by (nonlinear_arith)
        requires lo * lo <= v, lo >= 0;
    proof {
        lemma_isqrt_unique(v as int, lo as int, isqrt(v as int));
    }
    lo
}

/// `n / d` rounded down, for a positive `d`.
pub fn floor_div(n: i128, d: i128) -> (q: i128)
    requires
        d > 0,
        -0x1_0000_0000_0000_0000_0000 <= n <= 0x1_0000_0000_0000_0000_0000,
    ensures
        q == n / d,
{
    if n >= 0 {
        (n as u128 / d as u128) as i128
    } else {
        let m = (-n) as u128;
        let dd = d as u128;
        let c = (m + dd - 1) / dd;
        proof {
            let x = (m + dd - 1) as int;
            lemma_fundamental_div_mod(x, dd as int);
            vstd::arithmetic::div_mod::lemma_mod_pos_bound(x, dd as int);
            assert(c == x / (dd as int));
            assert(c * d <= m + d - 1 && m + d - 1 < c * d + d) by (nonlinear_arith)
                requires
                    x == dd * c + x % (dd as int),
                    0 <= x % (dd as int) < dd,
                    x == m + d - 1,
                    dd == d,
            ;
            let r = n + c * d;
            assert(0 <= r < d) by (nonlinear_arith)
                requires
                    c * d <= m + d - 1,
                    m + d - 1 < c * d + d,
                    n == -m,
                    r == n + c * d,
                    d > 0,
            ;
            assert(n == (-c) * d + r) by (nonlinear_arith) requires r == n + c * d;
            lemma_fundamental_div_mod_converse_div(n as int, d as int, -c, r);
        }
        assert(c <= m) by {
            assert(m + dd - 1 <= m * dd) by (nonlinear_arith) requires m >= 1, dd >= 1;
            lemma_div_is_ordered((m + dd - 1) as int, (m * dd) as int, dd as int);
            lemma_div_multiples_vanish(m as int, dd as int);
            assert(m * dd == dd * m) by (nonlinear_arith);
        }
        -(c as i128)
    }
}

/// A weighted average, rounded down, stays within the range of its values.
pub proof fn lemma_weighted_between(a: int, b: int, c: int, v0: int, v1: int, v2: int)
    requires
        a >= 0,
        b >= 0,
        c >= 0,
        a + b + c > 0,
    ensures
        min_int(v0, min_int(v1, v2)) <= (a * v0 + b * v1 + c * v2) / (a + b + c) <= max_int(
            v0,
            max_int(v1, v2),
        ),
{
    let lo = min_int(v0, min_int(v1, v2));
    let hi = max_int(v0, max_int(v1, v2));
    let s = a + b + c;
    let num = a * v0 + b * v1 + c * v2;
    assert(s * lo <= num <= s * hi) by (nonlinear_arith)
        requires
            a >= 0,
            b >= 0,
            c >= 0,
            s == a + b + c,
            lo <= v0 <= hi,
            lo <= v1 <= hi,
            lo <= v2 <= hi,
            num == a * v0 + b * v1 + c * v2,
    ;
    lemma_div_is_ordered(s * lo, num, s);
    lemma_div_is_ordered(num, s * hi, s);
    assert(s * lo == lo * s && s * hi == hi * s) by (nonlinear_arith);
    lemma_div_multiples_vanish(lo, s);
    lemma_div_multiples_vanish(hi, s);
}

} // verus!

verus! {

/// Computes `bezier_coord` for an interior step `0 < k < n`.
pub fn bezier_coord_exec(v0: i32, v1: i32, v2: i32, n: i128, k: i128) -> (r: i32)
    requires
        0 < k < n <= 0x1_0000,
    ensures
        r == bezier_coord(v0 as int, v1 as int, v2 as int, n as int, k as int),
        min_int(v0 as int, min_int(v1 as int, v2 as int)) <= r <= max_int(
            v0 as int,
            max_int(v1 as int, v2 as int),
        ),
{
    let j = n - k;
    assert(0 < j * j <= 0x1_0000_0000 && 0 < k * k <= 0x1_0000_0000 && 0 < 2 * k * j
        <= 0x2_0000_0000) by (nonlinear_arith)
        requires 0 < j <= 0x1_0000, 0 < k <= 0x1_0000;
    let a = j * j;
    let b = 2 * k * j;
    let c = k * k;
    assert(a + b + c == n * n) by (nonlinear_arith) requires j == n - k, a == j * j, b == 2 * k * j, c == k * k;
    assert(-0x1_0000_0000_0000_0000 <= a * (v0 as i128) <= 0x1_0000_0000_0000_0000) by (nonlinear_arith)
        requires 0 < a <= 0x1_0000_0000, -0x8000_0000 <= v0 < 0x8000_0000;
    assert(-0x2_0000_0000_0000_0000 <= b * (v1 as i128) <= 0x2_0000_0000_0000_0000) by (nonlinear_arith)
        requires 0 < b <= 0x2_0000_0000, -0x8000_0000 <= v1 < 0x8000_0000;
    assert(-0x1_0000_0000_0000_0000 <= c * (v2 as i128) <= 0x1_0000_0000_0000_0000) by (nonlinear_arith)
        requires 0 < c <= 0x1_0000_0000, -0x8000_0000 <= v2 < 0x8000_0000;
    let num = a * (v0 as i128) + b * (v1 as i128) + c * (v2 as i128);
    let q = floor_div(num, a + b + c);
    proof {
        lemma_weighted_between(a as int, b as int, c as int, v0 as int, v1 as int, v2 as int);
        assert(num == (n - k) * (n - k) * v0 + 2 * k * (n - k) * v1 + k * k * v2) by (nonlinear_arith)
            requires j == n - k, a == j * j, b == 2 * k * j, c == k * k,
                num == a * v0 + b * v1 + c * v2;
    }
    q as i32
}

} // verus!
