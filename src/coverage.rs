use vstd::prelude::*;
use vstd::arithmetic::div_mod::{lemma_div_is_ordered, lemma_div_multiples_vanish};
use crate::geometry::{Point, FULL_COVERAGE, SUBPIXEL};

verus! {

/// Length of the part of a one-pixel span ending at `k` that lies right of
/// `x`, where `z == k - x`.
pub open spec fn clamp_cov(z: int) -> int {
    if z <= 0 {
        0
    } else if z >= SUBPIXEL {
        SUBPIXEL as int
    } else {
        z
    }
}

/// Twice the integral of `clamp_cov` from 0 to `z`.
pub open spec fn area2(z: int) -> int {
    if z <= 0 {
        0
    } else if z <= SUBPIXEL {
        z * z
    } else {
        2 * SUBPIXEL * z - SUBPIXEL * SUBPIXEL
    }
}

/// Area of pixel column `c` lying right of an edge whose x runs linearly
/// between `x0 <= x1` over a height of `dy` subpixels, rounded down.
/// Summing the row's deltas up to column `c` gives exactly this value.
pub open spec fn swept(x0: int, x1: int, dy: int, c: int) -> int {
    let k = (c + 1) * SUBPIXEL;
    if x0 == x1 {
        dy * clamp_cov(k - x0)
    } else {
        (dy * (area2(k - x0) - area2(k - x1))) / (2 * (x1 - x0))
    }
}

/// The x coordinate, rounded down, of the segment from `(xa, ya)` to
/// `(xb, yb)` at height `y`, for `ya < yb`.
pub open spec fn x_at(xa: int, ya: int, xb: int, yb: int, y: int) -> int {
    if xb >= xa {
        xa + ((xb - xa) * (y - ya)) / (yb - ya)
    } else {
        xa - ((xa - xb) * (y - ya)) / (yb - ya)
    }
}

pub open spec fn min_int(a: int, b: int) -> int {
    if a <= b { a } else { b }
}

pub open spec fn max_int(a: int, b: int) -> int {
    if a >= b { a } else { b }
}

pub proof fn lemma_x_at_between(xa: int, ya: int, xb: int, yb: int, y: int)
    requires
        ya < yb,
        ya <= y <= yb,
    ensures
        min_int(xa, xb) <= x_at(xa, ya, xb, yb, y) <= max_int(xa, xb),
        y == ya ==> x_at(xa, ya, xb, yb, y) == xa,
        y == yb ==> x_at(xa, ya, xb, yb, y) == xb,
{
    let d = if xb >= xa { xb - xa } else { xa - xb };
    let t = y - ya;
    let n = yb - ya;
    assert(0 <= d * t <= d * n) by (nonlinear_arith)
        requires 0 <= d, 0 <= t <= n;
    lemma_div_is_ordered(0, d * t, n);
    lemma_div_is_ordered(d * t, d * n, n);
    assert((d * n) / n == d) by {
        assert(d * n == n * d) by (nonlinear_arith);
        lemma_div_multiples_vanish(d, n);
    }
    if y == ya {
        assert(d * t == 0) by (nonlinear_arith) requires t == 0;
    }
}

/// Below the left end of its span an edge covers nothing.
pub proof fn lemma_swept_left(x0: int, x1: int, dy: int, c: int)
    requires
        x0 <= x1,
        (c + 1) * SUBPIXEL <= x0,
    ensures
        swept(x0, x1, dy, c) == 0,
{
    let k = (c + 1) * SUBPIXEL;
    assert(clamp_cov(k - x0) == 0);
    assert(area2(k - x0) == 0 && area2(k - x1) == 0);
    assert(dy * 0 == 0) by (nonlinear_arith);
}

/// Past the right end of its span an edge covers the whole row height.
pub proof fn lemma_swept_right(x0: int, x1: int, dy: int, c: int)
    requires
        x0 <= x1,
        c * SUBPIXEL >= x1,
    ensures
        swept(x0, x1, dy, c) == dy * SUBPIXEL,
{
    let k = (c + 1) * SUBPIXEL;
    assert(k == c * SUBPIXEL + SUBPIXEL);
    if x0 != x1 {
        let u = x1 - x0;
        assert(k - x1 >= SUBPIXEL);
        assert(area2(k - x0) == 2 * SUBPIXEL * (k - x0) - SUBPIXEL * SUBPIXEL);
        assert(area2(k - x1) == 2 * SUBPIXEL * (k - x1) - SUBPIXEL * SUBPIXEL);
        assert(area2(k - x0) - area2(k - x1) == 2 * SUBPIXEL * u);
        assert(dy * (2 * SUBPIXEL * u) == (2 * u) * (dy * SUBPIXEL)) by (nonlinear_arith);
        lemma_div_multiples_vanish(dy * SUBPIXEL, 2 * u);
    }
}

} // verus!

verus! {

/// A segment oriented downwards (`ya < yb`), with the sign `dir` that its
/// direction as drawn gives to its coverage: `1` if it ran downwards, `-1`
/// if it ran upwards.
#[derive(Clone, Copy, Debug)]
pub struct Edge {
    pub dir: i64,
    pub xa: i64,
    pub ya: i64,
    pub xb: i64,
    pub yb: i64,
}

pub open spec fn edge_of(p0: Point, p1: Point) -> Edge {
    if p0.y < p1.y {
        Edge { dir: 1, xa: p0.x as i64, ya: p0.y as i64, xb: p1.x as i64, yb: p1.y as i64 }
    } else {
        Edge { dir: -1i64, xa: p1.x as i64, ya: p1.y as i64, xb: p0.x as i64, yb: p0.y as i64 }
    }
}

/// The first pixel row that an edge starting at height `ya` reaches.
pub open spec fn first_row(ya: int) -> int {
    if ya <= 0 {
        0
    } else {
        ya / SUBPIXEL as int
    }
}

/// One past the last pixel row, below `h`, that an edge ending at `yb` reaches.
pub open spec fn end_row(yb: int, h: int) -> int {
    let c = if yb <= 0 {
        0
    } else {
        (yb + SUBPIXEL - 1) / SUBPIXEL as int
    };
    min_int(c, h)
}

pub open spec fn row_top(e: Edge, r: int) -> int {
    max_int(e.ya as int, r * SUBPIXEL)
}

pub open spec fn row_bot(e: Edge, r: int) -> int {
    min_int(e.yb as int, (r + 1) * SUBPIXEL)
}

/// Left end of the edge's x-span within pixel row `r`.
pub open spec fn row_lo(e: Edge, r: int) -> int {
    min_int(
        x_at(e.xa as int, e.ya as int, e.xb as int, e.yb as int, row_top(e, r)),
        x_at(e.xa as int, e.ya as int, e.xb as int, e.yb as int, row_bot(e, r)),
    )
}

/// Right end of the edge's x-span within pixel row `r`.
pub open spec fn row_hi(e: Edge, r: int) -> int {
    max_int(
        x_at(e.xa as int, e.ya as int, e.xb as int, e.yb as int, row_top(e, r)),
        x_at(e.xa as int, e.ya as int, e.xb as int, e.yb as int, row_bot(e, r)),
    )
}

/// The signed coverage delta that the edge adds at column `c` of row `r`.
pub open spec fn row_delta(e: Edge, r: int, c: int) -> int {
    let lo = row_lo(e, r);
    let hi = row_hi(e, r);
    let dy = row_bot(e, r) - row_top(e, r);
    e.dir * (swept(lo, hi, dy, c) - swept(lo, hi, dy, c - 1))
}

/// What row `r` of the edge adds to buffer cell `i` of a raster `w` wide:
/// its columns `0..=w` lie at cells `r * w ..= r * w + w`.
pub open spec fn row_term(w: int, e: Edge, r: int, i: int) -> int {
    if r * w <= i <= r * w + w {
        row_delta(e, r, i - r * w)
    } else {
        0
    }
}

/// Two's complement 64-bit wrap-around of a value within one period of range.
pub open spec fn wrap64(v: int) -> int {
    if v > i64::MAX {
        v - 0x1_0000_0000_0000_0000
    } else if v < i64::MIN {
        v + 0x1_0000_0000_0000_0000
    } else {
        v
    }
}

pub open spec fn after_row(a: Seq<i64>, w: int, e: Edge, r: int) -> Seq<i64> {
    Seq::new(a.len(), |i: int| wrap64(a[i] + row_term(w, e, r, i)) as i64)
}

/// The buffer `a` after the edge's rows `lo..hi` were added, in order.
pub open spec fn after_rows(a: Seq<i64>, w: int, e: Edge, lo: int, hi: int) -> Seq<i64>
    decreases hi - lo,
{
    if hi <= lo {
        a
    } else {
        after_row(after_rows(a, w, e, lo, hi - 1), w, e, hi - 1)
    }
}

/// The buffer `a` of a raster `w` by `h` after the segment from `p0` to
/// `p1` was drawn into it. A horizontal segment adds nothing.
pub open spec fn after_line(a: Seq<i64>, w: int, h: int, p0: Point, p1: Point) -> Seq<i64> {
    if p0.y == p1.y {
        a
    } else {
        let e = edge_of(p0, p1);
        after_rows(a, w, e, first_row(e.ya as int), end_row(e.yb as int, h))
    }
}

pub proof fn lemma_area2_mono(a: int, b: int)
    requires
        a <= b,
    ensures
        0 <= area2(b) - area2(a) <= 2 * SUBPIXEL * (b - a),
{
    let s = SUBPIXEL as int;
    if a <= 0 {
        if b <= 0 {
        } else if b <= s {
            assert(0 <= b * b <= 2 * s * b) by (nonlinear_arith) requires 0 < b <= s;
            assert(area2(b) == b * b);
        } else {
            assert(area2(b) == 2 * s * b - s * s);
        }
        assert(area2(a) == 0);
    } else if a <= s {
        if b <= s {
            assert(0 <= b * b - a * a <= 2 * s * (b - a)) by (nonlinear_arith)
                requires 0 < a <= b <= s;
        } else {
            assert(0 <= 2 * s * b - s * s - a * a <= 2 * s * (b - a)) by (nonlinear_arith)
                requires 0 < a <= s < b;
        }
    } else {
        assert(area2(b) == 2 * s * b - s * s);
        assert(area2(a) == 2 * s * a - s * s);
        assert((2 * s * b - s * s) - (2 * s * a - s * s) == 2 * s * (b - a)) by (nonlinear_arith);
    }
}

/// Every column's cumulative coverage lies between none and the full row height.
pub proof fn lemma_swept_bounds(x0: int, x1: int, dy: int, c: int)
    requires
        x0 <= x1,
        0 <= dy,
    ensures
        0 <= swept(x0, x1, dy, c) <= dy * SUBPIXEL,
{
    let k = (c + 1) * SUBPIXEL;
    let s = SUBPIXEL as int;
    if x0 == x1 {
        let z = clamp_cov(k - x0);
        assert(0 <= dy * z <= dy * s) by (nonlinear_arith) requires 0 <= z <= s, 0 <= dy;
    } else {
        let u = x1 - x0;
        lemma_area2_mono(k - x1, k - x0);
        let diff = area2(k - x0) - area2(k - x1);
        assert(0 <= dy * diff <= (2 * u) * (dy * s)) by (nonlinear_arith)
            requires 0 <= diff <= 2 * s * u, 0 <= dy;
        lemma_div_is_ordered(0, dy * diff, 2 * u);
        lemma_div_is_ordered(dy * diff, (2 * u) * (dy * s), 2 * u);
        lemma_div_multiples_vanish(dy * s, 2 * u);
    }
}

} // verus!

verus! {

/// Adds with 64-bit two's complement wrap-around.
pub fn wrap_add(x: i64, d: i64) -> (r: i64)
    ensures
        r == wrap64(x + d),
{
    let s: i128 = x as i128 + d as i128;
    if s > i64::MAX as i128 {
        (s - 0x1_0000_0000_0000_0000i128) as i64
    } else if s < i64::MIN as i128 {
        (s + 0x1_0000_0000_0000_0000i128) as i64
    } else {
        s as i64
    }
}

fn area2_exec(z: i64) -> (r: i64)
    requires
        z <= 0x2_0000_0000,
    ensures
        r == area2(z as int),
{
    if z <= 0 {
        0
    } else if z <= SUBPIXEL {
        assert(z * z <= 65536) by (nonlinear_arith) requires 0 < z <= 256;
        z * z
    } else {
        assert(512 * z <= 0x400_0000_0000) by (nonlinear_arith) requires z <= 0x2_0000_0000;
        2 * SUBPIXEL * z - SUBPIXEL * SUBPIXEL
    }
}

/// Computes `swept` for a span inside the first 2^32 subpixels.
pub fn swept_exec(x0: i64, x1: i64, dy: i64, c: i64) -> (r: i64)
    requires
        0 <= x0 <= x1 <= 0xFFFF_FFFF,
        0 <= dy <= SUBPIXEL,
        -1 <= c,
        c * SUBPIXEL <= x1 + SUBPIXEL,
    ensures
        r == swept(x0 as int, x1 as int, dy as int, c as int),
        0 <= r <= dy * SUBPIXEL,
{
    proof {
        lemma_swept_bounds(x0 as int, x1 as int, dy as int, c as int);
    }
    let k = (c + 1) * SUBPIXEL;
    if x0 == x1 {
        let z = k - x0;
        let cov = if z <= 0 {
            0
        } else if z >= SUBPIXEL {
            SUBPIXEL
        } else {
            z
        };
        assert(0 <= dy * cov <= 65536) by (nonlinear_arith)
            requires 0 <= dy <= 256, 0 <= cov <= 256;
        dy * cov
    } else {
        let a0 = area2_exec(k - x0);
        let a1 = area2_exec(k - x1);
        proof {
            lemma_area2_mono(k - x1, k - x0);
        }
        let diff = a0 - a1;
        assert(0 <= dy * diff <= 0x4_0000_0000_0000) by (nonlinear_arith)
            requires 0 <= dy <= 256, 0 <= diff <= 512 * (x1 - x0), x1 - x0 <= 0xFFFF_FFFF;
        (dy * diff) / (2 * (x1 - x0))
    }
}

/// Computes `x_at` for the edge at a height within its extent.
pub fn x_at_exec(e: &Edge, y: i64) -> (r: i64)
    requires
        e.ya < e.yb,
        e.ya <= y <= e.yb,
        i32::MIN <= e.xa <= i32::MAX,
        i32::MIN <= e.xb <= i32::MAX,
        i32::MIN <= e.ya <= i32::MAX,
        i32::MIN <= e.yb <= i32::MAX,
    ensures
        r == x_at(e.xa as int, e.ya as int, e.xb as int, e.yb as int, y as int),
        min_int(e.xa as int, e.xb as int) <= r <= max_int(e.xa as int, e.xb as int),
{
    proof {
        lemma_x_at_between(e.xa as int, e.ya as int, e.xb as int, e.yb as int, y as int);
    }
    let t = (y - e.ya) as u128;
    let n = (e.yb - e.ya) as u128;
    if e.xb >= e.xa {
        let d = (e.xb - e.xa) as u128;
        assert(d * t <= 0xFFFF_FFFF * 0xFFFF_FFFF) by (nonlinear_arith)
            requires d <= 0xFFFF_FFFF, t <= 0xFFFF_FFFF;
        e.xa + ((d * t) / n) as i64
    } else {
        let d = (e.xa - e.xb) as u128;
        assert(d * t <= 0xFFFF_FFFF * 0xFFFF_FFFF) by (nonlinear_arith)
            requires d <= 0xFFFF_FFFF, t <= 0xFFFF_FFFF;
        e.xa - ((d * t) / n) as i64
    }
}

} // verus!

verus! {

/// The running sum of the first `n` cells, in 64-bit two's complement.
pub open spec fn running(a: Seq<i64>, n: int) -> int
    decreases n,
{
    if n <= 0 {
        0
    } else {
        wrap64(running(a, n - 1) + a[n - 1])
    }
}

/// The byte for an accumulated coverage `v`: `|v|` as a fraction of a full
/// pixel, clamped to one, times 255.99998, rounded down.
pub open spec fn coverage_byte(v: int) -> u8 {
    let m = if v < 0 {
        -v
    } else {
        v
    };
    if m >= FULL_COVERAGE {
        255
    } else {
        ((m * 25599998) / (100000 * FULL_COVERAGE as int)) as u8
    }
}

/// The bitmap of the first `n` cells: one byte per pixel, from the running
/// sum of the deltas up to and including that pixel.
pub open spec fn bitmap_of(a: Seq<i64>, n: nat) -> Seq<u8> {
    Seq::new(n, |i: int| coverage_byte(running(a, i + 1)))
}

pub fn coverage_byte_exec(v: i64) -> (r: u8)
    ensures
        r == coverage_byte(v as int),
{
    if v >= FULL_COVERAGE || v <= -FULL_COVERAGE {
        255
    } else {
        let m = if v < 0 {
            -v
        } else {
            v
        };
        assert(0 <= m * 25599998 < FULL_COVERAGE * 25599998) by (nonlinear_arith)
            requires 0 <= m < FULL_COVERAGE, FULL_COVERAGE == 65536;
        let q = (m * 25599998) / (100000 * FULL_COVERAGE);
        assert(m * 25599998 <= 256 * 6553600000 - 1) by (nonlinear_arith)
            requires 0 <= m < 65536;
        proof {
            lemma_div_is_ordered(m * 25599998, 256 * 6553600000 - 1, 6553600000);
        }
        assert(q < 256);
        q as u8
    }
}

} // verus!
