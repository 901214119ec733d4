use vstd::prelude::*;
use crate::coverage::{
    after_line, after_row, after_rows, bitmap_of, clamp_cov, edge_of, end_row, first_row,
    max_int, min_int, row_bot, row_delta, row_hi, row_lo, row_term, row_top, running, swept, x_at,
    Edge,
};
use crate::geometry::{Point, FULL_COVERAGE, SUBPIXEL};

verus! {

pub open spec fn ind(b: bool) -> int {
    if b { 1 } else { 0 }
}

/// The corner of pixel `(x, y)` as a point.
pub open spec fn corner(x: int, y: int) -> Point {
    Point { x: (x * SUBPIXEL) as i32, y: (y * SUBPIXEL) as i32 }
}

/// Cell `r * w + c` (`c < w`) is the cell of a row-`R` edge's column `X <= w`
/// either in that row, or, for `X == w`, as the first cell of the next row.
proof fn lemma_cell_of_column(w: int, r: int, c: int, rr: int, x: int)
    requires
        0 <= c < w,
        0 <= x <= w,
        0 <= r,
        0 <= rr,
    ensures
        (r * w + c == rr * w + x) == ((r == rr && c == x) || (x == w && c == 0 && r == rr + 1)),
{
    if r > rr + 1 {
        assert(r * w >= (rr + 2) * w) by (nonlinear_arith) requires r >= rr + 2, w > 0;
        assert((rr + 2) * w == rr * w + 2 * w) by (nonlinear_arith);
    } else if r == rr + 1 {
        assert(r * w == rr * w + w) by (nonlinear_arith) requires r == rr + 1;
    } else if r < rr {
        assert(rr * w >= (r + 1) * w) by (nonlinear_arith) requires rr >= r + 1, w > 0;
        assert((r + 1) * w == r * w + w) by (nonlinear_arith);
    }
}

/// One row of a vertical edge at column boundary `x`, running over whole
/// rows `ya..yb`, adds a full pixel of signed coverage at one cell.
proof fn lemma_vertical_row_term(w: int, h: int, e: Edge, x: int, ya: int, yb: int, rr: int, r: int, c: int)
    requires
        0 <= x <= w,
        0 <= ya <= rr < yb <= h,
        e.xa == x * SUBPIXEL,
        e.xb == x * SUBPIXEL,
        e.ya == ya * SUBPIXEL,
        e.yb == yb * SUBPIXEL,
        0 <= r < h,
        0 <= c < w,
    ensures
        row_term(w, e, rr, r * w + c) == e.dir * FULL_COVERAGE * (ind(r == rr && c == x) + ind(
            c == 0 && x == w && r == rr + 1,
        )),
{
    let s = SUBPIXEL as int;
    assert(row_top(e, rr) == rr * s);
    assert(row_bot(e, rr) == (rr + 1) * s);
    let xs = x * s;
    assert forall|y: int| #[trigger] x_at(e.xa as int, e.ya as int, e.xb as int, e.yb as int, y) == xs by {
        assert(0 * (y - e.ya) == 0) by (nonlinear_arith);
    }
    assert(row_lo(e, rr) == xs && row_hi(e, rr) == xs);
    assert forall|cc: int| #[trigger] swept(xs, xs, s, cc) == if cc >= x { s * s } else { 0 } by {
        if cc >= x {
            assert(clamp_cov((cc + 1) * s - xs) == s);
        } else {
            assert(clamp_cov((cc + 1) * s - xs) == 0);
            assert(s * 0 == 0);
        }
    }
    lemma_cell_of_column(w, r, c, rr, x);
    let i = r * w + c;
    let k1 = ind(r == rr && c == x) + ind(c == 0 && x == w && r == rr + 1);
    let d = e.dir as int;
    if rr * w <= i <= rr * w + w {
        let cc = i - rr * w;
        let g1 = swept(xs, xs, s, cc);
        let g0 = swept(xs, xs, s, cc - 1);
        assert(row_delta(e, rr, cc) == d * (g1 - g0));
        if cc == x {
            assert(k1 == 1);
            assert(g1 - g0 == 65536);
            assert(d * (g1 - g0) == d * 65536 * k1) by (nonlinear_arith)
                requires g1 - g0 == 65536, k1 == 1;
        } else {
            assert(k1 == 0);
            assert(g1 == g0);
            assert(d * (g1 - g0) == d * 65536 * k1) by (nonlinear_arith)
                requires g1 == g0, k1 == 0;
        }
    } else {
        assert(k1 == 0);
        assert(0 == d * 65536 * k1) by (nonlinear_arith) requires k1 == 0;
    }
}

/// A vertical edge over whole rows `ya..yb` adds a full pixel of signed
/// coverage at its column in each of those rows.
proof fn lemma_vertical_rows(a: Seq<i64>, w: int, h: int, e: Edge, x: int, ya: int, yb: int, k: int)
    requires
        0 <= x <= w,
        0 <= ya <= k <= yb <= h,
        e.xa == x * SUBPIXEL,
        e.xb == x * SUBPIXEL,
        e.ya == ya * SUBPIXEL,
        e.yb == yb * SUBPIXEL,
        e.dir == 1 || e.dir == -1,
        w * h < a.len(),
        forall|r: int, c: int|
            0 <= r < h && 0 <= c < w ==> -FULL_COVERAGE <= #[trigger] a[r * w + c] <= FULL_COVERAGE,
    ensures
        after_rows(a, w, e, ya, k).len() == a.len(),
        forall|r: int, c: int|
            0 <= r < h && 0 <= c < w ==> #[trigger] after_rows(a, w, e, ya, k)[r * w + c] == a[r * w
                + c] + e.dir * FULL_COVERAGE * (ind(c == x && ya <= r < k) + ind(
                c == 0 && x == w && ya <= r - 1 < k,
            )),
    decreases k - ya,
{
    let d = e.dir as int;
    if k > ya {
        lemma_vertical_rows(a, w, h, e, x, ya, yb, k - 1);
        let prev = after_rows(a, w, e, ya, k - 1);
        assert forall|r: int, c: int| 0 <= r < h && 0 <= c < w implies #[trigger] after_rows(
            a,
            w,
            e,
            ya,
            k,
        )[r * w + c] == a[r * w + c] + e.dir * FULL_COVERAGE * (ind(c == x && ya <= r < k) + ind(
            c == 0 && x == w && ya <= r - 1 < k,
        )) by {
            let i = r * w + c;
            assert(0 <= i < w * h) by (nonlinear_arith) requires 0 <= r < h, 0 <= c < w, i == r * w + c;
            lemma_vertical_row_term(w, h, e, x, ya, yb, k - 1, r, c);
            let kp = ind(c == x && ya <= r < k - 1) + ind(c == 0 && x == w && ya <= r - 1 < k - 1);
            let k1 = ind(r == k - 1 && c == x) + ind(c == 0 && x == w && r == k);
            let kn = ind(c == x && ya <= r < k) + ind(c == 0 && x == w && ya <= r - 1 < k);
            assert(kn == kp + k1);
            assert(0 <= kn <= 1);
            assert(prev[i] == a[i] + d * 65536 * kp);
            assert(row_term(w, e, k - 1, i) == d * 65536 * k1);
            assert(d * 65536 * kp + d * 65536 * k1 == d * 65536 * kn) by (nonlinear_arith)
                requires kn == kp + k1;
            assert(-65536 <= d * 65536 * kn <= 65536) by (nonlinear_arith)
                requires 0 <= kn <= 1, d == 1 || d == -1;
            assert(after_rows(a, w, e, ya, k) == after_row(prev, w, e, k - 1));
        }
    } else {
        assert forall|r: int, c: int| 0 <= r < h && 0 <= c < w implies #[trigger] after_rows(
            a,
            w,
            e,
            ya,
            k,
        )[r * w + c] == a[r * w + c] + e.dir * FULL_COVERAGE * (ind(c == x && ya <= r < k) + ind(
            c == 0 && x == w && ya <= r - 1 < k,
        )) by {
            assert(d * 65536 * 0 == 0) by (nonlinear_arith);
        }
    }
}

/// A vertical edge from `(x, y0)` to `(x, y1)` over whole rows.
proof fn lemma_vertical_line(a: Seq<i64>, w: int, h: int, x: int, y0: int, y1: int)
    requires
        0 <= x <= w,
        0 <= y0 <= h,
        0 <= y1 <= h,
        y0 != y1,
        w * SUBPIXEL <= i32::MAX,
        h * SUBPIXEL <= i32::MAX,
        w * h < a.len(),
        forall|r: int, c: int|
            0 <= r < h && 0 <= c < w ==> -FULL_COVERAGE <= #[trigger] a[r * w + c] <= FULL_COVERAGE,
    ensures
        after_line(a, w, h, corner(x, y0), corner(x, y1)).len() == a.len(),
        forall|r: int, c: int|
            0 <= r < h && 0 <= c < w ==> #[trigger] after_line(a, w, h, corner(x, y0), corner(x, y1))[r
                * w + c] == a[r * w + c] + (if y0 < y1 { 1int } else { -1int }) * FULL_COVERAGE * (ind(
                c == x && min_int(y0, y1) <= r < max_int(y0, y1),
            ) + ind(c == 0 && x == w && min_int(y0, y1) <= r - 1 < max_int(y0, y1))),
{
    let p0 = corner(x, y0);
    let p1 = corner(x, y1);
    let e = edge_of(p0, p1);
    let lo = min_int(y0, y1);
    let hi = max_int(y0, y1);
    assert(first_row(e.ya as int) == lo);
    assert(end_row(e.yb as int, h) == hi);
    lemma_vertical_rows(a, w, h, e, x, lo, hi, hi);
}

/// The buffer after the four edges of the rectangle with pixel corners
/// `(x0, y0)` and `(x1, y1)` were drawn clockwise, starting at `(x0, y0)`.
pub open spec fn after_rectangle(a: Seq<i64>, w: int, h: int, x0: int, y0: int, x1: int, y1: int) -> Seq<
    i64,
> {
    let a1 = after_line(a, w, h, corner(x0, y0), corner(x1, y0));
    let a2 = after_line(a1, w, h, corner(x1, y0), corner(x1, y1));
    let a3 = after_line(a2, w, h, corner(x1, y1), corner(x0, y1));
    after_line(a3, w, h, corner(x0, y1), corner(x0, y0))
}

proof fn lemma_rectangle_cells(a: Seq<i64>, w: int, h: int, x0: int, y0: int, x1: int, y1: int)
    requires
        0 <= x0 < x1 <= w,
        0 <= y0 < y1 <= h,
        w * SUBPIXEL <= i32::MAX,
        h * SUBPIXEL <= i32::MAX,
        w * h < a.len(),
        forall|i: int| 0 <= i < w * h ==> a[i] == 0,
    ensures
        after_rectangle(a, w, h, x0, y0, x1, y1).len() == a.len(),
        forall|r: int, c: int|
            0 <= r < h && 0 <= c < w ==> #[trigger] after_rectangle(a, w, h, x0, y0, x1, y1)[r * w
                + c] == FULL_COVERAGE * (ind(c == x1 && y0 <= r < y1) + ind(
                c == 0 && x1 == w && y0 <= r - 1 < y1,
            )) - FULL_COVERAGE * ind(c == x0 && y0 <= r < y1),
{
    let a1 = after_line(a, w, h, corner(x0, y0), corner(x1, y0));
    let a2 = after_line(a1, w, h, corner(x1, y0), corner(x1, y1));
    let a3 = after_line(a2, w, h, corner(x1, y1), corner(x0, y1));
    assert(a1 == a);
    assert forall|r: int, c: int| 0 <= r < h && 0 <= c < w implies -FULL_COVERAGE <= #[trigger] a1[r
        * w + c] <= FULL_COVERAGE by {
        assert(0 <= r * w + c < w * h) by (nonlinear_arith) requires 0 <= r < h, 0 <= c < w;
    }
    lemma_vertical_line(a1, w, h, x1, y0, y1);
    assert(a3 == a2);
    assert forall|r: int, c: int| 0 <= r < h && 0 <= c < w implies -FULL_COVERAGE <= #[trigger] a3[r
        * w + c] <= FULL_COVERAGE by {
        assert(0 <= r * w + c < w * h) by (nonlinear_arith) requires 0 <= r < h, 0 <= c < w;
        let kk = ind(c == x1 && y0 <= r < y1) + ind(c == 0 && x1 == w && y0 <= r - 1 < y1);
        assert(1int * FULL_COVERAGE * kk == 65536 * kk) by (nonlinear_arith);
    }
    lemma_vertical_line(a3, w, h, x0, y1, y0);
    assert forall|r: int, c: int| 0 <= r < h && 0 <= c < w implies #[trigger] after_rectangle(
        a,
        w,
        h,
        x0,
        y0,
        x1,
        y1,
    )[r * w + c] == FULL_COVERAGE * (ind(c == x1 && y0 <= r < y1) + ind(
        c == 0 && x1 == w && y0 <= r - 1 < y1,
    )) - FULL_COVERAGE * ind(c == x0 && y0 <= r < y1) by {
        assert(0 <= r * w + c < w * h) by (nonlinear_arith) requires 0 <= r < h, 0 <= c < w;
        let kk = ind(c == x1 && y0 <= r < y1) + ind(c == 0 && x1 == w && y0 <= r - 1 < y1);
        let kl = ind(c == x0 && y0 <= r < y1) + ind(c == 0 && x0 == w && y0 <= r - 1 < y1);
        assert(1int * FULL_COVERAGE * kk == 65536 * kk) by (nonlinear_arith);
        assert(-1int * FULL_COVERAGE * kl == -65536 * kl) by (nonlinear_arith);
    }
}

proof fn lemma_rectangle_running(b: Seq<i64>, w: int, h: int, x0: int, y0: int, x1: int, y1: int, r: int, c: int)
    requires
        0 <= x0 < x1 <= w,
        0 <= y0 < y1 <= h,
        w * h < b.len(),
        forall|r: int, c: int|
            0 <= r < h && 0 <= c < w ==> #[trigger] b[r * w + c] == FULL_COVERAGE * (ind(
                c == x1 && y0 <= r < y1,
            ) + ind(c == 0 && x1 == w && y0 <= r - 1 < y1)) - FULL_COVERAGE * ind(
                c == x0 && y0 <= r < y1,
            ),
        0 <= r < h,
        0 <= c < w,
    ensures
        running(b, r * w + c + 1) == -FULL_COVERAGE * ind(y0 <= r < y1 && x0 <= c < x1),
    decreases r, c,
{
    let i = r * w + c;
    assert(0 <= i < w * h) by (nonlinear_arith) requires 0 <= r < h, 0 <= c < w, i == r * w + c;
    assert(b[i] == FULL_COVERAGE * (ind(c == x1 && y0 <= r < y1) + ind(
        c == 0 && x1 == w && y0 <= r - 1 < y1,
    )) - FULL_COVERAGE * ind(c == x0 && y0 <= r < y1));
    if c > 0 {
        lemma_rectangle_running(b, w, h, x0, y0, x1, y1, r, c - 1);
    } else if r > 0 {
        lemma_rectangle_running(b, w, h, x0, y0, x1, y1, r - 1, w - 1);
        assert((r - 1) * w + (w - 1) + 1 == r * w) by (nonlinear_arith);
    } else {
        assert(i == 0);
    }
}

/// Drawing the four edges of a rectangle whose corners lie on pixel
/// boundaries into a raster whose first `w * h` cells are zero yields a
/// bitmap with 255 at every pixel inside the rectangle and 0 at every pixel
/// outside it.
pub proof fn lemma_closed_rectangle_fills(a: Seq<i64>, w: int, h: int, x0: int, y0: int, x1: int, y1: int)
    requires
        0 <= x0 < x1 <= w,
        0 <= y0 < y1 <= h,
        w * SUBPIXEL <= i32::MAX,
        h * SUBPIXEL <= i32::MAX,
        w * h < a.len(),
        forall|i: int| 0 <= i < w * h ==> a[i] == 0,
    ensures
        forall|r: int, c: int|
            0 <= r < h && 0 <= c < w ==> #[trigger] bitmap_of(
                after_rectangle(a, w, h, x0, y0, x1, y1),
                (w * h) as nat,
            )[r * w + c] == if y0 <= r < y1 && x0 <= c < x1 {
                255u8
            } else {
                0u8
            },
{
    lemma_rectangle_cells(a, w, h, x0, y0, x1, y1);
    let b = after_rectangle(a, w, h, x0, y0, x1, y1);
    assert forall|r: int, c: int| 0 <= r < h && 0 <= c < w implies #[trigger] bitmap_of(
        b,
        (w * h) as nat,
    )[r * w + c] == if y0 <= r < y1 && x0 <= c < x1 {
        255u8
    } else {
        0u8
    } by {
        assert(0 <= r * w + c < w * h) by (nonlinear_arith) requires 0 <= r < h, 0 <= c < w;
        lemma_rectangle_running(b, w, h, x0, y0, x1, y1, r, c);
        assert(0 * 25599998 == 0);
    }
}

} // verus!
