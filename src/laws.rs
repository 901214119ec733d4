use vstd::prelude::*;
use crate::coverage::{
    after_line, after_rows, bitmap_of, edge_of, end_row, first_row, row_term, running,
};
use crate::curve::{after_curve, after_polyline, curve_vertex, deviation_sq, is_flat, segment_count};
use crate::geometry::Point;

verus! {

/// A horizontal segment leaves the buffer as it was, whatever its x values.
pub proof fn lemma_horizontal_line_adds_nothing(a: Seq<i64>, w: int, h: int, p0: Point, p1: Point)
    requires
        p0.y == p1.y,
    ensures
        after_line(a, w, h, p0, p1) == a,
{
}

/// A buffer whose first `n` cells are zero gives an all-zero bitmap of `n`
/// pixels: the bitmap right after `consume_bitmap` cleared them.
pub proof fn lemma_cleared_bitmap_is_blank(a: Seq<i64>, n: nat)
    requires
        n <= a.len(),
        forall|i: int| 0 <= i < n ==> a[i] == 0,
    ensures
        bitmap_of(a, n) == Seq::new(n, |i: int| 0u8),
{
    assert forall|i: int| 0 <= i <= n implies running(a, i) == 0 by {
        lemma_running_of_zeros(a, n, i);
    }
    assert(bitmap_of(a, n) =~= Seq::new(n, |i: int| 0u8));
}

proof fn lemma_running_of_zeros(a: Seq<i64>, n: nat, i: int)
    requires
        n <= a.len(),
        forall|j: int| 0 <= j < n ==> a[j] == 0,
        0 <= i <= n,
    ensures
        running(a, i) == 0,
    decreases i,
{
    if i > 0 {
        lemma_running_of_zeros(a, n, i - 1);
    }
}

/// A curve whose control point is the midpoint of its end points has no
/// deviation and is drawn exactly as the segment between its end points.
pub proof fn lemma_straight_curve_is_chord(
    a: Seq<i64>,
    w: int,
    h: int,
    p0: Point,
    p1: Point,
    p2: Point,
)
    requires
        2 * p1.x == p0.x + p2.x,
        2 * p1.y == p0.y + p2.y,
    ensures
        deviation_sq(p0, p1, p2) == 0,
        after_curve(a, w, h, p0, p1, p2) == after_line(a, w, h, p0, p2),
{
    let dx = p0.x - 2 * p1.x + p2.x;
    let dy = p0.y - 2 * p1.y + p2.y;
    assert(dx == 0 && dy == 0);
    assert(dx * dx + dy * dy == 0) by (nonlinear_arith) requires dx == 0, dy == 0;
    assert(is_flat(p0, p1, p2));
}

/// Drawing a segment into a raster `w` by `h` changes no cell past index
/// `w * h`, the last cell being the slack that takes the one-column
/// overshoot of the bottom row.
pub proof fn lemma_line_stays_in_area(a: Seq<i64>, w: int, h: int, p0: Point, p1: Point)
    requires
        w >= 0,
        h >= 0,
    ensures
        after_line(a, w, h, p0, p1).len() == a.len(),
        forall|i: int|
            w * h < i < a.len() ==> #[trigger] after_line(a, w, h, p0, p1)[i] == a[i],
{
    if p0.y != p1.y {
        let e = edge_of(p0, p1);
        let lo = first_row(e.ya as int);
        let hi = end_row(e.yb as int, h);
        lemma_rows_stay_in_area(a, w, h, e, lo, hi);
    }
}

proof fn lemma_rows_stay_in_area(a: Seq<i64>, w: int, h: int, e: crate::coverage::Edge, lo: int, hi: int)
    requires
        w >= 0,
        h >= 0,
        0 <= lo,
        hi <= h,
    ensures
        after_rows(a, w, e, lo, hi).len() == a.len(),
        forall|i: int| w * h < i < a.len() ==> #[trigger] after_rows(a, w, e, lo, hi)[i] == a[i],
    decreases hi - lo,
{
    if hi > lo {
        lemma_rows_stay_in_area(a, w, h, e, lo, hi - 1);
        let prev = after_rows(a, w, e, lo, hi - 1);
        let r = hi - 1;
        assert(r * w + w <= w * h) by (nonlinear_arith) requires 0 <= r < h, w >= 0;
        assert forall|i: int| w * h < i < a.len() implies #[trigger] after_rows(a, w, e, lo, hi)[i]
            == a[i] by {
            assert(row_term(w, e, r, i) == 0);
            assert(prev[i] == a[i]);
        }
    }
}

/// Drawing a curve into a raster `w` by `h` changes no cell past index
/// `w * h`, as for each of the segments that it is drawn with.
pub proof fn lemma_curve_stays_in_area(a: Seq<i64>, w: int, h: int, p0: Point, p1: Point, p2: Point)
    requires
        w >= 0,
        h >= 0,
    ensures
        after_curve(a, w, h, p0, p1, p2).len() == a.len(),
        forall|i: int|
            w * h < i < a.len() ==> #[trigger] after_curve(a, w, h, p0, p1, p2)[i] == a[i],
{
    if is_flat(p0, p1, p2) {
        lemma_line_stays_in_area(a, w, h, p0, p2);
    } else {
        let n = segment_count(p0, p1, p2);
        lemma_polyline_stays_in_area(a, w, h, p0, p1, p2, n, n);
    }
}

proof fn lemma_polyline_stays_in_area(
    a: Seq<i64>,
    w: int,
    h: int,
    p0: Point,
    p1: Point,
    p2: Point,
    n: int,
    k: int,
)
    requires
        w >= 0,
        h >= 0,
    ensures
        after_polyline(a, w, h, p0, p1, p2, n, k).len() == a.len(),
        forall|i: int|
            w * h < i < a.len() ==> #[trigger] after_polyline(a, w, h, p0, p1, p2, n, k)[i] == a[i],
    decreases k,
{
    if k > 0 {
        lemma_polyline_stays_in_area(a, w, h, p0, p1, p2, n, k - 1);
        let prev = after_polyline(a, w, h, p0, p1, p2, n, k - 1);
        lemma_line_stays_in_area(
            prev,
            w,
            h,
            curve_vertex(p0, p1, p2, n, k - 1),
            curve_vertex(p0, p1, p2, n, k),
        );
        assert forall|i: int| w * h < i < a.len() implies #[trigger] after_polyline(
            a,
            w,
            h,
            p0,
            p1,
            p2,
            n,
            k,
        )[i] == a[i] by {
            assert(prev[i] == a[i]);
        }
    }
}

} // verus!
