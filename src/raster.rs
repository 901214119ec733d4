use vstd::prelude::*;
use crate::coverage::{
    after_line, after_row, after_rows, bitmap_of, coverage_byte_exec, edge_of, end_row, first_row,
    lemma_swept_left, lemma_swept_right, row_bot, row_delta, row_hi, row_lo, row_term, row_top,
    running, swept, swept_exec, wrap64, wrap_add, x_at_exec, Edge,
};
use crate::curve::{
    after_curve, after_polyline, bezier_coord_exec, curve_vertex, deviation_sq, is_flat,
    isqrt_exec, segment_count, FLAT_DEN, FLAT_NUM, TOLERANCE,
};
use crate::geometry::{Geometry, Point, SUBPIXEL};

verus! {

/// Returned by `Raster::refit` when the requested dimensions do not fit the
/// capacity fixed at construction.
#[derive(Clone, Copy, Debug, PartialEq, Eq, Structural)]
pub struct CapacityExceeded {
    pub width: usize,
    pub height: usize,
    pub capacity: usize,
}

/// An accumulation buffer of signed coverage deltas for a `w` by `h` pixel
/// area, row-major, with slack cells past the last row for the one-column
/// overshoot of edge writes.
pub struct Raster {
    w: usize,
    h: usize,
    a: Vec<i64>,
}

impl Raster {
    pub closed spec fn width(&self) -> nat {
        self.w as nat
    }

    pub closed spec fn height(&self) -> nat {
        self.h as nat
    }

    /// The delta cells, including the slack past the last row.
    pub closed spec fn cells(&self) -> Seq<i64> {
        self.a@
    }

    pub open spec fn capacity(&self) -> nat {
        self.cells().len()
    }

    /// The logical area stays strictly inside the buffer, so that the write
    /// one column past the last row still lands in it.
    pub open spec fn wf(&self) -> bool {
        self.width() * self.height() < self.capacity()
    }

    /// `p` lies within the raster's columns (rows are clipped while drawing).
    pub open spec fn holds(&self, p: Point) -> bool {
        0 <= p.x && p.x <= self.width() * SUBPIXEL
    }

    /// A zeroed raster `w` by `h` whose buffer has four cells of slack.
    pub fn new(w: usize, h: usize) -> (r: Raster)
        requires
            w * h + 4 <= usize::MAX,
        ensures
            r.wf(),
            r.width() == w,
            r.height() == h,
            r.capacity() == w * h + 4,
            forall|i: int| 0 <= i < r.capacity() ==> r.cells()[i] == 0,
    {
        Raster { w, h, a: vec![0i64; w * h + 4] }
    }

    /// Changes the logical dimensions without reallocating; fails when
    /// `w * h` does not stay below the buffer's capacity.
    pub fn refit(&mut self, w: usize, h: usize) -> (res: Result<(), CapacityExceeded>)
        requires
            old(self).wf(),
        ensures
            final(self).wf(),
            final(self).cells() == old(self).cells(),
            res is Ok <==> w * h < old(self).capacity(),
            res is Ok ==> final(self).width() == w && final(self).height() == h,
            res is Err ==> final(self).width() == old(self).width()
                && final(self).height() == old(self).height()
                && res == (Err::<(), CapacityExceeded>(
                CapacityExceeded { width: w, height: h, capacity: old(self).capacity() as usize },
            )),
    {
        let cap = self.a.len();
        let fits = match w.checked_mul(h) {
            Some(n) => n < cap,
            None => false,
        };
        if fits {
            self.w = w;
            self.h = h;
            Ok(())
        } else {
            Err(CapacityExceeded { width: w, height: h, capacity: cap })
        }
    }

    /// Adds the coverage deltas of one pixel row `r` of the edge.
    fn add_row(&mut self, e: &Edge, r: usize)
        requires
            old(self).wf(),
            e.ya < e.yb,
            e.dir == 1 || e.dir == -1,
            i32::MIN <= e.ya <= i32::MAX,
            i32::MIN <= e.yb <= i32::MAX,
            0 <= e.xa <= old(self).width() * SUBPIXEL,
            0 <= e.xb <= old(self).width() * SUBPIXEL,
            e.xa <= i32::MAX,
            e.xb <= i32::MAX,
            first_row(e.ya as int) <= r < end_row(e.yb as int, old(self).height() as int),
        ensures
            final(self).width() == old(self).width(),
            final(self).height() == old(self).height(),
            final(self).cells() == after_row(old(self).cells(), old(self).width() as int, *e, r as int),
    {
        let ghost old_a = self.a@;
        let w = self.w;
        let h = self.h;
        let _len = self.a.len();
        assert(r * SUBPIXEL < e.yb);
        let ri = r as i64;
        let top = if e.ya > ri * SUBPIXEL {
            e.ya
        } else {
            ri * SUBPIXEL
        };
        let bot = if e.yb < (ri + 1) * SUBPIXEL {
            e.yb
        } else {
            (ri + 1) * SUBPIXEL
        };
        assert(top == row_top(*e, r as int) && bot == row_bot(*e, r as int));
        let xt = x_at_exec(e, top);
        let xm = x_at_exec(e, bot);
        let lo = if xt <= xm {
            xt
        } else {
            xm
        };
        let hi = if xt <= xm {
            xm
        } else {
            xt
        };
        let dy = bot - top;
        assert(lo == row_lo(*e, r as int) && hi == row_hi(*e, r as int));
        let x0i = (lo / SUBPIXEL) as usize;
        let x1i = ((hi + SUBPIXEL - 1) / SUBPIXEL) as usize;
        proof {
            vstd::arithmetic::div_mod::lemma_div_is_ordered(
                hi + SUBPIXEL - 1,
                w * SUBPIXEL + SUBPIXEL - 1,
                SUBPIXEL as int,
            );
            assert((w * SUBPIXEL + SUBPIXEL - 1) / (SUBPIXEL as int) == w) by (nonlinear_arith)
                requires SUBPIXEL == 256, w >= 0;
            assert(r < h);
            assert(w * h < old_a.len());
            assert(r * w + w <= w * h) by (nonlinear_arith) requires r < h, w >= 0;
        }
        let base = r * w;
        let mut c: usize = x0i;
        let mut prev: i64 = 0;
        proof {
            lemma_swept_left(lo as int, hi as int, dy as int, x0i - 1);
        }
        while c <= x1i
            invariant
                self.w == w,
                self.h == h,
                self.a@.len() == old_a.len(),
                w * h < old_a.len(),
                base == r * w,
                base + w < old_a.len(),
                old_a.len() <= usize::MAX,
                r < h,
                x0i <= c <= x1i + 1,
                x1i <= w,
                x1i * SUBPIXEL <= hi + SUBPIXEL - 1,
                0 <= lo <= hi <= i32::MAX,
                0 < dy <= SUBPIXEL,
                e.dir == 1 || e.dir == -1,
                lo == row_lo(*e, r as int),
                hi == row_hi(*e, r as int),
                dy == row_bot(*e, r as int) - row_top(*e, r as int),
                prev == swept(lo as int, hi as int, dy as int, c - 1),
                0 <= prev <= dy * SUBPIXEL,
                forall|i: int|
                    0 <= i < old_a.len() ==> self.a@[i] == if base + x0i <= i < base + c {
                        wrap64(old_a[i] + row_term(w as int, *e, r as int, i)) as i64
                    } else {
                        old_a[i]
                    },
            decreases x1i + 1 - c,
        {
            let g = swept_exec(lo, hi, dy, c as i64);
            let d = e.dir * (g - prev);
            let idx = base + c;
            assert(d == row_term(w as int, *e, r as int, idx as int));
            let v = wrap_add(self.a[idx], d);
            self.a.set(idx, v);
            prev = g;
            c = c + 1;
        }
        proof {
            assert forall|i: int| 0 <= i < old_a.len() implies self.a@[i] == after_row(
                old_a,
                w as int,
                *e,
                r as int,
            )[i] by {
                if !(base + x0i <= i <= base + x1i) && base <= i <= base + w {
                    let col = i - base;
                    if col < x0i {
                        lemma_swept_left(lo as int, hi as int, dy as int, col);
                        lemma_swept_left(lo as int, hi as int, dy as int, col - 1);
                    } else {
                        lemma_swept_right(lo as int, hi as int, dy as int, col);
                        lemma_swept_right(lo as int, hi as int, dy as int, col - 1);
                    }
                    assert(row_delta(*e, r as int, col) == 0);
                }
            }
            assert(self.a@ =~= after_row(old_a, w as int, *e, r as int));
        }
    }

    /// Adds the coverage deltas of the segment from `p0` to `p1`, row by row,
    /// for the rows that it crosses within the raster.
    pub fn draw_line(&mut self, p0: &Point, p1: &Point)
        requires
            old(self).wf(),
            old(self).holds(*p0),
            old(self).holds(*p1),
        ensures
            final(self).wf(),
            final(self).width() == old(self).width(),
            final(self).height() == old(self).height(),
            final(self).cells() == after_line(
                old(self).cells(),
                old(self).width() as int,
                old(self).height() as int,
                *p0,
                *p1,
            ),
    {
        if p0.y == p1.y {
            return;
        }
        let e = if p0.y < p1.y {
            Edge { dir: 1, xa: p0.x as i64, ya: p0.y as i64, xb: p1.x as i64, yb: p1.y as i64 }
        } else {
            Edge { dir: -1, xa: p1.x as i64, ya: p1.y as i64, xb: p0.x as i64, yb: p0.y as i64 }
        };
        assert(e == edge_of(*p0, *p1));
        let ghost old_a = self.a@;
        let r0: usize = if e.ya <= 0 {
            0
        } else {
            (e.ya / SUBPIXEL) as usize
        };
        let c1: usize = if e.yb <= 0 {
            0
        } else {
            ((e.yb + SUBPIXEL - 1) / SUBPIXEL) as usize
        };
        let r1: usize = if c1 < self.h {
            c1
        } else {
            self.h
        };
        assert(r0 == first_row(e.ya as int) && r1 == end_row(e.yb as int, self.h as int));
        if r0 < r1 {
            let mut r: usize = r0;
            while r < r1
                invariant
                    r0 <= r <= r1,
                    r1 == end_row(e.yb as int, self.height() as int),
                    r0 == first_row(e.ya as int),
                    self.wf(),
                    self.width() == old(self).width(),
                    self.height() == old(self).height(),
                    0 <= e.xa <= self.width() * SUBPIXEL,
                    0 <= e.xb <= self.width() * SUBPIXEL,
                    e == edge_of(*p0, *p1),
                    p0.y != p1.y,
                    self.cells() == after_rows(old_a, self.width() as int, e, r0 as int, r as int),
                decreases r1 - r,
            {
                self.add_row(&e, r);
                r = r + 1;
            }
        }
    }

    /// The coverage bitmap, `w * h` bytes row-major; the buffer is left as it is.
    pub fn get_bitmap(&self) -> (out: Vec<u8>)
        requires
            self.wf(),
        ensures
            out@ == bitmap_of(self.cells(), self.width() * self.height()),
    {
        let _cap = self.a.len();
        let length = self.w * self.h;
        let mut acc: i64 = 0;
        let mut output: Vec<u8> = Vec::with_capacity(length);
        let mut i: usize = 0;
        while i < length
            invariant
                length == self.width() * self.height(),
                length < self.a@.len(),
                i <= length,
                acc == running(self.a@, i as int),
                output@ =~= bitmap_of(self.a@, i as nat),
            decreases length - i,
        {
            acc = wrap_add(acc, self.a[i]);
            output.push(coverage_byte_exec(acc));
            i = i + 1;
        }
        output
    }

    /// The coverage bitmap, `w * h` bytes row-major, clearing each cell
    /// that it reads so that the raster is ready for the next shape.
    pub fn consume_bitmap(&mut self) -> (out: Vec<u8>)
        requires
            old(self).wf(),
        ensures
            final(self).wf(),
            final(self).width() == old(self).width(),
            final(self).height() == old(self).height(),
            out@ == bitmap_of(old(self).cells(), old(self).width() * old(self).height()),
            final(self).capacity() == old(self).capacity(),
            forall|i: int|
                0 <= i < final(self).capacity() ==> final(self).cells()[i] == if i < old(
                    self,
                ).width() * old(self).height() {
                    0
                } else {
                    old(self).cells()[i]
                },
    {
        let ghost old_a = self.a@;
        let _cap = self.a.len();
        let length = self.w * self.h;
        let mut acc: i64 = 0;
        let mut output: Vec<u8> = Vec::with_capacity(length);
        let mut i: usize = 0;
        while i < length
            invariant
                length == self.width() * self.height(),
                self.width() == old(self).width(),
                self.height() == old(self).height(),
                self.a@.len() == old_a.len(),
                length < old_a.len(),
                i <= length,
                acc == running(old_a, i as int),
                output@ =~= bitmap_of(old_a, i as nat),
                forall|j: int| 0 <= j < old_a.len() ==> self.a@[j] == if j < i { 0 } else { old_a[j] },
            decreases length - i,
        {
            acc = wrap_add(acc, self.a[i]);
            self.a.set(i, 0);
            output.push(coverage_byte_exec(acc));
            i = i + 1;
        }
        output
    }

    /// Draws the quadratic curve from `p0` to `p2` with control point `p1`:
    /// its chord when it is nearly straight, else a polyline through points
    /// of the curve at equal steps of its parameter.
    pub fn draw_curve(&mut self, p0: &Point, p1: &Point, p2: &Point)
        requires
            old(self).wf(),
            old(self).holds(*p0),
            old(self).holds(*p1),
            old(self).holds(*p2),
        ensures
            final(self).wf(),
            final(self).width() == old(self).width(),
            final(self).height() == old(self).height(),
            final(self).cells() == after_curve(
                old(self).cells(),
                old(self).width() as int,
                old(self).height() as int,
                *p0,
                *p1,
                *p2,
            ),
    {
        let devx = p0.x as i128 - 2 * p1.x as i128 + p2.x as i128;
        let devy = p0.y as i128 - 2 * p1.y as i128 + p2.y as i128;
        assert(0 <= devx * devx <= 0x4_0000_0000_0000_0000 && 0 <= devy * devy
            <= 0x4_0000_0000_0000_0000) by (nonlinear_arith)
            requires
                -0x2_0000_0000 <= devx <= 0x2_0000_0000,
                -0x2_0000_0000 <= devy <= 0x2_0000_0000,
        ;
        let devsq = devx * devx + devy * devy;
        assert(devsq == deviation_sq(*p0, *p1, *p2));
        if FLAT_DEN * devsq < FLAT_NUM * (SUBPIXEL as i128 * SUBPIXEL as i128) {
            self.draw_line(p0, p2);
            return;
        }
        let v = (TOLERANCE * devsq) / (SUBPIXEL as i128 * SUBPIXEL as i128);
        proof {
            vstd::arithmetic::div_mod::lemma_div_is_ordered(
                TOLERANCE * devsq,
                0x18_0000_0000_0000_0000,
                SUBPIXEL * SUBPIXEL,
            );
        }
        let q = isqrt_exec(v as u128);
        let n: u128 = 1 + isqrt_exec(q);
        assert(n == segment_count(*p0, *p1, *p2));
        let ghost old_a = self.cells();
        let ghost w = self.width() as int;
        let ghost h = self.height() as int;
        let mut prev = *p0;
        let mut k: u128 = 1;
        while k < n
            invariant
                1 <= k <= n <= 0x1_0000,
                n == segment_count(*p0, *p1, *p2),
                !is_flat(*p0, *p1, *p2),
                self.wf(),
                self.width() == w,
                self.height() == h,
                self.holds(*p0),
                self.holds(*p1),
                self.holds(*p2),
                self.holds(prev),
                prev == curve_vertex(*p0, *p1, *p2, n as int, k - 1),
                self.cells() == after_polyline(old_a, w, h, *p0, *p1, *p2, n as int, k - 1),
            decreases n - k,
        {
            let pk = Point {
                x: bezier_coord_exec(p0.x, p1.x, p2.x, n as i128, k as i128),
                y: bezier_coord_exec(p0.y, p1.y, p2.y, n as i128, k as i128),
            };
            assert(pk == curve_vertex(*p0, *p1, *p2, n as int, k as int));
            self.draw_line(&prev, &pk);
            prev = pk;
            k = k + 1;
        }
        self.draw_line(&prev, p2);
    }

    /// Draws one primitive: a line segment or a quadratic curve.
    pub fn draw(&mut self, geometry: &Geometry)
        requires
            old(self).wf(),
            match *geometry {
                Geometry::Line { a, b } => old(self).holds(a) && old(self).holds(b),
                Geometry::Curve { a, b, c } => old(self).holds(a) && old(self).holds(b) && old(
                    self,
                ).holds(c),
            },
        ensures
            final(self).wf(),
            final(self).width() == old(self).width(),
            final(self).height() == old(self).height(),
            final(self).cells() == match *geometry {
                Geometry::Line { a, b } => after_line(
                    old(self).cells(),
                    old(self).width() as int,
                    old(self).height() as int,
                    a,
                    b,
                ),
                Geometry::Curve { a, b, c } => after_curve(
                    old(self).cells(),
                    old(self).width() as int,
                    old(self).height() as int,
                    a,
                    b,
                    c,
                ),
            },
    {
        match geometry {
            Geometry::Line { a, b } => self.draw_line(a, b),
            Geometry::Curve { a, b, c } => self.draw_curve(a, b, c),
        }
    }

    /// The logical width and height.
    pub fn dims(&self) -> (r: (usize, usize))
        ensures
            r.0 == self.width(),
            r.1 == self.height(),
    {
        (self.w, self.h)
    }
}

} // verus!
