//! Catmull-Rom curves: each window of four control points gives one cubic
//! segment through its two middle points, sampled at every slice of a
//! parameter table.

use vstd::prelude::*;
use crate::error::CurveError;
use crate::ratio::{
    Ratio, add_opt, difference, div_opt, int_ratio, mul_opt, opt_difference, opt_product,
    opt_quotient, opt_sum, opt_wf, product, quotient, sub_opt, sum, zero, lemma_difference_wf, lemma_product_wf,
    lemma_quotient_wf, lemma_sum_wf, lemma_zero_laws,
};
use crate::table::Slice;

verus! {

/// A point of the plane.
#[derive(Clone, Copy, Debug, PartialEq, Eq)]
pub struct Point {
    pub x: Ratio,
    pub y: Ratio,
}

/// Pairs up two coordinates that may be missing.
pub open spec fn point_of(x: Option<Ratio>, y: Option<Ratio>) -> Option<Point> {
    match (x, y) {
        (Some(x), Some(y)) => Some(Point { x, y }),
        _ => None,
    }
}

fn pair(x: Option<Ratio>, y: Option<Ratio>) -> (r: Option<Point>)
    requires
        opt_wf(x),
        opt_wf(y),
    ensures
        r == point_of(x, y),
        r matches Some(p) ==> p.wf(),
{
    match (x, y) {
        (Some(x), Some(y)) => Some(Point { x, y }),
        _ => None,
    }
}

impl Point {
    pub open spec fn wf(self) -> bool {
        self.x.wf() && self.y.wf()
    }

    /// `self + o`, coordinate by coordinate; `None` where a coordinate leaves
    /// the range.
    pub fn add(&self, o: &Point) -> (r: Option<Point>)
        requires
            self.wf(),
            o.wf(),
        ensures
            r == point_of(sum(self.x, o.x), sum(self.y, o.y)),
            r matches Some(p) ==> p.wf(),
    {
        pair(self.x.add(&o.x), self.y.add(&o.y))
    }

    /// `self - o`, coordinate by coordinate.
    pub fn sub(&self, o: &Point) -> (r: Option<Point>)
        requires
            self.wf(),
            o.wf(),
        ensures
            r == point_of(difference(self.x, o.x), difference(self.y, o.y)),
            r matches Some(p) ==> p.wf(),
    {
        pair(self.x.sub(&o.x), self.y.sub(&o.y))
    }

    /// `self * k`, both coordinates scaled by `k`.
    pub fn scale(&self, k: &Ratio) -> (r: Option<Point>)
        requires
            self.wf(),
            k.wf(),
        ensures
            r == point_of(product(self.x, *k), product(self.y, *k)),
            r matches Some(p) ==> p.wf(),
    {
        pair(self.x.mul(k), self.y.mul(k))
    }

    /// `self / k`, both coordinates divided by `k`; `None` where `k` is zero.
    pub fn div(&self, k: &Ratio) -> (r: Option<Point>)
        requires
            self.wf(),
            k.wf(),
        ensures
            r == point_of(quotient(self.x, *k), quotient(self.y, *k)),
            r matches Some(p) ==> p.wf(),
    {
        pair(self.x.div(k), self.y.div(k))
    }
}

/// The tangent at `c1`, from the window `c0, c1, c2` with segment weights
/// `d01`, `d12`, scaled by the inverse tension `tau`:
/// `((c2 - c1) + ((c1 - c0) / d01 - (c2 - c0) / (d01 + d12)) * d12) * tau`.
pub open spec fn start_tangent(c0: Ratio, c1: Ratio, c2: Ratio, d01: Ratio, d12: Ratio, tau: Ratio) -> Option<
    Ratio,
> {
    opt_product(
        opt_sum(
            difference(c2, c1),
            opt_product(
                opt_difference(
                    opt_quotient(difference(c1, c0), Some(d01)),
                    opt_quotient(difference(c2, c0), sum(d01, d12)),
                ),
                Some(d12),
            ),
        ),
        Some(tau),
    )
}

/// The tangent at `c2`, from the window `c1, c2, c3` with segment weights
/// `d12`, `d23`, scaled by the inverse tension `tau`:
/// `((c2 - c1) + ((c3 - c2) / d23 - (c3 - c1) / (d12 + d23)) * d12) * tau`.
pub open spec fn end_tangent(c1: Ratio, c2: Ratio, c3: Ratio, d12: Ratio, d23: Ratio, tau: Ratio) -> Option<
    Ratio,
> {
    opt_product(
        opt_sum(
            difference(c2, c1),
            opt_product(
                opt_difference(
                    opt_quotient(difference(c3, c2), Some(d23)),
                    opt_quotient(difference(c3, c1), sum(d12, d23)),
                ),
                Some(d12),
            ),
        ),
        Some(tau),
    )
}

/// `p12 * 2 + m1 + m2`, where `p12 = c1 - c2`.
pub open spec fn cubic_coefficient(p12: Ratio, m1: Ratio, m2: Ratio) -> Option<Ratio> {
    opt_sum(opt_sum(product(p12, int_ratio(2)), Some(m1)), Some(m2))
}

/// `p12 * -3 - m1 - m1 - m2`, where `p12 = c1 - c2`.
pub open spec fn quadratic_coefficient(p12: Ratio, m1: Ratio, m2: Ratio) -> Option<Ratio> {
    opt_difference(
        opt_difference(opt_difference(product(p12, int_ratio(-3)), Some(m1)), Some(m1)),
        Some(m2),
    )
}

/// One coordinate of a segment as `(m1, a, b)`: the segment is
/// `a * t^3 + b * t^2 + m1 * t + c1`.
pub open spec fn coefficients(
    c0: Ratio,
    c1: Ratio,
    c2: Ratio,
    c3: Ratio,
    d01: Ratio,
    d12: Ratio,
    d23: Ratio,
    tau: Ratio,
) -> Option<(Ratio, Ratio, Ratio)> {
    match (
        start_tangent(c0, c1, c2, d01, d12, tau),
        end_tangent(c1, c2, c3, d12, d23, tau),
        difference(c1, c2),
    ) {
        (Some(m1), Some(m2), Some(p12)) => match (
            cubic_coefficient(p12, m1, m2),
            quadratic_coefficient(p12, m1, m2),
        ) {
            (Some(a), Some(b)) => Some((m1, a, b)),
            _ => None,
        },
        _ => None,
    }
}

/// `a * t^3 + b * t^2 + m1 * t + c1` at slice `s`.
pub open spec fn sample(k: (Ratio, Ratio, Ratio), c1: Ratio, s: Slice) -> Option<Ratio> {
    opt_sum(
        opt_sum(opt_sum(product(k.1, s.t_cubed), product(k.2, s.t_squared)), product(k.0, s.t)),
        Some(c1),
    )
}

pub open spec fn x_coefficients(points: Seq<Point>, ds: Seq<Ratio>, tau: Ratio, i: int) -> Option<
    (Ratio, Ratio, Ratio),
> {
    coefficients(
        points[i].x,
        points[i + 1].x,
        points[i + 2].x,
        points[i + 3].x,
        ds[i],
        ds[i + 1],
        ds[i + 2],
        tau,
    )
}

pub open spec fn y_coefficients(points: Seq<Point>, ds: Seq<Ratio>, tau: Ratio, i: int) -> Option<
    (Ratio, Ratio, Ratio),
> {
    coefficients(
        points[i].y,
        points[i + 1].y,
        points[i + 2].y,
        points[i + 3].y,
        ds[i],
        ds[i + 1],
        ds[i + 2],
        tau,
    )
}

/// The samples of segment `i`, between `points[i + 1]` and `points[i + 2]`.
#[verifier::opaque]
pub open spec fn segment(
    points: Seq<Point>,
    slices: Seq<Slice>,
    ds: Seq<Ratio>,
    tau: Ratio,
    i: int,
) -> Option<Seq<Point>> {
    match (x_coefficients(points, ds, tau, i), y_coefficients(points, ds, tau, i)) {
        (Some(kx), Some(ky)) => if forall|k: int|
            0 <= k < slices.len() ==> (#[trigger] sample(kx, points[i + 1].x, slices[k])) is Some
                && sample(ky, points[i + 1].y, slices[k]) is Some {
            Some(
                Seq::new(
                    slices.len(),
                    |k: int|
                        Point {
                            x: sample(kx, points[i + 1].x, slices[k])->Some_0,
                            y: sample(ky, points[i + 1].y, slices[k])->Some_0,
                        },
                ),
            )
        } else {
            None
        },
        _ => None,
    }
}

/// The first `n` segments one after the other.
pub open spec fn segments(
    points: Seq<Point>,
    slices: Seq<Slice>,
    ds: Seq<Ratio>,
    tau: Ratio,
    n: int,
) -> Option<Seq<Point>>
    decreases n,
{
    if n <= 0 {
        Some(Seq::empty())
    } else {
        match (segments(points, slices, ds, tau, n - 1), segment(points, slices, ds, tau, n - 1)) {
            (Some(a), Some(b)) => Some(a + b),
            _ => None,
        }
    }
}

/// What `make_spline` returns.
pub open spec fn catmull_rom(points: Seq<Point>, slices: Seq<Slice>, ds: Seq<Ratio>, tau: Ratio) -> Result<
    Seq<Point>,
    CurveError,
> {
    if points.len() < 4 {
        Err(CurveError::TooFewPoints)
    } else if ds.len() + 1 != points.len() {
        Err(CurveError::ShapeMismatch)
    } else {
        match segments(points, slices, ds, tau, points.len() - 3) {
            Some(v) => Ok(v),
            None => Err(CurveError::Overflow),
        }
    }
}

pub open spec fn all_points_wf(s: Seq<Point>) -> bool {
    forall|i: int| 0 <= i < s.len() ==> (#[trigger] s[i]).wf()
}

pub open spec fn all_slices_wf(s: Seq<Slice>) -> bool {
    forall|i: int| 0 <= i < s.len() ==> (#[trigger] s[i]).wf()
}

pub open spec fn all_positive(s: Seq<Ratio>) -> bool {
    forall|i: int| 0 <= i < s.len() ==> (#[trigger] s[i]).wf() && s[i].num > 0
}

fn coefficients_exec(
    c0: Ratio,
    c1: Ratio,
    c2: Ratio,
    c3: Ratio,
    d01: Ratio,
    d12: Ratio,
    d23: Ratio,
    tau: Ratio,
) -> (r: Option<(Ratio, Ratio, Ratio)>)
    requires
        c0.wf(),
        c1.wf(),
        c2.wf(),
        c3.wf(),
        d01.wf(),
        d12.wf(),
        d23.wf(),
        tau.wf(),
    ensures
        r == coefficients(c0, c1, c2, c3, d01, d12, d23, tau),
        r matches Some(k) ==> k.0.wf() && k.1.wf() && k.2.wf(),
{
    let m1: Option<Ratio> = mul_opt(
        add_opt(
            c2.sub(&c1),
            mul_opt(
                sub_opt(div_opt(c1.sub(&c0), Some(d01)), div_opt(c2.sub(&c0), d01.add(&d12))),
                Some(d12),
            ),
        ),
        Some(tau),
    );
    let m2: Option<Ratio> = mul_opt(
        add_opt(
            c2.sub(&c1),
            mul_opt(
                sub_opt(div_opt(c3.sub(&c2), Some(d23)), div_opt(c3.sub(&c1), d12.add(&d23))),
                Some(d12),
            ),
        ),
        Some(tau),
    );
    match (m1, m2, c1.sub(&c2)) {
        (Some(m1), Some(m2), Some(p12)) => {
            let two: Ratio = Ratio::integer(2);
            let minus_three: Ratio = Ratio::integer(-3);
            let a: Option<Ratio> = add_opt(add_opt(p12.mul(&two), Some(m1)), Some(m2));
            let b: Option<Ratio> = sub_opt(
                sub_opt(sub_opt(p12.mul(&minus_three), Some(m1)), Some(m1)),
                Some(m2),
            );
            match (a, b) {
                (Some(a), Some(b)) => Some((m1, a, b)),
                _ => None,
            }
        },
        _ => None,
    }
}

fn sample_exec(k: (Ratio, Ratio, Ratio), c1: Ratio, s: &Slice) -> (r: Option<Ratio>)
    requires
        k.0.wf(),
        k.1.wf(),
        k.2.wf(),
        c1.wf(),
        s.wf(),
    ensures
        r == sample(k, c1, *s),
        opt_wf(r),
{
    proof {
        crate::table::lemma_slice_wf(*s);
    }
    add_opt(
        add_opt(add_opt(k.1.mul(&s.t_cubed), k.2.mul(&s.t_squared)), k.0.mul(&s.t)),
        Some(c1),
    )
}

#[verifier::rlimit(40)]
/// Appends the samples of segment `i` to `out`, or tells that one of its
/// values left the range.
fn segment_exec(
    points: &Vec<Point>,
    slices: &Vec<Slice>,
    ds: &Vec<Ratio>,
    tau: &Ratio,
    i: usize,
    out: &mut Vec<Point>,
) -> (done: bool)
    requires
        all_points_wf(points@),
        all_slices_wf(slices@),
        all_positive(ds@),
        tau.wf(),
        i + 3 < points.len(),
        ds.len() + 1 == points.len(),
    ensures
        done == segment(points@, slices@, ds@, *tau, i as int) is Some,
        done ==> final(out)@ == old(out)@ + segment(points@, slices@, ds@, *tau, i as int)->Some_0,
{
    proof {
        reveal(segment);
    }
    let p0: Point = points[i];
    let p1: Point = points[i + 1];
    let p2: Point = points[i + 2];
    let p3: Point = points[i + 3];
    let d01: Ratio = ds[i];
    let d12: Ratio = ds[i + 1];
    let d23: Ratio = ds[i + 2];
    let kx: (Ratio, Ratio, Ratio) = match coefficients_exec(p0.x, p1.x, p2.x, p3.x, d01, d12, d23, *tau) {
        Some(k) => k,
        None => {
            return false;
        },
    };
    let ky: (Ratio, Ratio, Ratio) = match coefficients_exec(p0.y, p1.y, p2.y, p3.y, d01, d12, d23, *tau) {
        Some(k) => k,
        None => {
            return false;
        },
    };
    let ghost start = out@;
    let ghost pts = points@;
    let ghost sl = slices@;
    let mut k: usize = 0;
    while k < slices.len()
        invariant
            pts == points@,
            sl == slices@,
            all_slices_wf(slices@),
            i + 3 < points.len(),
            p1 == pts[i + 1],
            p1.wf(),
            kx.0.wf() && kx.1.wf() && kx.2.wf(),
            ky.0.wf() && ky.1.wf() && ky.2.wf(),
            x_coefficients(pts, ds@, *tau, i as int) == Some(kx),
            y_coefficients(pts, ds@, *tau, i as int) == Some(ky),
            k <= slices.len(),
            forall|m: int|
                0 <= m < k ==> (#[trigger] sample(kx, p1.x, sl[m])) is Some && sample(
                    ky,
                    p1.y,
                    sl[m],
                ) is Some,
            out@ == start + Seq::new(
                k as nat,
                |m: int|
                    Point {
                        x: sample(kx, p1.x, sl[m])->Some_0,
                        y: sample(ky, p1.y, sl[m])->Some_0,
                    },
            ),
        decreases slices.len() - k,
    {
        let sx: Option<Ratio> = sample_exec(kx, p1.x, &slices[k]);
        let sy: Option<Ratio> = sample_exec(ky, p1.y, &slices[k]);
        match (sx, sy) {
            (Some(x), Some(y)) => {
                out.push(Point { x, y });
            },
            _ => {
                assert(!(sample(kx, p1.x, sl[k as int]) is Some && sample(ky, p1.y, sl[k as int]) is Some));
                proof {
                    reveal(segment);
                }
                return false;
            },
        }
        k = k + 1;
        assert(out@ =~= start + Seq::new(
            k as nat,
            |m: int|
                Point {
                    x: sample(kx, p1.x, sl[m])->Some_0,
                    y: sample(ky, p1.y, sl[m])->Some_0,
                },
        ));
    }
    true
}

/// The coefficients of a segment are well-formed.
proof fn lemma_coefficients_wf(
    c0: Ratio,
    c1: Ratio,
    c2: Ratio,
    c3: Ratio,
    d01: Ratio,
    d12: Ratio,
    d23: Ratio,
    tau: Ratio,
)
    ensures
        coefficients(c0, c1, c2, c3, d01, d12, d23, tau) matches Some(k) ==> k.0.wf() && k.1.wf()
            && k.2.wf(),
{
    assert(coefficients(c0, c1, c2, c3, d01, d12, d23, tau) matches Some(k) ==> k.0.wf() && k.1.wf()
        && k.2.wf()) by {
        broadcast use lemma_sum_wf, lemma_difference_wf, lemma_product_wf, lemma_quotient_wf;

    }
}

proof fn lemma_segment_len(points: Seq<Point>, slices: Seq<Slice>, ds: Seq<Ratio>, tau: Ratio, i: int)
    ensures
        segment(points, slices, ds, tau, i) matches Some(v) ==> v.len() == slices.len(),
{
    reveal(segment);
}

/// The points of the first `n` segments: segment `i` fills the places
/// `i * r .. (i + 1) * r`, where `r` is the number of slices.
proof fn lemma_segments_layout(
    points: Seq<Point>,
    slices: Seq<Slice>,
    ds: Seq<Ratio>,
    tau: Ratio,
    n: int,
)
    requires
        n >= 0,
        segments(points, slices, ds, tau, n) is Some,
    ensures
        segments(points, slices, ds, tau, n)->Some_0.len() == n * slices.len(),
        forall|i: int| 0 <= i < n ==> (#[trigger] segment(points, slices, ds, tau, i)) is Some,
        forall|i: int, k: int|
            0 <= i < n && 0 <= k < slices.len() ==> segments(points, slices, ds, tau, n)->Some_0[i
                * slices.len() + k] == #[trigger] (segment(points, slices, ds, tau, i)->Some_0)[k],
    decreases n,
{
    let r = slices.len() as int;
    if n == 0 {
        assert(0 * r == 0);
    } else {
        lemma_segments_layout(points, slices, ds, tau, n - 1);
        let prev = segments(points, slices, ds, tau, n - 1)->Some_0;
        let last = segment(points, slices, ds, tau, n - 1)->Some_0;
        let all = segments(points, slices, ds, tau, n)->Some_0;
        lemma_segment_len(points, slices, ds, tau, n - 1);
        assert(last.len() == r);
        assert(all == prev + last);
        assert((n - 1) * r + r == n * r) by (nonlinear_arith);
        assert forall|i: int, k: int| 0 <= i < n && 0 <= k < r implies all[i * r + k]
            == #[trigger] (segment(points, slices, ds, tau, i)->Some_0)[k] by {
            if i < n - 1 {
                assert(i * r + k < (n - 1) * r) by (nonlinear_arith)
                    requires
                        0 <= i < n - 1,
                        0 <= k < r,
                ;
                assert(0 <= i * r) by (nonlinear_arith)
                    requires
                        0 <= i,
                        0 <= r,
                ;
                assert(all[i * r + k] == prev[i * r + k]);
            } else {
                assert(all[(n - 1) * r + k] == last[k]);
            }
        }
    }
}

/// At `t = 0` a sample is the segment's start point.
proof fn lemma_sample_at_zero(k: (Ratio, Ratio, Ratio), c1: Ratio, s: Slice)
    requires
        k.0.wf(),
        k.1.wf(),
        k.2.wf(),
        c1.wf(),
        s.wf(),
        s.t == zero(),
    ensures
        sample(k, c1, s) == Some(c1),
{
    crate::ratio::lemma_int_wf(0);
    lemma_zero_laws(zero());
    lemma_zero_laws(k.0);
    lemma_zero_laws(k.1);
    lemma_zero_laws(k.2);
    lemma_zero_laws(c1);
}

proof fn lemma_segment_starts(points: Seq<Point>, slices: Seq<Slice>, ds: Seq<Ratio>, tau: Ratio, i: int)
    requires
        all_points_wf(points),
        0 <= i,
        i + 3 < points.len(),
        slices.len() > 0,
        slices[0].wf(),
        slices[0].t == zero(),
    ensures
        segment(points, slices, ds, tau, i) matches Some(v) ==> v[0] == points[i + 1],
{
    reveal(segment);
    assert(points[i].wf() && points[i + 1].wf() && points[i + 2].wf() && points[i + 3].wf());
    lemma_coefficients_wf(
        points[i].x,
        points[i + 1].x,
        points[i + 2].x,
        points[i + 3].x,
        ds[i],
        ds[i + 1],
        ds[i + 2],
        tau,
    );
    lemma_coefficients_wf(
        points[i].y,
        points[i + 1].y,
        points[i + 2].y,
        points[i + 3].y,
        ds[i],
        ds[i + 1],
        ds[i + 2],
        tau,
    );
    if let (Some(kx), Some(ky)) = (x_coefficients(points, ds, tau, i), y_coefficients(points, ds, tau, i)) {
        lemma_sample_at_zero(kx, points[i + 1].x, slices[0]);
        lemma_sample_at_zero(ky, points[i + 1].y, slices[0]);
    }
}

/// Every segment starts at its second control point: where the first slice
/// is `t = 0`, the sample at place `i * r` (`r` the number of slices) is
/// `points[i + 1]`, and the curve's first point is `points[1]`.
pub proof fn lemma_segments_start_at_control_points(
    points: Seq<Point>,
    slices: Seq<Slice>,
    ds: Seq<Ratio>,
    tau: Ratio,
)
    requires
        all_points_wf(points),
        slices.len() > 0,
        slices[0].wf(),
        slices[0].t == zero(),
    ensures
        catmull_rom(points, slices, ds, tau) matches Ok(v) ==> forall|i: int|
            0 <= i < points.len() - 3 ==> #[trigger] v[i * slices.len()] == points[i + 1],
        catmull_rom(points, slices, ds, tau) matches Ok(v) ==> v[0] == points[1],
{
    if let Ok(v) = catmull_rom(points, slices, ds, tau) {
        let n = points.len() - 3;
        let r = slices.len() as int;
        lemma_segments_layout(points, slices, ds, tau, n);
        assert forall|i: int| 0 <= i < n implies #[trigger] v[i * slices.len()] == points[i + 1] by {
            lemma_segment_starts(points, slices, ds, tau, i);
            assert(v[i * r + 0] == (segment(points, slices, ds, tau, i)->Some_0)[0]);
        }
        assert(0 * r == 0);
        assert(v[0 * r] == points[0int + 1]);
    }
}

/// With an inverse tension of zero both tangents vanish where they are
/// defined, and each coordinate of a segment is the cubic blend
/// `(c1 - c2) * 2 * t^3 + (c1 - c2) * -3 * t^2 + c1` between its two middle
/// control points, with no influence from the outer ones.
pub proof fn lemma_full_tension(
    c0: Ratio,
    c1: Ratio,
    c2: Ratio,
    c3: Ratio,
    d01: Ratio,
    d12: Ratio,
    d23: Ratio,
)
    requires
        c0.wf(),
        c1.wf(),
        c2.wf(),
        c3.wf(),
        d01.wf(),
        d12.wf(),
        d23.wf(),
    ensures
        start_tangent(c0, c1, c2, d01, d12, zero()) is None || start_tangent(c0, c1, c2, d01, d12, zero())
            == Some(zero()),
        end_tangent(c1, c2, c3, d12, d23, zero()) is None || end_tangent(c1, c2, c3, d12, d23, zero())
            == Some(zero()),
        coefficients(c0, c1, c2, c3, d01, d12, d23, zero()) matches Some(k) ==> k.0 == zero() && Some(k.1)
            == product(difference(c1, c2)->Some_0, int_ratio(2)) && Some(k.2) == product(
            difference(c1, c2)->Some_0,
            int_ratio(-3),
        ),
{
    let x1 = opt_sum(
        difference(c2, c1),
        opt_product(
            opt_difference(
                opt_quotient(difference(c1, c0), Some(d01)),
                opt_quotient(difference(c2, c0), sum(d01, d12)),
            ),
            Some(d12),
        ),
    );
    let x2 = opt_sum(
        difference(c2, c1),
        opt_product(
            opt_difference(
                opt_quotient(difference(c3, c2), Some(d23)),
                opt_quotient(difference(c3, c1), sum(d12, d23)),
            ),
            Some(d12),
        ),
    );
    assert(opt_wf(x1) && opt_wf(x2)) by {
        broadcast use lemma_sum_wf, lemma_difference_wf, lemma_product_wf, lemma_quotient_wf;

    }
    if let Some(x) = x1 {
        lemma_zero_laws(x);
    }
    if let Some(x) = x2 {
        lemma_zero_laws(x);
    }
    if let Some(p12) = difference(c1, c2) {
        crate::ratio::lemma_results_wf(c1, c2);
        crate::ratio::lemma_results_wf(p12, int_ratio(2));
        crate::ratio::lemma_results_wf(p12, int_ratio(-3));
        if let Some(q) = product(p12, int_ratio(2)) {
            lemma_zero_laws(q);
        }
        if let Some(q) = product(p12, int_ratio(-3)) {
            lemma_zero_laws(q);
        }
    }
}

/// Once the first `n` segments fail, so do more of them.
proof fn lemma_segments_fail(
    points: Seq<Point>,
    slices: Seq<Slice>,
    ds: Seq<Ratio>,
    tau: Ratio,
    n: int,
    m: int,
)
    requires
        0 <= n <= m,
        segments(points, slices, ds, tau, n) is None,
    ensures
        segments(points, slices, ds, tau, m) is None,
    decreases m - n,
{
    if m > n {
        lemma_segments_fail(points, slices, ds, tau, n, m - 1);
    }
}

/// Samples the Catmull-Rom curve through `points`: for each window of four
/// consecutive points, one segment from its second to its third point,
/// evaluated at every slice. `distances[i]` is the weight of the stretch from
/// `points[i]` to `points[i + 1]` (the distance between them raised to the
/// parameterisation exponent); `inverse_tension` is one minus the tension.
pub fn make_spline(
    points: &Vec<Point>,
    slices: &Vec<Slice>,
    distances: &Vec<Ratio>,
    inverse_tension: Ratio,
) -> (r: Result<Vec<Point>, CurveError>)
    requires
        all_points_wf(points@),
        all_slices_wf(slices@),
        all_positive(distances@),
        inverse_tension.wf(),
    ensures
        r matches Ok(v) ==> v.len() == (points.len() - 3) * slices.len(),
        match r {
            Ok(v) => catmull_rom(points@, slices@, distances@, inverse_tension) == Ok::<
                Seq<Point>,
                CurveError,
            >(v@),
            Err(e) => catmull_rom(points@, slices@, distances@, inverse_tension) == Err::<
                Seq<Point>,
                CurveError,
            >(e),
        },
{
    if points.len() < 4 {
        return Err(CurveError::TooFewPoints);
    }
    if distances.len() != points.len() - 1 {
        return Err(CurveError::ShapeMismatch);
    }
    let n_splines: usize = points.len() - 3;
    let mut spline: Vec<Point> = Vec::new();
    let mut i: usize = 0;
    while i < n_splines
        invariant
            n_splines == points.len() - 3,
            all_points_wf(points@),
            all_slices_wf(slices@),
            all_positive(distances@),
            inverse_tension.wf(),
            distances.len() + 1 == points.len(),
            i <= n_splines,
            segments(points@, slices@, distances@, inverse_tension, i as int) == Some(spline@),
        decreases n_splines - i,
    {
        if !segment_exec(points, slices, distances, &inverse_tension, i, &mut spline) {
            proof {
                lemma_segments_fail(
                    points@,
                    slices@,
                    distances@,
                    inverse_tension,
                    i + 1,
                    n_splines as int,
                );
            }
            return Err(CurveError::Overflow);
        }
        i = i + 1;
    }
    proof {
        lemma_segments_layout(points@, slices@, distances@, inverse_tension, n_splines as int);
    }
    Ok(spline)
}

} // verus!
