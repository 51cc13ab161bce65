//! B-spline evaluation by de Boor's algorithm, over the uniform knot vector
//! `0, 1, ..., n_points + degree`, in homogeneous coordinates of weight one.

use vstd::prelude::*;
use crate::error::CurveError;
use crate::ratio::{
    Ratio, difference, fits, gcd, int_ratio, lowest, lowest_opt, one, opt_wf, product, quotient, sum, zero,
    lemma_difference_wf, lemma_product_wf, lemma_sum_wf,
    lemma_int_difference, lemma_int_wf, lemma_lowest_of_wf, lemma_lowest_value, lemma_lowest_whole,
    lemma_lowest_wf, lemma_lowest_opt_wf,
};

verus! {

/// Knot `i` of the uniform knot vector.
pub open spec fn knot(i: int) -> Ratio {
    int_ratio(i)
}

/// Coordinate `j` of control point `i`, where `j == dims` is the homogeneous
/// weight, always one.
pub open spec fn control(points: Seq<Ratio>, dims: int, i: int, j: int) -> Ratio {
    if j == dims {
        one()
    } else {
        points[i * dims + j]
    }
}

/// A curve parameter `u` in `[0, 1]` carried into the knot domain:
/// `u * (knots[n_points] - knots[degree]) + knots[degree]`.
pub open spec fn rescale(u: Ratio, n_points: int, degree: int) -> Option<Ratio> {
    match difference(knot(n_points), knot(degree)) {
        Some(w) => match product(u, w) {
            Some(x) => sum(x, knot(degree)),
            None => None,
        },
        None => None,
    }
}

/// `knots[s] <= t <= knots[s + 1]`.
pub open spec fn in_span(t: Ratio, s: int) -> bool {
    s * t.den <= t.num && t.num <= (s + 1) * t.den
}

/// The first `s` in `[from, n_points)` whose span holds `t`.
pub open spec fn find_span(t: Ratio, from: int, n_points: int) -> Option<int>
    decreases n_points - from,
{
    if from >= n_points {
        None
    } else if in_span(t, from) {
        Some(from)
    } else {
        find_span(t, from + 1, n_points)
    }
}

/// The blend factor of index `i` at level `l`:
/// `(t - knots[i]) / (knots[i + degree + 1 - l] - knots[i])`.
pub open spec fn blend_factor(t: Ratio, degree: int, l: int, i: int) -> Option<Ratio> {
    match (difference(t, knot(i)), difference(knot(i + degree + 1 - l), knot(i))) {
        (Some(a), Some(b)) => quotient(a, b),
        _ => None,
    }
}

/// `(1 - a) * x + a * y`.
pub open spec fn blend(a: Ratio, x: Ratio, y: Ratio) -> Option<Ratio> {
    match difference(one(), a) {
        Some(c) => match (product(c, x), product(a, y)) {
            (Some(p), Some(q)) => sum(p, q),
            _ => None,
        },
        None => None,
    }
}

/// Coordinate `j` of the de Boor point of index `i` after `l` levels of the
/// recurrence.
pub open spec fn de_boor(
    points: Seq<Ratio>,
    dims: int,
    j: int,
    t: Ratio,
    degree: int,
    l: nat,
    i: int,
) -> Option<Ratio>
    decreases l,
{
    if l == 0 {
        Some(control(points, dims, i, j))
    } else {
        match (
            blend_factor(t, degree, l as int, i),
            de_boor(points, dims, j, t, degree, (l - 1) as nat, i - 1),
            de_boor(points, dims, j, t, degree, (l - 1) as nat, i),
        ) {
            (Some(a), Some(x), Some(y)) => blend(a, x, y),
            _ => None,
        }
    }
}

/// Coordinate `j` of the curve point over span `s`: the de Boor point divided
/// by its weight.
pub open spec fn curve_coordinate(
    points: Seq<Ratio>,
    dims: int,
    j: int,
    t: Ratio,
    degree: int,
    s: int,
    w: Ratio,
) -> Option<Ratio> {
    match de_boor(points, dims, j, t, degree, degree as nat, s) {
        Some(x) => quotient(x, w),
        None => None,
    }
}

/// The curve point at parameter `u`: all zeros where `u` lies outside
/// `[0, 1]`.
pub open spec fn curve_point(
    points: Seq<Ratio>,
    n_points: int,
    dims: int,
    degree: int,
    u: Ratio,
) -> Result<Seq<Ratio>, CurveError> {
    if !u.in_unit() {
        Ok(Seq::new(dims as nat, |j: int| zero()))
    } else {
        match rescale(u, n_points, degree) {
            None => Err(CurveError::Overflow),
            Some(t) => match find_span(t, degree, n_points) {
                None => Err(CurveError::SpanNotFound),
                Some(s) => match de_boor(points, dims, dims, t, degree, degree as nat, s) {
                    None => Err(CurveError::Overflow),
                    Some(w) => if forall|j: int|
                        0 <= j < dims ==> (#[trigger] curve_coordinate(
                            points,
                            dims,
                            j,
                            t,
                            degree,
                            s,
                            w,
                        )) is Some {
                        Ok(
                            Seq::new(
                                dims as nat,
                                |j: int| curve_coordinate(points, dims, j, t, degree, s, w)->Some_0,
                            ),
                        )
                    } else {
                        Err(CurveError::Overflow)
                    },
                },
            },
        }
    }
}

/// The points at the first `k` parameters, one after the other, or the first
/// failure among them.
pub open spec fn curve_points(
    points: Seq<Ratio>,
    n_points: int,
    dims: int,
    degree: int,
    us: Seq<Ratio>,
    k: int,
) -> Result<Seq<Ratio>, CurveError>
    decreases k,
{
    if k <= 0 {
        Ok(Seq::empty())
    } else {
        match curve_points(points, n_points, dims, degree, us, k - 1) {
            Err(e) => Err(e),
            Ok(prev) => match curve_point(points, n_points, dims, degree, us[k - 1]) {
                Err(e) => Err(e),
                Ok(row) => Ok(prev + row),
            },
        }
    }
}

/// What `spline` returns.
pub open spec fn evaluate(
    points: Seq<Ratio>,
    n_points: int,
    dims: int,
    degree: int,
    us: Seq<Ratio>,
) -> Result<Seq<Ratio>, CurveError> {
    if points.len() != n_points * dims {
        Err(CurveError::ShapeMismatch)
    } else {
        curve_points(points, n_points, dims, degree, us, us.len() as int)
    }
}

pub open spec fn all_wf(s: Seq<Ratio>) -> bool {
    forall|i: int| 0 <= i < s.len() ==> (#[trigger] s[i]).wf()
}

/// A value of the triangle that is missing leaves the curve point missing.
proof fn lemma_missing_spreads(
    points: Seq<Ratio>,
    dims: int,
    j: int,
    t: Ratio,
    degree: int,
    s: int,
    l: nat,
    i: int,
)
    requires
        l <= degree,
        s - degree + l <= i <= s,
        de_boor(points, dims, j, t, degree, l, i) is None,
    ensures
        de_boor(points, dims, j, t, degree, degree as nat, s) is None,
    decreases degree - l,
{
    if l < degree {
        if i > s - degree + l {
            lemma_missing_spreads(points, dims, j, t, degree, s, l + 1, i);
        } else {
            lemma_missing_spreads(points, dims, j, t, degree, s, l + 1, i + 1);
        }
    }
}

proof fn lemma_index_in_bounds(i: int, j: int, n: int, dims: int)
    requires
        0 <= i < n,
        0 <= j < dims,
    ensures
        0 <= i * dims + j < n * dims,
{
    assert(0 <= i * dims + j < n * dims) by (nonlinear_arith)
        requires
            0 <= i < n,
            0 <= j < dims,
    ;
}

fn knot_at(i: i128) -> (r: Ratio)
    requires
        fits(i as int),
    ensures
        r == knot(i as int),
        r.wf(),
{
    Ratio::integer(i)
}

fn rescale_exec(u: &Ratio, n_points: usize, degree: usize) -> (r: Option<Ratio>)
    requires
        u.wf(),
    ensures
        r == rescale(*u, n_points as int, degree as int),
        r matches Some(t) ==> t.wf(),
{
    let hi: Ratio = knot_at(n_points as i128);
    let lo: Ratio = knot_at(degree as i128);
    match hi.sub(&lo) {
        Some(w) => match u.mul(&w) {
            Some(x) => x.add(&lo),
            None => None,
        },
        None => None,
    }
}

/// Whether `k <= t`.
fn int_le(k: i128, t: &Ratio) -> (r: bool)
    requires
        k >= 0,
        t.wf(),
    ensures
        r == (k * t.den <= t.num),
{
    proof {
        assert(k * t.den >= 0) by (nonlinear_arith)
            requires
                k >= 0,
                t.den > 0,
        ;
    }
    match k.checked_mul(t.den) {
        Some(p) => p <= t.num,
        None => false,
    }
}

/// Whether `t <= k`.
fn le_int(t: &Ratio, k: i128) -> (r: bool)
    requires
        k >= 0,
        t.wf(),
    ensures
        r == (t.num <= k * t.den),
{
    proof {
        assert(k * t.den >= 0) by (nonlinear_arith)
            requires
                k >= 0,
                t.den > 0,
        ;
    }
    match k.checked_mul(t.den) {
        Some(p) => t.num <= p,
        None => true,
    }
}

fn find_span_exec(t: &Ratio, degree: usize, n_points: usize) -> (r: Option<usize>)
    requires
        t.wf(),
    ensures
        r matches Some(s) ==> find_span(*t, degree as int, n_points as int) == Some(s as int)
            && degree <= s < n_points,
        r is None ==> find_span(*t, degree as int, n_points as int) is None,
{
    let mut s: usize = degree;
    while s < n_points
        invariant
            degree <= s,
            t.wf(),
            find_span(*t, degree as int, n_points as int) == find_span(*t, s as int, n_points as int),
        decreases n_points - s,
    {
        if int_le(s as i128, t) && le_int(t, (s as i128) + 1) {
            return Some(s);
        }
        s = s + 1;
    }
    None
}

fn blend_factor_exec(t: &Ratio, degree: usize, l: usize, i: usize) -> (r: Option<Ratio>)
    requires
        t.wf(),
        1 <= l <= degree,
    ensures
        r == blend_factor(*t, degree as int, l as int, i as int),
        r matches Some(a) ==> a.wf(),
{
    let ki: Ratio = knot_at(i as i128);
    let kj: Ratio = knot_at((i as i128) + (degree as i128) + 1 - (l as i128));
    proof {
        lemma_int_difference(i + degree + 1 - l, i as int);
    }
    match (t.sub(&ki), kj.sub(&ki)) {
        (Some(a), Some(b)) => a.div(&b),
        _ => None,
    }
}

fn blend_exec(a: &Ratio, x: &Ratio, y: &Ratio) -> (r: Option<Ratio>)
    requires
        a.wf(),
        x.wf(),
        y.wf(),
    ensures
        r == blend(*a, *x, *y),
        r matches Some(b) ==> b.wf(),
{
    let unit: Ratio = Ratio::integer(1);
    match unit.sub(a) {
        Some(c) => match (c.mul(x), a.mul(y)) {
            (Some(p), Some(q)) => p.add(&q),
            _ => None,
        },
        None => None,
    }
}

/// Coordinate `j` of control point `i`, or the weight one for `j == dims`.
fn control_exec(points: &Vec<Ratio>, n_points: usize, dims: usize, i: usize, j: usize) -> (r: Ratio)
    requires
        all_wf(points@),
        points.len() == n_points * dims,
        i < n_points,
        j <= dims,
    ensures
        r == control(points@, dims as int, i as int, j as int),
        r.wf(),
{
    if j == dims {
        Ratio::integer(1)
    } else {
        proof {
            lemma_index_in_bounds(i as int, j as int, n_points as int, dims as int);
        }
        points[i * dims + j]
    }
}

/// Runs the de Boor recurrence on coordinate `j` over span `s`.
fn de_boor_exec(
    points: &Vec<Ratio>,
    n_points: usize,
    dims: usize,
    j: usize,
    t: &Ratio,
    degree: usize,
    s: usize,
) -> (r: Option<Ratio>)
    requires
        all_wf(points@),
        points.len() == n_points * dims,
        j <= dims,
        t.wf(),
        degree <= s < n_points,
    ensures
        r == de_boor(points@, dims as int, j as int, *t, degree as int, degree as nat, s as int),
        r matches Some(x) ==> x.wf(),
{
    let ghost pts = points@;
    let ghost d = dims as int;
    let ghost jj = j as int;
    let ghost dg = degree as int;
    let base: usize = s - degree;
    let mut w: Vec<Ratio> = Vec::new();
    let mut k: usize = 0;
    while k <= degree
        invariant
            pts == points@,
            d == dims as int,
            jj == j as int,
            dg == degree as int,
            all_wf(points@),
            points.len() == n_points * dims,
            j <= dims,
            degree <= s < n_points,
            base == s - degree,
            k <= degree + 1,
            w.len() == k,
            forall|m: int|
                0 <= m < k ==> Some(#[trigger] w@[m]) == de_boor(pts, d, jj, *t, dg, 0, base + m),
            all_wf(w@),
        decreases degree + 1 - k,
    {
        w.push(control_exec(points, n_points, dims, base + k, j));
        k = k + 1;
    }
    let mut l: usize = 1;
    while l <= degree
        invariant
            pts == points@,
            d == dims as int,
            jj == j as int,
            dg == degree as int,
            t.wf(),
            degree <= s,
            base == s - degree,
            1 <= l <= degree + 1,
            w.len() == degree + 1,
            forall|m: int|
                l - 1 <= m <= degree ==> Some(#[trigger] w@[m]) == de_boor(
                    pts,
                    d,
                    jj,
                    *t,
                    dg,
                    (l - 1) as nat,
                    base + m,
                ),
            all_wf(w@),
        decreases degree + 1 - l,
    {
        let mut k: usize = degree;
        while k >= l
            invariant
                pts == points@,
                d == dims as int,
                jj == j as int,
                dg == degree as int,
                t.wf(),
                degree <= s,
                base == s - degree,
                1 <= l <= degree,
                l - 1 <= k <= degree,
                w.len() == degree + 1,
                forall|m: int|
                    k < m <= degree ==> Some(#[trigger] w@[m]) == de_boor(
                        pts,
                        d,
                        jj,
                        *t,
                        dg,
                        l as nat,
                        base + m,
                    ),
                forall|m: int|
                    l - 1 <= m <= k ==> Some(#[trigger] w@[m]) == de_boor(
                        pts,
                        d,
                        jj,
                        *t,
                        dg,
                        (l - 1) as nat,
                        base + m,
                    ),
                all_wf(w@),
            decreases k,
        {
            let i: usize = base + k;
            let x: Ratio = w[k - 1];
            let y: Ratio = w[k];
            assert(Some(x) == de_boor(pts, d, jj, *t, dg, (l - 1) as nat, base + k - 1));
            assert(Some(y) == de_boor(pts, d, jj, *t, dg, (l - 1) as nat, base + k));
            let b: Option<Ratio> = match blend_factor_exec(t, degree, l, i) {
                Some(a) => blend_exec(&a, &x, &y),
                None => None,
            };
            match b {
                Some(v) => {
                    w.set(k, v);
                },
                None => {
                    proof {
                        assert(de_boor(pts, d, jj, *t, dg, l as nat, i as int) is None);
                        lemma_missing_spreads(pts, d, jj, *t, dg, s as int, l as nat, i as int);
                    }
                    return None;
                },
            }
            k = k - 1;
        }
        l = l + 1;
    }
    Some(w[degree])
}

fn zeros(n: usize) -> (v: Vec<Ratio>)
    ensures
        v@ == Seq::new(n as nat, |j: int| zero()),
        all_wf(v@),
{
    let mut v: Vec<Ratio> = Vec::with_capacity(n);
    let mut j: usize = 0;
    while j < n
        invariant
            j <= n,
            v@ == Seq::new(j as nat, |m: int| zero()),
        decreases n - j,
    {
        v.push(Ratio::integer(0));
        j = j + 1;
        assert(v@ =~= Seq::new(j as nat, |m: int| zero()));
    }
    proof {
        lemma_int_wf(0);
    }
    v
}

/// The curve point at parameter `u`.
fn curve_point_exec(points: &Vec<Ratio>, n_points: usize, dims: usize, degree: usize, u: &Ratio) -> (r:
    Result<Vec<Ratio>, CurveError>)
    requires
        all_wf(points@),
        points.len() == n_points * dims,
        u.wf(),
    ensures
        match r {
            Ok(v) => curve_point(points@, n_points as int, dims as int, degree as int, *u) == Ok::<
                Seq<Ratio>,
                CurveError,
            >(v@) && all_wf(v@),
            Err(e) => curve_point(points@, n_points as int, dims as int, degree as int, *u) == Err::<
                Seq<Ratio>,
                CurveError,
            >(e),
        },
{
    let ghost pts = points@;
    if !u.is_in_unit() {
        return Ok(zeros(dims));
    }
    let t: Ratio = match rescale_exec(u, n_points, degree) {
        Some(t) => t,
        None => {
            return Err(CurveError::Overflow);
        },
    };
    let s: usize = match find_span_exec(&t, degree, n_points) {
        Some(s) => s,
        None => {
            return Err(CurveError::SpanNotFound);
        },
    };
    let w: Ratio = match de_boor_exec(points, n_points, dims, dims, &t, degree, s) {
        Some(w) => w,
        None => {
            return Err(CurveError::Overflow);
        },
    };
    let mut row: Vec<Ratio> = Vec::with_capacity(dims);
    let mut j: usize = 0;
    while j < dims
        invariant
            pts == points@,
            all_wf(points@),
            points.len() == n_points * dims,
            t.wf(),
            w.wf(),
            u.in_unit(),
            rescale(*u, n_points as int, degree as int) == Some(t),
            find_span(t, degree as int, n_points as int) == Some(s as int),
            de_boor(pts, dims as int, dims as int, t, degree as int, degree as nat, s as int) == Some(w),
            degree <= s < n_points,
            j <= dims,
            row@ == Seq::new(
                j as nat,
                |m: int|
                    curve_coordinate(pts, dims as int, m, t, degree as int, s as int, w)->Some_0,
            ),
            forall|m: int|
                0 <= m < j ==> (#[trigger] curve_coordinate(
                    pts,
                    dims as int,
                    m,
                    t,
                    degree as int,
                    s as int,
                    w,
                )) is Some,
            all_wf(row@),
        decreases dims - j,
    {
        let c: Option<Ratio> = match de_boor_exec(points, n_points, dims, j, &t, degree, s) {
            Some(x) => x.div(&w),
            None => None,
        };
        match c {
            Some(c) => {
                row.push(c);
            },
            None => {
                assert(curve_coordinate(pts, dims as int, j as int, t, degree as int, s as int, w)
                    is None);
                return Err(CurveError::Overflow);
            },
        }
        j = j + 1;
        assert(row@ =~= Seq::new(
            j as nat,
            |m: int| curve_coordinate(pts, dims as int, m, t, degree as int, s as int, w)->Some_0,
        ));
    }
    Ok(row)
}

/// Once the points at the first `k` parameters fail, so do those at more.
proof fn lemma_failure_stays(
    points: Seq<Ratio>,
    n_points: int,
    dims: int,
    degree: int,
    us: Seq<Ratio>,
    k: int,
    m: int,
)
    requires
        0 <= k <= m,
        curve_points(points, n_points, dims, degree, us, k) is Err,
    ensures
        curve_points(points, n_points, dims, degree, us, m) == curve_points(
            points,
            n_points,
            dims,
            degree,
            us,
            k,
        ),
    decreases m - k,
{
    if m > k {
        lemma_failure_stays(points, n_points, dims, degree, us, k, m - 1);
    }
}

proof fn lemma_row_len(points: Seq<Ratio>, n_points: int, dims: int, degree: int, u: Ratio)
    requires
        dims >= 0,
    ensures
        curve_point(points, n_points, dims, degree, u) matches Ok(row) ==> row.len() == dims,
{
}

/// The rows of the first `k` parameters: the row of parameter `m` fills the
/// places `m * dims .. (m + 1) * dims`.
proof fn lemma_rows_layout(
    points: Seq<Ratio>,
    n_points: int,
    dims: int,
    degree: int,
    us: Seq<Ratio>,
    k: int,
)
    requires
        0 <= k <= us.len(),
        dims >= 0,
        curve_points(points, n_points, dims, degree, us, k) is Ok,
    ensures
        curve_points(points, n_points, dims, degree, us, k)->Ok_0.len() == k * dims,
        forall|m: int|
            0 <= m < k ==> (#[trigger] curve_point(points, n_points, dims, degree, us[m])) is Ok,
        forall|m: int, j: int|
            0 <= m < k && 0 <= j < dims ==> curve_points(points, n_points, dims, degree, us, k)->Ok_0[m
                * dims + j] == #[trigger] (curve_point(
                points,
                n_points,
                dims,
                degree,
                us[m],
            )->Ok_0)[j],
    decreases k,
{
    if k == 0 {
        assert(0 * dims == 0);
    } else {
        lemma_rows_layout(points, n_points, dims, degree, us, k - 1);
        let prev = curve_points(points, n_points, dims, degree, us, k - 1)->Ok_0;
        let row = curve_point(points, n_points, dims, degree, us[k - 1])->Ok_0;
        let all = curve_points(points, n_points, dims, degree, us, k)->Ok_0;
        lemma_row_len(points, n_points, dims, degree, us[k - 1]);
        assert(all == prev + row);
        assert((k - 1) * dims + dims == k * dims) by (nonlinear_arith);
        assert forall|m: int, j: int| 0 <= m < k && 0 <= j < dims implies all[m * dims + j]
            == #[trigger] (curve_point(points, n_points, dims, degree, us[m])->Ok_0)[j] by {
            if m < k - 1 {
                assert(m * dims + j < (k - 1) * dims) by (nonlinear_arith)
                    requires
                        0 <= m < k - 1,
                        0 <= j < dims,
                ;
                assert(0 <= m * dims) by (nonlinear_arith)
                    requires
                        0 <= m,
                        0 <= dims,
                ;
                assert(all[m * dims + j] == prev[m * dims + j]);
            } else {
                assert(all[(k - 1) * dims + j] == row[j]);
            }
        }
    }
}

/// A parameter outside `[0, 1]` is no failure: it gives a row of zeros in
/// its place, `us.len() * dims` values in all.
pub proof fn lemma_out_of_range_rows(
    points: Seq<Ratio>,
    n_points: int,
    dims: int,
    degree: int,
    us: Seq<Ratio>,
)
    requires
        dims >= 0,
    ensures
        forall|u: Ratio|
            !u.in_unit() ==> #[trigger] curve_point(points, n_points, dims, degree, u) == Ok::<
                Seq<Ratio>,
                CurveError,
            >(Seq::new(dims as nat, |j: int| zero())),
        evaluate(points, n_points, dims, degree, us) matches Ok(v) ==> v.len() == us.len() * dims
            && forall|m: int, j: int|
            0 <= m < us.len() && 0 <= j < dims && !us[m].in_unit() ==> #[trigger] v[m * dims + j]
                == zero(),
{
    if let Ok(v) = evaluate(points, n_points, dims, degree, us) {
        lemma_rows_layout(points, n_points, dims, degree, us, us.len() as int);
        assert forall|m: int, j: int|
            0 <= m < us.len() && 0 <= j < dims && !us[m].in_unit() implies #[trigger] v[m * dims + j]
                == zero() by {
            assert(v[m * dims + j] == (curve_point(points, n_points, dims, degree, us[m])->Ok_0)[j]);
        }
    }
}

/// One half.
pub open spec fn half() -> Ratio {
    Ratio { num: 1, den: 2 }
}

pub open spec fn three_halves() -> Ratio {
    Ratio { num: 3, den: 2 }
}

/// `(1 - 1/2) * a + 1/2 * b`: the midpoint of `a` and `b`.
pub open spec fn midpoint(a: Ratio, b: Ratio) -> Option<Ratio> {
    blend(half(), a, b)
}

proof fn lemma_small_values()
    ensures
        half().wf(),
        rescale(half(), 2, 1) == Some(three_halves()),
        blend_factor(three_halves(), 1, 1, 1) == Some(half()),
        blend(half(), one(), one()) == Some(one()),
        three_halves().wf(),
{
    reveal_with_fuel(gcd, 4);
    lemma_int_wf(1);
    lemma_int_wf(2);
    lemma_int_difference(2, 1);
    assert(gcd(1, 2) == 1);
    assert(gcd(2, 1) == 1);
    assert(gcd(1, 1) == 1);
    assert(gcd(3, 2) == 1);
    assert(gcd(2, 2) == 2);
    assert(lowest(1, 2) == half());
    vstd::arithmetic::div_mod::lemma_div_basics_2(3);
    vstd::arithmetic::div_mod::lemma_div_basics_2(2);
    assert(crate::ratio::lowest_num(3, 2) == 3);
    assert(crate::ratio::lowest_den(3, 2) == 2);
    assert(lowest(3, 2) == three_halves());
    lemma_lowest_whole(2);
    vstd::arithmetic::div_mod::lemma_div_basics_2(1);
    let a = three_halves();
    let b = knot(1);
    assert(b.num == 1 && b.den == 1);
    assert(gcd(a.den as nat, b.den as nat) == 1);
    assert((b.den as int) / 1 == 1);
    assert((a.den as int) / 1 == 2);
    assert(difference(three_halves(), knot(1)) == lowest_opt(1, 2));
    assert(difference(three_halves(), knot(1)) == Some(half()));
    crate::ratio::lemma_one_laws(half());
}

/// A B-spline of degree one through two points, evaluated at one half,
/// gives the midpoint of the two, coordinate by coordinate.
pub proof fn lemma_degree_one_midpoint(points: Seq<Ratio>, dims: int)
    requires
        dims >= 0,
        points.len() == 2 * dims,
        all_wf(points),
    ensures
        evaluate(points, 2, dims, 1, seq![half()]) == (if forall|j: int|
            0 <= j < dims ==> (#[trigger] midpoint(points[j], points[dims + j])) is Some {
            Ok::<Seq<Ratio>, CurveError>(
                Seq::new(dims as nat, |j: int| midpoint(points[j], points[dims + j])->Some_0),
            )
        } else {
            Err::<Seq<Ratio>, CurveError>(CurveError::Overflow)
        }),
{
    lemma_small_values();
    reveal_with_fuel(de_boor, 2);
    lemma_int_wf(1);
    let t = three_halves();
    assert(in_span(t, 1));
    assert(find_span(t, 1, 2) == Some(1int));
    assert(de_boor(points, dims, dims, t, 1, 1, 1) == Some(one()));
    assert forall|j: int| 0 <= j < dims implies #[trigger] curve_coordinate(
        points,
        dims,
        j,
        t,
        1,
        1,
        one(),
    ) == midpoint(points[j], points[dims + j]) by {
        assert(0 * dims + j == j);
        assert(1 * dims + j == dims + j);
        assert(de_boor(points, dims, j, t, 1, 1, 1) == midpoint(points[j], points[dims + j]));
        lemma_results_wf_blend(points[j], points[dims + j]);
        if let Some(m) = midpoint(points[j], points[dims + j]) {
            crate::ratio::lemma_one_laws(m);
        }
    }
    let u = seq![half()];
    assert(u[0] == half());
    assert(curve_points(points, 2, dims, 1, u, 0) == Ok::<Seq<Ratio>, CurveError>(Seq::empty()));
    if forall|j: int| 0 <= j < dims ==> (#[trigger] midpoint(points[j], points[dims + j])) is Some {
        assert(forall|j: int|
            0 <= j < dims ==> (#[trigger] curve_coordinate(points, dims, j, t, 1, 1, one())) is Some);
        let row = Seq::new(dims as nat, |j: int| curve_coordinate(points, dims, j, t, 1, 1, one())->Some_0);
        assert(curve_point(points, 2, dims, 1, half()) == Ok::<Seq<Ratio>, CurveError>(row));
        assert(Seq::<Ratio>::empty() + row =~= Seq::new(
            dims as nat,
            |j: int| midpoint(points[j], points[dims + j])->Some_0,
        ));
    } else {
        let j = choose|j: int| 0 <= j < dims && (#[trigger] midpoint(points[j], points[dims + j])) is None;
        assert(curve_coordinate(points, dims, j, t, 1, 1, one()) is None);
        assert(curve_point(points, 2, dims, 1, half()) == Err::<Seq<Ratio>, CurveError>(
            CurveError::Overflow,
        ));
    }
}

proof fn lemma_results_wf_blend(x: Ratio, y: Ratio)
    ensures
        opt_wf(midpoint(x, y)),
{
    assert(opt_wf(midpoint(x, y))) by {
        broadcast use lemma_sum_wf, lemma_difference_wf, lemma_product_wf;

    }
}

/// The rescaled parameter stands for `u * (n_points - degree) + degree`.
proof fn lemma_rescale_value(u: Ratio, n_points: int, degree: int)
    requires
        u.wf(),
        fits(n_points),
        fits(degree),
        fits(n_points - degree),
    ensures
        rescale(u, n_points, degree) matches Some(t) ==> t.wf() && t.num * u.den == (u.num * (
        n_points - degree) + degree * u.den) * t.den,
{
    lemma_int_difference(n_points, degree);
    lemma_int_wf(n_points - degree);
    lemma_int_wf(degree);
    let w = int_ratio(n_points - degree);
    crate::ratio::lemma_results_wf(u, w);
    crate::ratio::lemma_product_value(u, w);
    if let Some(x) = product(u, w) {
        crate::ratio::lemma_results_wf(x, knot(degree));
        crate::ratio::lemma_sum_value(x, knot(degree));
        if let Some(t) = sum(x, knot(degree)) {
            let tn = t.num as int;
            let td = t.den as int;
            let xn = x.num as int;
            let xd = x.den as int;
            let un = u.num as int;
            let ud = u.den as int;
            let e = n_points - degree;
            assert(xn * ud == un * e * xd) by (nonlinear_arith)
                requires
                    xn * (ud * 1) == (un * e) * xd,
            ;
            assert(tn * xd == (xn + degree * xd) * td) by (nonlinear_arith)
                requires
                    tn * (xd * 1) == (xn * 1 + degree * xd) * td,
            ;
            let n = un * e + degree * ud;
            let m = xn + degree * xd;
            assert(xd * (tn * ud) == ud * (m * td)) by (nonlinear_arith)
                requires
                    tn * xd == m * td,
            ;
            assert(ud * (m * td) == (xn * ud + degree * xd * ud) * td) by (nonlinear_arith)
                requires
                    m == xn + degree * xd,
            ;
            let k = xn * ud;
            assert((k + degree * xd * ud) * td == (un * e * xd + degree * xd * ud) * td) by (nonlinear_arith)
                requires
                    k == un * e * xd,
            ;
            assert((un * e * xd + degree * xd * ud) * td == xd * (n * td)) by (nonlinear_arith)
                requires
                    n == un * e + degree * ud,
            ;
            assert(tn * ud == n * td) by (nonlinear_arith)
                requires
                    xd * (tn * ud) == xd * (n * td),
                    xd > 0,
            ;
        }
    }
}

/// The search from `from` finds a span wherever `from <= t <= n_points`.
proof fn lemma_span_found(t: Ratio, from: int, n_points: int)
    requires
        t.den > 0,
        from < n_points,
        from * t.den <= t.num <= n_points * t.den,
    ensures
        find_span(t, from, n_points) is Some,
    decreases n_points - from,
{
    if !in_span(t, from) {
        assert(from + 1 < n_points) by (nonlinear_arith)
            requires
                (from + 1) * t.den < t.num,
                t.num <= n_points * t.den,
                t.den > 0,
        ;
        lemma_span_found(t, from + 1, n_points);
    }
}

/// For a parameter in `[0, 1]` whose image in the knot domain fits, a knot
/// span is found exactly when there are more control points than the degree.
pub proof fn lemma_span_exists(u: Ratio, n_points: int, degree: int)
    requires
        u.wf(),
        u.in_unit(),
        0 <= degree,
        0 <= n_points,
        fits(n_points),
        fits(degree),
        fits(n_points - degree),
    ensures
        rescale(u, n_points, degree) matches Some(t) ==> (find_span(t, degree, n_points) is Some
            <==> degree < n_points),
{
    lemma_rescale_value(u, n_points, degree);
    if let Some(t) = rescale(u, n_points, degree) {
        if degree < n_points {
            let tn = t.num as int;
            let td = t.den as int;
            let un = u.num as int;
            let ud = u.den as int;
            let e = n_points - degree;
            assert(degree * td <= tn <= n_points * td) by (nonlinear_arith)
                requires
                    tn * ud == (un * e + degree * ud) * td,
                    0 <= un <= ud,
                    ud > 0,
                    td > 0,
                    e > 0,
                    e == n_points - degree,
            ;
            lemma_span_found(t, degree, n_points);
        }
    }
}

/// Evaluates the B-spline of degree `degree` through `n_points` control
/// points of `n_dimensions` coordinates each, given flattened in `points`, at
/// each parameter of `ts`. A parameter outside `[0, 1]` gives a row of zeros.
pub fn spline(
    points: &Vec<Ratio>,
    n_points: usize,
    n_dimensions: usize,
    degree: usize,
    ts: &Vec<Ratio>,
) -> (r: Result<Vec<Ratio>, CurveError>)
    requires
        all_wf(points@),
        all_wf(ts@),
    ensures
        points.len() != n_points * n_dimensions ==> r == Err::<Vec<Ratio>, CurveError>(
            CurveError::ShapeMismatch,
        ),
        r matches Ok(v) ==> v.len() == ts.len() * n_dimensions,
        match r {
            Ok(v) => evaluate(points@, n_points as int, n_dimensions as int, degree as int, ts@)
                == Ok::<Seq<Ratio>, CurveError>(v@),
            Err(e) => evaluate(points@, n_points as int, n_dimensions as int, degree as int, ts@)
                == Err::<Seq<Ratio>, CurveError>(e),
        },
{
    let ghost pts = points@;
    let ghost np = n_points as int;
    let ghost dims = n_dimensions as int;
    let ghost dg = degree as int;
    match n_points.checked_mul(n_dimensions) {
        Some(n) => {
            if n != points.len() {
                return Err(CurveError::ShapeMismatch);
            }
        },
        None => {
            assert(points.len() != n_points * n_dimensions);
            return Err(CurveError::ShapeMismatch);
        },
    }
    let mut out: Vec<Ratio> = Vec::new();
    let mut k: usize = 0;
    while k < ts.len()
        invariant
            pts == points@,
            np == n_points as int,
            dims == n_dimensions as int,
            dg == degree as int,
            all_wf(points@),
            all_wf(ts@),
            points.len() == n_points * n_dimensions,
            k <= ts.len(),
            curve_points(pts, np, dims, dg, ts@, k as int) == Ok::<Seq<Ratio>, CurveError>(out@),
        decreases ts.len() - k,
    {
        match curve_point_exec(points, n_points, n_dimensions, degree, &ts[k]) {
            Ok(row) => {
                let ghost before = out@;
                let mut j: usize = 0;
                while j < row.len()
                    invariant
                        j <= row.len(),
                        out@ == before + row@.subrange(0, j as int),
                    decreases row.len() - j,
                {
                    out.push(row[j]);
                    j = j + 1;
                    assert(out@ =~= before + row@.subrange(0, j as int));
                }
                assert(row@.subrange(0, row.len() as int) =~= row@);
            },
            Err(e) => {
                proof {
                    lemma_failure_stays(pts, np, dims, dg, ts@, k + 1, ts.len() as int);
                }
                return Err(e);
            },
        }
        k = k + 1;
    }
    proof {
        lemma_rows_layout(pts, np, dims, dg, ts@, ts.len() as int);
    }
    Ok(out)
}

} // verus!
