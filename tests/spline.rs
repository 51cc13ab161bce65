use splines::bspline::spline;
use splines::catmull::{make_spline, Point};
use splines::error::CurveError;
use splines::ratio::Ratio;
use splines::table::{init_ts, make_slices};

const TS: [f32; 11] = [0.0, 0.1, 0.2, 0.3, 0.4, 0.5, 0.6, 0.7, 0.8, 0.9, 1.0];

const POINTS: [f32; 8] = [
    -1.0, 0.0, // x, y,
    -0.5, 0.5, //
    0.5, -0.5, //
    1.0, 0.0,
];

/// An `f32` with at most ten binary places, exactly.
fn ratio(x: f32) -> Ratio {
    Ratio::new((x as f64 * 1024.0) as i128, 1024).unwrap()
}

fn ratios(xs: &[f32]) -> Vec<Ratio> {
    xs.iter().map(|x| ratio(*x)).collect()
}

fn to_f32(r: &Ratio) -> f32 {
    r.num as f32 / r.den as f32
}

fn to_f64(r: &Ratio) -> f64 {
    r.num as f64 / r.den as f64
}

fn r(num: i128, den: i128) -> Ratio {
    Ratio::new(num, den).unwrap()
}

fn pt(x: Ratio, y: Ratio) -> Point {
    Point { x, y }
}

fn assert_close(got: &[Ratio], expected: &[f32]) {
    assert_eq!(got.len(), expected.len());
    for (g, e) in got.iter().zip(expected.iter()) {
        assert!((to_f64(g) - *e as f64).abs() < 1e-5, "{:?} is not {}", g, e);
    }
}

#[test]
fn ts_valid() {
    let ts: Vec<f32> = init_ts(10).iter().map(to_f32).collect();
    assert_eq!(TS.to_vec(), ts);
}

#[test]
fn spline_valid() {
    let got = spline(&ratios(&POINTS), 4, 2, 2, &init_ts(10)).unwrap();
    assert_close(
        &got,
        &[
            -0.75, // x,
            0.25,  // y,
            -0.64,
            0.32,
            -0.50999993,
            0.32999998,
            -0.36000007,
            0.28000003,
            -0.19000004,
            0.17000003,
            0.0,
            0.0,
            0.19000004,
            -0.17000003,
            0.36000007,
            -0.28000003,
            0.50999993,
            -0.32999998,
            0.64,
            -0.32,
            0.75,
            -0.25,
        ],
    );
}

#[test]
fn spline_invalid() {
    assert_eq!(
        spline(
            &ratios(&[
                -1.0, 0.0, // x, y,
                -0.5, 0.5, //
                0.5, -0.5, //
                1.0,
            ]),
            4,
            2,
            2,
            &init_ts(10)
        ),
        Err(CurveError::ShapeMismatch)
    );
}

#[test]
fn spline_known_values_are_exact() {
    let got = spline(&ratios(&POINTS), 4, 2, 2, &init_ts(10)).unwrap();
    assert_eq!(got[0], r(-3, 4));
    assert_eq!(got[1], r(1, 4));
    assert_eq!(got[4], r(-51, 100));
    assert_eq!(got[5], r(33, 100));
    assert_eq!(got[10], r(0, 1));
    assert_eq!(got[20], r(3, 4));
    assert_eq!(got[21], r(-1, 4));
}

#[test]
fn init_ts_is_increasing_from_zero_to_one() {
    for n in [1usize, 2, 3, 7, 10, 100] {
        let ts = init_ts(n);
        assert_eq!(ts.len(), n + 1);
        assert_eq!(ts[0], r(0, 1));
        assert_eq!(ts[n], r(1, 1));
        for i in 0..n {
            assert!(ts[i].num * ts[i + 1].den < ts[i + 1].num * ts[i].den);
        }
    }
}

#[test]
fn init_ts_reduces_to_lowest_terms() {
    let ts = init_ts(4);
    assert_eq!(ts, vec![r(0, 1), r(1, 4), r(1, 2), r(3, 4), r(1, 1)]);
    assert_eq!(ts[2].num, 1);
    assert_eq!(ts[2].den, 2);
}

#[test]
fn make_slices_holds_squares_and_cubes() {
    let slices = make_slices(4);
    assert_eq!(slices.len(), 4);
    assert_eq!(slices[0].t, r(0, 1));
    assert_eq!(slices[2].t, r(1, 2));
    assert_eq!(slices[2].t_squared, r(1, 4));
    assert_eq!(slices[2].t_cubed, r(1, 8));
    assert_eq!(slices[3].t, r(3, 4));
    assert_eq!(slices[3].t_squared, r(9, 16));
    assert_eq!(slices[3].t_cubed, r(27, 64));
    assert!(make_slices(0).is_empty());
}

#[test]
fn spline_shape_mismatch_on_any_wrong_length() {
    let ts = init_ts(10);
    assert_eq!(spline(&ratios(&POINTS), 3, 2, 2, &ts), Err(CurveError::ShapeMismatch));
    assert_eq!(spline(&ratios(&POINTS), 4, 3, 2, &ts), Err(CurveError::ShapeMismatch));
    assert_eq!(spline(&ratios(&POINTS), usize::MAX, 2, 2, &ts), Err(CurveError::ShapeMismatch));
    assert_eq!(spline(&ratios(&POINTS), 3, 2, 2, &Vec::new()), Err(CurveError::ShapeMismatch));
}

#[test]
fn spline_degree_one_gives_midpoint() {
    let points = vec![r(0, 1), r(0, 1), r(1, 1), r(3, 1)];
    let got = spline(&points, 2, 2, 1, &vec![r(1, 2)]).unwrap();
    assert_eq!(got, vec![r(1, 2), r(3, 2)]);
    let points = vec![r(-1, 3), r(5, 7), r(2, 3), r(-1, 7)];
    let got = spline(&points, 2, 2, 1, &vec![r(1, 2)]).unwrap();
    assert_eq!(got, vec![r(1, 6), r(2, 7)]);
}

#[test]
fn spline_degree_one_interpolates_linearly() {
    let points = vec![r(0, 1), r(10, 1), r(20, 1)];
    let got = spline(&points, 3, 1, 1, &init_ts(4)).unwrap();
    assert_eq!(got, vec![r(0, 1), r(5, 1), r(10, 1), r(15, 1), r(20, 1)]);
}

#[test]
fn spline_out_of_range_parameter_gives_zero_row() {
    let ts = vec![r(-1, 10), r(1, 2), r(11, 10)];
    let got = spline(&ratios(&POINTS), 4, 2, 2, &ts).unwrap();
    assert_eq!(got.len(), 6);
    assert_eq!(got[0], r(0, 1));
    assert_eq!(got[1], r(0, 1));
    assert_eq!(got[2], r(0, 1));
    assert_eq!(got[3], r(0, 1));
    assert_eq!(got[4], r(0, 1));
    assert_eq!(got[5], r(0, 1));
    let got = spline(&ratios(&POINTS), 4, 2, 2, &vec![r(11, 10)]).unwrap();
    assert_eq!(got, vec![r(0, 1), r(0, 1)]);
}

#[test]
fn spline_span_not_found_without_enough_points() {
    let points = vec![r(0, 1), r(1, 1)];
    assert_eq!(spline(&points, 2, 1, 2, &vec![r(1, 2)]), Err(CurveError::SpanNotFound));
    assert_eq!(spline(&points, 2, 1, 2, &vec![r(2, 1)]), Ok(vec![r(0, 1)]));
}

#[test]
fn spline_overflow_is_reported() {
    let big = r(i128::MAX, 1);
    let points = vec![big, r(-1, 1), big, r(1, 3)];
    assert_eq!(spline(&points, 4, 1, 2, &vec![r(1, 3)]), Err(CurveError::Overflow));
}

#[test]
fn spline_is_repeatable() {
    let ts = init_ts(10);
    let a = spline(&ratios(&POINTS), 4, 2, 2, &ts);
    let b = spline(&ratios(&POINTS), 4, 2, 2, &ts);
    assert_eq!(a, b);
}

#[test]
fn spline_zero_dimensions() {
    assert_eq!(spline(&Vec::new(), 5, 0, 2, &init_ts(3)), Ok(Vec::new()));
}

fn sample_points() -> Vec<Point> {
    vec![
        pt(r(-1, 1), r(0, 1)),
        pt(r(-1, 2), r(1, 2)),
        pt(r(1, 2), r(-1, 2)),
        pt(r(1, 1), r(0, 1)),
    ]
}

/// The distances between consecutive points raised to `alpha`, to 2^-20.
fn distances(points: &[Point], alpha: f64) -> Vec<Ratio> {
    points
        .windows(2)
        .map(|w| {
            let dx = to_f64(&w[1].x) - to_f64(&w[0].x);
            let dy = to_f64(&w[1].y) - to_f64(&w[0].y);
            let d = (dx * dx + dy * dy).sqrt().powf(alpha);
            r((d * 1048576.0).round() as i128, 1048576)
        })
        .collect()
}

#[test]
fn catmull_rom_starts_at_second_point() {
    let points = sample_points();
    let slices = make_slices(100);
    let got = make_spline(&points, &slices, &distances(&points, 0.5), r(1, 2)).unwrap();
    assert_eq!(got.len(), 100);
    assert_eq!(got[0], points[1]);
    let last = got[99];
    assert!((to_f64(&last.x) - 0.5).abs() < 0.05);
    assert!((to_f64(&last.y) + 0.5).abs() < 0.05);
}

#[test]
fn catmull_rom_reaches_third_point_at_one() {
    let points = sample_points();
    let slices = vec![make_slices(1)[0], {
        let one = r(1, 1);
        splines::table::Slice { t: one, t_squared: one, t_cubed: one }
    }];
    let got = make_spline(&points, &slices, &distances(&points, 0.5), r(1, 2)).unwrap();
    assert_eq!(got[0], points[1]);
    assert_eq!(got[1], points[2]);
}

#[test]
fn catmull_rom_flat_with_full_tension() {
    let points = vec![
        pt(r(0, 1), r(0, 1)),
        pt(r(1, 1), r(2, 1)),
        pt(r(2, 1), r(4, 1)),
        pt(r(5, 1), r(10, 1)),
        pt(r(6, 1), r(12, 1)),
    ];
    let slices = make_slices(10);
    let ds = vec![r(3, 1), r(7, 5), r(2, 1), r(1, 1)];
    let got = make_spline(&points, &slices, &ds, r(0, 1)).unwrap();
    assert_eq!(got.len(), 20);
    for p in &got {
        assert_eq!(p.y, r(2 * p.x.num, p.x.den));
    }
    for i in 0..10 {
        let x = to_f64(&got[i].x);
        assert!((1.0..=2.0).contains(&x));
        let x = to_f64(&got[10 + i].x);
        assert!((2.0..=5.0).contains(&x));
    }
    // t = 1/2 lies halfway along the chord.
    assert_eq!(got[5], pt(r(3, 2), r(3, 1)));
}

#[test]
fn catmull_rom_uniform_is_the_standard_spline() {
    // With all weights equal and no tension, the tangent at p1 is (p2 - p0) / 2.
    let points = vec![
        pt(r(0, 1), r(0, 1)),
        pt(r(1, 1), r(1, 1)),
        pt(r(2, 1), r(0, 1)),
        pt(r(3, 1), r(1, 1)),
    ];
    let ds = vec![r(1, 1), r(1, 1), r(1, 1)];
    let slices = make_slices(2);
    let got = make_spline(&points, &slices, &ds, r(1, 1)).unwrap();
    assert_eq!(got[0], pt(r(1, 1), r(1, 1)));
    // At t = 1/2: x = 3/2 and y = 1/2 by symmetry.
    assert_eq!(got[1], pt(r(3, 2), r(1, 2)));
}

#[test]
fn catmull_rom_output_length() {
    let mut points = sample_points();
    points.push(pt(r(2, 1), r(1, 1)));
    points.push(pt(r(3, 1), r(-1, 1)));
    let slices = make_slices(7);
    let got = make_spline(&points, &slices, &distances(&points, 0.5), r(1, 2)).unwrap();
    assert_eq!(got.len(), (points.len() - 3) * 7);
    assert_eq!(got[7], points[2]);
    assert_eq!(got[14], points[3]);
}

#[test]
fn catmull_rom_needs_four_points() {
    let points = sample_points()[..3].to_vec();
    let slices = make_slices(10);
    assert_eq!(
        make_spline(&points, &slices, &vec![r(1, 1), r(1, 1)], r(1, 2)),
        Err(CurveError::TooFewPoints)
    );
}

#[test]
fn catmull_rom_distances_must_match() {
    let points = sample_points();
    let slices = make_slices(10);
    assert_eq!(
        make_spline(&points, &slices, &vec![r(1, 1), r(1, 1)], r(1, 2)),
        Err(CurveError::ShapeMismatch)
    );
}

#[test]
fn catmull_rom_overflow_is_reported() {
    let big = r(i128::MAX / 2, 1);
    let points = vec![pt(big, big), pt(r(-1, 3), big), pt(big, r(1, 7)), pt(r(1, 5), big)];
    let ds = vec![r(1, 3), r(1, 5), r(1, 7)];
    assert_eq!(make_spline(&points, &make_slices(3), &ds, r(1, 2)), Err(CurveError::Overflow));
}

#[test]
fn catmull_rom_is_repeatable() {
    let points = sample_points();
    let slices = make_slices(20);
    let ds = distances(&points, 0.5);
    assert_eq!(
        make_spline(&points, &slices, &ds, r(1, 2)),
        make_spline(&points, &slices, &ds, r(1, 2))
    );
}

#[test]
fn ratio_new_brings_to_lowest_terms() {
    assert_eq!(Ratio::new(6, -8), Some(Ratio { num: -3, den: 4 }));
    assert_eq!(Ratio::new(0, 5), Some(Ratio { num: 0, den: 1 }));
    assert_eq!(Ratio::new(1, 0), None);
    assert_eq!(Ratio::new(i128::MIN, 1), None);
}

#[test]
fn ratio_arithmetic_is_exact() {
    let a = r(1, 3);
    let b = r(1, 6);
    assert_eq!(a.add(&b), Some(r(1, 2)));
    assert_eq!(a.sub(&b), Some(r(1, 6)));
    assert_eq!(a.mul(&b), Some(r(1, 18)));
    assert_eq!(a.div(&b), Some(r(2, 1)));
    assert_eq!(a.div(&r(-1, 6)), Some(r(-2, 1)));
    assert_eq!(r(i128::MAX, 1).add(&r(1, 1)), None);
    assert_eq!(Ratio::integer(-3), r(-3, 1));
}

#[test]
fn catmull_rom_fits_for_tiles_on_a_fine_grid() {
    // Twenty pseudo-random points on a grid of 1/4096, weights to 1/4096 too.
    let mut seed: u64 = 12345;
    let mut next = || {
        seed = seed.wrapping_mul(6364136223846793005).wrapping_add(1442695040888963407);
        ((seed >> 33) % 2048) as i128 - 1024
    };
    let points: Vec<Point> = (0..20).map(|_| pt(r(next(), 4096), r(next(), 4096))).collect();
    let ds: Vec<Ratio> = distances(&points, 0.5)
        .iter()
        .map(|d| r((to_f64(d) * 4096.0).round() as i128, 4096))
        .collect();
    let got = make_spline(&points, &make_slices(100), &ds, r(2048, 4096)).unwrap();
    assert_eq!(got.len(), 17 * 100);
    assert_eq!(got[0], points[1]);
}

#[test]
fn point_arithmetic_is_exact() {
    let a = pt(r(1, 2), r(-1, 3));
    let b = pt(r(1, 4), r(2, 3));
    assert_eq!(a.add(&b), Some(pt(r(3, 4), r(1, 3))));
    assert_eq!(a.sub(&b), Some(pt(r(1, 4), r(-1, 1))));
    assert_eq!(a.scale(&r(-3, 1)), Some(pt(r(-3, 2), r(1, 1))));
    assert_eq!(a.div(&r(1, 2)), Some(pt(r(1, 1), r(-2, 3))));
    assert_eq!(a.div(&r(0, 1)), None);
    assert_eq!(pt(r(i128::MAX, 1), r(0, 1)).add(&pt(r(1, 1), r(0, 1))), None);
}
