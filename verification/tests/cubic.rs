use hanzi_lookup::cubic_curve_2d::{CubicCurve2D, PARAM_SCALE};
use hanzi_lookup::fixed::SCALE;

const ONE: i128 = SCALE as i128;

fn direction_curve() -> CubicCurve2D {
    CubicCurve2D::new(0, ONE, ONE / 2, ONE, ONE / 4, -2 * ONE, ONE, ONE)
}

#[test]
fn test_cubic_curve() {
    let curve = direction_curve();
    let sol = curve.get_first_solution_for_x(0);
    assert_eq!(sol, Some(0));
    let sol = curve.get_first_solution_for_x(ONE);
    assert_eq!(sol, Some(PARAM_SCALE));
}

#[test]
fn a_curve_keeps_its_points() {
    let curve = CubicCurve2D::new(1, 2, 3, 4, 5, 6, 7, 8);
    assert_eq!(
        (curve.x1, curve.y1, curve.ctrlx1, curve.ctrly1, curve.ctrlx2, curve.ctrly2, curve.x2, curve.y2),
        (1, 2, 3, 4, 5, 6, 7, 8)
    );
}

#[test]
fn no_solution_outside_the_curve() {
    let curve = direction_curve();
    assert_eq!(curve.get_first_solution_for_x(-1), None);
    assert_eq!(curve.get_first_solution_for_x(ONE + 1), None);
    assert_eq!(curve.solve_for_x(-1), None);
    assert_eq!(curve.solve_for_x(ONE + 1), Some(PARAM_SCALE));
}

#[test]
fn a_curve_starts_and_ends_at_its_end_points() {
    let curve = CubicCurve2D::new(0, 3 * ONE, ONE / 3, -ONE, ONE / 2, 7 * ONE, ONE, 5 * ONE);
    assert_eq!(curve.get_y_on_curve(0), 3 * ONE);
    assert_eq!(curve.get_y_on_curve(PARAM_SCALE), 5 * ONE);
}

#[test]
fn a_straight_curve_is_a_line() {
    // All four points on the line y = 2 x.
    let curve = CubicCurve2D::new(0, 0, ONE / 3, 2 * ONE / 3, 2 * ONE / 3, 4 * ONE / 3, ONE, 2 * ONE);
    for k in 0..=16 {
        let x = ONE * k / 16;
        let t = curve.solve_for_x(x).unwrap();
        let y = curve.get_y_on_curve(t);
        assert!((y - 2 * x).abs() < 100, "x = {}, y = {}", x, y);
    }
}

fn bezier(c0: f64, c1: f64, c2: f64, c3: f64, t: f64) -> f64 {
    let u = 1.0 - t;
    u * u * u * c0 + 3.0 * u * u * t * c1 + 3.0 * u * t * t * c2 + t * t * t * c3
}

#[test]
fn the_solution_is_where_the_curve_has_the_x() {
    let curve = direction_curve();
    for k in 0..=64 {
        let x = ONE * k / 64;
        let t = curve.solve_for_x(x).unwrap();
        let real_t = t as f64 / PARAM_SCALE as f64;
        let real_x = bezier(0.0, 0.5, 0.25, 1.0, real_t);
        assert!((real_x - k as f64 / 64.0).abs() < 1e-7);
        let y = curve.get_y_on_curve(t) as f64 / SCALE as f64;
        assert!((y - bezier(1.0, 1.0, -2.0, 1.0, real_t)).abs() < 1e-7);
    }
}

#[test]
fn the_middle_of_the_direction_curve() {
    // At the parameter 1/2 the curve is at x = (0 + 3 * 0.5 + 3 * 0.25 + 1) / 8 = 0.40625
    // and y = (1 + 3 - 6 + 1) / 8 = -0.125.
    let curve = direction_curve();
    assert_eq!(curve.get_y_on_curve(PARAM_SCALE / 2), -ONE / 8);
    assert_eq!(curve.solve_for_x(ONE * 13 / 32), Some(PARAM_SCALE / 2));
}
