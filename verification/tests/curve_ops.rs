use elliptic::{CurveError, EllipticCurve, Point};

fn sample_curve() -> EllipticCurve {
    EllipticCurve::new(4, 4, 313)
}

fn affine(x: i64, y: i64) -> Point {
    Point::Affine { x, y }
}

#[test]
fn infinity_is_infinite() {
    assert!(Point::infinity().is_infinity());
    assert!(!affine(1, 2).is_infinity());
}

#[test]
fn sample_points_are_on_curve() {
    let curve = sample_curve();
    assert!(curve.is_point_on_curve(affine(274, 288)));
    assert!(curve.is_point_on_curve(affine(159, 45)));
    assert!(curve.is_point_on_curve(Point::infinity()));
    assert!(!curve.is_point_on_curve(affine(1, 1)));
}

#[test]
fn addition_golden_value() {
    let curve = sample_curve();
    let sum = curve.add_points(affine(274, 288), affine(159, 45));
    assert_eq!(sum, Ok(affine(49, 133)));
}

#[test]
fn doubling_golden_value() {
    let curve = sample_curve();
    let twice = curve.double_point(affine(274, 288));
    assert_eq!(twice, Ok(affine(51, 45)));
}

#[test]
fn results_are_on_curve() {
    let curve = sample_curve();
    let sum = curve.add_points(affine(274, 288), affine(159, 45)).unwrap();
    assert!(curve.is_point_on_curve(sum));
    let twice = curve.double_point(affine(274, 288)).unwrap();
    assert!(curve.is_point_on_curve(twice));
}

#[test]
fn identity_law() {
    let curve = sample_curve();
    let p1 = affine(274, 288);
    assert_eq!(curve.add_points(p1, Point::infinity()), Ok(p1));
    assert_eq!(curve.add_points(Point::infinity(), p1), Ok(p1));
    assert_eq!(
        curve.add_points(Point::infinity(), Point::infinity()),
        Ok(Point::infinity())
    );
}

#[test]
fn addition_commutes() {
    let curve = sample_curve();
    let p1 = affine(274, 288);
    let p2 = affine(159, 45);
    assert_eq!(curve.add_points(p1, p2), curve.add_points(p2, p1));
}

#[test]
fn adding_a_point_to_itself_doubles_it() {
    let curve = sample_curve();
    let p1 = affine(274, 288);
    assert_eq!(curve.add_points(p1, p1), curve.double_point(p1));
}

#[test]
fn opposite_points_sum_to_infinity() {
    let curve = sample_curve();
    let sum = curve.add_points(affine(274, 288), affine(274, 313 - 288));
    assert_eq!(sum, Ok(Point::infinity()));
}

#[test]
fn doubling_a_two_torsion_point_fails() {
    // On y^2 = x^3 + 1 over the integers modulo 7, the point (6, 0) lies on
    // the curve and its tangent is vertical: doubling needs the inverse of
    // 2 * 0, which does not exist.
    let curve = EllipticCurve::new(0, 1, 7);
    let torsion = affine(6, 0);
    assert!(curve.is_point_on_curve(torsion));
    assert_eq!(
        curve.double_point(torsion),
        Err(CurveError::NotInvertible)
    );
    assert_eq!(
        curve.add_points(torsion, torsion),
        Err(CurveError::NotInvertible)
    );
}

#[test]
fn chord_with_non_invertible_denominator_fails() {
    // Over a composite modulus the difference of abscissas may share a
    // factor with the modulus; the addition then reports the failure
    // instead of returning a meaningless point.
    let curve = EllipticCurve::new(0, 0, 9);
    assert_eq!(
        curve.add_points(affine(1, 2), affine(4, 5)),
        Err(CurveError::NotInvertible)
    );
}

#[test]
fn small_curve_closure() {
    // Exhaustive closure check on the curve y^2 = x^3 + 4x + 4 over the
    // integers modulo 13.
    let curve = EllipticCurve::new(4, 4, 13);
    let mut points = vec![Point::infinity()];
    for x in 0..13 {
        for y in 0..13 {
            if curve.is_point_on_curve(affine(x, y)) {
                points.push(affine(x, y));
            }
        }
    }
    for &p in &points {
        for &q in &points {
            if let Ok(sum) = curve.add_points(p, q) {
                assert!(curve.is_point_on_curve(sum));
            }
        }
    }
}
