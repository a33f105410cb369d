//! Points on an elliptic curve in short Weierstrass form over a prime
//! field, with addition, doubling and membership validation. Every
//! operation is specified exactly by a spec-level model (`add_spec`,
//! `double_spec`, `on_curve`) built from the chosen modular inverse
//! `mod_inv`, and the executable code is proved to return precisely the
//! model's value.

use vstd::prelude::*;
use crate::arith::{cong, lemma_cong_mod, lemma_cong_shift, lemma_cong_small};
use crate::modular::{
    emod, has_inv, lemma_has_inv_iff_gcd, mod_inv, mod_inverse, CurveError, MOD_LIMIT,
};
use vstd::arithmetic::div_mod::{lemma_add_mod_noop, lemma_mul_mod_noop_left};

verus! {

/// A point of the curve group: the point at infinity (the additive
/// identity) or an affine coordinate pair of field elements.
#[derive(Clone, Copy, Debug, PartialEq, Eq, Structural)]
pub enum Point {
    Infinity,
    Affine { x: i64, y: i64 },
}

impl Point {
    /// Whether this point is the additive identity.
    pub fn is_infinity(&self) -> (r: bool)
        ensures
            r == (*self is Infinity),
    {
        match self {
            Point::Infinity => true,
            Point::Affine { .. } => false,
        }
    }

    /// The additive identity.
    pub fn infinity() -> (r: Point)
        ensures
            r == Point::Infinity,
    {
        Point::Infinity
    }
}

/// The fixed triple (a, b, p) defining the curve y^2 = x^3 + a*x + b over
/// the field of integers modulo the prime p. The primality of p is the
/// caller's responsibility and is not validated here.
#[derive(Clone, Copy, Debug, PartialEq, Eq, Structural)]
pub struct EllipticCurve {
    pub a: i64,
    pub b: i64,
    pub p: i64,
}

/// The affine coordinates of `q`, if any, are reduced field elements of
/// the curve's field, that is, they lie in `[0, p)`.
pub open spec fn valid_point(c: EllipticCurve, q: Point) -> bool {
    q matches Point::Affine { x, y } ==> 0 <= x < c.p && 0 <= y < c.p
}

/// `q` satisfies the curve equation; the point at infinity is on the
/// curve by convention.
pub open spec fn on_curve(c: EllipticCurve, q: Point) -> bool {
    match q {
        Point::Infinity => true,
        Point::Affine { x, y } => (y * y) % (c.p as int) == (x * x * x + c.a * x + c.b) % (
        c.p as int),
    }
}

/// Numerator of the tangent-line slope at a point with abscissa `x`.
pub open spec fn tangent_num(c: EllipticCurve, x: int) -> int {
    (3 * x * x + c.a) % (c.p as int)
}

/// Denominator of the tangent-line slope at a point with ordinate `y`.
pub open spec fn tangent_den(c: EllipticCurve, y: int) -> int {
    (2 * y) % (c.p as int)
}

/// Numerator of the secant-line slope through two points.
pub open spec fn chord_num(c: EllipticCurve, y1: int, y2: int) -> int {
    (y2 - y1) % (c.p as int)
}

/// Denominator of the secant-line slope through two points.
pub open spec fn chord_den(c: EllipticCurve, x1: int, x2: int) -> int {
    (x2 - x1) % (c.p as int)
}

/// The slope `num / den` computed in the field: `num` times the modular
/// inverse of `den`, reduced into `[0, p)`.
pub open spec fn lambda_of(p: int, num: int, den: int) -> int {
    (num * mod_inv(p, den)) % p
}

/// Abscissa of the sum: `lam^2 - x1 - x2`, reduced.
pub open spec fn sum_x(p: int, lam: int, x1: int, x2: int) -> int {
    (lam * lam - x1 - x2) % p
}

/// Ordinate of the sum: `lam * (x1 - x3) - y1`, reduced.
pub open spec fn sum_y(p: int, lam: int, x1: int, y1: int, x3: int) -> int {
    (lam * (x1 - x3) - y1) % p
}

/// The finite sum point determined by a slope `lam`.
pub open spec fn finite_sum(p: int, lam: int, x1: int, y1: int, x2: int) -> Point {
    Point::Affine {
        x: sum_x(p, lam, x1, x2) as i64,
        y: sum_y(p, lam, x1, y1, sum_x(p, lam, x1, x2)) as i64,
    }
}

/// The exact mathematical model of point addition: the identity laws, the
/// vertical-line case, and the chord/tangent construction, failing
/// precisely when the required slope denominator has no inverse.
pub open spec fn add_spec(c: EllipticCurve, p1: Point, p2: Point) -> Result<Point, CurveError> {
    match (p1, p2) {
        (Point::Infinity, _) => Ok(p2),
        (_, Point::Infinity) => Ok(p1),
        (Point::Affine { x: x1, y: y1 }, Point::Affine { x: x2, y: y2 }) => {
            if x1 == x2 && y1 != y2 {
                Ok(Point::Infinity)
            } else {
                let num = if x1 == x2 {
                    tangent_num(c, x1 as int)
                } else {
                    chord_num(c, y1 as int, y2 as int)
                };
                let den = if x1 == x2 {
                    tangent_den(c, y1 as int)
                } else {
                    chord_den(c, x1 as int, x2 as int)
                };
                if has_inv(c.p as int, den) {
                    Ok(
                        finite_sum(
                            c.p as int,
                            lambda_of(c.p as int, num, den),
                            x1 as int,
                            y1 as int,
                            x2 as int,
                        ),
                    )
                } else {
                    Err(CurveError::NotInvertible)
                }
            }
        },
    }
}

/// The exact mathematical model of point doubling: the tangent-line
/// construction, with abscissa `lam^2 - 2*x`.
pub open spec fn double_spec(c: EllipticCurve, q: Point) -> Result<Point, CurveError> {
    match q {
        Point::Infinity => Ok(q),
        Point::Affine { x, y } => {
            let num = tangent_num(c, x as int);
            let den = tangent_den(c, y as int);
            if has_inv(c.p as int, den) {
                let lam = lambda_of(c.p as int, num, den);
                let x3 = (lam * lam - 2 * x) % (c.p as int);
                Ok(
                    Point::Affine {
                        x: x3 as i64,
                        y: sum_y(c.p as int, lam, x as int, y as int, x3) as i64,
                    },
                )
            } else {
                Err(CurveError::NotInvertible)
            }
        },
    }
}

impl EllipticCurve {
    /// The curve parameters are reduced field elements and the modulus is
    /// small enough for all intermediate products to fit in `i64`.
    pub open spec fn wf(self) -> bool {
        &&& 1 < self.p <= MOD_LIMIT
        &&& 0 <= self.a < self.p
        &&& 0 <= self.b < self.p
    }

    /// Construct the curve y^2 = x^3 + a*x + b over the integers modulo p.
    pub fn new(a: i64, b: i64, p: i64) -> (c: EllipticCurve)
        requires
            1 < p <= MOD_LIMIT,
            0 <= a < p,
            0 <= b < p,
        ensures
            c == (EllipticCurve { a, b, p }),
            c.wf(),
    {
        EllipticCurve { a, b, p }
    }

    /// Whether `q` satisfies the curve equation, both sides reduced into
    /// `[0, p)` before comparison. Infinity counts as on the curve.
    pub fn is_point_on_curve(&self, q: Point) -> (r: bool)
        requires
            self.wf(),
            valid_point(*self, q),
        ensures
            r == on_curve(*self, q),
    {
        match q {
            Point::Infinity => true,
            Point::Affine { x, y } => {
                let p = self.p;
                proof {
                    assert(0 <= x * x <= MOD_LIMIT * MOD_LIMIT && 0 <= y * y <= MOD_LIMIT
                        * MOD_LIMIT && 0 <= self.a * x <= MOD_LIMIT * MOD_LIMIT)
                        by (nonlinear_arith)
                        requires
                            0 <= x < MOD_LIMIT,
                            0 <= y < MOD_LIMIT,
                            0 <= self.a < MOD_LIMIT,
                    ;
                }
                let lhs = emod(y * y, p);
                let xx = emod(x * x, p);
                proof {
                    assert(0 <= xx * x <= MOD_LIMIT * MOD_LIMIT) by (nonlinear_arith)
                        requires
                            0 <= xx < MOD_LIMIT,
                            0 <= x < MOD_LIMIT,
                    ;
                }
                let xxx = emod(xx * x, p);
                let ax = emod(self.a * x, p);
                let rhs = emod(xxx + ax + self.b, p);
                proof {
                    let pi = p as int;
                    // ((x * x) % p * x) % p == (x * x * x) % p.
                    lemma_mul_mod_noop_left(x * x, x as int, pi);
                    // The reduced summands leave the full polynomial's residue.
                    lemma_cong_mod(pi, x * x * x);
                    lemma_cong_mod(pi, self.a * x);
                    lemma_add_mod_noop(xxx as int, ax as int, pi);
                    lemma_add_mod_noop(x * x * x, self.a * x, pi);
                    assert(cong(pi, xxx + ax, x * x * x + self.a * x));
                    lemma_add_mod_noop(xxx + ax, self.b as int, pi);
                    lemma_add_mod_noop(x * x * x + self.a * x, self.b as int, pi);
                    lemma_cong_mod(pi, xxx + ax);
                    lemma_cong_mod(pi, x * x * x + self.a * x);
                    assert(cong(pi, xxx + ax + self.b, x * x * x + self.a * x + self.b));
                    assert(rhs == (x * x * x + self.a * x + self.b) % pi);
                }
                lhs == rhs
            },
        }
    }

    /// Add two points of the curve group. Returns the identity laws for
    /// infinity operands, infinity for a vertical connecting line, and the
    /// chord/tangent construction otherwise; fails with `NotInvertible`
    /// exactly when the slope denominator has no inverse modulo p.
    pub fn add_points(&self, p1: Point, p2: Point) -> (r: Result<Point, CurveError>)
        requires
            self.wf(),
            valid_point(*self, p1),
            valid_point(*self, p2),
        ensures
            r == add_spec(*self, p1, p2),
            r matches Ok(q) ==> valid_point(*self, q),
    {
        if p1.is_infinity() {
            return Ok(p2);
        }
        if p2.is_infinity() {
            return Ok(p1);
        }
        let (x1, y1) = match p1 {
            Point::Affine { x, y } => (x, y),
            Point::Infinity => (0i64, 0i64),
        };
        let (x2, y2) = match p2 {
            Point::Affine { x, y } => (x, y),
            Point::Infinity => (0i64, 0i64),
        };
        if x1 == x2 && y1 != y2 {
            return Ok(Point::Infinity);
        }
        let p = self.p;
        let ghost pi = p as int;
        let ghost snum: int = if x1 == x2 {
            tangent_num(*self, x1 as int)
        } else {
            chord_num(*self, y1 as int, y2 as int)
        };
        let ghost sden: int = if x1 == x2 {
            tangent_den(*self, y1 as int)
        } else {
            chord_den(*self, x1 as int, x2 as int)
        };
        let (num, den) = if x1 == x2 {
            proof {
                assert(0 <= 3 * x1 * x1 + self.a < 4 * MOD_LIMIT * MOD_LIMIT) by (nonlinear_arith)
                    requires
                        0 <= x1 < MOD_LIMIT,
                        0 <= self.a < MOD_LIMIT,
                ;
            }
            (emod(3 * x1 * x1 + self.a, p), emod(2 * y1, p))
        } else {
            proof {
                lemma_cong_shift(pi, y2 - y1, 1);
                assert(1 * pi == pi);
                lemma_cong_shift(pi, x2 - x1, 1);
            }
            (emod(y2 + (p - y1), p), emod(x2 + (p - x1), p))
        };
        proof {
            assert(num == snum);
            assert(den == sden);
        }
        match mod_inverse(den, p) {
            Ok(inv) => {
                proof {
                    lemma_cong_small(pi, den as int);
                    assert(inv as int == mod_inv(pi, sden));
                    lemma_has_inv_iff_gcd(pi, den as int);
                    assert(has_inv(pi, sden));
                    assert(0 <= num * inv <= MOD_LIMIT * MOD_LIMIT) by (nonlinear_arith)
                        requires
                            0 <= num < MOD_LIMIT,
                            0 <= inv < MOD_LIMIT,
                    ;
                }
                let lam = emod(num * inv, p);
                proof {
                    assert(lam as int == lambda_of(pi, snum, sden));
                    assert(0 <= lam * lam <= MOD_LIMIT * MOD_LIMIT) by (nonlinear_arith)
                        requires
                            0 <= lam < MOD_LIMIT,
                    ;
                }
                let x3 = emod(lam * lam + (p - x1) + (p - x2), p);
                proof {
                    lemma_cong_shift(pi, lam * lam - x1 - x2, 2);
                    assert(2 * pi == pi + pi);
                    assert(x3 as int == sum_x(pi, lam as int, x1 as int, x2 as int));
                    assert(0 <= lam * (x1 + (p - x3)) <= 2 * MOD_LIMIT * MOD_LIMIT)
                        by (nonlinear_arith)
                        requires
                            0 <= lam < MOD_LIMIT,
                            0 <= x1 + (p - x3) <= 2 * MOD_LIMIT,
                    ;
                }
                let y3 = emod(lam * (x1 + (p - x3)) + (p - y1), p);
                proof {
                    assert(lam * (x1 + (p - x3)) + (p - y1) == (lam * (x1 - x3) - y1) + (lam + 1)
                        * pi) by (nonlinear_arith)
                        requires
                            pi == p,
                    ;
                    lemma_cong_shift(pi, lam * (x1 - x3) - y1, lam + 1);
                    assert(y3 as int == sum_y(pi, lam as int, x1 as int, y1 as int, x3 as int));
                    assert(Point::Affine { x: x3, y: y3 } == finite_sum(
                        pi,
                        lambda_of(pi, snum, sden),
                        x1 as int,
                        y1 as int,
                        x2 as int,
                    ));
                }
                Ok(Point::Affine { x: x3, y: y3 })
            },
            Err(e) => {
                proof {
                    lemma_cong_small(pi, den as int);
                    lemma_has_inv_iff_gcd(pi, den as int);
                    assert(!has_inv(pi, sden));
                }
                Err(e)
            },
        }
    }

    /// Double a point of the curve group, by the tangent-line construction;
    /// fails with `NotInvertible` exactly when `2*y` has no inverse modulo p.
    pub fn double_point(&self, q: Point) -> (r: Result<Point, CurveError>)
        requires
            self.wf(),
            valid_point(*self, q),
        ensures
            r == double_spec(*self, q),
            r matches Ok(s) ==> valid_point(*self, s),
    {
        if q.is_infinity() {
            return Ok(q);
        }
        let (x1, y1) = match q {
            Point::Affine { x, y } => (x, y),
            Point::Infinity => (0i64, 0i64),
        };
        let p = self.p;
        let ghost pi = p as int;
        proof {
            assert(0 <= 3 * x1 * x1 + self.a < 4 * MOD_LIMIT * MOD_LIMIT) by (nonlinear_arith)
                requires
                    0 <= x1 < MOD_LIMIT,
                    0 <= self.a < MOD_LIMIT,
            ;
        }
        let num = emod(3 * x1 * x1 + self.a, p);
        let den = emod(2 * y1, p);
        match mod_inverse(den, p) {
            Ok(inv) => {
                proof {
                    lemma_cong_small(pi, den as int);
                    assert(inv as int == mod_inv(pi, tangent_den(*self, y1 as int)));
                    lemma_has_inv_iff_gcd(pi, den as int);
                    assert(has_inv(pi, tangent_den(*self, y1 as int)));
                    assert(0 <= num * inv <= MOD_LIMIT * MOD_LIMIT) by (nonlinear_arith)
                        requires
                            0 <= num < MOD_LIMIT,
                            0 <= inv < MOD_LIMIT,
                    ;
                }
                let lam = emod(num * inv, p);
                proof {
                    assert(lam as int == lambda_of(
                        pi,
                        tangent_num(*self, x1 as int),
                        tangent_den(*self, y1 as int),
                    ));
                    assert(0 <= lam * lam <= MOD_LIMIT * MOD_LIMIT) by (nonlinear_arith)
                        requires
                            0 <= lam < MOD_LIMIT,
                    ;
                }
                let x3 = emod(lam * lam + (p - x1) + (p - x1), p);
                proof {
                    lemma_cong_shift(pi, lam * lam - 2 * x1, 2);
                    assert(2 * pi == pi + pi);
                    assert(x3 as int == (lam * lam - 2 * x1) % pi);
                    assert(0 <= lam * (x1 + (p - x3)) <= 2 * MOD_LIMIT * MOD_LIMIT)
                        by (nonlinear_arith)
                        requires
                            0 <= lam < MOD_LIMIT,
                            0 <= x1 + (p - x3) <= 2 * MOD_LIMIT,
                    ;
                }
                let y3 = emod(lam * (x1 + (p - x3)) + (p - y1), p);
                proof {
                    assert(lam * (x1 + (p - x3)) + (p - y1) == (lam * (x1 - x3) - y1) + (lam + 1)
                        * pi) by (nonlinear_arith)
                        requires
                            pi == p,
                    ;
                    lemma_cong_shift(pi, lam * (x1 - x3) - y1, lam + 1);
                    assert(y3 as int == sum_y(pi, lam as int, x1 as int, y1 as int, x3 as int));
                }
                Ok(Point::Affine { x: x3, y: y3 })
            },
            Err(e) => {
                proof {
                    lemma_cong_small(pi, den as int);
                    lemma_has_inv_iff_gcd(pi, den as int);
                    assert(!has_inv(pi, tangent_den(*self, y1 as int)));
                }
                Err(e)
            },
        }
    }
}

} // verus!
