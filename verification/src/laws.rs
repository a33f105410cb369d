//! The group laws of the curve operations, proved against the spec-level
//! models `add_spec` and `double_spec`: identity, commutativity, doubling
//! consistency, the inverse law, and closure (the sum and the double of
//! points on the curve are on the curve).

use vstd::prelude::*;
use crate::arith::{
    cong, lemma_cong_add, lemma_cong_mod, lemma_cong_mul, lemma_cong_shift, lemma_cong_small,
    lemma_cong_sub, lemma_cong_unique,
};
use crate::curve::{
    add_spec, chord_den, chord_num, double_spec, finite_sum, lambda_of, on_curve, sum_x, sum_y,
    tangent_den, tangent_num, EllipticCurve, Point,
};
use crate::modular::{
    has_inv, inv_ok, lemma_mod_inv_works, mod_inv, CurveError,
};

verus! {

/// The inverse of 1 modulo any m > 1 is 1.
pub proof fn lemma_inverse_of_one(m: int)
    requires
        1 < m,
    ensures
        inv_ok(m, 1, 1),
        mod_inv(m, 1) == 1,
{
    lemma_cong_small(m, 1);
    assert((1int * 1int) % m == 1);
    crate::modular::lemma_mod_inv_of_witness(m, 1, 1);
}

/// Identity law: adding the point at infinity on either side returns the
/// other operand unchanged.
pub proof fn lemma_add_identity(c: EllipticCurve, q: Point)
    ensures
        add_spec(c, q, Point::Infinity) == Ok::<Point, CurveError>(q),
        add_spec(c, Point::Infinity, q) == Ok::<Point, CurveError>(q),
{
}

/// Doubling consistency: adding a point to itself is the same operation as
/// doubling it, including which inputs fail.
pub proof fn lemma_double_is_add_self(c: EllipticCurve, q: Point)
    ensures
        double_spec(c, q) == add_spec(c, q, q),
{
    match q {
        Point::Infinity => {
        },
        Point::Affine { x, y } => {
            let pi = c.p as int;
            let num = tangent_num(c, x as int);
            let den = tangent_den(c, y as int);
            if has_inv(pi, den) {
                let lam = lambda_of(pi, num, den);
                assert(lam * lam - 2 * x == lam * lam - x - x);
                assert(double_spec(c, q) == add_spec(c, q, q));
            }
        },
    }
}

/// Inverse law: a finite point plus its reflection across the x-axis is
/// the point at infinity. The guard `2 * y != p` excludes the one residue
/// that is its own reflection; for an odd prime p it holds whenever y != 0.
pub proof fn lemma_add_inverse(c: EllipticCurve, x: i64, y: i64)
    requires
        c.wf(),
        0 <= x < c.p,
        0 < y < c.p,
        2 * y != c.p,
    ensures
        add_spec(c, Point::Affine { x, y }, (Point::Affine { x, y: (c.p - y) as i64 }))
            == Ok::<Point, CurveError>(Point::Infinity),
{
    assert(y as int != c.p - y);
}

/// If `u` has an inverse modulo p, so does `-u`.
proof fn lemma_has_inv_opposite(p: int, u: int)
    requires
        1 < p,
        has_inv(p, u % p),
    ensures
        has_inv(p, (-u) % p),
{
    let d = u % p;
    let e = (-u) % p;
    lemma_mod_inv_works(p, d);
    let i = mod_inv(p, d);
    let w = (p - i) % p;
    lemma_cong_mod(p, p - i);
    lemma_cong_shift(p, -i, 1);
    assert(-i + 1 * p == p - i);
    assert(cong(p, w, -i));
    lemma_cong_mod(p, u);
    lemma_cong_mod(p, -u);
    lemma_cong_sub(p, 0, 0, d, u);
    assert(cong(p, e, -d));
    lemma_cong_mul(p, e, -d, w, -i);
    assert((-d) * (-i) == d * i) by (nonlinear_arith);
    lemma_cong_small(p, 1);
    assert((e * w) % p == 1);
    assert(inv_ok(p, e, w));
}

/// The chord/tangent slope `lambda_of(p, num % p, den % p)` multiplied by
/// the raw denominator is congruent to the raw numerator, and the slope is
/// a reduced field element.
proof fn lemma_slope_property(p: int, num: int, den: int)
    requires
        1 < p,
        has_inv(p, den % p),
    ensures
        0 <= lambda_of(p, num % p, den % p) < p,
        cong(p, lambda_of(p, num % p, den % p) * den, num),
{
    let d = den % p;
    let n = num % p;
    lemma_mod_inv_works(p, d);
    let i = mod_inv(p, d);
    let lam = (n * i) % p;
    lemma_cong_mod(p, n * i);
    lemma_cong_mod(p, den);
    lemma_cong_mod(p, num);
    // lam * den is congruent to (n * i) * d, which is n * (d * i), which is
    // congruent to n * 1 == n, which is congruent to num.
    lemma_cong_mul(p, lam, n * i, den, d);
    assert((n * i) * d == n * (d * i)) by (nonlinear_arith);
    lemma_cong_small(p, 1);
    lemma_cong_mul(p, n, n, d * i, 1);
    assert(n * 1 == n);
    assert(cong(p, lam * den, num));
}

/// Commutativity: point addition does not depend on the order of its
/// operands, including which inputs fail.
pub proof fn lemma_add_commutes(c: EllipticCurve, p1: Point, p2: Point)
    requires
        c.wf(),
    ensures
        add_spec(c, p1, p2) == add_spec(c, p2, p1),
{
    match (p1, p2) {
        (Point::Infinity, _) => {
        },
        (_, Point::Infinity) => {
        },
        (Point::Affine { x: x1, y: y1 }, Point::Affine { x: x2, y: y2 }) => {
            let pi = c.p as int;
            if x1 == x2 {
                // Vertical or tangent: both orders take the same branch with
                // the same operands.
            } else {
                let d12 = chord_den(c, x1 as int, x2 as int);
                let d21 = chord_den(c, x2 as int, x1 as int);
                let n12 = chord_num(c, y1 as int, y2 as int);
                let n21 = chord_num(c, y2 as int, y1 as int);
                // An inverse of x2 - x1 exists exactly when one of x1 - x2
                // does.
                if has_inv(pi, d12) {
                    lemma_has_inv_opposite(pi, (x2 - x1) as int);
                    assert((-(x2 - x1)) == x1 - x2);
                    assert(has_inv(pi, d21));
                }
                if has_inv(pi, d21) {
                    lemma_has_inv_opposite(pi, (x1 - x2) as int);
                    assert((-(x1 - x2)) == x2 - x1);
                    assert(has_inv(pi, d12));
                }
                if has_inv(pi, d12) && has_inv(pi, d21) {
                    let lam12 = lambda_of(pi, n12, d12);
                    let lam21 = lambda_of(pi, n21, d21);
                    lemma_slope_property(pi, y2 - y1, x2 - x1);
                    lemma_slope_property(pi, y1 - y2, x1 - x2);
                    // Both slopes, multiplied by x2 - x1, are congruent to
                    // y2 - y1, and the inverse of x2 - x1 is unique, so the
                    // slopes agree.
                    assert(cong(pi, lam12 * (x2 - x1), y2 - y1));
                    assert(cong(pi, lam21 * (x1 - x2), y1 - y2));
                    lemma_cong_sub(pi, 0, 0, lam21 * (x1 - x2), y1 - y2);
                    assert(-(lam21 * (x1 - x2)) == lam21 * (x2 - x1)) by (nonlinear_arith);
                    assert(-(y1 - y2) == y2 - y1);
                    assert(cong(pi, lam21 * (x2 - x1), y2 - y1));
                    // lam12 == lam12 * (d12 * i) == (lam12 * d12) * i, and
                    // lam12 * d12 is congruent to lam21 * d12, so both
                    // slopes are congruent, and both are reduced.
                    lemma_mod_inv_works(pi, d12);
                    let i = mod_inv(pi, d12);
                    lemma_cong_small(pi, 1);
                    lemma_cong_mod(pi, x2 - x1);
                    lemma_cong_mul(pi, lam12, lam12, 1, d12 * i);
                    assert(lam12 * 1 == lam12);
                    assert(lam12 * (d12 * i) == (lam12 * (x2 - x1)) * i + (d12 - (x2 - x1)) * (
                    lam12 * i)) by (nonlinear_arith);
                    assert(lam21 * (d12 * i) == (lam21 * (x2 - x1)) * i + (d12 - (x2 - x1)) * (
                    lam21 * i)) by (nonlinear_arith);
                    lemma_cong_mul(pi, lam12 * (x2 - x1), y2 - y1, i, i);
                    lemma_cong_mul(pi, lam21 * (x2 - x1), y2 - y1, i, i);
                    lemma_cong_sub(pi, d12, x2 - x1, x2 - x1, x2 - x1);
                    // d12 - (x2 - x1) is a multiple of pi, so the second
                    // summands are congruent to each other via zero.
                    lemma_cong_mul(pi, d12 - (x2 - x1), 0, lam12 * i, lam12 * i);
                    lemma_cong_mul(pi, d12 - (x2 - x1), 0, lam21 * i, lam21 * i);
                    assert(0 * (lam12 * i) == 0);
                    assert(0 * (lam21 * i) == 0);
                    lemma_cong_add(pi, (lam12 * (x2 - x1)) * i, (y2 - y1) * i, (d12 - (x2 - x1))
                        * (lam12 * i), 0);
                    lemma_cong_add(pi, (lam21 * (x2 - x1)) * i, (y2 - y1) * i, (d12 - (x2 - x1))
                        * (lam21 * i), 0);
                    lemma_cong_mul(pi, lam21, lam21, 1, d12 * i);
                    assert(lam21 * 1 == lam21);
                    assert(cong(pi, lam12, lam21));
                    lemma_cong_unique(pi, lam12, lam21);
                    // With equal slopes the result coordinates coincide.
                    assert(lam12 * lam12 - x1 - x2 == lam12 * lam12 - x2 - x1);
                    let x3 = sum_x(pi, lam12, x1 as int, x2 as int);
                    assert(x3 == sum_x(pi, lam21, x2 as int, x1 as int));
                    // y3: lam * (x1 - x3) - y1 and lam * (x2 - x3) - y2 are
                    // congruent because lam * (x1 - x2) is congruent to
                    // y1 - y2.
                    lemma_cong_sub(pi, lam21 * (x1 - x2), y1 - y2, 0, 0);
                    assert(cong(pi, lam12 * (x1 - x2), y1 - y2));
                    assert(lam12 * (x1 - x3) - y1 - (lam12 * (x2 - x3) - y2) == lam12 * (x1 - x2)
                        - (y1 - y2)) by (nonlinear_arith);
                    lemma_cong_sub(pi, lam12 * (x1 - x2), y1 - y2, y1 - y2, y1 - y2);
                    assert(cong(pi, lam12 * (x1 - x2) - (y1 - y2), 0));
                    assert(cong(pi, lam12 * (x1 - x3) - y1 - (lam12 * (x2 - x3) - y2), 0));
                    lemma_cong_mod(pi, lam12 * (x1 - x3) - y1);
                    lemma_cong_mod(pi, lam12 * (x2 - x3) - y2);
                    lemma_cong_sub(pi, lam12 * (x1 - x3) - y1, lam12 * (x1 - x3) - y1, lam12 * (x2
                        - x3) - y2, lam12 * (x2 - x3) - y2);
                    assert(cong(pi, sum_y(pi, lam12, x1 as int, y1 as int, x3), sum_y(pi, lam12, x2
                        as int, y2 as int, x3))) by {
                        lemma_cong_add(pi, lam12 * (x1 - x3) - y1 - (lam12 * (x2 - x3) - y2), 0,
                            lam12 * (x2 - x3) - y2, lam12 * (x2 - x3) - y2);
                        assert(lam12 * (x1 - x3) - y1 - (lam12 * (x2 - x3) - y2) + (lam12 * (x2
                            - x3) - y2) == lam12 * (x1 - x3) - y1);
                        lemma_cong_mod(pi, lam12 * (x1 - x3) - y1);
                        lemma_cong_mod(pi, lam12 * (x2 - x3) - y2);
                    }
                    lemma_cong_mod(pi, lam12 * (x1 - x3) - y1);
                    lemma_cong_mod(pi, lam12 * (x2 - x3) - y2);
                    lemma_cong_unique(pi, sum_y(pi, lam12, x1 as int, y1 as int, x3), sum_y(pi,
                        lam12, x2 as int, y2 as int, x3));
                    assert(finite_sum(pi, lam12, x1 as int, y1 as int, x2 as int) == finite_sum(pi,
                        lam21, x2 as int, y2 as int, x1 as int));
                }
            }
        },
    }
}

/// The heart of the closure proof: if (x1, y1) satisfies the curve
/// equation and the slope `lam` satisfies the chord/tangent identity
/// `lam^2 * (x2 - x1) + 2 * lam * y1 == x1^2 + x1*x2 + x2^2 + a` modulo p,
/// then the constructed third point satisfies the curve equation.
proof fn lemma_core_closure(p: int, aa: int, bb: int, x1: int, y1: int, x2: int, lam: int)
    requires
        1 < p,
        cong(p, y1 * y1, x1 * x1 * x1 + aa * x1 + bb),
        cong(p, lam * lam * (x2 - x1) + 2 * lam * y1, x1 * x1 + x1 * x2 + x2 * x2 + aa),
    ensures
        ({
            let x3 = (lam * lam - x1 - x2) % p;
            let y3 = (lam * (x1 - x3) - y1) % p;
            cong(p, y3 * y3, x3 * x3 * x3 + aa * x3 + bb)
        }),
{
    let x3 = (lam * lam - x1 - x2) % p;
    let y3 = (lam * (x1 - x3) - y1) % p;
    let t = lam * lam - x1 - x2;
    let w = lam * (x1 - x3) - y1;
    let kk = lam * lam * (x1 - x3) - 2 * lam * y1 + x1 * x1 + x1 * x3 + x3 * x3 + aa;
    let kt = lam * lam * (x1 - t) - 2 * lam * y1 + x1 * x1 + x1 * t + t * t + aa;
    lemma_cong_mod(p, t);
    lemma_cong_mod(p, w);
    // kk is congruent to kt: replace x3 by the congruent t in each monomial.
    lemma_cong_mul(p, x3, t, x3, t);
    lemma_cong_mul(p, x1, x1, x3, t);
    lemma_cong_sub(p, x1, x1, x3, t);
    lemma_cong_mul(p, lam * lam, lam * lam, x1 - x3, x1 - t);
    lemma_cong_add(p, lam * lam * (x1 - x3), lam * lam * (x1 - t), x1 * x3, x1 * t);
    lemma_cong_add(p, lam * lam * (x1 - x3) + x1 * x3, lam * lam * (x1 - t) + x1 * t, x3 * x3, t
        * t);
    lemma_cong_add(p, lam * lam * (x1 - x3) + x1 * x3 + x3 * x3, lam * lam * (x1 - t) + x1 * t + t
        * t, x1 * x1 + aa - 2 * lam * y1, x1 * x1 + aa - 2 * lam * y1);
    assert(cong(p, kk, kt));
    // kt collapses to the right-hand side of the slope identity minus its
    // left-hand side, so kt is congruent to zero.
    assert(kt == (x1 * x1 + x1 * x2 + x2 * x2 + aa) - (lam * lam * (x2 - x1) + 2 * lam * y1))
        by (nonlinear_arith)
        requires
            t == lam * lam - x1 - x2,
            kt == lam * lam * (x1 - t) - 2 * lam * y1 + x1 * x1 + x1 * t + t * t + aa,
    ;
    lemma_cong_sub(p, x1 * x1 + x1 * x2 + x2 * x2 + aa, x1 * x1 + x1 * x2 + x2 * x2 + aa, lam * lam
        * (x2 - x1) + 2 * lam * y1, x1 * x1 + x1 * x2 + x2 * x2 + aa);
    assert(cong(p, kt, 0));
    assert(cong(p, kk, 0));
    // The defect of the new point against the curve equation factors
    // through kk and the defect of (x1, y1), both congruent to zero.
    let u = x1 - x3;
    assert(w * w == lam * lam * (u * u) - 2 * lam * u * y1 + y1 * y1) by (nonlinear_arith)
        requires
            w == lam * u - y1,
    ;
    let cc = x1 * x1 + x1 * x3 + x3 * x3;
    assert(u * kk == lam * lam * (u * u) - 2 * lam * u * y1 + u * cc + aa * u) by (nonlinear_arith)
        requires
            kk == lam * lam * u - 2 * lam * y1 + cc + aa,
    ;
    assert(u * cc == x1 * x1 * x1 - x3 * x3 * x3) by (nonlinear_arith)
        requires
            u == x1 - x3,
            cc == x1 * x1 + x1 * x3 + x3 * x3,
    ;
    assert(aa * u == aa * x1 - aa * x3) by (nonlinear_arith)
        requires
            u == x1 - x3,
    ;
    assert(w * w - (x3 * x3 * x3 + aa * x3 + bb) == (x1 - x3) * kk + (y1 * y1 - (x1 * x1 * x1 + aa
        * x1 + bb)));
    lemma_cong_mul(p, x1 - x3, x1 - x3, kk, 0);
    assert((x1 - x3) * 0 == 0) by (nonlinear_arith);
    lemma_cong_sub(p, y1 * y1, x1 * x1 * x1 + aa * x1 + bb, x1 * x1 * x1 + aa * x1 + bb, x1 * x1
        * x1 + aa * x1 + bb);
    lemma_cong_add(p, (x1 - x3) * kk, 0, y1 * y1 - (x1 * x1 * x1 + aa * x1 + bb), 0);
    assert(cong(p, w * w - (x3 * x3 * x3 + aa * x3 + bb), 0));
    lemma_cong_add(p, w * w - (x3 * x3 * x3 + aa * x3 + bb), 0, x3 * x3 * x3 + aa * x3 + bb, x3
        * x3 * x3 + aa * x3 + bb);
    assert(cong(p, w * w, x3 * x3 * x3 + aa * x3 + bb));
    lemma_cong_mul(p, y3, w, y3, w);
    assert(cong(p, y3 * y3, x3 * x3 * x3 + aa * x3 + bb));
}

/// The chord slope between two distinct points of the curve satisfies the
/// identity that the closure proof rests on.
proof fn lemma_chord_identity(p: int, aa: int, bb: int, x1: int, y1: int, x2: int, y2: int)
    requires
        1 < p,
        has_inv(p, (x2 - x1) % p),
        cong(p, y1 * y1, x1 * x1 * x1 + aa * x1 + bb),
        cong(p, y2 * y2, x2 * x2 * x2 + aa * x2 + bb),
    ensures
        ({
            let lam = lambda_of(p, (y2 - y1) % p, (x2 - x1) % p);
            cong(p, lam * lam * (x2 - x1) + 2 * lam * y1, x1 * x1 + x1 * x2 + x2 * x2 + aa)
        }),
{
    let lam = lambda_of(p, (y2 - y1) % p, (x2 - x1) % p);
    let rr = x1 * x1 + x1 * x2 + x2 * x2 + aa;
    lemma_slope_property(p, y2 - y1, x2 - x1);
    assert(cong(p, lam * (x2 - x1), y2 - y1));
    lemma_mod_inv_works(p, (x2 - x1) % p);
    let i = mod_inv(p, (x2 - x1) % p);
    // (x2 - x1) * i is congruent to 1.
    lemma_cong_mod(p, x2 - x1);
    lemma_cong_mul(p, x2 - x1, (x2 - x1) % p, i, i);
    lemma_cong_small(p, 1);
    assert(cong(p, (x2 - x1) * i, 1));
    // Subtracting the two curve equations and factoring both sides:
    // (y2 - y1) * (y2 + y1) is congruent to (x2 - x1) * rr.
    lemma_cong_sub(p, y2 * y2, x2 * x2 * x2 + aa * x2 + bb, y1 * y1, x1 * x1 * x1 + aa * x1 + bb);
    assert(y2 * y2 - y1 * y1 == (y2 - y1) * (y2 + y1)) by (nonlinear_arith);
    assert((x2 * x2 * x2 + aa * x2 + bb) - (x1 * x1 * x1 + aa * x1 + bb) == (x2 - x1) * rr)
        by (nonlinear_arith)
        requires
            rr == x1 * x1 + x1 * x2 + x2 * x2 + aa,
    ;
    assert(cong(p, (y2 - y1) * (y2 + y1), (x2 - x1) * rr));
    // Multiply the slope property by (y2 + y1), then by i, and cancel
    // (x2 - x1) * i against 1 to obtain: lam * (y2 + y1) is congruent to rr.
    lemma_cong_mul(p, lam * (x2 - x1), y2 - y1, y2 + y1, y2 + y1);
    assert(cong(p, (lam * (x2 - x1)) * (y2 + y1), (x2 - x1) * rr));
    lemma_cong_mul(p, (lam * (x2 - x1)) * (y2 + y1), (x2 - x1) * rr, i, i);
    assert(((lam * (x2 - x1)) * (y2 + y1)) * i == (lam * (y2 + y1)) * ((x2 - x1) * i))
        by (nonlinear_arith);
    assert(((x2 - x1) * rr) * i == rr * ((x2 - x1) * i)) by (nonlinear_arith);
    lemma_cong_mul(p, lam * (y2 + y1), lam * (y2 + y1), (x2 - x1) * i, 1);
    lemma_cong_mul(p, rr, rr, (x2 - x1) * i, 1);
    assert((lam * (y2 + y1)) * 1 == lam * (y2 + y1));
    assert(rr * 1 == rr);
    assert(cong(p, lam * (y2 + y1), rr));
    // Finally rewrite the identity's left side through the slope property.
    assert(lam * lam * (x2 - x1) == lam * (lam * (x2 - x1))) by (nonlinear_arith);
    lemma_cong_mul(p, lam, lam, lam * (x2 - x1), y2 - y1);
    lemma_cong_add(p, lam * (lam * (x2 - x1)), lam * (y2 - y1), 2 * lam * y1, 2 * lam * y1);
    assert(lam * (y2 - y1) + 2 * lam * y1 == lam * (y2 + y1)) by (nonlinear_arith);
    assert(cong(p, lam * lam * (x2 - x1) + 2 * lam * y1, rr));
}

/// The tangent slope at a point satisfies the identity that the closure
/// proof rests on, in its doubling form.
proof fn lemma_tangent_identity(p: int, aa: int, x1: int, y1: int)
    requires
        1 < p,
        has_inv(p, (2 * y1) % p),
    ensures
        ({
            let lam = lambda_of(p, (3 * x1 * x1 + aa) % p, (2 * y1) % p);
            cong(p, 2 * lam * y1, 3 * x1 * x1 + aa)
        }),
{
    let lam = lambda_of(p, (3 * x1 * x1 + aa) % p, (2 * y1) % p);
    lemma_slope_property(p, 3 * x1 * x1 + aa, 2 * y1);
    assert(lam * (2 * y1) == 2 * lam * y1) by (nonlinear_arith);
}

/// Closure: when the sum of two points of the curve is defined, it lies on
/// the curve.
pub proof fn lemma_add_closure(c: EllipticCurve, p1: Point, p2: Point, q: Point)
    requires
        c.wf(),
        on_curve(c, p1),
        on_curve(c, p2),
        add_spec(c, p1, p2) == Ok::<Point, CurveError>(q),
    ensures
        on_curve(c, q),
{
    match (p1, p2) {
        (Point::Infinity, _) => {
        },
        (_, Point::Infinity) => {
        },
        (Point::Affine { x: x1i, y: y1i }, Point::Affine { x: x2i, y: y2i }) => {
            let pi = c.p as int;
            let aa = c.a as int;
            let bb = c.b as int;
            let x1 = x1i as int;
            let y1 = y1i as int;
            let x2 = x2i as int;
            let y2 = y2i as int;
            if x1i == x2i && y1i != y2i {
            } else {
                let num = if x1i == x2i {
                    tangent_num(c, x1)
                } else {
                    chord_num(c, y1, y2)
                };
                let den = if x1i == x2i {
                    tangent_den(c, y1)
                } else {
                    chord_den(c, x1, x2)
                };
                assert(has_inv(pi, den));
                let lam = lambda_of(pi, num, den);
                if x1i == x2i {
                    lemma_tangent_identity(pi, aa, x1, y1);
                    assert(lam * lam * (x2 - x1) == 0) by (nonlinear_arith)
                        requires
                            x1 == x2,
                    ;
                    assert(x1 * x1 + x1 * x2 + x2 * x2 + aa == 3 * x1 * x1 + aa)
                        by (nonlinear_arith)
                        requires
                            x1 == x2,
                    ;
                    assert(cong(pi, lam * lam * (x2 - x1) + 2 * lam * y1, x1 * x1 + x1 * x2 + x2
                        * x2 + aa));
                } else {
                    lemma_chord_identity(pi, aa, bb, x1, y1, x2, y2);
                }
                lemma_core_closure(pi, aa, bb, x1, y1, x2, lam);
                let x3 = sum_x(pi, lam, x1, x2);
                let y3 = sum_y(pi, lam, x1, y1, x3);
                lemma_cong_mod(pi, lam * lam - x1 - x2);
                lemma_cong_mod(pi, lam * (x1 - x3) - y1);
                assert(q == (Point::Affine { x: x3 as i64, y: y3 as i64 }));
                assert(cong(pi, y3 * y3, x3 * x3 * x3 + aa * x3 + bb));
            }
        },
    }
}

/// Closure for doubling: when the double of a point of the curve is
/// defined, it lies on the curve.
pub proof fn lemma_double_closure(c: EllipticCurve, q: Point, r: Point)
    requires
        c.wf(),
        on_curve(c, q),
        double_spec(c, q) == Ok::<Point, CurveError>(r),
    ensures
        on_curve(c, r),
{
    lemma_double_is_add_self(c, q);
    lemma_add_closure(c, q, q, r);
}

} // verus!
