//! The modular multiplicative inverse, computed by the iterative extended
//! Euclidean algorithm and verified against a mathematical model: `gcd` as a
//! recursive spec function, `inv_ok` as the defining property of an inverse,
//! and `mod_inv` as the (unique) inverse residue chosen at the spec level.

use vstd::prelude::*;
use vstd::arithmetic::div_mod::{
    lemma_div_is_ordered, lemma_div_pos_is_pos, lemma_fundamental_div_mod, lemma_mod_bound,
    lemma_mul_mod_noop_general, lemma_small_mod,
};
use crate::arith::{
    cong, lemma_cong_mod, lemma_cong_mul, lemma_cong_shift, lemma_cong_small, lemma_cong_sub,
};

verus! {

/// Largest modulus accepted by the arithmetic in this crate (2^30); it keeps
/// every intermediate product of two reduced values inside `i64`.
pub const MOD_LIMIT: i64 = 0x4000_0000;

/// Error returned when an inverse is requested of a value that has none
/// modulo the given modulus, that is, when the two are not coprime.
#[derive(Clone, Copy, Debug, PartialEq, Eq, Structural)]
pub enum CurveError {
    NotInvertible,
}

/// Greatest common divisor, by the Euclidean recursion.
pub open spec fn gcd(a: nat, b: nat) -> nat
    decreases b,
{
    if b == 0 {
        a
    } else {
        gcd(b, a % b)
    }
}

/// `r` is the inverse of `d` modulo `p`, normalized into `[0, p)`.
pub open spec fn inv_ok(p: int, d: int, r: int) -> bool {
    0 <= r < p && (d * r) % p == 1
}

/// Some inverse of `d` modulo `p` exists.
pub open spec fn has_inv(p: int, d: int) -> bool {
    exists|r: int| inv_ok(p, d, r)
}

/// The inverse of `d` modulo `p`, as a spec-level value. Meaningful only
/// when `has_inv(p, d)` holds; the inverse residue is then unique.
pub open spec fn mod_inv(p: int, d: int) -> int {
    choose|r: int| inv_ok(p, d, r)
}

/// The inverse residue modulo `p` is unique.
pub proof fn lemma_inv_unique(p: int, d: int, r1: int, r2: int)
    requires
        1 < p,
        inv_ok(p, d, r1),
        inv_ok(p, d, r2),
    ensures
        r1 == r2,
{
    // r1 == r1 * (d * r2) == r2 * (d * r1) == r2, all modulo p.
    assert(r1 * (d * r2) == r2 * (d * r1)) by (nonlinear_arith);
    lemma_mul_mod_noop_general(r1, d * r2, p);
    // (r1 * (d * r2)) % p == ((r1 % p) * ((d * r2) % p)) % p == (r1 * 1) % p
    lemma_cong_small(p, r1);
    lemma_cong_small(p, r2);
    lemma_mul_mod_noop_general(r2, d * r1, p);
    assert((r1 * (d * r2)) % p == r1 % p);
    assert((r2 * (d * r1)) % p == r2 % p);
}

/// From any witness, the chosen inverse `mod_inv(p, d)` equals that witness.
pub proof fn lemma_mod_inv_of_witness(p: int, d: int, r: int)
    requires
        1 < p,
        inv_ok(p, d, r),
    ensures
        has_inv(p, d),
        mod_inv(p, d) == r,
        inv_ok(p, d, mod_inv(p, d)),
{
    assert(has_inv(p, d));
    let w = choose|w: int| inv_ok(p, d, w);
    lemma_inv_unique(p, d, w, r);
}

/// When an inverse exists, the chosen one satisfies the defining property.
pub proof fn lemma_mod_inv_works(p: int, d: int)
    requires
        1 < p,
        has_inv(p, d),
    ensures
        inv_ok(p, d, mod_inv(p, d)),
{
    let w = choose|w: int| inv_ok(p, d, w);
    lemma_mod_inv_of_witness(p, d, w);
}

/// The gcd of 1 and anything is 1.
pub proof fn lemma_gcd_one_left(b: nat)
    ensures
        gcd(1, b) == 1,
    decreases b,
{
    if b == 0 {
    } else if b == 1 {
        assert(gcd(1, 1) == gcd(1, 0));
    } else {
        assert(1nat % b == 1) by {
            lemma_small_mod(1, b);
        }
        assert(gcd(1, b) == gcd(b, 1));
        assert(b % 1 == 0) by {
            lemma_mod_bound(b as int, 1);
        }
        assert(gcd(b, 1) == gcd(1, 0));
    }
}

/// Bezout's identity: the gcd of `a` and `b` is an integer combination of
/// them. Returns the pair of coefficients.
pub proof fn lemma_bezout(a: nat, b: nat) -> (r: (int, int))
    ensures
        a * r.0 + b * r.1 == gcd(a, b),
    decreases b,
{
    if b == 0 {
        assert(a * 1int + b * 0int == a) by (nonlinear_arith);
        (1int, 0int)
    } else {
        let sub = lemma_bezout(b, a % b);
        let x = sub.0;
        let y = sub.1;
        let q = a as int / b as int;
        lemma_fundamental_div_mod(a as int, b as int);
        // a % b == a - q * b, so
        // gcd == b * x + (a - q * b) * y == a * y + b * (x - q * y).
        assert(b * x + (a - q * b) * y == a * y + b * (x - q * y)) by (nonlinear_arith);
        (y, x - q * y)
    }
}

/// `d` divides `x`.
pub open spec fn divides(d: int, x: int) -> bool {
    exists|k: int| x == #[trigger] (k * d)
}

/// The gcd divides both of its arguments.
pub proof fn lemma_gcd_divides(a: nat, b: nat)
    ensures
        divides(gcd(a, b) as int, a as int),
        divides(gcd(a, b) as int, b as int),
    decreases b,
{
    let g = gcd(a, b) as int;
    if b == 0 {
        assert(1 * g == g) by (nonlinear_arith);
        assert(0 * g == 0) by (nonlinear_arith);
        assert(a as int == 1 * g);
        assert(b as int == 0 * g);
    } else {
        lemma_gcd_divides(b, a % b);
        let k1 = choose|k: int| b as int == #[trigger] (k * g);
        let k2 = choose|k: int| (a % b) as int == #[trigger] (k * g);
        let q = a as int / b as int;
        lemma_fundamental_div_mod(a as int, b as int);
        assert(a as int == (b as int) * q + (a % b) as int);
        assert(a as int == (q * k1 + k2) * g) by (nonlinear_arith)
            requires
                a as int == (b as int) * q + (a % b) as int,
                b as int == k1 * g,
                (a % b) as int == k2 * g,
        ;
    }
}

/// An inverse of `d` modulo `p` exists exactly when `d` and `p` are coprime.
pub proof fn lemma_has_inv_iff_gcd(p: int, d: int)
    requires
        1 < p,
        0 <= d < p,
    ensures
        has_inv(p, d) <==> gcd(d as nat, p as nat) == 1,
{
    if gcd(d as nat, p as nat) == 1 {
        let bz = lemma_bezout(d as nat, p as nat);
        let x = bz.0;
        let y = bz.1;
        // d * x + p * y == 1, so d * (x % p) is congruent to 1 modulo p.
        lemma_cong_mod(p, x);
        lemma_cong_mul(p, d, d, x % p, x);
        assert(cong(p, d * x + y * p, d * x)) by {
            lemma_cong_shift(p, d * x, y);
        }
        assert(d * x + y * p == 1) by (nonlinear_arith)
            requires d * x + p * y == 1;
        lemma_cong_small(p, 1);
        assert((d * (x % p)) % p == 1);
        lemma_mod_bound(x, p);
        assert(inv_ok(p, d, x % p));
        assert(has_inv(p, d));
    }
    if has_inv(p, d) {
        let r = choose|r: int| inv_ok(p, d, r);
        let g = gcd(d as nat, p as nat) as int;
        lemma_gcd_divides(d as nat, p as nat);
        let k1 = choose|k: int| d == #[trigger] (k * g);
        let k2 = choose|k: int| p == #[trigger] (k * g);
        // d * r == p * q + 1 for the quotient q, hence 1 is a multiple of g.
        lemma_fundamental_div_mod(d * r, p);
        let q = (d * r) / p;
        assert(d * r == p * q + 1);
        assert((k1 * g) * r - (k2 * g) * q == (k1 * r - k2 * q) * g) by (nonlinear_arith);
        assert(1 == (k1 * r - k2 * q) * g);
        let c = k1 * r - k2 * q;
        assert(g == 1) by (nonlinear_arith)
            requires c * g == 1, g >= 0;
    }
}

/// Euclidean remainder of a non-negative value, always in `[0, m)`.
pub(crate) fn emod(x: i64, m: i64) -> (r: i64)
    requires
        0 <= x,
        0 < m,
    ensures
        r == (x as int) % (m as int),
        0 <= r < m,
{
    proof {
        lemma_mod_bound(x as int, m as int);
    }
    (((x as u64) % (m as u64)) as i64)
}

/// Euclidean quotient of a non-negative value by a positive one.
pub(crate) fn ediv(x: i64, m: i64) -> (q: i64)
    requires
        0 <= x,
        0 < m,
    ensures
        q == (x as int) / (m as int),
        0 <= q <= x,
{
    proof {
        lemma_div_pos_is_pos(x as int, m as int);
        lemma_div_is_ordered(x as int, x as int, m as int);
        vstd::arithmetic::div_mod::lemma_div_by_multiple(x as int, 1);
        assert((x as int) / 1 == x as int);
    }
    (((x as u64) / (m as u64)) as i64)
}

/// The multiplicative inverse of `a` modulo `m`, by the iterative extended
/// Euclidean algorithm, normalized into `[0, m)`. Returns `NotInvertible`
/// exactly when `a mod m` and `m` are not coprime; in particular an input
/// congruent to 0 has no inverse and is rejected rather than answered with
/// a meaningless value.
pub fn mod_inverse(a: i64, m: i64) -> (res: Result<i64, CurveError>)
    requires
        0 <= a,
        1 < m <= MOD_LIMIT,
    ensures
        res is Ok <==> gcd(((a as int) % (m as int)) as nat, m as nat) == 1,
        res matches Ok(x) ==> inv_ok(m as int, a as int, x as int),
        res matches Ok(x) ==> x == mod_inv(m as int, (a as int) % (m as int)),
        res matches Err(e) ==> e == CurveError::NotInvertible,
{
    let m0 = m;
    let ghost a0 = a as int;
    let ghost g0 = gcd(((a as int) % (m as int)) as nat, m as nat);
    let mut ra: i64 = emod(a, m);
    let mut rb: i64 = m;
    let mut x0: i64 = 0;
    let mut x1: i64 = 1;
    proof {
        lemma_cong_mod(m0 as int, a0);
        assert(cong(m0 as int, ra as int, 1 * a0)) by {
            assert(1 * a0 == a0);
        }
        assert(m0 as int % m0 as int == 0) by {
            vstd::arithmetic::div_mod::lemma_mod_self_0(m0 as int);
        }
        lemma_cong_small(m0 as int, 0);
        assert(cong(m0 as int, rb as int, 0 * a0)) by {
            assert(0 * a0 == 0);
        }
    }
    while ra > 1 && rb > 0
        invariant
            1 < m0 <= MOD_LIMIT,
            0 <= ra <= m0,
            0 <= rb <= m0,
            0 <= x0 < m0,
            0 <= x1 < m0,
            gcd(ra as nat, rb as nat) == g0,
            cong(m0 as int, ra as int, x1 * a0),
            cong(m0 as int, rb as int, x0 * a0),
            ra == 0 ==> rb == m0,
            a0 >= 0,
        decreases rb,
    {
        let q = ediv(ra, rb);
        let r = emod(ra, rb);
        proof {
            assert(0 <= (m0 - x0) * q <= MOD_LIMIT * MOD_LIMIT) by (nonlinear_arith)
                requires
                    0 < m0 - x0 <= MOD_LIMIT,
                    0 <= q <= MOD_LIMIT,
            ;
        }
        // x1 - q * x0, kept non-negative by adding the multiple q * m0.
        let t = emod(x1 + (m0 - x0) * q, m0);
        proof {
            // The gcd is preserved: gcd(ra, rb) unfolds to gcd(rb, ra % rb).
            assert(gcd(ra as nat, rb as nat) == gcd(rb as nat, (ra as nat) % (rb as nat)));
            assert((ra as nat) % (rb as nat) == r as nat);
            // t is congruent to x1 - q * x0 modulo m0.
            lemma_cong_mod(m0 as int, x1 + (m0 - x0) * q);
            assert(x1 + (m0 - x0) * q == (x1 - q * x0) + q * m0) by (nonlinear_arith);
            lemma_cong_shift(m0 as int, x1 - q * x0, q as int);
            assert(cong(m0 as int, t as int, x1 - q * x0));
            // The new remainder r == ra - q * rb is congruent to
            // (x1 - q * x0) * a0.
            lemma_fundamental_div_mod(ra as int, rb as int);
            assert(r == ra - (rb as int) * (q as int));
            assert(cong(m0 as int, q * (rb as int), q * (x0 * a0))) by {
                lemma_cong_mul(m0 as int, q as int, q as int, rb as int, x0 * a0);
            }
            lemma_cong_sub(m0 as int, ra as int, x1 * a0, q * (rb as int), q * (x0 * a0));
            assert(q * (rb as int) == (rb as int) * (q as int)) by (nonlinear_arith);
            assert(ra - q * (rb as int) == r);
            assert(x1 * a0 - q * (x0 * a0) == (x1 - q * x0) * a0) by (nonlinear_arith);
            assert(cong(m0 as int, r as int, (x1 - q * x0) * a0));
            lemma_cong_mul(m0 as int, t as int, x1 - q * x0, a0, a0);
            assert(t * a0 == t as int * a0);
            assert(cong(m0 as int, t * a0, (x1 - q * x0) * a0));
            assert(cong(m0 as int, r as int, t * a0));
        }
        let old_x0 = x0;
        ra = rb;
        rb = r;
        x0 = t;
        x1 = old_x0;
    }
    if ra == 1 {
        proof {
            // gcd(1, rb) == 1, so the input was coprime with the modulus.
            lemma_gcd_one_left(rb as nat);
            // 1 is congruent to x1 * a0, so x1 is the inverse.
            lemma_cong_small(m0 as int, 1);
            assert((x1 * a0) % (m0 as int) == 1);
            assert(x1 * a0 == a0 * (x1 as int)) by (nonlinear_arith);
            assert(inv_ok(m0 as int, a0, x1 as int));
            // The same holds with the reduced argument a0 % m0.
            lemma_cong_mod(m0 as int, a0);
            lemma_cong_mul(m0 as int, a0 % (m0 as int), a0, x1 as int, x1 as int);
            assert(inv_ok(m0 as int, a0 % (m0 as int), x1 as int));
            lemma_mod_inv_of_witness(m0 as int, a0 % (m0 as int), x1 as int);
        }
        Ok(x1)
    } else {
        proof {
            if ra == 0 {
                // Only the initial state has ra == 0; then rb == m0 > 1 and
                // gcd(0, m0) == m0.
                assert(gcd(0, m0 as nat) == gcd(m0 as nat, 0nat % m0 as nat));
                assert(0nat % m0 as nat == 0) by {
                    lemma_small_mod(0, m0 as nat);
                }
                assert(gcd(m0 as nat, 0) == m0 as nat);
                assert(g0 == m0 as nat);
            } else {
                // The loop stopped with rb == 0 and ra > 1: gcd(ra, 0) == ra.
                assert(rb == 0);
                assert(gcd(ra as nat, 0) == ra as nat);
                assert(g0 == ra as nat);
            }
            assert(g0 != 1);
        }
        Err(CurveError::NotInvertible)
    }
}

} // verus!
