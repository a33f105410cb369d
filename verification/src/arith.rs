//! Congruence reasoning modulo a positive integer, built on the
//! division/modulo lemmas of vstd. Two integers are congruent modulo `p`
//! when they leave the same remainder; the lemmas here close congruence
//! under addition, subtraction and multiplication, which is the backbone
//! of every proof about the field arithmetic in this crate.

use vstd::prelude::*;
use vstd::arithmetic::div_mod::{
    lemma_add_mod_noop, lemma_mod_bound, lemma_mod_multiples_vanish, lemma_mod_twice,
    lemma_mul_mod_noop_general, lemma_small_mod, lemma_sub_mod_noop,
};

verus! {

/// `x` and `y` leave the same remainder modulo `p`.
pub open spec fn cong(p: int, x: int, y: int) -> bool {
    x % p == y % p
}

/// Reducing modulo `p` yields a congruent value in `[0, p)`.
pub proof fn lemma_cong_mod(p: int, x: int)
    requires
        0 < p,
    ensures
        cong(p, x % p, x),
        0 <= x % p < p,
{
    lemma_mod_twice(x, p);
    lemma_mod_bound(x, p);
}

/// Congruence is preserved by addition.
pub proof fn lemma_cong_add(p: int, x: int, y: int, u: int, v: int)
    requires
        0 < p,
        cong(p, x, y),
        cong(p, u, v),
    ensures
        cong(p, x + u, y + v),
{
    lemma_add_mod_noop(x, u, p);
    lemma_add_mod_noop(y, v, p);
}

/// Congruence is preserved by subtraction.
pub proof fn lemma_cong_sub(p: int, x: int, y: int, u: int, v: int)
    requires
        0 < p,
        cong(p, x, y),
        cong(p, u, v),
    ensures
        cong(p, x - u, y - v),
{
    lemma_sub_mod_noop(x, u, p);
    lemma_sub_mod_noop(y, v, p);
}

/// Congruence is preserved by multiplication.
pub proof fn lemma_cong_mul(p: int, x: int, y: int, u: int, v: int)
    requires
        0 < p,
        cong(p, x, y),
        cong(p, u, v),
    ensures
        cong(p, x * u, y * v),
{
    lemma_mul_mod_noop_general(x, u, p);
    lemma_mul_mod_noop_general(y, v, p);
}

/// Adding a multiple of `p` does not change the residue.
pub proof fn lemma_cong_shift(p: int, x: int, k: int)
    requires
        0 < p,
    ensures
        cong(p, x + k * p, x),
{
    lemma_mod_multiples_vanish(k, x, p);
    assert(p * k == k * p) by (nonlinear_arith);
}

/// A value already in `[0, p)` is its own remainder.
pub proof fn lemma_cong_small(p: int, x: int)
    requires
        0 <= x < p,
    ensures
        x % p == x,
{
    lemma_small_mod(x as nat, p as nat);
}

/// Two congruent values that both lie in `[0, p)` are equal.
pub proof fn lemma_cong_unique(p: int, x: int, y: int)
    requires
        0 < p,
        cong(p, x, y),
        0 <= x < p,
        0 <= y < p,
    ensures
        x == y,
{
    lemma_cong_small(p, x);
    lemma_cong_small(p, y);
}

} // verus!
