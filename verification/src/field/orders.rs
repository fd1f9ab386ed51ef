//! Orders of elements modulo a number: what follows from powers that are one.
use vstd::prelude::*;
use vstd::arithmetic::div_mod::*;
use vstd::arithmetic::mul::*;
use vstd::arithmetic::power::*;
use vstd::arithmetic::power2::*;

use crate::field::arith::{gcd, lemma_gcd_divides};

verus! {

/// If two powers of `b` are one modulo `d`, so is the power whose
/// exponent is the greatest common divisor of the two exponents.
pub proof fn lemma_power_gcd(b: int, x: nat, y: nat, d: int)
    requires
        d > 1,
        pow(b, x) % d == 1,
        pow(b, y) % d == 1,
    ensures
        pow(b, gcd(x, y)) % d == 1,
    decreases y,
{
    if y != 0 {
        let q = x / y;
        let r = x % y;
        lemma_fundamental_div_mod(x as int, y as int);
        lemma_mul_nonnegative(y as int, q as int);
        lemma_pow_adds(b, y * q, r);
        lemma_pow_multiplies(b, y, q);
        lemma_pow_mod_noop(pow(b, y), q, d);
        lemma1_pow(q);
        lemma_small_mod(1, d as nat);
        lemma_mul_mod_noop_left(pow(b, y * q), pow(b, r), d);
        lemma_mul_basics(pow(b, r));
        lemma_mod_twice(pow(b, r), d);
        lemma_power_gcd(b, y, r, d);
    }
}

/// An odd number that divides a power of two is one.
proof fn lemma_odd_divisor_of_pow2(q: nat, g: nat, n: nat)
    requires
        q * g == pow2(n),
        q % 2 == 1,
    ensures
        q == 1,
    decreases n,
{
    if n == 0 {
        lemma2_to64();
        assert(q == 1) by (nonlinear_arith)
            requires
                q * g == 1,
                q >= 0,
                g >= 0,
        ;
    } else {
        lemma_pow2_unfold(n);
        lemma_mul_mod_noop(q as int, g as int, 2);
        lemma_mul_basics(g as int % 2);
        lemma_mod_twice(g as int, 2);
        assert(g % 2 == 0);
        assert(q * (g / 2) == pow2((n - 1) as nat)) by (nonlinear_arith)
            requires
                q * g == 2 * pow2((n - 1) as nat),
                g == 2 * (g / 2),
        ;
        lemma_odd_divisor_of_pow2(q, g / 2, (n - 1) as nat);
    }
}

/// An element whose `2^e`-th power is one and which has a smaller
/// positive exponent with that property has the `2^(e-1)`-th power one.
pub proof fn lemma_order_halves(b: int, k: nat, e: nat, d: int)
    requires
        d > 1,
        e >= 1,
        0 < k < pow2(e),
        pow(b, k) % d == 1,
        pow(b, pow2(e)) % d == 1,
    ensures
        pow(b, pow2((e - 1) as nat)) % d == 1,
{
    let n: nat = pow2(e);
    let g = gcd(k, n);
    lemma_power_gcd(b, k, n, d);
    lemma_gcd_divides(k, n);
    if g > k {
        lemma_small_mod(k, g);
    }
    let q = n / g;
    lemma_fundamental_div_mod(n as int, g as int);
    lemma_mul_is_commutative(g as int, q as int);
    assert(q >= 2) by (nonlinear_arith)
        requires
            n == g * q,
            0 < g < n,
            q >= 0,
    ;
    lemma_pow2_unfold(e);
    if q % 2 == 1 {
        lemma_mul_is_commutative(g as int, q as int);
        lemma_odd_divisor_of_pow2(q, g, e);
    }
    let h = q / 2;
    let target = pow2((e - 1) as nat);
    assert(g * h == target) by (nonlinear_arith)
        requires
            g * q == 2 * target,
            q == 2 * h,
    ;
    lemma_pow_multiplies(b, g, h);
    lemma_pow_mod_noop(pow(b, g), h, d);
    lemma1_pow(h);
    lemma_small_mod(1, d as nat);
}

} // verus!
