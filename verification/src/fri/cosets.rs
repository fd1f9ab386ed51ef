//! The cosets of the rounds, in a prime field and for a generator of full
//! order: their points are units, the point half a length further is the
//! negative, and the points of a coset are pairwise distinct.
use vstd::prelude::*;
use vstd::arithmetic::div_mod::*;
use vstd::arithmetic::mul::*;
use vstd::arithmetic::power::*;
use vstd::arithmetic::power2::*;

use crate::field::arith::{
    coprime, is_prime, lemma_cancel_factor, lemma_prime_coprime, pow_mod,
};
use crate::field::orders::lemma_order_halves;
use crate::fri::verification::{lemma_squared_step, squared_times};
use crate::fri::{coset, domain_point, halved, lemma_halved_pow2};
use crate::poly::algebra::{difference, distinct, invertible_differences, reduced};

verus! {

/// `omega` generates a group of `n` elements: its `n/2`-th power is minus one.
pub open spec fn generates(omega: int, n: nat, p: int) -> bool {
    n >= 2 && pow_mod(omega, n / 2, p) == p - 1
}

/// Squaring `r` times is raising to the power `2^r`.
pub proof fn lemma_squared_is_power(x: int, r: nat, p: int)
    requires
        p > 0,
        0 <= x < p,
    ensures
        squared_times(x, r, p) == pow_mod(x, pow2(r), p),
        0 <= squared_times(x, r, p) < p,
    decreases r,
{
    lemma2_to64();
    if r == 0 {
        lemma_pow1(x);
        lemma_small_mod(x as nat, p as nat);
    } else {
        lemma_squared_is_power(x, (r - 1) as nat, p);
        lemma_squared_step(x, (r - 1) as nat, p);
        let e = pow2((r - 1) as nat);
        lemma_pow2_unfold(r);
        lemma_pow_adds(x, e, e);
        lemma_mul_mod_noop(pow(x, e), pow(x, e), p);
        lemma_mod_bound(pow(x, pow2(r)), p);
    }
}

/// A power of two halved `k` times, times `2^k`, is the power of two.
pub proof fn lemma_halved_times_pow2(n: nat, k: nat)
    requires
        is_pow2(n as int),
        halved(n, k) >= 1,
    ensures
        halved(n, k) * pow2(k) == n,
    decreases k,
{
    lemma2_to64();
    if k > 0 {
        crate::fri::lemma_halved_step(n, (k - 1) as nat);
        lemma_halved_pow2(n, k);
        lemma_halved_times_pow2(n, (k - 1) as nat);
        lemma_pow2_unfold(k);
        let h = halved(n, k) as int;
        let q = pow2((k - 1) as nat) as int;
        let before = halved(n, (k - 1) as nat) as int;
        assert(before == h * 2);
        assert(before * q == n);
        assert(pow2(k) == 2 * q);
        assert(h * (2 * q) == before * q) by (nonlinear_arith)
            requires
                before == h * 2,
        ;
    } else {
        lemma_mul_basics(n as int);
    }
}

/// A power of a residue that is not zero is not zero, in a prime field.
pub proof fn lemma_power_not_zero(x: int, e: nat, p: int)
    requires
        is_prime(p),
        x % p != 0,
    ensures
        pow(x, e) % p != 0,
    decreases e,
{
    if e == 0 {
        lemma_pow0(x);
        lemma_small_mod(1, p as nat);
    } else {
        lemma_power_not_zero(x, (e - 1) as nat, p);
        lemma_pow_adds(x, (e - 1) as nat, 1);
        lemma_pow1(x);
        if pow(x, e) % p == 0 {
            lemma_cancel_factor(pow(x, (e - 1) as nat), x, p);
        }
    }
}

/// A point of a coset with an offset and a generator that are not zero is
/// a unit of a prime field.
pub proof fn lemma_point_is_unit(offset: int, omega: int, i: nat, p: int)
    requires
        is_prime(p),
        offset % p != 0,
        omega % p != 0,
    ensures
        0 < domain_point(offset, omega, i, p) < p,
        coprime(domain_point(offset, omega, i, p), p),
{
    let w = pow_mod(omega, i, p);
    lemma_power_not_zero(omega, i, p);
    lemma_mod_bound(offset * w, p);
    lemma_mod_twice(pow(omega, i), p);
    if (offset * w) % p == 0 {
        lemma_mul_is_commutative(offset, w);
        lemma_cancel_factor(w, offset, p);
    }
    lemma_prime_coprime(domain_point(offset, omega, i, p), p);
}

/// The point `steps` places further is the point times the power of the
/// generator.
pub proof fn lemma_point_further(offset: int, omega: int, i: nat, steps: nat, p: int)
    requires
        p > 0,
    ensures
        domain_point(offset, omega, i + steps, p) == (domain_point(offset, omega, i, p) * pow(
            omega,
            steps,
        )) % p,
{
    let wi = pow(omega, i);
    let ws = pow(omega, steps);
    lemma_pow_adds(omega, i, steps);
    lemma_mul_mod_noop_right(offset, wi * ws, p);
    lemma_mul_mod_noop_right(offset, wi, p);
    lemma_mul_mod_noop_left(offset * wi, ws, p);
    lemma_mul_is_associative(offset, wi, ws);
}

/// Where the generator to the power `half` is minus one, the point `half`
/// places further is the negative of the point.
pub proof fn lemma_opposite_point(offset: int, omega: int, i: nat, half: nat, p: int)
    requires
        p >= 2,
        pow_mod(omega, half, p) == p - 1,
    ensures
        domain_point(offset, omega, i + half, p) == (-domain_point(offset, omega, i, p)) % p,
{
    let x = domain_point(offset, omega, i, p);
    lemma_point_further(offset, omega, i, half, p);
    lemma_mul_mod_noop_right(x, pow(omega, half), p);
    // x * (p - 1) = x * p - x
    assert(x * (p - 1) == (-x) + x * p) by (nonlinear_arith);
    lemma_mod_multiples_vanish(x, -x, p);
}

/// The generator of round `r` generates the coset of that round.
pub proof fn lemma_round_generator(omega: int, n: nat, r: nat, p: int)
    requires
        p >= 2,
        0 <= omega < p,
        is_pow2(n as int),
        generates(omega, n, p),
        halved(n, r) >= 2,
    ensures
        generates(squared_times(omega, r, p), halved(n, r), p),
{
    lemma_squared_is_power(omega, r, p);
    lemma_halved_times_pow2(n, r);
    let h = halved(n, r);
    let e = pow2(r);
    lemma_halved_pow2(n, r);
    crate::merkle::lemma_half_is_pow2(h as int);
    // (omega^e)^(h / 2) = omega^(e * (h / 2)) = omega^(n / 2)
    lemma_pow_mod_noop(pow(omega, e), h / 2, p);
    lemma_pow_multiplies(omega, e, h / 2);
    assert(e * (h / 2) == n / 2) by (nonlinear_arith)
        requires
            h * e == n,
            h == 2 * (h / 2),
    ;
}

/// A generator of a group of `n` elements has the `n`-th power one.
pub proof fn lemma_generator_power(omega: int, n: nat, p: int)
    requires
        p >= 2,
        n % 2 == 0,
        generates(omega, n, p),
    ensures
        pow_mod(omega, n, p) == 1,
{
    let half = n / 2;
    lemma_pow_adds(omega, half, half);
    lemma_mul_mod_noop(pow(omega, half), pow(omega, half), p);
    assert((p - 1) * (p - 1) == 1 + (p - 2) * p) by (nonlinear_arith);
    lemma_mod_multiples_vanish(p - 2, 1, p);
    lemma_small_mod(1, p as nat);
}

/// The points of the coset of a generator of a power-of-two group are
/// pairwise distinct residues whose differences have inverses.
pub proof fn lemma_coset_is_distinct(offset: int, omega: int, n: nat, p: int)
    requires
        is_prime(p),
        p > 2,
        offset % p != 0,
        is_pow2(n as int),
        generates(omega, n, p),
    ensures
        coset(offset, omega, n, p).len() == n,
        reduced(coset(offset, omega, n, p), p),
        distinct(coset(offset, omega, n, p)),
        invertible_differences(coset(offset, omega, n, p), p),
{
    let dom = coset(offset, omega, n, p);
    crate::merkle::lemma_half_is_pow2(n as int);
    lemma_generator_power(omega, n, p);
    is_pow2_equiv(n as int);
    let e = choose|e: nat| pow(2, e) == n as int;
    lemma2_to64();
    assert(pow2(e) == n);
    if e == 0 {
        assert(false);
    }
    lemma_pow2_unfold(e);
    // the generator is not zero
    if omega % p == 0 {
        lemma_pow_mod_noop(omega, n / 2, p);
        lemma0_pow(n / 2);
        lemma_small_mod(0, p as nat);
    }
    assert forall|i: int| 0 <= i < dom.len() implies 0 <= #[trigger] dom[i] < p by {
        lemma_point_is_unit(offset, omega, i as nat, p);
    }
    assert forall|i: int, j: int| 0 <= i < j < dom.len() implies dom[i] != dom[j] by {
        if dom[i] == dom[j] {
            let k = (j - i) as nat;
            let x = domain_point(offset, omega, i as nat, p);
            let wk = pow(omega, k);
            lemma_point_further(offset, omega, i as nat, k, p);
            lemma_point_is_unit(offset, omega, i as nat, p);
            // x * (w^k - 1) is a multiple of p and x is none
            lemma_small_mod(x as nat, p as nat);
            lemma_mul_is_distributive_sub(x, wk, 1);
            lemma_mod_equivalence(x * wk, x, p);
            lemma_mul_is_commutative(x, wk - 1);
            lemma_cancel_factor(wk - 1, x, p);
            lemma_mod_equivalence(wk, 1, p);
            lemma_small_mod(1, p as nat);
            assert(pow(omega, k) % p == 1);
            lemma_order_halves(omega, k, e, p);
            assert(pow2((e - 1) as nat) == n / 2);
        }
    }
    assert forall|i: int, j: int|
        0 <= i < dom.len() && 0 <= j < dom.len() && i != j implies coprime(
        #[trigger] difference(dom, i, j, p),
        p,
    ) by {
        let gap = (dom[i] - dom[j]) % p;
        lemma_mod_bound(dom[i] - dom[j], p);
        assert(dom[i] != dom[j]) by {
            if i < j {
                assert(dom[i] != dom[j]);
            } else {
                assert(dom[j] != dom[i]);
            }
        }
        if gap == 0 {
            lemma_mod_equivalence(dom[i], dom[j], p);
            lemma_small_mod(dom[i] as nat, p as nat);
            lemma_small_mod(dom[j] as nat, p as nat);
        }
        lemma_prime_coprime(gap, p);
    }
}

} // verus!
