//! The default modulus is prime. Every divisor of it above one is at least
//! `2^32`, because the powers of an element of order `2^32` are that many
//! distinct residues of the divisor; two such divisors multiply to more
//! than the modulus.
use vstd::prelude::*;
use vstd::arithmetic::div_mod::*;
use vstd::arithmetic::mul::*;
use vstd::arithmetic::power::*;
use vstd::arithmetic::power2::*;
use vstd::relations::injective_on;
use vstd::set_lib::{lemma_int_range, lemma_len_subset, lemma_map_size, set_int_range};

use crate::field::arith::is_prime;
use crate::field::orders::lemma_order_halves;
use crate::field::field::TWO_ADIC_ROOT;
use crate::field::roots::lemma_two_adic_generator;
use crate::field::DEFAULT_PRIME;

verus! {

/// The residue of the `i`-th power of `b` modulo `d`.
spec fn power_residue(b: int, d: int) -> spec_fn(int) -> int {
    |i: int| pow(b, i as nat) % d
}

/// The powers up to `2^32` of an element of order `2^32` modulo `d` are
/// pairwise distinct.
proof fn lemma_powers_distinct(b: int, d: int, i: int, j: int)
    requires
        d > 1,
        pow(b, 4294967296) % d == 1,
        pow(b, 2147483648) % d != 1,
        0 <= i < j < 4294967296,
    ensures
        pow(b, i as nat) % d != pow(b, j as nat) % d,
{
    if pow(b, i as nat) % d == pow(b, j as nat) % d {
        let k = (j - i) as nat;
        let u = pow(b, (4294967296 - i) as nat);
        let bi = pow(b, i as nat);
        let bk = pow(b, k);
        lemma_pow_adds(b, i as nat, k);
        lemma_pow_adds(b, i as nat, (4294967296 - i) as nat);
        // b^k = b^k * (b^i * u) = (b^i * b^k) * u = b^j * u = b^i * u = 1
        lemma_mul_mod_noop_right(bk, bi * u, d);
        lemma_mul_basics(bk);
        assert(bk * (bi * u) == (bi * bk) * u) by (nonlinear_arith);
        lemma_mul_mod_noop_left(bi * bk, u, d);
        lemma_mul_mod_noop_left(bi, u, d);
        assert(bk % d == 1);
        lemma2_to64();
        lemma_order_halves(b, k, 32, d);
    }
}

/// A divisor above one of the default modulus is at least `2^32`.
proof fn lemma_divisor_is_large(d: int)
    requires
        d > 1,
        DEFAULT_PRIME as int % d == 0,
    ensures
        d >= 4294967296,
{
    let n = DEFAULT_PRIME as int;
    let b = TWO_ADIC_ROOT as int;
    let e = n / d;
    lemma_fundamental_div_mod(n, d);
    lemma_two_adic_generator();
    assert(e > 0) by (nonlinear_arith)
        requires
            n == d * e,
            n > 0,
            d > 0,
    ;
    lemma_mod_mod(pow(b, 4294967296), d, e);
    lemma_mod_mod(pow(b, 2147483648), d, e);
    lemma_small_mod(1, d as nat);
    assert(pow(b, 4294967296) % d == 1);
    // (n - 1) % d = d - 1, which is one only for d = 2, and n is odd
    lemma_mod_multiples_vanish(e, d - 1, d);
    lemma_small_mod((d - 1) as nat, d as nat);
    assert(n - 1 == d * (e - 1) + (d - 1)) by (nonlinear_arith)
        requires
            n == d * e,
    ;
    lemma_mod_multiples_vanish(e - 1, d - 1, d);
    assert((n - 1) % d == d - 1);
    assert(n % 2 == 1);
    assert(d != 2);
    assert(pow(b, 2147483648) % n == n - 1);
    assert(pow(b, 2147483648) % (d * e) == n - 1);
    assert(pow(b, 2147483648) % d == d - 1);
    let f = power_residue(b, d);
    let range = set_int_range(0, 4294967296);
    let image = range.map(f);
    lemma_int_range(0, 4294967296);
    assert(injective_on(f, range)) by {
        assert forall|x1: int, x2: int|
            range.contains(x1) && range.contains(x2) && #[trigger] f(x1) == #[trigger] f(
                x2,
            ) implies x1 == x2 by {
            if x1 < x2 {
                lemma_powers_distinct(b, d, x1, x2);
            } else if x2 < x1 {
                lemma_powers_distinct(b, d, x2, x1);
            }
        }
    }
    lemma_map_size(range, image, f);
    lemma_int_range(0, d);
    assert(image.subset_of(set_int_range(0, d))) by {
        assert forall|v: int| image.contains(v) implies set_int_range(0, d).contains(v) by {
            let i = choose|i: int| range.contains(i) && f(i) == v;
            lemma_mod_bound(pow(b, i as nat), d);
        }
    }
    lemma_len_subset(image, set_int_range(0, d));
}

/// The default modulus `2^64 - 2^32 + 1` is prime.
pub proof fn lemma_default_prime_is_prime()
    ensures
        is_prime(DEFAULT_PRIME as int),
{
    let n = DEFAULT_PRIME as int;
    assert forall|d: int| 1 < d < n implies #[trigger] (n % d) != 0 by {
        if n % d == 0 {
            let e = n / d;
            lemma_fundamental_div_mod(n, d);
            assert(1 < e) by (nonlinear_arith)
                requires
                    n == d * e,
                    1 < d < n,
            ;
            lemma_mul_is_commutative(d, e);
            lemma_mod_multiples_basic(d, e);
            lemma_divisor_is_large(d);
            lemma_divisor_is_large(e);
            assert(d * e >= 4294967296 * 4294967296) by (nonlinear_arith)
                requires
                    d >= 4294967296,
                    e >= 4294967296,
            ;
        }
    }
}

} // verus!
