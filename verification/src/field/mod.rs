//! Prime-field arithmetic: the modulus, the extended Euclidean algorithm and
//! the number theory that the field operations rest on.
use vstd::prelude::*;
use vstd::arithmetic::div_mod::*;
use vstd::arithmetic::mul::*;
use vstd::arithmetic::power::*;

pub mod arith;
pub mod field;
pub mod field_element;
pub mod orders;
pub mod primality;
pub mod roots;

use crate::field::arith::{bezout, gcd, lemma_gcd_step, lemma_pow_step, pow_mod};

verus! {

/// The Goldilocks prime `2^64 - 2^32 + 1`, the default modulus.
pub const DEFAULT_PRIME: i128 = 18446744069414584321;

/// The largest modulus whose products of residues fit in 128 bits.
pub const MAX_MODULUS: i128 = 18446744073709551615;

/// `x` reduced into `[0, p)`, for any sign of `x`.
pub fn reduce(x: i128, p: i128) -> (r: i128)
    requires
        p > 0,
    ensures
        r == x % p,
        0 <= r < p,
{
    proof {
        lemma_mod_bound(x as int, p as int);
    }
    if x >= 0 {
        x % p
    } else {
        let k: i128 = -(x + 1);
        let m: i128 = k % p;
        proof {
            lemma_fundamental_div_mod(k as int, p as int);
            lemma_mod_bound(k as int, p as int);
            let q = k as int / p as int;
            assert(x == (-(q + 1)) * p + (p - 1 - m)) by (nonlinear_arith)
                requires
                    k == p * q + m,
                    x == -(k + 1),
            ;
            lemma_fundamental_div_mod_converse(x as int, p as int, -(q + 1), p - 1 - m);
        }
        p - 1 - m
    }
}

/// The product of two residues, reduced modulo `p`.
pub fn mul_mod(a: i128, b: i128, p: i128) -> (r: i128)
    requires
        0 <= a <= MAX_MODULUS,
        0 <= b <= MAX_MODULUS,
        0 < p <= MAX_MODULUS,
    ensures
        r == (a * b) % (p as int),
        0 <= r < p,
{
    proof {
        assert(0 <= a * b <= 0xffff_ffff_ffff_ffff * 0xffff_ffff_ffff_ffff) by (nonlinear_arith)
            requires
                0 <= a <= 0xffff_ffff_ffff_ffff,
                0 <= b <= 0xffff_ffff_ffff_ffff,
        ;
        lemma_mod_bound(a * b, p as int);
    }
    let wide: u128 = (a as u128) * (b as u128);
    (wide % (p as u128)) as i128
}

/// `base` to the power `exp` modulo `p`, by squaring and multiplying.
pub fn power(base: i128, exp: u128, p: i128) -> (r: i128)
    requires
        0 < p <= MAX_MODULUS,
    ensures
        r == pow_mod(base as int, exp as nat, p as int),
        0 <= r < p,
{
    let mut acc: i128 = 1 % p;
    let mut b: i128 = reduce(base, p);
    let mut e: u128 = exp;
    proof {
        lemma_pow_mod_noop(base as int, exp as nat, p as int);
        lemma_mul_mod_noop_general(1, pow(b as int, e as nat), p as int);
        lemma_mul_basics(pow(b as int, e as nat));
        lemma_mod_twice(pow(b as int, e as nat), p as int);
    }
    while e > 0
        invariant
            0 < p <= MAX_MODULUS,
            0 <= acc < p,
            0 <= b < p,
            (acc * pow(b as int, e as nat)) % (p as int) == pow(base as int, exp as nat) % (p as int),
        decreases e,
    {
        proof {
            lemma_pow_step(acc as int, b as int, e as nat, p as int);
        }
        if e % 2 == 1 {
            acc = mul_mod(acc, b, p);
        }
        b = mul_mod(b, b, p);
        e = e / 2;
    }
    proof {
        lemma_pow0(b as int);
        lemma_small_mod(acc as nat, p as nat);
    }
    acc
}

/// The larger of `x` and one: the bound on a Bezout coefficient.
pub open spec fn at_least_one(x: int) -> int {
    if x < 1 { 1 } else { x }
}

proof fn lemma_bezout_step(x: int, y: int, r0: int, r1: int, q: int, total: int)
    by (nonlinear_arith)
    requires
        x * r1 + y * r0 == total,
        0 <= x,
        0 <= y,
        0 <= q,
        1 <= r1,
        0 <= r0 - q * r1,
    ensures
        y * (r0 - q * r1) + (x + q * y) * r1 == total,
        0 <= q * y <= x + q * y <= total,
{
}

/// What is left of the recursion for `(a, b)` at the pair `(r0, r1)`:
/// the coefficients for `(a, b)` are those for `(r0, r1)` applied to the
/// coefficients that stand for `r0` and `r1`.
proof fn lemma_bezout_unfold(r0: nat, r1: nat, s0: int, s1: int, q: int)
    requires
        r1 != 0,
        q == r0 / r1,
    ensures
        bezout(r0, r1).0 * s0 + bezout(r0, r1).1 * s1 == bezout(r1, r0 % r1).0 * s1 + bezout(
            r1,
            r0 % r1,
        ).1 * (s0 - q * s1),
{
    let u = bezout(r1, r0 % r1).0;
    let v = bezout(r1, r0 % r1).1;
    assert(v * s0 + (u - q * v) * s1 == u * s1 + v * (s0 - q * s1)) by (nonlinear_arith);
}

/// Extended Euclidean algorithm on non-negative integers: returns
/// `(g, s, t)` with `g = gcd(a, b)` and `s * a + t * b = g`, where `s` and
/// `t` are the coefficients that Euclid's recursion gives.
pub fn xgcd(a: i128, b: i128) -> (res: (i128, i128, i128))
    requires
        0 <= a,
        0 <= b,
    ensures
        res.0 == gcd(a as nat, b as nat),
        res.1 * a + res.2 * b == res.0,
        (res.1 as int, res.2 as int) == bezout(a as nat, b as nat),
        -at_least_one(b as int) <= res.1 <= at_least_one(b as int),
        -at_least_one(a as int) <= res.2 <= at_least_one(a as int),
{
    let mut s0: i128 = 1;
    let mut s1: i128 = 0;
    let mut t0: i128 = 0;
    let mut t1: i128 = 1;
    let mut r0: i128 = a;
    let mut r1: i128 = b;
    let ghost mut pos: bool = true;
    let ghost mut xs: int = 1;
    let ghost mut ys: int = 0;
    let ghost mut xt: int = 0;
    let ghost mut yt: int = 1;

    while r1 != 0
        invariant
            0 <= a,
            0 <= b,
            0 <= r0,
            0 <= r1,
            gcd(r0 as nat, r1 as nat) == gcd(a as nat, b as nat),
            bezout(r0 as nat, r1 as nat).0 * s0 + bezout(r0 as nat, r1 as nat).1 * s1 == bezout(
                a as nat,
                b as nat,
            ).0,
            bezout(r0 as nat, r1 as nat).0 * t0 + bezout(r0 as nat, r1 as nat).1 * t1 == bezout(
                a as nat,
                b as nat,
            ).1,
            r0 == s0 * a + t0 * b,
            r1 == s1 * a + t1 * b,
            0 <= xs <= at_least_one(b as int),
            0 <= ys <= b,
            0 <= xt <= at_least_one(a as int),
            0 <= yt <= at_least_one(a as int),
            pos ==> s0 == xs && s1 == -ys && t0 == -xt && t1 == yt,
            !pos ==> s0 == -xs && s1 == ys && t0 == xt && t1 == -yt,
            xs * r1 + ys * r0 == b,
            xt * r1 + yt * r0 == a,
        decreases r1,
    {
        let q: i128 = r0 / r1;
        proof {
            lemma_fundamental_div_mod(r0 as int, r1 as int);
            lemma_mul_is_commutative(r1 as int, q as int);
            lemma_div_pos_is_pos(r0 as int, r1 as int);
            lemma_mod_bound(r0 as int, r1 as int);
            lemma_gcd_step(r0 as nat, r1 as nat);
            lemma_bezout_unfold(r0 as nat, r1 as nat, s0 as int, s1 as int, q as int);
            lemma_bezout_unfold(r0 as nat, r1 as nat, t0 as int, t1 as int, q as int);
            lemma_bezout_step(xs, ys, r0 as int, r1 as int, q as int, b as int);
            lemma_bezout_step(xt, yt, r0 as int, r1 as int, q as int, a as int);
            lemma_mul_is_distributive_add_other_way(a as int, s0 as int, -(q * s1));
            lemma_mul_is_distributive_add_other_way(b as int, t0 as int, -(q * t1));
            lemma_mul_is_associative(q as int, s1 as int, a as int);
            lemma_mul_is_associative(q as int, t1 as int, b as int);
            lemma_mul_is_distributive_add(q as int, s1 * a, t1 * b);
            lemma_mul_unary_negation(q * s1, a as int);
            lemma_mul_unary_negation(q * t1, b as int);
            lemma_mul_unary_negation(q as int, ys);
            lemma_mul_unary_negation(q as int, yt);
        }
        let r2: i128 = r0 - q * r1;
        let s2: i128 = s0 - q * s1;
        let t2: i128 = t0 - q * t1;
        proof {
            let nxs = ys;
            let nys = xs + q * ys;
            let nxt = yt;
            let nyt = xt + q * yt;
            xs = nxs;
            ys = nys;
            xt = nxt;
            yt = nyt;
            pos = !pos;
        }
        r0 = r1;
        r1 = r2;
        s0 = s1;
        s1 = s2;
        t0 = t1;
        t1 = t2;
    }
    proof {
        lemma_mul_basics(s0 as int);
        lemma_mul_basics(s1 as int);
        lemma_mul_basics(t0 as int);
        lemma_mul_basics(t1 as int);
        assert(bezout(r0 as nat, 0) == (1int, 0int));
    }
    (r0, s0, t0)
}

/// The extended Euclidean algorithm with both Bezout coefficients reduced
/// into `[0, p)`: the identity then holds modulo `p`.
pub fn xgcd_field(a: i128, b: i128, p: i128) -> (res: (i128, i128, i128))
    requires
        0 <= a,
        0 <= b,
        0 < p,
    ensures
        res.0 == gcd(a as nat, b as nat),
        0 <= res.1 < p,
        0 <= res.2 < p,
        (res.1 * a + res.2 * b) % (p as int) == res.0 % p,
{
    let (g, s, t) = xgcd(a, b);
    let sp: i128 = reduce(s, p);
    let tp: i128 = reduce(t, p);
    proof {
        lemma_mul_mod_noop_left(s as int, a as int, p as int);
        lemma_mul_mod_noop_left(t as int, b as int, p as int);
        lemma_add_mod_noop(s * a, t * b, p as int);
        lemma_add_mod_noop(sp * a, tp * b, p as int);
    }
    (g, sp, tp)
}

} // verus!
