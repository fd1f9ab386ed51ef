//! Greatest common divisors, primality, modular powers and big-endian byte
//! strings as specifications, with the lemmas that the field operations use.
use vstd::prelude::*;
use vstd::arithmetic::div_mod::*;
use vstd::arithmetic::mul::*;
use vstd::arithmetic::power::*;

verus! {

/// The greatest common divisor, by Euclid's recursion; `gcd(a, 0) = a`.
pub open spec fn gcd(a: nat, b: nat) -> nat
    decreases b,
{
    if b == 0 {
        a
    } else {
        gcd(b, a % b)
    }
}

/// `a` and `p` have no common divisor but one.
pub open spec fn coprime(a: int, p: int) -> bool {
    gcd(a as nat, p as nat) == 1
}

/// `p` is at least two and no number strictly between one and `p` divides it.
pub open spec fn is_prime(p: int) -> bool {
    p >= 2 && forall|d: int| 1 < d < p ==> #[trigger] (p % d) != 0
}

/// The inverse of `a` modulo `p` in `[0, p)`, where `a` has one.
pub open spec fn inv_mod(a: int, p: int) -> int {
    choose|x: int| is_inverse(a, x, p)
}

/// `x` lies in `[0, p)` and `a * x` leaves the remainder one.
pub open spec fn is_inverse(a: int, x: int, p: int) -> bool {
    0 <= x < p && (a * x) % p == 1
}

/// `base` to the power `exp`, reduced modulo `p`.
pub open spec fn pow_mod(base: int, exp: nat, p: int) -> int {
    pow(base, exp) % p
}

/// The number that a byte string spells, most significant byte first.
pub open spec fn be_value(bytes: Seq<u8>) -> nat
    decreases bytes.len(),
{
    if bytes.len() == 0 {
        0
    } else {
        be_value(bytes.drop_last()) * 256 + bytes.last() as nat
    }
}

/// One step of Euclid's recursion.
pub proof fn lemma_gcd_step(a: nat, b: nat)
    requires
        b != 0,
    ensures
        gcd(a, b) == gcd(b, a % b),
{
}

/// A divisor of `x` and of `y` divides `x * k + y`.
pub proof fn lemma_divides_combination(g: int, x: int, k: int, y: int)
    requires
        g > 0,
        x % g == 0,
        y % g == 0,
    ensures
        (x * k + y) % g == 0,
{
    lemma_mul_mod_noop_left(x, k, g);
    lemma_add_mod_noop(x * k, y, g);
    lemma_mul_basics(k);
    lemma_small_mod(0, g as nat);
}

/// The greatest common divisor is positive unless both arguments are zero,
/// and divides both.
pub proof fn lemma_gcd_divides(a: nat, b: nat)
    requires
        a > 0 || b > 0,
    ensures
        gcd(a, b) > 0,
        a % gcd(a, b) == 0,
        b % gcd(a, b) == 0,
    decreases b,
{
    if b == 0 {
        lemma_mod_self_0(a as int);
        lemma_small_mod(0, a);
    } else {
        lemma_gcd_divides(b, a % b);
        let g = gcd(a, b) as int;
        lemma_fundamental_div_mod(a as int, b as int);
        lemma_divides_combination(g, b as int, (a / b) as int, (a % b) as int);
    }
}

/// Every non-zero residue of a prime modulus is coprime to it.
pub proof fn lemma_prime_coprime(a: int, p: int)
    requires
        is_prime(p),
        0 < a < p,
    ensures
        coprime(a, p),
{
    lemma_gcd_divides(a as nat, p as nat);
    let g = gcd(a as nat, p as nat) as int;
    if g > a {
        lemma_small_mod(a as nat, g as nat);
    }
    if g > 1 {
        assert(p % g != 0);
    }
}

/// Two inverses of one number modulo `p` that lie in `[0, p)` are equal.
pub proof fn lemma_inverse_unique(a: int, x: int, y: int, p: int)
    requires
        p >= 2,
        is_inverse(a, x, p),
        is_inverse(a, y, p),
    ensures
        x == y,
{
    // x = x * (a * y) = (x * a) * y = y, all modulo p
    lemma_small_mod(x as nat, p as nat);
    lemma_small_mod(y as nat, p as nat);
    lemma_mul_mod_noop_right(x, a * y, p);
    lemma_mul_mod_noop_left(x * a, y, p);
    lemma_mul_is_associative(x, a, y);
    lemma_mul_is_commutative(x, a);
    lemma_mul_basics(x);
    lemma_mul_basics(y);
}

/// A number with a known inverse in `[0, p)` has that inverse as `inv_mod`.
pub proof fn lemma_inv_mod_is(a: int, x: int, p: int)
    requires
        p >= 2,
        is_inverse(a, x, p),
    ensures
        inv_mod(a, p) == x,
{
    lemma_inverse_unique(a, x, inv_mod(a, p), p);
}

/// The coefficients of Bezout's identity that Euclid's recursion gives:
/// `(1, 0)` for `b = 0`, else `(t, s - (a / b) * t)` where `(s, t)` are the
/// coefficients for `b` and `a % b`.
pub open spec fn bezout(a: nat, b: nat) -> (int, int)
    decreases b,
{
    if b == 0 {
        (1, 0)
    } else {
        let st = bezout(b, a % b);
        (st.1, st.0 - (a / b) * st.1)
    }
}

/// Bezout's identity: the greatest common divisor is the combination of
/// the two numbers with the coefficients of Euclid's recursion.
pub proof fn lemma_bezout(a: nat, b: nat) -> (st: (int, int))
    ensures
        st == bezout(a, b),
        st.0 * a + st.1 * b == gcd(a, b),
    decreases b,
{
    if b == 0 {
        (1, 0)
    } else {
        let (s, t) = lemma_bezout(b, a % b);
        let q = (a / b) as int;
        lemma_fundamental_div_mod(a as int, b as int);
        assert(t * a + (s - q * t) * b == s * b + t * (a % b)) by (nonlinear_arith)
            requires
                a == b * q + a % b,
        ;
        (t, s - q * t)
    }
}

/// A number coprime to `p` has an inverse modulo `p`, and `inv_mod` is it.
pub proof fn lemma_inverse_exists(a: int, p: int)
    requires
        p >= 2,
        a >= 0,
        coprime(a, p),
    ensures
        is_inverse(a, inv_mod(a, p), p),
{
    let (s, t) = lemma_bezout(a as nat, p as nat);
    let x = s % p;
    lemma_mod_bound(s, p);
    lemma_mul_is_commutative(s, a);
    lemma_mul_is_commutative(t, p);
    lemma_mod_multiples_vanish(t, a * s, p);
    lemma_small_mod(1, p as nat);
    lemma_mul_mod_noop_right(a, s, p);
    assert(is_inverse(a, x, p));
}

/// Every non-zero residue of a prime field has an inverse: the product of
/// `a` and `inv_mod(a, p)` is one.
pub proof fn lemma_prime_field_inverse(a: int, p: int)
    requires
        is_prime(p),
        0 < a < p,
    ensures
        0 <= inv_mod(a, p) < p,
        (a * inv_mod(a, p)) % p == 1,
{
    lemma_prime_coprime(a, p);
    lemma_inverse_exists(a, p);
}

/// In a prime field a product is zero only if a factor is: a multiple of
/// `p` that has a factor which is none leaves the other factor a multiple.
pub proof fn lemma_cancel_factor(a: int, b: int, p: int)
    requires
        is_prime(p),
        (a * b) % p == 0,
        b % p != 0,
    ensures
        a % p == 0,
{
    let r = b % p;
    lemma_mod_bound(b, p);
    lemma_prime_coprime(r, p);
    lemma_inverse_exists(r, p);
    let x = inv_mod(r, p);
    // a = a * (r * x) = (a * b) * x = 0, all modulo p
    lemma_mod_twice(b, p);
    lemma_mul_mod_noop_right(a, b, p);
    assert((a * r) % p == 0);
    lemma_mul_mod_noop_left(a * r, x, p);
    lemma_mul_basics(x);
    lemma_small_mod(0, p as nat);
    lemma_mul_is_associative(a, r, x);
    lemma_mul_mod_noop_right(a, r * x, p);
    lemma_mul_basics(a);
}

/// One round of square-and-multiply keeps the product `acc * base^exp`.
pub proof fn lemma_pow_step(acc: int, b: int, e: nat, p: int)
    requires
        p > 0,
        e > 0,
    ensures
        e % 2 == 1 ==> (((acc * b) % p) * pow((b * b) % p, e / 2)) % p == (acc * pow(b, e)) % p,
        e % 2 == 0 ==> (acc * pow((b * b) % p, e / 2)) % p == (acc * pow(b, e)) % p,
{
    let k = e / 2;
    let bb = b * b;
    lemma_square_is_pow2(b);
    lemma_pow_multiplies(b, 2, k);
    assert(pow(bb, k) == pow(b, 2 * k));
    lemma_pow_mod_noop(bb, k, p);
    if e % 2 == 1 {
        lemma_pow_adds(b, 1, 2 * k);
        lemma_pow1(b);
        assert(pow(b, e) == b * pow(bb, k));
        lemma_mul_mod_noop_general((acc * b) % p, pow(bb % p, k), p);
        lemma_mul_mod_noop_general(acc * b, pow(bb, k), p);
        lemma_mod_twice(acc * b, p);
        lemma_mul_is_associative(acc, b, pow(bb, k));
    } else {
        assert(pow(b, e) == pow(bb, k));
        lemma_mul_mod_noop_general(acc, pow(bb % p, k), p);
        lemma_mul_mod_noop_general(acc, pow(bb, k), p);
    }
}

/// Appending a byte multiplies the spelled number by 256 and adds the byte.
pub proof fn lemma_be_value_push(bytes: Seq<u8>, b: u8)
    ensures
        be_value(bytes.push(b)) == be_value(bytes) * 256 + b as nat,
{
    assert(bytes.push(b).drop_last() =~= bytes);
}

} // verus!
