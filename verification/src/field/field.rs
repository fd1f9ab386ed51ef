//! The field descriptor and the arithmetic of its residues.
use vstd::prelude::*;
use vstd::arithmetic::div_mod::*;
use vstd::arithmetic::mul::*;
use vstd::arithmetic::power::*;
use vstd::arithmetic::power2::*;

use crate::error::Error;
use crate::field::arith::{
    be_value, coprime, gcd, inv_mod, is_prime, lemma_be_value_push, lemma_inv_mod_is,
    lemma_prime_coprime, pow_mod,
};
use crate::field::field_element::FieldElement;
use crate::field::primality::lemma_default_prime_is_prime;
use crate::field::{mul_mod, power, reduce, xgcd_field, DEFAULT_PRIME, MAX_MODULUS};

verus! {

/// A generator of the subgroup of order `2^32` of the default field.
pub const TWO_ADIC_ROOT: i128 = 1753635133440165772;

/// The order of the largest power-of-two subgroup of the default field.
pub const TWO_ADIC_ORDER: i128 = 4294967296;

/// The descriptor of the integers modulo `p`.
#[derive(Clone, Copy, Debug)]
pub struct Field {
    pub p: i128,
}

/// `n` is a power of two that divides the order `2^32`.
pub open spec fn supported_order(n: int) -> bool {
    exists|k: nat| k <= 32 && n == #[trigger] pow2(k)
}

/// The root of unity of order `n` that the default field hands out.
pub open spec fn root_of_order(n: int) -> int {
    pow_mod(TWO_ADIC_ROOT as int, (TWO_ADIC_ORDER as int / n) as nat, DEFAULT_PRIME as int)
}

proof fn lemma_halve_order(e: int, order: int)
    by (nonlinear_arith)
    requires
        order % 2 == 0,
    ensures
        (2 * e) * (order / 2) == e * order,
{
}

impl Field {
    /// The modulus is at least two and its residues multiply within 128 bits.
    pub open spec fn wf(&self) -> bool {
        2 <= self.p <= MAX_MODULUS
    }

    /// Whether the descriptor is well formed.
    pub fn is_valid(&self) -> (b: bool)
        ensures
            b == self.wf(),
    {
        2 <= self.p && self.p <= MAX_MODULUS
    }

    /// The field of the default prime.
    pub fn new() -> (f: Field)
        ensures
            f.p == DEFAULT_PRIME,
            f.wf(),
            is_prime(f.p as int),
    {
        proof {
            lemma_default_prime_is_prime();
        }
        Field { p: DEFAULT_PRIME }
    }

    /// The field of the integers modulo `p`.
    pub fn from(p: i128) -> (f: Field)
        ensures
            f.p == p,
    {
        Field { p }
    }

    /// The additive identity.
    pub fn zero(&self) -> (r: FieldElement)
        requires
            self.wf(),
        ensures
            r.wf(),
            r.field == *self,
            r.value == 0,
    {
        FieldElement { value: 0, field: *self }
    }

    /// The multiplicative identity.
    pub fn one(&self) -> (r: FieldElement)
        requires
            self.wf(),
        ensures
            r.wf(),
            r.field == *self,
            r.value == 1,
    {
        FieldElement { value: 1, field: *self }
    }

    /// The sum of two residues.
    pub fn add(&self, a: FieldElement, b: FieldElement) -> (r: FieldElement)
        requires
            self.wf(),
            a.wf(),
            b.wf(),
        ensures
            r.wf(),
            r.field == *self,
            r.value == (a.value + b.value) % (self.p as int),
    {
        proof {
            lemma_mod_bound(a.value + b.value, self.p as int);
        }
        FieldElement { value: (a.value + b.value) % self.p, field: *self }
    }

    /// The difference of two residues.
    pub fn sub(&self, a: FieldElement, b: FieldElement) -> (r: FieldElement)
        requires
            self.wf(),
            a.wf(),
            b.wf(),
        ensures
            r.wf(),
            r.field == *self,
            r.value == (a.value - b.value) % (self.p as int),
    {
        FieldElement { value: reduce(a.value - b.value, self.p), field: *self }
    }

    /// The product of two residues.
    pub fn mul(&self, a: FieldElement, b: FieldElement) -> (r: FieldElement)
        requires
            self.wf(),
            a.wf(),
            b.wf(),
        ensures
            r.wf(),
            r.field == *self,
            r.value == (a.value * b.value) % (self.p as int),
    {
        FieldElement { value: mul_mod(a.value, b.value, self.p), field: *self }
    }

    /// The additive inverse of a residue.
    pub fn negate(&self, a: FieldElement) -> (r: FieldElement)
        requires
            self.wf(),
            a.wf(),
        ensures
            r.wf(),
            r.field == *self,
            r.value == (-a.value) % (self.p as int),
    {
        FieldElement { value: reduce(-a.value, self.p), field: *self }
    }

    /// The multiplicative inverse of a residue, by the extended Euclidean
    /// algorithm. It exists exactly for the values coprime to the modulus,
    /// which in a prime field are all but zero.
    pub fn inverse(&self, a: FieldElement) -> (res: Result<FieldElement, Error>)
        requires
            self.wf(),
            a.wf(),
        ensures
            res is Ok <==> coprime(a.value as int, self.p as int),
            res is Ok ==> res->Ok_0.wf() && res->Ok_0.field == *self && (a.value
                * res->Ok_0.value) % (self.p as int) == 1 && res->Ok_0.value == inv_mod(
                a.value as int,
                self.p as int,
            ),
            res is Err ==> res->Err_0 == Error::NotInvertible,
            is_prime(self.p as int) && a.value % self.p != 0 ==> res is Ok,
            a.value % self.p == 0 ==> res is Err,
    {
        let (g, x, _t) = xgcd_field(a.value, self.p, self.p);
        proof {
            let p = self.p as int;
            let av = a.value as int;
            if is_prime(p) && av % p != 0 {
                // gcd(a, p) equals gcd(p, a % p) and its arguments commute here.
                lemma_coprime_reduced(av, p);
            }
            if av % p == 0 {
                lemma_zero_not_coprime(av, p);
            }
            if g == 1 {
                lemma_mod_multiples_vanish(_t as int, x * av, p);
                lemma_mul_is_commutative(x as int, av);
                lemma_mul_is_commutative(_t as int, p);
                lemma_small_mod(1, p as nat);
                assert((x * av + _t * p) % p == 1);
                assert((av * x) % p == 1);
                lemma_inv_mod_is(av, x as int, p);
            }
        }
        if g == 1 {
            Ok(FieldElement { value: x, field: *self })
        } else {
            Err(Error::NotInvertible)
        }
    }

    /// The quotient `a / b`, which is `a` times the inverse of `b`.
    pub fn div(&self, a: FieldElement, b: FieldElement) -> (res: Result<FieldElement, Error>)
        requires
            self.wf(),
            a.wf(),
            b.wf(),
        ensures
            res is Ok <==> coprime(b.value as int, self.p as int),
            res is Ok ==> res->Ok_0.wf() && res->Ok_0.field == *self && (res->Ok_0.value
                * b.value) % (self.p as int) == a.value % self.p && res->Ok_0.value == (a.value
                * inv_mod(b.value as int, self.p as int)) % (self.p as int),
            res is Err ==> res->Err_0 == Error::NotInvertible,
            is_prime(self.p as int) && b.value % self.p != 0 ==> res is Ok,
    {
        match self.inverse(b) {
            Ok(inv) => {
                let q: i128 = mul_mod(a.value, inv.value, self.p);
                proof {
                    let p = self.p as int;
                    let av = a.value as int;
                    let bv = b.value as int;
                    let iv = inv.value as int;
                    lemma_mul_mod_noop_left(av * iv, bv, p);
                    lemma_mul_is_associative(av, iv, bv);
                    lemma_mul_is_commutative(iv, bv);
                    lemma_mul_mod_noop_right(av, bv * iv, p);
                    lemma_mul_basics(av);
                }
                Ok(FieldElement { value: q, field: *self })
            },
            Err(e) => Err(e),
        }
    }

    /// `a` to the power `b` in this field.
    pub fn pow(&self, a: i128, b: i128) -> (r: FieldElement)
        requires
            self.wf(),
            0 <= b,
        ensures
            r.wf(),
            r.field == *self,
            r.value == pow_mod(a as int, b as nat, self.p as int),
    {
        FieldElement { value: power(a, b as u128, self.p), field: *self }
    }

    /// The residue `a` to the power `b`.
    pub fn pow_i32(&self, a: FieldElement, b: i32) -> (r: FieldElement)
        requires
            self.wf(),
            a.wf(),
            0 <= b,
        ensures
            r.wf(),
            r.field == *self,
            r.value == pow_mod(a.value as int, b as nat, self.p as int),
    {
        FieldElement { value: power(a.value, b as u128, self.p), field: *self }
    }

    /// A primitive `n`-th root of unity of the default field, for `n` a
    /// power of two up to `2^32`: the generator of the largest such
    /// subgroup, squared until its order is `n`.
    pub fn primitive_nth_root(&self, n: i128) -> (res: Result<FieldElement, Error>)
        ensures
            res is Ok <==> self.p == DEFAULT_PRIME && supported_order(n as int),
            res is Ok ==> res->Ok_0.wf() && res->Ok_0.field == *self && res->Ok_0.value
                == root_of_order(n as int),
            res is Err ==> res->Err_0 == Error::UnsupportedOrder,
    {
        proof {
            lemma2_to64();
            lemma_pow2_pos(0);
            assert forall|k: nat| #[trigger] pow2(k) >= 1 by {
                lemma_pow2_pos(k);
            }
        }
        if self.p != DEFAULT_PRIME || n < 1 {
            return Err(Error::UnsupportedOrder);
        }
        let mut root: i128 = TWO_ADIC_ROOT;
        let mut order: i128 = TWO_ADIC_ORDER;
        let ghost mut k: nat = 32;
        let ghost mut e: nat = 1;
        proof {
            lemma_pow1(TWO_ADIC_ROOT as int);
        }
        while order > n
            invariant
                self.p == DEFAULT_PRIME,
                1 <= n,
                k <= 32,
                order == pow2(k),
                e * order == TWO_ADIC_ORDER,
                e >= 1,
                0 <= root < DEFAULT_PRIME,
                root == pow_mod(TWO_ADIC_ROOT as int, e, DEFAULT_PRIME as int),
                forall|j: nat| k < j <= 32 ==> n != #[trigger] pow2(j),
            decreases order,
        {
            proof {
                if k == 0 {
                    lemma2_to64();
                }
                lemma_pow2_unfold(k);
                lemma_halve_order(e as int, order as int);
                let g = TWO_ADIC_ROOT as int;
                let p = DEFAULT_PRIME as int;
                lemma_pow_adds(g, e, e);
                lemma_mul_mod_noop_general(pow(g, e), pow(g, e), p);
            }
            root = mul_mod(root, root, self.p);
            order = order / 2;
            proof {
                k = (k - 1) as nat;
                e = 2 * e;
            }
        }
        if order == n {
            proof {
                lemma_div_by_multiple(e as int, order as int);
            }
            Ok(FieldElement { value: root, field: *self })
        } else {
            proof {
                assert forall|j: nat| j <= 32 implies n != #[trigger] pow2(j) by {
                    if j < k {
                        lemma_pow2_strictly_increases(j, k);
                    }
                }
            }
            Err(Error::UnsupportedOrder)
        }
    }

    /// The residue of the number that `byte_array` spells, most significant
    /// byte first.
    pub fn sample(&self, byte_array: Vec<u8>) -> (r: FieldElement)
        requires
            self.wf(),
        ensures
            r.wf(),
            r.field == *self,
            r.value == be_value(byte_array@) % (self.p as nat),
    {
        let mut acc: i128 = 0;
        let mut i: usize = 0;
        assert(byte_array@.take(0) =~= Seq::<u8>::empty());
        while i < byte_array.len()
            invariant
                self.wf(),
                i <= byte_array.len(),
                0 <= acc < self.p,
                acc == be_value(byte_array@.take(i as int)) % (self.p as nat),
            decreases byte_array.len() - i,
        {
            let b: u8 = byte_array[i];
            proof {
                let p = self.p as int;
                let prefix = byte_array@.take(i as int);
                assert(byte_array@.take(i + 1) =~= prefix.push(b));
                lemma_be_value_push(prefix, b);
                lemma_mul_mod_noop_left(be_value(prefix) as int, 256, p);
                lemma_add_mod_noop((be_value(prefix) * 256) as int, b as int, p);
                lemma_add_mod_noop(acc * 256, b as int, p);
                lemma_mod_bound(acc * 256 + b, p);
            }
            acc = (acc * 256 + b as i128) % self.p;
            i = i + 1;
        }
        assert(byte_array@.take(i as int) =~= byte_array@);
        FieldElement { value: acc, field: *self }
    }
}

proof fn lemma_coprime_reduced(a: int, p: int)
    requires
        is_prime(p),
        0 <= a,
        a % p != 0,
    ensures
        coprime(a, p),
{
    lemma_mod_bound(a, p);
    lemma_prime_coprime(a % p, p);
    lemma_small_mod((a % p) as nat, p as nat);
    // gcd(a, p) = gcd(p, a % p) = gcd(a % p, p % (a % p)) = gcd(a % p, p)
    assert(gcd(a as nat, p as nat) == gcd(p as nat, (a % p) as nat));
    assert(gcd((a % p) as nat, p as nat) == gcd(p as nat, (a % p) as nat));
}

proof fn lemma_zero_not_coprime(a: int, p: int)
    requires
        p >= 2,
        0 <= a,
        a % p == 0,
    ensures
        !coprime(a, p),
{
    assert(gcd(a as nat, p as nat) == gcd(p as nat, 0));
}

impl Default for Field {
    fn default() -> (f: Field)
        ensures
            f.p == DEFAULT_PRIME,
            f.wf(),
            is_prime(f.p as int),
    {
        Field::new()
    }
}

} // verus!
