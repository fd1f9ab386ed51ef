//! A residue together with the field it lives in, and its operators.
use vstd::prelude::*;
use vstd::std_specs::cmp::PartialEqSpecImpl;
use vstd::std_specs::ops::{
    AddSpecImpl, BitXorSpecImpl, DivSpecImpl, MulSpecImpl, NegSpecImpl, SubSpecImpl,
};

use crate::bytes::{be_bytes, be_seq, lemma_byte_range_values};
use crate::error::Error;
use crate::field::arith::{
    be_value, coprime, inv_mod, is_inverse, is_prime, lemma_inverse_unique, pow_mod,
};
use crate::field::field::Field;
use crate::field::{power, reduce};

verus! {

/// A residue class modulo the prime of its field, held as the
/// representative in `[0, p)`.
#[derive(Clone, Copy, Debug)]
pub struct FieldElement {
    pub value: i128,
    pub field: Field,
}

impl FieldElement {
    /// The field is well formed and the value is reduced.
    pub open spec fn wf(&self) -> bool {
        self.field.wf() && 0 <= self.value < self.field.p
    }

    /// Whether the element is well formed.
    pub fn is_valid(&self) -> (b: bool)
        ensures
            b == self.wf(),
    {
        self.field.is_valid() && 0 <= self.value && self.value < self.field.p
    }

    /// The residue of `value` in `field`.
    pub fn from(value: i128, field: &Field) -> (r: FieldElement)
        requires
            field.wf(),
        ensures
            r.wf(),
            r.field == *field,
            r.value == value % field.p,
    {
        FieldElement { value: reduce(value, field.p), field: *field }
    }

    /// Whether this is the additive identity.
    pub fn is_zero(&self) -> (b: bool)
        ensures
            b == (self.value == 0),
    {
        self.value == 0
    }

    /// This residue to the power `exponent`.
    pub fn pow(&self, exponent: u32) -> (r: FieldElement)
        requires
            self.wf(),
        ensures
            r.wf(),
            r.field == self.field,
            r.value == pow_mod(self.value as int, exponent as nat, self.field.p as int),
    {
        FieldElement { value: power(self.value, exponent as u128, self.field.p), field: self.field }
    }

    /// The sixteen bytes that spell the value, most significant first.
    pub fn to_bytes(&self) -> (out: Vec<u8>)
        requires
            self.wf(),
        ensures
            out@ == be_seq(self.value as nat, 16),
            out@.len() == 16,
            be_value(out@) == self.value,
    {
        proof {
            lemma_byte_range_values();
        }
        be_bytes(self.value as u128, 16)
    }

    /// The sixteen bytes that spell the value, most significant first.
    pub fn to_be_bytes(&self) -> (out: Vec<u8>)
        requires
            self.wf(),
        ensures
            out@ == be_seq(self.value as nat, 16),
            out@.len() == 16,
            be_value(out@) == self.value,
    {
        self.to_bytes()
    }

    /// The multiplicative inverse, which every residue coprime to the
    /// modulus has.
    pub fn inverse(&self) -> (res: Result<FieldElement, Error>)
        requires
            self.wf(),
        ensures
            res is Ok <==> coprime(self.value as int, self.field.p as int),
            res is Ok ==> res->Ok_0.wf() && res->Ok_0.field == self.field && (self.value
                * res->Ok_0.value) % (self.field.p as int) == 1 && res->Ok_0.value == inv_mod(
                self.value as int,
                self.field.p as int,
            ),
            res is Err ==> res->Err_0 == Error::NotInvertible,
            is_prime(self.field.p as int) && self.value != 0 ==> res is Ok,
    {
        proof {
            vstd::arithmetic::div_mod::lemma_small_mod(self.value as nat, self.field.p as nat);
        }
        self.field.inverse(*self)
    }
}

impl PartialEq for FieldElement {
    fn eq(&self, other: &Self) -> (r: bool) {
        self.value == other.value
    }
}

impl PartialEqSpecImpl for FieldElement {
    open spec fn obeys_eq_spec() -> bool {
        true
    }

    open spec fn eq_spec(&self, other: &Self) -> bool {
        self.value == other.value
    }
}

impl core::ops::Add for FieldElement {
    type Output = FieldElement;

    fn add(self, other: FieldElement) -> (r: FieldElement) {
        self.field.add(self, other)
    }
}

impl AddSpecImpl for FieldElement {
    open spec fn obeys_add_spec() -> bool {
        true
    }

    open spec fn add_req(self, other: FieldElement) -> bool {
        self.wf() && other.wf()
    }

    open spec fn add_spec(self, other: FieldElement) -> FieldElement {
        FieldElement {
            value: ((self.value + other.value) % (self.field.p as int)) as i128,
            field: self.field,
        }
    }
}

impl core::ops::Sub for FieldElement {
    type Output = FieldElement;

    fn sub(self, other: FieldElement) -> (r: FieldElement) {
        self.field.sub(self, other)
    }
}

impl SubSpecImpl for FieldElement {
    open spec fn obeys_sub_spec() -> bool {
        true
    }

    open spec fn sub_req(self, other: FieldElement) -> bool {
        self.wf() && other.wf()
    }

    open spec fn sub_spec(self, other: FieldElement) -> FieldElement {
        FieldElement {
            value: ((self.value - other.value) % (self.field.p as int)) as i128,
            field: self.field,
        }
    }
}

impl core::ops::Mul for FieldElement {
    type Output = FieldElement;

    fn mul(self, other: FieldElement) -> (r: FieldElement) {
        self.field.mul(self, other)
    }
}

impl MulSpecImpl for FieldElement {
    open spec fn obeys_mul_spec() -> bool {
        true
    }

    open spec fn mul_req(self, other: FieldElement) -> bool {
        self.wf() && other.wf()
    }

    open spec fn mul_spec(self, other: FieldElement) -> FieldElement {
        FieldElement {
            value: ((self.value * other.value) % (self.field.p as int)) as i128,
            field: self.field,
        }
    }
}

impl core::ops::Neg for FieldElement {
    type Output = FieldElement;

    fn neg(self) -> (r: FieldElement) {
        self.field.negate(self)
    }
}

impl NegSpecImpl for FieldElement {
    open spec fn obeys_neg_spec() -> bool {
        true
    }

    open spec fn neg_req(self) -> bool {
        self.wf()
    }

    open spec fn neg_spec(self) -> FieldElement {
        FieldElement { value: ((-self.value) % (self.field.p as int)) as i128, field: self.field }
    }
}

impl core::ops::Div for FieldElement {
    type Output = FieldElement;

    /// The quotient by a residue that has an inverse.
    fn div(self, other: FieldElement) -> (r: FieldElement) {
        match self.field.inverse(other) {
            Ok(inv) => {
                proof {
                    let p = self.field.p as int;
                    assert(is_inverse(other.value as int, inv.value as int, p));
                    lemma_inverse_unique(
                        other.value as int,
                        inv.value as int,
                        inv_mod(other.value as int, p),
                        p,
                    );
                }
                self.field.mul(self, inv)
            },
            Err(_) => self,
        }
    }
}

impl DivSpecImpl for FieldElement {
    open spec fn obeys_div_spec() -> bool {
        true
    }

    open spec fn div_req(self, other: FieldElement) -> bool {
        self.wf() && other.wf() && coprime(other.value as int, self.field.p as int)
    }

    open spec fn div_spec(self, other: FieldElement) -> FieldElement {
        FieldElement {
            value: ((self.value * inv_mod(other.value as int, self.field.p as int)) % (
            self.field.p as int)) as i128,
            field: self.field,
        }
    }
}

impl core::ops::BitXor for FieldElement {
    type Output = FieldElement;

    /// This residue to the power of the other's value.
    fn bitxor(self, other: FieldElement) -> (r: FieldElement) {
        self.field.pow(self.value, other.value)
    }
}

impl BitXorSpecImpl for FieldElement {
    open spec fn obeys_bitxor_spec() -> bool {
        true
    }

    open spec fn bitxor_req(self, other: FieldElement) -> bool {
        self.wf() && other.wf()
    }

    open spec fn bitxor_spec(self, other: FieldElement) -> FieldElement {
        FieldElement {
            value: pow_mod(self.value as int, other.value as nat, self.field.p as int) as i128,
            field: self.field,
        }
    }
}

} // verus!
