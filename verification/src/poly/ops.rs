//! The operators of polynomials: `+`, `-`, `*`, `/`, `%` and `==`.
//!
//! A polynomial cannot be written down in a specification, so what an
//! arithmetic operator returns is stated over the coefficients, in the
//! `ensures` of its method, and not as a value.
use vstd::prelude::*;
use vstd::std_specs::cmp::PartialEqSpecImpl;
use vstd::std_specs::ops::{AddSpecImpl, DivSpecImpl, MulSpecImpl, RemSpecImpl, SubSpecImpl};

use crate::field::arith::coprime;
use crate::poly::algebra::{coeff, degree, poly_add, poly_mul, poly_sub, same_poly};
use crate::poly::uni::Uni;

verus! {

/// The two polynomials can be combined.
pub open spec fn combinable(a: Uni, b: Uni) -> bool {
    a.wf() && b.wf() && a.agrees(&b)
}

/// The divisor is not zero and its leading coefficient has an inverse.
pub open spec fn divisible(a: Uni, b: Uni) -> bool {
    combinable(a, b) && degree(b.values()) >= 0 && coprime(
        coeff(b.values(), degree(b.values())),
        b.modulus(),
    )
}

/// `q` and `r` are the quotient and the remainder of `a` by `d`: `q * d + r`
/// spells `a` and `r` has a smaller degree than `d`.
pub open spec fn is_division(a: Seq<int>, d: Seq<int>, q: Seq<int>, r: Seq<int>, p: int) -> bool {
    degree(r) < degree(d) && same_poly(a, poly_add(poly_mul(q, d, p), r, p))
}

impl PartialEq for Uni {
    /// Equality of polynomials: trailing zeros do not count.
    fn eq(&self, other: &Self) -> (r: bool) {
        let la: usize = self.coefficients.len();
        let lb: usize = other.coefficients.len();
        let n: usize = if la >= lb {
            la
        } else {
            lb
        };
        let mut i: usize = 0;
        while i < n
            invariant
                i <= n,
                la == self.coefficients@.len(),
                lb == other.coefficients@.len(),
                n >= la,
                n >= lb,
                forall|k: int| 0 <= k < i ==> coeff(self.values(), k) == coeff(other.values(), k),
            decreases n - i,
        {
            let a: i128 = if i < la {
                self.coefficients[i].value
            } else {
                0
            };
            let b: i128 = if i < lb {
                other.coefficients[i].value
            } else {
                0
            };
            if a != b {
                assert(coeff(self.values(), i as int) != coeff(other.values(), i as int));
                return false;
            }
            i = i + 1;
        }
        true
    }
}

impl PartialEqSpecImpl for Uni {
    open spec fn obeys_eq_spec() -> bool {
        true
    }

    open spec fn eq_spec(&self, other: &Self) -> bool {
        same_poly(self.values(), other.values())
    }
}

impl core::ops::Add for Uni {
    type Output = Uni;

    fn add(self, rhs: Uni) -> (r: Uni)
        ensures
            r.wf(),
            r.values() == poly_add(self.values(), rhs.values(), self.joint_field(&rhs).p as int),
    {
        self.plus(&rhs)
    }
}

impl AddSpecImpl for Uni {
    open spec fn obeys_add_spec() -> bool {
        false
    }

    open spec fn add_req(self, rhs: Uni) -> bool {
        combinable(self, rhs)
    }

    open spec fn add_spec(self, rhs: Uni) -> Uni {
        self
    }
}

impl core::ops::Sub for Uni {
    type Output = Uni;

    fn sub(self, rhs: Uni) -> (r: Uni)
        ensures
            r.wf(),
            r.values() == poly_sub(self.values(), rhs.values(), self.joint_field(&rhs).p as int),
    {
        self.minus(&rhs)
    }
}

impl SubSpecImpl for Uni {
    open spec fn obeys_sub_spec() -> bool {
        false
    }

    open spec fn sub_req(self, rhs: Uni) -> bool {
        combinable(self, rhs)
    }

    open spec fn sub_spec(self, rhs: Uni) -> Uni {
        self
    }
}

impl core::ops::Mul for Uni {
    type Output = Uni;

    fn mul(self, rhs: Uni) -> (r: Uni)
        ensures
            r.wf(),
            r.values() == poly_mul(self.values(), rhs.values(), self.joint_field(&rhs).p as int),
    {
        self.times(&rhs)
    }
}

impl MulSpecImpl for Uni {
    open spec fn obeys_mul_spec() -> bool {
        false
    }

    open spec fn mul_req(self, rhs: Uni) -> bool {
        combinable(self, rhs) && self.coefficients@.len() + rhs.coefficients@.len() <= usize::MAX
    }

    open spec fn mul_spec(self, rhs: Uni) -> Uni {
        self
    }
}

impl core::ops::Div for Uni {
    type Output = Uni;

    /// The quotient of the Euclidean division.
    fn div(self, rhs: Uni) -> (q: Uni)
        ensures
            q.wf(),
            exists|r: Seq<int>| #[trigger]
                is_division(self.values(), rhs.values(), q.values(), r, rhs.modulus()),
    {
        match self.true_division(&rhs) {
            Ok((q, r)) => {
                assert(is_division(
                    self.values(),
                    rhs.values(),
                    q.values(),
                    r.values(),
                    rhs.modulus(),
                ));
                q
            },
            Err(_) => self,
        }
    }
}

impl DivSpecImpl for Uni {
    open spec fn obeys_div_spec() -> bool {
        false
    }

    open spec fn div_req(self, rhs: Uni) -> bool {
        divisible(self, rhs)
    }

    open spec fn div_spec(self, rhs: Uni) -> Uni {
        self
    }
}

impl core::ops::Rem for Uni {
    type Output = Uni;

    /// The remainder of the Euclidean division.
    fn rem(self, rhs: Uni) -> (r: Uni)
        ensures
            r.wf(),
            exists|q: Seq<int>| #[trigger]
                is_division(self.values(), rhs.values(), q, r.values(), rhs.modulus()),
    {
        match self.true_division(&rhs) {
            Ok((q, r)) => {
                assert(is_division(
                    self.values(),
                    rhs.values(),
                    q.values(),
                    r.values(),
                    rhs.modulus(),
                ));
                r
            },
            Err(_) => self,
        }
    }
}

impl RemSpecImpl for Uni {
    open spec fn obeys_rem_spec() -> bool {
        false
    }

    open spec fn rem_req(self, rhs: Uni) -> bool {
        divisible(self, rhs)
    }

    open spec fn rem_spec(self, rhs: Uni) -> Uni {
        self
    }
}

} // verus!
