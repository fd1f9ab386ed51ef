//! The univariate polynomial type.
use vstd::prelude::*;
use vstd::arithmetic::div_mod::*;
use vstd::arithmetic::mul::*;

use crate::field::field::Field;
use crate::poly::uniqueness::lemma_eval_of_zeros;
use crate::field::field_element::FieldElement;
use crate::error::Error;
use crate::field::arith::{coprime, is_prime, lemma_inv_mod_is, lemma_prime_coprime};
use crate::poly::algebra::{
    coeff, colinear, conv, degree, difference, distinct, interpolates, invertible_differences,
    lagrange, lagrange_numerator, lagrange_sum, lagrange_weight, lemma_conv_of_zeros,
    lemma_poly_pow_len, lemma_root_product_shape, poly_pow, lemma_conv_update, lemma_conv_zero, lemma_degree, lemma_division_clears,
    lemma_division_step, lemma_eval_add, lemma_eval_mul_linear, lemma_eval_scale,
    lemma_root_product_vanishes, lemma_weight_step, longer, mul_linear, poly_add, poly_eval,
    poly_mul, poly_neg, poly_scale, poly_shift, poly_sub, root_product, same_poly,
};

verus! {

/// A polynomial `c0 + c1 x + ... + cd x^d`, held as its coefficients from
/// the constant term up. Trailing zeros are allowed.
#[derive(Debug, Clone)]
pub struct Uni {
    pub coefficients: Vec<FieldElement>,
}

/// The values of a sequence of field elements.
pub open spec fn values_of(elements: Seq<FieldElement>) -> Seq<int> {
    Seq::new(elements.len(), |i: int| elements[i].value as int)
}

/// Every element is reduced and lives in `field`.
pub open spec fn all_in(elements: Seq<FieldElement>, field: Field) -> bool {
    field.wf() && forall|i: int|
        0 <= i < elements.len() ==> (#[trigger] elements[i]).wf() && elements[i].field == field
}

/// A copy of a vector of field elements.
pub fn clone_elements(v: &Vec<FieldElement>) -> (out: Vec<FieldElement>)
    ensures
        out@ == v@,
{
    let mut out: Vec<FieldElement> = Vec::new();
    let mut i: usize = 0;
    while i < v.len()
        invariant
            i <= v@.len(),
            out@ == v@.take(i as int),
        decreases v@.len() - i,
    {
        out.push(v[i]);
        i = i + 1;
        assert(out@ =~= v@.take(i as int));
    }
    assert(v@.take(i as int) =~= v@);
    out
}

/// `n` zeros of `field`.
pub fn zeros(field: &Field, n: usize) -> (out: Vec<FieldElement>)
    requires
        field.wf(),
    ensures
        out@.len() == n,
        all_in(out@, *field),
        forall|i: int| 0 <= i < n ==> (#[trigger] out@[i]).value == 0,
{
    let mut out: Vec<FieldElement> = Vec::new();
    let mut i: usize = 0;
    while i < n
        invariant
            i <= n,
            field.wf(),
            out@.len() == i,
            all_in(out@, *field),
            forall|j: int| 0 <= j < i ==> (#[trigger] out@[j]).value == 0,
        decreases n - i,
    {
        out.push(field.zero());
        i = i + 1;
    }
    out
}

/// The difference of two distinct residues of a prime field has an inverse.
proof fn lemma_distinct_difference(a: FieldElement, b: FieldElement)
    requires
        a.wf(),
        b.wf(),
        a.field == b.field,
    ensures
        is_prime(a.field.p as int) && a.value != b.value ==> coprime(
            (a.value - b.value) % (a.field.p as int),
            a.field.p as int,
        ),
{
    let p = a.field.p as int;
    if is_prime(p) && a.value != b.value {
        let d = (a.value - b.value) % p;
        lemma_mod_bound(a.value - b.value, p);
        if d == 0 {
            if a.value > b.value {
                lemma_small_mod((a.value - b.value) as nat, p as nat);
            } else {
                lemma_mod_add_multiples_vanish(a.value - b.value, p);
                lemma_small_mod((a.value - b.value + p) as nat, p as nat);
            }
        }
        lemma_prime_coprime(d, p);
    }
}

/// Whether every element is well formed and lives in `field`.
pub fn all_valid(elements: &Vec<FieldElement>, field: &Field) -> (b: bool)
    ensures
        b == all_in(elements@, *field),
{
    if !field.is_valid() {
        return false;
    }
    let mut i: usize = 0;
    while i < elements.len()
        invariant
            i <= elements@.len(),
            field.wf(),
            forall|k: int|
                0 <= k < i ==> (#[trigger] elements@[k]).wf() && elements@[k].field == *field,
        decreases elements@.len() - i,
    {
        let e: FieldElement = elements[i];
        if !e.is_valid() || e.field.p != field.p {
            assert(!((#[trigger] elements@[i as int]).wf() && elements@[i as int].field == *field));
            return false;
        }
        i = i + 1;
    }
    true
}

impl Uni {
    /// Whether the polynomial is well formed.
    pub fn is_valid(&self) -> (b: bool)
        ensures
            b == self.wf(),
    {
        if self.coefficients.len() == 0 {
            return true;
        }
        let field: Field = self.coefficients[0].field;
        all_valid(&self.coefficients, &field)
    }

    /// The coefficients as integers.
    pub open spec fn values(&self) -> Seq<int> {
        values_of(self.coefficients@)
    }

    /// The field of the first coefficient, which is that of all of them.
    pub open spec fn field_of(&self) -> Field {
        self.coefficients@[0].field
    }

    /// The modulus of the coefficients.
    pub open spec fn modulus(&self) -> int {
        self.field_of().p as int
    }

    /// Every coefficient is reduced and lives in `field`.
    pub open spec fn over(&self, field: Field) -> bool {
        all_in(self.coefficients@, field)
    }

    /// The coefficients are reduced and share one field.
    pub open spec fn wf(&self) -> bool {
        self.coefficients@.len() > 0 ==> self.over(self.field_of())
    }

    /// Two polynomials can be combined: they share a field, or one of
    /// them has no coefficient.
    pub open spec fn agrees(&self, other: &Uni) -> bool {
        self.coefficients@.len() == 0 || other.coefficients@.len() == 0 || self.field_of()
            == other.field_of()
    }

    /// The field of a combination of two polynomials.
    pub open spec fn joint_field(&self, other: &Uni) -> Field {
        if self.coefficients@.len() > 0 {
            self.field_of()
        } else {
            other.field_of()
        }
    }

    /// The polynomial with the given coefficients.
    pub fn from(coefficients: Vec<FieldElement>) -> (r: Uni)
        ensures
            r.coefficients == coefficients,
    {
        Uni { coefficients }
    }

    /// The largest index of a non-zero coefficient; `-1` for the zero polynomial.
    pub fn degree(&self) -> (d: i128)
        ensures
            d == degree(self.values()),
            -1 <= d < self.coefficients@.len(),
    {
        let mut i: usize = self.coefficients.len();
        proof {
            assert(self.values().take(i as int) =~= self.values());
        }
        while i > 0 && self.coefficients[i - 1].value == 0
            invariant
                i <= self.coefficients@.len(),
                degree(self.values()) == degree(self.values().take(i as int)),
            decreases i,
        {
            proof {
                assert(self.values().take(i as int).drop_last() =~= self.values().take(i - 1));
            }
            i = i - 1;
        }
        proof {
            lemma_degree(self.values().take(i as int));
        }
        i as i128 - 1
    }

    /// Whether every coefficient is zero.
    pub fn is_zero(&self) -> (b: bool)
        ensures
            b == (degree(self.values()) == -1),
    {
        self.degree() == -1
    }

    /// The coefficient at the degree; zero for a zero polynomial.
    pub fn leading_coefficient(&self) -> (r: FieldElement)
        requires
            self.coefficients@.len() > 0,
        ensures
            r.field == self.field_of(),
            r.value == coeff(self.values(), degree(self.values())),
    {
        let d: i128 = self.degree();
        let n: usize = self.coefficients.len();
        if d < 0 {
            FieldElement { value: 0, field: self.coefficients[0].field }
        } else {
            assert(0 <= d < n);
            let top: FieldElement = self.coefficients[d as usize];
            FieldElement { value: top.value, field: self.coefficients[0].field }
        }
    }

    /// The additive inverse.
    pub fn neg(&self) -> (r: Uni)
        requires
            self.wf(),
        ensures
            r.wf(),
            r.coefficients@.len() > 0 ==> r.field_of() == self.field_of(),
            r.values() == poly_neg(self.values(), self.modulus()),
    {
        let mut out: Vec<FieldElement> = Vec::new();
        let mut i: usize = 0;
        while i < self.coefficients.len()
            invariant
                i <= self.coefficients@.len(),
                self.wf(),
                out@.len() == i,
                all_in(out@, self.field_of()) || i == 0,
                forall|j: int|
                    0 <= j < i ==> (#[trigger] out@[j]).value == (-self.coefficients@[j].value) % (
                    self.modulus()),
            decreases self.coefficients@.len() - i,
        {
            let c: FieldElement = self.coefficients[i];
            out.push(c.field.negate(c));
            i = i + 1;
        }
        let r = Uni { coefficients: out };
        assert(r.values() =~= poly_neg(self.values(), self.modulus()));
        r
    }

    /// The sum.
    pub fn plus(&self, rhs: &Uni) -> (r: Uni)
        requires
            self.wf(),
            rhs.wf(),
            self.agrees(rhs),
        ensures
            r.wf(),
            r.coefficients@.len() > 0 ==> r.field_of() == self.joint_field(rhs),
            r.values() == poly_add(self.values(), rhs.values(), self.joint_field(rhs).p as int),
    {
        let n: usize = if self.coefficients.len() >= rhs.coefficients.len() {
            self.coefficients.len()
        } else {
            rhs.coefficients.len()
        };
        let ghost f = self.joint_field(rhs);
        let mut out: Vec<FieldElement> = Vec::new();
        let mut i: usize = 0;
        while i < n
            invariant
                i <= n,
                n == longer(self.coefficients@.len(), rhs.coefficients@.len()),
                self.wf(),
                rhs.wf(),
                self.agrees(rhs),
                f == self.joint_field(rhs),
                out@.len() == i,
                all_in(out@, f) || i == 0,
                forall|j: int|
                    0 <= j < i ==> (#[trigger] out@[j]).value == (coeff(self.values(), j) + coeff(
                        rhs.values(),
                        j,
                    )) % (f.p as int),
            decreases n - i,
        {
            if i < self.coefficients.len() && i < rhs.coefficients.len() {
                let a: FieldElement = self.coefficients[i];
                let b: FieldElement = rhs.coefficients[i];
                out.push(a.field.add(a, b));
            } else if i < self.coefficients.len() {
                let a: FieldElement = self.coefficients[i];
                proof {
                    lemma_small_mod(a.value as nat, f.p as nat);
                }
                out.push(a);
            } else {
                let b: FieldElement = rhs.coefficients[i];
                proof {
                    lemma_small_mod(b.value as nat, f.p as nat);
                }
                out.push(b);
            }
            i = i + 1;
        }
        let r = Uni { coefficients: out };
        assert(r.values() =~= poly_add(self.values(), rhs.values(), f.p as int));
        r
    }

    /// The difference.
    pub fn minus(&self, rhs: &Uni) -> (r: Uni)
        requires
            self.wf(),
            rhs.wf(),
            self.agrees(rhs),
        ensures
            r.wf(),
            r.coefficients@.len() > 0 ==> r.field_of() == self.joint_field(rhs),
            r.values() == poly_sub(self.values(), rhs.values(), self.joint_field(rhs).p as int),
    {
        let n: usize = if self.coefficients.len() >= rhs.coefficients.len() {
            self.coefficients.len()
        } else {
            rhs.coefficients.len()
        };
        let ghost f = self.joint_field(rhs);
        let mut out: Vec<FieldElement> = Vec::new();
        let mut i: usize = 0;
        while i < n
            invariant
                i <= n,
                n == longer(self.coefficients@.len(), rhs.coefficients@.len()),
                self.wf(),
                rhs.wf(),
                self.agrees(rhs),
                f == self.joint_field(rhs),
                out@.len() == i,
                all_in(out@, f) || i == 0,
                forall|j: int|
                    0 <= j < i ==> (#[trigger] out@[j]).value == (coeff(self.values(), j) - coeff(
                        rhs.values(),
                        j,
                    )) % (f.p as int),
            decreases n - i,
        {
            if i < self.coefficients.len() && i < rhs.coefficients.len() {
                let a: FieldElement = self.coefficients[i];
                let b: FieldElement = rhs.coefficients[i];
                out.push(a.field.sub(a, b));
            } else if i < self.coefficients.len() {
                let a: FieldElement = self.coefficients[i];
                proof {
                    lemma_small_mod(a.value as nat, f.p as nat);
                }
                out.push(a);
            } else {
                let b: FieldElement = rhs.coefficients[i];
                out.push(b.field.negate(b));
            }
            i = i + 1;
        }
        let r = Uni { coefficients: out };
        assert(r.values() =~= poly_sub(self.values(), rhs.values(), f.p as int));
        r
    }

    /// The product.
    pub fn times(&self, rhs: &Uni) -> (r: Uni)
        requires
            self.wf(),
            rhs.wf(),
            self.agrees(rhs),
            self.coefficients@.len() + rhs.coefficients@.len() <= usize::MAX,
        ensures
            r.wf(),
            r.coefficients@.len() > 0 ==> r.field_of() == self.joint_field(rhs),
            r.values() == poly_mul(self.values(), rhs.values(), self.joint_field(rhs).p as int),
    {
        let la: usize = self.coefficients.len();
        let lb: usize = rhs.coefficients.len();
        if la == 0 || lb == 0 {
            let r = Uni { coefficients: Vec::new() };
            assert(r.values() =~= poly_mul(
                self.values(),
                rhs.values(),
                self.joint_field(rhs).p as int,
            ));
            return r;
        }
        let field: Field = self.coefficients[0].field;
        let ghost p = field.p as int;
        let ghost av = self.values();
        let ghost bv = rhs.values();
        let n: usize = la + lb - 1;
        let mut out: Vec<FieldElement> = zeros(&field, n);
        let mut i: usize = 0;
        proof {
            lemma_small_mod(0, p as nat);
        }
        while i < la
            invariant
                i <= la,
                la == self.coefficients@.len(),
                lb == rhs.coefficients@.len(),
                la > 0,
                lb > 0,
                n == la + lb - 1,
                self.wf(),
                rhs.wf(),
                field == self.field_of(),
                field == rhs.field_of(),
                p == field.p,
                av == self.values(),
                bv == rhs.values(),
                out@.len() == n,
                all_in(out@, field),
                forall|k: int| 0 <= k < n ==> (#[trigger] out@[k]).value == conv(av, bv, k, i as nat) % p,
            decreases la - i,
        {
            let a: FieldElement = self.coefficients[i];
            let ghost row = out@;
            let mut j: usize = 0;
            while j < lb
                invariant
                    j <= lb,
                    i < la,
                    la == self.coefficients@.len(),
                    lb == rhs.coefficients@.len(),
                    n == la + lb - 1,
                    self.wf(),
                    rhs.wf(),
                    field == self.field_of(),
                    field == rhs.field_of(),
                    p == field.p,
                    av == self.values(),
                    bv == rhs.values(),
                    a == self.coefficients@[i as int],
                    out@.len() == n,
                    all_in(out@, field),
                    forall|k: int|
                        0 <= k < n ==> (#[trigger] out@[k]).value == (conv(av, bv, k, i as nat) + (
                        if i <= k < i + j {
                            a.value * bv[k - i]
                        } else {
                            0
                        })) % p,
                decreases lb - j,
            {
                let b: FieldElement = rhs.coefficients[j];
                let old_entry: FieldElement = out[i + j];
                proof {
                    let base = conv(av, bv, i + j, i as nat);
                    assert(bv[j as int] == b.value);
                    lemma_add_mod_noop(base, a.value * b.value, p);
                    lemma_mod_twice(base, p);
                }
                let entry: FieldElement = field.add(old_entry, field.mul(a, b));
                out.set(i + j, entry);
                j = j + 1;
            }
            proof {
                assert forall|k: int| 0 <= k < n implies (#[trigger] out@[k]).value == conv(
                    av,
                    bv,
                    k,
                    (i + 1) as nat,
                ) % p by {
                    assert(av[i as int] == a.value);
                    if !(i <= k < i + lb) {
                        lemma_mul_basics(a.value as int);
                    }
                }
            }
            i = i + 1;
        }
        let r = Uni { coefficients: out };
        assert(r.values() =~= poly_mul(av, bv, p));
        r
    }

    /// Euclidean division: the quotient and the remainder of `self` by
    /// `rhs`. The quotient times the divisor plus the remainder is the
    /// dividend, and the remainder has a smaller degree than the divisor.
    pub fn true_division(&self, rhs: &Uni) -> (res: Result<(Uni, Uni), Error>)
        requires
            self.wf(),
            rhs.wf(),
            self.agrees(rhs),
        ensures
            res is Ok <==> degree(rhs.values()) >= 0 && coprime(
                coeff(rhs.values(), degree(rhs.values())),
                rhs.modulus(),
            ),
            is_prime(rhs.modulus()) && degree(rhs.values()) >= 0 ==> res is Ok,
            match res {
                Ok((q, r)) => {
                    &&& q.over(rhs.field_of())
                    &&& r.over(rhs.field_of())
                    &&& degree(r.values()) < degree(rhs.values())
                    &&& same_poly(
                        self.values(),
                        poly_add(
                            poly_mul(q.values(), rhs.values(), rhs.modulus()),
                            r.values(),
                            rhs.modulus(),
                        ),
                    )
                },
                Err(e) => e == (if degree(rhs.values()) < 0 {
                    Error::DivisionByZero
                } else {
                    Error::NotInvertible
                }),
            },
    {
        let dd_signed: i128 = rhs.degree();
        if dd_signed < 0 {
            return Err(Error::DivisionByZero);
        }
        let ld: usize = rhs.coefficients.len();
        let la: usize = self.coefficients.len();
        let dd: usize = dd_signed as usize;
        let field: Field = rhs.coefficients[0].field;
        let lead: FieldElement = rhs.coefficients[dd];
        let ghost p = field.p as int;
        let ghost av = self.values();
        let ghost dv = rhs.values();
        proof {
            lemma_degree(dv);
            assert(dv[dd as int] == lead.value);
            lemma_small_mod(lead.value as nat, p as nat);
        }
        let inv: FieldElement = match field.inverse(lead) {
            Ok(v) => v,
            Err(_) => {
                return Err(Error::NotInvertible);
            },
        };
        if la <= dd {
            let q = Uni { coefficients: Vec::new() };
            let r = Uni { coefficients: clone_elements(&self.coefficients) };
            proof {
                lemma_degree(r.values());
                let sum = poly_add(poly_mul(q.values(), dv, p), r.values(), p);
                assert forall|i: int| 0 <= i implies #[trigger] coeff(av, i) == coeff(sum, i) by {
                    if i < la {
                        assert(self.coefficients@[i].wf());
                        lemma_small_mod(av[i] as nat, p as nat);
                    }
                }
            }
            return Ok((q, r));
        }
        let lq: usize = la - dd;
        let mut q: Vec<FieldElement> = zeros(&field, lq);
        let mut r: Vec<FieldElement> = clone_elements(&self.coefficients);
        let mut k: usize = lq;
        proof {
            assert forall|i: int| 0 <= i < la implies (conv(values_of(q@), dv, i, lq as nat)
                + #[trigger] values_of(r@)[i]) % p == av[i] by {
                lemma_conv_of_zeros(values_of(q@), dv, i, lq as nat);
                assert(self.coefficients@[i].wf());
                lemma_small_mod(av[i] as nat, p as nat);
            }
        }
        while k > 0
            invariant
                k <= lq,
                lq == la - dd,
                la == self.coefficients@.len(),
                ld == rhs.coefficients@.len(),
                dd < ld,
                dd == degree(dv),
                self.wf(),
                rhs.wf(),
                field == rhs.field_of(),
                field.wf(),
                field == self.field_of(),
                p == field.p,
                av == self.values(),
                dv == rhs.values(),
                lead == rhs.coefficients@[dd as int],
                inv.wf(),
                inv.field == field,
                (lead.value * inv.value) % p == 1,
                q@.len() == lq,
                r@.len() == la,
                all_in(q@, field),
                all_in(r@, field),
                forall|i: int|
                    0 <= i < la ==> (conv(values_of(q@), dv, i, lq as nat) + #[trigger] values_of(
                        r@,
                    )[i]) % p == av[i],
                forall|i: int| k + dd <= i < la ==> (#[trigger] r@[i]).value == 0,
                forall|m: int| 0 <= m < k ==> (#[trigger] q@[m]).value == 0,
            decreases k,
        {
            k = k - 1;
            let top: FieldElement = r[k + dd];
            let c: FieldElement = field.mul(top, inv);
            let ghost r_old = r@;
            let ghost q_old = q@;
            let mut j: usize = 0;
            while j <= dd
                invariant
                    j <= dd + 1,
                    k + dd < la,
                    la == r@.len(),
                    ld == rhs.coefficients@.len(),
                    dd < ld,
                    rhs.wf(),
                    field == rhs.field_of(),
                    field.wf(),
                    p == field.p,
                    dv == rhs.values(),
                    c.wf(),
                    c.field == field,
                    r_old.len() == la,
                    all_in(r_old, field),
                    all_in(r@, field),
                    forall|i: int|
                        0 <= i < la ==> (#[trigger] r@[i]).value == (if k <= i < k + j {
                            (r_old[i].value - c.value * dv[i - k]) % p
                        } else {
                            r_old[i].value as int
                        }),
                decreases dd + 1 - j,
            {
                let cur: FieldElement = r[k + j];
                let d: FieldElement = rhs.coefficients[j];
                proof {
                    assert(dv[j as int] == d.value);
                    assert(r_old[k + j].wf());
                    lemma_sub_mod_noop_right(cur.value as int, c.value * d.value, p);
                }
                let next: FieldElement = field.sub(cur, field.mul(c, d));
                r.set(k + j, next);
                j = j + 1;
            }
            q.set(k, c);
            proof {
                let qb = values_of(q_old);
                let qn = values_of(q@);
                assert(qn =~= qb.update(k as int, c.value as int));
                assert(qb[k as int] == 0) by {
                    assert(q_old[k as int].value == 0);
                }
                assert forall|i: int| 0 <= i < la implies (conv(qn, dv, i, lq as nat)
                    + #[trigger] values_of(r@)[i]) % p == av[i] by {
                    lemma_conv_update(qb, k as int, c.value as int, dv, i, lq as nat);
                    assert((conv(qb, dv, i, lq as nat) + values_of(r_old)[i]) % p == av[i]);
                    if k <= i <= k + dd {
                        lemma_division_step(
                            conv(qb, dv, i, lq as nat),
                            r_old[i].value as int,
                            c.value as int,
                            dv[i - k],
                            av[i],
                            p,
                        );
                    } else {
                        lemma_degree(dv);
                        assert(coeff(dv, i - k) == 0);
                        lemma_mul_basics(c.value as int);
                    }
                }
                assert((r@[k + dd]).value == 0) by {
                    assert(r_old[k + dd].wf());
                    lemma_division_clears(
                        top.value as int,
                        inv.value as int,
                        lead.value as int,
                        c.value as int,
                        p,
                    );
                    assert(dv[dd as int] == lead.value);
                }
                assert forall|i: int| k + dd <= i < la implies (#[trigger] r@[i]).value == 0 by {
                    if i > k + dd {
                        assert(r_old[i].value == 0);
                    }
                }
            }
        }
        let ghost r_full = r@;
        r.truncate(dd);
        let quotient = Uni { coefficients: q };
        let remainder = Uni { coefficients: r };
        proof {
            let qv = quotient.values();
            let rv = remainder.values();
            lemma_degree(rv);
            let sum = poly_add(poly_mul(qv, dv, p), rv, p);
            assert forall|i: int| 0 <= i implies #[trigger] coeff(av, i) == coeff(sum, i) by {
                if i < la {
                    assert((conv(qv, dv, i, lq as nat) + values_of(r_full)[i]) % p == av[i]);
                    if i >= dd {
                        assert(r_full[i].value == 0);
                    }
                    lemma_add_mod_noop(conv(qv, dv, i, lq as nat), coeff(rv, i), p);
                    lemma_mod_twice(conv(qv, dv, i, lq as nat), p);
                    lemma_add_mod_noop(conv(qv, dv, i, lq as nat) % p, coeff(rv, i), p);
                } else if i < lq + ld - 1 {
                    lemma_degree(dv);
                    assert forall|m: int| 0 <= m < lq implies #[trigger] coeff(dv, i - m) == 0 by {}
                    lemma_conv_zero(qv, dv, i, lq as nat);
                    lemma_small_mod(0, p as nat);
                }
            }
        }
        Ok((quotient, remainder))
    }

    /// The product with `x - root`.
    pub fn times_linear(&self, root: FieldElement) -> (r: Uni)
        requires
            self.over(root.field),
            root.wf(),
            self.coefficients@.len() < usize::MAX,
        ensures
            r.over(root.field),
            r.coefficients@.len() == self.coefficients@.len() + 1,
            r.values() == mul_linear(self.values(), root.value as int, root.field.p as int),
    {
        let field: Field = root.field;
        let la: usize = self.coefficients.len();
        let mut out: Vec<FieldElement> = Vec::new();
        let mut k: usize = 0;
        let ghost av = self.values();
        let ghost p = field.p as int;
        let ghost want = mul_linear(av, root.value as int, p);
        while k <= la
            invariant
                k <= la + 1,
                la == self.coefficients@.len(),
                la < usize::MAX,
                self.over(field),
                root.wf(),
                field == root.field,
                av == self.values(),
                p == field.p,
                want == mul_linear(av, root.value as int, p),
                out@.len() == k,
                all_in(out@, field),
                forall|i: int| 0 <= i < k ==> (#[trigger] out@[i]).value == want[i],
            decreases la + 1 - k,
        {
            let low: FieldElement = if k > 0 {
                self.coefficients[k - 1]
            } else {
                field.zero()
            };
            let high: FieldElement = if k < la {
                field.mul(self.coefficients[k], root)
            } else {
                field.zero()
            };
            proof {
                assert(coeff(poly_shift(av), k as int) == low.value);
                assert(coeff(poly_scale(av, root.value as int, p), k as int) == high.value);
            }
            out.push(field.sub(low, high));
            k = k + 1;
        }
        let r = Uni { coefficients: out };
        assert(r.values() =~= want);
        r
    }

    /// The polynomial that vanishes exactly on `domain`: the product of
    /// `x - d` over its points. For an empty domain, the polynomial
    /// without coefficients.
    pub fn zerofier_domain(domain: &Vec<FieldElement>) -> (r: Uni)
        requires
            domain@.len() > 0 ==> all_in(domain@, domain@[0].field),
            domain@.len() < usize::MAX,
        ensures
            domain@.len() == 0 ==> r.coefficients@.len() == 0,
            domain@.len() > 0 ==> r.over(domain@[0].field) && r.values() == root_product(
                values_of(domain@),
                domain@[0].field.p as int,
            ) && r.coefficients@.len() == domain@.len() + 1 && r.values().last() == 1,
            forall|k: int|
                0 <= k < domain@.len() ==> #[trigger] poly_eval(
                    r.values(),
                    values_of(domain@)[k],
                    domain@[0].field.p as int,
                ) == 0,
    {
        if domain.len() == 0 {
            return Uni { coefficients: Vec::new() };
        }
        let field: Field = domain[0].field;
        let ghost p = field.p as int;
        let ghost dv = values_of(domain@);
        let mut coefficients: Vec<FieldElement> = Vec::new();
        coefficients.push(field.one());
        let mut acc = Uni { coefficients };
        let mut i: usize = 0;
        proof {
            assert(dv.take(0) =~= Seq::<int>::empty());
            assert(acc.values() =~= seq![1int]);
        }
        while i < domain.len()
            invariant
                i <= domain@.len(),
                domain@.len() < usize::MAX,
                all_in(domain@, field),
                p == field.p,
                dv == values_of(domain@),
                acc.over(field),
                acc.coefficients@.len() == i + 1,
                acc.values() == root_product(dv.take(i as int), p),
            decreases domain@.len() - i,
        {
            proof {
                assert(dv.take(i + 1).drop_last() =~= dv.take(i as int));
                assert(domain@[i as int].wf());
            }
            acc = acc.times_linear(domain[i]);
            i = i + 1;
        }
        proof {
            assert(dv.take(i as int) =~= dv);
            lemma_root_product_shape(dv, p);
            assert forall|k: int| 0 <= k < domain@.len() implies #[trigger] poly_eval(
                acc.values(),
                dv[k],
                p,
            ) == 0 by {
                lemma_root_product_vanishes(dv, k, p);
            }
        }
        acc
    }

    /// Whether two points of `domain` have the same value.
    pub fn has_duplicates(domain: &Vec<FieldElement>) -> (found: bool)
        ensures
            found == !distinct(values_of(domain@)),
    {
        let n: usize = domain.len();
        let ghost dv = values_of(domain@);
        let mut j: usize = 0;
        while j < n
            invariant
                j <= n,
                n == domain@.len(),
                dv == values_of(domain@),
                forall|a: int, b: int| 0 <= a < b < j ==> dv[a] != dv[b],
            decreases n - j,
        {
            let mut i: usize = 0;
            while i < j
                invariant
                    i <= j < n,
                    n == domain@.len(),
                    dv == values_of(domain@),
                    forall|a: int| 0 <= a < i ==> dv[a] != dv[j as int],
                decreases j - i,
            {
                if domain[i].value == domain[j].value {
                    assert(dv[i as int] == dv[j as int]);
                    return true;
                }
                i = i + 1;
            }
            j = j + 1;
        }
        false
    }

    /// Lagrange interpolation: the polynomial of degree below the number
    /// of points that takes the value `values[k]` at `domain[k]`.
    pub fn interpolate_domain(domain: &Vec<FieldElement>, values: &Vec<FieldElement>) -> (res:
        Result<Uni, Error>)
        requires
            domain@.len() == values@.len(),
            domain@.len() > 0 ==> all_in(domain@, domain@[0].field) && all_in(
                values@,
                domain@[0].field,
            ),
        ensures
            res is Ok <==> distinct(values_of(domain@)) && invertible_differences(
                values_of(domain@),
                domain@[0].field.p as int,
            ),
            is_prime(domain@[0].field.p as int) && distinct(values_of(domain@)) ==> res is Ok,
            match res {
                Ok(poly) => {
                    &&& poly.wf()
                    &&& domain@.len() > 0 ==> poly.over(domain@[0].field)
                    &&& poly.coefficients@.len() == domain@.len()
                    &&& poly.values() == lagrange(
                        values_of(domain@),
                        values_of(values@),
                        domain@[0].field.p as int,
                    )
                    &&& interpolates(
                        poly.values(),
                        values_of(domain@),
                        values_of(values@),
                        domain@[0].field.p as int,
                    )
                },
                Err(e) => e == (if distinct(values_of(domain@)) {
                    Error::NotInvertible
                } else {
                    Error::DuplicateDomain
                }),
            },
    {
        let n: usize = domain.len();
        if n == 0 {
            let empty = Uni { coefficients: Vec::new() };
            assert(empty.values() =~= lagrange(
                values_of(domain@),
                values_of(values@),
                domain@[0].field.p as int,
            ));
            return Ok(empty);
        }
        let field: Field = domain[0].field;
        let ghost p = field.p as int;
        let ghost dv = values_of(domain@);
        let ghost vv = values_of(values@);
        if Uni::has_duplicates(domain) {
            return Err(Error::DuplicateDomain);
        }
        proof {
            if is_prime(p) {
                assert forall|i: int, j: int|
                    0 <= i < dv.len() && 0 <= j < dv.len() && i != j implies coprime(
                    #[trigger] difference(dv, i, j, p),
                    p,
                ) by {
                    lemma_distinct_difference(domain@[i], domain@[j]);
                    assert(dv[i] != dv[j]) by {
                        if i < j {
                            assert(dv[i] != dv[j]);
                        } else {
                            assert(dv[j] != dv[i]);
                        }
                    }
                }
            }
        }
        let mut result: Vec<FieldElement> = zeros(&field, n);
        let mut result = Uni { coefficients: result };
        let mut i: usize = 0;
        proof {
            assert forall|k: int| 0 <= k < n implies #[trigger] poly_eval(result.values(), dv[k], p)
                == 0 by {
                lemma_eval_of_zeros(result.values(), dv[k], p);
            }
            assert(result.values() =~= lagrange_sum(dv, vv, 0, p));
        }
        while i < n
            invariant
                i <= n,
                n == domain@.len(),
                n == values@.len(),
                n > 0,
                field == domain@[0].field,
                all_in(domain@, field),
                all_in(values@, field),
                p == field.p,
                dv == values_of(domain@),
                vv == values_of(values@),
                distinct(dv),
                is_prime(p) ==> invertible_differences(dv, p),
                result.over(field),
                result.coefficients@.len() == n,
                result.values() == lagrange_sum(dv, vv, i as nat, p),
                forall|k: int|
                    0 <= k < n ==> #[trigger] poly_eval(result.values(), dv[k], p) == (if k < i {
                        vv[k]
                    } else {
                        0
                    }),
                forall|a: int, b: int|
                    0 <= a < i && 0 <= b < n && a != b ==> coprime(
                        #[trigger] difference(dv, a, b, p),
                        p,
                    ),
            decreases n - i,
        {
            let here: FieldElement = domain[i];
            let mut coefficients: Vec<FieldElement> = Vec::new();
            coefficients.push(field.one());
            let mut numerator = Uni { coefficients };
            let mut weight: FieldElement = values[i];
            let mut j: usize = 0;
            proof {
                assert(values@[i as int].wf());
                assert(domain@[i as int].wf());
                assert(numerator.values() =~= seq![1int]);
                assert(numerator.values().skip(1) =~= Seq::<int>::empty());
                reveal_with_fuel(poly_eval, 2);
                lemma_mul_basics(dv[i as int]);
                lemma_small_mod(1, p as nat);
                lemma_mul_basics(weight.value as int);
                lemma_small_mod(weight.value as nat, p as nat);
            }
            while j < n
                invariant
                    j <= n,
                    i < n,
                    n == domain@.len(),
                    field == domain@[0].field,
                    all_in(domain@, field),
                    p == field.p,
                    dv == values_of(domain@),
                    vv == values_of(values@),
                    n == vv.len(),
                    distinct(dv),
                    is_prime(p) ==> invertible_differences(dv, p),
                    here == domain@[i as int],
                    numerator.over(field),
                    numerator.coefficients@.len() == (if j <= i {
                        j + 1
                    } else {
                        j as int
                    }),
                    weight.wf(),
                    weight.field == field,
                    numerator.values() == lagrange_numerator(dv, i as int, j as nat, p),
                    weight.value == lagrange_weight(dv, vv, i as int, j as nat, p),
                    (poly_eval(numerator.values(), dv[i as int], p) * weight.value) % p
                        == vv[i as int],
                    forall|k: int|
                        0 <= k < j && k != i ==> #[trigger] poly_eval(
                            numerator.values(),
                            dv[k],
                            p,
                        ) == 0,
                    forall|b: int|
                        0 <= b < j && b != i ==> coprime(
                            #[trigger] difference(dv, i as int, b, p),
                            p,
                        ),
                decreases n - j,
            {
                if j != i {
                    let there: FieldElement = domain[j];
                    proof {
                        assert(domain@[j as int].wf());
                    }
                    let gap: FieldElement = field.sub(here, there);
                    assert(gap.value == difference(dv, i as int, j as int, p));
                    let inv: FieldElement = match field.inverse(gap) {
                        Ok(v) => v,
                        Err(_) => {
                            proof {
                                lemma_small_mod(gap.value as nat, p as nat);
                                assert(!coprime(difference(dv, i as int, j as int, p), p));
                            }
                            return Err(Error::NotInvertible);
                        },
                    };
                    let ghost before = numerator.values();
                    let ghost e = poly_eval(before, dv[i as int], p);
                    let ghost w = weight.value as int;
                    proof {
                        lemma_inv_mod_is(gap.value as int, inv.value as int, p);
                    }
                    numerator = numerator.times_linear(there);
                    weight = field.mul(weight, inv);
                    proof {
                        let after = numerator.values();
                        let root = there.value as int;
                        assert(root == dv[j as int]);
                        lemma_eval_mul_linear(before, root, dv[i as int], p);
                        lemma_mod_twice(dv[i as int] - root, p);
                        lemma_weight_step(e, dv[i as int] - root, w, inv.value as int, vv[i as int], p);
                        assert forall|k: int| 0 <= k < j + 1 && k != i implies #[trigger] poly_eval(
                            after,
                            dv[k],
                            p,
                        ) == 0 by {
                            lemma_eval_mul_linear(before, root, dv[k], p);
                            lemma_small_mod(0, p as nat);
                            if k == j {
                                lemma_mul_basics(poly_eval(before, dv[k], p));
                            } else {
                                assert(poly_eval(before, dv[k], p) == 0);
                                lemma_mul_basics(dv[k] - root);
                            }
                        }
                    }
                }
                j = j + 1;
            }
            let term: Uni = numerator.scale(weight);
            let ghost old_result = result.values();
            result = result.plus(&term);
            proof {
                assert forall|k: int| 0 <= k < n implies #[trigger] poly_eval(
                    result.values(),
                    dv[k],
                    p,
                ) == (if k < i + 1 {
                    vv[k]
                } else {
                    0
                }) by {
                    lemma_eval_add(old_result, term.values(), dv[k], p);
                    lemma_eval_scale(numerator.values(), weight.value as int, dv[k], p);
                    let en = poly_eval(numerator.values(), dv[k], p);
                    assert(poly_eval(old_result, dv[k], p) == (if k < i {
                        vv[k]
                    } else {
                        0
                    }));
                    assert(values@[k].wf());
                    lemma_small_mod(vv[k] as nat, p as nat);
                    lemma_small_mod(0, p as nat);
                    if k == i {
                        lemma_mul_is_commutative(weight.value as int, en);
                    } else {
                        assert(en == 0);
                        lemma_mul_basics(weight.value as int);
                    }
                }
            }
            i = i + 1;
        }
        proof {
            assert(invertible_differences(dv, p));
        }
        Ok(result)
    }

    /// Whether three points lie on one line.
    pub fn test_colinearity(points: &[(FieldElement, FieldElement); 3]) -> (on_line: bool)
        requires
            forall|i: int|
                0 <= i < 3 ==> (#[trigger] points@[i]).0.wf() && points@[i].1.wf() && points@[i].0.field
                    == points@[0].0.field && points@[i].1.field == points@[0].0.field,
        ensures
            on_line == colinear(
                points@[0].0.value as int,
                points@[0].1.value as int,
                points@[1].0.value as int,
                points@[1].1.value as int,
                points@[2].0.value as int,
                points@[2].1.value as int,
                points@[0].0.field.p as int,
            ),
    {
        let (x0, y0) = points[0];
        let (x1, y1) = points[1];
        let (x2, y2) = points[2];
        let field: Field = x0.field;
        proof {
            let p = field.p as int;
            assert(points@[0].0.wf() && points@[1].0.wf() && points@[2].0.wf());
            lemma_mul_mod_noop((y1.value - y0.value) as int, (x2.value - x0.value) as int, p);
            lemma_mul_mod_noop((y2.value - y0.value) as int, (x1.value - x0.value) as int, p);
        }
        let left: FieldElement = field.mul(field.sub(y1, y0), field.sub(x2, x0));
        let right: FieldElement = field.mul(field.sub(y2, y0), field.sub(x1, x0));
        left.value == right.value
    }

    /// The power with exponent `exponent`, by squaring and multiplying.
    pub fn pow(&self, exponent: u32) -> (r: Uni)
        requires
            self.wf(),
            self.coefficients@.len() >= 1,
            (self.coefficients@.len() - 1) * exponent + 2 <= usize::MAX,
        ensures
            r.over(self.field_of()),
            r.values() == poly_pow(self.values(), exponent as nat, self.modulus()),
        decreases exponent,
    {
        let field: Field = self.coefficients[0].field;
        if exponent == 0 {
            let mut coefficients: Vec<FieldElement> = Vec::new();
            coefficients.push(field.one());
            let r = Uni { coefficients };
            assert(r.values() =~= seq![1int]);
            return r;
        }
        proof {
            let n = self.coefficients@.len() - 1;
            let e = exponent as int;
            lemma_poly_pow_len(self.values(), (exponent / 2) as nat, self.modulus());
            assert(n * (e / 2) <= n * e && 2 * (n * (e / 2)) <= n * e) by (nonlinear_arith)
                requires
                    n >= 0,
                    e >= 1,
            ;
        }
        let half: Uni = self.pow(exponent / 2);
        assert(half.values().len() == half.coefficients@.len());
        let square: Uni = half.times(&half);
        proof {
            lemma_poly_pow_len(self.values(), exponent as nat, self.modulus());
            assert(square.values().len() == square.coefficients@.len());
        }
        if exponent % 2 == 1 {
            square.times(self)
        } else {
            square
        }
    }

    /// Every coefficient times `scalar`.
    pub fn scale(&self, scalar: FieldElement) -> (r: Uni)
        requires
            self.wf(),
            scalar.wf(),
            self.coefficients@.len() > 0 ==> self.field_of() == scalar.field,
        ensures
            r.over(scalar.field),
            r.values() == poly_scale(self.values(), scalar.value as int, scalar.field.p as int),
    {
        let mut out: Vec<FieldElement> = Vec::new();
        let mut i: usize = 0;
        while i < self.coefficients.len()
            invariant
                i <= self.coefficients@.len(),
                self.wf(),
                scalar.wf(),
                self.coefficients@.len() > 0 ==> self.field_of() == scalar.field,
                out@.len() == i,
                all_in(out@, scalar.field),
                forall|j: int|
                    0 <= j < i ==> (#[trigger] out@[j]).value == (self.coefficients@[j].value
                        * scalar.value) % (scalar.field.p as int),
            decreases self.coefficients@.len() - i,
        {
            let c: FieldElement = self.coefficients[i];
            out.push(scalar.field.mul(c, scalar));
            i = i + 1;
        }
        let r = Uni { coefficients: out };
        assert(r.values() =~= poly_scale(
            self.values(),
            scalar.value as int,
            scalar.field.p as int,
        ));
        r
    }

    /// The value at `x`, by Horner's rule.
    pub fn evaluate(&self, x: FieldElement) -> (r: FieldElement)
        requires
            self.wf(),
            x.wf(),
            self.coefficients@.len() > 0 ==> self.field_of() == x.field,
        ensures
            r.wf(),
            r.field == x.field,
            r.value == poly_eval(self.values(), x.value as int, x.field.p as int),
    {
        let mut acc: FieldElement = x.field.zero();
        let mut i: usize = self.coefficients.len();
        proof {
            assert(self.values().skip(i as int) =~= Seq::<int>::empty());
        }
        while i > 0
            invariant
                i <= self.coefficients@.len(),
                self.wf(),
                x.wf(),
                self.coefficients@.len() > 0 ==> self.field_of() == x.field,
                acc.wf(),
                acc.field == x.field,
                acc.value == poly_eval(self.values().skip(i as int), x.value as int, x.field.p as int),
            decreases i,
        {
            i = i - 1;
            let c: FieldElement = self.coefficients[i];
            proof {
                let p = x.field.p as int;
                let rest = poly_eval(self.values().skip(i + 1), x.value as int, p);
                assert(self.values().skip(i as int).skip(1) =~= self.values().skip(i + 1));
                lemma_mul_is_commutative(acc.value as int, x.value as int);
                lemma_add_mod_noop_right(c.value as int, x.value * rest, p);
                assert(((acc.value * x.value) % p + c.value) % p == (c.value + x.value * rest) % p);
            }
            acc = x.field.add(x.field.mul(acc, x), c);
        }
        proof {
            assert(self.values().skip(0) =~= self.values());
        }
        acc
    }

    /// The values at each point of `domain`.
    pub fn evaluate_domain(&self, domain: &Vec<FieldElement>) -> (out: Vec<FieldElement>)
        requires
            self.wf(),
            self.coefficients@.len() > 0 ==> all_in(domain@, self.field_of()),
            exists|f: Field| all_in(domain@, f),
        ensures
            out@.len() == domain@.len(),
            forall|i: int|
                0 <= i < domain@.len() ==> (#[trigger] out@[i]).wf() && out@[i].field
                    == domain@[i].field && out@[i].value == poly_eval(
                    self.values(),
                    domain@[i].value as int,
                    domain@[i].field.p as int,
                ),
    {
        let mut out: Vec<FieldElement> = Vec::new();
        let mut i: usize = 0;
        while i < domain.len()
            invariant
                i <= domain@.len(),
                self.wf(),
                self.coefficients@.len() > 0 ==> all_in(domain@, self.field_of()),
                exists|f: Field| all_in(domain@, f),
                out@.len() == i,
                forall|j: int|
                    0 <= j < i ==> (#[trigger] out@[j]).wf() && out@[j].field == domain@[j].field
                        && out@[j].value == poly_eval(
                        self.values(),
                        domain@[j].value as int,
                        domain@[j].field.p as int,
                    ),
            decreases domain@.len() - i,
        {
            let x: FieldElement = domain[i];
            proof {
                let f = choose|f: Field| all_in(domain@, f);
                assert(domain@[i as int].wf());
            }
            out.push(self.evaluate(x));
            i = i + 1;
        }
        out
    }
}

} // verus!
