//! Multivariate polynomials: a dictionary from exponent vectors to
//! coefficients, held as a list of entries in the order of insertion.
//!
//! A polynomial cannot be written down in a specification, so what an
//! arithmetic operator returns is stated over the entries, in the
//! `ensures` of its method, and not as a value.
use vstd::prelude::*;
use vstd::arithmetic::div_mod::*;
use vstd::std_specs::ops::{AddSpecImpl, MulSpecImpl, NegSpecImpl, SubSpecImpl};

use crate::field::arith::pow_mod;
use crate::field::field::Field;
use crate::field::field_element::FieldElement;
use crate::poly::uni::{all_in, values_of, Uni};

verus! {

/// The exponents of a monomial, one for each variable.
#[derive(Debug, Clone, PartialEq, Eq, Hash)]
pub struct Exponents(pub Vec<i32>);

/// A polynomial in several variables: for each monomial that occurs, its
/// exponents and its coefficient.
#[derive(Debug, Clone)]
pub struct MPolynomial {
    pub dictionary: Vec<(Exponents, FieldElement)>,
}

/// An entry of a dictionary as mathematical values: exponents and coefficient.
pub type Term = (Seq<i32>, int);

/// The entries of a dictionary as mathematical values.
pub open spec fn terms_of(dictionary: Seq<(Exponents, FieldElement)>) -> Seq<Term> {
    Seq::new(dictionary.len(), |i: int| (dictionary[i].0.0@, dictionary[i].1.value as int))
}

/// The coefficients of a dictionary.
pub open spec fn coefficients_of(dictionary: Seq<(Exponents, FieldElement)>) -> Seq<FieldElement> {
    Seq::new(dictionary.len(), |i: int| dictionary[i].1)
}

/// The first place at which `key` stands in `terms`; `-1` if it stands nowhere.
pub open spec fn key_index(terms: Seq<Term>, key: Seq<i32>) -> int
    decreases terms.len(),
{
    if terms.len() == 0 {
        -1
    } else {
        let before = key_index(terms.drop_last(), key);
        if before >= 0 {
            before
        } else if terms.last().0 == key {
            terms.len() - 1
        } else {
            -1
        }
    }
}

/// The dictionary with `value` as the coefficient of `key`: in the place of
/// the old coefficient, or as a new entry at the end.
pub open spec fn placed(terms: Seq<Term>, key: Seq<i32>, value: int) -> Seq<Term> {
    let i = key_index(terms, key);
    if i >= 0 {
        terms.update(i, (key, value))
    } else {
        terms.push((key, value))
    }
}

/// The dictionary with `value` added to the coefficient of `key`, or as a
/// new entry at the end where `key` had none.
pub open spec fn merged(terms: Seq<Term>, key: Seq<i32>, value: int, p: int) -> Seq<Term> {
    let i = key_index(terms, key);
    if i >= 0 {
        terms.update(i, (key, (terms[i].1 + value) % p))
    } else {
        terms.push((key, value))
    }
}

/// The dictionary that placing the entries of `items` one after another
/// into `terms` gives.
pub open spec fn placed_all(terms: Seq<Term>, items: Seq<Term>) -> Seq<Term>
    decreases items.len(),
{
    if items.len() == 0 {
        terms
    } else {
        placed(placed_all(terms, items.drop_last()), items.last().0, items.last().1)
    }
}

/// The dictionary that merging the entries of `items` one after another
/// into `terms` gives.
pub open spec fn merged_all(terms: Seq<Term>, items: Seq<Term>, p: int) -> Seq<Term>
    decreases items.len(),
{
    if items.len() == 0 {
        terms
    } else {
        merged(merged_all(terms, items.drop_last(), p), items.last().0, items.last().1, p)
    }
}

/// The exponents for `n` variables: cut to the first `n`, or filled up with zeros.
pub open spec fn padded(exponents: Seq<i32>, n: nat) -> Seq<i32> {
    Seq::new(
        n,
        |i: int|
            if i < exponents.len() {
                exponents[i]
            } else {
                0i32
            },
    )
}

/// Every entry with its exponents padded to `n` variables.
pub open spec fn padded_terms(terms: Seq<Term>, n: nat) -> Seq<Term> {
    Seq::new(terms.len(), |i: int| (padded(terms[i].0, n), terms[i].1))
}

/// The largest number of variables of an entry.
pub open spec fn arity(terms: Seq<Term>) -> nat
    decreases terms.len(),
{
    if terms.len() == 0 {
        0
    } else {
        let before = arity(terms.drop_last());
        if terms.last().0.len() > before {
            terms.last().0.len()
        } else {
            before
        }
    }
}

/// The exponents of the variable `i` alone among `n` variables.
pub open spec fn unit_exponents(n: nat, i: int) -> Seq<i32> {
    Seq::new(
        n,
        |k: int|
            if k == i {
                1i32
            } else {
                0i32
            },
    )
}

/// The first place of a key is the first place at which it stands.
pub proof fn lemma_key_index_first(terms: Seq<Term>, key: Seq<i32>, i: int)
    requires
        0 <= i < terms.len(),
        terms[i].0 == key,
        forall|j: int| 0 <= j < i ==> (#[trigger] terms[j]).0 != key,
    ensures
        key_index(terms, key) == i,
    decreases terms.len(),
{
    if i < terms.len() - 1 {
        lemma_key_index_first(terms.drop_last(), key, i);
    } else {
        lemma_key_index_none(terms.drop_last(), key);
    }
}

/// A key that stands nowhere has no place.
pub proof fn lemma_key_index_none(terms: Seq<Term>, key: Seq<i32>)
    requires
        forall|j: int| 0 <= j < terms.len() ==> (#[trigger] terms[j]).0 != key,
    ensures
        key_index(terms, key) == -1,
    decreases terms.len(),
{
    if terms.len() > 0 {
        lemma_key_index_none(terms.drop_last(), key);
    }
}

/// Whether two vectors of exponents are equal.
pub fn same_exponents(a: &Vec<i32>, b: &Vec<i32>) -> (same: bool)
    ensures
        same == (a@ == b@),
{
    if a.len() != b.len() {
        return false;
    }
    let mut i: usize = 0;
    while i < a.len()
        invariant
            a@.len() == b@.len(),
            i <= a@.len(),
            forall|k: int| 0 <= k < i ==> a@[k] == b@[k],
        decreases a@.len() - i,
    {
        if a[i] != b[i] {
            return false;
        }
        i = i + 1;
    }
    assert(a@ =~= b@);
    true
}

/// The place of `key` in `dictionary`, or the length of the dictionary
/// where it has none.
pub fn find(dictionary: &Vec<(Exponents, FieldElement)>, key: &Vec<i32>) -> (i: usize)
    ensures
        i <= dictionary@.len(),
        i < dictionary@.len() ==> key_index(terms_of(dictionary@), key@) == i,
        i == dictionary@.len() ==> key_index(terms_of(dictionary@), key@) == -1,
{
    let mut i: usize = 0;
    while i < dictionary.len()
        invariant
            i <= dictionary@.len(),
            forall|j: int| 0 <= j < i ==> (#[trigger] terms_of(dictionary@)[j]).0 != key@,
        decreases dictionary@.len() - i,
    {
        if same_exponents(&dictionary[i].0.0, key) {
            proof {
                lemma_key_index_first(terms_of(dictionary@), key@, i as int);
            }
            return i;
        }
        i = i + 1;
    }
    proof {
        lemma_key_index_none(terms_of(dictionary@), key@);
    }
    i
}

/// A copy of a vector of exponents.
pub fn clone_exponents(a: &Vec<i32>) -> (out: Vec<i32>)
    ensures
        out@ == a@,
{
    let mut out: Vec<i32> = Vec::new();
    let mut i: usize = 0;
    while i < a.len()
        invariant
            i <= a@.len(),
            out@ == a@.take(i as int),
        decreases a@.len() - i,
    {
        out.push(a[i]);
        i = i + 1;
        assert(out@ =~= a@.take(i as int));
    }
    assert(a@.take(i as int) =~= a@);
    out
}

/// Sets the coefficient of `key` in `dictionary`.
pub fn place(dictionary: &mut Vec<(Exponents, FieldElement)>, key: Vec<i32>, value: FieldElement)
    ensures
        terms_of(final(dictionary)@) == placed(terms_of(old(dictionary)@), key@, value.value as int),
        coefficients_of(final(dictionary)@).len() >= coefficients_of(old(dictionary)@).len(),
        forall|f: Field|
            all_in(coefficients_of(old(dictionary)@), f) && value.wf() && value.field == f
                ==> all_in(coefficients_of(final(dictionary)@), f),
{
    let i: usize = find(dictionary, &key);
    let ghost before = dictionary@;
    if i < dictionary.len() {
        dictionary.set(i, (Exponents(key), value));
    } else {
        dictionary.push((Exponents(key), value));
    }
    proof {
        assert(terms_of(dictionary@) =~= placed(terms_of(before), key@, value.value as int));
        assert forall|f: Field|
            all_in(coefficients_of(before), f) && value.wf() && value.field == f implies all_in(
            coefficients_of(dictionary@),
            f,
        ) by {
            assert forall|k: int| 0 <= k < dictionary@.len() implies (#[trigger] coefficients_of(
                dictionary@,
            )[k]).wf() && coefficients_of(dictionary@)[k].field == f by {
                if k != i {
                    assert(coefficients_of(before)[k].wf());
                }
            }
        }
    }
}

/// Adds `value` to the coefficient of `key` in `dictionary`.
pub fn merge(dictionary: &mut Vec<(Exponents, FieldElement)>, key: Vec<i32>, value: FieldElement)
    requires
        value.wf(),
        all_in(coefficients_of(old(dictionary)@), value.field),
    ensures
        terms_of(final(dictionary)@) == merged(
            terms_of(old(dictionary)@),
            key@,
            value.value as int,
            value.field.p as int,
        ),
        all_in(coefficients_of(final(dictionary)@), value.field),
{
    let i: usize = find(dictionary, &key);
    let ghost before = dictionary@;
    if i < dictionary.len() {
        let held: FieldElement = dictionary[i].1;
        proof {
            assert(coefficients_of(before)[i as int].wf());
        }
        let sum: FieldElement = value.field.add(held, value);
        dictionary.set(i, (Exponents(key), sum));
    } else {
        dictionary.push((Exponents(key), value));
    }
    proof {
        assert(terms_of(dictionary@) =~= merged(
            terms_of(before),
            key@,
            value.value as int,
            value.field.p as int,
        ));
        assert forall|k: int| 0 <= k < dictionary@.len() implies (#[trigger] coefficients_of(
            dictionary@,
        )[k]).wf() && coefficients_of(dictionary@)[k].field == value.field by {
            if k != i {
                assert(coefficients_of(before)[k].wf());
            }
        }
    }
}

impl MPolynomial {
    /// The entries as mathematical values.
    pub open spec fn terms(&self) -> Seq<Term> {
        terms_of(self.dictionary@)
    }

    /// Every coefficient is reduced and lives in `field`.
    pub open spec fn over(&self, field: Field) -> bool {
        all_in(coefficients_of(self.dictionary@), field)
    }

    /// The coefficients are reduced and share one field.
    pub open spec fn wf(&self) -> bool {
        self.dictionary@.len() > 0 ==> self.over(self.dictionary@[0].1.field)
    }

    /// No exponent is negative.
    pub open spec fn natural(&self) -> bool {
        forall|i: int, k: int|
            0 <= i < self.dictionary@.len() && 0 <= k < self.dictionary@[i].0.0@.len() ==> (
            #[trigger] self.dictionary@[i].0.0@[k]) >= 0
    }

    /// The polynomial of the dictionary that the entries give when they are
    /// placed one after another: of two entries with the same exponents
    /// the later one stays, in the place of the earlier.
    pub fn new(dictionary: Vec<(Exponents, FieldElement)>) -> (r: MPolynomial)
        ensures
            r.terms() == placed_all(Seq::empty(), terms_of(dictionary@)),
            forall|f: Field| all_in(coefficients_of(dictionary@), f) ==> r.over(f),
    {
        let mut out: Vec<(Exponents, FieldElement)> = Vec::new();
        let mut i: usize = 0;
        proof {
            assert(terms_of(dictionary@).take(0) =~= Seq::<Term>::empty());
            assert(terms_of(out@) =~= Seq::<Term>::empty());
        }
        while i < dictionary.len()
            invariant
                i <= dictionary@.len(),
                terms_of(out@) == placed_all(Seq::empty(), terms_of(dictionary@).take(i as int)),
                forall|f: Field|
                    all_in(coefficients_of(dictionary@), f) ==> all_in(coefficients_of(out@), f),
            decreases dictionary@.len() - i,
        {
            let key: Vec<i32> = clone_exponents(&dictionary[i].0.0);
            let value: FieldElement = dictionary[i].1;
            proof {
                let items = terms_of(dictionary@);
                assert(items.take(i + 1).drop_last() =~= items.take(i as int));
                assert(items.take(i + 1).last() == (key@, value.value as int));
                assert forall|f: Field| all_in(coefficients_of(dictionary@), f) implies value.wf()
                    && value.field == f by {
                    assert(coefficients_of(dictionary@)[i as int].wf());
                }
            }
            place(&mut out, key, value);
            i = i + 1;
        }
        proof {
            assert(terms_of(dictionary@).take(i as int) =~= terms_of(dictionary@));
        }
        MPolynomial { dictionary: out }
    }

    /// The polynomial without entries.
    pub fn zero() -> (r: MPolynomial)
        ensures
            r.dictionary@.len() == 0,
    {
        MPolynomial { dictionary: Vec::new() }
    }

    /// The constant polynomial: one entry, with the exponent zero of one variable.
    pub fn constant(element: FieldElement) -> (r: MPolynomial)
        ensures
            r.terms() == seq![(seq![0i32], element.value as int)],
            r.dictionary@.len() == 1,
            r.dictionary@[0].1 == element,
    {
        let mut key: Vec<i32> = Vec::new();
        key.push(0);
        let mut dictionary: Vec<(Exponents, FieldElement)> = Vec::new();
        dictionary.push((Exponents(key), element));
        let r = MPolynomial { dictionary };
        assert(r.terms() =~= seq![(seq![0i32], element.value as int)]);
        r
    }

    /// Whether every coefficient is zero.
    pub fn is_zero(&self) -> (b: bool)
        ensures
            b == (forall|i: int| 0 <= i < self.terms().len() ==> (#[trigger] self.terms()[i]).1 == 0),
    {
        let mut i: usize = 0;
        while i < self.dictionary.len()
            invariant
                i <= self.dictionary@.len(),
                forall|k: int| 0 <= k < i ==> (#[trigger] self.terms()[k]).1 == 0,
            decreases self.dictionary@.len() - i,
        {
            if !self.dictionary[i].1.is_zero() {
                assert(self.terms()[i as int].1 != 0);
                return false;
            }
            i = i + 1;
        }
        true
    }

    /// The variables of a polynomial ring in `num_variables` variables:
    /// for each, the polynomial that is that variable, with the
    /// coefficient `one`.
    pub fn variables(num_variables: usize, one: FieldElement) -> (out: Vec<MPolynomial>)
        ensures
            out@.len() == num_variables,
            forall|i: int|
                0 <= i < num_variables ==> (#[trigger] out@[i]).terms() == seq![
                    (unit_exponents(num_variables as nat, i), one.value as int),
                ] && out@[i].dictionary@.len() == 1 && out@[i].dictionary@[0].1 == one,
    {
        let mut out: Vec<MPolynomial> = Vec::new();
        let mut i: usize = 0;
        while i < num_variables
            invariant
                i <= num_variables,
                out@.len() == i,
                forall|j: int|
                    0 <= j < i ==> (#[trigger] out@[j]).terms() == seq![
                        (unit_exponents(num_variables as nat, j), one.value as int),
                    ] && out@[j].dictionary@.len() == 1 && out@[j].dictionary@[0].1 == one,
            decreases num_variables - i,
        {
            let mut key: Vec<i32> = Vec::new();
            let mut k: usize = 0;
            while k < num_variables
                invariant
                    k <= num_variables,
                    i < num_variables,
                    key@.len() == k,
                    forall|m: int|
                        0 <= m < k ==> key@[m] == (if m == i {
                            1i32
                        } else {
                            0i32
                        }),
                decreases num_variables - k,
            {
                if k == i {
                    key.push(1);
                } else {
                    key.push(0);
                }
                k = k + 1;
            }
            assert(key@ =~= unit_exponents(num_variables as nat, i as int));
            let mut dictionary: Vec<(Exponents, FieldElement)> = Vec::new();
            dictionary.push((Exponents(key), one));
            let variable = MPolynomial { dictionary };
            assert(variable.terms() =~= seq![
                (unit_exponents(num_variables as nat, i as int), one.value as int),
            ]);
            out.push(variable);
            i = i + 1;
        }
        out
    }

    /// The exponents for `num_variables` variables: cut to the first
    /// `num_variables`, or filled up with zeros.
    pub fn pad_exponents(&self, exponents: &Exponents, num_variables: usize) -> (out: Exponents)
        ensures
            out.0@ == padded(exponents.0@, num_variables as nat),
    {
        Exponents(pad(&exponents.0, num_variables))
    }

    /// The additive inverse: every coefficient negated.
    pub fn negated(&self) -> (r: MPolynomial)
        requires
            self.wf(),
        ensures
            r.wf(),
            r.dictionary@.len() == self.dictionary@.len(),
            r.terms() == negated_terms(self.terms(), self.dictionary@[0].1.field.p as int),
            forall|i: int|
                0 <= i < self.dictionary@.len() ==> (#[trigger] r.dictionary@[i]).1.field
                    == self.dictionary@[0].1.field,
    {
        let mut out: Vec<(Exponents, FieldElement)> = Vec::new();
        let mut i: usize = 0;
        while i < self.dictionary.len()
            invariant
                i <= self.dictionary@.len(),
                self.wf(),
                out@.len() == i,
                forall|k: int|
                    0 <= k < i ==> (#[trigger] out@[k]).0.0@ == self.dictionary@[k].0.0@
                        && out@[k].1.wf() && out@[k].1.field == self.dictionary@[0].1.field
                        && out@[k].1.value == (-self.dictionary@[k].1.value) % (
                    self.dictionary@[0].1.field.p as int),
            decreases self.dictionary@.len() - i,
        {
            let key: Vec<i32> = clone_exponents(&self.dictionary[i].0.0);
            let value: FieldElement = self.dictionary[i].1;
            proof {
                assert(coefficients_of(self.dictionary@)[i as int].wf());
            }
            out.push((Exponents(key), value.field.negate(value)));
            i = i + 1;
        }
        let r = MPolynomial { dictionary: out };
        proof {
            if r.dictionary@.len() > 0 {
                assert forall|k: int| 0 <= k < r.dictionary@.len() implies (
                #[trigger] coefficients_of(r.dictionary@)[k]).wf() && coefficients_of(
                    r.dictionary@,
                )[k].field == r.dictionary@[0].1.field by {
                    assert(out@[k].1.wf());
                    assert(out@[0].1.wf());
                }
            }
            assert(r.terms() =~= negated_terms(
                self.terms(),
                self.dictionary@[0].1.field.p as int,
            ));
        }
        r
    }
}

/// The exponents for `n` variables: cut to the first `n`, or filled up with zeros.
pub fn pad(exponents: &Vec<i32>, n: usize) -> (out: Vec<i32>)
    ensures
        out@ == padded(exponents@, n as nat),
{
    let mut out: Vec<i32> = Vec::new();
    let mut i: usize = 0;
    while i < n
        invariant
            i <= n,
            out@.len() == i,
            forall|k: int|
                0 <= k < i ==> out@[k] == (if k < exponents@.len() {
                    exponents@[k]
                } else {
                    0i32
                }),
        decreases n - i,
    {
        if i < exponents.len() {
            out.push(exponents[i]);
        } else {
            out.push(0);
        }
        i = i + 1;
    }
    assert(out@ =~= padded(exponents@, n as nat));
    out
}

/// The value of a monomial at a point: the product of the powers of the
/// coordinates.
pub open spec fn monomial_value(exponents: Seq<i32>, point: Seq<int>, p: int) -> int
    decreases exponents.len(),
{
    if exponents.len() == 0 {
        1int % p
    } else {
        (monomial_value(exponents.drop_last(), point, p) * pow_mod(
            point[exponents.len() - 1],
            exponents.last() as nat,
            p,
        )) % p
    }
}

/// The value of a list of entries at a point: the sum of the coefficients
/// times the values of their monomials.
pub open spec fn terms_value(terms: Seq<Term>, point: Seq<int>, p: int) -> int
    decreases terms.len(),
{
    if terms.len() == 0 {
        0
    } else {
        (terms_value(terms.drop_last(), point, p) + terms.last().1 * monomial_value(
            terms.last().0,
            point,
            p,
        )) % p
    }
}

/// Every entry with its coefficient multiplied by the value of its monomial.
pub open spec fn weighted_terms(terms: Seq<Term>, point: Seq<int>, p: int) -> Seq<Term> {
    Seq::new(
        terms.len(),
        |i: int| (terms[i].0, (terms[i].1 * monomial_value(terms[i].0, point, p)) % p),
    )
}

/// The exponent of variable `m`; zero beyond the end.
pub open spec fn exponent_at(exponents: Seq<i32>, m: int) -> int {
    if 0 <= m < exponents.len() {
        exponents[m] as int
    } else {
        0
    }
}

/// The exponents of the product of two monomials in `n` variables.
pub open spec fn key_sum(first: Seq<i32>, second: Seq<i32>, n: nat) -> Seq<i32> {
    Seq::new(n, |m: int| (exponent_at(first, m) + exponent_at(second, m)) as i32)
}

/// The sums of the exponents of two monomials fit the exponent type.
pub open spec fn pair_fits(first: Seq<i32>, second: Seq<i32>) -> bool {
    forall|m: int|
        0 <= m ==> i32::MIN <= #[trigger] exponent_at(first, m) + exponent_at(second, m)
            <= i32::MAX
}

/// The sums of the exponents of each two entries fit the exponent type.
pub open spec fn products_fit(first: Seq<Term>, second: Seq<Term>) -> bool {
    forall|i: int, j: int|
        0 <= i < first.len() && 0 <= j < second.len() ==> pair_fits(
            (#[trigger] first[i]).0,
            (#[trigger] second[j]).0,
        )
}

/// Every entry with its coefficient negated.
pub open spec fn negated_terms(terms: Seq<Term>, p: int) -> Seq<Term> {
    Seq::new(terms.len(), |i: int| (terms[i].0, (-terms[i].1) % p))
}

/// The constant one: one entry, with the exponent zero of one variable.
pub open spec fn unit_terms() -> Seq<Term> {
    seq![(seq![0i32], 1int)]
}

/// The power of a dictionary, by squaring and multiplying: the square of
/// the power with half the exponent, times the dictionary once more for
/// an odd exponent; the constant one for the exponent zero.
pub open spec fn power_terms(terms: Seq<Term>, e: nat, p: int) -> Seq<Term>
    decreases e,
{
    if e == 0 {
        unit_terms()
    } else {
        let half = power_terms(terms, e / 2, p);
        let square = times_terms(half, half, p);
        if e % 2 == 1 {
            times_terms(square, terms, p)
        } else {
            square
        }
    }
}

/// Every product on the way to the power fits the exponent type.
pub open spec fn power_fits(terms: Seq<Term>, e: nat, p: int) -> bool
    decreases e,
{
    e == 0 || {
        let half = power_terms(terms, e / 2, p);
        let square = times_terms(half, half, p);
        &&& power_fits(terms, e / 2, p)
        &&& products_fit(half, half)
        &&& e % 2 == 1 ==> products_fit(square, terms)
    }
}

/// The exponents of the `i`-th power of the variable `variable`.
pub open spec fn power_exponents(variable: int, i: int) -> Seq<i32> {
    Seq::new(
        (variable + 1) as nat,
        |k: int|
            if k == variable {
                i as i32
            } else {
                0i32
            },
    )
}

/// The dictionary that merging into `terms` the products of one entry
/// with each entry of `items` gives.
pub open spec fn product_row(terms: Seq<Term>, entry: Term, items: Seq<Term>, n: nat, p: int) -> Seq<
    Term,
>
    decreases items.len(),
{
    if items.len() == 0 {
        terms
    } else {
        merged(
            product_row(terms, entry, items.drop_last(), n, p),
            key_sum(entry.0, items.last().0, n),
            (entry.1 * items.last().1) % p,
            p,
        )
    }
}

/// The dictionary that merging into `terms` the products of each entry of
/// `first` with each entry of `second` gives.
pub open spec fn product_terms(
    terms: Seq<Term>,
    first: Seq<Term>,
    second: Seq<Term>,
    n: nat,
    p: int,
) -> Seq<Term>
    decreases first.len(),
{
    if first.len() == 0 {
        terms
    } else {
        product_row(
            product_terms(terms, first.drop_last(), second, n, p),
            first.last(),
            second,
            n,
            p,
        )
    }
}

/// The number of variables of a sum or a product of two dictionaries.
pub open spec fn joint_arity(first: Seq<Term>, second: Seq<Term>) -> nat {
    if arity(first) >= arity(second) {
        arity(first)
    } else {
        arity(second)
    }
}

/// The sum of two dictionaries: the entries of the first, padded and
/// placed, and the entries of the second, padded and merged.
pub open spec fn sum_terms(first: Seq<Term>, second: Seq<Term>, p: int) -> Seq<Term> {
    let n = joint_arity(first, second);
    merged_all(placed_all(Seq::empty(), padded_terms(first, n)), padded_terms(second, n), p)
}

/// The product of two dictionaries.
pub open spec fn times_terms(first: Seq<Term>, second: Seq<Term>, p: int) -> Seq<Term> {
    product_terms(Seq::empty(), first, second, joint_arity(first, second), p)
}

/// The largest number of variables of an entry.
pub fn arity_of(dictionary: &Vec<(Exponents, FieldElement)>) -> (n: usize)
    ensures
        n == arity(terms_of(dictionary@)),
{
    let mut n: usize = 0;
    let mut i: usize = 0;
    proof {
        assert(terms_of(dictionary@).take(0) =~= Seq::<Term>::empty());
    }
    while i < dictionary.len()
        invariant
            i <= dictionary@.len(),
            n == arity(terms_of(dictionary@).take(i as int)),
        decreases dictionary@.len() - i,
    {
        proof {
            let items = terms_of(dictionary@);
            assert(items.take(i + 1).drop_last() =~= items.take(i as int));
        }
        let len: usize = dictionary[i].0.0.len();
        if len > n {
            n = len;
        }
        i = i + 1;
    }
    proof {
        assert(terms_of(dictionary@).take(i as int) =~= terms_of(dictionary@));
    }
    n
}

/// The exponents of the product of two monomials in `n` variables.
pub fn add_exponents(first: &Vec<i32>, second: &Vec<i32>, n: usize) -> (out: Vec<i32>)
    requires
        pair_fits(first@, second@),
    ensures
        out@ == key_sum(first@, second@, n as nat),
{
    let mut out: Vec<i32> = Vec::new();
    let mut m: usize = 0;
    while m < n
        invariant
            m <= n,
            out@.len() == m,
            pair_fits(first@, second@),
            forall|k: int|
                0 <= k < m ==> out@[k] == (exponent_at(first@, k) + exponent_at(second@, k)) as i32,
        decreases n - m,
    {
        let a: i32 = if m < first.len() {
            first[m]
        } else {
            0
        };
        let b: i32 = if m < second.len() {
            second[m]
        } else {
            0
        };
        proof {
            assert(i32::MIN <= exponent_at(first@, m as int) + exponent_at(second@, m as int)
                <= i32::MAX);
        }
        out.push(a + b);
        m = m + 1;
    }
    assert(out@ =~= key_sum(first@, second@, n as nat));
    out
}

/// Whether the sums of the exponents of two monomials fit the exponent type.
pub fn pair_sums_fit(first: &Vec<i32>, second: &Vec<i32>) -> (b: bool)
    ensures
        b == pair_fits(first@, second@),
{
    let n: usize = if first.len() >= second.len() {
        first.len()
    } else {
        second.len()
    };
    let mut m: usize = 0;
    while m < n
        invariant
            m <= n,
            n >= first@.len(),
            n >= second@.len(),
            forall|k: int|
                0 <= k < m ==> i32::MIN <= #[trigger] exponent_at(first@, k) + exponent_at(
                    second@,
                    k,
                ) <= i32::MAX,
        decreases n - m,
    {
        let a: i32 = if m < first.len() {
            first[m]
        } else {
            0
        };
        let b: i32 = if m < second.len() {
            second[m]
        } else {
            0
        };
        if a.checked_add(b).is_none() {
            assert(!(i32::MIN <= exponent_at(first@, m as int) + exponent_at(second@, m as int)
                <= i32::MAX));
            return false;
        }
        m = m + 1;
    }
    assert forall|k: int| 0 <= k implies i32::MIN <= #[trigger] exponent_at(first@, k)
        + exponent_at(second@, k) <= i32::MAX by {
        if k >= n {
            assert(exponent_at(first@, k) == 0 && exponent_at(second@, k) == 0);
        }
    }
    true
}

/// The value of a monomial at a point.
pub fn monomial_at(exponents: &Vec<i32>, values: &[FieldElement]) -> (r: FieldElement)
    requires
        values@.len() >= 1,
        exponents@.len() <= values@.len(),
        all_in(values@, values@[0].field),
        forall|k: int| 0 <= k < exponents@.len() ==> exponents@[k] >= 0,
    ensures
        r.wf(),
        r.field == values@[0].field,
        r.value == monomial_value(exponents@, values_of(values@), values@[0].field.p as int),
{
    let field: Field = values[0].field;
    let ghost point = values_of(values@);
    let ghost p = field.p as int;
    let mut acc: FieldElement = field.one();
    let mut k: usize = 0;
    proof {
        assert(values@[0].wf());
        lemma_small_mod(1, p as nat);
        assert(exponents@.take(0) =~= Seq::<i32>::empty());
    }
    while k < exponents.len()
        invariant
            k <= exponents@.len(),
            exponents@.len() <= values@.len(),
            values@.len() >= 1,
            all_in(values@, field),
            forall|m: int| 0 <= m < exponents@.len() ==> exponents@[m] >= 0,
            point == values_of(values@),
            p == field.p,
            acc.wf(),
            acc.field == field,
            acc.value == monomial_value(exponents@.take(k as int), point, p),
        decreases exponents@.len() - k,
    {
        let x: FieldElement = values[k];
        let e: i32 = exponents[k];
        proof {
            assert(values@[k as int].wf());
            assert(exponents@.take(k + 1).drop_last() =~= exponents@.take(k as int));
            assert(point[k as int] == x.value);
        }
        let factor: FieldElement = field.pow(x.value, e as i128);
        acc = field.mul(acc, factor);
        k = k + 1;
    }
    proof {
        assert(exponents@.take(k as int) =~= exponents@);
    }
    acc
}

impl MPolynomial {
    /// The entries fit a point of `n` coordinates: no entry has more variables.
    pub open spec fn fits_point(&self, n: nat) -> bool {
        forall|i: int|
            0 <= i < self.dictionary@.len() ==> (#[trigger] self.dictionary@[i]).0.0@.len() <= n
    }

    /// The value at the point `values`.
    pub fn evaluate(&self, values: &[FieldElement]) -> (r: FieldElement)
        requires
            values@.len() >= 1,
            all_in(values@, values@[0].field),
            self.over(values@[0].field),
            self.natural(),
            self.fits_point(values@.len()),
        ensures
            r.wf(),
            r.field == values@[0].field,
            r.value == terms_value(self.terms(), values_of(values@), values@[0].field.p as int),
    {
        let field: Field = values[0].field;
        let ghost point = values_of(values@);
        let ghost p = field.p as int;
        let mut acc: FieldElement = field.zero();
        let mut i: usize = 0;
        proof {
            assert(values@[0].wf());
            assert(self.terms().take(0) =~= Seq::<Term>::empty());
        }
        while i < self.dictionary.len()
            invariant
                i <= self.dictionary@.len(),
                values@.len() >= 1,
                all_in(values@, field),
                field == values@[0].field,
                self.over(field),
                self.natural(),
                self.fits_point(values@.len()),
                point == values_of(values@),
                p == field.p,
                acc.wf(),
                acc.field == field,
                acc.value == terms_value(self.terms().take(i as int), point, p),
            decreases self.dictionary@.len() - i,
        {
            let coefficient: FieldElement = self.dictionary[i].1;
            proof {
                let items = self.terms();
                assert(items.take(i + 1).drop_last() =~= items.take(i as int));
                assert(coefficients_of(self.dictionary@)[i as int].wf());
                assert(self.dictionary@[i as int].0.0@.len() <= values@.len());
                assert forall|k: int| 0 <= k < self.dictionary@[i as int].0.0@.len() implies
                    self.dictionary@[i as int].0.0@[k] >= 0 by {}
            }
            let monomial: FieldElement = monomial_at(&self.dictionary[i].0.0, values);
            proof {
                let m = monomial.value as int;
                let before = terms_value(self.terms().take(i as int), point, p);
                lemma_add_mod_noop_right(before, coefficient.value * m, p);
            }
            acc = field.add(acc, field.mul(coefficient, monomial));
            i = i + 1;
        }
        proof {
            assert(self.terms().take(i as int) =~= self.terms());
        }
        acc
    }

    /// The polynomial with each coefficient multiplied by the value of its
    /// monomial at the point `values`, and the exponents kept.
    pub fn evaluate_symbolic(&self, values: &[FieldElement]) -> (r: MPolynomial)
        requires
            values@.len() >= 1,
            all_in(values@, values@[0].field),
            self.over(values@[0].field),
            self.natural(),
            self.fits_point(values@.len()),
        ensures
            r.over(values@[0].field),
            r.terms() == placed_all(
                Seq::empty(),
                weighted_terms(self.terms(), values_of(values@), values@[0].field.p as int),
            ),
    {
        let field: Field = values[0].field;
        let ghost point = values_of(values@);
        let ghost p = field.p as int;
        let ghost want = weighted_terms(self.terms(), point, p);
        let mut out: Vec<(Exponents, FieldElement)> = Vec::new();
        let mut i: usize = 0;
        proof {
            assert(values@[0].wf());
            assert(want.take(0) =~= Seq::<Term>::empty());
            assert(terms_of(out@) =~= Seq::<Term>::empty());
        }
        while i < self.dictionary.len()
            invariant
                i <= self.dictionary@.len(),
                values@.len() >= 1,
                all_in(values@, field),
                field == values@[0].field,
                field.wf(),
                self.over(field),
                self.natural(),
                self.fits_point(values@.len()),
                point == values_of(values@),
                p == field.p,
                want == weighted_terms(self.terms(), point, p),
                all_in(coefficients_of(out@), field),
                terms_of(out@) == placed_all(Seq::empty(), want.take(i as int)),
            decreases self.dictionary@.len() - i,
        {
            let coefficient: FieldElement = self.dictionary[i].1;
            proof {
                assert(want.take(i + 1).drop_last() =~= want.take(i as int));
                assert(coefficients_of(self.dictionary@)[i as int].wf());
                assert(self.dictionary@[i as int].0.0@.len() <= values@.len());
                assert forall|k: int| 0 <= k < self.dictionary@[i as int].0.0@.len() implies
                    self.dictionary@[i as int].0.0@[k] >= 0 by {}
            }
            let monomial: FieldElement = monomial_at(&self.dictionary[i].0.0, values);
            let key: Vec<i32> = clone_exponents(&self.dictionary[i].0.0);
            let value: FieldElement = field.mul(coefficient, monomial);
            place(&mut out, key, value);
            i = i + 1;
        }
        proof {
            assert(want.take(i as int) =~= want);
        }
        MPolynomial { dictionary: out }
    }

    /// Two polynomials can be combined: they share a field, or one of
    /// them has no entry.
    pub open spec fn agrees(&self, other: &MPolynomial) -> bool {
        self.dictionary@.len() == 0 || other.dictionary@.len() == 0 || self.dictionary@[0].1.field
            == other.dictionary@[0].1.field
    }

    /// The modulus of a combination of two polynomials.
    pub open spec fn joint_modulus(&self, other: &MPolynomial) -> int {
        if self.dictionary@.len() > 0 {
            self.dictionary@[0].1.field.p as int
        } else {
            other.dictionary@[0].1.field.p as int
        }
    }

    /// The sum: the entries of both, padded to the same number of
    /// variables, with the coefficients of equal monomials added.
    pub fn plus(&self, other: &MPolynomial) -> (r: MPolynomial)
        requires
            self.wf(),
            other.wf(),
            self.agrees(other),
        ensures
            r.wf(),
            r.terms() == sum_terms(self.terms(), other.terms(), self.joint_modulus(other)),
    {
        let first: usize = arity_of(&self.dictionary);
        let second: usize = arity_of(&other.dictionary);
        let n: usize = if first >= second {
            first
        } else {
            second
        };
        let ghost p = self.joint_modulus(other);
        let ghost mine = padded_terms(self.terms(), n as nat);
        let ghost theirs = padded_terms(other.terms(), n as nat);
        let mut out: Vec<(Exponents, FieldElement)> = Vec::new();
        let mut i: usize = 0;
        proof {
            assert(mine.take(0) =~= Seq::<Term>::empty());
            assert(terms_of(out@) =~= Seq::<Term>::empty());
        }
        while i < self.dictionary.len()
            invariant
                i <= self.dictionary@.len(),
                self.wf(),
                mine == padded_terms(self.terms(), n as nat),
                self.dictionary@.len() > 0 ==> all_in(
                    coefficients_of(out@),
                    self.dictionary@[0].1.field,
                ),
                self.dictionary@.len() == 0 ==> out@.len() == 0,
                terms_of(out@) == placed_all(Seq::empty(), mine.take(i as int)),
            decreases self.dictionary@.len() - i,
        {
            let key: Vec<i32> = pad(&self.dictionary[i].0.0, n);
            let value: FieldElement = self.dictionary[i].1;
            proof {
                assert(mine.take(i + 1).drop_last() =~= mine.take(i as int));
                assert(coefficients_of(self.dictionary@)[i as int].wf());
            }
            place(&mut out, key, value);
            i = i + 1;
        }
        let ghost placed_mine = terms_of(out@);
        let mut j: usize = 0;
        proof {
            assert(mine.take(i as int) =~= mine);
            assert(theirs.take(0) =~= Seq::<Term>::empty());
            if other.dictionary@.len() > 0 && self.dictionary@.len() == 0 {
                assert(all_in(coefficients_of(out@), other.dictionary@[0].1.field)) by {
                    assert(coefficients_of(other.dictionary@)[0].wf());
                }
            }
        }
        while j < other.dictionary.len()
            invariant
                j <= other.dictionary@.len(),
                other.wf(),
                theirs == padded_terms(other.terms(), n as nat),
                other.dictionary@.len() > 0 ==> all_in(
                    coefficients_of(out@),
                    other.dictionary@[0].1.field,
                ) && p == other.dictionary@[0].1.field.p,
                other.dictionary@.len() == 0 ==> terms_of(out@) == placed_mine,
                other.dictionary@.len() == 0 ==> (self.dictionary@.len() > 0 ==> all_in(
                    coefficients_of(out@),
                    self.dictionary@[0].1.field,
                )),
                other.dictionary@.len() == 0 && self.dictionary@.len() == 0 ==> out@.len() == 0,
                terms_of(out@) == merged_all(placed_mine, theirs.take(j as int), p),
            decreases other.dictionary@.len() - j,
        {
            let key: Vec<i32> = pad(&other.dictionary[j].0.0, n);
            let value: FieldElement = other.dictionary[j].1;
            proof {
                assert(theirs.take(j + 1).drop_last() =~= theirs.take(j as int));
                assert(coefficients_of(other.dictionary@)[j as int].wf());
            }
            merge(&mut out, key, value);
            j = j + 1;
        }
        proof {
            assert(theirs.take(j as int) =~= theirs);
        }
        let r = MPolynomial { dictionary: out };
        proof {
            if r.dictionary@.len() > 0 {
                assert(coefficients_of(r.dictionary@)[0].wf());
            }
        }
        r
    }

    /// The difference: the sum with the additive inverse.
    pub fn minus(&self, other: &MPolynomial) -> (r: MPolynomial)
        requires
            self.wf(),
            other.wf(),
            self.agrees(other),
        ensures
            r.wf(),
            r.terms() == sum_terms(
                self.terms(),
                negated_terms(other.terms(), other.dictionary@[0].1.field.p as int),
                self.joint_modulus(other),
            ),
    {
        let inverse: MPolynomial = other.negated();
        self.plus(&inverse)
    }

    /// The product: each entry of the one times each entry of the other,
    /// with the coefficients of equal monomials added.
    pub fn times(&self, other: &MPolynomial) -> (r: MPolynomial)
        requires
            self.wf(),
            other.wf(),
            self.agrees(other),
            products_fit(self.terms(), other.terms()),
        ensures
            r.wf(),
            r.terms() == times_terms(self.terms(), other.terms(), self.joint_modulus(other)),
            forall|f: Field| self.over(f) && other.over(f) ==> r.over(f),
    {
        let first: usize = arity_of(&self.dictionary);
        let second: usize = arity_of(&other.dictionary);
        let n: usize = if first >= second {
            first
        } else {
            second
        };
        let ghost p = self.joint_modulus(other);
        let ghost mine = self.terms();
        let ghost theirs = other.terms();
        let mut out: Vec<(Exponents, FieldElement)> = Vec::new();
        let mut i: usize = 0;
        proof {
            assert(mine.take(0) =~= Seq::<Term>::empty());
            assert(terms_of(out@) =~= Seq::<Term>::empty());
        }
        while i < self.dictionary.len()
            invariant
                i <= self.dictionary@.len(),
                self.wf(),
                other.wf(),
                self.agrees(other),
                products_fit(mine, theirs),
                mine == self.terms(),
                theirs == other.terms(),
                p == self.joint_modulus(other),
                out@.len() > 0 ==> self.dictionary@.len() > 0 && other.dictionary@.len() > 0,
                self.dictionary@.len() > 0 ==> all_in(
                    coefficients_of(out@),
                    self.dictionary@[0].1.field,
                ),
                terms_of(out@) == product_terms(
                    Seq::empty(),
                    mine.take(i as int),
                    theirs,
                    n as nat,
                    p,
                ),
            decreases self.dictionary@.len() - i,
        {
            let a: FieldElement = self.dictionary[i].1;
            let ghost row_start = terms_of(out@);
            let mut j: usize = 0;
            proof {
                assert(mine.take(i + 1).drop_last() =~= mine.take(i as int));
                assert(theirs.take(0) =~= Seq::<Term>::empty());
                assert(coefficients_of(self.dictionary@)[i as int].wf());
            }
            while j < other.dictionary.len()
                invariant
                    j <= other.dictionary@.len(),
                    i < self.dictionary@.len(),
                    self.wf(),
                    other.wf(),
                    self.agrees(other),
                    products_fit(mine, theirs),
                    mine == self.terms(),
                    theirs == other.terms(),
                    p == self.joint_modulus(other),
                    a == self.dictionary@[i as int].1,
                    a.wf(),
                    a.field == self.dictionary@[0].1.field,
                    all_in(coefficients_of(out@), self.dictionary@[0].1.field),
                    terms_of(out@) == product_row(
                        row_start,
                        mine[i as int],
                        theirs.take(j as int),
                        n as nat,
                        p,
                    ),
                decreases other.dictionary@.len() - j,
            {
                let b: FieldElement = other.dictionary[j].1;
                proof {
                    assert(theirs.take(j + 1).drop_last() =~= theirs.take(j as int));
                    assert(coefficients_of(other.dictionary@)[j as int].wf());
                    assert(pair_fits(mine[i as int].0, theirs[j as int].0));
                }
                let key: Vec<i32> = add_exponents(
                    &self.dictionary[i].0.0,
                    &other.dictionary[j].0.0,
                    n,
                );
                let value: FieldElement = a.field.mul(a, b);
                merge(&mut out, key, value);
                j = j + 1;
            }
            proof {
                assert(theirs.take(j as int) =~= theirs);
            }
            i = i + 1;
        }
        proof {
            assert(mine.take(i as int) =~= mine);
        }
        let r = MPolynomial { dictionary: out };
        proof {
            if r.dictionary@.len() > 0 {
                assert(coefficients_of(r.dictionary@)[0].wf());
                assert(coefficients_of(self.dictionary@)[0].wf());
                assert(coefficients_of(other.dictionary@)[0].wf());
            }
            assert forall|f: Field| self.over(f) && other.over(f) implies r.over(f) by {
                if self.dictionary@.len() > 0 {
                    assert(coefficients_of(self.dictionary@)[0].wf());
                } else {
                    assert(coefficients_of(r.dictionary@) =~= Seq::<FieldElement>::empty());
                }
            }
        }
        r
    }

    /// Whether the sums of the exponents of each two entries fit the
    /// exponent type, so that the product can be formed.
    pub fn exponents_fit(&self, other: &MPolynomial) -> (b: bool)
        ensures
            b == products_fit(self.terms(), other.terms()),
    {
        let mut i: usize = 0;
        while i < self.dictionary.len()
            invariant
                i <= self.dictionary@.len(),
                forall|a: int, c: int|
                    0 <= a < i && 0 <= c < other.terms().len() ==> pair_fits(
                        (#[trigger] self.terms()[a]).0,
                        (#[trigger] other.terms()[c]).0,
                    ),
            decreases self.dictionary@.len() - i,
        {
            let mut j: usize = 0;
            while j < other.dictionary.len()
                invariant
                    j <= other.dictionary@.len(),
                    i < self.dictionary@.len(),
                    forall|c: int|
                        0 <= c < j ==> pair_fits(
                            self.terms()[i as int].0,
                            (#[trigger] other.terms()[c]).0,
                        ),
                decreases other.dictionary@.len() - j,
            {
                if !pair_sums_fit(&self.dictionary[i].0.0, &other.dictionary[j].0.0) {
                    assert(!pair_fits(self.terms()[i as int].0, other.terms()[j as int].0));
                    return false;
                }
                j = j + 1;
            }
            i = i + 1;
        }
        true
    }

    /// The power with exponent `exponent`, or nothing where a product on
    /// the way does not fit the exponent type.
    pub fn checked_pow(&self, exponent: u32) -> (res: Option<MPolynomial>)
        requires
            self.wf(),
            self.dictionary@.len() > 0,
        ensures
            res is Some <==> power_fits(
                self.terms(),
                exponent as nat,
                self.dictionary@[0].1.field.p as int,
            ),
            res is Some ==> res->Some_0.over(self.dictionary@[0].1.field) && res->Some_0.terms()
                == power_terms(self.terms(), exponent as nat, self.dictionary@[0].1.field.p as int),
        decreases exponent,
    {
        let field: Field = self.dictionary[0].1.field;
        proof {
            assert(coefficients_of(self.dictionary@)[0].wf());
        }
        if exponent == 0 {
            return Some(self.pow_terms(0));
        }
        let half: MPolynomial = match self.checked_pow(exponent / 2) {
            Some(h) => h,
            None => {
                return None;
            },
        };
        proof {
            if half.dictionary@.len() > 0 {
                assert(coefficients_of(half.dictionary@)[0].wf());
            }
        }
        if !half.exponents_fit(&half) {
            return None;
        }
        let square: MPolynomial = half.times(&half);
        proof {
            if square.dictionary@.len() > 0 {
                assert(coefficients_of(square.dictionary@)[0].wf());
            }
        }
        if exponent % 2 == 1 {
            if !square.exponents_fit(self) {
                return None;
            }
            Some(square.times(self))
        } else {
            Some(square)
        }
    }

    /// The power of a polynomial with an entry, by squaring and multiplying.
    fn pow_terms(&self, exponent: u32) -> (r: MPolynomial)
        requires
            self.dictionary@.len() > 0,
            self.wf(),
            power_fits(self.terms(), exponent as nat, self.dictionary@[0].1.field.p as int),
        ensures
            r.over(self.dictionary@[0].1.field),
            r.dictionary@.len() > 0 ==> r.dictionary@[0].1.field == self.dictionary@[0].1.field,
            r.terms() == power_terms(
                self.terms(),
                exponent as nat,
                self.dictionary@[0].1.field.p as int,
            ),
        decreases exponent,
    {
        let field: Field = self.dictionary[0].1.field;
        proof {
            assert(coefficients_of(self.dictionary@)[0].wf());
        }
        if exponent == 0 {
            let unit: MPolynomial = MPolynomial::constant(field.one());
            assert(unit.over(field)) by {
                assert forall|k: int| 0 <= k < 1 implies (#[trigger] coefficients_of(
                    unit.dictionary@,
                )[k]).wf() && coefficients_of(unit.dictionary@)[k].field == field by {}
            }
            assert(coefficients_of(unit.dictionary@)[0].wf());
            return unit;
        }
        let half: MPolynomial = self.pow_terms(exponent / 2);
        proof {
            if half.dictionary@.len() > 0 {
                assert(coefficients_of(half.dictionary@)[0].wf());
            }
        }
        let square: MPolynomial = half.times(&half);
        proof {
            if square.dictionary@.len() > 0 {
                assert(coefficients_of(square.dictionary@)[0].wf());
            }
        }
        let r: MPolynomial = if exponent % 2 == 1 {
            square.times(self)
        } else {
            square
        };
        proof {
            if r.dictionary@.len() > 0 {
                assert(coefficients_of(r.dictionary@)[0].wf());
            }
        }
        r
    }

    /// The power with exponent `exponent`, by squaring and multiplying;
    /// the polynomial without entries for a polynomial that is zero.
    pub fn pow(&self, exponent: u32) -> (r: MPolynomial)
        requires
            self.wf(),
            self.dictionary@.len() > 0 ==> power_fits(
                self.terms(),
                exponent as nat,
                self.dictionary@[0].1.field.p as int,
            ),
        ensures
            r.wf(),
            (forall|i: int| 0 <= i < self.terms().len() ==> (#[trigger] self.terms()[i]).1 == 0)
                ==> r.dictionary@.len() == 0,
            !(forall|i: int| 0 <= i < self.terms().len() ==> (#[trigger] self.terms()[i]).1 == 0)
                ==> r.terms() == power_terms(
                self.terms(),
                exponent as nat,
                self.dictionary@[0].1.field.p as int,
            ),
    {
        if self.is_zero() {
            return MPolynomial::zero();
        }
        self.pow_terms(exponent)
    }
}

impl Uni {
    /// The polynomial in several variables that is this polynomial in the
    /// variable `variable_index`: the coefficient of `x^i` becomes the
    /// coefficient of the `i`-th power of that variable.
    pub fn lift(univariate_poly: &Uni, variable_index: usize) -> (r: MPolynomial)
        requires
            univariate_poly.coefficients@.len() <= i32::MAX,
            variable_index < usize::MAX,
        ensures
            r.dictionary@.len() == univariate_poly.coefficients@.len(),
            forall|i: int|
                0 <= i < r.dictionary@.len() ==> (#[trigger] r.dictionary@[i]).1
                    == univariate_poly.coefficients@[i] && r.dictionary@[i].0.0@ == power_exponents(
                    variable_index as int,
                    i,
                ),
    {
        let mut out: Vec<(Exponents, FieldElement)> = Vec::new();
        let mut i: usize = 0;
        while i < univariate_poly.coefficients.len()
            invariant
                i <= univariate_poly.coefficients@.len(),
                univariate_poly.coefficients@.len() <= i32::MAX,
                variable_index < usize::MAX,
                out@.len() == i,
                forall|k: int|
                    0 <= k < i ==> (#[trigger] out@[k]).1 == univariate_poly.coefficients@[k]
                        && out@[k].0.0@ == power_exponents(variable_index as int, k),
            decreases univariate_poly.coefficients@.len() - i,
        {
            let mut key: Vec<i32> = Vec::new();
            let mut k: usize = 0;
            while k <= variable_index
                invariant
                    k <= variable_index + 1,
                    variable_index < usize::MAX,
                    i < i32::MAX,
                    key@.len() == k,
                    forall|m: int|
                        0 <= m < k ==> key@[m] == (if m == variable_index {
                            i as i32
                        } else {
                            0i32
                        }),
                decreases variable_index + 1 - k,
            {
                if k == variable_index {
                    key.push(i as i32);
                } else {
                    key.push(0);
                }
                k = k + 1;
            }
            assert(key@ =~= power_exponents(variable_index as int, i as int));
            out.push((Exponents(key), univariate_poly.coefficients[i]));
            i = i + 1;
        }
        MPolynomial { dictionary: out }
    }
}

impl core::ops::Add for MPolynomial {
    type Output = MPolynomial;

    fn add(self, other: MPolynomial) -> (r: MPolynomial)
        ensures
            r.wf(),
            r.terms() == sum_terms(self.terms(), other.terms(), self.joint_modulus(&other)),
    {
        self.plus(&other)
    }
}

impl AddSpecImpl for MPolynomial {
    open spec fn obeys_add_spec() -> bool {
        false
    }

    open spec fn add_req(self, other: MPolynomial) -> bool {
        self.wf() && other.wf() && self.agrees(&other)
    }

    open spec fn add_spec(self, other: MPolynomial) -> MPolynomial {
        self
    }
}

impl core::ops::Sub for MPolynomial {
    type Output = MPolynomial;

    fn sub(self, other: MPolynomial) -> (r: MPolynomial)
        ensures
            r.wf(),
            r.terms() == sum_terms(
                self.terms(),
                negated_terms(other.terms(), other.dictionary@[0].1.field.p as int),
                self.joint_modulus(&other),
            ),
    {
        self.minus(&other)
    }
}

impl SubSpecImpl for MPolynomial {
    open spec fn obeys_sub_spec() -> bool {
        false
    }

    open spec fn sub_req(self, other: MPolynomial) -> bool {
        self.wf() && other.wf() && self.agrees(&other)
    }

    open spec fn sub_spec(self, other: MPolynomial) -> MPolynomial {
        self
    }
}

impl core::ops::Mul for MPolynomial {
    type Output = MPolynomial;

    fn mul(self, other: MPolynomial) -> (r: MPolynomial)
        ensures
            r.wf(),
            r.terms() == times_terms(self.terms(), other.terms(), self.joint_modulus(&other)),
    {
        self.times(&other)
    }
}

impl MulSpecImpl for MPolynomial {
    open spec fn obeys_mul_spec() -> bool {
        false
    }

    open spec fn mul_req(self, other: MPolynomial) -> bool {
        self.wf() && other.wf() && self.agrees(&other) && products_fit(
            self.terms(),
            other.terms(),
        )
    }

    open spec fn mul_spec(self, other: MPolynomial) -> MPolynomial {
        self
    }
}

impl core::ops::Neg for MPolynomial {
    type Output = MPolynomial;

    fn neg(self) -> (r: MPolynomial)
        ensures
            r.wf(),
            r.terms() == negated_terms(self.terms(), self.dictionary@[0].1.field.p as int),
    {
        self.negated()
    }
}

impl NegSpecImpl for MPolynomial {
    open spec fn obeys_neg_spec() -> bool {
        false
    }

    open spec fn neg_req(self) -> bool {
        self.wf()
    }

    open spec fn neg_spec(self) -> MPolynomial {
        self
    }
}

} // verus!
