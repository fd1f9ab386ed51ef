//! The FRI low-degree test: configuration, round schedule and evaluation domain.
use vstd::prelude::*;
use vstd::arithmetic::div_mod::*;
use vstd::arithmetic::mul::*;
use vstd::arithmetic::power::*;
use vstd::arithmetic::power2::*;

use crate::field::arith::pow_mod;
use crate::field::field::Field;
use crate::field::field_element::FieldElement;
use crate::poly::uni::all_in;

pub mod completeness;
pub mod cosets;
pub mod folding;
pub mod prover;
pub mod sampling;
pub mod verification;

verus! {

/// The number of challenge bytes drawn from the transcript.
pub const SEED_LENGTH: usize = 32;

/// The configuration of the protocol: the coset `offset * omega^i` of
/// `domain_length` points on which the first codeword is defined, the
/// ratio of codeword length to degree bound, and the number of
/// colinearity tests of each round.
#[derive(Clone, Copy, Debug)]
pub struct Fri {
    pub offset: FieldElement,
    pub omega: FieldElement,
    pub field: Field,
    pub domain_length: usize,
    pub expansion_factor: usize,
    pub num_colinearity_tests: usize,
}

/// The number of rounds for a codeword of `length`: a codeword is folded
/// as long as it is longer than the expansion factor and than four times
/// the number of colinearity tests.
pub open spec fn rounds(length: nat, expansion: nat, tests: nat) -> nat
    decreases length,
{
    if length > expansion && 4 * tests < length {
        1 + rounds(length / 2, expansion, tests)
    } else {
        0
    }
}

/// `length` halved `times` times.
pub open spec fn halved(length: nat, times: nat) -> nat
    decreases times,
{
    if times == 0 {
        length
    } else {
        halved(length / 2, (times - 1) as nat)
    }
}

/// The point `offset * omega^i` of a coset.
pub open spec fn domain_point(offset: int, omega: int, i: nat, p: int) -> int {
    (offset * pow_mod(omega, i, p)) % p
}

/// The points `offset * omega^i` for `i` below `length`.
pub open spec fn coset(offset: int, omega: int, length: nat, p: int) -> Seq<int> {
    Seq::new(length, |i: int| domain_point(offset, omega, i as nat, p))
}

/// Halving one more time is halving the result of the other times.
pub proof fn lemma_halved_step(length: nat, times: nat)
    ensures
        halved(length, times + 1) == halved(length, times) / 2,
    decreases times,
{
    reveal_with_fuel(halved, 2);
    if times > 0 {
        lemma_halved_step(length / 2, (times - 1) as nat);
    }
}

/// In each of its rounds a codeword is longer than the expansion factor
/// and than four times the number of tests.
pub proof fn lemma_round_lengths(length: nat, expansion: nat, tests: nat, r: nat)
    requires
        r < rounds(length, expansion, tests),
    ensures
        halved(length, r) > expansion,
        4 * tests < halved(length, r),
        rounds(halved(length, r), expansion, tests) == rounds(length, expansion, tests) - r,
    decreases r,
{
    if r > 0 {
        lemma_round_lengths(length / 2, expansion, tests, (r - 1) as nat);
    }
}

/// Halving a power of two as often as it has rounds leaves a power of two.
pub proof fn lemma_halved_pow2(length: nat, times: nat)
    requires
        is_pow2(length as int),
        halved(length, times) >= 1,
    ensures
        is_pow2(halved(length, times) as int),
        times > 0 ==> halved(length, times) * 2 == halved(length, (times - 1) as nat),
        halved(length, times) <= length,
    decreases times,
{
    if times > 0 {
        lemma_halved_step(length, (times - 1) as nat);
        let before = halved(length, (times - 1) as nat);
        assert(before >= 2);
        lemma_halved_pow2(length, (times - 1) as nat);
        reveal(is_pow2);
    }
}

/// The next point of a coset is the last one times `omega`.
pub proof fn lemma_next_point(offset: int, omega: int, i: nat, p: int)
    requires
        p > 0,
    ensures
        domain_point(offset, omega, i + 1, p) == (domain_point(offset, omega, i, p) * omega) % p,
        domain_point(offset, omega, 0, p) == offset % p,
{
    lemma_pow0(omega);
    lemma_pow_adds(omega, i, 1);
    lemma_pow1(omega);
    let e = pow(omega, i);
    lemma_mul_mod_noop_right(offset, e, p);
    lemma_mul_mod_noop_right(offset, e * omega, p);
    lemma_mul_mod_noop_left(offset * e, omega, p);
    lemma_mul_is_associative(offset, e, omega);
    lemma_mul_mod_noop_right(offset, 1, p);
    if p == 1 {
    } else {
        lemma_small_mod(1, p as nat);
    }
}

impl Fri {
    /// The parameters belong to one well-formed field and the expansion
    /// factor is not zero.
    pub open spec fn wf(&self) -> bool {
        &&& self.field.wf()
        &&& self.offset.wf()
        &&& self.omega.wf()
        &&& self.offset.field == self.field
        &&& self.omega.field == self.field
        &&& self.expansion_factor >= 1
    }

    /// The number of rounds of this configuration.
    pub open spec fn spec_num_rounds(&self) -> nat {
        rounds(
            self.domain_length as nat,
            self.expansion_factor as nat,
            self.num_colinearity_tests as nat,
        )
    }

    /// The configuration with the given parameters, in the field of `omega`.
    pub fn new(
        offset: FieldElement,
        omega: FieldElement,
        initial_domain_length: usize,
        expansion_factor: usize,
        num_colinearity_tests: usize,
    ) -> (fri: Fri)
        ensures
            fri.offset == offset,
            fri.omega == omega,
            fri.field == omega.field,
            fri.domain_length == initial_domain_length,
            fri.expansion_factor == expansion_factor,
            fri.num_colinearity_tests == num_colinearity_tests,
    {
        Fri {
            offset,
            omega,
            field: omega.field,
            domain_length: initial_domain_length,
            expansion_factor,
            num_colinearity_tests,
        }
    }

    /// The number of rounds: of codewords that are committed to.
    pub fn num_rounds(&self) -> (n: usize)
        ensures
            n == self.spec_num_rounds(),
    {
        let mut codeword_length: usize = self.domain_length;
        let mut num_rounds: usize = 0;
        while codeword_length > self.expansion_factor && codeword_length >= 1
            && self.num_colinearity_tests <= (codeword_length - 1) / 4
            invariant
                num_rounds + rounds(
                    codeword_length as nat,
                    self.expansion_factor as nat,
                    self.num_colinearity_tests as nat,
                ) == self.spec_num_rounds(),
                num_rounds + codeword_length <= self.domain_length,
            decreases codeword_length,
        {
            codeword_length = codeword_length / 2;
            num_rounds = num_rounds + 1;
        }
        num_rounds
    }

    /// The evaluation domain: `offset * omega^i` for each `i` below the
    /// domain length.
    pub fn eval_domain(&self) -> (out: Vec<FieldElement>)
        requires
            self.wf(),
        ensures
            all_in(out@, self.field),
            crate::poly::uni::values_of(out@) == coset(
                self.offset.value as int,
                self.omega.value as int,
                self.domain_length as nat,
                self.field.p as int,
            ),
    {
        coset_points(self.offset, self.omega, self.domain_length)
    }
}

/// The points `offset * omega^i` for `i` below `length`.
pub fn coset_points(offset: FieldElement, omega: FieldElement, length: usize) -> (out: Vec<
    FieldElement,
>)
    requires
        offset.wf(),
        omega.wf(),
        offset.field == omega.field,
    ensures
        all_in(out@, offset.field),
        crate::poly::uni::values_of(out@) == coset(
            offset.value as int,
            omega.value as int,
            length as nat,
            offset.field.p as int,
        ),
{
    let field: Field = offset.field;
    let mut out: Vec<FieldElement> = Vec::new();
    let mut point: FieldElement = offset;
    let mut i: usize = 0;
    proof {
        lemma_next_point(offset.value as int, omega.value as int, 0, field.p as int);
        lemma_small_mod(offset.value as nat, field.p as nat);
    }
    while i < length
        invariant
            i <= length,
            offset.wf(),
            omega.wf(),
            field == offset.field,
            field == omega.field,
            point.wf(),
            point.field == field,
            point.value == domain_point(
                offset.value as int,
                omega.value as int,
                i as nat,
                field.p as int,
            ),
            out@.len() == i,
            all_in(out@, field),
            forall|j: int|
                0 <= j < i ==> (#[trigger] out@[j]).value == domain_point(
                    offset.value as int,
                    omega.value as int,
                    j as nat,
                    field.p as int,
                ),
        decreases length - i,
    {
        out.push(point);
        proof {
            lemma_next_point(offset.value as int, omega.value as int, i as nat, field.p as int);
        }
        point = field.mul(point, omega);
        i = i + 1;
    }
    assert(crate::poly::uni::values_of(out@) =~= coset(
        offset.value as int,
        omega.value as int,
        length as nat,
        field.p as int,
    ));
    out
}

} // verus!
