//! The verifier's side of the protocol: what a transcript must hold to be
//! accepted, and the function that decides it.
use vstd::prelude::*;
use vstd::arithmetic::mul::*;
use vstd::arithmetic::power2::*;

use crate::bytes::{be_seq, byte_rows, bytes_equal};
use crate::field::arith::pow_mod;
use crate::field::field::Field;
use crate::field::field_element::FieldElement;
use crate::field::power;
use crate::fri::prover::{codeword_leaves, leaf_rows, round_challenge};
use crate::fri::sampling::sampled;
use crate::fri::{
    coset, coset_points, domain_point, halved, lemma_halved_pow2, lemma_halved_step,
    lemma_round_lengths, Fri, SEED_LENGTH,
};
use crate::merkle::{merkle_root, merkle_verify, Merkle};
use crate::poly::algebra::{colinear, degree, distinct, invertible_differences, lagrange};
use crate::poly::uni::{all_in, values_of, Uni};
use crate::proof_object::{decoding, ObjectView, ProofObject};
use crate::proof_stream::{challenge, ProofStream};

verus! {

/// The object at place `pos` of a transcript, if there is one and it decodes.
pub open spec fn object_at(objects: Seq<Seq<u8>>, pos: int) -> Option<ObjectView> {
    if 0 <= pos < objects.len() {
        decoding(objects[pos])
    } else {
        None
    }
}

/// The Merkle root at place `pos`, if a root stands there.
pub open spec fn root_value(objects: Seq<Seq<u8>>, pos: int) -> Option<Seq<u8>> {
    match object_at(objects, pos) {
        Some(ObjectView::Root(bytes)) => Some(bytes),
        _ => None,
    }
}

/// The authentication path at place `pos`, if a path stands there.
pub open spec fn path_value(objects: Seq<Seq<u8>>, pos: int) -> Option<Seq<Seq<u8>>> {
    match object_at(objects, pos) {
        Some(ObjectView::Path(nodes)) => Some(nodes),
        _ => None,
    }
}

/// The three residues at place `pos`, if a triple of values below `p`
/// stands there.
pub open spec fn triple_value(objects: Seq<Seq<u8>>, pos: int, p: int) -> Option<(int, int, int)> {
    match object_at(objects, pos) {
        Some(ObjectView::Triple(a, b, c)) => if a < p && b < p && c < p {
            Some((a as int, b as int, c as int))
        } else {
            None
        },
        _ => None,
    }
}

/// The residues at place `pos`, if a vector of values below `p` stands there.
pub open spec fn codeword_value(objects: Seq<Seq<u8>>, pos: int, p: int) -> Option<Seq<int>> {
    match object_at(objects, pos) {
        Some(ObjectView::Codeword(vals)) => if forall|i: int|
            0 <= i < vals.len() ==> (#[trigger] vals[i]) < p {
            Some(Seq::new(vals.len(), |i: int| vals[i] as int))
        } else {
            None
        },
        _ => None,
    }
}

/// `x` squared `times` times modulo `p`.
pub open spec fn squared_times(x: int, times: nat, p: int) -> int
    decreases times,
{
    if times == 0 {
        x
    } else {
        squared_times((x * x) % p, (times - 1) as nat, p)
    }
}

/// Squaring one more time squares the result of the other times.
pub proof fn lemma_squared_step(x: int, times: nat, p: int)
    ensures
        squared_times(x, times + 1, p) == (squared_times(x, times, p) * squared_times(x, times, p))
            % p,
    decreases times,
{
    reveal_with_fuel(squared_times, 2);
    if times > 0 {
        lemma_squared_step((x * x) % p, (times - 1) as nat, p);
    }
}

/// The index of test `s` in a codeword of which `half` is half the length.
pub open spec fn test_index(top: Seq<usize>, s: int, half: nat) -> int {
    (top[s] as nat % half) as int
}

/// Test `s` of a round passes its colinearity check: the triple at its
/// place holds the values at `x`, at `-x` and, for the folded codeword,
/// at `x^2`, and the three lie on a line with the challenge.
pub open spec fn colinear_at(
    objects: Seq<Seq<u8>>,
    base: int,
    alpha: int,
    top: Seq<usize>,
    offset: int,
    omega: int,
    half: nat,
    p: int,
    s: int,
) -> bool {
    let c = test_index(top, s, half);
    match triple_value(objects, base + s, p) {
        Some((ay, by, cy)) => colinear(
            domain_point(offset, omega, c as nat, p),
            ay,
            domain_point(offset, omega, (c + half) as nat, p),
            by,
            alpha,
            cy,
            p,
        ),
        None => false,
    }
}

/// The three values of test `s` are authenticated: the paths at their
/// places verify the two values of the current codeword against its root
/// and the value of the next codeword against the next root.
pub open spec fn opened_at(
    objects: Seq<Seq<u8>>,
    base: int,
    tests: nat,
    root: Seq<u8>,
    next_root: Seq<u8>,
    top: Seq<usize>,
    half: nat,
    p: int,
    s: int,
) -> bool {
    let c = test_index(top, s, half);
    let at = base + tests + 3 * s;
    match triple_value(objects, base + s, p) {
        Some((ay, by, cy)) => {
            &&& path_value(objects, at) is Some
            &&& path_value(objects, at + 1) is Some
            &&& path_value(objects, at + 2) is Some
            &&& merkle_verify(root, c as nat, path_value(objects, at)->Some_0, be_seq(ay as nat, 16))
            &&& merkle_verify(
                root,
                (c + half) as nat,
                path_value(objects, at + 1)->Some_0,
                be_seq(by as nat, 16),
            )
            &&& merkle_verify(
                next_root,
                c as nat,
                path_value(objects, at + 2)->Some_0,
                be_seq(cy as nat, 16),
            )
        },
        None => false,
    }
}

/// A round passes: every test passes its colinearity check and every
/// value is authenticated.
pub open spec fn round_ok_at(
    objects: Seq<Seq<u8>>,
    base: int,
    tests: nat,
    root: Seq<u8>,
    next_root: Seq<u8>,
    alpha: int,
    top: Seq<usize>,
    offset: int,
    omega: int,
    half: nat,
    p: int,
) -> bool {
    &&& forall|s: int|
        0 <= s < tests ==> #[trigger] colinear_at(objects, base, alpha, top, offset, omega, half, p, s)
    &&& forall|s: int|
        0 <= s < tests ==> #[trigger] opened_at(objects, base, tests, root, next_root, top, half, p, s)
}

/// The value that a round hands out at place `t`: for test `t / 2`, the
/// index and value at `x` if `t` is even, at `-x` if it is odd.
pub open spec fn opening_at(
    objects: Seq<Seq<u8>>,
    base: int,
    top: Seq<usize>,
    half: nat,
    field: Field,
    t: int,
) -> (usize, FieldElement) {
    let s = t / 2;
    let c = test_index(top, s, half);
    let triple = triple_value(objects, base + s, field.p as int)->Some_0;
    if t % 2 == 0 {
        (c as usize, FieldElement { value: triple.0 as i128, field })
    } else {
        ((c + half) as usize, FieldElement { value: triple.1 as i128, field })
    }
}

/// The values that a round hands out: two for each test.
pub open spec fn round_openings(
    objects: Seq<Seq<u8>>,
    base: int,
    tests: nat,
    top: Seq<usize>,
    half: nat,
    field: Field,
) -> Seq<(usize, FieldElement)> {
    Seq::new(2 * tests, |t: int| opening_at(objects, base, top, half, field, t))
}

/// Pulls a Merkle root.
fn pull_root(proof_stream: &mut ProofStream) -> (res: Option<Vec<u8>>)
    requires
        old(proof_stream).wf(),
    ensures
        final(proof_stream).wf(),
        final(proof_stream)@.objects == old(proof_stream)@.objects,
        match res {
            Some(root) => root_value(old(proof_stream)@.objects, old(proof_stream)@.cursor as int)
                == Some(root@) && final(proof_stream)@.cursor == old(proof_stream)@.cursor + 1,
            None => root_value(old(proof_stream)@.objects, old(proof_stream)@.cursor as int)
                is None,
        },
{
    match proof_stream.pull() {
        Ok(ProofObject::Root(bytes)) => Some(bytes),
        _ => None,
    }
}

/// Pulls an authentication path.
fn pull_path(proof_stream: &mut ProofStream) -> (res: Option<Vec<Vec<u8>>>)
    requires
        old(proof_stream).wf(),
    ensures
        final(proof_stream).wf(),
        final(proof_stream)@.objects == old(proof_stream)@.objects,
        match res {
            Some(nodes) => path_value(old(proof_stream)@.objects, old(proof_stream)@.cursor as int)
                == Some(byte_rows(nodes@)) && final(proof_stream)@.cursor == old(
                proof_stream,
            )@.cursor + 1,
            None => path_value(old(proof_stream)@.objects, old(proof_stream)@.cursor as int)
                is None,
        },
{
    match proof_stream.pull() {
        Ok(ProofObject::Path(nodes)) => Some(nodes),
        _ => None,
    }
}

/// Pulls a triple of residues of `field`.
fn pull_triple(proof_stream: &mut ProofStream, field: &Field) -> (res: Option<
    (FieldElement, FieldElement, FieldElement),
>)
    requires
        old(proof_stream).wf(),
        field.wf(),
    ensures
        final(proof_stream).wf(),
        final(proof_stream)@.objects == old(proof_stream)@.objects,
        match res {
            Some((a, b, c)) => {
                &&& triple_value(
                    old(proof_stream)@.objects,
                    old(proof_stream)@.cursor as int,
                    field.p as int,
                ) == Some((a.value as int, b.value as int, c.value as int))
                &&& final(proof_stream)@.cursor == old(proof_stream)@.cursor + 1
                &&& a.wf() && b.wf() && c.wf()
                &&& a.field == *field && b.field == *field && c.field == *field
            },
            None => triple_value(
                old(proof_stream)@.objects,
                old(proof_stream)@.cursor as int,
                field.p as int,
            ) is None,
        },
{
    match proof_stream.pull() {
        Ok(ProofObject::Triple(a, b, c)) => {
            let p: u128 = field.p as u128;
            if a < p && b < p && c < p {
                Some(
                    (
                        FieldElement { value: a as i128, field: *field },
                        FieldElement { value: b as i128, field: *field },
                        FieldElement { value: c as i128, field: *field },
                    ),
                )
            } else {
                None
            }
        },
        _ => None,
    }
}

/// Pulls a vector of residues of `field`.
fn pull_codeword(proof_stream: &mut ProofStream, field: &Field) -> (res: Option<Vec<FieldElement>>)
    requires
        old(proof_stream).wf(),
        field.wf(),
    ensures
        final(proof_stream).wf(),
        final(proof_stream)@.objects == old(proof_stream)@.objects,
        match res {
            Some(codeword) => {
                &&& codeword_value(
                    old(proof_stream)@.objects,
                    old(proof_stream)@.cursor as int,
                    field.p as int,
                ) == Some(values_of(codeword@))
                &&& final(proof_stream)@.cursor == old(proof_stream)@.cursor + 1
                &&& all_in(codeword@, *field)
            },
            None => codeword_value(
                old(proof_stream)@.objects,
                old(proof_stream)@.cursor as int,
                field.p as int,
            ) is None,
        },
{
    match proof_stream.pull() {
        Ok(ProofObject::Codeword(vals)) => residues(&vals, field),
        _ => None,
    }
}

/// The residues of `field` with the given values, if all are below the modulus.
fn residues(vals: &Vec<u128>, field: &Field) -> (res: Option<Vec<FieldElement>>)
    requires
        field.wf(),
    ensures
        match res {
            Some(codeword) => {
                &&& forall|i: int| 0 <= i < vals@.len() ==> (#[trigger] vals@[i]) < field.p
                &&& values_of(codeword@) == Seq::new(vals@.len(), |i: int| vals@[i] as int)
                &&& all_in(codeword@, *field)
            },
            None => !(forall|i: int| 0 <= i < vals@.len() ==> (#[trigger] vals@[i]) < field.p),
        },
{
    let p: u128 = field.p as u128;
    let mut out: Vec<FieldElement> = Vec::new();
    let mut i: usize = 0;
    while i < vals.len()
        invariant
            i <= vals@.len(),
            field.wf(),
            p == field.p,
            out@.len() == i,
            all_in(out@, *field),
            forall|j: int| 0 <= j < i ==> (#[trigger] out@[j]).value == vals@[j],
            forall|j: int| 0 <= j < i ==> (#[trigger] vals@[j]) < p,
        decreases vals@.len() - i,
    {
        let v: u128 = vals[i];
        if v >= p {
            return None;
        }
        out.push(FieldElement { value: v as i128, field: *field });
        i = i + 1;
    }
    assert(values_of(out@) =~= Seq::new(vals@.len(), |j: int| vals@[j] as int));
    Some(out)
}

/// `x` squared `times` times.
fn squared_element(x: FieldElement, times: usize) -> (out: FieldElement)
    requires
        x.wf(),
    ensures
        out.wf(),
        out.field == x.field,
        out.value == squared_times(x.value as int, times as nat, x.field.p as int),
{
    let mut out: FieldElement = x;
    let mut i: usize = 0;
    while i < times
        invariant
            i <= times,
            x.wf(),
            out.wf(),
            out.field == x.field,
            out.value == squared_times(x.value as int, i as nat, x.field.p as int),
        decreases times - i,
    {
        proof {
            lemma_squared_step(x.value as int, i as nat, x.field.p as int);
        }
        out = out.field.mul(out, out);
        i = i + 1;
    }
    out
}

impl Fri {
    /// The configuration can be proved and verified with: it is well
    /// formed, its domain length is a power of two and it has a round.
    pub open spec fn ready(&self) -> bool {
        self.wf() && is_pow2(self.domain_length as int) && self.spec_num_rounds() >= 1
    }

    /// Whether the configuration can be proved and verified with.
    pub fn is_ready(&self) -> (b: bool)
        ensures
            b == self.ready(),
    {
        self.field.is_valid() && self.offset.is_valid() && self.omega.is_valid()
            && self.offset.field.p == self.field.p && self.omega.field.p == self.field.p
            && self.expansion_factor >= 1 && crate::merkle::is_power_of_two(self.domain_length)
            && self.num_rounds() >= 1
    }

    /// The length of the last codeword.
    pub open spec fn last_length(&self) -> nat {
        halved(self.domain_length as nat, (self.spec_num_rounds() - 1) as nat)
    }

    /// The root of round `r` in a proof that begins at place `start`.
    pub open spec fn round_root(&self, objects: Seq<Seq<u8>>, start: int, r: int) -> Option<
        Seq<u8>,
    > {
        root_value(objects, start + r)
    }

    /// The challenge of round `r`: drawn from the transcript up to the
    /// root of the round.
    pub open spec fn round_alpha(&self, objects: Seq<Seq<u8>>, start: int, r: int) -> int {
        round_challenge(objects.take(start + r + 1), self.field.p as int)
    }

    /// A root stands at the place of each round.
    pub open spec fn roots_ok(&self, objects: Seq<Seq<u8>>, start: int) -> bool {
        forall|r: int|
            0 <= r < self.spec_num_rounds() ==> (#[trigger] self.round_root(objects, start, r))
                is Some
    }

    /// The last codeword stands at place `pos`, has the length and the
    /// root that are expected, lives on a coset generated by a root of
    /// unity of that length, and is the evaluation of a polynomial whose
    /// degree is within the bound.
    pub open spec fn last_codeword_ok(&self, objects: Seq<Seq<u8>>, pos: int, root: Seq<u8>) -> bool {
        let p = self.field.p as int;
        let length = self.last_length();
        let squarings = (self.spec_num_rounds() - 1) as nat;
        let last_offset = squared_times(self.offset.value as int, squarings, p);
        let last_omega = squared_times(self.omega.value as int, squarings, p);
        let domain = coset(last_offset, last_omega, length, p);
        match codeword_value(objects, pos, p) {
            Some(last) => {
                &&& last.len() == length
                &&& merkle_root(leaf_rows(last)) == root
                &&& pow_mod(last_omega, length, p) == 1
                &&& distinct(domain)
                &&& invertible_differences(domain, p)
                &&& degree(lagrange(domain, last, p)) <= length / (self.expansion_factor as nat) - 1
            },
            None => false,
        }
    }

    /// The indices of the tests: drawn from the transcript up to the last codeword.
    pub open spec fn top_indices(&self, objects: Seq<Seq<u8>>, start: int) -> Option<Seq<usize>> {
        sampled(
            challenge(objects.take(start + self.spec_num_rounds() + 1), SEED_LENGTH as int),
            (self.domain_length / 2) as nat,
            self.last_length(),
            self.num_colinearity_tests as nat,
        )
    }

    /// The place of the first object of round `r`.
    pub open spec fn round_base(&self, start: int, r: int) -> int {
        start + self.spec_num_rounds() + 1 + r * (4 * self.num_colinearity_tests)
    }

    /// Round `r` passes.
    pub open spec fn round_ok(
        &self,
        objects: Seq<Seq<u8>>,
        start: int,
        top: Seq<usize>,
        r: int,
    ) -> bool {
        let p = self.field.p as int;
        round_ok_at(
            objects,
            self.round_base(start, r),
            self.num_colinearity_tests as nat,
            self.round_root(objects, start, r)->Some_0,
            self.round_root(objects, start, r + 1)->Some_0,
            self.round_alpha(objects, start, r),
            top,
            squared_times(self.offset.value as int, r as nat, p),
            squared_times(self.omega.value as int, r as nat, p),
            halved(self.domain_length as nat, (r + 1) as nat),
            p,
        )
    }

    /// The proof that begins at place `start` of the transcript is
    /// accepted: the roots of all rounds are there, the last codeword is
    /// in order, the indices can be drawn and every round passes.
    pub open spec fn accepts(&self, objects: Seq<Seq<u8>>, start: int) -> bool {
        &&& self.roots_ok(objects, start)
        &&& self.last_codeword_ok(
            objects,
            start + self.spec_num_rounds(),
            self.round_root(objects, start, self.spec_num_rounds() - 1)->Some_0,
        )
        &&& self.top_indices(objects, start) is Some
        &&& forall|r: int|
            0 <= r < self.spec_num_rounds() - 1 ==> #[trigger] self.round_ok(
                objects,
                start,
                self.top_indices(objects, start)->Some_0,
                r,
            )
    }

    /// The place behind the last object of a proof that begins at `start`.
    pub open spec fn proof_end(&self, start: int) -> int {
        self.round_base(start, self.spec_num_rounds() - 1)
    }

    /// The values of the first codeword that an accepted proof hands out:
    /// those that the tests of the first round opened.
    pub open spec fn openings(&self, objects: Seq<Seq<u8>>, start: int) -> Seq<
        (usize, FieldElement),
    > {
        if self.spec_num_rounds() >= 2 {
            round_openings(
                objects,
                self.round_base(start, 0),
                self.num_colinearity_tests as nat,
                self.top_indices(objects, start)->Some_0,
                halved(self.domain_length as nat, 1),
                self.field,
            )
        } else {
            Seq::empty()
        }
    }

    /// The length of the last codeword.
    fn final_length(&self) -> (length: usize)
        requires
            self.ready(),
        ensures
            length == self.last_length(),
            length > self.expansion_factor,
            is_pow2(length as int),
    {
        let rounds: usize = self.num_rounds();
        let mut length: usize = self.domain_length;
        let mut r: usize = 1;
        while r < rounds
            invariant
                1 <= r <= rounds,
                rounds == self.spec_num_rounds(),
                length == halved(self.domain_length as nat, (r - 1) as nat),
            decreases rounds - r,
        {
            proof {
                lemma_halved_step(self.domain_length as nat, (r - 1) as nat);
            }
            length = length / 2;
            r = r + 1;
        }
        proof {
            lemma_round_lengths(
                self.domain_length as nat,
                self.expansion_factor as nat,
                self.num_colinearity_tests as nat,
                (rounds - 1) as nat,
            );
            lemma_halved_pow2(self.domain_length as nat, (rounds - 1) as nat);
        }
        length
    }

    /// Pulls the last codeword and checks it against `root`, for its
    /// length, for the order of the generator of its domain and for the
    /// degree of the polynomial that interpolates it. That polynomial
    /// takes the values of the codeword on the domain by the contract of
    /// the interpolation, so it is not evaluated back.
    fn check_last_codeword(&self, proof_stream: &mut ProofStream, root: &Vec<u8>) -> (ok: bool)
        requires
            self.ready(),
            old(proof_stream).wf(),
        ensures
            final(proof_stream).wf(),
            final(proof_stream)@.objects == old(proof_stream)@.objects,
            ok == self.last_codeword_ok(
                old(proof_stream)@.objects,
                old(proof_stream)@.cursor as int,
                root@,
            ),
            ok ==> final(proof_stream)@.cursor == old(proof_stream)@.cursor + 1,
    {
        let field: Field = self.field;
        let length: usize = self.final_length();
        let rounds: usize = self.num_rounds();
        let last: Vec<FieldElement> = match pull_codeword(proof_stream, &field) {
            Some(c) => c,
            None => {
                return false;
            },
        };
        assert(values_of(last@).len() == last@.len());
        if last.len() != length {
            return false;
        }
        let leaves: Vec<Vec<u8>> = codeword_leaves(&last);
        let computed: Vec<u8> = Merkle::commit(leaves.as_slice());
        if !bytes_equal(computed.as_slice(), root.as_slice()) {
            return false;
        }
        let last_offset: FieldElement = squared_element(self.offset, rounds - 1);
        let last_omega: FieldElement = squared_element(self.omega, rounds - 1);
        if power(last_omega.value, length as u128, field.p) != 1 {
            return false;
        }
        let domain: Vec<FieldElement> = coset_points(last_offset, last_omega, length);
        assert(values_of(domain@).len() == domain@.len());
        match Uni::interpolate_domain(&domain, &last) {
            Ok(poly) => poly.degree() <= (length / self.expansion_factor) as i128 - 1,
            Err(_) => false,
        }
    }
}

/// A triple that was pulled from place `pos`: three residues of `field`
/// whose values stand there.
pub open spec fn pulled_triple(
    objects: Seq<Seq<u8>>,
    pos: int,
    field: Field,
    t: (FieldElement, FieldElement, FieldElement),
) -> bool {
    &&& t.0.wf() && t.1.wf() && t.2.wf()
    &&& t.0.field == field && t.1.field == field && t.2.field == field
    &&& triple_value(objects, pos, field.p as int) == Some(
        (t.0.value as int, t.1.value as int, t.2.value as int),
    )
}

/// The point `offset * omega^index` of a coset.
fn coset_point(offset: FieldElement, omega: FieldElement, index: usize) -> (x: FieldElement)
    requires
        offset.wf(),
        omega.wf(),
        offset.field == omega.field,
    ensures
        x.wf(),
        x.field == offset.field,
        x.value == domain_point(
            offset.value as int,
            omega.value as int,
            index as nat,
            offset.field.p as int,
        ),
{
    let field: Field = offset.field;
    let step: i128 = power(omega.value, index as u128, field.p);
    field.mul(offset, FieldElement { value: step, field })
}

impl Fri {
    /// Pulls the objects of one round and checks them: first the triples
    /// of all tests, each for colinearity, then the three paths of each
    /// test. With `record`, the two values of the current codeword that
    /// each test opens are appended to `polynomial_values`.
    fn check_round(
        &self,
        proof_stream: &mut ProofStream,
        polynomial_values: &mut Vec<(usize, FieldElement)>,
        root: &Vec<u8>,
        next_root: &Vec<u8>,
        alpha: FieldElement,
        top: &Vec<usize>,
        offset: FieldElement,
        omega: FieldElement,
        half: usize,
        record: bool,
    ) -> (ok: bool)
        requires
            self.wf(),
            old(proof_stream).wf(),
            alpha.wf(),
            offset.wf(),
            omega.wf(),
            alpha.field == self.field,
            offset.field == self.field,
            omega.field == self.field,
            half >= 1,
            2 * half <= usize::MAX,
            top@.len() == self.num_colinearity_tests,
        ensures
            final(proof_stream).wf(),
            final(proof_stream)@.objects == old(proof_stream)@.objects,
            ok == round_ok_at(
                old(proof_stream)@.objects,
                old(proof_stream)@.cursor as int,
                self.num_colinearity_tests as nat,
                root@,
                next_root@,
                alpha.value as int,
                top@,
                offset.value as int,
                omega.value as int,
                half as nat,
                self.field.p as int,
            ),
            ok ==> final(proof_stream)@.cursor == old(proof_stream)@.cursor + 4
                * self.num_colinearity_tests,
            final(polynomial_values)@.len() >= old(polynomial_values)@.len(),
            final(polynomial_values)@.take(old(polynomial_values)@.len() as int) == old(
                polynomial_values,
            )@,
            !record ==> final(polynomial_values)@ == old(polynomial_values)@,
            record && ok ==> final(polynomial_values)@ == old(polynomial_values)@ + round_openings(
                old(proof_stream)@.objects,
                old(proof_stream)@.cursor as int,
                self.num_colinearity_tests as nat,
                top@,
                half as nat,
                self.field,
            ),
    {
        let field: Field = self.field;
        let tests: usize = self.num_colinearity_tests;
        let ghost p = field.p as int;
        let ghost objects = proof_stream@.objects;
        let ghost base = proof_stream@.cursor as int;
        let ghost given = polynomial_values@;
        let ghost handed = round_openings(objects, base, tests as nat, top@, half as nat, field);
        let mut seen: Vec<(FieldElement, FieldElement, FieldElement)> = Vec::new();
        let mut s: usize = 0;
        proof {
            assert(given + handed.take(0) =~= given);
            assert(polynomial_values@.take(given.len() as int) =~= given);
        }
        while s < tests
            invariant
                s <= tests,
                tests == self.num_colinearity_tests,
                tests == top@.len(),
                self.wf(),
                field == self.field,
                p == field.p,
                alpha.wf(),
                offset.wf(),
                omega.wf(),
                alpha.field == field,
                offset.field == field,
                omega.field == field,
                half >= 1,
                2 * half <= usize::MAX,
                proof_stream.wf(),
                proof_stream@.objects == objects,
                proof_stream@.cursor == base + s,
                handed == round_openings(objects, base, tests as nat, top@, half as nat, field),
                objects == old(proof_stream)@.objects,
                base == old(proof_stream)@.cursor,
                given == old(polynomial_values)@,
                seen@.len() == s,
                forall|k: int|
                    0 <= k < s ==> pulled_triple(objects, base + k, field, #[trigger] seen@[k]),
                forall|k: int|
                    0 <= k < s ==> #[trigger] colinear_at(
                        objects,
                        base,
                        alpha.value as int,
                        top@,
                        offset.value as int,
                        omega.value as int,
                        half as nat,
                        p,
                        k,
                    ),
                polynomial_values@.len() >= given.len(),
                polynomial_values@.take(given.len() as int) == given,
                !record ==> polynomial_values@ == given,
                record ==> polynomial_values@ == given + handed.take(2 * s),
            decreases tests - s,
        {
            let (ay, by, cy) = match pull_triple(proof_stream, &field) {
                Some(t) => t,
                None => {
                    assert(!colinear_at(
                        objects,
                        base,
                        alpha.value as int,
                        top@,
                        offset.value as int,
                        omega.value as int,
                        half as nat,
                        p,
                        s as int,
                    ));
                    return false;
                },
            };
            let c_index: usize = top[s] % half;
            let a_index: usize = c_index;
            let b_index: usize = c_index + half;
            if record {
                let ghost before = polynomial_values@;
                polynomial_values.push((a_index, ay));
                polynomial_values.push((b_index, by));
                proof {
                    assert(handed[2 * s] == (a_index, ay));
                    assert(handed[2 * s + 1] == (b_index, by));
                    assert(given + handed.take(2 * (s + 1)) =~= (given + handed.take(2 * s)).push(
                        handed[2 * s],
                    ).push(handed[2 * s + 1]));
                    assert(polynomial_values@.take(given.len() as int) =~= given);
                }
            }
            let ax: FieldElement = coset_point(offset, omega, a_index);
            let bx: FieldElement = coset_point(offset, omega, b_index);
            let points: [(FieldElement, FieldElement); 3] = [(ax, ay), (bx, by), (alpha, cy)];
            if !Uni::test_colinearity(&points) {
                assert(!colinear_at(
                    objects,
                    base,
                    alpha.value as int,
                    top@,
                    offset.value as int,
                    omega.value as int,
                    half as nat,
                    p,
                    s as int,
                ));
                return false;
            }
            assert(pulled_triple(objects, base + s, field, (ay, by, cy)));
            seen.push((ay, by, cy));
            s = s + 1;
        }
        let mut s: usize = 0;
        while s < tests
            invariant
                s <= tests,
                tests == self.num_colinearity_tests,
                tests == top@.len(),
                p == self.field.p,
                half >= 1,
                2 * half <= usize::MAX,
                proof_stream.wf(),
                proof_stream@.objects == objects,
                proof_stream@.cursor == base + tests + 3 * s,
                objects == old(proof_stream)@.objects,
                base == old(proof_stream)@.cursor,
                polynomial_values@.len() >= old(polynomial_values)@.len(),
                polynomial_values@.take(old(polynomial_values)@.len() as int) == old(
                    polynomial_values,
                )@,
                !record ==> polynomial_values@ == old(polynomial_values)@,
                seen@.len() == tests,
                forall|k: int|
                    0 <= k < tests ==> pulled_triple(
                        objects,
                        base + k,
                        self.field,
                        #[trigger] seen@[k],
                    ),
                forall|k: int|
                    0 <= k < s ==> #[trigger] opened_at(
                        objects,
                        base,
                        tests as nat,
                        root@,
                        next_root@,
                        top@,
                        half as nat,
                        p,
                        k,
                    ),
            decreases tests - s,
        {
            let c_index: usize = top[s] % half;
            let ghost failed = !opened_at(
                objects,
                base,
                tests as nat,
                root@,
                next_root@,
                top@,
                half as nat,
                p,
                s as int,
            );
            let (ay, by, cy) = seen[s];
            proof {
                assert(pulled_triple(objects, base + s, self.field, seen@[s as int]));
            }
            let path: Vec<Vec<u8>> = match pull_path(proof_stream) {
                Some(nodes) => nodes,
                None => {
                    assert(failed);
                    return false;
                },
            };
            let leaf: Vec<u8> = ay.to_bytes();
            proof {
                crate::bytes::lemma_be_seq_of_value(leaf@);
            }
            if !Merkle::verify(root.as_slice(), c_index, path.as_slice(), leaf.as_slice()) {
                assert(failed);
                return false;
            }
            let path: Vec<Vec<u8>> = match pull_path(proof_stream) {
                Some(nodes) => nodes,
                None => {
                    assert(failed);
                    return false;
                },
            };
            let leaf: Vec<u8> = by.to_bytes();
            proof {
                crate::bytes::lemma_be_seq_of_value(leaf@);
            }
            if !Merkle::verify(root.as_slice(), c_index + half, path.as_slice(), leaf.as_slice()) {
                assert(failed);
                return false;
            }
            let path: Vec<Vec<u8>> = match pull_path(proof_stream) {
                Some(nodes) => nodes,
                None => {
                    assert(failed);
                    return false;
                },
            };
            let leaf: Vec<u8> = cy.to_bytes();
            proof {
                crate::bytes::lemma_be_seq_of_value(leaf@);
            }
            if !Merkle::verify(next_root.as_slice(), c_index, path.as_slice(), leaf.as_slice()) {
                assert(failed);
                return false;
            }
            s = s + 1;
        }
        proof {
            assert(handed.take(2 * tests) =~= handed);
        }
        true
    }
}

impl Fri {
    /// Verifies the proof that begins at the cursor of the transcript:
    /// pulls the root of each round and derives its challenge, checks the
    /// last codeword, draws the indices of the tests and checks each
    /// round. The values of the first codeword that the tests of the
    /// first round open are appended to `polynomial_values`.
    pub fn verify(
        &self,
        proof_stream: &mut ProofStream,
        polynomial_values: &mut Vec<(usize, FieldElement)>,
    ) -> (ok: bool)
        requires
            self.ready(),
            old(proof_stream).wf(),
        ensures
            final(proof_stream).wf(),
            final(proof_stream)@.objects == old(proof_stream)@.objects,
            ok == self.accepts(old(proof_stream)@.objects, old(proof_stream)@.cursor as int),
            ok ==> final(proof_stream)@.cursor == self.proof_end(old(proof_stream)@.cursor as int),
            final(polynomial_values)@.len() >= old(polynomial_values)@.len(),
            final(polynomial_values)@.take(old(polynomial_values)@.len() as int) == old(
                polynomial_values,
            )@,
            ok ==> final(polynomial_values)@ == old(polynomial_values)@ + self.openings(
                old(proof_stream)@.objects,
                old(proof_stream)@.cursor as int,
            ),
    {
        let field: Field = self.field;
        let rounds: usize = self.num_rounds();
        let ghost objects = proof_stream@.objects;
        let ghost start = proof_stream@.cursor as int;
        let ghost given = polynomial_values@;
        let ghost n = self.domain_length as nat;
        let ghost p = field.p as int;
        let mut roots: Vec<Vec<u8>> = Vec::new();
        let mut alphas: Vec<FieldElement> = Vec::new();
        let mut r: usize = 0;
        proof {
            assert(polynomial_values@.take(given.len() as int) =~= given);
        }
        while r < rounds
            invariant
                r <= rounds,
                rounds == self.spec_num_rounds(),
                self.ready(),
                field == self.field,
                proof_stream.wf(),
                proof_stream@.objects == objects,
                objects == old(proof_stream)@.objects,
                start == old(proof_stream)@.cursor,
                proof_stream@.cursor == start + r,
                polynomial_values@ == old(polynomial_values)@,
                given == old(polynomial_values)@,
                roots@.len() == r,
                alphas@.len() == r,
                forall|k: int|
                    0 <= k < r ==> #[trigger] self.round_root(objects, start, k) == Some(roots@[k]@),
                forall|k: int|
                    0 <= k < r ==> (#[trigger] alphas@[k]).wf() && alphas@[k].field == field
                        && alphas@[k].value == self.round_alpha(objects, start, k),
            decreases rounds - r,
        {
            match pull_root(proof_stream) {
                Some(root) => {
                    roots.push(root);
                },
                None => {
                    assert(self.round_root(objects, start, r as int) is None);
                    return false;
                },
            }
            let seed: Vec<u8> = proof_stream.verifier_fiat_shamir(SEED_LENGTH);
            alphas.push(field.sample(seed));
            r = r + 1;
        }
        if !self.check_last_codeword(proof_stream, &roots[rounds - 1]) {
            return false;
        }
        let seed: Vec<u8> = proof_stream.verifier_fiat_shamir(SEED_LENGTH);
        let last_length: usize = self.final_length();
        proof {
            lemma_round_lengths(
                n,
                self.expansion_factor as nat,
                self.num_colinearity_tests as nat,
                0,
            );
        }
        let top: Vec<usize> = match self.sample_indices(
            seed,
            self.domain_length / 2,
            last_length,
            self.num_colinearity_tests,
        ) {
            Ok(t) => t,
            Err(_) => {
                return false;
            },
        };
        let mut offset: FieldElement = self.offset;
        let mut omega: FieldElement = self.omega;
        let mut length: usize = self.domain_length;
        let mut r: usize = 0;
        proof {
            assert(given + Seq::<(usize, FieldElement)>::empty() =~= given);
        }
        while r + 1 < rounds
            invariant
                r < rounds,
                rounds == self.spec_num_rounds(),
                self.ready(),
                field == self.field,
                p == field.p,
                n == self.domain_length,
                proof_stream.wf(),
                proof_stream@.objects == objects,
                objects == old(proof_stream)@.objects,
                start == old(proof_stream)@.cursor,
                given == old(polynomial_values)@,
                proof_stream@.cursor == self.round_base(start, r as int),
                roots@.len() == rounds,
                alphas@.len() == rounds,
                forall|k: int|
                    0 <= k < rounds ==> #[trigger] self.round_root(objects, start, k) == Some(
                        roots@[k]@,
                    ),
                forall|k: int|
                    0 <= k < rounds ==> (#[trigger] alphas@[k]).wf() && alphas@[k].field == field
                        && alphas@[k].value == self.round_alpha(objects, start, k),
                self.roots_ok(objects, start),
                self.last_codeword_ok(
                    objects,
                    start + rounds,
                    self.round_root(objects, start, rounds - 1)->Some_0,
                ),
                self.top_indices(objects, start) == Some(top@),
                top@.len() == self.num_colinearity_tests,
                offset.wf(),
                omega.wf(),
                offset.field == field,
                omega.field == field,
                offset.value == squared_times(self.offset.value as int, r as nat, p),
                omega.value == squared_times(self.omega.value as int, r as nat, p),
                length == halved(n, r as nat),
                forall|k: int| 0 <= k < r ==> #[trigger] self.round_ok(objects, start, top@, k),
                polynomial_values@.len() >= given.len(),
                polynomial_values@.take(given.len() as int) == given,
                r == 0 ==> polynomial_values@ == given,
                r >= 1 ==> polynomial_values@ == given + self.openings(objects, start),
            decreases rounds - r,
        {
            proof {
                lemma_round_lengths(
                    n,
                    self.expansion_factor as nat,
                    self.num_colinearity_tests as nat,
                    (r + 1) as nat,
                );
                lemma_halved_step(n, r as nat);
                lemma_halved_pow2(n, r as nat);
                crate::merkle::lemma_half_is_pow2(length as int);
                lemma_squared_step(self.offset.value as int, r as nat, p);
                lemma_squared_step(self.omega.value as int, r as nat, p);
                lemma_mul_is_distributive_add_other_way(
                    4 * self.num_colinearity_tests,
                    r as int,
                    1,
                );
                assert(self.round_root(objects, start, r as int) == Some(roots@[r as int]@));
                assert(self.round_root(objects, start, r + 1) == Some(roots@[r + 1]@));
                assert(alphas@[r as int].wf());
            }
            let half: usize = length / 2;
            let ghost before = polynomial_values@;
            let passed: bool = self.check_round(
                proof_stream,
                polynomial_values,
                &roots[r],
                &roots[r + 1],
                alphas[r],
                &top,
                offset,
                omega,
                half,
                r == 0,
            );
            if !passed {
                assert(!self.round_ok(objects, start, top@, r as int));
                proof {
                    assert(polynomial_values@.take(given.len() as int) =~= given) by {
                        assert(polynomial_values@.take(before.len() as int) == before);
                        assert(before.take(given.len() as int) == given);
                        assert forall|i: int| 0 <= i < given.len() implies polynomial_values@[i]
                            == given[i] by {
                            assert(polynomial_values@.take(before.len() as int)[i]
                                == polynomial_values@[i]);
                            assert(before.take(given.len() as int)[i] == before[i]);
                        }
                    }
                }
                return false;
            }
            proof {
                assert(self.round_ok(objects, start, top@, r as int));
                if r == 0 {
                    assert(polynomial_values@.take(given.len() as int) =~= given);
                }
            }
            offset = field.mul(offset, offset);
            omega = field.mul(omega, omega);
            length = half;
            r = r + 1;
        }
        proof {
            if rounds < 2 {
                assert(self.openings(objects, start) =~= Seq::<(usize, FieldElement)>::empty());
                assert(given + self.openings(objects, start) =~= given);
            }
        }
        true
    }
}

} // verus!
