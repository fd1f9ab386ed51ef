//! The prover's side of the protocol: committing to a codeword and its
//! foldings, and answering the colinearity queries.
use vstd::prelude::*;
use vstd::arithmetic::div_mod::*;
use vstd::arithmetic::mul::*;
use vstd::arithmetic::power2::*;

use crate::bytes::{be_seq, byte_rows};
use crate::error::Error;
use crate::field::arith::{
    be_value, coprime, inv_mod, is_inverse, is_prime, lemma_inv_mod_is, lemma_inverse_exists,
    lemma_prime_coprime,
};
use crate::field::field::Field;
use crate::field::field_element::FieldElement;
use crate::fri::sampling::sampled;
use crate::fri::{
    domain_point, halved, lemma_halved_step, lemma_next_point, rounds, Fri, SEED_LENGTH,
};
use crate::merkle::{lemma_half_is_pow2, merkle_path, merkle_root, Merkle};
use crate::poly::algebra::{colinear, lemma_cong_add, lemma_cong_mul};
use crate::poly::uni::{all_in, values_of};
use crate::proof_object::{ObjectView, ProofObject};
use crate::proof_stream::{challenge, ProofStream};

verus! {

/// The leaves of the Merkle tree over a codeword: each value on sixteen bytes.
pub open spec fn leaf_rows(codeword: Seq<int>) -> Seq<Seq<u8>> {
    Seq::new(codeword.len(), |i: int| be_seq(codeword[i] as nat, 16))
}

/// The values of a codeword as they stand in a transcript object.
pub open spec fn wire_values(codeword: Seq<int>) -> Seq<u128> {
    Seq::new(codeword.len(), |i: int| codeword[i] as u128)
}

/// The transcript object that commits to a codeword.
pub open spec fn root_encoding(codeword: Seq<int>) -> Seq<u8> {
    ObjectView::Root(merkle_root(leaf_rows(codeword))).encoding()
}

/// The transcript object that holds a codeword.
pub open spec fn codeword_encoding(codeword: Seq<int>) -> Seq<u8> {
    ObjectView::Codeword(wire_values(codeword)).encoding()
}

/// The value of the folded codeword at one point: with `t = alpha / x`,
/// half of `(1 + t) * low + (1 - t) * high`, where `low` and `high` are
/// the values at `x` and `-x`.
pub open spec fn fold_point(low: int, high: int, alpha: int, x: int, p: int) -> int {
    let t = (alpha * inv_mod(x, p)) % p;
    (inv_mod(2, p) * ((1 + t) * low + (1 - t) * high)) % p
}

/// The codeword folded to half its length with the challenge `alpha`.
pub open spec fn fold_codeword(codeword: Seq<int>, alpha: int, offset: int, omega: int, p: int) -> Seq<
    int,
> {
    Seq::new(
        codeword.len() / 2,
        |i: int|
            fold_point(
                codeword[i],
                codeword[codeword.len() / 2 + i],
                alpha,
                domain_point(offset, omega, i as nat, p),
                p,
            ),
    )
}

/// The challenge of a round as a residue: the seed read as a number.
pub open spec fn round_challenge(objects: Seq<Seq<u8>>, p: int) -> int {
    (be_value(challenge(objects, SEED_LENGTH as int)) % (p as nat)) as int
}

/// What the commit phase leaves: the codewords of all rounds and the transcript.
pub struct Committed {
    pub codewords: Seq<Seq<int>>,
    pub objects: Seq<Seq<u8>>,
}

/// The commit phase from a round on: the root of the codeword is appended
/// to the transcript; in the last round the codeword itself follows,
/// else the codeword is folded with the challenge that the transcript
/// gives and the coset is squared.
pub open spec fn commit_rounds(
    codeword: Seq<int>,
    offset: int,
    omega: int,
    p: int,
    objects: Seq<Seq<u8>>,
    rounds_left: nat,
) -> Committed
    decreases rounds_left,
{
    if rounds_left == 0 {
        Committed { codewords: seq![codeword], objects: objects.push(codeword_encoding(codeword)) }
    } else {
        let with_root = objects.push(root_encoding(codeword));
        if rounds_left == 1 {
            Committed {
                codewords: seq![codeword],
                objects: with_root.push(codeword_encoding(codeword)),
            }
        } else {
            let alpha = round_challenge(with_root, p);
            let next = fold_codeword(codeword, alpha, offset, omega, p);
            let rest = commit_rounds(
                next,
                (offset * offset) % p,
                (omega * omega) % p,
                p,
                with_root,
                (rounds_left - 1) as nat,
            );
            Committed { codewords: seq![codeword] + rest.codewords, objects: rest.objects }
        }
    }
}

/// The values of each codeword of a list.
pub open spec fn codeword_views(codewords: Seq<Vec<FieldElement>>) -> Seq<Seq<int>> {
    Seq::new(codewords.len(), |i: int| values_of(codewords[i]@))
}

/// The offset, the generator and two have inverses modulo `p`.
pub open spec fn units(offset: int, omega: int, p: int) -> bool {
    coprime(offset, p) && coprime(omega, p) && coprime(2, p)
}

/// The product of two numbers with inverses has the product of the inverses
/// as its inverse.
pub proof fn lemma_inverse_product(a: int, ai: int, b: int, bi: int, p: int)
    requires
        p >= 2,
        (a * ai) % p == 1,
        (b * bi) % p == 1,
    ensures
        (((a * b) % p) * ((ai * bi) % p)) % p == 1,
{
    lemma_mod_twice(a * b, p);
    lemma_mod_twice(ai * bi, p);
    lemma_cong_mul((a * b) % p, a * b, (ai * bi) % p, ai * bi, p);
    assert((a * b) * (ai * bi) == (a * ai) * (b * bi)) by (nonlinear_arith);
    lemma_small_mod(1, p as nat);
    lemma_cong_mul(a * ai, 1, b * bi, 1, p);
}

/// In a field of odd prime order every coset with a non-zero offset and
/// a non-zero generator can be folded.
pub proof fn lemma_units_in_prime_field(offset: int, omega: int, p: int)
    requires
        is_prime(p),
        p > 2,
        0 < offset < p,
        0 < omega < p,
    ensures
        units(offset, omega, p),
{
    lemma_prime_coprime(offset, p);
    lemma_prime_coprime(omega, p);
    lemma_prime_coprime(2, p);
}

/// Folding is interpolation: the folded value is the value at `alpha` of
/// the line through the values at `x` and at `-x`, so the three points
/// pass the colinearity test.
pub proof fn lemma_fold_is_colinear(low: int, high: int, alpha: int, x: int, p: int)
    requires
        p >= 2,
        x >= 0,
        coprime(x, p),
        coprime(2, p),
    ensures
        colinear(x, low, (-x) % p, high, alpha, fold_point(low, high, alpha, x, p), p),
{
    lemma_inverse_exists(x, p);
    lemma_inverse_exists(2, p);
    let xi = inv_mod(x, p);
    let h = inv_mod(2, p);
    let t = (alpha * xi) % p;
    let s = (1 + t) * low + (1 - t) * high;
    let c = (h * s) % p;
    let m = (-x) % p;
    lemma_small_mod(1, p as nat);
    // twice the folded value is the bracket
    lemma_mod_twice(h * s, p);
    lemma_cong_mul(2, 2, c, h * s, p);
    assert(2 * (h * s) == (2 * h) * s) by (nonlinear_arith);
    lemma_cong_mul(2 * h, 1, s, s, p);
    assert((2 * c) % p == s % p);
    // x times t is alpha
    lemma_mod_twice(alpha * xi, p);
    lemma_cong_mul(x, x, t, alpha * xi, p);
    assert(x * (alpha * xi) == alpha * (x * xi)) by (nonlinear_arith);
    lemma_cong_mul(alpha, alpha, x * xi, 1, p);
    assert((x * t) % p == alpha % p);
    // the right side of the test
    lemma_mod_twice(-x, p);
    lemma_cong_add(m, -x, -x, -x, p);
    lemma_cong_mul(c - low, c - low, m - x, -x - x, p);
    assert((c - low) * (-x - x) == (-x) * (2 * c) + 2 * x * low) by (nonlinear_arith);
    lemma_cong_mul(-x, -x, 2 * c, s, p);
    lemma_cong_add((-x) * (2 * c), (-x) * s, 2 * x * low, 2 * x * low, p);
    let tl = t * low;
    let th = t * high;
    let u = x * t;
    assert(s == low + tl + high - th) by (nonlinear_arith)
        requires
            s == (1 + t) * low + (1 - t) * high,
            tl == t * low,
            th == t * high,
    ;
    assert((-x) * s == -(x * low) - x * tl - x * high + x * th) by (nonlinear_arith)
        requires
            s == low + tl + high - th,
    ;
    lemma_mul_is_associative(x, t, low);
    lemma_mul_is_associative(x, t, high);
    lemma_mul_is_distributive_sub(u, low, high);
    assert(x * tl == u * low);
    assert(x * th == u * high);
    assert(u * (low - high) == u * low - u * high);
    assert(2 * x * low == 2 * (x * low)) by (nonlinear_arith);
    assert((-x) * s + 2 * x * low == x * low - x * high - (x * t) * (low - high));
    lemma_cong_mul(x * t, alpha, low - high, low - high, p);
    lemma_cong_mul(-1, -1, (x * t) * (low - high), alpha * (low - high), p);
    lemma_cong_add(
        x * low - x * high,
        x * low - x * high,
        -1 * ((x * t) * (low - high)),
        -1 * (alpha * (low - high)),
        p,
    );
    assert(x * low - x * high - alpha * (low - high) == (high - low) * (alpha - x))
        by (nonlinear_arith);
}

/// The sixteen-byte leaves of a codeword.
pub fn codeword_leaves(codeword: &Vec<FieldElement>) -> (out: Vec<Vec<u8>>)
    requires
        forall|i: int| 0 <= i < codeword@.len() ==> (#[trigger] codeword@[i]).wf(),
    ensures
        byte_rows(out@) == leaf_rows(values_of(codeword@)),
        out@.len() == codeword@.len(),
{
    let mut out: Vec<Vec<u8>> = Vec::new();
    let mut i: usize = 0;
    while i < codeword.len()
        invariant
            i <= codeword@.len(),
            forall|j: int| 0 <= j < codeword@.len() ==> (#[trigger] codeword@[j]).wf(),
            out@.len() == i,
            forall|j: int|
                0 <= j < i ==> (#[trigger] out@[j])@ == be_seq(codeword@[j].value as nat, 16),
        decreases codeword@.len() - i,
    {
        let element: FieldElement = codeword[i];
        proof {
            crate::bytes::lemma_byte_range_values();
        }
        let leaf: Vec<u8> = crate::bytes::be_bytes(element.value as u128, 16);
        out.push(leaf);
        i = i + 1;
    }
    assert(byte_rows(out@) =~= leaf_rows(values_of(codeword@)));
    out
}

/// The values of a codeword for a transcript object.
pub fn codeword_wire(codeword: &Vec<FieldElement>) -> (out: Vec<u128>)
    requires
        forall|i: int| 0 <= i < codeword@.len() ==> (#[trigger] codeword@[i]).wf(),
    ensures
        out@ == wire_values(values_of(codeword@)),
{
    let mut out: Vec<u128> = Vec::new();
    let mut i: usize = 0;
    while i < codeword.len()
        invariant
            i <= codeword@.len(),
            forall|j: int| 0 <= j < codeword@.len() ==> (#[trigger] codeword@[j]).wf(),
            out@.len() == i,
            forall|j: int| 0 <= j < i ==> (#[trigger] out@[j]) == codeword@[j].value as u128,
        decreases codeword@.len() - i,
    {
        let element: FieldElement = codeword[i];
        out.push(element.value as u128);
        i = i + 1;
    }
    assert(out@ =~= wire_values(values_of(codeword@)));
    out
}

/// The coset, with the inverses that folding divides by.
pub struct Coset {
    pub offset: FieldElement,
    pub omega: FieldElement,
    pub offset_inverse: FieldElement,
    pub omega_inverse: FieldElement,
    pub half: FieldElement,
}

impl Coset {
    /// The members live in one field and the inverses are inverses.
    pub open spec fn wf(&self) -> bool {
        let p = self.offset.field.p as int;
        &&& self.offset.wf()
        &&& self.omega.wf()
        &&& self.offset_inverse.wf()
        &&& self.omega_inverse.wf()
        &&& self.half.wf()
        &&& self.omega.field == self.offset.field
        &&& self.offset_inverse.field == self.offset.field
        &&& self.omega_inverse.field == self.offset.field
        &&& self.half.field == self.offset.field
        &&& (self.offset.value * self.offset_inverse.value) % p == 1
        &&& (self.omega.value * self.omega_inverse.value) % p == 1
        &&& (2 * self.half.value) % p == 1
    }

    /// The coset of the squares.
    pub fn squared(&self) -> (next: Coset)
        requires
            self.wf(),
        ensures
            next.wf(),
            next.offset.field == self.offset.field,
            next.offset.value == (self.offset.value * self.offset.value) % (
            self.offset.field.p as int),
            next.omega.value == (self.omega.value * self.omega.value) % (self.offset.field.p as int),
            next.half == self.half,
    {
        let field: Field = self.offset.field;
        proof {
            let p = field.p as int;
            lemma_inverse_product(
                self.offset.value as int,
                self.offset_inverse.value as int,
                self.offset.value as int,
                self.offset_inverse.value as int,
                p,
            );
            lemma_inverse_product(
                self.omega.value as int,
                self.omega_inverse.value as int,
                self.omega.value as int,
                self.omega_inverse.value as int,
                p,
            );
        }
        Coset {
            offset: field.mul(self.offset, self.offset),
            omega: field.mul(self.omega, self.omega),
            offset_inverse: field.mul(self.offset_inverse, self.offset_inverse),
            omega_inverse: field.mul(self.omega_inverse, self.omega_inverse),
            half: self.half,
        }
    }
}

/// The exec steps of one folded value compute `fold_point`.
proof fn lemma_fold_point(low: int, high: int, alpha: int, x: int, x_inv: int, half: int, p: int)
    requires
        p >= 2,
        is_inverse(x, x_inv, p),
        is_inverse(2, half, p),
    ensures
        ({
            let t = (alpha * x_inv) % p;
            let up = (((1 + t) % p) * low) % p;
            let down = (((1 - t) % p) * high) % p;
            (half * ((up + down) % p)) % p == fold_point(low, high, alpha, x, p)
        }),
{
    lemma_inv_mod_is(x, x_inv, p);
    lemma_inv_mod_is(2, half, p);
    let t = (alpha * x_inv) % p;
    let up = (((1 + t) % p) * low) % p;
    let down = (((1 - t) % p) * high) % p;
    lemma_mul_mod_noop_left(1 + t, low, p);
    lemma_mul_mod_noop_left(1 - t, high, p);
    lemma_mod_twice((1 + t) * low, p);
    lemma_mod_twice((1 - t) * high, p);
    lemma_cong_add(up, (1 + t) * low, down, (1 - t) * high, p);
    lemma_mod_twice(up + down, p);
    lemma_cong_mul(half, half, (up + down) % p, (1 + t) * low + (1 - t) * high, p);
}

/// Folds a codeword to half its length with the challenge `alpha`.
pub fn fold(codeword: &Vec<FieldElement>, alpha: FieldElement, coset: &Coset) -> (out: Vec<
    FieldElement,
>)
    requires
        coset.wf(),
        alpha.wf(),
        alpha.field == coset.offset.field,
        all_in(codeword@, coset.offset.field),
        codeword@.len() % 2 == 0,
    ensures
        all_in(out@, coset.offset.field),
        values_of(out@) == fold_codeword(
            values_of(codeword@),
            alpha.value as int,
            coset.offset.value as int,
            coset.omega.value as int,
            coset.offset.field.p as int,
        ),
{
    let field: Field = coset.offset.field;
    let half_length: usize = codeword.len() / 2;
    let one: FieldElement = field.one();
    let ghost p = field.p as int;
    let ghost cv = values_of(codeword@);
    let ghost want = fold_codeword(
        cv,
        alpha.value as int,
        coset.offset.value as int,
        coset.omega.value as int,
        p,
    );
    let mut out: Vec<FieldElement> = Vec::new();
    let mut point: FieldElement = coset.offset;
    let mut point_inverse: FieldElement = coset.offset_inverse;
    let mut i: usize = 0;
    proof {
        lemma_next_point(coset.offset.value as int, coset.omega.value as int, 0, p);
        lemma_small_mod(coset.offset.value as nat, p as nat);
    }
    while i < half_length
        invariant
            i <= half_length,
            half_length == codeword@.len() / 2,
            codeword@.len() % 2 == 0,
            codeword@.len() <= usize::MAX,
            coset.wf(),
            alpha.wf(),
            field == coset.offset.field,
            alpha.field == field,
            all_in(codeword@, field),
            one.wf(),
            one.field == field,
            one.value == 1,
            p == field.p,
            cv == values_of(codeword@),
            want == fold_codeword(
                cv,
                alpha.value as int,
                coset.offset.value as int,
                coset.omega.value as int,
                p,
            ),
            point.wf(),
            point.field == field,
            point_inverse.wf(),
            point_inverse.field == field,
            point.value == domain_point(
                coset.offset.value as int,
                coset.omega.value as int,
                i as nat,
                p,
            ),
            (point.value * point_inverse.value) % p == 1,
            out@.len() == i,
            all_in(out@, field),
            forall|j: int| 0 <= j < i ==> (#[trigger] out@[j]).value == want[j],
        decreases half_length - i,
    {
        let low: FieldElement = codeword[i];
        let high: FieldElement = codeword[half_length + i];
        proof {
            assert(codeword@[i as int].wf());
            assert(codeword@[half_length + i].wf());
            lemma_fold_point(
                low.value as int,
                high.value as int,
                alpha.value as int,
                point.value as int,
                point_inverse.value as int,
                coset.half.value as int,
                p,
            );
            lemma_next_point(coset.offset.value as int, coset.omega.value as int, i as nat, p);
            lemma_inverse_product(
                point.value as int,
                point_inverse.value as int,
                coset.omega.value as int,
                coset.omega_inverse.value as int,
                p,
            );
        }
        let t: FieldElement = field.mul(alpha, point_inverse);
        let up: FieldElement = field.mul(field.add(one, t), low);
        let down: FieldElement = field.mul(field.sub(one, t), high);
        let folded: FieldElement = field.mul(coset.half, field.add(up, down));
        out.push(folded);
        point = field.mul(point, coset.omega);
        point_inverse = field.mul(point_inverse, coset.omega_inverse);
        i = i + 1;
    }
    assert(values_of(out@) =~= want);
    out
}

/// The transcript object of one colinearity test: the values of the
/// current codeword at `index` and half a length further, and the value
/// of the next codeword at `index`.
pub open spec fn triple_encoding(current: Seq<int>, next: Seq<int>, index: int) -> Seq<u8> {
    ObjectView::Triple(
        current[index] as u128,
        current[index + current.len() / 2] as u128,
        next[index] as u128,
    ).encoding()
}

/// The transcript object that authenticates the value of a codeword at `index`.
pub open spec fn path_encoding(codeword: Seq<int>, index: int) -> Seq<u8> {
    ObjectView::Path(merkle_path(index, leaf_rows(codeword))).encoding()
}

/// The `t`-th authentication path of a query: three for each test, for the
/// two values of the current codeword and the one of the next.
pub open spec fn path_at(current: Seq<int>, next: Seq<int>, indices: Seq<usize>, t: int) -> Seq<u8> {
    let index = indices[t / 3] as int;
    if t % 3 == 0 {
        path_encoding(current, index)
    } else if t % 3 == 1 {
        path_encoding(current, index + current.len() / 2)
    } else {
        path_encoding(next, index)
    }
}

/// The triples of a query, one for each index.
pub open spec fn triple_objects(current: Seq<int>, next: Seq<int>, indices: Seq<usize>) -> Seq<
    Seq<u8>,
> {
    Seq::new(indices.len(), |s: int| triple_encoding(current, next, indices[s] as int))
}

/// The authentication paths of a query, three for each index.
pub open spec fn path_objects(current: Seq<int>, next: Seq<int>, indices: Seq<usize>) -> Seq<
    Seq<u8>,
> {
    Seq::new(3 * indices.len(), |t: int| path_at(current, next, indices, t))
}

/// What a query appends to the transcript: the triples, then the paths.
pub open spec fn query_objects(current: Seq<int>, next: Seq<int>, indices: Seq<usize>) -> Seq<
    Seq<u8>,
> {
    triple_objects(current, next, indices) + path_objects(current, next, indices)
}

/// Each index reduced modulo `modulus`.
pub open spec fn reduce_indices(indices: Seq<usize>, modulus: nat) -> Seq<usize> {
    Seq::new(indices.len(), |i: int| (indices[i] as nat % modulus) as usize)
}

/// Each index moved up by `shift`.
pub open spec fn shift_indices(indices: Seq<usize>, shift: nat) -> Seq<usize> {
    Seq::new(indices.len(), |i: int| (indices[i] + shift) as usize)
}

/// The transcript after the queries of round `r` and all later rounds:
/// in each round the indices are reduced to the length of the next
/// codeword and the query of the round is appended.
pub open spec fn query_rounds(
    codewords: Seq<Seq<int>>,
    indices: Seq<usize>,
    r: nat,
    objects: Seq<Seq<u8>>,
) -> Seq<Seq<u8>>
    decreases codewords.len() - r,
{
    if r + 1 >= codewords.len() {
        objects
    } else {
        let folded = reduce_indices(indices, codewords[r as int].len() / 2);
        query_rounds(
            codewords,
            folded,
            r + 1,
            objects + query_objects(codewords[r as int], codewords[r as int + 1], folded),
        )
    }
}

/// The result of `prove` with the indices as a sequence.
pub open spec fn indices_view(res: Result<Vec<usize>, Error>) -> Result<Seq<usize>, Error> {
    match res {
        Ok(indices) => Ok(indices@),
        Err(e) => Err(e),
    }
}

/// What a proof is: the indices of the first round and the transcript.
pub struct Proved {
    pub top_indices: Seq<usize>,
    pub objects: Seq<Seq<u8>>,
}

impl Fri {
    /// The offset and the generator of the coset, and two, have inverses.
    pub open spec fn units(&self) -> bool {
        units(self.offset.value as int, self.omega.value as int, self.field.p as int)
    }

    /// What the commit phase gives for `codeword` on a transcript that
    /// holds `objects`.
    pub open spec fn committed(&self, codeword: Seq<int>, objects: Seq<Seq<u8>>) -> Committed {
        commit_rounds(
            codeword,
            self.offset.value as int,
            self.omega.value as int,
            self.field.p as int,
            objects,
            self.spec_num_rounds(),
        )
    }

    /// What `prove` gives for `codeword` on a transcript that holds
    /// `objects`; nothing if the draws of indices run out.
    pub open spec fn proved(&self, codeword: Seq<int>, objects: Seq<Seq<u8>>) -> Option<Proved> {
        let c = self.committed(codeword, objects);
        match sampled(
            challenge(c.objects, SEED_LENGTH as int),
            (self.domain_length / 2) as nat,
            c.codewords.last().len(),
            self.num_colinearity_tests as nat,
        ) {
            Some(top) => Some(
                Proved { top_indices: top, objects: query_rounds(c.codewords, top, 0, c.objects) },
            ),
            None => None,
        }
    }

    /// What a run of `prove` ends with: without the inverses that folding
    /// needs, an error and the transcript as it was; if the draws of
    /// indices run out, an error and the transcript of the commit phase;
    /// else the indices and the transcript of the proof.
    pub open spec fn outcome(
        &self,
        codeword: Seq<int>,
        objects: Seq<Seq<u8>>,
        result: Result<Seq<usize>, Error>,
        objects_after: Seq<Seq<u8>>,
    ) -> bool {
        if !self.units() {
            result == Err::<Seq<usize>, Error>(Error::NotInvertible) && objects_after == objects
        } else {
            match self.proved(codeword, objects) {
                Some(proof) => result == Ok::<Seq<usize>, Error>(proof.top_indices)
                    && objects_after == proof.objects,
                None => result == Err::<Seq<usize>, Error>(Error::InsufficientEntropy)
                    && objects_after == self.committed(codeword, objects).objects,
            }
        }
    }

    /// The coset of the first round with the inverses that folding needs.
    pub fn first_coset(&self) -> (res: Result<Coset, Error>)
        requires
            self.wf(),
        ensures
            res is Ok <==> self.units(),
            match res {
                Ok(coset) => coset.wf() && coset.offset == self.offset && coset.omega == self.omega,
                Err(e) => e == Error::NotInvertible,
            },
    {
        let field: Field = self.field;
        let two: FieldElement = FieldElement::from(2, &field);
        proof {
            let p = field.p as int;
            if p == 2 {
                crate::field::arith::lemma_gcd_step(2, 2);
            } else {
                lemma_small_mod(2, p as nat);
            }
        }
        let offset_inverse: FieldElement = match field.inverse(self.offset) {
            Ok(v) => v,
            Err(_) => {
                return Err(Error::NotInvertible);
            },
        };
        let omega_inverse: FieldElement = match field.inverse(self.omega) {
            Ok(v) => v,
            Err(_) => {
                return Err(Error::NotInvertible);
            },
        };
        let half: FieldElement = match field.inverse(two) {
            Ok(v) => v,
            Err(_) => {
                return Err(Error::NotInvertible);
            },
        };
        Ok(Coset { offset: self.offset, omega: self.omega, offset_inverse, omega_inverse, half })
    }

    /// The commit phase from one round on.
    fn commit_from(
        &self,
        codeword: Vec<FieldElement>,
        coset: &Coset,
        rounds_left: usize,
        proof_stream: &mut ProofStream,
    ) -> (codewords: Vec<Vec<FieldElement>>)
        requires
            self.wf(),
            coset.wf(),
            coset.offset.field == self.field,
            all_in(codeword@, self.field),
            old(proof_stream).wf(),
            is_pow2(codeword@.len() as int),
            rounds_left == rounds(
                codeword@.len(),
                self.expansion_factor as nat,
                self.num_colinearity_tests as nat,
            ),
        ensures
            final(proof_stream).wf(),
            final(proof_stream)@.cursor == old(proof_stream)@.cursor,
            ({
                let c = commit_rounds(
                    values_of(codeword@),
                    coset.offset.value as int,
                    coset.omega.value as int,
                    self.field.p as int,
                    old(proof_stream)@.objects,
                    rounds_left as nat,
                );
                final(proof_stream)@.objects == c.objects && codeword_views(codewords@)
                    == c.codewords
            }),
            codewords@.len() == (if rounds_left == 0 {
                1
            } else {
                rounds_left as int
            }),
            forall|i: int|
                0 <= i < codewords@.len() ==> all_in((#[trigger] codewords@[i])@, self.field)
                    && codewords@[i]@.len() == halved(codeword@.len(), i as nat),
        decreases rounds_left,
    {
        let field: Field = self.field;
        let ghost cv = values_of(codeword@);
        let ghost p = field.p as int;
        if rounds_left > 0 {
            let leaves: Vec<Vec<u8>> = codeword_leaves(&codeword);
            let root: Vec<u8> = Merkle::commit(leaves.as_slice());
            proof_stream.push(&ProofObject::Root(root));
        }
        if rounds_left <= 1 {
            let wire: Vec<u128> = codeword_wire(&codeword);
            proof_stream.push(&ProofObject::Codeword(wire));
            let mut codewords: Vec<Vec<FieldElement>> = Vec::new();
            codewords.push(codeword);
            proof {
                assert(codeword_views(codewords@) =~= seq![cv]);
            }
            return codewords;
        }
        let seed: Vec<u8> = proof_stream.prover_fiat_shamir(SEED_LENGTH);
        let alpha: FieldElement = field.sample(seed);
        proof {
            lemma_half_is_pow2(codeword@.len() as int);
        }
        let next: Vec<FieldElement> = fold(&codeword, alpha, coset);
        let next_coset: Coset = coset.squared();
        assert(values_of(next@).len() == next@.len());
        let ghost next_len = next@.len();
        let mut codewords: Vec<Vec<FieldElement>> = self.commit_from(
            next,
            &next_coset,
            rounds_left - 1,
            proof_stream,
        );
        let ghost rest = codewords@;
        codewords.insert(0, codeword);
        proof {
            assert(codeword_views(codewords@) =~= seq![cv] + codeword_views(rest));
            assert forall|i: int| 0 <= i < codewords@.len() implies all_in(
                (#[trigger] codewords@[i])@,
                self.field,
            ) && codewords@[i]@.len() == halved(codeword@.len(), i as nat) by {
                if i > 0 {
                    assert(codewords@[i] == rest[i - 1]);
                }
            }
        }
        codewords
    }

    /// The commit phase: appends to the transcript the Merkle root of the
    /// codeword of each round and then the last codeword itself, and
    /// returns the codewords of all rounds.
    pub fn commit(&self, codeword: Vec<FieldElement>, proof_stream: &mut ProofStream) -> (res:
        Result<Vec<Vec<FieldElement>>, Error>)
        requires
            self.wf(),
            old(proof_stream).wf(),
            codeword@.len() == self.domain_length,
            all_in(codeword@, self.field),
            is_pow2(codeword@.len() as int),
        ensures
            final(proof_stream).wf(),
            final(proof_stream)@.cursor == old(proof_stream)@.cursor,
            res is Ok <==> self.units(),
            match res {
                Ok(codewords) => {
                    let c = self.committed(values_of(codeword@), old(proof_stream)@.objects);
                    &&& final(proof_stream)@.objects == c.objects
                    &&& codeword_views(codewords@) == c.codewords
                    &&& codewords@.len() == (if self.spec_num_rounds() == 0 {
                        1
                    } else {
                        self.spec_num_rounds()
                    })
                    &&& forall|i: int|
                        0 <= i < codewords@.len() ==> all_in(
                            (#[trigger] codewords@[i])@,
                            self.field,
                        ) && codewords@[i]@.len() == halved(self.domain_length as nat, i as nat)
                },
                Err(e) => e == Error::NotInvertible && final(proof_stream)@ == old(proof_stream)@,
            },
    {
        let coset: Coset = match self.first_coset() {
            Ok(c) => c,
            Err(e) => {
                return Err(e);
            },
        };
        let rounds_left: usize = self.num_rounds();
        Ok(self.commit_from(codeword, &coset, rounds_left, proof_stream))
    }

    /// Answers the colinearity tests of one round: appends, for each
    /// index, the triple of values, and then, for each index, the three
    /// authentication paths. Returns the indices into the current
    /// codeword that were opened.
    pub fn query(
        &self,
        current_codeword: &Vec<FieldElement>,
        next_codeword: &Vec<FieldElement>,
        c_indices: &Vec<usize>,
        proof_stream: &mut ProofStream,
    ) -> (opened: Vec<usize>)
        requires
            old(proof_stream).wf(),
            c_indices@.len() == self.num_colinearity_tests,
            forall|i: int| 0 <= i < current_codeword@.len() ==> (#[trigger] current_codeword@[i]).wf(),
            forall|i: int| 0 <= i < next_codeword@.len() ==> (#[trigger] next_codeword@[i]).wf(),
            is_pow2(current_codeword@.len() as int),
            current_codeword@.len() >= 2,
            next_codeword@.len() == current_codeword@.len() / 2,
            forall|s: int| 0 <= s < c_indices@.len() ==> (#[trigger] c_indices@[s]) < next_codeword@.len(),
        ensures
            final(proof_stream).wf(),
            final(proof_stream)@.cursor == old(proof_stream)@.cursor,
            final(proof_stream)@.objects == old(proof_stream)@.objects + query_objects(
                values_of(current_codeword@),
                values_of(next_codeword@),
                c_indices@,
            ),
            opened@ == c_indices@ + shift_indices(c_indices@, current_codeword@.len() / 2),
    {
        let half: usize = current_codeword.len() / 2;
        let count: usize = self.num_colinearity_tests;
        let ghost cur = values_of(current_codeword@);
        let ghost nxt = values_of(next_codeword@);
        let ghost before = proof_stream@.objects;
        let ghost triples = triple_objects(cur, nxt, c_indices@);
        let ghost paths = path_objects(cur, nxt, c_indices@);
        proof {
            lemma_half_is_pow2(current_codeword@.len() as int);
        }
        let mut s: usize = 0;
        proof {
            assert(before + triples.take(0) =~= before);
        }
        while s < count
            invariant
                s <= count,
                count == c_indices@.len(),
                half == current_codeword@.len() / 2,
                current_codeword@.len() == 2 * half,
                2 * half <= usize::MAX,
                next_codeword@.len() == half,
                forall|i: int|
                    0 <= i < current_codeword@.len() ==> (#[trigger] current_codeword@[i]).wf(),
                forall|i: int| 0 <= i < next_codeword@.len() ==> (#[trigger] next_codeword@[i]).wf(),
                forall|k: int| 0 <= k < c_indices@.len() ==> (#[trigger] c_indices@[k]) < half,
                cur == values_of(current_codeword@),
                nxt == values_of(next_codeword@),
                triples == triple_objects(cur, nxt, c_indices@),
                proof_stream.wf(),
                proof_stream@.cursor == old(proof_stream)@.cursor,
                proof_stream@.objects == before + triples.take(s as int),
            decreases count - s,
        {
            let index: usize = c_indices[s];
            let a: FieldElement = current_codeword[index];
            let b: FieldElement = current_codeword[index + half];
            let c: FieldElement = next_codeword[index];
            proof {
                assert(current_codeword@[index as int].wf());
                assert(current_codeword@[index + half].wf());
                assert(next_codeword@[index as int].wf());
            }
            let object = ProofObject::Triple(a.value as u128, b.value as u128, c.value as u128);
            proof_stream.push(&object);
            proof {
                assert(object@.encoding() == triples[s as int]);
                assert(before + triples.take(s + 1) =~= (before + triples.take(s as int)).push(
                    triples[s as int],
                ));
            }
            s = s + 1;
        }
        let current_leaves: Vec<Vec<u8>> = codeword_leaves(current_codeword);
        let next_leaves: Vec<Vec<u8>> = codeword_leaves(next_codeword);
        let ghost middle = proof_stream@.objects;
        let mut opened: Vec<usize> = Vec::new();
        let mut s: usize = 0;
        proof {
            assert(triples.take(count as int) =~= triples);
            assert(middle + paths.take(0) =~= middle);
        }
        while s < count
            invariant
                s <= count,
                count == c_indices@.len(),
                half == current_codeword@.len() / 2,
                current_codeword@.len() == 2 * half,
                2 * half <= usize::MAX,
                next_codeword@.len() == half,
                half >= 1,
                is_pow2(current_codeword@.len() as int),
                is_pow2(half as int),
                forall|k: int| 0 <= k < c_indices@.len() ==> (#[trigger] c_indices@[k]) < half,
                cur == values_of(current_codeword@),
                nxt == values_of(next_codeword@),
                byte_rows(current_leaves@) == leaf_rows(cur),
                byte_rows(next_leaves@) == leaf_rows(nxt),
                current_leaves@.len() == current_codeword@.len(),
                next_leaves@.len() == next_codeword@.len(),
                paths == path_objects(cur, nxt, c_indices@),
                proof_stream.wf(),
                proof_stream@.cursor == old(proof_stream)@.cursor,
                proof_stream@.objects == middle + paths.take(3 * s),
                opened@ == c_indices@.take(s as int),
            decreases count - s,
        {
            let index: usize = c_indices[s];
            let first = ProofObject::Path(Merkle::open(index, current_leaves.as_slice()));
            let second = ProofObject::Path(Merkle::open(index + half, current_leaves.as_slice()));
            let third = ProofObject::Path(Merkle::open(index, next_leaves.as_slice()));
            proof_stream.push(&first);
            proof_stream.push(&second);
            proof_stream.push(&third);
            opened.push(index);
            proof {
                assert(first@.encoding() == paths[3 * s]);
                assert(second@.encoding() == paths[3 * s + 1]);
                assert(third@.encoding() == paths[3 * s + 2]);
                assert(middle + paths.take(3 * (s + 1)) =~= (middle + paths.take(3 * s)).push(
                    paths[3 * s],
                ).push(paths[3 * s + 1]).push(paths[3 * s + 2]));
                assert(c_indices@.take(s + 1) =~= c_indices@.take(s as int).push(index));
            }
            s = s + 1;
        }
        let mut s: usize = 0;
        proof {
            assert(paths.take(3 * count) =~= paths);
            assert(c_indices@.take(count as int) =~= c_indices@);
            assert(before + triples + paths =~= before + (triples + paths));
        }
        let ghost shifted = shift_indices(c_indices@, half as nat);
        proof {
            assert(c_indices@ + shifted.take(0) =~= c_indices@);
        }
        while s < count
            invariant
                s <= count,
                count == c_indices@.len(),
                current_codeword@.len() == 2 * half,
                2 * half <= usize::MAX,
                forall|k: int| 0 <= k < c_indices@.len() ==> (#[trigger] c_indices@[k]) < half,
                shifted == shift_indices(c_indices@, half as nat),
                opened@ == c_indices@ + shifted.take(s as int),
            decreases count - s,
        {
            let index: usize = c_indices[s];
            opened.push(index + half);
            proof {
                assert(c_indices@ + shifted.take(s + 1) =~= (c_indices@ + shifted.take(
                    s as int,
                )).push(shifted[s as int]));
            }
            s = s + 1;
        }
        proof {
            assert(shifted.take(count as int) =~= shifted);
        }
        opened
    }
}

/// Each index reduced modulo `modulus`.
pub fn reduce_all(indices: &Vec<usize>, modulus: usize) -> (out: Vec<usize>)
    requires
        modulus > 0,
    ensures
        out@ == reduce_indices(indices@, modulus as nat),
        forall|i: int| 0 <= i < out@.len() ==> (#[trigger] out@[i]) < modulus,
{
    let mut out: Vec<usize> = Vec::new();
    let mut i: usize = 0;
    while i < indices.len()
        invariant
            i <= indices@.len(),
            modulus > 0,
            out@.len() == i,
            forall|j: int|
                0 <= j < i ==> (#[trigger] out@[j]) == (indices@[j] as nat % (modulus as nat)) as usize
                    && out@[j] < modulus,
        decreases indices@.len() - i,
    {
        out.push(indices[i] % modulus);
        i = i + 1;
    }
    assert(out@ =~= reduce_indices(indices@, modulus as nat));
    out
}

impl Fri {
    /// Proves that `codeword` is close to a polynomial of low degree:
    /// commits to the codeword and its foldings, draws the indices of the
    /// colinearity tests from the transcript and answers the tests of
    /// each round. Returns the indices drawn.
    pub fn prove(&self, codeword: Vec<FieldElement>, proof_stream: &mut ProofStream) -> (res:
        Result<Vec<usize>, Error>)
        requires
            self.wf(),
            old(proof_stream).wf(),
            codeword@.len() == self.domain_length,
            all_in(codeword@, self.field),
            is_pow2(codeword@.len() as int),
            self.spec_num_rounds() >= 1,
        ensures
            final(proof_stream).wf(),
            final(proof_stream)@.cursor == old(proof_stream)@.cursor,
            self.outcome(
                values_of(codeword@),
                old(proof_stream)@.objects,
                indices_view(res),
                final(proof_stream)@.objects,
            ),
    {
        let ghost cv = values_of(codeword@);
        let ghost start = proof_stream@.objects;
        let ghost n = self.domain_length as nat;
        let ghost ef = self.expansion_factor as nat;
        let ghost nct = self.num_colinearity_tests as nat;
        let codewords: Vec<Vec<FieldElement>> = match self.commit(codeword, proof_stream) {
            Ok(c) => c,
            Err(e) => {
                return Err(e);
            },
        };
        let ghost c = self.committed(cv, start);
        let total: usize = codewords.len();
        let seed: Vec<u8> = proof_stream.prover_fiat_shamir(SEED_LENGTH);
        let last_length: usize = codewords[total - 1].len();
        proof {
            assert(c.codewords.last() == values_of(codewords@[total - 1]@));
        }
        let top: Vec<usize> = match self.sample_indices(
            seed,
            self.domain_length / 2,
            last_length,
            self.num_colinearity_tests,
        ) {
            Ok(t) => t,
            Err(e) => {
                return Err(e);
            },
        };
        let mut indices: Vec<usize> = reduce_all(&top, self.domain_length / 2);
        proof {
            assert(indices@ =~= top@) by {
                assert forall|k: int| 0 <= k < top@.len() implies indices@[k] == top@[k] by {
                    lemma_small_mod(top@[k] as nat, (self.domain_length / 2) as nat);
                }
            }
        }
        let mut i: usize = 0;
        while i + 1 < total
            invariant
                i < total,
                total == codewords@.len(),
                total == c.codewords.len(),
                self.wf(),
                n == self.domain_length,
                ef == self.expansion_factor,
                nct == self.num_colinearity_tests,
                is_pow2(n as int),
                total == rounds(n, ef, nct),
                codeword_views(codewords@) == c.codewords,
                forall|k: int|
                    0 <= k < codewords@.len() ==> all_in((#[trigger] codewords@[k])@, self.field)
                        && codewords@[k]@.len() == halved(n, k as nat),
                indices@.len() == nct,
                proof_stream.wf(),
                proof_stream@.cursor == old(proof_stream)@.cursor,
                query_rounds(c.codewords, top@, 0, c.objects) == query_rounds(
                    c.codewords,
                    indices@,
                    i as nat,
                    proof_stream@.objects,
                ),
            decreases total - i,
        {
            proof {
                crate::fri::lemma_round_lengths(n, ef, nct, (i + 1) as nat);
                lemma_halved_step(n, i as nat);
                crate::fri::lemma_halved_pow2(n, i as nat);
                assert(c.codewords[i as int] == values_of(codewords@[i as int]@));
                assert(c.codewords[i + 1] == values_of(codewords@[i + 1]@));
            }
            let current: &Vec<FieldElement> = &codewords[i];
            let next: &Vec<FieldElement> = &codewords[i + 1];
            let folded: Vec<usize> = reduce_all(&indices, current.len() / 2);
            let _opened: Vec<usize> = self.query(current, next, &folded, proof_stream);
            indices = folded;
            i = i + 1;
        }
        Ok(top)
    }
}

/// The transcript is determined by the inputs: two runs of `prove` with
/// one configuration on one codeword, from transcripts that hold the
/// same objects, end with the same result and the same objects.
pub proof fn lemma_transcript_determinism(
    fri: Fri,
    codeword: Seq<int>,
    objects: Seq<Seq<u8>>,
    first_result: Result<Seq<usize>, Error>,
    first_objects: Seq<Seq<u8>>,
    second_result: Result<Seq<usize>, Error>,
    second_objects: Seq<Seq<u8>>,
)
    requires
        fri.outcome(codeword, objects, first_result, first_objects),
        fri.outcome(codeword, objects, second_result, second_objects),
    ensures
        first_result == second_result,
        first_objects == second_objects,
{
}

} // verus!
