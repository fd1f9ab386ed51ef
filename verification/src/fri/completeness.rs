//! Completeness of the protocol: the proof that the prover writes for the
//! values of a polynomial of low degree is accepted by the verifier.
use vstd::prelude::*;
use vstd::arithmetic::div_mod::*;
use vstd::arithmetic::mul::*;
use vstd::arithmetic::power2::*;

use vstd::arithmetic::power::*;

use crate::field::arith::{coprime, is_prime, lemma_prime_coprime};
use crate::fri::cosets::{
    generates, lemma_halved_times_pow2, lemma_opposite_point, lemma_point_is_unit,
    lemma_power_not_zero, lemma_round_generator, lemma_squared_is_power,
};
use crate::fri::folding::{even_part, folded_poly, lemma_fold_of_evaluations, odd_part};
use crate::fri::prover::{
    codeword_encoding, commit_rounds, fold_codeword, query_objects, query_rounds, reduce_indices,
    root_encoding, round_challenge, Committed,
};
use crate::fri::verification::{lemma_squared_step, squared_times};
use crate::fri::{
    coset, domain_point, halved, lemma_halved_pow2, lemma_halved_step, lemma_round_lengths, Fri,
};
use crate::bytes::{be_seq, lemma_be_seq_len};
use crate::field::field::root_of_order;
use crate::field::primality::lemma_default_prime_is_prime;
use crate::field::roots::lemma_root_is_primitive;
use crate::field::{DEFAULT_PRIME, MAX_MODULUS};
use crate::fri::cosets::{lemma_coset_is_distinct, lemma_generator_power};
use crate::fri::prover::{
    fold_point, leaf_rows, lemma_fold_is_colinear, lemma_units_in_prime_field, path_at,
    path_encoding, triple_encoding, wire_values,
};
use crate::fri::sampling::lemma_sampled_length;
use crate::fri::verification::{
    codeword_value, colinear_at, opened_at, test_index, triple_value,
};
use crate::fri::SEED_LENGTH;
use crate::proof_stream::challenge;
use crate::merkle::{
    lemma_half_is_pow2, lemma_merkle_completeness, lemma_path_length, lemma_pow2_is_positive,
    merkle_path, merkle_root, merkle_verify,
};
use crate::poly::algebra::{
    coeff, lemma_degree, lemma_eval_step, poly_eval, poly_scale, reduced, tail,
};
use crate::poly::uniqueness::{evaluations, lemma_lagrange_of_evaluations};
use crate::proof_object::{decoding, lemma_decode_encode, ObjectView};

verus! {

/// The root of round `r` stands at its place of the transcript.
pub open spec fn root_link(c: Committed, base: int, r: int) -> bool {
    c.objects[base + r] == root_encoding(c.codewords[r])
}

/// The codeword of round `r + 1` is the codeword of round `r`, folded with
/// the challenge that the transcript up to the root of round `r` gives.
pub open spec fn fold_link(c: Committed, base: int, r: int, offset: int, omega: int, p: int) -> bool {
    c.codewords[r + 1] == fold_codeword(
        c.codewords[r],
        round_challenge(c.objects.take(base + r + 1), p),
        squared_times(offset, r as nat, p),
        squared_times(omega, r as nat, p),
        p,
    )
}

/// What the commit phase leaves, place by place: the transcript is the one
/// from before, the root of each round and the last codeword; the
/// codewords are the first one and its foldings.
pub open spec fn commit_shape(
    c: Committed,
    codeword: Seq<int>,
    offset: int,
    omega: int,
    p: int,
    objects: Seq<Seq<u8>>,
    rounds: nat,
) -> bool {
    let base = objects.len() as int;
    &&& c.codewords.len() == rounds
    &&& c.objects.len() == base + rounds + 1
    &&& c.objects.take(base) == objects
    &&& c.codewords[0] == codeword
    &&& c.objects[base + rounds] == codeword_encoding(c.codewords[rounds - 1])
    &&& forall|r: int| 0 <= r < rounds ==> #[trigger] root_link(c, base, r)
    &&& forall|r: int| 0 <= r < rounds - 1 ==> #[trigger] fold_link(c, base, r, offset, omega, p)
}

/// The commit phase leaves what `commit_shape` says.
pub proof fn lemma_commit_layout(
    codeword: Seq<int>,
    offset: int,
    omega: int,
    p: int,
    objects: Seq<Seq<u8>>,
    rounds: nat,
)
    requires
        rounds >= 1,
    ensures
        commit_shape(
            commit_rounds(codeword, offset, omega, p, objects, rounds),
            codeword,
            offset,
            omega,
            p,
            objects,
            rounds,
        ),
    decreases rounds,
{
    let c = commit_rounds(codeword, offset, omega, p, objects, rounds);
    let base = objects.len() as int;
    let with_root = objects.push(root_encoding(codeword));
    if rounds == 1 {
        assert(c.objects.take(base) =~= objects);
        assert(root_link(c, base, 0));
    } else {
        let alpha = round_challenge(with_root, p);
        let next = fold_codeword(codeword, alpha, offset, omega, p);
        let off2 = (offset * offset) % p;
        let om2 = (omega * omega) % p;
        let rest = commit_rounds(next, off2, om2, p, with_root, (rounds - 1) as nat);
        lemma_commit_layout(next, off2, om2, p, with_root, (rounds - 1) as nat);
        assert(c.codewords =~= seq![codeword] + rest.codewords);
        assert(c.objects == rest.objects);
        assert(rest.objects.take(base + 1) == with_root);
        assert(c.objects.take(base) =~= objects) by {
            assert forall|i: int| 0 <= i < base implies c.objects[i] == objects[i] by {
                assert(rest.objects.take(base + 1)[i] == with_root[i]);
            }
        }
        assert(c.objects[base] == root_encoding(codeword)) by {
            assert(rest.objects.take(base + 1)[base] == with_root[base]);
        }
        assert forall|r: int| 0 <= r < rounds implies #[trigger] root_link(c, base, r) by {
            if r > 0 {
                assert(root_link(rest, base + 1, r - 1));
                assert(c.codewords[r] == rest.codewords[r - 1]);
            }
        }
        assert forall|r: int| 0 <= r < rounds - 1 implies #[trigger] fold_link(
            c,
            base,
            r,
            offset,
            omega,
            p,
        ) by {
            if r == 0 {
                assert(c.codewords[1] == rest.codewords[0]);
                assert(c.objects.take(base + 1) == with_root);
            } else {
                assert(fold_link(rest, base + 1, r - 1, off2, om2, p));
                assert(c.codewords[r + 1] == rest.codewords[r]);
                assert(c.codewords[r] == rest.codewords[r - 1]);
                assert(squared_times(offset, r as nat, p) == squared_times(
                    off2,
                    (r - 1) as nat,
                    p,
                ));
                assert(squared_times(omega, r as nat, p) == squared_times(om2, (r - 1) as nat, p));
            }
        }
        assert(c.objects[base + rounds] == codeword_encoding(c.codewords[rounds - 1])) by {
            assert(c.codewords[rounds - 1] == rest.codewords[rounds - 2]);
        }
    }
}

/// The indices of the queries of round `t`, where `indices` are those
/// that round `r` begins with: reduced once in each round from `r` to `t`.
pub open spec fn later_indices(
    codewords: Seq<Seq<int>>,
    indices: Seq<usize>,
    r: nat,
    t: nat,
) -> Seq<usize>
    decreases t - r,
{
    let folded = reduce_indices(indices, codewords[r as int].len() / 2);
    if t <= r {
        folded
    } else {
        later_indices(codewords, folded, r + 1, t)
    }
}

/// Where the queries of the rounds stand: the transcript from before is
/// kept, and the objects of round `t` stand behind those of the rounds
/// from `r` to `t`, four for each index.
pub proof fn lemma_query_layout(
    codewords: Seq<Seq<int>>,
    indices: Seq<usize>,
    r: nat,
    objects: Seq<Seq<u8>>,
    t: nat,
)
    requires
        r <= t,
        t + 1 < codewords.len(),
    ensures
        ({
            let out = query_rounds(codewords, indices, r, objects);
            let m = 4 * indices.len();
            let at = objects.len() + (t - r) * m;
            &&& out.len() == objects.len() + (codewords.len() - 1 - r) * m
            &&& out.take(objects.len() as int) == objects
            &&& at + m <= out.len()
            &&& out.subrange(at, at + m) == query_objects(
                codewords[t as int],
                codewords[t as int + 1],
                later_indices(codewords, indices, r, t),
            )
        }),
    decreases codewords.len() - r,
{
    let out = query_rounds(codewords, indices, r, objects);
    let m = (4 * indices.len()) as int;
    let folded = reduce_indices(indices, codewords[r as int].len() / 2);
    let q = query_objects(codewords[r as int], codewords[r as int + 1], folded);
    let longer = objects + q;
    let rounds_here = codewords.len() - 1 - r;
    assert(q.len() == m);
    lemma_mul_basics(m);
    if r + 2 < codewords.len() {
        let later = if t > r {
            t
        } else {
            r + 1
        };
        lemma_query_layout(codewords, folded, r + 1, longer, later);
        assert(out.take(longer.len() as int) == longer);
        assert((rounds_here - 1) * m + m == rounds_here * m) by (nonlinear_arith);
        assert(out.take(objects.len() as int) =~= objects) by {
            assert forall|i: int| 0 <= i < objects.len() implies out[i] == objects[i] by {
                assert(out.take(longer.len() as int)[i] == longer[i]);
            }
        }
        if t == r {
            assert(out.subrange(objects.len() as int, objects.len() + m) =~= q) by {
                assert forall|i: int| 0 <= i < m implies out[objects.len() + i] == q[i] by {
                    assert(out.take(longer.len() as int)[objects.len() + i] == longer[objects.len()
                        + i]);
                }
            }
            assert((rounds_here - 1) * m >= 0) by (nonlinear_arith)
                requires
                    rounds_here >= 1,
                    m >= 0,
            ;
        } else {
            assert((t - r - 1) * m + m == (t - r) * m) by (nonlinear_arith);
        }
    } else {
        assert(query_rounds(codewords, folded, r + 1, longer) == longer);
        assert(out == longer);
        assert(out.take(objects.len() as int) =~= objects);
        assert(out.subrange(objects.len() as int, objects.len() + m) =~= q);
    }
}

/// Halving `a + b` times is halving `a` times and then `b` times.
pub proof fn lemma_halved_twice(n: nat, a: nat, b: nat)
    ensures
        halved(n, a + b) == halved(halved(n, a), b),
    decreases a,
{
    if a > 0 {
        lemma_halved_twice(n / 2, (a - 1) as nat, b);
    }
}

/// Reduced once in each round, an index ends as its residue modulo the
/// length of the codeword behind the last of the rounds.
pub proof fn lemma_later_indices(
    codewords: Seq<Seq<int>>,
    indices: Seq<usize>,
    r: nat,
    t: nat,
    n: nat,
    s: int,
)
    requires
        r <= t < codewords.len(),
        is_pow2(n as int),
        n <= usize::MAX,
        halved(n, t + 1) >= 1,
        forall|k: int| 0 <= k <= t ==> (#[trigger] codewords[k]).len() == halved(n, k as nat),
        0 <= s < indices.len(),
    ensures
        later_indices(codewords, indices, r, t).len() == indices.len(),
        later_indices(codewords, indices, r, t)[s] as nat == indices[s] as nat % halved(n, t + 1),
    decreases t - r,
{
    let here = halved(n, r + 1);
    let last = halved(n, t + 1);
    let folded = reduce_indices(indices, codewords[r as int].len() / 2);
    assert(codewords[r as int].len() == halved(n, r));
    lemma_halved_step(n, r);
    lemma_halved_twice(n, r + 1, (t - r) as nat);
    lemma_halved_pow2(n, t + 1);
    lemma_halved_twice(n, r + 1, 0);
    // the length behind round r is the last length times a power of two
    assert(here >= 1 && is_pow2(here as int) && here <= n) by {
        if t > r {
            lemma_halved_twice(n, r + 1, (t - r) as nat);
            lemma_halved_reaches(n, r + 1, t + 1);
        }
        lemma_halved_pow2(n, r + 1);
    }
    lemma_mod_bound(indices[s] as int, here as int);
    assert(folded[s] as nat == indices[s] as nat % here);
    if t > r {
        lemma_later_indices(codewords, folded, r + 1, t, n, s);
        lemma_halved_times_pow2(here, (t - r) as nat);
        lemma_pow2_pos((t - r) as nat);
        lemma_mod_mod(indices[s] as int, last as int, pow2((t - r) as nat) as int);
    }
}

/// A length that is at least one after more halvings is at least one after fewer.
pub proof fn lemma_halved_reaches(n: nat, a: nat, b: nat)
    requires
        a <= b,
        halved(n, b) >= 1,
    ensures
        halved(n, a) >= 1,
    decreases b - a,
{
    if a < b {
        lemma_halved_step(n, a);
        lemma_halved_reaches(n, a + 1, b);
    }
}

/// A power of two divides every power of two that is not smaller.
pub proof fn lemma_pow2_divides(a: nat, b: nat)
    requires
        is_pow2(a as int),
        is_pow2(b as int),
        a <= b,
    ensures
        b % a == 0,
{
    is_pow2_equiv(a as int);
    is_pow2_equiv(b as int);
    let i = choose|i: nat| vstd::arithmetic::power::pow(2, i) == a as int;
    let j = choose|j: nat| vstd::arithmetic::power::pow(2, j) == b as int;
    assert(pow2(i) == a && pow2(j) == b);
    if j < i {
        lemma_pow2_strictly_increases(j, i);
    }
    lemma_pow2_adds(i, (j - i) as nat);
    lemma_pow2_pos(i);
    lemma_mod_multiples_basic(pow2((j - i) as nat) as int, a as int);
}

/// Halving the number of coefficients, rounded up, keeps it within the
/// bound that the halved length gives.
pub proof fn lemma_halve_bound(len: nat, ef: nat, h: nat)
    requires
        is_pow2(ef as int),
        is_pow2(h as int),
        h % 2 == 0,
        is_pow2((h / 2) as int),
        ef <= h / 2,
        len * ef <= h,
    ensures
        ((len + 1) / 2) * ef <= h / 2,
{
    lemma_pow2_divides(ef, h / 2);
    lemma_pow2_is_positive(ef as int);
    let q = (h / 2) / ef;
    lemma_fundamental_div_mod((h / 2) as int, ef as int);
    assert(len <= 2 * q) by (nonlinear_arith)
        requires
            len * ef <= h,
            h == 2 * (h / 2),
            h / 2 == ef * q,
            ef >= 1,
    ;
    assert(((len + 1) / 2) * ef <= q * ef) by (nonlinear_arith)
        requires
            (len + 1) / 2 <= q,
            ef >= 1,
    ;
    lemma_mul_is_commutative(q as int, ef as int);
}

/// A generator is not zero.
pub proof fn lemma_generator_not_zero(omega: int, n: nat, p: int)
    requires
        p > 2,
        generates(omega, n, p),
    ensures
        omega % p != 0,
{
    if omega % p == 0 {
        lemma_pow_mod_noop(omega, n / 2, p);
        lemma0_pow(n / 2);
        lemma_small_mod(0, p as nat);
    }
}

/// What is asked of a configuration and a polynomial for the proof of the
/// polynomial's values to be accepted: the field is of odd prime order,
/// the offset is not zero, the generator has the order of the domain, the
/// expansion factor is a power of two, and the polynomial has at most
/// `domain_length / expansion_factor` coefficients.
pub open spec fn low_degree_setup(fri: Fri, poly: Seq<int>) -> bool {
    let p = fri.field.p as int;
    &&& fri.ready()
    &&& is_prime(p)
    &&& p > 2
    &&& fri.offset.value != 0
    &&& generates(fri.omega.value as int, fri.domain_length as nat, p)
    &&& is_pow2(fri.expansion_factor as int)
    &&& reduced(poly, p)
    &&& poly.len() * fri.expansion_factor <= fri.domain_length
}

/// The offset of the coset of round `r`.
pub open spec fn round_offset(fri: Fri, r: int) -> int {
    squared_times(fri.offset.value as int, r as nat, fri.field.p as int)
}

/// The generator of the coset of round `r`.
pub open spec fn round_omega(fri: Fri, r: int) -> int {
    squared_times(fri.omega.value as int, r as nat, fri.field.p as int)
}

/// The length of the codeword of round `r`.
pub open spec fn round_length(fri: Fri, r: int) -> nat {
    halved(fri.domain_length as nat, r as nat)
}

/// The coset of round `r`.
pub open spec fn round_coset(fri: Fri, r: int) -> Seq<int> {
    coset(round_offset(fri, r), round_omega(fri, r), round_length(fri, r), fri.field.p as int)
}

/// The polynomial of round `r`: the polynomial of the round before,
/// folded with the challenge of that round.
pub open spec fn round_poly(fri: Fri, poly: Seq<int>, c: Committed, base: int, r: int) -> Seq<int>
    decreases r,
{
    if r <= 0 {
        poly
    } else {
        folded_poly(
            round_poly(fri, poly, c, base, r - 1),
            round_challenge(c.objects.take(base + r), fri.field.p as int),
            fri.field.p as int,
        )
    }
}

/// The coset of a round: its length is a power of two above the expansion
/// factor, its offset and its generator are units, and its generator has
/// the order of its length.
pub proof fn lemma_round_facts(fri: Fri, poly: Seq<int>, r: int)
    requires
        low_degree_setup(fri, poly),
        0 <= r < fri.spec_num_rounds(),
    ensures
        round_length(fri, r) > fri.expansion_factor,
        4 * fri.num_colinearity_tests < round_length(fri, r),
        round_length(fri, r) <= fri.domain_length,
        round_length(fri, r) % 2 == 0,
        is_pow2(round_length(fri, r) as int),
        is_pow2((round_length(fri, r) / 2) as int),
        round_length(fri, r + 1) == round_length(fri, r) / 2,
        round_length(fri, r + 1) >= 1,
        0 < round_offset(fri, r) < fri.field.p,
        0 < round_omega(fri, r) < fri.field.p,
        generates(round_omega(fri, r), round_length(fri, r), fri.field.p as int),
        round_offset(fri, r + 1) == (round_offset(fri, r) * round_offset(fri, r)) % (
        fri.field.p as int),
        round_omega(fri, r + 1) == (round_omega(fri, r) * round_omega(fri, r)) % (
        fri.field.p as int),
{
    let p = fri.field.p as int;
    let n = fri.domain_length as nat;
    let offset = fri.offset.value as int;
    let omega = fri.omega.value as int;
    lemma_round_lengths(
        n,
        fri.expansion_factor as nat,
        fri.num_colinearity_tests as nat,
        r as nat,
    );
    lemma_halved_pow2(n, r as nat);
    lemma_half_is_pow2(round_length(fri, r) as int);
    lemma_halved_step(n, r as nat);
    lemma_squared_is_power(offset, r as nat, p);
    lemma_squared_is_power(omega, r as nat, p);
    lemma_small_mod(offset as nat, p as nat);
    lemma_power_not_zero(offset, pow2(r as nat), p);
    lemma_generator_not_zero(omega, n, p);
    lemma_power_not_zero(omega, pow2(r as nat), p);
    lemma_round_generator(omega, n, r as nat, p);
    lemma_squared_step(offset, r as nat, p);
    lemma_squared_step(omega, r as nat, p);
}

/// The codeword of each round holds the values of the polynomial of the
/// round on the coset of the round, and that polynomial is within the
/// bound of the round.
pub proof fn lemma_round_codeword(fri: Fri, poly: Seq<int>, c: Committed, objects: Seq<Seq<u8>>, r: int)
    requires
        low_degree_setup(fri, poly),
        commit_shape(
            c,
            evaluations(poly, round_coset(fri, 0), fri.field.p as int),
            fri.offset.value as int,
            fri.omega.value as int,
            fri.field.p as int,
            objects,
            fri.spec_num_rounds(),
        ),
        0 <= r < fri.spec_num_rounds(),
    ensures
        c.codewords[r] == evaluations(
            round_poly(fri, poly, c, objects.len() as int, r),
            round_coset(fri, r),
            fri.field.p as int,
        ),
        c.codewords[r].len() == round_length(fri, r),
        reduced(c.codewords[r], fri.field.p as int),
        reduced(round_poly(fri, poly, c, objects.len() as int, r), fri.field.p as int),
        round_poly(fri, poly, c, objects.len() as int, r).len() * fri.expansion_factor
            <= round_length(fri, r),
    decreases r,
{
    let p = fri.field.p as int;
    let base = objects.len() as int;
    let g = round_poly(fri, poly, c, base, r);
    lemma_round_facts(fri, poly, r);
    if r > 0 {
        let before = round_poly(fri, poly, c, base, r - 1);
        let alpha = round_challenge(c.objects.take(base + r), p);
        let off = round_offset(fri, r - 1);
        let om = round_omega(fri, r - 1);
        let half = round_length(fri, r);
        lemma_round_codeword(fri, poly, c, objects, r - 1);
        lemma_round_facts(fri, poly, r - 1);
        assert(fold_link(c, base, r - 1, fri.offset.value as int, fri.omega.value as int, p));
        lemma_prime_coprime(2, p);
        assert forall|i: int| 0 <= i < half implies domain_point(off, om, i as nat, p) >= 0
            && coprime(#[trigger] domain_point(off, om, i as nat, p), p) by {
            lemma_small_mod(off as nat, p as nat);
            lemma_small_mod(om as nat, p as nat);
            lemma_point_is_unit(off, om, i as nat, p);
        }
        assert forall|i: int| 0 <= i < half implies #[trigger] domain_point(
            off,
            om,
            (i + half) as nat,
            p,
        ) == (-domain_point(off, om, i as nat, p)) % p by {
            lemma_opposite_point(off, om, i as nat, half, p);
        }
        lemma_fold_of_evaluations(before, alpha, off, om, half, p);
        assert(2 * half == round_length(fri, r - 1));
        lemma_halve_bound(
            before.len(),
            fri.expansion_factor as nat,
            round_length(fri, r - 1),
        );
        assert(g.len() == (before.len() + 1) / 2);
        assert(reduced(g, p)) by {
            assert forall|i: int| 0 <= i < g.len() implies 0 <= #[trigger] g[i] < p by {
                lemma_mod_bound(
                    coeff(even_part(before), i) + coeff(poly_scale(odd_part(before), alpha, p), i),
                    p,
                );
            }
        }
    }
    let values = evaluations(g, round_coset(fri, r), p);
    assert(reduced(values, p)) by {
        assert forall|k: int| 0 <= k < values.len() implies 0 <= #[trigger] values[k] < p by {
            let x = round_coset(fri, r)[k];
            lemma_eval_step(g, x, p);
            lemma_mod_bound(coeff(g, 0) + x * poly_eval(tail(g), x, p), p);
        }
    }
}

/// The root above leaves of at most 32 bytes has at most 32 bytes.
pub proof fn lemma_root_is_short(leaves: Seq<Seq<u8>>)
    requires
        forall|i: int| 0 <= i < leaves.len() ==> (#[trigger] leaves[i]).len() <= 32,
    ensures
        merkle_root(leaves).len() <= 32,
    decreases leaves.len(),
{
    if leaves.len() == 1 {
        assert(leaves[0].len() <= 32);
    }
}

/// The nodes of the path of a leaf among leaves of at most 32 bytes have
/// at most 32 bytes.
pub proof fn lemma_path_is_short(index: int, leaves: Seq<Seq<u8>>)
    requires
        forall|i: int| 0 <= i < leaves.len() ==> (#[trigger] leaves[i]).len() <= 32,
    ensures
        forall|k: int|
            0 <= k < merkle_path(index, leaves).len() ==> (#[trigger] merkle_path(
                index,
                leaves,
            )[k]).len() <= 32,
    decreases leaves.len(),
{
    if leaves.len() > 1 {
        let mid = (leaves.len() / 2) as int;
        let left = leaves.take(mid);
        let right = leaves.skip(mid);
        assert forall|i: int| 0 <= i < left.len() implies (#[trigger] left[i]).len() <= 32 by {
            assert(left[i] == leaves[i]);
        }
        assert forall|i: int| 0 <= i < right.len() implies (#[trigger] right[i]).len() <= 32 by {
            assert(right[i] == leaves[i + mid]);
        }
        lemma_root_is_short(left);
        lemma_root_is_short(right);
        let path = merkle_path(index, leaves);
        if index < mid {
            let below = merkle_path(index, left);
            lemma_path_is_short(index, left);
            assert(path == below.push(merkle_root(right)));
            assert forall|k: int| 0 <= k < path.len() implies (#[trigger] path[k]).len() <= 32 by {
                if k < below.len() {
                    assert(path[k] == below[k]);
                }
            }
        } else {
            let below = merkle_path(index - mid, right);
            lemma_path_is_short(index - mid, right);
            assert(path == below.push(merkle_root(left)));
            assert forall|k: int| 0 <= k < path.len() implies (#[trigger] path[k]).len() <= 32 by {
                if k < below.len() {
                    assert(path[k] == below[k]);
                }
            }
        }
    }
}

/// The path that authenticates a value of a codeword decodes from its
/// transcript object, and verifies the value against the root.
pub proof fn lemma_path_decodes(codeword: Seq<int>, index: int)
    requires
        is_pow2(codeword.len() as int),
        codeword.len() <= usize::MAX,
        0 <= index < codeword.len(),
    ensures
        decoding(path_encoding(codeword, index)) == Some(
            ObjectView::Path(merkle_path(index, leaf_rows(codeword))),
        ),
        merkle_verify(
            merkle_root(leaf_rows(codeword)),
            index as nat,
            merkle_path(index, leaf_rows(codeword)),
            be_seq(codeword[index] as nat, 16),
        ),
{
    let leaves = leaf_rows(codeword);
    let path = merkle_path(index, leaves);
    assert forall|i: int| 0 <= i < leaves.len() implies (#[trigger] leaves[i]).len() <= 32 by {
        lemma_be_seq_len(codeword[i] as nat, 16);
    }
    lemma_path_is_short(index, leaves);
    lemma_path_length(index, leaves);
    lemma2_to64();
    if path.len() > 64 {
        lemma_pow2_strictly_increases(64, path.len());
    }
    lemma_decode_encode(ObjectView::Path(path));
    lemma_merkle_completeness(leaves, index);
}

/// A codeword of residues decodes from its transcript object.
pub proof fn lemma_codeword_decodes(codeword: Seq<int>, p: int, objects: Seq<Seq<u8>>, pos: int)
    requires
        2 <= p <= MAX_MODULUS,
        reduced(codeword, p),
        codeword.len() <= usize::MAX,
        0 <= pos < objects.len(),
        objects[pos] == codeword_encoding(codeword),
    ensures
        codeword_value(objects, pos, p) == Some(codeword),
{
    let wire = wire_values(codeword);
    lemma_decode_encode(ObjectView::Codeword(wire));
    assert(Seq::new(wire.len(), |i: int| wire[i] as int) =~= codeword);
}

/// A triple of values of codewords of residues decodes from its transcript object.
pub proof fn lemma_triple_decodes(
    current: Seq<int>,
    next: Seq<int>,
    index: int,
    p: int,
    objects: Seq<Seq<u8>>,
    pos: int,
)
    requires
        2 <= p <= MAX_MODULUS,
        reduced(current, p),
        reduced(next, p),
        0 <= index < next.len(),
        current.len() == 2 * next.len(),
        0 <= pos < objects.len(),
        objects[pos] == triple_encoding(current, next, index),
    ensures
        triple_value(objects, pos, p) == Some(
            (current[index], current[index + next.len()], next[index]),
        ),
{
    lemma_decode_encode(
        ObjectView::Triple(
            current[index] as u128,
            current[index + current.len() / 2] as u128,
            next[index] as u128,
        ),
    );
}

/// The last codeword of the commit phase is in order for the verifier.
pub proof fn lemma_last_codeword_accepted(
    fri: Fri,
    poly: Seq<int>,
    c: Committed,
    objects: Seq<Seq<u8>>,
    transcript: Seq<Seq<u8>>,
)
    requires
        low_degree_setup(fri, poly),
        commit_shape(
            c,
            evaluations(poly, round_coset(fri, 0), fri.field.p as int),
            fri.offset.value as int,
            fri.omega.value as int,
            fri.field.p as int,
            objects,
            fri.spec_num_rounds(),
        ),
        transcript.len() >= c.objects.len(),
        transcript.take(c.objects.len() as int) == c.objects,
    ensures
        fri.last_codeword_ok(
            transcript,
            (objects.len() + fri.spec_num_rounds()) as int,
            merkle_root(leaf_rows(c.codewords[fri.spec_num_rounds() - 1])),
        ),
{
    let p = fri.field.p as int;
    let rounds = fri.spec_num_rounds();
    let last_round = rounds - 1;
    let base = objects.len() as int;
    let pos = base + rounds;
    let last = c.codewords[last_round];
    let g = round_poly(fri, poly, c, base, last_round);
    let length = round_length(fri, last_round);
    let domain = round_coset(fri, last_round);
    lemma_round_facts(fri, poly, last_round);
    lemma_round_codeword(fri, poly, c, objects, last_round);
    assert(transcript[pos] == c.objects[pos]) by {
        assert(transcript.take(c.objects.len() as int)[pos] == transcript[pos]);
    }
    lemma_codeword_decodes(last, p, transcript, pos);
    lemma_generator_power(round_omega(fri, last_round), length, p);
    lemma_small_mod(round_offset(fri, last_round) as nat, p as nat);
    lemma_coset_is_distinct(
        round_offset(fri, last_round),
        round_omega(fri, last_round),
        length,
        p,
    );
    // the polynomial of the round has at most length / expansion_factor coefficients
    let ef = fri.expansion_factor as int;
    lemma_div_is_ordered(g.len() * ef, length as int, ef);
    lemma_div_by_multiple(g.len() as int, ef);
    assert(g.len() <= length / (ef as nat));
    lemma_lagrange_of_evaluations(g, domain, p);
    lemma_degree(g);
}

/// A root of the commit phase decodes from the transcript.
pub proof fn lemma_root_decodes(
    fri: Fri,
    c: Committed,
    objects: Seq<Seq<u8>>,
    transcript: Seq<Seq<u8>>,
    r: int,
)
    requires
        c.objects.len() == objects.len() + fri.spec_num_rounds() + 1,
        0 <= r < fri.spec_num_rounds(),
        root_link(c, objects.len() as int, r),
        transcript.len() >= c.objects.len(),
        transcript.take(c.objects.len() as int) == c.objects,
    ensures
        fri.round_root(transcript, objects.len() as int, r) == Some(
            merkle_root(leaf_rows(c.codewords[r])),
        ),
        fri.round_alpha(transcript, objects.len() as int, r) == round_challenge(
            c.objects.take(objects.len() + r + 1),
            fri.field.p as int,
        ),
{
    let pos = objects.len() + r;
    assert(transcript.take(c.objects.len() as int)[pos] == transcript[pos]);
    lemma_decode_encode(ObjectView::Root(merkle_root(leaf_rows(c.codewords[r]))));
    assert(transcript.take(pos + 1) =~= c.objects.take(pos + 1)) by {
        assert forall|i: int| 0 <= i < pos + 1 implies transcript[i] == c.objects[i] by {
            assert(transcript.take(c.objects.len() as int)[i] == transcript[i]);
        }
    }
}

/// Each round of the proof of a polynomial of low degree passes.
#[verifier::rlimit(40)]
pub proof fn lemma_round_accepted(
    fri: Fri,
    poly: Seq<int>,
    c: Committed,
    objects: Seq<Seq<u8>>,
    top: Seq<usize>,
    r: int,
)
    requires
        low_degree_setup(fri, poly),
        commit_shape(
            c,
            evaluations(poly, round_coset(fri, 0), fri.field.p as int),
            fri.offset.value as int,
            fri.omega.value as int,
            fri.field.p as int,
            objects,
            fri.spec_num_rounds(),
        ),
        top.len() == fri.num_colinearity_tests,
        0 <= r < fri.spec_num_rounds() - 1,
    ensures
        fri.round_ok(query_rounds(c.codewords, top, 0, c.objects), objects.len() as int, top, r),
{
    let p = fri.field.p as int;
    let n = fri.domain_length as nat;
    let rounds = fri.spec_num_rounds();
    let tests = fri.num_colinearity_tests as nat;
    let start = objects.len() as int;
    let transcript = query_rounds(c.codewords, top, 0, c.objects);
    let current = c.codewords[r];
    let next = c.codewords[r + 1];
    let half = round_length(fri, r + 1);
    let off = round_offset(fri, r);
    let om = round_omega(fri, r);
    let alpha = round_challenge(c.objects.take(start + r + 1), p);
    let root = merkle_root(leaf_rows(current));
    let next_root = merkle_root(leaf_rows(next));
    let base = fri.round_base(start, r);
    let indices = later_indices(c.codewords, top, 0, r as nat);
    let answers = query_objects(current, next, indices);
    let m = (4 * top.len()) as int;
    lemma_round_facts(fri, poly, r);
    lemma_round_facts(fri, poly, r + 1);
    lemma_round_codeword(fri, poly, c, objects, r);
    lemma_round_codeword(fri, poly, c, objects, r + 1);
    lemma_query_layout(c.codewords, top, 0, c.objects, r as nat);
    assert(base == c.objects.len() + (r - 0) * m);
    assert(transcript.subrange(base, base + m) == answers);
    assert(root_link(c, start, r));
    assert(root_link(c, start, r + 1));
    assert(fold_link(c, start, r, fri.offset.value as int, fri.omega.value as int, p));
    lemma_root_decodes(fri, c, objects, transcript, r);
    lemma_root_decodes(fri, c, objects, transcript, r + 1);
    lemma_prime_coprime(2, p);
    lemma_small_mod(off as nat, p as nat);
    lemma_small_mod(om as nat, p as nat);
    assert forall|k: int| 0 <= k <= r implies (#[trigger] c.codewords[k]).len() == halved(
        n,
        k as nat,
    ) by {
        lemma_round_codeword(fri, poly, c, objects, k);
    }
    assert forall|s: int| 0 <= s < tests implies indices.len() == tests && 0 <= (
    #[trigger] indices[s]) < half && indices[s] as int == test_index(top, s, half) by {
        lemma_later_indices(c.codewords, top, 0, r as nat, n, s);
        lemma_mod_bound(top[s] as int, half as int);
    }
    assert forall|s: int| 0 <= s < tests implies #[trigger] colinear_at(
        transcript,
        base,
        alpha,
        top,
        off,
        om,
        half,
        p,
        s,
    ) by {
        let index = indices[s] as int;
        assert(index == test_index(top, s, half));
        assert(transcript.subrange(base, base + m)[s] == transcript[base + s]);
        assert(answers[s] == triple_encoding(current, next, index));
        lemma_triple_decodes(current, next, index, p, transcript, base + s);
        let x = domain_point(off, om, index as nat, p);
        lemma_point_is_unit(off, om, index as nat, p);
        lemma_opposite_point(off, om, index as nat, half, p);
        lemma_fold_is_colinear(current[index], current[index + half], alpha, x, p);
        assert(next[index] == fold_point(current[index], current[half + index], alpha, x, p));
    }
    assert forall|s: int| 0 <= s < tests implies #[trigger] opened_at(
        transcript,
        base,
        tests,
        root,
        next_root,
        top,
        half,
        p,
        s,
    ) by {
        let index = indices[s] as int;
        let at = base + tests + 3 * s;
        assert(index == test_index(top, s, half));
        assert(transcript.subrange(base, base + m)[s] == transcript[base + s]);
        assert(answers[s] == triple_encoding(current, next, index));
        lemma_triple_decodes(current, next, index, p, transcript, base + s);
        assert(transcript.subrange(base, base + m)[tests + 3 * s] == transcript[at]);
        assert(transcript.subrange(base, base + m)[tests + 3 * s + 1] == transcript[at + 1]);
        assert(transcript.subrange(base, base + m)[tests + 3 * s + 2] == transcript[at + 2]);
        assert(answers[tests + 3 * s] == path_at(current, next, indices, 3 * s));
        assert(answers[tests + 3 * s + 1] == path_at(current, next, indices, 3 * s + 1));
        assert(answers[tests + 3 * s + 2] == path_at(current, next, indices, 3 * s + 2));
        assert((3 * s) / 3 == s && (3 * s + 1) / 3 == s && (3 * s + 2) / 3 == s);
        lemma_path_decodes(current, index);
        lemma_path_decodes(current, index + half);
        lemma_path_decodes(next, index);
    }
}

/// Completeness: for a configuration over a field of odd prime order,
/// with a generator of the order of the domain, an offset that is not
/// zero and an expansion factor that is a power of two, the proof that
/// `prove` writes for the values of a polynomial with at most
/// `domain_length / expansion_factor` coefficients is accepted by `verify`.
pub proof fn lemma_completeness(fri: Fri, poly: Seq<int>, objects: Seq<Seq<u8>>)
    requires
        low_degree_setup(fri, poly),
        fri.proved(evaluations(poly, round_coset(fri, 0), fri.field.p as int), objects) is Some,
    ensures
        fri.units(),
        fri.accepts(
            fri.proved(
                evaluations(poly, round_coset(fri, 0), fri.field.p as int),
                objects,
            )->Some_0.objects,
            objects.len() as int,
        ),
{
    let p = fri.field.p as int;
    let rounds = fri.spec_num_rounds();
    let start = objects.len() as int;
    let codeword = evaluations(poly, round_coset(fri, 0), p);
    let c = fri.committed(codeword, objects);
    let proof = fri.proved(codeword, objects)->Some_0;
    let top = proof.top_indices;
    let transcript = proof.objects;
    lemma_commit_layout(
        codeword,
        fri.offset.value as int,
        fri.omega.value as int,
        p,
        objects,
        rounds,
    );
    lemma_round_facts(fri, poly, 0);
    lemma_round_facts(fri, poly, rounds - 1);
    lemma_round_codeword(fri, poly, c, objects, rounds - 1);
    lemma_generator_not_zero(fri.omega.value as int, fri.domain_length as nat, p);
    lemma_small_mod(fri.omega.value as nat, p as nat);
    lemma_units_in_prime_field(fri.offset.value as int, fri.omega.value as int, p);
    // the indices are those that the prover drew
    assert(c.codewords.last() == c.codewords[rounds - 1]);
    lemma_sampled_length(
        challenge(c.objects, SEED_LENGTH as int),
        (fri.domain_length / 2) as nat,
        c.codewords.last().len(),
        fri.num_colinearity_tests as nat,
    );
    // the transcript of the commit phase stands at the front
    if rounds >= 2 {
        lemma_query_layout(c.codewords, top, 0, c.objects, 0);
    } else {
        assert(transcript == c.objects);
        assert(transcript.take(c.objects.len() as int) =~= c.objects);
    }
    assert forall|r: int| 0 <= r < rounds implies (#[trigger] fri.round_root(
        transcript,
        start,
        r,
    )) is Some by {
        assert(root_link(c, start, r));
        lemma_root_decodes(fri, c, objects, transcript, r);
    }
    assert(root_link(c, start, rounds - 1));
    lemma_root_decodes(fri, c, objects, transcript, rounds - 1);
    lemma_last_codeword_accepted(fri, poly, c, objects, transcript);
    assert(transcript.take(start + rounds + 1) == c.objects);
    assert(fri.top_indices(transcript, start) == Some(top));
    assert forall|r: int| 0 <= r < rounds - 1 implies #[trigger] fri.round_ok(
        transcript,
        start,
        top,
        r,
    ) by {
        lemma_round_accepted(fri, poly, c, objects, top, r);
    }
}

/// The default field with the root of unity that it hands out for the
/// domain length meets what completeness asks of the field and of the
/// generator.
pub proof fn lemma_default_setup(fri: Fri, poly: Seq<int>, k: nat)
    requires
        fri.ready(),
        fri.field.p == DEFAULT_PRIME,
        1 <= k <= 32,
        fri.domain_length == pow2(k),
        fri.omega.value == root_of_order(fri.domain_length as int),
        fri.offset.value != 0,
        is_pow2(fri.expansion_factor as int),
        reduced(poly, DEFAULT_PRIME as int),
        poly.len() * fri.expansion_factor <= fri.domain_length,
    ensures
        low_degree_setup(fri, poly),
{
    lemma_default_prime_is_prime();
    lemma_root_is_primitive(fri.domain_length as int, k);
    lemma_pow2_unfold(k);
    lemma_pow2_pos((k - 1) as nat);
}

} // verus!
