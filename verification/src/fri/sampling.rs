//! Deriving the indices of the colinearity tests from a seed.
use vstd::prelude::*;
use vstd::arithmetic::div_mod::*;

use crate::bytes::{be_bytes, be_seq, concat_bytes, lemma_byte_range_values};
use crate::error::Error;
use crate::field::arith::{be_value, lemma_be_value_push};
use crate::fri::Fri;
use crate::hash::{blake2b512, blake2b512_digest};

verus! {

/// The index that the `counter`-th draw from `seed` gives: the BLAKE2b-512
/// digest of the seed followed by the counter on eight bytes, read as a
/// number and reduced modulo `size`.
pub open spec fn candidate(seed: Seq<u8>, counter: nat, size: nat) -> nat {
    be_value(blake2b512(seed + be_seq(counter, 8))) % size
}

/// Some index of `picked` has the residue `residue` modulo `reduced_size`.
pub open spec fn residue_taken(picked: Seq<usize>, reduced_size: nat, residue: nat) -> bool {
    exists|j: int| 0 <= j < picked.len() && (#[trigger] picked[j]) as nat % reduced_size == residue
}

/// The indices drawn from `seed`, starting at draw `counter` with `picked`
/// already accepted: a draw is accepted if its residue modulo
/// `reduced_size` is new, until `number` are accepted. Nothing if the
/// draws run out first.
pub open spec fn sample_from(
    seed: Seq<u8>,
    size: nat,
    reduced_size: nat,
    number: nat,
    counter: nat,
    picked: Seq<usize>,
) -> Option<Seq<usize>>
    decreases u64::MAX - counter,
{
    if picked.len() >= number {
        Some(picked)
    } else if counter >= u64::MAX {
        None
    } else {
        let index = candidate(seed, counter, size);
        if residue_taken(picked, reduced_size, index % reduced_size) {
            sample_from(seed, size, reduced_size, number, counter + 1, picked)
        } else {
            sample_from(seed, size, reduced_size, number, counter + 1, picked.push(index as usize))
        }
    }
}

/// The indices that `sample_indices` gives.
pub open spec fn sampled(seed: Seq<u8>, size: nat, reduced_size: nat, number: nat) -> Option<
    Seq<usize>,
> {
    if number > reduced_size {
        None
    } else {
        sample_from(seed, size, reduced_size, number, 0, Seq::empty())
    }
}

/// What is drawn has as many indices as were asked for.
pub proof fn lemma_sampled_length(seed: Seq<u8>, size: nat, reduced_size: nat, number: nat)
    ensures
        sampled(seed, size, reduced_size, number) is Some ==> sampled(
            seed,
            size,
            reduced_size,
            number,
        )->Some_0.len() == number,
{
    if number <= reduced_size {
        lemma_sample_from_length(seed, size, reduced_size, number, 0, Seq::empty());
    }
}

/// What is drawn from a draw on, with no more accepted than asked for,
/// has as many indices as were asked for.
pub proof fn lemma_sample_from_length(
    seed: Seq<u8>,
    size: nat,
    reduced_size: nat,
    number: nat,
    counter: nat,
    picked: Seq<usize>,
)
    requires
        picked.len() <= number,
    ensures
        sample_from(seed, size, reduced_size, number, counter, picked) is Some ==> sample_from(
            seed,
            size,
            reduced_size,
            number,
            counter,
            picked,
        )->Some_0.len() == number,
    decreases u64::MAX - counter,
{
    if picked.len() < number && counter < u64::MAX {
        let index = candidate(seed, counter, size);
        if residue_taken(picked, reduced_size, index % reduced_size) {
            lemma_sample_from_length(seed, size, reduced_size, number, counter + 1, picked);
        } else {
            lemma_sample_from_length(
                seed,
                size,
                reduced_size,
                number,
                counter + 1,
                picked.push(index as usize),
            );
        }
    }
}

/// Whether some entry of `picked` has the residue `residue`.
fn taken(picked: &Vec<usize>, reduced_size: usize, residue: usize) -> (found: bool)
    requires
        reduced_size > 0,
    ensures
        found == residue_taken(picked@, reduced_size as nat, residue as nat),
{
    let mut j: usize = 0;
    while j < picked.len()
        invariant
            j <= picked@.len(),
            reduced_size > 0,
            forall|k: int| 0 <= k < j ==> (#[trigger] picked@[k]) as nat % (reduced_size as nat) != residue,
        decreases picked@.len() - j,
    {
        if picked[j] % reduced_size == residue {
            return true;
        }
        j = j + 1;
    }
    false
}

impl Fri {
    /// The number that `byte_array` spells, most significant byte first,
    /// reduced modulo `size`.
    pub fn sample_index(byte_array: Vec<u8>, size: usize) -> (index: usize)
        requires
            size > 0,
        ensures
            index == be_value(byte_array@) % (size as nat),
            index < size,
    {
        let mut acc: u128 = 0;
        let mut i: usize = 0;
        proof {
            assert(byte_array@.take(0) =~= Seq::<u8>::empty());
            lemma_small_mod(0, size as nat);
        }
        while i < byte_array.len()
            invariant
                i <= byte_array@.len(),
                size > 0,
                acc < size,
                acc == be_value(byte_array@.take(i as int)) % (size as nat),
            decreases byte_array@.len() - i,
        {
            let b: u8 = byte_array[i];
            proof {
                let m = size as int;
                let prefix = byte_array@.take(i as int);
                assert(byte_array@.take(i + 1) =~= prefix.push(b));
                lemma_be_value_push(prefix, b);
                lemma_mul_mod_noop_left(be_value(prefix) as int, 256, m);
                lemma_add_mod_noop((be_value(prefix) * 256) as int, b as int, m);
                lemma_add_mod_noop(acc * 256, b as int, m);
                lemma_mod_bound(acc * 256 + b, m);
            }
            acc = (acc * 256 + b as u128) % (size as u128);
            i = i + 1;
        }
        assert(byte_array@.take(i as int) =~= byte_array@);
        acc as usize
    }

    /// Draws `number` indices below `size` from `seed` whose residues
    /// modulo `reduced_size` are pairwise distinct.
    pub fn sample_indices(
        &self,
        seed: Vec<u8>,
        size: usize,
        reduced_size: usize,
        number: usize,
    ) -> (res: Result<Vec<usize>, Error>)
        requires
            size > 0,
        ensures
            match res {
                Ok(indices) => sampled(seed@, size as nat, reduced_size as nat, number as nat)
                    == Some(indices@) && indices@.len() == number && forall|j: int|
                    0 <= j < number ==> (#[trigger] indices@[j]) < size,
                Err(e) => e == Error::InsufficientEntropy && sampled(
                    seed@,
                    size as nat,
                    reduced_size as nat,
                    number as nat,
                ) is None,
            },
    {
        if number > reduced_size {
            return Err(Error::InsufficientEntropy);
        }
        let mut indices: Vec<usize> = Vec::new();
        let mut counter: u64 = 0;
        while indices.len() < number && counter < u64::MAX
            invariant
                size > 0,
                number <= reduced_size,
                indices@.len() <= number,
                forall|j: int| 0 <= j < indices@.len() ==> (#[trigger] indices@[j]) < size,
                sample_from(seed@, size as nat, reduced_size as nat, number as nat, 0, Seq::empty())
                    == sample_from(
                    seed@,
                    size as nat,
                    reduced_size as nat,
                    number as nat,
                    counter as nat,
                    indices@,
                ),
            decreases u64::MAX - counter,
        {
            proof {
                lemma_byte_range_values();
            }
            let suffix: Vec<u8> = be_bytes(counter as u128, 8);
            let input: Vec<u8> = concat_bytes(seed.as_slice(), suffix.as_slice());
            let digest: Vec<u8> = blake2b512_digest(input.as_slice());
            let index: usize = Fri::sample_index(digest, size);
            let reduced_index: usize = index % reduced_size;
            if !taken(&indices, reduced_size, reduced_index) {
                indices.push(index);
            }
            counter = counter + 1;
        }
        if indices.len() < number {
            Err(Error::InsufficientEntropy)
        } else {
            Ok(indices)
        }
    }
}

} // verus!
