use blake2::{Blake2b512, Digest};
use el_stark::error::Error;
use el_stark::field::field::Field;
use el_stark::field::field_element::FieldElement;
use el_stark::fri::Fri;
use el_stark::poly::uni::Uni;
use el_stark::proof_stream::ProofStream;

fn setup(n: usize, expansion: usize, tests: usize) -> (Field, Fri) {
    let field = Field::new();
    let omega = field.primitive_nth_root(n as i128).unwrap();
    let offset = FieldElement::from(7, &field);
    (field, Fri::new(offset, omega, n, expansion, tests))
}

fn codeword_of(fri: &Fri, field: &Field, coefficients: &[i128]) -> Vec<FieldElement> {
    let poly = Uni::from(coefficients.iter().map(|c| FieldElement::from(*c, field)).collect());
    poly.evaluate_domain(&fri.eval_domain())
}

fn run(fri: &Fri, codeword: Vec<FieldElement>) -> (bool, Vec<usize>, Vec<(usize, FieldElement)>, Vec<u8>) {
    let mut stream = ProofStream::new();
    let top = fri.prove(codeword, &mut stream).unwrap();
    let bytes = stream.serialize();
    let mut received = ProofStream::deserialize(&bytes).unwrap();
    let mut values = Vec::new();
    let ok = fri.verify(&mut received, &mut values);
    (ok, top, values, bytes)
}

#[test]
fn num_rounds_of_the_small_configuration() {
    let (_, fri) = setup(64, 4, 4);
    assert_eq!(fri.num_rounds(), 2);
    let (_, fri) = setup(128, 4, 4);
    assert_eq!(fri.num_rounds(), 3);
    let (_, fri) = setup(64, 4, 1);
    assert_eq!(fri.num_rounds(), 4);
    let (_, fri) = setup(4, 4, 0);
    assert_eq!(fri.num_rounds(), 0);
    let (_, fri) = setup(256, 2, 17);
    assert_eq!(fri.num_rounds(), 2);
}

#[test]
fn eval_domain_is_the_coset() {
    let (field, fri) = setup(8, 2, 1);
    let domain = fri.eval_domain();
    assert_eq!(domain.len(), 8);
    assert_eq!(domain[0].value, 7);
    for i in 0..8 {
        assert_eq!(domain[i], fri.offset * fri.omega.pow(i as u32));
    }
    // the eighth power of every point is 7^8
    let expected = field.pow(7, 8);
    for x in &domain {
        assert_eq!(x.pow(8), expected);
    }
}

#[test]
fn sample_index_reads_big_endian() {
    assert_eq!(Fri::sample_index(vec![1, 0], 1000), 256);
    assert_eq!(Fri::sample_index(vec![], 5), 0);
    assert_eq!(Fri::sample_index(vec![0xff; 64], 1), 0);
    // 2^64 mod 1000 = 616
    assert_eq!(Fri::sample_index(vec![1, 0, 0, 0, 0, 0, 0, 0, 0], 1000), 616);
    assert_eq!(Fri::sample_index(vec![0x12, 0x34], 0x100), 0x34);
}

#[test]
fn sample_indices_follow_the_digests() {
    let (_, fri) = setup(64, 4, 4);
    let seed = vec![1u8, 2, 3];
    let got = fri.sample_indices(seed.clone(), 32, 16, 4).unwrap();
    let mut expected: Vec<usize> = Vec::new();
    let mut counter: u64 = 0;
    while expected.len() < 4 {
        let mut input = seed.clone();
        input.extend_from_slice(&counter.to_be_bytes());
        let digest = Blake2b512::digest(&input).to_vec();
        let index = Fri::sample_index(digest, 32);
        if !expected.iter().any(|e| e % 16 == index % 16) {
            expected.push(index);
        }
        counter += 1;
    }
    assert_eq!(got, expected);
    let mut residues: Vec<usize> = got.iter().map(|i| i % 16).collect();
    residues.sort();
    residues.dedup();
    assert_eq!(residues.len(), 4);
    assert!(got.iter().all(|i| *i < 32));
}

#[test]
fn sample_indices_can_fill_the_reduced_range() {
    let (_, fri) = setup(64, 4, 4);
    let got = fri.sample_indices(vec![9], 8, 4, 4).unwrap();
    let mut residues: Vec<usize> = got.iter().map(|i| i % 4).collect();
    residues.sort();
    assert_eq!(residues, vec![0, 1, 2, 3]);
    assert_eq!(fri.sample_indices(vec![9], 8, 4, 0).unwrap(), Vec::<usize>::new());
}

#[test]
fn sample_indices_refuses_too_many() {
    let (_, fri) = setup(64, 4, 4);
    assert_eq!(fri.sample_indices(vec![9], 8, 4, 5), Err(Error::InsufficientEntropy));
    assert_eq!(fri.sample_indices(vec![9], 8, 0, 1), Err(Error::InsufficientEntropy));
}

#[test]
fn low_degree_codeword_is_accepted() {
    let (field, fri) = setup(64, 4, 4);
    let codeword = codeword_of(&fri, &field, &[4, 3, 2, 1]);
    let (ok, top, values, _) = run(&fri, codeword.clone());
    assert!(ok);
    assert_eq!(top.len(), 4);
    assert!(top.iter().all(|i| *i < 32));
    // the verifier hands out the opened values of the first codeword
    assert_eq!(values.len(), 8);
    for (index, value) in &values {
        assert_eq!(codeword[*index], *value);
    }
    for s in 0..4 {
        assert_eq!(values[2 * s].0, top[s] % 32);
        assert_eq!(values[2 * s + 1].0, top[s] % 32 + 32);
    }
}

#[test]
fn proving_twice_gives_the_same_transcript() {
    let (field, fri) = setup(64, 4, 4);
    let codeword = codeword_of(&fri, &field, &[4, 3, 2, 1]);
    let (_, top_a, _, bytes_a) = run(&fri, codeword.clone());
    let (_, top_b, _, bytes_b) = run(&fri, codeword);
    assert_eq!(top_a, top_b);
    assert_eq!(bytes_a, bytes_b);
}

#[test]
fn flipped_codeword_entry_is_rejected() {
    let (field, fri) = setup(64, 4, 4);
    let codeword = codeword_of(&fri, &field, &[4, 3, 2, 1]);
    let mut rejected = 0;
    for position in 0..64 {
        let mut bad = codeword.clone();
        bad[position] = FieldElement::from(bad[position].value ^ 1, &field);
        let (ok, _, _, _) = run(&fri, bad);
        if !ok {
            rejected += 1;
        }
    }
    // a single changed entry keeps the codeword far from every polynomial of
    // degree below 16, which the last codeword betrays
    assert_eq!(rejected, 64);
}

#[test]
fn degree_at_the_bound_is_accepted() {
    let (field, fri) = setup(128, 4, 4);
    let coefficients: Vec<i128> = (1..=32).collect();
    let codeword = codeword_of(&fri, &field, &coefficients);
    assert_eq!(fri.num_rounds(), 3);
    let (ok, _, _, _) = run(&fri, codeword);
    assert!(ok);
}

#[test]
fn degree_above_the_bound_is_rejected() {
    let (field, fri) = setup(128, 4, 4);
    let mut coefficients: Vec<i128> = vec![0; 65];
    coefficients[64] = 1;
    coefficients[0] = 5;
    let codeword = codeword_of(&fri, &field, &coefficients);
    let (ok, _, _, _) = run(&fri, codeword);
    assert!(!ok);
    // one above the bound is rejected too
    let coefficients: Vec<i128> = (1..=33).collect();
    let codeword = codeword_of(&fri, &field, &coefficients);
    let (ok, _, _, _) = run(&fri, codeword);
    assert!(!ok);
}

#[test]
fn tampered_transcript_is_rejected() {
    let (field, fri) = setup(64, 4, 4);
    let codeword = codeword_of(&fri, &field, &[4, 3, 2, 1]);
    let (ok, _, _, bytes) = run(&fri, codeword);
    assert!(ok);
    let mut rejected = 0;
    let mut tried = 0;
    let mut position = 8;
    while position < bytes.len() {
        let mut bad = bytes.clone();
        bad[position] ^= 0x01;
        tried += 1;
        match ProofStream::deserialize(&bad) {
            Ok(mut stream) => {
                let mut values = Vec::new();
                if !fri.verify(&mut stream, &mut values) {
                    rejected += 1;
                }
            },
            Err(_) => rejected += 1,
        }
        position += 97;
    }
    assert!(tried > 20);
    assert_eq!(rejected, tried);
}

#[test]
fn truncated_transcript_is_rejected() {
    let (_, fri) = setup(64, 4, 4);
    let mut empty = ProofStream::new();
    let mut values = Vec::new();
    assert!(!fri.verify(&mut empty, &mut values));
    assert!(values.is_empty());
}

#[test]
fn one_round_configuration() {
    // 8 > 4 and 4 * 1 < 8, but 4 > 4 fails: a single round
    let (field, fri) = setup(8, 4, 1);
    assert_eq!(fri.num_rounds(), 1);
    let codeword = codeword_of(&fri, &field, &[3, 1]);
    let (ok, top, values, _) = run(&fri, codeword);
    assert!(ok);
    assert_eq!(top.len(), 1);
    assert!(values.is_empty());
    let codeword = codeword_of(&fri, &field, &[3, 1, 1]);
    let (ok, _, _, _) = run(&fri, codeword);
    assert!(!ok);
}

#[test]
fn zero_offset_cannot_be_folded() {
    let field = Field::new();
    let omega = field.primitive_nth_root(64).unwrap();
    let fri = Fri::new(field.zero(), omega, 64, 4, 4);
    let codeword = vec![field.one(); 64];
    let mut stream = ProofStream::new();
    assert_eq!(fri.prove(codeword.clone(), &mut stream), Err(Error::NotInvertible));
    assert_eq!(stream.len(), 0);
    assert_eq!(fri.commit(codeword, &mut stream).unwrap_err(), Error::NotInvertible);
}

#[test]
fn commit_returns_the_codewords_of_all_rounds() {
    let (field, fri) = setup(64, 4, 1);
    let codeword = codeword_of(&fri, &field, &[4, 3, 2, 1]);
    let mut stream = ProofStream::new();
    let codewords = fri.commit(codeword.clone(), &mut stream).unwrap();
    assert_eq!(codewords.len(), 4);
    assert_eq!(codewords[0], codeword);
    assert_eq!(codewords.iter().map(|c| c.len()).collect::<Vec<_>>(), vec![64, 32, 16, 8]);
    // four roots and the last codeword
    assert_eq!(stream.len(), 5);
    // a cubic folds to a linear polynomial and then to constants
    assert!(codewords[2].iter().all(|v| *v == codewords[2][0]));
    assert!(codewords[3].iter().all(|v| *v == codewords[3][0]));
}

#[test]
fn query_appends_triples_then_paths() {
    let (field, fri) = setup(64, 4, 4);
    let codeword = codeword_of(&fri, &field, &[4, 3, 2, 1]);
    let mut stream = ProofStream::new();
    let codewords = fri.commit(codeword, &mut stream).unwrap();
    let before = stream.len();
    let opened = fri.query(&codewords[0], &codewords[1], &vec![3, 9, 0, 31], &mut stream);
    assert_eq!(opened, vec![3, 9, 0, 31, 35, 41, 32, 63]);
    assert_eq!(stream.len(), before + 4 + 12);
}
