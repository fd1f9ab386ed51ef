use el_stark::bytes::{be_bytes, be_number_of, frame_rows, unframe_rows};
use el_stark::error::Error;
use el_stark::proof_object::ProofObject;
use el_stark::proof_stream::ProofStream;
use sha3::{Digest, Sha3_256};

fn same(a: &ProofObject, b: &ProofObject) -> bool {
    format!("{:?}", a) == format!("{:?}", b)
}

#[test]
fn big_endian_numbers() {
    assert_eq!(be_bytes(0x0102, 4), vec![0, 0, 1, 2]);
    assert_eq!(be_bytes(0, 0), Vec::<u8>::new());
    assert_eq!(be_bytes(u128::MAX, 16), vec![0xff; 16]);
    assert_eq!(be_bytes(255, 1), vec![255]);
    assert_eq!(be_number_of(&[9, 0, 0, 1, 2, 9], 1, 5), 0x0102);
    assert_eq!(be_number_of(&[0xff; 16], 0, 16), u128::MAX);
    assert_eq!(be_number_of(&[1, 2, 3], 1, 1), 0);
}

#[test]
fn framing() {
    let rows = vec![vec![1u8, 2, 3], vec![], vec![9u8]];
    let framed = frame_rows(&rows);
    assert_eq!(
        framed,
        vec![0, 0, 0, 0, 0, 0, 0, 3, 1, 2, 3, 0, 0, 0, 0, 0, 0, 0, 0, 0, 0, 0, 0, 0, 0, 0, 1, 9]
    );
    assert_eq!(unframe_rows(&framed), Some(rows));
    assert_eq!(unframe_rows(&[]), Some(vec![]));
    assert_eq!(unframe_rows(&[0, 0, 0]), None);
    assert_eq!(unframe_rows(&[0, 0, 0, 0, 0, 0, 0, 2, 1]), None);
    assert_eq!(unframe_rows(&[0xff, 0xff, 0xff, 0xff, 0xff, 0xff, 0xff, 0xff, 1]), None);
}

#[test]
fn object_encodings() {
    assert_eq!(ProofObject::Root(vec![7, 8]).encode(), vec![0, 7, 8]);
    let mut element = vec![2u8];
    element.extend_from_slice(&[0; 15]);
    element.push(5);
    assert_eq!(ProofObject::Element(5).encode(), element);
    let triple = ProofObject::Triple(1, 2, 3).encode();
    assert_eq!(triple.len(), 49);
    assert_eq!(triple[0], 3);
    assert_eq!((triple[16], triple[32], triple[48]), (1, 2, 3));
    let codeword = ProofObject::Codeword(vec![10, 11]).encode();
    assert_eq!(codeword.len(), 1 + 8 + 32);
    assert_eq!(&codeword[..9], &[4, 0, 0, 0, 0, 0, 0, 0, 2]);
    assert_eq!((codeword[24], codeword[40]), (10, 11));
    let path = ProofObject::Path(vec![vec![1], vec![2, 3]]).encode();
    assert_eq!(
        path,
        vec![1, 0, 0, 0, 0, 0, 0, 0, 2, 0, 0, 0, 0, 0, 0, 0, 1, 1, 0, 0, 0, 0, 0, 0, 0, 2, 2, 3]
    );
}

#[test]
fn decode_inverts_encode() {
    let objects = vec![
        ProofObject::Root(vec![1, 2, 3]),
        ProofObject::Root(vec![]),
        ProofObject::Path(vec![vec![0xaa; 16], vec![0xbb; 32]]),
        ProofObject::Path(vec![]),
        ProofObject::Element(u128::MAX),
        ProofObject::Triple(0, 1 << 100, 42),
        ProofObject::Codeword(vec![5, 6, 7, u128::MAX]),
        ProofObject::Codeword(vec![]),
    ];
    for obj in &objects {
        let back = ProofObject::decode(&obj.encode()).unwrap();
        assert!(same(obj, &back));
    }
}

#[test]
fn decode_rejects_malformed_bytes() {
    assert!(ProofObject::decode(&[]).is_none());
    assert!(ProofObject::decode(&[9, 1, 2]).is_none());
    assert!(ProofObject::decode(&[2, 0, 0]).is_none());
    assert!(ProofObject::decode(&[3; 48]).is_none());
    // a codeword whose count does not match its length
    assert!(ProofObject::decode(&[4, 0, 0, 0, 0, 0, 0, 0, 2, 1]).is_none());
    // a path whose count does not match its nodes
    assert!(ProofObject::decode(&[1, 0, 0, 0, 0, 0, 0, 0, 1]).is_none());
    assert!(ProofObject::decode(&[1, 0, 0]).is_none());
}

#[test]
fn push_and_pull_in_order() {
    let mut stream = ProofStream::new();
    assert_eq!(stream.len(), 0);
    stream.push(&ProofObject::Root(vec![1; 32]));
    stream.push(&ProofObject::Triple(1, 2, 3));
    assert_eq!(stream.len(), 2);
    assert_eq!(stream.cursor(), 0);
    assert!(same(&stream.pull().unwrap(), &ProofObject::Root(vec![1; 32])));
    assert_eq!(stream.cursor(), 1);
    assert!(same(&stream.pull().unwrap(), &ProofObject::Triple(1, 2, 3)));
    assert_eq!(stream.pull().unwrap_err(), Error::TranscriptExhausted);
    assert_eq!(stream.cursor(), 2);
}

#[test]
fn pull_from_empty_stream() {
    let mut stream = ProofStream::new();
    assert_eq!(stream.pull().unwrap_err(), Error::TranscriptExhausted);
}

#[test]
fn serialize_round_trip() {
    let mut stream = ProofStream::new();
    stream.push(&ProofObject::Root(vec![1; 32]));
    stream.push(&ProofObject::Codeword(vec![1, 2, 3]));
    let bytes = stream.serialize();
    let mut back = ProofStream::deserialize(&bytes).unwrap();
    assert_eq!(back.len(), 2);
    assert_eq!(back.cursor(), 0);
    assert_eq!(back.serialize(), bytes);
    assert!(same(&back.pull().unwrap(), &ProofObject::Root(vec![1; 32])));
    assert!(ProofStream::deserialize(&[1, 2, 3]).is_err());
    // an object that frames but does not decode is passed over as malformed
    let mut odd = ProofStream::deserialize(&[0, 0, 0, 0, 0, 0, 0, 1, 77]).unwrap();
    assert_eq!(odd.pull().unwrap_err(), Error::MalformedProof);
    assert_eq!(odd.cursor(), 1);
}

#[test]
fn fiat_shamir_is_sha3_of_the_transcript() {
    let mut stream = ProofStream::new();
    stream.push(&ProofObject::Root(vec![9; 32]));
    stream.push(&ProofObject::Element(77));
    let all = Sha3_256::digest(&stream.serialize()).to_vec();
    assert_eq!(stream.prover_fiat_shamir(32), all);
    assert_eq!(stream.prover_fiat_shamir(8), all[..8].to_vec());
    assert_eq!(stream.prover_fiat_shamir(0), Vec::<u8>::new());
    assert_ne!(stream.prover_fiat_shamir(32), stream.serialize());
}

#[test]
fn verifier_challenge_sees_only_what_was_pulled() {
    let mut prover = ProofStream::new();
    prover.push(&ProofObject::Root(vec![9; 32]));
    let after_first = prover.prover_fiat_shamir(32);
    prover.push(&ProofObject::Element(77));
    let after_second = prover.prover_fiat_shamir(32);
    assert_ne!(after_first, after_second);

    let mut verifier = ProofStream::deserialize(&prover.serialize()).unwrap();
    let empty = Sha3_256::digest(&[]).to_vec();
    assert_eq!(verifier.verifier_fiat_shamir(32), empty);
    verifier.pull().unwrap();
    assert_eq!(verifier.verifier_fiat_shamir(32), after_first);
    verifier.pull().unwrap();
    assert_eq!(verifier.verifier_fiat_shamir(32), after_second);
    assert_eq!(verifier.verifier_fiat_shamir(4), after_second[..4].to_vec());
}
