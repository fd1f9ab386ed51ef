//! The transcript of a proof: an append-only list of encoded objects with a
//! read cursor, and the Fiat-Shamir challenges derived from it.
use vstd::prelude::*;
use vstd::slice::slice_subrange;

use crate::bytes::{byte_rows, frame, frame_rows, prefix_bytes, unframe, unframe_rows};
use crate::error::Error;
use crate::hash::{sha3_256, sha3_256_digest};
use crate::proof_object::{decoding, ProofObject};

verus! {

/// The length of a SHA3-256 digest, the most that a challenge can be asked for.
pub const CHALLENGE_LENGTH: usize = 32;

/// A transcript: the prover appends objects, the verifier pulls them in order.
pub struct ProofStream {
    objects: Vec<Vec<u8>>,
    read_index: usize,
}

/// What a transcript holds: the encoded objects and the place of the cursor.
pub struct StreamView {
    pub objects: Seq<Seq<u8>>,
    pub cursor: nat,
}

impl View for ProofStream {
    type V = StreamView;

    closed spec fn view(&self) -> StreamView {
        StreamView { objects: byte_rows(self.objects@), cursor: self.read_index as nat }
    }
}

/// The challenge that a transcript gives: the first `num_bytes` bytes of
/// the SHA3-256 digest of the framed objects.
pub open spec fn challenge(objects: Seq<Seq<u8>>, num_bytes: int) -> Seq<u8> {
    sha3_256(frame(objects)).take(num_bytes)
}

impl ProofStream {
    /// The cursor stands within the transcript or at its end.
    pub open spec fn wf(&self) -> bool {
        self@.cursor <= self@.objects.len()
    }

    /// The empty transcript.
    pub fn new() -> (s: ProofStream)
        ensures
            s.wf(),
            s@.objects == Seq::<Seq<u8>>::empty(),
            s@.cursor == 0,
    {
        let s = ProofStream { objects: Vec::new(), read_index: 0 };
        assert(s@.objects =~= Seq::<Seq<u8>>::empty());
        s
    }

    /// The number of objects in the transcript.
    pub fn len(&self) -> (n: usize)
        ensures
            n == self@.objects.len(),
    {
        self.objects.len()
    }

    /// The number of objects that were pulled.
    pub fn cursor(&self) -> (n: usize)
        ensures
            n == self@.cursor,
    {
        self.read_index
    }

    /// Appends the encoding of `obj`.
    pub fn push(&mut self, obj: &ProofObject)
        requires
            old(self).wf(),
        ensures
            final(self).wf(),
            final(self)@.objects == old(self)@.objects.push(obj@.encoding()),
            final(self)@.cursor == old(self)@.cursor,
    {
        let encoded: Vec<u8> = obj.encode();
        self.objects.push(encoded);
        assert(self@.objects =~= old(self)@.objects.push(obj@.encoding()));
    }

    /// The object at the cursor, which then moves on. At the end of the
    /// transcript nothing changes; an object that does not decode is
    /// passed over.
    pub fn pull(&mut self) -> (res: Result<ProofObject, Error>)
        requires
            old(self).wf(),
        ensures
            final(self).wf(),
            final(self)@.objects == old(self)@.objects,
            old(self)@.cursor >= old(self)@.objects.len() ==> res == Err::<ProofObject, Error>(
                Error::TranscriptExhausted,
            ) && final(self)@.cursor == old(self)@.cursor,
            old(self)@.cursor < old(self)@.objects.len() ==> final(self)@.cursor == old(
                self,
            )@.cursor + 1 && match res {
                Ok(obj) => decoding(old(self)@.objects[old(self)@.cursor as int]) == Some(obj@),
                Err(e) => e == Error::MalformedProof && decoding(
                    old(self)@.objects[old(self)@.cursor as int],
                ) is None,
            },
    {
        if self.read_index >= self.objects.len() {
            return Err(Error::TranscriptExhausted);
        }
        let found: Option<ProofObject> = ProofObject::decode(self.objects[self.read_index].as_slice());
        self.read_index = self.read_index + 1;
        match found {
            Some(obj) => Ok(obj),
            None => Err(Error::MalformedProof),
        }
    }

    /// The whole transcript as bytes: each encoded object behind its length.
    pub fn serialize(&self) -> (out: Vec<u8>)
        ensures
            out@ == frame(self@.objects),
    {
        frame_rows(self.objects.as_slice())
    }

    /// The transcript that `bb` spells, with the cursor at the start.
    pub fn deserialize(bb: &[u8]) -> (res: Result<ProofStream, Error>)
        ensures
            match res {
                Ok(s) => s.wf() && unframe(bb@) == Some(s@.objects) && s@.cursor == 0,
                Err(e) => e == Error::MalformedProof && unframe(bb@) is None,
            },
    {
        match unframe_rows(bb) {
            Some(objects) => Ok(ProofStream { objects, read_index: 0 }),
            None => Err(Error::MalformedProof),
        }
    }

    /// The prover's challenge: derived from every object of the transcript.
    pub fn prover_fiat_shamir(&self, num_bytes: usize) -> (out: Vec<u8>)
        requires
            num_bytes <= CHALLENGE_LENGTH,
        ensures
            out@ == challenge(self@.objects, num_bytes as int),
            out@.len() == num_bytes,
    {
        let data: Vec<u8> = self.serialize();
        let digest: Vec<u8> = sha3_256_digest(data.as_slice());
        prefix_bytes(digest.as_slice(), num_bytes)
    }

    /// The verifier's challenge: derived from the objects before the cursor,
    /// which are those that the prover had appended when it drew the same
    /// challenge.
    pub fn verifier_fiat_shamir(&self, num_bytes: usize) -> (out: Vec<u8>)
        requires
            self.wf(),
            num_bytes <= CHALLENGE_LENGTH,
        ensures
            out@ == challenge(self@.objects.take(self@.cursor as int), num_bytes as int),
            out@.len() == num_bytes,
    {
        let seen: &[Vec<u8>] = slice_subrange(self.objects.as_slice(), 0, self.read_index);
        proof {
            assert(byte_rows(seen@) =~= self@.objects.take(self@.cursor as int));
        }
        let data: Vec<u8> = frame_rows(seen);
        let digest: Vec<u8> = sha3_256_digest(data.as_slice());
        prefix_bytes(digest.as_slice(), num_bytes)
    }
}

} // verus!
