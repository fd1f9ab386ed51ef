//! The objects that a transcript holds and their canonical encoding.
//!
//! An encoding is one tag byte and a payload. Numbers are big-endian.
//!
//! | kind      | tag | payload                                             |
//! |-----------|-----|-----------------------------------------------------|
//! | root      | 0   | the bytes of the root                               |
//! | path      | 1   | node count on 8 bytes, then each node behind its length on 8 bytes |
//! | element   | 2   | the value on 16 bytes                               |
//! | triple    | 3   | three values on 16 bytes each                       |
//! | codeword  | 4   | value count on 8 bytes, then each value on 16 bytes |
use vstd::prelude::*;

use crate::bytes::{
    append_bytes, be_bytes, be_number_of, be_seq, byte_rows, frame, frame_rows, frameable,
    lemma_be_seq_len, lemma_be_value_of_seq, lemma_byte_range_values, lemma_unframe_frame,
    slice_bytes, unframe, unframe_rows,
};
use crate::field::arith::be_value;

verus! {

pub const TAG_ROOT: u8 = 0;

pub const TAG_PATH: u8 = 1;

pub const TAG_ELEMENT: u8 = 2;

pub const TAG_TRIPLE: u8 = 3;

pub const TAG_CODEWORD: u8 = 4;

/// One object of a transcript.
#[derive(Debug)]
pub enum ProofObject {
    /// A Merkle root.
    Root(Vec<u8>),
    /// A Merkle authentication path, lowest level first.
    Path(Vec<Vec<u8>>),
    /// The value of a field element.
    Element(u128),
    /// The values of three field elements.
    Triple(u128, u128, u128),
    /// The values of a vector of field elements.
    Codeword(Vec<u128>),
}

/// What a transcript object holds, as mathematical values.
pub enum ObjectView {
    Root(Seq<u8>),
    Path(Seq<Seq<u8>>),
    Element(u128),
    Triple(u128, u128, u128),
    Codeword(Seq<u128>),
}

impl View for ProofObject {
    type V = ObjectView;

    open spec fn view(&self) -> ObjectView {
        match self {
            ProofObject::Root(bytes) => ObjectView::Root(bytes@),
            ProofObject::Path(nodes) => ObjectView::Path(byte_rows(nodes@)),
            ProofObject::Element(v) => ObjectView::Element(*v),
            ProofObject::Triple(a, b, c) => ObjectView::Triple(*a, *b, *c),
            ProofObject::Codeword(vals) => ObjectView::Codeword(vals@),
        }
    }
}

/// The values of a vector, each on sixteen bytes, one after another.
pub open spec fn flat16(vals: Seq<u128>) -> Seq<u8>
    decreases vals.len(),
{
    if vals.len() == 0 {
        Seq::empty()
    } else {
        flat16(vals.drop_last()) + be_seq(vals.last() as nat, 16)
    }
}

/// The value that stands at place `i` of a run of sixteen-byte values that
/// begins at `start`.
pub open spec fn value_at(bytes: Seq<u8>, start: int, i: int) -> u128 {
    be_value(bytes.subrange(start + 16 * i, start + 16 * i + 16)) as u128
}

impl ObjectView {
    /// The counts and lengths of the object fit the eight bytes that the
    /// encoding gives them.
    pub open spec fn fits(self) -> bool {
        match self {
            ObjectView::Path(nodes) => nodes.len() <= u64::MAX && frameable(nodes),
            ObjectView::Codeword(vals) => vals.len() <= u64::MAX,
            _ => true,
        }
    }

    /// The canonical encoding of the object.
    pub open spec fn encoding(self) -> Seq<u8> {
        match self {
            ObjectView::Root(bytes) => seq![TAG_ROOT] + bytes,
            ObjectView::Path(nodes) => seq![TAG_PATH] + be_seq(nodes.len(), 8) + frame(nodes),
            ObjectView::Element(v) => seq![TAG_ELEMENT] + be_seq(v as nat, 16),
            ObjectView::Triple(a, b, c) => seq![TAG_TRIPLE] + be_seq(a as nat, 16) + be_seq(
                b as nat,
                16,
            ) + be_seq(c as nat, 16),
            ObjectView::Codeword(vals) => seq![TAG_CODEWORD] + be_seq(vals.len(), 8) + flat16(
                vals,
            ),
        }
    }
}

/// The object that `bytes` encodes, if it encodes one.
pub open spec fn decoding(bytes: Seq<u8>) -> Option<ObjectView> {
    if bytes.len() == 0 {
        None
    } else if bytes[0] == TAG_ROOT {
        Some(ObjectView::Root(bytes.skip(1)))
    } else if bytes[0] == TAG_PATH {
        if bytes.len() < 9 {
            None
        } else {
            match unframe(bytes.skip(9)) {
                Some(nodes) => if nodes.len() == be_value(bytes.subrange(1, 9)) {
                    Some(ObjectView::Path(nodes))
                } else {
                    None
                },
                None => None,
            }
        }
    } else if bytes[0] == TAG_ELEMENT {
        if bytes.len() == 17 {
            Some(ObjectView::Element(value_at(bytes, 1, 0)))
        } else {
            None
        }
    } else if bytes[0] == TAG_TRIPLE {
        if bytes.len() == 49 {
            Some(
                ObjectView::Triple(value_at(bytes, 1, 0), value_at(bytes, 1, 1), value_at(bytes, 1, 2)),
            )
        } else {
            None
        }
    } else if bytes[0] == TAG_CODEWORD {
        if bytes.len() >= 9 && bytes.len() - 9 == 16 * be_value(bytes.subrange(1, 9)) {
            Some(
                ObjectView::Codeword(
                    Seq::new(be_value(bytes.subrange(1, 9)), |i: int| value_at(bytes, 9, i)),
                ),
            )
        } else {
            None
        }
    } else {
        None
    }
}

/// A run of sixteen-byte values has sixteen bytes for each value, and the
/// bytes of value `i` stand at `16 * i`.
pub proof fn lemma_flat16(vals: Seq<u128>)
    ensures
        flat16(vals).len() == 16 * vals.len(),
        forall|i: int|
            0 <= i < vals.len() ==> #[trigger] flat16(vals).subrange(16 * i, 16 * i + 16) == be_seq(
                vals[i] as nat,
                16,
            ),
    decreases vals.len(),
{
    if vals.len() > 0 {
        let front = vals.drop_last();
        lemma_flat16(front);
        lemma_be_seq_len(vals.last() as nat, 16);
        assert forall|i: int| 0 <= i < vals.len() implies #[trigger] flat16(vals).subrange(
            16 * i,
            16 * i + 16,
        ) == be_seq(vals[i] as nat, 16) by {
            if i < front.len() {
                assert(flat16(vals).subrange(16 * i, 16 * i + 16) =~= flat16(front).subrange(
                    16 * i,
                    16 * i + 16,
                ));
                assert(front[i] == vals[i]);
            } else {
                assert(flat16(vals).subrange(16 * i, 16 * i + 16) =~= be_seq(
                    vals.last() as nat,
                    16,
                ));
            }
        }
    }
}

/// Appending a value to a run appends its sixteen bytes.
pub proof fn lemma_flat16_push(vals: Seq<u128>, v: u128)
    ensures
        flat16(vals.push(v)) == flat16(vals) + be_seq(v as nat, 16),
{
    assert(vals.push(v).drop_last() =~= vals);
}

/// Decoding the encoding of an object gives the object back.
pub proof fn lemma_decode_encode(obj: ObjectView)
    requires
        obj.fits(),
    ensures
        decoding(obj.encoding()) == Some(obj),
{
    let bytes = obj.encoding();
    lemma_byte_range_values();
    match obj {
        ObjectView::Root(body) => {
            assert(bytes.skip(1) =~= body);
        },
        ObjectView::Path(nodes) => {
            lemma_be_seq_len(nodes.len(), 8);
            lemma_be_value_of_seq(nodes.len(), 8);
            assert(bytes.subrange(1, 9) =~= be_seq(nodes.len(), 8));
            assert(bytes.skip(9) =~= frame(nodes));
            lemma_unframe_frame(nodes);
        },
        ObjectView::Element(v) => {
            lemma_be_seq_len(v as nat, 16);
            lemma_be_value_of_seq(v as nat, 16);
            assert(bytes.subrange(1, 17) =~= be_seq(v as nat, 16));
        },
        ObjectView::Triple(a, b, c) => {
            lemma_be_seq_len(a as nat, 16);
            lemma_be_seq_len(b as nat, 16);
            lemma_be_seq_len(c as nat, 16);
            lemma_be_value_of_seq(a as nat, 16);
            lemma_be_value_of_seq(b as nat, 16);
            lemma_be_value_of_seq(c as nat, 16);
            assert(bytes.subrange(1, 17) =~= be_seq(a as nat, 16));
            assert(bytes.subrange(17, 33) =~= be_seq(b as nat, 16));
            assert(bytes.subrange(33, 49) =~= be_seq(c as nat, 16));
        },
        ObjectView::Codeword(vals) => {
            lemma_be_seq_len(vals.len(), 8);
            lemma_be_value_of_seq(vals.len(), 8);
            lemma_flat16(vals);
            assert(bytes.subrange(1, 9) =~= be_seq(vals.len(), 8));
            let found = Seq::new(vals.len(), |i: int| value_at(bytes, 9, i));
            assert forall|i: int| 0 <= i < vals.len() implies found[i] == vals[i] by {
                assert(bytes.subrange(9 + 16 * i, 9 + 16 * i + 16) =~= flat16(vals).subrange(
                    16 * i,
                    16 * i + 16,
                ));
                lemma_be_value_of_seq(vals[i] as nat, 16);
            }
            assert(found =~= vals);
        },
    }
}


impl ProofObject {
    /// The canonical encoding of the object.
    pub fn encode(&self) -> (out: Vec<u8>)
        ensures
            out@ == self@.encoding(),
            self@.fits(),
    {
        proof {
            lemma_byte_range_values();
        }
        match self {
            ProofObject::Root(bytes) => {
                let mut out: Vec<u8> = Vec::new();
                out.push(TAG_ROOT);
                append_bytes(&mut out, bytes.as_slice());
                assert(out@ =~= self@.encoding());
                out
            },
            ProofObject::Path(nodes) => {
                let mut out: Vec<u8> = Vec::new();
                out.push(TAG_PATH);
                let count: Vec<u8> = be_bytes(nodes.len() as u128, 8);
                append_bytes(&mut out, count.as_slice());
                let body: Vec<u8> = frame_rows(nodes.as_slice());
                append_bytes(&mut out, body.as_slice());
                proof {
                    assert(out@ =~= self@.encoding());
                    assert forall|i: int| 0 <= i < nodes@.len() implies (#[trigger] byte_rows(
                        nodes@,
                    )[i]).len() <= u64::MAX by {
                        assert(nodes@[i].len() <= usize::MAX);
                    }
                }
                out
            },
            ProofObject::Element(v) => {
                let mut out: Vec<u8> = Vec::new();
                out.push(TAG_ELEMENT);
                let body: Vec<u8> = be_bytes(*v, 16);
                append_bytes(&mut out, body.as_slice());
                assert(out@ =~= self@.encoding());
                out
            },
            ProofObject::Triple(a, b, c) => {
                let mut out: Vec<u8> = Vec::new();
                out.push(TAG_TRIPLE);
                let first: Vec<u8> = be_bytes(*a, 16);
                append_bytes(&mut out, first.as_slice());
                let second: Vec<u8> = be_bytes(*b, 16);
                append_bytes(&mut out, second.as_slice());
                let third: Vec<u8> = be_bytes(*c, 16);
                append_bytes(&mut out, third.as_slice());
                assert(out@ =~= self@.encoding());
                out
            },
            ProofObject::Codeword(vals) => {
                let mut out: Vec<u8> = Vec::new();
                out.push(TAG_CODEWORD);
                let count: Vec<u8> = be_bytes(vals.len() as u128, 8);
                append_bytes(&mut out, count.as_slice());
                let ghost head = out@;
                let mut i: usize = 0;
                proof {
                    assert(vals@.take(0) =~= Seq::<u128>::empty());
                    assert(out@ =~= head + flat16(vals@.take(0)));
                }
                while i < vals.len()
                    invariant
                        i <= vals@.len(),
                        out@ == head + flat16(vals@.take(i as int)),
                    decreases vals@.len() - i,
                {
                    proof {
                        lemma_byte_range_values();
                    }
                    let body: Vec<u8> = be_bytes(vals[i], 16);
                    proof {
                        lemma_flat16_push(vals@.take(i as int), vals@[i as int]);
                        assert(vals@.take(i + 1) =~= vals@.take(i as int).push(vals@[i as int]));
                    }
                    append_bytes(&mut out, body.as_slice());
                    i = i + 1;
                    assert(out@ =~= head + flat16(vals@.take(i as int)));
                }
                proof {
                    assert(vals@.take(i as int) =~= vals@);
                    assert(out@ =~= self@.encoding());
                }
                out
            },
        }
    }

    /// The object that `bytes` encodes, or nothing where they encode none.
    pub fn decode(bytes: &[u8]) -> (res: Option<ProofObject>)
        ensures
            match res {
                Some(obj) => decoding(bytes@) == Some(obj@),
                None => decoding(bytes@) is None,
            },
    {
        if bytes.len() == 0 {
            return None;
        }
        let tag: u8 = bytes[0];
        if tag == TAG_ROOT {
            let body: Vec<u8> = slice_bytes(bytes, 1, bytes.len());
            assert(body@ =~= bytes@.skip(1));
            Some(ProofObject::Root(body))
        } else if tag == TAG_PATH {
            if bytes.len() < 9 {
                return None;
            }
            let count: u128 = be_number_of(bytes, 1, 9);
            let body: Vec<u8> = slice_bytes(bytes, 9, bytes.len());
            assert(body@ =~= bytes@.skip(9));
            match unframe_rows(body.as_slice()) {
                Some(nodes) => {
                    if nodes.len() as u128 == count {
                        Some(ProofObject::Path(nodes))
                    } else {
                        None
                    }
                },
                None => None,
            }
        } else if tag == TAG_ELEMENT {
            if bytes.len() != 17 {
                return None;
            }
            Some(ProofObject::Element(be_number_of(bytes, 1, 17)))
        } else if tag == TAG_TRIPLE {
            if bytes.len() != 49 {
                return None;
            }
            let a: u128 = be_number_of(bytes, 1, 17);
            let b: u128 = be_number_of(bytes, 17, 33);
            let c: u128 = be_number_of(bytes, 33, 49);
            Some(ProofObject::Triple(a, b, c))
        } else if tag == TAG_CODEWORD {
            if bytes.len() < 9 {
                return None;
            }
            let count: u128 = be_number_of(bytes, 1, 9);
            proof {
                crate::bytes::lemma_be_value_bound(bytes@.subrange(1, 9));
                lemma_byte_range_values();
            }
            if ((bytes.len() - 9) as u128) != 16 * count {
                return None;
            }
            let n: usize = (bytes.len() - 9) / 16;
            let mut vals: Vec<u128> = Vec::new();
            let mut i: usize = 0;
            while i < n
                invariant
                    i <= n,
                    n == count,
                    bytes@.len() == 9 + 16 * n,
                    9 + 16 * n <= usize::MAX,
                    vals@.len() == i,
                    forall|j: int| 0 <= j < i ==> vals@[j] == value_at(bytes@, 9, j),
                decreases n - i,
            {
                let v: u128 = be_number_of(bytes, 9 + 16 * i, 9 + 16 * i + 16);
                vals.push(v);
                i = i + 1;
            }
            assert(vals@ =~= Seq::new(count as nat, |j: int| value_at(bytes@, 9, j)));
            Some(ProofObject::Codeword(vals))
        } else {
            None
        }
    }
}

} // verus!
