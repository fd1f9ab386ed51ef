//! Big-endian numbers in byte strings, and byte strings framed one after
//! another, each behind its length on eight bytes.
use vstd::prelude::*;
use vstd::arithmetic::power::*;

use crate::field::arith::{be_value, lemma_be_value_push};

verus! {

/// The count of numbers that `n` bytes can spell.
pub open spec fn byte_range(n: nat) -> int {
    pow(256, n)
}

/// The `n` bytes that spell `v` modulo the range of `n` bytes, most
/// significant first.
pub open spec fn be_seq(v: nat, n: nat) -> Seq<u8>
    decreases n,
{
    if n == 0 {
        Seq::empty()
    } else {
        be_seq(v / 256, (n - 1) as nat).push((v % 256) as u8)
    }
}

/// The spelling of a number has the length asked for.
pub proof fn lemma_be_seq_len(v: nat, n: nat)
    ensures
        be_seq(v, n).len() == n,
    decreases n,
{
    if n > 0 {
        lemma_be_seq_len(v / 256, (n - 1) as nat);
    }
}

/// A byte string is the spelling of the number that it spells.
pub proof fn lemma_be_seq_of_value(s: Seq<u8>)
    ensures
        be_seq(be_value(s), s.len()) == s,
    decreases s.len(),
{
    if s.len() > 0 {
        lemma_be_seq_of_value(s.drop_last());
        assert(s =~= s.drop_last().push(s.last()));
    }
}

/// A number within the range of `n` bytes is what its spelling spells.
pub proof fn lemma_be_value_of_seq(v: nat, n: nat)
    requires
        v < byte_range(n),
    ensures
        be_value(be_seq(v, n)) == v,
    decreases n,
{
    if n == 0 {
        lemma_pow0(256);
    } else {
        lemma_pow_adds(256, (n - 1) as nat, 1);
        lemma_pow1(256);
        assert(v / 256 < byte_range((n - 1) as nat)) by (nonlinear_arith)
            requires
                v < byte_range((n - 1) as nat) * 256,
        ;
        lemma_be_value_of_seq(v / 256, (n - 1) as nat);
        lemma_be_value_push(be_seq(v / 256, (n - 1) as nat), (v % 256) as u8);
    }
}

/// Four bytes spell the numbers below `2^32`, eight those below `2^64`,
/// sixteen those below `2^128`.
pub proof fn lemma_byte_range_values()
    ensures
        byte_range(0) == 1,
        byte_range(4) == 0x1_0000_0000,
        byte_range(8) == 0x1_0000_0000_0000_0000,
        byte_range(16) == 0x1_0000_0000_0000_0000_0000_0000_0000_0000,
{
    reveal_with_fuel(pow, 5);
    assert(pow(256, 4) == 0x1_0000_0000);
    lemma_pow_adds(256, 4, 4);
    lemma_pow_adds(256, 8, 8);
    assert(pow(256, 8) == 0x1_0000_0000_0000_0000) by (nonlinear_arith)
        requires
            pow(256, 8) == pow(256, 4) * pow(256, 4),
            pow(256, 4) == 0x1_0000_0000,
    ;
    assert(pow(256, 16) == 0x1_0000_0000_0000_0000_0000_0000_0000_0000) by (nonlinear_arith)
        requires
            pow(256, 16) == pow(256, 8) * pow(256, 8),
            pow(256, 8) == 0x1_0000_0000_0000_0000,
    ;
}

/// Putting a byte in front adds it at the weight of the bytes behind it.
pub proof fn lemma_be_value_prepend(b: u8, s: Seq<u8>)
    ensures
        be_value(seq![b] + s) == b * byte_range(s.len()) + be_value(s),
    decreases s.len(),
{
    let whole = seq![b] + s;
    if s.len() == 0 {
        assert(whole.drop_last() =~= Seq::<u8>::empty());
        reveal_with_fuel(be_value, 2);
        lemma_pow0(256);
    } else {
        assert(whole.drop_last() =~= seq![b] + s.drop_last());
        lemma_be_value_prepend(b, s.drop_last());
        let w = byte_range(s.drop_last().len());
        lemma_pow_adds(256, s.drop_last().len(), 1);
        lemma_pow1(256);
        assert(byte_range(s.len()) == w * 256);
        assert((b * w + be_value(s.drop_last())) * 256 == b * (w * 256) + be_value(
            s.drop_last(),
        ) * 256) by (nonlinear_arith);
    }
}

/// A byte string spells a number below the range of its length.
pub proof fn lemma_be_value_bound(s: Seq<u8>)
    ensures
        be_value(s) < byte_range(s.len()),
    decreases s.len(),
{
    if s.len() == 0 {
        lemma_pow0(256);
    } else {
        lemma_be_value_bound(s.drop_last());
        lemma_pow_adds(256, s.drop_last().len(), 1);
        lemma_pow1(256);
    }
}

/// The `n` bytes that spell `v`, most significant first.
pub fn be_bytes(v: u128, n: usize) -> (out: Vec<u8>)
    requires
        n <= 16,
        v < byte_range(n as nat),
    ensures
        out@ == be_seq(v as nat, n as nat),
        out@.len() == n,
        be_value(out@) == v,
{
    let mut out: Vec<u8> = vec![0u8; n];
    let mut rest: u128 = v;
    let mut k: usize = n;
    proof {
        lemma_pow0(256);
        assert(out@.subrange(n as int, n as int) =~= Seq::<u8>::empty());
    }
    while k > 0
        invariant
            k <= n <= 16,
            out@.len() == n,
            v == rest * byte_range((n - k) as nat) + be_value(out@.subrange(k as int, n as int)),
        decreases k,
    {
        let ghost before = out@;
        let ghost weight = byte_range((n - k) as nat);
        let digit: u8 = (rest % 256) as u8;
        k = k - 1;
        out.set(k, digit);
        proof {
            assert(out@.subrange(k as int, n as int) =~= seq![digit] + before.subrange(
                k + 1,
                n as int,
            ));
            lemma_be_value_prepend(digit, before.subrange(k + 1, n as int));
            lemma_pow_adds(256, (n - k - 1) as nat, 1);
            lemma_pow1(256);
            assert(rest * weight == (rest / 256) * (weight * 256) + digit * weight)
                by (nonlinear_arith)
                requires
                    rest == (rest / 256) * 256 + digit,
            ;
        }
        rest = rest / 256;
    }
    proof {
        lemma_pow_positive(256, n as nat);
        assert(rest == 0) by (nonlinear_arith)
            requires
                v == rest * byte_range(n as nat) + be_value(out@.subrange(0, n as int)),
                v < byte_range(n as nat),
                rest >= 0,
                byte_range(n as nat) > 0,
        ;
        assert(out@.subrange(0, n as int) =~= out@);
        lemma_be_seq_of_value(out@);
    }
    out
}


/// A copy of a byte string.
pub fn clone_bytes(a: &[u8]) -> (out: Vec<u8>)
    ensures
        out@ == a@,
{
    let mut out: Vec<u8> = Vec::new();
    let mut i: usize = 0;
    while i < a.len()
        invariant
            i <= a@.len(),
            out@ == a@.take(i as int),
        decreases a@.len() - i,
    {
        out.push(a[i]);
        i = i + 1;
        assert(out@ =~= a@.take(i as int));
    }
    assert(a@.take(i as int) =~= a@);
    out
}

/// Appends the bytes of `tail` to `buf`.
pub fn append_bytes(buf: &mut Vec<u8>, tail: &[u8])
    ensures
        final(buf)@ == old(buf)@ + tail@,
{
    let mut i: usize = 0;
    while i < tail.len()
        invariant
            i <= tail@.len(),
            buf@ == old(buf)@ + tail@.take(i as int),
        decreases tail@.len() - i,
    {
        buf.push(tail[i]);
        i = i + 1;
        assert(buf@ =~= old(buf)@ + tail@.take(i as int));
    }
    assert(tail@.take(i as int) =~= tail@);
}

/// The bytes of `a` followed by those of `b`.
pub fn concat_bytes(a: &[u8], b: &[u8]) -> (out: Vec<u8>)
    ensures
        out@ == a@ + b@,
{
    let mut out: Vec<u8> = clone_bytes(a);
    append_bytes(&mut out, b);
    out
}

/// Whether two byte strings are equal.
pub fn bytes_equal(a: &[u8], b: &[u8]) -> (same: bool)
    ensures
        same == (a@ == b@),
{
    if a.len() != b.len() {
        return false;
    }
    let mut i: usize = 0;
    while i < a.len()
        invariant
            a@.len() == b@.len(),
            i <= a@.len(),
            a@.take(i as int) == b@.take(i as int),
        decreases a@.len() - i,
    {
        if a[i] != b[i] {
            return false;
        }
        i = i + 1;
        assert(a@.take(i as int) =~= a@.take(i - 1).push(a@[i - 1]));
        assert(b@.take(i as int) =~= b@.take(i - 1).push(b@[i - 1]));
    }
    assert(a@.take(i as int) =~= a@);
    assert(b@.take(i as int) =~= b@);
    true
}

/// The first `n` bytes of `a`.
pub fn prefix_bytes(a: &[u8], n: usize) -> (out: Vec<u8>)
    requires
        n <= a@.len(),
    ensures
        out@ == a@.take(n as int),
{
    let mut out: Vec<u8> = Vec::new();
    let mut i: usize = 0;
    while i < n
        invariant
            i <= n <= a@.len(),
            out@ == a@.take(i as int),
        decreases n - i,
    {
        out.push(a[i]);
        i = i + 1;
        assert(out@ =~= a@.take(i as int));
    }
    out
}


/// Byte strings one after another, each behind its length on eight bytes.
pub open spec fn frame(rows: Seq<Seq<u8>>) -> Seq<u8>
    decreases rows.len(),
{
    if rows.len() == 0 {
        Seq::empty()
    } else {
        be_seq(rows[0].len(), 8) + rows[0] + frame(rows.skip(1))
    }
}

/// The byte strings that `bytes` frames, if it frames any.
pub open spec fn unframe(bytes: Seq<u8>) -> Option<Seq<Seq<u8>>>
    decreases bytes.len(),
{
    if bytes.len() == 0 {
        Some(Seq::empty())
    } else if bytes.len() < 8 {
        None
    } else {
        let n = be_value(bytes.take(8)) as int;
        if bytes.len() - 8 < n {
            None
        } else {
            match unframe(bytes.skip(8 + n)) {
                Some(rest) => Some(seq![bytes.subrange(8, 8 + n)] + rest),
                None => None,
            }
        }
    }
}

/// Every byte string is short enough for an eight-byte length.
pub open spec fn frameable(rows: Seq<Seq<u8>>) -> bool {
    forall|i: int| 0 <= i < rows.len() ==> (#[trigger] rows[i]).len() <= u64::MAX
}

/// Framing one more byte string appends its length and its bytes.
pub proof fn lemma_frame_push(rows: Seq<Seq<u8>>, last: Seq<u8>)
    ensures
        frame(rows.push(last)) == frame(rows) + be_seq(last.len(), 8) + last,
    decreases rows.len(),
{
    if rows.len() == 0 {
        assert(rows.push(last).skip(1) =~= Seq::<Seq<u8>>::empty());
        reveal_with_fuel(frame, 2);
        assert(frame(rows.push(last)) =~= frame(rows) + be_seq(last.len(), 8) + last);
    } else {
        assert(rows.push(last).skip(1) =~= rows.skip(1).push(last));
        lemma_frame_push(rows.skip(1), last);
        assert(frame(rows.push(last)) =~= frame(rows) + be_seq(last.len(), 8) + last);
    }
}

/// What was framed is what unframing gives back.
pub proof fn lemma_unframe_frame(rows: Seq<Seq<u8>>)
    requires
        frameable(rows),
    ensures
        unframe(frame(rows)) == Some(rows),
    decreases rows.len(),
{
    if rows.len() > 0 {
        let head = rows[0];
        let bytes = frame(rows);
        lemma_be_seq_len(head.len(), 8);
        lemma_byte_range_values();
        lemma_be_value_of_seq(head.len(), 8);
        assert(bytes.take(8) =~= be_seq(head.len(), 8));
        assert(bytes.skip(8 + head.len() as int) =~= frame(rows.skip(1)));
        assert(bytes.subrange(8, 8 + head.len() as int) =~= head);
        assert(frameable(rows.skip(1)));
        lemma_unframe_frame(rows.skip(1));
        assert(seq![head] + rows.skip(1) =~= rows);
    }
}

/// The rows of a vector of byte vectors.
pub open spec fn byte_rows(v: Seq<Vec<u8>>) -> Seq<Seq<u8>> {
    Seq::new(v.len(), |i: int| v[i]@)
}

/// Frames the byte strings of `rows`.
pub fn frame_rows(rows: &[Vec<u8>]) -> (out: Vec<u8>)
    ensures
        out@ == frame(byte_rows(rows@)),
{
    let mut out: Vec<u8> = Vec::new();
    let mut i: usize = 0;
    proof {
        assert(byte_rows(rows@).take(0) =~= Seq::<Seq<u8>>::empty());
    }
    while i < rows.len()
        invariant
            i <= rows@.len(),
            out@ == frame(byte_rows(rows@).take(i as int)),
        decreases rows@.len() - i,
    {
        let row: &Vec<u8> = &rows[i];
        proof {
            lemma_byte_range_values();
            lemma_frame_push(byte_rows(rows@).take(i as int), row@);
            assert(byte_rows(rows@).take(i + 1) =~= byte_rows(rows@).take(i as int).push(row@));
        }
        let prefix: Vec<u8> = be_bytes(row.len() as u128, 8);
        append_bytes(&mut out, prefix.as_slice());
        append_bytes(&mut out, row.as_slice());
        i = i + 1;
    }
    proof {
        assert(byte_rows(rows@).take(i as int) =~= byte_rows(rows@));
    }
    out
}

/// The bytes `a[lo..hi]`.
pub fn slice_bytes(a: &[u8], lo: usize, hi: usize) -> (out: Vec<u8>)
    requires
        lo <= hi <= a@.len(),
    ensures
        out@ == a@.subrange(lo as int, hi as int),
{
    let mut out: Vec<u8> = Vec::new();
    let mut i: usize = lo;
    while i < hi
        invariant
            lo <= i <= hi <= a@.len(),
            out@ == a@.subrange(lo as int, i as int),
        decreases hi - i,
    {
        out.push(a[i]);
        i = i + 1;
        assert(out@ =~= a@.subrange(lo as int, i as int));
    }
    out
}

/// The byte strings that `bytes` frames, or nothing where a length runs
/// past the end.
pub fn unframe_rows(bytes: &[u8]) -> (res: Option<Vec<Vec<u8>>>)
    ensures
        match res {
            Some(found) => unframe(bytes@) == Some(byte_rows(found@)) && frameable(byte_rows(found@)),
            None => unframe(bytes@) is None,
        },
{
    let mut found: Vec<Vec<u8>> = Vec::new();
    let mut pos: usize = 0;
    proof {
        assert(bytes@.skip(0) =~= bytes@);
        assert(byte_rows(found@) =~= Seq::<Seq<u8>>::empty());
        assert forall|r: Seq<Seq<u8>>| Seq::<Seq<u8>>::empty() + r =~= r by {}
    }
    while pos < bytes.len()
        invariant
            pos <= bytes@.len(),
            frameable(byte_rows(found@)),
            unframe(bytes@) == (match unframe(bytes@.skip(pos as int)) {
                Some(rest) => Some(byte_rows(found@) + rest),
                None => None,
            }),
        decreases bytes@.len() - pos,
    {
        let ghost tail = bytes@.skip(pos as int);
        if bytes.len() - pos < 8 {
            return None;
        }
        let n: u128 = be_number_of(bytes, pos, pos + 8);
        proof {
            assert(tail.take(8) =~= bytes@.subrange(pos as int, pos + 8));
            lemma_be_value_bound(tail.take(8));
            lemma_byte_range_values();
        }
        if ((bytes.len() - pos - 8) as u128) < n {
            return None;
        }
        let len: usize = n as usize;
        let row: Vec<u8> = slice_bytes(bytes, pos + 8, pos + 8 + len);
        proof {
            assert(tail.subrange(8, 8 + n) =~= row@);
            assert(tail.skip(8 + n) =~= bytes@.skip(pos + 8 + len));
            let before = byte_rows(found@);
            assert forall|rest: Seq<Seq<u8>>| before + (seq![row@] + rest) =~= before.push(row@) + rest by {}
        }
        let ghost before = found@;
        found.push(row);
        proof {
            assert(byte_rows(found@) =~= byte_rows(before).push(row@));
        }
        pos = pos + 8 + len;
    }
    proof {
        assert(bytes@.skip(pos as int) =~= Seq::<u8>::empty());
        assert(byte_rows(found@) + Seq::<Seq<u8>>::empty() =~= byte_rows(found@));
    }
    Some(found)
}

/// The number that the bytes `bytes[lo..hi]` spell, for up to sixteen bytes.
pub fn be_number_of(bytes: &[u8], lo: usize, hi: usize) -> (v: u128)
    requires
        lo <= hi <= bytes@.len(),
        hi - lo <= 16,
    ensures
        v == be_value(bytes@.subrange(lo as int, hi as int)),
{
    let mut acc: u128 = 0;
    let mut i: usize = lo;
    proof {
        assert(bytes@.subrange(lo as int, lo as int) =~= Seq::<u8>::empty());
    }
    while i < hi
        invariant
            lo <= i <= hi <= bytes@.len(),
            hi - lo <= 16,
            acc == be_value(bytes@.subrange(lo as int, i as int)),
        decreases hi - i,
    {
        let b: u8 = bytes[i];
        proof {
            let prefix = bytes@.subrange(lo as int, i as int);
            assert(bytes@.subrange(lo as int, i + 1) =~= prefix.push(b));
            lemma_be_value_push(prefix, b);
            lemma_be_value_bound(prefix.push(b));
            lemma_pow_increases(256, (i + 1 - lo) as nat, 16);
            lemma_byte_range_values();
        }
        acc = acc * 256 + b as u128;
        i = i + 1;
    }
    acc
}

} // verus!
