//! The mathematical model of the wire format and of the codec.
//!
//! A chunk is the unit of the encoded stream.  Its first byte is the control
//! byte: values 128 and above announce a repeat chunk (the low seven bits hold
//! the count minus one, and one data byte follows), values below 128 announce
//! a literal chunk (the control byte holds the length minus two, and that many
//! raw bytes follow).
//!
//! [`encoded`] gives the exact byte sequence the encoder produces for a raw
//! input, built from the per-byte transition rule [`step`]; [`decoded`] gives
//! the bytes a decoder recovers from an encoded stream, or `None` when the
//! stream is cut inside a chunk.

use vstd::prelude::*;

verus! {

/// One encoded unit: either `count` copies of `value`, or a verbatim span.
pub enum Chunk {
    Repeat { value: u8, count: int },
    Literal { bytes: Seq<u8> },
}

/// The caps the wire format imposes: a repeat holds 1 to 128 copies, a
/// literal holds 2 to 129 bytes.
pub open spec fn chunk_valid(c: Chunk) -> bool {
    match c {
        Chunk::Repeat { count, .. } => 1 <= count <= 128,
        Chunk::Literal { bytes } => 2 <= bytes.len() <= 129,
    }
}

/// The raw bytes a chunk stands for.
pub open spec fn chunk_content(c: Chunk) -> Seq<u8> {
    match c {
        Chunk::Repeat { value, count } => Seq::new(count as nat, |i: int| value),
        Chunk::Literal { bytes } => bytes,
    }
}

/// The framed form of a chunk: control byte, then payload.  For a repeat the
/// control byte is `0x80 | (count - 1)`, which equals `127 + count`; for a
/// literal it is `len - 2`.
pub open spec fn chunk_wire(c: Chunk) -> Seq<u8> {
    match c {
        Chunk::Repeat { value, count } => seq![(127 + count) as u8, value],
        Chunk::Literal { bytes } => seq![(bytes.len() - 2) as u8] + bytes,
    }
}

pub open spec fn chunks_valid(cs: Seq<Chunk>) -> bool {
    forall|i: int| 0 <= i < cs.len() ==> chunk_valid(#[trigger] cs[i])
}

/// The raw bytes a sequence of chunks stands for, in order.
pub open spec fn chunks_content(cs: Seq<Chunk>) -> Seq<u8>
    decreases cs.len(),
{
    if cs.len() == 0 {
        Seq::empty()
    } else {
        chunk_content(cs[0]) + chunks_content(cs.skip(1))
    }
}

/// The framed form of a sequence of chunks, in order.
pub open spec fn chunks_wire(cs: Seq<Chunk>) -> Seq<u8>
    decreases cs.len(),
{
    if cs.len() == 0 {
        Seq::empty()
    } else {
        chunk_wire(cs[0]) + chunks_wire(cs.skip(1))
    }
}

/// The encoder's in-flight accumulator: `None` when empty, otherwise the one
/// pending chunk that has not been written yet.
pub open spec fn acc_valid(acc: Option<Chunk>) -> bool {
    match acc {
        Option::None => true,
        Option::Some(c) => chunk_valid(c),
    }
}

/// The raw bytes the accumulator stands for.
pub open spec fn acc_content(acc: Option<Chunk>) -> Seq<u8> {
    match acc {
        Option::None => Seq::empty(),
        Option::Some(c) => chunk_content(c),
    }
}

/// The chunks still to be written when the accumulator is flushed at the end
/// of the stream: none when it is empty, otherwise exactly the pending chunk.
pub open spec fn tail_chunks(acc: Option<Chunk>) -> Seq<Chunk> {
    match acc {
        Option::None => Seq::empty(),
        Option::Some(c) => seq![c],
    }
}

/// The encoder's transition on one input byte: the chunks it emits (none or
/// one) and the new accumulator.  Greedy coalescing:
/// - an empty accumulator starts a count-1 repeat;
/// - a repeat of the same byte below the cap grows;
/// - a count-1 repeat of a different byte folds into a two-byte literal;
/// - a literal whose last byte equals the new byte gives that byte up to start
///   a count-2 repeat, flushing what remains of it (the whole literal shrunk
///   by one, or, for a two-byte literal, a count-1 repeat of its first byte);
/// - an unfinished literal takes a fresh byte;
/// - otherwise a cap was hit: the accumulator is flushed and a count-1 repeat
///   starts.
pub open spec fn step(acc: Option<Chunk>, b: u8) -> (Seq<Chunk>, Option<Chunk>) {
    match acc {
        Option::None => (Seq::empty(), Option::Some(Chunk::Repeat { value: b, count: 1 })),
        Option::Some(Chunk::Repeat { value, count }) => {
            if value == b && count < 128 {
                (Seq::empty(), Option::Some(Chunk::Repeat { value, count: count + 1 }))
            } else if count == 1 {
                (Seq::empty(), Option::Some(Chunk::Literal { bytes: seq![value, b] }))
            } else {
                (
                    seq![Chunk::Repeat { value, count }],
                    Option::Some(Chunk::Repeat { value: b, count: 1 }),
                )
            }
        },
        Option::Some(Chunk::Literal { bytes }) => {
            if b == bytes.last() {
                if bytes.len() > 2 {
                    (
                        seq![Chunk::Literal { bytes: bytes.drop_last() }],
                        Option::Some(Chunk::Repeat { value: b, count: 2 }),
                    )
                } else {
                    (
                        seq![Chunk::Repeat { value: bytes[0], count: 1 }],
                        Option::Some(Chunk::Repeat { value: b, count: 2 }),
                    )
                }
            } else if bytes.len() < 129 {
                (Seq::empty(), Option::Some(Chunk::Literal { bytes: bytes.push(b) }))
            } else {
                (
                    seq![Chunk::Literal { bytes }],
                    Option::Some(Chunk::Repeat { value: b, count: 1 }),
                )
            }
        },
    }
}

/// [`step`] folded over a whole input: all chunks emitted while feeding `s`
/// into an encoder whose accumulator starts as `acc`, and the accumulator
/// left pending afterwards.
pub open spec fn encode_steps(acc: Option<Chunk>, s: Seq<u8>) -> (Seq<Chunk>, Option<Chunk>)
    decreases s.len(),
{
    if s.len() == 0 {
        (Seq::empty(), acc)
    } else {
        let first = step(acc, s[0]);
        let rest = encode_steps(first.1, s.skip(1));
        (first.0 + rest.0, rest.1)
    }
}

/// The full encoding of a raw byte sequence: every chunk emitted while
/// feeding it, then the pending accumulator flushed as a final chunk.
pub open spec fn encoded(s: Seq<u8>) -> Seq<u8> {
    let r = encode_steps(Option::None, s);
    chunks_wire(r.0 + tail_chunks(r.1))
}

/// How many payload bytes must follow a control byte.
pub open spec fn head_payload_len(control: u8) -> int {
    if control >= 128 {
        1
    } else {
        control + 2
    }
}

/// Whether a non-empty encoded stream holds its first chunk in full.
pub open spec fn head_complete(s: Seq<u8>) -> bool {
    s.len() >= 1 + head_payload_len(s[0])
}

/// The raw bytes of the first chunk of a non-empty, head-complete stream.
pub open spec fn head_content(s: Seq<u8>) -> Seq<u8> {
    if s[0] >= 128 {
        Seq::new((s[0] - 127) as nat, |i: int| s[1])
    } else {
        s.subrange(1, s[0] + 3)
    }
}

/// What follows the first chunk of a non-empty, head-complete stream.
pub open spec fn head_rest(s: Seq<u8>) -> Seq<u8> {
    s.skip(1 + head_payload_len(s[0]))
}

/// The decoding of an encoded stream: `Some` of the recovered raw bytes when
/// every chunk is complete, `None` when the stream ends inside a chunk.
pub open spec fn decoded(s: Seq<u8>) -> Option<Seq<u8>>
    decreases s.len(),
{
    if s.len() == 0 {
        Option::Some(Seq::empty())
    } else if !head_complete(s) {
        Option::None
    } else {
        match decoded(head_rest(s)) {
            Option::Some(rest) => Option::Some(head_content(s) + rest),
            Option::None => Option::None,
        }
    }
}

pub proof fn lemma_chunks_wire_concat(a: Seq<Chunk>, b: Seq<Chunk>)
    ensures
        chunks_wire(a + b) == chunks_wire(a) + chunks_wire(b),
    decreases a.len(),
{
    if a.len() == 0 {
        assert(a + b =~= b);
        assert(chunks_wire(a) + chunks_wire(b) =~= chunks_wire(b));
    } else {
        assert((a + b).skip(1) =~= a.skip(1) + b);
        lemma_chunks_wire_concat(a.skip(1), b);
        assert(chunk_wire((a + b)[0]) + (chunks_wire(a.skip(1)) + chunks_wire(b)) =~= (
        chunk_wire(a[0]) + chunks_wire(a.skip(1))) + chunks_wire(b));
    }
}

pub proof fn lemma_chunks_content_concat(a: Seq<Chunk>, b: Seq<Chunk>)
    ensures
        chunks_content(a + b) == chunks_content(a) + chunks_content(b),
    decreases a.len(),
{
    if a.len() == 0 {
        assert(a + b =~= b);
        assert(chunks_content(a) + chunks_content(b) =~= chunks_content(b));
    } else {
        assert((a + b).skip(1) =~= a.skip(1) + b);
        lemma_chunks_content_concat(a.skip(1), b);
        assert(chunk_content((a + b)[0]) + (chunks_content(a.skip(1)) + chunks_content(b)) =~= (
        chunk_content(a[0]) + chunks_content(a.skip(1))) + chunks_content(b));
    }
}

pub proof fn lemma_chunks_single(c: Chunk)
    ensures
        chunks_wire(seq![c]) == chunk_wire(c),
        chunks_content(seq![c]) == chunk_content(c),
        chunks_valid(seq![c]) == chunk_valid(c),
{
    let cs = seq![c];
    assert(cs.skip(1) =~= Seq::<Chunk>::empty());
    assert(chunk_wire(c) + chunks_wire(cs.skip(1)) =~= chunk_wire(c));
    assert(chunk_content(c) + chunks_content(cs.skip(1)) =~= chunk_content(c));
}

/// Decoding takes one complete, cap-respecting chunk off the front of the
/// stream and recovers exactly its content.
pub proof fn lemma_decoded_chunk(c: Chunk, rest: Seq<u8>)
    requires
        chunk_valid(c),
    ensures
        decoded(chunk_wire(c) + rest) == match decoded(rest) {
            Option::Some(r) => Option::Some(chunk_content(c) + r),
            Option::None => Option::<Seq<u8>>::None,
        },
{
    let w = chunk_wire(c) + rest;
    match c {
        Chunk::Repeat { value, count } => {
            assert(w[0] == (127 + count) as u8);
            assert(127 + count <= 255);
            assert(w[0] >= 128);
            assert(head_complete(w));
            assert(head_content(w) =~= chunk_content(c));
            assert(head_rest(w) =~= rest);
        },
        Chunk::Literal { bytes } => {
            assert(w[0] == (bytes.len() - 2) as u8);
            assert(w[0] < 128);
            assert(head_payload_len(w[0]) == bytes.len());
            assert(w.len() == 1 + bytes.len() + rest.len());
            assert(head_complete(w));
            assert(head_content(w) =~= bytes) by {
                assert(forall|i: int|
                    0 <= i < bytes.len() ==> w.subrange(1, w[0] + 3)[i] == bytes[i]);
            }
            assert(head_rest(w) =~= rest);
        },
    }
}

/// Decoding a stream of complete, cap-respecting chunks recovers exactly
/// their concatenated contents.
pub proof fn lemma_decoded_chunks(cs: Seq<Chunk>)
    requires
        chunks_valid(cs),
    ensures
        decoded(chunks_wire(cs)) == Option::Some(chunks_content(cs)),
    decreases cs.len(),
{
    if cs.len() == 0 {
        assert(chunks_wire(cs) =~= Seq::<u8>::empty());
        assert(decoded(chunks_wire(cs)) == Option::Some(Seq::<u8>::empty()));
        assert(chunks_content(cs) =~= Seq::<u8>::empty());
    } else {
        assert(chunks_valid(cs.skip(1))) by {
            assert(forall|i: int|
                0 <= i < cs.skip(1).len() ==> chunk_valid(#[trigger] cs.skip(1)[i])) by {
                assert(forall|i: int|
                    0 <= i < cs.skip(1).len() ==> cs.skip(1)[i] == cs[i + 1]);
            }
        }
        lemma_decoded_chunks(cs.skip(1));
        lemma_decoded_chunk(cs[0], chunks_wire(cs.skip(1)));
    }
}

/// One transition keeps the books straight: the chunks it emits are valid,
/// the new accumulator is valid and non-empty, and emitted content plus
/// pending content equals the old pending content extended by the new byte.
pub proof fn lemma_step(acc: Option<Chunk>, b: u8)
    requires
        acc_valid(acc),
    ensures
        chunks_valid(step(acc, b).0),
        acc_valid(step(acc, b).1),
        step(acc, b).1 is Some,
        chunks_content(step(acc, b).0) + acc_content(step(acc, b).1) == acc_content(acc).push(b),
{
    let e = step(acc, b).0;
    let a2 = step(acc, b).1;
    match acc {
        Option::None => {
            assert(chunks_content(e) =~= Seq::<u8>::empty());
            assert(chunks_content(e) + acc_content(a2) =~= acc_content(acc).push(b));
        },
        Option::Some(Chunk::Repeat { value, count }) => {
            if value == b && count < 128 {
                assert(chunks_content(e) =~= Seq::<u8>::empty());
                assert(chunks_content(e) + acc_content(a2) =~= acc_content(acc).push(b));
            } else if count == 1 {
                assert(chunks_content(e) =~= Seq::<u8>::empty());
                assert(chunks_content(e) + acc_content(a2) =~= acc_content(acc).push(b));
            } else {
                lemma_chunks_single(Chunk::Repeat { value, count });
                assert(chunks_content(e) + acc_content(a2) =~= acc_content(acc).push(b));
            }
        },
        Option::Some(Chunk::Literal { bytes }) => {
            if b == bytes.last() {
                if bytes.len() > 2 {
                    lemma_chunks_single(Chunk::Literal { bytes: bytes.drop_last() });
                    assert(chunks_content(e) + acc_content(a2) =~= acc_content(acc).push(b));
                } else {
                    lemma_chunks_single(Chunk::Repeat { value: bytes[0], count: 1 });
                    assert(chunks_content(e) + acc_content(a2) =~= acc_content(acc).push(b));
                }
            } else if bytes.len() < 129 {
                assert(chunks_content(e) =~= Seq::<u8>::empty());
                assert(chunks_content(e) + acc_content(a2) =~= acc_content(acc).push(b));
            } else {
                lemma_chunks_single(Chunk::Literal { bytes });
                assert(chunks_content(e) + acc_content(a2) =~= acc_content(acc).push(b));
            }
        },
    }
}

/// The fold of [`step`] keeps the same books over a whole input.
pub proof fn lemma_encode_steps(acc: Option<Chunk>, s: Seq<u8>)
    requires
        acc_valid(acc),
    ensures
        chunks_valid(encode_steps(acc, s).0),
        acc_valid(encode_steps(acc, s).1),
        chunks_content(encode_steps(acc, s).0) + acc_content(encode_steps(acc, s).1)
            == acc_content(acc) + s,
    decreases s.len(),
{
    let e = encode_steps(acc, s).0;
    let a2 = encode_steps(acc, s).1;
    if s.len() == 0 {
        assert(chunks_content(e) + acc_content(a2) =~= acc_content(acc) + s);
    } else {
        let e1 = step(acc, s[0]).0;
        let a1 = step(acc, s[0]).1;
        lemma_step(acc, s[0]);
        lemma_encode_steps(a1, s.skip(1));
        let e2 = encode_steps(a1, s.skip(1)).0;
        lemma_chunks_content_concat(e1, e2);
        assert(chunks_valid(e1 + e2)) by {
            assert(forall|i: int| 0 <= i < e1.len() ==> (e1 + e2)[i] == e1[i]);
            assert(forall|i: int|
                e1.len() <= i < e1.len() + e2.len() ==> (e1 + e2)[i] == e2[i - e1.len()]);
        }
        assert(chunks_content(e1) + (chunks_content(e2) + acc_content(a2)) =~= chunks_content(e1)
            + (acc_content(a1) + s.skip(1)));
        assert(chunks_content(e1) + (acc_content(a1) + s.skip(1)) =~= (chunks_content(e1)
            + acc_content(a1)) + s.skip(1));
        assert((acc_content(acc).push(s[0])) + s.skip(1) =~= acc_content(acc) + s);
        assert(chunks_content(e) + acc_content(a2) =~= acc_content(acc) + s);
    }
}

/// Feeding `s` and then one more byte is one [`step`] after the fold over
/// `s`: the emitted chunks extend, and the accumulator steps once.
pub proof fn lemma_encode_steps_snoc(acc: Option<Chunk>, s: Seq<u8>, b: u8)
    ensures
        encode_steps(acc, s.push(b)).0 == encode_steps(acc, s).0 + step(
            encode_steps(acc, s).1,
            b,
        ).0,
        encode_steps(acc, s.push(b)).1 == step(encode_steps(acc, s).1, b).1,
    decreases s.len(),
{
    if s.len() == 0 {
        let t = s.push(b);
        assert(t[0] == b);
        assert(t.skip(1) =~= Seq::<u8>::empty());
        assert(encode_steps(acc, t).0 =~= step(acc, b).0 + encode_steps(step(acc, b).1,
        t.skip(1)).0);
        assert(encode_steps(step(acc, b).1, t.skip(1)).0 =~= Seq::<Chunk>::empty());
        assert(step(acc, b).0 + Seq::<Chunk>::empty() =~= step(acc, b).0);
        assert(encode_steps(acc, s).0 + step(encode_steps(acc, s).1, b).0 =~= step(acc, b).0);
    } else {
        let t = s.push(b);
        assert(t[0] == s[0]);
        assert(t.skip(1) =~= s.skip(1).push(b));
        let a1 = step(acc, s[0]).1;
        lemma_encode_steps_snoc(a1, s.skip(1), b);
        assert(step(acc, s[0]).0 + (encode_steps(a1, s.skip(1)).0 + step(
            encode_steps(a1, s.skip(1)).1,
            b,
        ).0) =~= (step(acc, s[0]).0 + encode_steps(a1, s.skip(1)).0) + step(
            encode_steps(a1, s.skip(1)).1,
            b,
        ).0);
    }
}

} // verus!
