//! The laws of the codec, proved over the model in [`crate::format`].
//!
//! The central one is the round trip: decoding an encoded stream gives back
//! exactly the original bytes.  Beside it stand the boundary laws — runs and
//! literals that exactly fill a chunk go into one chunk, one byte more spills
//! into a second — and the law that a stream cut inside a chunk never decodes.

use vstd::prelude::*;

use crate::format::Chunk;
use crate::format::acc_content;
use crate::format::chunk_wire;
use crate::format::chunks_content;
use crate::format::chunks_valid;
use crate::format::chunks_wire;
use crate::format::decoded;
use crate::format::encode_steps;
use crate::format::encoded;
use crate::format::head_complete;
use crate::format::lemma_chunks_content_concat;
use crate::format::lemma_chunks_single;
use crate::format::lemma_chunks_wire_concat;
use crate::format::lemma_decoded_chunks;
use crate::format::lemma_encode_steps;
use crate::format::lemma_encode_steps_snoc;
use crate::format::step;
use crate::format::tail_chunks;

verus! {

/// Round trip: decoding an encoded stream recovers the original byte
/// sequence, for every finite byte sequence, the empty one included.
pub proof fn lemma_round_trip(s: Seq<u8>)
    ensures
        decoded(encoded(s)) == Option::Some(s),
{
    lemma_encode_steps(Option::None, s);
    let e = encode_steps(Option::None, s).0;
    let a = encode_steps(Option::None, s).1;
    let all = e + tail_chunks(a);
    assert(chunks_valid(tail_chunks(a))) by {
        match a {
            Option::None => {
            },
            Option::Some(c) => {
                lemma_chunks_single(c);
            },
        }
    }
    assert(chunks_valid(all)) by {
        assert(forall|i: int| 0 <= i < e.len() ==> all[i] == e[i]);
        assert(forall|i: int|
            e.len() <= i < all.len() ==> all[i] == tail_chunks(a)[i - e.len()]);
    }
    assert(chunks_content(tail_chunks(a)) == acc_content(a)) by {
        match a {
            Option::None => {
            },
            Option::Some(c) => {
                lemma_chunks_single(c);
            },
        }
    }
    lemma_chunks_content_concat(e, tail_chunks(a));
    assert(chunks_content(all) =~= s);
    lemma_decoded_chunks(all);
}

/// Feeding `n` further copies of `b` into an accumulator already holding a
/// run of `b` only grows that run, as long as the cap is not passed.
proof fn lemma_feed_run(b: u8, c: int, n: nat)
    requires
        1 <= c,
        c + n <= 128,
    ensures
        encode_steps(Option::Some(Chunk::Repeat { value: b, count: c }), Seq::new(n, |i: int| b))
            == (Seq::<Chunk>::empty(), Option::Some(
            Chunk::Repeat { value: b, count: c + n },
        )),
    decreases n,
{
    let run = Seq::new(n, |i: int| b);
    if n == 0 {
        assert(encode_steps(Option::Some(Chunk::Repeat { value: b, count: c }), run).1
            == Option::Some(Chunk::Repeat { value: b, count: c + n }));
    } else {
        assert(run[0] == b);
        assert(run.skip(1) =~= Seq::new((n - 1) as nat, |i: int| b));
        lemma_feed_run(b, c + 1, (n - 1) as nat);
        assert(Seq::<Chunk>::empty() + Seq::<Chunk>::empty() =~= Seq::<Chunk>::empty());
    }
}

/// A run of `n` identical bytes, fed into an empty encoder, stays one
/// pending run and emits nothing, up to the cap of 128.
proof fn lemma_feed_run_fresh(b: u8, n: nat)
    requires
        1 <= n <= 128,
    ensures
        encode_steps(Option::None, Seq::new(n, |i: int| b)) == (Seq::<Chunk>::empty(),
        Option::Some(Chunk::Repeat { value: b, count: n as int })),
{
    let run = Seq::new(n, |i: int| b);
    assert(run[0] == b);
    assert(run.skip(1) =~= Seq::new((n - 1) as nat, |i: int| b));
    lemma_feed_run(b, 1, (n - 1) as nat);
    assert(Seq::<Chunk>::empty() + Seq::<Chunk>::empty() =~= Seq::<Chunk>::empty());
}

/// Boundary exactness, repeat side: a run of exactly 128 identical bytes
/// encodes to one repeat chunk of two wire bytes.
pub proof fn lemma_run_128_one_chunk(b: u8)
    ensures
        encoded(Seq::new(128, |i: int| b)) == seq![255u8, b],
{
    lemma_feed_run_fresh(b, 128);
    let c = Chunk::Repeat { value: b, count: 128 };
    assert(Seq::<Chunk>::empty() + tail_chunks(Option::Some(c)) =~= seq![c]);
    lemma_chunks_single(c);
    assert(chunks_wire(seq![c]) =~= seq![255u8, b]);
}

/// Boundary exactness, repeat side: a run of 129 identical bytes encodes to
/// a capped 128-run chunk followed by a 1-run chunk.
pub proof fn lemma_run_129_two_chunks(b: u8)
    ensures
        encoded(Seq::new(129, |i: int| b)) == seq![255u8, b, 128u8, b],
{
    let s = Seq::new(129, |i: int| b);
    let prefix = Seq::new(128, |i: int| b);
    assert(s =~= prefix.push(b));
    lemma_feed_run_fresh(b, 128);
    lemma_encode_steps_snoc(Option::None, prefix, b);
    let full = Chunk::Repeat { value: b, count: 128 };
    let one = Chunk::Repeat { value: b, count: 1 };
    assert(step(Option::Some(full), b).0 == seq![full]);
    assert(step(Option::Some(full), b).1 == Option::Some(one));
    assert(encode_steps(Option::None, s).0 =~= seq![full]);
    assert(encode_steps(Option::None, s).0 + tail_chunks(Option::Some(one)) =~= seq![full, one]);
    lemma_chunks_single(one);
    assert(seq![full, one].skip(1) =~= seq![one]);
    assert(chunks_wire(seq![full, one]) =~= seq![255u8, b, 128u8, b]);
}

/// A prefix of length `n` of a byte sequence in which no byte repeats its
/// predecessor accumulates as one pending literal, emitting nothing, up to
/// the cap of 129.
proof fn lemma_feed_literal(s: Seq<u8>, n: int)
    requires
        2 <= n <= s.len(),
        n <= 129,
        forall|i: int| 0 < i < s.len() ==> #[trigger] s[i] != s[i - 1],
    ensures
        encode_steps(Option::None, s.take(n)) == (Seq::<Chunk>::empty(), Option::Some(
            Chunk::Literal { bytes: s.take(n) },
        )),
    decreases n,
{
    if n == 2 {
        let t = s.take(2);
        let u = seq![s[1]];
        let a1 = Option::Some(Chunk::Repeat { value: s[0], count: 1 });
        let a2 = Option::Some(Chunk::Literal { bytes: seq![s[0], s[1]] });
        assert(t[0] == s[0] && t[1] == s[1]);
        assert(s[1] != s[0]);
        assert(t.skip(1) =~= u);
        assert(u[0] == s[1]);
        assert(u.skip(1) =~= Seq::<u8>::empty());
        assert(step(Option::None, s[0]) == (Seq::<Chunk>::empty(), a1));
        assert(step(a1, s[1]) == (Seq::<Chunk>::empty(), a2));
        assert(encode_steps(a2, Seq::<u8>::empty()) == (Seq::<Chunk>::empty(), a2));
        assert(encode_steps(a1, u).1 == a2);
        assert(encode_steps(a1, u).0 =~= Seq::<Chunk>::empty());
        assert(encode_steps(Option::None, t).1 == a2);
        assert(encode_steps(Option::None, t).0 =~= Seq::<Chunk>::empty());
        assert(seq![s[0], s[1]] =~= t);
    } else {
        let prefix = s.take(n - 1);
        lemma_feed_literal(s, n - 1);
        assert(s.take(n) =~= prefix.push(s[n - 1]));
        lemma_encode_steps_snoc(Option::None, prefix, s[n - 1]);
        assert(prefix.last() == s[n - 2]);
        assert(s[n - 1] != s[n - 2]);
        assert(prefix.len() < 129);
        assert(step(Option::Some(Chunk::Literal { bytes: prefix }), s[n - 1]).1 == Option::Some(
            Chunk::Literal { bytes: prefix.push(s[n - 1]) },
        ));
        assert(prefix.push(s[n - 1]) =~= s.take(n));
        assert(encode_steps(Option::None, s.take(n)).0 =~= Seq::<Chunk>::empty());
    }
}

/// Boundary exactness, literal side: 129 bytes in which no byte repeats its
/// predecessor encode to one literal chunk.
pub proof fn lemma_literal_129_one_chunk(s: Seq<u8>)
    requires
        s.len() == 129,
        forall|i: int| 0 < i < s.len() ==> #[trigger] s[i] != s[i - 1],
    ensures
        encoded(s) == seq![127u8] + s,
{
    lemma_feed_literal(s, 129);
    assert(s.take(129) =~= s);
    let c = Chunk::Literal { bytes: s };
    assert(Seq::<Chunk>::empty() + tail_chunks(Option::Some(c)) =~= seq![c]);
    lemma_chunks_single(c);
}

/// Boundary exactness, literal side: 130 bytes in which no byte repeats its
/// predecessor split across two chunks — a full 129-byte literal, then the
/// last byte alone as a 1-run chunk.
/// The fold on 130 cap-filling literal bytes: the first 129 flush as one
/// literal chunk, the last byte stays pending as a fresh run of one.
proof fn lemma_feed_literal_overflow(s: Seq<u8>)
    requires
        s.len() == 130,
        forall|i: int| 0 < i < s.len() ==> #[trigger] s[i] != s[i - 1],
    ensures
        encode_steps(Option::None, s) == (seq![Chunk::Literal { bytes: s.take(129) }],
        Option::Some(Chunk::Repeat { value: s[129], count: 1 })),
{
    let prefix = s.take(129);
    lemma_feed_literal(s, 129);
    assert(s =~= prefix.push(s[129]));
    lemma_encode_steps_snoc(Option::None, prefix, s[129]);
    assert(prefix.last() == s[128]);
    assert(s[129] != s[128]);
    let lit = Chunk::Literal { bytes: prefix };
    assert(step(Option::Some(lit), s[129]).0 == seq![lit]);
    assert(step(Option::Some(lit), s[129]).1 == Option::Some(
        Chunk::Repeat { value: s[129], count: 1 },
    ));
    assert(encode_steps(Option::None, s).0 =~= seq![lit]);
}

/// Boundary exactness, literal side: 130 bytes in which no byte repeats its
/// predecessor split across two chunks — a full 129-byte literal, then the
/// last byte alone as a 1-run chunk.
pub proof fn lemma_literal_130_two_chunks(s: Seq<u8>)
    requires
        s.len() == 130,
        forall|i: int| 0 < i < s.len() ==> #[trigger] s[i] != s[i - 1],
    ensures
        encoded(s) == seq![127u8] + s.take(129) + seq![128u8, s[129]],
{
    lemma_feed_literal_overflow(s);
    let lit = Chunk::Literal { bytes: s.take(129) };
    let one = Chunk::Repeat { value: s[129], count: 1 };
    assert(seq![lit] + tail_chunks(Option::Some(one)) =~= seq![lit] + seq![one]);
    lemma_chunks_single(lit);
    lemma_chunks_single(one);
    lemma_chunks_wire_concat(seq![lit], seq![one]);
    assert(chunk_wire(lit) =~= seq![127u8] + s.take(129));
    assert(chunk_wire(one) =~= seq![128u8, s[129]]);
}

/// Truncation is never a valid end of stream: a non-empty encoded stream
/// whose first chunk is cut short does not decode.
pub proof fn lemma_truncated_head_rejected(s: Seq<u8>)
    requires
        0 < s.len(),
        !head_complete(s),
    ensures
        decoded(s) is None,
{
}

} // verus!
