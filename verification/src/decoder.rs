//! The streaming decoder.
//!
//! `pull` hands back up to a caller-chosen number of decoded bytes.  One
//! encoded chunk may be drained over several calls; the partially drained
//! chunk is kept in a cursor between calls.  An empty result means the source
//! ended exactly at a chunk boundary — the clean end of the stream.  A source
//! that ends inside a chunk is a malformed stream and is reported as a
//! distinct error, never as a short or silent end.

use vstd::math::min;
use vstd::prelude::*;

use crate::format::head_complete;
use crate::format::head_content;
use crate::format::decoded;
use crate::format::head_payload_len;
use crate::format::head_rest;
use crate::stream::ByteSource;
use crate::stream::VecSource;
use crate::stream::SourceError;

verus! {

/// Why a call on the decoder failed.
#[derive(Clone, Copy, Debug, PartialEq, Eq, Structural)]
pub enum DecodeError {
    /// The source failed on a read.  Fatal, propagated as it came.
    Source(SourceError),
    /// A control byte announced payload bytes that the source could not
    /// yield before its true end: the stream is cut inside a chunk.
    MalformedStream,
}

/// The one in-flight, partially drained chunk.
enum Cursor {
    Empty,
    Repeat { value: u8, remaining: u8 },
    Literal { bytes: Vec<u8>, offset: usize },
}

impl Cursor {
    /// The decoded bytes this cursor still has to deliver.
    spec fn content(self) -> Seq<u8> {
        match self {
            Cursor::Empty => Seq::empty(),
            Cursor::Repeat { value, remaining } => Seq::new(remaining as nat, |i: int| value),
            Cursor::Literal { bytes, offset } => bytes@.skip(offset as int),
        }
    }

    /// The caps of the wire format, and a non-empty cursor always having
    /// something left to deliver.
    spec fn valid(self) -> bool {
        match self {
            Cursor::Empty => true,
            Cursor::Repeat { remaining, .. } => 1 <= remaining <= 128,
            Cursor::Literal { bytes, offset } => 2 <= bytes@.len() <= 129 && offset
                < bytes@.len(),
        }
    }
}

/// A streaming run-length decoder over a byte source.
pub struct Decoder<R: ByteSource> {
    source: R,
    cursor: Cursor,
}

impl<R: ByteSource> Decoder<R> {
    /// The decoded bytes of the current chunk not yet handed to the caller.
    pub closed spec fn pending(&self) -> Seq<u8> {
        self.cursor.content()
    }

    /// The encoded bytes the source will still yield.
    pub closed spec fn upcoming(&self) -> Seq<u8> {
        self.source.remaining()
    }

    pub closed spec fn source_infallible(&self) -> bool {
        self.source.infallible()
    }

    /// The decoder's invariant: the cursor respects the wire format's caps
    /// and is dropped as soon as it is drained.
    pub closed spec fn wf(&self) -> bool {
        self.cursor.valid()
    }

    /// A fresh decoder reading from `source`.
    pub fn new(source: R) -> (r: Decoder<R>)
        ensures
            r.wf(),
            r.pending() == Seq::<u8>::empty(),
            r.upcoming() == source.remaining(),
            r.source_infallible() == source.infallible(),
    {
        Decoder { source, cursor: Cursor::Empty }
    }

    /// Parses one chunk header and payload from the source into the cursor.
    /// `Ok(true)` means a chunk was loaded, `Ok(false)` the clean end of the
    /// stream.
    fn load(&mut self) -> (r: Result<bool, DecodeError>)
        requires
            old(self).cursor is Empty,
        ensures
            final(self).wf(),
            final(self).source.infallible() == old(self).source.infallible(),
            r == Ok::<bool, DecodeError>(true) ==> old(self).source.remaining().len() > 0
                && head_complete(old(self).source.remaining())
                && final(self).cursor.content() == head_content(old(self).source.remaining())
                && final(self).cursor.content().len() > 0
                && final(self).source.remaining() == head_rest(old(self).source.remaining()),
            r == Ok::<bool, DecodeError>(false) ==> old(self).source.remaining().len() == 0
                && final(self).cursor is Empty
                && final(self).source.remaining() == old(self).source.remaining(),
            r is Err ==> final(self).cursor is Empty,
            r == Err::<bool, DecodeError>(DecodeError::MalformedStream) ==> old(self).source.remaining().len() > 0 && !head_complete(old(self).source.remaining())
                && final(self).source.remaining().len() == 0,
            old(self).source.infallible() ==> (r is Err <==> (old(self).source.remaining().len()
                > 0 && !head_complete(old(self).source.remaining()))),
            old(self).source.infallible() ==> (r is Err ==> r == Err::<bool, DecodeError>(
                DecodeError::MalformedStream,
            )),
    {
        let first = match self.source.read_byte() {
            Ok(Some(b)) => b,
            Ok(None) => {
                return Ok(false);
            },
            Err(e) => {
                return Err(DecodeError::Source(e));
            },
        };
        if first >= 128 {
            let value = match self.source.read_byte() {
                Ok(Some(b)) => b,
                Ok(None) => {
                    return Err(DecodeError::MalformedStream);
                },
                Err(e) => {
                    return Err(DecodeError::Source(e));
                },
            };
            let count = first - 127;
            self.cursor = Cursor::Repeat { value, remaining: count };
            proof {
                let rem = old(self).source.remaining();
                assert(rem[1] == value);
                assert(self.cursor.content() =~= head_content(rem));
                assert(self.source.remaining() =~= head_rest(rem));
            }
            Ok(true)
        } else {
            let len: usize = first as usize + 2;
            let mut bytes: Vec<u8> = Vec::new();
            let mut i: usize = 0;
            while i < len
                invariant
                    i <= len,
                    len == first + 2,
                    first < 128,
                    self.cursor is Empty,
                    self.source.infallible() == old(self).source.infallible(),
                    old(self).source.remaining().len() >= 1 + i,
                    old(self).source.remaining()[0] == first,
                    bytes@ == old(self).source.remaining().subrange(1, 1 + i as int),
                    self.source.remaining() == old(self).source.remaining().skip(1 + i as int),
                decreases len - i,
            {
                match self.source.read_byte() {
                    Ok(Some(b)) => {
                        bytes.push(b);
                        proof {
                            let rem = old(self).source.remaining();
                            assert(rem.skip(1 + i as int)[0] == rem[1 + i as int]);
                            assert(bytes@ =~= rem.subrange(1, 1 + (i + 1) as int));
                            assert(self.source.remaining() =~= rem.skip(1 + (i + 1) as int));
                        }
                    },
                    Ok(None) => {
                        proof {
                            let rem = old(self).source.remaining();
                            assert(rem.skip(1 + i as int).len() == 0);
                            assert(rem.len() == 1 + i);
                            assert(head_payload_len(rem[0]) == len);
                            assert(!head_complete(rem));
                        }
                        return Err(DecodeError::MalformedStream);
                    },
                    Err(e) => {
                        return Err(DecodeError::Source(e));
                    },
                }
                i = i + 1;
            }
            self.cursor = Cursor::Literal { bytes, offset: 0 };
            proof {
                let rem = old(self).source.remaining();
                assert(head_payload_len(rem[0]) == len);
                assert(head_complete(rem));
                assert(self.cursor.content() =~= head_content(rem));
                assert(self.source.remaining() =~= head_rest(rem));
            }
            Ok(true)
        }
    }

    /// Copies up to `capacity` bytes out of the non-empty cursor, clearing
    /// it once drained.
    fn drain(&mut self, capacity: usize) -> (out: Vec<u8>)
        requires
            old(self).wf(),
            !(old(self).cursor is Empty),
            capacity >= 1,
        ensures
            final(self).wf(),
            final(self).source == old(self).source,
            out@.len() == min(capacity as int, old(self).cursor.content().len() as int),
            out@ == old(self).cursor.content().take(out@.len() as int),
            final(self).cursor.content() == old(self).cursor.content().skip(out@.len() as int),
    {
        let mut cur = Cursor::Empty;
        core::mem::swap(&mut cur, &mut self.cursor);
        match cur {
            Cursor::Empty => {
                proof {
                    assert(false);
                }
                Vec::new()
            },
            Cursor::Repeat { value, remaining } => {
                let avail: usize = remaining as usize;
                let n: usize = if capacity < avail {
                    capacity
                } else {
                    avail
                };
                let mut out: Vec<u8> = Vec::new();
                let mut j: usize = 0;
                while j < n
                    invariant
                        j <= n,
                        out@ == Seq::new(j as nat, |i: int| value),
                    decreases n - j,
                {
                    out.push(value);
                    proof {
                        assert(out@ =~= Seq::new((j + 1) as nat, |i: int| value));
                    }
                    j = j + 1;
                }
                if n < avail {
                    self.cursor = Cursor::Repeat { value, remaining: remaining - n as u8 };
                } else {
                    self.cursor = Cursor::Empty;
                }
                proof {
                    assert(out@ =~= old(self).cursor.content().take(n as int));
                    assert(self.cursor.content() =~= old(self).cursor.content().skip(n as int));
                }
                out
            },
            Cursor::Literal { bytes, offset } => {
                let avail: usize = bytes.len() - offset;
                let n: usize = if capacity < avail {
                    capacity
                } else {
                    avail
                };
                let mut out: Vec<u8> = Vec::new();
                let mut j: usize = 0;
                while j < n
                    invariant
                        j <= n,
                        n + offset <= bytes@.len(),
                        bytes@.len() <= usize::MAX,
                        out@ == bytes@.subrange(offset as int, offset + j as int),
                    decreases n - j,
                {
                    out.push(bytes[offset + j]);
                    proof {
                        assert(out@ =~= bytes@.subrange(offset as int, offset + (j + 1) as int));
                    }
                    j = j + 1;
                }
                if n < avail {
                    self.cursor = Cursor::Literal { bytes, offset: offset + n };
                } else {
                    self.cursor = Cursor::Empty;
                }
                proof {
                    assert(out@ =~= old(self).cursor.content().take(n as int));
                    assert(self.cursor.content() =~= old(self).cursor.content().skip(n as int));
                }
                out
            },
        }
    }

    /// Hands back up to `capacity` decoded bytes.
    ///
    /// With a positive capacity, an empty result means — and is the only
    /// thing that means — that the source ended exactly at a chunk boundary:
    /// the clean end of the stream.  A source that ends inside a chunk gives
    /// [`DecodeError::MalformedStream`] instead.  A partially delivered chunk
    /// is kept and continued on the next call.
    pub fn pull(&mut self, capacity: usize) -> (r: Result<Vec<u8>, DecodeError>)
        requires
            old(self).wf(),
        ensures
            final(self).wf(),
            final(self).source_infallible() == old(self).source_infallible(),
            r matches Ok(out) ==> out@.len() <= capacity,
            capacity == 0 ==> (r matches Ok(out) && out@.len() == 0) && final(self).pending()
                == old(self).pending() && final(self).upcoming() == old(self).upcoming(),
            capacity > 0 && old(self).pending().len() > 0 ==> (r matches Ok(out) && out@.len()
                == min(capacity as int, old(self).pending().len() as int) && out@ == old(self).pending().take(out@.len() as int) && final(self).pending() == old(self).pending().skip(out@.len() as int) && final(self).upcoming() == old(self).upcoming()),
            capacity > 0 && old(self).pending().len() == 0 ==> (r matches Ok(out) ==> (out@.len()
                == 0 ==> old(self).upcoming().len() == 0 && final(self).upcoming().len() == 0
                && final(self).pending().len() == 0)),
            capacity > 0 && old(self).pending().len() == 0 ==> (r matches Ok(out) ==> (out@.len()
                > 0 ==> old(self).upcoming().len() > 0 && head_complete(old(self).upcoming())
                && out@.len() == min(capacity as int, head_content(old(self).upcoming()).len() as int)
                && out@ == head_content(old(self).upcoming()).take(out@.len() as int)
                && final(self).pending() == head_content(old(self).upcoming()).skip(out@.len() as int)
                && final(self).upcoming() == head_rest(old(self).upcoming()))),
            capacity > 0 && old(self).pending().len() == 0 ==> (r == Err::<Vec<u8>, DecodeError>(
                DecodeError::MalformedStream,
            ) ==> (old(self).upcoming().len() > 0 && !head_complete(old(self).upcoming())
                && final(self).upcoming().len() == 0 && final(self).pending().len() == 0)),
            r is Err ==> old(self).pending().len() == 0 && capacity > 0,
            old(self).source_infallible() ==> (r is Err ==> r == Err::<Vec<u8>, DecodeError>(
                DecodeError::MalformedStream,
            )),
            old(self).source_infallible() ==> (r is Err <==> (capacity > 0 && old(self).pending().len() == 0 && old(self).upcoming().len() > 0 && !head_complete(
                old(self).upcoming(),
            ))),
    {
        if capacity == 0 {
            return Ok(Vec::new());
        }
        let empty = match &self.cursor {
            Cursor::Empty => true,
            _ => false,
        };
        if empty {
            match self.load() {
                Ok(true) => {
                },
                Ok(false) => {
                    return Ok(Vec::new());
                },
                Err(e) => {
                    return Err(e);
                },
            }
        }
        Ok(self.drain(capacity))
    }
}

/// Decodes a whole encoded stream in one call, in memory: the recovered
/// bytes — exactly what [`decoded`] gives — or the malformed-stream fault
/// if and only if the stream is cut inside a chunk.
pub fn decode_bytes(data: &[u8]) -> (r: Result<Vec<u8>, DecodeError>)
    ensures
        r matches Ok(out) ==> decoded(data@) == Option::Some(out@),
        r matches Err(e) ==> e == DecodeError::MalformedStream && decoded(data@) is None,
        r is Ok <==> decoded(data@) is Some,
{
    let mut dec = Decoder::new(VecSource::new(vstd::slice::slice_to_vec(data)));
    let mut out: Vec<u8> = Vec::new();
    proof {
        if decoded(data@) is Some {
            assert(out@ + decoded(data@)->Some_0 =~= decoded(data@)->Some_0);
        }
    }
    loop
        invariant
            dec.wf(),
            dec.source_infallible(),
            dec.pending().len() == 0,
            decoded(data@) == (match decoded(dec.upcoming()) {
                Option::Some(t) => Option::Some(out@ + t),
                Option::None => Option::<Seq<u8>>::None,
            }),
        decreases dec.upcoming().len(),
    {
        let ghost u = dec.upcoming();
        let ghost sofar = out@;
        let mut part = match dec.pull(130) {
            Ok(p) => p,
            Err(_) => {
                return Err(DecodeError::MalformedStream);
            },
        };
        if part.len() == 0 {
            proof {
                assert(sofar + Seq::<u8>::empty() =~= sofar);
            }
            return Ok(out);
        }
        out.append(&mut part);
        proof {
            let content = head_content(u);
            assert(content.len() <= 129);
            assert(out@ =~= sofar + content);
            match decoded(head_rest(u)) {
                Option::Some(t) => {
                    assert(sofar + (content + t) =~= (sofar + content) + t);
                },
                Option::None => {
                },
            }
        }
    }
}

} // verus!
