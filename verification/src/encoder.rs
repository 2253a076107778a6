//! The streaming encoder.
//!
//! Bytes are fed in any number of calls of any size; the encoder coalesces
//! them into one pending chunk (a run or a literal) and writes a chunk to the
//! sink whenever a transition rule or a cap says so.  `finalize` flushes the
//! pending chunk and the sink.  The bytes the sink has accepted when
//! `finalize` returns successfully are exactly [`crate::format::encoded`] of
//! the bytes fed.

use vstd::prelude::*;

use crate::format::Chunk;
use crate::format::acc_valid;
use crate::format::chunks_wire;
use crate::format::encode_steps;
use crate::format::encoded;
use crate::format::lemma_chunks_single;
use crate::format::lemma_chunks_wire_concat;
use crate::format::lemma_encode_steps_snoc;
use crate::format::lemma_step;
use crate::format::step;
use crate::format::tail_chunks;
use crate::stream::ByteSink;
use crate::stream::VecSink;
use crate::stream::SinkError;

verus! {

/// Why a call on the encoder failed.
#[derive(Clone, Copy, Debug, PartialEq, Eq, Structural)]
pub enum EncodeError {
    /// The sink failed on a write or flush.  Fatal: the encoder must not be
    /// used further, as a chunk may have been lost.
    Sink(SinkError),
    /// The encoder was already finalized; no output was produced.
    AlreadyFinalized,
}

/// The one in-flight, not-yet-written chunk.
enum Accum {
    Empty,
    Repeat { value: u8, count: u8 },
    Literal { bytes: Vec<u8> },
}

impl Accum {
    /// The accumulator as the model sees it.
    spec fn model(self) -> Option<Chunk> {
        match self {
            Accum::Empty => Option::None,
            Accum::Repeat { value, count } => Option::Some(
                Chunk::Repeat { value, count: count as int },
            ),
            Accum::Literal { bytes } => Option::Some(Chunk::Literal { bytes: bytes@ }),
        }
    }
}

/// A streaming run-length encoder over a byte sink.
pub struct Encoder<S: ByteSink> {
    sink: S,
    acc: Accum,
    done: bool,
    /// All bytes fed so far.
    fed: Ghost<Seq<u8>>,
    /// What the sink held when the encoder was built.
    base: Ghost<Seq<u8>>,
    /// False once a sink error has been seen.
    ok: Ghost<bool>,
}

impl<S: ByteSink> Encoder<S> {
    /// The bytes fed so far.
    pub closed spec fn fed(&self) -> Seq<u8> {
        self.fed@
    }

    /// The bytes the sink held when the encoder was built.
    pub closed spec fn base(&self) -> Seq<u8> {
        self.base@
    }

    /// Whether `finalize` has been called.
    pub closed spec fn finalized(&self) -> bool {
        self.done
    }

    /// Whether the encoder can still accept bytes: not finalized and no sink
    /// error seen.
    pub closed spec fn live(&self) -> bool {
        !self.done && self.ok@
    }

    /// The bytes the sink has accepted.
    pub closed spec fn sink_bytes(&self) -> Seq<u8> {
        self.sink.bytes()
    }

    pub closed spec fn sink_infallible(&self) -> bool {
        self.sink.infallible()
    }

    /// The encoder's invariant: the pending chunk respects the caps, and as
    /// long as no error was seen, the sink holds exactly the wire form of the
    /// chunks the transition rules have emitted for the bytes fed (all of
    /// them, once finalized).
    pub closed spec fn wf(&self) -> bool {
        &&& acc_valid(self.acc.model())
        &&& (self.live() ==> self.acc.model() == encode_steps(Option::None, self.fed@).1
            && self.sink.bytes() == self.base@ + chunks_wire(
                encode_steps(Option::None, self.fed@).0,
            ))
        &&& (self.done && self.ok@ ==> self.acc is Empty && self.sink.bytes() == self.base@
            + encoded(self.fed@))
    }

    /// A fresh encoder writing to `sink`.
    pub fn new(sink: S) -> (r: Encoder<S>)
        ensures
            r.wf(),
            r.live(),
            !r.finalized(),
            r.fed() == Seq::<u8>::empty(),
            r.base() == sink.bytes(),
            r.sink_bytes() == sink.bytes(),
            r.sink_infallible() == sink.infallible(),
    {
        let r = Encoder {
            sink,
            acc: Accum::Empty,
            done: false,
            fed: Ghost(Seq::empty()),
            base: Ghost(sink.bytes()),
            ok: Ghost(true),
        };
        proof {
            assert(r.sink.bytes() + chunks_wire(encode_steps(Option::None, r.fed@).0)
                =~= r.sink.bytes());
        }
        r
    }

    /// Writes the pending chunk, if any, to the sink and leaves the
    /// accumulator empty.
    fn write_state(&mut self) -> (r: Result<(), SinkError>)
        requires
            acc_valid(old(self).acc.model()),
        ensures
            final(self).acc is Empty,
            final(self).done == old(self).done,
            final(self).fed == old(self).fed,
            final(self).base == old(self).base,
            final(self).ok == old(self).ok,
            final(self).sink.infallible() == old(self).sink.infallible(),
            r is Ok ==> final(self).sink.bytes() == old(self).sink.bytes() + chunks_wire(
                tail_chunks(old(self).acc.model()),
            ),
            old(self).sink.infallible() ==> r is Ok,
    {
        let mut a = Accum::Empty;
        core::mem::swap(&mut a, &mut self.acc);
        match a {
            Accum::Empty => {
                proof {
                    assert(self.sink.bytes() + chunks_wire(
                        tail_chunks(Option::<Chunk>::None),
                    ) =~= self.sink.bytes());
                }
                Ok(())
            },
            Accum::Repeat { value, count } => {
                let control: u8 = 127 + count;
                let mut out: Vec<u8> = Vec::new();
                out.push(control);
                out.push(value);
                proof {
                    let c = Chunk::Repeat { value, count: count as int };
                    lemma_chunks_single(c);
                    assert(out@ =~= crate::format::chunk_wire(c));
                }
                self.sink.write_all(out.as_slice())
            },
            Accum::Literal { bytes } => {
                let control: u8 = (bytes.len() - 2) as u8;
                let mut out: Vec<u8> = Vec::new();
                out.push(control);
                out.extend_from_slice(bytes.as_slice());
                proof {
                    let c = Chunk::Literal { bytes: bytes@ };
                    lemma_chunks_single(c);
                    assert(out@ =~= crate::format::chunk_wire(c));
                }
                self.sink.write_all(out.as_slice())
            },
        }
    }

    /// Feeds bytes to the encoder.  All of them are consumed; the count
    /// returned always equals `data.len()`.  A sink failure is returned at
    /// once and is fatal.  Feeding a finalized encoder changes nothing and
    /// reports it.
    pub fn feed(&mut self, data: &[u8]) -> (r: Result<usize, EncodeError>)
        requires
            old(self).wf(),
        ensures
            final(self).wf(),
            final(self).base() == old(self).base(),
            final(self).sink_infallible() == old(self).sink_infallible(),
            final(self).finalized() == old(self).finalized(),
            old(self).finalized() ==> r == Err::<usize, EncodeError>(EncodeError::AlreadyFinalized)
                && *final(self) == *old(self),
            old(self).live() ==> (r matches Ok(n) ==> n == data@.len() && final(self).live()
                && final(self).fed() == old(self).fed() + data@),
            old(self).live() ==> (r matches Err(e) ==> e matches EncodeError::Sink(_)
                && !final(self).live()),
            old(self).live() && old(self).sink_infallible() ==> (r matches Ok(n) && n
                == data@.len()),
    {
        if self.done {
            return Err(EncodeError::AlreadyFinalized);
        }
        let mut i: usize = 0;
        while i < data.len()
            invariant
                i <= data@.len(),
                !self.done,
                !old(self).done,
                self.base@ == old(self).base@,
                self.ok@ == old(self).ok@,
                self.sink.infallible() == old(self).sink.infallible(),
                self.fed@ == old(self).fed@ + data@.take(i as int),
                acc_valid(self.acc.model()),
                old(self).ok@ ==> self.acc.model() == encode_steps(Option::None, self.fed@).1
                    && self.sink.bytes() == self.base@ + chunks_wire(
                    encode_steps(Option::None, self.fed@).0,
                ),
            decreases data@.len() - i,
        {
            let b = data[i];
            let ghost acc0 = self.acc.model();
            let ghost fed_pre = self.fed@;
            let ghost sink0 = self.sink.bytes();
            let mut a = Accum::Empty;
            core::mem::swap(&mut a, &mut self.acc);
            match a {
                Accum::Empty => {
                    self.acc = Accum::Repeat { value: b, count: 1 };
                    proof {
                        assert(self.sink.bytes() =~= sink0 + chunks_wire(step(acc0, b).0));
                    }
                },
                Accum::Repeat { value, count } => {
                    if value == b && count < 128 {
                        self.acc = Accum::Repeat { value, count: count + 1 };
                        proof {
                            assert(self.sink.bytes() =~= sink0 + chunks_wire(step(acc0, b).0));
                        }
                    } else if count == 1 {
                        let mut bytes: Vec<u8> = Vec::new();
                        bytes.push(value);
                        bytes.push(b);
                        proof {
                            assert(bytes@ =~= seq![value, b]);
                        }
                        self.acc = Accum::Literal { bytes };
                        proof {
                            assert(self.sink.bytes() =~= sink0 + chunks_wire(step(acc0, b).0));
                        }
                    } else {
                        self.acc = Accum::Repeat { value, count };
                        match self.write_state() {
                            Ok(()) => {
                            },
                            Err(e) => {
                                self.ok = Ghost(false);
                                return Err(EncodeError::Sink(e));
                            },
                        }
                        self.acc = Accum::Repeat { value: b, count: 1 };
                        proof {
                            let c = Chunk::Repeat { value, count: count as int };
                            assert(tail_chunks(Option::Some(c)) == step(acc0, b).0);
                            assert(self.sink.bytes() == sink0 + chunks_wire(step(acc0, b).0));
                        }
                    }
                },
                Accum::Literal { bytes } => {
                    let mut bytes = bytes;
                    let ghost bytes0 = bytes@;
                    let last = bytes[bytes.len() - 1];
                    if b == last {
                        if bytes.len() > 2 {
                            let _ = bytes.pop();
                            proof {
                                assert(bytes@ =~= bytes0.drop_last());
                            }
                            self.acc = Accum::Literal { bytes };
                        } else {
                            let first = bytes[0];
                            self.acc = Accum::Repeat { value: first, count: 1 };
                        }
                        match self.write_state() {
                            Ok(()) => {
                            },
                            Err(e) => {
                                self.ok = Ghost(false);
                                return Err(EncodeError::Sink(e));
                            },
                        }
                        self.acc = Accum::Repeat { value: b, count: 2 };
                        proof {
                            assert(self.sink.bytes() == sink0 + chunks_wire(step(acc0, b).0));
                        }
                    } else if bytes.len() < 129 {
                        bytes.push(b);
                        self.acc = Accum::Literal { bytes };
                        proof {
                            assert(self.acc.model() == step(acc0, b).1);
                            assert(self.sink.bytes() =~= sink0 + chunks_wire(step(acc0, b).0));
                        }
                    } else {
                        self.acc = Accum::Literal { bytes };
                        match self.write_state() {
                            Ok(()) => {
                            },
                            Err(e) => {
                                self.ok = Ghost(false);
                                return Err(EncodeError::Sink(e));
                            },
                        }
                        self.acc = Accum::Repeat { value: b, count: 1 };
                        proof {
                            let c = Chunk::Literal { bytes: bytes0 };
                            assert(tail_chunks(Option::Some(c)) == step(acc0, b).0);
                            assert(self.sink.bytes() == sink0 + chunks_wire(step(acc0, b).0));
                        }
                    }
                },
            }
            i = i + 1;
            self.fed = Ghost(old(self).fed@ + data@.take(i as int));
            proof {
                lemma_step(acc0, b);
                assert(self.acc.model() == step(acc0, b).1);
                assert(self.fed@ =~= fed_pre.push(b));
                lemma_encode_steps_snoc(Option::None, fed_pre, b);
                if self.ok@ {
                    let pre = encode_steps(Option::None, fed_pre);
                    lemma_chunks_wire_concat(pre.0, step(acc0, b).0);
                    assert((self.base@ + chunks_wire(pre.0)) + chunks_wire(step(acc0, b).0) =~= self.base@
                        + (chunks_wire(pre.0) + chunks_wire(step(acc0, b).0)));
                }
            }
        }
        proof {
            assert(old(self).fed@ + data@.take(data@.len() as int) =~= old(self).fed@ + data@);
        }
        Ok(data.len())
    }

    /// Flushes the pending chunk and the sink.  After a successful first
    /// call, the sink holds exactly the encoding of all bytes fed.  A second
    /// call changes nothing and reports it; a sink failure is fatal.
    pub fn finalize(&mut self) -> (r: Result<(), EncodeError>)
        requires
            old(self).wf(),
        ensures
            final(self).wf(),
            final(self).fed() == old(self).fed(),
            final(self).base() == old(self).base(),
            final(self).sink_infallible() == old(self).sink_infallible(),
            old(self).finalized() ==> r == Err::<(), EncodeError>(EncodeError::AlreadyFinalized)
                && *final(self) == *old(self),
            !old(self).finalized() ==> final(self).finalized(),
            old(self).live() ==> (r is Ok ==> final(self).sink_bytes() == old(self).base()
                + encoded(old(self).fed())),
            old(self).live() ==> (r matches Err(e) ==> e matches EncodeError::Sink(_)),
            old(self).live() && old(self).sink_infallible() ==> r is Ok,
    {
        if self.done {
            return Err(EncodeError::AlreadyFinalized);
        }
        self.done = true;
        let ghost acc0 = self.acc.model();
        match self.write_state() {
            Ok(()) => {
            },
            Err(e) => {
                self.ok = Ghost(false);
                return Err(EncodeError::Sink(e));
            },
        }
        match self.sink.flush() {
            Ok(()) => {
            },
            Err(e) => {
                self.ok = Ghost(false);
                return Err(EncodeError::Sink(e));
            },
        }
        proof {
            if self.ok@ {
                let pre = encode_steps(Option::None, self.fed@);
                lemma_chunks_wire_concat(pre.0, tail_chunks(acc0));
                assert((self.base@ + chunks_wire(pre.0)) + chunks_wire(tail_chunks(acc0))
                    =~= self.base@ + chunks_wire(pre.0 + tail_chunks(acc0)));
            }
        }
        Ok(())
    }

    /// Hands the sink back.  Meaningful once `finalize` has succeeded; the
    /// sink then holds the complete encoded stream.
    pub fn into_sink(self) -> (r: S)
        ensures
            r.bytes() == self.sink_bytes(),
            r.infallible() == self.sink_infallible(),
    {
        self.sink
    }
}

/// Encodes a whole byte sequence in one call, in memory.  The result is
/// exactly [`encoded`] of the input.
pub fn encode_bytes(data: &[u8]) -> (r: Vec<u8>)
    ensures
        r@ == encoded(data@),
{
    let mut enc = Encoder::new(VecSink::new());
    match enc.feed(data) {
        Ok(_) => {
        },
        Err(_) => {
            proof {
                assert(false);
            }
        },
    }
    match enc.finalize() {
        Ok(_) => {
        },
        Err(_) => {
            proof {
                assert(false);
            }
        },
    }
    proof {
        assert(Seq::<u8>::empty() + data@ =~= data@);
        assert(Seq::<u8>::empty() + encoded(data@) =~= encoded(data@));
    }
    enc.into_sink().into_vec()
}

} // verus!
