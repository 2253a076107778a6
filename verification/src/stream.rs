//! The byte sink and byte source the codec is built over.
//!
//! The encoder only needs something that accepts bytes and can be flushed;
//! the decoder only needs something that yields bytes one at a time and can
//! signal its end.  Both capabilities are traits here, with contracts over an
//! abstract byte sequence, so the codec is not tied to any one stream type.
//! [`VecSink`] and [`VecSource`] are the in-memory implementations; an
//! implementation over a file or another stream belongs to the program that
//! owns that stream.

use vstd::prelude::*;

verus! {

/// The failure an underlying sink reported on a write or flush.
#[derive(Clone, Copy, Debug, PartialEq, Eq, Structural)]
pub struct SinkError;

/// The failure an underlying source reported on a read.
#[derive(Clone, Copy, Debug, PartialEq, Eq, Structural)]
pub struct SourceError;

/// Something encoded bytes can be written to.
///
/// `bytes()` is the sequence of bytes accepted so far; `infallible()` marks
/// implementations whose operations never fail, which lets callers be owed
/// success.  After an error nothing is promised about the sink's contents:
/// sink failures are fatal to the stream being written.
pub trait ByteSink: Sized {
    spec fn bytes(&self) -> Seq<u8>;

    spec fn infallible(&self) -> bool;

    fn write_all(&mut self, data: &[u8]) -> (r: Result<(), SinkError>)
        ensures
            final(self).infallible() == old(self).infallible(),
            r is Ok ==> final(self).bytes() == old(self).bytes() + data@,
            old(self).infallible() ==> r is Ok,
    ;

    fn flush(&mut self) -> (r: Result<(), SinkError>)
        ensures
            final(self).infallible() == old(self).infallible(),
            r is Ok ==> final(self).bytes() == old(self).bytes(),
            old(self).infallible() ==> r is Ok,
    ;
}

/// Something encoded bytes can be read from.
///
/// `remaining()` is the sequence of bytes the source will still yield;
/// `read_byte` yields the next one, or `None` exactly when the source is
/// exhausted.  `infallible()` marks implementations whose reads never fail.
pub trait ByteSource: Sized {
    spec fn remaining(&self) -> Seq<u8>;

    spec fn infallible(&self) -> bool;

    fn read_byte(&mut self) -> (r: Result<Option<u8>, SourceError>)
        ensures
            final(self).infallible() == old(self).infallible(),
            r matches Ok(Option::Some(b)) ==> old(self).remaining().len() > 0
                && b == old(self).remaining()[0]
                && final(self).remaining() == old(self).remaining().skip(1),
            r matches Ok(Option::None) ==> old(self).remaining().len() == 0
                && final(self).remaining() == old(self).remaining(),
            old(self).infallible() ==> r is Ok,
    ;
}

/// An in-memory sink: a growable byte buffer.  It never fails.
pub struct VecSink {
    data: Vec<u8>,
}

impl VecSink {
    /// An empty sink.
    pub fn new() -> (r: VecSink)
        ensures
            r.bytes() == Seq::<u8>::empty(),
            r.infallible(),
    {
        VecSink { data: Vec::new() }
    }

    /// Hands the accepted bytes back.
    pub fn into_vec(self) -> (r: Vec<u8>)
        ensures
            r@ == self.bytes(),
    {
        self.data
    }
}

impl ByteSink for VecSink {
    closed spec fn bytes(&self) -> Seq<u8> {
        self.data@
    }

    open spec fn infallible(&self) -> bool {
        true
    }

    fn write_all(&mut self, data: &[u8]) -> (r: Result<(), SinkError>) {
        self.data.extend_from_slice(data);
        Ok(())
    }

    fn flush(&mut self) -> (r: Result<(), SinkError>) {
        Ok(())
    }
}

/// An in-memory source: a byte buffer read from front to back.  It never
/// fails.
pub struct VecSource {
    data: Vec<u8>,
    pos: usize,
}

impl VecSource {
    /// A source that will yield exactly `data`.
    pub fn new(data: Vec<u8>) -> (r: VecSource)
        ensures
            r.remaining() == data@,
            r.infallible(),
    {
        let r = VecSource { data, pos: 0 };
        proof {
            assert(r.data@.skip(0) =~= r.data@);
        }
        r
    }
}

impl ByteSource for VecSource {
    closed spec fn remaining(&self) -> Seq<u8> {
        if self.pos <= self.data@.len() {
            self.data@.skip(self.pos as int)
        } else {
            Seq::empty()
        }
    }

    open spec fn infallible(&self) -> bool {
        true
    }

    fn read_byte(&mut self) -> (r: Result<Option<u8>, SourceError>) {
        if self.pos < self.data.len() {
            let b = self.data[self.pos];
            self.pos = self.pos + 1;
            proof {
                assert(old(self).data@.skip(old(self).pos as int)[0] == b);
                assert(self.data@.skip(self.pos as int) =~= old(self).data@.skip(
                    old(self).pos as int,
                ).skip(1));
            }
            Ok(Some(b))
        } else {
            Ok(None)
        }
    }
}

} // verus!
