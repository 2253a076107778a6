//! Tests of how the codec reports failing sinks and sources.

use rle_codec::ByteSink;
use rle_codec::ByteSource;
use rle_codec::DecodeError;
use rle_codec::Decoder;
use rle_codec::EncodeError;
use rle_codec::Encoder;
use rle_codec::SinkError;
use rle_codec::SourceError;

/// A sink that refuses every write.
struct FailingSink;

impl ByteSink for FailingSink {
    // The two specification accessors have no run-time meaning; nothing
    // ever calls them.
    fn bytes(&self) -> vstd::seq::Seq<u8> {
        panic!()
    }

    fn infallible(&self) -> bool {
        false
    }

    fn write_all(&mut self, _data: &[u8]) -> Result<(), SinkError> {
        Err(SinkError)
    }

    fn flush(&mut self) -> Result<(), SinkError> {
        Err(SinkError)
    }
}

/// A source that fails on every read.
struct FailingSource;

impl ByteSource for FailingSource {
    // The two specification accessors have no run-time meaning; nothing
    // ever calls them.
    fn remaining(&self) -> vstd::seq::Seq<u8> {
        panic!()
    }

    fn infallible(&self) -> bool {
        false
    }

    fn read_byte(&mut self) -> Result<Option<u8>, SourceError> {
        Err(SourceError)
    }
}

#[test]
fn sink_failure_is_reported_on_finalize() {
    let mut enc = Encoder::new(FailingSink);
    // One byte only accumulates; the failing write surfaces at finalize.
    enc.feed(&[1]).unwrap();
    assert_eq!(enc.finalize(), Err(EncodeError::Sink(SinkError)));
}

#[test]
fn sink_failure_is_reported_on_feed() {
    let mut enc = Encoder::new(FailingSink);
    // 129 identical bytes force a flush of the capped run during feed.
    assert_eq!(enc.feed(&[4; 129]), Err(EncodeError::Sink(SinkError)));
}

#[test]
fn source_failure_is_reported_on_pull() {
    let mut dec = Decoder::new(FailingSource);
    assert_eq!(dec.pull(8), Err(DecodeError::Source(SourceError)));
}
