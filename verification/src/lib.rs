//! A streaming run-length-encoding codec.
//!
//! Raw bytes are coalesced into chunks of two kinds: a *repeat* chunk that
//! stands for up to 128 copies of one byte, and a *literal* chunk that carries
//! 2 to 129 bytes verbatim.  Each chunk is framed by a single control byte
//! whose top bit selects the kind and whose low seven bits carry the count or
//! length.  The [`encoder::Encoder`] consumes raw bytes incrementally and
//! writes framed chunks to a byte sink; the [`decoder::Decoder`] reads framed
//! chunks from a byte source and yields the original bytes on demand.
//!
//! The wire format, the encoder's per-byte transition rules and the decoder
//! are modelled as specification functions in [`format`], and the laws that
//! tie them together (above all, that decoding an encoded stream returns the
//! original bytes) are proved in [`laws`].

pub mod format;
pub mod stream;
pub mod encoder;
pub mod decoder;
pub mod laws;

pub use encoder::Encoder;
pub use encoder::encode_bytes;
pub use encoder::EncodeError;
pub use decoder::Decoder;
pub use decoder::decode_bytes;
pub use decoder::DecodeError;
pub use stream::ByteSink;
pub use stream::ByteSource;
pub use stream::SinkError;
pub use stream::SourceError;
pub use stream::VecSink;
pub use stream::VecSource;
