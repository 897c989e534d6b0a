//! Run-length encoding of byte streams.
//!
//! The encoding turns a byte sequence into 2-byte records `[count, value]`
//! with `count` in `[1, 255]`; runs longer than 255 bytes are split into
//! consecutive records. [`encode`] and [`encode_into`] encode a whole buffer
//! at once; [`Encoder`] encodes incrementally, pulling input from a
//! [`ByteSource`] in chunks and serving the encoded bytes to output buffers
//! of arbitrary size, so that the concatenation of everything it returns is
//! byte-for-byte the one-shot encoding of the whole source stream.

pub mod model;
pub mod oneshot;
pub mod stream;

pub use model::Run;
pub use oneshot::encode;
pub use oneshot::encode_into;
pub use stream::ByteSource;
pub use stream::Encoder;
pub use stream::SourceError;
pub use stream::VecSource;
