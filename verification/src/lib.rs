//! A framing codec for byte streams.
//!
//! A payload is written as a frame: a size prefix of one to four bytes
//! followed by the payload itself. Frames can be concatenated into one
//! stream and split apart again, also when the stream arrives in pieces.
//!
//! * [`prefix`] defines the size prefix and the boundary lookup.
//! * [`codec`] holds the one-shot [`encode`] and [`decode`].
//! * [`stream`] says how a byte stream splits into frames.
//! * [`model`] is what a decoder holds as its callers see it, with the laws
//!   of feeding and reading.
//! * [`decoder`] holds the incremental [`Decoder`].

pub mod codec;
pub mod decoder;
pub mod error;
pub mod model;
pub mod prefix;
pub mod stream;

pub use codec::{decode, encode};
pub use decoder::Decoder;
pub use error::FrameError;
pub use prefix::{find_frame, Boundary, MAX_PAYLOAD_LEN};
