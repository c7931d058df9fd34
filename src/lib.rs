//! Reads captured DogStatsD replay files back into their metric lines.
//!
//! A replay holds a header, then one frame per captured packet; each frame's
//! payload is the text a client sent, possibly several lines. The reader
//! hands those lines out one at a time, in order.
pub mod dogstatsdreplayreader;
pub mod error;
pub mod lines;
pub mod replay;
pub mod wire;

pub use dogstatsdreplayreader::DogStatsDReplayReader;
pub use error::DogStatsDReplayReaderError;
