//! Turning a video into paced, colored text art: the arithmetic of the
//! target resolution, the parsing of probe output, the framing of the text
//! stream and the timing of its playback.

pub mod error;
pub mod text;
pub mod resolve;
pub mod probe;
pub mod wire;
pub mod playback;
pub mod codec;
pub mod source;
