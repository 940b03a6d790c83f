//! Monophonic music transcription: from the samples of a recording to the
//! notes played in it.
//!
//! The library holds the decisions of the analysis: where frames are cut,
//! where a note sets in, which frames are silent, which peak of the
//! periodicity curve gives the pitch, what a note is called. A sample, and
//! every other number that has a fraction, is held as the bit pattern of a
//! double-precision number (see [`ieee754`]); the arithmetic on such numbers
//! is the caller's, and its results are handed in.

pub mod audio_utils;
pub mod errors;
pub mod ieee754;
pub mod pitch_detection;
pub mod text;
pub mod transcription;
pub mod wav_utils;
