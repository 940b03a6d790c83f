//! What is decided about the samples of a WAV file once they are decoded.

use vstd::prelude::*;
use crate::errors::WavFileError;

verus! {

/// The largest value of a 16-bit integer sample.
pub const MAX_16BIT: i32 = 32767;

/// The value that scales 24-bit integer samples.
pub const MAX_24BIT: i32 = 16777215;

/// The largest value of a 32-bit integer sample.
pub const MAX_32BIT: i32 = 2147483647;

/// How the samples of a file are encoded.
#[derive(Clone, Copy, Debug, PartialEq, Eq)]
pub enum SampleFormat {
    /// Floating-point samples
    Float,
    /// Integer samples
    Int,
}

/// The value by which an integer sample of `bit_depth` bits is divided to
/// bring it into the range from -1 to 1, for the bit depths that are
/// supported.
pub open spec fn full_scale(bit_depth: u16) -> Option<i32> {
    if bit_depth == 16 {
        Some(MAX_16BIT)
    } else if bit_depth == 24 {
        Some(MAX_24BIT)
    } else if bit_depth == 32 {
        Some(MAX_32BIT)
    } else {
        None
    }
}

/// The samples at the even positions: of two interleaved channels the left
/// one.
pub open spec fn left_channel<T>(samples: Seq<T>) -> Seq<T> {
    Seq::new((samples.len() + 1) / 2, |i: int| samples[2 * i])
}

/// Decides how the samples of a file are scaled: floating-point samples are
/// taken as they are (`None`), integer samples are divided by the full scale
/// of their bit depth.
pub fn sample_scale(sample_format: SampleFormat, bit_depth: u16) -> (scale: Result<
    Option<i32>,
    WavFileError,
>)
    ensures
        match scale {
            Ok(None) => sample_format == SampleFormat::Float,
            Ok(Some(max)) => sample_format == SampleFormat::Int && full_scale(bit_depth) == Some(
                max,
            ),
            Err(e) => sample_format == SampleFormat::Int && full_scale(bit_depth) is None && e
                == WavFileError::UnsupportedBitDepth(bit_depth),
        },
{
    match sample_format {
        SampleFormat::Float => Ok(None),
        SampleFormat::Int => {
            if bit_depth == 16 {
                Ok(Some(MAX_16BIT))
            } else if bit_depth == 24 {
                Ok(Some(MAX_24BIT))
            } else if bit_depth == 32 {
                Ok(Some(MAX_32BIT))
            } else {
                Err(WavFileError::UnsupportedBitDepth(bit_depth))
            }
        },
    }
}

/// Reduces the interleaved samples of a file to one channel. Mono audio is
/// kept as it is. For stereo audio, only takes samples from the left
/// channel.
pub fn mono_samples<T: Copy>(samples: Vec<T>, num_channels: u16) -> (mono: Result<
    Vec<T>,
    WavFileError,
>)
    ensures
        match mono {
            Ok(kept) => (num_channels == 1 && kept@ == samples@) || (num_channels == 2 && kept@
                == left_channel(samples@)),
            Err(e) => num_channels != 1 && num_channels != 2 && e
                == WavFileError::UnsupportedChannelCount(num_channels),
        },
{
    if num_channels == 1 {
        Ok(samples)
    } else if num_channels == 2 {
        let mut left_samples: Vec<T> = Vec::with_capacity(samples.len() / 2);
        // Samples are interleaved, samples from the left channel
        // are at even indices
        let count: usize = samples.len() / 2 + samples.len() % 2;
        let mut j: usize = 0;
        while j < count
            invariant
                0 <= j <= count,
                count == (samples.len() + 1) / 2,
                left_samples.len() == j,
                forall|k: int| 0 <= k < j ==> left_samples[k] == samples[2 * k],
            decreases count - j,
        {
            left_samples.push(samples[2 * j]);
            j += 1;
        }
        assert(left_samples@ =~= left_channel(samples@));
        Ok(left_samples)
    } else {
        Err(WavFileError::UnsupportedChannelCount(num_channels))
    }
}

} // verus!
