//! The failures that the library reports.

use vstd::prelude::*;
use vstd::string::StringExecFns;
use crate::text::{decimal, push_decimal};

verus! {

/// Why a sequence of frame start indices was rejected.
#[derive(Debug, Clone, Copy, PartialEq, Eq)]
pub enum FrameError {
    /// Some index is larger than the one after it.
    FrameIndicesNotSorted,
    /// The index does not lie inside the sample buffer.
    FrameIndexOutOfBounds(usize),
    /// The index stands at both of the two neighbouring positions.
    DuplicateFrameIndices(usize, usize, usize),
}

/// Why the samples of a WAV file cannot be used.
#[derive(Debug, Clone, Copy, PartialEq, Eq)]
pub enum WavFileError {
    /// Integer samples of a width other than 16, 24 or 32 bits.
    UnsupportedBitDepth(u16),
    /// Neither mono nor stereo.
    UnsupportedChannelCount(u16),
}

impl FrameError {
    /// What the error says.
    pub open spec fn text(self) -> Seq<char> {
        match self {
            FrameError::FrameIndicesNotSorted => "`indices` must be sorted in ascending order"@,
            FrameError::FrameIndexOutOfBounds(index) => "index `"@ + decimal(index as nat)
                + "` is out of bounds"@,
            FrameError::DuplicateFrameIndices(index, first, second) => "duplicate index `"@
                + decimal(index as nat) + "` at positions "@ + decimal(first as nat) + " and "@
                + decimal(second as nat) + " in `indices`"@,
        }
    }

    /// Writes the error out for a reader.
    pub fn to_string(&self) -> (s: String)
        ensures
            s@ == self.text(),
    {
        match *self {
            FrameError::FrameIndicesNotSorted => String::from_str(
                "`indices` must be sorted in ascending order",
            ),
            FrameError::FrameIndexOutOfBounds(index) => {
                let mut s = String::from_str("index `");
                push_decimal(&mut s, index as u64);
                s.append("` is out of bounds");
                s
            },
            FrameError::DuplicateFrameIndices(index, first, second) => {
                let mut s = String::from_str("duplicate index `");
                push_decimal(&mut s, index as u64);
                s.append("` at positions ");
                push_decimal(&mut s, first as u64);
                s.append(" and ");
                push_decimal(&mut s, second as u64);
                s.append(" in `indices`");
                s
            },
        }
    }
}

impl WavFileError {
    /// What the error says.
    pub open spec fn text(self) -> Seq<char> {
        match self {
            WavFileError::UnsupportedBitDepth(bits) => "unsupported bit depth `"@ + decimal(
                bits as nat,
            ) + "`, expected 16, 24, or 32"@,
            WavFileError::UnsupportedChannelCount(channels) => "unsupported channel count `"@
                + decimal(channels as nat) + "`, expected mono or stereo audio"@,
        }
    }

    /// Writes the error out for a reader.
    pub fn to_string(&self) -> (s: String)
        ensures
            s@ == self.text(),
    {
        match *self {
            WavFileError::UnsupportedBitDepth(bits) => {
                let mut s = String::from_str("unsupported bit depth `");
                push_decimal(&mut s, bits as u64);
                s.append("`, expected 16, 24, or 32");
                s
            },
            WavFileError::UnsupportedChannelCount(channels) => {
                let mut s = String::from_str("unsupported channel count `");
                push_decimal(&mut s, channels as u64);
                s.append("`, expected mono or stereo audio");
                s
            },
        }
    }
}

} // verus!
