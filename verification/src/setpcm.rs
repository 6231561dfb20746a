//! Output PCM sample formats.
use vstd::prelude::*;

verus! {

#[derive(Debug, Clone, Copy, PartialEq, Eq, Structural)]
pub enum SampleFormat {
    S16,
    S24,
    S32,
    F32,
}

/// Bytes per sample of each format.
pub open spec fn spec_word_len(fmt: SampleFormat) -> usize {
    match fmt {
        SampleFormat::S16 => 2,
        SampleFormat::S24 => 3,
        SampleFormat::S32 => 4,
        SampleFormat::F32 => 4,
    }
}

impl SampleFormat {
    /// Bytes per sample.
    pub fn word_len(self) -> (r: usize)
        ensures
            r == spec_word_len(self),
    {
        match self {
            SampleFormat::S16 => 2,
            SampleFormat::S24 => 3,
            SampleFormat::S32 | SampleFormat::F32 => 4,
        }
    }
}

} // verus!
