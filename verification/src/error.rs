//! Decoder error codes.
use vstd::prelude::*;

verus! {

#[derive(Debug, Clone, Copy, PartialEq, Eq, Structural)]
pub enum LdacError {
    // Syntax / block level
    SyntaxBand,
    SyntaxGradA,
    SyntaxGradB,
    SyntaxGradC,
    SyntaxGradD,
    SyntaxGradE,
    SyntaxIdsf,
    SyntaxSpec,
    UnpackBlockFailed,
    UnpackBlockAlign,
    UnpackFrameAlign,
    FrameLengthOver,
    // Handle / API level
    IllSyncword,
    IllSamplingFreq,
    AssertSupSamplingFreq,
    AssertChannelConfig,
    InputBufferSize,
}

pub type LdacResult<T> = Result<T, LdacError>;

/// The text that describes each error.
pub open spec fn spec_message(e: LdacError) -> Seq<char> {
    match e {
        LdacError::SyntaxBand => "invalid band count"@,
        LdacError::SyntaxGradA => "gradient qu_l out of range"@,
        LdacError::SyntaxGradB => "gradient qu_h out of range"@,
        LdacError::SyntaxGradC => "gradient qu_h < qu_l"@,
        LdacError::SyntaxGradD => "gradient qu_l (mode!=0) out of range"@,
        LdacError::SyntaxGradE => "nadjqus > nqus"@,
        LdacError::SyntaxIdsf => "scale-factor index out of range"@,
        LdacError::SyntaxSpec => "spectrum codeword out of range"@,
        LdacError::UnpackBlockFailed => "block unpack failed"@,
        LdacError::UnpackBlockAlign => "block alignment padding not zero"@,
        LdacError::UnpackFrameAlign => "frame fill-code mismatch"@,
        LdacError::FrameLengthOver => "bitstream overran frame length"@,
        LdacError::IllSyncword => "bad syncword"@,
        LdacError::IllSamplingFreq => "unsupported sampling frequency"@,
        LdacError::AssertSupSamplingFreq => "unsupported sampling rate in header"@,
        LdacError::AssertChannelConfig => "unsupported channel config in header"@,
        LdacError::InputBufferSize => "input buffer too small"@,
    }
}

impl LdacError {
    /// The text that describes the error.
    pub fn message(&self) -> (r: &'static str)
        ensures
            r@ == spec_message(*self),
    {
        match self {
            LdacError::SyntaxBand => "invalid band count",
            LdacError::SyntaxGradA => "gradient qu_l out of range",
            LdacError::SyntaxGradB => "gradient qu_h out of range",
            LdacError::SyntaxGradC => "gradient qu_h < qu_l",
            LdacError::SyntaxGradD => "gradient qu_l (mode!=0) out of range",
            LdacError::SyntaxGradE => "nadjqus > nqus",
            LdacError::SyntaxIdsf => "scale-factor index out of range",
            LdacError::SyntaxSpec => "spectrum codeword out of range",
            LdacError::UnpackBlockFailed => "block unpack failed",
            LdacError::UnpackBlockAlign => "block alignment padding not zero",
            LdacError::UnpackFrameAlign => "frame fill-code mismatch",
            LdacError::FrameLengthOver => "bitstream overran frame length",
            LdacError::IllSyncword => "bad syncword",
            LdacError::IllSamplingFreq => "unsupported sampling frequency",
            LdacError::AssertSupSamplingFreq => "unsupported sampling rate in header",
            LdacError::AssertChannelConfig => "unsupported channel config in header",
            LdacError::InputBufferSize => "input buffer too small",
        }
    }

    /// The text that describes the error, as an owned string.
    pub fn to_string(&self) -> (r: String)
        ensures
            r@ == spec_message(*self),
    {
        self.message().to_owned()
    }
}


} // verus!
