//! The decoder handle behind the C-style `ldacBT_*` interface: error-code
//! bookkeeping, initialisation parameters and the outcome of a decode
//! request.  The raw-pointer shell around it lives with the caller.
use vstd::prelude::*;
use crate::decoder::{ChannelMode, LdacDecoder, spec_sfid, spec_cci, spec_decode_outcome, spec_mode_id};
use crate::error::LdacError;
use crate::setpcm::{SampleFormat, spec_word_len};
use crate::tables::{CodecTables, spec_nch};

verus! {

pub const LDACBT_ERR_NONE: i32 = 0;
pub const LDACBT_ERR_DEC_CONFIG_UPDATED: i32 = 40;
pub const LDACBT_ERR_FATAL: i32 = 256;
pub const LDACBT_ERR_SYNTAX_BAND: i32 = 260;
pub const LDACBT_ERR_SYNTAX_GRAD_A: i32 = 261;
pub const LDACBT_ERR_SYNTAX_GRAD_B: i32 = 262;
pub const LDACBT_ERR_SYNTAX_GRAD_C: i32 = 263;
pub const LDACBT_ERR_SYNTAX_GRAD_D: i32 = 264;
pub const LDACBT_ERR_SYNTAX_GRAD_E: i32 = 265;
pub const LDACBT_ERR_SYNTAX_IDSF: i32 = 266;
pub const LDACBT_ERR_SYNTAX_SPEC: i32 = 267;
pub const LDACBT_ERR_ILL_SYNCWORD: i32 = 516;
pub const LDACBT_ERR_ILL_SMPL_FORMAT: i32 = 517;
pub const LDACBT_ERR_ASSERT_SUP_SAMPLING_FREQ: i32 = 531;
pub const LDACBT_ERR_ASSERT_CHANNEL_CONFIG: i32 = 533;
pub const LDACBT_ERR_ASSERT_CHANNEL_MODE: i32 = 539;
pub const LDACBT_ERR_INPUT_BUFFER_SIZE: i32 = 571;
pub const LDACBT_ERR_UNPACK_BLOCK_FAILED: i32 = 572;
pub const LDACBT_ERR_UNPACK_BLOCK_ALIGN: i32 = 573;
pub const LDACBT_ERR_UNPACK_FRAME_ALIGN: i32 = 574;
pub const LDACBT_ERR_FRAME_LENGTH_OVER: i32 = 575;
pub const LDACBT_ERR_HANDLE_NOT_INIT: i32 = 1000;
pub const LDACBT_ERR_ILL_SAMPLING_FREQ: i32 = 1025;
pub const LDACBT_ERR_FATAL_HANDLE: i32 = 256;

pub const LDACBT_CHANNEL_MODE_STEREO: i32 = 0x01;
pub const LDACBT_CHANNEL_MODE_DUAL_CHANNEL: i32 = 0x02;
pub const LDACBT_CHANNEL_MODE_MONO: i32 = 0x04;

pub const LDACBT_SMPL_FMT_S16: i32 = 0x2;
pub const LDACBT_SMPL_FMT_S24: i32 = 0x3;
pub const LDACBT_SMPL_FMT_S32: i32 = 0x4;
pub const LDACBT_SMPL_FMT_F32: i32 = 0x5;

pub const LDACBT_LIB_VER_MAJOR: i32 = 2;
pub const LDACBT_LIB_VER_MINOR: i32 = 0;
pub const LDACBT_LIB_VER_BRANCH: i32 = 33;

/// Interface error code of each decoder error.
pub open spec fn spec_map_err(e: LdacError) -> i32 {
    match e {
        LdacError::SyntaxBand => LDACBT_ERR_SYNTAX_BAND,
        LdacError::SyntaxGradA => LDACBT_ERR_SYNTAX_GRAD_A,
        LdacError::SyntaxGradB => LDACBT_ERR_SYNTAX_GRAD_B,
        LdacError::SyntaxGradC => LDACBT_ERR_SYNTAX_GRAD_C,
        LdacError::SyntaxGradD => LDACBT_ERR_SYNTAX_GRAD_D,
        LdacError::SyntaxGradE => LDACBT_ERR_SYNTAX_GRAD_E,
        LdacError::SyntaxIdsf => LDACBT_ERR_SYNTAX_IDSF,
        LdacError::SyntaxSpec => LDACBT_ERR_SYNTAX_SPEC,
        LdacError::UnpackBlockFailed => LDACBT_ERR_UNPACK_BLOCK_FAILED,
        LdacError::UnpackBlockAlign => LDACBT_ERR_UNPACK_BLOCK_ALIGN,
        LdacError::UnpackFrameAlign => LDACBT_ERR_UNPACK_FRAME_ALIGN,
        LdacError::FrameLengthOver => LDACBT_ERR_FRAME_LENGTH_OVER,
        LdacError::IllSyncword => LDACBT_ERR_ILL_SYNCWORD,
        LdacError::IllSamplingFreq => LDACBT_ERR_ILL_SAMPLING_FREQ,
        LdacError::AssertSupSamplingFreq => LDACBT_ERR_ASSERT_SUP_SAMPLING_FREQ,
        LdacError::AssertChannelConfig => LDACBT_ERR_ASSERT_CHANNEL_CONFIG,
        LdacError::InputBufferSize => LDACBT_ERR_INPUT_BUFFER_SIZE,
    }
}

/// Law: distinct decoder errors have distinct interface codes.
pub proof fn lemma_map_err_injective(e1: LdacError, e2: LdacError)
    requires
        spec_map_err(e1) == spec_map_err(e2),
    ensures
        e1 == e2,
{
}

/// The interface error code of a decoder error.
pub fn map_err(e: LdacError) -> (r: i32)
    ensures
        r == spec_map_err(e),
{
    match e {
        LdacError::SyntaxBand => LDACBT_ERR_SYNTAX_BAND,
        LdacError::SyntaxGradA => LDACBT_ERR_SYNTAX_GRAD_A,
        LdacError::SyntaxGradB => LDACBT_ERR_SYNTAX_GRAD_B,
        LdacError::SyntaxGradC => LDACBT_ERR_SYNTAX_GRAD_C,
        LdacError::SyntaxGradD => LDACBT_ERR_SYNTAX_GRAD_D,
        LdacError::SyntaxGradE => LDACBT_ERR_SYNTAX_GRAD_E,
        LdacError::SyntaxIdsf => LDACBT_ERR_SYNTAX_IDSF,
        LdacError::SyntaxSpec => LDACBT_ERR_SYNTAX_SPEC,
        LdacError::UnpackBlockFailed => LDACBT_ERR_UNPACK_BLOCK_FAILED,
        LdacError::UnpackBlockAlign => LDACBT_ERR_UNPACK_BLOCK_ALIGN,
        LdacError::UnpackFrameAlign => LDACBT_ERR_UNPACK_FRAME_ALIGN,
        LdacError::FrameLengthOver => LDACBT_ERR_FRAME_LENGTH_OVER,
        LdacError::IllSyncword => LDACBT_ERR_ILL_SYNCWORD,
        LdacError::IllSamplingFreq => LDACBT_ERR_ILL_SAMPLING_FREQ,
        LdacError::AssertSupSamplingFreq => LDACBT_ERR_ASSERT_SUP_SAMPLING_FREQ,
        LdacError::AssertChannelConfig => LDACBT_ERR_ASSERT_CHANNEL_CONFIG,
        LdacError::InputBufferSize => LDACBT_ERR_INPUT_BUFFER_SIZE,
    }
}

/// The library version, `major << 16 | minor << 8 | branch`.
pub fn get_version() -> (r: i32)
    ensures
        r == LDACBT_LIB_VER_MAJOR * 0x10000 + LDACBT_LIB_VER_MINOR * 0x100 + LDACBT_LIB_VER_BRANCH,
{
    proof {
        assert((2i32 << 16i32) | (0i32 << 8i32) | 33i32 == 0x20021) by (bit_vector);
    }
    (LDACBT_LIB_VER_MAJOR << 16) | (LDACBT_LIB_VER_MINOR << 8) | LDACBT_LIB_VER_BRANCH
}

/// Error code that a null handle reports.
pub fn null_handle_error_code() -> (r: i32)
    ensures
        r == LDACBT_ERR_FATAL_HANDLE * 0x400,
{
    proof {
        assert(256i32 << 10i32 == 0x40000) by (bit_vector);
    }
    LDACBT_ERR_FATAL_HANDLE << 10
}

/// Composite error code of an interface-level error `e`: `e << 20`.
pub open spec fn api_err_code(e: i32) -> i32 {
    (e * 0x100000) as i32
}

/// Composite error code of a library-level error `e`: `FATAL << 20 | e`.
pub open spec fn lib_err_code(e: i32) -> i32 {
    (LDACBT_ERR_FATAL * 0x100000 + e) as i32
}

/// Law: a composite error code splits back into its parts: an interface
/// error `e` sits above bit 20 with nothing below, a decoder error `e` sits
/// below bit 20 under the fatal code 256; and every decoder error's code is
/// below 2^20, so the two never collide.
pub proof fn lemma_error_code_parts(e: i32, err: LdacError)
    ensures
        0 <= e < 0x800 ==> api_err_code(e) / 0x100000 == e && api_err_code(e) % 0x100000 == 0,
        0 <= e < 0x100000 ==> lib_err_code(e) / 0x100000 == 256 && lib_err_code(e) % 0x100000 == e,
        0 < spec_map_err(err) < 0x100000,
        lib_err_code(spec_map_err(err)) != api_err_code(spec_map_err(err)),
{
}

/// Channel mode of an interface channel-mode id.
pub open spec fn spec_channel_mode(cm: i32) -> Option<ChannelMode> {
    if cm == LDACBT_CHANNEL_MODE_STEREO {
        Some(ChannelMode::Stereo)
    } else if cm == LDACBT_CHANNEL_MODE_DUAL_CHANNEL {
        Some(ChannelMode::DualChannel)
    } else if cm == LDACBT_CHANNEL_MODE_MONO {
        Some(ChannelMode::Mono)
    } else {
        None
    }
}

/// Law: the interface's channel-mode ids are those of the A2DP profile, so
/// `init_decode` with `mode.id()` sets up `mode`.
pub proof fn lemma_channel_mode_ids(mode: ChannelMode)
    ensures
        spec_channel_mode(spec_mode_id(mode) as i32) == Some(mode),
{
}

/// Sample format of an interface sample-format id.
pub open spec fn spec_sample_format(fmt: i32) -> Option<SampleFormat> {
    if fmt == LDACBT_SMPL_FMT_S16 {
        Some(SampleFormat::S16)
    } else if fmt == LDACBT_SMPL_FMT_S24 {
        Some(SampleFormat::S24)
    } else if fmt == LDACBT_SMPL_FMT_S32 {
        Some(SampleFormat::S32)
    } else if fmt == LDACBT_SMPL_FMT_F32 {
        Some(SampleFormat::F32)
    } else {
        None
    }
}

/// Law: the interface accepts exactly the sample-format ids 2 to 5, and no
/// two of them name the same format: 2, 3 and 4 name the 16, 24 and 32-bit
/// integer formats (of 2, 3 and 4 bytes) and 5 the float format, so an
/// accepted decode request reports the format its id names.
pub proof fn lemma_sample_format_ids(a: i32, b: i32)
    ensures
        spec_sample_format(a) is Some <==> 2 <= a <= 5,
        spec_sample_format(a) is Some && spec_sample_format(a) == spec_sample_format(b) ==> a == b,
        spec_sample_format(a) is Some ==> spec_word_len(spec_sample_format(a)->Some_0) == (if a == 5 { 4 } else { a }),
        spec_sample_format(a) == Some(SampleFormat::F32) <==> a == 5,
{
}

/// The state behind an interface handle.
pub struct Handle {
    dec: Option<LdacDecoder>,
    error_code: i32,
    init_cm: Option<ChannelMode>,
}

impl Handle {
    /// The decoder, once initialised.
    pub closed spec fn spec_dec(&self) -> Option<LdacDecoder> {
        self.dec
    }

    /// The composite error code of the last operation.
    pub closed spec fn spec_error_code(&self) -> i32 {
        self.error_code
    }

    /// The channel mode of the last successful initialisation.
    pub closed spec fn spec_init_cm(&self) -> Option<ChannelMode> {
        self.init_cm
    }

    /// A decoder the handle holds is well formed.
    pub closed spec fn wf(&self) -> bool {
        self.dec matches Some(d) ==> d.wf()
    }

    /// An uninitialised handle with no error.
    pub fn new() -> (r: Self)
        ensures
            r.wf(),
            r.spec_dec() is None,
            r.spec_error_code() == LDACBT_ERR_NONE,
            r.spec_init_cm() is None,
    {
        Handle { dec: None, error_code: LDACBT_ERR_NONE, init_cm: None }
    }

    fn set_api_err(&mut self, e: i32)
        requires
            0 <= e < 0x800,
        ensures
            final(self).spec_error_code() == api_err_code(e),
            final(self).dec == old(self).dec,
            final(self).init_cm == old(self).init_cm,
    {
        proof {
            assert(0 <= e < 0x800 ==> e << 20i32 == e * 0x100000) by (bit_vector);
        }
        self.error_code = e << 20;
    }

    fn set_lib_err(&mut self, e: i32)
        requires
            0 <= e < 0x100000,
        ensures
            final(self).spec_error_code() == lib_err_code(e),
            final(self).dec == old(self).dec,
            final(self).init_cm == old(self).init_cm,
    {
        proof {
            assert(0 <= e < 0x100000 ==> (256i32 << 20i32) | e == 256 * 0x100000 + e) by (bit_vector);
        }
        self.error_code = (LDACBT_ERR_FATAL << 20) | e;
    }

    /// The composite error code of the last operation.
    pub fn error_code(&self) -> (r: i32)
        ensures
            r == self.spec_error_code(),
    {
        self.error_code
    }

    /// The decoder, when the handle has been initialised.
    pub fn decoder(&self) -> (r: Option<&LdacDecoder>)
        ensures
            r == (match self.spec_dec() { Some(d) => Some(&d), None => None::<&LdacDecoder> }),
    {
        match &self.dec {
            Some(d) => Some(d),
            None => None,
        }
    }

    /// Drop the decoder and clear the error state.
    pub fn close(&mut self)
        ensures
            final(self).wf(),
            final(self).spec_dec() is None,
            final(self).spec_error_code() == LDACBT_ERR_NONE,
            final(self).spec_init_cm() is None,
    {
        *self = Handle::new();
    }

    /// The configured sampling rate, or -1 (recording "not initialised")
    /// when there is no decoder.
    pub fn sampling_freq(&mut self) -> (r: i32)
        requires
            old(self).wf(),
        ensures
            final(self).wf(),
            final(self).spec_dec() == old(self).spec_dec(),
            final(self).spec_init_cm() == old(self).spec_init_cm(),
            match old(self).spec_dec() {
                Some(d) => r == d.spec_sample_rate() && final(self).spec_error_code() == old(self).spec_error_code(),
                None => r == -1 && final(self).spec_error_code() == api_err_code(LDACBT_ERR_HANDLE_NOT_INIT),
            },
    {
        match &self.dec {
            Some(d) => {
                proof { d.lemma_invariants(); }
                d.sample_rate() as i32
            },
            None => {
                self.set_api_err(LDACBT_ERR_HANDLE_NOT_INIT);
                -1
            },
        }
    }

    /// The bit-rate of the last decoded frame, or -1 (recording "not
    /// initialised") when there is no decoder.
    pub fn bitrate(&mut self) -> (r: i32)
        requires
            old(self).wf(),
        ensures
            final(self).wf(),
            final(self).spec_dec() == old(self).spec_dec(),
            final(self).spec_init_cm() == old(self).spec_init_cm(),
            match old(self).spec_dec() {
                Some(d) => r == d.spec_bitrate() as i32 && final(self).spec_error_code() == old(self).spec_error_code(),
                None => r == -1 && final(self).spec_error_code() == api_err_code(LDACBT_ERR_HANDLE_NOT_INIT),
            },
    {
        match &self.dec {
            Some(d) => d.bitrate() as i32,
            None => {
                self.set_api_err(LDACBT_ERR_HANDLE_NOT_INIT);
                -1
            },
        }
    }

    /// Initialise the handle for decoding with interface channel mode `cm`
    /// and sampling rate `sf`; 0 on success, -1 with the error recorded.
    pub fn init_decode(&mut self, cm: i32, sf: i32) -> (r: i32)
        requires
            old(self).wf(),
        ensures
            final(self).wf(),
            match spec_channel_mode(cm) {
                None => r == -1 && final(self).spec_error_code() == api_err_code(LDACBT_ERR_ASSERT_CHANNEL_MODE)
                    && final(self).spec_dec() == old(self).spec_dec() && final(self).spec_init_cm() == old(self).spec_init_cm(),
                Some(mode) => {
                    let rate: u32 = if sf < 0 { 0 } else { sf as u32 };
                    if spec_sfid(rate) is Some {
                        &&& r == 0
                        &&& final(self).spec_error_code() == LDACBT_ERR_NONE
                        &&& final(self).spec_init_cm() == Some(mode)
                        &&& final(self).spec_dec() matches Some(d)
                            && d.is_fresh(spec_sfid(rate)->Some_0, spec_cci(mode)) && d.spec_sample_rate() == rate
                    } else {
                        &&& r == -1
                        &&& final(self).spec_error_code() == api_err_code(LDACBT_ERR_ILL_SAMPLING_FREQ)
                        &&& final(self).spec_dec() == old(self).spec_dec()
                        &&& final(self).spec_init_cm() == old(self).spec_init_cm()
                    }
                },
            },
    {
        let mode = if cm == LDACBT_CHANNEL_MODE_STEREO {
            ChannelMode::Stereo
        } else if cm == LDACBT_CHANNEL_MODE_DUAL_CHANNEL {
            ChannelMode::DualChannel
        } else if cm == LDACBT_CHANNEL_MODE_MONO {
            ChannelMode::Mono
        } else {
            self.set_api_err(LDACBT_ERR_ASSERT_CHANNEL_MODE);
            return -1;
        };
        let rate: u32 = if sf < 0 { 0 } else { sf as u32 };
        match LdacDecoder::new(mode, rate) {
            Ok(d) => {
                self.dec = Some(d);
                self.init_cm = Some(mode);
                self.error_code = LDACBT_ERR_NONE;
                0
            },
            Err(e) => {
                let code = map_err(e);
                self.set_api_err(code);
                -1
            },
        }
    }

    /// Decide a decode request for stream `bs` in interface sample format
    /// `fmt`, `args_ok` telling whether the caller's buffers and byte count
    /// were usable.  Runs the decoder on an accepted request and records
    /// the outcome's error code (flagging a stream that re-configured the
    /// decoder, that is changed its sampling-rate or channel-configuration
    /// id); returns the bytes consumed and the output format, or `Err` for
    /// the -1 status.
    pub fn decode(&mut self, tables: &CodecTables, bs: &[u8], args_ok: bool, fmt: i32)
        -> (r: Result<(usize, SampleFormat), ()>)
        requires
            old(self).wf(),
            tables.wf(),
        ensures
            final(self).wf(),
            final(self).spec_init_cm() == old(self).spec_init_cm(),
            match old(self).spec_dec() {
                None => r is Err && final(self).spec_error_code() == api_err_code(LDACBT_ERR_HANDLE_NOT_INIT)
                    && final(self).spec_dec() is None,
                Some(d0) => if !args_ok {
                    r is Err && final(self).spec_error_code() == api_err_code(LDACBT_ERR_FATAL)
                        && final(self).spec_dec() == old(self).spec_dec()
                } else if spec_sample_format(fmt) is None {
                    r is Err && final(self).spec_error_code() == api_err_code(LDACBT_ERR_ILL_SMPL_FORMAT)
                        && final(self).spec_dec() == old(self).spec_dec()
                } else {
                    final(self).spec_dec() matches Some(d1) && exists|res: crate::error::LdacResult<usize>| {
                        &&& #[trigger] spec_decode_outcome(*tables, bs@, d0, d1, res)
                        &&& match res {
                            Ok(used) => r == Ok::<(usize, SampleFormat), ()>((used, spec_sample_format(fmt)->Some_0))
                                && final(self).spec_error_code() == (
                                    if d1.spec_config() != d0.spec_config() {
                                        api_err_code(LDACBT_ERR_DEC_CONFIG_UPDATED)
                                    } else {
                                        LDACBT_ERR_NONE
                                    }),
                            Err(e) => r is Err && final(self).spec_error_code() == lib_err_code(spec_map_err(e)),
                        }
                    }
                },
            },
    {
        let d = match &mut self.dec {
            Some(d) => d,
            None => {
                self.set_api_err(LDACBT_ERR_HANDLE_NOT_INIT);
                return Err(());
            },
        };
        if !args_ok {
            self.set_api_err(LDACBT_ERR_FATAL);
            return Err(());
        }
        let f = if fmt == LDACBT_SMPL_FMT_S16 {
            SampleFormat::S16
        } else if fmt == LDACBT_SMPL_FMT_S24 {
            SampleFormat::S24
        } else if fmt == LDACBT_SMPL_FMT_S32 {
            SampleFormat::S32
        } else if fmt == LDACBT_SMPL_FMT_F32 {
            SampleFormat::F32
        } else {
            self.set_api_err(LDACBT_ERR_ILL_SMPL_FORMAT);
            return Err(());
        };
        let ghost d0 = *d;
        let prev = d.config();
        let res = d.decode(tables, bs);
        let now = d.config();
        proof {
            let d1 = self.dec->Some_0;
            assert(spec_decode_outcome(*tables, bs@, d0, d1, res));
            assert(now == d1.spec_config());
        }
        match res {
            Ok(used) => {
                if now.0 != prev.0 || now.1 != prev.1 {
                    self.set_api_err(LDACBT_ERR_DEC_CONFIG_UPDATED);
                } else {
                    self.error_code = LDACBT_ERR_NONE;
                }
                Ok((used, f))
            },
            Err(e) => {
                let code = map_err(e);
                self.set_lib_err(code);
                Err(())
            },
        }
    }
}

} // verus!
