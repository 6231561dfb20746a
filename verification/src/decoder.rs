//! The decoder: configuration, per-frame decoding decisions and PCM
//! interleaving.
use vstd::prelude::*;
use crate::consts::{LDAC_CHCONFIGID_MN, LDAC_CHCONFIGID_DL, LDAC_CHCONFIGID_ST, LDAC_FRMHDRBYTES, LDAC_MAXNCH,
    LDAC_NSUPSMPLRATEID};
use crate::error::{LdacError, LdacResult};
use crate::setpcm::{SampleFormat, spec_word_len};
use crate::sfinfo::{SfInfo, zero_channel, initial_blocks, initial_channels, AbModel, AcModel};
use crate::tables::{CodecTables, spec_nch, spec_nblocks, spec_framesmpls, spec_ln_framesmpls, spec_smplrate, smplrate,
    framesmpls, ln_framesmpls, nch};
use crate::unpack::{parse_frame_header, unpack_raw_data_frame, spec_unpack_frame, header_fields_ok, idsf_ok, block_ready,
    lemma_header_ranges, FrameHeader};
use crate::bitreader::field_at;
use crate::bitalloc::grad_params_ok;
use crate::consts::{LDAC_SYNCWORD, LDAC_MAXGRADQU, LDAC_MAXNQUS, LDAC_MAXLSU};

verus! {

/// Channel mode as specified by the Bluetooth A2DP LDAC profile.
#[derive(Debug, Clone, Copy, PartialEq, Eq, Structural)]
pub enum ChannelMode {
    Mono,
    DualChannel,
    Stereo,
}

/// Channel-configuration id of a channel mode.
pub open spec fn spec_cci(cm: ChannelMode) -> usize {
    match cm {
        ChannelMode::Stereo => LDAC_CHCONFIGID_ST,
        ChannelMode::DualChannel => LDAC_CHCONFIGID_DL,
        ChannelMode::Mono => LDAC_CHCONFIGID_MN,
    }
}

/// The channel-mode id of the A2DP LDAC profile.
pub open spec fn spec_mode_id(cm: ChannelMode) -> u8 {
    match cm {
        ChannelMode::Mono => 0x04,
        ChannelMode::DualChannel => 0x02,
        ChannelMode::Stereo => 0x01,
    }
}

impl ChannelMode {
    /// The channel-mode id of the A2DP LDAC profile: 0x04 for mono, 0x02
    /// for dual channel, 0x01 for stereo.
    pub fn id(self) -> (r: u8)
        ensures
            r == spec_mode_id(self),
    {
        match self {
            ChannelMode::Mono => 0x04,
            ChannelMode::DualChannel => 0x02,
            ChannelMode::Stereo => 0x01,
        }
    }

    /// The channel-configuration id of the mode.
    pub fn to_cci(self) -> (r: usize)
        ensures
            r == spec_cci(self),
    {
        match self {
            ChannelMode::Stereo => LDAC_CHCONFIGID_ST,
            ChannelMode::DualChannel => LDAC_CHCONFIGID_DL,
            ChannelMode::Mono => LDAC_CHCONFIGID_MN,
        }
    }
}

/// Sampling-rate id of a supported sampling rate.
pub open spec fn spec_sfid(sample_rate: u32) -> Option<usize> {
    if sample_rate == 44_100 {
        Some(0)
    } else if sample_rate == 48_000 {
        Some(1)
    } else if sample_rate == 88_200 {
        Some(2)
    } else if sample_rate == 96_000 {
        Some(3)
    } else {
        None
    }
}

/// The frame header that a stream carries.
pub open spec fn spec_header(s: Seq<u8>) -> FrameHeader {
    FrameHeader {
        smplrate_id: field_at(s, 8, 3) as usize,
        chconfig_id: field_at(s, 11, 2) as usize,
        frame_length: (field_at(s, 13, 9) + 1) as usize,
        frame_status: field_at(s, 22, 2) as i32,
    }
}

/// Bit-rate in kbit/s of a frame of `total` bytes.
pub open spec fn spec_bitrate(total: int, sample_rate: int, frm_samples: int) -> int {
    ((total * sample_rate) / frm_samples) / 125
}

/// What decoding `s` does to decoder `old`, leading to `new` and result `r`:
/// refusals of a short stream, a missing syncword and unsupported header
/// ids leave the decoder as it was; otherwise the decoder takes the
/// header's configuration (fresh when it differs), frame length and status,
/// refuses a stream shorter than the frame, and parses the raw data frame,
/// whose success yields the bytes consumed and the frame's bit-rate.
pub open spec fn spec_decode_outcome(t: CodecTables, s: Seq<u8>, old: LdacDecoder, new: LdacDecoder,
    r: LdacResult<usize>) -> bool
{
    if s.len() <= 4 {
        r == Err::<usize, LdacError>(LdacError::InputBufferSize) && new == old
    } else if s[0] != LDAC_SYNCWORD {
        r == Err::<usize, LdacError>(LdacError::IllSyncword) && new == old
    } else {
        let h = spec_header(s);
        let sr = h.smplrate_id as int;
        let cci = h.chconfig_id as int;
        if sr > 3 {
            r == Err::<usize, LdacError>(LdacError::AssertSupSamplingFreq) && new == old
        } else if cci > 2 {
            r == Err::<usize, LdacError>(LdacError::AssertChannelConfig) && new == old
        } else {
            let reinit = (h.smplrate_id, h.chconfig_id) != old.spec_config();
            let abs0 = if reinit { initial_blocks(cci) } else { old.spec_sfinfo().abs() };
            let acs0 = if reinit { initial_channels(cci) } else { old.spec_sfinfo().acs() };
            let raw = s.subrange(LDAC_FRMHDRBYTES as int, s.len() as int);
            &&& new.spec_config() == (h.smplrate_id, h.chconfig_id)
            &&& new.spec_sample_rate() == spec_smplrate(sr)
            &&& new.spec_channels() == spec_nch(cci)
            &&& new.spec_frame_samples() == spec_framesmpls(sr)
            &&& new.spec_nlnn() == spec_ln_framesmpls(sr)
            &&& new.spec_sfinfo().cfg.frame_length == h.frame_length
            &&& new.spec_sfinfo().cfg.frame_status == h.frame_status
            &&& r is Err ==> new.spec_bitrate() == (if reinit { 0 } else { old.spec_bitrate() })
            &&& if raw.len() < h.frame_length {
                r == Err::<usize, LdacError>(LdacError::InputBufferSize)
                    && new.spec_sfinfo().abs() == abs0 && new.spec_sfinfo().acs() == acs0
            } else {
                let (abs, acs, res) = spec_unpack_frame(t, raw, sr, h.frame_length as int, abs0, acs0);
                &&& new.spec_sfinfo().abs() == abs
                &&& new.spec_sfinfo().acs() == acs
                &&& match res {
                    Ok(n) => {
                        &&& r == Ok::<usize, LdacError>((n + LDAC_FRMHDRBYTES) as usize)
                        &&& new.spec_bitrate() == spec_bitrate(n + LDAC_FRMHDRBYTES, spec_smplrate(sr) as int,
                                spec_framesmpls(sr) as int)
                    },
                    Err(e) => r == Err::<usize, LdacError>(e),
                }
            }
        }
    }
}

/// LDAC decoder state: the configuration, the parsed frame and the
/// quantities the caller can query between frames.
pub struct LdacDecoder {
    sfinfo: SfInfo,
    nlnn: usize,
    sample_rate: u32,
    channels: u8,
    frm_samples: u32,
    bitrate: u32,
}

impl LdacDecoder {
    /// The configured sampling rate.
    pub closed spec fn spec_sample_rate(&self) -> u32 {
        self.sample_rate
    }

    /// The configured channel count.
    pub closed spec fn spec_channels(&self) -> u8 {
        self.channels
    }

    /// The samples per channel of a frame.
    pub closed spec fn spec_frame_samples(&self) -> u32 {
        self.frm_samples
    }

    /// The bit-rate of the last decoded frame.
    pub closed spec fn spec_bitrate(&self) -> u32 {
        self.bitrate
    }

    /// Base-two logarithm of the frame samples.
    pub closed spec fn spec_nlnn(&self) -> usize {
        self.nlnn
    }

    /// The parsed frame state.
    pub closed spec fn spec_sfinfo(&self) -> &SfInfo {
        &self.sfinfo
    }

    /// The configured sampling-rate and channel-configuration ids.
    pub closed spec fn spec_config(&self) -> (usize, usize) {
        (self.sfinfo.cfg.smplrate_id, self.sfinfo.cfg.chconfig_id)
    }

    /// The quantities a decoder keeps agree with its configuration.
    pub closed spec fn wf(&self) -> bool {
        let sfid = self.sfinfo.cfg.smplrate_id as int;
        let cci = self.sfinfo.cfg.chconfig_id as int;
        &&& self.sfinfo.wf()
        &&& self.sample_rate == spec_smplrate(sfid)
        &&& self.frm_samples == spec_framesmpls(sfid)
        &&& self.nlnn == spec_ln_framesmpls(sfid)
        &&& self.channels == spec_nch(cci)
        &&& self.sfinfo.cfg.frame_length <= 512
    }

    /// A decoder just created for sampling-rate id `sfid` and channel
    /// configuration `cci`: the rate's quantities, the configuration's
    /// channels, no bit-rate yet, the largest frame length of a 165-byte
    /// channel, and every block and channel zeroed.
    pub open spec fn is_fresh(self, sfid: usize, cci: usize) -> bool {
        &&& self.spec_sample_rate() == spec_smplrate(sfid as int)
        &&& self.spec_channels() == spec_nch(cci as int)
        &&& self.spec_frame_samples() == spec_framesmpls(sfid as int)
        &&& self.spec_nlnn() == spec_ln_framesmpls(sfid as int)
        &&& self.spec_bitrate() == 0
        &&& self.spec_config() == (sfid, cci)
        &&& self.spec_sfinfo().cfg.frame_length == 165 * spec_nch(cci as int) - LDAC_FRMHDRBYTES
        &&& self.spec_sfinfo().cfg.frame_status == 0
        &&& self.spec_sfinfo().abs() == initial_blocks(cci as int)
        &&& self.spec_sfinfo().acs() == initial_channels(cci as int)
    }

    /// Create a new decoder for the given channel mode and sampling rate,
    /// which must be one of 44 100, 48 000, 88 200 or 96 000 Hz.
    pub fn new(cm: ChannelMode, sample_rate: u32) -> (r: LdacResult<Self>)
        ensures
            spec_sfid(sample_rate) is None <==> r == Err::<Self, LdacError>(LdacError::IllSamplingFreq),
            r is Ok <==> spec_sfid(sample_rate) is Some,
            r matches Ok(d) ==> d.wf() && d.is_fresh(spec_sfid(sample_rate)->Some_0, spec_cci(cm))
                && d.spec_sample_rate() == sample_rate,
    {
        let sfid: usize = if sample_rate == 44_100 {
            0
        } else if sample_rate == 48_000 {
            1
        } else if sample_rate == 88_200 {
            2
        } else if sample_rate == 96_000 {
            3
        } else {
            return Err(LdacError::IllSamplingFreq);
        };
        let cci = cm.to_cci();
        let nlnn = ln_framesmpls(sfid);
        let frm_samples = framesmpls(sfid);
        let channels = nch(cci);
        let mut sfinfo = SfInfo::new(sfid, cci, 165 * channels as usize - LDAC_FRMHDRBYTES, 0);
        sfinfo.init_decode();
        Ok(LdacDecoder { sfinfo, nlnn, sample_rate, channels, frm_samples, bitrate: 0 })
    }

    /// Number of audio channels the decoder is configured for.
    pub fn channels(&self) -> (r: u8)
        ensures
            r == self.spec_channels(),
    {
        self.channels
    }

    /// Configured sampling rate in Hz.
    pub fn sample_rate(&self) -> (r: u32)
        ensures
            r == self.spec_sample_rate(),
    {
        self.sample_rate
    }

    /// Number of PCM samples produced per frame per channel.
    pub fn frame_samples(&self) -> (r: u32)
        ensures
            r == self.spec_frame_samples(),
    {
        self.frm_samples
    }

    /// Bit-rate of the most recently decoded transport frame in kbit/s.
    pub fn bitrate(&self) -> (r: u32)
        ensures
            r == self.spec_bitrate(),
    {
        self.bitrate
    }

    /// Base-two logarithm of the frame length in samples.
    pub fn nlnn(&self) -> (r: usize)
        ensures
            r == self.spec_nlnn(),
    {
        self.nlnn
    }

    /// The parsed frame state.
    pub fn sfinfo(&self) -> (r: &SfInfo)
        ensures
            r == self.spec_sfinfo(),
    {
        &self.sfinfo
    }

    /// Decode the integer part of one LDAC transport frame: check and apply
    /// the 3-byte frame header (re-initialising the decoder when the stream's
    /// configuration differs from the current one), parse the raw data frame
    /// that follows into the decoder state, and record the frame's bit-rate.
    /// Returns the number of bytes consumed, header included.
    pub fn decode(&mut self, tables: &CodecTables, stream: &[u8]) -> (r: LdacResult<usize>)
        requires
            tables.wf(),
            old(self).wf(),
        ensures
            final(self).wf(),
            spec_decode_outcome(*tables, stream@, *old(self), *final(self), r),
            r matches Ok(n) ==> n == spec_header(stream@).frame_length + LDAC_FRMHDRBYTES,
            r is Ok ==> forall|c: int| 0 <= c < final(self).spec_sfinfo().ac@.len() ==>
                idsf_ok(#[trigger] final(self).spec_sfinfo().ac@[c]@.idsf),
            r is Ok ==> forall|b: int| 0 <= b < final(self).spec_sfinfo().ab@.len() ==>
                block_ready(#[trigger] final(self).spec_sfinfo().ab@[b]@)
                    && grad_params_ok(final(self).spec_sfinfo().ab@[b]@),
            final(self).spec_config() == old(self).spec_config() ==> {
                &&& final(self).spec_sample_rate() == old(self).spec_sample_rate()
                &&& final(self).spec_channels() == old(self).spec_channels()
                &&& final(self).spec_frame_samples() == old(self).spec_frame_samples()
                &&& final(self).spec_nlnn() == old(self).spec_nlnn()
            },
    {
        if stream.len() <= 4 {
            return Err(LdacError::InputBufferSize);
        }
        let hdr = match parse_frame_header(stream) {
            Some(h) => h,
            None => {
                return Err(LdacError::IllSyncword);
            },
        };
        proof {
            lemma_header_ranges(hdr, stream@);
        }
        if hdr.smplrate_id > 3 {
            return Err(LdacError::AssertSupSamplingFreq);
        }
        if hdr.chconfig_id > 2 {
            return Err(LdacError::AssertChannelConfig);
        }
        if hdr.smplrate_id != self.sfinfo.cfg.smplrate_id || hdr.chconfig_id != self.sfinfo.cfg.chconfig_id {
            let sr = smplrate(hdr.smplrate_id);
            let cm = if hdr.chconfig_id == LDAC_CHCONFIGID_ST {
                ChannelMode::Stereo
            } else if hdr.chconfig_id == LDAC_CHCONFIGID_DL {
                ChannelMode::DualChannel
            } else {
                ChannelMode::Mono
            };
            assert(spec_cci(cm) == hdr.chconfig_id);
            assert(spec_sfid(sr) == Some(hdr.smplrate_id));
            match Self::new(cm, sr) {
                Ok(d) => {
                    *self = d;
                },
                Err(e) => {
                    return Err(e);
                },
            }
        }
        let ghost mid = *self;
        self.sfinfo.cfg.frame_length = hdr.frame_length;
        self.sfinfo.cfg.frame_status = hdr.frame_status;
        let raw = &stream[LDAC_FRMHDRBYTES..stream.len()];
        if raw.len() < hdr.frame_length {
            return Err(LdacError::InputBufferSize);
        }
        let used = match unpack_raw_data_frame(tables, &mut self.sfinfo, raw) {
            Ok(n) => n,
            Err(e) => {
                return Err(e);
            },
        };
        let total_used = used + LDAC_FRMHDRBYTES;
        proof {
            assert(total_used <= 515);
            assert(total_used * self.sample_rate <= 515 * 96_000) by (nonlinear_arith)
                requires total_used <= 515, self.sample_rate <= 96_000;
        }
        self.bitrate = (total_used as u32 * self.sample_rate / self.frm_samples) / (1000 / 8);
        Ok(total_used)
    }

    /// Law: every decoder has one of the four sampling rates, one or two
    /// channels, and 128 or 256 samples per frame, that is `2^nlnn`; its
    /// rate, frame samples and channels are those of its configuration ids.
    pub proof fn lemma_invariants(&self)
        requires
            self.wf(),
        ensures
            self.spec_sample_rate() == 44_100 || self.spec_sample_rate() == 48_000
                || self.spec_sample_rate() == 88_200 || self.spec_sample_rate() == 96_000,
            self.spec_channels() == 1 || self.spec_channels() == 2,
            self.spec_frame_samples() == 128 || self.spec_frame_samples() == 256,
            self.spec_frame_samples() == vstd::arithmetic::power2::pow2(self.spec_nlnn() as nat),
            spec_sfid(self.spec_sample_rate()) == Some(self.spec_config().0),
            self.spec_config().0 < LDAC_NSUPSMPLRATEID,
            self.spec_config().1 <= LDAC_CHCONFIGID_ST,
            self.spec_sample_rate() == spec_smplrate(self.spec_config().0 as int),
            self.spec_frame_samples() == spec_framesmpls(self.spec_config().0 as int),
            self.spec_nlnn() == spec_ln_framesmpls(self.spec_config().0 as int),
            self.spec_channels() == spec_nch(self.spec_config().1 as int),
    {
        vstd::arithmetic::power2::lemma2_to64();
    }

    /// Law: the decoder's state has a fixed size, whatever it has decoded:
    /// one block per channel pair or mono channel of its configuration, at
    /// most two blocks and two channels, each block with its 50-entry
    /// gradient curve and each channel with its 34 per-unit and 256
    /// per-line entries.
    pub proof fn lemma_state_size(&self)
        requires
            self.wf(),
        ensures
            self.spec_sfinfo().ab@.len() == spec_nblocks(self.spec_config().1 as int),
            self.spec_sfinfo().ac@.len() == self.spec_channels(),
            self.spec_sfinfo().ab@.len() <= 2,
            self.spec_sfinfo().ac@.len() <= 2,
            forall|b: int| 0 <= b < self.spec_sfinfo().ab@.len() ==>
                (#[trigger] self.spec_sfinfo().ab@[b]).a_grad@.len() == LDAC_MAXGRADQU,
            forall|c: int| 0 <= c < self.spec_sfinfo().ac@.len() ==> {
                let a = #[trigger] self.spec_sfinfo().ac@[c];
                &&& a.a_idsf@.len() == LDAC_MAXNQUS
                &&& a.a_idwl1@.len() == LDAC_MAXNQUS
                &&& a.a_idwl2@.len() == LDAC_MAXNQUS
                &&& a.a_addwl@.len() == LDAC_MAXNQUS
                &&& a.a_qspec@.len() == LDAC_MAXLSU
                &&& a.a_rspec@.len() == LDAC_MAXLSU
            },
    {
        assert forall|b: int| 0 <= b < self.spec_sfinfo().ab@.len() implies
            (#[trigger] self.spec_sfinfo().ab@[b]).a_grad@.len() == LDAC_MAXGRADQU by {
            assert(self.spec_sfinfo().abs()[b] == self.spec_sfinfo().ab@[b]@);
        }
    }

    /// The configured sampling-rate and channel-configuration ids.
    pub fn config(&self) -> (r: (usize, usize))
        ensures
            r == self.spec_config(),
    {
        (self.sfinfo.cfg.smplrate_id, self.sfinfo.cfg.chconfig_id)
    }
}

/// Law: a frame whose configuration differs from the decoder's decodes as
/// it would on a decoder just created for that configuration: the result,
/// the configuration, the bit-rate and the parsed blocks and channels owe
/// nothing to what the decoder held before.
pub proof fn lemma_reconfigure_forgets_history(t: CodecTables, s: Seq<u8>, d: LdacDecoder, d1: LdacDecoder,
    r1: LdacResult<usize>, fresh: LdacDecoder, f1: LdacDecoder, r2: LdacResult<usize>)
    requires
        s.len() > 4,
        s[0] == LDAC_SYNCWORD,
        spec_header(s).smplrate_id <= 3,
        spec_header(s).chconfig_id <= 2,
        (spec_header(s).smplrate_id, spec_header(s).chconfig_id) != d.spec_config(),
        fresh.is_fresh(spec_header(s).smplrate_id, spec_header(s).chconfig_id),
        spec_decode_outcome(t, s, d, d1, r1),
        spec_decode_outcome(t, s, fresh, f1, r2),
    ensures
        r1 == r2,
        d1.spec_config() == f1.spec_config(),
        d1.spec_sample_rate() == f1.spec_sample_rate(),
        d1.spec_channels() == f1.spec_channels(),
        d1.spec_bitrate() == f1.spec_bitrate(),
        d1.spec_sfinfo().abs() == f1.spec_sfinfo().abs(),
        d1.spec_sfinfo().acs() == f1.spec_sfinfo().acs(),
{
}

/// Byte `k` of the interleaved output: sample `k / (nch * wl)`, channel
/// `(k / wl) % nch`, byte `k % wl` of that sample.
pub open spec fn interleaved_byte(planar: Seq<Seq<u8>>, nch: int, wl: int, k: int) -> u8 {
    let i = k / (nch * wl);
    let c = (k / wl) % nch;
    planar[c][i * wl + k % wl]
}

/// Interleave planar per-channel PCM buffers into a single interleaved
/// output buffer.  Returns the number of bytes written.
pub fn interleave_pcm(out: &mut [u8], planar: &[Vec<u8>; LDAC_MAXNCH], nsmpl: usize, nch: usize, fmt: SampleFormat)
    -> (r: usize)
    requires
        nsmpl == 0 || nsmpl * nch * spec_word_len(fmt) <= old(out)@.len(),
        nch == 1 ==> nsmpl * spec_word_len(fmt) <= planar[0]@.len(),
        nch == 2 ==> nsmpl * spec_word_len(fmt) <= planar[0]@.len() && nsmpl * spec_word_len(fmt) <= planar[1]@.len(),
    ensures
        r == (if nsmpl == 0 || !(nch == 1 || nch == 2) { 0 } else { nsmpl * nch * spec_word_len(fmt) }),
        final(out)@.len() == old(out)@.len(),
        forall|k: int| 0 <= k < final(out)@.len() ==> #[trigger] final(out)@[k] == (if k < r {
            interleaved_byte(seq![planar[0]@, planar[1]@], nch as int, spec_word_len(fmt) as int, k)
        } else {
            old(out)@[k]
        }),
{
    if nsmpl == 0 {
        return 0;
    }
    let wl = fmt.word_len();
    proof {
        assert(out.len() == out@.len());
        assert(nsmpl * nch * wl <= old(out)@.len());
        assert(nsmpl * nch <= nsmpl * nch * wl) by (nonlinear_arith)
            requires wl >= 1;
    }
    let total = nsmpl * nch * wl;
    let ghost pl = seq![planar[0]@, planar[1]@];
    if nch == 1 {
        let mut k: usize = 0;
        while k < total
            invariant
                total == nsmpl * wl,
                total <= out@.len(),
                total <= planar[0]@.len(),
                pl == seq![planar[0]@, planar[1]@],
                1 <= wl <= 4,
                wl == spec_word_len(fmt),
                k <= total,
                out@.len() == old(out)@.len(),
                forall|j: int| 0 <= j < out@.len() ==> #[trigger] out@[j] == (if j < k {
                    interleaved_byte(pl, 1, wl as int, j)
                } else {
                    old(out)@[j]
                }),
            decreases total - k,
        {
            proof {
                assert((k as int / (wl as int)) * wl + k as int % (wl as int) == k) by (nonlinear_arith)
                    requires wl >= 1;
                assert((k as int / wl as int) % 1 == 0);
            }
            out[k] = planar[0][k];
            k += 1;
        }
        return total;
    }
    if nch == 2 {
        let mut i: usize = 0;
        while i < nsmpl
            invariant
                total == nsmpl * 2 * wl,
                total <= out@.len(),
                nsmpl * wl <= planar[0]@.len(),
                nsmpl * wl <= planar[1]@.len(),
                pl == seq![planar[0]@, planar[1]@],
                1 <= wl <= 4,
                wl == spec_word_len(fmt),
                i <= nsmpl,
                out@.len() == old(out)@.len(),
                forall|j: int| 0 <= j < out@.len() ==> #[trigger] out@[j] == (if j < i * 2 * wl {
                    interleaved_byte(pl, 2, wl as int, j)
                } else {
                    old(out)@[j]
                }),
            decreases nsmpl - i,
        {
            let so = i * wl;
            let do0 = (i * 2) * wl;
            let do1 = do0 + wl;
            let mut b: usize = 0;
            while b < wl
                invariant
                    so == i * wl,
                    do0 == i * 2 * wl,
                    do1 == do0 + wl,
                    i < nsmpl,
                    total == nsmpl * 2 * wl,
                    total <= out@.len(),
                    nsmpl * wl <= planar[0]@.len(),
                    nsmpl * wl <= planar[1]@.len(),
                    pl == seq![planar[0]@, planar[1]@],
                    1 <= wl <= 4,
                    b <= wl,
                    out@.len() == old(out)@.len(),
                    forall|j: int| 0 <= j < out@.len() ==> #[trigger] out@[j] == (
                        if j < do0 || (do0 <= j < do0 + b) || (do1 <= j < do1 + b) {
                            interleaved_byte(pl, 2, wl as int, j)
                        } else {
                            old(out)@[j]
                        }),
                decreases wl - b,
            {
                proof {
                    assert(so + wl <= nsmpl * wl && do1 + wl <= total) by (nonlinear_arith)
                        requires so == i * wl, do0 == i * 2 * wl, do1 == do0 + wl, i < nsmpl, total == nsmpl * 2 * wl;
                    lemma_interleave_index(i as int, wl as int, b as int);
                }
                out[do0 + b] = planar[0][so + b];
                out[do1 + b] = planar[1][so + b];
                b += 1;
            }
            proof {
                assert((i + 1) * 2 * wl == do1 + wl) by (nonlinear_arith)
                    requires do0 == i * 2 * wl, do1 == do0 + wl;
            }
            i += 1;
        }
        return total;
    }
    0
}

proof fn lemma_interleave_index(i: int, wl: int, b: int)
    requires
        0 <= i,
        1 <= wl,
        0 <= b < wl,
    ensures
        (i * 2 * wl + b) / (2 * wl) == i,
        ((i * 2 * wl + b) / wl) % 2 == 0,
        (i * 2 * wl + b) % wl == b,
        (i * 2 * wl + wl + b) / (2 * wl) == i,
        ((i * 2 * wl + wl + b) / wl) % 2 == 1,
        (i * 2 * wl + wl + b) % wl == b,
{
    assert((i * 2 * wl + b) / (2 * wl) == i) by (nonlinear_arith)
        requires 0 <= i, 1 <= wl, 0 <= b < wl;
    assert((i * 2 * wl + wl + b) / (2 * wl) == i) by (nonlinear_arith)
        requires 0 <= i, 1 <= wl, 0 <= b < wl;
    assert((i * 2 * wl + b) / wl == 2 * i) by (nonlinear_arith)
        requires 0 <= i, 1 <= wl, 0 <= b < wl;
    assert((i * 2 * wl + wl + b) / wl == 2 * i + 1) by (nonlinear_arith)
        requires 0 <= i, 1 <= wl, 0 <= b < wl;
    assert((i * 2 * wl + b) % wl == b) by (nonlinear_arith)
        requires 0 <= i, 1 <= wl, 0 <= b < wl;
    assert((i * 2 * wl + wl + b) % wl == b) by (nonlinear_arith)
        requires 0 <= i, 1 <= wl, 0 <= b < wl;
}

} // verus!
