//! WAV container fields for the command-line driver: header parsing, header
//! construction and the choice of output format.
use vstd::prelude::*;
use crate::setpcm::SampleFormat;
use crate::decoder::ChannelMode;

verus! {

/// Little-endian value of `n` bytes of `b` starting at `i`.
pub open spec fn le_value(b: Seq<u8>, i: int, n: nat) -> int
    decreases n,
{
    if n == 0 { 0 } else { b[i] as int + 256 * le_value(b, i + 1, (n - 1) as nat) }
}

/// The little-endian 16-bit value of the first two bytes of `b`.
pub fn read_le_u16(b: &[u8]) -> (r: u16)
    requires
        b@.len() >= 2,
    ensures
        r == le_value(b@, 0, 2),
{
    proof {
        reveal_with_fuel(le_value, 3);
    }
    b[0] as u16 + (b[1] as u16) * 256
}

/// The little-endian 32-bit value of the first four bytes of `b`.
pub fn read_le_u32(b: &[u8]) -> (r: u32)
    requires
        b@.len() >= 4,
    ensures
        r == le_value(b@, 0, 4),
{
    proof {
        reveal_with_fuel(le_value, 5);
    }
    b[0] as u32 + (b[1] as u32) * 0x100 + (b[2] as u32) * 0x10000 + (b[3] as u32) * 0x1000000
}

/// The fields of a WAV header that the driver uses.
pub struct WavInfo {
    pub sample_rate: u32,
    pub channels: u16,
    pub bits_per_sample: u16,
    pub format_tag: u16,
}

/// Parse the fields of a 44-byte canonical WAV header.
pub fn parse_wav_header(hdr: &[u8]) -> (r: WavInfo)
    requires
        hdr@.len() >= 44,
    ensures
        r.format_tag == le_value(hdr@, 20, 2),
        r.channels == le_value(hdr@, 22, 2),
        r.sample_rate == le_value(hdr@, 24, 4),
        r.bits_per_sample == le_value(hdr@, 34, 2),
{
    proof {
        reveal_with_fuel(le_value, 5);
    }
    let format_tag = read_le_u16(&hdr[20..22]);
    let channels = read_le_u16(&hdr[22..24]);
    let sample_rate = read_le_u32(&hdr[24..28]);
    let bits_per_sample = read_le_u16(&hdr[34..36]);
    WavInfo { sample_rate, channels, bits_per_sample, format_tag }
}

/// Output format for a WAV format tag and sample width: tag 3 is float,
/// otherwise 16, 24 or 32-bit integers; other widths have none.
pub open spec fn spec_format_for(format_tag: u16, bits: u16) -> Option<SampleFormat> {
    if format_tag == 3 {
        Some(SampleFormat::F32)
    } else if bits == 16 {
        Some(SampleFormat::S16)
    } else if bits == 24 {
        Some(SampleFormat::S24)
    } else if bits == 32 {
        Some(SampleFormat::S32)
    } else {
        None
    }
}

/// Output format for a WAV format tag and sample width.
pub fn format_for(format_tag: u16, bits: u16) -> (r: Option<SampleFormat>)
    ensures
        r == spec_format_for(format_tag, bits),
{
    if format_tag == 3 {
        Some(SampleFormat::F32)
    } else if bits == 16 {
        Some(SampleFormat::S16)
    } else if bits == 24 {
        Some(SampleFormat::S24)
    } else if bits == 32 {
        Some(SampleFormat::S32)
    } else {
        None
    }
}

/// Channel mode for a WAV channel count: stereo for two, mono otherwise.
pub fn channel_mode_for(channels: u16) -> (r: ChannelMode)
    ensures
        r == (if channels == 2 { ChannelMode::Stereo } else { ChannelMode::Mono }),
{
    if channels == 2 { ChannelMode::Stereo } else { ChannelMode::Mono }
}

/// Little-endian bytes of the low `n` bytes of `v`.
pub open spec fn le_bytes(v: int, n: nat) -> Seq<u8>
    decreases n,
{
    if n == 0 { Seq::empty() } else { seq![(v % 256) as u8] + le_bytes(v / 256, (n - 1) as nat) }
}

fn push_le(out: &mut Vec<u8>, v: u32, n: usize)
    requires
        n <= 4,
    ensures
        final(out)@ == old(out)@ + le_bytes(v as int, n as nat),
{
    let mut x = v;
    let mut k: usize = 0;
    while k < n
        invariant
            k <= n,
            n <= 4,
            out@ + le_bytes(x as int, (n - k) as nat) == old(out)@ + le_bytes(v as int, n as nat),
        decreases n - k,
    {
        let ghost before = out@;
        out.push((x % 256) as u8);
        proof {
            assert(le_bytes(x as int, (n - k) as nat) == seq![(x % 256) as u8] + le_bytes((x / 256) as int, (n - k - 1) as nat));
            assert(before + le_bytes(x as int, (n - k) as nat) =~= out@ + le_bytes((x / 256) as int, (n - k - 1) as nat));
        }
        x = x / 256;
        k += 1;
    }
}

/// Only the low `n` bytes of a value reach its little-endian bytes.
proof fn lemma_le_bytes_mod(v: int, n: nat)
    requires
        v >= 0,
    ensures
        le_bytes(v, n) == le_bytes(v % vstd::arithmetic::power::pow(256, n), n),
    decreases n,
{
    if n > 0 {
        let m = vstd::arithmetic::power::pow(256, (n - 1) as nat);
        vstd::arithmetic::power::lemma_pow_positive(256, (n - 1) as nat);
        vstd::arithmetic::power::lemma_pow1(256);
        vstd::arithmetic::power::lemma_pow_adds(256, 1, (n - 1) as nat);
        assert(vstd::arithmetic::power::pow(256, n) == 256 * m);
        vstd::arithmetic::div_mod::lemma_div_pos_is_pos(v, 256);
        lemma_le_bytes_mod(v / 256, (n - 1) as nat);
        let w = v % (256 * m);
        vstd::arithmetic::div_mod::lemma_mod_breakdown(v, 256, m);
        let q = (v / 256) % m;
        let r = v % 256;
        vstd::arithmetic::div_mod::lemma_mod_pos_bound(v, 256);
        vstd::arithmetic::div_mod::lemma_fundamental_div_mod_converse(w, 256, q, r);
        assert(w / 256 == q && w % 256 == r);
        vstd::arithmetic::div_mod::lemma_mod_pos_bound(v, 256 * m);
        assert(le_bytes(w, n) == seq![(r % 256) as u8] + le_bytes(q, (n - 1) as nat));
    }
}

/// The low four bytes of a value are its value modulo `2^32`.
proof fn lemma_le_bytes_low32(v: int)
    requires
        v >= 0,
    ensures
        le_bytes(v, 4) == le_bytes(v % 0x1_0000_0000, 4),
{
    lemma_le_bytes_mod(v, 4);
    assert(vstd::arithmetic::power::pow(256, 4) == 0x1_0000_0000) by {
        reveal_with_fuel(vstd::arithmetic::power::pow, 5);
    }
}

/// The 44-byte canonical WAV header for `data_len` bytes of PCM data.
pub open spec fn spec_wav_header(info: WavInfo, data_len: int) -> Seq<u8> {
    let bps = info.bits_per_sample as int / 8;
    let byte_rate = info.sample_rate as int * bps * info.channels as int;
    let block_align = ((bps * info.channels as int) as u32) as u16;
    seq![0x52u8, 0x49, 0x46, 0x46]
        + le_bytes(data_len + 36, 4)
        + seq![0x57u8, 0x41, 0x56, 0x45, 0x66, 0x6d, 0x74, 0x20]
        + le_bytes(16, 4)
        + le_bytes(info.format_tag as int, 2)
        + le_bytes(info.channels as int, 2)
        + le_bytes(info.sample_rate as int, 4)
        + le_bytes(byte_rate, 4)
        + le_bytes(block_align as int, 2)
        + le_bytes(info.bits_per_sample as int, 2)
        + seq![0x64u8, 0x61, 0x74, 0x61]
        + le_bytes(data_len, 4)
}

/// Build the WAV header for `data_len` bytes of PCM data.
pub fn wav_header(info: &WavInfo, data_len: usize) -> (r: Vec<u8>)
    requires
        data_len as u32 + 36 <= u32::MAX,
        info.sample_rate * (info.bits_per_sample / 8) <= u32::MAX,
        info.sample_rate * (info.bits_per_sample / 8) * info.channels <= u32::MAX,
    ensures
        r@ == spec_wav_header(*info, data_len as int),
{
    let bps = info.bits_per_sample as u32 / 8;
    proof {
        assert(bps * info.channels <= 0x10000 * 0x10000) by (nonlinear_arith)
            requires bps <= 0x10000, info.channels <= 0x10000;
        assert(bps * info.channels <= u32::MAX) by (nonlinear_arith)
            requires bps <= 0x2000, info.channels <= 0xFFFF;
    }
    let byte_rate = info.sample_rate * bps * info.channels as u32;
    let block_align = (bps * info.channels as u32) as u16;
    let mut out: Vec<u8> = Vec::new();
    out.push(0x52);
    out.push(0x49);
    out.push(0x46);
    out.push(0x46);
    push_le(&mut out, data_len as u32 + 36, 4);
    out.push(0x57);
    out.push(0x41);
    out.push(0x56);
    out.push(0x45);
    out.push(0x66);
    out.push(0x6d);
    out.push(0x74);
    out.push(0x20);
    push_le(&mut out, 16, 4);
    push_le(&mut out, info.format_tag as u32, 2);
    push_le(&mut out, info.channels as u32, 2);
    push_le(&mut out, info.sample_rate, 4);
    push_le(&mut out, byte_rate, 4);
    push_le(&mut out, block_align as u32, 2);
    push_le(&mut out, info.bits_per_sample as u32, 2);
    out.push(0x64);
    out.push(0x61);
    out.push(0x74);
    out.push(0x61);
    push_le(&mut out, data_len as u32, 4);
    proof {
        lemma_le_bytes_low32(data_len as int);
        lemma_le_bytes_low32(data_len + 36);
        assert((data_len as u32) as int == data_len as int % 0x1_0000_0000) by (bit_vector);
        assert(((data_len + 36) % 0x1_0000_0000) == (data_len as int % 0x1_0000_0000) + 36);
    }
    assert(out@ =~= spec_wav_header(*info, data_len as int));
    out
}

/// A little-endian value depends only on its own bytes.
proof fn lemma_le_value_sub(h: Seq<u8>, i: int, n: nat)
    requires
        0 <= i,
        i + n <= h.len(),
    ensures
        le_value(h, i, n) == le_value(h.subrange(i, i + n), 0, n),
    decreases n,
{
    if n > 0 {
        let sub = h.subrange(i, i + n);
        lemma_le_value_sub(h, i + 1, (n - 1) as nat);
        lemma_le_value_sub(sub, 1, (n - 1) as nat);
        assert(sub.subrange(1, n as int) =~= h.subrange(i + 1, i + n));
    }
}

/// Reading back `n` little-endian bytes of `v` gives `v` modulo `256^n`.
proof fn lemma_le_value_bytes(v: int, n: nat)
    requires
        v >= 0,
    ensures
        le_bytes(v, n).len() == n,
        le_value(le_bytes(v, n), 0, n) == v % vstd::arithmetic::power::pow(256, n),
    decreases n,
{
    vstd::arithmetic::power::lemma_pow_positive(256, n);
    if n == 0 {
        vstd::arithmetic::power::lemma_pow0(256);
    } else {
        let m = vstd::arithmetic::power::pow(256, (n - 1) as nat);
        vstd::arithmetic::power::lemma_pow_positive(256, (n - 1) as nat);
        vstd::arithmetic::power::lemma_pow1(256);
        vstd::arithmetic::power::lemma_pow_adds(256, 1, (n - 1) as nat);
        vstd::arithmetic::div_mod::lemma_div_pos_is_pos(v, 256);
        lemma_le_value_bytes(v / 256, (n - 1) as nat);
        let b = le_bytes(v, n);
        lemma_le_value_sub(b, 1, (n - 1) as nat);
        assert(b.subrange(1, n as int) =~= le_bytes(v / 256, (n - 1) as nat));
        vstd::arithmetic::div_mod::lemma_mod_breakdown(v, 256, m);
        vstd::arithmetic::div_mod::lemma_mod_pos_bound(v, 256);
        assert(le_value(b, 0, n) == v % 256 + 256 * ((v / 256) % m));
    }
}

/// A little-endian field of a header holds the value written there.
proof fn lemma_field_back(h: Seq<u8>, at: int, n: nat, v: int)
    requires
        0 <= at,
        at + n <= h.len(),
        h.subrange(at, at + n) == le_bytes(v, n),
        0 <= v < vstd::arithmetic::power::pow(256, n),
    ensures
        le_value(h, at, n) == v,
{
    lemma_le_value_sub(h, at, n);
    lemma_le_value_bytes(v, n);
    vstd::arithmetic::div_mod::lemma_small_mod(v as nat, vstd::arithmetic::power::pow(256, n) as nat);
}

/// Law: parsing a header that `wav_header` built gives back the format tag,
/// channel count, sampling rate and sample width it was built from; its
/// `RIFF`, `WAVEfmt ` and `data` markers stand at bytes 0, 8 and 36, and its
/// size fields hold the data length plus 36 and the data length, modulo
/// `2^32`.
pub proof fn lemma_wav_header_round_trip(info: WavInfo, data_len: int)
    requires
        0 <= data_len,
    ensures
        spec_wav_header(info, data_len).len() == 44,
        spec_wav_header(info, data_len).subrange(0, 4) == seq![0x52u8, 0x49, 0x46, 0x46],
        spec_wav_header(info, data_len).subrange(8, 16) == seq![0x57u8, 0x41, 0x56, 0x45, 0x66, 0x6d, 0x74, 0x20],
        spec_wav_header(info, data_len).subrange(36, 40) == seq![0x64u8, 0x61, 0x74, 0x61],
        le_value(spec_wav_header(info, data_len), 4, 4) == (data_len + 36) % 0x1_0000_0000,
        le_value(spec_wav_header(info, data_len), 40, 4) == data_len % 0x1_0000_0000,
        le_value(spec_wav_header(info, data_len), 20, 2) == info.format_tag,
        le_value(spec_wav_header(info, data_len), 22, 2) == info.channels,
        le_value(spec_wav_header(info, data_len), 24, 4) == info.sample_rate,
        le_value(spec_wav_header(info, data_len), 34, 2) == info.bits_per_sample,
{
    let h = spec_wav_header(info, data_len);
    let bps = info.bits_per_sample as int / 8;
    let byte_rate = info.sample_rate as int * bps * info.channels as int;
    let block_align = ((bps * info.channels as int) as u32) as u16;
    assert(byte_rate >= 0) by (nonlinear_arith)
        requires info.sample_rate >= 0, bps >= 0, info.channels >= 0, byte_rate == info.sample_rate as int * bps * info.channels as int;
    lemma_le_value_bytes(data_len + 36, 4);
    lemma_le_value_bytes(16, 4);
    lemma_le_value_bytes(info.format_tag as int, 2);
    lemma_le_value_bytes(info.channels as int, 2);
    lemma_le_value_bytes(info.sample_rate as int, 4);
    lemma_le_value_bytes(byte_rate, 4);
    lemma_le_value_bytes(block_align as int, 2);
    lemma_le_value_bytes(info.bits_per_sample as int, 2);
    lemma_le_value_bytes(data_len, 4);
    assert(h.len() == 44);
    assert(vstd::arithmetic::power::pow(256, 2) == 0x10000 && vstd::arithmetic::power::pow(256, 4) == 0x1_0000_0000) by {
        reveal_with_fuel(vstd::arithmetic::power::pow, 5);
    }
    assert(h.subrange(20, 22) =~= le_bytes(info.format_tag as int, 2));
    assert(h.subrange(22, 24) =~= le_bytes(info.channels as int, 2));
    assert(h.subrange(24, 28) =~= le_bytes(info.sample_rate as int, 4));
    assert(h.subrange(34, 36) =~= le_bytes(info.bits_per_sample as int, 2));
    lemma_field_back(h, 20, 2, info.format_tag as int);
    lemma_field_back(h, 22, 2, info.channels as int);
    lemma_field_back(h, 24, 4, info.sample_rate as int);
    lemma_field_back(h, 34, 2, info.bits_per_sample as int);
    assert(h.subrange(0, 4) =~= seq![0x52u8, 0x49, 0x46, 0x46]);
    assert(h.subrange(8, 16) =~= seq![0x57u8, 0x41, 0x56, 0x45, 0x66, 0x6d, 0x74, 0x20]);
    assert(h.subrange(36, 40) =~= seq![0x64u8, 0x61, 0x74, 0x61]);
    assert(h.subrange(4, 8) =~= le_bytes(data_len + 36, 4));
    assert(h.subrange(40, 44) =~= le_bytes(data_len, 4));
    lemma_le_value_sub(h, 4, 4);
    lemma_le_value_sub(h, 40, 4);
}

} // verus!
