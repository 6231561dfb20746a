use ldac_dec::handle::{
    get_version, map_err, null_handle_error_code, Handle, LDACBT_CHANNEL_MODE_DUAL_CHANNEL,
    LDACBT_CHANNEL_MODE_MONO, LDACBT_CHANNEL_MODE_STEREO, LDACBT_ERR_ASSERT_CHANNEL_MODE,
    LDACBT_ERR_DEC_CONFIG_UPDATED, LDACBT_ERR_FATAL, LDACBT_ERR_FATAL_HANDLE,
    LDACBT_ERR_HANDLE_NOT_INIT, LDACBT_ERR_ILL_SAMPLING_FREQ, LDACBT_ERR_ILL_SMPL_FORMAT,
    LDACBT_ERR_ILL_SYNCWORD, LDACBT_ERR_NONE, LDACBT_SMPL_FMT_F32, LDACBT_SMPL_FMT_S16,
    LDACBT_SMPL_FMT_S24,
};
use ldac_dec::{ChannelMode, CodecTables, HuffDec, LdacError, SampleFormat};

/// A small, well-formed set of coding tables: fixed-length Huffman codes,
/// ternary codebooks, word length equal to the id, flat weights and a flat
/// gradient curve of 128.
fn test_tables() -> CodecTables {
    let mut nsps: Vec<u8> = Vec::new();
    nsps.extend(std::iter::repeat(2u8).take(4));
    nsps.extend(std::iter::repeat(4u8).take(12));
    nsps.extend(std::iter::repeat(8u8).take(10));
    nsps.extend(std::iter::repeat(14u8).take(8));
    let mut isp: Vec<u16> = vec![0];
    for &n in &nsps {
        let last = *isp.last().unwrap();
        isp.push(last + n as u16);
    }
    let fixed = |len: u32| HuffDec {
        maxlen: len,
        mask: ((1u32 << len) - 1) as i32,
        dec: (0..(1u32 << len)).map(|i| i as u8).collect(),
        lens: vec![len as u8; 1usize << len],
    };
    let spec4: Vec<Vec<i8>> = (0..81)
        .map(|i: i32| vec![(i / 27 % 3 - 1) as i8, (i / 9 % 3 - 1) as i8, (i / 3 % 3 - 1) as i8, (i % 3 - 1) as i8])
        .collect();
    let spec2: Vec<Vec<i8>> = (0..8).map(|i: i32| vec![(i / 3 % 3 - 1) as i8, (i % 3 - 1) as i8]).collect();
    CodecTables {
        max_nbands: vec![12, 12, 16, 16],
        nqus: vec![0, 4, 8, 10, 12, 14, 16, 18, 20, 22, 24, 25, 26, 28, 30, 32, 34],
        isp,
        nsps,
        wl: (0..16).collect(),
        sfcwgt: vec![vec![0u8; 34]; 8],
        resamp_grad: vec![vec![128u8; 50]; 50],
        spec2,
        spec4,
        hc_sf0: (3..=6).map(fixed).collect(),
        hc_sf1: (2..=5).map(fixed).collect(),
    }
}

/// Bytes of a string of '0'/'1' characters, MSB first, zero-padded to a byte.
fn bits(s: &str) -> Vec<u8> {
    let b: Vec<u8> = s.bytes().filter(|c| *c == b'0' || *c == b'1').map(|c| c - b'0').collect();
    let mut out = vec![0u8; (b.len() + 7) / 8];
    for (i, v) in b.iter().enumerate() {
        out[i / 8] |= v << (7 - i % 8);
    }
    out
}

/// Transport header for sampling-rate id `sr`, configuration `cci` and a
/// frame of `flen` bytes.
fn header(sr: u32, cci: u32, flen: u32) -> Vec<u8> {
    let mut h = vec![0xAA];
    h.extend(bits(&format!("{:03b}{:02b}{:09b}00", sr, cci, flen - 1)));
    h
}

/// A mono block: 2 bands (8 units), gradient mode 1 with zero lower bound and
/// offset, no adjusted units, fixed 5-bit zero scale factors, all-zero
/// codebook indices.
const MONO_BLOCK: &str = "0000 0 01 00000 00000 00000 1 11";

fn mono_frame(flen: u32, fill: &[u8]) -> Vec<u8> {
    let mut payload = String::from(MONO_BLOCK);
    payload.push_str(&"0".repeat(40 + 12 + 28));
    let mut f = header(1, 0, flen);
    f.extend(bits(&payload));
    f.extend_from_slice(fill);
    f.extend_from_slice(&[0, 0]);
    f
}

#[test]
fn null_handle_is_harmless() {
    // A null handle reports FATAL_HANDLE << 10.
    assert_eq!(null_handle_error_code(), LDACBT_ERR_FATAL_HANDLE << 10);
    assert_eq!(null_handle_error_code(), 262_144);
    // Closing a fresh handle leaves it uninitialised and error free.
    let mut h = Handle::new();
    h.close();
    assert_eq!(h.sampling_freq(), -1);
    assert_eq!(h.bitrate(), -1);
}

#[test]
fn handle_lifecycle_no_leak() {
    let mut h = Handle::new();
    assert!(h.decoder().is_none());
    assert_eq!(h.init_decode(LDACBT_CHANNEL_MODE_STEREO, 48_000), 0);
    assert_eq!(h.sampling_freq(), 48_000);
    assert_eq!(h.error_code(), LDACBT_ERR_NONE);
    assert_eq!(h.decoder().unwrap().channels(), 2);
}

#[test]
fn close_then_reinit() {
    let mut h = Handle::new();
    h.init_decode(LDACBT_CHANNEL_MODE_MONO, 44_100);
    h.close();
    // After close the decoder is gone; queries report not-init.
    assert_eq!(h.sampling_freq(), -1);
    assert_eq!(h.error_code(), LDACBT_ERR_HANDLE_NOT_INIT << 20);
    // Re-init on the same handle must work.
    assert_eq!(h.init_decode(LDACBT_CHANNEL_MODE_STEREO, 96_000), 0);
    assert_eq!(h.sampling_freq(), 96_000);
}

#[test]
fn decode_garbage_is_safe() {
    let t = test_tables();
    let mut h = Handle::new();
    h.init_decode(LDACBT_CHANNEL_MODE_STEREO, 48_000);
    let bs = [0u8; 32]; // no syncword
    let r = h.decode(&t, &bs, true, LDACBT_SMPL_FMT_S16);
    assert_eq!(r, Err(()));
    assert_ne!(h.error_code(), LDACBT_ERR_NONE);
    assert_eq!(h.error_code(), (LDACBT_ERR_FATAL << 20) | LDACBT_ERR_ILL_SYNCWORD);
}

#[test]
fn bad_init_params_rejected() {
    let mut h = Handle::new();
    // Invalid channel mode.
    assert_eq!(h.init_decode(0x99, 48_000), -1);
    assert_eq!(h.error_code(), LDACBT_ERR_ASSERT_CHANNEL_MODE << 20);
    // Invalid sample rate.
    assert_eq!(h.init_decode(LDACBT_CHANNEL_MODE_STEREO, 12_345), -1);
    assert_eq!(h.error_code(), LDACBT_ERR_ILL_SAMPLING_FREQ << 20);
    // A negative rate is treated as zero, which is unsupported.
    assert_eq!(h.init_decode(LDACBT_CHANNEL_MODE_DUAL_CHANNEL, -5), -1);
    assert!(h.decoder().is_none());
}

#[test]
fn repeated_init_no_leak() {
    let mut h = Handle::new();
    for _ in 0..10 {
        assert_eq!(h.init_decode(LDACBT_CHANNEL_MODE_STEREO, 48_000), 0);
    }
}

#[test]
fn version_number() {
    assert_eq!(get_version(), 131_105);
    assert_eq!(get_version(), (2 << 16) | 33);
}

#[test]
fn error_code_mapping() {
    assert_eq!(map_err(LdacError::SyntaxBand), 260);
    assert_eq!(map_err(LdacError::SyntaxSpec), 267);
    assert_eq!(map_err(LdacError::IllSyncword), 516);
    assert_eq!(map_err(LdacError::IllSamplingFreq), 1025);
    assert_eq!(map_err(LdacError::AssertSupSamplingFreq), 531);
    assert_eq!(map_err(LdacError::AssertChannelConfig), 533);
    assert_eq!(map_err(LdacError::InputBufferSize), 571);
    assert_eq!(map_err(LdacError::UnpackBlockFailed), 572);
    assert_eq!(map_err(LdacError::UnpackBlockAlign), 573);
    assert_eq!(map_err(LdacError::UnpackFrameAlign), 574);
    assert_eq!(map_err(LdacError::FrameLengthOver), 575);
}

#[test]
fn decode_before_init_rejected() {
    let t = test_tables();
    let mut h = Handle::new();
    assert_eq!(h.decode(&t, &[0xAA; 32], true, LDACBT_SMPL_FMT_S16), Err(()));
    assert_eq!(h.error_code(), LDACBT_ERR_HANDLE_NOT_INIT << 20);
    assert_eq!(h.bitrate(), -1);
}

#[test]
fn decode_request_checks() {
    let t = test_tables();
    let mut h = Handle::new();
    h.init_decode(LDACBT_CHANNEL_MODE_MONO, 48_000);
    let frame = mono_frame(16, &[0x01, 0x01]);
    assert_eq!(h.decode(&t, &frame, false, LDACBT_SMPL_FMT_S16), Err(()));
    assert_eq!(h.error_code(), LDACBT_ERR_FATAL << 20);
    assert_eq!(h.decode(&t, &frame, true, 9), Err(()));
    assert_eq!(h.error_code(), LDACBT_ERR_ILL_SMPL_FORMAT << 20);
    assert_eq!(h.decode(&t, &frame, true, LDACBT_SMPL_FMT_S24), Ok((19, SampleFormat::S24)));
    assert_eq!(h.error_code(), LDACBT_ERR_NONE);
    assert_eq!(h.bitrate(), 57);
}

#[test]
fn decode_flags_configuration_update() {
    let t = test_tables();
    let mut h = Handle::new();
    h.init_decode(LDACBT_CHANNEL_MODE_STEREO, 96_000);
    let frame = mono_frame(16, &[0x01, 0x01]);
    assert_eq!(h.decode(&t, &frame, true, LDACBT_SMPL_FMT_F32), Ok((19, SampleFormat::F32)));
    assert_eq!(h.error_code(), LDACBT_ERR_DEC_CONFIG_UPDATED << 20);
    assert_eq!(h.sampling_freq(), 48_000);
    // The same configuration again is no update.
    assert_eq!(h.decode(&t, &frame, true, LDACBT_SMPL_FMT_F32), Ok((19, SampleFormat::F32)));
    assert_eq!(h.error_code(), LDACBT_ERR_NONE);
}

#[test]
fn error_codes_are_distinct() {
    let all = [
        LdacError::SyntaxBand, LdacError::SyntaxGradA, LdacError::SyntaxGradB, LdacError::SyntaxGradC,
        LdacError::SyntaxGradD, LdacError::SyntaxGradE, LdacError::SyntaxIdsf, LdacError::SyntaxSpec,
        LdacError::UnpackBlockFailed, LdacError::UnpackBlockAlign, LdacError::UnpackFrameAlign,
        LdacError::FrameLengthOver, LdacError::IllSyncword, LdacError::IllSamplingFreq,
        LdacError::AssertSupSamplingFreq, LdacError::AssertChannelConfig, LdacError::InputBufferSize,
    ];
    for (i, a) in all.iter().enumerate() {
        for b in &all[i + 1..] {
            assert_ne!(map_err(*a), map_err(*b));
        }
    }
}

#[test]
fn init_with_profile_ids() {
    for (mode, nch) in [(ChannelMode::Mono, 1), (ChannelMode::DualChannel, 2), (ChannelMode::Stereo, 2)] {
        let mut h = Handle::new();
        assert_eq!(h.init_decode(mode.id() as i32, 44_100), 0);
        assert_eq!(h.decoder().unwrap().channels(), nch);
        assert_eq!(h.decoder().unwrap().config().1, mode.to_cci());
    }
}

#[test]
fn stereo_to_dual_switch_is_flagged() {
    // A dual-channel frame at the same rate re-configures a stereo decoder.
    let t = test_tables();
    let mut h = Handle::new();
    assert_eq!(h.init_decode(LDACBT_CHANNEL_MODE_STEREO, 48_000), 0);
    let mut f = header(1, 1, 32);
    // Each mono block takes 105 bits and is padded to 14 bytes.
    let block = format!("{}{}", MONO_BLOCK, "0".repeat(40 + 12 + 28 + 7));
    let payload = format!("{block}{block}");
    f.extend(bits(&payload));
    f.extend_from_slice(&[0x01; 4]);
    f.extend_from_slice(&[0, 0]);
    let r = h.decode(&t, &f, true, LDACBT_SMPL_FMT_S16);
    assert_eq!(r, Ok((35, SampleFormat::S16)));
    assert_eq!(h.error_code(), LDACBT_ERR_DEC_CONFIG_UPDATED << 20);
    assert_eq!(h.decoder().unwrap().config(), (1, 1));
    assert_eq!(h.decoder().unwrap().channels(), 2);
}
