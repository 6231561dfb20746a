use ldac_dec::{ChannelMode, CodecTables, HuffDec, LdacDecoder, LdacError};

/// A small, well-formed set of coding tables: fixed-length Huffman codes,
/// ternary codebooks, word length equal to the id, flat weights and a flat
/// gradient curve of 128.
fn test_tables() -> CodecTables {
    let mut nsps: Vec<u8> = Vec::new();
    nsps.extend(std::iter::repeat(2u8).take(4));
    nsps.extend(std::iter::repeat(4u8).take(12));
    nsps.extend(std::iter::repeat(8u8).take(10));
    nsps.extend(std::iter::repeat(14u8).take(8));
    let mut isp: Vec<u16> = vec![0];
    for &n in &nsps {
        let last = *isp.last().unwrap();
        isp.push(last + n as u16);
    }
    let fixed = |len: u32| HuffDec {
        maxlen: len,
        mask: ((1u32 << len) - 1) as i32,
        dec: (0..(1u32 << len)).map(|i| i as u8).collect(),
        lens: vec![len as u8; 1usize << len],
    };
    let spec4: Vec<Vec<i8>> = (0..81)
        .map(|i: i32| vec![(i / 27 % 3 - 1) as i8, (i / 9 % 3 - 1) as i8, (i / 3 % 3 - 1) as i8, (i % 3 - 1) as i8])
        .collect();
    let spec2: Vec<Vec<i8>> = (0..8).map(|i: i32| vec![(i / 3 % 3 - 1) as i8, (i % 3 - 1) as i8]).collect();
    CodecTables {
        max_nbands: vec![12, 12, 16, 16],
        nqus: vec![0, 4, 8, 10, 12, 14, 16, 18, 20, 22, 24, 25, 26, 28, 30, 32, 34],
        isp,
        nsps,
        wl: (0..16).collect(),
        sfcwgt: vec![vec![0u8; 34]; 8],
        resamp_grad: vec![vec![128u8; 50]; 50],
        spec2,
        spec4,
        hc_sf0: (3..=6).map(fixed).collect(),
        hc_sf1: (2..=5).map(fixed).collect(),
    }
}

/// Bytes of a string of '0'/'1' characters, MSB first, zero-padded to a byte.
fn bits(s: &str) -> Vec<u8> {
    let b: Vec<u8> = s.bytes().filter(|c| *c == b'0' || *c == b'1').map(|c| c - b'0').collect();
    let mut out = vec![0u8; (b.len() + 7) / 8];
    for (i, v) in b.iter().enumerate() {
        out[i / 8] |= v << (7 - i % 8);
    }
    out
}

/// Transport header for sampling-rate id `sr`, configuration `cci` and a
/// frame of `flen` bytes.
fn header(sr: u32, cci: u32, flen: u32) -> Vec<u8> {
    let mut h = vec![0xAA];
    h.extend(bits(&format!("{:03b}{:02b}{:09b}00", sr, cci, flen - 1)));
    h
}

/// A mono block: 2 bands (8 units), gradient mode 1 with zero lower bound and
/// offset, no adjusted units, fixed 5-bit zero scale factors, all-zero
/// codebook indices.
const MONO_BLOCK: &str = "0000 0 01 00000 00000 00000 1 11";

fn mono_frame(flen: u32, fill: &[u8]) -> Vec<u8> {
    let mut payload = String::from(MONO_BLOCK);
    payload.push_str(&"0".repeat(40 + 12 + 28));
    let mut f = header(1, 0, flen);
    f.extend(bits(&payload));
    f.extend_from_slice(fill);
    f.extend_from_slice(&[0, 0]);
    f
}

#[test]
fn decode_valid_mono_frame() {
    let t = test_tables();
    assert!(t.is_valid());
    let mut d = LdacDecoder::new(ChannelMode::Mono, 48_000).unwrap();
    let frame = mono_frame(16, &[0x01, 0x01]);
    assert_eq!(d.decode(&t, &frame), Ok(19));
    assert_eq!(d.bitrate(), 57);
    let ac = &d.sfinfo().ac[0];
    assert!(ac.a_qspec[..24].iter().all(|&v| v == -1));
    assert!(ac.a_qspec[24..].iter().all(|&v| v == 0));
    assert!(ac.a_idwl1[..8].iter().all(|&v| v == 1));
    assert!(ac.a_idsf.iter().all(|&v| v == 0));
    assert_eq!(d.sfinfo().ab[0].nqus, 8);
    assert_eq!(d.sfinfo().ab[0].a_grad[0], -16);
    assert_eq!(d.sfinfo().ab[0].a_grad[25], -16);
    assert_eq!(d.sfinfo().ab[0].a_grad[26], 0);
}

#[test]
fn decode_without_fill_bytes() {
    let t = test_tables();
    let mut d = LdacDecoder::new(ChannelMode::Mono, 48_000).unwrap();
    let frame = mono_frame(14, &[]);
    assert_eq!(d.decode(&t, &frame), Ok(17));
}

#[test]
fn fill_code_mismatch_rejected() {
    let t = test_tables();
    let mut d = LdacDecoder::new(ChannelMode::Mono, 48_000).unwrap();
    let frame = mono_frame(16, &[0x01, 0x02]);
    assert_eq!(d.decode(&t, &frame), Err(LdacError::UnpackFrameAlign));
}

#[test]
fn frame_length_overrun_rejected() {
    let t = test_tables();
    let mut d = LdacDecoder::new(ChannelMode::Mono, 48_000).unwrap();
    let frame = mono_frame(10, &[]);
    assert_eq!(d.decode(&t, &frame), Err(LdacError::FrameLengthOver));
}

#[test]
fn nonzero_padding_rejected() {
    let t = test_tables();
    let mut d = LdacDecoder::new(ChannelMode::Mono, 48_000).unwrap();
    let mut payload = String::from(MONO_BLOCK);
    payload.push_str(&"0".repeat(80));
    payload.push_str("0000001");
    let mut f = header(1, 0, 14);
    f.extend(bits(&payload));
    f.extend_from_slice(&[0, 0]);
    assert_eq!(d.decode(&t, &f), Err(LdacError::UnpackBlockAlign));
}

#[test]
fn short_frame_rejected() {
    let t = test_tables();
    let mut d = LdacDecoder::new(ChannelMode::Mono, 48_000).unwrap();
    let frame = mono_frame(16, &[0x01, 0x01]);
    assert_eq!(d.decode(&t, &frame[..10]), Err(LdacError::InputBufferSize));
}

#[test]
fn unsupported_header_ids_rejected() {
    let t = test_tables();
    let mut d = LdacDecoder::new(ChannelMode::Mono, 48_000).unwrap();
    let mut f = header(5, 0, 16);
    f.extend_from_slice(&[0; 20]);
    assert_eq!(d.decode(&t, &f), Err(LdacError::AssertSupSamplingFreq));
    let mut f = header(1, 3, 16);
    f.extend_from_slice(&[0; 20]);
    assert_eq!(d.decode(&t, &f), Err(LdacError::AssertChannelConfig));
    assert_eq!(d.decode(&t, &[0x55; 20]), Err(LdacError::IllSyncword));
    assert_eq!(d.decode(&t, &[0xAA; 4]), Err(LdacError::InputBufferSize));
    assert_eq!(d.sample_rate(), 48_000);
    assert_eq!(d.channels(), 1);
}

#[test]
fn configuration_change_reinitialises() {
    let t = test_tables();
    let mut d = LdacDecoder::new(ChannelMode::Stereo, 96_000).unwrap();
    let frame = mono_frame(16, &[0x01, 0x01]);
    assert_eq!(d.decode(&t, &frame), Ok(19));
    assert_eq!(d.sample_rate(), 48_000);
    assert_eq!(d.channels(), 1);
    assert_eq!(d.frame_samples(), 128);
    assert_eq!(d.config(), (1, 0));
}

fn block_error(block: &str) -> Result<usize, LdacError> {
    let t = test_tables();
    let mut d = LdacDecoder::new(ChannelMode::Mono, 48_000).unwrap();
    let mut f = header(1, 0, 64);
    let mut payload = String::from(block);
    payload.push_str(&"0".repeat(64 * 8));
    f.extend(bits(&payload));
    d.decode(&t, &f)
}

#[test]
fn syntax_errors_rejected() {
    // Band count 15 + 2 exceeds the 12 bands of 48 kHz.
    assert_eq!(block_error("1111 0"), Err(LdacError::SyntaxBand));
    // Gradient mode 0 with lower unit 63.
    assert_eq!(block_error("0000 0 00 111111"), Err(LdacError::SyntaxGradA));
    // Gradient mode 0 with upper unit 63 + 1.
    assert_eq!(block_error("0000 0 00 000000 111111"), Err(LdacError::SyntaxGradB));
    // Gradient mode 0 with upper unit 4 + 1 below lower unit 10.
    assert_eq!(block_error("0000 0 00 001010 000100"), Err(LdacError::SyntaxGradC));
    // Gradient mode 1 with lower unit 27.
    assert_eq!(block_error("0000 0 01 11011"), Err(LdacError::SyntaxGradD));
    // 31 adjusted units for 8 units.
    assert_eq!(block_error("0000 0 01 00000 00000 11111"), Err(LdacError::SyntaxGradE));
    // Channel 0 mode 1, 4-bit scale factors 15 with offset 31: 46 > 31.
    assert_eq!(block_error("0000 0 01 00000 00000 00000 1 10 11111 000 1111"), Err(LdacError::SyntaxIdsf));
}

#[test]
fn codebook_overflow_rejected() {
    // Units 4..8 use the four-dimensional codebook; index 127 is outside it.
    let mut block = String::from(MONO_BLOCK);
    block.push_str(&"0".repeat(40 + 12));
    block.push_str("1111111");
    assert_eq!(block_error(&block), Err(LdacError::SyntaxSpec));
}

#[test]
fn state_size_follows_configuration() {
    let t = test_tables();
    for (cm, nb, nc) in [(ChannelMode::Mono, 1, 1), (ChannelMode::DualChannel, 2, 2), (ChannelMode::Stereo, 1, 2)] {
        let d = LdacDecoder::new(cm, 44_100).unwrap();
        assert_eq!(d.sfinfo().ab.len(), nb);
        assert_eq!(d.sfinfo().ac.len(), nc);
    }
    // A stereo decoder that meets a mono frame shrinks to one block and channel.
    let mut d = LdacDecoder::new(ChannelMode::Stereo, 44_100).unwrap();
    d.decode(&t, &mono_frame(16, &[0x01, 0x01])).unwrap();
    assert_eq!(d.sfinfo().ab.len(), 1);
    assert_eq!(d.sfinfo().ac.len(), 1);
}

#[test]
fn reconfiguration_forgets_history() {
    let t = test_tables();
    let frame = mono_frame(16, &[0x01, 0x01]);
    // A decoder with another configuration and some history.
    let mut frame0 = frame.clone();
    frame0[1] &= 0x1F;
    let mut used = LdacDecoder::new(ChannelMode::Mono, 44_100).unwrap();
    assert_eq!(used.decode(&t, &frame0), Ok(19));
    assert_eq!(used.bitrate(), 52);
    let mut fresh = LdacDecoder::new(ChannelMode::Mono, 48_000).unwrap();
    assert_eq!(used.decode(&t, &frame), fresh.decode(&t, &frame));
    assert_eq!(used.config(), fresh.config());
    assert_eq!(used.bitrate(), fresh.bitrate());
    assert_eq!(used.sfinfo().ac[0].a_qspec, fresh.sfinfo().ac[0].a_qspec);
    assert_eq!(used.sfinfo().ac[0].a_idwl1, fresh.sfinfo().ac[0].a_idwl1);
    assert_eq!(used.sfinfo().ab[0].a_grad, fresh.sfinfo().ab[0].a_grad);
}

#[test]
fn error_messages() {
    assert_eq!(LdacError::IllSyncword.message(), "bad syncword");
    assert_eq!(LdacError::SyntaxGradC.to_string(), "gradient qu_h < qu_l");
    assert_eq!(LdacError::InputBufferSize.to_string(), "input buffer too small");
    assert_eq!(LdacError::IllSamplingFreq.message(), "unsupported sampling frequency");
}

#[test]
fn refused_frame_leaves_what_was_parsed() {
    let t = test_tables();
    let mut d = LdacDecoder::new(ChannelMode::Mono, 48_000).unwrap();
    let mut f = header(1, 0, 64);
    let mut payload = String::from("0000 0 01 00000 00000 00000 1 10 11111 000 1111");
    payload.push_str(&"0".repeat(64 * 8));
    f.extend(bits(&payload));
    assert_eq!(d.decode(&t, &f), Err(LdacError::SyntaxIdsf));
    // The block header and the scale factors stay as read.
    let ab = &d.sfinfo().ab[0];
    assert_eq!((ab.nbands, ab.nqus, ab.grad_mode, ab.grad_qu_h, ab.grad_os_h), (2, 8, 1, 26, 31));
    let ac = &d.sfinfo().ac[0];
    assert_eq!((ac.sfc_mode, ac.sfc_bitlen, ac.sfc_offset), (1, 4, 31));
    assert_eq!(ac.a_idsf[0], 46);
    assert!(ac.a_idsf[1..8].iter().all(|&v| v == 31));
    assert!(ac.a_idsf[8..].iter().all(|&v| v == 0));
    // The word lengths were not reached.
    assert!(ac.a_idwl1.iter().all(|&v| v == 0));
}

#[test]
fn negative_scale_factor_rejected() {
    // A weight above the coded value plus offset gives a negative id.
    let mut t = test_tables();
    t.sfcwgt[0][0] = 5;
    assert!(t.is_valid());
    let mut d = LdacDecoder::new(ChannelMode::Mono, 48_000).unwrap();
    let mut f = header(1, 0, 64);
    let mut payload = String::from("0000 0 01 00000 00000 00000 1 10 00000 000 0000");
    payload.push_str(&"0".repeat(64 * 8));
    f.extend(bits(&payload));
    assert_eq!(d.decode(&t, &f), Err(LdacError::SyntaxIdsf));
    assert_eq!(d.sfinfo().ac[0].a_idsf[0], -5);
}
