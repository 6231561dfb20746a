use ldac_dec::{ChannelMode, CodecTables, HuffDec, LdacDecoder};

/// A small, well-formed set of coding tables: fixed-length Huffman codes,
/// ternary codebooks, word length equal to the id, flat weights and a flat
/// gradient curve of 128.
fn test_tables() -> CodecTables {
    let mut nsps: Vec<u8> = Vec::new();
    nsps.extend(std::iter::repeat(2u8).take(4));
    nsps.extend(std::iter::repeat(4u8).take(12));
    nsps.extend(std::iter::repeat(8u8).take(10));
    nsps.extend(std::iter::repeat(14u8).take(8));
    let mut isp: Vec<u16> = vec![0];
    for &n in &nsps {
        let last = *isp.last().unwrap();
        isp.push(last + n as u16);
    }
    let fixed = |len: u32| HuffDec {
        maxlen: len,
        mask: ((1u32 << len) - 1) as i32,
        dec: (0..(1u32 << len)).map(|i| i as u8).collect(),
        lens: vec![len as u8; 1usize << len],
    };
    let spec4: Vec<Vec<i8>> = (0..81)
        .map(|i: i32| vec![(i / 27 % 3 - 1) as i8, (i / 9 % 3 - 1) as i8, (i / 3 % 3 - 1) as i8, (i % 3 - 1) as i8])
        .collect();
    let spec2: Vec<Vec<i8>> = (0..8).map(|i: i32| vec![(i / 3 % 3 - 1) as i8, (i % 3 - 1) as i8]).collect();
    CodecTables {
        max_nbands: vec![12, 12, 16, 16],
        nqus: vec![0, 4, 8, 10, 12, 14, 16, 18, 20, 22, 24, 25, 26, 28, 30, 32, 34],
        isp,
        nsps,
        wl: (0..16).collect(),
        sfcwgt: vec![vec![0u8; 34]; 8],
        resamp_grad: vec![vec![128u8; 50]; 50],
        spec2,
        spec4,
        hc_sf0: (3..=6).map(fixed).collect(),
        hc_sf1: (2..=5).map(fixed).collect(),
    }
}

#[test]
fn decoder_construction() {
    for sr in [44_100, 48_000, 88_200, 96_000] {
        let d = LdacDecoder::new(ChannelMode::Stereo, sr).unwrap();
        assert_eq!(d.sample_rate(), sr);
        assert_eq!(d.channels(), 2);
        let expected_samples = if sr <= 48_000 { 128 } else { 256 };
        assert_eq!(d.frame_samples(), expected_samples);
    }
    assert!(LdacDecoder::new(ChannelMode::Stereo, 22_050).is_err());
}

#[test]
fn bad_syncword_rejected() {
    let t = test_tables();
    assert!(t.is_valid());
    let mut d = LdacDecoder::new(ChannelMode::Stereo, 48_000).unwrap();
    let r = d.decode(&t, &[0x00; 16]);
    assert!(r.is_err());
}

#[test]
fn short_input_rejected() {
    let t = test_tables();
    assert!(t.is_valid());
    let mut d = LdacDecoder::new(ChannelMode::Stereo, 48_000).unwrap();
    assert!(d.decode(&t, &[0xAA, 0, 0]).is_err());
}

#[test]
fn channel_mode_ids() {
    assert_eq!(ChannelMode::Mono.id(), 0x04);
    assert_eq!(ChannelMode::DualChannel.id(), 0x02);
    assert_eq!(ChannelMode::Stereo.id(), 0x01);
}
