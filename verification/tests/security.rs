use ldac_dec::{ChannelMode, CodecTables, HuffDec, LdacDecoder};

/// A small, well-formed set of coding tables: fixed-length Huffman codes,
/// ternary codebooks, word length equal to the id, flat weights and a flat
/// gradient curve of 128.
fn test_tables() -> CodecTables {
    let mut nsps: Vec<u8> = Vec::new();
    nsps.extend(std::iter::repeat(2u8).take(4));
    nsps.extend(std::iter::repeat(4u8).take(12));
    nsps.extend(std::iter::repeat(8u8).take(10));
    nsps.extend(std::iter::repeat(14u8).take(8));
    let mut isp: Vec<u16> = vec![0];
    for &n in &nsps {
        let last = *isp.last().unwrap();
        isp.push(last + n as u16);
    }
    let fixed = |len: u32| HuffDec {
        maxlen: len,
        mask: ((1u32 << len) - 1) as i32,
        dec: (0..(1u32 << len)).map(|i| i as u8).collect(),
        lens: vec![len as u8; 1usize << len],
    };
    let spec4: Vec<Vec<i8>> = (0..81)
        .map(|i: i32| vec![(i / 27 % 3 - 1) as i8, (i / 9 % 3 - 1) as i8, (i / 3 % 3 - 1) as i8, (i % 3 - 1) as i8])
        .collect();
    let spec2: Vec<Vec<i8>> = (0..8).map(|i: i32| vec![(i / 3 % 3 - 1) as i8, (i % 3 - 1) as i8]).collect();
    CodecTables {
        max_nbands: vec![12, 12, 16, 16],
        nqus: vec![0, 4, 8, 10, 12, 14, 16, 18, 20, 22, 24, 25, 26, 28, 30, 32, 34],
        isp,
        nsps,
        wl: (0..16).collect(),
        sfcwgt: vec![vec![0u8; 34]; 8],
        resamp_grad: vec![vec![128u8; 50]; 50],
        spec2,
        spec4,
        hc_sf0: (3..=6).map(fixed).collect(),
        hc_sf1: (2..=5).map(fixed).collect(),
    }
}

/// Alternating channel modes re-initialise the decoder each time without
/// growing its state.
#[test]
fn alternating_channel_config_no_leak() {
    // Mono: sr=1(48k) cci=0 len=11 status=0 -> AA 20 28
    // Second header: sr=1 cci=1 len=22 status=0 -> AA 28 54
    let t = test_tables();
    assert!(t.is_valid());
    let mono: &[u8] = &[0xAA, 0x20, 0x28, 0, 0, 0, 0, 0, 0, 0, 0, 0, 0, 0];
    let stereo: &[u8] = &[
        0xAA, 0x28, 0x54, 0, 0, 0, 0, 0, 0, 0, 0, 0, 0, 0, 0, 0, 0, 0, 0, 0, 0, 0, 0, 0, 0,
    ];
    let mut d = LdacDecoder::new(ChannelMode::Mono, 48_000).unwrap();
    for _ in 0..10_000 {
        let _ = d.decode(&t, mono);
        let _ = d.decode(&t, stereo);
    }
    assert_eq!(d.channels(), 2);
    assert_eq!(d.sfinfo().ac.len(), 2);
    assert_eq!(d.sfinfo().ab.len(), 2);
}
