use ldac_dec::bitalloc::{calc_add_word_length, reconst_gradient, reconst_word_length};
use ldac_dec::sfinfo::{Ab, Ac};
use ldac_dec::{CodecTables, HuffDec};

/// A small, well-formed set of coding tables: fixed-length Huffman codes,
/// ternary codebooks, word length equal to the id, flat weights and a flat
/// gradient curve of 128.
fn test_tables() -> CodecTables {
    let mut nsps: Vec<u8> = Vec::new();
    nsps.extend(std::iter::repeat(2u8).take(4));
    nsps.extend(std::iter::repeat(4u8).take(12));
    nsps.extend(std::iter::repeat(8u8).take(10));
    nsps.extend(std::iter::repeat(14u8).take(8));
    let mut isp: Vec<u16> = vec![0];
    for &n in &nsps {
        let last = *isp.last().unwrap();
        isp.push(last + n as u16);
    }
    let fixed = |len: u32| HuffDec {
        maxlen: len,
        mask: ((1u32 << len) - 1) as i32,
        dec: (0..(1u32 << len)).map(|i| i as u8).collect(),
        lens: vec![len as u8; 1usize << len],
    };
    let spec4: Vec<Vec<i8>> = (0..81)
        .map(|i: i32| vec![(i / 27 % 3 - 1) as i8, (i / 9 % 3 - 1) as i8, (i / 3 % 3 - 1) as i8, (i % 3 - 1) as i8])
        .collect();
    let spec2: Vec<Vec<i8>> = (0..8).map(|i: i32| vec![(i / 3 % 3 - 1) as i8, (i % 3 - 1) as i8]).collect();
    CodecTables {
        max_nbands: vec![12, 12, 16, 16],
        nqus: vec![0, 4, 8, 10, 12, 14, 16, 18, 20, 22, 24, 25, 26, 28, 30, 32, 34],
        isp,
        nsps,
        wl: (0..16).collect(),
        sfcwgt: vec![vec![0u8; 34]; 8],
        resamp_grad: vec![vec![128u8; 50]; 50],
        spec2,
        spec4,
        hc_sf0: (3..=6).map(fixed).collect(),
        hc_sf1: (2..=5).map(fixed).collect(),
    }
}

fn block(grad_mode: i32, nqus: usize) -> Ab {
    let mut ab = Ab::new(0);
    ab.grad_mode = grad_mode;
    ab.nqus = nqus;
    ab
}

#[test]
fn gradient_rising_offset() {
    let mut t = test_tables();
    t.resamp_grad[3][..4].copy_from_slice(&[0, 64, 128, 255]);
    assert!(t.is_valid());
    let mut ab = block(0, 8);
    ab.grad_qu_l = 0;
    ab.grad_qu_h = 4;
    ab.grad_os_l = 0;
    ab.grad_os_h = 10;
    reconst_gradient(&t, &mut ab, 8);
    // Curve row 3 (span 4) scaled by 10 - 1, plus one, below -os_l.
    assert_eq!(&ab.a_grad[..8], &[-1, -3, -5, -9, -10, -10, -10, -10]);
    assert!(ab.a_grad[8..].iter().all(|&g| g == 0));
}

#[test]
fn gradient_falling_offset() {
    let mut t = test_tables();
    t.resamp_grad[1][..2].copy_from_slice(&[100, 200]);
    let mut ab = block(0, 6);
    ab.grad_qu_l = 2;
    ab.grad_qu_h = 4;
    ab.grad_os_l = 20;
    ab.grad_os_h = 4;
    reconst_gradient(&t, &mut ab, 6);
    // d = 20 - 4 - 1 = 15: (100 * 15) >> 8 = 5, (200 * 15) >> 8 = 11.
    assert_eq!(&ab.a_grad[..6], &[-20, -20, -14, -8, -4, -4]);
}

#[test]
fn gradient_flat_offsets() {
    let t = test_tables();
    let mut ab = block(0, 5);
    ab.grad_qu_l = 1;
    ab.grad_qu_h = 3;
    ab.grad_os_l = 7;
    ab.grad_os_h = 7;
    reconst_gradient(&t, &mut ab, 5);
    assert_eq!(&ab.a_grad[..5], &[-7, -7, -7, -7, -7]);
}

#[test]
fn additional_word_length_from_scale_factor_steps() {
    let mut ac = Ac::new();
    ac.a_idsf[..6].copy_from_slice(&[0, 3, 3, 10, 1, 0]);
    let ab = block(1, 6);
    calc_add_word_length(&mut ac, &ab);
    // +3 at 1 adds 2 there; +7 at 3 adds min(6, 5); -9 at 4 adds min(8, 5)
    // to unit 3; -1 adds nothing.
    assert_eq!(&ac.a_addwl[..6], &[0, 2, 0, 10, 0, 0]);
}

#[test]
fn additional_word_length_off_in_mode_zero() {
    let mut ac = Ac::new();
    ac.a_idsf[..3].copy_from_slice(&[0, 9, 0]);
    ac.a_addwl[1] = 4;
    let ab = block(0, 3);
    calc_add_word_length(&mut ac, &ab);
    assert!(ac.a_addwl.iter().all(|&w| w == 0));
}

#[test]
fn word_lengths_per_mode() {
    let mut ab = block(0, 4);
    ab.a_grad[..4].copy_from_slice(&[-2, -2, 5, 0]);
    let mut ac = Ac::new();
    ac.a_idsf[..4].copy_from_slice(&[1, 10, 20, 3]);
    reconst_word_length(&mut ac, &ab);
    // Mode 0: idsf + grad, at least 1; 25 caps at 15 with 10 left over.
    assert_eq!(&ac.a_idwl1[..4], &[1, 8, 15, 3]);
    assert_eq!(&ac.a_idwl2[..4], &[0, 0, 10, 0]);

    let mut ab = block(1, 2);
    ab.a_grad[..2].copy_from_slice(&[0, 0]);
    let mut ac = Ac::new();
    ac.a_idsf[..2].copy_from_slice(&[9, 2]);
    ac.a_addwl[..2].copy_from_slice(&[2, 0]);
    reconst_word_length(&mut ac, &ab);
    // Mode 1 halves: 11 >> 1 = 5, 2 >> 1 = 1.
    assert_eq!(&ac.a_idwl1[..2], &[5, 1]);

    let mut ab = block(2, 1);
    ab.nadjqus = 1;
    let mut ac = Ac::new();
    ac.a_idsf[0] = 16;
    reconst_word_length(&mut ac, &ab);
    // Mode 2 takes 3/8: (16 * 3) >> 3 = 6, plus one adjusted unit.
    assert_eq!(ac.a_idwl1[0], 7);

    let mut ab = block(3, 1);
    ab.a_grad[0] = -30;
    let mut ac = Ac::new();
    ac.a_idsf[0] = 12;
    reconst_word_length(&mut ac, &ab);
    // Mode 3 quarters positive sums only; a negative sum gives 1.
    assert_eq!(ac.a_idwl1[0], 1);
    assert_eq!(ac.a_idwl2[0], 0);
}

#[test]
fn word_length_second_part_is_capped() {
    let mut ab = block(0, 1);
    ab.a_grad[0] = 40;
    let mut ac = Ac::new();
    ac.a_idsf[0] = 0;
    reconst_word_length(&mut ac, &ab);
    assert_eq!(ac.a_idwl1[0], 15);
    assert_eq!(ac.a_idwl2[0], 15);
}

#[test]
fn adjusted_units_beyond_the_unit_count() {
    // Adjusted units past the unit count gain one without the cap.
    let mut ab = block(0, 2);
    ab.nadjqus = 4;
    let mut ac = Ac::new();
    ac.a_idsf[..2].copy_from_slice(&[5, 6]);
    ac.a_idwl1[3] = 15;
    reconst_word_length(&mut ac, &ab);
    assert_eq!(&ac.a_idwl1[..5], &[6, 7, 1, 16, 0]);
    assert_eq!(&ac.a_idwl2[..5], &[0, 0, 0, 0, 0]);
}

#[test]
fn gradient_edge_parameters() {
    let t = test_tables();
    // The upper unit may reach the end of the curve.
    let mut ab = block(0, 0);
    ab.grad_qu_l = 0;
    ab.grad_qu_h = 50;
    ab.grad_os_l = 0;
    ab.grad_os_h = 3;
    reconst_gradient(&t, &mut ab, 0);
    // d = 2: (128 * 2) >> 8 = 1, plus one.
    assert!(ab.a_grad.iter().all(|&g| g == -2));

    // A lower unit above the upper one bends nothing.
    let mut ab = block(0, 0);
    ab.grad_qu_l = 9;
    ab.grad_qu_h = 3;
    ab.grad_os_l = 4;
    ab.grad_os_h = 8;
    reconst_gradient(&t, &mut ab, 5);
    assert_eq!(&ab.a_grad[..6], &[-4, -4, -4, -8, -8, 0]);

    // So does a negative lower unit.
    let mut ab = block(0, 0);
    ab.grad_qu_l = -2;
    ab.grad_qu_h = 2;
    ab.grad_os_l = 1;
    ab.grad_os_h = 30;
    reconst_gradient(&t, &mut ab, 3);
    assert_eq!(&ab.a_grad[..4], &[-1, -1, -30, 0]);
}
