use ldac_dec::bitreader::BitReader;
use ldac_dec::unpack::{parse_frame_header, sign_extend};

#[test]
fn bit_reader_reads_msb_first() {
    let buf = [0b1011_0010u8, 0xFF, 0x00, 0x5A];
    let mut br = BitReader::new(&buf);
    assert_eq!(br.pos(), 0);
    assert_eq!(br.read(1), 1);
    assert_eq!(br.read(3), 0b011);
    assert_eq!(br.pos(), 4);
    assert_eq!(br.read(8), 0b0010_1111);
    assert_eq!(br.read(16), 0xF005);
    assert_eq!(br.pos(), 28);
    assert_eq!(br.read(4), 0xA);
}

#[test]
fn bit_reader_reads_zero_past_the_buffer() {
    let buf = [0xFFu8, 0xFF];
    let mut br = BitReader::new(&buf);
    assert_eq!(br.read(12), 0xFFF);
    // Four bits of the buffer remain, then zeros.
    assert_eq!(br.read(8), 0xF0);
    assert_eq!(br.read(16), 0);
    assert_eq!(br.pos(), 36);
}

#[test]
fn bit_reader_zero_width_read() {
    let buf = [0xFFu8];
    let mut br = BitReader::new(&buf);
    assert_eq!(br.read(0), 0);
    assert_eq!(br.pos(), 0);
}

#[test]
fn bit_reader_stops_at_the_bit_limit() {
    // Past 8192 bits every read gives zero, even inside the buffer.
    let buf = vec![0xFFu8; 1100];
    let mut br = BitReader::new(&buf);
    for _ in 0..512 {
        assert_eq!(br.read(16), 0xFFFF);
    }
    assert_eq!(br.pos(), 8192);
    assert_eq!(br.read(8), 0);
}

#[test]
fn bit_reader_rewind_undoes_a_read() {
    let buf = [0x12u8, 0x34, 0x56];
    let mut br = BitReader::new(&buf);
    br.read(4);
    let first = br.read(9);
    br.rewind(9);
    assert_eq!(br.pos(), 4);
    assert_eq!(br.read(9), first);
    assert_eq!(first, 0b0_0100_0110);
}

#[test]
fn frame_header_fields() {
    // sr id 1, cci 2, length 506 + 1, status 1.
    let stream = [0xAA, 0b001_10_111, 0b1110_1001, 0xFF];
    let h = parse_frame_header(&stream).unwrap();
    assert_eq!(h.smplrate_id, 1);
    assert_eq!(h.chconfig_id, 2);
    assert_eq!(h.frame_length, 0b1_1111_1010 + 1);
    assert_eq!(h.frame_status, 1);
}

#[test]
fn frame_header_needs_syncword() {
    assert!(parse_frame_header(&[]).is_none());
    assert!(parse_frame_header(&[0xAB, 0, 0]).is_none());
    // The syncword alone is enough; missing bytes read as zero.
    let h = parse_frame_header(&[0xAA]).unwrap();
    assert_eq!((h.smplrate_id, h.chconfig_id, h.frame_length, h.frame_status), (0, 0, 1, 0));
}

#[test]
fn frame_header_maximum_length() {
    let h = parse_frame_header(&[0xAA, 0b000_00_111, 0b1111_1100]).unwrap();
    assert_eq!(h.frame_length, 512);
}

#[test]
fn sign_extension() {
    assert_eq!(sign_extend(0b11, 2), -1);
    assert_eq!(sign_extend(0b10, 2), -2);
    assert_eq!(sign_extend(0b01, 2), 1);
    assert_eq!(sign_extend(0x1F, 5), -1);
    assert_eq!(sign_extend(0x0F, 5), 15);
    assert_eq!(sign_extend(0x10, 5), -16);
    // Bits above the width are ignored.
    assert_eq!(sign_extend(0xF3, 4), 3);
    assert_eq!(sign_extend(1, 1), -1);
    assert_eq!(sign_extend(0xFFFF_FFFF, 32), -1);
    assert_eq!(sign_extend(0x7FFF_FFFF, 32), i32::MAX);
}

#[test]
fn consecutive_reads_make_one_wider_read() {
    let buf = [0b1011_0010u8, 0b0111_1100, 0b1100_0011, 0x5A, 0xA5];
    for p in 0..12u32 {
        for a in 1..=15u32 {
            for b in 1..=(16 - a) {
                let mut r1 = BitReader::new(&buf);
                let mut r2 = BitReader::new(&buf);
                r1.read(p.min(16));
                r2.read(p.min(16));
                let x = r1.read(a);
                let y = r1.read(b);
                assert_eq!((x << b) | y, r2.read(a + b));
                assert_eq!(r1.pos(), r2.pos());
            }
        }
    }
}

#[test]
fn rewind_then_read_another_width() {
    let buf = [0x12u8, 0x34, 0x56, 0x78];
    let mut r = BitReader::new(&buf);
    r.read(5);
    let _ = r.read(9);
    r.rewind(9);
    assert_eq!(r.pos(), 5);
    let mut fresh = BitReader::new(&buf);
    fresh.read(5);
    assert_eq!(r.read(13), fresh.read(13));
}
