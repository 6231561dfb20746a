use ldac_dec::wav::{channel_mode_for, format_for, parse_wav_header, read_le_u16, read_le_u32, wav_header, WavInfo};
use ldac_dec::{interleave_pcm, ChannelMode, SampleFormat};

#[test]
fn word_lengths() {
    assert_eq!(SampleFormat::S16.word_len(), 2);
    assert_eq!(SampleFormat::S24.word_len(), 3);
    assert_eq!(SampleFormat::S32.word_len(), 4);
    assert_eq!(SampleFormat::F32.word_len(), 4);
}

#[test]
fn interleave_stereo_s16() {
    let planar = [vec![1u8, 2, 3, 4, 5, 6], vec![11u8, 12, 13, 14, 15, 16]];
    let mut out = [0xEEu8; 14];
    let n = interleave_pcm(&mut out, &planar, 3, 2, SampleFormat::S16);
    assert_eq!(n, 12);
    assert_eq!(out, [1, 2, 11, 12, 3, 4, 13, 14, 5, 6, 15, 16, 0xEE, 0xEE]);
}

#[test]
fn interleave_mono_s24() {
    let planar = [vec![1u8, 2, 3, 4, 5, 6], vec![]];
    let mut out = [0u8; 6];
    let n = interleave_pcm(&mut out, &planar, 2, 1, SampleFormat::S24);
    assert_eq!(n, 6);
    assert_eq!(out, [1, 2, 3, 4, 5, 6]);
}

#[test]
fn interleave_nothing() {
    let planar = [vec![1u8, 2], vec![3u8, 4]];
    let mut out = [9u8; 4];
    assert_eq!(interleave_pcm(&mut out, &planar, 0, 2, SampleFormat::S16), 0);
    assert_eq!(interleave_pcm(&mut out, &planar, 1, 3, SampleFormat::S16), 0);
    assert_eq!(out, [9, 9, 9, 9]);
}

#[test]
fn little_endian_reads() {
    assert_eq!(read_le_u16(&[0x34, 0x12]), 0x1234);
    assert_eq!(read_le_u32(&[0x78, 0x56, 0x34, 0x12]), 0x1234_5678);
}

fn sample_info() -> WavInfo {
    WavInfo { sample_rate: 48_000, channels: 2, bits_per_sample: 16, format_tag: 1 }
}

#[test]
fn wav_header_layout() {
    let h = wav_header(&sample_info(), 1000);
    assert_eq!(h.len(), 44);
    assert_eq!(&h[0..4], b"RIFF");
    assert_eq!(read_le_u32(&h[4..8]), 1036);
    assert_eq!(&h[8..16], b"WAVEfmt ");
    assert_eq!(read_le_u32(&h[16..20]), 16);
    assert_eq!(read_le_u16(&h[20..22]), 1);
    assert_eq!(read_le_u16(&h[22..24]), 2);
    assert_eq!(read_le_u32(&h[24..28]), 48_000);
    assert_eq!(read_le_u32(&h[28..32]), 192_000);
    assert_eq!(read_le_u16(&h[32..34]), 4);
    assert_eq!(read_le_u16(&h[34..36]), 16);
    assert_eq!(&h[36..40], b"data");
    assert_eq!(read_le_u32(&h[40..44]), 1000);
}

#[test]
fn wav_header_round_trip() {
    let info = WavInfo { sample_rate: 96_000, channels: 1, bits_per_sample: 32, format_tag: 3 };
    let h = wav_header(&info, 4096);
    let back = parse_wav_header(&h);
    assert_eq!(back.sample_rate, 96_000);
    assert_eq!(back.channels, 1);
    assert_eq!(back.bits_per_sample, 32);
    assert_eq!(back.format_tag, 3);
}

#[test]
fn output_format_choice() {
    assert_eq!(format_for(3, 32), Some(SampleFormat::F32));
    assert_eq!(format_for(3, 16), Some(SampleFormat::F32));
    assert_eq!(format_for(1, 16), Some(SampleFormat::S16));
    assert_eq!(format_for(1, 24), Some(SampleFormat::S24));
    assert_eq!(format_for(1, 32), Some(SampleFormat::S32));
    assert_eq!(format_for(1, 8), None);
    assert_eq!(channel_mode_for(2), ChannelMode::Stereo);
    assert_eq!(channel_mode_for(1), ChannelMode::Mono);
    assert_eq!(channel_mode_for(6), ChannelMode::Mono);
}

#[test]
fn wav_header_sizes_wrap_at_32_bits() {
    // A length past 4 GiB is written modulo 2^32, as a 32-bit field holds it.
    if usize::BITS > 32 {
        let len = (1usize << 32) + 100;
        let h = wav_header(&sample_info(), len);
        assert_eq!(read_le_u32(&h[4..8]), 136);
        assert_eq!(read_le_u32(&h[40..44]), 100);
    }
}

#[test]
fn wav_header_fields_read_back() {
    for info in [
        WavInfo { sample_rate: 44_100, channels: 2, bits_per_sample: 24, format_tag: 1 },
        WavInfo { sample_rate: 96_000, channels: 1, bits_per_sample: 32, format_tag: 3 },
        WavInfo { sample_rate: 0xFFFF_FFFF, channels: 0xFFFF, bits_per_sample: 0, format_tag: 0xFFFE },
    ] {
        let back = parse_wav_header(&wav_header(&info, 12));
        assert_eq!(
            (back.sample_rate, back.channels, back.bits_per_sample, back.format_tag),
            (info.sample_rate, info.channels, info.bits_per_sample, info.format_tag)
        );
    }
}

#[test]
fn wav_header_markers_and_sizes() {
    let h = wav_header(&sample_info(), 7);
    assert_eq!(&h[0..4], b"RIFF");
    assert_eq!(&h[8..16], b"WAVEfmt ");
    assert_eq!(&h[36..40], b"data");
    assert_eq!(read_le_u32(&h[4..8]), 43);
    assert_eq!(read_le_u32(&h[40..44]), 7);
}
