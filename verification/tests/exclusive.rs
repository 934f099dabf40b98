//! The bytes that a device gets in exclusive mode.

use open_bar::exclusive::{
    containers, dop_block, pcm_bits, pcm_bytes, quantize, refused_message, wanted_period, FixedRun,
};
use open_bar::exclusive_bytes::{write_pcm_sample, write_sample_24};

#[test]
fn sample_24_is_written_bit_exactly_in_both_container_widths() {
    let mut b = Vec::new();
    write_sample_24(&mut b, 0x05_69_69 as i32, 3);
    assert_eq!(b, vec![0x69, 0x69, 0x05], "3バイト: リトルエンディアンの24bit");
    let mut b = Vec::new();
    write_sample_24(&mut b, 0x05_69_69, 4);
    assert_eq!(b, vec![0x00, 0x69, 0x69, 0x05], "4バイト: 左詰め(<<8)、下位バイトは0");
    let v = ((0xFAi32 << 16 | 0x12 << 8 | 0x34) << 8) >> 8;
    let mut b = Vec::new();
    write_sample_24(&mut b, v, 4);
    assert_eq!(b, vec![0x00, 0x34, 0x12, 0xFA]);
    let mut b = Vec::new();
    write_sample_24(&mut b, v, 3);
    assert_eq!(b, vec![0x34, 0x12, 0xFA]);
}

#[test]
fn quantize_rounds_clamps_and_round_trips_integers_exactly() {
    assert_eq!(quantize(0.5f32.to_bits(), 24), 4_194_304);
    assert_eq!(quantize(2.0f32.to_bits(), 16), 32_767);
    assert_eq!(quantize((-1.0f32).to_bits(), 16), -32_768);
    for k in [-8_388_608i32, -8_388_607, -1, 0, 1, 0x05_69_69, 8_388_607, (0xFA_12_34i32) << 8 >> 8] {
        assert_eq!(quantize((k as f32 / 8_388_608.0).to_bits(), 24), k, "{k}");
    }
    for k in [-32_768i32, -1, 0, 1, 12_345, 32_767] {
        assert_eq!(quantize((k as f32 / 32_768.0).to_bits(), 16), k, "{k}");
    }
}

fn float_quantize(v: f32, bits: u32) -> i32 {
    let scale = (1i64 << (bits - 1)) as f32;
    let max = scale - 1.0;
    (v * scale).round().clamp(-scale, max) as i32
}

#[test]
fn quantize_is_what_the_arithmetic_of_binary32_gives() {
    let mut patterns: Vec<u32> = vec![
        0,
        0x8000_0000,
        1,
        0x8000_0001,
        0x007f_ffff,
        0x0080_0000,
        0x3f80_0000,
        0xbf80_0000,
        0x7f80_0000,
        0xff80_0000,
        0x7fc0_0000,
        0xffff_ffff,
        0x7f7f_ffff,
        0xff7f_ffff,
        0x4b7f_ffff,
        0x4000_0000,
    ];
    let mut x: u32 = 12_345;
    for _ in 0..20_000 {
        x = x.wrapping_mul(1_664_525).wrapping_add(1_013_904_223);
        patterns.push(x);
        patterns.push((x & 0x83ff_ffff) | 0x3c00_0000);
    }
    for bits in [1u32, 2, 8, 16, 17, 20, 24, 25, 26, 31, 32, 33, 48, 63] {
        for p in &patterns {
            assert_eq!(quantize(*p, bits), float_quantize(f32::from_bits(*p), bits), "{:#x} {}", p, bits);
        }
    }
}

#[test]
fn samples_of_16_bits_fill_the_upper_part_of_wider_containers() {
    let mut b = Vec::new();
    write_pcm_sample(&mut b, -2, 16, 2);
    write_pcm_sample(&mut b, 0x1234, 16, 3);
    write_pcm_sample(&mut b, 0x1234, 16, 4);
    write_pcm_sample(&mut b, -1, 24, 3);
    assert_eq!(b, vec![0xFE, 0xFF, 0x00, 0x34, 0x12, 0x00, 0x00, 0x34, 0x12, 0xFF, 0xFF, 0xFF]);
}

#[test]
fn audio_becomes_bytes() {
    let samples: Vec<u32> = [0.5f32, -1.0, 2.0].iter().map(|v| v.to_bits()).collect();
    let mut out = vec![9];
    pcm_bytes(&samples, 16, 2, &mut out);
    assert_eq!(out, vec![9, 0x00, 0x40, 0x00, 0x80, 0xFF, 0x7F]);
    let mut out = Vec::new();
    pcm_bytes(&samples[..1], 24, 4, &mut out);
    assert_eq!(out, vec![0x00, 0x00, 0x00, 0x40]);
}

#[test]
fn formats_are_offered_in_order() {
    assert_eq!(containers(24), vec![(32, 24), (24, 24), (32, 32)]);
    assert_eq!(containers(16), vec![(16, 16), (32, 24), (24, 24), (32, 16)]);
    assert_eq!(
        refused_message(705_600, 24, 2, "no"),
        "排他モードで705600Hz/24bit/2chを受け付けません: no"
    );
    assert_eq!(pcm_bits(8), 16);
    assert_eq!(pcm_bits(20), 20);
    assert_eq!(pcm_bits(32), 24);
}

#[test]
fn the_period_is_long_enough() {
    assert_eq!(wanted_period(30_000), 100_000);
    assert_eq!(wanted_period(100_001), 150_001);
    assert_eq!(wanted_period(-7), 100_000);
    assert_eq!(wanted_period(i64::MIN / 3), 100_000);
}

#[test]
fn dop_frames_are_sent_as_they_are_and_the_end_is_silence() {
    let frames = vec![vec![[0x05, 0x11, 0x22], [0xFA, 0x33, 0x44]], vec![[0x05, 0x55, 0x66]]];
    let mut out = Vec::new();
    dop_block(&frames, 0, 3, 3, &mut out);
    assert_eq!(
        out,
        vec![
            0x22, 0x11, 0x05, 0x66, 0x55, 0x05, //
            0x44, 0x33, 0xFA, 0x69, 0x69, 0xFA, //
            0x69, 0x69, 0x05, 0x69, 0x69, 0x05,
        ]
    );
    let mut later = Vec::new();
    dop_block(&frames, 1, 1, 4, &mut later);
    assert_eq!(later, vec![0x00, 0x44, 0x33, 0xFA, 0x00, 0x69, 0x69, 0xFA]);
}

#[test]
fn a_piece_of_known_length_comes_to_its_end() {
    let mut r = FixedRun { pos: 0, total: 10 };
    assert!(r.advance(4));
    assert_eq!(r.written(), 4);
    assert!(!r.advance(8));
    assert_eq!(r.written(), 10);
}

#[test]
fn integer_samples_arrive_in_every_container_unchanged() {
    for k in [-8_388_608i32, -8_388_607, -1, 0, 1, 0x12_34_56, 8_388_607] {
        let p = (k as f32 / 8_388_608.0).to_bits();
        let mut three = Vec::new();
        pcm_bytes(&[p], 24, 3, &mut three);
        assert_eq!(three, k.to_le_bytes()[..3].to_vec(), "{k}");
        let mut four = Vec::new();
        pcm_bytes(&[p], 24, 4, &mut four);
        assert_eq!(four, (k << 8).to_le_bytes().to_vec(), "{k}");
    }
    for k in [-32_768i32, -1, 0, 12_345, 32_767] {
        let p = (k as f32 / 32_768.0).to_bits();
        let mut two = Vec::new();
        pcm_bytes(&[p], 16, 2, &mut two);
        assert_eq!(two, (k as i16).to_le_bytes().to_vec(), "{k}");
        let mut four = Vec::new();
        pcm_bytes(&[p], 16, 4, &mut four);
        assert_eq!(four, (k << 16).to_le_bytes().to_vec(), "{k}");
    }
}
