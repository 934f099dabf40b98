//! Sources of audio.

use open_bar::pcm::Pcm;
use open_bar::source::{
    dop_payload_from_f32, dop_word, duration, DopSource, DsdStream, PcmSource, Progress, Source, DOP_IDLE_PAYLOAD,
};

const DOP_SCALE: f32 = 65_536.0;

fn stream() -> DsdStream {
    DsdStream {
        rate_hz: 2_822_400,
        channels: vec![vec![0xAA, 0x55, 0x12, 0x34, 0xFF], vec![0x01, 0x02, 0x03, 0x04, 0x05]],
        sample_bits: 40,
    }
}

#[test]
fn dop_source_payloads_round_trip_exactly_and_words_get_alternating_markers() {
    let s = DopSource::new(stream());
    assert_eq!(s.rate_hz(), 176_400);
    assert_eq!(s.total_frames(), 3, "5バイト→DoP 3フレーム(最後はDSD無音で埋める)");
    let v: Vec<f32> = s.read(0, 10).iter().map(|p| *p as f32 / DOP_SCALE).collect();
    assert_eq!(v.len(), 6);
    let back: Vec<u16> = v.iter().map(|x| dop_payload_from_f32(x.to_bits())).collect();
    assert_eq!(back[0], 0xAA55);
    assert_eq!(back[1], 0x0102);
    assert_eq!(back[2], 0x1234);
    assert_eq!(back[4], 0xFF69, "端数バイトはDSD無音0x69で埋まる");
    assert_eq!(dop_word(true, 0xAA55), 0x05_AA_55);
    assert_eq!(dop_word(false, 0x1234), (0xFA_12_34i32) << 8 >> 8, "0xFAは符号付き24bitで負");
    assert_eq!(dop_word(true, DOP_IDLE_PAYLOAD), 0x05_69_69);
    for p in [0u16, 1, 0x6969, 0x8000, 0xFFFF, 0xABCD] {
        assert_eq!(dop_payload_from_f32((p as f32 / DOP_SCALE).to_bits()), p);
    }
    assert!(v.iter().all(|x| (0.0..1.0).contains(x)));
}

#[test]
fn pcm_source_reads_ranges_and_stops_at_the_end() {
    let s = PcmSource::new(
        Pcm {
            sample_rate: 44_100,
            channels: 2,
            samples: (0..20).map(|x| x as f32).collect(),
            bits_per_sample: Some(16),
        },
        "PCM".to_string(),
    );
    assert_eq!(s.total_frames(), 10);
    assert_eq!(s.read(8, 5), vec![16.0, 17.0, 18.0, 19.0]);
    assert!(s.read(10, 5).is_empty());
}

#[test]
fn reads_may_be_cut_anywhere() {
    let s = DopSource::new(stream());
    let all = s.read(0, 3);
    let mut parts = s.read(0, 1);
    parts.extend(s.read(1, 5));
    assert_eq!(parts, all);
    assert_eq!(all, vec![0xAA55, 0x0102, 0x1234, 0x0304, 0xFF69, 0x0569]);
    assert_eq!(s.payload(1, 7), DOP_IDLE_PAYLOAD);
}

#[test]
fn sources_tell_what_they_are() {
    let d = DopSource::new(stream());
    assert_eq!((d.kind().as_str(), d.channels()), ("DoP", 2));
    assert_eq!(duration(&d), Progress { frames: 3, rate_hz: 176_400 });
    let p = PcmSource::new(
        Pcm { sample_rate: 8_000, channels: 1, samples: vec![1, 2, 3], bits_per_sample: None },
        "MQA".to_string(),
    );
    assert_eq!((p.kind().as_str(), p.channels(), p.rate_hz()), ("MQA", 1, 8_000));
    assert_eq!(duration(&p), Progress { frames: 3, rate_hz: 8_000 });
}

#[test]
fn payloads_outside_the_range_become_the_nearest() {
    assert_eq!(dop_payload_from_f32(2.0f32.to_bits()), 0xFFFF);
    assert_eq!(dop_payload_from_f32((-0.5f32).to_bits()), 0);
    assert_eq!(dop_payload_from_f32(f32::NAN.to_bits()), 0);
}
