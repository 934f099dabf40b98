//! Gapless playback and gain.

use open_bar::output::OutputError;
use open_bar::pcm::{Pcm, PcmError};
use open_bar::playlist::{parse_decimal, parse_gain, remap, Decimal, Gapless, PlaylistError};

fn gain_to_amplitude(db: f64) -> f32 {
    10f64.powf(db / 20.0) as f32
}

fn db(d: Option<Decimal>) -> Option<f64> {
    d.map(|d| d.mantissa as f64 / 10f64.powi(d.decimals as i32))
}

#[test]
fn gain_tag_is_parsed_from_vorbis_comment_style_bytes() {
    assert_eq!(db(parse_gain(b"xx\x00REPLAYGAIN_TRACK_GAIN=-6.50 dB\x00yy")), Some(-6.5));
    assert_eq!(db(parse_gain(b"replaygain_track_gain=+3.2 dB")), Some(3.2));
    assert_eq!(db(parse_gain(b"nothing here")), None);
    assert!((gain_to_amplitude(-6.0206) - 0.5).abs() < 1e-3);
}

#[test]
fn remap_duplicates_mono_and_truncates_extra_channels() {
    assert_eq!(remap(&[0.1, 0.2], 1, 2, 0.0), vec![0.1, 0.1, 0.2, 0.2]);
    assert_eq!(remap(&[1.0, 2.0, 3.0, 4.0], 2, 1, 0.0), vec![1.0, 3.0]);
}

#[test]
fn numbers_are_read_as_standard_parsing_reads_them() {
    for t in [
        "0", "-0", "5.", "-.5", "+.25", ".", "+", "-", "1-2", "1+", "1.2.3", "12345678901", "-6.50", "000.100", "--1",
        "+-1", "", "3.2", "0.000000001", "999999999999", "1.-5",
    ] {
        let chars: Vec<char> = t.chars().collect();
        assert_eq!(db(parse_decimal(&chars)), t.parse::<f64>().ok(), "{t}");
    }
    assert_eq!(parse_decimal(&vec!['-', '6', '.', '5', '0']), Some(Decimal { mantissa: -650, decimals: 2 }));
}

#[test]
fn the_first_key_counts_and_twelve_characters_at_most() {
    assert_eq!(
        parse_gain(b"REPLAYGAIN_TRACK_GAIN\x00\x00 1.5 REPLAYGAIN_TRACK_GAIN=2"),
        Some(Decimal { mantissa: 15, decimals: 1 })
    );
    assert_eq!(
        parse_gain(b"ReplayGain_Track_Gain=1.23456789012345"),
        Some(Decimal { mantissa: 12_345_678_901, decimals: 10 })
    );
    assert_eq!(parse_gain(b"REPLAYGAIN_TRACK_GAIN=none"), None);
    assert_eq!(parse_gain(b"REPLAYGAIN_TRACK_GAIN=1-2 dB"), None);
    assert_eq!(parse_gain(b"REPLAYGAIN_TRACK_GAI=1"), None);
}

#[test]
fn tracks_are_joined_without_a_gap() {
    let first = Pcm { sample_rate: 48_000, channels: 2, samples: vec![1, 2, 3, 4], bits_per_sample: Some(16) };
    let mut g = Gapless::start(first);
    assert_eq!(g.needs_rate(48_000), None);
    assert_eq!(g.needs_rate(44_100), Some(48_000));
    g.append(&[5, 6], 2, 0);
    g.append(&[7, 8], 1, 0);
    g.append(&[9, 10, 11], 3, 0);
    let p = g.finish();
    assert_eq!(p.samples, vec![1, 2, 3, 4, 5, 6, 7, 7, 8, 8, 9, 10]);
    assert_eq!((p.sample_rate, p.channels, p.bits_per_sample), (48_000, 2, Some(16)));
}

#[test]
fn every_playlist_error_has_its_message() {
    assert_eq!(PlaylistError::Empty.message(), "プレイリストが空です");
    assert_eq!(
        PlaylistError::Decode(PcmError::Decode("x".to_string())).message(),
        "デコードできません: x"
    );
    assert_eq!(PlaylistError::Decode(PcmError::Io("x".to_string())).message(), "ファイルを開けません: x");
    assert_eq!(
        PlaylistError::Resample(OutputError::Resample("x".to_string())).message(),
        "リサンプルに失敗しました: x"
    );
}
