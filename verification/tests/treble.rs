//! Bringing back some treble.

use open_bar::treble::{is_mp3_extension, is_mp3_path, TrebleRestore};

const SHELF_FREQ_HZ: f32 = 13_000.0;
const GAIN_DB: f32 = 6.0;

#[derive(Clone, Copy)]
struct Biquad {
    b: [f32; 3],
    a: [f32; 2],
    x: [f32; 2],
    y: [f32; 2],
}

fn high_shelf(sample_rate: f32) -> Biquad {
    let a = 10f32.powf(GAIN_DB / 40.0);
    let w0 = 2.0 * std::f32::consts::PI * (SHELF_FREQ_HZ / sample_rate).min(0.49);
    let (sin_w0, cos_w0) = w0.sin_cos();
    let alpha = sin_w0 / (2.0 * 0.707_f32);
    let k = 2.0 * a.sqrt() * alpha;
    let a0 = (a + 1.0) - (a - 1.0) * cos_w0 + k;
    Biquad {
        b: [
            a * ((a + 1.0) + (a - 1.0) * cos_w0 + k) / a0,
            -2.0 * a * ((a - 1.0) + (a + 1.0) * cos_w0) / a0,
            a * ((a + 1.0) + (a - 1.0) * cos_w0 - k) / a0,
        ],
        a: [2.0 * ((a - 1.0) - (a + 1.0) * cos_w0) / a0, ((a + 1.0) - (a - 1.0) * cos_w0 - k) / a0],
        x: [0.0; 2],
        y: [0.0; 2],
    }
}

fn step(s: Biquad, x: f32) -> (Biquad, f32) {
    let y = s.b[0] * x + s.b[1] * s.x[0] + s.b[2] * s.x[1] - s.a[0] * s.y[0] - s.a[1] * s.y[1];
    (Biquad { x: [x, s.x[0]], y: [y, s.y[0]], ..s }, y)
}

fn tone(rate: f32, freq: f32, n: usize) -> Vec<f32> {
    (0..n).map(|i| (2.0 * std::f32::consts::PI * freq * i as f32 / rate).sin()).collect()
}

fn rms(x: &[f32]) -> f32 {
    (x.iter().map(|v| v * v).sum::<f32>() / x.len() as f32).sqrt()
}

#[test]
fn boosts_high_frequencies_and_leaves_bass_alone() {
    let rate = 44_100.0;
    let n = 8_192;
    let bass_in = tone(rate, 200.0, n);
    let treble_in = tone(rate, 18_000.0, n);
    let mut f_bass = TrebleRestore::new(high_shelf(44_100.0), 1);
    let mut f_treble = TrebleRestore::new(high_shelf(44_100.0), 1);
    let mut bass_out = bass_in.clone();
    let mut treble_out = treble_in.clone();
    f_bass.process_interleaved(&mut bass_out, &step);
    f_treble.process_interleaved(&mut treble_out, &step);
    let seg = n / 2..n;
    let bass_gain_db = 20.0 * (rms(&bass_out[seg.clone()]) / rms(&bass_in[seg.clone()])).log10();
    let treble_gain_db = 20.0 * (rms(&treble_out[seg.clone()]) / rms(&treble_in[seg.clone()])).log10();
    assert!(bass_gain_db.abs() < 0.5, "低音はほぼ変化なしのはず: {bass_gain_db}dB");
    assert!(treble_gain_db > GAIN_DB - 1.0, "高音は設計通り持ち上がるはず: {treble_gain_db}dB (狙い {GAIN_DB}dB)");
}

#[test]
fn is_mp3_path_matches_extension_case_insensitively() {
    assert!(is_mp3_path("song.mp3"));
    assert!(is_mp3_path("SONG.MP3"));
    assert!(!is_mp3_path("song.flac"));
    assert!(!is_mp3_path("song"));
}

#[test]
fn only_the_extension_of_the_file_counts() {
    assert!(is_mp3_path("a/b.c/song.tar.Mp3"));
    assert!(is_mp3_path("C:\\music\\song.mp3"));
    assert!(is_mp3_path("\\\\server\\share\\song.mp3"));
    assert!(is_mp3_path("//server/share/song: live.MP3"));
    assert!(!is_mp3_path("\\\\server\\share\\song.flac"));
    assert!(is_mp3_path("music/song.mp3/"));
    assert!(!is_mp3_path("song.mp3/readme"));
    assert!(!is_mp3_path(".mp3"));
    assert!(is_mp3_extension(Some("mP3")));
    assert!(!is_mp3_extension(Some("mp4")));
    assert!(!is_mp3_extension(None));
}

#[test]
fn channels_do_not_mix_and_blocks_may_be_cut_between_frames() {
    let count = |s: i32, x: i32| (s + x, s);
    let mut f = TrebleRestore::new(0, 3);
    let mut all = vec![1, 10, 100, 2, 20, 200, 3, 30, 300];
    f.process_interleaved(&mut all, &count);
    assert_eq!(all, vec![0, 0, 0, 1, 10, 100, 3, 30, 300]);
    let mut g = TrebleRestore::new(0, 3);
    let mut first = vec![1, 10, 100];
    let mut rest = vec![2, 20, 200, 3, 30, 300];
    g.process_interleaved(&mut first, &count);
    g.process_interleaved(&mut rest, &count);
    first.extend(rest);
    assert_eq!(first, all);
    let mut h = TrebleRestore::new(5, 0);
    let mut mono = vec![1, 1];
    h.process_interleaved(&mut mono, &count);
    assert_eq!(mono, vec![5, 6], "there is always a channel");
}
