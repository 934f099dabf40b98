//! Rates, filters, channels and blocks.

use open_bar::output::{
    conversion, device_rate, fill_frames, integer_ratio, map_channels_pub, next_noise, poly_design, sinc_params,
    Conversion, Feed, OutputError, OutputRange, ResampleFilter, ResampleRun, SincParams, Window, CHUNK,
};
use rubato::{Resampler, SincFixedIn, SincInterpolationParameters, SincInterpolationType, WindowFunction};

#[test]
fn same_rate_is_untouched_and_channels_are_mapped() {
    assert_eq!(conversion(48_000, 48_000, ResampleFilter::Standard), Conversion::Same);
    assert_eq!(map_channels_pub(&[0.5, -0.5], 1, 2, 0.0), vec![0.5, 0.5, -0.5, -0.5]);
    assert_eq!(
        map_channels_pub(&[1.0, 2.0, 3.0, 4.0], 2, 4, 0.0),
        vec![1.0, 2.0, 0.0, 0.0, 3.0, 4.0, 0.0, 0.0]
    );
    assert_eq!(map_channels_pub(&[1.0, 2.0, 3.0, 4.0, 5.0, 6.0], 3, 2, 0.0), vec![1.0, 2.0, 4.0, 5.0]);
}

#[test]
fn mono_survives_being_spread() {
    let wide = map_channels_pub(&[1, 2, 3], 1, 5, 0);
    assert_eq!(wide.len(), 15);
    assert_eq!(map_channels_pub(&wide, 5, 1, 0), vec![1, 2, 3]);
    assert_eq!(map_channels_pub(&[1, 2, 3], 2, 2, 0), vec![1, 2, 3], "the same number leaves even half a frame");
}

#[test]
fn every_error_has_its_message() {
    assert_eq!(OutputError::NoDevice.message(), "出力デバイスがありません");
    assert_eq!(OutputError::Config("x".to_string()).message(), "デバイスの設定を取得できません: x");
    assert_eq!(OutputError::Stream("x".to_string()).message(), "再生できません: x");
    assert_eq!(OutputError::Resample("x".to_string()).message(), "リサンプルに失敗しました: x");
}

#[test]
fn filters_have_their_designs() {
    assert_eq!(ResampleFilter::default(), ResampleFilter::Standard);
    assert_eq!(
        sinc_params(ResampleFilter::Sharp),
        SincParams { sinc_len: 512, cutoff_pct: 99, oversampling_factor: 256, window: Window::BlackmanHarris2 }
    );
    assert_eq!(
        sinc_params(ResampleFilter::Soft),
        SincParams { sinc_len: 256, cutoff_pct: 90, oversampling_factor: 256, window: Window::Blackman2 }
    );
    assert_eq!(sinc_params(ResampleFilter::Standard).cutoff_pct, 95);
    assert_eq!(sinc_params(ResampleFilter::Custom(10)).cutoff_pct, 80);
    assert_eq!(poly_design(ResampleFilter::Standard), (128, 95));
    assert_eq!(poly_design(ResampleFilter::Sharp), (256, 99));
    assert_eq!(poly_design(ResampleFilter::Soft), (96, 90));
    assert_eq!(poly_design(ResampleFilter::Custom(200)), (128, 99));
    assert_eq!(poly_design(ResampleFilter::Custom(93)), (128, 93));
}

#[test]
fn whole_number_ratios_up_to_32_are_found() {
    assert_eq!(integer_ratio(44_100, 352_800), Some(8));
    assert_eq!(integer_ratio(44_100, 88_200), Some(2));
    assert_eq!(integer_ratio(44_100, 44_100), None);
    assert_eq!(integer_ratio(44_100, 48_000), None);
    assert_eq!(integer_ratio(0, 48_000), None);
    assert_eq!(integer_ratio(1_000, 32_000), Some(32));
    assert_eq!(integer_ratio(1_000, 33_000), None);
    assert_eq!(
        conversion(44_100, 352_800, ResampleFilter::Soft),
        Conversion::Poly { ratio: 8, taps: 96, cutoff_pct: 90 }
    );
    assert_eq!(
        conversion(44_100, 48_000, ResampleFilter::Soft),
        Conversion::Sinc(sinc_params(ResampleFilter::Soft))
    );
}

#[test]
fn noise_goes_on() {
    let mut want: u64 = 0x2545F4914F6CDD1D;
    let mut x = want;
    for _ in 0..10 {
        want ^= want << 13;
        want ^= want >> 7;
        want ^= want << 17;
        x = next_noise(x);
        assert_eq!(x, want);
        assert_ne!(x, 0);
    }
}

#[test]
fn resampling_runs_over_whole_blocks_and_the_rest() {
    let samples: Vec<i32> = (0..2 * 5_000).collect();
    let mut run = ResampleRun::new(&samples, 2);
    let mut sizes = Vec::new();
    loop {
        match run.next_feed() {
            Feed::Full(b) => {
                assert_eq!(b.len(), 2);
                assert_eq!(b[0].len(), 2_048);
                assert_eq!(b[1][0], b[0][0] + 1);
                sizes.push(b[0].len());
                run.accept(b);
            }
            Feed::Partial(b) => {
                sizes.push(b[0].len());
                run.accept(b);
            }
            Feed::Done => {
                sizes.push(0);
                let out = run.finish(5_000);
                assert_eq!(out, samples, "a resampler that changes nothing gives the same audio");
                assert_eq!(run.finish(3), (0..6).collect::<Vec<i32>>());
                assert_eq!(run.finish(0), vec![0, 1]);
                break;
            }
        }
    }
    assert_eq!(sizes, vec![2_048, 2_048, 904, 0]);
}

#[test]
fn every_frame_is_handed_out_once() {
    for len in [2 * 4_096, 2 * 4_096 + 1, 2 * 300 + 1, 0] {
        let samples: Vec<i32> = (0..len).collect();
        let mut run = ResampleRun::new(&samples, 2);
        let mut handed: Vec<Vec<i32>> = vec![Vec::new(), Vec::new()];
        loop {
            match run.next_feed() {
                Feed::Full(b) | Feed::Partial(b) => {
                    handed[0].extend(&b[0]);
                    handed[1].extend(&b[1]);
                }
                Feed::Done => break,
            }
        }
        let ends = if (len / 2) % 2_048 == 0 { len / 2 * 2 } else { len };
        assert_eq!(handed[0], (0..ends).step_by(2).collect::<Vec<i32>>());
        assert_eq!(handed[1], (1..ends).step_by(2).collect::<Vec<i32>>());
    }
}

#[test]
fn a_device_runs_at_the_rate_of_the_audio_if_it_can() {
    let offers = [
        OutputRange { channels: 2, min_rate: 44_100, max_rate: 48_000, default_format: false },
        OutputRange { channels: 6, min_rate: 8_000, max_rate: 192_000, default_format: true },
        OutputRange { channels: 2, min_rate: 44_100, max_rate: 96_000, default_format: true },
    ];
    assert_eq!(device_rate(&offers, 2, 48_000, 88_200), 88_200);
    assert_eq!(device_rate(&offers, 2, 48_000, 44_100), 44_100);
    assert_eq!(device_rate(&offers, 2, 48_000, 192_000), 48_000);
    assert_eq!(device_rate(&offers[..1], 2, 48_000, 44_100), 48_000);
}

#[test]
fn silence_follows_the_end() {
    assert_eq!(fill_frames(&[1, 2, 3, 4, 5, 6], 1, 2, 2, 0), vec![3, 4, 5, 6]);
    assert_eq!(fill_frames(&[1, 2, 3, 4, 5, 6], 2, 3, 2, 0), vec![5, 6, 0, 0, 0, 0]);
    assert_eq!(fill_frames(&[1, 2, 3], 9, 1, 2, 0), vec![0, 0]);
}

fn sinc(samples: &[f32], channels: usize, from: u32, to: u32, filter: ResampleFilter) -> Vec<f32> {
    let p = sinc_params(filter);
    let params = SincInterpolationParameters {
        sinc_len: p.sinc_len,
        f_cutoff: p.cutoff_pct as f32 / 100.0,
        interpolation: SincInterpolationType::Cubic,
        oversampling_factor: p.oversampling_factor,
        window: match p.window {
            Window::BlackmanHarris2 => WindowFunction::BlackmanHarris2,
            Window::Blackman2 => WindowFunction::Blackman2,
        },
    };
    let mut rs = SincFixedIn::<f32>::new(to as f64 / from as f64, 2.0, params, CHUNK, channels).unwrap();
    let mut run = ResampleRun::new(samples, channels);
    loop {
        match run.next_feed() {
            Feed::Full(b) => run.accept(rs.process(&b, None).unwrap()),
            Feed::Partial(b) => run.accept(rs.process_partial(Some(&b), None).unwrap()),
            Feed::Done => break,
        }
    }
    let frames = samples.len() / channels;
    run.finish((frames as f64 * to as f64 / from as f64).round() as usize)
}

fn tone(rate: u32, secs: f64, amp: f32) -> Vec<f32> {
    (0..(rate as f64 * secs) as usize)
        .map(|i| amp * (2.0 * std::f32::consts::PI * 1000.0 * i as f32 / rate as f32).sin())
        .collect()
}

fn amplitude(x: &[f32], rate: u32) -> f64 {
    let n = x.len().min(rate as usize / 2);
    let start = x.len() / 4;
    let seg = &x[start..start + n.min(x.len() - start)];
    let (mut s, mut c) = (0.0, 0.0);
    for (i, v) in seg.iter().enumerate() {
        let ph = 2.0 * std::f64::consts::PI * 1000.0 * (start + i) as f64 / rate as f64;
        s += *v as f64 * ph.sin();
        c += *v as f64 * ph.cos();
    }
    2.0 * (s * s + c * c).sqrt() / seg.len() as f64
}

#[test]
fn resampling_keeps_the_tone_amplitude_and_scales_the_length() {
    let x = tone(48_000, 1.0, 0.5);
    let y = sinc(&x, 1, 48_000, 44_100, ResampleFilter::Standard);
    assert!((y.len() as f64 - 44_100.0).abs() < 8.0, "長さ: {}", y.len());
    assert!((amplitude(&y, 44_100) - 0.5).abs() < 0.01, "振幅: {}", amplitude(&y, 44_100));
    let z = sinc(&x, 1, 48_000, 192_000, ResampleFilter::Standard);
    assert!((z.len() as f64 - 192_000.0).abs() < 8.0);
    assert!((amplitude(&z, 192_000) - 0.5).abs() < 0.01);
}

fn gain_db(y: &[f32], at: f64) -> f64 {
    let seg = &y[y.len() / 4..y.len() * 3 / 4];
    let (mut s, mut c) = (0.0, 0.0);
    for (i, v) in seg.iter().enumerate() {
        let ph = 2.0 * std::f64::consts::PI * at * i as f64 / 352_800.0;
        s += *v as f64 * ph.sin();
        c += *v as f64 * ph.cos();
    }
    let amplitude: f64 = 2.0 * (s * s + c * c).sqrt() / seg.len() as f64;
    20.0 * (amplitude / 0.5).max(1e-12).log10()
}

fn upsampled(freq: f64, filter: ResampleFilter) -> Vec<f32> {
    let x: Vec<f32> = (0..88_200)
        .map(|i| 0.5 * (2.0 * std::f32::consts::PI * freq as f32 * i as f32 / 44_100.0).sin())
        .collect();
    sinc(&x, 1, 44_100, 352_800, filter)
}

fn is_flat_without_images(filter: ResampleFilter) {
    let y = upsampled(1_000.0, filter);
    let pass1 = gain_db(&y, 1_000.0);
    let image = gain_db(&y, 43_100.0);
    assert!(pass1.abs() < 0.05, "{filter:?} 1kHzは平坦: {pass1}");
    assert!(image < -90.0, "{filter:?} 鏡像の抑圧が不足: {image}");
}

// A conversion takes seconds, so each filter has tests of its own.
#[test]
fn upsampling_filters_have_the_advertised_passband_and_image_rejection() {
    is_flat_without_images(ResampleFilter::Standard);
    let pass20 = gain_db(&upsampled(20_000.0, ResampleFilter::Standard), 20_000.0);
    assert!(pass20.abs() < 0.5, "標準も20kHzはほぼ平坦: {pass20}");
}

#[test]
fn the_soft_filter_rolls_off_gently_and_rejects_images() {
    is_flat_without_images(ResampleFilter::Soft);
    let pass20 = gain_db(&upsampled(20_000.0, ResampleFilter::Soft), 20_000.0);
    assert!(pass20 < -0.5, "ソフトは20kHzを緩やかに落とす: {pass20}");
}

#[test]
fn the_sharp_filter_rejects_images() {
    is_flat_without_images(ResampleFilter::Sharp);
}

#[test]
fn the_sharp_filter_is_flat_up_to_20_khz() {
    let pass20 = gain_db(&upsampled(20_000.0, ResampleFilter::Sharp), 20_000.0);
    assert!(pass20.abs() < 0.1, "シャープは20kHzまで平坦: {pass20}");
}
