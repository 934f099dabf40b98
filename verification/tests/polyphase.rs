//! Upsampling by a whole number.

use open_bar::polyphase::Upsampler;

fn bessel_i0(x: f64) -> f64 {
    let (mut sum, mut term, mut k) = (1.0, 1.0, 1.0);
    while term > 1e-14 * sum {
        term *= (x / (2.0 * k)).powi(2);
        sum += term;
        k += 1.0;
    }
    sum
}

fn prototype(l: usize, m: usize, cutoff: f64, beta: f64) -> Vec<f32> {
    let n = l * m;
    let mid = (n as f64 - 1.0) / 2.0;
    let fc = cutoff * 0.5 / l as f64;
    let i0b = bessel_i0(beta);
    let h: Vec<f64> = (0..n)
        .map(|i| {
            let x = i as f64 - mid;
            let sinc = if x == 0.0 {
                2.0 * fc
            } else {
                (2.0 * std::f64::consts::PI * fc * x).sin() / (std::f64::consts::PI * x)
            };
            let r = x / (mid + 0.5);
            sinc * bessel_i0(beta * (1.0 - r * r).max(0.0).sqrt()) / i0b
        })
        .collect();
    let sum: f64 = h.iter().sum();
    h.iter().map(|v| (v * l as f64 / sum) as f32).collect()
}

fn upsampler(l: usize, m: usize, cutoff: f64, beta: f64) -> Upsampler<f32> {
    Upsampler::new(l, m, &prototype(l, m, cutoff, beta), 0.0)
}

fn mac(acc: f32, tap: f32, x: f32) -> f32 {
    acc + tap * x
}

fn tone(rate: f64, freq: f64, n: usize, amp: f32) -> Vec<f32> {
    (0..n).map(|i| amp * (2.0 * std::f64::consts::PI * freq * i as f64 / rate).sin() as f32).collect()
}

fn goertzel(x: &[f32], rate: f64, freq: f64) -> f64 {
    let (mut s, mut c) = (0.0, 0.0);
    for (i, v) in x.iter().enumerate() {
        let ph = 2.0 * std::f64::consts::PI * freq * i as f64 / rate;
        s += *v as f64 * ph.sin();
        c += *v as f64 * ph.cos();
    }
    2.0 * (s * s + c * c).sqrt() / x.len() as f64
}

#[test]
fn output_length_and_tone_amplitude_are_preserved_across_streamed_blocks() {
    let x = tone(44_100.0, 1_000.0, 44_100, 0.5);
    let mut up = upsampler(8, 64, 0.95, 9.0);
    let mut y = Vec::new();
    for block in x.chunks(2048) {
        y.extend(up.process(block, 0.0, &mac));
    }
    y.extend(up.flush(0.0, &mac));
    assert!(y.len() >= x.len() * 8, "遅延を補正しても入力×8以上の長さが出る: {}", y.len());
    let seg = &y[y.len() / 4..y.len() * 3 / 4];
    let a = goertzel(seg, 352_800.0, 1_000.0);
    assert!((a - 0.5).abs() < 0.001, "振幅: {a}");
    assert!(y[0].abs() < 0.05 && y[8 * 3].abs() > 0.0, "先頭は入力と同じ位置から始まる");
}

#[test]
fn image_rejection_and_passband_meet_the_targets() {
    let db = |a: f64| 20.0 * a.max(1e-12).log10();
    for (name, m, cutoff, min_image_db) in [("標準", 128usize, 0.95f64, 90.0f64), ("シャープ", 512, 0.99, 70.0)] {
        let x = tone(44_100.0, 1_000.0, 44_100, 0.5);
        let mut up = upsampler(8, m, cutoff, 9.0);
        let mut y = up.process(&x, 0.0, &mac);
        y.extend(up.flush(0.0, &mac));
        let seg = &y[y.len() / 4..y.len() * 3 / 4];
        let image = db(goertzel(seg, 352_800.0, 43_100.0) / 0.5);
        let x20 = tone(44_100.0, 20_000.0, 44_100, 0.5);
        let mut up2 = upsampler(8, m, cutoff, 9.0);
        let mut y20 = up2.process(&x20, 0.0, &mac);
        y20.extend(up2.flush(0.0, &mac));
        let seg20 = &y20[y20.len() / 4..y20.len() * 3 / 4];
        let pass20 = db(goertzel(seg20, 352_800.0, 20_000.0) / 0.5);
        println!("{name}: M={m} 鏡像(43.1kHz)={image:.1}dB 20kHzゲイン={pass20:.2}dB");
        assert!(image < -min_image_db, "{name}: 鏡像の抑圧が不足 {image}");
        assert!(pass20.abs() < 0.3, "{name}: 20kHzが平坦でない {pass20}");
    }
}

#[test]
fn it_is_much_faster_than_real_time() {
    let x = tone(44_100.0, 1_000.0, 44_100, 0.5);
    let mut up = upsampler(8, 128, 0.95, 9.0);
    let t0 = std::time::Instant::now();
    let _ = up.process(&x, 0.0, &mac);
    let one_channel = t0.elapsed().as_secs_f64();
    let rtf = 1.0 / (one_channel * 2.0);
    println!("ポリフェーズ標準(M=128): ステレオ実時間の {rtf:.1} 倍");
    assert!(rtf > 4.0, "実時間の4倍以上で動くはず: {rtf}");
}

#[test]
fn blocks_may_be_cut_anywhere() {
    let h: Vec<i64> = (1..=12).collect();
    let sum = |acc: i64, tap: i64, x: i64| acc + tap * x;
    let x: Vec<i64> = (1..=20).collect();
    let mut whole = Upsampler::new(3, 4, &h, 0);
    assert_eq!(whole.ratio(), 3);
    let mut a = whole.process(&x, 0, &sum);
    a.extend(whole.flush(0, &sum));
    let mut cut = Upsampler::new(3, 4, &h, 0);
    let mut b = cut.process(&x[..1], 0, &sum);
    b.extend(cut.process(&x[1..7], 0, &sum));
    b.extend(cut.process(&[], 0, &sum));
    b.extend(cut.process(&x[7..], 0, &sum));
    b.extend(cut.flush(0, &sum));
    assert_eq!(a, b);
    assert_eq!(a.len(), 3 * x.len() + 3 * 3 - 5, "three more inputs of silence, less the delay");
    assert_eq!(a[0], h[5] * x[0] + h[2] * x[1]);
}
