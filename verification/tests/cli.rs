//! The command line.

use open_bar::cli::{command, plan_options, play_options, queue_options, source_kind, Command};
use open_bar::media::{file_info, MediaInfo, MediaKind, TrackInfo};
use open_bar::plan::{DeviceCaps, DsdSupport, SourceKind};

fn args(s: &str) -> Vec<String> {
    s.split(' ').filter(|a| !a.is_empty()).map(|a| a.to_string()).collect()
}

#[test]
fn commands_are_told_by_their_first_word_and_length() {
    assert_eq!(command(&args("probe x")), Command::Probe);
    assert_eq!(command(&args("probe")), Command::Usage);
    assert_eq!(command(&args("plan x --mqa-dac")), Command::Plan);
    assert_eq!(command(&args("decode a b")), Command::Decode);
    assert_eq!(command(&args("decode a")), Command::Usage);
    assert_eq!(command(&args("play a")), Command::Play);
    assert_eq!(command(&args("queue a")), Command::Queue);
    assert_eq!(command(&args("pair a")), Command::Pair);
    assert_eq!(command(&args("pair a b")), Command::Usage);
    assert_eq!(command(&args("")), Command::Usage);
    assert_eq!(command(&args("sing a")), Command::Usage);
}

#[test]
fn a_device_is_described_by_options() {
    let assumed = DeviceCaps {
        max_pcm_rate_hz: 192_000,
        max_bits: 24,
        exclusive_mode: true,
        dsd: DsdSupport::PcmOnly,
        mqa_decoder: false,
    };
    assert_eq!(plan_options(&args("plan x")), Some(assumed));
    assert_eq!(
        plan_options(&args("plan x --dsd dop --max-rate +384000 --mqa-dac")),
        Some(DeviceCaps { dsd: DsdSupport::Dop, max_pcm_rate_hz: 384_000, mqa_decoder: true, ..assumed })
    );
    assert_eq!(
        plan_options(&args("plan x --dsd native --dsd ? --max-rate 4294967296")),
        Some(DeviceCaps { dsd: DsdSupport::PcmOnly, ..assumed })
    );
    assert_eq!(plan_options(&args("plan x --max-rate 12x")), Some(assumed));
    assert_eq!(plan_options(&args("plan x --max-rate +")), Some(assumed));
    assert_eq!(plan_options(&args("plan x --dsd")), None);
    assert_eq!(plan_options(&args("plan x --what")), None);
}

#[test]
fn options_of_play() {
    let o = play_options(&args("play x --exclusive --bits 16 --volume 0.5 --dop --seconds 3")).unwrap();
    assert!(o.exclusive && o.dop);
    assert_eq!(o.bits, 16);
    assert_eq!(o.volume.as_deref(), Some("0.5"));
    assert_eq!(o.seconds.as_deref(), Some("3"));
    let o = play_options(&args("play x --bits 65536")).unwrap();
    assert_eq!((o.bits, o.exclusive, o.dop), (24, false, false));
    assert!(play_options(&args("play x --volume")).is_none());
    assert!(play_options(&args("play x --dop --volume")).is_none());
    assert!(play_options(&args("play x --what 1")).is_none());
}

#[test]
fn options_and_files_of_queue() {
    let q = queue_options(&args("queue a --rg b --volume 0.3 c --volume"));
    assert!(q.replay_gain);
    assert_eq!(q.volume.as_deref(), Some("0.3"));
    assert_eq!(q.files, vec!["a", "b", "c", "--volume"]);
    let q = queue_options(&args("queue a"));
    assert!(!q.replay_gain && q.volume.is_none());
}

#[test]
fn files_are_planned_by_their_kind() {
    let t = [TrackInfo::<i32> { sample_rate_hz: Some(44_100), channels: None, bits_per_sample: None, duration: None }];
    let flac = file_info("x.flac".to_string(), "flac", true, &t);
    assert_eq!(source_kind(&flac), Some(SourceKind::Mqa { rate_hz: 44_100, bits: 24 }));
    let wav = file_info("x.wav".to_string(), "wav", false, &t);
    assert_eq!(source_kind(&wav), Some(SourceKind::Pcm { rate_hz: 44_100, bits: 16 }));
    let dsd = MediaInfo { kind: MediaKind::Dsd, bits_per_sample: Some(1), ..wav.clone() };
    assert_eq!(source_kind(&dsd), Some(SourceKind::Dsd { rate_hz: 44_100 }));
    let none = MediaInfo { sample_rate_hz: None, ..wav };
    assert_eq!(source_kind(&none), None);
}
