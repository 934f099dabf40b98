//! How a track is started.

use open_bar::output::ResampleFilter;
use open_bar::player::PlayMode;
use open_bar::startup::{Action, Event, SourceFacts, Startup};

fn pcm(rate_hz: u32) -> SourceFacts {
    SourceFacts { rate_hz, channels: 2, dop: false }
}

fn dop(rate_hz: u32) -> SourceFacts {
    SourceFacts { rate_hz, channels: 2, dop: true }
}

#[test]
fn shared_mode_asks_the_device_and_times_the_filter() {
    let (mut s, a) = Startup::new(PlayMode::Shared, false, true, ResampleFilter::Sharp, String::new());
    assert_eq!(a, Action::Open { dop: false, target: None });
    assert_eq!(s.on(Event::Opened(pcm(44_100))), Action::AskDevice);
    assert_eq!(
        s.on(Event::Device { rate_hz: 48_000, channels: 2 }),
        Action::Measure { from: 44_100, to: 48_000, channels: 2, filter: ResampleFilter::Sharp }
    );
    match s.on(Event::Measured { slow: true, factor: "1.5".to_string() }) {
        Action::Begin(p) => {
            assert_eq!(p.mode, PlayMode::Shared);
            assert!(!p.exclusive);
            assert_eq!((p.out_rate, p.out_ch), (48_000, 2));
            assert_eq!(p.filter, ResampleFilter::Standard);
        }
        other => panic!("{:?}", other),
    }
    assert_eq!(
        s.note(),
        " このPCでは選んだフィルターが実時間に間に合わない(実時間の1.5倍)ため、標準フィルターで再生します。 / The chosen filter is too heavy for this PC (1.5x real time); using Standard."
    );
}

#[test]
fn a_filter_that_keeps_up_is_kept() {
    let (mut s, _) = Startup::new(PlayMode::Shared, false, true, ResampleFilter::Soft, "auto".to_string());
    s.on(Event::Opened(pcm(44_100)));
    s.on(Event::Device { rate_hz: 96_000, channels: 6 });
    match s.on(Event::Measured { slow: false, factor: "9.0".to_string() }) {
        Action::Begin(p) => assert_eq!((p.filter, p.out_ch), (ResampleFilter::Soft, 6)),
        other => panic!("{:?}", other),
    }
    assert_eq!(s.note(), "auto");
}

#[test]
fn exclusive_mode_keeps_the_rate_of_the_source() {
    let (mut s, _) = Startup::new(PlayMode::Exclusive, false, true, ResampleFilter::Standard, String::new());
    assert_eq!(s.on(Event::Opened(pcm(44_100))), Action::Probe { rate_hz: 44_100, channels: 2 });
    match s.on(Event::Accepted) {
        Action::Begin(p) => {
            assert_eq!(p.mode, PlayMode::Exclusive);
            assert!(p.exclusive);
            assert_eq!(p.out_rate, 44_100);
        }
        other => panic!("{:?}", other),
    }
    assert_eq!(s.note(), "");
}

#[test]
fn upsampling_uses_the_first_rate_that_the_device_accepts() {
    let (mut s, _) = Startup::new(PlayMode::ExclusiveUpsample, false, true, ResampleFilter::Standard, String::new());
    assert_eq!(s.on(Event::Opened(pcm(44_100))), Action::Probe { rate_hz: 352_800, channels: 2 });
    assert_eq!(s.on(Event::Refused), Action::Probe { rate_hz: 176_400, channels: 2 });
    assert_eq!(
        s.on(Event::Accepted),
        Action::Measure { from: 44_100, to: 176_400, channels: 2, filter: ResampleFilter::Standard }
    );
    match s.on(Event::Measured { slow: true, factor: "2.0".to_string() }) {
        Action::Begin(p) => assert_eq!((p.mode, p.out_rate), (PlayMode::ExclusiveUpsample, 176_400)),
        other => panic!("{:?}", other),
    }
    assert_eq!(s.note(), "", "the standard filter has no other to fall back on");
}

#[test]
fn dsd_is_upsampled_at_once_and_again_lower_if_refused() {
    let (mut s, a) = Startup::new(PlayMode::ExclusiveUpsample, true, true, ResampleFilter::Standard, String::new());
    assert_eq!(a, Action::Open { dop: false, target: Some(352_800) });
    assert_eq!(s.on(Event::Opened(pcm(352_800))), Action::Probe { rate_hz: 352_800, channels: 2 });
    assert_eq!(s.on(Event::Refused), Action::Open { dop: false, target: None });
    assert_eq!(s.on(Event::Opened(pcm(176_400))), Action::Probe { rate_hz: 352_800, channels: 2 });
    assert_eq!(s.on(Event::Refused), Action::Probe { rate_hz: 176_400, channels: 2 });
    match s.on(Event::Accepted) {
        Action::Begin(p) => assert_eq!((p.mode, p.out_rate), (PlayMode::ExclusiveUpsample, 176_400)),
        other => panic!("{:?}", other),
    }
}

#[test]
fn dop_that_is_refused_becomes_pcm_and_then_shared() {
    let (mut s, a) = Startup::new(PlayMode::Dop, true, true, ResampleFilter::Standard, "auto".to_string());
    assert_eq!(a, Action::Open { dop: true, target: None });
    assert_eq!(s.on(Event::Opened(dop(176_400))), Action::Probe { rate_hz: 176_400, channels: 2 });
    assert_eq!(s.on(Event::Refused), Action::Open { dop: false, target: None });
    let told = "この機器はDoP(176.4 kHz)を受け付けません。DSDをPCMへ変換して再生します。 / This device does not accept DoP (176.4 kHz). Playing DSD converted to PCM.";
    assert_eq!(s.note(), told);
    assert_eq!(s.on(Event::Opened(pcm(88_200))), Action::Probe { rate_hz: 88_200, channels: 2 });
    assert_eq!(s.on(Event::Refused), Action::AskDevice);
    let more = "排他モードで88.2 kHzを受け付けません。共有モードで再生します。 / The device does not accept 88.2 kHz in exclusive mode. Playing in shared mode.";
    assert_eq!(s.note(), format!("{}{}", told, more));
    match s.on(Event::Device { rate_hz: 88_200, channels: 2 }) {
        Action::Begin(p) => assert_eq!((p.mode, p.exclusive), (PlayMode::Shared, false)),
        other => panic!("{:?}", other),
    }
}

#[test]
fn dop_plays_as_it_is_where_the_device_takes_it() {
    let (mut s, _) = Startup::new(PlayMode::Dop, true, true, ResampleFilter::Standard, String::new());
    s.on(Event::Opened(dop(176_400)));
    match s.on(Event::Accepted) {
        Action::Begin(p) => {
            assert_eq!((p.mode, p.out_rate), (PlayMode::Dop, 176_400));
            assert!(p.source.dop && p.exclusive);
        }
        other => panic!("{:?}", other),
    }
}

#[test]
fn the_pcm_version_of_refused_dop_plays_in_exclusive_mode() {
    let (mut s, _) = Startup::new(PlayMode::Dop, true, true, ResampleFilter::Standard, String::new());
    s.on(Event::Opened(dop(705_600)));
    s.on(Event::Refused);
    assert_eq!(s.on(Event::Opened(pcm(176_400))), Action::Probe { rate_hz: 176_400, channels: 2 });
    match s.on(Event::Accepted) {
        Action::Begin(p) => {
            assert_eq!((p.mode, p.out_rate), (PlayMode::Exclusive, 176_400));
            assert!(!p.source.dop);
        }
        other => panic!("{:?}", other),
    }
    assert!(!s.note().is_empty(), "another mode is in use, and the listener is told why");
}

#[test]
fn payloads_are_played_in_the_mode_for_dop_alone() {
    let (mut s, _) = Startup::new(PlayMode::Dop, true, true, ResampleFilter::Standard, String::new());
    s.on(Event::Opened(dop(705_600)));
    s.on(Event::Refused);
    assert_eq!(s.on(Event::OpenFailed), Action::GiveUp, "there is no PCM to play, and the payloads were refused");
    let (mut s, _) = Startup::new(PlayMode::Exclusive, true, true, ResampleFilter::Standard, String::new());
    assert_eq!(s.on(Event::Opened(dop(176_400))), Action::GiveUp);
}

#[test]
fn without_exclusive_mode_everything_is_shared() {
    let (mut s, _) = Startup::new(PlayMode::Exclusive, false, false, ResampleFilter::Standard, "auto".to_string());
    assert_eq!(s.on(Event::Opened(pcm(44_100))), Action::AskDevice);
    assert_eq!(
        s.note(),
        "排他モードはWindowsのみです。共有モードで再生します。 / Exclusive mode is Windows-only. Playing in shared mode."
    );
    match s.on(Event::Device { rate_hz: 44_100, channels: 2 }) {
        Action::Begin(p) => assert_eq!(p.mode, PlayMode::Shared),
        other => panic!("{:?}", other),
    }
}

#[test]
fn a_file_that_cannot_be_opened_or_a_missing_device_ends_the_start() {
    let (mut s, _) = Startup::new(PlayMode::Shared, false, true, ResampleFilter::Standard, String::new());
    assert_eq!(s.on(Event::OpenFailed), Action::GiveUp);
    let (mut s, _) = Startup::new(PlayMode::Shared, false, true, ResampleFilter::Standard, String::new());
    s.on(Event::Opened(pcm(44_100)));
    assert_eq!(s.on(Event::NoDevice), Action::GiveUp);
    let (mut s, _) = Startup::new(PlayMode::ExclusiveUpsample, true, true, ResampleFilter::Standard, String::new());
    s.on(Event::Opened(pcm(352_800)));
    s.on(Event::Refused);
    assert_eq!(s.on(Event::OpenFailed), Action::AskDevice);
}

#[test]
fn dsd_over_pcm_never_goes_through_the_mixer() {
    let (mut s, a) = Startup::new(PlayMode::Dop, true, false, ResampleFilter::Standard, String::new());
    assert_eq!(a, Action::Open { dop: false, target: None }, "without an exclusive mode DSD is converted");
    assert_eq!(s.on(Event::Opened(pcm(176_400))), Action::AskDevice);
    let (mut s, _) = Startup::new(PlayMode::Dop, true, true, ResampleFilter::Standard, String::new());
    s.on(Event::Opened(dop(176_400)));
    s.on(Event::Refused);
    assert_eq!(s.on(Event::Opened(pcm(176_400))), Action::Probe { rate_hz: 176_400, channels: 2 });
    assert_eq!(s.on(Event::Refused), Action::AskDevice, "what is shared is PCM");
}

#[test]
fn pcm_in_the_mode_for_dop_plays_in_exclusive_mode() {
    let (mut s, _) = Startup::new(PlayMode::Dop, false, true, ResampleFilter::Standard, String::new());
    assert_eq!(s.on(Event::Opened(pcm(44_100))), Action::Probe { rate_hz: 44_100, channels: 2 });
    match s.on(Event::Accepted) {
        Action::Begin(p) => {
            assert_eq!((p.mode, p.exclusive, p.out_rate), (PlayMode::Exclusive, true, 44_100));
            assert!(!p.source.dop);
        }
        other => panic!("{:?}", other),
    }
    assert_eq!(s.note(), "");
}
