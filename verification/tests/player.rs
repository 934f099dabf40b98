//! Modes, versions of a track, rates and the state of the player.

use open_bar::output::ResampleFilter;
use open_bar::player::{
    dop_fill, exclusive_rates, khz, mode_text, pick_version, route_en, route_ja, version_stem, Order, PlayMode,
    PlayState, Player, Trouble,
};
use open_bar::source::Progress;
use open_bar::startup::{Plan, SourceFacts};
use open_bar::track::Track;

#[test]
fn every_mode_has_bilingual_text_and_a_distinct_letter() {
    let modes = [PlayMode::Shared, PlayMode::Exclusive, PlayMode::ExclusiveUpsample, PlayMode::Dop];
    let mut letters = std::collections::HashSet::new();
    for m in modes {
        let t = mode_text(m);
        assert!(
            !t.title_ja.is_empty() && !t.title_en.is_empty() && !t.desc_ja.is_empty() && !t.desc_en.is_empty(),
            "{:?}",
            m
        );
        assert!(letters.insert(t.letter));
    }
    assert!(mode_text(PlayMode::Exclusive).bit_perfect && mode_text(PlayMode::Dop).bit_perfect);
    assert!(!mode_text(PlayMode::Shared).bit_perfect && !mode_text(PlayMode::ExclusiveUpsample).bit_perfect);
}

#[test]
fn exclusive_rate_candidates_stay_in_the_source_rate_family() {
    assert_eq!(exclusive_rates(44_100, false), vec![44_100]);
    assert_eq!(exclusive_rates(44_100, true), vec![352_800, 176_400, 88_200, 44_100]);
    assert_eq!(exclusive_rates(48_000, true), vec![384_000, 192_000, 96_000, 48_000]);
    assert_eq!(exclusive_rates(96_000, true), vec![384_000, 192_000, 96_000], "元レートと同じ値は重複しない");
}

#[test]
fn dop_markers_stay_continuous_across_data_gaps_and_calls() {
    let mut phase = true;
    let mut out = Vec::new();
    let data = [0x1111u16, 0x2222, 0x3333, 0x4444, 0x5555, 0x6666];
    dop_fill(&mut phase, &data, 5, 2, 4, &mut out);
    let mut out2 = Vec::new();
    dop_fill(&mut phase, &[], 2, 2, 4, &mut out2);
    out.extend(out2);
    let markers: Vec<u8> = out.chunks(4).map(|w| w[3]).collect();
    let per_frame: Vec<u8> = markers.chunks(2).map(|f| f[0]).collect();
    assert_eq!(
        per_frame,
        vec![0x05, 0xFA, 0x05, 0xFA, 0x05, 0xFA, 0x05],
        "7フレーム通して交互(呼び出しをまたいでも崩れない)"
    );
    assert!(markers.chunks(2).all(|f| f[0] == f[1]), "左右のマーカーは同じ位相");
    assert_eq!(&out[..4], &[0x00, 0x11, 0x11, 0x05]);
    let last = &out[out.len() - 4..];
    assert_eq!(last, &[0x00, 0x69, 0x69, 0x05], "7フレーム目(偶数位相)のマーカーは0x05");
}

#[test]
fn version_stems_group_the_same_track_across_formats() {
    assert_eq!(version_stem("F:/a/Track04.wav"), "track04");
    assert_eq!(version_stem("C:\\x\\track04.dsd256.dsf"), "track04");
    assert_eq!(version_stem("Track04.dsd64.dsf"), "track04");
    assert_ne!(version_stem("Track05.wav"), version_stem("Track04.wav"));
}

#[test]
fn mode_picks_pcm_or_the_best_dop_capable_dsd_version() {
    let c = [(0usize, false, 44_100u32), (1, true, 11_289_600), (2, true, 2_822_400)];
    let all_ok = |_: u32| true;
    let only64 = |r: u32| r == 2_822_400;
    let none = |_: u32| false;
    for m in [PlayMode::Exclusive, PlayMode::Shared, PlayMode::ExclusiveUpsample] {
        assert_eq!(pick_version(m, &c, &all_ok), Some(0), "A/B/EはPCM版");
    }
    assert_eq!(pick_version(PlayMode::Dop, &c, &all_ok), Some(1), "DoPはまずDSD256");
    assert_eq!(
        pick_version(PlayMode::Dop, &c, &only64),
        Some(2),
        "DSD256を受けられない機器ではDSD64へ自動で切り替わる"
    );
    assert_eq!(pick_version(PlayMode::Dop, &c, &none), None, "DoPで受けられるDSDが無ければ選ばない");
    assert_eq!(
        pick_version(PlayMode::Exclusive, &c[1..], &all_ok),
        None,
        "PCM版が無ければ選ばない(DSDをPCM化)"
    );
}

#[test]
fn the_first_of_equal_dsd_versions_is_asked_for_first() {
    let c = [(7usize, true, 2_822_400u32), (3, true, 5_644_800), (5, true, 5_644_800), (1, false, 44_100)];
    assert_eq!(pick_version(PlayMode::Dop, &c, &|_| true), Some(3));
    assert_eq!(pick_version(PlayMode::Dop, &[], &|_| true), None);
}

#[test]
fn stems_are_lower_case_beyond_ascii() {
    assert_eq!(version_stem("Été.FLAC"), "été");
    assert_eq!(version_stem("ΑΒΓ"), "αβγ");
    assert_eq!(version_stem("dir.v1/曲.dsd64.dsf"), "曲");
    assert_eq!(version_stem(""), "");
}

#[test]
fn rates_read_as_kilohertz() {
    assert_eq!(khz(44_100), "44.1 kHz");
    assert_eq!(khz(48_000), "48 kHz");
    assert_eq!(khz(352_800), "352.8 kHz");
    assert_eq!(khz(2_822_400), "2822.4 kHz");
    assert_eq!(khz(0), "0 kHz");
    assert_eq!(khz(11_025), "11.0 kHz");
    assert_eq!(khz(999), "1.0 kHz");
}

#[test]
fn rates_half_way_between_tenths_read_as_their_nearest_binary_number() {
    for hz in [
        50u32, 150, 250, 350, 450, 550, 650, 750, 850, 950, 1_050, 1_150, 2_350, 4_850, 8_050, 11_150, 22_050, 22_150,
        22_250, 22_750, 33_350, 44_050, 88_250, 176_450, 999_950, 4_294_967_250,
    ] {
        let k = hz as f64 / 1000.0;
        assert_eq!(khz(hz), format!("{:.1} kHz", k));
    }
    assert_eq!(khz(250), "0.2 kHz");
    assert_eq!(khz(750), "0.8 kHz");
    assert_eq!(khz(22_050), "22.1 kHz");
}

#[test]
fn the_rates_to_try_never_go_below_the_source() {
    assert_eq!(exclusive_rates(22_050, true), vec![352_800, 176_400, 88_200, 22_050]);
    assert_eq!(exclusive_rates(11_025, true), vec![352_800, 176_400, 88_200, 11_025]);
    assert_eq!(exclusive_rates(24_000, true), vec![384_000, 192_000, 96_000, 24_000]);
    assert_eq!(exclusive_rates(352_800, true), vec![352_800]);
    assert_eq!(exclusive_rates(705_600, true), vec![705_600]);
    assert_eq!(exclusive_rates(192_000, false), vec![192_000]);
    assert_eq!(exclusive_rates(50_000, true), vec![384_000, 192_000, 96_000, 50_000]);
}

#[test]
fn dop_in_three_byte_containers_carries_payloads_and_markers() {
    let mut phase = false;
    let mut out = vec![0xEE];
    dop_fill(&mut phase, &[0xABCD], 2, 1, 3, &mut out);
    assert_eq!(out, vec![0xEE, 0xCD, 0xAB, 0xFA, 0x69, 0x69, 0x05]);
    assert!(!phase);
}

#[test]
fn markers_take_turns_through_any_number_of_requests() {
    let mut phase = true;
    let mut out = Vec::new();
    for (payloads, frames) in [(vec![1u16, 2, 3], 1), (vec![], 0), (vec![], 3), (vec![7, 8], 2), (vec![9], 1)] {
        dop_fill(&mut phase, &payloads, frames, 2, 3, &mut out);
    }
    let markers: Vec<u8> = out.chunks(3).map(|w| w[2]).collect();
    assert_eq!(markers.len(), 7 * 2);
    for (k, m) in markers.iter().enumerate() {
        assert_eq!(*m, if (k / 2) % 2 == 0 { 0x05 } else { 0xFA });
    }
    assert!(!phase);
}

#[test]
fn names_without_an_extension_have_a_stem_too() {
    assert_eq!(version_stem("Track04"), "track04");
    assert_eq!(version_stem("a.b/Track04"), version_stem("C:\\x\\Track04"));
}

#[test]
fn routes_are_told_in_both_languages() {
    assert_eq!(route_ja("DoP", 176_400, 176_400), "DSDをDoPで送出(176.4 kHz · 24bit) → DACがDSDとして再生");
    assert_eq!(
        route_en("DoP", 176_400, 176_400),
        "DSD sent as DoP (176.4 kHz · 24-bit) → the DAC plays it as DSD"
    );
    assert_eq!(route_ja("PCM", 44_100, 44_100), "PCM 44.1 kHz をそのまま送出");
    assert_eq!(route_en("PCM", 44_100, 44_100), "PCM 44.1 kHz sent as-is");
    assert_eq!(route_ja("PCM", 44_100, 384_000), "PCM 44.1 kHz → 384 kHz へ高品質変換(sinc補間)");
    assert_eq!(route_en("PCM", 44_100, 384_000), "PCM 44.1 kHz → converted to 384 kHz (sinc resampler)");
}

#[test]
fn every_trouble_has_its_message() {
    assert_eq!(
        Trouble::Open { path: "a.wav".to_string(), why: "x".to_string() }.message(),
        "再生できません(a.wav): x"
    );
    assert_eq!(Trouble::NoDevice.message(), "出力デバイスがありません / No output device");
    assert_eq!(Trouble::Config("x".to_string()).message(), "デバイスの設定を取得できません: x");
    assert_eq!(Trouble::Stream("x".to_string()).message(), "ストリームを開けません: x");
    assert_eq!(Trouble::Play("x".to_string()).message(), "再生を開始できません: x");
    assert_eq!(Trouble::ExclusiveOpen("x".to_string()).message(), "排他モードを開けません: x");
    assert_eq!(Trouble::ExclusiveOutput("x".to_string()).message(), "排他モードの出力エラー: x");
}

fn plan_for(rate: u32) -> Plan {
    Plan {
        mode: PlayMode::Shared,
        exclusive: false,
        out_rate: rate,
        out_ch: 2,
        filter: ResampleFilter::Standard,
        source: SourceFacts { rate_hz: 44_100, channels: 2, dop: false },
    }
}

fn three() -> Player {
    let mut p = Player::new();
    p.set_playlist(vec!["a.wav".to_string(), "b.wav".to_string(), "c.wav".to_string()]);
    p
}

#[test]
fn a_fresh_player_is_stopped_and_shared() {
    let s = Player::default().status::<f32>(None);
    assert_eq!(s.state, PlayState::Stopped);
    assert_eq!(s.selected_mode, PlayMode::Shared);
    assert_eq!(s.active_mode.id, "shared");
    assert_eq!(s.index, None);
    assert_eq!(s.path, None);
    assert_eq!(s.filter, ResampleFilter::Standard);
    assert!(s.auto_version && s.message.is_empty() && s.note.is_empty());
}

#[test]
fn tracks_follow_each_other_until_the_last_one_stops() {
    let mut p = three();
    assert_eq!(p.idle(true), Order::Stop, "nothing was played yet");
    assert_eq!(p.play(3), Order::Nothing);
    assert_eq!(p.play(0), Order::Start { index: 0, resume: false });
    assert_eq!(p.idle(false), Order::Nothing);
    assert_eq!(p.idle(true), Order::Start { index: 1, resume: false });
    assert_eq!(p.idle(true), Order::Start { index: 2, resume: false });
    assert_eq!(p.idle(true), Order::Stop);
    assert_eq!(p.current(), Some(2));
}

#[test]
fn next_and_back_comes_to_the_same_track() {
    let mut p = three();
    assert_eq!(p.next(), Order::Nothing);
    assert_eq!(p.prev(), Order::Nothing);
    p.play(1);
    assert_eq!(p.next(), Order::Start { index: 2, resume: false });
    assert_eq!(p.next(), Order::Nothing);
    assert_eq!(p.prev(), Order::Start { index: 1, resume: false });
    p.prev();
    assert_eq!(p.prev(), Order::Start { index: 0, resume: false }, "the first starts over");
}

#[test]
fn settings_restart_what_plays_from_where_it_is() {
    let mut p = three();
    assert_eq!(p.set_mode(PlayMode::Dop), Order::Nothing);
    assert_eq!(p.status::<f32>(None).active_mode.id, "dop", "nothing plays: the mode shows at once");
    p.play(1);
    p.loading(1);
    assert_eq!(p.status::<f32>(None).message, "読み込み中... / Loading...");
    p.started(
        1,
        &plan_for(48_000),
        "PCM".to_string(),
        Progress { frames: 441_000, rate_hz: 44_100 },
        "DAC".to_string(),
        String::new(),
    );
    assert_eq!(p.set_mode(PlayMode::Exclusive), Order::Start { index: 1, resume: true });
    assert_eq!(p.set_filter(ResampleFilter::Soft), Order::Start { index: 1, resume: true });
    let s = p.status::<f32>(None);
    assert_eq!(s.selected_mode, PlayMode::Exclusive);
    assert_eq!(s.active_mode.id, "shared", "still the mode in use");
    assert_eq!(s.filter, ResampleFilter::Soft);
    assert_eq!(s.path.as_deref(), Some("b.wav"));
    assert_eq!((s.out_rate_hz, s.source_rate_hz), (48_000, 44_100));
    assert_eq!(s.route_en, "PCM 44.1 kHz → converted to 48 kHz (sinc resampler)");
    assert_eq!(s.device, "DAC");
    assert!(s.message.is_empty());
}

#[test]
fn pausing_needs_a_track() {
    let mut p = three();
    assert_eq!(p.pause(), Order::Nothing);
    assert_eq!(p.resume(), Order::Nothing);
    assert_eq!(p.seek(), Order::Nothing);
    assert_eq!(p.stop(), Order::Stop);
    p.play(0);
    p.started(
        0,
        &plan_for(44_100),
        "PCM".to_string(),
        Progress { frames: 10, rate_hz: 44_100 },
        String::new(),
        "note".to_string(),
    );
    assert_eq!(p.pause(), Order::SetPaused(true));
    assert_eq!(p.status::<f32>(None).state, PlayState::Paused);
    assert_eq!(p.resume(), Order::SetPaused(false));
    assert_eq!(p.status::<f32>(None).state, PlayState::Playing);
    assert_eq!(p.seek(), Order::Seek);
    p.track_stopped();
    assert_eq!(p.status::<f32>(None).state, PlayState::Stopped);
    assert_eq!(p.pause(), Order::Nothing);
    p.failed(&Trouble::NoDevice);
    assert_eq!(p.status::<f32>(None).message, "出力デバイスがありません / No output device");
}

#[test]
fn the_status_shows_the_position_of_the_track() {
    let p = three();
    let mut t: Track<f32> =
        Track::new(48_000, 2, Progress { frames: 44_100, rate_hz: 44_100 }, ResampleFilter::Standard, false);
    t.finish(vec![0.0; 2 * 24_000]);
    let r = t.render(24_000);
    assert!(r.played && r.samples.len() == 48_000);
    let s = p.status(Some(&t));
    assert_eq!(s.position, Progress { frames: 24_000, rate_hz: 48_000 });
    assert_eq!(s.underrun_frames, 0);
}

#[test]
fn the_version_that_suits_the_mode_is_picked_and_told() {
    let mut p = Player::new();
    p.set_playlist(vec![
        "x/Song.wav".to_string(),
        "other.wav".to_string(),
        "y/song.dsd256.dsf".to_string(),
        "SONG.dsd64.dsf".to_string(),
    ]);
    assert_eq!(p.same_track(2), vec![0, 2, 3]);
    assert_eq!(p.same_track(1), vec![1]);
    let c = [(0usize, false, 44_100u32), (2, true, 11_289_600), (3, true, 2_822_400)];
    let (i, note) = p.resolve_version(2, &c, &|_| false);
    assert_eq!(i, 0);
    assert_eq!(
        note,
        "モードに合わせて同じ曲の「PCM 44.1 kHz」版を自動で選びました。 / Auto-picked the PCM 44.1 kHz version of this track to match the mode."
    );
    assert_eq!(p.resolve_version(0, &c, &|_| false), (0, String::new()));
    p.set_mode(PlayMode::Dop);
    let (i, note) = p.resolve_version(0, &c, &|r| r == 2_822_400);
    assert_eq!(i, 3);
    assert_eq!(
        note,
        "モードに合わせて同じ曲の「DSD64」版を自動で選びました。 / Auto-picked the DSD64 version of this track to match the mode."
    );
    let (i, note) = p.resolve_version(0, &c, &|_| false);
    assert_eq!(i, 0);
    assert!(note.starts_with("この機器がDoPで受けられるDSD版が見つからないため"));
    assert_eq!(p.resolve_version(0, &c[..1], &|_| true), (0, String::new()), "there is no other version");
    p.set_auto_version(false);
    assert!(p.same_track(2).is_empty());
    assert_eq!(p.resolve_version(2, &c, &|_| true), (2, String::new()));
}
