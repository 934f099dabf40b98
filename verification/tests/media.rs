//! Kinds of files, MQA and pairs of files.

use open_bar::combo::{first_stem, pair_entries, rank, Combo, ComboError, FolderEntry};
use open_bar::media::{
    dsd_info, extension_of, file_info, kind_of_extension, may_be_mqa, probe_kind_only, DsdFacts, MediaKind, TrackInfo,
};
use open_bar::mqa::{is_mqa_bytes, pcm_kind};

#[test]
fn detects_mqa_tags_case_insensitively_and_ignores_plain_flac() {
    assert!(is_mqa_bytes(b"fLaC....MQAENCODER=MQAEncode v1.1, 2.4.2+0 (b6...)"));
    assert!(is_mqa_bytes(b"xx originalsamplerate=96000 xx"));
    assert!(!is_mqa_bytes(b"fLaC....ENCODER=reference libFLAC 1.3.2"));
    assert!(!is_mqa_bytes(b""));
}

#[test]
fn only_the_first_64_kib_are_searched() {
    let mut head = vec![b'.'; 65_526];
    head.extend_from_slice(b"mQaEnCoDeR and more");
    assert!(is_mqa_bytes(&head));
    head.insert(0, b'.');
    assert!(!is_mqa_bytes(&head));
}

#[test]
fn extensions_tell_the_kind() {
    assert_eq!(kind_of_extension("mkv"), MediaKind::VideoContainer);
    assert_eq!(kind_of_extension("ts"), MediaKind::VideoContainer);
    assert_eq!(kind_of_extension("opus"), MediaKind::Audio);
    assert_eq!(kind_of_extension("m4a"), MediaKind::Audio);
    assert_eq!(kind_of_extension("txt"), MediaKind::Unknown);
    assert_eq!(kind_of_extension("FLAC"), MediaKind::Unknown, "extensions are compared in lower case");
    assert_eq!(extension_of("a/b.FLAC"), "flac");
    assert_eq!(extension_of("C:\\x\\y.Mp4"), "mp4");
    assert_eq!(extension_of("\\\\server\\sha.re\\y.Mp4"), "mp4");
    assert_eq!(extension_of("music/1:2.Wav"), "wav");
    assert_eq!(extension_of("a/b.FLAC//"), "flac", "slashes at the end do not count");
    assert_eq!(probe_kind_only("a/b.MKV/", false), MediaKind::VideoContainer);
    assert_eq!(extension_of("a.b/c"), "");
    assert_eq!(extension_of("a."), "");
    assert_eq!(probe_kind_only("a/b.WAV", false), MediaKind::Audio);
    assert_eq!(probe_kind_only("a/b.wav", true), MediaKind::Dsd);
    assert!(may_be_mqa("flac") && !may_be_mqa("wav"));
    assert_eq!(pcm_kind(true), "MQA(通常のPCMとして)");
    assert_eq!(pcm_kind(false), "PCM");
}

#[test]
fn what_is_known_about_a_file() {
    let d = dsd_info("x.dsf".to_string(), Some(DsdFacts { rate_hz: 2_822_400, channels: 2, duration: 7 }));
    assert_eq!(d.kind, MediaKind::Dsd);
    assert_eq!(
        (d.sample_rate_hz, d.channels, d.bits_per_sample, d.duration),
        (Some(2_822_400), Some(2), Some(1), Some(7))
    );
    let broken = dsd_info::<i32>("x.dsf".to_string(), None);
    assert_eq!((broken.kind, broken.sample_rate_hz), (MediaKind::Dsd, None));
    let tracks = [
        TrackInfo { sample_rate_hz: None, channels: Some(1), bits_per_sample: None, duration: None },
        TrackInfo { sample_rate_hz: Some(44_100), channels: Some(2), bits_per_sample: Some(16), duration: Some(3) },
        TrackInfo { sample_rate_hz: Some(48_000), channels: None, bits_per_sample: None, duration: None },
    ];
    let f = file_info("x.flac".to_string(), "flac", true, &tracks);
    assert_eq!((f.kind, f.is_mqa), (MediaKind::Audio, true));
    assert_eq!(
        (f.sample_rate_hz, f.channels, f.bits_per_sample, f.duration),
        (Some(44_100), Some(2), Some(16), Some(3))
    );
    let w = file_info("x.wav".to_string(), "wav", true, &tracks[..1]);
    assert_eq!((w.is_mqa, w.sample_rate_hz), (false, None));
    let u = file_info("x.txt".to_string(), "txt", false, &tracks);
    assert_eq!((u.kind, u.sample_rate_hz), (MediaKind::Unknown, None));
    assert_eq!(u.path, "x.txt");
}

fn entry(name: &str, kind: MediaKind) -> FolderEntry {
    FolderEntry { name: name.to_string(), path: format!("dir/{name}"), kind }
}

#[test]
fn auto_pair_matches_names_and_prefers_dsd() {
    let entries = vec![
        entry("movie.mp4", MediaKind::VideoContainer),
        entry("movie.flac", MediaKind::Audio),
        entry("movie.dsd256.dsf", MediaKind::Dsd),
        entry("other.mp4", MediaKind::VideoContainer),
    ];
    let pairs = pair_entries(&entries);
    assert_eq!(pairs.len(), 1, "音声の無いother.mp4は組み合わせない: {pairs:?}");
    assert!(pairs[0].audio.ends_with("movie.dsd256.dsf"), "DSDを優先: {pairs:?}");
}

#[test]
fn flac_comes_before_other_audio_in_any_case() {
    let entries = vec![
        entry("movie.mp4", MediaKind::VideoContainer),
        entry("movie.AAC", MediaKind::Audio),
        entry("movie.FLAC", MediaKind::Audio),
    ];
    let pairs = pair_entries(&entries);
    assert_eq!(pairs.len(), 1);
    assert!(pairs[0].audio.ends_with("movie.FLAC"), "{pairs:?}");
}

#[test]
fn pairs_come_in_order_of_names_with_the_best_audio() {
    let entries = vec![
        entry("b.mkv", MediaKind::VideoContainer),
        entry("b.opus", MediaKind::Audio),
        entry("b.wav", MediaKind::Audio),
        entry("b.flac", MediaKind::Audio),
        entry("a.webm", MediaKind::VideoContainer),
        entry("a.mp4", MediaKind::VideoContainer),
        entry("a.mp3", MediaKind::Audio),
        entry("readme.txt", MediaKind::Unknown),
    ];
    let pairs: Vec<(String, String, i64)> =
        pair_entries(&entries).into_iter().map(|c| (c.video, c.audio, c.audio_offset_ms)).collect();
    assert_eq!(
        pairs,
        vec![
            ("dir/a.mp4".to_string(), "dir/a.mp3".to_string(), 0),
            ("dir/a.webm".to_string(), "dir/a.mp3".to_string(), 0),
            ("dir/b.mkv".to_string(), "dir/b.flac".to_string(), 0),
        ]
    );
    assert_eq!(first_stem("movie.dsd256.dsf"), "movie");
    assert_eq!(rank("x.dsf", MediaKind::Dsd), Some(0));
    assert_eq!(rank("x.wav", MediaKind::Audio), Some(1));
    assert_eq!(rank("x.WAV", MediaKind::Audio), Some(1), "the case of the extension does not matter");
    assert_eq!(rank("x.AAC", MediaKind::Audio), Some(2));
    assert_eq!(rank("x.mp4", MediaKind::VideoContainer), None);
}

#[test]
fn validate_reports_missing_and_wrong_kinds() {
    let c = Combo { video: "Z:/nope.mp4".into(), audio: "Z:/nope.dsf".into(), audio_offset_ms: 0 };
    assert!(matches!(c.validate(None, None), Err(ComboError::Missing(_))));
    let c = Combo { video: "v.txt".into(), audio: "a.wav".into(), audio_offset_ms: 0 };
    assert!(matches!(
        c.validate(Some(MediaKind::Unknown), Some(MediaKind::Audio)),
        Err(ComboError::NotVideo(_))
    ));
}

#[test]
fn the_first_thing_wrong_with_a_set_is_reported() {
    let c = Combo { video: "v".into(), audio: "a".into(), audio_offset_ms: -5 };
    let video = Some(MediaKind::VideoContainer);
    assert_eq!(c.validate(None, None), Err(ComboError::Missing("v".into())));
    assert_eq!(c.validate(video, None), Err(ComboError::Missing("a".into())));
    assert_eq!(c.validate(Some(MediaKind::Audio), Some(MediaKind::Unknown)), Err(ComboError::NotVideo("v".into())));
    assert_eq!(c.validate(video, Some(MediaKind::Unknown)), Err(ComboError::NotAudio("a".into())));
    assert_eq!(c.validate(video, Some(MediaKind::Dsd)), Ok(()));
    assert_eq!(c.validate(video, video), Ok(()));
    assert_eq!(ComboError::Missing("x".into()).message(), "ファイルがありません: x");
    assert_eq!(ComboError::NotVideo("x".into()).message(), "映像ファイルではありません: x");
    assert_eq!(ComboError::NotAudio("x".into()).message(), "音声ファイルではありません: x");
}

#[test]
fn a_set_is_written_as_json() {
    let c = Combo { video: "a\"b\\c\n\u{1}é.mp4".into(), audio: "a.dsf".into(), audio_offset_ms: i64::MIN };
    let text = c.to_json();
    assert_eq!(
        text,
        "{\n  \"video\": \"a\\\"b\\\\c\\n\\u0001é.mp4\",\n  \"audio\": \"a.dsf\",\n  \"audio_offset_ms\": -9223372036854775808\n}"
    );
    let back: serde_json::Value = serde_json::from_str(&text).unwrap();
    assert_eq!(back["video"], serde_json::Value::from(c.video.as_str()));
    assert_eq!(back["audio_offset_ms"], serde_json::Value::from(i64::MIN));
    assert_eq!(serde_json::to_string_pretty(&back["audio"]).unwrap(), "\"a.dsf\"");
}
