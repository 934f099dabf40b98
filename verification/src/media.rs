//! What kind of file it is and what is in it.

use vstd::prelude::*;
use crate::text::{
    ascii_lower_all,
    extension_in,
    is_portable_path,
    path_extension,
    str_eq,
    to_ascii_lowercase,
};

verus! {

/// The kind of a file.
#[derive(Debug, Clone, Copy, PartialEq, Eq, Structural)]
pub enum MediaKind {
    /// DSF or DSDIFF.
    Dsd,
    /// Audio of any other kind.
    Audio,
    /// A container that may hold video. Its audio can be played.
    VideoContainer,
    Unknown,
}

/// What is known about a file before it is played. `D` is a length in time.
#[derive(Debug, Clone, PartialEq)]
pub struct MediaInfo<D> {
    pub path: String,
    pub kind: MediaKind,
    /// The sample rate, or the bit rate of DSD.
    pub sample_rate_hz: Option<u32>,
    pub channels: Option<usize>,
    pub bits_per_sample: Option<u32>,
    pub duration: Option<D>,
    pub is_mqa: bool,
}

/// What the header of a DSD file says.
#[derive(Debug, Clone, Copy)]
pub struct DsdFacts<D> {
    pub rate_hz: u32,
    pub channels: usize,
    pub duration: D,
}

/// What a file says about one of its tracks.
#[derive(Debug, Clone, Copy)]
pub struct TrackInfo<D> {
    pub sample_rate_hz: Option<u32>,
    pub channels: Option<usize>,
    pub bits_per_sample: Option<u32>,
    pub duration: Option<D>,
}

/// The extension of a path in lower case, or nothing. On a path whose extension is the same on
/// every platform it is the part of the file name after its last dot.
pub fn extension_of(path: &str) -> (ext: String)
    ensures
        is_portable_path(path@) ==> ext@ == (match extension_in(path@) {
            Some(e) => ascii_lower_all(e),
            None => Seq::empty(),
        }),
        !path@.contains('.') ==> ext@ == Seq::<char>::empty(),
{
    match path_extension(path) {
        Some(e) => to_ascii_lowercase(e.as_str()),
        None => String::new(),
    }
}

/// The extension of a container that may hold video.
pub open spec fn is_video_extension(ext: Seq<char>) -> bool {
    ext == "mp4"@ || ext == "m4v"@ || ext == "mkv"@ || ext == "webm"@ || ext == "mov"@ || ext == "avi"@ || ext
        == "ts"@
}

/// The extension of an audio file.
pub open spec fn is_audio_extension(ext: Seq<char>) -> bool {
    ext == "wav"@ || ext == "flac"@ || ext == "mp3"@ || ext == "aac"@ || ext == "m4a"@ || ext == "ogg"@ || ext
        == "opus"@ || ext == "aiff"@ || ext == "aif"@ || ext == "alac"@ || ext == "mka"@ || ext == "wv"@ || ext
        == "mp2"@ || ext == "caf"@
}

/// The kind of a file that is not DSD, by its extension.
pub open spec fn kind_of_extension_spec(ext: Seq<char>) -> MediaKind {
    if is_video_extension(ext) {
        MediaKind::VideoContainer
    } else if is_audio_extension(ext) {
        MediaKind::Audio
    } else {
        MediaKind::Unknown
    }
}

/// The kind of a file that is not DSD, by its extension in lower case.
pub fn kind_of_extension(ext: &str) -> (k: MediaKind)
    ensures
        k == kind_of_extension_spec(ext@),
{
    if str_eq(ext, "mp4") || str_eq(ext, "m4v") || str_eq(ext, "mkv") || str_eq(ext, "webm") || str_eq(
        ext,
        "mov",
    ) || str_eq(ext, "avi") || str_eq(ext, "ts") {
        MediaKind::VideoContainer
    } else if str_eq(ext, "wav") || str_eq(ext, "flac") || str_eq(ext, "mp3") || str_eq(ext, "aac") || str_eq(
        ext,
        "m4a",
    ) || str_eq(ext, "ogg") || str_eq(ext, "opus") || str_eq(ext, "aiff") || str_eq(ext, "aif") || str_eq(
        ext,
        "alac",
    ) || str_eq(ext, "mka") || str_eq(ext, "wv") || str_eq(ext, "mp2") || str_eq(ext, "caf") {
        MediaKind::Audio
    } else {
        MediaKind::Unknown
    }
}

/// The kind of a file: DSD is told by its content, the rest by the extension.
pub fn probe_kind_only(path: &str, is_dsd: bool) -> (k: MediaKind)
    ensures
        is_dsd ==> k is Dsd,
        !is_dsd && is_portable_path(path@) ==> k == kind_of_extension_spec(
            match extension_in(path@) {
                Some(e) => ascii_lower_all(e),
                None => Seq::empty(),
            },
        ),
        !is_dsd && !path@.contains('.') ==> k == kind_of_extension_spec(Seq::empty()),
{
    if is_dsd {
        return MediaKind::Dsd;
    }
    let ext = extension_of(path);
    kind_of_extension(ext.as_str())
}

/// Only FLAC is looked at for the tags of MQA.
pub fn may_be_mqa(ext: &str) -> (r: bool)
    ensures
        r == (ext@ == "flac"@),
{
    str_eq(ext, "flac")
}

/// What is known about a DSD file. `facts` is missing if the header cannot be read.
pub fn dsd_info<D>(path: String, facts: Option<DsdFacts<D>>) -> (info: MediaInfo<D>)
    ensures
        info.path == path,
        info.kind is Dsd,
        !info.is_mqa,
        match facts {
            Some(f) => {
                &&& info.sample_rate_hz == Some(f.rate_hz)
                &&& info.channels == Some(f.channels)
                &&& info.bits_per_sample == Some(1u32)
                &&& info.duration == Some(f.duration)
            },
            None => info.sample_rate_hz is None && info.channels is None && info.bits_per_sample is None
                && info.duration is None,
        },
{
    match facts {
        Some(f) => MediaInfo {
            path,
            kind: MediaKind::Dsd,
            sample_rate_hz: Some(f.rate_hz),
            channels: Some(f.channels),
            bits_per_sample: Some(1),
            duration: Some(f.duration),
            is_mqa: false,
        },
        None => MediaInfo {
            path,
            kind: MediaKind::Dsd,
            sample_rate_hz: None,
            channels: None,
            bits_per_sample: None,
            duration: None,
            is_mqa: false,
        },
    }
}

/// The first track that has a sample rate, or the number of tracks.
pub open spec fn first_audible<D>(tracks: Seq<TrackInfo<D>>) -> int
    decreases tracks.len(),
{
    if tracks.len() == 0 || tracks[0].sample_rate_hz is Some {
        0
    } else {
        1 + first_audible(tracks.drop_first())
    }
}

/// What is known about a file that is not DSD: its kind by its extension, MQA only as FLAC with a tag, and
/// the rest from the first track that has a sample rate. Of a file of unknown kind nothing is known.
pub fn file_info<D: Copy>(path: String, ext: &str, mqa_tag: bool, tracks: &[TrackInfo<D>]) -> (info: MediaInfo<D>)
    ensures
        info.path == path,
        info.kind == kind_of_extension_spec(ext@),
        info.is_mqa == (ext@ == "flac"@ && mqa_tag),
        0 <= first_audible(tracks@) <= tracks@.len(),
        ({
            let k = first_audible(tracks@);
            if !(info.kind is Unknown) && k < tracks@.len() {
                &&& info.sample_rate_hz == tracks@[k].sample_rate_hz
                &&& info.channels == tracks@[k].channels
                &&& info.bits_per_sample == tracks@[k].bits_per_sample
                &&& info.duration == tracks@[k].duration
            } else {
                &&& info.sample_rate_hz is None
                &&& info.channels is None
                &&& info.bits_per_sample is None
                &&& info.duration is None
            }
        }),
{
    let kind = kind_of_extension(ext);
    let is_mqa = may_be_mqa(ext) && mqa_tag;
    let mut k: usize = 0;
    assert(tracks@.skip(0) =~= tracks@);
    while k < tracks.len() && tracks[k].sample_rate_hz.is_none()
        invariant
            k <= tracks@.len(),
            first_audible(tracks@) == k + first_audible(tracks@.skip(k as int)),
        decreases tracks@.len() - k,
    {
        assert(tracks@.skip(k as int).drop_first() =~= tracks@.skip(k + 1));
        k += 1;
    }
    if kind != MediaKind::Unknown && k < tracks.len() {
        let t = tracks[k];
        MediaInfo {
            path,
            kind,
            sample_rate_hz: t.sample_rate_hz,
            channels: t.channels,
            bits_per_sample: t.bits_per_sample,
            duration: t.duration,
            is_mqa,
        }
    } else {
        MediaInfo {
            path,
            kind,
            sample_rate_hz: None,
            channels: None,
            bits_per_sample: None,
            duration: None,
            is_mqa,
        }
    }
}

/// No extension stands for both audio and video, and FLAC, the only one that can be MQA, is audio.
pub proof fn kinds_do_not_overlap(ext: Seq<char>)
    ensures
        !(is_video_extension(ext) && is_audio_extension(ext)),
        ext == "flac"@ ==> kind_of_extension_spec(ext) is Audio,
{
    reveal_strlit("mp4");
    reveal_strlit("m4v");
    reveal_strlit("mkv");
    reveal_strlit("webm");
    reveal_strlit("mov");
    reveal_strlit("avi");
    reveal_strlit("ts");
    reveal_strlit("wav");
    reveal_strlit("flac");
    reveal_strlit("mp3");
    reveal_strlit("aac");
    reveal_strlit("m4a");
    reveal_strlit("ogg");
    reveal_strlit("opus");
    reveal_strlit("aiff");
    reveal_strlit("aif");
    reveal_strlit("alac");
    reveal_strlit("mka");
    reveal_strlit("wv");
    reveal_strlit("mp2");
    reveal_strlit("caf");
    if is_video_extension(ext) {
        assert(ext.len() == 2 ==> ext[0] == 't');
        assert(ext.len() == 4 ==> ext[0] == 'w');
        assert(ext.len() == 3 ==> ext[0] == 'm' || (ext[0] == 'a' && ext[1] == 'v'));
        assert(ext.len() == 3 && ext[0] == 'm' ==> ext[2] == '4' || ext[2] == 'v');
    }
}

/// The kinds by extension: every one of the audio formats is audio, every one of the containers is a video
/// container, and nothing else is known.
pub proof fn every_known_extension_has_its_kind(ext: &str, k: MediaKind)
    requires
        call_ensures(kind_of_extension, (ext,), k),
    ensures
        k is Audio <==> seq![
            "wav"@, "flac"@, "mp3"@, "aac"@, "m4a"@, "ogg"@, "opus"@, "aiff"@, "aif"@, "alac"@, "mka"@, "wv"@,
            "mp2"@, "caf"@,
        ].contains(ext@),
        k is VideoContainer <==> seq!["mp4"@, "m4v"@, "mkv"@, "webm"@, "mov"@, "avi"@, "ts"@].contains(ext@),
        k is Unknown <==> !(k is Audio) && !(k is VideoContainer),
{
    let audio = seq![
        "wav"@, "flac"@, "mp3"@, "aac"@, "m4a"@, "ogg"@, "opus"@, "aiff"@, "aif"@, "alac"@, "mka"@, "wv"@,
        "mp2"@, "caf"@,
    ];
    let video = seq!["mp4"@, "m4v"@, "mkv"@, "webm"@, "mov"@, "avi"@, "ts"@];
    let e = ext@;
    kinds_do_not_overlap(e);
    assert(audio[0] == "wav"@ && audio[1] == "flac"@ && audio[2] == "mp3"@ && audio[3] == "aac"@ && audio[4]
        == "m4a"@ && audio[5] == "ogg"@ && audio[6] == "opus"@ && audio[7] == "aiff"@ && audio[8] == "aif"@
        && audio[9] == "alac"@ && audio[10] == "mka"@ && audio[11] == "wv"@ && audio[12] == "mp2"@ && audio[13]
        == "caf"@);
    assert(video[0] == "mp4"@ && video[1] == "m4v"@ && video[2] == "mkv"@ && video[3] == "webm"@ && video[4]
        == "mov"@ && video[5] == "avi"@ && video[6] == "ts"@);
}

/// What is known about a file comes from its first track with a sample rate. A known kind keeps all that this
/// track says, whatever stands before it; an unknown one says nothing, and MQA is FLAC with the tag.
pub proof fn a_file_is_described_by_its_first_audible_track<D: Copy>(
    path: String,
    ext: &str,
    mqa_tag: bool,
    tracks: &[TrackInfo<D>],
    k: int,
    info: MediaInfo<D>,
)
    requires
        call_ensures(file_info::<D>, (path, ext, mqa_tag, tracks), info),
        0 <= k <= tracks@.len(),
        forall|j: int| 0 <= j < k ==> (#[trigger] tracks@[j]).sample_rate_hz is None,
        k < tracks@.len() ==> tracks@[k].sample_rate_hz is Some,
    ensures
        info.path@ == path@,
        info.is_mqa <==> ext@ == "flac"@ && mqa_tag,
        info.kind == kind_of_extension_spec(ext@),
        k < tracks@.len() && !(info.kind is Unknown) ==> {
            &&& info.sample_rate_hz == tracks@[k].sample_rate_hz
            &&& info.channels == tracks@[k].channels
            &&& info.bits_per_sample == tracks@[k].bits_per_sample
            &&& info.duration == tracks@[k].duration
        },
        k == tracks@.len() || info.kind is Unknown ==> {
            &&& info.sample_rate_hz is None
            &&& info.channels is None
            &&& info.bits_per_sample is None
            &&& info.duration is None
        },
{
    lemma_first_audible(tracks@, k);
}

/// The first track with a sample rate is the one with none before it.
proof fn lemma_first_audible<D>(tracks: Seq<TrackInfo<D>>, k: int)
    requires
        0 <= k <= tracks.len(),
        forall|j: int| 0 <= j < k ==> (#[trigger] tracks[j]).sample_rate_hz is None,
        k < tracks.len() ==> tracks[k].sample_rate_hz is Some,
    ensures
        first_audible(tracks) == k,
    decreases tracks.len(),
{
    if tracks.len() > 0 && k > 0 {
        let rest = tracks.drop_first();
        assert forall|j: int| 0 <= j < k - 1 implies (#[trigger] rest[j]).sample_rate_hz is None by {
            assert(rest[j] == tracks[j + 1]);
        }
        lemma_first_audible(rest, k - 1);
    }
}

/// A DSD file keeps what its header says, as one bit per sample, and is never MQA; without a header nothing is
/// known but its kind.
pub proof fn a_dsd_file_is_described_by_its_header<D>(path: String, facts: Option<DsdFacts<D>>, info: MediaInfo<D>)
    requires
        call_ensures(dsd_info::<D>, (path, facts), info),
    ensures
        info.path@ == path@ && info.kind is Dsd && !info.is_mqa,
        facts matches Some(f) ==> info.sample_rate_hz == Some(f.rate_hz) && info.channels == Some(f.channels)
            && info.bits_per_sample == Some(1u32) && info.duration == Some(f.duration),
        facts is None ==> info.sample_rate_hz is None && info.channels is None && info.bits_per_sample is None
            && info.duration is None,
{
}

/// A path is known by what follows the last dot of its name, in any case: whatever the folder and the name, a
/// name with this extension is of the kind of the extension, and DSD goes by the content.
pub proof fn a_path_is_known_by_its_extension(
    folder: Seq<char>,
    name: Seq<char>,
    e: Seq<char>,
    path: &str,
    is_dsd: bool,
    k: MediaKind,
    ext: &str,
    known: MediaKind,
)
    requires
        call_ensures(probe_kind_only, (path, is_dsd), k),
        call_ensures(kind_of_extension, (ext,), known),
        path@ == folder + seq!['/'] + name + seq!['.'] + e,
        folder.len() > 1 && folder[0] != '/' && folder[0] != '\\' && folder[1] != '/',
        name.len() > 0,
        e.len() > 0,
        forall|i: int| 0 <= i < name.len() ==> name[i] != '/' && name[i] != '\\',
        forall|i: int| 0 <= i < e.len() ==> e[i] != '/' && e[i] != '\\' && e[i] != '.',
        ext@.len() == e.len(),
        forall|i: int| 0 <= i < e.len() ==> ext@[i] == crate::text::ascii_lower(#[trigger] e[i]),
    ensures
        is_dsd ==> k is Dsd,
        !is_dsd ==> k == known,
{
    let file = name + seq!['.'] + e;
    let cut = folder.len() + 1;
    let u = crate::text::unified(path@);
    assert(path@.last() == e.last());
    assert(crate::text::without_end_slashes(path@) == path@);
    assert forall|i: int| cut <= i < u.len() implies #[trigger] u[i] == file[i - cut] by {}
    crate::text::lemma_after_last_index(u, '/', cut as int);
    assert(crate::text::file_name(path@) =~= file);
    let dot = name.len() as int + 1;
    crate::text::lemma_after_last_index(file, '.', dot);
    assert(crate::text::name_extension(file) == Some(file.skip(dot)));
    assert(file.skip(dot) =~= e);
    assert(ascii_lower_all(e) =~= ext@);
    assert(u[0] != '/');
    assert(file.len() >= 3);
    assert(file != seq!['.'] && file != seq!['.', '.']);
    assert(crate::text::file_name(path@) != path@) by {
        assert(file.len() < path@.len());
    }
    assert(is_portable_path(path@));
}

/// Only files with the extension `flac` are searched for the tags of MQA.
pub proof fn only_flac_may_be_mqa(ext: &str, r: bool)
    requires
        call_ensures(may_be_mqa, (ext,), r),
    ensures
        r <==> ext@ == seq!['f', 'l', 'a', 'c'],
{
    reveal_strlit("flac");
    assert("flac"@ =~= seq!['f', 'l', 'a', 'c']);
}

} // verus!
