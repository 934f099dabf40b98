//! Video and audio from separate files, played together: sets made by hand, and the pairs that a folder
//! offers by itself.

use vstd::prelude::*;
use crate::json::{push_signed, quote, quoted, signed};
use crate::media::MediaKind;
use crate::text::{
    ascii_lower_all,
    before_first,
    chars_of,
    ends_with,
    ends_with_spec,
    is_ascending,
    is_permutation,
    key_view,
    lemma_lex_total,
    lemma_lex_transitive,
    lex_less,
    sorted_order,
    str_eq,
    str_less,
    take_before_first,
    to_ascii_lowercase,
};

verus! {

/// A video and the audio to play with it.
#[derive(Debug, Clone, PartialEq)]
pub struct Combo {
    pub video: String,
    /// Played in place of the audio inside the video.
    pub audio: String,
    /// By how many milliseconds the audio is late; negative if it is early.
    pub audio_offset_ms: i64,
}

/// What is wrong with a set.
#[derive(Debug, PartialEq)]
pub enum ComboError {
    Missing(String),
    NotVideo(String),
    NotAudio(String),
}

impl ComboError {
    /// The error as text for the listener.
    pub fn message(&self) -> (s: String)
        ensures
            s@ == (match *self {
                ComboError::Missing(p) => "ファイルがありません: "@ + p@,
                ComboError::NotVideo(p) => "映像ファイルではありません: "@ + p@,
                ComboError::NotAudio(p) => "音声ファイルではありません: "@ + p@,
            }),
    {
        match self {
            ComboError::Missing(p) => {
                let mut s = "ファイルがありません: ".to_owned();
                s.append(p.as_str());
                s
            },
            ComboError::NotVideo(p) => {
                let mut s = "映像ファイルではありません: ".to_owned();
                s.append(p.as_str());
                s
            },
            ComboError::NotAudio(p) => {
                let mut s = "音声ファイルではありません: ".to_owned();
                s.append(p.as_str());
                s
            },
        }
    }
}

/// What a file is: missing, or of some kind.
pub type Found = Option<MediaKind>;

impl Combo {
    /// Checks that both files are there, that the one is a video and that the other has audio. The first
    /// thing that is wrong is reported, missing files before wrong kinds.
    pub fn validate(&self, video: Found, audio: Found) -> (r: Result<(), ComboError>)
        ensures
            match r {
                Ok(()) => {
                    &&& video == Some(MediaKind::VideoContainer)
                    &&& audio is Some
                    &&& !(audio->0 is Unknown)
                },
                Err(ComboError::Missing(p)) => {
                    ||| video is None && p == self.video
                    ||| video is Some && audio is None && p == self.audio
                },
                Err(ComboError::NotVideo(p)) => {
                    &&& video is Some
                    &&& audio is Some
                    &&& !(video->0 is VideoContainer)
                    &&& p == self.video
                },
                Err(ComboError::NotAudio(p)) => {
                    &&& video == Some(MediaKind::VideoContainer)
                    &&& audio == Some(MediaKind::Unknown)
                    &&& p == self.audio
                },
            },
    {
        let v = match video {
            Some(k) => k,
            None => {
                return Err(ComboError::Missing(self.video.clone()));
            },
        };
        let a = match audio {
            Some(k) => k,
            None => {
                return Err(ComboError::Missing(self.audio.clone()));
            },
        };
        if v != MediaKind::VideoContainer {
            return Err(ComboError::NotVideo(self.video.clone()));
        }
        match a {
            MediaKind::Unknown => Err(ComboError::NotAudio(self.audio.clone())),
            _ => Ok(()),
        }
    }
}

/// A set as the text of its file.
pub open spec fn combo_text(c: Combo) -> Seq<char> {
    "{\n  \"video\": "@ + quoted(c.video@) + ",\n  \"audio\": "@ + quoted(c.audio@)
        + ",\n  \"audio_offset_ms\": "@ + signed(c.audio_offset_ms as int) + "\n}"@
}

impl Combo {
    /// The set as the text of its file, in JSON.
    pub fn to_json(&self) -> (s: String)
        ensures
            s@ == combo_text(*self),
    {
        let mut s = "{\n  \"video\": ".to_owned();
        s.append(quote(self.video.as_str()).as_str());
        s.append(",\n  \"audio\": ");
        s.append(quote(self.audio.as_str()).as_str());
        s.append(",\n  \"audio_offset_ms\": ");
        push_signed(&mut s, self.audio_offset_ms);
        s.append("\n}");
        s
    }
}

// ---- pairs ----

/// A file in a folder.
pub struct FolderEntry {
    pub name: String,
    pub path: String,
    pub kind: MediaKind,
}

/// A video of a folder, or an audio file and how it ranks: the lower the better.
pub struct Ranked {
    pub stem: String,
    pub path: String,
    pub rank: u8,
}

/// The file name up to its first dot: `movie.dsd256.dsf` belongs to `movie`.
pub fn first_stem(name: &str) -> (s: String)
    ensures
        s@ == before_first(name@, '.'),
{
    let v = chars_of(name);
    take_before_first(&v, '.')
}

/// How an audio file ranks: DSD first, then FLAC and WAV by their extension in any case, then the rest. Other
/// files have no rank.
pub open spec fn rank_spec(name: Seq<char>, kind: MediaKind) -> Option<u8> {
    match kind {
        MediaKind::Dsd => Some(0u8),
        MediaKind::Audio => Some(
            if ends_with_spec(ascii_lower_all(name), ".flac"@) || ends_with_spec(ascii_lower_all(name), ".wav"@) {
                1u8
            } else {
                2u8
            },
        ),
        _ => None,
    }
}

/// How an audio file ranks.
pub fn rank(name: &str, kind: MediaKind) -> (r: Option<u8>)
    ensures
        r == rank_spec(name@, kind),
{
    match kind {
        MediaKind::Dsd => Some(0),
        MediaKind::Audio => {
            let lower = to_ascii_lowercase(name);
            if ends_with(lower.as_str(), ".flac") || ends_with(lower.as_str(), ".wav") {
                Some(1)
            } else {
                Some(2)
            }
        },
        _ => None,
    }
}

/// An audio file as a mathematical value: stem, path and rank.
pub type AudioView = (Seq<char>, Seq<char>, u8);

/// The audio files among the entries, in order: stem, path and rank.
pub open spec fn audios_of(entries: Seq<FolderEntry>) -> Seq<AudioView>
    decreases entries.len(),
{
    if entries.len() == 0 {
        seq![]
    } else {
        let e = entries.last();
        let rest = audios_of(entries.drop_last());
        match rank_spec(e.name@, e.kind) {
            Some(r) => rest.push((before_first(e.name@, '.'), e.path@, r)),
            None => rest,
        }
    }
}

/// The videos among the entries, in order: stem and path.
pub open spec fn videos_of(entries: Seq<FolderEntry>) -> Seq<(Seq<char>, Seq<char>)>
    decreases entries.len(),
{
    if entries.len() == 0 {
        seq![]
    } else {
        let e = entries.last();
        let rest = videos_of(entries.drop_last());
        if e.kind is VideoContainer {
            rest.push((before_first(e.name@, '.'), e.path@))
        } else {
            rest
        }
    }
}

/// `a` is better than `b`: it ranks better, or as well and its path comes first.
pub open spec fn better(a: AudioView, b: AudioView) -> bool {
    a.2 < b.2 || (a.2 == b.2 && lex_less(a.1, b.1))
}

/// The best audio file with this stem.
pub open spec fn best_audio(audios: Seq<AudioView>, stem: Seq<char>) -> Option<AudioView>
    decreases audios.len(),
{
    if audios.len() == 0 {
        None
    } else {
        let a = audios.last();
        let rest = best_audio(audios.drop_last(), stem);
        if a.0 == stem && (rest is None || better(a, rest->0)) {
            Some(a)
        } else {
            rest
        }
    }
}

/// The pairs for videos in this order: a video without audio of its own is left out.
pub open spec fn pairs_of(videos: Seq<(Seq<char>, Seq<char>)>, audios: Seq<AudioView>) -> Seq<(Seq<char>, Seq<char>)>
    decreases videos.len(),
{
    if videos.len() == 0 {
        seq![]
    } else {
        let v = videos.last();
        let rest = pairs_of(videos.drop_last(), audios);
        match best_audio(audios, v.0) {
            Some(a) => rest.push((v.1, a.1)),
            None => rest,
        }
    }
}

/// The videos read along `order`.
pub open spec fn along(keys: Seq<(String, String)>, order: Seq<usize>) -> Seq<(Seq<char>, Seq<char>)> {
    order.map_values(|i: usize| key_view(keys[i as int]))
}

/// A pair of paths.
pub open spec fn combo_view(c: Combo) -> (Seq<char>, Seq<char>) {
    (c.video@, c.audio@)
}

/// An audio file as a mathematical value.
pub open spec fn ranked_view(r: Ranked) -> AudioView {
    (r.stem@, r.path@, r.rank)
}

/// The best audio file with a stem.
fn find_best(audios: &Vec<Ranked>, stem: &str) -> (r: Option<usize>)
    ensures
        match r {
            Some(k) => k < audios@.len() && best_audio(audios@.map_values(|a: Ranked| ranked_view(a)), stem@)
                == Some(ranked_view(audios@[k as int])),
            None => best_audio(audios@.map_values(|a: Ranked| ranked_view(a)), stem@) is None,
        },
{
    let ghost all = audios@.map_values(|a: Ranked| ranked_view(a));
    let mut best: Option<usize> = None;
    for i in 0..audios.len()
        invariant
            all == audios@.map_values(|a: Ranked| ranked_view(a)),
            match best {
                Some(k) => k < i && best_audio(all.take(i as int), stem@) == Some(ranked_view(audios@[k as int])),
                None => best_audio(all.take(i as int), stem@) is None,
            },
    {
        proof {
            assert(all.take(i + 1).drop_last() =~= all.take(i as int));
            assert(all.take(i + 1).last() == ranked_view(audios@[i as int]));
        }
        if str_eq(audios[i].stem.as_str(), stem) {
            let wins = match best {
                Some(k) => audios[i].rank < audios[k].rank || (audios[i].rank == audios[k].rank && str_less(
                    audios[i].path.as_str(),
                    audios[k].path.as_str(),
                )),
                None => true,
            };
            if wins {
                best = Some(i);
            }
        }
    }
    assert(all.take(audios@.len() as int) =~= all);
    best
}

/// `out` pairs the videos of a folder, in order of their names, with the best audio of each.
pub open spec fn are_pairs_of(entries: Seq<FolderEntry>, out: Seq<Combo>) -> bool {
    exists|keys: Seq<(String, String)>, order: Seq<usize>|
        {
            &&& keys.map_values(|k: (String, String)| key_view(k)) == videos_of(entries)
            &&& #[trigger] is_permutation(order, keys.len())
            &&& #[trigger] is_ascending(keys, order)
            &&& out.map_values(|c: Combo| combo_view(c)) == pairs_of(along(keys, order), audios_of(entries))
        }
}

/// Pairs every video of a folder with the best audio file of the same name, the videos in order of their
/// names.
pub fn pair_entries(entries: &Vec<FolderEntry>) -> (out: Vec<Combo>)
    ensures
        are_pairs_of(entries@, out@),
        forall|i: int| 0 <= i < out@.len() ==> (#[trigger] out@[i]).audio_offset_ms == 0,
{
    let mut videos: Vec<(String, String)> = Vec::new();
    let mut audios: Vec<Ranked> = Vec::new();
    for i in 0..entries.len()
        invariant
            videos@.map_values(|k: (String, String)| key_view(k)) == videos_of(entries@.take(i as int)),
            audios@.map_values(|a: Ranked| ranked_view(a)) == audios_of(entries@.take(i as int)),
    {
        let e = &entries[i];
        let ghost before_v = videos@;
        let ghost before_a = audios@;
        proof {
            assert(entries@.take(i + 1).drop_last() =~= entries@.take(i as int));
            assert(entries@.take(i + 1).last() == entries@[i as int]);
        }
        if e.kind == MediaKind::VideoContainer {
            videos.push((first_stem(e.name.as_str()), e.path.clone()));
        }
        if let Some(rank) = rank(e.name.as_str(), e.kind) {
            audios.push(Ranked { stem: first_stem(e.name.as_str()), path: e.path.clone(), rank });
        }
        proof {
            if e.kind is VideoContainer {
                assert(videos@.map_values(|k: (String, String)| key_view(k)) =~= before_v.map_values(
                    |k: (String, String)| key_view(k),
                ).push(key_view(videos@.last())));
            }
            if rank_spec(e.name@, e.kind) is Some {
                assert(audios@.map_values(|a: Ranked| ranked_view(a)) =~= before_a.map_values(
                    |a: Ranked| ranked_view(a),
                ).push(ranked_view(audios@.last())));
            }
        }
    }
    assert(entries@.take(entries@.len() as int) =~= entries@);
    let order = sorted_order(&videos);
    let ghost sorted = along(videos@, order@);
    let ghost all = audios@.map_values(|a: Ranked| ranked_view(a));
    let mut out: Vec<Combo> = Vec::new();
    for i in 0..order.len()
        invariant
            is_permutation(order@, videos@.len()),
            sorted == along(videos@, order@),
            all == audios@.map_values(|a: Ranked| ranked_view(a)),
            out@.map_values(|c: Combo| combo_view(c)) == pairs_of(sorted.take(i as int), all),
            forall|j: int| 0 <= j < out@.len() ==> (#[trigger] out@[j]).audio_offset_ms == 0,
    {
        let v = order[i];
        let ghost before = out@;
        proof {
            assert(sorted.take(i + 1).drop_last() =~= sorted.take(i as int));
            assert(sorted.take(i + 1).last() == key_view(videos@[v as int]));
        }
        if let Some(k) = find_best(&audios, videos[v].0.as_str()) {
            out.push(
                Combo { video: videos[v].1.clone(), audio: audios[k].path.clone(), audio_offset_ms: 0 },
            );
            proof {
                assert(out@.map_values(|c: Combo| combo_view(c)) =~= before.map_values(
                    |c: Combo| combo_view(c),
                ).push(combo_view(out@.last())));
            }
        }
    }
    assert(sorted.take(order@.len() as int) =~= sorted);
    proof {
        assert(is_permutation(order@, videos@.len()) && is_ascending(videos@, order@));
    }
    out
}

/// The audio file that a video is paired with has its name, and no other with that name is better: one
/// that ranks lower is never taken where one that ranks higher is there, so DSD wins over FLAC and
/// WAV, and these over the rest.
pub proof fn the_best_audio_is_paired(audios: Seq<AudioView>, stem: Seq<char>)
    ensures
        match best_audio(audios, stem) {
            Some(b) => {
                &&& b.0 == stem
                &&& audios.contains(b)
                &&& forall|i: int| 0 <= i < audios.len() && (#[trigger] audios[i]).0 == stem ==> !better(
                    audios[i],
                    b,
                ) && b.2 <= audios[i].2
            },
            None => forall|i: int| 0 <= i < audios.len() ==> (#[trigger] audios[i]).0 != stem,
        },
    decreases audios.len(),
{
    if audios.len() > 0 {
        let rest = audios.drop_last();
        let a = audios.last();
        the_best_audio_is_paired(rest, stem);
        assert forall|i: int| 0 <= i < rest.len() implies audios[i] == #[trigger] rest[i] by {}
        match best_audio(audios, stem) {
            Some(b) => {
                if b == a && a.0 == stem && (best_audio(rest, stem) is None || better(
                    a,
                    best_audio(rest, stem)->0,
                )) {
                    assert(audios[audios.len() - 1] == b);
                    lemma_lex_total(a.1, a.1);
                    assert forall|i: int| 0 <= i < audios.len() && (#[trigger] audios[i]).0 == stem implies !better(
                        audios[i],
                        b,
                    ) && b.2 <= audios[i].2 by {
                        if i < rest.len() {
                            assert(rest[i] == audios[i]);
                            let r = best_audio(rest, stem)->0;
                            assert(!better(rest[i], r));
                            lemma_lex_total(audios[i].1, r.1);
                            lemma_lex_total(audios[i].1, b.1);
                            if lex_less(audios[i].1, b.1) && lex_less(b.1, r.1) {
                                lemma_lex_transitive(audios[i].1, b.1, r.1);
                            }
                        }
                    }
                } else {
                    let k = choose|k: int| 0 <= k < rest.len() && rest[k] == b;
                    assert(audios[k] == b);
                    assert forall|i: int| 0 <= i < audios.len() && (#[trigger] audios[i]).0 == stem implies !better(
                        audios[i],
                        b,
                    ) && b.2 <= audios[i].2 by {
                        if i < rest.len() {
                            assert(rest[i] == audios[i]);
                        }
                    }
                }
            },
            None => {
                assert forall|i: int| 0 <= i < audios.len() implies (#[trigger] audios[i]).0 != stem by {
                    if i < rest.len() {
                        assert(rest[i] == audios[i]);
                    }
                }
            },
        }
    }
}

/// The name ends in `.flac` or `.wav`, in any case.
pub open spec fn is_lossless_name(name: Seq<char>) -> bool {
    ||| name.len() >= 5 && forall|i: int|
        0 <= i < 5 ==> crate::text::ascii_lower(#[trigger] name[name.len() - 5 + i]) == ".flac"@[i]
    ||| name.len() >= 4 && forall|i: int|
        0 <= i < 4 ==> crate::text::ascii_lower(#[trigger] name[name.len() - 4 + i]) == ".wav"@[i]
}

/// How good an audio file is for a pair: DSD is best, then what is lossless, then the rest.
pub open spec fn is_as_good(a: FolderEntry, b: FolderEntry) -> bool {
    &&& b.kind is Dsd ==> a.kind is Dsd
    &&& is_lossless_name(b.name@) ==> a.kind is Dsd || is_lossless_name(a.name@)
}

/// The name ends in one of the two exactly if it does in lower case.
proof fn lemma_lossless(name: Seq<char>)
    ensures
        is_lossless_name(name) <==> ends_with_spec(ascii_lower_all(name), ".flac"@) || ends_with_spec(
            ascii_lower_all(name),
            ".wav"@,
        ),
{
    reveal_strlit(".flac");
    reveal_strlit(".wav");
    let low = ascii_lower_all(name);
    let n = name.len() as int;
    assert forall|i: int| 0 <= i < n implies low[i] == #[trigger] crate::text::ascii_lower(name[i]) by {}
    if ends_with_spec(low, ".flac"@) {
        assert forall|i: int| 0 <= i < 5 implies crate::text::ascii_lower(#[trigger] name[n - 5 + i])
            == ".flac"@[i] by {
            assert(low.skip(n - 5)[i] == low[n - 5 + i]);
        }
    }
    if ends_with_spec(low, ".wav"@) {
        assert forall|i: int| 0 <= i < 4 implies crate::text::ascii_lower(#[trigger] name[n - 4 + i])
            == ".wav"@[i] by {
            assert(low.skip(n - 4)[i] == low[n - 4 + i]);
        }
    }
    if name.len() >= 5 && (forall|i: int|
        0 <= i < 5 ==> crate::text::ascii_lower(#[trigger] name[name.len() - 5 + i]) == ".flac"@[i]) {
        assert forall|i: int| 0 <= i < 5 implies low.skip(n - 5)[i] == ".flac"@[i] by {
            assert(crate::text::ascii_lower(name[n - 5 + i]) == ".flac"@[i]);
        }
        assert(low.skip(n - 5) =~= ".flac"@);
    }
    if name.len() >= 4 && (forall|i: int|
        0 <= i < 4 ==> crate::text::ascii_lower(#[trigger] name[name.len() - 4 + i]) == ".wav"@[i]) {
        assert forall|i: int| 0 <= i < 4 implies low.skip(n - 4)[i] == ".wav"@[i] by {
            assert(crate::text::ascii_lower(name[n - 4 + i]) == ".wav"@[i]);
        }
        assert(low.skip(n - 4) =~= ".wav"@);
    }
}

/// Audio files have a rank and others have none. Of any two, DSD ranks strictly before all that is not DSD, a name
/// that ends in `.flac` or `.wav` strictly before every other that is not DSD, and otherwise they rank
/// the same.
pub proof fn dsd_ranks_before_lossless_and_lossless_before_the_rest(
    a: &str,
    kind_a: MediaKind,
    rank_a: Option<u8>,
    b: &str,
    kind_b: MediaKind,
    rank_b: Option<u8>,
)
    requires
        call_ensures(rank, (a, kind_a), rank_a),
        call_ensures(rank, (b, kind_b), rank_b),
    ensures
        rank_a is Some <==> kind_a is Dsd || kind_a is Audio,
        kind_a is Dsd && kind_b is Audio ==> rank_a->0 < rank_b->0,
        kind_a is Audio && kind_b is Audio && is_lossless_name(a@) && !is_lossless_name(b@) ==> rank_a->0 < rank_b->0,
        kind_a is Audio && kind_b is Audio && is_lossless_name(a@) == is_lossless_name(b@) ==> rank_a == rank_b,
        kind_a is Dsd && kind_b is Dsd ==> rank_a == rank_b,
{
    lemma_lossless(a@);
    lemma_lossless(b@);
}

/// Every audio file among the entries is found, and nothing else is.
proof fn lemma_audios(entries: Seq<FolderEntry>)
    ensures
        forall|k: int|
            0 <= k < audios_of(entries).len() ==> exists|i: int|
                0 <= i < entries.len() && rank_spec((#[trigger] entries[i]).name@, entries[i].kind) == Some(
                    (#[trigger] audios_of(entries)[k]).2,
                ) && audios_of(entries)[k].0 == before_first(entries[i].name@, '.') && audios_of(entries)[k].1
                    == entries[i].path@,
        forall|i: int|
            0 <= i < entries.len() && rank_spec((#[trigger] entries[i]).name@, entries[i].kind) is Some
                ==> audios_of(entries).contains(
                (
                    before_first(entries[i].name@, '.'),
                    entries[i].path@,
                    rank_spec(entries[i].name@, entries[i].kind)->0,
                ),
            ),
    decreases entries.len(),
{
    if entries.len() > 0 {
        let rest = entries.drop_last();
        let e = entries.last();
        let all = audios_of(entries);
        let some = audios_of(rest);
        lemma_audios(rest);
        assert forall|k: int| 0 <= k < all.len() implies exists|i: int|
            0 <= i < entries.len() && rank_spec((#[trigger] entries[i]).name@, entries[i].kind) == Some(
                (#[trigger] all[k]).2,
            ) && all[k].0 == before_first(entries[i].name@, '.') && all[k].1 == entries[i].path@ by {
            if k < some.len() {
                assert(all[k] == some[k]);
                let i = choose|i: int|
                    0 <= i < rest.len() && rank_spec((#[trigger] rest[i]).name@, rest[i].kind) == Some(some[k].2)
                        && some[k].0 == before_first(rest[i].name@, '.') && some[k].1 == rest[i].path@;
                assert(entries[i] == rest[i]);
            } else {
                assert(entries[entries.len() - 1] == e);
            }
        }
        assert forall|i: int|
            0 <= i < entries.len() && rank_spec((#[trigger] entries[i]).name@, entries[i].kind) is Some implies all.contains(
            (
                before_first(entries[i].name@, '.'),
                entries[i].path@,
                rank_spec(entries[i].name@, entries[i].kind)->0,
            ),
        ) by {
            let x = (
                before_first(entries[i].name@, '.'),
                entries[i].path@,
                rank_spec(entries[i].name@, entries[i].kind)->0,
            );
            if i < rest.len() {
                assert(rest[i] == entries[i]);
                let k = choose|k: int| 0 <= k < some.len() && some[k] == x;
                assert(all[k] == x);
            } else {
                assert(all[all.len() - 1] == x);
            }
        }
    }
}

/// Entry `i` is this video.
spec fn is_video_at(entries: Seq<FolderEntry>, i: int, x: (Seq<char>, Seq<char>)) -> bool {
    &&& 0 <= i < entries.len()
    &&& entries[i].kind is VideoContainer
    &&& x == (before_first(entries[i].name@, '.'), entries[i].path@)
}

/// Every video among the entries is found, and nothing else is.
proof fn lemma_videos(entries: Seq<FolderEntry>, x: (Seq<char>, Seq<char>))
    ensures
        videos_of(entries).contains(x) <==> exists|i: int| is_video_at(entries, i, x),
    decreases entries.len(),
{
    let all = videos_of(entries);
    if entries.len() > 0 {
        let rest = entries.drop_last();
        let some = videos_of(rest);
        let last = entries.len() - 1;
        lemma_videos(rest, x);
        if all.contains(x) {
            let k = choose|k: int| 0 <= k < all.len() && all[k] == x;
            if k < some.len() {
                assert(some[k] == x);
                let i = choose|i: int| is_video_at(rest, i, x);
                assert(is_video_at(entries, i, x));
            } else {
                assert(is_video_at(entries, last, x));
            }
        }
        if exists|i: int| is_video_at(entries, i, x) {
            let i = choose|i: int| is_video_at(entries, i, x);
            if i < last {
                assert(is_video_at(rest, i, x));
                let k = choose|k: int| 0 <= k < some.len() && some[k] == x;
                assert(all[k] == x);
            } else {
                assert(all[all.len() - 1] == x);
            }
        }
    }
}

/// Video `i` is paired like this.
spec fn is_paired_at(
    videos: Seq<(Seq<char>, Seq<char>)>,
    audios: Seq<AudioView>,
    i: int,
    x: (Seq<char>, Seq<char>),
) -> bool {
    &&& 0 <= i < videos.len()
    &&& best_audio(audios, videos[i].0) matches Some(b) && x == (videos[i].1, b.1)
}

/// Every video that has audio is paired, with the best of it, and nothing else is.
proof fn lemma_pairs(videos: Seq<(Seq<char>, Seq<char>)>, audios: Seq<AudioView>, x: (Seq<char>, Seq<char>))
    ensures
        pairs_of(videos, audios).contains(x) <==> exists|i: int| is_paired_at(videos, audios, i, x),
    decreases videos.len(),
{
    let all = pairs_of(videos, audios);
    if videos.len() > 0 {
        let rest = videos.drop_last();
        let some = pairs_of(rest, audios);
        let last = videos.len() - 1;
        lemma_pairs(rest, audios, x);
        if all.contains(x) {
            let k = choose|k: int| 0 <= k < all.len() && all[k] == x;
            if k < some.len() {
                assert(some[k] == x);
                let i = choose|i: int| is_paired_at(rest, audios, i, x);
                assert(is_paired_at(videos, audios, i, x));
            } else {
                assert(is_paired_at(videos, audios, last, x));
            }
        }
        if exists|i: int| is_paired_at(videos, audios, i, x) {
            let i = choose|i: int| is_paired_at(videos, audios, i, x);
            if i < last {
                assert(is_paired_at(rest, audios, i, x));
                let k = choose|k: int| 0 <= k < some.len() && some[k] == x;
                assert(all[k] == x);
            } else {
                assert(all[all.len() - 1] == x);
            }
        }
    }
}

/// `v` is a video of the folder and `a` audio with the same name up to the first dot.
pub open spec fn belong_together(entries: Seq<FolderEntry>, v: int, a: int) -> bool {
    &&& 0 <= v < entries.len() && entries[v].kind is VideoContainer
    &&& 0 <= a < entries.len() && (entries[a].kind is Dsd || entries[a].kind is Audio)
    &&& before_first(entries[v].name@, '.') == before_first(entries[a].name@, '.')
}

/// The best audio with a name comes from an entry that is as good as every other with that name.
proof fn lemma_best_entry(entries: Seq<FolderEntry>, stem: Seq<char>) -> (a: int)
    ensures
        match best_audio(audios_of(entries), stem) {
            Some(b) => {
                &&& 0 <= a < entries.len()
                &&& entries[a].kind is Dsd || entries[a].kind is Audio
                &&& before_first(entries[a].name@, '.') == stem
                &&& entries[a].path@ == b.1
                &&& forall|e: int|
                    0 <= e < entries.len() && ((#[trigger] entries[e]).kind is Dsd || entries[e].kind is Audio)
                        && before_first(entries[e].name@, '.') == stem ==> is_as_good(entries[a], entries[e]) && (
                    is_as_good(entries[e], entries[a]) ==> !lex_less(entries[e].path@, entries[a].path@))
            },
            None => forall|e: int|
                0 <= e < entries.len() && ((#[trigger] entries[e]).kind is Dsd || entries[e].kind is Audio)
                    ==> before_first(entries[e].name@, '.') != stem,
        },
{
    let audios = audios_of(entries);
    lemma_audios(entries);
    the_best_audio_is_paired(audios, stem);
    match best_audio(audios, stem) {
        Some(b) => {
            let k = choose|k: int| 0 <= k < audios.len() && audios[k] == b;
            let a = choose|i: int|
                0 <= i < entries.len() && rank_spec((#[trigger] entries[i]).name@, entries[i].kind) == Some(
                    audios[k].2,
                ) && audios[k].0 == before_first(entries[i].name@, '.') && audios[k].1 == entries[i].path@;
            lemma_lossless(entries[a].name@);
            assert forall|e: int|
                0 <= e < entries.len() && ((#[trigger] entries[e]).kind is Dsd || entries[e].kind is Audio)
                    && before_first(entries[e].name@, '.') == stem implies is_as_good(entries[a], entries[e]) && (
            is_as_good(entries[e], entries[a]) ==> !lex_less(entries[e].path@, entries[a].path@)) by {
                lemma_lossless(entries[e].name@);
                let x = (
                    before_first(entries[e].name@, '.'),
                    entries[e].path@,
                    rank_spec(entries[e].name@, entries[e].kind)->0,
                );
                let m = choose|m: int| 0 <= m < audios.len() && audios[m] == x;
                assert(audios[m].0 == stem);
            }
            a
        },
        None => {
            assert forall|e: int|
                0 <= e < entries.len() && ((#[trigger] entries[e]).kind is Dsd || entries[e].kind is Audio) implies before_first(
                entries[e].name@,
                '.',
            ) != stem by {
                let x = (
                    before_first(entries[e].name@, '.'),
                    entries[e].path@,
                    rank_spec(entries[e].name@, entries[e].kind)->0,
                );
                let m = choose|m: int| 0 <= m < audios.len() && audios[m] == x;
                assert(audios[m].0 == before_first(entries[e].name@, '.'));
            }
            0
        },
    }
}

/// Every pair is a video of the folder and audio of the same name, and no other audio of that name is better: not
/// DSD where this is none, not lossless where this is neither, and of equally good ones the path that
/// comes first is taken. The audio is played without delay.
pub proof fn a_video_is_paired_with_the_best_audio_of_its_name(entries: &Vec<FolderEntry>, out: Vec<Combo>, i: int)
    requires
        call_ensures(pair_entries, (entries,), out),
        0 <= i < out@.len(),
    ensures
        out@[i].audio_offset_ms == 0,
        exists|v: int, a: int|
            {
                &&& #[trigger] belong_together(entries@, v, a)
                &&& entries@[v].path@ == out@[i].video@
                &&& entries@[a].path@ == out@[i].audio@
                &&& forall|e: int| #[trigger]
                    belong_together(entries@, v, e) ==> is_as_good(entries@[a], entries@[e]) && (is_as_good(
                        entries@[e],
                        entries@[a],
                    ) ==> !lex_less(entries@[e].path@, entries@[a].path@))
            },
{
    let (keys, order) = choose|keys: Seq<(String, String)>, order: Seq<usize>|
        {
            &&& keys.map_values(|k: (String, String)| key_view(k)) == videos_of(entries@)
            &&& #[trigger] is_permutation(order, keys.len())
            &&& #[trigger] is_ascending(keys, order)
            &&& out@.map_values(|c: Combo| combo_view(c)) == pairs_of(along(keys, order), audios_of(entries@))
        };
    let sorted = along(keys, order);
    let audios = audios_of(entries@);
    let pair = out@.map_values(|c: Combo| combo_view(c))[i];
    assert(pairs_of(sorted, audios)[i] == pair);
    lemma_pairs(sorted, audios, pair);
    let j = choose|j: int| is_paired_at(sorted, audios, j, pair);
    let k = order[j] as int;
    let x = videos_of(entries@)[k];
    assert(x == key_view(keys[k]) && sorted[j] == x);
    lemma_videos(entries@, x);
    let v = choose|v: int| is_video_at(entries@, v, x);
    let a = lemma_best_entry(entries@, sorted[j].0);
    assert(belong_together(entries@, v, a));
    assert forall|e: int| #[trigger] belong_together(entries@, v, e) implies is_as_good(entries@[a], entries@[e])
        && (is_as_good(entries@[e], entries@[a]) ==> !lex_less(entries@[e].path@, entries@[a].path@)) by {}
}

/// No video that has audio of its name is left out.
pub proof fn every_video_with_audio_is_paired(entries: &Vec<FolderEntry>, out: Vec<Combo>, v: int, a: int)
    requires
        call_ensures(pair_entries, (entries,), out),
        belong_together(entries@, v, a),
    ensures
        exists|i: int| 0 <= i < out@.len() && (#[trigger] out@[i]).video@ == entries@[v].path@,
{
    let (keys, order) = choose|keys: Seq<(String, String)>, order: Seq<usize>|
        {
            &&& keys.map_values(|k: (String, String)| key_view(k)) == videos_of(entries@)
            &&& #[trigger] is_permutation(order, keys.len())
            &&& #[trigger] is_ascending(keys, order)
            &&& out@.map_values(|c: Combo| combo_view(c)) == pairs_of(along(keys, order), audios_of(entries@))
        };
    let sorted = along(keys, order);
    let audios = audios_of(entries@);
    let stem = before_first(entries@[v].name@, '.');
    let x = (stem, entries@[v].path@);
    assert(is_video_at(entries@, v, x));
    lemma_videos(entries@, x);
    lemma_best_entry(entries@, stem);
    let k = choose|k: int| 0 <= k < videos_of(entries@).len() && videos_of(entries@)[k] == x;
    assert(key_view(keys[k]) == x);
    crate::text::lemma_every_index_is_listed(order, keys.len(), k);
    let j = choose|j: int| 0 <= j < order.len() && #[trigger] order[j] as int == k;
    assert(sorted[j] == x);
    let b = best_audio(audios, stem)->0;
    let y = (x.1, b.1);
    assert(is_paired_at(sorted, audios, j, y));
    lemma_pairs(sorted, audios, y);
    let m = choose|m: int| 0 <= m < pairs_of(sorted, audios).len() && pairs_of(sorted, audios)[m] == y;
    assert(out@.map_values(|c: Combo| combo_view(c))[m] == combo_view(out@[m]));
}

/// A set is valid exactly if its first file is a video and its second is there and of a known kind; a missing file
/// is reported before a wrong kind and the video before the audio.
pub proof fn a_set_is_a_video_and_something_that_sounds(c: &Combo, video: Found, audio: Found, r: Result<(), ComboError>)
    requires
        call_ensures(Combo::validate, (c, video, audio), r),
    ensures
        r is Ok <==> video == Some(MediaKind::VideoContainer) && audio is Some && audio != Some(MediaKind::Unknown),
        video is None ==> (r matches Err(ComboError::Missing(p)) && p@ == c.video@),
        video is Some && audio is None ==> (r matches Err(ComboError::Missing(p)) && p@ == c.audio@),
        video is Some && audio is Some && video != Some(MediaKind::VideoContainer) ==> (r matches Err(
            ComboError::NotVideo(p),
        ) && p@ == c.video@),
        video == Some(MediaKind::VideoContainer) && audio == Some(MediaKind::Unknown) ==> (r matches Err(
            ComboError::NotAudio(p),
        ) && p@ == c.audio@),
{
}

/// Each error says what is wrong, and with which file.
pub proof fn each_error_names_its_file(e: &ComboError, s: String)
    requires
        call_ensures(ComboError::message, (e,), s),
    ensures
        match *e {
            ComboError::Missing(path) => s@ == "ファイルがありません: "@ + path@,
            ComboError::NotVideo(path) => s@ == "映像ファイルではありません: "@ + path@,
            ComboError::NotAudio(path) => s@ == "音声ファイルではありません: "@ + path@,
        },
{
}

/// A set is written as an object that names both files and by how many milliseconds the audio is late: the digits of that number,
/// behind a minus sign if the audio is early.
pub proof fn a_set_is_written_with_both_files(c: &Combo, s: String, digits: Seq<char>)
    requires
        call_ensures(Combo::to_json, (c,), s),
        c.audio_offset_ms >= 0 ==> digits == crate::text::decimal(c.audio_offset_ms as nat),
        c.audio_offset_ms < 0 ==> digits == seq!['-'] + crate::text::decimal((-c.audio_offset_ms) as nat),
    ensures
        s@ == "{\n  \"video\": "@ + quoted(c.video@) + ",\n  \"audio\": "@ + quoted(c.audio@)
            + ",\n  \"audio_offset_ms\": "@ + digits + "\n}"@,
{
}

/// Pairs keep the order of the videos.
proof fn lemma_pairs_in_order(
    videos: Seq<(Seq<char>, Seq<char>)>,
    audios: Seq<AudioView>,
    i: int,
    j: int,
) -> (r: (int, int))
    requires
        0 <= i < j < pairs_of(videos, audios).len(),
    ensures
        0 <= r.0 < r.1 < videos.len(),
        videos[r.0].1 == pairs_of(videos, audios)[i].0,
        videos[r.1].1 == pairs_of(videos, audios)[j].0,
    decreases videos.len(),
{
    let rest = videos.drop_last();
    let some = pairs_of(rest, audios);
    if j < some.len() {
        lemma_pairs_in_order(rest, audios, i, j)
    } else {
        let pair = some[i];
        lemma_pairs(rest, audios, pair);
        let a = choose|a: int| is_paired_at(rest, audios, a, pair);
        (a, videos.len() - 1)
    }
}

/// Entry `v` is a video with this path.
pub open spec fn is_video_of(entries: Seq<FolderEntry>, v: int, path: Seq<char>) -> bool {
    0 <= v < entries.len() && entries[v].kind is VideoContainer && entries[v].path@ == path
}

/// The pairs come in order of the names of their videos up to the first dot, and those with the same name in order of their
/// paths.
pub proof fn pairs_come_in_order_of_their_names(entries: &Vec<FolderEntry>, out: Vec<Combo>, i: int, j: int)
    requires
        call_ensures(pair_entries, (entries,), out),
        0 <= i < j < out@.len(),
    ensures
        exists|v: int, w: int|
            {
                let a = before_first(entries@[v].name@, '.');
                let b = before_first(entries@[w].name@, '.');
                &&& #[trigger] is_video_of(entries@, v, out@[i].video@)
                &&& #[trigger] is_video_of(entries@, w, out@[j].video@)
                &&& !lex_less(b, a)
                &&& a == b ==> !lex_less(out@[j].video@, out@[i].video@)
            },
{
    let (keys, order) = choose|keys: Seq<(String, String)>, order: Seq<usize>|
        {
            &&& keys.map_values(|k: (String, String)| key_view(k)) == videos_of(entries@)
            &&& #[trigger] is_permutation(order, keys.len())
            &&& #[trigger] is_ascending(keys, order)
            &&& out@.map_values(|c: Combo| combo_view(c)) == pairs_of(along(keys, order), audios_of(entries@))
        };
    let sorted = along(keys, order);
    let audios = audios_of(entries@);
    let pairs = out@.map_values(|c: Combo| combo_view(c));
    assert(pairs[i] == combo_view(out@[i]) && pairs[j] == combo_view(out@[j]));
    let (a, b) = lemma_pairs_in_order(sorted, audios, i, j);
    let x = videos_of(entries@)[order[a] as int];
    let y = videos_of(entries@)[order[b] as int];
    assert(order[a] < keys.len() && order[b] < keys.len());
    assert(x == key_view(keys[order[a] as int]) && y == key_view(keys[order[b] as int]));
    assert(sorted[a] == x && sorted[b] == y);
    lemma_videos(entries@, x);
    lemma_videos(entries@, y);
    assert(videos_of(entries@).contains(x) && videos_of(entries@).contains(y));
    let v = choose|v: int| is_video_at(entries@, v, x);
    let w = choose|w: int| is_video_at(entries@, w, y);
    assert(!crate::text::pair_less(key_view(keys[order[b] as int]), key_view(keys[order[a] as int])));
    assert(is_video_of(entries@, v, out@[i].video@) && is_video_of(entries@, w, out@[j].video@));
}

} // verus!
