//! Playing tracks: the modes, which version of a track a mode calls for, which rates to try on a
//! device, and what the screen says about it all.

use vstd::prelude::*;
use crate::exclusive_bytes::{lemma_packed_push, packed_24, write_sample_24};
use crate::output::ResampleFilter;
use crate::source::{dop_word, dop_word_spec, Progress, DOP_IDLE_PAYLOAD};
use crate::startup::Plan;
use crate::text::{
    after_last,
    before_first,
    chars_of,
    decimal,
    file_name,
    find_after_last,
    lowercase,
    lemma_after_last_index,
    lemma_first_index,
    push_decimal,
    str_eq,
    string_of_range,
    take_before_first,
    to_lowercase,
    unified,
};
use crate::track::{position_spec, Track};

verus! {

// ---- modes ----

#[derive(Debug, Clone, Copy, PartialEq, Eq, Structural)]
pub enum PlayState {
    Stopped,
    Playing,
    Paused,
}

/// How audio gets to the device.
#[derive(Debug, Clone, Copy, PartialEq, Eq, Structural)]
pub enum PlayMode {
    /// Through the mixer of the system, converted to the rate of the device. The volume works.
    Shared,
    /// Straight to the device at the rate of the original.
    Exclusive,
    /// Straight to the device, converted to a high rate.
    ExclusiveUpsample,
    /// DSD over PCM straight to the device. Only for devices that take it: others play loud noise.
    Dop,
}

pub const SHARED_TITLE_JA: &'static str = "共有モード・高品質アップサンプル";

pub const SHARED_TITLE_EN: &'static str = "Shared mode · high-quality upsampling";

pub const SHARED_DESC_JA: &'static str = "Windowsのミキサーを経由し、デバイスの設定レート(例: 384kHz)へ高品質のsinc補間で変換して再生します。アプリの音量が効きます。";

pub const SHARED_DESC_EN: &'static str = "Plays through the Windows mixer, converting to the device's configured rate (e.g. 384 kHz) with a high-quality sinc resampler. The app volume works.";

pub const EXCLUSIVE_TITLE_JA: &'static str = "排他モード・ビットパーフェクト";

pub const EXCLUSIVE_TITLE_EN: &'static str = "Exclusive mode · bit-perfect";

pub const EXCLUSIVE_DESC_JA: &'static str = "Windowsのミキサーを通さず、元のサンプルレートのままDACへ直接送ります(変換・音量処理なし)。音量はDAC側で調整してください(アプリの音量は100%のとき値を変えません)。";

pub const EXCLUSIVE_DESC_EN: &'static str = "Bypasses the Windows mixer and sends the original sample rate straight to the DAC (no conversion, no volume processing). Adjust the volume on the DAC.";

pub const EXCLUSIVE_UPSAMPLE_TITLE_JA: &'static str = "排他モード・高品質アップサンプル";

pub const EXCLUSIVE_UPSAMPLE_TITLE_EN: &'static str = "Exclusive mode · high-quality upsampling";

pub const EXCLUSIVE_UPSAMPLE_DESC_JA: &'static str = "Windowsのミキサーを通さず、高品質のsinc補間で高いレート(例: 352.8kHz/384kHz)へ変換してDACへ直接送ります。音量はDAC側で調整してください。";

pub const EXCLUSIVE_UPSAMPLE_DESC_EN: &'static str = "Bypasses the Windows mixer and sends audio converted to a higher rate (e.g. 352.8/384 kHz) with a high-quality sinc resampler straight to the DAC. Adjust the volume on the DAC.";

pub const DOP_TITLE_JA: &'static str = "DoP・DSDのままDACへ";

pub const DOP_TITLE_EN: &'static str = "DoP · DSD as-is to the DAC";

pub const DOP_DESC_JA: &'static str = "DSDをDoP(DSD over PCM)に載せ、排他モードでDACへ直接送ります。DoP対応のDACでのみ使ってください(非対応だと大きなノイズになります)。DSD以外のファイルは、排他モード(A)で再生します。";

pub const DOP_DESC_EN: &'static str = "Packs DSD as DoP (DSD over PCM) and sends it straight to the DAC in exclusive mode. Use only with a DoP-capable DAC (otherwise loud noise). Non-DSD files play in exclusive mode (A).";

/// What the screen says about a mode, in Japanese and English.
#[derive(Debug, Clone, Copy)]
pub struct ModeText {
    pub id: &'static str,
    pub letter: &'static str,
    pub title_ja: &'static str,
    pub title_en: &'static str,
    pub desc_ja: &'static str,
    pub desc_en: &'static str,
    pub bit_perfect: bool,
}

/// What the screen says about a mode.
pub open spec fn mode_text_spec(mode: PlayMode) -> ModeText {
    match mode {
        PlayMode::Shared => ModeText {
            id: "shared",
            letter: "B",
            title_ja: SHARED_TITLE_JA,
            title_en: SHARED_TITLE_EN,
            desc_ja: SHARED_DESC_JA,
            desc_en: SHARED_DESC_EN,
            bit_perfect: false,
        },
        PlayMode::Exclusive => ModeText {
            id: "exclusive",
            letter: "A",
            title_ja: EXCLUSIVE_TITLE_JA,
            title_en: EXCLUSIVE_TITLE_EN,
            desc_ja: EXCLUSIVE_DESC_JA,
            desc_en: EXCLUSIVE_DESC_EN,
            bit_perfect: true,
        },
        PlayMode::ExclusiveUpsample => ModeText {
            id: "exclusive_upsample",
            letter: "E",
            title_ja: EXCLUSIVE_UPSAMPLE_TITLE_JA,
            title_en: EXCLUSIVE_UPSAMPLE_TITLE_EN,
            desc_ja: EXCLUSIVE_UPSAMPLE_DESC_JA,
            desc_en: EXCLUSIVE_UPSAMPLE_DESC_EN,
            bit_perfect: false,
        },
        PlayMode::Dop => ModeText {
            id: "dop",
            letter: "D",
            title_ja: DOP_TITLE_JA,
            title_en: DOP_TITLE_EN,
            desc_ja: DOP_DESC_JA,
            desc_en: DOP_DESC_EN,
            bit_perfect: true,
        },
    }
}

/// What the screen says about a mode.
pub fn mode_text(mode: PlayMode) -> (t: ModeText)
    ensures
        t == mode_text_spec(mode),
{
    match mode {
        PlayMode::Shared => ModeText {
            id: "shared",
            letter: "B",
            title_ja: SHARED_TITLE_JA,
            title_en: SHARED_TITLE_EN,
            desc_ja: SHARED_DESC_JA,
            desc_en: SHARED_DESC_EN,
            bit_perfect: false,
        },
        PlayMode::Exclusive => ModeText {
            id: "exclusive",
            letter: "A",
            title_ja: EXCLUSIVE_TITLE_JA,
            title_en: EXCLUSIVE_TITLE_EN,
            desc_ja: EXCLUSIVE_DESC_JA,
            desc_en: EXCLUSIVE_DESC_EN,
            bit_perfect: true,
        },
        PlayMode::ExclusiveUpsample => ModeText {
            id: "exclusive_upsample",
            letter: "E",
            title_ja: EXCLUSIVE_UPSAMPLE_TITLE_JA,
            title_en: EXCLUSIVE_UPSAMPLE_TITLE_EN,
            desc_ja: EXCLUSIVE_UPSAMPLE_DESC_JA,
            desc_en: EXCLUSIVE_UPSAMPLE_DESC_EN,
            bit_perfect: false,
        },
        PlayMode::Dop => ModeText {
            id: "dop",
            letter: "D",
            title_ja: DOP_TITLE_JA,
            title_en: DOP_TITLE_EN,
            desc_ja: DOP_DESC_JA,
            desc_en: DOP_DESC_EN,
            bit_perfect: true,
        },
    }
}

/// Every mode has text in both languages, no two modes have the same letter, and the modes that leave
/// every bit as it is are `Exclusive` and `Dop`.
pub proof fn every_mode_has_text_and_a_letter_of_its_own(a: PlayMode, b: PlayMode)
    ensures
        mode_text_spec(a).title_ja@.len() > 0,
        mode_text_spec(a).title_en@.len() > 0,
        mode_text_spec(a).desc_ja@.len() > 0,
        mode_text_spec(a).desc_en@.len() > 0,
        a != b ==> mode_text_spec(a).letter@ != mode_text_spec(b).letter@,
        mode_text_spec(a).bit_perfect <==> (a is Exclusive || a is Dop),
{
    reveal_strlit("共有モード・高品質アップサンプル");
    reveal_strlit("Shared mode · high-quality upsampling");
    reveal_strlit("Windowsのミキサーを経由し、デバイスの設定レート(例: 384kHz)へ高品質のsinc補間で変換して再生します。アプリの音量が効きます。");
    reveal_strlit("Plays through the Windows mixer, converting to the device's configured rate (e.g. 384 kHz) with a high-quality sinc resampler. The app volume works.");
    reveal_strlit("B");
    reveal_strlit("排他モード・ビットパーフェクト");
    reveal_strlit("Exclusive mode · bit-perfect");
    reveal_strlit("Windowsのミキサーを通さず、元のサンプルレートのままDACへ直接送ります(変換・音量処理なし)。音量はDAC側で調整してください(アプリの音量は100%のとき値を変えません)。");
    reveal_strlit("Bypasses the Windows mixer and sends the original sample rate straight to the DAC (no conversion, no volume processing). Adjust the volume on the DAC.");
    reveal_strlit("A");
    reveal_strlit("排他モード・高品質アップサンプル");
    reveal_strlit("Exclusive mode · high-quality upsampling");
    reveal_strlit("Windowsのミキサーを通さず、高品質のsinc補間で高いレート(例: 352.8kHz/384kHz)へ変換してDACへ直接送ります。音量はDAC側で調整してください。");
    reveal_strlit("Bypasses the Windows mixer and sends audio converted to a higher rate (e.g. 352.8/384 kHz) with a high-quality sinc resampler straight to the DAC. Adjust the volume on the DAC.");
    reveal_strlit("E");
    reveal_strlit("DoP・DSDのままDACへ");
    reveal_strlit("DoP · DSD as-is to the DAC");
    reveal_strlit("DSDをDoP(DSD over PCM)に載せ、排他モードでDACへ直接送ります。DoP対応のDACでのみ使ってください(非対応だと大きなノイズになります)。DSD以外のファイルは、排他モード(A)で再生します。");
    reveal_strlit("Packs DSD as DoP (DSD over PCM) and sends it straight to the DAC in exclusive mode. Use only with a DoP-capable DAC (otherwise loud noise). Non-DSD files play in exclusive mode (A).");
    reveal_strlit("D");
    if a != b {
        assert(mode_text_spec(a).letter@[0] != mode_text_spec(b).letter@[0]);
    }
}

// ---- rates as text ----

/// `v` doubled until it is at least 1000 times 2 to the 52nd. A thousandth of the result has 53 bits
/// before the point: the bits that a binary64 number keeps of `v / 1000`.
pub open spec fn scaled(v: int) -> int
    decreases 9007199254740992000 - v,
{
    if v <= 0 || v >= 4503599627370496000 {
        v
    } else {
        scaled(2 * v)
    }
}

/// The tenths of a kilohertz shown for a rate that is no whole number of kilohertz: the nearest. A rate
/// half-way between two tenths goes the way of the binary64 number nearest to it, and to the even
/// tenth if that number is exact.
pub open spec fn tenths_of_khz(hz: int) -> int {
    let below = hz / 100;
    let rest = scaled(hz) % 1000;
    if hz % 100 > 50 {
        below + 1
    } else if hz % 100 < 50 {
        below
    } else if rest == 0 {
        below + below % 2
    } else if rest > 500 {
        below + 1
    } else {
        below
    }
}

/// A rate in kilohertz: whole, or with one decimal.
pub open spec fn khz_spec(hz: int) -> Seq<char> {
    if hz % 1000 == 0 {
        decimal((hz / 1000) as nat) + " kHz"@
    } else {
        let t = tenths_of_khz(hz);
        decimal((t / 10) as nat) + "."@ + decimal((t % 10) as nat) + " kHz"@
    }
}

/// The tenths of a kilohertz shown for a rate that is no whole number of kilohertz.
fn khz_tenths(hz: u32) -> (t: u64)
    requires
        hz > 0,
    ensures
        t == tenths_of_khz(hz as int),
{
    let below: u64 = (hz / 100) as u64;
    if hz % 100 > 50 {
        return below + 1;
    }
    if hz % 100 < 50 {
        return below;
    }
    let mut v: u64 = hz as u64;
    while v < 4503599627370496000
        invariant
            0 < v < 9007199254740992000,
            scaled(v as int) == scaled(hz as int),
        decreases 9007199254740992000 - v,
    {
        v = 2 * v;
    }
    let rest = v % 1000;
    if rest == 0 {
        below + below % 2
    } else if rest > 500 {
        below + 1
    } else {
        below
    }
}

/// A rate in kilohertz: whole, or with one decimal.
pub fn khz(hz: u32) -> (s: String)
    ensures
        s@ == khz_spec(hz as int),
{
    let mut s = String::new();
    if hz % 1000 == 0 {
        push_decimal(&mut s, (hz / 1000) as u64);
    } else {
        let t = khz_tenths(hz);
        push_decimal(&mut s, t / 10);
        s.append(".");
        push_decimal(&mut s, t % 10);
    }
    s.append(" kHz");
    assert(s@ =~= khz_spec(hz as int));
    s
}

// ---- DSD over PCM ----

/// The marker phase `frames` frames after one that has `even`.
pub open spec fn marker_after(even: bool, frames: int) -> bool {
    if frames % 2 == 0 {
        even
    } else {
        !even
    }
}

/// The words of `frames` frames: the payloads in order and silence when they run out, each with the
/// marker of its frame.
pub open spec fn dop_words(even: bool, payloads: Seq<u16>, frames: int, channels: int) -> Seq<int> {
    Seq::new(
        (frames * channels) as nat,
        |k: int|
            dop_word_spec(
                marker_after(even, k / channels),
                if k < payloads.len() {
                    payloads[k]
                } else {
                    DOP_IDLE_PAYLOAD
                },
            ),
    )
}

/// Appends the bytes of `frames` frames of DSD over PCM. Where the payloads run out, silence follows.
/// The marker changes with every frame and goes on where the call before left it.
pub fn dop_fill(
    marker_even: &mut bool,
    payloads: &[u16],
    frames: usize,
    channels: usize,
    container_bytes: usize,
    out: &mut Vec<u8>,
)
    requires
        container_bytes == 3 || container_bytes == 4,
    ensures
        final(out)@ == old(out)@ + packed_24(
            dop_words(*old(marker_even), payloads@, frames as int, channels as int),
            container_bytes as int,
        ),
        *final(marker_even) == marker_after(*old(marker_even), frames as int),
{
    let ghost all = dop_words(*old(marker_even), payloads@, frames as int, channels as int);
    let mut next: usize = 0;
    let ghost mut done: int = 0;
    assert(all.take(0) =~= seq![]);
    assert(out@ =~= old(out)@ + packed_24(all.take(0), container_bytes as int));
    for f in 0..frames
        invariant
            container_bytes == 3 || container_bytes == 4,
            all == dop_words(*old(marker_even), payloads@, frames as int, channels as int),
            *marker_even == marker_after(*old(marker_even), f as int),
            done == f * channels,
            next == (if done < payloads@.len() {
                done
            } else {
                payloads@.len() as int
            }),
            out@ == old(out)@ + packed_24(all.take(done), container_bytes as int),
    {
        for c in 0..channels
            invariant
                container_bytes == 3 || container_bytes == 4,
                f < frames,
                all == dop_words(*old(marker_even), payloads@, frames as int, channels as int),
                *marker_even == marker_after(*old(marker_even), f as int),
                done == f * channels + c,
                next == (if done < payloads@.len() {
                    done
                } else {
                    payloads@.len() as int
                }),
                out@ == old(out)@ + packed_24(all.take(done), container_bytes as int),
        {
            let payload = if next < payloads.len() {
                payloads[next]
            } else {
                DOP_IDLE_PAYLOAD
            };
            proof {
                crate::frames::lemma_at(f as int, c as int, channels as int);
                crate::frames::lemma_at_bound(f as int, c as int, channels as int, frames as int);
                assert(all.take(done + 1) =~= all.take(done).push(dop_word_spec(*marker_even, payload)));
                lemma_packed_push(all.take(done), dop_word_spec(*marker_even, payload), container_bytes as int);
            }
            if next < payloads.len() {
                next += 1;
            }
            write_sample_24(out, dop_word(*marker_even, payload), container_bytes);
            proof {
                done = done + 1;
                assert(out@ =~= old(out)@ + packed_24(all.take(done), container_bytes as int));
            }
        }
        proof {
            assert(done == (f + 1) * channels) by (nonlinear_arith)
                requires
                    done == f * channels + channels,
            ;
        }
        *marker_even = !*marker_even;
    }
    assert(all.take(done) =~= all);
}

/// The stream goes on where it left off: `n` frames and then `m` more of the payloads that are left
/// are the same words, markers included, as `n + m` frames at once.
pub proof fn dop_markers_go_on_across_calls(even: bool, payloads: Seq<u16>, n: int, m: int, channels: int)
    requires
        n >= 0,
        m >= 0,
        channels > 0,
    ensures
        ({
            let used = if n * channels < payloads.len() {
                n * channels
            } else {
                payloads.len() as int
            };
            dop_words(even, payloads, n, channels) + dop_words(
                marker_after(even, n),
                payloads.skip(used),
                m,
                channels,
            ) == dop_words(even, payloads, n + m, channels)
        }),
        marker_after(marker_after(even, n), m) == marker_after(even, n + m),
{
    assert(n * channels >= 0 && m * channels >= 0 && n * channels + m * channels == (n + m) * channels)
        by (nonlinear_arith)
        requires
            n >= 0,
            m >= 0,
            channels > 0,
    ;
    let used = if n * channels < payloads.len() {
        n * channels
    } else {
        payloads.len() as int
    };
    let first = dop_words(even, payloads, n, channels);
    let second = dop_words(marker_after(even, n), payloads.skip(used), m, channels);
    let whole = dop_words(even, payloads, n + m, channels);
    assert forall|k: int| n * channels <= k < whole.len() implies whole[k] == second[k - n * channels] by {
        let d = k - n * channels;
        vstd::arithmetic::div_mod::lemma_hoist_over_denominator(d, n, channels as nat);
        assert(d / channels >= 0) by {
            vstd::arithmetic::div_mod::lemma_div_pos_is_pos(d, channels);
        }
        assert(marker_after(marker_after(even, n), d / channels) == marker_after(even, d / channels + n));
    }
    assert(first + second =~= whole);
}

/// The words of one request after another. A request is the payloads that are there for it and the frames
/// that it asks for.
pub open spec fn dop_stream(even: bool, requests: Seq<(Seq<u16>, nat)>, channels: int) -> Seq<int>
    decreases requests.len(),
{
    if requests.len() == 0 {
        Seq::empty()
    } else {
        let (payloads, frames) = requests[0];
        dop_words(even, payloads, frames as int, channels) + dop_stream(
            marker_after(even, frames as int),
            requests.drop_first(),
            channels,
        )
    }
}

/// The frames that requests ask for in all.
pub open spec fn frames_asked(requests: Seq<(Seq<u16>, nat)>) -> nat
    decreases requests.len(),
{
    if requests.len() == 0 {
        0
    } else {
        requests[0].1 + frames_asked(requests.drop_first())
    }
}

/// Whatever comes between, a pause, a seek or a dropout: the markers 0x05 and 0xFA take turns from frame to
/// frame, through any number of requests with any payloads, and all channels of a frame have the same one.
pub proof fn dop_markers_take_turns_through_gaps(even: bool, requests: Seq<(Seq<u16>, nat)>, channels: int)
    requires
        channels > 0,
    ensures
        dop_stream(even, requests, channels).len() == frames_asked(requests) * channels,
        forall|k: int|
            0 <= k < dop_stream(even, requests, channels).len() ==> (#[trigger] dop_stream(even, requests, channels)[k]
                / 65536) % 256 == (if marker_after(even, k / channels) {
                0x05int
            } else {
                0xFAint
            }),
    decreases requests.len(),
{
    if requests.len() > 0 {
        let (payloads, frames) = requests[0];
        let n = frames as int;
        let rest = requests.drop_first();
        let m = frames_asked(rest) as int;
        dop_markers_take_turns_through_gaps(marker_after(even, n), rest, channels);
        assert(n * channels >= 0 && m * channels >= 0 && n * channels + m * channels == (n + m) * channels)
            by (nonlinear_arith)
            requires
                n >= 0,
                m >= 0,
                channels > 0,
        ;
        let first = dop_words(even, payloads, n, channels);
        let second = dop_stream(marker_after(even, n), rest, channels);
        let words = dop_stream(even, requests, channels);
        assert(words == first + second);
        assert forall|k: int| 0 <= k < words.len() implies (#[trigger] words[k] / 65536) % 256 == (if marker_after(
            even,
            k / channels,
        ) {
            0x05int
        } else {
            0xFAint
        }) by {
            if k < n * channels {
                assert(words[k] == first[k]);
            } else {
                let d = k - n * channels;
                assert(words[k] == second[d]);
                vstd::arithmetic::div_mod::lemma_hoist_over_denominator(d, n, channels as nat);
                vstd::arithmetic::div_mod::lemma_div_pos_is_pos(d, channels);
                assert(marker_after(marker_after(even, n), d / channels) == marker_after(even, d / channels + n));
            }
        }
    } else {
        assert(0 * channels == 0);
    }
}

// ---- versions of a track ----

/// The name that all versions of a track share: the file name up to its first dot, in lower case.
pub open spec fn version_stem_spec(path: Seq<char>) -> Seq<char> {
    lowercase(before_first(file_name(path), '.'))
}

/// The name that all versions of a track share: the file name up to its first dot, in lower case.
pub fn version_stem(path: &str) -> (s: String)
    ensures
        s@ == version_stem_spec(path@),
{
    let given = chars_of(path);
    let mut all: Vec<char> = Vec::new();
    for i in 0..given.len()
        invariant
            given@ == path@,
            all@ == unified(path@).take(i as int),
    {
        let c = given[i];
        all.push(
            if c == '\\' {
                '/'
            } else {
                c
            },
        );
        assert(unified(path@).take(i + 1) =~= unified(path@).take(i as int).push(unified(path@)[i as int]));
    }
    assert(all@ =~= unified(path@));
    let from = find_after_last(&all, '/');
    let name = chars_of(string_of_range(&all, from, all.len()).as_str());
    assert(name@ =~= after_last(unified(path@), '/'));
    let stem = take_before_first(&name, '.');
    to_lowercase(stem.as_str())
}

/// The stem of a path is that of the name behind its last separator.
proof fn lemma_stem(prefix: Seq<char>, file: Seq<char>, name: Seq<char>)
    requires
        prefix.len() == 0 || prefix.last() == '/' || prefix.last() == '\\',
        forall|i: int| 0 <= i < file.len() ==> file[i] != '/' && file[i] != '\\',
        forall|i: int| 0 <= i < name.len() ==> name[i] != '.',
        name.len() <= file.len(),
        file.take(name.len() as int) == name,
        name.len() < file.len() ==> file[name.len() as int] == '.',
    ensures
        version_stem_spec(prefix + file) == lowercase(name),
{
    let path = prefix + file;
    let u = unified(path);
    let cut = prefix.len() as int;
    assert forall|i: int| 0 <= i < file.len() implies u[cut + i] == file[i] by {
        assert(path[cut + i] == file[i]);
    }
    assert(cut > 0 ==> u[cut - 1] == '/') by {
        if cut > 0 {
            assert(path[cut - 1] == prefix.last());
        }
    }
    assert forall|i: int| cut <= i < u.len() implies u[i] != '/' by {
        assert(u[cut + (i - cut)] == file[i - cut]);
    }
    lemma_after_last_index(u, '/', cut);
    assert(after_last(u, '/') =~= file);
    assert forall|i: int| 0 <= i < name.len() implies file[i] != '.' by {
        assert(file.take(name.len() as int)[i] == name[i]);
    }
    lemma_first_index(file, '.', name.len() as int);
}

/// The versions of a track share their stem, whatever their folders and extensions are, and with no
/// extension too.
pub proof fn versions_of_a_track_share_their_stem(folder: Seq<char>, name: Seq<char>, extension: Seq<char>)
    requires
        forall|i: int| 0 <= i < name.len() ==> name[i] != '/' && name[i] != '\\' && name[i] != '.',
        forall|i: int| 0 <= i < extension.len() ==> extension[i] != '/' && extension[i] != '\\',
    ensures
        version_stem_spec(name + seq!['.'] + extension) == lowercase(name),
        version_stem_spec(folder + seq!['/'] + name + seq!['.'] + extension) == lowercase(name),
        version_stem_spec(folder + seq!['\\'] + name + seq!['.'] + extension) == lowercase(name),
        version_stem_spec(name) == lowercase(name),
        version_stem_spec(folder + seq!['/'] + name) == lowercase(name),
        version_stem_spec(folder + seq!['\\'] + name) == lowercase(name),
{
    let file = name + seq!['.'] + extension;
    let none = Seq::<char>::empty();
    let slash = folder + seq!['/'];
    let back = folder + seq!['\\'];
    assert(file.take(name.len() as int) =~= name);
    assert(name.take(name.len() as int) =~= name);
    lemma_stem(none, file, name);
    lemma_stem(slash, file, name);
    lemma_stem(back, file, name);
    lemma_stem(none, name, name);
    lemma_stem(slash, name, name);
    lemma_stem(back, name, name);
    assert(none + file =~= file && none + name =~= name);
    assert(slash + file =~= folder + seq!['/'] + name + seq!['.'] + extension);
    assert(back + file =~= folder + seq!['\\'] + name + seq!['.'] + extension);
}

/// A version of a track: its place in the playlist, whether it is DSD, and its rate.
pub open spec fn preferred(c: Seq<(usize, bool, u32)>, i: int, j: int) -> bool {
    c[i].2 > c[j].2 || (c[i].2 == c[j].2 && i < j)
}

/// `r` is what a mode picks out of the versions of a track. For DoP that is the DSD version with the
/// highest rate that `dop_ok` accepts, the first of equals; for the other modes, the first version
/// that is not DSD. `dop_ok` is asked about better versions first and about none after it accepts one.
pub open spec fn picks<F: Fn(u32) -> bool>(
    mode: PlayMode,
    c: Seq<(usize, bool, u32)>,
    dop_ok: F,
    r: Option<usize>,
) -> bool {
    if mode is Dop {
        match r {
            Some(p) => exists|i: int|
                {
                    &&& 0 <= i < c.len()
                    &&& (#[trigger] c[i]).1
                    &&& c[i].0 == p
                    &&& call_ensures(dop_ok, (c[i].2,), true)
                    &&& forall|j: int|
                        0 <= j < c.len() && (#[trigger] c[j]).1 && preferred(c, j, i) ==> call_ensures(
                            dop_ok,
                            (c[j].2,),
                            false,
                        )
                },
            None => forall|j: int|
                0 <= j < c.len() && (#[trigger] c[j]).1 ==> call_ensures(dop_ok, (c[j].2,), false),
        }
    } else {
        match r {
            Some(p) => exists|i: int|
                0 <= i < c.len() && !(#[trigger] c[i]).1 && c[i].0 == p && forall|j: int|
                    0 <= j < i ==> (#[trigger] c[j]).1,
            None => forall|j: int| 0 <= j < c.len() ==> (#[trigger] c[j]).1,
        }
    }
}

/// The places of the DSD versions in `c`, the preferred ones first.
fn dsd_by_rate(c: &[(usize, bool, u32)]) -> (order: Vec<usize>)
    ensures
        forall|a: int| 0 <= a < order@.len() ==> (#[trigger] order@[a]) < c@.len() && c@[order@[a] as int].1,
        forall|a: int, b: int|
            0 <= a < b < order@.len() ==> preferred(c@, #[trigger] order@[a] as int, #[trigger] order@[b] as int),
        forall|j: int| 0 <= j < c@.len() && (#[trigger] c@[j]).1 ==> order@.contains(j as usize),
{
    let mut order: Vec<usize> = Vec::new();
    for i in 0..c.len()
        invariant
            i <= c@.len(),
            forall|a: int| 0 <= a < order@.len() ==> (#[trigger] order@[a]) < i && c@[order@[a] as int].1,
            forall|a: int, b: int|
                0 <= a < b < order@.len() ==> preferred(
                    c@,
                    #[trigger] order@[a] as int,
                    #[trigger] order@[b] as int,
                ),
            forall|j: int| 0 <= j < i && (#[trigger] c@[j]).1 ==> order@.contains(j as usize),
    {
        if c[i].1 {
            let mut p: usize = order.len();
            while p > 0 && c[order[p - 1]].2 < c[i].2
                invariant
                    i < c@.len(),
                    p <= order@.len(),
                    forall|a: int| 0 <= a < order@.len() ==> (#[trigger] order@[a]) < i,
                    forall|a: int| p <= a < order@.len() ==> c@[(#[trigger] order@[a]) as int].2 < c@[i as int].2,
                decreases p,
            {
                p -= 1;
            }
            let ghost before = order@;
            proof {
                assert forall|a: int| 0 <= a < p implies preferred(c@, #[trigger] before[a] as int, i as int) by {
                    if a < p - 1 {
                        assert(preferred(c@, before[a] as int, before[p - 1] as int));
                    }
                }
            }
            order.insert(p, i);
            proof {
                assert(order@[p as int] == i);
                assert forall|j: int| 0 <= j <= i && (#[trigger] c@[j]).1 implies order@.contains(j as usize) by {
                    if j < i {
                        let k = choose|k: int| 0 <= k < before.len() && before[k] == j as usize;
                        if k < p {
                            assert(order@[k] == j as usize);
                        } else {
                            assert(order@[k + 1] == j as usize);
                        }
                    }
                }
            }
        }
    }
    order
}

/// Picks the version of a track that suits a mode: for DoP the DSD version with the highest rate that
/// `dop_ok` accepts, for the other modes the first that is not DSD.
pub fn pick_version<F: Fn(u32) -> bool>(
    mode: PlayMode,
    candidates: &[(usize, bool, u32)],
    dop_ok: &F,
) -> (r: Option<usize>)
    requires
        forall|rate: u32| call_requires(dop_ok, (rate,)),
    ensures
        picks(mode, candidates@, *dop_ok, r),
{
    if mode == PlayMode::Dop {
        let order = dsd_by_rate(candidates);
        for a in 0..order.len()
            invariant
                mode is Dop,
                forall|rate: u32| call_requires(dop_ok, (rate,)),
                forall|x: int|
                    0 <= x < order@.len() ==> (#[trigger] order@[x]) < candidates@.len()
                        && candidates@[order@[x] as int].1,
                forall|x: int, y: int|
                    0 <= x < y < order@.len() ==> preferred(
                        candidates@,
                        #[trigger] order@[x] as int,
                        #[trigger] order@[y] as int,
                    ),
                forall|j: int|
                    0 <= j < candidates@.len() && (#[trigger] candidates@[j]).1 ==> order@.contains(j as usize),
                forall|x: int|
                    0 <= x < a ==> call_ensures(
                        *dop_ok,
                        (candidates@[(#[trigger] order@[x]) as int].2,),
                        false,
                    ),
        {
            let i = order[a];
            if dop_ok(candidates[i].2) {
                proof {
                    assert forall|j: int|
                        0 <= j < candidates@.len() && (#[trigger] candidates@[j]).1 && preferred(
                            candidates@,
                            j,
                            i as int,
                        ) implies call_ensures(*dop_ok, (candidates@[j].2,), false) by {
                        let k = choose|k: int| 0 <= k < order@.len() && order@[k] == j as usize;
                        if k > a {
                            assert(preferred(candidates@, order@[a as int] as int, order@[k] as int));
                        }
                    }
                    assert(candidates@[i as int].1);
                }
                return Some(candidates[i].0);
            }
        }
        assert forall|j: int| 0 <= j < candidates@.len() && (#[trigger] candidates@[j]).1 implies call_ensures(
            *dop_ok,
            (candidates@[j].2,),
            false,
        ) by {
            let k = choose|k: int| 0 <= k < order@.len() && order@[k] == j as usize;
        }
        return None;
    }
    for i in 0..candidates.len()
        invariant
            !(mode is Dop),
            forall|j: int| 0 <= j < i ==> (#[trigger] candidates@[j]).1,
    {
        if !candidates[i].1 {
            return Some(candidates[i].0);
        }
    }
    None
}

// ---- rates ----

/// The rates to convert to for a source of this rate, the highest first: those of its own family. A quarter
/// of 44.1 kHz goes into every rate of that family.
pub open spec fn family(src_rate: u32) -> Seq<u32> {
    if src_rate % 11_025 == 0 {
        seq![352_800u32, 176_400u32, 88_200u32]
    } else {
        seq![384_000u32, 192_000u32, 96_000u32]
    }
}

/// The rates to try in exclusive mode: when upsampling, those of the family that are not below the
/// source; the rate of the source itself last, if it is not among them.
pub open spec fn exclusive_rates_spec(src_rate: u32, upsample: bool) -> Seq<u32> {
    let up = if upsample {
        family(src_rate).filter(|r: u32| r >= src_rate)
    } else {
        seq![]
    };
    if up.contains(src_rate) {
        up
    } else {
        up.push(src_rate)
    }
}

/// The rates to try in exclusive mode, the highest first.
pub fn exclusive_rates(src_rate: u32, upsample: bool) -> (v: Vec<u32>)
    ensures
        v@ == exclusive_rates_spec(src_rate, upsample),
{
    let ups: [u32; 3] = if src_rate % 11_025 == 0 {
        [352_800, 176_400, 88_200]
    } else {
        [384_000, 192_000, 96_000]
    };
    assert(ups@ =~= family(src_rate));
    let ghost keep = |r: u32| r >= src_rate;
    let mut v: Vec<u32> = Vec::new();
    let mut listed: bool = false;
    if upsample {
        proof {
            assert(ups@.take(0).filter(keep) =~= seq![]) by {
                reveal(Seq::filter);
            }
        }
        for i in 0..3
            invariant
                keep == (|r: u32| r >= src_rate),
                v@ == ups@.take(i as int).filter(keep),
                listed == v@.contains(src_rate),
        {
            let ghost before = v@;
            proof {
                assert(ups@.take(i + 1).drop_last() =~= ups@.take(i as int));
                reveal(Seq::filter);
            }
            if ups[i] >= src_rate {
                v.push(ups[i]);
                proof {
                    assert(v@[before.len() as int] == ups@[i as int]);
                    if before.contains(src_rate) {
                        let k = choose|k: int| 0 <= k < before.len() && before[k] == src_rate;
                        assert(v@[k] == src_rate);
                    }
                }
                if ups[i] == src_rate {
                    listed = true;
                }
            }
        }
        assert(ups@.take(3) =~= family(src_rate));
    }
    if !listed {
        v.push(src_rate);
    }
    v
}

/// The rates of the family that are not below the source are the first ones.
proof fn lemma_not_below(src_rate: u32)
    ensures
        ({
            let f = family(src_rate);
            f.filter(|r: u32| r >= src_rate) == (if f[2] >= src_rate {
                f
            } else if f[1] >= src_rate {
                f.take(2)
            } else if f[0] >= src_rate {
                f.take(1)
            } else {
                seq![]
            })
        }),
{
    let f = family(src_rate);
    let keep = |r: u32| r >= src_rate;
    reveal(Seq::filter);
    assert(f.drop_last() =~= f.take(2));
    assert(f.take(2).drop_last() =~= f.take(1));
    assert(f.take(1).drop_last() =~= seq![]);
    assert(f.take(1).drop_last().filter(keep) =~= seq![]);
    assert(f.take(1).filter(keep) =~= if f[0] >= src_rate {
        f.take(1)
    } else {
        seq![]
    });
    assert(f.take(2).filter(keep) =~= if f[1] >= src_rate {
        f.take(2)
    } else {
        f.take(1).filter(keep)
    });
    assert(f.filter(keep) =~= (if f[2] >= src_rate {
        f
    } else if f[1] >= src_rate {
        f.take(2)
    } else if f[0] >= src_rate {
        f.take(1)
    } else {
        seq![]
    }));
}

/// The rates to try stay in the family of the source and never go below it; the highest come first and
/// none comes twice; the rate of the source is always among them, and alone unless upsampling.
pub proof fn rates_stay_in_the_family(src_rate: u32, upsample: bool)
    ensures
        exclusive_rates_spec(src_rate, upsample).contains(src_rate),
        !upsample ==> exclusive_rates_spec(src_rate, upsample) == seq![src_rate],
        forall|i: int|
            0 <= i < exclusive_rates_spec(src_rate, upsample).len() ==> {
                let r = #[trigger] exclusive_rates_spec(src_rate, upsample)[i];
                r >= src_rate && (r == src_rate || family(src_rate).contains(r))
            },
        forall|i: int, j: int|
            0 <= i < j < exclusive_rates_spec(src_rate, upsample).len() ==> #[trigger] exclusive_rates_spec(
                src_rate,
                upsample,
            )[i] > #[trigger] exclusive_rates_spec(src_rate, upsample)[j],
        forall|r: u32|
            src_rate % 11_025 == 0 && #[trigger] exclusive_rates_spec(src_rate, upsample).contains(r) ==> r
                % 11_025 == 0,
{
    let f = family(src_rate);
    let keep = |r: u32| r >= src_rate;
    let up = f.filter(keep);
    lemma_not_below(src_rate);
    let v = exclusive_rates_spec(src_rate, upsample);
    if !upsample {
        assert(!Seq::<u32>::empty().contains(src_rate));
        assert(v =~= seq![src_rate]);
    }
    assert(v.contains(src_rate)) by {
        let head = if upsample {
            up
        } else {
            seq![]
        };
        if !head.contains(src_rate) {
            assert(v[head.len() as int] == src_rate);
        }
    }
    assert forall|i: int| 0 <= i < v.len() implies {
        let r = #[trigger] v[i];
        r >= src_rate && (r == src_rate || f.contains(r))
    } by {
        if upsample && i < up.len() {
            assert(up[i] == f[i]);
            assert(f.contains(f[i]));
        }
    }
    assert forall|i: int, j: int| 0 <= i < j < v.len() implies #[trigger] v[i] > #[trigger] v[j] by {
        if upsample && j >= up.len() {
            assert(v[j] == src_rate);
            assert(v[i] == up[i]);
            assert(up.contains(up[i]));
        }
    }
}

// ---- the state of the player ----

/// What the screen shows.
#[derive(Debug, Clone)]
pub struct Status {
    pub state: PlayState,
    /// The place of the track in the playlist.
    pub index: Option<usize>,
    pub path: Option<String>,
    pub position: Progress,
    pub duration: Progress,
    pub device: String,
    /// The rate at which the device runs.
    pub out_rate_hz: u32,
    pub source_rate_hz: u32,
    pub source_kind: String,
    /// The mode that was asked for.
    pub selected_mode: PlayMode,
    /// The mode in use. It is another one if the device refused.
    pub active_mode: ModeText,
    /// What becomes of the audio on its way to the device.
    pub route_ja: String,
    pub route_en: String,
    /// Why another mode is in use, or empty.
    pub note: String,
    /// The last error, or empty.
    pub message: String,
    /// The frames of silence played because audio was not ready in time.
    pub underrun_frames: u64,
    pub filter: ResampleFilter,
    /// The version of a track that suits the mode is picked by itself.
    pub auto_version: bool,
}

/// What the screen shows, as a mathematical value.
#[verifier::ext_equal]
pub struct StatusView {
    pub state: PlayState,
    pub index: Option<usize>,
    pub path: Option<Seq<char>>,
    pub position: Progress,
    pub duration: Progress,
    pub device: Seq<char>,
    pub out_rate_hz: u32,
    pub source_rate_hz: u32,
    pub source_kind: Seq<char>,
    pub selected_mode: PlayMode,
    pub active_mode: ModeText,
    pub route_ja: Seq<char>,
    pub route_en: Seq<char>,
    pub note: Seq<char>,
    pub message: Seq<char>,
    pub underrun_frames: u64,
    pub filter: ResampleFilter,
    pub auto_version: bool,
}

impl Status {
    /// What the screen shows, as a mathematical value.
    pub open spec fn view(&self) -> StatusView {
        StatusView {
            state: self.state,
            index: self.index,
            path: crate::text::opt_view(self.path),
            position: self.position,
            duration: self.duration,
            device: self.device@,
            out_rate_hz: self.out_rate_hz,
            source_rate_hz: self.source_rate_hz,
            source_kind: self.source_kind@,
            selected_mode: self.selected_mode,
            active_mode: self.active_mode,
            route_ja: self.route_ja@,
            route_en: self.route_en@,
            note: self.note@,
            message: self.message@,
            underrun_frames: self.underrun_frames,
            filter: self.filter,
            auto_version: self.auto_version,
        }
    }
}

/// The beginning of a track.
pub open spec fn beginning() -> Progress {
    Progress { frames: 0, rate_hz: 1 }
}

/// What the screen shows before anything was played.
pub open spec fn blank_status_spec(mode: PlayMode) -> StatusView {
    StatusView {
        state: PlayState::Stopped,
        index: None,
        path: None,
        position: beginning(),
        duration: beginning(),
        device: Seq::empty(),
        out_rate_hz: 0,
        source_rate_hz: 0,
        source_kind: Seq::empty(),
        selected_mode: mode,
        active_mode: mode_text_spec(mode),
        route_ja: Seq::empty(),
        route_en: Seq::empty(),
        note: Seq::empty(),
        message: Seq::empty(),
        underrun_frames: 0,
        filter: ResampleFilter::Standard,
        auto_version: true,
    }
}

/// What the screen shows before anything was played.
fn blank_status(mode: PlayMode) -> (s: Status)
    ensures
        s@ == blank_status_spec(mode),
{
    Status {
        state: PlayState::Stopped,
        index: None,
        path: None,
        position: Progress { frames: 0, rate_hz: 1 },
        duration: Progress { frames: 0, rate_hz: 1 },
        device: String::new(),
        out_rate_hz: 0,
        source_rate_hz: 0,
        source_kind: String::new(),
        selected_mode: mode,
        active_mode: mode_text(mode),
        route_ja: String::new(),
        route_en: String::new(),
        note: String::new(),
        message: String::new(),
        underrun_frames: 0,
        filter: ResampleFilter::Standard,
        auto_version: true,
    }
}

/// What kept a track from playing.
pub enum Trouble {
    /// The file could not be opened.
    Open { path: String, why: String },
    NoDevice,
    /// The device does not tell what it runs at.
    Config(String),
    /// The stream to the device could not be opened, or not started.
    Stream(String),
    Play(String),
    /// Exclusive mode could not be entered, or broke off.
    ExclusiveOpen(String),
    ExclusiveOutput(String),
}

impl Trouble {
    /// The message for the listener.
    pub open spec fn message_spec(self) -> Seq<char> {
        match self {
            Trouble::Open { path, why } => "再生できません("@ + path@ + "): "@ + why@,
            Trouble::NoDevice => "出力デバイスがありません / No output device"@,
            Trouble::Config(e) => "デバイスの設定を取得できません: "@ + e@,
            Trouble::Stream(e) => "ストリームを開けません: "@ + e@,
            Trouble::Play(e) => "再生を開始できません: "@ + e@,
            Trouble::ExclusiveOpen(e) => "排他モードを開けません: "@ + e@,
            Trouble::ExclusiveOutput(e) => "排他モードの出力エラー: "@ + e@,
        }
    }

    /// The message for the listener.
    pub fn message(&self) -> (s: String)
        ensures
            s@ == self.message_spec(),
    {
        match self {
            Trouble::Open { path, why } => {
                let mut s = "再生できません(".to_owned();
                s.append(path.as_str());
                s.append("): ");
                s.append(why.as_str());
                s
            },
            Trouble::NoDevice => "出力デバイスがありません / No output device".to_owned(),
            Trouble::Config(e) => {
                let mut s = "デバイスの設定を取得できません: ".to_owned();
                s.append(e.as_str());
                s
            },
            Trouble::Stream(e) => {
                let mut s = "ストリームを開けません: ".to_owned();
                s.append(e.as_str());
                s
            },
            Trouble::Play(e) => {
                let mut s = "再生を開始できません: ".to_owned();
                s.append(e.as_str());
                s
            },
            Trouble::ExclusiveOpen(e) => {
                let mut s = "排他モードを開けません: ".to_owned();
                s.append(e.as_str());
                s
            },
            Trouble::ExclusiveOutput(e) => {
                let mut s = "排他モードの出力エラー: ".to_owned();
                s.append(e.as_str());
                s
            },
        }
    }
}

/// What becomes of the audio on its way to the device, in Japanese.
pub open spec fn route_ja_spec(kind: Seq<char>, src_rate: u32, out_rate: u32) -> Seq<char> {
    if kind == "DoP"@ {
        "DSDをDoPで送出("@ + khz_spec(out_rate as int) + " · 24bit) → DACがDSDとして再生"@
    } else if src_rate == out_rate {
        kind + " "@ + khz_spec(src_rate as int) + " をそのまま送出"@
    } else {
        kind + " "@ + khz_spec(src_rate as int) + " → "@ + khz_spec(out_rate as int)
            + " へ高品質変換(sinc補間)"@
    }
}

/// What becomes of the audio on its way to the device, in English.
pub open spec fn route_en_spec(kind: Seq<char>, src_rate: u32, out_rate: u32) -> Seq<char> {
    if kind == "DoP"@ {
        "DSD sent as DoP ("@ + khz_spec(out_rate as int) + " · 24-bit) → the DAC plays it as DSD"@
    } else if src_rate == out_rate {
        kind + " "@ + khz_spec(src_rate as int) + " sent as-is"@
    } else {
        kind + " "@ + khz_spec(src_rate as int) + " → converted to "@ + khz_spec(out_rate as int)
            + " (sinc resampler)"@
    }
}

/// What becomes of the audio on its way to the device, in Japanese.
pub fn route_ja(kind: &str, src_rate: u32, out_rate: u32) -> (s: String)
    ensures
        s@ == route_ja_spec(kind@, src_rate, out_rate),
{
    if str_eq(kind, "DoP") {
        let mut s = "DSDをDoPで送出(".to_owned();
        s.append(khz(out_rate).as_str());
        s.append(" · 24bit) → DACがDSDとして再生");
        return s;
    }
    let mut s = kind.to_owned();
    s.append(" ");
    s.append(khz(src_rate).as_str());
    if src_rate == out_rate {
        s.append(" をそのまま送出");
    } else {
        s.append(" → ");
        s.append(khz(out_rate).as_str());
        s.append(" へ高品質変換(sinc補間)");
    }
    s
}

/// What becomes of the audio on its way to the device, in English.
pub fn route_en(kind: &str, src_rate: u32, out_rate: u32) -> (s: String)
    ensures
        s@ == route_en_spec(kind@, src_rate, out_rate),
{
    if str_eq(kind, "DoP") {
        let mut s = "DSD sent as DoP (".to_owned();
        s.append(khz(out_rate).as_str());
        s.append(" · 24-bit) → the DAC plays it as DSD");
        return s;
    }
    let mut s = kind.to_owned();
    s.append(" ");
    s.append(khz(src_rate).as_str());
    if src_rate == out_rate {
        s.append(" sent as-is");
    } else {
        s.append(" → converted to ");
        s.append(khz(out_rate).as_str());
        s.append(" (sinc resampler)");
    }
    s
}

/// What a request to the player comes to.
#[derive(Debug, Clone, Copy, PartialEq, Eq, Structural)]
pub enum Order {
    Nothing,
    /// Start this track, from its beginning or from where the one that plays has come to.
    Start { index: usize, resume: bool },
    Stop,
    SetPaused(bool),
    Seek,
}

/// The state of the player.
#[verifier::ext_equal]
pub struct PlayerView {
    pub playlist: Seq<Seq<char>>,
    /// The track that plays or was played last.
    pub current: Option<usize>,
    pub mode: PlayMode,
    pub filter: ResampleFilter,
    pub auto_version: bool,
    /// A track plays or is paused.
    pub has_track: bool,
    pub status: StatusView,
}

/// The player: what to do on each request of the listener and when a track ends.
pub struct Player {
    playlist: Vec<String>,
    current: Option<usize>,
    mode: PlayMode,
    filter: ResampleFilter,
    auto_version: bool,
    has_track: bool,
    status: Status,
}

/// The paths of a playlist.
pub open spec fn paths(files: Seq<String>) -> Seq<Seq<char>> {
    files.map_values(|f: String| f@)
}

impl PlayerView {
    /// Nothing to play.
    pub open spec fn fresh() -> Self {
        PlayerView {
            playlist: Seq::empty(),
            current: None,
            mode: PlayMode::Shared,
            filter: ResampleFilter::Standard,
            auto_version: true,
            has_track: false,
            status: blank_status_spec(PlayMode::Shared),
        }
    }

    /// The place of the current track has a successor.
    pub open spec fn wf(self) -> bool {
        self.current matches Some(i) ==> i < usize::MAX
    }

    /// The track with this place is started.
    pub open spec fn start(self, index: usize, resume: bool) -> (Self, Order) {
        (PlayerView { current: Some(index), ..self }, Order::Start { index, resume })
    }

    /// On to the next track, or nothing after the last.
    pub open spec fn next(self) -> (Self, Order) {
        match self.current {
            Some(i) => if i + 1 < self.playlist.len() {
                self.start((i + 1) as usize, false)
            } else {
                (self, Order::Nothing)
            },
            None => (self, Order::Nothing),
        }
    }

    /// Back to the track before, or to the beginning of the first.
    pub open spec fn prev(self) -> (Self, Order) {
        match self.current {
            Some(i) => self.start(
                if i == 0 {
                    0
                } else {
                    (i - 1) as usize
                },
                false,
            ),
            None => (self, Order::Nothing),
        }
    }

    /// The track has come to its end: on to the next one, or stop after the last.
    pub open spec fn advance(self) -> (Self, Order) {
        match self.next() {
            (v, Order::Nothing) => (v, Order::Stop),
            r => r,
        }
    }

    /// The current track goes on under new settings from where it is.
    pub open spec fn restart(self) -> Order {
        match self.current {
            Some(index) => if self.has_track {
                Order::Start { index, resume: true }
            } else {
                Order::Nothing
            },
            None => Order::Nothing,
        }
    }
}

/// What a pick comes to: the place to play, and what the listener is told.
pub open spec fn resolved(
    mode: PlayMode,
    i: usize,
    c: Seq<(usize, bool, u32)>,
    picked: Option<usize>,
) -> (usize, Seq<char>) {
    match picked {
        Some(j) => if j != i {
            let what = version_name(c[first_place(c, j)]);
            (
                j,
                "モードに合わせて同じ曲の「"@ + what
                    + "」版を自動で選びました。 / Auto-picked the "@ + what
                    + " version of this track to match the mode."@,
            )
        } else {
            (j, Seq::empty())
        },
        None => (
            i,
            if mode is Dop {
                "この機器がDoPで受けられるDSD版が見つからないため、選んだファイルをPCM化して再生します。 / No DSD version this DAC accepts via DoP; playing the chosen file converted to PCM."@
            } else {
                Seq::empty()
            },
        ),
    }
}

/// The first version with this place in the playlist, or the number of versions.
pub open spec fn first_place(c: Seq<(usize, bool, u32)>, j: usize) -> int {
    crate::text::first_index(c.map_values(|x: (usize, bool, u32)| x.0), j)
}

/// A version as the listener knows it, such as DSD64 or PCM 96 kHz.
pub open spec fn version_name(c: (usize, bool, u32)) -> Seq<char> {
    if c.1 {
        "DSD"@ + decimal((c.2 / 44_100) as nat)
    } else {
        "PCM "@ + khz_spec(c.2 as int)
    }
}

/// What the listener is told about a pick, and the place to play.
fn resolve(
    mode: PlayMode,
    i: usize,
    c: &[(usize, bool, u32)],
    picked: Option<usize>,
) -> (r: (usize, String))
    requires
        picked matches Some(j) ==> exists|k: int| 0 <= k < c@.len() && (#[trigger] c@[k]).0 == j,
    ensures
        (r.0, r.1@) == resolved(mode, i, c@, picked),
{
    match picked {
        Some(j) => {
            if j == i {
                return (j, String::new());
            }
            let ghost places = c@.map_values(|x: (usize, bool, u32)| x.0);
            let ghost at = choose|k: int| 0 <= k < c@.len() && (#[trigger] c@[k]).0 == j;
            let mut k: usize = 0;
            while k < c.len() && c[k].0 != j
                invariant
                    k <= c@.len(),
                    places == c@.map_values(|x: (usize, bool, u32)| x.0),
                    0 <= at < c@.len(),
                    c@[at].0 == j,
                    forall|x: int| 0 <= x < k ==> (#[trigger] c@[x]).0 != j,
                decreases c@.len() - k,
            {
                k += 1;
            }
            proof {
                assert(k <= at);
                lemma_first_index(places, j, k as int);
            }
            let mut what = String::new();
            if c[k].1 {
                what.append("DSD");
                push_decimal(&mut what, (c[k].2 / 44_100) as u64);
            } else {
                what.append("PCM ");
                what.append(khz(c[k].2).as_str());
            }
            assert(what@ =~= version_name(c@[k as int]));
            let mut s = "モードに合わせて同じ曲の「".to_owned();
            s.append(what.as_str());
            s.append("」版を自動で選びました。 / Auto-picked the ");
            s.append(what.as_str());
            s.append(" version of this track to match the mode.");
            (j, s)
        },
        None => {
            if mode == PlayMode::Dop {
                (
                    i,
                    "この機器がDoPで受けられるDSD版が見つからないため、選んだファイルをPCM化して再生します。 / No DSD version this DAC accepts via DoP; playing the chosen file converted to PCM.".to_owned(),
                )
            } else {
                (i, String::new())
            }
        },
    }
}

impl Player {
    /// The state as a mathematical value.
    pub closed spec fn view(&self) -> PlayerView {
        PlayerView {
            playlist: paths(self.playlist@),
            current: self.current,
            mode: self.mode,
            filter: self.filter,
            auto_version: self.auto_version,
            has_track: self.has_track,
            status: self.status@,
        }
    }

    /// A player with nothing to play.
    pub fn new() -> (p: Player)
        ensures
            p@.wf(),
            p@ == PlayerView::fresh(),
    {
        let p = Player {
            playlist: Vec::new(),
            current: None,
            mode: PlayMode::Shared,
            filter: ResampleFilter::Standard,
            auto_version: true,
            has_track: false,
            status: blank_status(PlayMode::Shared),
        };
        assert(p@.playlist =~= Seq::<Seq<char>>::empty());
        p
    }

    /// Replaces the playlist. What plays goes on playing.
    pub fn set_playlist(&mut self, files: Vec<String>)
        ensures
            final(self)@ == (PlayerView { playlist: paths(files@), ..old(self)@ }),
    {
        self.playlist = files;
    }

    /// Plays a track from its beginning, if the playlist has it.
    pub fn play(&mut self, index: usize) -> (o: Order)
        requires
            old(self)@.wf(),
        ensures
            final(self)@.wf(),
            (final(self)@, o) == (if index < old(self)@.playlist.len() {
                old(self)@.start(index, false)
            } else {
                (old(self)@, Order::Nothing)
            }),
    {
        let n = self.playlist.len();
        if index < n {
            self.current = Some(index);
            Order::Start { index, resume: false }
        } else {
            Order::Nothing
        }
    }

    /// Pauses what plays.
    pub fn pause(&mut self) -> (o: Order)
        ensures
            (final(self)@, o) == (if old(self)@.has_track {
                (
                    PlayerView {
                        status: StatusView { state: PlayState::Paused, ..old(self)@.status },
                        ..old(self)@
                    },
                    Order::SetPaused(true),
                )
            } else {
                (old(self)@, Order::Nothing)
            }),
    {
        if self.has_track {
            self.status.state = PlayState::Paused;
            Order::SetPaused(true)
        } else {
            Order::Nothing
        }
    }

    /// Goes on with what was paused.
    pub fn resume(&mut self) -> (o: Order)
        ensures
            (final(self)@, o) == (if old(self)@.has_track {
                (
                    PlayerView {
                        status: StatusView { state: PlayState::Playing, ..old(self)@.status },
                        ..old(self)@
                    },
                    Order::SetPaused(false),
                )
            } else {
                (old(self)@, Order::Nothing)
            }),
    {
        if self.has_track {
            self.status.state = PlayState::Playing;
            Order::SetPaused(false)
        } else {
            Order::Nothing
        }
    }

    /// Stops what plays.
    pub fn stop(&self) -> (o: Order)
        ensures
            o == Order::Stop,
    {
        Order::Stop
    }

    /// Goes to another position in what plays.
    pub fn seek(&self) -> (o: Order)
        ensures
            o == (if self@.has_track {
                Order::Seek
            } else {
                Order::Nothing
            }),
    {
        if self.has_track {
            Order::Seek
        } else {
            Order::Nothing
        }
    }

    /// On to the next track, or nothing after the last.
    pub fn next(&mut self) -> (o: Order)
        requires
            old(self)@.wf(),
        ensures
            final(self)@.wf(),
            (final(self)@, o) == old(self)@.next(),
    {
        let n = self.playlist.len();
        match self.current {
            Some(i) => {
                if i + 1 < n {
                    self.current = Some(i + 1);
                    Order::Start { index: i + 1, resume: false }
                } else {
                    Order::Nothing
                }
            },
            None => Order::Nothing,
        }
    }

    /// Back to the track before, or to the beginning of the first.
    pub fn prev(&mut self) -> (o: Order)
        requires
            old(self)@.wf(),
            old(self)@.prev().1 matches Order::Start { index, .. } ==> index < old(self)@.playlist.len(),
        ensures
            final(self)@.wf(),
            (final(self)@, o) == old(self)@.prev(),
    {
        match self.current {
            Some(i) => {
                let j = if i == 0 {
                    0
                } else {
                    i - 1
                };
                self.current = Some(j);
                Order::Start { index: j, resume: false }
            },
            None => Order::Nothing,
        }
    }

    /// Called when nothing was asked for: when a track has ended, the next one follows, and after the
    /// last one playback stops.
    pub fn idle(&mut self, ended: bool) -> (o: Order)
        requires
            old(self)@.wf(),
        ensures
            final(self)@.wf(),
            (final(self)@, o) == (if ended {
                old(self)@.advance()
            } else {
                (old(self)@, Order::Nothing)
            }),
    {
        if !ended {
            return Order::Nothing;
        }
        match self.next() {
            Order::Nothing => Order::Stop,
            o => o,
        }
    }

    /// What to do with the current track under new settings.
    fn restart(&self) -> (o: Order)
        ensures
            o == self@.restart(),
    {
        match self.current {
            Some(index) => {
                if self.has_track {
                    Order::Start { index, resume: true }
                } else {
                    Order::Nothing
                }
            },
            None => Order::Nothing,
        }
    }

    /// Changes the mode. What plays goes on in the new mode from where it is.
    pub fn set_mode(&mut self, mode: PlayMode) -> (o: Order)
        requires
            old(self)@.restart() matches Order::Start { index, .. } ==> index < old(self)@.playlist.len(),
        ensures
            final(self)@ == (PlayerView {
                mode,
                status: StatusView {
                    selected_mode: mode,
                    active_mode: if old(self)@.has_track {
                        old(self)@.status.active_mode
                    } else {
                        mode_text_spec(mode)
                    },
                    ..old(self)@.status
                },
                ..old(self)@
            }),
            o == old(self)@.restart(),
    {
        self.mode = mode;
        self.status.selected_mode = mode;
        if !self.has_track {
            self.status.active_mode = mode_text(mode);
        }
        self.restart()
    }

    /// Changes the filter. What plays goes on with the new one from where it is.
    pub fn set_filter(&mut self, filter: ResampleFilter) -> (o: Order)
        requires
            old(self)@.restart() matches Order::Start { index, .. } ==> index < old(self)@.playlist.len(),
        ensures
            final(self)@ == (PlayerView {
                filter,
                status: StatusView { filter, ..old(self)@.status },
                ..old(self)@
            }),
            o == old(self)@.restart(),
    {
        self.filter = filter;
        self.status.filter = filter;
        self.restart()
    }

    /// Turns on or off that the version of a track is picked by itself.
    pub fn set_auto_version(&mut self, on: bool)
        ensures
            final(self)@ == (PlayerView {
                auto_version: on,
                status: StatusView { auto_version: on, ..old(self)@.status },
                ..old(self)@
            }),
    {
        self.auto_version = on;
        self.status.auto_version = on;
    }

    pub fn mode(&self) -> (m: PlayMode)
        ensures
            m == self@.mode,
    {
        self.mode
    }

    pub fn filter(&self) -> (f: ResampleFilter)
        ensures
            f == self@.filter,
    {
        self.filter
    }

    /// The number of tracks in the playlist.
    pub fn tracks(&self) -> (n: usize)
        ensures
            n == self@.playlist.len(),
    {
        self.playlist.len()
    }

    /// The path of a track.
    pub fn path(&self, i: usize) -> (s: &str)
        requires
            i < self@.playlist.len(),
        ensures
            s@ == self@.playlist[i as int],
    {
        self.playlist[i].as_str()
    }

    /// The track that plays or was played last.
    pub fn current(&self) -> (c: Option<usize>)
        ensures
            c == self@.current,
    {
        self.current
    }

    /// The places of all versions of track `i`, in order. Without automatic choice there is nothing to
    /// look up.
    pub fn same_track(&self, i: usize) -> (v: Vec<usize>)
        requires
            i < self@.playlist.len(),
        ensures
            !self@.auto_version ==> v@.len() == 0,
            self@.auto_version ==> {
                &&& forall|a: int, b: int| 0 <= a < b < v@.len() ==> (#[trigger] v@[a]) < (#[trigger] v@[b])
                &&& forall|j: int|
                    0 <= j < self@.playlist.len() ==> (v@.contains(j as usize) <==> version_stem_spec(
                        #[trigger] self@.playlist[j],
                    ) == version_stem_spec(self@.playlist[i as int]))
                &&& forall|a: int| 0 <= a < v@.len() ==> (#[trigger] v@[a]) < self@.playlist.len()
            },
    {
        let mut v: Vec<usize> = Vec::new();
        if !self.auto_version {
            return v;
        }
        let stem = version_stem(self.playlist[i].as_str());
        for j in 0..self.playlist.len()
            invariant
                self@.playlist == paths(self.playlist@),
                i < self@.playlist.len(),
                stem@ == version_stem_spec(self@.playlist[i as int]),
                forall|a: int| 0 <= a < v@.len() ==> (#[trigger] v@[a]) < j,
                forall|a: int, b: int| 0 <= a < b < v@.len() ==> (#[trigger] v@[a]) < (#[trigger] v@[b]),
                forall|x: int|
                    0 <= x < j ==> (v@.contains(x as usize) <==> version_stem_spec(#[trigger] self@.playlist[x])
                        == stem@),
        {
            let one = version_stem(self.playlist[j].as_str());
            let ghost before = v@;
            if str_eq(one.as_str(), stem.as_str()) {
                v.push(j);
                assert(v@[before.len() as int] == j);
            }
            proof {
                assert(!before.contains(j));
                assert forall|x: int| 0 <= x < j implies (#[trigger] v@.contains(x as usize) <==> before.contains(
                    x as usize,
                )) by {
                    if before.contains(x as usize) {
                        let k = choose|k: int| 0 <= k < before.len() && before[k] == x as usize;
                        assert(v@[k] == x as usize);
                    }
                }
                assert(self@.playlist[j as int] == self.playlist@[j as int]@);
            }
        }
        v
    }

    /// Picks the version of track `i` to play, out of versions that were looked up, and what the
    /// listener is told about it. With automatic choice off, or with no other version, it is the track
    /// itself.
    pub fn resolve_version<F: Fn(u32) -> bool>(
        &self,
        i: usize,
        candidates: &[(usize, bool, u32)],
        dop_ok: &F,
    ) -> (r: (usize, String))
        requires
            forall|rate: u32| call_requires(dop_ok, (rate,)),
        ensures
            !self@.auto_version || candidates@.len() < 2 ==> r.0 == i && r.1@ == Seq::<char>::empty(),
            self@.auto_version && candidates@.len() >= 2 ==> exists|picked: Option<usize>|
                #![trigger picks(self@.mode, candidates@, *dop_ok, picked)]
                picks(self@.mode, candidates@, *dop_ok, picked) && (r.0, r.1@) == resolved(
                    self@.mode,
                    i,
                    candidates@,
                    picked,
                ),
    {
        if !self.auto_version || candidates.len() < 2 {
            return (i, String::new());
        }
        let picked = pick_version(self.mode, candidates, dop_ok);
        assert(picks(self@.mode, candidates@, *dop_ok, picked));
        resolve(self.mode, i, candidates, picked)
    }

    /// Takes note that the track was stopped and its device let go.
    pub fn track_stopped(&mut self)
        ensures
            final(self)@ == (PlayerView {
                has_track: false,
                status: StatusView { state: PlayState::Stopped, position: beginning(), ..old(self)@.status },
                ..old(self)@
            }),
    {
        self.has_track = false;
        self.status.position = Progress { frames: 0, rate_hz: 1 };
        self.status.state = PlayState::Stopped;
    }

    /// Takes note that track `i` is being opened.
    pub fn loading(&mut self, i: usize)
        requires
            i < old(self)@.playlist.len(),
        ensures
            final(self)@.wf(),
            final(self)@ == (PlayerView {
                current: Some(i),
                status: StatusView { message: "読み込み中... / Loading..."@, ..old(self)@.status },
                ..old(self)@
            }),
    {
        assert(i < self.playlist.len());
        self.current = Some(i);
        self.status.message = "読み込み中... / Loading...".to_owned();
    }

    /// Takes note of what kept a track from playing.
    pub fn failed(&mut self, why: &Trouble)
        ensures
            final(self)@ == (PlayerView {
                status: StatusView { message: why.message_spec(), ..old(self)@.status },
                ..old(self)@
            }),
    {
        self.status.message = why.message();
    }

    /// Takes note that track `i` plays.
    pub fn started(
        &mut self,
        i: usize,
        plan: &Plan,
        kind: String,
        duration: Progress,
        device: String,
        note: String,
    )
        requires
            i < old(self)@.playlist.len(),
        ensures
            final(self)@ == (PlayerView {
                has_track: true,
                status: StatusView {
                    state: PlayState::Playing,
                    index: Some(i),
                    path: Some(old(self)@.playlist[i as int]),
                    duration,
                    device: device@,
                    out_rate_hz: plan.out_rate,
                    source_rate_hz: plan.source.rate_hz,
                    source_kind: kind@,
                    selected_mode: old(self)@.mode,
                    active_mode: mode_text_spec(plan.mode),
                    route_ja: route_ja_spec(kind@, plan.source.rate_hz, plan.out_rate),
                    route_en: route_en_spec(kind@, plan.source.rate_hz, plan.out_rate),
                    note: note@,
                    message: Seq::empty(),
                    ..old(self)@.status
                },
                ..old(self)@
            }),
    {
        self.has_track = true;
        self.status.state = PlayState::Playing;
        self.status.index = Some(i);
        self.status.path = Some(self.playlist[i].clone());
        self.status.duration = duration;
        self.status.device = device;
        self.status.out_rate_hz = plan.out_rate;
        self.status.source_rate_hz = plan.source.rate_hz;
        self.status.route_ja = route_ja(kind.as_str(), plan.source.rate_hz, plan.out_rate);
        self.status.route_en = route_en(kind.as_str(), plan.source.rate_hz, plan.out_rate);
        self.status.source_kind = kind;
        self.status.selected_mode = self.mode;
        self.status.active_mode = mode_text(plan.mode);
        self.status.note = note;
        self.status.message = String::new();
    }

    /// What the screen shows now. The position and the dropouts are those of the track that plays.
    pub fn status<T>(&self, track: Option<&Track<T>>) -> (s: Status)
        ensures
            s@ == (match track {
                Some(t) => StatusView {
                    position: position_spec(t@.played() as int, t@.out_rate, t@.duration),
                    underrun_frames: t@.underrun_frames,
                    ..self@.status
                },
                None => self@.status,
            }),
    {
        let now = &self.status;
        let mut s = Status {
            state: now.state,
            index: now.index,
            path: match &now.path {
                Some(p) => Some(p.clone()),
                None => None,
            },
            position: now.position,
            duration: now.duration,
            device: now.device.clone(),
            out_rate_hz: now.out_rate_hz,
            source_rate_hz: now.source_rate_hz,
            source_kind: now.source_kind.clone(),
            selected_mode: now.selected_mode,
            active_mode: now.active_mode,
            route_ja: now.route_ja.clone(),
            route_en: now.route_en.clone(),
            note: now.note.clone(),
            message: now.message.clone(),
            underrun_frames: now.underrun_frames,
            filter: now.filter,
            auto_version: now.auto_version,
        };
        if let Some(t) = track {
            s.position = t.position();
            s.underrun_frames = t.underrun_frames();
        }
        s
    }
}

impl Default for Player {
    fn default() -> (p: Self)
        ensures
            p@.wf(),
            p@ == PlayerView::fresh(),
    {
        Player::new()
    }
}

/// The state after `k` tracks have come to their end in turn.
pub open spec fn after_tracks(v: PlayerView, k: nat) -> PlayerView
    decreases k,
{
    if k == 0 {
        v
    } else {
        after_tracks(v, (k - 1) as nat).advance().0
    }
}

/// Tracks follow each other to the end of the playlist: after `k` more tracks the one `k` places on is
/// current, and when the last one ends, playback stops.
pub proof fn the_playlist_plays_to_its_end(v: PlayerView, k: nat)
    requires
        v.current is Some,
        v.current->0 + k < v.playlist.len() <= usize::MAX,
    ensures
        after_tracks(v, k) == (PlayerView { current: Some((v.current->0 + k) as usize), ..v }),
        v.current->0 + k + 1 < v.playlist.len() ==> after_tracks(v, k).advance().1 == (Order::Start {
            index: (v.current->0 + k + 1) as usize,
            resume: false,
        }),
        v.current->0 + k + 1 == v.playlist.len() ==> after_tracks(v, k).advance().1 == Order::Stop,
    decreases k,
{
    if k > 0 {
        the_playlist_plays_to_its_end(v, (k - 1) as nat);
    }
}

/// Going on to the next track and back again comes to the same track.
pub proof fn next_and_back_is_the_same_track(v: PlayerView)
    requires
        v.wf(),
        v.next().1 is Start,
    ensures
        v.next().0.prev() == (v, Order::Start { index: v.current->0, resume: false }),
{
}

// ---- what holds of rates, versions and texts ----

/// `r` may be tried in exclusive mode for a source of this rate: it is the rate of the source, or, when upsampling, a
/// high rate that is not below it: 352.8, 176.4 or 88.2 kHz if a quarter of 44.1 kHz goes into the
/// rate of the source, and 384, 192 or 96 kHz otherwise.
pub open spec fn may_be_tried(src_rate: u32, upsample: bool, r: u32) -> bool {
    ||| r == src_rate
    ||| upsample && r >= src_rate && src_rate % 11_025 == 0 && (r == 352_800 || r == 176_400 || r == 88_200)
    ||| upsample && r >= src_rate && src_rate % 11_025 != 0 && (r == 384_000 || r == 192_000 || r == 96_000)
}

/// The rates tried in exclusive mode are exactly those that may be tried, from the highest down, so that the first
/// that a device takes is the best it can do.
pub proof fn every_rate_that_may_be_tried_is_tried(src_rate: u32, upsample: bool, r: u32)
    ensures
        exclusive_rates_spec(src_rate, upsample).contains(r) <==> may_be_tried(src_rate, upsample, r),
        exclusive_rates_spec(src_rate, upsample).len() > 0,
        may_be_tried(src_rate, upsample, r) ==> r <= exclusive_rates_spec(src_rate, upsample)[0],
{
    let f = family(src_rate);
    let up = f.filter(|x: u32| x >= src_rate);
    let v = exclusive_rates_spec(src_rate, upsample);
    lemma_not_below(src_rate);
    rates_stay_in_the_family(src_rate, upsample);
    assert(up.contains(r) <==> f.contains(r) && r >= src_rate) by {
        assert(f.contains(r) <==> r == f[0] || r == f[1] || r == f[2]);
        if f.contains(r) && r >= src_rate {
            if r == f[0] {
                assert(up[0] == r);
            } else if r == f[1] {
                assert(up[1] == r);
            } else {
                assert(up[2] == r);
            }
        }
        if up.contains(r) {
            let i = choose|i: int| 0 <= i < up.len() && up[i] == r;
            assert(f[i] == r);
        }
    }
    assert(f.contains(r) <==> r == f[0] || r == f[1] || r == f[2]);
    let head = if upsample {
        up
    } else {
        seq![]
    };
    assert(head.contains(src_rate) || v =~= head.push(src_rate));
    if v.contains(r) && !head.contains(r) {
        let i = choose|i: int| 0 <= i < v.len() && v[i] == r;
        assert(i == head.len() || head[i] == r);
    }
    if head.contains(r) {
        let i = choose|i: int| 0 <= i < head.len() && head[i] == r;
        assert(v[i] == r);
    }
    if may_be_tried(src_rate, upsample, r) {
        let i = choose|i: int| 0 <= i < v.len() && v[i] == r;
        if i > 0 {
            assert(v[0] > v[i]);
        }
    }
}

/// The list of rates is the one that the law above speaks of.
pub proof fn the_rates_to_try_are_listed_whole(src_rate: u32, upsample: bool, v: Vec<u32>, r: u32)
    requires
        call_ensures(exclusive_rates, (src_rate, upsample), v),
    ensures
        v@.contains(r) <==> may_be_tried(src_rate, upsample, r),
        forall|i: int, j: int| 0 <= i < j < v@.len() ==> #[trigger] v@[i] > #[trigger] v@[j],
{
    every_rate_that_may_be_tried_is_tried(src_rate, upsample, r);
    rates_stay_in_the_family(src_rate, upsample);
}

/// What is picked out of the versions of a track suits the mode. For DoP it is DSD that the device takes, and every
/// DSD version with a higher rate was refused; nothing is picked only if all of them were. For the other
/// modes it is the first version that is not DSD, and nothing only if there is none.
pub proof fn the_version_picked_suits_the_mode<F: Fn(u32) -> bool>(
    mode: PlayMode,
    c: &[(usize, bool, u32)],
    dop_ok: &F,
    r: Option<usize>,
    j: int,
)
    requires
        call_ensures(pick_version::<F>, (mode, c, dop_ok), r),
        forall|rate: u32| !(call_ensures(*dop_ok, (rate,), true) && #[trigger] call_ensures(*dop_ok, (rate,), false)),
        0 <= j < c@.len(),
    ensures
        mode is Dop ==> match r {
            Some(p) => exists|i: int|
                {
                    &&& 0 <= i < c@.len()
                    &&& (#[trigger] c@[i]).0 == p
                    &&& c@[i].1
                    &&& call_ensures(*dop_ok, (c@[i].2,), true)
                    &&& c@[j].1 && call_ensures(*dop_ok, (c@[j].2,), true) ==> c@[j].2 <= c@[i].2 && (c@[j].2
                        == c@[i].2 ==> i <= j)
                },
            None => c@[j].1 ==> call_ensures(*dop_ok, (c@[j].2,), false),
        },
        !(mode is Dop) ==> match r {
            Some(p) => exists|i: int|
                {
                    &&& 0 <= i < c@.len()
                    &&& (#[trigger] c@[i]).0 == p
                    &&& !c@[i].1
                    &&& !c@[j].1 ==> i <= j
                },
            None => c@[j].1,
        },
{
    assert(picks(mode, c@, *dop_ok, r));
    if let Some(p) = r {
        if mode is Dop {
            let i = choose|i: int|
                {
                    &&& 0 <= i < c@.len()
                    &&& (#[trigger] c@[i]).1
                    &&& c@[i].0 == p
                    &&& call_ensures(*dop_ok, (c@[i].2,), true)
                    &&& forall|k: int|
                        0 <= k < c@.len() && (#[trigger] c@[k]).1 && preferred(c@, k, i) ==> call_ensures(
                            *dop_ok,
                            (c@[k].2,),
                            false,
                        )
                };
            assert(c@[i].0 == p);
            if c@[j].1 && preferred(c@, j, i) {
                assert(call_ensures(*dop_ok, (c@[j].2,), false));
            }
        } else {
            let i = choose|i: int|
                0 <= i < c@.len() && !(#[trigger] c@[i]).1 && c@[i].0 == p && forall|k: int|
                    0 <= k < i ==> (#[trigger] c@[k]).1;
            assert(c@[i].0 == p);
        }
    }
}

/// A rate is shown in kilohertz, to the nearest tenth: what is shown is off by no more than 50 Hz, and whole numbers
/// are shown as such.
pub proof fn a_rate_is_shown_to_the_nearest_tenth(hz: u32, s: String)
    requires
        call_ensures(khz, (hz,), s),
    ensures
        hz % 1000 == 0 ==> s@ == decimal((hz / 1000) as nat) + " kHz"@,
        hz % 1000 != 0 ==> exists|t: int|
            {
                &&& -50 <= 100 * t - hz <= 50
                &&& t >= 0
                &&& s@ == #[trigger] decimal((t / 10) as nat) + "."@ + decimal((t % 10) as nat) + " kHz"@
            },
{
    let t = tenths_of_khz(hz as int);
    assert(-50 <= 100 * t - hz <= 50);
    if hz % 1000 != 0 {
        assert(s@ == decimal((t / 10) as nat) + "."@ + decimal((t % 10) as nat) + " kHz"@);
    }
}

/// Each mode is known by its letter and its name: A goes straight to the device, B through the mixer, E straight to
/// the device at a high rate, D is DSD over PCM. Only A and D leave every bit as it is.
pub proof fn each_mode_is_known_by_its_letter(mode: PlayMode, t: ModeText)
    requires
        call_ensures(mode_text, (mode,), t),
    ensures
        mode is Exclusive <==> t.letter@ == "A"@,
        mode is Shared <==> t.letter@ == "B"@,
        mode is ExclusiveUpsample <==> t.letter@ == "E"@,
        mode is Dop <==> t.letter@ == "D"@,
        mode is Exclusive ==> t.id@ == "exclusive"@,
        mode is Shared ==> t.id@ == "shared"@,
        mode is ExclusiveUpsample ==> t.id@ == "exclusive_upsample"@,
        mode is Dop ==> t.id@ == "dop"@,
        t.bit_perfect <==> mode is Exclusive || mode is Dop,
        mode is Exclusive ==> t.title_ja@ == "排他モード・ビットパーフェクト"@ && t.title_en@
            == "Exclusive mode · bit-perfect"@,
        mode is Shared ==> t.title_ja@ == "共有モード・高品質アップサンプル"@ && t.title_en@
            == "Shared mode · high-quality upsampling"@,
        mode is ExclusiveUpsample ==> t.title_ja@ == "排他モード・高品質アップサンプル"@ && t.title_en@
            == "Exclusive mode · high-quality upsampling"@,
        mode is Dop ==> t.title_ja@ == "DoP・DSDのままDACへ"@ && t.title_en@ == "DoP · DSD as-is to the DAC"@,
{
    every_mode_has_text_and_a_letter_of_its_own(mode, PlayMode::Exclusive);
    every_mode_has_text_and_a_letter_of_its_own(mode, PlayMode::Shared);
    every_mode_has_text_and_a_letter_of_its_own(mode, PlayMode::ExclusiveUpsample);
    every_mode_has_text_and_a_letter_of_its_own(mode, PlayMode::Dop);
}

/// The route names the source and what becomes of it: audio at the rate of the device is sent as it is, any other is
/// said to be converted from its rate to that of the device, and DSD over PCM is named with the rate of
/// the device.
pub proof fn the_route_names_both_rates(
    kind: &str,
    src_rate: u32,
    out_rate: u32,
    ja: String,
    en: String,
    from: String,
    to: String,
)
    requires
        call_ensures(route_ja, (kind, src_rate, out_rate), ja),
        call_ensures(route_en, (kind, src_rate, out_rate), en),
        call_ensures(khz, (src_rate,), from),
        call_ensures(khz, (out_rate,), to),
    ensures
        kind@ == "DoP"@ ==> ja@ == "DSDをDoPで送出("@ + to@ + " · 24bit) → DACがDSDとして再生"@ && en@
            == "DSD sent as DoP ("@ + to@ + " · 24-bit) → the DAC plays it as DSD"@,
        kind@ != "DoP"@ && src_rate == out_rate ==> ja@ == kind@ + " "@ + from@ + " をそのまま送出"@ && en@
            == kind@ + " "@ + from@ + " sent as-is"@,
        kind@ != "DoP"@ && src_rate != out_rate ==> ja@ == kind@ + " "@ + from@ + " → "@ + to@
            + " へ高品質変換(sinc補間)"@ && en@ == kind@ + " "@ + from@ + " → converted to "@ + to@
            + " (sinc resampler)"@,
{
}

/// The words of DSD over PCM carry the payloads in order, one each, and where they run out the silence of DSD.
pub proof fn payloads_are_sent_in_order(even: bool, payloads: Seq<u16>, frames: int, channels: int, k: int)
    requires
        frames >= 0,
        channels > 0,
        0 <= k < frames * channels,
    ensures
        dop_words(even, payloads, frames, channels).len() == frames * channels,
        k < payloads.len() ==> dop_words(even, payloads, frames, channels)[k] % 65536 == payloads[k],
        k >= payloads.len() ==> dop_words(even, payloads, frames, channels)[k] % 65536 == 0x6969,
        -0x80_0000 <= dop_words(even, payloads, frames, channels)[k] < 0x80_0000,
{
}

/// Every message tells what went wrong last, after what was being tried.
pub proof fn every_message_ends_in_its_cause(t: &Trouble, s: String)
    requires
        call_ensures(Trouble::message, (t,), s),
    ensures
        match *t {
            Trouble::Open { path, why } => s@ == "再生できません("@ + path@ + "): "@ + why@,
            Trouble::NoDevice => s@ == "出力デバイスがありません / No output device"@,
            Trouble::Config(e) => s@ == "デバイスの設定を取得できません: "@ + e@,
            Trouble::Stream(e) => s@ == "ストリームを開けません: "@ + e@,
            Trouble::Play(e) => s@ == "再生を開始できません: "@ + e@,
            Trouble::ExclusiveOpen(e) => s@ == "排他モードを開けません: "@ + e@,
            Trouble::ExclusiveOutput(e) => s@ == "排他モードの出力エラー: "@ + e@,
        },
{
}

// ---- what holds of every request ----

/// Going on, going back and coming to the end of a track change nothing but which track is current, and never leave
/// the playlist: going on starts the next one if there is one, going back the one before or the first
/// again, and after the last one playback stops.
pub proof fn the_listener_gets_the_track_asked_for(v: PlayerView)
    requires
        v.wf(),
        v.playlist.len() <= usize::MAX,
        v.current matches Some(i) ==> i < v.playlist.len(),
    ensures
        v.current is None ==> v.next() == (v, Order::Nothing) && v.prev() == (v, Order::Nothing) && v.advance() == (
            v,
            Order::Stop,
        ),
        v.current matches Some(i) ==> {
            &&& i + 1 == v.playlist.len() ==> v.next() == (v, Order::Nothing) && v.advance() == (v, Order::Stop)
            &&& i + 1 < v.playlist.len() ==> {
                let on = (
                    PlayerView { current: Some((i + 1) as usize), ..v },
                    Order::Start { index: (i + 1) as usize, resume: false },
                );
                v.next() == on && v.advance() == on
            }
            &&& i > 0 ==> v.prev() == (
                PlayerView { current: Some((i - 1) as usize), ..v },
                Order::Start { index: (i - 1) as usize, resume: false },
            )
            &&& i == 0 ==> v.prev() == (v, Order::Start { index: 0, resume: false })
        },
{
}

/// New settings restart what plays, at the same track and from where it is, and start nothing that does not play.
pub proof fn new_settings_resume_what_plays(v: PlayerView)
    ensures
        v.has_track && v.current is Some ==> v.restart() == (Order::Start { index: v.current->0, resume: true }),
        !v.has_track || v.current is None ==> v.restart() == Order::Nothing,
{
}

/// A new player has nothing to play, is stopped, goes through the mixer with the standard filter, and picks versions
/// by itself.
pub proof fn a_new_player_is_silent(p: Player)
    requires
        call_ensures(Player::new, (), p),
    ensures
        p@.playlist.len() == 0,
        p@.current is None,
        !p@.has_track,
        p@.mode is Shared && p@.status.selected_mode is Shared && p@.status.active_mode.letter@ == "B"@,
        p@.filter is Standard && p@.status.filter is Standard,
        p@.auto_version && p@.status.auto_version,
        p@.status.state is Stopped,
        p@.status.index is None && p@.status.path is None,
        p@.status.position.frames == 0 && p@.status.duration.frames == 0,
        p@.status.note.len() == 0 && p@.status.message.len() == 0,
{
}

/// With automatic choice off, or with nothing to choose from, the track itself is played and nothing is said. Else the
/// place that suits the mode is played; if that is another one the listener is told which version it
/// is, and if there is none for DoP, that the file is converted.
pub proof fn the_listener_is_told_of_another_version<F: Fn(u32) -> bool>(
    p: &Player,
    i: usize,
    c: &[(usize, bool, u32)],
    dop_ok: &F,
    r: (usize, String),
)
    requires
        call_ensures(Player::resolve_version::<F>, (p, i, c, dop_ok), r),
    ensures
        !p@.auto_version || c@.len() < 2 ==> r.0 == i && r.1@.len() == 0,
        r.0 != i ==> r.1@.len() > 0,
        r.0 == i && r.1@.len() > 0 ==> p@.mode is Dop,
{
    reveal_strlit("モードに合わせて同じ曲の「");
}

/// A track of the playlist is played from its beginning, and one that is not there changes nothing.
pub proof fn playing_starts_the_track_asked_for()
    ensures
        forall|p: &mut Player, i: usize, o: Order| #[trigger]
            call_ensures(Player::play, (p, i), o) ==> {
                &&& i < (*p)@.playlist.len() ==> o == (Order::Start { index: i, resume: false })
                    && (*final(p))@ == (PlayerView { current: Some(i), ..(*p)@ })
                &&& i >= (*p)@.playlist.len() ==> o == Order::Nothing && (*final(p))@ == (*p)@
            },
{
}

/// Pausing and resuming say so on the screen and to the track if there is one, and change nothing else: pausing
/// and resuming again is as if nothing had happened to what plays.
pub proof fn pausing_and_resuming_take_turns()
    ensures
        forall|p: &mut Player, o: Order| #[trigger]
            call_ensures(Player::pause, (p,), o) ==> {
                &&& (*p)@.has_track ==> o == Order::SetPaused(true) && (*final(p))@.status.state is Paused
                &&& !(*p)@.has_track ==> o == Order::Nothing && (*final(p))@ == (*p)@
                &&& (*final(p))@ == (PlayerView {
                    status: StatusView { state: (*final(p))@.status.state, ..(*p)@.status },
                    ..(*p)@
                })
            },
        forall|p: &mut Player, o: Order| #[trigger]
            call_ensures(Player::resume, (p,), o) ==> {
                &&& (*p)@.has_track ==> o == Order::SetPaused(false) && (*final(p))@.status.state is Playing
                &&& !(*p)@.has_track ==> o == Order::Nothing && (*final(p))@ == (*p)@
                &&& (*final(p))@ == (PlayerView {
                    status: StatusView { state: (*final(p))@.status.state, ..(*p)@.status },
                    ..(*p)@
                })
            },
        forall|p: &Player, o: Order| #[trigger] call_ensures(Player::stop, (p,), o) ==> o == Order::Stop,
        forall|p: &Player, o: Order| #[trigger]
            call_ensures(Player::seek, (p,), o) ==> (o == Order::Seek <==> (*p)@.has_track) && (o == Order::Nothing
                <==> !(*p)@.has_track),
{
}

/// A track that ends is followed by the next one of the playlist, and the last one by silence; as long as it does
/// not end nothing happens.
pub proof fn a_track_that_ends_is_followed_by_the_next()
    ensures
        forall|p: &mut Player, ended: bool, o: Order| #[trigger]
            call_ensures(Player::idle, (p, ended), o) ==> {
                let v = (*p)@;
                &&& !ended ==> o == Order::Nothing && (*final(p))@ == v
                &&& ended && v.current is Some && v.current->0 + 1 < v.playlist.len() <= usize::MAX ==> {
                    &&& o == (Order::Start { index: (v.current->0 + 1) as usize, resume: false })
                    &&& (*final(p))@ == (PlayerView { current: Some((v.current->0 + 1) as usize), ..v })
                }
                &&& ended && (v.current is None || v.current->0 + 1 >= v.playlist.len()) ==> o == Order::Stop
                    && (*final(p))@ == v
            },
{
}

/// New settings are kept and shown, restart what plays from where it is, and change nothing else. The mode in use
/// stays on the screen until the track has started in the new one.
pub proof fn new_settings_are_kept_and_shown()
    ensures
        forall|p: &mut Player, mode: PlayMode, o: Order| #[trigger]
            call_ensures(Player::set_mode, (p, mode), o) ==> {
                let v = (*p)@;
                let z = (*final(p))@;
                &&& z.mode == mode && z.status.selected_mode == mode
                &&& v.has_track ==> z.status.active_mode == v.status.active_mode
                &&& !v.has_track ==> z.status.active_mode == mode_text_spec(mode)
                &&& z == (PlayerView {
                    mode,
                    status: StatusView {
                        selected_mode: mode,
                        active_mode: z.status.active_mode,
                        ..v.status
                    },
                    ..v
                })
                &&& v.has_track && v.current is Some ==> o == (Order::Start { index: v.current->0, resume: true })
                &&& !v.has_track || v.current is None ==> o == Order::Nothing
            },
        forall|p: &mut Player, f: ResampleFilter, o: Order| #[trigger]
            call_ensures(Player::set_filter, (p, f), o) ==> {
                let v = (*p)@;
                &&& (*final(p))@ == (PlayerView { filter: f, status: StatusView { filter: f, ..v.status }, ..v })
                &&& v.has_track && v.current is Some ==> o == (Order::Start { index: v.current->0, resume: true })
                &&& !v.has_track || v.current is None ==> o == Order::Nothing
            },
        forall|p: &mut Player, on: bool, u: ()| #[trigger]
            call_ensures(Player::set_auto_version, (p, on), u) ==> (*final(p))@ == (PlayerView {
                auto_version: on,
                status: StatusView { auto_version: on, ..(*p)@.status },
                ..(*p)@
            }),
        forall|p: &mut Player, files: Vec<String>, u: ()| #[trigger]
            call_ensures(Player::set_playlist, (p, files), u) ==> {
                &&& (*final(p))@.playlist.len() == files@.len()
                &&& forall|i: int| 0 <= i < files@.len() ==> #[trigger] (*final(p))@.playlist[i] == files@[i]@
                &&& (*final(p))@ == (PlayerView { playlist: (*final(p))@.playlist, ..(*p)@ })
            },
{
}

/// The screen shows what goes on. A track that started is playing, under its place and path and with the rates of
/// the plan; the mode shown as in use is the one of the plan, whichever was asked for; a track that
/// was stopped is at its beginning; and what went wrong is shown as the message.
pub proof fn the_screen_shows_what_goes_on()
    ensures
        forall|p: &mut Player, i: usize, plan: &Plan, kind: String, d: Progress, device: String, note: String, u: ()|
            #[trigger]
            call_ensures(Player::started, (p, i, plan, kind, d, device, note), u) ==> {
                let s = (*final(p))@.status;
                &&& (*final(p))@.has_track
                &&& s.state is Playing
                &&& s.index == Some(i)
                &&& s.path == Some((*p)@.playlist[i as int])
                &&& s.duration == d && s.device == device@ && s.source_kind == kind@ && s.note == note@
                &&& s.out_rate_hz == plan.out_rate && s.source_rate_hz == plan.source.rate_hz
                &&& s.selected_mode == (*p)@.mode
                &&& s.active_mode == mode_text_spec(plan.mode)
                &&& s.message.len() == 0
                &&& (*final(p))@.playlist == (*p)@.playlist && (*final(p))@.current == (*p)@.current
                &&& (*final(p))@.mode == (*p)@.mode && (*final(p))@.filter == (*p)@.filter
            },
        forall|p: &mut Player, u: ()| #[trigger]
            call_ensures(Player::track_stopped, (p,), u) ==> {
                let s = (*final(p))@.status;
                &&& !(*final(p))@.has_track
                &&& s.state is Stopped
                &&& s.position.frames == 0
                &&& (*final(p))@.current == (*p)@.current && (*final(p))@.playlist == (*p)@.playlist
            },
        forall|p: &mut Player, i: usize, u: ()| #[trigger]
            call_ensures(Player::loading, (p, i), u) ==> (*final(p))@.current == Some(i)
                && (*final(p))@.status.message == "読み込み中... / Loading..."@ && (*final(p))@.has_track
                == (*p)@.has_track && (*final(p))@.playlist == (*p)@.playlist,
        forall|p: &mut Player, why: &Trouble, u: ()| #[trigger]
            call_ensures(Player::failed, (p, why), u) ==> (*final(p))@ == (PlayerView {
                status: StatusView { message: why.message_spec(), ..(*p)@.status },
                ..(*p)@
            }),
{
}

/// What is doubled until it is large enough is some power of two times what it was.
proof fn lemma_scaled(v: int, e: nat)
    requires
        v > 0,
        4503599627370496000 <= v * vstd::arithmetic::power2::pow2(e) < 9007199254740992000,
    ensures
        scaled(v) == v * vstd::arithmetic::power2::pow2(e),
    decreases e,
{
    vstd::arithmetic::power2::lemma2_to64();
    vstd::arithmetic::power2::lemma_pow2_pos(e);
    if e == 0 {
        assert(v * vstd::arithmetic::power2::pow2(e) == v) by (nonlinear_arith)
            requires
                vstd::arithmetic::power2::pow2(e) == 1,
        ;
    } else {
        let less = (e - 1) as nat;
        vstd::arithmetic::power2::lemma_pow2_unfold(e);
        vstd::arithmetic::power2::lemma_pow2_pos(less);
        assert(v * vstd::arithmetic::power2::pow2(e) == (2 * v) * vstd::arithmetic::power2::pow2(less))
            by (nonlinear_arith)
            requires
                vstd::arithmetic::power2::pow2(e) == 2 * vstd::arithmetic::power2::pow2(less),
        ;
        assert(v < 4503599627370496000) by (nonlinear_arith)
            requires
                v * vstd::arithmetic::power2::pow2(e) < 9007199254740992000,
                vstd::arithmetic::power2::pow2(e) == 2 * vstd::arithmetic::power2::pow2(less),
                vstd::arithmetic::power2::pow2(less) >= 1,
                v > 0,
        ;
        lemma_scaled(2 * v, less);
    }
}

/// A rate half-way between two tenths of a kilohertz is shown as the tenth that is nearer to the binary64 number nearest to it, `m`
/// divided by 2 to the power of `e` with 53 bits in `m`: the upper one if that number is too large, the lower one
/// if it is too small, and the even one if it is exact.
pub proof fn half_a_tenth_goes_the_way_of_the_binary_number(hz: u32, s: String, e: nat, m: int)
    requires
        call_ensures(khz, (hz,), s),
        hz % 100 == 50,
        4503599627370496000 <= hz * vstd::arithmetic::power2::pow2(e) < 9007199254740992000,
        -500 < 1000 * m - hz * vstd::arithmetic::power2::pow2(e) < 500,
    ensures
        ({
            let v = hz * vstd::arithmetic::power2::pow2(e);
            let below = hz as int / 100;
            let t = if 1000 * m > v {
                below + 1
            } else if 1000 * m < v {
                below
            } else if below % 2 == 0 {
                below
            } else {
                below + 1
            };
            s@ == decimal((t / 10) as nat) + "."@ + decimal((t % 10) as nat) + " kHz"@
        }),
{
    lemma_scaled(hz as int, e);
    assert(hz % 1000 != 0);
    let v = hz * vstd::arithmetic::power2::pow2(e);
    let rest = v % 1000;
    if 1000 * m > v {
        assert(rest == v - 1000 * (m - 1));
        assert(rest > 500);
    } else {
        assert(rest == v - 1000 * m);
    }
}

/// The player tells what it holds.
pub proof fn the_player_tells_what_it_holds(
    p: &Player,
    mode: PlayMode,
    filter: ResampleFilter,
    n: usize,
    c: Option<usize>,
    i: usize,
    path: &str,
)
    requires
        call_ensures(Player::mode, (p,), mode),
        call_ensures(Player::filter, (p,), filter),
        call_ensures(Player::tracks, (p,), n),
        call_ensures(Player::current, (p,), c),
        call_ensures(Player::path, (p, i), path),
    ensures
        mode == p@.mode,
        filter == p@.filter,
        n == p@.playlist.len(),
        c == p@.current,
        path@ == p@.playlist[i as int],
{
}

/// The versions of a track are all tracks of the playlist with its name in lower case, in their order, and the track itself is among
/// them. Without automatic choice none are looked up.
pub proof fn the_versions_of_a_track_share_its_name(
    p: &Player,
    i: usize,
    v: Vec<usize>,
    j: usize,
    name: Seq<char>,
    other: Seq<char>,
    extension: Seq<char>,
    other_extension: Seq<char>,
)
    requires
        call_ensures(Player::same_track, (p, i), v),
        i < p@.playlist.len(),
        j < p@.playlist.len(),
        forall|k: int| 0 <= k < name.len() ==> name[k] != '/' && name[k] != '\\' && name[k] != '.',
        forall|k: int| 0 <= k < other.len() ==> other[k] != '/' && other[k] != '\\' && other[k] != '.',
        forall|k: int| 0 <= k < extension.len() ==> extension[k] != '/' && extension[k] != '\\',
        forall|k: int| 0 <= k < other_extension.len() ==> other_extension[k] != '/' && other_extension[k] != '\\',
        p@.playlist[i as int] == name + seq!['.'] + extension,
        p@.playlist[j as int] == other + seq!['.'] + other_extension,
    ensures
        !p@.auto_version ==> v@.len() == 0,
        p@.auto_version ==> v@.contains(i),
        p@.auto_version ==> (v@.contains(j) <==> lowercase(other) == lowercase(name)),
        forall|a: int, b: int| 0 <= a < b < v@.len() ==> (#[trigger] v@[a]) < (#[trigger] v@[b]),
{
    versions_of_a_track_share_their_stem(Seq::empty(), name, extension);
    versions_of_a_track_share_their_stem(Seq::empty(), other, other_extension);
    assert(version_stem_spec(p@.playlist[i as int]) == lowercase(name));
    assert(version_stem_spec(p@.playlist[j as int]) == lowercase(other));
}

/// Where there is a choice, every mode but DoP plays the first version that is not DSD, or the track itself if all are; another version
/// than the one asked for is named to the listener, by its rate in kilohertz.
pub proof fn pcm_is_played_where_there_is_a_choice<F: Fn(u32) -> bool>(
    p: &Player,
    i: usize,
    c: &[(usize, bool, u32)],
    dop_ok: &F,
    r: (usize, String),
    k: int,
)
    requires
        call_ensures(Player::resolve_version::<F>, (p, i, c, dop_ok), r),
        p@.auto_version,
        c@.len() >= 2,
        !(p@.mode is Dop),
        0 <= k <= c@.len(),
        forall|j: int| 0 <= j < k ==> (#[trigger] c@[j]).1 && (k < c@.len() ==> c@[j].0 != c@[k].0),
        k < c@.len() ==> !c@[k].1,
    ensures
        k == c@.len() ==> r.0 == i && r.1@.len() == 0,
        k < c@.len() ==> r.0 == c@[k].0,
        k < c@.len() && c@[k].0 == i ==> r.1@.len() == 0,
        k < c@.len() && c@[k].0 != i ==> r.1@ == "モードに合わせて同じ曲の「"@ + ("PCM "@ + khz_spec(c@[k].2 as int))
            + "」版を自動で選びました。 / Auto-picked the "@ + ("PCM "@ + khz_spec(c@[k].2 as int))
            + " version of this track to match the mode."@,
{
    let picked = choose|picked: Option<usize>|
        #![trigger picks(p@.mode, c@, *dop_ok, picked)]
        picks(p@.mode, c@, *dop_ok, picked) && (r.0, r.1@) == resolved(p@.mode, i, c@, picked);
    if k < c@.len() {
        if picked is None {
            assert(c@[k].1);
        } else {
            let x = choose|x: int|
                0 <= x < c@.len() && !(#[trigger] c@[x]).1 && c@[x].0 == picked->0 && forall|j: int|
                    0 <= j < x ==> (#[trigger] c@[j]).1;
            if x > k {
                assert(c@[k].1);
            } else if x < k {
                assert(c@[x].1);
            }
            assert(x == k);
            let places = c@.map_values(|y: (usize, bool, u32)| y.0);
            assert forall|j: int| 0 <= j < k implies places[j] != c@[k].0 by {
                assert(c@[j].1);
            }
            lemma_first_index(places, c@[k].0, k);
        }
    } else if let Some(q) = picked {
        let x = choose|x: int|
            0 <= x < c@.len() && !(#[trigger] c@[x]).1 && c@[x].0 == q && forall|j: int|
                0 <= j < x ==> (#[trigger] c@[j]).1;
        assert(c@[x].1);
    }
}

/// For DoP the version with the highest rate that the device takes is played, the first of equals; another version than the one asked
/// for is named to the listener as DSD by how many times 44.1 kHz it has. Without any, the track itself is played
/// and the listener is told that it is converted.
pub proof fn dop_plays_the_best_version_that_the_device_takes<F: Fn(u32) -> bool>(
    p: &Player,
    i: usize,
    c: &[(usize, bool, u32)],
    dop_ok: &F,
    r: (usize, String),
    k: int,
)
    requires
        call_ensures(Player::resolve_version::<F>, (p, i, c, dop_ok), r),
        forall|rate: u32| !(call_ensures(*dop_ok, (rate,), true) && #[trigger] call_ensures(*dop_ok, (rate,), false)),
        p@.auto_version,
        c@.len() >= 2,
        p@.mode is Dop,
        forall|x: int, y: int| 0 <= x < y < c@.len() ==> (#[trigger] c@[x]).0 != (#[trigger] c@[y]).0,
        0 <= k <= c@.len(),
        k < c@.len() ==> c@[k].1 && call_ensures(*dop_ok, (c@[k].2,), true),
        forall|j: int|
            0 <= j < c@.len() && (#[trigger] c@[j]).1 && call_ensures(*dop_ok, (c@[j].2,), true) ==> k < c@.len() && (
            c@[j].2 < c@[k].2 || (c@[j].2 == c@[k].2 && k <= j)),
        forall|j: int|
            0 <= j < c@.len() && (#[trigger] c@[j]).1 ==> call_ensures(*dop_ok, (c@[j].2,), true) || call_ensures(
                *dop_ok,
                (c@[j].2,),
                false,
            ),
    ensures
        k < c@.len() ==> r.0 == c@[k].0,
        k < c@.len() && c@[k].0 == i ==> r.1@.len() == 0,
        k < c@.len() && c@[k].0 != i ==> r.1@ == "モードに合わせて同じ曲の「"@ + ("DSD"@ + decimal(
            (c@[k].2 / 44_100) as nat,
        )) + "」版を自動で選びました。 / Auto-picked the "@ + ("DSD"@ + decimal((c@[k].2 / 44_100) as nat))
            + " version of this track to match the mode."@,
        k == c@.len() ==> r.0 == i && r.1@
            == "この機器がDoPで受けられるDSD版が見つからないため、選んだファイルをPCM化して再生します。 / No DSD version this DAC accepts via DoP; playing the chosen file converted to PCM."@,
{
    let picked = choose|picked: Option<usize>|
        #![trigger picks(p@.mode, c@, *dop_ok, picked)]
        picks(p@.mode, c@, *dop_ok, picked) && (r.0, r.1@) == resolved(p@.mode, i, c@, picked);
    if let Some(q) = picked {
        let x = choose|x: int|
            {
                &&& 0 <= x < c@.len()
                &&& (#[trigger] c@[x]).1
                &&& c@[x].0 == q
                &&& call_ensures(*dop_ok, (c@[x].2,), true)
                &&& forall|j: int|
                    0 <= j < c@.len() && (#[trigger] c@[j]).1 && preferred(c@, j, x) ==> call_ensures(
                        *dop_ok,
                        (c@[j].2,),
                        false,
                    )
            };
        assert(c@[x].2 < c@[k].2 || (c@[x].2 == c@[k].2 && k <= x));
        if x != k {
            assert(preferred(c@, k, x));
            assert(call_ensures(*dop_ok, (c@[k].2,), false));
        }
        let places = c@.map_values(|y: (usize, bool, u32)| y.0);
        assert forall|j: int| 0 <= j < k implies places[j] != c@[k].0 by {
            assert(c@[j].0 != c@[k].0);
        }
        lemma_first_index(places, c@[k].0, k);
    } else if k < c@.len() {
        assert(call_ensures(*dop_ok, (c@[k].2,), false));
    }
}

/// A track that started is shown with its way to the device, in both languages.
pub proof fn the_screen_shows_the_route()
    ensures
        forall|p: &mut Player, i: usize, plan: &Plan, kind: String, d: Progress, device: String, note: String, u: ()|
            #[trigger]
            call_ensures(Player::started, (p, i, plan, kind, d, device, note), u) ==> {
                let s = (*final(p))@.status;
                let from = khz_spec(plan.source.rate_hz as int);
                let to = khz_spec(plan.out_rate as int);
                &&& kind@ == "DoP"@ ==> s.route_en == "DSD sent as DoP ("@ + to
                    + " · 24-bit) → the DAC plays it as DSD"@ && s.route_ja == "DSDをDoPで送出("@ + to
                    + " · 24bit) → DACがDSDとして再生"@
                &&& kind@ != "DoP"@ && plan.source.rate_hz == plan.out_rate ==> s.route_en == kind@ + " "@ + from
                    + " sent as-is"@ && s.route_ja == kind@ + " "@ + from + " をそのまま送出"@
                &&& kind@ != "DoP"@ && plan.source.rate_hz != plan.out_rate ==> s.route_en == kind@ + " "@ + from
                    + " → converted to "@ + to + " (sinc resampler)"@ && s.route_ja == kind@ + " "@ + from + " → "@ + to
                    + " へ高品質変換(sinc補間)"@
            },
{
}

/// The screen shows the position and the dropouts of the track that plays, and all else as it was noted; without a track it shows
/// what was noted last.
pub proof fn the_screen_shows_the_position_of_the_track<T>(p: &Player, t: &Track<T>, s: Status, none: Status, now: Progress)
    requires
        call_ensures(Player::status::<T>, (p, Some(t)), s),
        call_ensures(Player::status::<T>, (p, None), none),
        call_ensures(Track::<T>::position, (t,), now),
    ensures
        s@.position == now,
        s@.underrun_frames == t@.underrun_frames,
        s@ == (StatusView { position: now, underrun_frames: t@.underrun_frames, ..p@.status }),
        none@ == p@.status,
{
}

} // verus!
