//! The command line: what was asked for, and with which options.

use vstd::prelude::*;
use crate::media::{MediaInfo, MediaKind};
use crate::plan::{DeviceCaps, DsdSupport, SourceKind};
use crate::text::{parse_whole, str_eq, texts, whole_number};

verus! {

/// What a file is for the plan. Without a sample rate it cannot be planned.
pub open spec fn source_kind_spec<D>(info: MediaInfo<D>) -> Option<SourceKind> {
    match info.sample_rate_hz {
        None => None,
        Some(rate_hz) => Some(
            if info.kind is Dsd {
                SourceKind::Dsd { rate_hz }
            } else if info.is_mqa {
                SourceKind::Mqa {
                    rate_hz,
                    bits: match info.bits_per_sample {
                        Some(b) => b,
                        None => 24,
                    },
                }
            } else {
                SourceKind::Pcm {
                    rate_hz,
                    bits: match info.bits_per_sample {
                        Some(b) => b,
                        None => 16,
                    },
                }
            },
        ),
    }
}

/// What a file is for the plan.
pub fn source_kind<D>(info: &MediaInfo<D>) -> (k: Option<SourceKind>)
    ensures
        k == source_kind_spec(*info),
{
    let rate_hz = match info.sample_rate_hz {
        Some(r) => r,
        None => {
            return None;
        },
    };
    if info.kind == MediaKind::Dsd {
        return Some(SourceKind::Dsd { rate_hz });
    }
    if info.is_mqa {
        let bits = match info.bits_per_sample {
            Some(b) => b,
            None => 24,
        };
        Some(SourceKind::Mqa { rate_hz, bits })
    } else {
        let bits = match info.bits_per_sample {
            Some(b) => b,
            None => 16,
        };
        Some(SourceKind::Pcm { rate_hz, bits })
    }
}

/// The commands.
#[derive(Debug, Clone, Copy, PartialEq, Eq, Structural)]
pub enum Command {
    Probe,
    Plan,
    Decode,
    Play,
    Queue,
    Pair,
    /// Nothing of the kind: the usage is shown.
    Usage,
}

/// What a command line asks for, by its first word and the number of words.
pub open spec fn command_spec(args: Seq<Seq<char>>) -> Command {
    let n = args.len();
    if n == 0 {
        Command::Usage
    } else if args[0] == "probe"@ && n == 2 {
        Command::Probe
    } else if args[0] == "plan"@ && n >= 2 {
        Command::Plan
    } else if args[0] == "decode"@ && n == 3 {
        Command::Decode
    } else if args[0] == "play"@ && n >= 2 {
        Command::Play
    } else if args[0] == "queue"@ && n >= 2 {
        Command::Queue
    } else if args[0] == "pair"@ && n == 2 {
        Command::Pair
    } else {
        Command::Usage
    }
}

/// What a command line asks for.
pub fn command(args: &Vec<String>) -> (c: Command)
    ensures
        c == command_spec(texts(args@)),
{
    let n = args.len();
    if n == 0 {
        return Command::Usage;
    }
    assert(texts(args@)[0] == args@[0]@);
    let first = args[0].as_str();
    if str_eq(first, "probe") && n == 2 {
        Command::Probe
    } else if str_eq(first, "plan") && n >= 2 {
        Command::Plan
    } else if str_eq(first, "decode") && n == 3 {
        Command::Decode
    } else if str_eq(first, "play") && n >= 2 {
        Command::Play
    } else if str_eq(first, "queue") && n >= 2 {
        Command::Queue
    } else if str_eq(first, "pair") && n == 2 {
        Command::Pair
    } else {
        Command::Usage
    }
}

// ---- plan ----

/// The device that is assumed when nothing is said about it.
pub open spec fn assumed_device() -> DeviceCaps {
    DeviceCaps {
        max_pcm_rate_hz: 192_000,
        max_bits: 24,
        exclusive_mode: true,
        dsd: DsdSupport::PcmOnly,
        mqa_decoder: false,
    }
}

/// The device described by the options from place `i` on, or nothing if one of them is not understood. A
/// rate that is no number leaves the one before.
pub open spec fn plan_options_spec(args: Seq<Seq<char>>, i: int, caps: DeviceCaps) -> Option<DeviceCaps>
    decreases args.len() - i,
{
    if i >= args.len() {
        Some(caps)
    } else if args[i] == "--dsd"@ && i + 1 < args.len() {
        let dsd = if args[i + 1] == "native"@ {
            DsdSupport::Native
        } else if args[i + 1] == "dop"@ {
            DsdSupport::Dop
        } else {
            DsdSupport::PcmOnly
        };
        plan_options_spec(args, i + 2, DeviceCaps { dsd, ..caps })
    } else if args[i] == "--max-rate"@ && i + 1 < args.len() {
        let max_pcm_rate_hz = match whole_number(args[i + 1], u32::MAX as int) {
            Some(r) => r as u32,
            None => caps.max_pcm_rate_hz,
        };
        plan_options_spec(args, i + 2, DeviceCaps { max_pcm_rate_hz, ..caps })
    } else if args[i] == "--mqa-dac"@ {
        plan_options_spec(args, i + 1, DeviceCaps { mqa_decoder: true, ..caps })
    } else {
        None
    }
}

/// The device that the options of `plan` describe, or nothing if one of them is not understood.
pub fn plan_options(args: &Vec<String>) -> (r: Option<DeviceCaps>)
    requires
        args@.len() >= 2,
    ensures
        r == plan_options_spec(texts(args@), 2, assumed_device()),
{
    let n = args.len();
    let ghost all = texts(args@);
    let mut caps = DeviceCaps {
        max_pcm_rate_hz: 192_000,
        max_bits: 24,
        exclusive_mode: true,
        dsd: DsdSupport::PcmOnly,
        mqa_decoder: false,
    };
    let mut i: usize = 2;
    while i < n
        invariant
            n == args@.len(),
            all == texts(args@),
            i <= n,
            plan_options_spec(all, i as int, caps) == plan_options_spec(all, 2, assumed_device()),
        decreases n - i,
    {
        let arg = args[i].as_str();
        assert(all[i as int] == args@[i as int]@);
        if str_eq(arg, "--dsd") && i + 1 < n {
            let value = args[i + 1].as_str();
            assert(all[i + 1] == args@[i + 1]@);
            caps.dsd =
            if str_eq(value, "native") {
                DsdSupport::Native
            } else if str_eq(value, "dop") {
                DsdSupport::Dop
            } else {
                DsdSupport::PcmOnly
            };
            i += 2;
        } else if str_eq(arg, "--max-rate") && i + 1 < n {
            assert(all[i + 1] == args@[i + 1]@);
            if let Some(rate) = parse_whole(args[i + 1].as_str(), u32::MAX) {
                caps.max_pcm_rate_hz = rate;
            }
            i += 2;
        } else if str_eq(arg, "--mqa-dac") {
            caps.mqa_decoder = true;
            i += 1;
        } else {
            return None;
        }
    }
    Some(caps)
}

// ---- play ----

/// The options of `play`. The volume and the seconds are kept as they were written.
#[derive(Debug, Clone)]
pub struct PlayArgs {
    pub volume: Option<String>,
    pub seconds: Option<String>,
    pub bits: u16,
    pub exclusive: bool,
    pub dop: bool,
}

/// The options of `play`, as a mathematical value.
#[verifier::ext_equal]
pub struct PlayArgsView {
    pub volume: Option<Seq<char>>,
    pub seconds: Option<Seq<char>>,
    pub bits: u16,
    pub exclusive: bool,
    pub dop: bool,
}

impl PlayArgs {
    pub open spec fn view(&self) -> PlayArgsView {
        PlayArgsView {
            volume: crate::text::opt_view(self.volume),
            seconds: crate::text::opt_view(self.seconds),
            bits: self.bits,
            exclusive: self.exclusive,
            dop: self.dop,
        }
    }
}

/// The options from place `i` on, or nothing if one of them is not understood or lacks its value.
pub open spec fn play_options_spec(args: Seq<Seq<char>>, i: int, o: PlayArgsView) -> Option<PlayArgsView>
    decreases args.len() - i,
{
    if i >= args.len() {
        Some(o)
    } else if args[i] == "--exclusive"@ {
        play_options_spec(args, i + 1, PlayArgsView { exclusive: true, ..o })
    } else if args[i] == "--dop"@ {
        play_options_spec(args, i + 1, PlayArgsView { dop: true, ..o })
    } else if i + 1 >= args.len() {
        None
    } else if args[i] == "--volume"@ {
        play_options_spec(args, i + 2, PlayArgsView { volume: Some(args[i + 1]), ..o })
    } else if args[i] == "--seconds"@ {
        play_options_spec(args, i + 2, PlayArgsView { seconds: Some(args[i + 1]), ..o })
    } else if args[i] == "--bits"@ {
        let bits = match whole_number(args[i + 1], u16::MAX as int) {
            Some(b) => b as u16,
            None => 24,
        };
        play_options_spec(args, i + 2, PlayArgsView { bits, ..o })
    } else {
        None
    }
}

/// The options of `play`, or nothing if one of them is not understood or lacks its value.
pub fn play_options(args: &Vec<String>) -> (r: Option<PlayArgs>)
    requires
        args@.len() >= 2,
    ensures
        ({
            let wanted = play_options_spec(
                texts(args@),
                2,
                (PlayArgsView { volume: None, seconds: None, bits: 24, exclusive: false, dop: false }),
            );
            match r {
                Some(o) => wanted == Some(o@),
                None => wanted is None,
            }
        }),
{
    let n = args.len();
    let ghost all = texts(args@);
    let mut o = PlayArgs { volume: None, seconds: None, bits: 24, exclusive: false, dop: false };
    let ghost wanted = play_options_spec(all, 2, o@);
    let mut i: usize = 2;
    while i < n
        invariant
            n == args@.len(),
            all == texts(args@),
            i <= n,
            play_options_spec(all, i as int, o@) == wanted,
            wanted == play_options_spec(
                texts(args@),
                2,
                (PlayArgsView { volume: None, seconds: None, bits: 24, exclusive: false, dop: false }),
            ),
        decreases n - i,
    {
        let arg = args[i].as_str();
        assert(all[i as int] == args@[i as int]@);
        if str_eq(arg, "--exclusive") {
            o.exclusive = true;
            i += 1;
        } else if str_eq(arg, "--dop") {
            o.dop = true;
            i += 1;
        } else if i + 1 >= n {
            return None;
        } else {
            assert(all[i + 1] == args@[i + 1]@);
            if str_eq(arg, "--volume") {
                o.volume = Some(args[i + 1].clone());
            } else if str_eq(arg, "--seconds") {
                o.seconds = Some(args[i + 1].clone());
            } else if str_eq(arg, "--bits") {
                o.bits =
                match parse_whole(args[i + 1].as_str(), 65_535) {
                    Some(b) => b as u16,
                    None => 24,
                };
            } else {
                return None;
            }
            i += 2;
        }
    }
    Some(o)
}

// ---- queue ----

/// The options and files of `queue`. The volume is kept as it was written.
#[derive(Debug, Clone)]
pub struct QueueArgs {
    pub replay_gain: bool,
    pub volume: Option<String>,
    pub files: Vec<String>,
}

/// The options and files of `queue`, as a mathematical value.
#[verifier::ext_equal]
pub struct QueueArgsView {
    pub replay_gain: bool,
    pub volume: Option<Seq<char>>,
    pub files: Seq<Seq<char>>,
}

impl QueueArgs {
    pub open spec fn view(&self) -> QueueArgsView {
        QueueArgsView {
            replay_gain: self.replay_gain,
            volume: crate::text::opt_view(self.volume),
            files: texts(self.files@),
        }
    }
}

/// The options and files from place `i` on: what is no option is a file.
pub open spec fn queue_options_spec(args: Seq<Seq<char>>, i: int, q: QueueArgsView) -> QueueArgsView
    decreases args.len() - i,
{
    if i >= args.len() {
        q
    } else if args[i] == "--rg"@ {
        queue_options_spec(args, i + 1, QueueArgsView { replay_gain: true, ..q })
    } else if args[i] == "--volume"@ && i + 1 < args.len() {
        queue_options_spec(args, i + 2, QueueArgsView { volume: Some(args[i + 1]), ..q })
    } else {
        queue_options_spec(args, i + 1, QueueArgsView { files: q.files.push(args[i]), ..q })
    }
}

/// The options and files of `queue`.
pub fn queue_options(args: &Vec<String>) -> (q: QueueArgs)
    requires
        args@.len() >= 1,
    ensures
        q@ == queue_options_spec(
            texts(args@),
            1,
            (QueueArgsView { replay_gain: false, volume: None, files: Seq::empty() }),
        ),
{
    let n = args.len();
    let ghost all = texts(args@);
    let mut q = QueueArgs { replay_gain: false, volume: None, files: Vec::new() };
    assert(q@ =~= (QueueArgsView { replay_gain: false, volume: None, files: Seq::empty() }));
    let ghost wanted = queue_options_spec(all, 1, q@);
    let mut i: usize = 1;
    while i < n
        invariant
            n == args@.len(),
            all == texts(args@),
            i <= n,
            queue_options_spec(all, i as int, q@) == wanted,
        decreases n - i,
    {
        let arg = args[i].as_str();
        assert(all[i as int] == args@[i as int]@);
        if str_eq(arg, "--rg") {
            q.replay_gain = true;
            i += 1;
        } else if str_eq(arg, "--volume") && i + 1 < n {
            assert(all[i + 1] == args@[i + 1]@);
            q.volume = Some(args[i + 1].clone());
            i += 2;
        } else {
            let ghost before = q@.files;
            q.files.push(args[i].clone());
            assert(texts(q.files@) =~= before.push(all[i as int]));
            i += 1;
        }
    }
    q
}

// ---- what holds of the command line ----

/// Each command is known by its first word and by how many words it takes: `probe` and `pair` one more, `decode` two more,
/// `plan`, `play` and `queue` at least one more. Everything else shows the usage.
pub proof fn each_command_is_known_by_its_word(args: &Vec<String>, c: Command)
    requires
        call_ensures(command, (args,), c),
        args@.len() > 0,
    ensures
        c is Probe <==> args@[0]@ == "probe"@ && args@.len() == 2,
        c is Plan <==> args@[0]@ == "plan"@ && args@.len() >= 2,
        c is Decode <==> args@[0]@ == "decode"@ && args@.len() == 3,
        c is Play <==> args@[0]@ == "play"@ && args@.len() >= 2,
        c is Queue <==> args@[0]@ == "queue"@ && args@.len() >= 2,
        c is Pair <==> args@[0]@ == "pair"@ && args@.len() == 2,
{
    reveal_strlit("probe");
    reveal_strlit("plan");
    reveal_strlit("decode");
    reveal_strlit("play");
    reveal_strlit("queue");
    reveal_strlit("pair");
    let w = texts(args@)[0];
    assert(w == args@[0]@);
    assert("probe"@[1] == 'r' && "plan"@[3] == 'n' && "play"@[3] == 'y' && "pair"@[1] == 'a' && "queue"@[0] == 'q'
        && "plan"@[1] == 'l' && "play"@[1] == 'l');
    assert("probe"@.len() == 5 && "queue"@.len() == 5 && "decode"@.len() == 6 && "plan"@.len() == 4 && "play"@.len() == 4
        && "pair"@.len() == 4 && "probe"@[0] == 'p');
}

/// What a file is for the plan goes by its kind: DSD is DSD, MQA is MQA and everything else is PCM, at the rate of the file and with
/// its bits; where these are not known MQA has 24 and PCM 16. Without a rate there is nothing to plan.
pub proof fn a_file_is_planned_as_what_it_is<D>(info: &MediaInfo<D>, k: Option<SourceKind>)
    requires
        call_ensures(source_kind::<D>, (info,), k),
    ensures
        k is None <==> info.sample_rate_hz is None,
        k matches Some(SourceKind::Dsd { rate_hz }) ==> info.kind is Dsd && info.sample_rate_hz == Some(rate_hz),
        k matches Some(SourceKind::Mqa { rate_hz, bits }) ==> {
            &&& !(info.kind is Dsd) && info.is_mqa && info.sample_rate_hz == Some(rate_hz)
            &&& info.bits_per_sample == Some(bits) || (info.bits_per_sample is None && bits == 24)
        },
        k matches Some(SourceKind::Pcm { rate_hz, bits }) ==> {
            &&& !(info.kind is Dsd) && !info.is_mqa && info.sample_rate_hz == Some(rate_hz)
            &&& info.bits_per_sample == Some(bits) || (info.bits_per_sample is None && bits == 16)
        },
{
}

/// Without options the device takes PCM up to 192 kHz and 24 bits in exclusive mode, no DSD and no MQA.
pub proof fn without_options_an_ordinary_device_is_assumed(args: &Vec<String>, r: Option<DeviceCaps>)
    requires
        call_ensures(plan_options, (args,), r),
        args@.len() == 2,
    ensures
        r matches Some(c) && c.max_pcm_rate_hz == 192_000 && c.max_bits == 24 && c.exclusive_mode && c.dsd is PcmOnly
            && !c.mqa_decoder,
{
}

/// An option behind others sets what it names and leaves the rest as the others set it: `--dsd` how the device takes DSD,
/// `--max-rate` its highest rate if it is a number, and `--mqa-dac` that it unfolds MQA. A word that is no option makes
/// the whole invalid.
pub proof fn each_option_of_plan_sets_what_it_names(args: Seq<Seq<char>>, i: int, caps: DeviceCaps, v: Seq<char>)
    requires
        plan_options_spec(args, i, caps) is Some,
        0 <= i <= args.len(),
    ensures
        ({
            let c = plan_options_spec(args, i, caps)->0;
            &&& plan_options_spec(args + seq!["--dsd"@, v], i, caps) == Some(
                DeviceCaps {
                    dsd: if v == "native"@ {
                        DsdSupport::Native
                    } else if v == "dop"@ {
                        DsdSupport::Dop
                    } else {
                        DsdSupport::PcmOnly
                    },
                    ..c
                },
            )
            &&& plan_options_spec(args + seq!["--max-rate"@, v], i, caps) == Some(
                DeviceCaps {
                    max_pcm_rate_hz: match whole_number(v, u32::MAX as int) {
                        Some(r) => r as u32,
                        None => c.max_pcm_rate_hz,
                    },
                    ..c
                },
            )
            &&& plan_options_spec(args + seq!["--mqa-dac"@], i, caps) == Some(DeviceCaps { mqa_decoder: true, ..c })
        }),
        v != "--mqa-dac"@ ==> plan_options_spec(args + seq![v], i, caps) is None,
    decreases args.len() - i,
{
    reveal_strlit("--dsd");
    reveal_strlit("--max-rate");
    reveal_strlit("--mqa-dac");
    let a = args + seq!["--dsd"@, v];
    let b = args + seq!["--max-rate"@, v];
    let m = args + seq!["--mqa-dac"@];
    let x = args + seq![v];
    let n = args.len() as int;
    assert("--dsd"@.len() == 5 && "--max-rate"@.len() == 10 && "--mqa-dac"@.len() == 9);
    if i == n {
        assert(a[n] == "--dsd"@ && a[n + 1] == v && a.len() == n + 2);
        assert(b[n] == "--max-rate"@ && b[n + 1] == v && b.len() == n + 2);
        assert(m[n] == "--mqa-dac"@ && m.len() == n + 1);
        assert(x[n] == v && x.len() == n + 1);
        reveal_with_fuel(plan_options_spec, 2);
    } else {
        assert(a[i] == args[i] && b[i] == args[i] && m[i] == args[i] && x[i] == args[i]);
        if i + 1 < n {
            assert(a[i + 1] == args[i + 1] && b[i + 1] == args[i + 1] && m[i + 1] == args[i + 1] && x[i + 1] == args[i
                + 1]);
        }
        if args[i] == "--dsd"@ && i + 1 < n {
            let dsd = if args[i + 1] == "native"@ {
                DsdSupport::Native
            } else if args[i + 1] == "dop"@ {
                DsdSupport::Dop
            } else {
                DsdSupport::PcmOnly
            };
            each_option_of_plan_sets_what_it_names(args, i + 2, DeviceCaps { dsd, ..caps }, v);
        } else if args[i] == "--max-rate"@ && i + 1 < n {
            let max_pcm_rate_hz = match whole_number(args[i + 1], u32::MAX as int) {
                Some(r) => r as u32,
                None => caps.max_pcm_rate_hz,
            };
            each_option_of_plan_sets_what_it_names(args, i + 2, DeviceCaps { max_pcm_rate_hz, ..caps }, v);
        } else {
            each_option_of_plan_sets_what_it_names(args, i + 1, DeviceCaps { mqa_decoder: true, ..caps }, v);
        }
    }
}

/// Without options audio is played with 24 bits through the mixer, at full volume and to its end.
pub proof fn without_options_audio_is_played_through_the_mixer(args: &Vec<String>, r: Option<PlayArgs>)
    requires
        call_ensures(play_options, (args,), r),
        args@.len() == 2,
    ensures
        r matches Some(o) && o.volume is None && o.seconds is None && o.bits == 24 && !o.exclusive && !o.dop,
{
}

/// An option of `play` behind others sets what it names and leaves the rest: `--exclusive` and `--dop` the way to the device,
/// `--volume` and `--seconds` what was written behind them, and `--bits` the bits, 24 if it is no number. An option
/// that is not known, or that lacks its value, makes the whole invalid.
pub proof fn each_option_of_play_sets_what_it_names(args: Seq<Seq<char>>, i: int, o: PlayArgsView, v: Seq<char>)
    requires
        play_options_spec(args, i, o) is Some,
        0 <= i <= args.len(),
    ensures
        ({
            let c = play_options_spec(args, i, o)->0;
            &&& play_options_spec(args + seq!["--exclusive"@], i, o) == Some(PlayArgsView { exclusive: true, ..c })
            &&& play_options_spec(args + seq!["--dop"@], i, o) == Some(PlayArgsView { dop: true, ..c })
            &&& play_options_spec(args + seq!["--volume"@, v], i, o) == Some(PlayArgsView { volume: Some(v), ..c })
            &&& play_options_spec(args + seq!["--seconds"@, v], i, o) == Some(PlayArgsView { seconds: Some(v), ..c })
            &&& play_options_spec(args + seq!["--bits"@, v], i, o) == Some(
                PlayArgsView {
                    bits: match whole_number(v, u16::MAX as int) {
                        Some(b) => b as u16,
                        None => 24,
                    },
                    ..c
                },
            )
        }),
        v != "--exclusive"@ && v != "--dop"@ ==> play_options_spec(args + seq![v], i, o) is None,
    decreases args.len() - i,
{
    reveal_strlit("--exclusive");
    reveal_strlit("--dop");
    reveal_strlit("--volume");
    reveal_strlit("--seconds");
    reveal_strlit("--bits");
    let n = args.len() as int;
    let a = args + seq!["--exclusive"@];
    let b = args + seq!["--dop"@];
    let c = args + seq!["--volume"@, v];
    let d = args + seq!["--seconds"@, v];
    let e = args + seq!["--bits"@, v];
    let x = args + seq![v];
    assert("--exclusive"@.len() == 11 && "--dop"@.len() == 5 && "--volume"@.len() == 8 && "--seconds"@.len() == 9
        && "--bits"@.len() == 6);
    if i == n {
        assert(a[n] == "--exclusive"@ && a.len() == n + 1);
        assert(b[n] == "--dop"@ && b.len() == n + 1);
        assert(c[n] == "--volume"@ && c[n + 1] == v && c.len() == n + 2);
        assert(d[n] == "--seconds"@ && d[n + 1] == v && d.len() == n + 2);
        assert(e[n] == "--bits"@ && e[n + 1] == v && e.len() == n + 2);
        assert(x[n] == v && x.len() == n + 1);
        reveal_with_fuel(play_options_spec, 2);
    } else {
        assert(a[i] == args[i] && b[i] == args[i] && c[i] == args[i] && d[i] == args[i] && e[i] == args[i] && x[i]
            == args[i]);
        if i + 1 < n {
            assert(a[i + 1] == args[i + 1] && b[i + 1] == args[i + 1] && c[i + 1] == args[i + 1] && d[i + 1] == args[i
                + 1] && e[i + 1] == args[i + 1] && x[i + 1] == args[i + 1]);
        }
        if args[i] == "--exclusive"@ {
            each_option_of_play_sets_what_it_names(args, i + 1, PlayArgsView { exclusive: true, ..o }, v);
        } else if args[i] == "--dop"@ {
            each_option_of_play_sets_what_it_names(args, i + 1, PlayArgsView { dop: true, ..o }, v);
        } else if args[i] == "--volume"@ {
            each_option_of_play_sets_what_it_names(args, i + 2, PlayArgsView { volume: Some(args[i + 1]), ..o }, v);
        } else if args[i] == "--seconds"@ {
            each_option_of_play_sets_what_it_names(args, i + 2, PlayArgsView { seconds: Some(args[i + 1]), ..o }, v);
        } else {
            let bits = match whole_number(args[i + 1], u16::MAX as int) {
                Some(b) => b as u16,
                None => 24,
            };
            each_option_of_play_sets_what_it_names(args, i + 2, PlayArgsView { bits, ..o }, v);
        }
    }
}

/// A word of `queue` that is no option is a file, and the files keep their order.
pub proof fn what_is_no_option_of_queue_is_a_file(args: Seq<Seq<char>>, i: int, q: QueueArgsView)
    requires
        0 <= i <= args.len(),
        forall|k: int| i <= k < args.len() ==> #[trigger] args[k] != "--rg"@ && args[k] != "--volume"@,
    ensures
        queue_options_spec(args, i, q) == (QueueArgsView { files: q.files + args.skip(i), ..q }),
    decreases args.len() - i,
{
    if i == args.len() {
        assert(q.files + args.skip(i) =~= q.files);
    } else {
        what_is_no_option_of_queue_is_a_file(args, i + 1, QueueArgsView { files: q.files.push(args[i]), ..q });
        assert(q.files.push(args[i]) + args.skip(i + 1) =~= q.files + args.skip(i));
    }
}

/// An option of `queue` in front of other words sets what it names and is no file.
pub proof fn each_option_of_queue_sets_what_it_names(args: Seq<Seq<char>>, i: int, q: QueueArgsView)
    requires
        0 <= i < args.len(),
    ensures
        args[i] == "--rg"@ ==> queue_options_spec(args, i, q) == queue_options_spec(
            args,
            i + 1,
            QueueArgsView { replay_gain: true, ..q },
        ),
        args[i] == "--volume"@ && i + 1 < args.len() ==> queue_options_spec(args, i, q) == queue_options_spec(
            args,
            i + 2,
            QueueArgsView { volume: Some(args[i + 1]), ..q },
        ),
        i + 1 == args.len() && args[i] == "--volume"@ ==> queue_options_spec(args, i, q) == (QueueArgsView {
            files: q.files.push(args[i]),
            ..q
        }),
{
    reveal_strlit("--rg");
    reveal_strlit("--volume");
    assert("--rg"@.len() == 4 && "--volume"@.len() == 8);
    reveal_with_fuel(queue_options_spec, 2);
}

/// Without options nothing is matched in loudness and the volume is left alone.
pub proof fn without_options_a_queue_is_its_files(args: &Vec<String>, q: QueueArgs)
    requires
        call_ensures(queue_options, (args,), q),
        args@.len() >= 1,
        forall|k: int| 1 <= k < args@.len() ==> (#[trigger] args@[k])@ != "--rg"@ && args@[k]@ != "--volume"@,
    ensures
        !q.replay_gain && q.volume is None,
        q.files@.len() == args@.len() - 1,
        forall|k: int| 0 <= k < q.files@.len() ==> (#[trigger] q.files@[k])@ == args@[k + 1]@,
{
    let all = texts(args@);
    let none = QueueArgsView { replay_gain: false, volume: None, files: Seq::empty() };
    assert forall|k: int| 1 <= k < all.len() implies #[trigger] all[k] != "--rg"@ && all[k] != "--volume"@ by {
        assert(all[k] == args@[k]@);
    }
    what_is_no_option_of_queue_is_a_file(all, 1, none);
    assert(none.files + all.skip(1) =~= all.skip(1));
    assert(texts(q.files@).len() == q.files@.len());
    assert forall|k: int| 0 <= k < q.files@.len() implies (#[trigger] q.files@[k])@ == args@[k + 1]@ by {
        assert(texts(q.files@)[k] == q.files@[k]@);
        assert(all.skip(1)[k] == all[k + 1]);
    }
}

} // verus!
