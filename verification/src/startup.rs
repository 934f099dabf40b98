//! How a track is started: which form of the file to open, which rates to offer to the device, and what
//! to fall back on when the device refuses.
//!
//! [`Startup::on`] takes in what came of the last action and says what to do next, until playback
//! begins or there is nothing left to try.

use vstd::prelude::*;
use crate::output::ResampleFilter;
use crate::player::{
    every_rate_that_may_be_tried_is_tried,
    exclusive_rates,
    exclusive_rates_spec,
    family,
    khz,
    khz_spec,
    may_be_tried,
    rates_stay_in_the_family,
    PlayMode,
};

verus! {

/// What matters about an opened source.
#[derive(Debug, Clone, Copy, PartialEq, Eq, Structural)]
pub struct SourceFacts {
    pub rate_hz: u32,
    pub channels: usize,
    /// The samples are payloads of DSD over PCM.
    pub dop: bool,
}

/// How far the start has come. `k` counts the rates that the device has refused.
#[derive(Debug, Clone, Copy, PartialEq, Eq, Structural)]
pub enum Stage {
    /// The file is being opened.
    Opening,
    /// The rates for the mode are offered to the device.
    Probing { k: usize },
    /// The device refused every rate for DSD converted to the highest PCM rate: the file is being
    /// opened at a lower one.
    Reopening,
    /// The rates for the lower one are offered.
    Reprobing { k: usize },
    /// The device refused DSD over PCM: the file is being opened as PCM.
    ReopeningPcm,
    /// The rates for that are offered.
    ProbingPcm { k: usize },
    /// The default device is being asked for what it runs at.
    Device,
    /// The filter is being timed.
    Measuring,
    Done,
    Failed,
}

/// What came of an action.
pub enum Event {
    Opened(SourceFacts),
    OpenFailed,
    /// The device takes the rate it was offered.
    Accepted,
    Refused,
    /// What the default device runs at.
    Device { rate_hz: u32, channels: usize },
    NoDevice,
    /// Whether the filter is too slow to keep up, and how many times faster than real time it is, as
    /// text.
    Measured { slow: bool, factor: String },
}

/// How a track will be played.
#[derive(Debug, Clone, Copy, PartialEq, Eq, Structural)]
pub struct Plan {
    pub mode: PlayMode,
    /// The device is taken in exclusive mode.
    pub exclusive: bool,
    pub out_rate: u32,
    pub out_ch: usize,
    pub filter: ResampleFilter,
    pub source: SourceFacts,
}

/// What to do next.
#[derive(Debug, Clone, Copy, PartialEq, Eq, Structural)]
pub enum Action {
    /// Open the file: as DSD over PCM, or as PCM, from DSD at `target` if that can be had.
    Open { dop: bool, target: Option<u32> },
    /// Offer a rate to the device, with 24 bits.
    Probe { rate_hz: u32, channels: usize },
    /// Ask the default device for what it runs at.
    AskDevice,
    /// Time a conversion.
    Measure { from: u32, to: u32, channels: usize, filter: ResampleFilter },
    Begin(Plan),
    GiveUp,
}

/// The bits per sample of every offer to a device.
pub const PROBE_BITS: u16 = 24;

// ---- texts ----

/// Why DSD is converted to PCM.
pub open spec fn dop_refused_text(rate: u32) -> Seq<char> {
    "この機器はDoP("@ + khz_spec(rate as int)
        + ")を受け付けません。DSDをPCMへ変換して再生します。 / This device does not accept DoP ("@ + khz_spec(
        rate as int,
    ) + "). Playing DSD converted to PCM."@
}

/// Why exclusive mode is not used.
pub open spec fn exclusive_refused_text(rate: u32) -> Seq<char> {
    "排他モードで"@ + khz_spec(rate as int)
        + "を受け付けません。共有モードで再生します。 / The device does not accept "@ + khz_spec(rate as int)
        + " in exclusive mode. Playing in shared mode."@
}

/// Why exclusive mode is not used where there is none.
pub open spec fn windows_only_text() -> Seq<char> {
    "排他モードはWindowsのみです。共有モードで再生します。 / Exclusive mode is Windows-only. Playing in shared mode."@
}

/// Why the standard filter is used.
pub open spec fn slow_filter_text(factor: Seq<char>) -> Seq<char> {
    " このPCでは選んだフィルターが実時間に間に合わない(実時間の"@ + factor
        + "倍)ため、標準フィルターで再生します。 / The chosen filter is too heavy for this PC ("@ + factor
        + "x real time); using Standard."@
}

/// Why DSD is converted to PCM.
fn dop_refused(rate: u32) -> (s: String)
    ensures
        s@ == dop_refused_text(rate),
{
    let k = khz(rate);
    let mut s = "この機器はDoP(".to_owned();
    s.append(k.as_str());
    s.append(")を受け付けません。DSDをPCMへ変換して再生します。 / This device does not accept DoP (");
    s.append(k.as_str());
    s.append("). Playing DSD converted to PCM.");
    s
}

/// Why exclusive mode is not used.
fn exclusive_refused(rate: u32) -> (s: String)
    ensures
        s@ == exclusive_refused_text(rate),
{
    let k = khz(rate);
    let mut s = "排他モードで".to_owned();
    s.append(k.as_str());
    s.append("を受け付けません。共有モードで再生します。 / The device does not accept ");
    s.append(k.as_str());
    s.append(" in exclusive mode. Playing in shared mode.");
    s
}

/// Why the standard filter is used.
fn slow_filter(factor: &str) -> (s: String)
    ensures
        s@ == slow_filter_text(factor@),
{
    let mut s = " このPCでは選んだフィルターが実時間に間に合わない(実時間の".to_owned();
    s.append(factor);
    s.append("倍)ため、標準フィルターで再生します。 / The chosen filter is too heavy for this PC (");
    s.append(factor);
    s.append("x real time); using Standard.");
    s
}

// ---- the steps ----

/// The state of a start.
#[verifier::ext_equal]
pub struct StartupView {
    /// The mode that was asked for.
    pub selected: PlayMode,
    /// The mode in which the track will be played as things stand.
    pub mode: PlayMode,
    pub is_dsd: bool,
    /// The system has an exclusive mode.
    pub has_exclusive: bool,
    pub filter: ResampleFilter,
    pub stage: Stage,
    pub src: SourceFacts,
    /// The source as it was opened first.
    pub first: SourceFacts,
    /// What the listener is told about all this.
    pub note: Seq<char>,
    pub exclusive: bool,
    pub out_rate: u32,
    pub out_ch: usize,
}

/// The event answers the action of the stage.
pub open spec fn answers(stage: Stage, e: Event) -> bool {
    match stage {
        Stage::Opening | Stage::Reopening | Stage::ReopeningPcm => e is Opened || e is OpenFailed,
        Stage::Probing { .. } | Stage::Reprobing { .. } | Stage::ProbingPcm { .. } => e is Accepted || e is Refused,
        Stage::Device => e is Device || e is NoDevice,
        Stage::Measuring => e is Measured,
        Stage::Done | Stage::Failed => false,
    }
}

impl StartupView {
    /// DSD was opened at the highest PCM rate.
    pub open spec fn aims_high(self) -> bool {
        self.selected is ExclusiveUpsample && self.is_dsd
    }

    /// The rates on offer.
    pub open spec fn rates(self) -> Seq<u32> {
        match self.stage {
            Stage::Probing { .. } => if self.first.dop {
                seq![self.src.rate_hz]
            } else {
                exclusive_rates_spec(self.src.rate_hz, self.mode is ExclusiveUpsample)
            },
            Stage::Reprobing { .. } => exclusive_rates_spec(self.src.rate_hz, self.mode is ExclusiveUpsample),
            Stage::ProbingPcm { .. } => exclusive_rates_spec(self.src.rate_hz, false),
            _ => seq![],
        }
    }

    /// The place of the rate on offer.
    pub open spec fn tried(self) -> int {
        match self.stage {
            Stage::Probing { k } => k as int,
            Stage::Reprobing { k } => k as int,
            Stage::ProbingPcm { k } => k as int,
            _ => 0,
        }
    }

    pub open spec fn plan(self) -> Plan {
        Plan {
            mode: self.mode,
            exclusive: self.exclusive,
            out_rate: self.out_rate,
            out_ch: self.out_ch,
            filter: self.filter,
            source: self.src,
        }
    }

    /// Offers the rate that the stage has come to.
    pub open spec fn offer(self) -> (Self, Action) {
        (self, Action::Probe { rate_hz: self.rates()[self.tried()], channels: self.first.channels })
    }

    /// Opens the file as PCM.
    pub open spec fn reopen(self, stage: Stage) -> (Self, Action) {
        (StartupView { stage, ..self }, Action::Open { dop: false, target: None })
    }

    /// The file is being opened as DSD over PCM.
    pub open spec fn wants_dop(self) -> bool {
        self.stage is Opening && self.mode is Dop && self.is_dsd && self.has_exclusive
    }

    /// There is nothing left to try.
    pub open spec fn give_up(self) -> (Self, Action) {
        (StartupView { stage: Stage::Failed, ..self }, Action::GiveUp)
    }

    /// Turns to the default device in shared mode.
    pub open spec fn share(self) -> (Self, Action) {
        (StartupView { stage: Stage::Device, mode: PlayMode::Shared, ..self }, Action::AskDevice)
    }

    /// Exclusive mode is out of reach.
    pub open spec fn give_up_exclusive(self) -> (Self, Action) {
        StartupView { note: self.note + exclusive_refused_text(self.src.rate_hz), ..self }.share()
    }

    /// No rate for the mode was accepted.
    pub open spec fn give_up_mode(self) -> (Self, Action) {
        if self.first.dop {
            StartupView { note: dop_refused_text(self.src.rate_hz), ..self }.reopen(Stage::ReopeningPcm)
        } else {
            self.give_up_exclusive()
        }
    }

    /// Settles on a rate. A filter that will be used is timed first.
    pub open spec fn settle(self, exclusive: bool, rate: u32, channels: usize) -> (Self, Action) {
        let s = StartupView {
            stage: if self.src.rate_hz != rate {
                Stage::Measuring
            } else {
                Stage::Done
            },
            exclusive,
            out_rate: rate,
            out_ch: channels,
            ..self
        };
        (
            s,
            if self.src.rate_hz != rate {
                Action::Measure {
                    from: self.src.rate_hz,
                    to: rate,
                    channels: self.src.channels,
                    filter: self.filter,
                }
            } else {
                Action::Begin(s.plan())
            },
        )
    }

    /// The file was opened for the first time. In the mode for DoP a file that is not DSD is played in
    /// exclusive mode.
    pub open spec fn opened(self, f: SourceFacts) -> (Self, Action) {
        let s = StartupView {
            src: f,
            first: f,
            mode: if self.mode is Dop && !f.dop && self.has_exclusive {
                PlayMode::Exclusive
            } else {
                self.mode
            },
            ..self
        };
        if s.mode is Shared {
            s.share()
        } else if !s.has_exclusive {
            StartupView { note: windows_only_text(), ..s }.share()
        } else {
            StartupView { stage: Stage::Probing { k: 0 }, ..s }.offer()
        }
    }

    /// The device refused the rate on offer: the next one, if there is one.
    pub open spec fn refused(self) -> (Self, Action) {
        if self.tried() + 1 < self.rates().len() {
            let k = (self.tried() + 1) as usize;
            match self.stage {
                Stage::Probing { .. } => StartupView { stage: Stage::Probing { k }, ..self }.offer(),
                Stage::Reprobing { .. } => StartupView { stage: Stage::Reprobing { k }, ..self }.offer(),
                _ => StartupView { stage: Stage::ProbingPcm { k }, ..self }.offer(),
            }
        } else {
            match self.stage {
                Stage::Probing { .. } => if self.aims_high() && !self.first.dop {
                    self.reopen(Stage::Reopening)
                } else {
                    self.give_up_mode()
                },
                Stage::Reprobing { .. } => self.give_up_mode(),
                _ => self.give_up_exclusive(),
            }
        }
    }

    /// The next state and what to do in it. Payloads of DSD over PCM that were not asked for are not played.
    pub open spec fn step(self, e: Event) -> (Self, Action) {
        match (self.stage, e) {
            (_, Event::Opened(f)) if f.dop && !self.wants_dop() => self.give_up(),
            (Stage::Opening, Event::Opened(f)) => self.opened(f),
            (Stage::Reopening, Event::Opened(f)) => StartupView {
                src: f,
                stage: Stage::Reprobing { k: 0 },
                ..self
            }.offer(),
            (Stage::Reopening, Event::OpenFailed) => self.give_up_mode(),
            (Stage::ReopeningPcm, Event::Opened(f)) => StartupView {
                src: f,
                mode: PlayMode::Exclusive,
                stage: Stage::ProbingPcm { k: 0 },
                ..self
            }.offer(),
            (_, Event::Accepted) => self.settle(true, self.rates()[self.tried()], self.src.channels),
            (_, Event::Refused) => self.refused(),
            (_, Event::Device { rate_hz, channels }) => self.settle(false, rate_hz, channels),
            (_, Event::Measured { slow, factor }) => {
                let s = if slow && self.filter != ResampleFilter::Standard {
                    StartupView {
                        note: self.note + slow_filter_text(factor@),
                        filter: ResampleFilter::Standard,
                        stage: Stage::Done,
                        ..self
                    }
                } else {
                    StartupView { stage: Stage::Done, ..self }
                };
                (s, Action::Begin(s.plan()))
            },
            _ => self.give_up(),
        }
    }
}

/// The start of a track.
pub struct Startup {
    selected: PlayMode,
    mode: PlayMode,
    is_dsd: bool,
    has_exclusive: bool,
    filter: ResampleFilter,
    stage: Stage,
    src: SourceFacts,
    first: SourceFacts,
    note: String,
    exclusive: bool,
    out_rate: u32,
    out_ch: usize,
}

impl Startup {
    /// The state as a mathematical value.
    pub closed spec fn view(&self) -> StartupView {
        StartupView {
            selected: self.selected,
            mode: self.mode,
            is_dsd: self.is_dsd,
            has_exclusive: self.has_exclusive,
            filter: self.filter,
            stage: self.stage,
            src: self.src,
            first: self.first,
            note: self.note@,
            exclusive: self.exclusive,
            out_rate: self.out_rate,
            out_ch: self.out_ch,
        }
    }

    /// Begins to start a track and says how to open the file: for DoP, DSD as it is, if there is an
    /// exclusive mode to send it in; to upsample DSD, straight to the highest rate.
    pub fn new(mode: PlayMode, is_dsd: bool, has_exclusive: bool, filter: ResampleFilter, note: String) -> (r: (
        Startup,
        Action,
    ))
        ensures
            r.0@.wf(),
            r.0@.selected == mode,
            r.0@.mode == mode,
            r.0@.is_dsd == is_dsd,
            r.0@.has_exclusive == has_exclusive,
            r.0@.filter == filter,
            r.0@.stage == Stage::Opening,
            r.0@.note == note@,
            r.1 == (Action::Open {
                dop: mode is Dop && is_dsd && has_exclusive,
                target: if mode is ExclusiveUpsample && is_dsd {
                    Some(352_800u32)
                } else {
                    None
                },
            }),
    {
        let nothing = SourceFacts { rate_hz: 0, channels: 0, dop: false };
        let s = Startup {
            selected: mode,
            mode,
            is_dsd,
            has_exclusive,
            filter,
            stage: Stage::Opening,
            src: nothing,
            first: nothing,
            note,
            exclusive: false,
            out_rate: 0,
            out_ch: 0,
        };
        let open = Action::Open {
            dop: mode == PlayMode::Dop && is_dsd && has_exclusive,
            target: if mode == PlayMode::ExclusiveUpsample && is_dsd {
                Some(352_800)
            } else {
                None
            },
        };
        (s, open)
    }

    /// What the listener is told.
    pub fn note(&self) -> (s: &str)
        ensures
            s@ == self@.note,
    {
        self.note.as_str()
    }

    /// The rates on offer.
    fn rates(&self) -> (v: Vec<u32>)
        ensures
            v@ == self@.rates(),
    {
        match self.stage {
            Stage::Probing { .. } => {
                if self.first.dop {
                    let mut v: Vec<u32> = Vec::new();
                    v.push(self.src.rate_hz);
                    assert(v@ =~= self@.rates());
                    v
                } else {
                    exclusive_rates(self.src.rate_hz, self.mode == PlayMode::ExclusiveUpsample)
                }
            },
            Stage::Reprobing { .. } => exclusive_rates(
                self.src.rate_hz,
                self.mode == PlayMode::ExclusiveUpsample,
            ),
            Stage::ProbingPcm { .. } => exclusive_rates(self.src.rate_hz, false),
            _ => Vec::new(),
        }
    }

    /// The place of the rate on offer.
    fn tried(&self) -> (k: usize)
        ensures
            k == self@.tried(),
    {
        match self.stage {
            Stage::Probing { k } => k,
            Stage::Reprobing { k } => k,
            Stage::ProbingPcm { k } => k,
            _ => 0,
        }
    }

    fn plan(&self) -> (p: Plan)
        ensures
            p == self@.plan(),
    {
        Plan {
            mode: self.mode,
            exclusive: self.exclusive,
            out_rate: self.out_rate,
            out_ch: self.out_ch,
            filter: self.filter,
            source: self.src,
        }
    }

    /// Offers the rate that the stage has come to.
    fn offer(&self) -> (a: Action)
        requires
            self@.tried() < self@.rates().len(),
        ensures
            (self@, a) == self@.offer(),
    {
        let rates = self.rates();
        Action::Probe { rate_hz: rates[self.tried()], channels: self.first.channels }
    }

    /// Opens the file as PCM.
    fn reopen(&mut self, stage: Stage) -> (a: Action)
        ensures
            (final(self)@, a) == old(self)@.reopen(stage),
    {
        self.stage = stage;
        Action::Open { dop: false, target: None }
    }

    /// There is nothing left to try.
    fn give_up(&mut self) -> (a: Action)
        ensures
            (final(self)@, a) == old(self)@.give_up(),
    {
        self.stage = Stage::Failed;
        Action::GiveUp
    }

    /// The file is being opened as DSD over PCM.
    fn wants_dop(&self) -> (r: bool)
        ensures
            r == self@.wants_dop(),
    {
        self.stage == Stage::Opening && self.mode == PlayMode::Dop && self.is_dsd && self.has_exclusive
    }

    /// Turns to the default device in shared mode.
    fn share(&mut self) -> (a: Action)
        ensures
            (final(self)@, a) == old(self)@.share(),
    {
        self.stage = Stage::Device;
        self.mode = PlayMode::Shared;
        Action::AskDevice
    }

    /// Exclusive mode is out of reach.
    fn give_up_exclusive(&mut self) -> (a: Action)
        ensures
            (final(self)@, a) == old(self)@.give_up_exclusive(),
    {
        let why = exclusive_refused(self.src.rate_hz);
        self.note.append(why.as_str());
        self.share()
    }

    /// No rate for the mode was accepted.
    fn give_up_mode(&mut self) -> (a: Action)
        ensures
            (final(self)@, a) == old(self)@.give_up_mode(),
    {
        if self.first.dop {
            self.note = dop_refused(self.src.rate_hz);
            self.reopen(Stage::ReopeningPcm)
        } else {
            self.give_up_exclusive()
        }
    }

    /// Settles on a rate. A filter that will be used is timed first.
    fn settle(&mut self, exclusive: bool, rate: u32, channels: usize) -> (a: Action)
        ensures
            (final(self)@, a) == old(self)@.settle(exclusive, rate, channels),
    {
        self.exclusive = exclusive;
        self.out_rate = rate;
        self.out_ch = channels;
        if self.src.rate_hz != rate {
            self.stage = Stage::Measuring;
            Action::Measure {
                from: self.src.rate_hz,
                to: rate,
                channels: self.src.channels,
                filter: self.filter,
            }
        } else {
            self.stage = Stage::Done;
            Action::Begin(self.plan())
        }
    }

    /// The file was opened for the first time. In the mode for DoP a file that is not DSD is played in
    /// exclusive mode.
    fn opened(&mut self, f: SourceFacts) -> (a: Action)
        requires
            old(self)@.stage is Opening,
        ensures
            (final(self)@, a) == old(self)@.opened(f),
    {
        self.src = f;
        self.first = f;
        if self.mode == PlayMode::Dop && !f.dop && self.has_exclusive {
            self.mode = PlayMode::Exclusive;
        }
        if self.mode == PlayMode::Shared {
            self.share()
        } else if !self.has_exclusive {
            self.note =
            "排他モードはWindowsのみです。共有モードで再生します。 / Exclusive mode is Windows-only. Playing in shared mode.".to_owned();
            self.share()
        } else {
            self.stage = Stage::Probing { k: 0 };
            proof {
                rates_stay_in_the_family(f.rate_hz, self.mode is ExclusiveUpsample);
            }
            self.offer()
        }
    }

    /// The device refused the rate on offer: the next one, if there is one.
    fn refused(&mut self) -> (a: Action)
        requires
            old(self)@.wf(),
            answers(old(self)@.stage, Event::Refused),
        ensures
            (final(self)@, a) == old(self)@.refused(),
    {
        let rates = self.rates();
        let k = self.tried();
        if k + 1 < rates.len() {
            match self.stage {
                Stage::Probing { .. } => {
                    self.stage = Stage::Probing { k: k + 1 };
                },
                Stage::Reprobing { .. } => {
                    self.stage = Stage::Reprobing { k: k + 1 };
                },
                _ => {
                    self.stage = Stage::ProbingPcm { k: k + 1 };
                },
            }
            self.offer()
        } else {
            match self.stage {
                Stage::Probing { .. } => {
                    if self.selected == PlayMode::ExclusiveUpsample && self.is_dsd && !self.first.dop {
                        self.reopen(Stage::Reopening)
                    } else {
                        self.give_up_mode()
                    }
                },
                Stage::Reprobing { .. } => self.give_up_mode(),
                _ => self.give_up_exclusive(),
            }
        }
    }

    /// Takes in what came of the last action and says what to do next.
    pub fn on(&mut self, e: Event) -> (a: Action)
        requires
            old(self)@.wf(),
            answers(old(self)@.stage, e),
        ensures
            final(self)@.wf(),
            (final(self)@, a) == old(self)@.step(e),
    {
        proof {
            startup_keeps_its_promises(self@, e);
        }
        match e {
            Event::Opened(f) => {
                if f.dop && !self.wants_dop() {
                    return self.give_up();
                }
                match self.stage {
                    Stage::Opening => self.opened(f),
                    Stage::Reopening => {
                        self.src = f;
                        self.stage = Stage::Reprobing { k: 0 };
                        self.offer()
                    },
                    _ => {
                        self.src = f;
                        self.mode = PlayMode::Exclusive;
                        self.stage = Stage::ProbingPcm { k: 0 };
                        self.offer()
                    },
                }
            },
            Event::OpenFailed => {
                match self.stage {
                    Stage::Reopening => self.give_up_mode(),
                    _ => self.give_up(),
                }
            },
            Event::Accepted => {
                let rates = self.rates();
                let rate = rates[self.tried()];
                let channels = self.src.channels;
                self.settle(true, rate, channels)
            },
            Event::Refused => self.refused(),
            Event::Device { rate_hz, channels } => self.settle(false, rate_hz, channels),
            Event::NoDevice => self.give_up(),
            Event::Measured { slow, factor } => {
                if slow && self.filter != ResampleFilter::Standard {
                    let why = slow_filter(factor.as_str());
                    self.note.append(why.as_str());
                    self.filter = ResampleFilter::Standard;
                }
                self.stage = Stage::Done;
                Action::Begin(self.plan())
            },
        }
    }
}

// ---- what holds of every start ----

impl StartupView {
    /// The mode for DoP was asked for and the file is not DSD: the text of that mode says that it is played in
    /// exclusive mode.
    pub open spec fn plays_pcm_for_dop(self) -> bool {
        self.selected is Dop && self.mode is Exclusive && !self.first.dop
    }

    /// There is a rate on offer where one is, the mode fits the stage, and a mode other than the one
    /// asked for is explained, by the note or by the text of the mode that was asked for.
    pub open spec fn wf(self) -> bool {
        &&& self.mode != self.selected ==> self.note.len() > 0 || self.plays_pcm_for_dop()
        &&& match self.stage {
            Stage::Opening => self.mode == self.selected,
            Stage::Probing { .. } => self.tried() < self.rates().len() && (self.mode == self.selected
                || self.plays_pcm_for_dop()) && !(self.mode is Shared) && self.src == self.first && self.src.dop == (
            self.mode is Dop),
            Stage::Reopening => self.mode == self.selected && self.aims_high() && !self.first.dop && !self.src.dop,
            Stage::Reprobing { .. } => self.tried() < self.rates().len() && self.mode == self.selected
                && self.aims_high() && !self.first.dop && !self.src.dop,
            Stage::ReopeningPcm => self.note.len() > 0 && !(self.selected is Shared),
            Stage::ProbingPcm { .. } => self.tried() < self.rates().len() && self.mode is Exclusive
                && self.note.len() > 0 && !self.src.dop,
            Stage::Device => self.mode is Shared && !self.src.dop,
            Stage::Measuring | Stage::Done => self.delivers(),
            Stage::Failed => true,
        }
    }

    /// What was settled on is what the mode stands for: the rate of the source in `Exclusive` and `Dop`,
    /// a rate of its family that is not lower in `ExclusiveUpsample`, and the device is shared in
    /// `Shared` alone. DSD over PCM is played in `Dop` and in no other mode, and nothing else is played there.
    pub open spec fn delivers(self) -> bool {
        &&& self.exclusive == !(self.mode is Shared)
        &&& self.mode is Exclusive || self.mode is Dop ==> self.out_rate == self.src.rate_hz
        &&& self.mode is ExclusiveUpsample ==> {
            &&& self.out_rate >= self.src.rate_hz
            &&& self.out_rate == self.src.rate_hz || family(self.src.rate_hz).contains(self.out_rate)
        }
        &&& self.exclusive ==> self.out_ch == self.src.channels
        &&& self.src.dop == (self.mode is Dop)
    }

    /// How much can still happen.
    pub open spec fn steps_left(self) -> int {
        let here = self.rates().len() - self.tried();
        match self.stage {
            Stage::Opening => 60,
            Stage::Probing { .. } => 50 + here,
            Stage::Reopening => 40,
            Stage::Reprobing { .. } => 30 + here,
            Stage::ReopeningPcm => 20,
            Stage::ProbingPcm { .. } => 10 + here,
            Stage::Device => 3,
            Stage::Measuring => 2,
            Stage::Done | Stage::Failed => 1,
        }
    }
}

/// The notes are never empty.
proof fn lemma_texts_are_not_empty(rate: u32)
    ensures
        dop_refused_text(rate).len() > 0,
        exclusive_refused_text(rate).len() > 0,
        windows_only_text().len() > 0,
{
    reveal_strlit("この機器はDoP(");
    reveal_strlit("排他モードで");
    reveal_strlit(
        "排他モードはWindowsのみです。共有モードで再生します。 / Exclusive mode is Windows-only. Playing in shared mode.",
    );
}

/// Whatever the file and the device do, the start keeps its promises: when playback begins, it begins
/// in the way that the mode stands for; if that is not the mode that was asked for, the note says
/// why, unless DoP was asked for and a file that is not DSD plays in exclusive mode; and every answer brings the start closer to its end.
pub proof fn startup_keeps_its_promises(s: StartupView, e: Event)
    requires
        s.wf(),
        answers(s.stage, e),
    ensures
        s.step(e).0.wf(),
        s.step(e).1 matches Action::Begin(plan) ==> {
            &&& plan == s.step(e).0.plan()
            &&& s.step(e).0.stage is Done
            &&& s.step(e).0.delivers()
            &&& plan.mode != s.selected ==> s.step(e).0.note.len() > 0 || s.step(e).0.plays_pcm_for_dop()
        },
        s.step(e).0.selected == s.selected,
        0 < s.step(e).0.steps_left() < s.steps_left(),
{
    lemma_texts_are_not_empty(s.src.rate_hz);
    rates_stay_in_the_family(s.src.rate_hz, s.mode is ExclusiveUpsample);
    rates_stay_in_the_family(s.src.rate_hz, false);
    lemma_few_rates(s.src.rate_hz, s.mode is ExclusiveUpsample);
    lemma_few_rates(s.src.rate_hz, false);
    match e {
        Event::Opened(f) => {
            lemma_texts_are_not_empty(f.rate_hz);
            rates_stay_in_the_family(f.rate_hz, s.mode is ExclusiveUpsample);
            rates_stay_in_the_family(f.rate_hz, false);
            lemma_few_rates(f.rate_hz, s.mode is ExclusiveUpsample);
            lemma_few_rates(f.rate_hz, false);
        },
        _ => {},
    }
}

/// There are between one and four rates to try.
proof fn lemma_few_rates(src_rate: u32, upsample: bool)
    ensures
        1 <= exclusive_rates_spec(src_rate, upsample).len() <= 4,
{
    rates_stay_in_the_family(src_rate, upsample);
    family(src_rate).lemma_filter_len(|r: u32| r >= src_rate);
}

/// The state after the device has refused `k` rates.
pub open spec fn after_refusals(s: StartupView, k: nat) -> StartupView
    decreases k,
{
    if k == 0 {
        s
    } else {
        after_refusals(s, (k - 1) as nat).step(Event::Refused).0
    }
}

/// The rates are offered in their order, and the first that the device accepts is the one used.
pub proof fn the_first_accepted_rate_is_used(s: StartupView, k: nat)
    requires
        s.wf(),
        s.stage == (Stage::Probing { k: 0 }),
        k < s.rates().len(),
        s.rates().len() <= usize::MAX,
    ensures
        after_refusals(s, k) == (StartupView { stage: Stage::Probing { k: k as usize }, ..s }),
        after_refusals(s, k).step(Event::Accepted).0.out_rate == s.rates()[k as int],
        after_refusals(s, k).step(Event::Accepted).0.exclusive,
    decreases k,
{
    if k > 0 {
        the_first_accepted_rate_is_used(s, (k - 1) as nat);
    }
}

// ---- what every answer leads to ----

/// `r` may be offered to the device: the rate of the source, or, when it is to be upsampled, a high rate of its family
/// that is not below it.
pub open spec fn is_allowed_rate(s: StartupView, r: u32) -> bool {
    may_be_tried(s.src.rate_hz, s.mode is ExclusiveUpsample, r)
}

/// The file is first opened as DSD over PCM exactly for DSD in the mode for it where there is an exclusive mode, and
/// DSD that is to be upsampled is converted straight to 352.8 kHz.
pub proof fn the_file_is_opened_for_the_mode_asked_for(
    mode: PlayMode,
    is_dsd: bool,
    has_exclusive: bool,
    filter: ResampleFilter,
    note: String,
    r: (Startup, Action),
)
    requires
        call_ensures(Startup::new, (mode, is_dsd, has_exclusive, filter, note), r),
    ensures
        r.1 matches Action::Open { dop, target } && {
            &&& dop <==> mode is Dop && is_dsd && has_exclusive
            &&& target == Some(352_800u32) <==> mode is ExclusiveUpsample && is_dsd
            &&& target is None <==> !(mode is ExclusiveUpsample && is_dsd)
        },
        r.0@.selected == mode && r.0@.mode == mode,
        r.0@.filter == filter && r.0@.note == note@ && r.0@.is_dsd == is_dsd && r.0@.has_exclusive == has_exclusive,
        r.0@.stage is Opening,
{
}

/// The device is asked first. Where the system has an exclusive mode and a mode other than `Shared` was asked for, the
/// answer to the first opening of a source is the offer of a rate that is allowed, the highest of them:
/// of the rate of the source itself unless it is to be upsampled. Nothing is said to the listener yet,
/// and the mode stays the one asked for; only what is not DSD leaves the mode for DoP for `Exclusive`.
pub proof fn the_device_is_asked_first(s: StartupView, f: SourceFacts, r: u32)
    requires
        s.wf(),
        s.stage is Opening,
        s.has_exclusive,
        !(s.selected is Shared),
        f.dop ==> s.selected is Dop && s.is_dsd,
    ensures
        s.step(Event::Opened(f)).1 matches Action::Probe { rate_hz, channels } && {
            &&& channels == f.channels
            &&& !(s.selected is ExclusiveUpsample) ==> rate_hz == f.rate_hz
            &&& may_be_tried(f.rate_hz, s.selected is ExclusiveUpsample, rate_hz)
            &&& may_be_tried(f.rate_hz, s.selected is ExclusiveUpsample, r) ==> r <= rate_hz
        },
        ({
            let z = s.step(Event::Opened(f)).0;
            &&& z.src == f && z.first == f
            &&& z.note == s.note && z.filter == s.filter
            &&& z.mode == (if s.selected is Dop && !f.dop {
                PlayMode::Exclusive
            } else {
                s.selected
            })
        }),
{
    rates_stay_in_the_family(f.rate_hz, s.selected is ExclusiveUpsample);
    every_rate_that_may_be_tried_is_tried(f.rate_hz, s.selected is ExclusiveUpsample, r);
    let top = exclusive_rates_spec(f.rate_hz, s.selected is ExclusiveUpsample)[0];
    assert(exclusive_rates_spec(f.rate_hz, s.selected is ExclusiveUpsample).contains(top));
    every_rate_that_may_be_tried_is_tried(f.rate_hz, s.selected is ExclusiveUpsample, top);
}

/// Shared mode is used at once only if it was asked for, or if there is no other; in that case the listener is told
/// so.
pub proof fn shared_mode_is_used_at_once_only_if_there_is_no_other(s: StartupView, f: SourceFacts)
    requires
        s.wf(),
        s.stage is Opening,
        !f.dop,
    ensures
        s.step(Event::Opened(f)).1 is AskDevice <==> s.selected is Shared || !s.has_exclusive,
        s.step(Event::Opened(f)).1 is AskDevice ==> s.step(Event::Opened(f)).0.mode is Shared,
        s.selected is Shared ==> s.step(Event::Opened(f)).0.note == s.note,
        !(s.selected is Shared) && !s.has_exclusive ==> s.step(Event::Opened(f)).0.note
            == "排他モードはWindowsのみです。共有モードで再生します。 / Exclusive mode is Windows-only. Playing in shared mode."@,
{
}

/// Shared mode is turned to only after the device has refused every rate that is allowed for the source: whenever the
/// default device is asked after a source was opened in exclusive mode, the offer that was just refused was the
/// last one and every allowed rate was among the offers, or DSD for upsampling could not be opened at a
/// lower rate. The source is never DSD over PCM then, and the listener is told.
pub proof fn shared_mode_comes_after_every_refusal(s: StartupView, e: Event, r: u32)
    requires
        s.wf(),
        answers(s.stage, e),
        s.step(e).1 is AskDevice,
        !(s.stage is Opening),
    ensures
        s.stage is Reopening ==> e is OpenFailed,
        !(s.stage is Reopening) ==> {
            &&& e is Refused
            &&& s.tried() + 1 == s.rates().len()
            &&& is_allowed_rate(s, r) && !(s.stage is ProbingPcm) ==> s.rates().contains(r)
            &&& s.rates().contains(s.src.rate_hz)
        },
        s.step(e).0.mode is Shared,
        !s.step(e).0.src.dop,
        s.step(e).0.src == s.src,
        s.step(e).0.note == s.note + exclusive_refused_text(s.src.rate_hz),
{
    every_rate_that_may_be_tried_is_tried(s.src.rate_hz, s.mode is ExclusiveUpsample, r);
    rates_stay_in_the_family(s.src.rate_hz, s.mode is ExclusiveUpsample);
    rates_stay_in_the_family(s.src.rate_hz, false);
}

/// A refusal leads to the next rate on offer, as long as there is one, and changes nothing else.
pub proof fn a_refusal_leads_to_the_next_rate(s: StartupView)
    requires
        s.wf(),
        answers(s.stage, Event::Refused),
        s.tried() + 1 < s.rates().len() <= usize::MAX,
    ensures
        s.step(Event::Refused).1 == (Action::Probe {
            rate_hz: s.rates()[s.tried() + 1],
            channels: s.first.channels,
        }),
        s.step(Event::Refused).0 == (StartupView { stage: s.step(Event::Refused).0.stage, ..s }),
        s.step(Event::Refused).0.rates() == s.rates(),
        s.step(Event::Refused).0.tried() == s.tried() + 1,
{
}

/// The last refusal leads to what is left: DSD over PCM is opened as PCM and the listener is told why; DSD that was
/// converted to the highest rate is opened at a lower one; everything else is shared.
pub proof fn the_last_refusal_leads_to_what_is_left(s: StartupView)
    requires
        s.wf(),
        answers(s.stage, Event::Refused),
        s.tried() + 1 == s.rates().len(),
    ensures
        s.stage is Probing && s.src.dop ==> {
            &&& s.step(Event::Refused).1 == (Action::Open { dop: false, target: None })
            &&& s.step(Event::Refused).0.stage is ReopeningPcm
            &&& s.step(Event::Refused).0.note == dop_refused_text(s.src.rate_hz)
        },
        s.stage is Probing && !s.src.dop && s.selected is ExclusiveUpsample && s.is_dsd ==> {
            &&& s.step(Event::Refused).1 == (Action::Open { dop: false, target: None })
            &&& s.step(Event::Refused).0.stage is Reopening
            &&& s.step(Event::Refused).0.note == s.note
        },
        !(s.stage is Probing) || (!s.src.dop && !(s.selected is ExclusiveUpsample && s.is_dsd)) ==> s.step(
            Event::Refused,
        ).1 is AskDevice,
{
}

/// A file opened again is offered again: at the rates of the mode if it was converted to a lower rate, and at its own
/// rate in `Exclusive` if it is the PCM of refused DSD over PCM. If it cannot be opened, the former is
/// shared as it was and the latter is given up.
pub proof fn what_is_opened_again_is_offered_again(s: StartupView, f: SourceFacts)
    requires
        s.wf(),
        s.stage is Reopening || s.stage is ReopeningPcm,
        !f.dop,
    ensures
        s.step(Event::Opened(f)).1 matches Action::Probe { rate_hz, channels } && {
            &&& channels == s.first.channels
            &&& s.stage is ReopeningPcm ==> rate_hz == f.rate_hz
            &&& s.stage is Reopening ==> may_be_tried(f.rate_hz, true, rate_hz) && rate_hz >= f.rate_hz
        },
        s.step(Event::Opened(f)).0.src == f,
        s.step(Event::Opened(f)).0.note == s.note,
        s.stage is ReopeningPcm ==> s.step(Event::Opened(f)).0.mode is Exclusive,
        s.stage is Reopening ==> s.step(Event::Opened(f)).0.mode == s.selected,
        s.stage is ReopeningPcm ==> s.step(Event::OpenFailed).1 is GiveUp,
        s.stage is Reopening ==> s.step(Event::OpenFailed).1 is AskDevice,
{
    rates_stay_in_the_family(f.rate_hz, true);
    rates_stay_in_the_family(f.rate_hz, false);
    let top = exclusive_rates_spec(f.rate_hz, true)[0];
    assert(exclusive_rates_spec(f.rate_hz, true).contains(top));
    every_rate_that_may_be_tried_is_tried(f.rate_hz, true, top);
}

/// The first rate that the device takes is the one that is played, in the mode it was offered for and with the channels
/// of the source. Only if it is another rate than that of the source a filter is timed first.
pub proof fn the_rate_that_is_taken_is_played(s: StartupView)
    requires
        s.wf(),
        answers(s.stage, Event::Accepted),
    ensures
        ({
            let (z, a) = s.step(Event::Accepted);
            let rate = s.rates()[s.tried()];
            &&& z.mode == s.mode && z.src == s.src && z.note == s.note && z.filter == s.filter
            &&& z.exclusive && z.out_rate == rate && z.out_ch == s.src.channels
            &&& rate == s.src.rate_hz ==> a == (Action::Begin(
                Plan {
                    mode: s.mode,
                    exclusive: true,
                    out_rate: rate,
                    out_ch: s.src.channels,
                    filter: s.filter,
                    source: s.src,
                },
            ))
            &&& rate != s.src.rate_hz ==> a == (Action::Measure {
                from: s.src.rate_hz,
                to: rate,
                channels: s.src.channels,
                filter: s.filter,
            })
        }),
{
}

/// In shared mode the device decides: what is played has the rate and the channels that it runs at. Without a device
/// there is nothing to play.
pub proof fn a_shared_device_decides_on_rate_and_channels(s: StartupView, rate: u32, channels: usize)
    requires
        s.wf(),
        s.stage is Device,
    ensures
        ({
            let (z, a) = s.step(Event::Device { rate_hz: rate, channels });
            &&& z.mode is Shared && z.src == s.src && z.note == s.note && z.filter == s.filter
            &&& !z.exclusive && z.out_rate == rate && z.out_ch == channels
            &&& rate == s.src.rate_hz ==> a == (Action::Begin(
                Plan {
                    mode: PlayMode::Shared,
                    exclusive: false,
                    out_rate: rate,
                    out_ch: channels,
                    filter: s.filter,
                    source: s.src,
                },
            ))
            &&& rate != s.src.rate_hz ==> a == (Action::Measure {
                from: s.src.rate_hz,
                to: rate,
                channels: s.src.channels,
                filter: s.filter,
            })
        }),
        s.step(Event::NoDevice).1 is GiveUp,
{
}

/// A filter that is too slow gives way to the standard one, and the listener is told; any other is kept. Nothing else
/// changes, and playback begins.
pub proof fn only_a_slow_filter_gives_way(s: StartupView, slow: bool, factor: String)
    requires
        s.wf(),
        s.stage is Measuring,
    ensures
        ({
            let (z, a) = s.step(Event::Measured { slow, factor });
            &&& a == Action::Begin(
                Plan {
                    mode: s.mode,
                    exclusive: s.exclusive,
                    out_rate: s.out_rate,
                    out_ch: s.out_ch,
                    filter: z.filter,
                    source: s.src,
                },
            )
            &&& slow ==> z.filter is Standard
            &&& !slow ==> z.filter == s.filter
            &&& !slow || s.filter is Standard ==> z.note == s.note
            &&& slow && !(s.filter is Standard) ==> z.note == s.note + slow_filter_text(factor@)
        }),
{
}

/// A start is given up only if a file cannot be opened at first or as the PCM of refused DSD over PCM, if there is no
/// device, or if payloads come that were not asked for.
pub proof fn a_start_is_given_up_only_for_a_reason(s: StartupView, e: Event)
    requires
        s.wf(),
        answers(s.stage, e),
    ensures
        s.step(e).1 is GiveUp <==> {
            ||| e is OpenFailed && (s.stage is Opening || s.stage is ReopeningPcm)
            ||| e is NoDevice
            ||| (e matches Event::Opened(f) && f.dop && !(s.stage is Opening && s.selected is Dop && s.is_dsd
                && s.has_exclusive))
        },
{
}

/// What the listener is told names the rate that was refused, in both languages, and what is done instead; a filter that is
/// too slow is named with how slow it is.
pub proof fn the_listener_is_told_why(rate: u32, shown: String, factor: Seq<char>)
    requires
        call_ensures(khz, (rate,), shown),
    ensures
        dop_refused_text(rate) == "この機器はDoP("@ + shown@
            + ")を受け付けません。DSDをPCMへ変換して再生します。 / This device does not accept DoP ("@ + shown@
            + "). Playing DSD converted to PCM."@,
        exclusive_refused_text(rate) == "排他モードで"@ + shown@
            + "を受け付けません。共有モードで再生します。 / The device does not accept "@ + shown@
            + " in exclusive mode. Playing in shared mode."@,
        windows_only_text()
            == "排他モードはWindowsのみです。共有モードで再生します。 / Exclusive mode is Windows-only. Playing in shared mode."@,
        slow_filter_text(factor) == " このPCでは選んだフィルターが実時間に間に合わない(実時間の"@ + factor
            + "倍)ため、標準フィルターで再生します。 / The chosen filter is too heavy for this PC ("@ + factor
            + "x real time); using Standard."@,
{
}

} // verus!
