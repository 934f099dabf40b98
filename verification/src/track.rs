//! One track while it plays: the queue between the thread that reads and converts the source and the
//! thread that feeds the device.

use std::collections::VecDeque;
use vstd::prelude::*;
use crate::frames::{channel, channel_of, interleave, interleaved, lemma_whole_frames, nested, shortest, shortest_len};
use crate::output::{map_channels_pub, map_channels_spec, ResampleFilter, CHUNK};
use crate::polyphase::{flush_len, Upsampler};
use crate::source::{clipped, Progress};

verus! {

/// The state of a track.
#[verifier::ext_equal]
pub struct TrackView<T> {
    /// The samples waiting for the device.
    pub ring: Seq<T>,
    pub paused: bool,
    pub ended: bool,
    /// Both threads are asked to stop.
    pub stop: bool,
    /// Everything up to the end of the source is in the queue.
    pub producer_done: bool,
    /// Counts the seeks. The reader starts again at `seek_src_frame` when it has grown.
    pub seek_gen: u64,
    pub seek_src_frame: u64,
    /// The frames given to the device since the last seek.
    pub consumed: u64,
    /// The frames of silence given to the device because the queue was empty.
    pub underrun_frames: u64,
    /// Enough was read ahead to start.
    pub primed: bool,
    /// The position, in frames of the device, at which `consumed` counts from zero.
    pub base: u64,
    pub out_rate: u32,
    pub out_ch: usize,
    pub duration: Progress,
    pub filter: ResampleFilter,
    /// The device is asked to fade out.
    pub fadeout: bool,
    pub faded: bool,
    /// The samples are payloads of DSD over PCM: no volume, no fades.
    pub dop: bool,
}

/// The sum modulo 2 to the 64th.
pub open spec fn wrapped_sum(a: u64, b: int) -> u64 {
    ((a + b) % 0x1_0000_0000_0000_0000) as u64
}

impl<T> TrackView<T> {
    /// There are channels, and eight seconds of audio can be counted.
    pub open spec fn wf(self) -> bool {
        &&& self.out_ch > 0
        &&& 8 * self.out_rate * self.out_ch <= usize::MAX
    }

    /// The frames of the device played since the start of the source.
    pub open spec fn played(self) -> u64 {
        wrapped_sum(self.base, self.consumed as int)
    }

    /// The whole frames in the queue.
    pub open spec fn frames(self) -> int {
        self.ring.len() as int / self.out_ch as int
    }

    /// Playback may begin: three quarters of a second are in the queue, or all there is.
    pub open spec fn ready(self) -> bool {
        self.primed || 4 * self.frames() >= 3 * self.out_rate || self.producer_done
    }

    /// The device gets sound rather than silence.
    pub open spec fn plays(self) -> bool {
        !self.paused && self.ready()
    }

    /// How many of `n` frames the queue can give.
    pub open spec fn given(self, n: int) -> int {
        if n < self.frames() {
            n
        } else {
            self.frames()
        }
    }

    /// The samples that the queue gives for `n` frames.
    pub open spec fn head(self, n: int) -> Seq<T> {
        self.ring.take(self.given(n) * self.out_ch)
    }

    /// The track is over with these `n` frames: fewer were left, nothing remains and nothing follows.
    pub open spec fn ends_with(self, n: int) -> bool {
        &&& self.given(n) < n
        &&& self.given(n) * self.out_ch == self.ring.len()
        &&& self.producer_done
    }

    /// The track after the reader has started over.
    pub open spec fn restarted(self, base: u64) -> Self {
        TrackView { ring: Seq::empty(), producer_done: false, consumed: 0, primed: false, base, ..self }
    }

    /// The track after `n` frames went to the device.
    pub open spec fn after_playing(self, n: int) -> Self {
        TrackView {
            primed: true,
            ring: self.ring.skip(self.given(n) * self.out_ch),
            consumed: wrapped_sum(self.consumed, self.given(n)),
            ended: self.ended || self.ends_with(n),
            underrun_frames: if self.given(n) < n && !self.ends_with(n) {
                wrapped_sum(self.underrun_frames, n - self.given(n))
            } else {
                self.underrun_frames
            },
            ..self
        }
    }
}

/// What the device gets for some frames.
pub struct Rendered<T> {
    /// The samples, followed by silence.
    pub samples: Vec<T>,
    /// Silence is not all there is: the track plays.
    pub played: bool,
    /// The track goes on after this.
    pub more: bool,
}

/// One track while it plays.
pub struct Track<T> {
    ring: VecDeque<T>,
    paused: bool,
    ended: bool,
    stop: bool,
    producer_done: bool,
    seek_gen: u64,
    seek_src_frame: u64,
    consumed: u64,
    underrun_frames: u64,
    primed: bool,
    base: u64,
    out_rate: u32,
    out_ch: usize,
    duration: Progress,
    filter: ResampleFilter,
    fadeout: bool,
    faded: bool,
    dop: bool,
}

/// The frame to seek to: the wanted one, but not beyond the last.
pub fn seek_frame(wanted: u64, total: u64) -> (f: u64)
    ensures
        f == (if total == 0 {
            0
        } else if wanted < total {
            wanted as int
        } else {
            total - 1
        }),
{
    let last = if total == 0 {
        0
    } else {
        total - 1
    };
    if wanted < last {
        wanted
    } else {
        last
    }
}

/// The position in time after `frames` frames at `rate`, but not after the end.
pub open spec fn position_spec(frames: int, rate: u32, end: Progress) -> Progress {
    let r = if rate == 0 {
        1u32
    } else {
        rate
    };
    let e = if end.rate_hz == 0 {
        1u32
    } else {
        end.rate_hz
    };
    if frames * e <= end.frames * r {
        Progress { frames: frames as u64, rate_hz: r }
    } else {
        Progress { frames: end.frames, rate_hz: e }
    }
}

impl<T> Track<T> {
    /// The state as a mathematical value.
    pub closed spec fn view(&self) -> TrackView<T> {
        TrackView {
            ring: self.ring@,
            paused: self.paused,
            ended: self.ended,
            stop: self.stop,
            producer_done: self.producer_done,
            seek_gen: self.seek_gen,
            seek_src_frame: self.seek_src_frame,
            consumed: self.consumed,
            underrun_frames: self.underrun_frames,
            primed: self.primed,
            base: self.base,
            out_rate: self.out_rate,
            out_ch: self.out_ch,
            duration: self.duration,
            filter: self.filter,
            fadeout: self.fadeout,
            faded: self.faded,
            dop: self.dop,
        }
    }

    /// A track before anything was read.
    pub fn new(out_rate: u32, out_ch: usize, duration: Progress, filter: ResampleFilter, dop: bool) -> (t: Self)
        requires
            out_ch > 0,
            8 * out_rate * out_ch <= usize::MAX,
        ensures
            t@.wf(),
            t@ == (TrackView {
                ring: Seq::<T>::empty(),
                paused: false,
                ended: false,
                stop: false,
                producer_done: false,
                seek_gen: 0,
                seek_src_frame: 0,
                consumed: 0,
                underrun_frames: 0,
                primed: false,
                base: 0,
                out_rate,
                out_ch,
                duration,
                filter,
                fadeout: false,
                faded: false,
                dop,
            }),
    {
        Track {
            ring: VecDeque::new(),
            paused: false,
            ended: false,
            stop: false,
            producer_done: false,
            seek_gen: 0,
            seek_src_frame: 0,
            consumed: 0,
            underrun_frames: 0,
            primed: false,
            base: 0,
            out_rate,
            out_ch,
            duration,
            filter,
            fadeout: false,
            faded: false,
            dop,
        }
    }

    /// Makes the reader begin at `frame` of the source.
    pub fn start_at(&mut self, frame: u64)
        ensures
            final(self)@ == (TrackView { seek_src_frame: frame, seek_gen: 1, ..old(self)@ }),
    {
        self.seek_src_frame = frame;
        self.seek_gen = 1;
    }

    /// Makes the reader go on at `frame` of the source.
    pub fn request_seek(&mut self, frame: u64)
        ensures
            final(self)@ == (TrackView {
                seek_src_frame: frame,
                seek_gen: wrapped_sum(old(self)@.seek_gen, 1),
                ..old(self)@
            }),
    {
        self.seek_src_frame = frame;
        self.seek_gen = self.seek_gen.wrapping_add(1);
    }

    /// Pauses or resumes.
    pub fn set_paused(&mut self, paused: bool)
        ensures
            final(self)@ == (TrackView { paused, ..old(self)@ }),
    {
        self.paused = paused;
    }

    /// Asks both threads to stop.
    pub fn request_stop(&mut self)
        ensures
            final(self)@ == (TrackView { stop: true, ..old(self)@ }),
    {
        self.stop = true;
    }

    /// Ends the track because the device failed.
    pub fn end(&mut self)
        ensures
            final(self)@ == (TrackView { ended: true, ..old(self)@ }),
    {
        self.ended = true;
    }

    /// Asks for a fade to silence before the track is stopped, and says whether there is one to wait
    /// for: payloads cannot be faded, and a track that is silent need not be.
    pub fn begin_fade(&mut self) -> (wait: bool)
        ensures
            wait == (!old(self)@.dop && !old(self)@.paused && old(self)@.primed),
            final(self)@ == (TrackView { fadeout: old(self)@.fadeout || wait, ..old(self)@ }),
    {
        let wait = !self.dop && !self.paused && self.primed;
        if wait {
            self.fadeout = true;
        }
        wait
    }

    /// Notes that the fade has reached silence.
    pub fn set_faded(&mut self)
        ensures
            final(self)@ == (TrackView { faded: true, ..old(self)@ }),
    {
        self.faded = true;
    }

    pub fn faded(&self) -> (r: bool)
        ensures
            r == self@.faded,
    {
        self.faded
    }

    /// The device is to fade out. Payloads are never faded.
    pub fn fading(&self) -> (r: bool)
        ensures
            r == (self@.fadeout && !self@.dop),
    {
        self.fadeout && !self.dop
    }

    pub fn ended(&self) -> (r: bool)
        ensures
            r == self@.ended,
    {
        self.ended
    }

    pub fn stopped(&self) -> (r: bool)
        ensures
            r == self@.stop,
    {
        self.stop
    }

    pub fn is_dop(&self) -> (r: bool)
        ensures
            r == self@.dop,
    {
        self.dop
    }

    pub fn out_rate(&self) -> (r: u32)
        ensures
            r == self@.out_rate,
    {
        self.out_rate
    }

    pub fn out_ch(&self) -> (n: usize)
        ensures
            n == self@.out_ch,
    {
        self.out_ch
    }

    pub fn filter(&self) -> (f: ResampleFilter)
        ensures
            f == self@.filter,
    {
        self.filter
    }

    pub fn underrun_frames(&self) -> (n: u64)
        ensures
            n == self@.underrun_frames,
    {
        self.underrun_frames
    }

    /// The frames of the device played since the start of the source.
    pub fn frames_played(&self) -> (p: Progress)
        ensures
            p.frames == self@.played(),
            p.rate_hz == (if self@.out_rate == 0 {
                1
            } else {
                self@.out_rate
            }),
    {
        Progress {
            frames: self.base.wrapping_add(self.consumed),
            rate_hz: if self.out_rate == 0 {
                1
            } else {
                self.out_rate
            },
        }
    }

    /// The position in time, never after the end of the source.
    pub fn position(&self) -> (p: Progress)
        ensures
            p == position_spec(self@.played() as int, self@.out_rate, self@.duration),
    {
        let now = self.frames_played();
        let end_rate: u32 = if self.duration.rate_hz == 0 {
            1
        } else {
            self.duration.rate_hz
        };
        assert(now.frames * end_rate <= u64::MAX * u32::MAX && self.duration.frames * now.rate_hz <= u64::MAX
            * u32::MAX) by (nonlinear_arith)
            requires
                now.frames <= u64::MAX,
                end_rate <= u32::MAX,
                self.duration.frames <= u64::MAX,
                now.rate_hz <= u32::MAX,
        ;
        if now.frames as u128 * end_rate as u128 <= self.duration.frames as u128 * now.rate_hz as u128 {
            now
        } else {
            Progress { frames: self.duration.frames, rate_hz: end_rate }
        }
    }

    /// Takes the samples for the next `n` frames of the device out of the queue.
    pub fn render(&mut self, n: usize) -> (r: Rendered<T>)
        requires
            old(self)@.wf(),
        ensures
            final(self)@.wf(),
            r.played == old(self)@.plays(),
            r.played ==> {
                &&& r.samples@ == old(self)@.head(n as int)
                &&& r.more == !old(self)@.ends_with(n as int)
                &&& final(self)@ == old(self)@.after_playing(n as int)
            },
            !r.played ==> {
                &&& r.samples@ == Seq::<T>::empty()
                &&& r.more
                &&& final(self)@ == old(self)@
            },
    {
        let len = self.ring.len();
        let avail = len / self.out_ch;
        let rate = self.out_rate;
        let enough = 4 * (avail as u128) >= 3 * (rate as u128);
        if self.paused || !(self.primed || enough || self.producer_done) {
            return Rendered { samples: Vec::new(), played: false, more: true };
        }
        self.primed = true;
        let take = if n < avail {
            n
        } else {
            avail
        };
        let ch = self.out_ch;
        proof {
            lemma_whole_frames(len as int, ch as int);
            assert(take * ch <= avail * ch && 0 <= take * ch) by (nonlinear_arith)
                requires
                    0 <= take <= avail,
                    0 <= ch,
            ;
        }
        let count = take * ch;
        let ghost all = self.ring@;
        let ghost start = old(self)@;
        let mut samples: Vec<T> = Vec::new();
        for i in 0..count
            invariant
                count <= all.len(),
                samples@ == all.take(i as int),
                self.ring@ == all.skip(i as int),
                self@ == (TrackView { ring: self.ring@, primed: true, ..start }),
        {
            proof {
                assert(all.skip(i as int).skip(1) =~= all.skip(i + 1));
                assert(all.skip(i as int)[0] == all[i as int]);
                assert(all.take(i + 1) =~= all.take(i as int).push(all[i as int]));
            }
            match self.ring.pop_front() {
                Some(v) => {
                    samples.push(v);
                    assert(self.ring@ =~= all.skip(i + 1));
                },
                None => {
                    assert(false);
                },
            }
        }
        self.consumed = self.consumed.wrapping_add(take as u64);
        let mut more = true;
        if take < n {
            if self.ring.len() == 0 && self.producer_done {
                self.ended = true;
                more = false;
            } else {
                self.underrun_frames = self.underrun_frames.wrapping_add((n - take) as u64);
            }
        }
        assert(self@ =~= old(self)@.after_playing(n as int));
        Rendered { samples, played: true, more }
    }
}

impl<T: Copy> Track<T> {
    /// Puts samples at the end of the queue.
    fn queue(&mut self, samples: &Vec<T>)
        ensures
            final(self)@ == (TrackView { ring: old(self)@.ring + samples@, ..old(self)@ }),
    {
        for i in 0..samples.len()
            invariant
                self@ == (TrackView { ring: old(self)@.ring + samples@.take(i as int), ..old(self)@ }),
        {
            self.ring.push_back(samples[i]);
            assert(self@ =~= (TrackView { ring: old(self)@.ring + samples@.take(i + 1), ..old(self)@ }));
        }
        assert(samples@.take(samples@.len() as int) =~= samples@);
    }

    /// Puts the last samples in the queue: nothing follows them.
    pub fn finish(&mut self, tail: Vec<T>)
        ensures
            final(self)@ == (TrackView {
                ring: old(self)@.ring + tail@,
                producer_done: true,
                ..old(self)@
            }),
    {
        self.queue(&tail);
        self.producer_done = true;
    }
}

/// Two sums in turn are one.
proof fn lemma_wrapped_sums(a: u64, b: int, c: int)
    requires
        b >= 0,
        c >= 0,
    ensures
        wrapped_sum(wrapped_sum(a, b), c) == wrapped_sum(a, b + c),
{
    vstd::arithmetic::div_mod::lemma_add_mod_noop(a + b, c, 0x1_0000_0000_0000_0000);
    vstd::arithmetic::div_mod::lemma_add_mod_noop((a + b) % 0x1_0000_0000_0000_0000, c, 0x1_0000_0000_0000_0000);
    vstd::arithmetic::div_mod::lemma_mod_twice(a + b, 0x1_0000_0000_0000_0000);
}

/// However the frames are cut into calls, the device gets the same samples in the same order, and the
/// track is the same afterwards.
pub proof fn playing_may_be_cut_anywhere<T>(v: TrackView<T>, n: int, m: int)
    requires
        v.wf(),
        n >= 0,
        m >= 0,
    ensures
        v.head(n) + v.after_playing(n).head(m) == v.head(n + m),
        v.after_playing(n).after_playing(m) == v.after_playing(n + m),
{
    let ch = v.out_ch as int;
    let w = v.after_playing(n);
    let g = v.given(n);
    lemma_whole_frames(v.ring.len() as int, ch);
    vstd::arithmetic::div_mod::lemma_div_pos_is_pos(v.ring.len() as int, ch);
    assert(0 <= g * ch && g * ch <= v.frames() * ch) by (nonlinear_arith)
        requires
            0 <= g <= v.frames(),
            ch > 0,
    ;
    assert(w.ring.len() == v.ring.len() - g * ch);
    assert(w.frames() == v.frames() - g) by {
        vstd::arithmetic::div_mod::lemma_hoist_over_denominator(v.ring.len() as int, -g, ch as nat);
        assert(v.ring.len() + (-g) * ch == v.ring.len() - g * ch) by (nonlinear_arith);
    }
    let h = w.given(m);
    assert(g + h == v.given(n + m));
    assert((g + h) * ch == g * ch + h * ch && 0 <= h * ch && h * ch <= w.frames() * ch && w.frames() * ch + g * ch
        == v.frames() * ch) by (nonlinear_arith)
        requires
            0 <= h <= w.frames(),
            ch > 0,
            w.frames() == v.frames() - g,
    ;
    assert(v.head(n) + w.head(m) =~= v.head(n + m));
    assert(w.ring.skip(h * ch) =~= v.ring.skip((g + h) * ch));
    lemma_wrapped_sums(v.consumed, g, h);
    lemma_wrapped_sums(v.underrun_frames, n - g, m - h);
    let x = w.after_playing(m);
    let y = v.after_playing(n + m);
    assert(x.consumed == y.consumed);
    assert(h * ch == w.ring.len() <==> (g + h) * ch == v.ring.len());
    assert(x.ended == y.ended && x.underrun_frames == y.underrun_frames) by {
        if g < n {
            assert(h == 0 && 0 * ch == 0);
            assert(w.ends_with(m) <==> m > 0 && v.ends_with(n));
            assert(v.ends_with(n + m) == v.ends_with(n));
        } else {
            assert(!v.ends_with(n));
            assert(v.ends_with(n + m) == w.ends_with(m));
        }
    }
    assert(x =~= y);
}

/// Every sample that was queued goes to the device once and in order: what was given and what is still
/// waiting are together what was waiting before.
pub proof fn no_sample_is_lost_or_repeated<T>(v: TrackView<T>, n: int)
    requires
        v.wf(),
        n >= 0,
    ensures
        v.head(n) + v.after_playing(n).ring == v.ring,
        v.given(n) == n || v.after_playing(n).frames() == 0,
{
    let ch = v.out_ch as int;
    let g = v.given(n);
    lemma_whole_frames(v.ring.len() as int, ch);
    vstd::arithmetic::div_mod::lemma_div_pos_is_pos(v.ring.len() as int, ch);
    assert(0 <= g * ch && g * ch <= v.frames() * ch) by (nonlinear_arith)
        requires
            0 <= g <= v.frames(),
            ch > 0,
    ;
    assert(v.head(n) + v.after_playing(n).ring =~= v.ring);
    if g < n {
        vstd::arithmetic::div_mod::lemma_fundamental_div_mod(v.ring.len() as int, ch);
        assert(g * ch == ch * g) by (nonlinear_arith);
        vstd::arithmetic::div_mod::lemma_mod_bound(v.ring.len() as int, ch);
        vstd::arithmetic::div_mod::lemma_basic_div(v.ring.len() as int - g * ch, ch);
    }
}

/// A seek never goes unnoticed: it always changes the count of seeks.
pub proof fn every_seek_is_noticed(generation: u64)
    ensures
        wrapped_sum(generation, 1) != generation,
{
}

/// Playback starts at the frame asked for: a reader that has not looked yet notices the start position and
/// begins there, or at the end if there is no such frame.
pub proof fn playback_starts_at_the_frame_asked_for<T>(p: Producer, t: TrackView<T>, frame: u64)
    requires
        p.gen_seen == 0,
    ensures
        ({
            let asked = TrackView { seek_src_frame: frame, seek_gen: 1, ..t };
            &&& asked.seek_gen != p.gen_seen
            &&& p.restarted(asked).pos == (if frame < p.src_frames {
                frame
            } else {
                p.src_frames
            })
        }),
{
}

/// The position shown is never after the end of the source.
pub proof fn position_is_never_after_the_end(frames: int, rate: u32, end: Progress)
    requires
        0 <= frames <= u64::MAX,
    ensures
        ({
            let p = position_spec(frames, rate, end);
            let e = if end.rate_hz == 0 {
                1
            } else {
                end.rate_hz as int
            };
            p.rate_hz > 0 && p.frames * e <= end.frames * p.rate_hz
        }),
{
}

// ---- the reader ----

/// What the reader has to do next.
#[derive(Debug, Clone, Copy, PartialEq, Eq, Structural)]
pub enum Work {
    /// The track was stopped.
    Exit,
    /// The source is at its end: push out what the conversion still holds, then finish the track.
    Flush,
    /// Everything is in the queue.
    Idle,
    /// The queue is full.
    Full,
    /// Read and convert a block.
    Read { start: u64, frames: usize },
}

/// One turn of the reader.
#[derive(Debug, Clone, Copy, PartialEq, Eq, Structural)]
pub struct Turn {
    /// There was a seek: the conversion starts over with no memory of what came before.
    pub rebuild: bool,
    pub work: Work,
}

/// The state of the reader of a track.
#[derive(Debug, Clone, Copy, PartialEq, Eq, Structural)]
pub struct Producer {
    /// The next frame of the source.
    pub pos: u64,
    /// The count of seeks when the reader last looked.
    pub gen_seen: u64,
    /// What the conversion held was pushed out.
    pub flushed: bool,
    /// The frames of the fade-in still to come.
    pub fade_left: usize,
    pub src_frames: u64,
    pub fade_frames: usize,
    /// The samples that fill the queue: eight seconds.
    pub capacity: usize,
}

impl Producer {
    /// The reader after it has noticed a seek.
    pub open spec fn restarted<T>(self, t: TrackView<T>) -> Self {
        Producer {
            pos: if t.seek_src_frame < self.src_frames {
                t.seek_src_frame
            } else {
                self.src_frames
            },
            gen_seen: t.seek_gen,
            flushed: false,
            fade_left: if t.dop {
                0
            } else {
                self.fade_frames
            },
            ..self
        }
    }

    /// What there is to do.
    pub open spec fn work<T>(self, t: TrackView<T>) -> Work {
        if t.stop {
            Work::Exit
        } else if self.pos >= self.src_frames {
            if self.flushed {
                Work::Idle
            } else {
                Work::Flush
            }
        } else if t.ring.len() >= self.capacity {
            Work::Full
        } else {
            Work::Read { start: self.pos, frames: CHUNK }
        }
    }

    /// The reader after `n` frames were read. Reading nothing means that the source is at its end.
    pub open spec fn accepted(self, n: int) -> Self {
        Producer {
            pos: if n == 0 {
                self.src_frames
            } else {
                (self.pos + n) as u64
            },
            ..self
        }
    }

    /// A reader of `src_frames` frames that has read nothing yet.
    pub open spec fn fresh<T>(src_frames: u64, t: TrackView<T>) -> Self {
        Producer {
            pos: 0,
            gen_seen: 0,
            flushed: false,
            fade_left: if t.dop {
                0
            } else {
                (t.out_rate / 50) as usize
            },
            src_frames,
            fade_frames: (t.out_rate / 50) as usize,
            capacity: (8 * t.out_rate * t.out_ch) as usize,
        }
    }

    /// Delivering `block` to `t` makes the reader `after` and the track `u`: the block follows what is in the
    /// queue, with `fade` applied to each sample while the fade-in lasts. If there was a seek in the
    /// meantime nothing changes.
    pub open spec fn delivered<T, G: Fn(T, usize, usize) -> T>(
        self,
        t: TrackView<T>,
        block: Seq<T>,
        fade: G,
        after: Self,
        u: TrackView<T>,
    ) -> bool {
        if t.seek_gen != self.gen_seen {
            after == self && u == t
        } else {
            let ch = t.out_ch as int;
            let frames = block.len() as int / ch;
            let left = self.fade_left;
            let faded = if frames < left {
                frames
            } else {
                left as int
            };
            let tail = u.ring.skip(t.ring.len() as int);
            &&& u == (TrackView { ring: t.ring + tail, ..t })
            &&& tail.len() == block.len()
            &&& forall|k: int|
                0 <= k < faded * ch ==> call_ensures(
                    fade,
                    (block[k], (left - k / ch) as usize, self.fade_frames),
                    #[trigger] tail[k],
                )
            &&& forall|k: int| faded * ch <= k < block.len() ==> #[trigger] tail[k] == block[k]
            &&& after == (Producer { fade_left: (left - faded) as usize, ..self })
        }
    }

    /// A reader for a source of `src_frames` frames. A start position is a seek that it has not
    /// noticed yet.
    pub fn new<T>(src_frames: u64, track: &Track<T>) -> (p: Producer)
        requires
            track@.wf(),
        ensures
            p == Producer::fresh(src_frames, track@),
    {
        let fade_frames = (track.out_rate / 50) as usize;
        let rate = track.out_rate as usize;
        assert(8 * rate <= 8 * rate * track.out_ch) by (nonlinear_arith)
            requires
                track.out_ch >= 1,
        ;
        Producer {
            pos: 0,
            gen_seen: 0,
            flushed: false,
            fade_left: if track.dop {
                0
            } else {
                fade_frames
            },
            src_frames,
            fade_frames,
            capacity: 8 * rate * track.out_ch,
        }
    }

    /// Looks at the track and says what to do. After a seek the queue is emptied and the reader goes on
    /// at the frame asked for; `base_of` gives the position of that frame in frames of the device.
    pub fn next<T, F: Fn(u64) -> u64>(&mut self, track: &mut Track<T>, base_of: &F) -> (turn: Turn)
        requires
            old(track)@.wf(),
            forall|pos: u64| call_requires(*base_of, (pos,)),
        ensures
            final(track)@.wf(),
            turn.rebuild == (!old(track)@.stop && old(track)@.seek_gen != old(self).gen_seen),
            turn.rebuild ==> call_ensures(
                *base_of,
                (old(self).restarted(old(track)@).pos,),
                final(track)@.base,
            ),
            ({
                let p = if turn.rebuild {
                    old(self).restarted(old(track)@)
                } else {
                    *old(self)
                };
                let t = if turn.rebuild {
                    old(track)@.restarted(final(track)@.base)
                } else {
                    old(track)@
                };
                &&& turn.work == p.work(t)
                &&& *final(self) == (Producer { flushed: p.flushed || turn.work is Flush, ..p })
                &&& final(track)@ == (TrackView { producer_done: t.producer_done || turn.work is Idle, ..t })
            }),
    {
        if track.stop {
            return Turn { rebuild: false, work: Work::Exit };
        }
        let mut rebuild = false;
        if track.seek_gen != self.gen_seen {
            rebuild = true;
            self.gen_seen = track.seek_gen;
            self.pos = if track.seek_src_frame < self.src_frames {
                track.seek_src_frame
            } else {
                self.src_frames
            };
            self.flushed = false;
            self.fade_left = if track.dop {
                0
            } else {
                self.fade_frames
            };
            track.producer_done = false;
            track.ring.clear();
            track.consumed = 0;
            track.primed = false;
            track.base = base_of(self.pos);
        }
        let work = if self.pos >= self.src_frames {
            if self.flushed {
                track.producer_done = true;
                Work::Idle
            } else {
                self.flushed = true;
                Work::Flush
            }
        } else if track.ring.len() >= self.capacity {
            Work::Full
        } else {
            Work::Read { start: self.pos, frames: CHUNK }
        };
        Turn { rebuild, work }
    }

    /// Takes note that `n` frames were read. Reading nothing means that the source is at its end.
    pub fn accept(&mut self, n: usize)
        requires
            old(self).pos + n <= u64::MAX,
        ensures
            *final(self) == old(self).accepted(n as int),
    {
        if n == 0 {
            self.pos = self.src_frames;
        } else {
            self.pos = self.pos + n as u64;
        }
    }

    /// Puts a converted block in the queue. While the fade-in lasts, `fade` is applied to each sample
    /// with the frames of the fade that are left and its length. If there was a seek in the meantime
    /// the block belongs to the old position and is dropped.
    pub fn deliver<T: Copy, G: Fn(T, usize, usize) -> T>(&mut self, track: &mut Track<T>, block: Vec<T>, fade: &G)
        requires
            old(track)@.wf(),
            forall|v: T, left: usize, length: usize| call_requires(*fade, (v, left, length)),
        ensures
            final(track)@.wf(),
            old(self).delivered(old(track)@, block@, *fade, *final(self), final(track)@),
    {
        if track.seek_gen != self.gen_seen {
            return;
        }
        let ch = track.out_ch;
        let len = block.len();
        let frames = len / ch;
        let faded: usize = if frames < self.fade_left {
            frames
        } else {
            self.fade_left
        };
        proof {
            lemma_whole_frames(len as int, ch as int);
            assert(0 <= faded * ch && faded * ch <= frames * ch) by (nonlinear_arith)
                requires
                    0 <= faded <= frames,
                    ch > 0,
            ;
        }
        let mut out: Vec<T> = Vec::new();
        for k in 0..len
            invariant
                len == block@.len(),
                ch > 0,
                0 <= faded * ch <= len,
                faded <= self.fade_left,
                *self == *old(self),
                forall|v: T, left: usize, length: usize| call_requires(*fade, (v, left, length)),
                out@.len() == k,
                forall|i: int|
                    0 <= i < k && i < faded * ch ==> call_ensures(
                        *fade,
                        (block@[i], (self.fade_left - i / ch as int) as usize, self.fade_frames),
                        #[trigger] out@[i],
                    ),
                forall|i: int| 0 <= i < k && i >= faded * ch ==> #[trigger] out@[i] == block@[i],
        {
            if k < faded * ch {
                proof {
                    crate::frames::lemma_position(k as int, ch as int, faded as int);
                }
                let v = fade(block[k], self.fade_left - k / ch, self.fade_frames);
                out.push(v);
            } else {
                out.push(block[k]);
            }
        }
        self.fade_left = self.fade_left - faded;
        track.queue(&out);
        proof {
            assert(track@.ring.skip(old(track)@.ring.len() as int) =~= out@);
        }
    }
}

/// The reader after `k` blocks of a source that gives what it has.
pub open spec fn after_blocks(p: Producer, k: nat) -> Producer
    decreases k,
{
    if k == 0 {
        p
    } else {
        let q = after_blocks(p, (k - 1) as nat);
        q.accepted(clipped(q.pos as int, CHUNK as int, q.src_frames as int))
    }
}

/// A source is read through, block by block and without gaps, to its end: block `k` begins where the
/// one before it ended, and when the blocks have covered the source nothing more is read.
pub proof fn the_whole_source_is_read<T>(p: Producer, k: nat, t: TrackView<T>)
    requires
        p.pos <= p.src_frames,
        !t.stop,
        t.ring.len() < p.capacity,
    ensures
        p.pos + k * CHUNK < p.src_frames ==> after_blocks(p, k).work(t) == (Work::Read {
            start: (p.pos + k * CHUNK) as u64,
            frames: CHUNK,
        }),
        p.pos + k * CHUNK >= p.src_frames ==> {
            &&& after_blocks(p, k).pos == p.src_frames
            &&& !(after_blocks(p, k).work(t) is Read)
        },
        after_blocks(p, k) == (Producer { pos: after_blocks(p, k).pos, ..p }),
    decreases k,
{
    if k > 0 {
        the_whole_source_is_read(p, (k - 1) as nat, t);
    }
}

// ---- conversion of blocks ----

/// Channels of perhaps different lengths, joined as far as the shortest goes and fitted to `out_ch`
/// channels.
pub open spec fn joined_spec<T>(planar: Seq<Seq<T>>, out_ch: int, silence: T) -> Seq<T> {
    map_channels_spec(interleaved(planar, shortest(planar) as int), planar.len() as int, out_ch, silence)
}

/// Joins channels as far as the shortest goes and fits them to `out_ch` channels.
pub fn joined<T: Copy>(planar: &Vec<Vec<T>>, out_ch: usize, silence: T) -> (out: Vec<T>)
    requires
        planar@.len() > 0,
    ensures
        out@ == joined_spec(nested(planar@), out_ch as int, silence),
{
    let frames = shortest_len(planar);
    let inter = interleave(planar, frames);
    map_channels_pub(&inter, planar.len(), out_ch, silence)
}

/// Upsamples a block, channel by channel, and fits it to the channels of the device.
pub fn upsample_block<T: Copy, F: Fn(T, T, T) -> T>(
    ups: &mut Vec<Upsampler<T>>,
    block: &[T],
    out_ch: usize,
    zero: T,
    mac: &F,
) -> (out: Vec<T>)
    requires
        old(ups)@.len() > 0,
        forall|c: int| 0 <= c < old(ups)@.len() ==> (#[trigger] old(ups)@[c])@.wf(),
        forall|a: T, c: T, v: T| call_requires(*mac, (a, c, v)),
    ensures
        final(ups)@.len() == old(ups)@.len(),
        forall|c: int|
            0 <= c < old(ups)@.len() ==> {
                &&& (#[trigger] final(ups)@[c])@.wf()
                &&& final(ups)@[c]@ == old(ups)@[c]@.advanced(channel_of(block@, c, old(ups)@.len() as int))
            },
        exists|outs: Seq<Seq<T>>|
            {
                &&& outs.len() == old(ups)@.len()
                &&& forall|c: int|
                    0 <= c < outs.len() ==> old(ups)@[c]@.gives(
                        *mac,
                        zero,
                        channel_of(block@, c, old(ups)@.len() as int),
                        #[trigger] outs[c],
                    )
                &&& out@ == #[trigger] joined_spec(outs, out_ch as int, zero)
            },
{
    let ch = ups.len();
    let mut outs: Vec<Vec<T>> = Vec::new();
    for c in 0..ch
        invariant
            ch == ups@.len() == old(ups)@.len(),
            forall|a: T, c: T, v: T| call_requires(*mac, (a, c, v)),
            outs@.len() == c,
            forall|d: int| 0 <= d < old(ups)@.len() ==> (#[trigger] old(ups)@[d])@.wf(),
            forall|d: int| c <= d < ch ==> #[trigger] ups@[d] == old(ups)@[d],
            forall|d: int|
                0 <= d < c ==> {
                    &&& (#[trigger] ups@[d])@.wf()
                    &&& ups@[d]@ == old(ups)@[d]@.advanced(channel_of(block@, d, ch as int))
                },
            forall|d: int|
                0 <= d < c ==> old(ups)@[d]@.gives(
                    *mac,
                    zero,
                    channel_of(block@, d, ch as int),
                    (#[trigger] outs@[d])@,
                ),
    {
        let mono = channel(block, c, ch);
        assert(ups@[c as int] == old(ups)@[c as int]);
        let one = ups[c].process(mono.as_slice(), zero, mac);
        outs.push(one);
    }
    proof {
        let s = nested(outs@);
        assert forall|c: int| 0 <= c < s.len() implies old(ups)@[c]@.gives(
            *mac,
            zero,
            channel_of(block@, c, ch as int),
            #[trigger] s[c],
        ) by {
            assert(s[c] == outs@[c]@);
        }
    }
    joined(&outs, out_ch, zero)
}

/// Pushes out what the upsamplers still hold and fits it to the channels of the device.
pub fn upsample_tail<T: Copy, F: Fn(T, T, T) -> T>(
    ups: &mut Vec<Upsampler<T>>,
    out_ch: usize,
    zero: T,
    mac: &F,
) -> (out: Vec<T>)
    requires
        old(ups)@.len() > 0,
        forall|c: int| 0 <= c < old(ups)@.len() ==> (#[trigger] old(ups)@[c])@.wf(),
        forall|a: T, c: T, v: T| call_requires(*mac, (a, c, v)),
    ensures
        final(ups)@.len() == old(ups)@.len(),
        forall|c: int|
            0 <= c < old(ups)@.len() ==> {
                &&& (#[trigger] final(ups)@[c])@.wf()
                &&& final(ups)@[c]@ == old(ups)@[c]@.advanced(silence_for(old(ups)@[c]@.taps, zero))
            },
        exists|outs: Seq<Seq<T>>|
            {
                &&& outs.len() == old(ups)@.len()
                &&& forall|c: int|
                    0 <= c < outs.len() ==> old(ups)@[c]@.gives(
                        *mac,
                        zero,
                        silence_for(old(ups)@[c]@.taps, zero),
                        #[trigger] outs[c],
                    )
                &&& out@ == #[trigger] joined_spec(outs, out_ch as int, zero)
            },
{
    let ch = ups.len();
    let mut outs: Vec<Vec<T>> = Vec::new();
    for c in 0..ch
        invariant
            ch == ups@.len() == old(ups)@.len(),
            forall|a: T, c: T, v: T| call_requires(*mac, (a, c, v)),
            outs@.len() == c,
            forall|d: int| 0 <= d < old(ups)@.len() ==> (#[trigger] old(ups)@[d])@.wf(),
            forall|d: int| c <= d < ch ==> #[trigger] ups@[d] == old(ups)@[d],
            forall|d: int|
                0 <= d < c ==> {
                    &&& (#[trigger] ups@[d])@.wf()
                    &&& ups@[d]@ == old(ups)@[d]@.advanced(silence_for(old(ups)@[d]@.taps, zero))
                },
            forall|d: int|
                0 <= d < c ==> old(ups)@[d]@.gives(
                    *mac,
                    zero,
                    silence_for(old(ups)@[d]@.taps, zero),
                    (#[trigger] outs@[d])@,
                ),
    {
        assert(ups@[c as int] == old(ups)@[c as int]);
        let one = ups[c].flush(zero, mac);
        outs.push(one);
    }
    proof {
        let s = nested(outs@);
        assert forall|c: int| 0 <= c < s.len() implies old(ups)@[c]@.gives(
            *mac,
            zero,
            silence_for(old(ups)@[c]@.taps, zero),
            #[trigger] s[c],
        ) by {
            assert(s[c] == outs@[c]@);
        }
    }
    joined(&outs, out_ch, zero)
}

/// The silence that pushes the delay out of an upsampler.
pub open spec fn silence_for<T>(taps: int, zero: T) -> Seq<T> {
    Seq::new(flush_len(taps) as nat, |i: int| zero)
}

// ---- what holds of playing and reading ----

/// The device gets sound exactly if the track is not paused and has begun, or three quarters of a second or all there is are
/// in the queue. It gets the frames that it asks for, in order, or as many as there are; they leave the
/// queue and count as played. The track ends when fewer are left, nothing remains and nothing follows;
/// what else is missing counts as a dropout.
pub proof fn the_device_gets_what_is_in_the_queue<T>()
    ensures
        forall|t: &mut Track<T>, n: usize, r: Rendered<T>| #[trigger]
            call_ensures(Track::<T>::render, (t, n), r) && (*t)@.out_ch > 0 ==> {
                let v = (*t)@;
                let z = (*final(t))@;
                let have = v.ring.len() as int / v.out_ch as int;
                let k = if n <= have {
                    n as int
                } else {
                    have
                };
                &&& r.played <==> !v.paused && (v.primed || v.producer_done || 4 * have >= 3 * v.out_rate)
                &&& !r.played ==> r.samples@.len() == 0 && r.more && z == v
                &&& r.played ==> {
                    &&& r.samples@ == v.ring.take(k * v.out_ch)
                    &&& z.ring == v.ring.skip(k * v.out_ch)
                    &&& z.primed
                    &&& v.consumed + k <= u64::MAX ==> z.consumed == v.consumed + k
                    &&& !r.more <==> k < n && k * v.out_ch == v.ring.len() && v.producer_done
                    &&& z.ended <==> v.ended || !r.more
                    &&& k == n || !r.more ==> z.underrun_frames == v.underrun_frames
                    &&& k < n && r.more && v.underrun_frames + (n - k) <= u64::MAX ==> z.underrun_frames
                        == v.underrun_frames + (n - k)
                    &&& z.seek_gen == v.seek_gen && z.base == v.base && z.producer_done == v.producer_done && z.stop
                        == v.stop && z.paused == v.paused
                }
            },
{
    assert forall|t: &mut Track<T>, n: usize, r: Rendered<T>| #[trigger]
        call_ensures(Track::<T>::render, (t, n), r) && (*t)@.out_ch > 0 implies {
        let v = (*t)@;
        let z = (*final(t))@;
        let have = v.ring.len() as int / v.out_ch as int;
        let k = if n <= have {
            n as int
        } else {
            have
        };
        &&& r.played <==> !v.paused && (v.primed || v.producer_done || 4 * have >= 3 * v.out_rate)
        &&& !r.played ==> r.samples@.len() == 0 && r.more && z == v
        &&& r.played ==> {
            &&& r.samples@ == v.ring.take(k * v.out_ch)
            &&& z.ring == v.ring.skip(k * v.out_ch)
            &&& z.primed
            &&& v.consumed + k <= u64::MAX ==> z.consumed == v.consumed + k
            &&& !r.more <==> k < n && k * v.out_ch == v.ring.len() && v.producer_done
            &&& z.ended <==> v.ended || !r.more
            &&& k == n || !r.more ==> z.underrun_frames == v.underrun_frames
            &&& k < n && r.more && v.underrun_frames + (n - k) <= u64::MAX ==> z.underrun_frames
                == v.underrun_frames + (n - k)
            &&& z.seek_gen == v.seek_gen && z.base == v.base && z.producer_done == v.producer_done && z.stop == v.stop
                && z.paused == v.paused
        }
    } by {
        let v = (*t)@;
        vstd::arithmetic::div_mod::lemma_div_pos_is_pos(v.ring.len() as int, v.out_ch as int);
    }
}

/// The reader stops when it is told to. It notices every seek, empties the queue and goes on at the frame asked for, or at the end
/// if there is no such frame, with a new fade-in unless the samples are payloads. It reads on from
/// where it is, 2048 frames at a time, until the queue is full or the source is at its end; there it
/// pushes out what the conversion holds, once, and the track is complete.
pub proof fn the_reader_does_what_is_to_be_done<T, F: Fn(u64) -> u64>()
    ensures
        forall|p: &mut Producer, t: &mut Track<T>, base_of: &F, turn: Turn| #[trigger]
            call_ensures(Producer::next::<T, F>, (p, t, base_of), turn) ==> {
                let v = (*t)@;
                let z = (*final(t))@;
                let q = (*p);
                let a = (*final(p));
                let seek = !v.stop && v.seek_gen != q.gen_seen;
                let pos = if !seek {
                    q.pos
                } else if v.seek_src_frame < q.src_frames {
                    v.seek_src_frame
                } else {
                    q.src_frames
                };
                let waiting = if seek {
                    0
                } else {
                    v.ring.len() as int
                };
                &&& turn.rebuild <==> seek
                &&& turn.work is Exit <==> v.stop
                &&& !v.stop && pos < q.src_frames && waiting < q.capacity ==> turn.work == (Work::Read {
                    start: pos,
                    frames: 2048,
                })
                &&& !v.stop && pos < q.src_frames && waiting >= q.capacity ==> turn.work is Full
                &&& !v.stop && pos >= q.src_frames ==> (turn.work is Flush <==> seek || !q.flushed)
                &&& !v.stop && pos >= q.src_frames ==> (turn.work is Idle <==> !seek && q.flushed)
                &&& a.pos == pos
                &&& seek ==> {
                    &&& z.ring.len() == 0 && z.consumed == 0 && !z.primed && !z.producer_done
                    &&& call_ensures(*base_of, (pos,), z.base)
                    &&& a.gen_seen == v.seek_gen
                    &&& a.fade_left == (if v.dop {
                        0
                    } else {
                        q.fade_frames
                    })
                }
                &&& !seek ==> z.ring == v.ring && z.consumed == v.consumed && z.primed == v.primed && z.base == v.base
                    && a.gen_seen == q.gen_seen && a.fade_left == q.fade_left
                &&& turn.work is Idle ==> z.producer_done
                &&& !seek && !(turn.work is Idle) ==> z.producer_done == v.producer_done
                &&& turn.work is Flush ==> a.flushed
            },
{
}

/// A reader begins at the first frame, reads up to eight seconds ahead, and fades in over a fiftieth of a second unless the
/// samples are payloads.
pub proof fn a_reader_begins_at_the_first_frame<T>(src_frames: u64, track: &Track<T>, p: Producer)
    requires
        call_ensures(Producer::new::<T>, (src_frames, track), p),
        track@.wf(),
    ensures
        p.pos == 0 && p.gen_seen == 0 && !p.flushed && p.src_frames == src_frames,
        p.capacity == 8 * track@.out_rate * track@.out_ch,
        50 * p.fade_frames <= track@.out_rate < 50 * p.fade_frames + 50,
        track@.dop ==> p.fade_left == 0,
        !track@.dop ==> p.fade_left == p.fade_frames,
{
    let rate = track@.out_rate as int;
    assert(0 <= 8 * rate * track@.out_ch) by (nonlinear_arith)
        requires
            rate >= 0,
    ;
}

/// What is asked of a track is noted and nothing else changes: a start or a seek is noticed by the reader, a pause and a stop are
/// kept, a fade is asked for only where there is sound that can be faded, and the last samples go to the
/// end of the queue.
pub proof fn a_track_keeps_what_it_is_asked<T: Copy>()
    ensures
        forall|t: &mut Track<T>, frame: u64, u: ()| #[trigger]
            call_ensures(Track::<T>::start_at, (t, frame), u) ==> (*final(t))@ == (TrackView {
                seek_src_frame: frame,
                seek_gen: 1,
                ..(*t)@
            }),
        forall|t: &mut Track<T>, frame: u64, u: ()| #[trigger]
            call_ensures(Track::<T>::request_seek, (t, frame), u) ==> {
                let z = (*final(t))@;
                &&& z.seek_gen != (*t)@.seek_gen
                &&& z == (TrackView { seek_src_frame: frame, seek_gen: z.seek_gen, ..(*t)@ })
            },
        forall|t: &mut Track<T>, paused: bool, u: ()| #[trigger]
            call_ensures(Track::<T>::set_paused, (t, paused), u) ==> (*final(t))@ == (TrackView { paused, ..(*t)@ }),
        forall|t: &mut Track<T>, u: ()| #[trigger]
            call_ensures(Track::<T>::request_stop, (t,), u) ==> (*final(t))@ == (TrackView { stop: true, ..(*t)@ }),
        forall|t: &mut Track<T>, wait: bool| #[trigger]
            call_ensures(Track::<T>::begin_fade, (t,), wait) ==> {
                &&& wait <==> !(*t)@.dop && !(*t)@.paused && (*t)@.primed
                &&& (*final(t))@ == (TrackView { fadeout: (*t)@.fadeout || wait, ..(*t)@ })
            },
        forall|t: &mut Track<T>, tail: Vec<T>, u: ()| #[trigger]
            call_ensures(Track::<T>::finish, (t, tail), u) ==> (*final(t))@ == (TrackView {
                ring: (*t)@.ring + tail@,
                producer_done: true,
                ..(*t)@
            }),
{
}

/// The frame to seek to is the one asked for, or the last one there is.
pub proof fn a_seek_goes_to_the_frame_asked_for(wanted: u64, total: u64, f: u64)
    requires
        call_ensures(seek_frame, (wanted, total), f),
    ensures
        wanted < total ==> f == wanted,
        wanted >= total > 0 ==> f == total - 1,
        total == 0 ==> f == 0,
{
}

/// The position is the time played since the start of the source, at the rate of the device, or the length of the source if that
/// is less.
pub proof fn the_position_is_the_time_played<T>(t: &Track<T>, p: Progress)
    requires
        call_ensures(Track::<T>::position, (t,), p),
        t@.out_rate > 0,
        t@.duration.rate_hz > 0,
        t@.base + t@.consumed <= u64::MAX,
    ensures
        ({
            let played = t@.base + t@.consumed;
            &&& played * t@.duration.rate_hz <= t@.duration.frames * t@.out_rate ==> p.frames == played && p.rate_hz
                == t@.out_rate
            &&& played * t@.duration.rate_hz > t@.duration.frames * t@.out_rate ==> p == t@.duration
        }),
{
}

/// A new track has nothing in its queue, has played nothing, and nothing was asked of it.
pub proof fn a_new_track_is_empty<T>(
    out_rate: u32,
    out_ch: usize,
    duration: Progress,
    filter: ResampleFilter,
    dop: bool,
    t: Track<T>,
)
    requires
        call_ensures(Track::<T>::new, (out_rate, out_ch, duration, filter, dop), t),
    ensures
        t@.ring.len() == 0 && t@.consumed == 0 && t@.base == 0 && t@.underrun_frames == 0,
        !t@.paused && !t@.ended && !t@.stop && !t@.producer_done && !t@.primed && !t@.fadeout && !t@.faded,
        t@.seek_gen == 0,
        t@.out_rate == out_rate && t@.out_ch == out_ch && t@.duration == duration && t@.filter == filter && t@.dop == dop,
{
}

/// A track tells what it holds. It fades only where that was asked for and the samples are no payloads.
pub proof fn a_track_tells_what_it_holds<T>(t: &Track<T>, a: bool, b: bool, c: bool, d: bool, e: bool, p: Progress)
    requires
        call_ensures(Track::<T>::faded, (t,), a),
        call_ensures(Track::<T>::fading, (t,), b),
        call_ensures(Track::<T>::ended, (t,), c),
        call_ensures(Track::<T>::stopped, (t,), d),
        call_ensures(Track::<T>::is_dop, (t,), e),
        call_ensures(Track::<T>::frames_played, (t,), p),
    ensures
        a == t@.faded,
        b <==> t@.fadeout && !t@.dop,
        c == t@.ended,
        d == t@.stop,
        e == t@.dop,
        t@.base + t@.consumed <= u64::MAX ==> p.frames == t@.base + t@.consumed,
        t@.out_rate > 0 ==> p.rate_hz == t@.out_rate,
        p.rate_hz > 0,
{
}

/// A reader goes on behind what it has read; where nothing was read the source is at its end.
pub proof fn a_reader_goes_on_behind_what_it_read()
    ensures
        forall|p: &mut Producer, n: usize, u: ()| #[trigger]
            call_ensures(Producer::accept, (p, n), u) && (*p).pos + n <= u64::MAX ==> {
                &&& n > 0 ==> *final(p) == (Producer { pos: ((*p).pos + n) as u64, ..*p })
                &&& n == 0 ==> *final(p) == (Producer { pos: (*p).src_frames, ..*p })
            },
{
}

/// What was converted joins the queue at its end, sample by sample. While the fade-in lasts each frame is faded by what is left of
/// it, and the fade grows shorter by the frames that were put in. After a seek the block is dropped and nothing
/// changes.
pub proof fn what_is_converted_joins_the_queue<T: Copy, G: Fn(T, usize, usize) -> T>()
    ensures
        forall|p: &mut Producer, t: &mut Track<T>, block: Vec<T>, fade: &G, u: ()| #[trigger]
            call_ensures(Producer::deliver::<T, G>, (p, t, block, fade), u) && (*t)@.out_ch > 0 ==> {
                let v = (*t)@;
                let z = (*final(t))@;
                let ch = v.out_ch as int;
                let n = v.ring.len() as int;
                let frames = block@.len() as int / ch;
                &&& v.seek_gen != (*p).gen_seen ==> z == v && *final(p) == *p
                &&& v.seek_gen == (*p).gen_seen ==> {
                    &&& z.ring.len() == n + block@.len()
                    &&& z.ring.take(n) == v.ring
                    &&& forall|k: int|
                        0 <= k < block@.len() && (*p).fade_left == 0 ==> #[trigger] z.ring[n + k] == block@[k]
                    &&& frames >= (*p).fade_left ==> (*final(p)).fade_left == 0
                    &&& frames < (*p).fade_left ==> (*final(p)).fade_left == (*p).fade_left - frames
                    &&& (*final(p)).pos == (*p).pos && (*final(p)).flushed == (*p).flushed && (*final(p)).gen_seen
                        == (*p).gen_seen
                    &&& z.consumed == v.consumed && z.base == v.base && z.primed == v.primed && z.paused == v.paused
                        && z.producer_done == v.producer_done
                }
            },
{
    assert forall|p: &mut Producer, t: &mut Track<T>, block: Vec<T>, fade: &G, u: ()| #[trigger]
        call_ensures(Producer::deliver::<T, G>, (p, t, block, fade), u) && (*t)@.out_ch > 0 implies {
        let v = (*t)@;
        let z = (*final(t))@;
        let ch = v.out_ch as int;
        let n = v.ring.len() as int;
        let frames = block@.len() as int / ch;
        &&& v.seek_gen != (*p).gen_seen ==> z == v && *final(p) == *p
        &&& v.seek_gen == (*p).gen_seen ==> {
            &&& z.ring.len() == n + block@.len()
            &&& z.ring.take(n) == v.ring
            &&& forall|k: int|
                0 <= k < block@.len() && (*p).fade_left == 0 ==> #[trigger] z.ring[n + k] == block@[k]
            &&& frames >= (*p).fade_left ==> (*final(p)).fade_left == 0
            &&& frames < (*p).fade_left ==> (*final(p)).fade_left == (*p).fade_left - frames
            &&& (*final(p)).pos == (*p).pos && (*final(p)).flushed == (*p).flushed && (*final(p)).gen_seen
                == (*p).gen_seen
            &&& z.consumed == v.consumed && z.base == v.base && z.primed == v.primed && z.paused == v.paused
                && z.producer_done == v.producer_done
        }
    } by {
        let v = (*t)@;
        let z = (*final(t))@;
        let n = v.ring.len() as int;
        vstd::arithmetic::div_mod::lemma_div_pos_is_pos(block@.len() as int, v.out_ch as int);
        if v.seek_gen == (*p).gen_seen {
            let tail = z.ring.skip(n);
            assert(z.ring == v.ring + tail);
            assert(z.ring.take(n) =~= v.ring);
            assert forall|k: int| 0 <= k < block@.len() && (*p).fade_left == 0 implies #[trigger] z.ring[n + k]
                == block@[k] by {
                assert(0 * v.out_ch == 0);
                assert(tail[k] == block@[k]);
            }
        }
    }
}

/// The fade-in takes one frame after the other: frame `f` of a block is faded by what is left of the fade, less `f`, as long as
/// that lasts, all channels alike, and the rest is put in as it is.
pub proof fn a_fade_takes_one_frame_after_the_other<T: Copy, G: Fn(T, usize, usize) -> T>(
    p: Producer,
    t: TrackView<T>,
    block: Seq<T>,
    fade: G,
    after: Producer,
    u: TrackView<T>,
    f: int,
    c: int,
)
    requires
        p.delivered(t, block, fade, after, u),
        t.seek_gen == p.gen_seen,
        0 <= c < t.out_ch,
        0 <= f < block.len() as int / t.out_ch as int,
    ensures
        ({
            let k = f * t.out_ch + c;
            &&& 0 <= k < block.len()
            &&& f < p.fade_left ==> call_ensures(
                fade,
                (block[k], (p.fade_left - f) as usize, p.fade_frames),
                u.ring[t.ring.len() + k],
            )
            &&& f >= p.fade_left ==> u.ring[t.ring.len() + k] == block[k]
        }),
{
    let ch = t.out_ch as int;
    let frames = block.len() as int / ch;
    let k = f * ch + c;
    let faded = if frames < p.fade_left {
        frames
    } else {
        p.fade_left as int
    };
    lemma_whole_frames(block.len() as int, ch);
    crate::frames::lemma_at(f, c, ch);
    crate::frames::lemma_at_bound(f, c, ch, frames);
    let tail = u.ring.skip(t.ring.len() as int);
    assert(u.ring[t.ring.len() + k] == tail[k]);
    if f < p.fade_left {
        crate::frames::lemma_at_bound(f, c, ch, faded);
        assert(call_ensures(fade, (block[k], (p.fade_left - k / ch) as usize, p.fade_frames), tail[k]));
    } else {
        assert(faded * ch <= k) by (nonlinear_arith)
            requires
                faded <= f,
                k == f * ch + c,
                c >= 0,
                ch > 0,
        ;
    }
}

/// Channels are joined frame by frame as far as every one of them goes. The device gets one channel in all of its channels, the
/// channels that it has where there are more, and silence where there are fewer.
pub proof fn channels_are_joined_for_the_device<T: Copy>(
    planar: &Vec<Vec<T>>,
    out_ch: usize,
    silence: T,
    out: Vec<T>,
    f: int,
    c: int,
)
    requires
        planar@.len() > 0,
        call_ensures(joined::<T>, (planar, out_ch, silence), out),
        0 <= f < crate::frames::shortest(nested(planar@)),
        0 <= c < out_ch,
    ensures
        0 <= f * out_ch + c < out@.len(),
        planar@.len() == 1 ==> out@[f * out_ch + c] == planar@[0]@[f],
        planar@.len() > 1 && c < planar@.len() ==> out@[f * out_ch + c] == planar@[c]@[f],
        planar@.len() > 1 && c >= planar@.len() ==> out@[f * out_ch + c] == silence,
{
    let s = nested(planar@);
    let n = s.len() as int;
    let frames = crate::frames::shortest(s) as int;
    let inter = interleaved(s, frames);
    assert(frames * n >= 0) by (nonlinear_arith)
        requires
            frames >= 0,
            n > 0,
    ;
    assert(inter.len() == frames * n);
    vstd::arithmetic::div_mod::lemma_div_multiples_vanish(frames, n);
    assert(n * frames == frames * n) by (nonlinear_arith);
    crate::frames::lemma_at(f, c, out_ch as int);
    crate::frames::lemma_at_bound(f, c, out_ch as int, frames);
    assert forall|d: int| 0 <= d < n implies inter[f * n + d] == #[trigger] s[d][f] by {
        crate::frames::lemma_at(f, d, n);
        crate::frames::lemma_at_bound(f, d, n, frames);
    }
    assert(s[0] == planar@[0]@);
    assert(c < n ==> s[c] == planar@[c]@);
    assert(inter[f * n + 0] == s[0][f]);
    if n == 1 {
        assert(f * n == f) by (nonlinear_arith)
            requires
                n == 1,
        ;
    }
}

} // verus!

