//! What goes to an output device: sample rate conversion, channel mapping and the filters to choose from.

use vstd::prelude::*;
use crate::frames::{
    deinterleave,
    interleave,
    interleaved,
    lemma_channel_len,
    lemma_at_bound,
    lemma_whole_frames,
    nested,
    planar_of,
    remap_frames,
    remapped,
};

verus! {

/// Why nothing could be played.
#[derive(Debug, Clone, PartialEq)]
pub enum OutputError {
    NoDevice,
    Config(String),
    Stream(String),
    Resample(String),
}

impl OutputError {
    /// The error as text for the listener.
    pub open spec fn message_spec(self) -> Seq<char> {
        match self {
            OutputError::NoDevice => "出力デバイスがありません"@,
            OutputError::Config(e) => "デバイスの設定を取得できません: "@ + e@,
            OutputError::Stream(e) => "再生できません: "@ + e@,
            OutputError::Resample(e) => "リサンプルに失敗しました: "@ + e@,
        }
    }

    /// The error as text for the listener.
    pub fn message(&self) -> (s: String)
        ensures
            s@ == self.message_spec(),
    {
        match self {
            OutputError::NoDevice => "出力デバイスがありません".to_owned(),
            OutputError::Config(e) => {
                let mut s = "デバイスの設定を取得できません: ".to_owned();
                s.append(e.as_str());
                s
            },
            OutputError::Stream(e) => {
                let mut s = "再生できません: ".to_owned();
                s.append(e.as_str());
                s
            },
            OutputError::Resample(e) => {
                let mut s = "リサンプルに失敗しました: ".to_owned();
                s.append(e.as_str());
                s
            },
        }
    }
}

// ---- filters ----

/// The filters for sample rate conversion, all with linear phase.
#[derive(Debug, Clone, Copy, PartialEq, Eq, Structural)]
pub enum ResampleFilter {
    /// Balanced: passes up to 95 % of the Nyquist frequency of the original.
    Standard,
    /// Steep: flat up to 99 %, at the price of more ringing and more work.
    Sharp,
    /// Gentle: rolls off from 90 % on, with less ringing.
    Soft,
    /// The cutoff in percent of the Nyquist frequency, kept between 80 and 99.
    Custom(u8),
}

impl Default for ResampleFilter {
    fn default() -> (f: Self)
        ensures
            f == ResampleFilter::Standard,
    {
        ResampleFilter::Standard
    }
}

/// A custom cutoff, kept between 80 and 99 percent.
pub open spec fn custom_cutoff(pct: u8) -> u8 {
    if pct < 80 {
        80
    } else if pct > 99 {
        99
    } else {
        pct
    }
}

/// A custom cutoff, kept between 80 and 99 percent.
fn clamp_cutoff(pct: u8) -> (r: u8)
    ensures
        r == custom_cutoff(pct),
{
    if pct < 80 {
        80
    } else if pct > 99 {
        99
    } else {
        pct
    }
}

/// The window functions of the sinc filters.
#[derive(Debug, Clone, Copy, PartialEq, Eq, Structural)]
pub enum Window {
    BlackmanHarris2,
    Blackman2,
}

/// The parameters of a sinc resampler with cubic interpolation.
#[derive(Debug, Clone, Copy, PartialEq, Eq, Structural)]
pub struct SincParams {
    /// The taps of the filter.
    pub sinc_len: usize,
    /// The cutoff in percent of the Nyquist frequency.
    pub cutoff_pct: u8,
    pub oversampling_factor: usize,
    pub window: Window,
}

/// The sinc resampler for a filter.
pub open spec fn sinc_params_spec(f: ResampleFilter) -> SincParams {
    SincParams {
        sinc_len: if f is Sharp {
            512
        } else {
            256
        },
        cutoff_pct: match f {
            ResampleFilter::Standard => 95,
            ResampleFilter::Sharp => 99,
            ResampleFilter::Soft => 90,
            ResampleFilter::Custom(pct) => custom_cutoff(pct),
        },
        oversampling_factor: 256,
        window: if f is Soft {
            Window::Blackman2
        } else {
            Window::BlackmanHarris2
        },
    }
}

/// The sinc resampler for a filter.
pub fn sinc_params(f: ResampleFilter) -> (p: SincParams)
    ensures
        p == sinc_params_spec(f),
{
    match f {
        ResampleFilter::Standard => SincParams {
            sinc_len: 256,
            cutoff_pct: 95,
            oversampling_factor: 256,
            window: Window::BlackmanHarris2,
        },
        ResampleFilter::Sharp => SincParams {
            sinc_len: 512,
            cutoff_pct: 99,
            oversampling_factor: 256,
            window: Window::BlackmanHarris2,
        },
        ResampleFilter::Custom(pct) => SincParams {
            sinc_len: 256,
            cutoff_pct: clamp_cutoff(pct),
            oversampling_factor: 256,
            window: Window::BlackmanHarris2,
        },
        ResampleFilter::Soft => SincParams {
            sinc_len: 256,
            cutoff_pct: 90,
            oversampling_factor: 256,
            window: Window::Blackman2,
        },
    }
}

/// The polyphase filter for whole-number upsampling: taps per phase and cutoff in percent of the
/// Nyquist frequency.
pub open spec fn poly_design_spec(f: ResampleFilter) -> (usize, u8) {
    match f {
        ResampleFilter::Standard => (128, 95),
        ResampleFilter::Sharp => (256, 99),
        ResampleFilter::Soft => (96, 90),
        ResampleFilter::Custom(pct) => (128, custom_cutoff(pct)),
    }
}

/// The polyphase filter for whole-number upsampling: taps per phase and cutoff in percent of the
/// Nyquist frequency.
pub fn poly_design(f: ResampleFilter) -> (d: (usize, u8))
    ensures
        d == poly_design_spec(f),
{
    match f {
        ResampleFilter::Standard => (128, 95),
        ResampleFilter::Sharp => (256, 99),
        ResampleFilter::Soft => (96, 90),
        ResampleFilter::Custom(pct) => (128, clamp_cutoff(pct)),
    }
}

/// Both ways of resampling with a filter cut off at the same frequency, between 80 and 99 percent.
pub proof fn filters_agree_on_the_cutoff(f: ResampleFilter)
    ensures
        sinc_params_spec(f).cutoff_pct == poly_design_spec(f).1,
        80 <= poly_design_spec(f).1 <= 99,
{
}

/// `to` is 2 to 32 times `from`.
pub open spec fn integer_ratio_spec(from: u32, to: u32) -> Option<usize> {
    if from > 0 && to > from && to % from == 0 && to / from <= 32 {
        Some((to / from) as usize)
    } else {
        None
    }
}

/// How many times `from` goes into `to`, if that is a whole number from 2 to 32.
pub fn integer_ratio(from: u32, to: u32) -> (r: Option<usize>)
    ensures
        r == integer_ratio_spec(from, to),
{
    if from > 0 && to > from && to % from == 0 && to / from <= 32 {
        Some((to / from) as usize)
    } else {
        None
    }
}

/// A whole-number ratio really is one: it is at least two and takes `from` to `to` exactly.
pub proof fn integer_ratio_is_exact(from: u32, to: u32)
    ensures
        integer_ratio_spec(from, to) matches Some(l) ==> 2 <= l <= 32 && l * from == to,
{
    if from > 0 {
        vstd::arithmetic::div_mod::lemma_fundamental_div_mod(to as int, from as int);
        let q = to as int / from as int;
        assert(to > from && to as int % from as int == 0 ==> q >= 2 && q * from == to) by (nonlinear_arith)
            requires
                to as int == from as int * q + to as int % from as int,
                from > 0,
        ;
    }
}

/// How to get from one rate to another.
#[derive(Debug, Clone, Copy, PartialEq, Eq, Structural)]
pub enum Conversion {
    /// The rates are the same.
    Same,
    /// Polyphase upsampling.
    Poly { ratio: usize, taps: usize, cutoff_pct: u8 },
    /// A sinc resampler.
    Sinc(SincParams),
}

/// How to get from one rate to another with a filter.
pub open spec fn conversion_spec(from: u32, to: u32, f: ResampleFilter) -> Conversion {
    if from == to {
        Conversion::Same
    } else if integer_ratio_spec(from, to) is Some {
        Conversion::Poly {
            ratio: integer_ratio_spec(from, to)->0,
            taps: poly_design_spec(f).0,
            cutoff_pct: poly_design_spec(f).1,
        }
    } else {
        Conversion::Sinc(sinc_params_spec(f))
    }
}

/// How to get from one rate to another with a filter: nothing to do for equal rates, polyphase for a
/// whole-number ratio, sinc otherwise.
pub fn conversion(from: u32, to: u32, f: ResampleFilter) -> (c: Conversion)
    ensures
        c == conversion_spec(from, to, f),
{
    if from == to {
        return Conversion::Same;
    }
    match integer_ratio(from, to) {
        Some(ratio) => {
            let d = poly_design(f);
            Conversion::Poly { ratio, taps: d.0, cutoff_pct: d.1 }
        },
        None => Conversion::Sinc(sinc_params(f)),
    }
}

/// One step of the noise used to time a filter (xorshift).
pub open spec fn noise_spec(x: u64) -> u64 {
    let a = x ^ (x << 13);
    let b = a ^ (a >> 7);
    b ^ (b << 17)
}

/// One step of the noise used to time a filter. It never falls silent.
pub fn next_noise(x: u64) -> (y: u64)
    ensures
        y == noise_spec(x),
        x != 0 ==> y != 0,
{
    let a = x ^ (x << 13);
    let b = a ^ (a >> 7);
    let y = b ^ (b << 17);
    assert(x != 0 ==> y != 0) by (bit_vector)
        requires
            a == x ^ (x << 13),
            b == a ^ (a >> 7),
            y == b ^ (b << 17),
    ;
    y
}

// ---- channels ----

/// Samples for a device with `to` channels: unchanged if the number is the same, else frame by frame.
pub open spec fn map_channels_spec<T>(samples: Seq<T>, from: int, to: int, silence: T) -> Seq<T> {
    if from == to {
        samples
    } else {
        remapped(samples, from, to, silence)
    }
}

/// Fits audio to the channels of a device: mono goes to every channel, surplus channels are dropped,
/// missing ones are silent.
pub fn map_channels_pub<T: Copy>(samples: &[T], from: usize, to: usize, silence: T) -> (out: Vec<T>)
    requires
        from > 0 || from == to,
    ensures
        out@ == map_channels_spec(samples@, from as int, to as int, silence),
{
    if from == to {
        let mut out: Vec<T> = Vec::new();
        for i in 0..samples.len()
            invariant
                out@ == samples@.take(i as int),
        {
            out.push(samples[i]);
        }
        assert(samples@.take(samples@.len() as int) =~= samples@);
        return out;
    }
    remap_frames(samples, from, to, silence)
}

/// Mapped whole frames are whole frames of the device, as many as before.
pub proof fn mapping_keeps_the_frames<T>(samples: Seq<T>, from: int, to: int, silence: T)
    requires
        from > 0,
        to > 0,
        samples.len() as int % from == 0,
    ensures
        map_channels_spec(samples, from, to, silence).len() == (samples.len() as int / from) * to,
        map_channels_spec(samples, from, to, silence).len() as int % to == 0,
{
    let frames = samples.len() as int / from;
    vstd::arithmetic::div_mod::lemma_fundamental_div_mod(samples.len() as int, from);
    lemma_whole_frames(samples.len() as int, from);
    assert(frames * from == samples.len()) by (nonlinear_arith)
        requires
            samples.len() == from * frames,
    ;
    assert(frames * to >= 0) by (nonlinear_arith)
        requires
            frames >= 0,
            to > 0,
    ;
    vstd::arithmetic::div_mod::lemma_mod_multiples_basic(frames, to);
}

/// Spreading mono over several channels and taking the first channel again gives back the mono audio.
pub proof fn mono_survives_spreading<T>(samples: Seq<T>, to: int, silence: T)
    requires
        to > 1,
    ensures
        map_channels_spec(map_channels_spec(samples, 1, to, silence), to, 1, silence) == samples,
{
    let wide = map_channels_spec(samples, 1, to, silence);
    assert(wide.len() == samples.len() * to) by {
        assert(samples.len() as int / 1 == samples.len());
        assert(samples.len() * to >= 0) by (nonlinear_arith)
            requires
                to > 1,
        ;
    }
    vstd::arithmetic::div_mod::lemma_div_multiples_vanish(samples.len() as int, to);
    assert(to * samples.len() == samples.len() * to) by (nonlinear_arith);
    let back = map_channels_spec(wide, to, 1, silence);
    assert forall|k: int| 0 <= k < samples.len() implies back[k] == samples[k] by {
        crate::frames::lemma_at(k, 0, to);
        lemma_at_bound(k, 0, to, samples.len() as int);
        assert(k / 1 == k && k % 1 == 0);
    }
    assert(back =~= samples);
}

// ---- resampling block by block ----

/// The frames handed to a resampler at a time.
pub const CHUNK: usize = 2048;

/// What to hand to the resampler next, one block per channel.
pub enum Feed<T> {
    /// A whole block.
    Full(Vec<Vec<T>>),
    /// What is left at the end.
    Partial(Vec<Vec<T>>),
    Done,
}

/// The part of every channel that is handed out at `at`: a whole block, or the rest.
pub open spec fn handed<T>(planar: Seq<Seq<T>>, frames: int, at: int) -> Seq<Seq<T>> {
    if frames - at >= CHUNK {
        planar.map_values(|x: Seq<T>| x.subrange(at, at + CHUNK))
    } else {
        planar.map_values(|x: Seq<T>| x.skip(at))
    }
}

/// The frames handed out after that.
pub open spec fn fed_after(frames: int, at: int) -> int {
    if frames - at >= CHUNK {
        at + CHUNK
    } else {
        frames
    }
}

/// What is handed out from `at` on, block after block.
pub open spec fn all_handed<T>(planar: Seq<Seq<T>>, frames: int, at: int) -> Seq<Seq<Seq<T>>>
    decreases frames - at,
{
    if at >= frames {
        Seq::empty()
    } else {
        seq![handed(planar, frames, at)] + all_handed(planar, frames, fed_after(frames, at))
    }
}

/// A conversion of a whole piece of audio.
pub struct ResampleRun<T> {
    planar: Vec<Vec<T>>,
    out: Vec<Vec<T>>,
    pos: usize,
    frames: usize,
}

impl<T: Copy> ResampleRun<T> {
    /// The channels of the original.
    pub closed spec fn planar(&self) -> Seq<Seq<T>> {
        nested(self.planar@)
    }

    /// What the resampler has given so far for each channel.
    pub closed spec fn produced(&self) -> Seq<Seq<T>> {
        nested(self.out@)
    }

    /// The frames handed out so far.
    pub closed spec fn fed(&self) -> int {
        self.pos as int
    }

    /// The whole frames of the original.
    pub closed spec fn frames(&self) -> int {
        self.frames as int
    }

    /// Every channel has at least the whole frames, and no more were handed out than there are.
    pub open spec fn wf(&self) -> bool {
        &&& 0 <= self.fed() <= self.frames()
        &&& self.produced().len() == self.planar().len()
        &&& forall|c: int| 0 <= c < self.planar().len() ==> (#[trigger] self.planar()[c]).len() >= self.frames()
    }

    /// Prepares a conversion of interleaved audio.
    pub fn new(samples: &[T], channels: usize) -> (r: Self)
        requires
            channels > 0,
        ensures
            r.wf(),
            r.planar() == planar_of(samples@, channels as int),
            r.produced() == Seq::new(channels as nat, |c: int| Seq::<T>::empty()),
            r.fed() == 0,
            r.frames() == samples@.len() as int / channels as int,
    {
        let frames = samples.len() / channels;
        let planar = deinterleave(samples, channels);
        let mut out: Vec<Vec<T>> = Vec::new();
        for c in 0..channels
            invariant
                out@.len() == c,
                forall|j: int| 0 <= j < c ==> (#[trigger] out@[j])@ == Seq::<T>::empty(),
        {
            out.push(Vec::new());
        }
        let r = ResampleRun { planar, out, pos: 0, frames };
        proof {
            assert(r.produced() =~= Seq::new(channels as nat, |c: int| Seq::<T>::empty()));
            lemma_whole_frames(samples@.len() as int, channels as int);
            assert forall|c: int| 0 <= c < r.planar().len() implies (#[trigger] r.planar()[c]).len() >= frames by {
                lemma_channel_len(samples@.len() as int, c, channels as int, 0);
                if frames > 0 {
                    lemma_at_bound(frames - 1, c, channels as int, frames as int);
                    lemma_channel_len(samples@.len() as int, c, channels as int, frames - 1);
                }
            }
        }
        r
    }

    /// The part of every channel from `from` to `to` (`None`: to its end).
    fn cut(&self, from: usize, to: Option<usize>) -> (block: Vec<Vec<T>>)
        requires
            self.wf(),
            from <= self.frames(),
            to matches Some(t) ==> from <= t <= self.frames(),
        ensures
            nested(block@) == self.planar().map_values(
                |x: Seq<T>|
                    match to {
                        Some(t) => x.subrange(from as int, t as int),
                        None => x.skip(from as int),
                    },
            ),
    {
        let mut block: Vec<Vec<T>> = Vec::new();
        for c in 0..self.planar.len()
            invariant
                self.wf(),
                from <= self.frames(),
                to matches Some(t) ==> from <= t <= self.frames(),
                block@.len() == c,
                forall|j: int|
                    0 <= j < c ==> (#[trigger] block@[j])@ == (match to {
                        Some(t) => self.planar@[j]@.subrange(from as int, t as int),
                        None => self.planar@[j]@.skip(from as int),
                    }),
        {
            assert(self.planar()[c as int] == self.planar@[c as int]@);
            let end = match to {
                Some(t) => t,
                None => self.planar[c].len(),
            };
            let mut one: Vec<T> = Vec::new();
            let mut i: usize = from;
            while i < end
                invariant
                    c < self.planar@.len(),
                    from <= i <= end <= self.planar@[c as int]@.len(),
                    one@ == self.planar@[c as int]@.subrange(from as int, i as int),
                decreases end - i,
            {
                one.push(self.planar[c][i]);
                i += 1;
                assert(self.planar@[c as int]@.subrange(from as int, i as int) =~= self.planar@[c as int]@.subrange(
                    from as int,
                    i - 1,
                ).push(self.planar@[c as int]@[i - 1]));
            }
            assert(self.planar@[c as int]@.skip(from as int) =~= self.planar@[c as int]@.subrange(
                from as int,
                self.planar@[c as int]@.len() as int,
            ));
            block.push(one);
        }
        assert(nested(block@) =~= self.planar().map_values(
            |x: Seq<T>|
                match to {
                    Some(t) => x.subrange(from as int, t as int),
                    None => x.skip(from as int),
                },
        ));
        block
    }

    /// What to hand to the resampler next: whole blocks as long as there are any, then the rest.
    pub fn next_feed(&mut self) -> (f: Feed<T>)
        requires
            old(self).wf(),
        ensures
            final(self).wf(),
            final(self).planar() == old(self).planar(),
            final(self).produced() == old(self).produced(),
            final(self).frames() == old(self).frames(),
            ({
                let at = old(self).fed();
                let left = old(self).frames() - at;
                match f {
                    Feed::Full(b) => {
                        &&& left >= CHUNK
                        &&& nested(b@) == handed(old(self).planar(), old(self).frames(), at)
                        &&& final(self).fed() == fed_after(old(self).frames(), at)
                    },
                    Feed::Partial(b) => {
                        &&& 0 < left < CHUNK
                        &&& nested(b@) == handed(old(self).planar(), old(self).frames(), at)
                        &&& final(self).fed() == fed_after(old(self).frames(), at)
                    },
                    Feed::Done => left == 0 && final(self).fed() == at,
                }
            }),
    {
        let at = self.pos;
        let left = self.frames - at;
        if left >= CHUNK {
            let b = self.cut(at, Some(at + CHUNK));
            self.pos = at + CHUNK;
            proof {
                assert(nested(b@) =~= old(self).planar().map_values(
                    |x: Seq<T>| x.subrange(at as int, at + CHUNK),
                ));
            }
            Feed::Full(b)
        } else if left > 0 {
            let b = self.cut(at, None);
            self.pos = self.frames;
            proof {
                assert(nested(b@) =~= old(self).planar().map_values(|x: Seq<T>| x.skip(at as int)));
            }
            Feed::Partial(b)
        } else {
            Feed::Done
        }
    }

    /// Takes in what the resampler gave for a block.
    pub fn accept(&mut self, given: Vec<Vec<T>>)
        requires
            old(self).wf(),
        ensures
            final(self).wf(),
            final(self).planar() == old(self).planar(),
            final(self).frames() == old(self).frames(),
            final(self).fed() == old(self).fed(),
            final(self).produced() == Seq::new(
                old(self).produced().len(),
                |c: int|
                    if c < given@.len() {
                        old(self).produced()[c] + given@[c]@
                    } else {
                        old(self).produced()[c]
                    },
            ),
    {
        let mut done: Vec<Vec<T>> = Vec::new();
        for c in 0..self.out.len()
            invariant
                *self == *old(self),
                done@.len() == c,
                forall|j: int|
                    0 <= j < c ==> (#[trigger] done@[j])@ == (if j < given@.len() {
                        old(self).out@[j]@ + given@[j]@
                    } else {
                        old(self).out@[j]@
                    }),
        {
            let mut one: Vec<T> = Vec::new();
            let have = self.out[c].len();
            for i in 0..have
                invariant
                    c < self.out@.len(),
                    have == self.out@[c as int]@.len(),
                    one@ == self.out@[c as int]@.take(i as int),
            {
                one.push(self.out[c][i]);
            }
            assert(one@ =~= self.out@[c as int]@);
            if c < given.len() {
                let more = given[c].len();
                for i in 0..more
                    invariant
                        c < given@.len(),
                        more == given@[c as int]@.len(),
                        c < self.out@.len(),
                        one@ == self.out@[c as int]@ + given@[c as int]@.take(i as int),
                {
                    one.push(given[c][i]);
                }
                assert(one@ =~= self.out@[c as int]@ + given@[c as int]@);
            }
            done.push(one);
        }
        self.out = done;
        assert(self.produced() =~= Seq::new(
            old(self).produced().len(),
            |c: int|
                if c < given@.len() {
                    old(self).produced()[c] + given@[c]@
                } else {
                    old(self).produced()[c]
                },
        ));
    }

    /// Joins the channels again, cut off at `want` frames (at least one): the filter leaves a tail.
    pub fn finish(&self, want: usize) -> (samples: Vec<T>)
        requires
            self.wf(),
            self.produced().len() > 0,
            forall|c: int|
                0 <= c < self.produced().len() ==> (#[trigger] self.produced()[c]).len()
                    >= self.produced()[0].len(),
        ensures
            ({
                let most = if want == 0 {
                    1
                } else {
                    want as int
                };
                let have = self.produced()[0].len() as int;
                samples@ == interleaved(
                    self.produced(),
                    if have < most {
                        have
                    } else {
                        most
                    },
                )
            }),
    {
        assert(self.produced()[0] == self.out@[0]@);
        let have = self.out[0].len();
        let most = if want == 0 {
            1
        } else {
            want
        };
        let n = if have < most {
            have
        } else {
            most
        };
        assert forall|c: int| 0 <= c < self.out@.len() implies (#[trigger] self.out@[c])@.len() >= n by {
            assert(self.produced()[c] == self.out@[c]@);
        }
        interleave(&self.out, n)
    }
}

// ---- playing a finished piece ----

/// A configuration that a device offers.
#[derive(Debug, Clone, Copy, PartialEq, Eq, Structural)]
pub struct OutputRange {
    pub channels: u16,
    pub min_rate: u32,
    pub max_rate: u32,
    /// The sample format is that of the device's default.
    pub default_format: bool,
}

impl OutputRange {
    /// The configuration plays this rate with this many channels as it is.
    pub open spec fn plays(self, channels: u16, rate: u32) -> bool {
        self.channels == channels && self.min_rate <= rate <= self.max_rate && self.default_format
    }
}

/// One of the configurations plays this rate with this many channels as it is.
pub open spec fn is_offered(offers: Seq<OutputRange>, channels: u16, rate: u32) -> bool {
    exists|i: int| 0 <= i < offers.len() && (#[trigger] offers[i]).plays(channels, rate)
}

/// The rate at which to run a device: that of the audio if the device plays it as it is, else its default.
pub fn device_rate(offers: &[OutputRange], channels: u16, default_rate: u32, rate: u32) -> (r: u32)
    ensures
        r == (if is_offered(offers@, channels, rate) {
            rate
        } else {
            default_rate
        }),
{
    for i in 0..offers.len()
        invariant
            forall|j: int| 0 <= j < i ==> !(#[trigger] offers@[j]).plays(channels, rate),
    {
        let o = offers[i];
        if o.channels == channels && o.min_rate <= rate && rate <= o.max_rate && o.default_format {
            assert(offers@[i as int].plays(channels, rate));
            return rate;
        }
    }
    default_rate
}

/// `n` frames of `data` from frame `start` on, with silence after the end.
pub open spec fn padded<T>(data: Seq<T>, start: int, n: int, channels: int, silence: T) -> Seq<T> {
    Seq::new(
        (n * channels) as nat,
        |k: int|
            if start * channels + k < data.len() {
                data[start * channels + k]
            } else {
                silence
            },
    )
}

/// `n` frames of `data` from frame `start` on, with silence after the end.
pub fn fill_frames<T: Copy>(data: &[T], start: usize, n: usize, channels: usize, silence: T) -> (out: Vec<T>)
    requires
        (start + n) * channels <= usize::MAX,
    ensures
        out@ == padded(data@, start as int, n as int, channels as int, silence),
{
    let mut out: Vec<T> = Vec::new();
    assert(0 <= start * channels && 0 <= n * channels && start * channels + n * channels == (start + n) * channels)
        by (nonlinear_arith)
        requires
            0 <= start,
            0 <= n,
            0 <= channels,
    ;
    let first = start * channels;
    let count = n * channels;
    for k in 0..count
        invariant
            first == start * channels,
            count == n * channels,
            first + count <= usize::MAX,
            out@.len() == k,
            forall|j: int|
                0 <= j < k ==> out@[j] == padded(data@, start as int, n as int, channels as int, silence)[j],
    {
        let s = if first + k < data.len() {
            data[first + k]
        } else {
            silence
        };
        out.push(s);
    }
    assert(out@ =~= padded(data@, start as int, n as int, channels as int, silence));
    out
}

/// The blocks handed out are together every channel from its first frame to its last: put together they are
/// the channel. What a channel has beyond the last whole frame goes with the rest, if there is a rest.
pub proof fn every_frame_is_handed_out_once<T>(planar: Seq<Seq<T>>, frames: int, c: int)
    requires
        0 <= frames <= planar[c].len(),
        0 <= c < planar.len(),
    ensures
        all_handed(planar, frames, 0).map_values(|b: Seq<Seq<T>>| b[c]).flatten() == (if frames % (CHUNK as int)
            == 0 {
            planar[c].take(frames)
        } else {
            planar[c]
        }),
        planar[c].len() == frames ==> all_handed(planar, frames, 0).map_values(
            |b: Seq<Seq<T>>| b[c],
        ).flatten() == planar[c],
{
    lemma_handed_from(planar, frames, c, 0);
    assert(planar[c].skip(0) =~= planar[c]);
    assert(planar[c].subrange(0, frames) =~= planar[c].take(frames));
    if planar[c].len() == frames {
        assert(planar[c].take(frames) =~= planar[c]);
    }
}

/// The blocks handed out from `at` on.
proof fn lemma_handed_from<T>(planar: Seq<Seq<T>>, frames: int, c: int, at: int)
    requires
        0 <= at <= frames <= planar[c].len(),
        0 <= c < planar.len(),
    ensures
        all_handed(planar, frames, at).map_values(|b: Seq<Seq<T>>| b[c]).flatten() == (if (frames - at)
            % (CHUNK as int) == 0 {
            planar[c].subrange(at, frames)
        } else {
            planar[c].skip(at)
        }),
    decreases frames - at,
{
    let pick = |b: Seq<Seq<T>>| b[c];
    let blocks = all_handed(planar, frames, at);
    let parts = blocks.map_values(pick);
    if at < frames {
        let next = fed_after(frames, at);
        let rest = all_handed(planar, frames, next);
        lemma_handed_from(planar, frames, c, next);
        assert(parts.drop_first() =~= rest.map_values(pick));
        assert(parts.first() == handed(planar, frames, at)[c]);
        if frames - at >= CHUNK {
            assert((frames - at) % (CHUNK as int) == (frames - next) % (CHUNK as int));
            assert(planar[c].subrange(at, next) + planar[c].subrange(next, frames) =~= planar[c].subrange(at, frames));
            assert(planar[c].subrange(at, next) + planar[c].skip(next) =~= planar[c].skip(at));
        } else {
            assert(rest.len() == 0);
            assert(planar[c].subrange(frames, frames) =~= Seq::<T>::empty());
            assert(parts.drop_first().flatten() =~= Seq::<T>::empty());
            assert(parts.flatten() =~= planar[c].skip(at));
        }
    } else {
        assert(parts.flatten() =~= Seq::<T>::empty());
        assert(planar[c].subrange(at, frames) =~= Seq::<T>::empty());
    }
}

// ---- what holds of every conversion ----

/// A ratio is found exactly if one of the numbers from 2 to 32 takes `from` to `to`.
pub proof fn a_whole_ratio_is_always_found(from: u32, to: u32, l: int, r: Option<usize>)
    requires
        call_ensures(integer_ratio, (from, to), r),
        from > 0,
    ensures
        r matches Some(x) ==> 2 <= x <= 32 && x * from == to,
        2 <= l <= 32 && l * from == to ==> r == Some(l as usize),
{
    integer_ratio_is_exact(from, to);
    if 2 <= l <= 32 && l * from == to {
        assert(to > from) by (nonlinear_arith)
            requires
                l >= 2,
                l * from == to,
                from > 0,
        ;
        vstd::arithmetic::div_mod::lemma_mod_multiples_basic(l, from as int);
        vstd::arithmetic::div_mod::lemma_div_multiples_vanish(l, from as int);
        assert(l * from == from * l) by (nonlinear_arith);
    }
}

/// No conversion is left out unless the two rates are equal, and what is converted comes out at the rate asked
/// for: a polyphase filter is used exactly if it takes `from` to `to` by a whole number from 2 to 32, and
/// in every other case the audio is resampled.
pub proof fn nothing_but_equal_rates_goes_unconverted(from: u32, to: u32, f: ResampleFilter, l: int, c: Conversion)
    requires
        call_ensures(conversion, (from, to, f), c),
    ensures
        c is Same <==> from == to,
        c matches Conversion::Poly { ratio, .. } ==> 2 <= ratio <= 32 && ratio * from == to,
        from > 0 && 2 <= l <= 32 && l * from == to ==> (c matches Conversion::Poly { ratio, .. } && ratio == l),
        from != to && !(c is Poly) ==> c is Sinc,
{
    integer_ratio_is_exact(from, to);
    if from > 0 && 2 <= l <= 32 && l * from == to {
        assert(to > from) by (nonlinear_arith)
            requires
                l >= 2,
                l * from == to,
                from > 0,
        ;
        vstd::arithmetic::div_mod::lemma_mod_multiples_basic(l, from as int);
        vstd::arithmetic::div_mod::lemma_div_multiples_vanish(l, from as int);
        assert(l * from == from * l) by (nonlinear_arith);
    }
}

/// Every conversion with a filter has the cutoff and the length that the filter is known for: 95 percent, steep at
/// 99 with twice the taps, gentle at 90, or the percentage asked for between 80 and 99.
pub proof fn every_conversion_uses_the_filter_asked_for(from: u32, to: u32, f: ResampleFilter, c: Conversion)
    requires
        call_ensures(conversion, (from, to, f), c),
    ensures
        match c {
            Conversion::Same => true,
            Conversion::Poly { taps, cutoff_pct, .. } => match f {
                ResampleFilter::Standard => taps == 128 && cutoff_pct == 95,
                ResampleFilter::Sharp => taps == 256 && cutoff_pct == 99,
                ResampleFilter::Soft => taps == 96 && cutoff_pct == 90,
                ResampleFilter::Custom(pct) => {
                    &&& taps == 128
                    &&& 80 <= cutoff_pct <= 99
                    &&& cutoff_pct < pct ==> cutoff_pct == 99
                    &&& cutoff_pct > pct ==> cutoff_pct == 80
                },
            },
            Conversion::Sinc(s) => {
                &&& s.oversampling_factor == 256
                &&& s.sinc_len == 512 <==> f is Sharp
                &&& s.sinc_len == 256 <==> !(f is Sharp)
                &&& s.window is Blackman2 <==> f is Soft
                &&& match f {
                    ResampleFilter::Standard => s.cutoff_pct == 95,
                    ResampleFilter::Sharp => s.cutoff_pct == 99,
                    ResampleFilter::Soft => s.cutoff_pct == 90,
                    ResampleFilter::Custom(pct) => {
                        &&& 80 <= s.cutoff_pct <= 99
                        &&& s.cutoff_pct < pct ==> s.cutoff_pct == 99
                        &&& s.cutoff_pct > pct ==> s.cutoff_pct == 80
                    },
                }
            },
        },
{
}

/// Every sample finds its channel. Channel `c` of frame `f` is channel `c` of the same frame of the source, the one
/// channel of a mono source whichever `c` is, and silence where the source has no such channel. With the
/// same number of channels nothing changes.
pub proof fn every_sample_finds_its_channel<T: Copy>(
    samples: &[T],
    from: usize,
    to: usize,
    silence: T,
    out: Vec<T>,
    f: int,
    c: int,
)
    requires
        from > 0,
        call_ensures(map_channels_pub::<T>, (samples, from, to, silence), out),
        0 <= f < samples@.len() as int / from as int,
        0 <= c < to,
    ensures
        from == to ==> out@ == samples@,
        from != to ==> out@.len() == (samples@.len() as int / from as int) * to,
        0 <= f * to + c < out@.len(),
        from == 1 ==> out@[f * to + c] == samples@[f],
        from > 1 && c < from ==> out@[f * to + c] == samples@[f * from + c],
        from > 1 && c >= from ==> out@[f * to + c] == silence,
{
    let frames = samples@.len() as int / from as int;
    lemma_whole_frames(samples@.len() as int, from as int);
    crate::frames::lemma_at(f, c, to as int);
    lemma_at_bound(f, c, to as int, frames);
    if from == to && from == 1 {
        assert(f * to + c == f) by (nonlinear_arith)
            requires
                to == 1,
                c == 0,
        ;
    }
}

/// A device runs at the rate of the audio exactly if it offers that rate, with the channels of the audio and in
/// its default format; otherwise it runs at its default rate.
pub proof fn the_rate_of_the_audio_is_used_where_it_is_offered(
    offers: &[OutputRange],
    channels: u16,
    default_rate: u32,
    rate: u32,
    r: u32,
    i: int,
)
    requires
        call_ensures(device_rate, (offers, channels, default_rate, rate), r),
    ensures
        r == rate || r == default_rate,
        0 <= i < offers@.len() && offers@[i].channels == channels && offers@[i].min_rate <= rate
            <= offers@[i].max_rate && offers@[i].default_format ==> r == rate,
        (forall|j: int|
            0 <= j < offers@.len() ==> (#[trigger] offers@[j]).channels != channels || rate < offers@[j].min_rate
                || rate > offers@[j].max_rate || !offers@[j].default_format) ==> r == default_rate,
{
    if 0 <= i < offers@.len() && offers@[i].channels == channels && offers@[i].min_rate <= rate
        <= offers@[i].max_rate && offers@[i].default_format {
        assert(offers@[i].plays(channels, rate));
    }
}

/// Frames are played in order from `start` on, and after the last sample there is silence.
pub proof fn silence_follows_the_last_sample<T: Copy>(
    data: &[T],
    start: usize,
    n: usize,
    channels: usize,
    silence: T,
    out: Vec<T>,
    k: int,
)
    requires
        call_ensures(fill_frames::<T>, (data, start, n, channels, silence), out),
        0 <= k < n * channels,
    ensures
        out@.len() == n * channels,
        start * channels + k < data@.len() ==> out@[k] == data@[start * channels + k],
        start * channels + k >= data@.len() ==> out@[k] == silence,
{
}

/// A conversion begins with every sample in its place: sample `c` of frame `f` is sample `f` of channel `c`, and nothing has been
/// handed out or given back.
pub proof fn a_conversion_begins_with_every_sample<T: Copy>(
    samples: &[T],
    channels: usize,
    r: ResampleRun<T>,
    f: int,
    c: int,
)
    requires
        channels > 0,
        call_ensures(ResampleRun::<T>::new, (samples, channels), r),
        0 <= f < samples@.len() as int / channels as int,
        0 <= c < channels,
    ensures
        r.planar().len() == channels,
        r.frames() == samples@.len() as int / channels as int,
        f < r.planar()[c].len(),
        r.planar()[c][f] == samples@[f * channels + c],
        r.fed() == 0,
        r.produced().len() == channels && r.produced()[c].len() == 0,
{
    assert(r.planar()[c].len() >= r.frames());
}

/// A block holds the samples of every channel from `at` on, up to `to` or to the end of the channel.
pub open spec fn is_block<T>(b: Seq<Vec<T>>, planar: Seq<Seq<T>>, at: int, to: Option<int>) -> bool {
    &&& b.len() == planar.len()
    &&& forall|c: int|
        0 <= c < planar.len() ==> (#[trigger] b[c])@ == (match to {
            Some(t) => planar[c].subrange(at, t),
            None => planar[c].skip(at),
        })
}

/// The converter gets 2048 frames at a time, in order, and what is left at the end; every channel is handed out from where the
/// last block ended.
pub proof fn a_conversion_takes_blocks_of_2048_frames<T: Copy>()
    ensures
        forall|r: &mut ResampleRun<T>, f: Feed<T>| #[trigger]
            call_ensures(ResampleRun::<T>::next_feed, (r,), f) && (*r).wf() ==> {
                let at = (*r).fed();
                let left = (*r).frames() - at;
                &&& left >= 2048 ==> (f matches Feed::Full(b) && is_block(b@, (*r).planar(), at, Some(at + 2048)))
                &&& 0 < left < 2048 ==> (f matches Feed::Partial(b) && is_block(b@, (*r).planar(), at, None))
                &&& left == 0 ==> f is Done
                &&& left >= 2048 ==> (*final(r)).fed() == at + 2048
                &&& left < 2048 ==> (*final(r)).fed() == (*r).frames()
                &&& (*final(r)).planar() == (*r).planar() && (*final(r)).produced() == (*r).produced()
            },
{
    assert forall|r: &mut ResampleRun<T>, f: Feed<T>| #[trigger]
        call_ensures(ResampleRun::<T>::next_feed, (r,), f) && (*r).wf() implies {
        let at = (*r).fed();
        let left = (*r).frames() - at;
        &&& left >= 2048 ==> (f matches Feed::Full(b) && is_block(b@, (*r).planar(), at, Some(at + 2048)))
        &&& 0 < left < 2048 ==> (f matches Feed::Partial(b) && is_block(b@, (*r).planar(), at, None))
        &&& left == 0 ==> f is Done
        &&& left >= 2048 ==> (*final(r)).fed() == at + 2048
        &&& left < 2048 ==> (*final(r)).fed() == (*r).frames()
        &&& (*final(r)).planar() == (*r).planar() && (*final(r)).produced() == (*r).produced()
    } by {
        let planar = (*r).planar();
        match f {
            Feed::Full(b) => {
                assert(nested(b@).len() == b@.len());
                assert forall|c: int| 0 <= c < planar.len() implies (#[trigger] b@[c])@ == planar[c].subrange(
                    (*r).fed(),
                    (*r).fed() + 2048,
                ) by {
                    assert(nested(b@)[c] == b@[c]@);
                }
            },
            Feed::Partial(b) => {
                assert(nested(b@).len() == b@.len());
                assert forall|c: int| 0 <= c < planar.len() implies (#[trigger] b@[c])@ == planar[c].skip(
                    (*r).fed(),
                ) by {
                    assert(nested(b@)[c] == b@[c]@);
                }
            },
            Feed::Done => {},
        }
    }
}

/// What the converter gives is kept channel by channel, in order.
pub proof fn what_is_converted_is_kept_in_order<T: Copy>()
    ensures
        forall|r: &mut ResampleRun<T>, given: Vec<Vec<T>>, u: (), c: int|
            #![trigger call_ensures(ResampleRun::<T>::accept, (r, given), u), (*r).produced()[c]]
            call_ensures(ResampleRun::<T>::accept, (r, given), u) && 0 <= c < (*r).produced().len() ==> {
                &&& c < given@.len() ==> (*final(r)).produced()[c] == (*r).produced()[c] + given@[c]@
                &&& c >= given@.len() ==> (*final(r)).produced()[c] == (*r).produced()[c]
                &&& (*final(r)).fed() == (*r).fed() && (*final(r)).planar() == (*r).planar()
            },
{
}

/// The converted channels are joined frame by frame, up to the frames that are wanted, or one.
pub proof fn converted_channels_are_joined<T: Copy>(r: &ResampleRun<T>, want: usize, out: Vec<T>, f: int, c: int)
    requires
        call_ensures(ResampleRun::<T>::finish, (r, want), out),
        r.produced().len() > 0,
        0 <= f < r.produced()[0].len(),
        f < want || f == 0,
        0 <= c < r.produced().len(),
    ensures
        want > 0 && want <= r.produced()[0].len() ==> out@.len() == want * r.produced().len(),
        want >= r.produced()[0].len() ==> out@.len() == r.produced()[0].len() * r.produced().len(),
        want == 0 ==> out@.len() == r.produced().len(),
        0 <= f * r.produced().len() + c < out@.len(),
        out@[f * r.produced().len() + c] == r.produced()[c][f],
{
    let n = r.produced().len() as int;
    let have = r.produced()[0].len() as int;
    let most = if want == 0 {
        1
    } else {
        want as int
    };
    let frames = if have < most {
        have
    } else {
        most
    };
    assert(frames * n >= 0 && 1 * n == n) by (nonlinear_arith)
        requires
            frames >= 0,
            n > 0,
    ;
    crate::frames::lemma_at(f, c, n);
    lemma_at_bound(f, c, n, frames);
}

/// The noise mixes by exclusive or: what comes of two numbers together is what comes of each, together. A small number comes out
/// in six places.
pub proof fn noise_is_mixed_by_exclusive_or(x: u64, y: u64, a: u64, b: u64, both: u64)
    requires
        call_ensures(next_noise, (x,), a),
        call_ensures(next_noise, (y,), b),
        call_ensures(next_noise, (x ^ y,), both),
    ensures
        both == a ^ b,
        x < 16 ==> a == x * 8257 * 131_073,
        x == 0 <==> a == 0,
{
    let z = x ^ y;
    assert({
        let p = x ^ (x << 13);
        let q = p ^ (p >> 7);
        let r = y ^ (y << 13);
        let s = r ^ (r >> 7);
        let t = z ^ (z << 13);
        let u = t ^ (t >> 7);
        (u ^ (u << 17)) == (q ^ (q << 17)) ^ (s ^ (s << 17))
    }) by (bit_vector)
        requires
            z == x ^ y,
    ;
    assert(x < 16 ==> ({
        let p = x ^ (x << 13);
        let q = p ^ (p >> 7);
        (q ^ (q << 17)) == x * 8257 * 131_073
    })) by (bit_vector);
    assert(x == 0 ==> ({
        let p = x ^ (x << 13);
        let q = p ^ (p >> 7);
        (q ^ (q << 17)) == 0
    })) by (bit_vector);
}

/// Each error says what went wrong, and then why.
pub proof fn each_error_names_its_cause(e: &OutputError, s: String)
    requires
        call_ensures(OutputError::message, (e,), s),
    ensures
        match *e {
            OutputError::NoDevice => s@ == "出力デバイスがありません"@,
            OutputError::Config(why) => s@ == "デバイスの設定を取得できません: "@ + why@,
            OutputError::Stream(why) => s@ == "再生できません: "@ + why@,
            OutputError::Resample(why) => s@ == "リサンプルに失敗しました: "@ + why@,
        },
{
}

} // verus!
