//! Sources of audio that can be read from any frame on.

use vstd::prelude::*;
use vstd::arithmetic::power2::pow2;
use crate::exclusive::{
    exponent,
    integers_come_back_exactly,
    is_finite,
    is_negative,
    lemma_sample_range,
    quantize,
    quantize_spec,
    significand,
};
use crate::frames::{at, lemma_at, lemma_at_bound, lemma_whole_frames};
use crate::pcm::Pcm;

verus! {

/// A position or a length in time: `frames` frames at `rate_hz` frames per second.
#[derive(Debug, Clone, Copy, PartialEq, Eq, Structural)]
pub struct Progress {
    pub frames: u64,
    pub rate_hz: u32,
}

/// How many of the `frames` frames asked for at `start` there are.
pub open spec fn clipped(start: int, frames: int, total: int) -> int {
    if start >= total {
        0
    } else if frames < total - start {
        frames
    } else {
        total - start
    }
}

/// How many of the `frames` frames asked for at `start` there are.
pub fn clip(start: u64, frames: usize, total: u64) -> (n: usize)
    ensures
        n == clipped(start as int, frames as int, total as int),
{
    if start >= total {
        0
    } else if (frames as u64) < total - start {
        frames
    } else {
        (total - start) as usize
    }
}

/// The samples of up to `frames` frames from frame `start` on, out of `total` frames of `width`
/// samples each.
pub open spec fn part<T>(samples: Seq<T>, width: int, total: int, start: int, frames: int) -> Seq<T> {
    let n = clipped(start, frames, total);
    if n <= 0 {
        Seq::empty()
    } else {
        samples.subrange(start * width, (start + n) * width)
    }
}

/// A source of interleaved audio.
pub trait Source {
    type Sample;

    /// The frames per second.
    spec fn rate(&self) -> u32;

    /// The samples per frame.
    spec fn width(&self) -> int;

    /// The number of frames.
    spec fn total(&self) -> int;

    /// All samples of all frames.
    spec fn samples(&self) -> Seq<Self::Sample>;

    /// What the source is called on the screen.
    spec fn label(&self) -> Seq<char>;

    /// The frames per second.
    fn rate_hz(&self) -> (r: u32)
        ensures
            r == self.rate(),
    ;

    /// The samples per frame.
    fn channels(&self) -> (n: usize)
        ensures
            n == self.width(),
    ;

    /// The number of frames.
    fn total_frames(&self) -> (n: u64)
        ensures
            n == self.total(),
    ;

    /// Up to `frames` frames from frame `start` on; nothing beyond the end.
    fn read(&self, start: u64, frames: usize) -> (out: Vec<Self::Sample>)
        ensures
            out@ == part(self.samples(), self.width(), self.total(), start as int, frames as int),
    ;

    /// What the source is called on the screen.
    fn kind(&self) -> (s: String)
        ensures
            s@ == self.label(),
    ;
}

/// The length of a source in time.
pub fn duration<S: Source>(s: &S) -> (d: Progress)
    ensures
        d.frames == s.total(),
        d.rate_hz == s.rate(),
{
    Progress { frames: s.total_frames(), rate_hz: s.rate_hz() }
}

/// Reading `a` frames and then `b` more gives what reading `a + b` frames at once gives: where the
/// blocks are cut makes no difference.
pub proof fn reads_may_be_cut_anywhere<T>(samples: Seq<T>, width: int, total: int, start: int, a: int, b: int)
    requires
        0 <= start,
        0 <= a,
        0 <= b,
        0 <= width,
        total * width <= samples.len(),
    ensures
        part(samples, width, total, start, a) + part(samples, width, total, start + a, b) == part(
            samples,
            width,
            total,
            start,
            a + b,
        ),
{
    let n1 = clipped(start, a, total);
    let n2 = clipped(start + a, b, total);
    let n = clipped(start, a + b, total);
    if n > 0 {
        assert(0 <= start * width && start * width <= (start + n1) * width && (start + n1) * width <= (start + n)
            * width && (start + n) * width <= total * width) by (nonlinear_arith)
            requires
                0 <= start,
                0 <= n1 <= n,
                start + n <= total,
                0 <= width,
        ;
        assert(n2 > 0 ==> n1 == a);
        assert(n2 <= 0 ==> n1 == n);
    }
    assert(part(samples, width, total, start, a) + part(samples, width, total, start + a, b) =~= part(
        samples,
        width,
        total,
        start,
        a + b,
    ));
}

// ---- decoded audio ----

/// Decoded audio as a source.
pub struct PcmSource<T> {
    pcm: Pcm<T>,
    kind: String,
}

impl<T: Copy> PcmSource<T> {
    /// The audio of the source.
    pub closed spec fn audio(&self) -> Pcm<T> {
        self.pcm
    }

    /// A source for this audio under this name.
    pub fn new(pcm: Pcm<T>, kind: String) -> (s: Self)
        ensures
            s.audio() == pcm,
            s.label() == kind@,
            s.rate() == pcm.sample_rate,
            s.width() == pcm.channels,
            s.total() == pcm.samples@.len() as int / (if pcm.channels == 0 {
                1
            } else {
                pcm.channels as int
            }),
            s.samples() == pcm.samples@,
    {
        PcmSource { pcm, kind }
    }
}

impl<T: Copy> Source for PcmSource<T> {
    type Sample = T;

    closed spec fn rate(&self) -> u32 {
        self.pcm.sample_rate
    }

    closed spec fn width(&self) -> int {
        self.pcm.channels as int
    }

    closed spec fn total(&self) -> int {
        self.pcm.samples@.len() as int / (if self.pcm.channels == 0 {
            1
        } else {
            self.pcm.channels as int
        })
    }

    closed spec fn samples(&self) -> Seq<T> {
        self.pcm.samples@
    }

    closed spec fn label(&self) -> Seq<char> {
        self.kind@
    }

    fn rate_hz(&self) -> (r: u32) {
        self.pcm.sample_rate
    }

    fn channels(&self) -> (n: usize) {
        self.pcm.channels
    }

    fn total_frames(&self) -> (n: u64) {
        if self.pcm.channels == 0 {
            self.pcm.samples.len() as u64
        } else {
            (self.pcm.samples.len() / self.pcm.channels) as u64
        }
    }

    fn read(&self, start: u64, frames: usize) -> (out: Vec<T>) {
        let ch = self.pcm.channels;
        let total = self.total_frames();
        let n = clip(start, frames, total);
        let mut out: Vec<T> = Vec::new();
        if n == 0 {
            assert(out@ =~= part(self.samples(), self.width(), self.total(), start as int, frames as int));
            return out;
        }
        let len = self.pcm.samples.len();
        proof {
            if ch > 0 {
                lemma_whole_frames(len as int, ch as int);
            }
            assert(0 <= start * ch && start * ch <= (start + n) * ch && (start + n) * ch <= len) by (nonlinear_arith)
                requires
                    0 <= start,
                    0 <= n,
                    start + n <= total,
                    total * ch <= len,
                    0 <= ch,
            ;
        }
        let from = start as usize * ch;
        let to = (start as usize + n) * ch;
        let mut i: usize = from;
        while i < to
            invariant
                from <= i <= to <= len == self.pcm.samples@.len(),
                out@ == self.pcm.samples@.subrange(from as int, i as int),
            decreases to - i,
        {
            out.push(self.pcm.samples[i]);
            i += 1;
            assert(self.pcm.samples@.subrange(from as int, i as int) =~= self.pcm.samples@.subrange(
                from as int,
                i - 1,
            ).push(self.pcm.samples@[i - 1]));
        }
        out
    }

    fn kind(&self) -> (s: String) {
        self.kind.clone()
    }
}

// ---- DSD over PCM ----

/// A DSD recording: the bits of each channel, eight to a byte.
#[derive(Debug, Clone, PartialEq)]
pub struct DsdStream {
    /// The bits per second and channel.
    pub rate_hz: u32,
    pub channels: Vec<Vec<u8>>,
    /// The bits per channel that belong to the recording.
    pub sample_bits: u64,
}

/// The byte of DSD silence.
pub const DSD_IDLE: u8 = 0x69;

/// Two bytes of DSD silence. Gaps in playback (pause, seek, dropout) are filled with it.
pub const DOP_IDLE_PAYLOAD: u16 = 0x6969;

/// Byte `i` of a channel, or silence after its end.
pub open spec fn dsd_byte(bytes: Seq<u8>, i: int) -> u8 {
    if i < bytes.len() {
        bytes[i]
    } else {
        DSD_IDLE
    }
}

/// The two bytes of frame `idx` of a channel, the earlier one in the upper half.
pub open spec fn payload_of(bytes: Seq<u8>, idx: int) -> u16 {
    (dsd_byte(bytes, 2 * idx) * 256 + dsd_byte(bytes, 2 * idx + 1)) as u16
}

/// The signed 24-bit word that carries a payload: the marker 0x05 or 0xFA on top of it.
pub open spec fn dop_word_spec(marker_even: bool, payload: u16) -> int {
    if marker_even {
        0x05_0000 + payload
    } else {
        0xFA_0000 + payload - 0x100_0000
    }
}

/// The signed 24-bit word that carries a payload. The markers 0x05 and 0xFA take turns from frame to
/// frame; whoever sends the words keeps track of whose turn it is.
pub fn dop_word(marker_even: bool, payload: u16) -> (w: i32)
    ensures
        w == dop_word_spec(marker_even, payload),
        -0x80_0000 <= w < 0x80_0000,
{
    if marker_even {
        0x05_0000 + payload as i32
    } else {
        0xFA_0000 + payload as i32 - 0x100_0000
    }
}

/// A DSD recording as the payloads of DSD over PCM, without the markers.
pub struct DopSource {
    stream: DsdStream,
}

/// The number of frames that the first channel fills, the last one perhaps by half.
pub open spec fn dop_frames(channels: Seq<Vec<u8>>) -> int {
    if channels.len() == 0 {
        0
    } else {
        (channels[0]@.len() as int + 1) / 2
    }
}

impl DopSource {
    /// The recording behind the source.
    pub closed spec fn recording(&self) -> DsdStream {
        self.stream
    }

    /// A source for this recording.
    pub fn new(stream: DsdStream) -> (s: Self)
        ensures
            s.recording() == stream,
            s.rate() == stream.rate_hz / 16,
            s.width() == stream.channels@.len(),
            s.total() == dop_frames(stream.channels@),
            s.samples() == Seq::new(
                (dop_frames(stream.channels@) * stream.channels@.len()) as nat,
                |k: int|
                    payload_of(
                        stream.channels@[k % stream.channels@.len() as int]@,
                        k / stream.channels@.len() as int,
                    ),
            ),
            s.label() == "DoP"@,
    {
        DopSource { stream }
    }

    /// The payload of frame `idx` of channel `c`; after the end it is silence.
    pub fn payload(&self, c: usize, idx: usize) -> (p: u16)
        requires
            c < self.recording().channels@.len(),
            2 * idx + 1 <= usize::MAX,
        ensures
            p == payload_of(self.recording().channels@[c as int]@, idx as int),
    {
        let bytes = &self.stream.channels[c];
        let b0: u16 = if 2 * idx < bytes.len() {
            bytes[2 * idx] as u16
        } else {
            DSD_IDLE as u16
        };
        let b1: u16 = if 2 * idx + 1 < bytes.len() {
            bytes[2 * idx + 1] as u16
        } else {
            DSD_IDLE as u16
        };
        b0 * 256 + b1
    }
}

impl Source for DopSource {
    type Sample = u16;

    closed spec fn rate(&self) -> u32 {
        self.stream.rate_hz / 16
    }

    closed spec fn width(&self) -> int {
        self.stream.channels@.len() as int
    }

    closed spec fn total(&self) -> int {
        dop_frames(self.stream.channels@)
    }

    closed spec fn samples(&self) -> Seq<u16> {
        Seq::new(
            (dop_frames(self.stream.channels@) * self.stream.channels@.len()) as nat,
            |k: int|
                payload_of(
                    self.stream.channels@[k % self.stream.channels@.len() as int]@,
                    k / self.stream.channels@.len() as int,
                ),
        )
    }

    closed spec fn label(&self) -> Seq<char> {
        "DoP"@
    }

    fn rate_hz(&self) -> (r: u32) {
        self.stream.rate_hz / 16
    }

    fn channels(&self) -> (n: usize) {
        self.stream.channels.len()
    }

    fn total_frames(&self) -> (n: u64) {
        if self.stream.channels.len() == 0 {
            0
        } else {
            let len = self.stream.channels[0].len();
            (len / 2 + len % 2) as u64
        }
    }

    fn read(&self, start: u64, frames: usize) -> (out: Vec<u16>) {
        let total = self.total_frames();
        let n = clip(start, frames, total);
        let ch = self.stream.channels.len();
        let mut out: Vec<u16> = Vec::new();
        if n == 0 {
            assert(out@ =~= part(self.samples(), self.width(), self.total(), start as int, frames as int));
            return out;
        }
        let first = start as usize;
        let len = self.stream.channels[0].len();
        let ghost all = self.samples();
        assert(0 * ch == 0);
        assert(first * ch <= (first + n) * ch && (first + n) * ch <= total * ch && 0 <= first * ch) by (nonlinear_arith)
            requires
                0 <= first,
                0 <= n,
                first + n <= total,
                0 <= ch,
        ;
        for f in 0..n
            invariant
                ch == self.stream.channels@.len(),
                ch > 0,
                len == self.stream.channels@[0]@.len(),
                total == self.total(),
                total == (len + 1) as int / 2,
                first + n <= total,
                first == start,
                all == self.samples(),
                all.len() == total * ch,
                out@.len() == f * ch,
                forall|k: int| 0 <= k < out@.len() ==> out@[k] == all[first * ch + k],
        {
            for c in 0..ch
                invariant
                    ch == self.stream.channels@.len(),
                    ch > 0,
                    f < n,
                    len == self.stream.channels@[0]@.len(),
                    total == self.total(),
                    total == (len + 1) as int / 2,
                    first + n <= total,
                    all == self.samples(),
                    all.len() == total * ch,
                    out@.len() == f * ch + c,
                    forall|k: int| 0 <= k < out@.len() ==> out@[k] == all[first * ch + k],
            {
                proof {
                    lemma_at(first + f, c as int, ch as int);
                    lemma_at_bound(first + f, c as int, ch as int, total as int);
                    assert(first * ch + (f * ch + c) == at(first + f, c as int, ch as int)) by (nonlinear_arith)
                        requires
                            at(first + f, c as int, ch as int) == (first + f) * ch + c,
                    ;
                }
                out.push(self.payload(c, first + f));
            }
            assert((f + 1) * ch == f * ch + ch) by (nonlinear_arith);
        }
        assert((first + n) * ch - first * ch == n * ch) by (nonlinear_arith);
        assert(out@ =~= part(self.samples(), self.width(), self.total(), start as int, frames as int));
        out
    }

    fn kind(&self) -> (s: String) {
        "DoP".to_owned()
    }
}

/// What a DoP word carries can be read back: the low 16 bits are the payload, and the marker above
/// them tells whose turn it was.
pub proof fn dop_words_carry_their_payload(marker_even: bool, payload: u16)
    ensures
        dop_word_spec(marker_even, payload) % 65536 == payload,
        (dop_word_spec(marker_even, payload) / 65536) % 256 == (if marker_even {
            0x05int
        } else {
            0xFAint
        }),
{
}

/// The payload in a binary32 sample, given by its bit pattern: payloads travel as fractions of 65536, and a
/// number outside that range gives the nearest payload.
pub fn dop_payload_from_f32(pattern: u32) -> (p: u16)
    ensures
        p == (if quantize_spec(pattern, 17) < 0 {
            0
        } else {
            quantize_spec(pattern, 17)
        }),
{
    let v = quantize(pattern, 17);
    proof {
        lemma_sample_range(pattern, 17);
        vstd::arithmetic::power2::lemma2_to64();
    }
    if v < 0 {
        0
    } else {
        v as u16
    }
}

/// Every payload comes back exactly: the binary32 number for `payload` out of 65536 gives `payload` again.
pub proof fn payloads_come_back_exactly(pattern: u32, payload: u16)
    requires
        is_finite(pattern),
        !is_negative(pattern),
        significand(pattern) * pow2((exponent(pattern) + 149) as nat) == payload * pow2(133),
    ensures
        quantize_spec(pattern, 17) == payload,
{
    vstd::arithmetic::power2::lemma2_to64();
    integers_come_back_exactly(pattern, payload as int, 17);
}

/// What is read is what there is: the frames from `start` on, in order, as many as were asked for or as there are.
pub proof fn what_is_read_is_what_there_is<T>(
    samples: Seq<T>,
    width: int,
    total: int,
    start: int,
    frames: int,
    k: int,
)
    requires
        0 <= start,
        0 <= frames,
        0 <= width,
        0 <= total,
        samples.len() == total * width,
    ensures
        start + frames <= total ==> part(samples, width, total, start, frames).len() == frames * width,
        start <= total < start + frames ==> part(samples, width, total, start, frames).len() == (total - start) * width,
        start >= total ==> part(samples, width, total, start, frames).len() == 0,
        0 <= k < part(samples, width, total, start, frames).len() ==> start * width + k < samples.len() && part(
            samples,
            width,
            total,
            start,
            frames,
        )[k] == samples[start * width + k],
{
    let n = clipped(start, frames, total);
    assert(0 <= start * width && start * width + n * width == (start + n) * width && 0 * width == 0)
        by (nonlinear_arith)
        requires
            0 <= start,
            0 <= width,
    ;
    if n > 0 {
        assert((start + n) * width <= total * width && start * width <= (start + n) * width) by (nonlinear_arith)
            requires
                start + n <= total,
                0 <= width,
                0 <= n,
        ;
    }
    if frames == 0 && start + frames <= total {
        assert(frames * width == 0) by (nonlinear_arith)
            requires
                frames == 0,
        ;
    }
}

/// Decoded audio is a source of just this audio: its rate, its channels, and its whole frames.
pub proof fn decoded_audio_is_a_source_of_itself<T: Copy>(pcm: Pcm<T>, kind: String, s: PcmSource<T>)
    requires
        call_ensures(PcmSource::<T>::new, (pcm, kind), s),
        pcm.channels > 0,
    ensures
        s.rate() == pcm.sample_rate,
        s.width() == pcm.channels,
        s.samples() == pcm.samples@,
        s.label() == kind@,
        s.total() * pcm.channels <= pcm.samples@.len() < (s.total() + 1) * pcm.channels,
{
    lemma_whole_frames(pcm.samples@.len() as int, pcm.channels as int);
}

/// DSD as a source keeps every byte in order: frame `f` of channel `c` carries bytes `2 f` and `2 f + 1` of the channel,
/// the earlier one on top, and the silence of DSD after its end. It runs at a sixteenth of the rate.
pub proof fn dsd_is_carried_byte_by_byte(stream: DsdStream, s: DopSource, f: int, c: int)
    requires
        call_ensures(DopSource::new, (stream,), s),
        0 <= c < stream.channels@.len(),
        0 <= f < s.total(),
    ensures
        s.rate() == stream.rate_hz / 16,
        s.width() == stream.channels@.len(),
        stream.channels@[0]@.len() <= 2 * s.total() <= stream.channels@[0]@.len() + 1,
        s.samples().len() == s.total() * s.width(),
        ({
            let bytes = stream.channels@[c]@;
            let p = s.samples()[f * s.width() + c] as int;
            &&& 2 * f < bytes.len() ==> p / 256 == bytes[2 * f]
            &&& 2 * f >= bytes.len() ==> p / 256 == 0x69
            &&& 2 * f + 1 < bytes.len() ==> p % 256 == bytes[2 * f + 1]
            &&& 2 * f + 1 >= bytes.len() ==> p % 256 == 0x69
        }),
{
    let ch = stream.channels@.len() as int;
    lemma_at(f, c, ch);
    lemma_at_bound(f, c, ch, s.total());
    assert(s.total() * ch >= 0) by (nonlinear_arith)
        requires
            s.total() >= 0,
            ch >= 0,
    ;
}

/// A source is as long as its frames last at its rate, and goes by the name it was given; DSD over PCM is called `DoP` and has a
/// sixteenth of the rate of the recording.
pub proof fn a_source_goes_by_its_name<T: Copy>(
    pcm: Pcm<T>,
    kind: String,
    s: PcmSource<T>,
    d: Progress,
    stream: DsdStream,
    dop: DopSource,
    e: Progress,
)
    requires
        call_ensures(PcmSource::<T>::new, (pcm, kind), s),
        call_ensures(duration::<PcmSource<T>>, (&s,), d),
        call_ensures(DopSource::new, (stream,), dop),
        call_ensures(duration::<DopSource>, (&dop,), e),
    ensures
        s.label() == kind@,
        d.rate_hz == pcm.sample_rate,
        pcm.channels > 0 ==> d.frames == pcm.samples@.len() as int / pcm.channels as int,
        dop.label() == "DoP"@,
        e.rate_hz == stream.rate_hz / 16,
        stream.channels@.len() > 0 ==> 2 * e.frames - 1 <= stream.channels@[0]@.len() <= 2 * e.frames,
{
}

} // verus!
