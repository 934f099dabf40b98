//! Interleaved audio: `channels` samples of one moment follow each other and make one frame.
//!
//! The sample type is left open: nothing here looks inside a sample.

use vstd::prelude::*;

verus! {

/// The position of channel `c` in frame `f`.
pub open spec fn at(f: int, c: int, channels: int) -> int {
    f * channels + c
}

/// A position in interleaved audio determines its frame and its channel.
pub proof fn lemma_at(f: int, c: int, channels: int)
    requires
        0 <= f,
        0 <= c < channels,
    ensures
        at(f, c, channels) / channels == f,
        at(f, c, channels) % channels == c,
        at(f, c, channels) >= 0,
{
    vstd::arithmetic::div_mod::lemma_fundamental_div_mod_converse(at(f, c, channels), channels, f, c);
    assert(f * channels >= 0) by (nonlinear_arith)
        requires
            f >= 0,
            channels > 0,
    ;
}

/// Every channel of a frame below `frames` lies below `frames * channels`.
pub proof fn lemma_at_bound(f: int, c: int, channels: int, frames: int)
    requires
        0 <= f < frames,
        0 <= c < channels,
    ensures
        0 <= at(f, c, channels) < frames * channels,
        at(f, c, channels) + 1 <= (f + 1) * channels <= frames * channels,
{
    assert(0 <= f * channels + c && f * channels + c + 1 <= (f + 1) * channels && (f + 1) * channels <= frames
        * channels) by (nonlinear_arith)
        requires
            0 <= f < frames,
            0 <= c < channels,
    ;
}

/// The whole frames in `len` samples fit into `len` samples.
pub proof fn lemma_whole_frames(len: int, channels: int)
    requires
        0 <= len,
        0 < channels,
    ensures
        0 <= (len / channels) * channels <= len,
        len < (len / channels + 1) * channels,
        0 <= len / channels <= len,
{
    vstd::arithmetic::div_mod::lemma_fundamental_div_mod(len, channels);
    vstd::arithmetic::div_mod::lemma_mod_bound(len, channels);
    assert(0 <= (len / channels) * channels <= len && len < (len / channels + 1) * channels && 0 <= len / channels
        <= len) by (nonlinear_arith)
        requires
            len == channels * (len / channels) + len % channels,
            0 <= len % channels < channels,
            0 <= len,
            0 < channels,
    ;
}

/// The frame in which position `k` lies is below `frames`, and its channel below `channels`.
pub proof fn lemma_position(k: int, channels: int, frames: int)
    requires
        0 <= k < frames * channels,
        0 < channels,
    ensures
        0 <= k / channels < frames,
        0 <= k % channels < channels,
        k == at(k / channels, k % channels, channels),
{
    vstd::arithmetic::div_mod::lemma_fundamental_div_mod(k, channels);
    vstd::arithmetic::div_mod::lemma_mod_bound(k, channels);
    assert(0 <= k / channels < frames && k == (k / channels) * channels + k % channels) by (nonlinear_arith)
        requires
            k == channels * (k / channels) + k % channels,
            0 <= k % channels < channels,
            0 <= k < frames * channels,
            0 < channels,
    ;
}

// ---- one channel out of many, and back ----

/// The number of samples that channel `c` has in `len` interleaved samples.
pub open spec fn channel_len(len: int, c: int, channels: int) -> int {
    if c < len {
        (len - c + channels - 1) / channels
    } else {
        0
    }
}

/// The samples of channel `c`: those at `c`, `c + channels`, `c + 2 * channels` and so on.
pub open spec fn channel_of<T>(samples: Seq<T>, c: int, channels: int) -> Seq<T> {
    Seq::new(channel_len(samples.len() as int, c, channels) as nat, |f: int| samples[at(f, c, channels)])
}

/// `f` counts a sample of channel `c` exactly if that sample is there.
pub proof fn lemma_channel_len(len: int, c: int, channels: int, f: int)
    requires
        0 <= len,
        0 <= c < channels,
        0 <= f,
    ensures
        channel_len(len, c, channels) >= 0,
        f < channel_len(len, c, channels) <==> at(f, c, channels) < len,
{
    if c < len {
        let x = len - c + channels - 1;
        let q = x / channels;
        vstd::arithmetic::div_mod::lemma_fundamental_div_mod(x, channels);
        vstd::arithmetic::div_mod::lemma_mod_bound(x, channels);
        let r = x % channels;
        assert(q >= 0 && (f < q <==> f * channels + c < len)) by (nonlinear_arith)
            requires
                x == channels * q + r,
                0 <= r < channels,
                x == len - c + channels - 1,
                0 <= c < channels,
                0 <= f,
                c < len,
        ;
    } else {
        assert(f * channels >= 0) by (nonlinear_arith)
            requires
                f >= 0,
                channels > 0,
        ;
    }
}

/// The samples of channel `c`, in order.
pub fn channel<T: Copy>(samples: &[T], c: usize, channels: usize) -> (out: Vec<T>)
    requires
        c < channels,
    ensures
        out@ == channel_of(samples@, c as int, channels as int),
{
    let mut out: Vec<T> = Vec::new();
    let n = samples.len();
    let mut i: usize = c;
    let mut done = n <= c;
    proof {
        lemma_channel_len(n as int, c as int, channels as int, 0);
    }
    while !done
        invariant
            n == samples@.len(),
            c < channels,
            out@.len() <= channel_len(n as int, c as int, channels as int),
            forall|f: int| 0 <= f < out@.len() ==> out@[f] == samples@[at(f, c as int, channels as int)],
            !done ==> i < n && i == at(out@.len() as int, c as int, channels as int),
            done ==> out@.len() == channel_len(n as int, c as int, channels as int),
        decreases n - i + (if done { 0int } else { 1int }),
    {
        let ghost f = out@.len() as int;
        proof {
            lemma_channel_len(n as int, c as int, channels as int, f);
            lemma_channel_len(n as int, c as int, channels as int, f + 1);
            assert(at(f + 1, c as int, channels as int) == i + channels) by (nonlinear_arith)
                requires
                    i == f * channels + c,
                    at(f + 1, c as int, channels as int) == (f + 1) * channels + c,
            ;
        }
        out.push(samples[i]);
        if n - i <= channels {
            done = true;
        } else {
            i += channels;
        }
    }
    assert(out@ =~= channel_of(samples@, c as int, channels as int));
    out
}

/// The channels of interleaved audio, one after the other.
pub open spec fn planar_of<T>(samples: Seq<T>, channels: int) -> Seq<Seq<T>> {
    Seq::new(channels as nat, |c: int| channel_of(samples, c, channels))
}

/// What nested vectors hold.
pub open spec fn nested<T>(v: Seq<Vec<T>>) -> Seq<Seq<T>> {
    v.map_values(|x: Vec<T>| x@)
}

/// Splits interleaved audio into its channels.
pub fn deinterleave<T: Copy>(samples: &[T], channels: usize) -> (out: Vec<Vec<T>>)
    ensures
        nested(out@) == planar_of(samples@, channels as int),
{
    let mut out: Vec<Vec<T>> = Vec::new();
    for c in 0..channels
        invariant
            out@.len() == c,
            forall|j: int| 0 <= j < c ==> (#[trigger] out@[j])@ == channel_of(samples@, j, channels as int),
    {
        out.push(channel(samples, c, channels));
    }
    assert(nested(out@) =~= planar_of(samples@, channels as int));
    out
}

/// The first `frames` samples of every channel, frame by frame.
pub open spec fn interleaved<T>(planar: Seq<Seq<T>>, frames: int) -> Seq<T> {
    let channels = planar.len() as int;
    Seq::new((frames * channels) as nat, |k: int| planar[k % channels][k / channels])
}

/// Joins channels into interleaved audio of `frames` frames.
pub fn interleave<T: Copy>(planar: &Vec<Vec<T>>, frames: usize) -> (out: Vec<T>)
    requires
        forall|c: int| 0 <= c < planar@.len() ==> (#[trigger] planar@[c])@.len() >= frames,
    ensures
        out@ == interleaved(nested(planar@), frames as int),
{
    let mut out: Vec<T> = Vec::new();
    let channels = planar.len();
    let ghost want = interleaved(nested(planar@), frames as int);
    assert(0 * channels == 0);
    for f in 0..frames
        invariant
            channels == planar@.len(),
            want == interleaved(nested(planar@), frames as int),
            forall|c: int| 0 <= c < planar@.len() ==> (#[trigger] planar@[c])@.len() >= frames,
            out@.len() == f * channels,
            forall|k: int| 0 <= k < out@.len() ==> out@[k] == want[k],
    {
        for c in 0..channels
            invariant
                f < frames,
                channels == planar@.len(),
                want == interleaved(nested(planar@), frames as int),
                forall|c: int| 0 <= c < planar@.len() ==> (#[trigger] planar@[c])@.len() >= frames,
                out@.len() == f * channels + c,
                forall|k: int| 0 <= k < out@.len() ==> out@[k] == want[k],
        {
            proof {
                lemma_at(f as int, c as int, channels as int);
                lemma_at_bound(f as int, c as int, channels as int, frames as int);
                assert(nested(planar@)[c as int] == planar@[c as int]@);
            }
            out.push(planar[c][f]);
        }
        assert((f + 1) * channels == f * channels + channels) by (nonlinear_arith);
    }
    assert(out@ =~= want);
    out
}

/// The length of the shortest channel, or zero without channels.
pub open spec fn shortest<T>(planar: Seq<Seq<T>>) -> nat
    decreases planar.len(),
{
    if planar.len() == 0 {
        0
    } else if planar.len() == 1 {
        planar[0].len()
    } else {
        let rest = shortest(planar.drop_last());
        if planar.last().len() < rest {
            planar.last().len()
        } else {
            rest
        }
    }
}

/// The length of the shortest channel, or zero without channels.
pub fn shortest_len<T>(planar: &Vec<Vec<T>>) -> (n: usize)
    ensures
        n == shortest(nested(planar@)),
        forall|c: int| 0 <= c < planar@.len() ==> (#[trigger] planar@[c])@.len() >= n,
{
    if planar.len() == 0 {
        return 0;
    }
    let mut n = planar[0].len();
    let mut i: usize = 1;
    assert(nested(planar@).take(1) =~= seq![planar@[0]@]);
    while i < planar.len()
        invariant
            1 <= i <= planar@.len(),
            n == shortest(nested(planar@).take(i as int)),
            forall|c: int| 0 <= c < i ==> (#[trigger] planar@[c])@.len() >= n,
        decreases planar@.len() - i,
    {
        let ghost s = nested(planar@);
        assert(s.take(i + 1).drop_last() =~= s.take(i as int));
        assert(s.take(i + 1).last() == planar@[i as int]@);
        if planar[i].len() < n {
            n = planar[i].len();
        }
        i += 1;
    }
    assert(nested(planar@).take(planar@.len() as int) =~= nested(planar@));
    n
}

/// Splitting whole frames into channels and joining them again gives back the same samples.
pub proof fn split_then_join_is_identity<T>(samples: Seq<T>, channels: int)
    requires
        channels > 0,
        samples.len() as int % channels == 0,
    ensures
        interleaved(planar_of(samples, channels), samples.len() as int / channels) == samples,
{
    let frames = samples.len() as int / channels;
    let planar = planar_of(samples, channels);
    vstd::arithmetic::div_mod::lemma_fundamental_div_mod(samples.len() as int, channels);
    assert(frames * channels == samples.len()) by (nonlinear_arith)
        requires
            samples.len() == channels * frames,
    ;
    assert forall|k: int| 0 <= k < samples.len() implies interleaved(planar, frames)[k] == samples[k] by {
        lemma_position(k, channels, frames);
        lemma_channel_len(samples.len() as int, k % channels, channels, k / channels);
    }
    assert(interleaved(planar, frames) =~= samples);
}

// ---- changing the number of channels ----

/// The whole frames of `samples` with `to` channels in place of `from`: a mono sample goes to every
/// channel, a channel that is too many is dropped, one that is missing is silent.
pub open spec fn remapped<T>(samples: Seq<T>, from: int, to: int, silence: T) -> Seq<T> {
    Seq::new(
        ((samples.len() as int / from) * to) as nat,
        |k: int|
            {
                let f = k / to;
                let c = k % to;
                if from == 1 {
                    samples[f]
                } else if c < from {
                    samples[at(f, c, from)]
                } else {
                    silence
                }
            },
    )
}

/// Gives the whole frames of `samples` another number of channels.
pub fn remap_frames<T: Copy>(samples: &[T], from: usize, to: usize, silence: T) -> (out: Vec<T>)
    requires
        from > 0,
    ensures
        out@ == remapped(samples@, from as int, to as int, silence),
{
    let frames = samples.len() / from;
    let mut out: Vec<T> = Vec::new();
    let ghost want = remapped(samples@, from as int, to as int, silence);
    proof {
        lemma_whole_frames(samples@.len() as int, from as int);
    }
    assert(0 * to == 0);
    for f in 0..frames
        invariant
            from > 0,
            frames == samples@.len() as int / from as int,
            frames * from <= samples@.len() <= usize::MAX,
            want == remapped(samples@, from as int, to as int, silence),
            out@.len() == f * to,
            forall|k: int| 0 <= k < out@.len() ==> out@[k] == want[k],
    {
        for c in 0..to
            invariant
                from > 0,
                f < frames,
                frames == samples@.len() as int / from as int,
                frames * from <= samples@.len() <= usize::MAX,
                want == remapped(samples@, from as int, to as int, silence),
                out@.len() == f * to + c,
                forall|k: int| 0 <= k < out@.len() ==> out@[k] == want[k],
        {
            proof {
                lemma_at(f as int, c as int, to as int);
                lemma_at_bound(f as int, c as int, to as int, frames as int);
                lemma_at_bound(f as int, 0, from as int, frames as int);
                if c < from {
                    lemma_at_bound(f as int, c as int, from as int, frames as int);
                }
            }
            let s = if from == 1 {
                samples[f]
            } else if c < from {
                samples[f * from + c]
            } else {
                silence
            };
            out.push(s);
        }
        assert((f + 1) * to == f * to + to) by (nonlinear_arith);
    }
    assert(out@ =~= want);
    out
}

// ---- what holds of frames ----

/// A channel holds its samples in order, and joined channels hold those of a frame side by side.
pub proof fn every_sample_has_one_place<T: Copy>(
    samples: &[T],
    channels: usize,
    split: Vec<Vec<T>>,
    planar: &Vec<Vec<T>>,
    frames: usize,
    joined: Vec<T>,
    f: int,
    c: int,
)
    requires
        call_ensures(deinterleave::<T>, (samples, channels), split),
        call_ensures(interleave::<T>, (planar, frames), joined),
        f >= 0,
        c >= 0,
    ensures
        split@.len() == channels,
        c < channels ==> (f < split@[c]@.len() <==> f * channels + c < samples@.len()),
        c < channels && f * channels + c < samples@.len() ==> split@[c]@[f] == samples@[f * channels + c],
        joined@.len() == frames * planar@.len(),
        c < planar@.len() && f < frames ==> joined@[f * planar@.len() + c] == planar@[c]@[f],
{
    assert(nested(split@).len() == split@.len());
    if c < channels {
        lemma_channel_len(samples@.len() as int, c, channels as int, f);
        assert(nested(split@)[c] == split@[c]@);
    }
    assert(frames * planar@.len() >= 0) by (nonlinear_arith);
    if c < planar@.len() && f < frames {
        lemma_at(f, c, planar@.len() as int);
        lemma_at_bound(f, c, planar@.len() as int, frames as int);
        assert(nested(planar@)[c] == planar@[c]@);
    }
}

/// The shortest channel is one of the channels, and none is shorter.
pub proof fn no_channel_is_shorter_than_the_shortest<T>(planar: &Vec<Vec<T>>, n: usize, c: int)
    requires
        call_ensures(shortest_len::<T>, (planar,), n),
        0 <= c < planar@.len(),
    ensures
        n <= planar@[c]@.len(),
        exists|d: int| 0 <= d < planar@.len() && (#[trigger] planar@[d])@.len() == n,
{
    let d = lemma_shortest(nested(planar@));
    assert(nested(planar@)[d] == planar@[d]@);
    assert(nested(planar@)[c] == planar@[c]@);
}

/// The shortest channel.
proof fn lemma_shortest<T>(planar: Seq<Seq<T>>) -> (d: int)
    requires
        planar.len() > 0,
    ensures
        0 <= d < planar.len(),
        planar[d].len() == shortest(planar),
        forall|c: int| 0 <= c < planar.len() ==> shortest(planar) <= (#[trigger] planar[c]).len(),
    decreases planar.len(),
{
    if planar.len() == 1 {
        0
    } else {
        let rest = planar.drop_last();
        let d = lemma_shortest(rest);
        assert forall|c: int| 0 <= c < planar.len() implies shortest(planar) <= (#[trigger] planar[c]).len() by {
            if c < rest.len() {
                assert(rest[c] == planar[c]);
            }
        }
        if planar.last().len() < shortest(rest) {
            planar.len() - 1
        } else {
            d
        }
    }
}

} // verus!
