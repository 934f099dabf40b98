//! What reaches the device over a whole track: the source in order, every frame once, from where the reader
//! began.

use vstd::prelude::*;
use crate::frames::{lemma_at, lemma_position, lemma_whole_frames};
use crate::output::CHUNK;
use crate::source::clipped;
use crate::track::{no_sample_is_lost_or_repeated, Producer, TrackView};

verus! {

/// A track and its reader, with all that was put in the queue and all that left it since the reader began.
#[verifier::ext_equal]
pub struct Passage<T> {
    pub reader: Producer,
    pub track: TrackView<T>,
    pub queued: Seq<T>,
    pub given: Seq<T>,
}

/// Something that happens to a track without a seek, at the rate and with the channels of the source.
pub enum Move {
    /// The reader reads a block and delivers it.
    Read,
    /// The reader is at the end of the source.
    Finish,
    /// The device takes some frames.
    Play(nat),
    /// The track is paused, resumed, faded or stopped.
    Control,
}

impl<T> Passage<T> {
    /// The reader begins: nothing was read and nothing was played since.
    pub open spec fn begins(self) -> bool {
        &&& self.track.wf()
        &&& self.track.ring.len() == 0
        &&& self.queued.len() == 0
        &&& self.given.len() == 0
        &&& !self.track.ended
        &&& !self.track.producer_done
        &&& self.track.seek_gen == self.reader.gen_seen
        &&& self.reader.pos <= self.reader.src_frames
        &&& self.reader.fade_frames == self.track.out_rate / 50
        &&& self.reader.fade_left == (if self.track.dop {
            0
        } else {
            self.reader.fade_frames
        })
    }

    /// The interleaved samples of a source from frame `from` to frame `to`.
    pub open spec fn part(self, source: Seq<T>, from: int, to: int) -> Seq<T> {
        source.subrange(from * self.track.out_ch, to * self.track.out_ch)
    }

    /// A move leads to `after`.
    pub open spec fn moved<G: Fn(T, usize, usize) -> T>(self, m: Move, source: Seq<T>, fade: G, after: Self) -> bool {
        match m {
            Move::Read => {
                let start = self.reader.pos as int;
                let n = clipped(start, CHUNK as int, self.reader.src_frames as int);
                &&& start < self.reader.src_frames
                &&& self.reader.accepted(n).delivered(
                    self.track,
                    self.part(source, start, start + n),
                    fade,
                    after.reader,
                    after.track,
                )
                &&& after.queued == self.queued + after.track.ring.skip(self.track.ring.len() as int)
                &&& after.given == self.given
            },
            Move::Finish => {
                &&& self.reader.pos >= self.reader.src_frames
                &&& after.reader == (Producer { flushed: after.reader.flushed, ..self.reader })
                &&& after.track == (TrackView { producer_done: after.track.producer_done, ..self.track })
                &&& self.track.producer_done ==> after.track.producer_done
                &&& after.queued == self.queued
                &&& after.given == self.given
            },
            Move::Play(n) => {
                &&& self.track.plays()
                &&& after.reader == self.reader
                &&& after.track == self.track.after_playing(n as int)
                &&& after.queued == self.queued
                &&& after.given == self.given + self.track.head(n as int)
            },
            Move::Control => {
                &&& after.reader == self.reader
                &&& after.track == (TrackView {
                    paused: after.track.paused,
                    stop: after.track.stop,
                    fadeout: after.track.fadeout,
                    faded: after.track.faded,
                    ..self.track
                })
                &&& after.queued == self.queued
                &&& after.given == self.given
            },
        }
    }
}

/// `out` is `from` with a fade-in over its first `left` frames.
pub open spec fn is_faded<T, G: Fn(T, usize, usize) -> T>(
    fade: G,
    left: int,
    length: usize,
    ch: int,
    from: Seq<T>,
    out: Seq<T>,
) -> bool {
    &&& out.len() == from.len()
    &&& forall|k: int|
        0 <= k < out.len() ==> if k / ch < left {
            call_ensures(fade, (from[k], (left - k / ch) as usize, length), #[trigger] out[k])
        } else {
            out[k] == from[k]
        }
}

/// The states follow from each other by the moves.
pub open spec fn is_course<T, G: Fn(T, usize, usize) -> T>(
    states: Seq<Passage<T>>,
    moves: Seq<Move>,
    source: Seq<T>,
    fade: G,
) -> bool {
    &&& states.len() == moves.len() + 1
    &&& forall|i: int| 0 <= i < moves.len() ==> (#[trigger] states[i]).moved(moves[i], source, fade, states[i + 1])
}

/// What has come of a passage that began as `a`.
pub open spec fn has_come<T, G: Fn(T, usize, usize) -> T>(
    a: Passage<T>,
    z: Passage<T>,
    source: Seq<T>,
    fade: G,
) -> bool {
    &&& a.reader.pos <= z.reader.pos <= a.reader.src_frames
    &&& is_faded(
        fade,
        a.reader.fade_left as int,
        a.reader.fade_frames,
        a.track.out_ch as int,
        a.part(source, a.reader.pos as int, z.reader.pos as int),
        z.queued,
    )
    &&& z.given + z.track.ring == z.queued
    &&& z.track.producer_done ==> z.reader.pos == a.reader.src_frames
    &&& z.track.ended ==> z.reader.pos == a.reader.src_frames && z.given == z.queued
}

/// What stays as it was, and how much of the fade-in is left.
spec fn keeps<T, G: Fn(T, usize, usize) -> T>(a: Passage<T>, z: Passage<T>, source: Seq<T>, fade: G) -> bool {
    &&& has_come(a, z, source, fade)
    &&& z.track.wf()
    &&& z.track.out_ch == a.track.out_ch
    &&& z.track.seek_gen == z.reader.gen_seen
    &&& z.reader.src_frames == a.reader.src_frames
    &&& z.reader.fade_frames == a.reader.fade_frames
    &&& z.reader.fade_left == (if z.reader.pos - a.reader.pos < a.reader.fade_left {
        a.reader.fade_left - (z.reader.pos - a.reader.pos)
    } else {
        0
    })
    &&& z.track.ended ==> z.track.producer_done && z.track.ring.len() == 0
}

/// One more block.
proof fn lemma_read<T, G: Fn(T, usize, usize) -> T>(
    a: Passage<T>,
    s: Passage<T>,
    z: Passage<T>,
    source: Seq<T>,
    fade: G,
)
    requires
        a.begins(),
        source.len() == a.reader.src_frames * a.track.out_ch,
        keeps(a, s, source, fade),
        s.moved(Move::Read, source, fade, z),
    ensures
        keeps(a, z, source, fade),
{
    let ch = a.track.out_ch as int;
    let from = a.reader.pos as int;
    let start = s.reader.pos as int;
    let total = a.reader.src_frames as int;
    let n = clipped(start, CHUNK as int, total);
    let d = start - from;
    let whole = a.reader.fade_left as int;
    let left = s.reader.fade_left as int;
    let faded = if n < left {
        n
    } else {
        left
    };
    let block = s.part(source, start, start + n);
    let tail = z.track.ring.skip(s.track.ring.len() as int);
    assert(0 <= from * ch && from * ch + d * ch == start * ch && start * ch + n * ch == (start + n) * ch && (start
        + n) * ch <= total * ch && 0 <= d * ch && 0 <= n * ch && 0 <= faded * ch) by (nonlinear_arith)
        requires
            0 <= from,
            d == start - from,
            0 <= d,
            0 <= n,
            start + n <= total,
            ch > 0,
            0 <= faded,
    ;
    lemma_at(n, 0, ch);
    assert(block.len() == n * ch && block.len() as int / ch == n);
    assert(z.track.ring == s.track.ring + tail);
    assert(z.given + z.track.ring =~= z.queued);
    let old_part = a.part(source, from, start);
    let new_part = a.part(source, from, start + n);
    assert forall|k: int| 0 <= k < z.queued.len() implies if k / ch < whole {
        call_ensures(fade, (new_part[k], (whole - k / ch) as usize, a.reader.fade_frames), #[trigger] z.queued[k])
    } else {
        z.queued[k] == new_part[k]
    } by {
        assert(new_part[k] == source[from * ch + k]);
        if k < d * ch {
            assert(z.queued[k] == s.queued[k]);
            assert(old_part[k] == source[from * ch + k]);
        } else {
            let j = k - d * ch;
            assert(z.queued[k] == tail[j]);
            assert(block[j] == source[start * ch + j]);
            vstd::arithmetic::div_mod::lemma_hoist_over_denominator(j, d, ch as nat);
            assert(k / ch == j / ch + d);
            if j < faded * ch {
                lemma_position(j, ch, faded);
            } else {
                assert(j / ch >= left) by {
                    lemma_whole_frames(j, ch);
                    assert(faded == left) by {
                        assert(j < n * ch);
                    }
                    assert(j / ch + 1 > left) by (nonlinear_arith)
                        requires
                            j >= left * ch,
                            j < (j / ch + 1) * ch,
                            ch > 0,
                    ;
                }
            }
        }
    }
}

/// One more move.
proof fn lemma_move<T, G: Fn(T, usize, usize) -> T>(
    a: Passage<T>,
    s: Passage<T>,
    m: Move,
    z: Passage<T>,
    source: Seq<T>,
    fade: G,
)
    requires
        a.begins(),
        source.len() == a.reader.src_frames * a.track.out_ch,
        keeps(a, s, source, fade),
        s.moved(m, source, fade, z),
    ensures
        keeps(a, z, source, fade),
{
    match m {
        Move::Read => {
            lemma_read(a, s, z, source, fade);
        },
        Move::Play(n) => {
            no_sample_is_lost_or_repeated(s.track, n as int);
            assert(z.given + z.track.ring =~= s.given + (s.track.head(n as int) + z.track.ring));
            if z.track.ended {
                assert(z.track.ring.len() == 0);
                assert(z.given + z.track.ring =~= z.given);
            }
        },
        _ => {},
    }
}

/// The invariant holds after every move.
proof fn lemma_course<T, G: Fn(T, usize, usize) -> T>(
    states: Seq<Passage<T>>,
    moves: Seq<Move>,
    source: Seq<T>,
    fade: G,
    i: int,
)
    requires
        is_course(states, moves, source, fade),
        states[0].begins(),
        source.len() == states[0].reader.src_frames * states[0].track.out_ch,
        0 <= i < states.len(),
    ensures
        keeps(states[0], states[i], source, fade),
    decreases i,
{
    let a = states[0];
    if i == 0 {
        assert(a.part(source, a.reader.pos as int, a.reader.pos as int).len() == 0) by {
            assert(0 <= a.reader.pos * a.track.out_ch <= a.reader.src_frames * a.track.out_ch) by (nonlinear_arith)
                requires
                    a.reader.pos <= a.reader.src_frames,
            ;
        }
        assert(a.given + a.track.ring =~= a.queued);
    } else {
        lemma_course(states, moves, source, fade, i - 1);
        lemma_move(a, states[i - 1], moves[i - 1], states[i], source, fade);
    }
}

/// A track arrives whole and in order. Whatever happens to it but a seek, and however the reader and the device
/// take turns: all that was queued is the source from where the reader began to where it has come,
/// in order and each frame once, faded in over the first fiftieth of a second and not at all if the
/// samples are payloads; what left the queue and what waits in it are together what was queued; and
/// when the track has ended the device got all of the source.
pub proof fn a_track_arrives_whole_and_in_order<T, G: Fn(T, usize, usize) -> T>(
    states: Seq<Passage<T>>,
    moves: Seq<Move>,
    source: Seq<T>,
    fade: G,
)
    requires
        is_course(states, moves, source, fade),
        states[0].begins(),
        source.len() == states[0].reader.src_frames * states[0].track.out_ch,
    ensures
        has_come(states[0], states.last(), source, fade),
{
    lemma_course(states, moves, source, fade, states.len() - 1);
}

/// A passage begins with a new track, and again with every seek.
pub proof fn a_passage_begins_with_every_start<T>(src_frames: u64, t: TrackView<T>, p: Producer, base: u64)
    requires
        t.wf(),
        !t.ended,
        p.fade_frames == t.out_rate / 50,
    ensures
        t.ring.len() == 0 && !t.producer_done && t.seek_gen == 0 ==> (Passage {
            reader: Producer::fresh(src_frames, t),
            track: t,
            queued: Seq::empty(),
            given: Seq::empty(),
        }).begins(),
        (Passage {
            reader: p.restarted(t),
            track: t.restarted(base),
            queued: Seq::empty(),
            given: Seq::empty(),
        }).begins(),
{
}

} // verus!
