//! Decoded audio, and the decisions on the way from a file to it.
//!
//! Reading files and decoding packets happen outside; each answer that comes back is handed in here,
//! and the reply says what to do next.

use vstd::prelude::*;
use crate::bytes::{find_word, has_word, word_at};
use crate::frames::{interleave, interleaved, nested};

verus! {

/// Decoded audio: interleaved samples with their rate and number of channels.
#[derive(Debug, Clone, PartialEq)]
pub struct Pcm<T> {
    pub sample_rate: u32,
    pub channels: usize,
    pub samples: Vec<T>,
    /// The bit depth of the original, where it is known.
    pub bits_per_sample: Option<u32>,
}

/// Why a file gave no audio.
#[derive(Debug, Clone, PartialEq)]
pub enum PcmError {
    /// The file could not be read.
    Io(String),
    /// The file could not be decoded.
    Decode(String),
}

impl PcmError {
    /// The error as text for the listener.
    pub open spec fn message_spec(self) -> Seq<char> {
        match self {
            PcmError::Io(e) => "ファイルを開けません: "@ + e@,
            PcmError::Decode(e) => "デコードできません: "@ + e@,
        }
    }

    /// The error as text for the listener.
    pub fn message(&self) -> (s: String)
        ensures
            s@ == self.message_spec(),
    {
        match self {
            PcmError::Io(e) => {
                let mut s = "ファイルを開けません: ".to_owned();
                s.append(e.as_str());
                s
            },
            PcmError::Decode(e) => {
                let mut s = "デコードできません: ".to_owned();
                s.append(e.as_str());
                s
            },
        }
    }
}

/// The error says that decoding failed, with this text.
pub open spec fn is_decode_error(e: PcmError, text: Seq<char>) -> bool {
    e matches PcmError::Decode(t) && t@ == text
}

// ---- Ogg Opus ----

/// The bytes are the start of an Ogg stream that carries Opus.
pub open spec fn is_ogg_opus_spec(head: Seq<u8>) -> bool {
    word_at(head, "OggS"@, 0, false) && has_word(head, "OpusHead"@, false)
}

/// Whether the first bytes of a file (512 are enough) announce Opus in Ogg.
pub fn is_ogg_opus(head: &[u8]) -> (r: bool)
    ensures
        r == is_ogg_opus_spec(head@),
{
    let ogg = find_word(head, "OggS", false);
    let opus = find_word(head, "OpusHead", false);
    match ogg {
        Some(i) => i == 0 && opus.is_some(),
        None => false,
    }
}

/// The audio that an Opus decoder gave as one vector per channel: always at 48 kHz, from 16 bits.
pub fn opus_pcm<T: Copy>(planar: &Vec<Vec<T>>, frames: usize) -> (p: Pcm<T>)
    requires
        forall|c: int| 0 <= c < planar@.len() ==> (#[trigger] planar@[c])@.len() >= frames,
    ensures
        p.sample_rate == 48_000,
        p.channels == planar@.len(),
        p.samples@ == interleaved(nested(planar@), frames as int),
        p.bits_per_sample == Some(16u32),
{
    Pcm {
        sample_rate: 48_000,
        channels: planar.len(),
        samples: interleave(planar, frames),
        bits_per_sample: Some(16),
    }
}

// ---- the packet loop ----

/// What is known of a track before decoding.
#[derive(Debug, Clone, Copy, PartialEq, Eq, Structural)]
pub struct TrackFacts {
    /// The codec is one that is known.
    pub has_codec: bool,
    pub sample_rate: Option<u32>,
}

impl TrackFacts {
    /// The track is audio that can be decoded.
    pub open spec fn is_audio(self) -> bool {
        self.has_codec && self.sample_rate is Some
    }
}

/// None of the first `n` tracks is audio that can be decoded.
pub open spec fn none_is_audio(tracks: Seq<TrackFacts>, n: int) -> bool {
    forall|j: int| 0 <= j < n ==> !(#[trigger] tracks[j]).is_audio()
}

/// The first track that is audio and can be decoded.
pub fn select_track(tracks: &[TrackFacts]) -> (r: Result<usize, PcmError>)
    ensures
        match r {
            Ok(i) => {
                &&& i < tracks@.len()
                &&& tracks@[i as int].is_audio()
                &&& none_is_audio(tracks@, i as int)
            },
            Err(e) => {
                &&& none_is_audio(tracks@, tracks@.len() as int)
                &&& is_decode_error(e, "音声トラックが見つかりません"@)
            },
        },
{
    for i in 0..tracks.len()
        invariant
            forall|j: int| 0 <= j < i ==> !(#[trigger] tracks@[j]).is_audio(),
    {
        if tracks[i].has_codec && tracks[i].sample_rate.is_some() {
            return Ok(i);
        }
    }
    Err(PcmError::Decode("音声トラックが見つかりません".to_owned()))
}

/// What came of asking the container for its next packet.
#[derive(Debug, Clone, PartialEq)]
pub enum PacketEvent {
    /// A packet of this track.
    Packet(u32),
    /// The file has ended.
    EndOfFile,
    /// The stream starts over with other parameters.
    ResetRequired,
    Failed(String),
}

/// What to do about it.
#[derive(Debug, Clone, PartialEq)]
pub enum PacketStep {
    /// Hand the packet to the decoder.
    Decode,
    /// Ask for the next packet.
    Skip,
    /// No more packets are wanted.
    Finish,
    Fail(PcmError),
}

/// What came of decoding a packet.
#[derive(Debug, Clone, PartialEq)]
pub enum DecodeEvent<T> {
    Block { rate: u32, channels: usize, samples: Vec<T> },
    /// The packet is damaged.
    Damaged,
    Failed(String),
}

/// The audio decoded so far from one track.
pub struct Decoding<T> {
    track: u32,
    rate: u32,
    channels: usize,
    samples: Vec<T>,
}

impl<T: Copy> Decoding<T> {
    /// The track being decoded.
    pub closed spec fn track(&self) -> u32 {
        self.track
    }

    /// The rate last heard of.
    pub closed spec fn rate(&self) -> u32 {
        self.rate
    }

    /// The number of channels last heard of.
    pub closed spec fn channels(&self) -> usize {
        self.channels
    }

    /// All samples decoded so far.
    pub closed spec fn samples(&self) -> Seq<T> {
        self.samples@
    }

    /// Starts with what the container says of the track (zero for what it does not say).
    pub fn new(track: u32, rate: Option<u32>, channels: Option<usize>) -> (d: Self)
        ensures
            d.track() == track,
            d.rate() == (match rate {
                Some(r) => r,
                None => 0,
            }),
            d.channels() == (match channels {
                Some(c) => c,
                None => 0,
            }),
            d.samples() == Seq::<T>::empty(),
    {
        Decoding { track, rate: rate.unwrap_or(0), channels: channels.unwrap_or(0), samples: Vec::new() }
    }

    /// Decides about a packet: the end of the file or a reset ends the loop, packets of other tracks
    /// are passed over, any other failure is an error.
    pub fn on_packet(&self, e: PacketEvent) -> (s: PacketStep)
        ensures
            match e {
                PacketEvent::Packet(id) => s == (if id == self.track() {
                    PacketStep::Decode
                } else {
                    PacketStep::Skip
                }),
                PacketEvent::EndOfFile | PacketEvent::ResetRequired => s == PacketStep::Finish,
                PacketEvent::Failed(t) => s matches PacketStep::Fail(x) && is_decode_error(x, t@),
            },
    {
        match e {
            PacketEvent::Packet(id) => if id == self.track {
                PacketStep::Decode
            } else {
                PacketStep::Skip
            },
            PacketEvent::EndOfFile => PacketStep::Finish,
            PacketEvent::ResetRequired => PacketStep::Finish,
            PacketEvent::Failed(t) => PacketStep::Fail(PcmError::Decode(t)),
        }
    }

    /// Takes in what the decoder made of a packet: a block is appended, a damaged packet is passed
    /// over, any other failure is an error.
    pub fn on_decoded(&mut self, e: DecodeEvent<T>) -> (r: Result<(), PcmError>)
        ensures
            final(self).track() == old(self).track(),
            match e {
                DecodeEvent::Block { rate, channels, samples } => {
                    &&& r is Ok
                    &&& final(self).rate() == rate
                    &&& final(self).channels() == channels
                    &&& final(self).samples() == old(self).samples() + samples@
                },
                DecodeEvent::Damaged => r is Ok && *final(self) == *old(self),
                DecodeEvent::Failed(t) => {
                    &&& r matches Err(x) && is_decode_error(x, t@)
                    &&& *final(self) == *old(self)
                },
            },
    {
        match e {
            DecodeEvent::Block { rate, channels, samples } => {
                self.rate = rate;
                self.channels = channels;
                let mut samples = samples;
                self.samples.append(&mut samples);
                Ok(())
            },
            DecodeEvent::Damaged => Ok(()),
            DecodeEvent::Failed(t) => Err(PcmError::Decode(t)),
        }
    }

    /// Ends the decoding. Without samples, rate or channels there is no audio.
    pub fn finish(self, bits_per_sample: Option<u32>) -> (r: Result<Pcm<T>, PcmError>)
        ensures
            ({
                let nothing = self.samples().len() == 0 || self.rate() == 0 || self.channels() == 0;
                match r {
                    Ok(p) => {
                        &&& !nothing
                        &&& p.sample_rate == self.rate()
                        &&& p.channels == self.channels()
                        &&& p.samples@ == self.samples()
                        &&& p.bits_per_sample == bits_per_sample
                    },
                    Err(e) => nothing && is_decode_error(e, "デコード結果が空です"@),
                }
            }),
    {
        if self.samples.len() == 0 || self.rate == 0 || self.channels == 0 {
            return Err(PcmError::Decode("デコード結果が空です".to_owned()));
        }
        Ok(
            Pcm {
                sample_rate: self.rate,
                channels: self.channels,
                samples: self.samples,
                bits_per_sample,
            },
        )
    }
}

// ---- falling back to an external converter ----

/// What to do after the built-in decoders have had their try.
pub enum AfterNative<T> {
    /// This is the answer.
    Done(Result<Pcm<T>, PcmError>),
    /// Let the external converter try; this is the error to report if it fails too.
    Convert(PcmError),
}

/// A file that could be read but not decoded is worth a try with the external converter.
pub fn after_native<T>(r: Result<Pcm<T>, PcmError>) -> (a: AfterNative<T>)
    ensures
        match r {
            Err(PcmError::Decode(t)) => a == AfterNative::<T>::Convert(PcmError::Decode(t)),
            _ => a == AfterNative::Done(r),
        },
{
    match r {
        Err(PcmError::Decode(t)) => AfterNative::Convert(PcmError::Decode(t)),
        Err(PcmError::Io(t)) => AfterNative::Done(Err(PcmError::Io(t))),
        Ok(p) => AfterNative::Done(Ok(p)),
    }
}

/// The answer after the external converter: its audio, or the first error where it did not run
/// (`None`) or its output could not be decoded.
pub fn after_converter<T>(original: PcmError, converted: Option<Result<Pcm<T>, PcmError>>) -> (r: Result<
    Pcm<T>,
    PcmError,
>)
    ensures
        r == (match converted {
            Some(Ok(p)) => Ok::<Pcm<T>, PcmError>(p),
            _ => Err(original),
        }),
{
    match converted {
        Some(Ok(p)) => Ok(p),
        _ => Err(original),
    }
}

// ---- what holds of decoding ----

/// A file is Ogg Opus exactly if it begins with `OggS` and `OpusHead` stands somewhere in its first bytes.
pub proof fn opus_is_told_by_its_two_marks(head: &[u8], r: bool, i: int)
    requires
        call_ensures(is_ogg_opus, (head,), r),
        0 <= i,
        i + 8 <= head@.len(),
        head@.subrange(i, i + 8) == seq![79u8, 112, 117, 115, 72, 101, 97, 100],
    ensures
        r <==> head@.take(4) == seq![79u8, 103, 103, 83],
{
    reveal_strlit("OggS");
    reveal_strlit("OpusHead");
    let mark = head@.subrange(i, i + 8);
    assert(word_at(head@, "OpusHead"@, i, false)) by {
        assert forall|k: int| 0 <= k < 8 implies crate::bytes::byte_is(
            #[trigger] head@[i + k],
            "OpusHead"@[k],
            false,
        ) by {
            assert(mark[k] == head@[i + k]);
        }
    }
    let first = head@.take(4);
    assert(first[0] == head@[0] && first[1] == head@[1] && first[2] == head@[2] && first[3] == head@[3]);
    if head@.take(4) == seq![79u8, 103, 103, 83] {
        assert(word_at(head@, "OggS"@, 0, false)) by {
            assert forall|k: int| 0 <= k < 4 implies crate::bytes::byte_is(
                #[trigger] head@[0 + k],
                "OggS"@[k],
                false,
            ) by {}
        }
    }
    if r {
        assert(crate::bytes::byte_is(head@[0int + 0], "OggS"@[0], false));
        assert(crate::bytes::byte_is(head@[0int + 1], "OggS"@[1], false));
        assert(crate::bytes::byte_is(head@[0int + 2], "OggS"@[2], false));
        assert(crate::bytes::byte_is(head@[0int + 3], "OggS"@[3], false));
        assert(first =~= seq![79u8, 103, 103, 83]);
    }
}

/// The track that is decoded is the first with a known codec and a sample rate, and there is none only if no track has
/// both.
pub proof fn the_first_decodable_track_is_chosen(tracks: &[TrackFacts], r: Result<usize, PcmError>, j: int)
    requires
        call_ensures(select_track, (tracks,), r),
        0 <= j < tracks@.len(),
    ensures
        r matches Ok(i) ==> {
            &&& i < tracks@.len()
            &&& tracks@[i as int].has_codec && tracks@[i as int].sample_rate is Some
            &&& tracks@[j].has_codec && tracks@[j].sample_rate is Some ==> i <= j
        },
        r is Err ==> !tracks@[j].has_codec || tracks@[j].sample_rate is None,
{
    assert(tracks@[j].is_audio() || !tracks@[j].is_audio());
}

/// Packets of the chosen track are decoded and others passed over; the end of the file and a reset end the decoding; any
/// other failure is an error with its cause.
pub proof fn every_packet_of_the_track_is_decoded<T: Copy>(d: &Decoding<T>, e: PacketEvent, s: PacketStep)
    requires
        call_ensures(Decoding::<T>::on_packet, (d, e), s),
    ensures
        e matches PacketEvent::Packet(id) ==> (s is Decode <==> id == d.track()) && (s is Skip <==> id != d.track()),
        s is Finish <==> e is EndOfFile || e is ResetRequired,
        e matches PacketEvent::Failed(t) ==> (s matches PacketStep::Fail(PcmError::Decode(x)) && x@ == t@),
{
}

/// Decoded blocks are kept in order, one after the other, and nothing is lost: a block goes behind all that was decoded
/// before it, and damaged or failed packets leave what is there as it is.
pub proof fn decoded_blocks_are_kept_in_order<T: Copy>()
    ensures
        forall|d: &mut Decoding<T>, e: DecodeEvent<T>, r: Result<(), PcmError>| #[trigger]
            call_ensures(Decoding::<T>::on_decoded, (d, e), r) ==> {
                &&& (*final(d)).track() == (*d).track()
                &&& e matches DecodeEvent::Block { rate, channels, samples } ==> {
                    &&& r is Ok
                    &&& (*final(d)).samples() == (*d).samples() + samples@
                    &&& (*final(d)).rate() == rate && (*final(d)).channels() == channels
                }
                &&& !(e is Block) ==> (*final(d)).samples() == (*d).samples() && (*final(d)).rate() == (*d).rate()
                    && (*final(d)).channels() == (*d).channels()
                &&& e is Damaged ==> r is Ok
                &&& e matches DecodeEvent::Failed(t) ==> (r matches Err(PcmError::Decode(x)) && x@ == t@)
            },
{
}

/// What was decoded is handed over as it is, and it is an error only if there are no samples, no rate or no channels.
pub proof fn all_that_was_decoded_is_handed_over<T: Copy>(d: Decoding<T>, bits: Option<u32>, r: Result<Pcm<T>, PcmError>)
    requires
        call_ensures(Decoding::<T>::finish, (d, bits), r),
    ensures
        r is Ok <==> d.samples().len() > 0 && d.rate() > 0 && d.channels() > 0,
        r matches Ok(p) ==> p.samples@ == d.samples() && p.sample_rate == d.rate() && p.channels == d.channels()
            && p.bits_per_sample == bits,
{
}

/// The external converter is tried exactly if a file was read but not decoded, and where it fails too the first error
/// is the answer.
pub proof fn the_converter_is_the_second_choice<T>(
    r: Result<Pcm<T>, PcmError>,
    a: AfterNative<T>,
    first: PcmError,
    converted: Option<Result<Pcm<T>, PcmError>>,
    answer: Result<Pcm<T>, PcmError>,
)
    requires
        call_ensures(after_native::<T>, (r,), a),
        call_ensures(after_converter::<T>, (first, converted), answer),
    ensures
        a is Convert <==> (r matches Err(e) && e is Decode),
        a matches AfterNative::Convert(e) ==> r == Err::<Pcm<T>, PcmError>(e),
        a matches AfterNative::Done(x) ==> x == r,
        converted matches Some(Ok(p)) ==> answer == Ok::<Pcm<T>, PcmError>(p),
        !(converted matches Some(Ok(p))) ==> answer == Err::<Pcm<T>, PcmError>(first),
{
}

/// Each error says what went wrong, and then why.
pub proof fn each_error_names_its_cause(e: &PcmError, s: String)
    requires
        call_ensures(PcmError::message, (e,), s),
    ensures
        match *e {
            PcmError::Io(why) => s@ == "ファイルを開けません: "@ + why@,
            PcmError::Decode(why) => s@ == "デコードできません: "@ + why@,
        },
{
}

/// Without `OpusHead` anywhere in its first bytes a file is not Ogg Opus.
pub proof fn without_its_mark_there_is_no_opus(head: &[u8], r: bool)
    requires
        call_ensures(is_ogg_opus, (head,), r),
        forall|i: int|
            0 <= i && i + 8 <= head@.len() ==> #[trigger] head@.subrange(i, i + 8) != seq![
                79u8,
                112,
                117,
                115,
                72,
                101,
                97,
                100,
            ],
    ensures
        !r,
{
    if r {
        reveal_strlit("OpusHead");
        let i = choose|i: int| word_at(head@, "OpusHead"@, i, false);
        let mark = head@.subrange(i, i + 8);
        assert forall|k: int| 0 <= k < 8 implies mark[k] as char == "OpusHead"@[k] by {
            assert(crate::bytes::byte_is(head@[i + k], "OpusHead"@[k], false));
        }
        assert(mark =~= seq![79u8, 112, 117, 115, 72, 101, 97, 100]) by {
            assert(mark[0] as char == "OpusHead"@[0]);
            assert(mark[1] as char == "OpusHead"@[1]);
            assert(mark[2] as char == "OpusHead"@[2]);
            assert(mark[3] as char == "OpusHead"@[3]);
            assert(mark[4] as char == "OpusHead"@[4]);
            assert(mark[5] as char == "OpusHead"@[5]);
            assert(mark[6] as char == "OpusHead"@[6]);
            assert(mark[7] as char == "OpusHead"@[7]);
        }
    }
}

/// Opus comes at 48 kHz and counts as 16 bits; sample `c` of frame `f` is sample `f` of channel `c`.
pub proof fn opus_comes_at_48_khz<T: Copy>(planar: &Vec<Vec<T>>, frames: usize, p: Pcm<T>, f: int, c: int)
    requires
        call_ensures(opus_pcm::<T>, (planar, frames), p),
        0 <= f < frames,
        0 <= c < planar@.len(),
    ensures
        p.sample_rate == 48 * 1000,
        p.bits_per_sample == Some(16u32),
        p.channels == planar@.len(),
        p.samples@.len() == frames * planar@.len(),
        0 <= f * planar@.len() + c < p.samples@.len(),
        p.samples@[f * planar@.len() + c] == planar@[c]@[f],
{
    let n = planar@.len() as int;
    assert(frames * n >= 0) by (nonlinear_arith)
        requires
            frames >= 0,
            n >= 0,
    ;
    crate::frames::lemma_at(f, c, n);
    crate::frames::lemma_at_bound(f, c, n, frames as int);
    assert(nested(planar@)[c] == planar@[c]@);
}

/// A file without audio fails because there is no such track, and one that gives no samples because nothing came of it.
pub proof fn a_file_without_audio_says_so<T: Copy>(
    tracks: &[TrackFacts],
    e: PcmError,
    d: Decoding<T>,
    bits: Option<u32>,
    why: PcmError,
)
    requires
        call_ensures(select_track, (tracks,), Err(e)),
        call_ensures(Decoding::<T>::finish, (d, bits), Err(why)),
    ensures
        e matches PcmError::Decode(t) && t@ == "音声トラックが見つかりません"@,
        why matches PcmError::Decode(t) && t@ == "デコード結果が空です"@,
{
}

} // verus!
