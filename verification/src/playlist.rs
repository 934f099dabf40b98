//! Tracks without gaps between them, and the gain by which their loudness is matched.

use vstd::prelude::*;
use crate::bytes::{find_word, has_word, word_at};
use crate::frames::{remap_frames, remapped};
use crate::output::{map_channels_pub, map_channels_spec, OutputError};
use crate::pcm::{Pcm, PcmError};
use crate::text::{all_digits, first_index, is_digit_spec, lemma_first_index, number};

verus! {

/// Why a playlist could not be loaded.
pub enum PlaylistError {
    Decode(PcmError),
    Resample(OutputError),
    Empty,
}

impl PlaylistError {
    /// The error as text for the listener.
    pub fn message(&self) -> (s: String)
        ensures
            s@ == (match *self {
                PlaylistError::Decode(e) => e.message_spec(),
                PlaylistError::Resample(e) => e.message_spec(),
                PlaylistError::Empty => "プレイリストが空です"@,
            }),
    {
        match self {
            PlaylistError::Decode(e) => e.message(),
            PlaylistError::Resample(e) => e.message(),
            PlaylistError::Empty => "プレイリストが空です".to_owned(),
        }
    }
}

// ---- gain ----

/// A decimal number: `mantissa` divided by ten to the power of `decimals`.
#[derive(Debug, Clone, Copy, PartialEq, Eq, Structural)]
pub struct Decimal {
    pub mantissa: i64,
    pub decimals: u32,
}

/// The bytes after the first key for the gain of a track, in any case.
pub open spec fn after_key(bytes: Seq<u8>) -> Option<Seq<u8>> {
    let key = "REPLAYGAIN_TRACK_GAIN"@;
    if has_word(bytes, key, true) {
        let at = choose|i: int|
            word_at(bytes, key, i, true) && forall|j: int| 0 <= j < i ==> !word_at(bytes, key, j, true);
        Some(bytes.skip(at + key.len()))
    } else {
        None
    }
}

/// A byte with which a number can begin.
pub open spec fn begins_number(b: u8) -> bool {
    is_digit_spec(b as char) || b as char == '-' || b as char == '+'
}

/// A byte that a number can hold.
pub open spec fn in_number(b: u8) -> bool {
    begins_number(b) || b as char == '.'
}

/// The place of the first byte with which a number can begin, or the length.
pub open spec fn number_start(rest: Seq<u8>) -> int
    decreases rest.len(),
{
    if rest.len() == 0 || begins_number(rest[0]) {
        0
    } else {
        1 + number_start(rest.drop_first())
    }
}

/// The run of bytes that a number can hold, at most `limit` of them, as text.
pub open spec fn number_run(rest: Seq<u8>, limit: nat) -> Seq<char>
    decreases limit,
{
    if limit == 0 || rest.len() == 0 || !in_number(rest[0]) {
        seq![]
    } else {
        seq![rest[0] as char] + number_run(rest.drop_first(), (limit - 1) as nat)
    }
}

/// The text of the gain of a track: up to twelve characters of a number somewhere after the key.
pub open spec fn gain_text(bytes: Seq<u8>) -> Option<Seq<char>> {
    match after_key(bytes) {
        Some(rest) => if number_start(rest) < rest.len() {
            Some(number_run(rest.skip(number_start(rest)), 12))
        } else {
            None
        },
        None => None,
    }
}

/// A text without the sign at its start.
pub open spec fn unsigned(s: Seq<char>) -> Seq<char> {
    if s.len() > 0 && (s[0] == '+' || s[0] == '-') {
        s.skip(1)
    } else {
        s
    }
}

/// The digits before the point.
pub open spec fn whole_part(body: Seq<char>) -> Seq<char> {
    body.take(first_index(body, '.'))
}

/// The digits after the point.
pub open spec fn fraction_part(body: Seq<char>) -> Seq<char> {
    let k = first_index(body, '.');
    if k < body.len() {
        body.skip(k + 1)
    } else {
        seq![]
    }
}

/// The decimal number that a text stands for: a sign or none, digits, and perhaps a point among them, with
/// at least one digit.
pub open spec fn decimal_value(s: Seq<char>) -> Option<(int, int)> {
    let body = unsigned(s);
    let whole = whole_part(body);
    let fraction = fraction_part(body);
    if all_digits(whole) && all_digits(fraction) && whole.len() + fraction.len() > 0 {
        let n = number(whole + fraction);
        Some(
            (
                if s[0] == '-' {
                    -n
                } else {
                    n
                },
                fraction.len() as int,
            ),
        )
    } else {
        None
    }
}

/// Ten to the power of `n`.
pub open spec fn ten(n: nat) -> int
    decreases n,
{
    if n == 0 {
        1
    } else {
        10 * ten((n - 1) as nat)
    }
}

/// Ten to the power of `n` is at most that of twelve.
proof fn lemma_ten(n: nat)
    requires
        n <= 12,
    ensures
        1 <= ten(n) <= 1_000_000_000_000,
{
    reveal_with_fuel(ten, 13);
}

/// The decimal number that a short text stands for.
pub fn parse_decimal(text: &Vec<char>) -> (r: Option<Decimal>)
    requires
        text@.len() <= 12,
    ensures
        match r {
            Some(d) => decimal_value(text@) == Some((d.mantissa as int, d.decimals as int)),
            None => decimal_value(text@) is None,
        },
{
    let n = text.len();
    let from: usize = if n > 0 && (text[0] == '+' || text[0] == '-') {
        1
    } else {
        0
    };
    let ghost body = unsigned(text@);
    assert(body.len() == n - from);
    assert(forall|j: int| 0 <= j < body.len() ==> body[j] == text@[from + j]);
    let mut value: u64 = 0;
    let mut point: Option<usize> = None;
    let mut i: usize = from;
    let ghost mut digits: Seq<char> = seq![];
    proof {
        reveal_with_fuel(ten, 2);
    }
    while i < n
        invariant
            n == text@.len(),
            n <= 12,
            from <= i <= n,
            from <= 1,
            body == unsigned(text@),
            body.len() == n - from,
            forall|j: int| 0 <= j < body.len() ==> body[j] == text@[from + j],
            all_digits(digits),
            value == number(digits),
            value < ten(digits.len()),
            digits.len() <= i - from,
            match point {
                None => {
                    &&& digits =~= body.take(i - from)
                    &&& forall|j: int| 0 <= j < i - from ==> body[j] != '.'
                },
                Some(p) => {
                    &&& 0 <= p < i - from
                    &&& body[p as int] == '.'
                    &&& forall|j: int| 0 <= j < p ==> body[j] != '.'
                    &&& digits =~= body.take(p as int) + body.subrange(p + 1, i - from)
                },
            },
        decreases n - i,
    {
        let c = text[i];
        let ghost k = i - from;
        assert(body[k] == c);
        if c == '.' && point.is_none() {
            point = Some(i - from);
            proof {
                assert(body.subrange(k + 1, k + 1) =~= seq![]);
                assert(digits =~= body.take(k) + body.subrange(k + 1, k + 1));
            }
        } else if '0' <= c && c <= '9' {
            proof {
                lemma_ten(digits.len());
                let more = digits.push(c);
                assert(more.drop_last() =~= digits);
                assert(number(more) == 10 * number(digits) + (c as int - '0' as int));
                assert(ten(more.len()) == 10 * ten(digits.len()));
                assert forall|j: int| 0 <= j < more.len() implies is_digit_spec(#[trigger] more[j]) by {
                    if j < digits.len() {
                        assert(is_digit_spec(digits[j]));
                    }
                }
                match point {
                    None => {
                        assert(more =~= body.take(k + 1));
                    },
                    Some(p) => {
                        assert(body.subrange(p + 1, k + 1) =~= body.subrange(p + 1, k).push(c));
                        assert(more =~= body.take(p as int) + body.subrange(p + 1, k + 1));
                    },
                }
                digits = more;
            }
            value = 10 * value + (c as u64 - 48);
        } else {
            proof {
                match point {
                    None => {
                        let f = first_index(body, '.');
                        crate::text::lemma_first_index_facts(body, '.');
                        assert(k < f);
                        assert(whole_part(body)[k] == c);
                        assert(!is_digit_spec(whole_part(body)[k]));
                    },
                    Some(p) => {
                        lemma_first_index(body, '.', p as int);
                        assert(fraction_part(body)[k - p - 1] == c);
                        assert(!is_digit_spec(fraction_part(body)[k - p - 1]));
                    },
                }
            }
            return None;
        }
        i += 1;
    }
    let decimals: u32 = match point {
        None => 0,
        Some(p) => {
            proof {
                lemma_first_index(body, '.', p as int);
                assert(fraction_part(body) =~= body.subrange(p + 1, body.len() as int));
                assert(whole_part(body) =~= body.take(p as int));
            }
            (n - from - p - 1) as u32
        },
    };
    proof {
        if point is None {
            lemma_first_index(body, '.', body.len() as int);
            assert(whole_part(body) =~= body);
            assert(fraction_part(body) =~= seq![]);
        }
        assert(digits =~= whole_part(body) + fraction_part(body));
        let w = whole_part(body);
        let f = fraction_part(body);
        assert forall|j: int| 0 <= j < w.len() implies is_digit_spec(#[trigger] w[j]) by {
            assert(is_digit_spec(digits[j]));
        }
        assert forall|j: int| 0 <= j < f.len() implies is_digit_spec(#[trigger] f[j]) by {
            assert(is_digit_spec(digits[w.len() + j]));
        }
        lemma_ten(digits.len());
    }
    let count = n - from - (if point.is_some() {
        1
    } else {
        0
    });
    if count == 0 {
        return None;
    }
    if text[0] == '-' {
        Some(Decimal { mantissa: -(value as i64), decimals })
    } else {
        Some(Decimal { mantissa: value as i64, decimals })
    }
}

/// The gain of a track in decibels, from the tags in the first bytes of a file.
pub fn parse_gain(bytes: &[u8]) -> (r: Option<Decimal>)
    ensures
        match r {
            Some(d) => gain_text(bytes@) matches Some(t) && decimal_value(t) == Some(
                (d.mantissa as int, d.decimals as int),
            ),
            None => gain_text(bytes@) matches Some(t) ==> decimal_value(t) is None,
        },
{
    let n = bytes.len();
    let at = match find_word(bytes, "REPLAYGAIN_TRACK_GAIN", true) {
        Some(i) => i,
        None => {
            return None;
        },
    };
    let ghost key = "REPLAYGAIN_TRACK_GAIN"@;
    proof {
        reveal_strlit("REPLAYGAIN_TRACK_GAIN");
        let first = choose|i: int|
            word_at(bytes@, key, i, true) && forall|j: int| 0 <= j < i ==> !word_at(bytes@, key, j, true);
        assert(first == at);
    }
    let ghost rest = bytes@.skip(at + 21);
    assert(after_key(bytes@) == Some(rest));
    let mut i: usize = at + 21;
    assert(rest.skip(0) =~= rest);
    while i < n && !((48 <= bytes[i] && bytes[i] <= 57) || bytes[i] == 45 || bytes[i] == 43)
        invariant
            n == bytes@.len(),
            at + 21 <= i <= n,
            rest == bytes@.skip(at + 21),
            number_start(rest) == (i - at - 21) + number_start(rest.skip(i - at - 21)),
        decreases n - i,
    {
        let ghost k = i - at - 21;
        assert(rest.skip(k)[0] == bytes@[i as int]);
        assert(rest.skip(k).drop_first() =~= rest.skip(k + 1));
        i += 1;
    }
    let ghost start = i - at - 21;
    if i == n {
        return None;
    }
    assert(rest.skip(start)[0] == bytes@[i as int]);
    let ghost tail = rest.skip(start);
    let mut text: Vec<char> = Vec::new();
    assert(tail.skip(0) =~= tail);
    let mut k: usize = i;
    while k < n && text.len() < 12 && ((48 <= bytes[k] && bytes[k] <= 57) || bytes[k] == 45 || bytes[k] == 43
        || bytes[k] == 46)
        invariant
            n == bytes@.len(),
            i <= k <= n,
            tail.len() == n - i,
            forall|j: int| 0 <= j < tail.len() ==> tail[j] == bytes@[i + j],
            text@.len() == k - i,
            text@.len() <= 12,
            text@ + number_run(tail.skip(k - i), (12 - text@.len()) as nat) == number_run(tail, 12),
        decreases n - k,
    {
        let ghost d = k - i;
        let ghost before = text@;
        text.push(bytes[k] as char);
        proof {
            assert(tail.skip(d)[0] == bytes@[k as int]);
            assert(tail.skip(d).drop_first() =~= tail.skip(d + 1));
            assert(before + (seq![bytes@[k as int] as char] + number_run(
                tail.skip(d + 1),
                (12 - before.len() - 1) as nat,
            )) =~= text@ + number_run(tail.skip(d + 1), (12 - text@.len()) as nat));
        }
        k += 1;
    }
    proof {
        let d = k - i;
        if k < n {
            assert(tail.skip(d)[0] == bytes@[k as int]);
        }
        assert(number_run(tail.skip(d), (12 - text@.len()) as nat) =~= seq![]);
        assert(text@ =~= number_run(tail, 12));
    }
    parse_decimal(&text)
}

/// A run of bytes that a number can hold, and then one that it cannot, is read to its end.
proof fn lemma_run(t: Seq<u8>, after: Seq<u8>, limit: nat)
    requires
        t.len() <= limit,
        forall|i: int| 0 <= i < t.len() ==> in_number(#[trigger] t[i]),
        after.len() > 0,
        !in_number(after[0]),
    ensures
        number_run(t + after, limit) == t.map_values(|b: u8| b as char),
    decreases t.len(),
{
    let all = t + after;
    if t.len() == 0 {
        assert(all =~= after);
        assert(t.map_values(|b: u8| b as char) =~= seq![]);
    } else {
        assert(in_number(t[0]) && all[0] == t[0]);
        let rest = t.drop_first();
        assert(all.drop_first() =~= rest + after);
        assert forall|i: int| 0 <= i < rest.len() implies in_number(#[trigger] rest[i]) by {
            assert(in_number(t[i + 1]));
        }
        lemma_run(rest, after, (limit - 1) as nat);
        assert(seq![t[0] as char] + rest.map_values(|b: u8| b as char) =~= t.map_values(|b: u8| b as char));
    }
}

/// A tag is read back: the text of a number between `=` and a space, after the key in any case, is the text
/// of the gain.
pub proof fn a_gain_tag_is_read_back(key: Seq<u8>, t: Seq<u8>, after: Seq<u8>)
    requires
        key.len() == "REPLAYGAIN_TRACK_GAIN"@.len(),
        word_at(key, "REPLAYGAIN_TRACK_GAIN"@, 0, true),
        0 < t.len() <= 12,
        begins_number(t[0]),
        forall|i: int| 0 <= i < t.len() ==> in_number(#[trigger] t[i]),
        after.len() > 0,
        after[0] == 32,
    ensures
        gain_text(key + seq![61u8] + t + after) == Some(t.map_values(|b: u8| b as char)),
{
    let word = "REPLAYGAIN_TRACK_GAIN"@;
    let bytes = key + seq![61u8] + t + after;
    assert(word_at(bytes, word, 0, true)) by {
        assert forall|k: int| 0 <= k < word.len() implies crate::bytes::byte_is(
            #[trigger] bytes[0 + k],
            word[k],
            true,
        ) by {
            assert(crate::bytes::byte_is(key[0 + k], word[k], true));
        }
    }
    let at = choose|i: int|
        word_at(bytes, word, i, true) && forall|j: int| 0 <= j < i ==> !word_at(bytes, word, j, true);
    assert(at == 0);
    let rest = bytes.skip(word.len() as int);
    assert(rest =~= seq![61u8] + t + after);
    assert(!begins_number(rest[0]));
    assert(rest.drop_first() =~= t + after);
    assert(number_start(rest) == 1) by {
        assert(begins_number((t + after)[0]));
        assert(number_start(t + after) == 0);
    }
    assert(rest.skip(1) =~= t + after);
    lemma_run(t, after, 12);
}

// ---- gapless ----

/// Audio with another number of channels: mono goes to every channel, surplus channels are dropped, missing
/// ones are silent.
pub fn remap<T: Copy>(samples: &[T], from: usize, to: usize, silence: T) -> (out: Vec<T>)
    requires
        from > 0,
    ensures
        out@ == remapped(samples@, from as int, to as int, silence),
{
    remap_frames(samples, from, to, silence)
}

/// Tracks joined without gaps, at the rate and with the channels of the first.
pub struct Gapless<T> {
    whole: Pcm<T>,
}

impl<T: Copy> Gapless<T> {
    /// What has been joined so far.
    pub closed spec fn joined(&self) -> Pcm<T> {
        self.whole
    }

    /// Begins with the first track.
    pub fn start(first: Pcm<T>) -> (g: Self)
        ensures
            g.joined() == first,
    {
        Gapless { whole: first }
    }

    /// The rate that a track of this rate has to be converted to, if it is another.
    pub fn needs_rate(&self, rate: u32) -> (r: Option<u32>)
        ensures
            r == (if rate != self.joined().sample_rate {
                Some(self.joined().sample_rate)
            } else {
                None
            }),
    {
        if rate != self.whole.sample_rate {
            Some(self.whole.sample_rate)
        } else {
            None
        }
    }

    /// Adds a track, already at the rate of the first, right after what is there.
    pub fn append(&mut self, samples: &[T], channels: usize, silence: T)
        requires
            channels > 0 || channels == old(self).joined().channels,
        ensures
            final(self).joined().samples@ == old(self).joined().samples@ + map_channels_spec(
                samples@,
                channels as int,
                old(self).joined().channels as int,
                silence,
            ),
            final(self).joined().sample_rate == old(self).joined().sample_rate,
            final(self).joined().channels == old(self).joined().channels,
            final(self).joined().bits_per_sample == old(self).joined().bits_per_sample,
    {
        let more = map_channels_pub(samples, channels, self.whole.channels, silence);
        for i in 0..more.len()
            invariant
                self.whole.samples@ == old(self).whole.samples@ + more@.take(i as int),
                self.whole.sample_rate == old(self).whole.sample_rate,
                self.whole.channels == old(self).whole.channels,
                self.whole.bits_per_sample == old(self).whole.bits_per_sample,
        {
            self.whole.samples.push(more[i]);
            assert(self.whole.samples@ =~= old(self).whole.samples@ + more@.take(i + 1));
        }
        assert(more@.take(more@.len() as int) =~= more@);
    }

    /// The whole.
    pub fn finish(self) -> (p: Pcm<T>)
        ensures
            p == self.joined(),
    {
        self.whole
    }
}

// ---- what holds of gains and joined tracks ----

/// A decimal number is read as it is written: digits, perhaps with a point among them, and a sign in front or none.
pub proof fn a_decimal_is_read_as_written(whole: Seq<char>, fraction: Seq<char>)
    requires
        all_digits(whole),
        all_digits(fraction),
        whole.len() + fraction.len() > 0,
    ensures
        ({
            let t = whole + seq!['.'] + fraction;
            let n = number(whole + fraction);
            let d = fraction.len() as int;
            &&& decimal_value(t) == Some((n, d))
            &&& decimal_value(seq!['+'] + t) == Some((n, d))
            &&& decimal_value(seq!['-'] + t) == Some((-n, d))
        }),
        fraction.len() == 0 ==> {
            &&& decimal_value(whole) == Some((number(whole), 0int))
            &&& decimal_value(seq!['-'] + whole) == Some((-number(whole), 0int))
        },
{
    let t = whole + seq!['.'] + fraction;
    lemma_decimal_parts(whole, fraction);
    assert((seq!['+'] + t).skip(1) =~= t);
    assert((seq!['-'] + t).skip(1) =~= t);
    assert(t[0] != '+' && t[0] != '-') by {
        if whole.len() > 0 {
            assert(is_digit_spec(whole[0]));
            assert(t[0] == whole[0]);
        }
    }
    if fraction.len() == 0 {
        assert(is_digit_spec(whole[0]));
        assert forall|i: int| 0 <= i < whole.len() implies whole[i] != '.' by {
            assert(is_digit_spec(whole[i]));
        }
        lemma_first_index(whole, '.', whole.len() as int);
        assert(whole_part(whole) =~= whole);
        assert(fraction_part(whole) =~= Seq::<char>::empty());
        assert(whole + Seq::<char>::empty() =~= whole);
        assert((seq!['-'] + whole).skip(1) =~= whole);
    }
}

/// The parts on both sides of the point.
proof fn lemma_decimal_parts(whole: Seq<char>, fraction: Seq<char>)
    requires
        all_digits(whole),
    ensures
        whole_part(whole + seq!['.'] + fraction) == whole,
        fraction_part(whole + seq!['.'] + fraction) == fraction,
{
    let t = whole + seq!['.'] + fraction;
    assert forall|i: int| 0 <= i < whole.len() implies t[i] != '.' by {
        assert(is_digit_spec(whole[i]));
    }
    lemma_first_index(t, '.', whole.len() as int);
    assert(t.take(whole.len() as int) =~= whole);
    assert(t.skip(whole.len() as int + 1) =~= fraction);
}

/// The gain of a track is the number in its tag: after the key, in any case, and a `=`, up to twelve characters of a number
/// before a space are read as that number.
pub proof fn the_gain_is_the_number_in_the_tag(
    key: Seq<u8>,
    t: Seq<u8>,
    after: Seq<u8>,
    bytes: &[u8],
    r: Option<Decimal>,
)
    requires
        call_ensures(parse_gain, (bytes,), r),
        bytes@ == key + seq![61u8] + t + after,
        key.len() == 21,
        forall|i: int|
            0 <= i < 21 ==> crate::text::ascii_lower(#[trigger] key[i] as char) == "replaygain_track_gain"@[i],
        0 < t.len() <= 12,
        48 <= t[0] <= 57 || t[0] == 45 || t[0] == 43,
        forall|i: int| 0 <= i < t.len() ==> 48 <= (#[trigger] t[i]) <= 57 || t[i] == 45 || t[i] == 43 || t[i] == 46,
        after.len() > 0,
        after[0] == 32,
    ensures
        match decimal_value(t.map_values(|b: u8| b as char)) {
            Some(v) => r matches Some(d) && d.mantissa == v.0 && d.decimals == v.1,
            None => r is None,
        },
{
    reveal_strlit("REPLAYGAIN_TRACK_GAIN");
    reveal_strlit("replaygain_track_gain");
    let word = "REPLAYGAIN_TRACK_GAIN"@;
    assert(word_at(key, word, 0, true)) by {
        assert forall|k: int| 0 <= k < word.len() implies crate::bytes::byte_is(#[trigger] key[0 + k], word[k], true) by {
            assert(crate::text::ascii_lower(key[k] as char) == "replaygain_track_gain"@[k]);
        }
    }
    assert forall|i: int| 0 <= i < t.len() implies in_number(#[trigger] t[i]) by {
        assert(48 <= t[i] <= 57 || t[i] == 45 || t[i] == 43 || t[i] == 46);
    }
    a_gain_tag_is_read_back(key, t, after);
}

/// No gain is read from a file without the key.
pub proof fn without_the_key_there_is_no_gain(bytes: &[u8], r: Option<Decimal>)
    requires
        call_ensures(parse_gain, (bytes,), r),
        !has_word(bytes@, "REPLAYGAIN_TRACK_GAIN"@, true),
    ensures
        r is None,
{
}

/// Tracks are joined without a gap: what was there stays, a track with as many channels follows as it is, and one with
/// others follows frame by frame in the channels of the first. The rate and the channels stay those of
/// the first track, to which others are converted.
pub proof fn tracks_follow_without_a_gap<T: Copy>()
    ensures
        forall|g: &mut Gapless<T>, samples: &[T], channels: usize, silence: T, u: ()| #[trigger]
            call_ensures(Gapless::<T>::append, (g, samples, channels, silence), u) ==> {
                let a = (*g).joined();
                let z = (*final(g)).joined();
                &&& z.sample_rate == a.sample_rate && z.channels == a.channels && z.bits_per_sample == a.bits_per_sample
                &&& channels == a.channels ==> z.samples@ == a.samples@ + samples@
                &&& channels > 0 && channels != a.channels ==> {
                    &&& z.samples@.len() == a.samples@.len() + (samples@.len() as int / channels as int) * a.channels
                    &&& a.samples@ == z.samples@.take(a.samples@.len() as int)
                }
            },
        forall|g: &Gapless<T>, rate: u32, r: Option<u32>| #[trigger]
            call_ensures(Gapless::<T>::needs_rate, (g, rate), r) ==> (r is None <==> rate == (*g).joined().sample_rate)
                && (r matches Some(x) ==> x == (*g).joined().sample_rate),
        forall|first: Pcm<T>, g: Gapless<T>| #[trigger]
            call_ensures(Gapless::<T>::start, (first,), g) ==> g.joined() == first,
{
    assert forall|g: &mut Gapless<T>, samples: &[T], channels: usize, silence: T, u: ()| #[trigger]
        call_ensures(Gapless::<T>::append, (g, samples, channels, silence), u) implies {
        let a = (*g).joined();
        let z = (*final(g)).joined();
        &&& z.sample_rate == a.sample_rate && z.channels == a.channels && z.bits_per_sample == a.bits_per_sample
        &&& channels == a.channels ==> z.samples@ == a.samples@ + samples@
        &&& channels > 0 && channels != a.channels ==> {
            &&& z.samples@.len() == a.samples@.len() + (samples@.len() as int / channels as int) * a.channels
            &&& a.samples@ == z.samples@.take(a.samples@.len() as int)
        }
    } by {
        let a = (*g).joined();
        let z = (*final(g)).joined();
        if channels > 0 {
            let frames = samples@.len() as int / channels as int;
            crate::frames::lemma_whole_frames(samples@.len() as int, channels as int);
            assert(frames * a.channels >= 0) by (nonlinear_arith)
                requires
                    frames >= 0,
                    a.channels >= 0,
            ;
            assert(z.samples@.take(a.samples@.len() as int) =~= a.samples@);
        }
    }
}

/// With another number of channels every sample of a frame finds its channel: a mono sample goes to all of them, others stay
/// where they are, surplus ones are dropped and missing ones are silent.
pub proof fn other_channels_keep_the_frames<T: Copy>(
    samples: &[T],
    from: usize,
    to: usize,
    silence: T,
    out: Vec<T>,
    f: int,
    c: int,
)
    requires
        from > 0,
        call_ensures(remap::<T>, (samples, from, to, silence), out),
        0 <= f < samples@.len() as int / from as int,
        0 <= c < to,
    ensures
        out@.len() == (samples@.len() as int / from as int) * to,
        0 <= f * to + c < out@.len(),
        from == 1 ==> out@[f * to + c] == samples@[f],
        from > 1 && c < from ==> out@[f * to + c] == samples@[f * from + c],
        from > 1 && c >= from ==> out@[f * to + c] == silence,
{
    let frames = samples@.len() as int / from as int;
    crate::frames::lemma_whole_frames(samples@.len() as int, from as int);
    crate::frames::lemma_at(f, c, to as int);
    crate::frames::lemma_at_bound(f, c, to as int, frames);
}

/// A playlist fails for what failed in it, or because there is nothing in it.
pub proof fn a_playlist_fails_for_what_failed_in_it(e: &PlaylistError, s: String)
    requires
        call_ensures(PlaylistError::message, (e,), s),
    ensures
        match *e {
            PlaylistError::Decode(PcmError::Io(why)) => s@ == "ファイルを開けません: "@ + why@,
            PlaylistError::Decode(PcmError::Decode(why)) => s@ == "デコードできません: "@ + why@,
            PlaylistError::Resample(OutputError::Resample(why)) => s@ == "リサンプルに失敗しました: "@ + why@,
            PlaylistError::Resample(_) => true,
            PlaylistError::Empty => s@ == "プレイリストが空です"@,
        },
{
}

} // verus!
