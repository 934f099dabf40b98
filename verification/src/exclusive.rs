//! Output in exclusive mode: which formats to offer to a device, and the exact bytes that it gets.
//!
//! Audio arrives as binary32 numbers. [`quantize`] works on their bit patterns, so that what reaches the
//! device is settled to the last bit: a sample that came from an integer goes back to that integer.

use vstd::arithmetic::power2::{
    lemma2_to64,
    lemma2_to64_rest,
    lemma_pow2_adds,
    lemma_pow2_pos,
    lemma_pow2_strictly_increases,
    lemma_pow2_unfold,
    pow2,
};
use vstd::prelude::*;
use crate::exclusive_bytes::{
    fits_container,
    lemma_packed_push,
    packed_24,
    pcm_sample,
    read_16,
    read_24,
    sample_24_is_read_back_exactly,
    write_pcm_sample,
    write_sample_24,
};
use crate::text::{decimal, push_decimal};

verus! {

// ---- numbers to integers ----

/// The sign bit of a binary32 number.
pub open spec fn is_negative(p: u32) -> bool {
    p >= 0x8000_0000
}

/// The exponent field of a binary32 number.
pub open spec fn exponent_field(p: u32) -> int {
    (p / 0x80_0000) as int % 256
}

/// The fraction field of a binary32 number.
pub open spec fn fraction_field(p: u32) -> int {
    p as int % 0x80_0000
}

/// The pattern stands for no number.
pub open spec fn is_nan(p: u32) -> bool {
    exponent_field(p) == 255 && fraction_field(p) != 0
}

/// The pattern stands for a number rather than for infinity or none.
pub open spec fn is_finite(p: u32) -> bool {
    exponent_field(p) != 255
}

/// The magnitude of a finite binary32 number is its significand times 2 to the power of its exponent.
pub open spec fn significand(p: u32) -> int {
    if exponent_field(p) == 0 {
        fraction_field(p)
    } else {
        fraction_field(p) + 0x80_0000
    }
}

/// The power of two that the significand is multiplied by.
pub open spec fn exponent(p: u32) -> int {
    if exponent_field(p) == 0 {
        -149
    } else {
        exponent_field(p) - 150
    }
}

/// `m` times 2 to the power of `shift`, to the nearest integer, halves upwards.
pub open spec fn nearest(m: int, shift: int) -> int {
    if shift >= 0 {
        m * pow2(shift as nat)
    } else {
        (m + pow2((-shift - 1) as nat)) / (pow2((-shift) as nat) as int)
    }
}

/// The largest sample of `bits` bits that a binary32 number can ask for. Above 25 bits it is the power of
/// two itself, because the number below it cannot be told apart.
pub open spec fn largest(bits: int) -> int {
    if bits <= 25 {
        pow2((bits - 1) as nat) - 1
    } else {
        pow2((bits - 1) as nat) as int
    }
}

/// The sample of `bits` bits for a binary32 number between -1 and 1: the nearest, halves away from zero,
/// kept within the range of such samples and of `i32`. What is no number is silence.
pub open spec fn quantize_spec(p: u32, bits: int) -> int {
    if is_nan(p) {
        0
    } else {
        let top = if largest(bits) < i32::MAX {
            largest(bits)
        } else {
            i32::MAX as int
        };
        let bottom = if -pow2((bits - 1) as nat) > i32::MIN {
            -pow2((bits - 1) as nat)
        } else {
            i32::MIN as int
        };
        let size = nearest(significand(p), exponent(p) + bits - 1);
        if is_negative(p) {
            if !is_finite(p) || -size < bottom {
                bottom
            } else {
                -size
            }
        } else {
            if !is_finite(p) || size > top {
                top
            } else {
                size
            }
        }
    }
}

/// 2 to the power of `k`.
fn power_of_two(k: u32) -> (r: u64)
    requires
        k <= 62,
    ensures
        r == pow2(k as nat),
{
    let mut r: u64 = 1;
    let mut i: u32 = 0;
    proof {
        lemma2_to64();
        lemma2_to64_rest();
    }
    while i < k
        invariant
            i <= k <= 62,
            r == pow2(i as nat),
            r <= 0x4000_0000_0000_0000,
            pow2(62) == 0x4000_0000_0000_0000,
        decreases k - i,
    {
        proof {
            lemma_pow2_unfold((i + 1) as nat);
            if i + 1 < 62 {
                lemma_pow2_strictly_increases((i + 1) as nat, 62);
            }
        }
        r = 2 * r;
        i += 1;
    }
    r
}

/// `m` times 2 to the power of `shift`, to the nearest integer, but no more than 2 to the 32nd.
fn nearest_capped(m: u64, shift: i32) -> (r: u64)
    requires
        m < 0x100_0000,
        -200 <= shift <= 300,
    ensures
        r == (if nearest(m as int, shift as int) < 0x1_0000_0000 {
            nearest(m as int, shift as int)
        } else {
            0x1_0000_0000
        }),
{
    proof {
        lemma2_to64();
    }
    if shift >= 0 {
        if m == 0 {
            return 0;
        }
        if shift > 31 {
            proof {
                if shift > 32 {
                    lemma_pow2_strictly_increases(32, shift as nat);
                }
                assert(m * pow2(shift as nat) >= pow2(shift as nat)) by (nonlinear_arith)
                    requires
                        m >= 1,
                        pow2(shift as nat) >= 0,
                ;
            }
            return 0x1_0000_0000;
        }
        let f = power_of_two(shift as u32);
        proof {
            if shift < 31 {
                lemma_pow2_strictly_increases(shift as nat, 31);
            }
            assert(m * f <= 0x100_0000 * 0x8000_0000) by (nonlinear_arith)
                requires
                    m <= 0x100_0000,
                    f <= 0x8000_0000,
            ;
        }
        let r = m * f;
        if r < 0x1_0000_0000 {
            r
        } else {
            0x1_0000_0000
        }
    } else {
        let s: u32 = (-shift) as u32;
        if s > 30 {
            proof {
                lemma_pow2_unfold(s as nat);
                let half = pow2((s - 1) as nat) as int;
                if s - 1 > 30 {
                    lemma_pow2_strictly_increases(30, (s - 1) as nat);
                }
                assert(m + half < 2 * half);
                vstd::arithmetic::div_mod::lemma_basic_div(m + half, 2 * half);
            }
            return 0;
        }
        let half = power_of_two(s - 1);
        let whole = power_of_two(s);
        proof {
            lemma_pow2_strictly_increases((s - 1) as nat, 30);
            lemma_pow2_pos(s as nat);
            vstd::arithmetic::div_mod::lemma_div_is_ordered_by_denominator(m + half, 1, whole as int);
        }
        (m + half) / whole
    }
}

/// The sample of `bits` bits for the binary32 number with the bit pattern `pattern`.
pub fn quantize(pattern: u32, bits: u32) -> (r: i32)
    requires
        1 <= bits <= 63,
    ensures
        r == quantize_spec(pattern, bits as int),
{
    let e: u32 = (pattern / 0x80_0000) % 256;
    let f: u32 = pattern % 0x80_0000;
    if e == 255 && f != 0 {
        return 0;
    }
    let scale = power_of_two(bits - 1);
    let top: i64 = {
        let t: u64 = if bits <= 25 {
            proof {
                lemma_pow2_pos((bits - 1) as nat);
            }
            scale - 1
        } else {
            scale
        };
        if t < 0x7fff_ffff {
            t as i64
        } else {
            0x7fff_ffff
        }
    };
    let bottom: i64 = if scale < 0x8000_0000 {
        -(scale as i64)
    } else {
        -0x8000_0000
    };
    let negative = pattern >= 0x8000_0000;
    if e == 255 {
        return if negative {
            bottom as i32
        } else {
            top as i32
        };
    }
    let (m, shift): (u32, i32) = if e == 0 {
        (f, bits as i32 - 150)
    } else {
        (f + 0x80_0000, e as i32 + bits as i32 - 151)
    };
    let size = nearest_capped(m as u64, shift) as i64;
    if negative {
        if -size < bottom {
            bottom as i32
        } else {
            (-size) as i32
        }
    } else {
        if size > top {
            top as i32
        } else {
            size as i32
        }
    }
}

/// `p` is the bit pattern of the binary32 number for `k` out of 2 to the power of `bits - 1`. Both sides
/// of the equation are multiples of 2 to the power of -149, the smallest binary32 number.
pub open spec fn stands_for(p: u32, k: int, bits: int) -> bool {
    &&& is_finite(p)
    &&& k < 0 ==> is_negative(p)
    &&& k > 0 ==> !is_negative(p)
    &&& significand(p) * pow2((exponent(p) + 149) as nat) == (if k < 0 {
        -k
    } else {
        k
    }) * pow2((150 - bits) as nat)
}

/// Samples that came from integers go back to the same integers.
pub proof fn integers_come_back_exactly(p: u32, k: int, bits: int)
    requires
        1 <= bits <= 25,
        -pow2((bits - 1) as nat) <= k < pow2((bits - 1) as nat),
        stands_for(p, k, bits),
    ensures
        quantize_spec(p, bits) == k,
{
    let a = if k < 0 {
        -k
    } else {
        k
    };
    let m = significand(p);
    let x = exponent(p);
    let shift = x + bits - 1;
    lemma2_to64();
    if bits - 1 < 24 {
        lemma_pow2_strictly_increases((bits - 1) as nat, 24);
    }
    let lo = pow2((150 - bits) as nat) as int;
    lemma_pow2_pos((150 - bits) as nat);
    if shift >= 0 {
        lemma_pow2_adds(shift as nat, (150 - bits) as nat);
        let f = pow2(shift as nat) as int;
        assert(m * f == a) by (nonlinear_arith)
            requires
                m * (f * lo) == a * lo,
                lo > 0,
        ;
    } else {
        let s = -shift;
        lemma_pow2_adds((x + 149) as nat, s as nat);
        lemma_pow2_pos((x + 149) as nat);
        lemma_pow2_pos(s as nat);
        let g = pow2((x + 149) as nat) as int;
        let w = pow2(s as nat) as int;
        assert(m == a * w) by (nonlinear_arith)
            requires
                m * g == a * (g * w),
                g > 0,
        ;
        lemma_pow2_unfold(s as nat);
        let half = pow2((s - 1) as nat) as int;
        assert((a * w + half) / w == a) by {
            vstd::arithmetic::div_mod::lemma_hoist_over_denominator(half, a, w as nat);
            vstd::arithmetic::div_mod::lemma_basic_div(half, w);
        }
    }
}

// ---- formats ----

/// The formats to offer for samples of `want_bits` bits, in order: the bits of the container and those of
/// it that count. Many devices take only containers of 32 bits.
pub open spec fn containers_spec(want_bits: u16) -> Seq<(usize, usize)> {
    if want_bits >= 24 {
        seq![(32usize, 24usize), (24, 24), (32, 32)]
    } else {
        seq![(16usize, 16usize), (32, 24), (24, 24), (32, 16)]
    }
}

/// The formats to offer for samples of `want_bits` bits, in order.
pub fn containers(want_bits: u16) -> (v: Vec<(usize, usize)>)
    ensures
        v@ == containers_spec(want_bits),
{
    let mut v: Vec<(usize, usize)> = Vec::new();
    if want_bits >= 24 {
        v.push((32, 24));
        v.push((24, 24));
        v.push((32, 32));
    } else {
        v.push((16, 16));
        v.push((32, 24));
        v.push((24, 24));
        v.push((32, 16));
    }
    assert(v@ =~= containers_spec(want_bits));
    v
}

/// Every container on offer takes the samples that it is offered for.
pub proof fn every_container_fits(want_bits: u16, i: int)
    requires
        want_bits == 16 || want_bits >= 24,
        0 <= i < containers_spec(want_bits).len(),
    ensures
        fits_container(want_bits as int, containers_spec(want_bits)[i].0 as int / 8),
{
}

/// What the listener is told when a device takes none of the formats.
pub fn refused_message(rate_hz: u32, want_bits: u16, channels: usize, why: &str) -> (s: String)
    ensures
        s@ == "排他モードで"@ + decimal(rate_hz as nat) + "Hz/"@ + decimal(want_bits as nat) + "bit/"@ + decimal(
            channels as nat,
        ) + "chを受け付けません: "@ + why@,
{
    let mut s = "排他モードで".to_owned();
    push_decimal(&mut s, rate_hz as u64);
    s.append("Hz/");
    push_decimal(&mut s, want_bits as u64);
    s.append("bit/");
    push_decimal(&mut s, channels as u64);
    s.append("chを受け付けません: ");
    s.append(why);
    s
}

/// The period to ask for, in units of 100 ns: half as long again as the shortest, and 10 ms at least, so
/// that the sound does not break when the system is late.
pub fn wanted_period(min_period: i64) -> (p: i64)
    requires
        i64::MIN <= 3 * min_period <= i64::MAX,
    ensures
        p == (if 3 * min_period / 2 > 100_000 {
            3 * min_period / 2
        } else {
            100_000
        }),
{
    if min_period < 0 {
        return 100_000;
    }
    let p = 3 * min_period / 2;
    if p > 100_000 {
        p
    } else {
        100_000
    }
}

/// The bits per sample that audio is sent with: what was asked for, between 16 and 24.
pub fn pcm_bits(bits: u16) -> (b: u16)
    ensures
        b == (if bits < 16 {
            16
        } else if bits > 24 {
            24
        } else {
            bits
        }),
{
    if bits < 16 {
        16
    } else if bits > 24 {
        24
    } else {
        bits
    }
}

// ---- blocks of bytes ----

/// The bytes of PCM samples one after the other.
pub open spec fn packed_pcm(samples: Seq<int>, bits: int, container_bytes: int) -> Seq<u8>
    decreases samples.len(),
{
    if samples.len() == 0 {
        seq![]
    } else {
        packed_pcm(samples.drop_last(), bits, container_bytes) + pcm_sample(samples.last(), bits, container_bytes)
    }
}

/// Appends binary32 samples, given by their bit patterns, as PCM.
pub fn pcm_bytes(patterns: &[u32], bits: u16, container_bytes: usize, out: &mut Vec<u8>)
    requires
        16 <= bits <= 24,
        fits_container(bits as int, container_bytes as int),
    ensures
        final(out)@ == old(out)@ + packed_pcm(
            patterns@.map_values(|p: u32| quantize_spec(p, bits as int)),
            bits as int,
            container_bytes as int,
        ),
{
    let ghost all = patterns@.map_values(|p: u32| quantize_spec(p, bits as int));
    assert(out@ =~= old(out)@ + packed_pcm(all.take(0), bits as int, container_bytes as int));
    for i in 0..patterns.len()
        invariant
            16 <= bits <= 24,
            fits_container(bits as int, container_bytes as int),
            all == patterns@.map_values(|p: u32| quantize_spec(p, bits as int)),
            out@ == old(out)@ + packed_pcm(all.take(i as int), bits as int, container_bytes as int),
    {
        let s = quantize(patterns[i], bits as u32);
        proof {
            lemma_sample_range(patterns@[i as int], bits as int);
            assert(all.take(i + 1).drop_last() =~= all.take(i as int));
            assert(all.take(i + 1).last() == s);
        }
        write_pcm_sample(out, s, bits, container_bytes);
        assert(out@ =~= old(out)@ + packed_pcm(all.take(i + 1), bits as int, container_bytes as int));
    }
    assert(all.take(patterns@.len() as int) =~= all);
}

/// The path to the device is bit-perfect: a sample of 16 or 24 bits that was read as a fraction arrives in
/// the container of the device as the integer that it was, in the upper bits where the container is wider.
pub proof fn samples_arrive_bit_for_bit(p: u32, k: int, bits: int, container_bytes: int)
    requires
        bits == 16 || bits == 24,
        fits_container(bits, container_bytes),
        -pow2((bits - 1) as nat) <= k < pow2((bits - 1) as nat),
        stands_for(p, k, bits),
    ensures
        ({
            let b = pcm_sample(quantize_spec(p, bits), bits, container_bytes);
            &&& b.len() == container_bytes
            &&& container_bytes == 2 ==> read_16(b[0], b[1]) == k
            &&& container_bytes == 3 ==> read_24(b[0], b[1], b[2]) == k * pow2((24 - bits) as nat)
            &&& container_bytes == 4 ==> b[0] == 0 && read_24(b[1], b[2], b[3]) == k * pow2((24 - bits) as nat)
        }),
{
    integers_come_back_exactly(p, k, bits);
    lemma2_to64();
    let f = pow2((24 - bits) as nat) as int;
    assert(k * f == (if bits == 16 {
        k * 256
    } else {
        k
    })) by (nonlinear_arith)
        requires
            bits == 16 || bits == 24,
            bits == 16 ==> f == 256,
            bits == 24 ==> f == 1,
    ;
    if container_bytes != 2 {
        sample_24_is_read_back_exactly(
            if bits == 16 {
                k * 256
            } else {
                k
            },
            container_bytes,
        );
    }
}

/// `nearest` is not negative.
proof fn lemma_nearest(m: int, shift: int)
    requires
        m >= 0,
    ensures
        nearest(m, shift) >= 0,
{
    if shift >= 0 {
        lemma_pow2_pos(shift as nat);
        assert(m * pow2(shift as nat) >= 0) by (nonlinear_arith)
            requires
                m >= 0,
                pow2(shift as nat) > 0,
        ;
    } else {
        lemma_pow2_pos((-shift) as nat);
        lemma_pow2_pos((-shift - 1) as nat);
        vstd::arithmetic::div_mod::lemma_div_pos_is_pos(
            m + pow2((-shift - 1) as nat),
            pow2((-shift) as nat) as int,
        );
    }
}

/// A quantized sample has no more bits than asked for.
pub proof fn lemma_sample_range(p: u32, bits: int)
    requires
        1 <= bits <= 25,
    ensures
        -pow2((bits - 1) as nat) <= quantize_spec(p, bits) < pow2((bits - 1) as nat),
        bits == 16 ==> -32768 <= quantize_spec(p, bits) <= 32767,
{
    lemma2_to64();
    lemma_pow2_pos((bits - 1) as nat);
    if bits - 1 < 24 {
        lemma_pow2_strictly_increases((bits - 1) as nat, 24);
    }
    lemma_nearest(significand(p), exponent(p) + bits - 1);
}

/// The word of a frame of DSD over PCM: the bytes of the frame, or silence with the marker for its place
/// after the end.
pub open spec fn dop_frame_word(frames: Seq<[u8; 3]>, idx: int) -> int {
    if idx < frames.len() {
        let f = frames[idx]@;
        read_24(f[2], f[1], f[0])
    } else if idx % 2 == 0 {
        0x05_6969
    } else {
        0xFA_6969 - 0x100_0000
    }
}

/// The words of `n` frames from frame `start` on.
pub open spec fn dop_block_words(frames: Seq<Vec<[u8; 3]>>, start: int, n: int) -> Seq<int> {
    let channels = frames.len() as int;
    Seq::new((n * channels) as nat, |k: int| dop_frame_word(frames[k % channels]@, start + k / channels))
}

/// The word of a frame.
fn frame_word(frames: &Vec<[u8; 3]>, idx: usize) -> (w: i32)
    ensures
        w == dop_frame_word(frames@, idx as int),
{
    if idx < frames.len() {
        let f = frames[idx];
        let u: i32 = f[2] as i32 + 256 * (f[1] as i32) + 65536 * (f[0] as i32);
        if u >= 0x80_0000 {
            u - 0x100_0000
        } else {
            u
        }
    } else if idx % 2 == 0 {
        0x05_6969
    } else {
        0xFA_6969 - 0x100_0000
    }
}

/// Appends `n` frames of DSD over PCM from frame `start` on. Each channel is a list of marker, upper and
/// lower byte.
pub fn dop_block(frames: &Vec<Vec<[u8; 3]>>, start: usize, n: usize, container_bytes: usize, out: &mut Vec<u8>)
    requires
        container_bytes == 3 || container_bytes == 4,
        start + n <= usize::MAX,
    ensures
        final(out)@ == old(out)@ + packed_24(
            dop_block_words(frames@, start as int, n as int),
            container_bytes as int,
        ),
{
    let channels = frames.len();
    let ghost all = dop_block_words(frames@, start as int, n as int);
    let ghost mut done: int = 0;
    assert(0 * channels == 0);
    assert(all.take(0) =~= seq![]);
    assert(out@ =~= old(out)@ + packed_24(all.take(0), container_bytes as int));
    for f in 0..n
        invariant
            container_bytes == 3 || container_bytes == 4,
            start + n <= usize::MAX,
            channels == frames@.len(),
            all == dop_block_words(frames@, start as int, n as int),
            done == f * channels,
            out@ == old(out)@ + packed_24(all.take(done), container_bytes as int),
    {
        for c in 0..channels
            invariant
                container_bytes == 3 || container_bytes == 4,
                f < n,
                start + n <= usize::MAX,
                channels == frames@.len(),
                all == dop_block_words(frames@, start as int, n as int),
                done == f * channels + c,
                out@ == old(out)@ + packed_24(all.take(done), container_bytes as int),
        {
            let w = frame_word(&frames[c], start + f);
            proof {
                crate::frames::lemma_at(f as int, c as int, channels as int);
                crate::frames::lemma_at_bound(f as int, c as int, channels as int, n as int);
                assert(all.take(done + 1) =~= all.take(done).push(w as int));
                lemma_packed_push(all.take(done), w as int, container_bytes as int);
            }
            write_sample_24(out, w, container_bytes);
            proof {
                done = done + 1;
                assert(out@ =~= old(out)@ + packed_24(all.take(done), container_bytes as int));
            }
        }
        proof {
            assert(done == (f + 1) * channels) by (nonlinear_arith)
                requires
                    done == f * channels + channels,
            ;
        }
    }
    assert(all.take(done) =~= all);
}

/// How far the playing of a piece of known length has come.
#[derive(Debug, Clone, Copy, PartialEq, Eq, Structural)]
pub struct FixedRun {
    /// The frames handed out.
    pub pos: u64,
    pub total: u64,
}

impl FixedRun {
    /// Takes note that the device got `n` frames, and says whether it gets more.
    pub fn advance(&mut self, n: usize) -> (more: bool)
        requires
            old(self).pos + n <= u64::MAX,
        ensures
            *final(self) == (FixedRun { pos: (old(self).pos + n) as u64, ..*old(self) }),
            more == (old(self).pos + n < old(self).total),
    {
        self.pos = self.pos + n as u64;
        self.pos < self.total
    }

    /// The frames of the piece that the device got, without the silence after the end.
    pub fn written(&self) -> (n: u64)
        ensures
            n == (if self.pos < self.total {
                self.pos
            } else {
                self.total
            }),
    {
        if self.pos < self.total {
            self.pos
        } else {
            self.total
        }
    }
}

// ---- what holds of samples and formats ----

/// A number becomes the nearest sample. Its magnitude is `m` times 2 to the power of `x`, both taken from the fields of the
/// binary32 format; the sample has its sign and, scaled, is off by no more than a half, unless the number
/// is beyond the largest or the smallest sample, which it then becomes. What is no number is silence.
pub proof fn a_number_becomes_the_nearest_sample(p: u32, bits: u32, r: i32)
    requires
        call_ensures(quantize, (p, bits), r),
        1 <= bits <= 25,
    ensures
        ({
            let e = (p / 0x80_0000) as int % 256;
            let f = p as int % 0x80_0000;
            let m = if e == 0 {
                f
            } else {
                f + 0x80_0000
            };
            let x = if e == 0 {
                -149
            } else {
                e - 150
            };
            let shift = x + bits - 1;
            let limit = if p >= 0x8000_0000 {
                pow2((bits - 1) as nat) as int
            } else {
                pow2((bits - 1) as nat) - 1
            };
            let size = if r < 0 {
                -r
            } else {
                r as int
            };
            let up = m * pow2(shift as nat);
            let w = pow2((-shift) as nat) as int;
            &&& e == 255 && f != 0 ==> r == 0
            &&& e == 255 && f == 0 ==> size == limit
            &&& e != 255 && shift >= 0 && up <= limit ==> size == up
            &&& e != 255 && shift >= 0 && up > limit ==> size == limit
            &&& e != 255 && shift < 0 ==> {
                ||| 2 * (size * w) - w <= 2 * m < 2 * (size * w) + w && size <= limit
                ||| size == limit && 2 * m >= 2 * (limit * w) + w
            }
            &&& p >= 0x8000_0000 ==> r <= 0
            &&& p < 0x8000_0000 ==> r >= 0
        }),
{
    lemma2_to64();
    lemma_pow2_pos((bits - 1) as nat);
    if bits - 1 < 24 {
        lemma_pow2_strictly_increases((bits - 1) as nat, 24);
    }
    let m = significand(p);
    let shift = exponent(p) + bits - 1;
    lemma_nearest(m, shift);
    if shift < 0 {
        let w = pow2((-shift) as nat) as int;
        let half = pow2((-shift - 1) as nat) as int;
        lemma_pow2_unfold((-shift) as nat);
        lemma_pow2_pos((-shift) as nat);
        let n = nearest(m, shift);
        vstd::arithmetic::div_mod::lemma_fundamental_div_mod(m + half, w);
        vstd::arithmetic::div_mod::lemma_mod_bound(m + half, w);
        assert(w * n == n * w) by (nonlinear_arith);
        assert(2 * (n * w) - w <= 2 * m < 2 * (n * w) + w);
        let limit = if p >= 0x8000_0000 {
            pow2((bits - 1) as nat) as int
        } else {
            pow2((bits - 1) as nat) - 1
        };
        if n > limit {
            assert(n * w >= limit * w + w) by (nonlinear_arith)
                requires
                    n >= limit + 1,
                    w > 0,
            ;
        }
    }
}

/// The formats on offer: for 24 bits and more the wide container first, then the exact one, then all 32 bits; for fewer the
/// container of 16 bits first, and then wider ones. What counts never exceeds the container.
pub proof fn the_formats_are_offered_in_order(want_bits: u16, v: Vec<(usize, usize)>)
    requires
        call_ensures(containers, (want_bits,), v),
    ensures
        want_bits >= 24 ==> v@.len() == 3 && v@[0] == (32usize, 24usize) && v@[1] == (24usize, 24usize) && v@[2] == (
            32usize,
            32usize,
        ),
        want_bits < 24 ==> v@.len() == 4 && v@[0] == (16usize, 16usize) && v@[1] == (32usize, 24usize) && v@[2] == (
            24usize,
            24usize,
        ) && v@[3] == (32usize, 16usize),
        forall|i: int| 0 <= i < v@.len() ==> (#[trigger] v@[i]).1 <= v@[i].0,
{
}

/// Audio is sent with the bits asked for, but with 16 at least and 24 at most; the period asked for is half as long again as
/// the shortest, and 10 ms at least.
pub proof fn bits_and_periods_stay_in_bounds(bits: u16, b: u16, min_period: i64, p: i64)
    requires
        call_ensures(pcm_bits, (bits,), b),
        call_ensures(wanted_period, (min_period,), p),
    ensures
        16 <= b <= 24,
        16 <= bits <= 24 ==> b == bits,
        bits < 16 ==> b == 16,
        bits > 24 ==> b == 24,
        p >= 100_000,
        p > 100_000 ==> 2 * p <= 3 * min_period <= 2 * p + 1,
        3 * min_period >= 200_002 ==> p > 100_000,
{
}

/// A frame of DSD over PCM is sent byte by byte, marker first; after the end of a channel follows the silence of DSD with the
/// marker of its place.
pub proof fn dop_frames_are_sent_byte_by_byte(frames: Seq<[u8; 3]>, idx: int)
    requires
        idx >= 0,
    ensures
        ({
            let w = dop_frame_word(frames, idx);
            &&& -0x80_0000 <= w < 0x80_0000
            &&& idx < frames.len() ==> {
                let f = frames[idx]@;
                &&& (w / 65536) % 256 == f[0]
                &&& (w / 256) % 256 == f[1]
                &&& w % 256 == f[2]
            }
            &&& idx >= frames.len() ==> w % 65536 == 0x6969
            &&& idx >= frames.len() && idx % 2 == 0 ==> (w / 65536) % 256 == 0x05
            &&& idx >= frames.len() && idx % 2 == 1 ==> (w / 65536) % 256 == 0xFA
        }),
{
}

/// The frames of all channels are sent side by side, from `start` on.
pub proof fn dop_channels_are_sent_side_by_side(frames: Seq<Vec<[u8; 3]>>, start: int, n: int, f: int, c: int)
    requires
        0 <= f < n,
        0 <= c < frames.len(),
    ensures
        dop_block_words(frames, start, n).len() == n * frames.len(),
        dop_block_words(frames, start, n)[f * frames.len() + c] == dop_frame_word(frames[c]@, start + f),
{
    crate::frames::lemma_at(f, c, frames.len() as int);
    crate::frames::lemma_at_bound(f, c, frames.len() as int, n);
}

/// A piece of known length is played to its end and no further: there is more as long as not all frames were handed out, and
/// what counts as played is never more than there is.
pub proof fn a_piece_is_played_to_its_end()
    ensures
        forall|r: &mut FixedRun, n: usize, more: bool| #[trigger]
            call_ensures(FixedRun::advance, (r, n), more) && (*r).pos + n <= u64::MAX ==> {
                &&& (*final(r)).pos == (*r).pos + n && (*final(r)).total == (*r).total
                &&& more <==> (*final(r)).pos < (*r).total
            },
        forall|r: &FixedRun, n: u64| #[trigger]
            call_ensures(FixedRun::written, (r,), n) ==> n <= r.pos && n <= r.total && (n == r.pos || n == r.total),
{
}

/// A refusal names the rate, the bits and the channels that were offered, in this order, and then the cause.
pub proof fn a_refusal_names_what_was_offered(rate_hz: u32, want_bits: u16, channels: usize, why: &str, s: String)
    requires
        call_ensures(refused_message, (rate_hz, want_bits, channels, why), s),
    ensures
        s@ == "排他モードで"@ + decimal(rate_hz as nat) + "Hz/"@ + decimal(want_bits as nat) + "bit/"@ + decimal(
            channels as nat,
        ) + "chを受け付けません: "@ + why@,
{
}

} // verus!
