//! The bytes of samples as an exclusive-mode device takes them: little-endian, in containers of
//! two, three or four bytes.

use vstd::prelude::*;

verus! {

/// Byte `i` of the two's complement form of `v`, counted from the low end.
pub open spec fn byte_of(v: int, i: int) -> u8
    recommends
        0 <= i <= 2,
{
    if i == 0 {
        (v % 256) as u8
    } else if i == 1 {
        ((v / 256) % 256) as u8
    } else {
        ((v / 65536) % 256) as u8
    }
}

/// The low 24 bits of `v` in a container: as they are in three bytes, left-aligned in four.
pub open spec fn sample_24(v: int, container_bytes: int) -> Seq<u8> {
    if container_bytes == 4 {
        seq![0u8, byte_of(v, 0), byte_of(v, 1), byte_of(v, 2)]
    } else {
        seq![byte_of(v, 0), byte_of(v, 1), byte_of(v, 2)]
    }
}

/// The three low bytes of a number.
fn low_bytes(v: i32) -> (b: (u8, u8, u8))
    ensures
        b.0 == byte_of(v as int, 0),
        b.1 == byte_of(v as int, 1),
        b.2 == byte_of(v as int, 2),
{
    let u: i64 = if v < 0 {
        v as i64 + 0x1_0000_0000
    } else {
        v as i64
    };
    ((u % 256) as u8, ((u / 256) % 256) as u8, ((u / 65536) % 256) as u8)
}

/// Appends the low 24 bits of `v` in a container of three or four bytes.
pub fn write_sample_24(out: &mut Vec<u8>, v: i32, container_bytes: usize)
    requires
        container_bytes == 3 || container_bytes == 4,
    ensures
        final(out)@ == old(out)@ + sample_24(v as int, container_bytes as int),
{
    let b = low_bytes(v);
    if container_bytes == 4 {
        out.push(0);
    }
    out.push(b.0);
    out.push(b.1);
    out.push(b.2);
    assert(out@ =~= old(out)@ + sample_24(v as int, container_bytes as int));
}

/// The bytes of a PCM sample of 16 or 24 bits in its container. A sample of 16 bits fills a container
/// of two bytes, and the upper part of a wider one.
pub open spec fn pcm_sample(s: int, bits: int, container_bytes: int) -> Seq<u8> {
    if bits == 16 && container_bytes == 2 {
        seq![byte_of(s, 0), byte_of(s, 1)]
    } else if bits == 16 {
        sample_24(s * 256, container_bytes)
    } else {
        sample_24(s, container_bytes)
    }
}

/// A PCM sample of this many bits fits into such a container.
pub open spec fn fits_container(bits: int, container_bytes: int) -> bool {
    container_bytes == 3 || container_bytes == 4 || (bits == 16 && container_bytes == 2)
}

/// Appends a PCM sample.
pub fn write_pcm_sample(out: &mut Vec<u8>, s: i32, bits: u16, container_bytes: usize)
    requires
        fits_container(bits as int, container_bytes as int),
        bits == 16 ==> -32768 <= s <= 32767,
    ensures
        final(out)@ == old(out)@ + pcm_sample(s as int, bits as int, container_bytes as int),
{
    if bits == 16 && container_bytes == 2 {
        let b = low_bytes(s);
        out.push(b.0);
        out.push(b.1);
        assert(out@ =~= old(out)@ + pcm_sample(s as int, bits as int, container_bytes as int));
    } else if bits == 16 {
        write_sample_24(out, s * 256, container_bytes);
    } else {
        write_sample_24(out, s, container_bytes);
    }
}

/// The bytes of samples one after the other.
pub open spec fn packed_24(words: Seq<int>, container_bytes: int) -> Seq<u8>
    decreases words.len(),
{
    if words.len() == 0 {
        seq![]
    } else {
        packed_24(words.drop_last(), container_bytes) + sample_24(words.last(), container_bytes)
    }
}

/// One more sample adds its bytes at the end.
pub proof fn lemma_packed_push(words: Seq<int>, w: int, container_bytes: int)
    ensures
        packed_24(words.push(w), container_bytes) == packed_24(words, container_bytes) + sample_24(
            w,
            container_bytes,
        ),
{
    assert(words.push(w).drop_last() =~= words);
}

/// The bytes of two runs of samples are the bytes of both, one after the other.
pub proof fn packing_keeps_concatenation(a: Seq<int>, b: Seq<int>, container_bytes: int)
    ensures
        packed_24(a + b, container_bytes) == packed_24(a, container_bytes) + packed_24(b, container_bytes),
    decreases b.len(),
{
    if b.len() == 0 {
        assert(a + b =~= a);
        assert(packed_24(a, container_bytes) + packed_24(b, container_bytes) =~= packed_24(a, container_bytes));
    } else {
        assert((a + b).drop_last() =~= a + b.drop_last());
        packing_keeps_concatenation(a, b.drop_last(), container_bytes);
        assert(packed_24(a, container_bytes) + (packed_24(b.drop_last(), container_bytes) + sample_24(
            b.last(),
            container_bytes,
        )) =~= (packed_24(a, container_bytes) + packed_24(b.drop_last(), container_bytes)) + sample_24(
            b.last(),
            container_bytes,
        ));
    }
}

/// The signed 24-bit number in three bytes, low byte first.
pub open spec fn read_24(lo: u8, mid: u8, hi: u8) -> int {
    let u = lo + 256 * mid + 65536 * hi;
    if u >= 0x80_0000 {
        u - 0x100_0000
    } else {
        u
    }
}

/// The signed 16-bit number in two bytes, low byte first.
pub open spec fn read_16(lo: u8, hi: u8) -> int {
    let u = lo + 256 * hi;
    if u >= 0x8000 {
        u - 0x1_0000
    } else {
        u
    }
}

/// A 24-bit sample is read back exactly from either container.
pub proof fn sample_24_is_read_back_exactly(v: int, container_bytes: int)
    requires
        -0x80_0000 <= v < 0x80_0000,
        container_bytes == 3 || container_bytes == 4,
    ensures
        ({
            let b = sample_24(v, container_bytes);
            let k = container_bytes - 3;
            &&& b.len() == container_bytes
            &&& read_24(b[k], b[k + 1], b[k + 2]) == v
            &&& k == 1 ==> b[0] == 0
        }),
{
}

/// The bytes of sample `k` stand in their place: right after those of the samples before it.
pub proof fn every_sample_has_its_bytes(words: Seq<int>, container_bytes: int, k: int)
    requires
        container_bytes == 3 || container_bytes == 4,
        0 <= k < words.len(),
    ensures
        packed_24(words, container_bytes).len() == words.len() * container_bytes,
        packed_24(words, container_bytes).subrange(k * container_bytes, (k + 1) * container_bytes) == sample_24(
            words[k],
            container_bytes,
        ),
    decreases words.len(),
{
    let all = packed_24(words, container_bytes);
    let rest = words.drop_last();
    let some = packed_24(rest, container_bytes);
    lemma_packed_len(rest, container_bytes);
    assert(words.len() * container_bytes == rest.len() * container_bytes + container_bytes) by (nonlinear_arith)
        requires
            words.len() == rest.len() + 1,
    ;
    assert((k + 1) * container_bytes == k * container_bytes + container_bytes) by (nonlinear_arith);
    if k < rest.len() {
        every_sample_has_its_bytes(rest, container_bytes, k);
        assert((k + 1) * container_bytes <= rest.len() * container_bytes && 0 <= k * container_bytes)
            by (nonlinear_arith)
            requires
                0 <= k < rest.len(),
                container_bytes > 0,
        ;
        assert(all.subrange(k * container_bytes, (k + 1) * container_bytes) =~= some.subrange(
            k * container_bytes,
            (k + 1) * container_bytes,
        ));
    } else {
        assert(all.subrange(k * container_bytes, (k + 1) * container_bytes) =~= sample_24(
            words[k],
            container_bytes,
        ));
    }
}

/// As many bytes as all containers hold.
proof fn lemma_packed_len(words: Seq<int>, container_bytes: int)
    requires
        container_bytes == 3 || container_bytes == 4,
    ensures
        packed_24(words, container_bytes).len() == words.len() * container_bytes,
    decreases words.len(),
{
    if words.len() > 0 {
        let rest = words.drop_last();
        lemma_packed_len(rest, container_bytes);
        assert(words.len() * container_bytes == rest.len() * container_bytes + container_bytes) by (nonlinear_arith)
            requires
                words.len() == rest.len() + 1,
        ;
    } else {
        assert(0 * container_bytes == 0);
    }
}

} // verus!
