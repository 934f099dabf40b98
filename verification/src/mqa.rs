//! Telling MQA from ordinary FLAC by the tags that its encoder leaves. MQA is never decoded.

use vstd::prelude::*;
use vstd::slice::slice_subrange;
use crate::bytes::{find_word, has_word};
use crate::text::ascii_lower;

verus! {

/// How many bytes at the start of a file are searched.
pub const HEAD: usize = 65_536;

/// The bytes that are searched.
pub open spec fn head_of(bytes: Seq<u8>) -> Seq<u8> {
    if bytes.len() < HEAD {
        bytes
    } else {
        bytes.take(HEAD as int)
    }
}

/// One of the tags stands in the head, in any case.
pub open spec fn is_mqa(bytes: Seq<u8>) -> bool {
    has_word(head_of(bytes), "MQAENCODER"@, true) || has_word(head_of(bytes), "ORIGINALSAMPLERATE"@, true)
}

/// What audio that is played as PCM is called.
pub open spec fn pcm_kind_spec(is_mqa: bool) -> Seq<char> {
    if is_mqa {
        "MQA(通常のPCMとして)"@
    } else {
        "PCM"@
    }
}

/// What audio that is played as PCM is called.
pub fn pcm_kind(is_mqa: bool) -> (s: &'static str)
    ensures
        s@ == pcm_kind_spec(is_mqa),
{
    if is_mqa {
        "MQA(通常のPCMとして)"
    } else {
        "PCM"
    }
}

/// Whether the first 64 KiB hold a tag of the MQA encoder.
pub fn is_mqa_bytes(head: &[u8]) -> (r: bool)
    ensures
        r == is_mqa(head@),
{
    let n = if head.len() < HEAD {
        head.len()
    } else {
        HEAD
    };
    let hay = slice_subrange(head, 0, n);
    assert(hay@ =~= head_of(head@));
    find_word(hay, "MQAENCODER", true).is_some() || find_word(hay, "ORIGINALSAMPLERATE", true).is_some()
}

/// A word found without regard to case is found in bytes that differ in the case of letters alone.
proof fn lemma_case_of_hay(a: Seq<u8>, b: Seq<u8>, word: Seq<char>)
    requires
        a.len() == b.len(),
        forall|i: int| 0 <= i < a.len() ==> ascii_lower(#[trigger] a[i] as char) == ascii_lower(b[i] as char),
        has_word(a, word, true),
    ensures
        has_word(b, word, true),
{
    let at = choose|i: int| crate::bytes::word_at(a, word, i, true);
    assert forall|k: int| 0 <= k < word.len() implies crate::bytes::byte_is(
        #[trigger] b[at + k],
        word[k],
        true,
    ) by {
        assert(crate::bytes::byte_is(a[at + k], word[k], true));
    }
    assert(crate::bytes::word_at(b, word, at, true));
}

/// The case of letters makes no difference, and neither does anything after the first 64 KiB.
pub proof fn mqa_is_told_by_the_head_in_any_case(a: Seq<u8>, b: Seq<u8>)
    requires
        head_of(a).len() == head_of(b).len(),
        forall|i: int|
            0 <= i < head_of(a).len() ==> ascii_lower(#[trigger] head_of(a)[i] as char) == ascii_lower(
                head_of(b)[i] as char,
            ),
    ensures
        is_mqa(a) == is_mqa(b),
{
    let (x, y) = (head_of(a), head_of(b));
    assert forall|i: int| 0 <= i < y.len() implies ascii_lower(#[trigger] y[i] as char) == ascii_lower(
        x[i] as char,
    ) by {
        assert(ascii_lower(x[i] as char) == ascii_lower(y[i] as char));
    }
    let first = "MQAENCODER"@;
    let second = "ORIGINALSAMPLERATE"@;
    if has_word(x, first, true) {
        lemma_case_of_hay(x, y, first);
    }
    if has_word(y, first, true) {
        lemma_case_of_hay(y, x, first);
    }
    if has_word(x, second, true) {
        lemma_case_of_hay(x, y, second);
    }
    if has_word(y, second, true) {
        lemma_case_of_hay(y, x, second);
    }
}

/// A file is MQA exactly if one of the two tags stands, in any case, in its first 64 KiB: what is found there is one of
/// them letter by letter, and a tag that stands there is found.
pub proof fn mqa_is_told_by_its_tags(head: &[u8], r: bool, i: int)
    requires
        call_ensures(is_mqa_bytes, (head,), r),
    ensures
        0 <= i && i + 10 <= head@.len() && i + 10 <= 65_536 && (forall|k: int|
            0 <= k < 10 ==> ascii_lower(#[trigger] head@[i + k] as char) == "mqaencoder"@[k]) ==> r,
        0 <= i && i + 18 <= head@.len() && i + 18 <= 65_536 && (forall|k: int|
            0 <= k < 18 ==> ascii_lower(#[trigger] head@[i + k] as char) == "originalsamplerate"@[k]) ==> r,
        r ==> exists|j: int, n: int|
            {
                &&& 0 <= j
                &&& j + n <= head@.len() && j + n <= 65_536
                &&& #[trigger] is_tag(head@.subrange(j, j + n))
            },
{
    reveal_strlit("MQAENCODER");
    reveal_strlit("mqaencoder");
    reveal_strlit("ORIGINALSAMPLERATE");
    reveal_strlit("originalsamplerate");
    let h = head_of(head@);
    if 0 <= i && i + 10 <= head@.len() && i + 10 <= 65_536 && (forall|k: int|
        0 <= k < 10 ==> ascii_lower(#[trigger] head@[i + k] as char) == "mqaencoder"@[k]) {
        assert forall|k: int| 0 <= k < 10 implies crate::bytes::byte_is(
            #[trigger] h[i + k],
            "MQAENCODER"@[k],
            true,
        ) by {
            assert(h[i + k] == head@[i + k]);
        }
        assert(crate::bytes::word_at(h, "MQAENCODER"@, i, true));
    }
    if 0 <= i && i + 18 <= head@.len() && i + 18 <= 65_536 && (forall|k: int|
        0 <= k < 18 ==> ascii_lower(#[trigger] head@[i + k] as char) == "originalsamplerate"@[k]) {
        assert forall|k: int| 0 <= k < 18 implies crate::bytes::byte_is(
            #[trigger] h[i + k],
            "ORIGINALSAMPLERATE"@[k],
            true,
        ) by {
            assert(h[i + k] == head@[i + k]);
        }
        assert(crate::bytes::word_at(h, "ORIGINALSAMPLERATE"@, i, true));
    }
    if r {
        if has_word(h, "MQAENCODER"@, true) {
            let j = choose|j: int| crate::bytes::word_at(h, "MQAENCODER"@, j, true);
            let t = head@.subrange(j, j + 10);
            assert forall|k: int| 0 <= k < 10 implies ascii_lower(#[trigger] t[k] as char)
                == "mqaencoder"@[k] by {
                assert(h[j + k] == t[k]);
                assert(crate::bytes::byte_is(h[j + k], "MQAENCODER"@[k], true));
            }
            assert(is_tag(head@.subrange(j, j + 10)));
        } else {
            let j = choose|j: int| crate::bytes::word_at(h, "ORIGINALSAMPLERATE"@, j, true);
            let t = head@.subrange(j, j + 18);
            assert forall|k: int| 0 <= k < 18 implies ascii_lower(#[trigger] t[k] as char)
                == "originalsamplerate"@[k] by {
                assert(h[j + k] == t[k]);
                assert(crate::bytes::byte_is(h[j + k], "ORIGINALSAMPLERATE"@[k], true));
            }
            assert(is_tag(head@.subrange(j, j + 18)));
        }
    }
}

/// The bytes are one of the two tags of the MQA encoder, in any case.
pub open spec fn is_tag(t: Seq<u8>) -> bool {
    ||| t.len() == 10 && forall|k: int| 0 <= k < 10 ==> ascii_lower(#[trigger] t[k] as char) == "mqaencoder"@[k]
    ||| t.len() == 18 && forall|k: int|
        0 <= k < 18 ==> ascii_lower(#[trigger] t[k] as char) == "originalsamplerate"@[k]
}

/// Audio is called PCM, and MQA only where its tags were found.
pub proof fn mqa_is_called_mqa(is_mqa: bool, s: &'static str)
    requires
        call_ensures(pcm_kind, (is_mqa,), s),
    ensures
        is_mqa ==> s@ == "MQA(通常のPCMとして)"@,
        !is_mqa ==> s@ == "PCM"@,
{
}

} // verus!
