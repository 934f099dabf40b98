//! Looking for ASCII words in raw bytes.

use vstd::prelude::*;
use crate::text::{ascii_lower, chars_of, lower_char};

verus! {

/// A byte and a character are the same, or (with `fold`) the same but for the case of an ASCII letter.
pub open spec fn byte_is(b: u8, c: char, fold: bool) -> bool {
    if fold {
        ascii_lower(b as char) == ascii_lower(c)
    } else {
        b as char == c
    }
}

/// The word stands in `hay` at position `i`.
pub open spec fn word_at(hay: Seq<u8>, word: Seq<char>, i: int, fold: bool) -> bool {
    &&& 0 <= i <= hay.len() - word.len()
    &&& forall|k: int| 0 <= k < word.len() ==> byte_is(#[trigger] hay[i + k], word[k], fold)
}

/// The word stands somewhere in `hay`.
pub open spec fn has_word(hay: Seq<u8>, word: Seq<char>, fold: bool) -> bool {
    exists|i: int| word_at(hay, word, i, fold)
}

/// One ASCII letter in lower case; every other byte as the character of that number.
fn lower(b: u8) -> (c: char)
    ensures
        c == ascii_lower(b as char),
{
    if 65 <= b && b <= 90 {
        (b + 32) as char
    } else {
        b as char
    }
}

/// Where the word first stands in `hay`.
pub fn find_word(hay: &[u8], word: &str, fold: bool) -> (r: Option<usize>)
    ensures
        match r {
            Some(i) => word_at(hay@, word@, i as int, fold) && forall|j: int|
                0 <= j < i ==> !word_at(hay@, word@, j, fold),
            None => !has_word(hay@, word@, fold),
        },
{
    let w = chars_of(word);
    let n = hay.len();
    let m = w.len();
    if n < m {
        return None;
    }
    let last = n - m;
    let mut i: usize = 0;
    loop
        invariant
            n == hay@.len(),
            m == w@.len(),
            m <= n,
            last == n - m,
            i <= last,
            w@ == word@,
            forall|j: int| 0 <= j < i ==> !word_at(hay@, word@, j, fold),
        decreases last - i,
    {
        let mut k: usize = 0;
        let mut same = true;
        while same && k < m
            invariant
                n == hay@.len(),
                m == w@.len(),
                m <= n,
                i <= n - m,
                k <= m,
                w@ == word@,
                forall|j: int| 0 <= j < k ==> byte_is(#[trigger] hay@[i + j], word@[j], fold),
                !same ==> k < m && !byte_is(hay@[i + k], word@[k as int], fold),
            decreases m - k + (if same { 1int } else { 0int }),
        {
            let b = hay[i + k];
            let c = w[k];
            same = if fold {
                lower(b) == lower_char(c)
            } else {
                b as char == c
            };
            if same {
                k += 1;
            }
        }
        if same {
            return Some(i);
        }
        assert(!byte_is(hay@[i + k], word@[k as int], fold));
        if i == last {
            return None;
        }
        i += 1;
    }
}

/// A word is found where it first stands: the bytes there are its characters, or with `fold` the same letters in
/// any case, and it stands nowhere before. If it is not found it stands nowhere.
pub proof fn a_word_is_found_where_it_first_stands(hay: &[u8], word: &str, fold: bool, r: Option<usize>, j: int)
    requires
        call_ensures(find_word, (hay, word, fold), r),
        0 <= j,
        j + word@.len() <= hay@.len(),
    ensures
        r matches Some(i) ==> {
            &&& i + word@.len() <= hay@.len()
            &&& forall|k: int|
                0 <= k < word@.len() ==> {
                    ||| #[trigger] hay@[i + k] as char == word@[k]
                    ||| fold && ascii_lower(hay@[i + k] as char) == ascii_lower(word@[k])
                }
        },
        (forall|k: int|
            0 <= k < word@.len() ==> {
                ||| #[trigger] hay@[j + k] as char == word@[k]
                ||| fold && ascii_lower(hay@[j + k] as char) == ascii_lower(word@[k])
            }) ==> r is Some && r->0 <= j,
{
    if let Some(i) = r {
        assert forall|k: int| 0 <= k < word@.len() implies {
            ||| #[trigger] hay@[i + k] as char == word@[k]
            ||| fold && ascii_lower(hay@[i + k] as char) == ascii_lower(word@[k])
        } by {
            assert(byte_is(hay@[i + k], word@[k], fold));
        }
    }
    if forall|k: int|
        0 <= k < word@.len() ==> {
            ||| #[trigger] hay@[j + k] as char == word@[k]
            ||| fold && ascii_lower(hay@[j + k] as char) == ascii_lower(word@[k])
        } {
        assert(word_at(hay@, word@, j, fold));
        assert(has_word(hay@, word@, fold));
    }
}

} // verus!
