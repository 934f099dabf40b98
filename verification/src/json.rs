//! Text in JSON.

use vstd::prelude::*;
use crate::text::{decimal, push_decimal};

verus! {

/// A hexadecimal digit, letters in lower case.
pub open spec fn hex_digit(n: int) -> char {
    if n < 10 {
        (('0' as int) + n) as char
    } else {
        (('a' as int) + n - 10) as char
    }
}

/// A character inside a JSON string: quotes, backslashes and control characters are escaped.
pub open spec fn escaped(c: char) -> Seq<char> {
    let n = c as int;
    if c == '"' {
        seq!['\\', '"']
    } else if c == '\\' {
        seq!['\\', '\\']
    } else if n == 8 {
        seq!['\\', 'b']
    } else if n == 9 {
        seq!['\\', 't']
    } else if n == 10 {
        seq!['\\', 'n']
    } else if n == 12 {
        seq!['\\', 'f']
    } else if n == 13 {
        seq!['\\', 'r']
    } else if n < 32 {
        seq!['\\', 'u', '0', '0', hex_digit(n / 16), hex_digit(n % 16)]
    } else {
        seq![c]
    }
}

/// A text inside a JSON string.
pub open spec fn escaped_all(s: Seq<char>) -> Seq<char>
    decreases s.len(),
{
    if s.len() == 0 {
        seq![]
    } else {
        escaped_all(s.drop_last()) + escaped(s.last())
    }
}

/// A text as a JSON string.
pub open spec fn quoted(s: Seq<char>) -> Seq<char> {
    seq!['"'] + escaped_all(s) + seq!['"']
}

/// The text that `serde_json` writes for a string value: between quotes, with quotes, backslashes and the
/// control characters below U+0020 escaped, and every other character as it is.
#[verifier::external_body]
pub(crate) fn quote(s: &str) -> (r: String)
    ensures
        r@ == quoted(s@),
{
    serde_json::Value::from(s).to_string()
}

/// A number as JSON.
pub open spec fn signed(n: int) -> Seq<char> {
    if n < 0 {
        seq!['-'] + decimal((-n) as nat)
    } else {
        decimal(n as nat)
    }
}

/// Appends a number as JSON.
pub fn push_signed(s: &mut String, n: i64)
    ensures
        final(s)@ == old(s)@ + signed(n as int),
{
    if n < 0 {
        s.push('-');
        let size: u64 = if n == i64::MIN {
            0x8000_0000_0000_0000
        } else {
            (-n) as u64
        };
        push_decimal(s, size);
    } else {
        push_decimal(s, n as u64);
    }
    assert(s@ =~= old(s)@ + signed(n as int));
}

/// One member of an object: a name and a text.
pub open spec fn member(name: Seq<char>, value: Seq<char>) -> Seq<char> {
    seq!['"'] + name + "\":"@ + quoted(value)
}

/// Appends one member of an object. The name needs no escapes.
pub fn push_member(s: &mut String, name: &str, value: &str)
    ensures
        final(s)@ == old(s)@ + member(name@, value@),
{
    s.push('"');
    s.append(name);
    s.append("\":");
    s.append(quote(value).as_str());
    assert(s@ =~= old(s)@ + member(name@, value@));
}

/// A text as a JSON string holds no control character, whatever the text is.
pub proof fn quoted_text_is_printable(s: Seq<char>)
    ensures
        forall|i: int| 0 <= i < quoted(s).len() ==> (#[trigger] quoted(s)[i]) as u32 >= 0x20,
    decreases s.len(),
{
    lemma_escaped_is_printable(s);
    assert forall|i: int| 0 <= i < quoted(s).len() implies (#[trigger] quoted(s)[i]) as u32 >= 0x20 by {
        if 0 < i < quoted(s).len() - 1 {
            assert(quoted(s)[i] == escaped_all(s)[i - 1]);
        }
    }
}

/// An escape holds no control character.
proof fn lemma_escape_is_printable(c: char)
    ensures
        forall|j: int| 0 <= j < escaped(c).len() ==> (#[trigger] escaped(c)[j]) as u32 >= 0x20,
{
    let n = c as int;
    let b = escaped(c);
    assert forall|j: int| 0 <= j < b.len() implies (#[trigger] b[j]) as u32 >= 0x20 by {
        if b.len() == 6 {
            assert(0 <= n / 16 <= 1 && 0 <= n % 16 < 16);
            assert(j == 0 || j == 1 || j == 2 || j == 3 || j == 4 || j == 5);
        }
    }
}

/// A text inside a JSON string holds no control character.
proof fn lemma_escaped_is_printable(s: Seq<char>)
    ensures
        forall|i: int| 0 <= i < escaped_all(s).len() ==> (#[trigger] escaped_all(s)[i]) as u32 >= 0x20,
    decreases s.len(),
{
    if s.len() > 0 {
        lemma_escaped_is_printable(s.drop_last());
        let a = escaped_all(s.drop_last());
        let b = escaped(s.last());
        lemma_escape_is_printable(s.last());
        assert forall|i: int| 0 <= i < escaped_all(s).len() implies (#[trigger] escaped_all(s)[i]) as u32
            >= 0x20 by {
            if i < a.len() {
                assert(escaped_all(s)[i] == a[i]);
            } else {
                assert(escaped_all(s)[i] == b[i - a.len()]);
            }
        }
    }
}

/// A number is written in digits, behind a minus sign if it is negative, at the end of the text.
pub proof fn numbers_are_written_in_digits()
    ensures
        forall|s: &mut String, n: i64, u: ()| #[trigger]
            call_ensures(push_signed, (s, n), u) ==> {
                &&& n >= 0 ==> (*final(s))@ == (*s)@ + decimal(n as nat)
                &&& n < 0 ==> (*final(s))@ == (*s)@ + (seq!['-'] + decimal((-n) as nat))
            },
{
}

/// A member is its name between quotes, a colon, and its value as a JSON string, at the end of the text.
pub proof fn a_member_is_a_name_and_a_value()
    ensures
        forall|s: &mut String, name: &str, value: &str, u: ()| #[trigger]
            call_ensures(push_member, (s, name, value), u) ==> (*final(s))@ == (*s)@ + (seq!['"'] + name@ + seq!['"', ':']
                + quoted(value@)),
{
    reveal_strlit("\":");
    assert("\":"@ =~= seq!['"', ':']);
}

} // verus!
