//! Character-level helpers shared by the other modules, each with an exact contract
//! over `Seq<char>`.

use vstd::prelude::*;
use vstd::set_lib::{lemma_int_range, lemma_subset_equality, set_int_range};

verus! {

/// `String::push` appends one character to the end of the string.
pub assume_specification[ String::push ](s: &mut String, c: char)
    ensures
        final(s)@ == old(s)@.push(c),
;

/// The characters of a string, in order.
pub fn chars_of(s: &str) -> (v: Vec<char>)
    ensures
        v@ == s@,
{
    let mut v: Vec<char> = Vec::new();
    for c in it: s.chars()
        invariant
            v@ == s@.take(it.index()),
            it.seq() == s@,
    {
        v.push(c);
    }
    v
}

/// The string made of the characters `from..to`.
pub fn string_of_range(v: &[char], from: usize, to: usize) -> (s: String)
    requires
        from <= to <= v@.len(),
    ensures
        s@ == v@.subrange(from as int, to as int),
{
    let mut s = String::new();
    let mut i: usize = from;
    while i < to
        invariant
            from <= i <= to <= v@.len(),
            s@ == v@.subrange(from as int, i as int),
        decreases to - i,
    {
        s.push(v[i]);
        i += 1;
        assert(v@.subrange(from as int, i as int) == v@.subrange(from as int, i - 1).push(v@[i - 1]));
    }
    s
}

/// Whether two strings hold the same characters.
pub fn str_eq(a: &str, b: &str) -> (r: bool)
    ensures
        r == (a@ == b@),
{
    a.to_owned() == b.to_owned()
}

// ---- searching ----

/// The index of the first item equal to `c`, or the length if there is none.
pub open spec fn first_index<T>(s: Seq<T>, c: T) -> int
    decreases s.len(),
{
    if s.len() == 0 || s[0] == c {
        0
    } else {
        1 + first_index(s.drop_first(), c)
    }
}

/// One more than the index of the last item equal to `c`, or zero if there is none.
pub open spec fn after_last_index<T>(s: Seq<T>, c: T) -> int
    decreases s.len(),
{
    if s.len() == 0 || s.last() == c {
        s.len() as int
    } else {
        after_last_index(s.drop_last(), c)
    }
}

/// `first_index` is the only index with nothing equal to `c` before it and `c` (or the end) at it.
pub proof fn lemma_first_index<T>(s: Seq<T>, c: T, k: int)
    requires
        0 <= k <= s.len(),
        forall|i: int| 0 <= i < k ==> s[i] != c,
        k == s.len() || s[k] == c,
    ensures
        first_index(s, c) == k,
    decreases s.len(),
{
    if s.len() > 0 && s[0] != c {
        let t = s.drop_first();
        assert forall|i: int| 0 <= i < k - 1 implies t[i] != c by {
            assert(t[i] == s[i + 1]);
        }
        lemma_first_index(t, c, k - 1);
    }
}

/// `first_index` has nothing equal to `c` before it, and `c` at it unless it is the end.
pub proof fn lemma_first_index_facts<T>(s: Seq<T>, c: T)
    ensures
        0 <= first_index(s, c) <= s.len(),
        forall|i: int| 0 <= i < first_index(s, c) ==> s[i] != c,
        first_index(s, c) < s.len() ==> s[first_index(s, c)] == c,
    decreases s.len(),
{
    if s.len() > 0 && s[0] != c {
        let t = s.drop_first();
        lemma_first_index_facts(t, c);
        assert forall|i: int| 0 <= i < first_index(s, c) implies s[i] != c by {
            if i > 0 {
                assert(t[i - 1] == s[i]);
            }
        }
    }
}

/// `after_last_index` is the only cut with no `c` after it and `c` (or the start) just before it.
pub proof fn lemma_after_last_index<T>(s: Seq<T>, c: T, k: int)
    requires
        0 <= k <= s.len(),
        forall|i: int| k <= i < s.len() ==> s[i] != c,
        k == 0 || s[k - 1] == c,
    ensures
        after_last_index(s, c) == k,
    decreases s.len(),
{
    if s.len() > 0 && s.last() != c {
        let t = s.drop_last();
        assert(k < s.len() || s[k - 1] == s.last());
        assert forall|i: int| k <= i < t.len() implies t[i] != c by {
            assert(t[i] == s[i]);
        }
        lemma_after_last_index(t, c, k);
    }
}

/// The part of `s` before the first `c` (all of it where there is none).
pub open spec fn before_first(s: Seq<char>, c: char) -> Seq<char> {
    s.take(first_index(s, c))
}

/// The part of `s` after the last `c` (all of it where there is none).
pub open spec fn after_last(s: Seq<char>, c: char) -> Seq<char> {
    s.skip(after_last_index(s, c))
}

/// Finds the first `c` in `v[from..to]`, or `to`.
pub fn find_char(v: &[char], c: char, from: usize, to: usize) -> (k: usize)
    requires
        from <= to <= v@.len(),
    ensures
        k - from == first_index(v@.subrange(from as int, to as int), c),
        from <= k <= to,
        forall|i: int| from <= i < k ==> v@[i] != c,
        k < to ==> v@[k as int] == c,
{
    let mut k: usize = from;
    while k < to && v[k] != c
        invariant
            from <= k <= to <= v@.len(),
            forall|i: int| from <= i < k ==> v@[i] != c,
        decreases to - k,
    {
        k += 1;
    }
    proof {
        let s = v@.subrange(from as int, to as int);
        assert(forall|i: int| 0 <= i < s.len() ==> s[i] == v@[from + i]);
        lemma_first_index(s, c, k - from);
    }
    k
}

/// The part of `s` before the first `c` (all of it where there is none).
pub fn take_before_first(v: &[char], c: char) -> (s: String)
    ensures
        s@ == before_first(v@, c),
{
    let k = find_char(v, c, 0, v.len());
    assert(v@.subrange(0, v@.len() as int) == v@);
    string_of_range(v, 0, k)
}

/// One more than the index of the last `c`, or zero.
pub fn find_after_last(v: &[char], c: char) -> (k: usize)
    ensures
        k == after_last_index(v@, c),
        k <= v@.len(),
        forall|i: int| k <= i < v@.len() ==> v@[i] != c,
        k > 0 ==> v@[k - 1] == c,
{
    let mut k: usize = v.len();
    while k > 0 && v[k - 1] != c
        invariant
            k <= v@.len(),
            forall|i: int| k <= i < v@.len() ==> v@[i] != c,
        decreases k,
    {
        k -= 1;
    }
    proof {
        lemma_after_last_index(v@, c, k as int);
    }
    k
}

/// The parts of `s` between one `c` and the next.
pub open spec fn split_spec(s: Seq<char>, c: char) -> Seq<Seq<char>>
    decreases s.len(),
{
    let k = first_index(s, c);
    if 0 <= k < s.len() {
        seq![s.take(k)] + split_spec(s.skip(k + 1), c)
    } else {
        seq![s]
    }
}

/// The contents of strings.
pub open spec fn texts(v: Seq<String>) -> Seq<Seq<char>> {
    v.map_values(|s: String| s@)
}

/// Splits at every `c`.
pub fn split(v: &[char], c: char) -> (parts: Vec<String>)
    ensures
        texts(parts@) == split_spec(v@, c),
{
    let n = v.len();
    let mut parts: Vec<String> = Vec::new();
    let mut from: usize = 0;
    assert(v@.skip(0) =~= v@);
    assert(texts(parts@) + split_spec(v@, c) =~= split_spec(v@, c));
    loop
        invariant
            n == v@.len(),
            from <= n,
            texts(parts@) + split_spec(v@.skip(from as int), c) == split_spec(v@, c),
        decreases n - from,
    {
        let k = find_char(v, c, from, n);
        let ghost before = texts(parts@);
        let ghost rest = v@.skip(from as int);
        let one = string_of_range(v, from, k);
        proof {
            assert(rest =~= v@.subrange(from as int, n as int));
            assert(one@ =~= rest.take(k - from));
        }
        parts.push(one);
        proof {
            assert(texts(parts@) =~= before.push(rest.take(k - from)));
        }
        if k == n {
            proof {
                assert(rest.take(k - from) =~= rest);
                assert(texts(parts@) =~= before + seq![rest]);
            }
            return parts;
        }
        proof {
            assert(rest.skip(k - from + 1) =~= v@.skip(k + 1));
            assert(before + (seq![rest.take(k - from)] + split_spec(v@.skip(k + 1), c)) =~= texts(parts@)
                + split_spec(v@.skip(k + 1), c));
        }
        from = k + 1;
    }
}

/// What stands after the first `c`, if there is one.
pub open spec fn after_first(s: Seq<char>, c: char) -> Option<Seq<char>> {
    let k = first_index(s, c);
    if k < s.len() {
        Some(s.skip(k + 1))
    } else {
        None
    }
}

/// The value of the first `key=value` in `pairs`.
pub open spec fn value_of(pairs: Seq<Seq<char>>, key: Seq<char>) -> Option<Seq<char>>
    decreases pairs.len(),
{
    if pairs.len() == 0 {
        None
    } else {
        match after_first(pairs[0], '=') {
            Some(value) if before_first(pairs[0], '=') == key => Some(value),
            _ => value_of(pairs.drop_first(), key),
        }
    }
}

/// The value of a parameter in the query of a URL.
pub open spec fn query_param_spec(url: Seq<char>, key: Seq<char>) -> Option<Seq<char>> {
    match after_first(url, '?') {
        Some(query) => value_of(split_spec(query, '&'), key),
        None => None,
    }
}

/// The value of a parameter in the query of a URL: the first one of that name.
pub fn query_param(url: &str, key: &str) -> (r: Option<String>)
    ensures
        opt_view(r) == query_param_spec(url@, key@),
{
    let v = chars_of(url);
    let n = v.len();
    let q = find_char(&v, '?', 0, n);
    assert(v@.subrange(0, n as int) =~= v@);
    if q == n {
        return None;
    }
    let query = chars_of(string_of_range(&v, q + 1, n).as_str());
    assert(query@ =~= v@.skip(q + 1));
    let pairs = split(&query, '&');
    let ghost all = texts(pairs@);
    assert(all.skip(0) =~= all);
    for i in 0..pairs.len()
        invariant
            all == texts(pairs@),
            value_of(all.skip(i as int), key@) == query_param_spec(url@, key@),
    {
        let pair = chars_of(pairs[i].as_str());
        let m = pair.len();
        let e = find_char(&pair, '=', 0, m);
        proof {
            assert(pair@.subrange(0, m as int) =~= pair@);
            assert(all.skip(i as int)[0] == pair@);
            assert(all.skip(i as int).drop_first() =~= all.skip(i + 1));
        }
        if e < m {
            let name = string_of_range(&pair, 0, e);
            assert(name@ =~= before_first(pair@, '='));
            if str_eq(name.as_str(), key) {
                let value = string_of_range(&pair, e + 1, m);
                assert(value@ =~= pair@.skip(e + 1));
                return Some(value);
            }
        }
    }
    None
}

/// `v` ends in `tail`.
pub open spec fn ends_with_spec(v: Seq<char>, tail: Seq<char>) -> bool {
    v.len() >= tail.len() && v.skip(v.len() - tail.len()) == tail
}

/// `v` begins with `head`.
pub open spec fn starts_with_spec(v: Seq<char>, head: Seq<char>) -> bool {
    v.len() >= head.len() && v.take(head.len() as int) == head
}

/// Whether `v[from..]` starts with `tail`.
fn matches_at(v: &[char], from: usize, tail: &[char]) -> (r: bool)
    requires
        from + tail@.len() <= v@.len(),
    ensures
        r == (v@.subrange(from as int, from + tail@.len()) == tail@),
{
    let n = v.len();
    let mut i: usize = 0;
    while i < tail.len()
        invariant
            i <= tail@.len(),
            from + tail@.len() <= n == v@.len(),
            forall|j: int| 0 <= j < i ==> v@[from + j] == tail@[j],
        decreases tail@.len() - i,
    {
        if v[from + i] != tail[i] {
            assert(v@.subrange(from as int, from + tail@.len())[i as int] != tail@[i as int]);
            return false;
        }
        i += 1;
    }
    assert(v@.subrange(from as int, from + tail@.len()) =~= tail@);
    true
}

/// Whether a string ends in `tail`.
pub fn ends_with(s: &str, tail: &str) -> (r: bool)
    ensures
        r == ends_with_spec(s@, tail@),
{
    let v = chars_of(s);
    let t = chars_of(tail);
    if v.len() < t.len() {
        return false;
    }
    let from: usize = v.len() - t.len();
    assert(v@.subrange(from as int, from + t@.len()) =~= v@.skip(from as int));
    matches_at(v.as_slice(), from, t.as_slice())
}

/// Whether a string begins with `head`.
pub fn starts_with(s: &str, head: &str) -> (r: bool)
    ensures
        r == starts_with_spec(s@, head@),
{
    let v = chars_of(s);
    let t = chars_of(head);
    if v.len() < t.len() {
        return false;
    }
    assert(v@.subrange(0, t@.len() as int) =~= v@.take(t@.len() as int));
    matches_at(v.as_slice(), 0, t.as_slice())
}

// ---- numbers ----

/// The character of one decimal digit.
pub open spec fn digit_char(d: nat) -> char {
    ('0' as u32 + d as u32) as char
}

/// A number in decimal, without leading zeros.
pub open spec fn decimal(n: nat) -> Seq<char>
    decreases n,
{
    if n < 10 {
        seq![digit_char(n)]
    } else {
        decimal(n / 10).push(digit_char(n % 10))
    }
}

/// The character of one decimal digit.
fn digit(d: u64) -> (c: char)
    requires
        d < 10,
    ensures
        c == digit_char(d as nat),
{
    match d {
        0 => '0',
        1 => '1',
        2 => '2',
        3 => '3',
        4 => '4',
        5 => '5',
        6 => '6',
        7 => '7',
        8 => '8',
        _ => '9',
    }
}

/// Appends a number in decimal.
pub fn push_decimal(s: &mut String, n: u64)
    ensures
        final(s)@ == old(s)@ + decimal(n as nat),
    decreases n,
{
    if n < 10 {
        s.push(digit(n));
        assert(s@ =~= old(s)@ + decimal(n as nat));
    } else {
        push_decimal(s, n / 10);
        s.push(digit(n % 10));
        assert(s@ =~= old(s)@ + decimal(n as nat));
    }
}

// ---- letter case, control characters and white space ----

/// One ASCII letter in lower case; every other character is kept.
pub open spec fn ascii_lower(c: char) -> char {
    if 'A' <= c <= 'Z' {
        (c as u32 + 32) as char
    } else {
        c
    }
}

/// A string with its ASCII letters in lower case.
pub open spec fn ascii_lower_all(s: Seq<char>) -> Seq<char> {
    s.map_values(|c: char| ascii_lower(c))
}

/// What `str::to_lowercase` makes of a string: the Unicode lower case.
pub uninterp spec fn lowercase(s: Seq<char>) -> Seq<char>;

/// `str::to_lowercase`: a function of the string alone. On a string of ASCII characters it
/// lowers the letters `A` to `Z` and keeps the rest.
#[verifier::external_body]
pub(crate) fn to_lowercase(s: &str) -> (r: String)
    ensures
        r@ == lowercase(s@),
        (forall|i: int| 0 <= i < s@.len() ==> (s@[i] as u32) < 128) ==> r@ == ascii_lower_all(s@),
{
    s.to_lowercase()
}

/// One ASCII letter in lower case; every other character is kept.
pub fn lower_char(c: char) -> (r: char)
    ensures
        r == ascii_lower(c),
{
    if 'A' <= c && c <= 'Z' {
        ((c as u8) + 32) as char
    } else {
        c
    }
}

/// Whether two strings are equal but for the case of ASCII letters.
pub fn eq_ignore_ascii_case(a: &str, b: &str) -> (r: bool)
    ensures
        r == (ascii_lower_all(a@) == ascii_lower_all(b@)),
{
    let v = chars_of(a);
    let w = chars_of(b);
    if v.len() != w.len() {
        assert(ascii_lower_all(a@).len() != ascii_lower_all(b@).len());
        return false;
    }
    for i in 0..v.len()
        invariant
            v@ == a@,
            w@ == b@,
            v@.len() == w@.len(),
            forall|j: int| 0 <= j < i ==> ascii_lower(a@[j]) == ascii_lower(b@[j]),
    {
        if lower_char(v[i]) != lower_char(w[i]) {
            assert(ascii_lower_all(a@)[i as int] != ascii_lower_all(b@)[i as int]);
            return false;
        }
    }
    assert(ascii_lower_all(a@) =~= ascii_lower_all(b@));
    true
}

/// A string with its ASCII letters in lower case.
pub fn to_ascii_lowercase(s: &str) -> (r: String)
    ensures
        r@ == ascii_lower_all(s@),
{
    let v = chars_of(s);
    let mut r = String::new();
    for i in 0..v.len()
        invariant
            v@ == s@,
            r@ == ascii_lower_all(s@.take(i as int)),
    {
        r.push(lower_char(v[i]));
        assert(ascii_lower_all(s@.take(i + 1)) =~= ascii_lower_all(s@.take(i as int)).push(ascii_lower(s@[i as int])));
    }
    assert(s@.take(s@.len() as int) == s@);
    r
}

/// The control characters (general category Cc).
pub open spec fn is_control_spec(c: char) -> bool {
    (c as u32) < 0x20 || 0x7f <= (c as u32) <= 0x9f
}

/// The characters of the Unicode property White_Space.
pub open spec fn is_space_spec(c: char) -> bool {
    let n = c as u32;
    9 <= n <= 13 || n == 0x20 || n == 0x85 || n == 0xa0 || n == 0x1680 || 0x2000 <= n <= 0x200a || n == 0x2028
        || n == 0x2029 || n == 0x202f || n == 0x205f || n == 0x3000
}

/// Whether a character is a control character.
pub fn is_control(c: char) -> (r: bool)
    ensures
        r == is_control_spec(c),
{
    let n = c as u32;
    n < 0x20 || (0x7f <= n && n <= 0x9f)
}

/// Whether a character is white space.
pub fn is_space(c: char) -> (r: bool)
    ensures
        r == is_space_spec(c),
{
    let n = c as u32;
    (9 <= n && n <= 13) || n == 0x20 || n == 0x85 || n == 0xa0 || n == 0x1680 || (0x2000 <= n && n <= 0x200a)
        || n == 0x2028 || n == 0x2029 || n == 0x202f || n == 0x205f || n == 0x3000
}

/// A sequence without the white space at its start.
pub open spec fn trim_start_spec(s: Seq<char>) -> Seq<char>
    decreases s.len(),
{
    if s.len() > 0 && is_space_spec(s[0]) {
        trim_start_spec(s.drop_first())
    } else {
        s
    }
}

/// A sequence without the white space at its end.
pub open spec fn trim_end_spec(s: Seq<char>) -> Seq<char>
    decreases s.len(),
{
    if s.len() > 0 && is_space_spec(s.last()) {
        trim_end_spec(s.drop_last())
    } else {
        s
    }
}

/// A sequence without the white space at both ends.
pub open spec fn trim_spec(s: Seq<char>) -> Seq<char> {
    trim_end_spec(trim_start_spec(s))
}

/// A string without the white space at both ends.
pub fn trim(v: &[char]) -> (r: String)
    ensures
        r@ == trim_spec(v@),
{
    let mut a: usize = 0;
    assert(v@.subrange(0, v@.len() as int) == v@);
    while a < v.len() && is_space(v[a])
        invariant
            a <= v@.len(),
            trim_start_spec(v@.subrange(a as int, v@.len() as int)) == trim_start_spec(v@),
        decreases v@.len() - a,
    {
        assert(v@.subrange(a as int, v@.len() as int).drop_first() =~= v@.subrange(a + 1, v@.len() as int));
        a += 1;
    }
    let mut b: usize = v.len();
    while b > a && is_space(v[b - 1])
        invariant
            a <= b <= v@.len(),
            trim_end_spec(v@.subrange(a as int, b as int)) == trim_end_spec(
                v@.subrange(a as int, v@.len() as int),
            ),
        decreases b,
    {
        assert(v@.subrange(a as int, b as int).drop_last() =~= v@.subrange(a as int, b - 1));
        b -= 1;
    }
    string_of_range(v, a, b)
}

// ---- order ----

/// The order of strings: the first character that differs decides, and a proper prefix is smaller.
pub open spec fn lex_less(a: Seq<char>, b: Seq<char>) -> bool
    decreases a.len(),
{
    if b.len() == 0 {
        false
    } else if a.len() == 0 {
        true
    } else if a[0] != b[0] {
        a[0] < b[0]
    } else {
        lex_less(a.drop_first(), b.drop_first())
    }
}

/// Of two different strings exactly one is the smaller; none is smaller than itself.
pub proof fn lemma_lex_total(a: Seq<char>, b: Seq<char>)
    ensures
        lex_less(a, b) ==> !lex_less(b, a),
        a == b ==> !lex_less(a, b),
        a != b ==> lex_less(a, b) || lex_less(b, a),
    decreases a.len(),
{
    if a.len() == 0 || b.len() == 0 {
        assert(a.len() == 0 && b.len() == 0 ==> a =~= b);
    } else if a[0] == b[0] {
        lemma_lex_total(a.drop_first(), b.drop_first());
        if a.drop_first() == b.drop_first() {
            assert(a =~= seq![a[0]] + a.drop_first());
            assert(b =~= seq![b[0]] + b.drop_first());
        }
    }
}

/// The order of strings is transitive.
pub proof fn lemma_lex_transitive(a: Seq<char>, b: Seq<char>, c: Seq<char>)
    requires
        lex_less(a, b),
        lex_less(b, c),
    ensures
        lex_less(a, c),
    decreases a.len(),
{
    if a.len() > 0 && a[0] == b[0] && b[0] == c[0] {
        lemma_lex_transitive(a.drop_first(), b.drop_first(), c.drop_first());
    }
}

/// Pairs of strings are ordered by their first part, then by their second.
pub open spec fn pair_less(a: (Seq<char>, Seq<char>), b: (Seq<char>, Seq<char>)) -> bool {
    lex_less(a.0, b.0) || (a.0 == b.0 && lex_less(a.1, b.1))
}

/// `pair_less` is a strict total order.
pub proof fn lemma_pair_total(a: (Seq<char>, Seq<char>), b: (Seq<char>, Seq<char>))
    ensures
        pair_less(a, b) ==> !pair_less(b, a),
        a == b ==> !pair_less(a, b),
        a != b ==> pair_less(a, b) || pair_less(b, a),
{
    lemma_lex_total(a.0, b.0);
    lemma_lex_total(a.1, b.1);
}

/// What is not greater than something not greater than `c` is not greater than `c`.
pub proof fn lemma_pair_transitive(
    a: (Seq<char>, Seq<char>),
    b: (Seq<char>, Seq<char>),
    c: (Seq<char>, Seq<char>),
)
    requires
        !pair_less(b, a),
        !pair_less(c, b),
    ensures
        !pair_less(c, a),
{
    lemma_lex_total(a.0, b.0);
    lemma_lex_total(b.0, c.0);
    lemma_lex_total(a.0, c.0);
    lemma_lex_total(a.1, b.1);
    lemma_lex_total(b.1, c.1);
    lemma_lex_total(a.1, c.1);
    if lex_less(a.0, b.0) && lex_less(b.0, c.0) {
        lemma_lex_transitive(a.0, b.0, c.0);
    }
    if lex_less(a.1, b.1) && lex_less(b.1, c.1) {
        lemma_lex_transitive(a.1, b.1, c.1);
    }
}

/// Whether `a` comes before `b` in the order of strings.
pub fn str_less(a: &str, b: &str) -> (r: bool)
    ensures
        r == lex_less(a@, b@),
{
    let v = chars_of(a);
    let w = chars_of(b);
    let mut i: usize = 0;
    assert(a@.skip(0) == a@);
    assert(b@.skip(0) == b@);
    while i < v.len() && i < w.len() && v[i] == w[i]
        invariant
            v@ == a@,
            w@ == b@,
            i <= v@.len(),
            i <= w@.len(),
            lex_less(a@.skip(i as int), b@.skip(i as int)) == lex_less(a@, b@),
        decreases v@.len() - i,
    {
        assert(a@.skip(i as int).drop_first() =~= a@.skip(i + 1));
        assert(b@.skip(i as int).drop_first() =~= b@.skip(i + 1));
        i += 1;
    }
    if i >= w.len() {
        false
    } else if i >= v.len() {
        true
    } else {
        v[i] < w[i]
    }
}

/// The pair that a key stands for.
pub open spec fn key_view(k: (String, String)) -> (Seq<char>, Seq<char>) {
    (k.0@, k.1@)
}

/// Whether the pair `a` comes before the pair `b`.
pub fn key_less(a: &(String, String), b: &(String, String)) -> (r: bool)
    ensures
        r == pair_less(key_view(*a), key_view(*b)),
{
    str_less(a.0.as_str(), b.0.as_str()) || (str_eq(a.0.as_str(), b.0.as_str()) && str_less(
        a.1.as_str(),
        b.1.as_str(),
    ))
}

/// `order` lists every index below `n` once.
pub open spec fn is_permutation(order: Seq<usize>, n: nat) -> bool {
    &&& order.len() == n
    &&& forall|i: int| 0 <= i < order.len() ==> (#[trigger] order[i]) < n
    &&& forall|i: int, j: int| 0 <= i < j < order.len() ==> order[i] != order[j]
}

/// The keys come in ascending order when read along `order`.
pub open spec fn is_ascending(keys: Seq<(String, String)>, order: Seq<usize>) -> bool {
    forall|i: int, j: int|
        0 <= i < j < order.len() ==> !pair_less(
            key_view(keys[#[trigger] order[j] as int]),
            key_view(keys[#[trigger] order[i] as int]),
        )
}

/// The order in which the keys ascend.
pub fn sorted_order(keys: &Vec<(String, String)>) -> (order: Vec<usize>)
    ensures
        is_permutation(order@, keys@.len()),
        is_ascending(keys@, order@),
{
    let mut order: Vec<usize> = Vec::new();
    for k in 0..keys.len()
        invariant
            is_permutation(order@, k as nat),
            is_ascending(keys@, order@),
    {
        let mut at: usize = 0;
        while at < order.len() && !key_less(&keys[k], &keys[order[at]])
            invariant
                k < keys@.len(),
                at <= order@.len(),
                is_permutation(order@, k as nat),
                forall|i: int|
                    0 <= i < at ==> !pair_less(
                        key_view(keys@[k as int]),
                        key_view(keys@[#[trigger] order@[i] as int]),
                    ),
            decreases order@.len() - at,
        {
            at += 1;
        }
        let ghost before = order@;
        order.insert(at, k);
        proof {
            let after = order@;
            assert(after =~= before.insert(at as int, k));
            assert forall|i: int, j: int| 0 <= i < j < after.len() implies !pair_less(
                key_view(keys@[#[trigger] after[j] as int]),
                key_view(keys@[#[trigger] after[i] as int]),
            ) by {
                let x = key_view(keys@[after[i] as int]);
                let y = key_view(keys@[after[j] as int]);
                let old_i = if i < at { i } else { i - 1 };
                let old_j = if j < at { j } else { j - 1 };
                if i == at {
                    let next = key_view(keys@[before[at as int] as int]);
                    lemma_pair_total(x, next);
                    if old_j > at {
                        assert(!pair_less(key_view(keys@[before[old_j] as int]), next));
                        lemma_pair_transitive(x, next, y);
                    }
                } else if j == at {
                    assert(before[i] == after[i]);
                } else {
                    assert(before[old_i] == after[i] && before[old_j] == after[j]);
                }
            }
            assert(is_permutation(after, (k + 1) as nat));
        }
    }
    order
}

// ---- numbers ----

/// A decimal digit.
pub open spec fn is_digit_spec(c: char) -> bool {
    '0' <= c <= '9'
}

/// Nothing but decimal digits.
pub open spec fn all_digits(s: Seq<char>) -> bool {
    forall|i: int| 0 <= i < s.len() ==> is_digit_spec(#[trigger] s[i])
}

/// The number that decimal digits stand for.
pub open spec fn number(s: Seq<char>) -> int
    decreases s.len(),
{
    if s.len() == 0 {
        0
    } else {
        10 * number(s.drop_last()) + (s.last() as int - '0' as int)
    }
}

/// The whole number, at most `max`, that a text stands for: decimal digits, perhaps after a plus sign.
pub open spec fn whole_number(s: Seq<char>, max: int) -> Option<int> {
    let digits = if s.len() > 0 && s[0] == '+' {
        s.skip(1)
    } else {
        s
    };
    if digits.len() > 0 && all_digits(digits) && number(digits) <= max {
        Some(number(digits))
    } else {
        None
    }
}

/// The number that digits stand for is not smaller for more digits.
pub proof fn lemma_number_grows(s: Seq<char>, k: int)
    requires
        all_digits(s),
        0 <= k <= s.len(),
    ensures
        0 <= number(s.take(k)) <= number(s),
    decreases s.len(),
{
    if k < s.len() {
        assert(s.take(k) =~= s.drop_last().take(k));
        assert(is_digit_spec(s.last()));
        assert forall|i: int| 0 <= i < s.drop_last().len() implies is_digit_spec(#[trigger] s.drop_last()[i]) by {
            assert(is_digit_spec(s[i]));
        }
        lemma_number_grows(s.drop_last(), k);
    } else {
        assert(s.take(k) =~= s);
        if s.len() > 0 {
            assert(is_digit_spec(s.last()));
            assert forall|i: int| 0 <= i < s.drop_last().len() implies is_digit_spec(
                #[trigger] s.drop_last()[i],
            ) by {
                assert(is_digit_spec(s[i]));
            }
            lemma_number_grows(s.drop_last(), k - 1);
        }
    }
}

/// The whole number, at most `max`, that a text stands for.
pub fn parse_whole(s: &str, max: u32) -> (r: Option<u32>)
    ensures
        match r {
            Some(n) => whole_number(s@, max as int) == Some(n as int),
            None => whole_number(s@, max as int) is None,
        },
{
    let v = chars_of(s);
    let n = v.len();
    let from: usize = if n > 0 && v[0] == '+' {
        1
    } else {
        0
    };
    let ghost digits = if s@.len() > 0 && s@[0] == '+' {
        s@.skip(1)
    } else {
        s@
    };
    if from == n {
        return None;
    }
    let mut value: u64 = 0;
    let mut i: usize = from;
    while i < n
        invariant
            n == v@.len(),
            v@ == s@,
            from <= i <= n,
            digits.len() == n - from,
            forall|j: int| 0 <= j < digits.len() ==> #[trigger] digits[j] == v@[from + j],
            digits == (if s@.len() > 0 && s@[0] == '+' {
                s@.skip(1)
            } else {
                s@
            }),
            forall|j: int| 0 <= j < i - from ==> is_digit_spec(#[trigger] digits[j]),
            value == number(digits.take(i - from)),
            value <= max,
        decreases n - i,
    {
        let c = v[i];
        let ghost k = i - from;
        assert(digits[k] == c);
        if !('0' <= c && c <= '9') {
            assert(!is_digit_spec(digits[k]));
            return None;
        }
        assert(digits.take(k + 1).drop_last() =~= digits.take(k));
        value = 10 * value + (c as u64 - 48);
        if value > max as u64 {
            proof {
                if all_digits(digits) {
                    lemma_number_grows(digits, k + 1);
                }
            }
            return None;
        }
        i += 1;
    }
    assert(digits.take(n - from) =~= digits);
    Some(value as u32)
}

// ---- file names ----

/// A file name that stands for an entry of a directory.
pub open spec fn is_plain_name(name: Seq<char>) -> bool {
    &&& name.len() > 0
    &&& name != seq!['.']
    &&& name != seq!['.', '.']
}

/// A path with every backslash as a slash.
pub open spec fn unified(path: Seq<char>) -> Seq<char> {
    path.map_values(
        |c: char|
            if c == '\\' {
                '/'
            } else {
                c
            },
    )
}

/// What follows the last separator of a path, be it a slash or a backslash.
pub open spec fn file_name(path: Seq<char>) -> Seq<char> {
    after_last(unified(path), '/')
}

/// A path that starts with two separators.
pub open spec fn starts_with_two_separators(path: Seq<char>) -> bool {
    path.len() >= 2 && unified(path)[0] == '/' && unified(path)[1] == '/'
}

/// A path such as `\\server\share\song.mp3`: two separators, the name of a server, the name of a share and
/// something below it. A server whose name starts like the prefix of a device, `?` or `.`, is left out.
pub open spec fn is_below_share(path: Seq<char>) -> bool {
    let u = unified(path);
    &&& starts_with_two_separators(path)
    &&& path.len() > 2 && u[2] != '?' && u[2] != '.'
    &&& exists|i: int, j: int|
        2 < i && i + 1 < j < u.len() && #[trigger] u[i] == '/' && #[trigger] u[j] == '/' && (forall|k: int|
            2 <= k < j && k != i ==> u[k] != '/')
}

/// A path without the slashes at its end.
pub open spec fn without_end_slashes(path: Seq<char>) -> Seq<char>
    decreases path.len(),
{
    if path.len() > 0 && path.last() == '/' {
        without_end_slashes(path.drop_last())
    } else {
        path
    }
}

/// A path whose extension is the same on every platform, whether or not a backslash separates there and a
/// letter with a colon names a drive. Slashes at its end do not count. Without them: where it starts
/// with two separators it is below a share, it is not a name right behind a drive, it has a plain
/// name at its end, and where it holds a backslash that name has an extension.
pub open spec fn is_portable_path(path: Seq<char>) -> bool {
    let p = without_end_slashes(path);
    &&& starts_with_two_separators(p) ==> is_below_share(p)
    &&& !(p.len() >= 2 && p[1] == ':' && file_name(p) == p)
    &&& is_plain_name(file_name(p))
    &&& p.contains('\\') ==> name_extension(file_name(p)) is Some
}

/// The extension of a path: that of the file name at its end.
pub open spec fn extension_in(path: Seq<char>) -> Option<Seq<char>> {
    name_extension(file_name(without_end_slashes(path)))
}

/// The part of a file name after its last dot, unless there is no dot or only one at the start.
pub open spec fn name_extension(name: Seq<char>) -> Option<Seq<char>> {
    let k = after_last_index(name, '.');
    if k <= 1 {
        None
    } else {
        Some(name.skip(k))
    }
}

/// The characters of an optional string.
pub open spec fn opt_view(s: Option<String>) -> Option<Seq<char>> {
    match s {
        Some(t) => Some(t@),
        None => None,
    }
}

/// `std::path::Path::extension` on a UTF-8 path, as text. What separates the components of a path
/// depends on the platform; the contract covers the paths whose extension is the same on all of
/// them, and there it is the part of the file name after its last dot; slashes at the end of the path do not
/// count. On every platform a path without a dot has none.
#[verifier::external_body]
pub(crate) fn path_extension(path: &str) -> (r: Option<String>)
    ensures
        is_portable_path(path@) ==> opt_view(r) == extension_in(path@),
        !path@.contains('.') ==> r is None,
{
    std::path::Path::new(path).extension().and_then(|e| e.to_str()).map(|e| e.to_string())
}

/// An order that lists every index once lists this one.
pub proof fn lemma_every_index_is_listed(order: Seq<usize>, n: nat, k: int)
    requires
        is_permutation(order, n),
        0 <= k < n,
    ensures
        exists|i: int| 0 <= i < order.len() && #[trigger] order[i] as int == k,
{
    let v = order.map_values(|x: usize| x as int);
    assert(v.no_duplicates()) by {
        assert forall|i: int, j: int| 0 <= i < v.len() && 0 <= j < v.len() && i != j implies v[i] != v[j] by {
            if i < j {
                assert(order[i] != order[j]);
            } else {
                assert(order[j] != order[i]);
            }
        }
    }
    v.unique_seq_to_set();
    let all = set_int_range(0, n as int);
    lemma_int_range(0, n as int);
    assert(v.to_set().subset_of(all)) by {
        assert forall|x: int| v.to_set().contains(x) implies all.contains(x) by {
            let i = choose|i: int| 0 <= i < v.len() && v[i] == x;
            assert(order[i] < n);
        }
    }
    lemma_subset_equality(v.to_set(), all);
    assert(all.contains(k));
    assert(v.contains(k));
    let i = choose|i: int| 0 <= i < v.len() && v[i] == k;
    assert(order[i] as int == k);
}

// ---- what holds of texts ----

/// Lower case changes the letters A to Z and nothing else.
pub proof fn lower_case_changes_capital_letters_only(s: &str, r: String, i: int)
    requires
        call_ensures(to_ascii_lowercase, (s,), r),
        0 <= i < s@.len(),
    ensures
        r@.len() == s@.len(),
        'A' <= s@[i] <= 'Z' ==> r@[i] as int == s@[i] as int + 32,
        !('A' <= s@[i] <= 'Z') ==> r@[i] == s@[i],
{
}

/// Two strings are equal without regard to case exactly if each pair of characters is equal or the same letter.
pub proof fn case_makes_no_difference(a: &str, b: &str, r: bool)
    requires
        call_ensures(eq_ignore_ascii_case, (a, b), r),
    ensures
        r <==> a@.len() == b@.len() && forall|i: int|
            0 <= i < a@.len() ==> {
                ||| #[trigger] a@[i] == b@[i]
                ||| 'A' <= a@[i] <= 'Z' && b@[i] as int == a@[i] as int + 32
                ||| 'A' <= b@[i] <= 'Z' && a@[i] as int == b@[i] as int + 32
            },
{
    let x = ascii_lower_all(a@);
    let y = ascii_lower_all(b@);
    if x == y {
        assert forall|i: int| 0 <= i < a@.len() implies {
            ||| #[trigger] a@[i] == b@[i]
            ||| 'A' <= a@[i] <= 'Z' && b@[i] as int == a@[i] as int + 32
            ||| 'A' <= b@[i] <= 'Z' && a@[i] as int == b@[i] as int + 32
        } by {
            assert(x[i] == ascii_lower(a@[i]) && y[i] == ascii_lower(b@[i]));
        }
        assert(x.len() == a@.len() && y.len() == b@.len());
    }
    if a@.len() == b@.len() && (forall|i: int|
        0 <= i < a@.len() ==> {
            ||| #[trigger] a@[i] == b@[i]
            ||| 'A' <= a@[i] <= 'Z' && b@[i] as int == a@[i] as int + 32
            ||| 'A' <= b@[i] <= 'Z' && a@[i] as int == b@[i] as int + 32
        }) {
        assert forall|i: int| 0 <= i < x.len() implies x[i] == y[i] by {
            assert(a@[i] == a@[i]);
        }
        assert(x =~= y);
    }
}

/// A string ends in another, or begins with it, exactly if the other stands there character by character.
pub proof fn ends_and_beginnings_are_told_by_every_character(s: &str, t: &str, ends: bool, begins: bool)
    requires
        call_ensures(ends_with, (s, t), ends),
        call_ensures(starts_with, (s, t), begins),
    ensures
        ends <==> s@.len() >= t@.len() && forall|i: int|
            0 <= i < t@.len() ==> s@[s@.len() - t@.len() + i] == #[trigger] t@[i],
        begins <==> s@.len() >= t@.len() && forall|i: int| 0 <= i < t@.len() ==> s@[i] == #[trigger] t@[i],
{
    if s@.len() >= t@.len() {
        let d = s@.len() - t@.len();
        let tail = s@.skip(d);
        let head = s@.take(t@.len() as int);
        assert forall|i: int| 0 <= i < t@.len() implies tail[i] == s@[d + i] && head[i] == s@[i] by {}
        if forall|i: int| 0 <= i < t@.len() ==> s@[d + i] == #[trigger] t@[i] {
            assert(tail =~= t@);
        }
        if forall|i: int| 0 <= i < t@.len() ==> s@[i] == #[trigger] t@[i] {
            assert(head =~= t@);
        }
        if tail == t@ {
            assert forall|i: int| 0 <= i < t@.len() implies s@[d + i] == #[trigger] t@[i] by {
                assert(tail[i] == t@[i]);
            }
        }
        if head == t@ {
            assert forall|i: int| 0 <= i < t@.len() implies s@[i] == #[trigger] t@[i] by {
                assert(head[i] == t@[i]);
            }
        }
    }
}

/// `a` and `b` are the same up to place `k`, and there `a` ends or has the smaller character.
pub open spec fn comes_first_at(a: Seq<char>, b: Seq<char>, k: int) -> bool {
    &&& 0 <= k <= a.len()
    &&& k < b.len()
    &&& forall|i: int| 0 <= i < k ==> a[i] == b[i]
    &&& k == a.len() || a[k] < b[k]
}

/// Strings are ordered by the first place where they differ; one that ends there comes first.
pub proof fn the_first_difference_decides(a: &str, b: &str, r: bool)
    requires
        call_ensures(str_less, (a, b), r),
    ensures
        r <==> exists|k: int| comes_first_at(a@, b@, k),
{
    lemma_first_difference(a@, b@);
}

/// The order of strings goes by their first difference.
proof fn lemma_first_difference(a: Seq<char>, b: Seq<char>)
    ensures
        lex_less(a, b) <==> exists|k: int| comes_first_at(a, b, k),
    decreases a.len(),
{
    if a.len() > 0 && b.len() > 0 && a[0] == b[0] {
        let x = a.drop_first();
        let y = b.drop_first();
        lemma_first_difference(x, y);
        if exists|k: int| comes_first_at(x, y, k) {
            let k = choose|k: int| comes_first_at(x, y, k);
            assert forall|i: int| 0 <= i < k + 1 implies a[i] == b[i] by {
                if i > 0 {
                    assert(x[i - 1] == y[i - 1]);
                }
            }
            assert(comes_first_at(a, b, k + 1));
        }
        if exists|k: int| comes_first_at(a, b, k) {
            let k = choose|k: int| comes_first_at(a, b, k);
            assert(comes_first_at(x, y, k - 1));
        }
    } else if a.len() == 0 && b.len() > 0 {
        assert(comes_first_at(a, b, 0));
    } else if a.len() > 0 && b.len() > 0 {
        if a[0] < b[0] {
            assert(comes_first_at(a, b, 0));
        } else if exists|k: int| comes_first_at(a, b, k) {
            let k = choose|k: int| comes_first_at(a, b, k);
            assert(k > 0 ==> a[0] == b[0]);
        }
    }
}

/// A number written in decimal is read back, and has no zero in front.
pub proof fn decimal_numbers_are_read_back(n: nat)
    ensures
        decimal(n).len() > 0,
        all_digits(decimal(n)),
        number(decimal(n)) == n,
        n > 0 ==> decimal(n)[0] != '0',
    decreases n,
{
    if n >= 10 {
        decimal_numbers_are_read_back(n / 10);
        let rest = decimal(n / 10);
        let all = decimal(n);
        assert(all.drop_last() =~= rest);
        assert(all.last() as int - '0' as int == n % 10);
        assert forall|i: int| 0 <= i < all.len() implies is_digit_spec(#[trigger] all[i]) by {
            if i < rest.len() {
                assert(is_digit_spec(rest[i]));
            }
        }
    } else {
        let all = decimal(n);
        assert(all.drop_last() =~= Seq::<char>::empty());
        assert(number(all.drop_last()) == 0);
        assert(all.last() as int - '0' as int == n);
    }
}

/// A whole number is read as it was written, with or without a plus sign, if it is not too large; nothing else is read
/// as a number.
pub proof fn whole_numbers_are_read_as_written(s: &str, max: u32, n: nat, r: Option<u32>)
    requires
        call_ensures(parse_whole, (s, max), r),
    ensures
        s@ == decimal(n) || s@ == seq!['+'] + decimal(n) ==> (n <= max ==> r == Some(n as u32)) && (n > max ==> r is None),
        r is Some ==> {
            &&& s@.len() > 0
            &&& '0' <= s@.last() <= '9'
            &&& forall|i: int| 0 <= i < s@.len() ==> '0' <= #[trigger] s@[i] <= '9' || (i == 0 && s@[i] == '+')
        },
{
    decimal_numbers_are_read_back(n);
    if s@ == seq!['+'] + decimal(n) {
        assert(s@.skip(1) =~= decimal(n));
        assert(s@[0] == '+');
    } else if s@ == decimal(n) {
        assert(is_digit_spec(s@[0]));
    }
    if r is Some {
        let digits = if s@[0] == '+' {
            s@.skip(1)
        } else {
            s@
        };
        assert(is_digit_spec(digits[digits.len() - 1]));
        assert forall|i: int| 0 <= i < s@.len() implies '0' <= #[trigger] s@[i] <= '9' || (i == 0 && s@[i]
            == '+') by {
            if s@[0] == '+' && i > 0 {
                assert(is_digit_spec(digits[i - 1]));
            } else if s@[0] != '+' {
                assert(is_digit_spec(digits[i]));
            }
        }
    }
}

/// Texts with a separator between one and the next.
pub open spec fn joined_by(parts: Seq<Seq<char>>, c: char) -> Seq<char>
    decreases parts.len(),
{
    if parts.len() == 0 {
        Seq::empty()
    } else if parts.len() == 1 {
        parts[0]
    } else {
        parts[0] + seq![c] + joined_by(parts.drop_first(), c)
    }
}

/// A text is split at every separator and nowhere else: no part holds one, and with one between the parts they are the
/// text again.
pub proof fn parts_are_what_lies_between_separators(v: &[char], c: char, parts: Vec<String>, i: int)
    requires
        call_ensures(split, (v, c), parts),
    ensures
        parts@.len() > 0,
        joined_by(texts(parts@), c) == v@,
        0 <= i < parts@.len() ==> !parts@[i]@.contains(c),
{
    lemma_split_joins(v@, c);
    if 0 <= i < parts@.len() {
        assert(texts(parts@)[i] == parts@[i]@);
    }
}

/// Splitting and joining again.
proof fn lemma_split_joins(s: Seq<char>, c: char)
    ensures
        split_spec(s, c).len() > 0,
        joined_by(split_spec(s, c), c) == s,
        forall|i: int| 0 <= i < split_spec(s, c).len() ==> !(#[trigger] split_spec(s, c)[i]).contains(c),
    decreases s.len(),
{
    lemma_first_index_facts(s, c);
    let k = first_index(s, c);
    let all = split_spec(s, c);
    if k < s.len() {
        let rest = split_spec(s.skip(k + 1), c);
        lemma_split_joins(s.skip(k + 1), c);
        assert(all.drop_first() =~= rest);
        assert(s =~= s.take(k) + seq![c] + s.skip(k + 1));
        assert forall|i: int| 0 <= i < all.len() implies !(#[trigger] all[i]).contains(c) by {
            if i > 0 {
                assert(all[i] == rest[i - 1]);
            }
        }
    } else {
        assert(all =~= seq![s]);
    }
}

/// What stands before the first separator holds none, and the text goes on with one or ends there.
pub proof fn the_first_part_ends_at_the_first_separator(v: &[char], c: char, s: String)
    requires
        call_ensures(take_before_first, (v, c), s),
    ensures
        !s@.contains(c),
        s@.len() <= v@.len(),
        s@ == v@.take(s@.len() as int),
        s@.len() < v@.len() ==> v@[s@.len() as int] == c,
{
    lemma_first_index_facts(v@, c);
}

/// The value of a parameter is what follows its name and `=`, up to the next `&`. The first one of its name counts, and
/// pairs with other names make no difference. Without a question mark there are no parameters.
pub proof fn the_first_parameter_of_a_name_counts(
    base: Seq<char>,
    key: Seq<char>,
    value: Seq<char>,
    rest: Seq<char>,
    other: Seq<char>,
)
    requires
        !base.contains('?'),
        !key.contains('=') && !key.contains('&'),
        !value.contains('&'),
        !other.contains('&'),
        forall|x: Seq<char>| other != #[trigger] (key + seq!['='] + x),
    ensures
        query_param_spec(base, key) is None,
        query_param_spec(base + seq!['?'] + key + seq!['='] + value, key) == Some(value),
        query_param_spec(base + seq!['?'] + key + seq!['='] + value + seq!['&'] + rest, key) == Some(value),
        query_param_spec(base + seq!['?'] + other + seq!['&'] + rest, key) == query_param_spec(
            base + seq!['?'] + rest,
            key,
        ),
        query_param_spec(base + seq!['?'] + other, key) is None,
{
    assert forall|i: int| 0 <= i < base.len() implies base[i] != '?' by {
        assert(base.contains(base[i]));
    }
    lemma_first_index(base, '?', base.len() as int);
    let pair = key + seq!['='] + value;
    lemma_query_of(base, pair);
    lemma_query_of(base, pair + seq!['&'] + rest);
    lemma_query_of(base, other + seq!['&'] + rest);
    lemma_query_of(base, rest);
    lemma_query_of(base, other);
    assert(base + seq!['?'] + key + seq!['='] + value =~= base + seq!['?'] + pair);
    assert(base + seq!['?'] + key + seq!['='] + value + seq!['&'] + rest =~= base + seq!['?'] + (pair + seq!['&']
        + rest));
    assert(base + seq!['?'] + other + seq!['&'] + rest =~= base + seq!['?'] + (other + seq!['&'] + rest));
    assert(!pair.contains('&')) by {
        assert forall|i: int| 0 <= i < pair.len() implies pair[i] != '&' by {
            if i < key.len() {
                assert(key.contains(pair[i]));
            } else if i > key.len() {
                assert(value.contains(pair[i]));
            }
        }
    }
    lemma_split_first(pair, rest);
    lemma_split_first(other, rest);
    lemma_split_none(pair);
    lemma_split_none(other);
    assert forall|i: int| 0 <= i < key.len() implies pair[i] != '=' by {
        assert(key.contains(pair[i]));
    }
    lemma_first_index(pair, '=', key.len() as int);
    assert(before_first(pair, '=') =~= key);
    assert(pair.skip(key.len() as int + 1) =~= value);
    lemma_first_index_facts(other, '=');
    let k = first_index(other, '=');
    if k < other.len() && before_first(other, '=') == key {
        assert(other =~= key + seq!['='] + other.skip(k + 1));
    }
    let a = seq![pair] + split_spec(rest, '&');
    let b = seq![other] + split_spec(rest, '&');
    assert(a[0] == pair);
    assert(b[0] == other && b.drop_first() =~= split_spec(rest, '&'));
    assert(seq![other].drop_first() =~= Seq::<Seq<char>>::empty());
    assert(value_of(seq![other].drop_first(), key) is None);
}

/// The query of a URL is what follows its question mark.
proof fn lemma_query_of(base: Seq<char>, query: Seq<char>)
    requires
        forall|i: int| 0 <= i < base.len() ==> base[i] != '?',
    ensures
        after_first(base + seq!['?'] + query, '?') == Some(query),
{
    let url = base + seq!['?'] + query;
    lemma_first_index(url, '?', base.len() as int);
    assert(url.skip(base.len() as int + 1) =~= query);
}

/// The first part of a query.
proof fn lemma_split_first(one: Seq<char>, rest: Seq<char>)
    requires
        !one.contains('&'),
    ensures
        split_spec(one + seq!['&'] + rest, '&') == seq![one] + split_spec(rest, '&'),
{
    let all = one + seq!['&'] + rest;
    assert forall|i: int| 0 <= i < one.len() implies all[i] != '&' by {
        assert(one.contains(all[i]));
    }
    lemma_first_index(all, '&', one.len() as int);
    assert(all.take(one.len() as int) =~= one);
    assert(all.skip(one.len() as int + 1) =~= rest);
}

/// A query of one part.
proof fn lemma_split_none(one: Seq<char>)
    requires
        !one.contains('&'),
    ensures
        split_spec(one, '&') == seq![one],
{
    assert forall|i: int| 0 <= i < one.len() implies one[i] != '&' by {
        assert(one.contains(one[i]));
    }
    lemma_first_index(one, '&', one.len() as int);
}

/// Control characters are those below the space and those from 127 to 159.
pub proof fn control_characters_are_those_of_unicode(c: char, r: bool)
    requires
        call_ensures(is_control, (c,), r),
    ensures
        r <==> (c as u32) <= 31 || 127 <= (c as u32) <= 159,
{
}

/// White space is the space, the tabulator and the ends of lines and pages, and what Unicode adds to them.
pub proof fn white_space_is_that_of_unicode(c: char, r: bool)
    requires
        call_ensures(is_space, (c,), r),
    ensures
        r <==> c == ' ' || c == '\t' || c == '\n' || c == '\r' || c == '\u{b}' || c == '\u{c}' || c == '\u{85}' || c
            == '\u{a0}' || c == '\u{1680}' || '\u{2000}' <= c <= '\u{200a}' || c == '\u{2028}' || c == '\u{2029}' || c
            == '\u{202f}' || c == '\u{205f}' || c == '\u{3000}',
{
}

/// A text is what is left between white space at both ends: it neither begins nor ends with any.
pub open spec fn is_trimmed_of(t: Seq<char>, s: Seq<char>) -> bool {
    exists|a: int, b: int| #[trigger]
        is_cut(s, a, b) && t == s.subrange(a, b) && (a < b ==> !is_space_spec(s[a]) && !is_space_spec(s[b - 1]))
}

/// There is nothing but white space before `a` and from `b` on.
pub open spec fn is_cut(s: Seq<char>, a: int, b: int) -> bool {
    &&& 0 <= a <= b <= s.len()
    &&& forall|k: int| 0 <= k < a ==> is_space_spec(#[trigger] s[k])
    &&& forall|k: int| b <= k < s.len() ==> is_space_spec(#[trigger] s[k])
}

/// White space is taken off both ends, all of it, and nothing else.
pub proof fn only_white_space_at_the_ends_is_taken_off(v: &[char], r: String)
    requires
        call_ensures(trim, (v,), r),
    ensures
        is_trimmed_of(r@, v@),
{
    lemma_trimmed(v@);
}

/// Trimming takes off white space at both ends.
pub proof fn lemma_trimmed(s: Seq<char>)
    ensures
        is_trimmed_of(trim_spec(s), s),
{
    lemma_start_cut(s);
    let t = trim_start_spec(s);
    lemma_end_cut(t);
    let a = s.len() - t.len();
    let b = a + trim_end_spec(t).len();
    assert forall|k: int| b <= k < s.len() implies is_space_spec(#[trigger] s[k]) by {
        assert(t[k - a] == s[k]);
    }
    assert(is_cut(s, a, b));
    assert(trim_spec(s) =~= s.subrange(a, b));
    if a < b {
        assert(t[0] == s[a] && t[b - 1 - a] == s[b - 1]);
    }
}

/// What is left without white space at the start.
proof fn lemma_start_cut(s: Seq<char>)
    ensures
        ({
            let t = trim_start_spec(s);
            let a = s.len() - t.len();
            &&& 0 <= a
            &&& t == s.skip(a)
            &&& t.len() > 0 ==> !is_space_spec(t[0])
            &&& forall|k: int| 0 <= k < a ==> is_space_spec(#[trigger] s[k])
        }),
    decreases s.len(),
{
    if s.len() > 0 && is_space_spec(s[0]) {
        let rest = s.drop_first();
        lemma_start_cut(rest);
        let t = trim_start_spec(s);
        let a = s.len() - t.len();
        assert(t =~= s.skip(a));
        assert forall|k: int| 0 <= k < a implies is_space_spec(#[trigger] s[k]) by {
            if k > 0 {
                assert(rest[k - 1] == s[k]);
            }
        }
    } else {
        assert(s =~= s.skip(0));
    }
}

/// What is left without white space at the end.
proof fn lemma_end_cut(s: Seq<char>)
    ensures
        ({
            let t = trim_end_spec(s);
            &&& t.len() <= s.len()
            &&& t == s.take(t.len() as int)
            &&& t.len() > 0 ==> !is_space_spec(t.last())
            &&& forall|k: int| t.len() <= k < s.len() ==> is_space_spec(#[trigger] s[k])
        }),
    decreases s.len(),
{
    if s.len() > 0 && is_space_spec(s.last()) {
        let rest = s.drop_last();
        lemma_end_cut(rest);
        let t = trim_end_spec(s);
        assert(t =~= s.take(t.len() as int));
        assert forall|k: int| t.len() <= k < s.len() implies is_space_spec(#[trigger] s[k]) by {
            if k < rest.len() {
                assert(rest[k] == s[k]);
            }
        }
    } else {
        assert(s =~= s.take(s.len() as int));
    }
}

/// Parts without separators come back from what is joined of them.
pub proof fn lemma_joined_splits(parts: Seq<Seq<char>>, c: char)
    requires
        parts.len() > 0,
        forall|i: int| 0 <= i < parts.len() ==> !(#[trigger] parts[i]).contains(c),
    ensures
        split_spec(joined_by(parts, c), c) == parts,
    decreases parts.len(),
{
    let s = joined_by(parts, c);
    let first = parts[0];
    let n = first.len() as int;
    assert forall|i: int| 0 <= i < n implies first[i] != c by {
        assert(first.contains(first[i]));
    }
    if parts.len() == 1 {
        lemma_first_index(s, c, n);
        assert(seq![s] =~= parts);
    } else {
        let rest = parts.drop_first();
        assert forall|i: int| 0 <= i < rest.len() implies !(#[trigger] rest[i]).contains(c) by {
            assert(rest[i] == parts[i + 1]);
        }
        lemma_joined_splits(rest, c);
        assert forall|i: int| 0 <= i < n implies s[i] != c by {
            assert(s[i] == first[i]);
        }
        assert(s[n] == c);
        lemma_first_index(s, c, n);
        assert(s.take(n) =~= first);
        assert(s.skip(n + 1) =~= joined_by(rest, c));
        assert(seq![first] + rest =~= parts);
    }
}

/// Of two pairs the one comes first whose first part does; where the first parts are the same, the second parts decide.
pub proof fn the_first_part_of_a_pair_decides(a: &(String, String), b: &(String, String), r: bool)
    requires
        call_ensures(key_less, (a, b), r),
    ensures
        a.0@ != b.0@ ==> (r <==> exists|k: int| comes_first_at(a.0@, b.0@, k)),
        a.0@ == b.0@ ==> (r <==> exists|k: int| comes_first_at(a.1@, b.1@, k)),
{
    lemma_first_difference(a.0@, b.0@);
    lemma_first_difference(a.1@, b.1@);
    lemma_lex_total(a.0@, b.0@);
}

/// The order that is found lists every place once, and read along it no key comes before a smaller one.
pub proof fn keys_are_put_in_order(keys: &Vec<(String, String)>, order: Vec<usize>, i: int, j: int, k: int)
    requires
        call_ensures(sorted_order, (keys,), order),
        0 <= i < j < order@.len(),
        0 <= k < keys@.len(),
    ensures
        order@.len() == keys@.len(),
        order@[i] != order@[j],
        exists|x: int| 0 <= x < order@.len() && #[trigger] order@[x] as int == k,
        ({
            let a = keys@[order@[i] as int];
            let b = keys@[order@[j] as int];
            !lex_less(b.0@, a.0@) && (a.0@ == b.0@ ==> !lex_less(b.1@, a.1@))
        }),
{
    lemma_every_index_is_listed(order@, keys@.len(), k);
    assert(!pair_less(key_view(keys@[order@[j] as int]), key_view(keys@[order@[i] as int])));
}

} // verus!
