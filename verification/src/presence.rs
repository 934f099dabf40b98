//! The token by which the devices of one listener find each other.

use vstd::prelude::*;
use crate::json::{member, push_member, quote, quoted};
use crate::text::{
    before_first,
    chars_of,
    lemma_first_index,
    opt_view,
    query_param,
    query_param_spec,
    split_spec,
    starts_with,
    starts_with_spec,
    string_of_range,
};

verus! {

/// Where the heartbeat goes.
pub const DEFAULT_URL: &'static str = "https://easy-web.tokyo/open-bar/api/presence";

/// What is remembered from one run to the next.
#[derive(Debug, Clone, PartialEq)]
pub struct Config {
    pub token: Option<String>,
    /// Heartbeats are sent.
    pub enabled: bool,
}

impl Config {
    /// What holds until something else is known: no token, and heartbeats on.
    pub fn fresh() -> (c: Config)
        ensures
            c.token is None,
            c.enabled,
    {
        Config { token: None, enabled: true }
    }

    /// The token to send heartbeats with, if any are to be sent.
    pub fn beat_token(&self) -> (t: Option<String>)
        ensures
            opt_view(t) == (if self.enabled {
                opt_view(self.token)
            } else {
                None
            }),
    {
        if !self.enabled {
            return None;
        }
        match &self.token {
            Some(t) => Some(t.clone()),
            None => None,
        }
    }
}

/// The settings as the text of their file.
pub open spec fn config_text(c: Config) -> Seq<char> {
    "{\n  \"token\": "@ + (match c.token {
        Some(t) => quoted(t@),
        None => "null"@,
    }) + ",\n  \"enabled\": "@ + (if c.enabled {
        "true"@
    } else {
        "false"@
    }) + "\n}"@
}

impl Config {
    /// The settings as the text of their file, in JSON.
    pub fn to_json(&self) -> (s: String)
        ensures
            s@ == config_text(*self),
    {
        let mut s = "{\n  \"token\": ".to_owned();
        match &self.token {
            Some(t) => {
                s.append(quote(t.as_str()).as_str());
            },
            None => {
                s.append("null");
            },
        }
        s.append(",\n  \"enabled\": ");
        if self.enabled {
            s.append("true");
        } else {
            s.append("false");
        }
        s.append("\n}");
        s
    }
}

/// A heartbeat as it is sent: the token, what this device is and whether it plays, and nothing else.
pub open spec fn beat_text(token: Seq<char>, name: Seq<char>, version: Seq<char>, state: Seq<char>) -> Seq<char> {
    "{"@ + member("app_version"@, version) + ","@ + member("device"@, "pc"@) + ","@ + member("name"@, name) + ","@
        + member("state"@, state) + ","@ + member("token"@, token) + "}"@
}

/// A heartbeat as it is sent, in JSON.
pub fn beat_body(token: &str, name: &str, version: &str, playing: bool) -> (s: String)
    ensures
        s@ == beat_text(
            token@,
            name@,
            version@,
            if playing {
                "playing"@
            } else {
                "idle"@
            },
        ),
{
    let mut s = "{".to_owned();
    push_member(&mut s, "app_version", version);
    s.append(",");
    push_member(&mut s, "device", "pc");
    s.append(",");
    push_member(&mut s, "name", name);
    s.append(",");
    push_member(
        &mut s,
        "state",
        if playing {
            "playing"
        } else {
            "idle"
        },
    );
    s.append(",");
    push_member(&mut s, "token", token);
    s.append("}");
    s
}

/// The most characters of the name of a computer that are sent: it may hold the name of a person.
pub const MAX_HOST: usize = 40;

/// What this device is called: its kind, and the start of its name if it has one.
pub open spec fn device_name_spec(os: Seq<char>, host: Seq<char>) -> Seq<char> {
    if host.len() == 0 {
        os
    } else if host.len() <= MAX_HOST {
        os + " ("@ + host + ")"@
    } else {
        os + " ("@ + host.take(MAX_HOST as int) + ")"@
    }
}

/// What this device is called.
pub fn device_name(os: &str, host: &str) -> (s: String)
    ensures
        s@ == device_name_spec(os@, host@),
{
    let mut s = os.to_owned();
    let v = chars_of(host);
    if v.len() > 0 {
        let n = if v.len() <= MAX_HOST {
            v.len()
        } else {
            MAX_HOST
        };
        let shown = string_of_range(&v, 0, n);
        proof {
            assert(host@.subrange(0, host@.len() as int) =~= host@);
            assert(host@.subrange(0, n as int) =~= host@.take(n as int));
        }
        s.append(" (");
        s.append(shown.as_str());
        s.append(")");
    }
    s
}

impl Default for Config {
    fn default() -> (c: Self)
        ensures
            c.token is None,
            !c.enabled,
    {
        Config { token: None, enabled: false }
    }
}

/// A character that a token may hold: an ASCII letter or digit, a hyphen or an underscore.
pub open spec fn is_token_char(c: char) -> bool {
    'a' <= c <= 'z' || 'A' <= c <= 'Z' || '0' <= c <= '9' || c == '-' || c == '_'
}

/// 16 to 64 such characters.
pub open spec fn is_token(t: Seq<char>) -> bool {
    16 <= t.len() <= 64 && forall|i: int| 0 <= i < t.len() ==> is_token_char(#[trigger] t[i])
}

/// Whether a text can be a token.
pub fn valid_token(t: &str) -> (r: bool)
    ensures
        r == is_token(t@),
{
    let v = chars_of(t);
    let n = v.len();
    if n < 16 || n > 64 {
        return false;
    }
    for i in 0..n
        invariant
            n == v@.len(),
            v@ == t@,
            forall|j: int| 0 <= j < i ==> is_token_char(#[trigger] t@[j]),
    {
        let c = v[i];
        let fine = ('a' <= c && c <= 'z') || ('A' <= c && c <= 'Z') || ('0' <= c && c <= '9') || c == '-' || c
            == '_';
        if !fine {
            assert(!is_token_char(t@[i as int]));
            return false;
        }
    }
    true
}

/// The token in a link such as `openbar://launch?token=...`.
pub open spec fn token_in(url: Seq<char>) -> Option<Seq<char>> {
    if !starts_with_spec(url, "openbar://"@) {
        None
    } else {
        match query_param_spec(url.skip("openbar://"@.len() as int), "token"@) {
            Some(t) if is_token(t) => Some(t),
            _ => None,
        }
    }
}

/// The token in a link such as `openbar://launch?token=...`. Other links and other texts have none.
pub fn token_from_url(url: &str) -> (r: Option<String>)
    ensures
        opt_view(r) == token_in(url@),
{
    if !starts_with(url, "openbar://") {
        return None;
    }
    let v = chars_of(url);
    proof {
        reveal_strlit("openbar://");
    }
    let rest = string_of_range(&v, 10, v.len());
    assert(rest@ =~= url@.skip(10));
    match query_param(rest.as_str(), "token") {
        Some(t) => if valid_token(t.as_str()) {
            Some(t)
        } else {
            None
        },
        None => None,
    }
}

/// What a program was started with.
#[derive(Debug, Clone, Copy, PartialEq, Eq, Structural)]
pub enum ArgKind {
    /// A link with a token.
    Token,
    /// A link without one: nothing to do.
    Link,
    /// Perhaps the path of a file.
    Path,
}

/// What an argument of the program is.
pub fn classify_arg(arg: &str) -> (k: ArgKind)
    ensures
        k == (if token_in(arg@) is Some {
            ArgKind::Token
        } else if starts_with_spec(arg@, "openbar://"@) {
            ArgKind::Link
        } else {
            ArgKind::Path
        }),
{
    if token_from_url(arg).is_some() {
        ArgKind::Token
    } else if starts_with(arg, "openbar://") {
        ArgKind::Link
    } else {
        ArgKind::Path
    }
}

/// A link made for a token gives that token back.
pub proof fn a_launch_link_gives_its_token(t: Seq<char>)
    requires
        is_token(t),
    ensures
        token_in("openbar://launch?token="@ + t) == Some(t),
{
    let url = "openbar://launch?token="@ + t;
    reveal_strlit("openbar://launch?token=");
    reveal_strlit("openbar://");
    reveal_strlit("token");
    assert(url.take(10) =~= "openbar://"@);
    let rest = url.skip(10);
    lemma_first_index(rest, '?', 6);
    let query = rest.skip(7);
    assert(query.len() == 6 + t.len());
    assert forall|i: int| 6 <= i < query.len() implies query[i] == t[i - 6] by {}
    assert forall|i: int| 0 <= i < query.len() implies query[i] != '&' by {
        if i >= 6 {
            assert(is_token_char(t[i - 6]));
        }
    }
    lemma_first_index(query, '&', query.len() as int);
    assert(split_spec(query, '&') =~= seq![query]);
    lemma_first_index(query, '=', 5);
    assert(before_first(query, '=') =~= "token"@);
    assert(query.skip(6) =~= t);
}

/// A token that was taken from a link is valid, and the link was one of this program's own.
pub proof fn tokens_come_from_own_links_only(url: Seq<char>)
    ensures
        token_in(url) matches Some(t) ==> is_token(t) && starts_with_spec(url, "openbar://"@),
{
}

/// A token is 16 to 64 letters, digits, hyphens and underscores.
pub proof fn a_token_is_plain_and_of_fair_length(t: &str, r: bool)
    requires
        call_ensures(valid_token, (t,), r),
    ensures
        r <==> 16 <= t@.len() <= 64 && forall|i: int|
            0 <= i < t@.len() ==> {
                let n = #[trigger] t@[i] as int;
                48 <= n <= 57 || 65 <= n <= 90 || 97 <= n <= 122 || n == 45 || n == 95
            },
{
    if 16 <= t@.len() <= 64 && (forall|i: int|
        0 <= i < t@.len() ==> {
            let n = #[trigger] t@[i] as int;
            48 <= n <= 57 || 65 <= n <= 90 || 97 <= n <= 122 || n == 45 || n == 95
        }) {
        assert forall|i: int| 0 <= i < t@.len() implies is_token_char(#[trigger] t@[i]) by {
            let n = t@[i] as int;
            assert(48 <= n <= 57 || 65 <= n <= 90 || 97 <= n <= 122 || n == 45 || n == 95);
        }
    }
    if r {
        assert forall|i: int| 0 <= i < t@.len() implies {
            let n = #[trigger] t@[i] as int;
            48 <= n <= 57 || 65 <= n <= 90 || 97 <= n <= 122 || n == 45 || n == 95
        } by {
            assert(is_token_char(t@[i]));
        }
    }
}

/// A link gives its token if the token is valid, wherever it stands among the parameters, and no link of another kind
/// gives one.
pub proof fn a_link_gives_the_token_in_its_query(base: Seq<char>, t: Seq<char>, rest: Seq<char>, url: &str, r: Option<String>)
    requires
        call_ensures(token_from_url, (url,), r),
        !base.contains('?'),
        !t.contains('&'),
    ensures
        url@ == "openbar://"@ + base + seq!['?'] + "token"@ + seq!['='] + t + seq!['&'] + rest ==> (is_token(t)
            ==> opt_view(r) == Some(t)) && (!is_token(t) ==> r is None),
        url@ == "openbar://"@ + base + seq!['?'] + "token"@ + seq!['='] + t ==> (is_token(t) ==> opt_view(r) == Some(t))
            && (!is_token(t) ==> r is None),
        url@ == "openbar://"@ + base ==> r is None,
        (url@.len() < 10 || url@.take(10) != "openbar://"@) ==> r is None,
{
    reveal_strlit("openbar://");
    reveal_strlit("token");
    let head = "openbar://"@;
    let key = "token"@;
    assert(!key.contains('=') && !key.contains('&'));
    let other = Seq::<char>::empty();
    assert forall|x: Seq<char>| other != #[trigger] (key + seq!['='] + x) by {
        assert((key + seq!['='] + x).len() > 0);
    }
    crate::text::the_first_parameter_of_a_name_counts(base, key, t, rest, other);
    let a = base + seq!['?'] + key + seq!['='] + t + seq!['&'] + rest;
    let b = base + seq!['?'] + key + seq!['='] + t;
    if url@ == head + base + seq!['?'] + key + seq!['='] + t + seq!['&'] + rest {
        assert(url@.take(10) =~= head);
        assert(url@.skip(10) =~= a);
    }
    if url@ == head + base + seq!['?'] + key + seq!['='] + t {
        assert(url@.take(10) =~= head);
        assert(url@.skip(10) =~= b);
    }
    if url@ == head + base {
        assert(url@.take(10) =~= head);
        assert(url@.skip(10) =~= base);
    }
}

/// A device is called by its kind, followed by the name of the computer in brackets if it has one, of which no more than
/// 40 characters are told.
pub proof fn no_more_than_the_start_of_a_name_is_told(os: &str, host: &str, s: String)
    requires
        call_ensures(device_name, (os, host), s),
    ensures
        host@.len() == 0 ==> s@ == os@,
        0 < host@.len() <= 40 ==> s@ == os@ + " ("@ + host@ + ")"@,
        host@.len() > 40 ==> s@ == os@ + " ("@ + host@.take(40) + ")"@,
        s@.len() <= os@.len() + 43,
{
    reveal_strlit(" (");
    reveal_strlit(")");
}

/// Heartbeats are sent with the token that is kept, and none without a token or if they are turned off.
pub proof fn heartbeats_need_a_token_and_leave(c: &Config, t: Option<String>, fresh: Config)
    requires
        call_ensures(Config::beat_token, (c,), t),
        call_ensures(Config::fresh, (), fresh),
    ensures
        t is Some <==> c.enabled && c.token is Some,
        t is Some ==> t->0@ == c.token->0@,
        fresh.token is None && fresh.enabled,
{
}

/// What a program was started with is a link exactly if it begins like one, and only a link can bring a token.
pub proof fn an_argument_is_a_link_or_a_path(arg: &str, k: ArgKind, t: Option<String>)
    requires
        call_ensures(classify_arg, (arg,), k),
        call_ensures(token_from_url, (arg,), t),
    ensures
        k is Token <==> t is Some,
        k is Path <==> arg@.len() < 10 || arg@.take(10) != "openbar://"@,
        k is Link <==> !(k is Token) && !(k is Path),
{
    reveal_strlit("openbar://");
}

/// A heartbeat tells the token, the name, the version and whether this device plays, and nothing else.
pub proof fn a_heartbeat_tells_nothing_else(token: &str, name: &str, version: &str, playing: bool, s: String)
    requires
        call_ensures(beat_body, (token, name, version, playing), s),
    ensures
        s@ == "{\"app_version\":"@ + quoted(version@) + ",\"device\":\"pc\",\"name\":"@ + quoted(name@)
            + ",\"state\":"@ + (if playing {
            "\"playing\""@
        } else {
            "\"idle\""@
        }) + ",\"token\":"@ + quoted(token@) + "}"@,
{
    reveal_strlit("{\"app_version\":");
    reveal_strlit(",\"device\":\"pc\",\"name\":");
    reveal_strlit(",\"state\":");
    reveal_strlit("\"playing\"");
    reveal_strlit("\"idle\"");
    reveal_strlit(",\"token\":");
    reveal_strlit("{");
    reveal_strlit("}");
    reveal_strlit(",");
    reveal_strlit("\":");
    reveal_strlit("app_version");
    reveal_strlit("device");
    reveal_strlit("pc");
    reveal_strlit("name");
    reveal_strlit("state");
    reveal_strlit("playing");
    reveal_strlit("idle");
    reveal_strlit("token");
    lemma_quoted_plain("pc"@);
    lemma_quoted_plain("playing"@);
    lemma_quoted_plain("idle"@);
    let state = if playing {
        "playing"@
    } else {
        "idle"@
    };
    let q = if playing {
        "\"playing\""@
    } else {
        "\"idle\""@
    };
    assert(quoted(state) =~= q);
    assert(s@ =~= "{\"app_version\":"@ + quoted(version@) + ",\"device\":\"pc\",\"name\":"@ + quoted(name@)
        + ",\"state\":"@ + q + ",\"token\":"@ + quoted(token@) + "}"@);
}

/// Lower-case letters need no escapes.
proof fn lemma_quoted_plain(s: Seq<char>)
    requires
        forall|i: int| 0 <= i < s.len() ==> 'a' <= #[trigger] s[i] <= 'z',
    ensures
        crate::json::escaped_all(s) == s,
        quoted(s) == seq!['"'] + s + seq!['"'],
    decreases s.len(),
{
    if s.len() > 0 {
        lemma_quoted_plain(s.drop_last());
        assert('a' <= s[s.len() - 1] <= 'z');
        assert(crate::json::escaped_all(s) =~= s);
    } else {
        assert(crate::json::escaped_all(s) =~= s);
    }
}

/// The settings are written as an object: the token, or `null` if there is none, and whether heartbeats are on.
pub proof fn settings_are_written_as_they_are(c: &Config, s: String)
    requires
        call_ensures(Config::to_json, (c,), s),
    ensures
        c.token matches Some(t) ==> (c.enabled ==> s@ == "{\n  \"token\": "@ + quoted(t@) + ",\n  \"enabled\": true\n}"@),
        c.token matches Some(t) ==> (!c.enabled ==> s@ == "{\n  \"token\": "@ + quoted(t@)
            + ",\n  \"enabled\": false\n}"@),
        c.token is None && c.enabled ==> s@ == "{\n  \"token\": null,\n  \"enabled\": true\n}"@,
        c.token is None && !c.enabled ==> s@ == "{\n  \"token\": null,\n  \"enabled\": false\n}"@,
{
    reveal_strlit("{\n  \"token\": ");
    reveal_strlit("null");
    reveal_strlit("true");
    reveal_strlit("false");
    reveal_strlit(",\n  \"enabled\": ");
    reveal_strlit("\n}");
    reveal_strlit(",\n  \"enabled\": true\n}");
    reveal_strlit(",\n  \"enabled\": false\n}");
    reveal_strlit("{\n  \"token\": null,\n  \"enabled\": true\n}");
    reveal_strlit("{\n  \"token\": null,\n  \"enabled\": false\n}");
    assert(",\n  \"enabled\": true\n}"@ =~= ",\n  \"enabled\": "@ + "true"@ + "\n}"@);
    assert(",\n  \"enabled\": false\n}"@ =~= ",\n  \"enabled\": "@ + "false"@ + "\n}"@);
    assert("{\n  \"token\": null,\n  \"enabled\": true\n}"@ =~= "{\n  \"token\": "@ + "null"@
        + ",\n  \"enabled\": true\n}"@);
    assert("{\n  \"token\": null,\n  \"enabled\": false\n}"@ =~= "{\n  \"token\": "@ + "null"@
        + ",\n  \"enabled\": false\n}"@);
    let token = match c.token {
        Some(t) => quoted(t@),
        None => "null"@,
    };
    if c.enabled {
        assert(s@ =~= "{\n  \"token\": "@ + token + ",\n  \"enabled\": true\n}"@);
    } else {
        assert(s@ =~= "{\n  \"token\": "@ + token + ",\n  \"enabled\": false\n}"@);
    }
}

} // verus!
