//! Heartbeats and the server.

use open_bar::presence::{beat_body, classify_arg, device_name, token_from_url, valid_token, ArgKind, Config};
use open_bar::server::{
    beat_reply, clean, content_type, file_reply, list_body, refusal, reply_for, route, safe_path, too_large, Beat,
    Method, Outcome, Received, Reply, Route, Store, MAX_BODY, MAX_DEVICES_PER_TOKEN, MAX_TOKENS,
};

const SECOND: u64 = 1_000_000_000;

fn beat(token: &str, device: &str, name: &str, state: &str) -> Beat {
    Beat {
        token: token.into(),
        device: device.into(),
        name: name.into(),
        app_version: "0.1.1".into(),
        state: state.into(),
    }
}

const T: &str = "abcdefghijklmnop1234";

#[test]
fn presence_lists_only_live_devices_of_the_same_token() {
    let mut s = Store::default();
    let t0 = 1_000 * SECOND;
    s.beat(&beat(T, "pc", "Windows PC", "playing"), t0).unwrap();
    s.beat(&beat(T, "phone", "Pixel", "idle"), t0).unwrap();
    s.beat(&beat("zzzzzzzzzzzzzzzzzzzz", "tablet", "iPad", "idle"), t0).unwrap();
    let l = s.list(T, t0 + 5 * SECOND);
    assert_eq!(
        l.iter().map(|d| d.device.as_str()).collect::<Vec<_>>(),
        vec!["pc", "phone"],
        "他のトークンの端末は見えない"
    );
    assert_eq!(l[0].state, "playing");
    assert!(s.list(T, t0 + 31 * SECOND).is_empty());
}

#[test]
fn a_new_beat_refreshes_and_updates_the_same_device() {
    let mut s = Store::default();
    let t0 = 1_000 * SECOND;
    s.beat(&beat(T, "pc", "PC", "idle"), t0).unwrap();
    s.beat(&beat(T, "pc", "PC", "playing"), t0 + 20 * SECOND).unwrap();
    let l = s.list(T, t0 + 40 * SECOND);
    assert_eq!(l.len(), 1);
    assert_eq!((l[0].state.as_str(), l[0].age_secs), ("playing", 20));
}

#[test]
fn invalid_input_is_rejected() {
    let mut s = Store::default();
    let now = 1_000 * SECOND;
    assert_eq!(s.beat(&beat("short", "pc", "", ""), now), Err("token"));
    assert_eq!(s.beat(&beat("bad token with spaces!!", "pc", "", ""), now), Err("token"));
    assert_eq!(s.beat(&beat(T, "toaster", "", ""), now), Err("device"));
    for i in 0..MAX_DEVICES_PER_TOKEN {
        s.beat(&beat(T, "web", &format!("tab{i}"), ""), now).unwrap();
    }
    assert_eq!(s.beat(&beat(T, "web", "one-too-many", ""), now), Err("too many devices"));
}

#[test]
fn names_are_sanitized_and_state_is_limited() {
    let mut s = Store::default();
    let now = 1_000 * SECOND;
    s.beat(&beat(T, "pc", &format!("A\u{0}B\n{}", "x".repeat(100)), "listening to secret song"), now).unwrap();
    let l = s.list(T, now);
    assert!(l[0].name.len() <= 40 && !l[0].name.contains('\u{0}') && !l[0].name.contains('\n'));
    assert_eq!(l[0].state, "idle", "曲名などの自由文は保存しない");
}

#[test]
fn static_paths_cannot_escape_the_root() {
    let root = std::path::Path::new("/srv/web");
    let under = |url: &str| {
        safe_path(url).map(|parts| {
            let mut p = root.to_path_buf();
            for part in parts {
                p.push(part);
            }
            p
        })
    };
    assert_eq!(under("/").unwrap(), root.join("index.html"));
    assert_eq!(under("/app.js?x=1").unwrap(), root.join("app.js"));
    for bad in ["/../etc/passwd", "/a/../../b", "/.git/config", "/a\\b", "/C:/x"] {
        assert!(under(bad).is_none(), "{bad}");
    }
}

#[test]
fn tokens_are_extracted_only_from_valid_openbar_urls() {
    assert_eq!(token_from_url("openbar://launch?token=abcdefghijklmnop1234"), Some("abcdefghijklmnop1234".into()));
    assert_eq!(
        token_from_url("openbar://launch?x=1&token=abcdefghijklmnop1234&y=2"),
        Some("abcdefghijklmnop1234".into())
    );
    assert_eq!(token_from_url("openbar://launch"), None);
    assert_eq!(token_from_url("openbar://launch?token=short"), None, "短すぎるトークンは拒否");
    assert_eq!(token_from_url("openbar://launch?token=bad%20token%20chars!!"), None);
    assert_eq!(token_from_url("https://evil.example/?token=abcdefghijklmnop1234"), None, "openbar://以外は無視");
}

#[test]
fn the_first_token_of_a_link_decides() {
    assert_eq!(token_from_url(&format!("openbar://x?token=short&token={T}")), None);
    assert_eq!(token_from_url(&format!("openbar://x?token&token={T}")), Some(T.into()));
    assert_eq!(token_from_url(&format!("openbar://x?token={T}=")), None);
    assert_eq!(classify_arg(&format!("openbar://launch?token={T}")), ArgKind::Token);
    assert_eq!(classify_arg("openbar://launch"), ArgKind::Link);
    assert_eq!(classify_arg("song.wav"), ArgKind::Path);
}

#[test]
fn tokens_have_16_to_64_plain_characters() {
    assert!(!valid_token(&"a".repeat(15)));
    assert!(valid_token(&"a".repeat(16)));
    assert!(valid_token(&"Z-_9".repeat(16)));
    assert!(!valid_token(&"a".repeat(65)));
    assert!(!valid_token(&"é".repeat(16)));
}

#[test]
fn rooms_are_kept_apart_and_emptied_in_time() {
    let mut s = Store::new();
    let other = "zzzzzzzzzzzzzzzzzzzz";
    s.beat(&beat(T, "pc", "A", "idle"), 100 * SECOND).unwrap();
    s.beat(&beat(other, "pc", "B", "idle"), 130 * SECOND).unwrap();
    assert_eq!(s.list(T, 130 * SECOND).len(), 1, "thirty seconds are not too long");
    assert_eq!(s.list(T, 130 * SECOND + 1).len(), 0);
    assert_eq!(s.list(other, 131 * SECOND)[0].name, "B");
    s.gc(161 * SECOND);
    assert!(s.list(T, 100 * SECOND).is_empty(), "it was dropped");
    assert_eq!(s.list(other, 161 * SECOND - 40 * SECOND).len(), 1, "a clock that goes back makes nothing older");
}

#[test]
fn a_full_server_is_busy() {
    let mut s = Store::new();
    for i in 0..MAX_TOKENS {
        s.beat(&beat(&format!("{i:016}"), "pc", "", ""), SECOND).unwrap();
    }
    assert_eq!(s.beat(&beat(T, "pc", "", ""), SECOND), Err("busy"));
    assert_eq!(s.beat(&beat("0000000000000007", "phone", "", ""), SECOND), Ok(()), "a room that is there has space");
}

#[test]
fn lists_are_in_order_of_kind_and_name() {
    let mut s = Store::new();
    for (d, n) in [("web", "b"), ("phone", "z"), ("web", "a"), ("pc", "m"), ("web", "aa")] {
        s.beat(&beat(T, d, n, "idle"), SECOND).unwrap();
    }
    let l: Vec<(String, String)> = s.list(T, 2 * SECOND).into_iter().map(|d| (d.device, d.name)).collect();
    let want = [("pc", "m"), ("phone", "z"), ("web", "a"), ("web", "aa"), ("web", "b")];
    assert_eq!(l, want.map(|(d, n)| (d.to_string(), n.to_string())));
}

#[test]
fn text_is_cleaned() {
    assert_eq!(clean("  a\tb\u{7f}\u{85}c  ", 40), "abc");
    assert_eq!(clean("\u{3000}日本\u{a0}", 40), "日本");
    assert_eq!(clean("abc def", 4), "abc");
    assert_eq!(clean("abc", 0), "");
}

#[test]
fn files_have_media_types() {
    assert_eq!(content_type("a/index.html"), "text/html; charset=utf-8");
    assert_eq!(content_type("app.js"), "text/javascript; charset=utf-8");
    assert_eq!(content_type("app.css"), "text/css; charset=utf-8");
    assert_eq!(content_type("x.json"), "application/json");
    assert_eq!(content_type("x.svg"), "image/svg+xml");
    assert_eq!(content_type("x.png"), "image/png");
    assert_eq!(content_type("x.PNG"), "application/octet-stream");
    assert_eq!(content_type("png"), "image/png", "without a dot the whole name counts");
}

#[test]
fn paths_are_split_into_safe_parts() {
    assert_eq!(safe_path("//a/b.c/d?e/../f").unwrap(), vec!["a", "b.c", "d"]);
    assert_eq!(safe_path("").unwrap(), vec!["index.html"]);
    assert_eq!(safe_path("///?x").unwrap(), vec!["index.html"]);
    assert!(safe_path("/a//b").is_none());
    assert!(safe_path("/a/").is_none());
    assert!(safe_path("/a/./b").is_none());
}

#[test]
fn requests_find_their_way() {
    assert!(matches!(route(Method::Post, "/api/presence"), Route::Beat));
    assert!(matches!(route(Method::Options, "/api/presence?x"), Route::Preflight));
    let url = format!("/api/presence?a=b&token={T}");
    assert!(matches!(route(Method::Get, &url), Route::List(Some(t)) if t == T));
    assert!(matches!(route(Method::Get, "/api/presence?token=short"), Route::List(None)));
    assert!(matches!(route(Method::Get, "/api/presence"), Route::List(None)));
    assert!(matches!(route(Method::Head, "/api/presence"), Route::File(Some(p)) if p == ["api", "presence"]));
    assert!(matches!(route(Method::Get, "/../x"), Route::File(None)));
    assert!(matches!(route(Method::Post, "/"), Route::NotAllowed));
    assert!(matches!(route(Method::Other, "/api/presence"), Route::NotAllowed));
}

#[test]
fn replies_say_what_happened() {
    let r = beat_reply(Received::Answered(Ok(())));
    assert_eq!((r.status, r.body.as_str()), (200, r#"{"ok":true}"#));
    let r = beat_reply(Received::Answered(Err("busy")));
    assert_eq!((r.status, r.body.as_str()), (400, r#"{"ok":false,"error":"busy"}"#));
    let r = beat_reply(Received::TooLarge);
    assert_eq!((r.status, r.body.as_str()), (413, r#"{"ok":false,"error":"too large"}"#));
    let r = beat_reply(Received::Malformed);
    assert_eq!((r.status, r.body.as_str()), (400, r#"{"ok":false,"error":"json"}"#));
    let r = refusal(404, "not found");
    assert_eq!((r.status, r.body.as_str()), (404, r#"{"ok":false,"error":"not found"}"#));
}

#[test]
fn lists_and_heartbeats_are_json() {
    let mut s = Store::new();
    assert_eq!(list_body(&s.list(T, 0)), r#"{"devices":[],"ok":true}"#);
    s.beat(&beat(T, "pc", "A \"B\"", "playing"), 0).unwrap();
    s.beat(&beat(T, "web", "é", "idle"), 0).unwrap();
    let body = list_body(&s.list(T, 7 * SECOND));
    assert_eq!(
        body,
        r#"{"devices":[{"age_secs":7,"app_version":"0.1.1","device":"pc","name":"A \"B\"","state":"playing"},{"age_secs":7,"app_version":"0.1.1","device":"web","name":"é","state":"idle"}],"ok":true}"#
    );
    let sent = beat_body(T, "PC\u{8}\u{c}\r\u{1f}", "0.1.1", true);
    assert_eq!(
        sent,
        r#"{"app_version":"0.1.1","device":"pc","name":"PC\b\f\r\u001f","state":"playing","token":"abcdefghijklmnop1234"}"#
    );
    let v: serde_json::Value = serde_json::from_str(&sent).unwrap();
    assert_eq!(v["name"], serde_json::Value::from("PC\u{8}\u{c}\r\u{1f}"));
    assert!(beat_body(T, "", "", false).contains("\"state\":\"idle\""));
    let v: serde_json::Value = serde_json::from_str(&body).unwrap();
    assert_eq!(v.to_string(), body);
}

#[test]
fn settings_are_kept_as_json() {
    let c = Config { token: Some(T.into()), enabled: false };
    assert_eq!(c.to_json(), format!("{{\n  \"token\": \"{T}\",\n  \"enabled\": false\n}}"));
    assert_eq!(Config::fresh().to_json(), "{\n  \"token\": null,\n  \"enabled\": true\n}");
    assert_eq!(c.beat_token(), None);
    assert_eq!(Config { token: Some(T.into()), enabled: true }.beat_token(), Some(T.to_string()));
    assert_eq!(Config::fresh().beat_token(), None);
    assert_eq!(Config::default(), Config { token: None, enabled: false });
    assert_eq!(device_name("Mac", ""), "Mac");
    assert_eq!(device_name("Windows PC", "DESK"), "Windows PC (DESK)");
    let long = "h".repeat(50);
    assert_eq!(device_name("Linux PC", &long), format!("Linux PC ({})", "h".repeat(40)), "only the start is sent");
}

const JSON: [(&str, &str); 3] =
    [("Content-Type", "application/json"), ("Cache-Control", "no-store"), ("Access-Control-Allow-Origin", "*")];

fn is_json(r: &Reply, status: u16, body: &str) -> bool {
    r.status == status && r.body == body && r.headers == JSON
}

#[test]
fn every_outcome_has_its_reply() {
    let s = reply_for(Outcome::Beat(Received::Answered(Ok(()))));
    assert!(is_json(&s, 200, r#"{"ok":true}"#));
    let s = reply_for(Outcome::Beat(Received::Answered(Err("device"))));
    assert!(is_json(&s, 400, r#"{"ok":false,"error":"device"}"#));
    assert!(is_json(&reply_for(Outcome::Beat(Received::TooLarge)), 413, r#"{"ok":false,"error":"too large"}"#));
    assert!(is_json(&reply_for(Outcome::Beat(Received::Malformed)), 400, r#"{"ok":false,"error":"json"}"#));
    assert!(is_json(&reply_for(Outcome::Listed(Vec::new())), 200, r#"{"devices":[],"ok":true}"#));
    assert!(is_json(&reply_for(Outcome::NoToken), 400, r#"{"ok":false,"error":"token"}"#));
    assert!(is_json(&reply_for(Outcome::NoFile), 404, r#"{"ok":false,"error":"not found"}"#));
    assert!(is_json(&reply_for(Outcome::NotAllowed), 405, r#"{"ok":false,"error":"method"}"#));
    let p = reply_for(Outcome::Preflight);
    assert_eq!((p.status, p.body.as_str()), (204, ""));
    assert_eq!(
        p.headers,
        [
            ("Access-Control-Allow-Origin", "*"),
            ("Access-Control-Allow-Methods", "GET, POST, OPTIONS"),
            ("Access-Control-Allow-Headers", "Content-Type"),
        ]
    );
}

#[test]
fn heartbeats_are_answered_and_taken_in() {
    let mut s = Store::new();
    assert!(!too_large(MAX_BODY) && too_large(MAX_BODY + 1));
    let b = Some(beat(T, "pc", "A", "playing"));
    assert!(is_json(&s.answer_beat(MAX_BODY + 1, &b, 0), 413, r#"{"ok":false,"error":"too large"}"#));
    assert!(is_json(&s.answer_beat(3, &None, 0), 400, r#"{"ok":false,"error":"json"}"#));
    assert!(s.list(T, 0).is_empty(), "neither was taken in");
    assert!(is_json(&s.answer_beat(MAX_BODY, &b, 0), 200, r#"{"ok":true}"#));
    let bad = Some(beat(T, "toaster", "A", "playing"));
    assert!(is_json(&s.answer_beat(3, &bad, 0), 400, r#"{"ok":false,"error":"device"}"#));
    assert!(is_json(&s.answer_list(&None, 0), 400, r#"{"ok":false,"error":"token"}"#));
    assert!(is_json(
        &s.answer_list(&Some(T.to_string()), 3 * SECOND),
        200,
        r#"{"devices":[{"age_secs":3,"app_version":"0.1.1","device":"pc","name":"A","state":"playing"}],"ok":true}"#
    ));
}

#[test]
fn files_are_sent_with_their_type() {
    let f = file_reply("webpage/index.html", Some(vec![1, 2])).ok().unwrap();
    assert_eq!((f.status, f.content_type, f.content), (200, "text/html; charset=utf-8", vec![1, 2]));
    let r = file_reply("webpage/none.html", None).err().unwrap();
    assert!(is_json(&r, 404, r#"{"ok":false,"error":"not found"}"#));
}

#[test]
fn the_list_shows_the_last_word_of_each_device() {
    let mut s = Store::new();
    s.beat(&beat(T, "pc", "A", "idle"), 0).unwrap();
    s.beat(&beat(T, "phone", "B", "playing"), 5 * SECOND).unwrap();
    assert_eq!(s.list(T, 6 * SECOND).len(), 2);
    s.beat(&beat(T, "pc", "A", "playing"), 20 * SECOND).unwrap();
    assert_eq!(s.beat(&beat(T, "toaster", "A", "idle"), 30 * SECOND), Err("device"));
    let l: Vec<(String, String, u64)> =
        s.list(T, 36 * SECOND).into_iter().map(|d| (d.device, d.state, d.age_secs)).collect();
    assert_eq!(l, [("pc".to_string(), "playing".to_string(), 16)]);
}
