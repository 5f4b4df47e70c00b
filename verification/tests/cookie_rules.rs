use http::header::{HeaderMap, HeaderValue, COOKIE, SET_COOKIE};
use proxy_modify::action::{TextModify, TextModifyComplext};
use proxy_modify::body::Payload;
use proxy_modify::cookie_edit::{
    all_positions, cookie_line, cookie_segments, edit_jar, edit_jars, edit_request_cookies,
    edit_response_cookies, join_texts, read_sent_cookies, read_set_cookies, sent_can_be_read,
    set_can_be_read, settled, store_cookie_line, store_set_cookie_lines, texts_can_be_written,
};
use proxy_modify::jar::OrderedJar;
use proxy_modify::modify::{Message, Reply};
use proxy_modify::rule::{MapModify, Modify};
use regex::Regex;

struct Sent {
    body: Payload,
    skipped: Vec<usize>,
}

enum Answer {
    Forward(Sent),
    Substitute { status: u16, body: String },
}

/// Applies the rule to a request with these headers and leaves the headers
/// that come back in `map`.
fn send(rule: &Modify, map: &mut HeaderMap, body: Payload) -> Option<Sent> {
    let out = rule.modify_req(Message { headers: map.clone(), body })?;
    *map = out.message.headers;
    Some(Sent { body: out.message.body, skipped: out.skipped })
}

/// Applies the rule to a response with these headers and leaves the headers
/// that come back in `map`.
fn answer(rule: &Modify, map: &mut HeaderMap, body: Payload) -> Answer {
    match rule.modify_res(Message { headers: map.clone(), body }) {
        Reply::Forward(out) => {
            *map = out.message.headers;
            Answer::Forward(Sent { body: out.message.body, skipped: out.skipped })
        }
        Reply::Substitute { status, body } => Answer::Substitute { status, body },
    }
}


fn set(key: &str, new: &str) -> MapModify {
    MapModify { key: key.to_string(), value: Some(TextModify::Fixed(new.to_string())), remove: false }
}

fn append(key: &str, tail: &str) -> MapModify {
    MapModify {
        key: key.to_string(),
        value: Some(TextModify::Complect(TextModifyComplext {
            origin: None,
            re: Some(Regex::new("$").unwrap()),
            new: tail.to_string(),
        })),
        remove: false,
    }
}

fn remove(key: &str) -> MapModify {
    MapModify { key: key.to_string(), value: None, remove: true }
}

fn request(cookie: &str) -> HeaderMap {
    let mut map = HeaderMap::new();
    map.insert("host", HeaderValue::from_static("example.org"));
    map.insert(COOKIE, HeaderValue::from_str(cookie).unwrap());
    map
}

fn response(cookie: Option<&str>, set_cookies: &[&str]) -> HeaderMap {
    let mut map = HeaderMap::new();
    map.insert("server", HeaderValue::from_static("origin"));
    if let Some(cookie) = cookie {
        map.insert(COOKIE, HeaderValue::from_str(cookie).unwrap());
    }
    for sc in set_cookies {
        map.append(SET_COOKIE, HeaderValue::from_str(sc).unwrap());
    }
    map
}

fn values(map: &HeaderMap, name: &str) -> Vec<String> {
    map.get_all(name).iter().map(|v| v.to_str().unwrap().to_string()).collect()
}

#[test]
fn request_cookie_edit_appends_to_the_old_value() {
    let mut map = request("a=1; b=2");
    let rule = Modify::Cookies(vec![append("a", "!")]);
    let out = send(&rule, &mut map, Payload::Streamed).unwrap();
    assert!(out.skipped.is_empty());
    assert!(matches!(out.body, Payload::Streamed));
    assert_eq!(values(&map, "cookie"), vec!["a=1!; b=2"]);
    assert_eq!(values(&map, "host"), vec!["example.org"]);
}

#[test]
fn request_cookies_keep_their_order() {
    let mut map = request("z=26; a=1; m=13; b=2");
    let rule = Modify::Cookies(vec![set("m", "x"), set("new", "n"), set("z", "y")]);
    send(&rule, &mut map, Payload::Streamed).unwrap();
    assert_eq!(values(&map, "cookie"), vec!["z=y; a=1; m=x; b=2; new=n"]);
}

#[test]
fn request_cookie_rule_without_entries_writes_the_cookies_back() {
    let mut map = request("a=1; b=2");
    let rule = Modify::Cookies(Vec::new());
    send(&rule, &mut map, Payload::Streamed).unwrap();
    assert_eq!(values(&map, "cookie"), vec!["a=1; b=2"]);
}

#[test]
fn request_cookie_missing_counts_as_empty() {
    let mut map = request("a=1");
    let rule = Modify::Cookies(vec![append("b", "tail")]);
    send(&rule, &mut map, Payload::Streamed).unwrap();
    assert_eq!(values(&map, "cookie"), vec!["a=1; b=tail"]);
}

#[test]
fn request_without_cookie_header_gets_one() {
    let mut map = HeaderMap::new();
    let rule = Modify::Cookies(vec![set("a", "1")]);
    send(&rule, &mut map, Payload::Streamed).unwrap();
    assert_eq!(values(&map, "cookie"), vec!["a=1"]);
}

#[test]
fn request_cookie_remove() {
    let mut map = request("a=1; b=2; c=3");
    let rule = Modify::Cookies(vec![remove("b"), remove("missing")]);
    let out = send(&rule, &mut map, Payload::Streamed).unwrap();
    assert!(out.skipped.is_empty());
    assert_eq!(values(&map, "cookie"), vec!["a=1; c=3"]);
}

#[test]
fn request_cookie_entry_without_value_changes_nothing() {
    let mut map = request("a=1; b=2");
    let md = MapModify { key: "a".to_string(), value: None, remove: false };
    let rule = Modify::Cookies(vec![md]);
    let out = send(&rule, &mut map, Payload::Streamed).unwrap();
    assert!(out.skipped.is_empty());
    assert_eq!(values(&map, "cookie"), vec!["a=1; b=2"]);
}

#[test]
fn request_cookie_segments_that_are_no_cookies_are_dropped() {
    let mut map = request("a=1; junk; =nameless; b=2");
    let rule = Modify::Cookies(Vec::new());
    send(&rule, &mut map, Payload::Streamed).unwrap();
    assert_eq!(values(&map, "cookie"), vec!["a=1; b=2"]);
}

#[test]
fn request_cookie_of_a_name_twice_keeps_the_last() {
    let mut map = request("a=1; b=2; a=3");
    let rule = Modify::Cookies(Vec::new());
    send(&rule, &mut map, Payload::Streamed).unwrap();
    assert_eq!(values(&map, "cookie"), vec!["a=3; b=2"]);
}

#[test]
fn request_cookie_that_cannot_be_written_is_skipped() {
    let mut map = request("a=1; b=2");
    let rule = Modify::Cookies(vec![set("a", "x\ny"), set("b", "3"), set("bad\rname", "v")]);
    let out = send(&rule, &mut map, Payload::Streamed).unwrap();
    assert_eq!(out.skipped, vec![0, 2]);
    assert_eq!(values(&map, "cookie"), vec!["a=1; b=3"]);
}

#[test]
fn request_cookie_entries_see_what_came_before() {
    let mut map = request("a=1");
    let rule = Modify::Cookies(vec![append("a", "2"), append("a", "3"), remove("a"), append("a", "4")]);
    send(&rule, &mut map, Payload::Streamed).unwrap();
    assert_eq!(values(&map, "cookie"), vec!["a=4"]);
}

#[test]
fn request_cookie_header_that_cannot_be_read_is_left_as_it_is() {
    let mut map = HeaderMap::new();
    map.insert(COOKIE, HeaderValue::from_bytes("a=é".as_bytes()).unwrap());
    let rule = Modify::Cookies(vec![set("b", "2"), remove("a")]);
    let out = send(&rule, &mut map, Payload::Streamed).unwrap();
    assert_eq!(out.skipped, vec![0, 1]);
    assert_eq!(map.get("cookie").unwrap().as_bytes(), "a=é".as_bytes());
    assert_eq!(edit_request_cookies(&mut map, &vec![set("b", "2")]), None);
}

#[test]
fn response_cookie_headers_that_cannot_be_read_are_left_as_they_are() {
    let mut map = response(Some("a=1"), &["b=2"]);
    map.append(SET_COOKIE, HeaderValue::from_bytes("c=é".as_bytes()).unwrap());
    let before = map.clone();
    let rule = Modify::Cookies(vec![set("a", "9")]);
    match answer(&rule, &mut map, Payload::Streamed) {
        Answer::Forward(out) => assert_eq!(out.skipped, vec![0]),
        Answer::Substitute { .. } => panic!("the response was replaced"),
    }
    assert_eq!(map, before);
    let mut sent = response(None, &["b=2"]);
    sent.insert(COOKIE, HeaderValue::from_bytes(&[0xff]).unwrap());
    let before = sent.clone();
    assert_eq!(edit_response_cookies(&mut sent, &vec![set("a", "9")]), None);
    assert_eq!(sent, before);
}

#[test]
fn request_cookie_edit_replaces_every_cookie_header() {
    let mut map = request("a=1");
    map.append(COOKIE, HeaderValue::from_static("b=2"));
    let out = edit_request_cookies(&mut map, &vec![set("c", "3")]);
    assert_eq!(out, Some(Vec::new()));
    assert_eq!(values(&map, "cookie"), vec!["a=1; c=3"]);
}

#[test]
fn response_dual_jar_edit() {
    let mut map = response(Some("a=1"), &["b=2"]);
    let rule = Modify::Cookies(vec![append("a", "!")]);
    match answer(&rule, &mut map, Payload::Streamed) {
        Answer::Forward(out) => {
            assert!(out.skipped.is_empty());
            assert!(matches!(out.body, Payload::Streamed));
        }
        Answer::Substitute { .. } => panic!("the response was replaced"),
    }
    assert_eq!(values(&map, "cookie"), vec!["a=1!"]);
    assert_eq!(values(&map, "set-cookie"), vec!["b=2", "a=1!"]);
    assert_eq!(values(&map, "server"), vec!["origin"]);
}

#[test]
fn response_untouched_set_cookie_keeps_its_attributes() {
    let mut map = response(Some("a=1"), &["b=2; Path=/; HttpOnly", "c=3; Max-Age=60; Domain=example.org"]);
    let rule = Modify::Cookies(vec![set("a", "9")]);
    assert!(matches!(answer(&rule, &mut map, Payload::Streamed), Answer::Forward(_)));
    assert_eq!(
        values(&map, "set-cookie"),
        vec!["b=2; HttpOnly; Path=/", "c=3; Domain=example.org; Max-Age=60", "a=9"]
    );
    assert_eq!(values(&map, "cookie"), vec!["a=9"]);
}

#[test]
fn response_changed_set_cookie_loses_its_attributes() {
    let mut map = response(None, &["b=2; Path=/; Secure", "c=3"]);
    let rule = Modify::Cookies(vec![append("b", "0")]);
    assert!(matches!(answer(&rule, &mut map, Payload::Streamed), Answer::Forward(_)));
    assert_eq!(values(&map, "set-cookie"), vec!["b=20", "c=3"]);
    assert_eq!(values(&map, "cookie"), vec!["b=20"]);
}

#[test]
fn response_value_sent_is_preferred_to_value_set() {
    let mut map = response(Some("a=sent"), &["a=set"]);
    let rule = Modify::Cookies(vec![append("a", "+")]);
    assert!(matches!(answer(&rule, &mut map, Payload::Streamed), Answer::Forward(_)));
    assert_eq!(values(&map, "cookie"), vec!["a=sent+"]);
    assert_eq!(values(&map, "set-cookie"), vec!["a=sent+"]);
}

#[test]
fn response_remove_takes_the_cookie_from_both() {
    let mut map = response(Some("a=1; b=2"), &["a=5; Path=/", "c=3"]);
    let rule = Modify::Cookies(vec![remove("a")]);
    assert!(matches!(answer(&rule, &mut map, Payload::Streamed), Answer::Forward(_)));
    assert_eq!(values(&map, "cookie"), vec!["b=2"]);
    assert_eq!(values(&map, "set-cookie"), vec!["c=3"]);
}

#[test]
fn response_without_cookies_left_has_no_set_cookie() {
    let mut map = response(Some("a=1"), &["a=1"]);
    let out = edit_response_cookies(&mut map, &vec![remove("a")]);
    assert_eq!(out, Some(Vec::new()));
    assert_eq!(values(&map, "cookie"), vec![""]);
    assert!(!map.contains_key("set-cookie"));
    assert_eq!(values(&map, "server"), vec!["origin"]);
}

#[test]
fn response_set_cookie_that_is_no_cookie_is_dropped() {
    let mut map = response(None, &["junk", "b=2"]);
    let out = edit_response_cookies(&mut map, &Vec::new());
    assert_eq!(out, Some(Vec::new()));
    assert_eq!(values(&map, "set-cookie"), vec!["b=2"]);
}

#[test]
fn response_cookie_that_cannot_be_written_is_skipped() {
    let mut map = response(Some("a=1"), &["b=2"]);
    let rule = Modify::Cookies(vec![set("a", "\u{0}"), set("b", "ok")]);
    match answer(&rule, &mut map, Payload::Streamed) {
        Answer::Forward(out) => assert_eq!(out.skipped, vec![0]),
        Answer::Substitute { .. } => panic!("the response was replaced"),
    }
    assert_eq!(values(&map, "cookie"), vec!["a=1; b=ok"]);
    assert_eq!(values(&map, "set-cookie"), vec!["b=ok"]);
}

#[test]
fn jar_keeps_the_order_of_arrival() {
    let mut jar = OrderedJar::new();
    assert!(jar.texts().is_empty());
    jar.add_parsed("b=2");
    jar.add_parsed("a=1; Secure");
    jar.add_parsed("no cookie");
    jar.put("c", "3");
    jar.put("b", "two");
    assert_eq!(jar.texts(), vec!["b=two", "a=1; Secure", "c=3"]);
    assert_eq!(jar.value("a"), Some("1".to_string()));
    assert_eq!(jar.value("b"), Some("two".to_string()));
    assert_eq!(jar.value("missing"), None);
    jar.remove("b");
    jar.remove("missing");
    assert_eq!(jar.texts(), vec!["a=1; Secure", "c=3"]);
    assert_eq!(jar.value("b"), None);
    jar.put("b", "again");
    assert_eq!(jar.texts(), vec!["a=1; Secure", "c=3", "b=again"]);
    assert_eq!(cookie_line(&jar), "a=1; Secure; c=3; b=again");
}

#[test]
fn jar_parses_names_and_values_as_the_cookie_crate_does() {
    let mut jar = OrderedJar::new();
    jar.add_parsed(" name = \"quoted\" ");
    assert_eq!(jar.value("name"), Some("quoted".to_string()));
    assert_eq!(jar.texts(), vec!["name=quoted"]);
}

#[test]
fn jars_read_from_headers() {
    let map = response(Some("a=1; b=2"), &["c=3; Path=/", "d=4"]);
    assert_eq!(read_sent_cookies(&map).texts(), vec!["a=1", "b=2"]);
    assert_eq!(read_set_cookies(&map).texts(), vec!["c=3; Path=/", "d=4"]);
    let empty = HeaderMap::new();
    assert!(read_sent_cookies(&empty).texts().is_empty());
    assert!(read_set_cookies(&empty).texts().is_empty());
}

#[test]
fn edit_one_jar_and_two() {
    let mut jar = OrderedJar::new();
    jar.add_parsed("a=1");
    let skipped = edit_jar(&vec![append("a", "x"), set("b", "\n")], &mut jar);
    assert_eq!(skipped, vec![1]);
    assert_eq!(jar.texts(), vec!["a=1x"]);

    let mut sent = OrderedJar::new();
    let mut set_jar = OrderedJar::new();
    set_jar.add_parsed("k=v; HttpOnly");
    let skipped = edit_jars(&vec![append("k", "w")], &mut sent, &mut set_jar);
    assert!(skipped.is_empty());
    assert_eq!(sent.texts(), vec!["k=vw"]);
    assert_eq!(set_jar.texts(), vec!["k=vw"]);
}

#[test]
fn segments_are_cut_at_semicolon_and_space() {
    assert_eq!(cookie_segments("a=1; b=2"), vec!["a=1", "b=2"]);
    assert_eq!(cookie_segments("a=1;b=2"), vec!["a=1;b=2"]);
    assert_eq!(cookie_segments(""), vec![""]);
    assert_eq!(cookie_segments("; "), vec!["", ""]);
    assert_eq!(cookie_segments("a; ; b; "), vec!["a", "", "b", ""]);
    assert_eq!(cookie_segments(";; ;"), vec![";", ";"]);
    for text in ["", "a=1", "a=1; b=2; c=3", "; ; ", ";;  ; x", "é; ü"] {
        let expected: Vec<String> = text.split("; ").map(String::from).collect();
        assert_eq!(cookie_segments(text), expected);
    }
}

#[test]
fn texts_are_joined_with_the_separator_between() {
    let parts = vec!["a".to_string(), "".to_string(), "c".to_string()];
    assert_eq!(join_texts(&parts, "; "), "a; ; c");
    assert_eq!(join_texts(&vec!["only".to_string()], "; "), "only");
    assert_eq!(join_texts(&Vec::new(), "; "), "");
    assert_eq!(join_texts(&parts, ""), "ac");
}

/// A header map with as many fields as it takes.
fn full() -> HeaderMap {
    let mut map = HeaderMap::new();
    let mut i: usize = 0;
    loop {
        let name = http::header::HeaderName::from_bytes(format!("x-{}", i).as_bytes()).unwrap();
        if map.try_insert(name, HeaderValue::from_static("v")).is_err() {
            return map;
        }
        i += 1;
    }
}

#[test]
fn request_cookie_rule_is_left_out_where_the_map_has_no_room() {
    let mut map = full();
    let before = map.len();
    let rule = Modify::Cookies(vec![set("a", "1"), remove("b")]);
    let out = send(&rule, &mut map, Payload::Drained(vec![1, 2])).unwrap();
    assert_eq!(out.skipped, vec![0, 1]);
    match out.body {
        Payload::Drained(bytes) => assert_eq!(bytes, vec![1, 2]),
        _ => panic!("the body was changed"),
    }
    assert_eq!(map.len(), before);
    assert!(!map.contains_key("cookie"));
    assert_eq!(edit_request_cookies(&mut map, &vec![set("a", "1")]), None);
    assert_eq!(map.len(), before);
}

#[test]
fn response_cookie_rule_is_left_out_where_the_map_has_no_room() {
    let mut map = filled(response(Some("a=1"), &["b=2"]));
    let before = map.clone();
    let rule = Modify::Cookies(vec![set("a", "9")]);
    match answer(&rule, &mut map, Payload::Streamed) {
        Answer::Forward(out) => {
            assert_eq!(out.skipped, vec![0]);
            assert!(matches!(out.body, Payload::Streamed));
        }
        Answer::Substitute { .. } => panic!("the response was replaced"),
    }
    assert_eq!(map, before);
}

#[test]
fn cookie_rules_apply_while_the_map_has_room() {
    let mut request_map = HeaderMap::new();
    let mut i: usize = 0;
    while request_map.keys_len() < 6553 {
        let name = http::header::HeaderName::from_bytes(format!("x-{}", i).as_bytes()).unwrap();
        request_map.insert(name, HeaderValue::from_static("v"));
        i += 1;
    }
    let rule = Modify::Cookies(vec![set("a", "9")]);
    let mut response_map = request_map.clone();
    let out = send(&rule, &mut request_map, Payload::Streamed).unwrap();
    assert!(out.skipped.is_empty());
    assert_eq!(values(&request_map, "cookie"), vec!["a=9"]);
    assert_eq!(request_map.keys_len(), 6554);
    request_map.remove("cookie");
    request_map.insert("one-more", HeaderValue::from_static("v"));
    let out = send(&rule, &mut request_map, Payload::Streamed).unwrap();
    assert_eq!(out.skipped, vec![0]);
    assert!(!request_map.contains_key("cookie"));

    match answer(&rule, &mut response_map, Payload::Streamed) {
        Answer::Forward(out) => assert_eq!(out.skipped, vec![0]),
        Answer::Substitute { .. } => panic!("the response was replaced"),
    }
    assert!(!response_map.contains_key("cookie"));
    response_map.remove("x-0");
    response_map.remove("x-1");
    match answer(&rule, &mut response_map, Payload::Streamed) {
        Answer::Forward(out) => assert!(out.skipped.is_empty()),
        Answer::Substitute { .. } => panic!("the response was replaced"),
    }
    assert_eq!(values(&response_map, "cookie"), vec!["a=9"]);
    assert_eq!(values(&response_map, "set-cookie"), vec!["a=9"]);
}

#[test]
fn request_without_a_cookie_header_gets_the_cookie_that_is_set() {
    let mut map = HeaderMap::new();
    map.insert("host", HeaderValue::from_static("example.org"));
    let rule = Modify::Cookies(vec![set("a", "9")]);
    let out = send(&rule, &mut map, Payload::Streamed).unwrap();
    assert!(out.skipped.is_empty());
    assert_eq!(values(&map, "cookie"), vec!["a=9"]);
}

#[test]
fn cookie_whose_text_cannot_be_written_is_not_taken() {
    let mut jar = OrderedJar::new();
    jar.add_parsed("a=1");
    jar.add_parsed("a=2\n3");
    jar.add_parsed("b=\u{7f}");
    jar.add_parsed("c=3; Path=/x\ry");
    jar.add_parsed("d=ü");
    assert_eq!(jar.texts(), vec!["a=1", "d=ü"]);
    assert_eq!(jar.value("a"), Some("1".to_string()));
}

#[test]
fn header_rule_works_on_a_full_map() {
    let mut map = full();
    let before = map.len();
    let rule = Modify::Header(vec![set("x-7", "seven"), remove("x-8")]);
    let out = send(&rule, &mut map, Payload::Streamed).unwrap();
    assert!(out.skipped.is_empty());
    assert_eq!(values(&map, "x-7"), vec!["seven"]);
    assert!(!map.contains_key("x-8"));
    assert_eq!(map.len(), before - 1);
}

/// A header map with these fields first and then as many as it takes.
fn filled(mut map: HeaderMap) -> HeaderMap {
    let mut i: usize = 0;
    loop {
        let name = http::header::HeaderName::from_bytes(format!("x-{}", i).as_bytes()).unwrap();
        if map.try_insert(name, HeaderValue::from_static("v")).is_err() {
            return map;
        }
        i += 1;
    }
}

#[test]
fn one_cookie_header_is_rewritten_in_its_place_on_a_full_map() {
    let mut map = filled(request("a=1; b=2"));
    let before = map.len();
    let rule = Modify::Cookies(vec![append("a", "!"), set("c", "3")]);
    let out = send(&rule, &mut map, Payload::Streamed).unwrap();
    assert!(out.skipped.is_empty());
    assert_eq!(values(&map, "cookie"), vec!["a=1!; b=2; c=3"]);
    assert_eq!(map.len(), before);
}

#[test]
fn several_cookie_headers_are_not_taken_by_a_full_map() {
    let mut start = request("a=1");
    start.append(COOKIE, HeaderValue::from_static("b=2"));
    let mut map = filled(start);
    assert_eq!(edit_request_cookies(&mut map, &vec![set("c", "3")]), None);
    assert_eq!(values(&map, "cookie"), vec!["a=1", "b=2"]);
}

#[test]
fn one_set_cookie_header_is_rewritten_in_its_place_on_a_full_map() {
    let mut map = filled(response(Some("a=1"), &["a=1; Path=/"]));
    let before = map.len();
    let rule = Modify::Cookies(vec![append("a", "2")]);
    match answer(&rule, &mut map, Payload::Streamed) {
        Answer::Forward(out) => assert!(out.skipped.is_empty()),
        Answer::Substitute { .. } => panic!("the response was replaced"),
    }
    assert_eq!(values(&map, "cookie"), vec!["a=12"]);
    assert_eq!(values(&map, "set-cookie"), vec!["a=12"]);
    assert_eq!(map.len(), before);
}

#[test]
fn set_cookie_headers_are_taken_away_on_a_full_map() {
    let mut map = filled(response(Some("a=1"), &["a=1", "b=2"]));
    let out = edit_response_cookies(&mut map, &vec![remove("a"), remove("b")]);
    assert_eq!(out, Some(Vec::new()));
    assert_eq!(values(&map, "cookie"), vec![""]);
    assert!(!map.contains_key("set-cookie"));
}

#[test]
fn one_set_cookie_header_stays_one_on_an_ordinary_map() {
    let mut map = response(Some("a=1"), &["b=2; Secure"]);
    let out = edit_response_cookies(&mut map, &vec![remove("a")]);
    assert_eq!(out, Some(Vec::new()));
    assert_eq!(values(&map, "cookie"), vec![""]);
    assert_eq!(values(&map, "set-cookie"), vec!["b=2; Secure"]);
    assert_eq!(values(&map, "server"), vec!["origin"]);
}

#[test]
fn a_change_comes_to_its_positions_where_the_headers_were_written() {
    assert_eq!(settled(true, vec![1, 3]), Some(vec![1, 3]));
    assert_eq!(settled(true, Vec::new()), Some(Vec::new()));
    assert_eq!(settled(false, vec![1, 3]), None);
}

#[test]
fn cookie_line_is_stored_in_place_or_put_in_anew() {
    let mut jar = OrderedJar::new();
    jar.put("a", "1");
    jar.put("b", "2");
    let mut one = request("old=0");
    assert!(store_cookie_line(&mut one, &jar));
    assert_eq!(values(&one, "cookie"), vec!["a=1; b=2"]);
    let mut none = HeaderMap::new();
    assert!(store_cookie_line(&mut none, &jar));
    assert_eq!(values(&none, "cookie"), vec!["a=1; b=2"]);
    let mut two = request("x=1");
    two.append(COOKIE, HeaderValue::from_static("y=2"));
    assert!(store_cookie_line(&mut two, &jar));
    assert_eq!(values(&two, "cookie"), vec!["a=1; b=2"]);
    let mut full_one = filled(request("old=0"));
    assert!(store_cookie_line(&mut full_one, &jar));
    assert_eq!(values(&full_one, "cookie"), vec!["a=1; b=2"]);
    let mut full_none = filled(HeaderMap::new());
    assert!(!store_cookie_line(&mut full_none, &jar));
    assert!(!full_none.contains_key("cookie"));
}

#[test]
fn set_cookie_lines_are_stored_in_their_order() {
    let mut jar = OrderedJar::new();
    jar.add_parsed("a=1; HttpOnly");
    jar.put("b", "2");
    let mut map = response(None, &["old=0"]);
    assert!(store_set_cookie_lines(&mut map, &jar));
    assert_eq!(values(&map, "set-cookie"), vec!["a=1; HttpOnly", "b=2"]);
    let mut one = OrderedJar::new();
    one.put("c", "3");
    assert!(store_set_cookie_lines(&mut map, &one));
    assert_eq!(values(&map, "set-cookie"), vec!["c=3"]);
    let mut single = response(None, &["old=0"]);
    assert!(store_set_cookie_lines(&mut single, &one));
    assert_eq!(values(&single, "set-cookie"), vec!["c=3"]);
    assert!(store_set_cookie_lines(&mut single, &OrderedJar::new()));
    assert!(!single.contains_key("set-cookie"));
    assert_eq!(values(&single, "server"), vec!["origin"]);
    let mut full_map = filled(response(None, &["x=1", "y=2"]));
    assert!(!store_set_cookie_lines(&mut full_map, &jar));
    assert_eq!(values(&full_map, "set-cookie"), vec!["x=1", "y=2"]);
    assert!(store_set_cookie_lines(&mut full_map, &OrderedJar::new()));
    assert!(!full_map.contains_key("set-cookie"));
}

#[test]
fn cookie_headers_of_text_can_be_read() {
    let map = response(Some("a=1"), &["b=2", "c=3"]);
    assert!(sent_can_be_read(&map));
    assert!(set_can_be_read(&map));
    assert!(sent_can_be_read(&HeaderMap::new()));
    assert!(set_can_be_read(&HeaderMap::new()));
    let mut raw = response(Some("a=1"), &["b=2"]);
    raw.append(SET_COOKIE, HeaderValue::from_bytes(&[0x80]).unwrap());
    assert!(sent_can_be_read(&raw));
    assert!(!set_can_be_read(&raw));
    raw.insert(COOKIE, HeaderValue::from_bytes(&[0x80]).unwrap());
    assert!(!sent_can_be_read(&raw));
}

#[test]
fn positions_and_texts() {
    assert_eq!(all_positions(0), Vec::<usize>::new());
    assert_eq!(all_positions(3), vec![0, 1, 2]);
    assert!(texts_can_be_written(&Vec::new()));
    assert!(texts_can_be_written(&vec!["a=1".to_string(), "b=2; Path=/".to_string()]));
    assert!(!texts_can_be_written(&vec!["a=1".to_string(), "b=\n".to_string()]));
}
