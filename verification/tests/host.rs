use ryu_reasoning::host::{completion, extract_json, parse_port, render_result, settings};
use ryu_reasoning::json::{
    find_end, list_value, object1, parse_json, pretty_json, quote_json, text_value, write_json, Json,
};

fn text(s: &str) -> Json {
    Json::Text(s.into())
}

#[test]
fn json_is_recovered_from_a_fenced_block() {
    let text = "Sure!\n```json\n{\"variables\": []}\n```\nHope that helps.";
    assert_eq!(
        extract_json(text),
        Some(Json::Object(vec![("variables".into(), Json::List(vec![]))]))
    );
}

#[test]
fn braces_inside_strings_do_not_confuse_the_scan() {
    let text = r#"prefix {"statement": "use {curly} braces", "ok": true} suffix"#;
    let parsed = extract_json(text).expect("parsed");
    assert_eq!(parsed.text("statement").map(String::as_str), Some("use {curly} braces"));
}

#[test]
fn prose_without_json_yields_nothing() {
    assert_eq!(extract_json("I could not do that."), None);
}

#[test]
fn result_shapes_all_render_to_text() {
    assert_eq!(render_result(&text("hi")), "hi");
    assert_eq!(render_result(&object1("text", text("hi"))), "hi");
    assert_eq!(
        render_result(&list_value(vec![object1("text", text("a")), object1("text", text("b"))])),
        "ab"
    );
}

#[test]
fn every_kind_of_value_is_read() {
    let parsed = extract_json(r#"{"d": null, "a": [1, -2.5, 1e3], "b": {"x": "\u00e9\n"}, "c": false}"#)
        .expect("parsed");
    assert_eq!(
        parsed,
        Json::Object(vec![
            (
                "a".into(),
                Json::List(vec![
                    Json::Number("1".into()),
                    Json::Number("-2.5".into()),
                    Json::Number("1000.0".into())
                ])
            ),
            ("b".into(), Json::Object(vec![("x".into(), Json::Text("é\n".into()))])),
            ("c".into(), Json::Bool(false)),
            ("d".into(), Json::Null),
        ])
    );
}

#[test]
fn a_bracket_that_is_not_json_is_passed_over() {
    assert_eq!(
        extract_json("see [note] and {this}: [1]"),
        Some(Json::List(vec![Json::Number("1".into())]))
    );
    assert_eq!(extract_json("{\"open\": [1, 2"), None);
    assert_eq!(
        extract_json(r#"{"quote": "a \" } b"} tail"#),
        Some(object1("quote", text("a \" } b")))
    );
}

#[test]
fn the_end_of_a_bracketed_text_is_its_match() {
    let chars: Vec<char> = "x{\"}\":{}}y".chars().collect();
    assert_eq!(find_end(&chars, 1), Some(8));
    assert_eq!(find_end(&chars, 0), None);
    assert_eq!(find_end(&chars, 6), Some(7));
}

#[test]
fn what_is_written_reads_back() {
    let value = Json::Object(vec![
        ("a \"b\"".into(), Json::List(vec![Json::Null, Json::Bool(true), Json::Bool(false)])),
        ("n".into(), Json::Number("-3".into())),
        ("t".into(), Json::Text("line\nbreak \\ \u{1}".into())),
    ]);
    let written = write_json(&value);
    assert_eq!(
        written,
        "{\"a \\\"b\\\"\":[null,true,false],\"n\":-3,\"t\":\"line\\nbreak \\\\ \\u0001\"}"
    );
    assert_eq!(extract_json(&written), Some(value));
    assert_eq!(write_json(&Json::List(vec![])), "[]");
    assert_eq!(write_json(&Json::Object(vec![])), "{}");
}

#[test]
fn other_results_render_to_nothing() {
    assert_eq!(render_result(&Json::Null), "");
    assert_eq!(render_result(&Json::Number("3".into())), "");
    assert_eq!(render_result(&object1("other", text("x"))), "");
    assert_eq!(
        render_result(&Json::Object(vec![
            ("content".into(), text("c")),
            ("output".into(), text("o"))
        ])),
        "c"
    );
    assert_eq!(
        render_result(&Json::Object(vec![("text".into(), Json::Null), ("output".into(), text("o"))])),
        ""
    );
}

#[test]
fn a_completion_is_read_from_the_reply() {
    let ok = object1("result", object1("output", text("answer")));
    assert_eq!(completion(true, "200 OK", &ok), Ok("answer".to_string()));
}

#[test]
fn a_refused_or_empty_completion_is_an_error() {
    assert_eq!(
        completion(false, "403 Forbidden", &object1("error", text("grant missing"))),
        Err("grant missing (HTTP 403 Forbidden)".to_string())
    );
    assert_eq!(
        completion(false, "500 Internal Server Error", &Json::Null),
        Err("host model callback failed (HTTP 500 Internal Server Error)".to_string())
    );
    assert_eq!(
        completion(true, "200 OK", &object1("result", text(" \n"))),
        Err("the model returned an empty completion".to_string())
    );
    assert_eq!(
        completion(true, "200 OK", &Json::Null),
        Err("the model returned an empty completion".to_string())
    );
}

#[test]
fn the_callback_needs_a_token_an_id_and_a_port() {
    let some = |s: &str| Some(s.to_string());
    let s = settings(some("tok"), some("plug"), some("8123")).expect("settings");
    assert_eq!(s.base, "http://127.0.0.1:8123");
    assert_eq!(s.token, "tok");
    assert_eq!(s.plugin_id, "plug");
    assert!(settings(None, some("plug"), some("8123")).is_none());
    assert!(settings(some(""), some("plug"), some("8123")).is_none());
    assert!(settings(some("tok"), some(""), some("8123")).is_none());
    assert!(settings(some("tok"), some("plug"), None).is_none());
    assert!(settings(some("tok"), some("plug"), some("no")).is_none());
}

#[test]
fn ports_are_numbers_of_sixteen_bits() {
    for s in ["0", "80", "65535", "+7", "00080", "65536", "-1", "", "+", "8 0", " 80", "1e3", "99999999999"] {
        assert_eq!(parse_port(s), s.parse::<u16>().ok(), "{s:?}");
    }
}

#[test]
fn texts_are_picked_out_of_a_list() {
    let j = object1("k", list_value(vec![text_value("a"), Json::Null, text_value("b")]));
    assert_eq!(j.texts("k"), vec!["a", "b"]);
    assert!(j.texts("absent").is_empty());
    assert_eq!(j.clone(), j);
}

#[test]
fn texts_are_quoted_with_escapes() {
    assert_eq!(quote_json("a \"b\" \\ c/d"), r#""a \"b\" \\ c/d""#);
    assert_eq!(quote_json("\u{8}\t\n\u{c}\r"), r#""\b\t\n\f\r""#);
    assert_eq!(quote_json("\u{0}\u{1f}\u{7f}\u{e9}\u{2028}"), "\"\\u0000\\u001f\u{7f}\u{e9}\u{2028}\"");
    for from in (0..=0x10ffffu32).step_by(64) {
        let s: String = (from..from + 64).filter_map(char::from_u32).collect();
        assert_eq!(quote_json(&s), serde_json::Value::String(s.clone()).to_string());
        assert_eq!(parse_json(&quote_json(&s)), Some(Json::Text(s)));
    }
}

#[test]
fn numbers_are_read_once_however_deep_they_stand() {
    for n in ["0.1", "1e3", "-0.0", "123456789.12345679e-17", "2.2250738585072011e-308", "7"] {
        let once = serde_json::from_str::<serde_json::Value>(n).expect("a number").to_string();
        let deep = format!("{{\"a\": [[{{\"b\": [{n}]}}]]}}");
        let leaf = Json::List(vec![Json::Number(once)]);
        let want = object1("a", Json::List(vec![Json::List(vec![object1("b", leaf)])]));
        assert_eq!(parse_json(&deep), Some(want));
    }
    assert_eq!(parse_json("[1,]"), None);
}

#[test]
fn members_are_read_in_the_order_of_their_names() {
    assert_eq!(
        parse_json("{\"b\": true, \"a\": null, \"b\": \"last\"}"),
        Some(Json::Object(vec![("a".into(), Json::Null), ("b".into(), text("last"))]))
    );
}

#[test]
fn values_are_written_as_they_are_read() {
    for s in [
        "{}",
        "[]",
        "null",
        "{\"b\": [1, 2.50, -0.0, 1e30], \"a\": {\"x\\n\": [true, false, null, []]}}",
        "[{\"k\": \"\\u00e9\\u2028\\ud83d\\ude00\"}, [[\"\\\\\"]], {\"\": {}}]",
    ] {
        let value = serde_json::from_str::<serde_json::Value>(s).expect("a value");
        assert_eq!(write_json(&parse_json(s).expect("a value")), value.to_string());
        assert_eq!(pretty_json(s), serde_json::to_string_pretty(&value).ok());
    }
    assert_eq!(pretty_json("{"), None);
}
