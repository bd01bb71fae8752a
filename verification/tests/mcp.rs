use ryu_reasoning::json::{object1, Json};
use ryu_reasoning::mcp::{
    check_arguments, missing_policy, plan, read_line, result_line, route, solve_arguments,
    text_content, tool_error, tool_list, tool_result, unknown_method_line, Reply, ToolCall,
    NO_MODEL, PROTOCOL_VERSION,
};

fn tools() -> Vec<Json> {
    match tool_list() {
        Json::List(items) => items,
        other => panic!("expected a list, got {other:?}"),
    }
}

fn text(s: &str) -> Json {
    Json::Text(s.into())
}

fn first_text(result: &Json) -> String {
    let blocks = result.items("content").expect("content");
    blocks[0].text("text").expect("text").clone()
}

#[test]
fn every_tool_declares_a_schema_and_a_description() {
    let tools = tools();
    assert_eq!(tools.len(), 4);
    for tool in &tools {
        let name = tool.text("name").expect("name");
        assert!(
            tool.text("description").is_some_and(|d| d.len() > 40),
            "{name} needs a description that says when to use it"
        );
        assert_eq!(
            tool.get("inputSchema").and_then(|s| s.text("type")).map(String::as_str),
            Some("object"),
            "{name} needs an object input schema"
        );
    }
}

#[test]
fn the_offline_tools_are_reachable_without_a_model() {
    // `solve` and `analyze` must not require the host callback: a workflow that
    // gates on a proof should not have to spend a model call.
    let tools = tools();
    let names: Vec<&str> = tools
        .iter()
        .filter_map(|t| t.text("name").map(String::as_str))
        .collect();
    assert!(names.contains(&"solve"));
    assert!(names.contains(&"analyze"));
    let args = object1("policy_id", text("hr"));
    assert_eq!(plan("solve", &args, false), Ok(ToolCall::Solve { policy_id: "hr".into() }));
    assert_eq!(plan("analyze", &args, false), Ok(ToolCall::Analyze { policy_id: "hr".into() }));
}

#[test]
fn a_tool_error_is_marked_as_one() {
    let result = tool_result("{\"error\":\"boom\"}", true);
    assert_eq!(result.get("isError"), Some(&Json::Bool(true)));
    assert!(first_text(&result).contains("boom"));
    assert_eq!(tool_error("boom"), result);
}

#[test]
fn tool_output_is_laid_out() {
    let result = tool_result("{\"a\":[1]}", false);
    assert_eq!(first_text(&result), "{\n  \"a\": [\n    1\n  ]\n}");
    assert_eq!(result.get("isError"), Some(&Json::Bool(false)));
    assert_eq!(tool_result("plain words", false), text_content("plain words", false));
}

#[test]
fn lines_are_routed_by_method() {
    match read_line("  {\"id\": 7, \"method\": \"initialize\"}\n") {
        Reply::Result { id, result } => {
            assert_eq!(id, Json::Number("7".into()));
            assert_eq!(result.text("protocolVersion").map(String::as_str), Some(PROTOCOL_VERSION));
            let info = result.get("serverInfo").expect("serverInfo");
            assert_eq!(info.text("name").map(String::as_str), Some("ryu-reasoning"));
        }
        other => panic!("{other:?}"),
    }
    match read_line("{\"id\": \"a\", \"method\": \"ping\"}") {
        Reply::Result { result, .. } => assert_eq!(result, Json::Object(vec![])),
        other => panic!("{other:?}"),
    }
    match read_line("{\"id\": null, \"method\": \"tools/list\"}") {
        Reply::Result { id, result } => {
            assert_eq!(id, Json::Null);
            assert_eq!(result.get("tools"), Some(&tool_list()));
        }
        other => panic!("{other:?}"),
    }
    match read_line(
        "{\"id\": 1, \"method\": \"tools/call\", \"params\": {\"name\": \"solve\", \"arguments\": {\"policy_id\": \"hr\"}}}",
    ) {
        Reply::Call { name, arguments, .. } => {
            assert_eq!(name, "solve");
            assert_eq!(arguments, object1("policy_id", text("hr")));
        }
        other => panic!("{other:?}"),
    }
    match read_line("{\"id\": 1, \"method\": \"tools/call\"}") {
        Reply::Call { name, arguments, .. } => {
            assert_eq!(name, "");
            assert_eq!(arguments, Json::Object(vec![]));
        }
        other => panic!("{other:?}"),
    }
    match read_line("{\"id\": 1, \"method\": \"nope\"}") {
        Reply::Unknown { method, .. } => assert_eq!(method, "nope"),
        other => panic!("{other:?}"),
    }
}

#[test]
fn what_cannot_be_answered_is_passed_over() {
    assert!(matches!(read_line("   "), Reply::Nothing));
    assert!(matches!(read_line("{ not json"), Reply::Nothing));
    assert!(matches!(read_line("{\"method\": \"ping\"}"), Reply::Nothing));
    assert!(matches!(route(&Json::Null), Reply::Nothing));
}

#[test]
fn answers_are_single_lines() {
    assert_eq!(
        result_line(Json::Number("7".into()), object1("a", text("b\nc"))),
        "{\"id\":7,\"jsonrpc\":\"2.0\",\"result\":{\"a\":\"b\\nc\"}}\n"
    );
    assert_eq!(
        unknown_method_line(text("x"), "nope"),
        "{\"error\":{\"code\":-32601,\"message\":\"unknown method 'nope'\"},\"id\":\"x\",\"jsonrpc\":\"2.0\"}\n"
    );
}

#[test]
fn calls_are_refused_with_a_reason() {
    let none = Json::Object(vec![]);
    assert_eq!(plan("policies", &none, false), Ok(ToolCall::Policies));
    assert_eq!(plan("solve", &none, true), Err("policy_id is required".to_string()));
    assert_eq!(plan("check", &none, false), Err(NO_MODEL.to_string()));
    assert_eq!(
        plan("check", &object1("policy_id", text("hr")), true),
        Ok(ToolCall::Check { policy_id: "hr".into() })
    );
    assert_eq!(plan("dance", &none, true), Err("unknown tool 'dance'".to_string()));
    assert_eq!(
        missing_policy("hr"),
        "no policy with the id 'hr' — call `policies` to list them"
    );
}

#[test]
fn solve_takes_formulas_as_they_are() {
    let args = Json::Object(vec![
        ("claims".into(), Json::List(vec![text("a <= 1"), Json::Null])),
        ("premises".into(), Json::List(vec![text("b")])),
    ]);
    let x = solve_arguments(&args).expect("arguments");
    assert_eq!(x.claims.len(), 1);
    assert_eq!(x.claims[0].expression, "a <= 1");
    assert_eq!(x.claims[0].statement, "a <= 1");
    assert_eq!(x.premises[0].expression, "b");
    assert_eq!(
        solve_arguments(&object1("claims", Json::List(vec![]))).unwrap_err(),
        "`claims` must contain at least one formula"
    );
}

#[test]
fn check_needs_an_answer() {
    let args = Json::Object(vec![("answer".into(), text("yes")), ("question".into(), text("who?"))]);
    assert_eq!(check_arguments(&args), Ok(("who?".to_string(), "yes".to_string())));
    assert_eq!(
        check_arguments(&object1("answer", text("yes"))),
        Ok((String::new(), "yes".to_string()))
    );
    assert_eq!(
        check_arguments(&object1("question", text("who?"))),
        Err("answer is required".to_string())
    );
}

#[test]
fn an_id_comes_back_as_it_was_read() {
    for id in ["0.1", "123456789.12345679e-17", "\"a\\\"b\"", "[1.5]"] {
        let line = format!("{{\"id\": {id}, \"method\": \"ping\"}}");
        let once = serde_json::from_str::<serde_json::Value>(id).expect("a value").to_string();
        match read_line(&line) {
            Reply::Result { id, result } => assert_eq!(
                result_line(id, result),
                format!("{{\"id\":{once},\"jsonrpc\":\"2.0\",\"result\":{{}}}}\n")
            ),
            other => panic!("{other:?}"),
        }
    }
}
