use serde_json::Value;

use tack::author::AuthorEnv;
use tack::json::{render_json, Json};
use tack::mcp::{
    answer_call, build_request, maybe_fill_author, parse_error, route, route_line, tool_input_schema,
    tools_list, CallOutcome, Route,
};
use tack::schema::schema_methods;

fn parse(text: &str) -> Value {
    serde_json::from_str(text).expect("valid JSON")
}

fn empty() -> Value {
    Value::Object(serde_json::Map::new())
}

fn json_of(value: &Value) -> Json {
    match value {
        Value::Null => Json::Null,
        Value::Bool(b) => Json::Bool(*b),
        Value::Number(n) => Json::Number(n.to_string()),
        Value::String(s) => Json::text(s),
        Value::Array(items) => Json::Array(items.iter().map(json_of).collect()),
        Value::Object(members) => {
            Json::Object(members.iter().map(|(k, v)| (k.clone(), json_of(v))).collect())
        }
    }
}

fn value_of(json: &Json) -> Value {
    match json {
        Json::Null => Value::Null,
        Json::Bool(b) => Value::Bool(*b),
        Json::Number(n) => parse(n),
        Json::Text(s) => Value::String(s.clone()),
        Json::Array(items) => Value::Array(items.iter().map(value_of).collect()),
        Json::Object(members) => {
            Value::Object(members.iter().map(|(k, v)| (k.clone(), value_of(v))).collect())
        }
    }
}

/// Routes each line of `input`, and gives the replies.
fn run_session(input: &str) -> Vec<Value> {
    let mut out = Vec::new();
    for line in input.lines() {
        match route_line(line, "0.2.0") {
            Route::Silent => {}
            Route::Reply(json) => out.push(parse(&render_json(&json))),
            Route::Call { .. } => panic!("no tool is called here"),
        }
    }
    out
}

// ── tool_input_schema ─────────────────────────────────────────────────────────

#[test]
fn tool_input_schema_no_arg_method_returns_minimal_schema() {
    let methods = schema_methods();
    let status = methods
        .iter()
        .find(|m| m.method == "status")
        .expect("status method");
    let schema = value_of(&tool_input_schema(status));
    assert_eq!(schema["type"], "object");
    assert_eq!(schema["additionalProperties"], false);
    assert!(
        schema.get("properties").is_none(),
        "no-arg method must not have properties"
    );
    assert!(
        schema.get("required").is_none(),
        "no-arg method must not have required"
    );
}

#[test]
fn tool_input_schema_diff_method_has_correct_types() {
    let methods = schema_methods();
    let diff = methods
        .iter()
        .find(|m| m.method == "diff")
        .expect("diff method");
    let schema = value_of(&tool_input_schema(diff));

    assert_eq!(schema["type"], "object");
    assert_eq!(schema["additionalProperties"], false);

    // `from` and `to` are optional strings.
    assert_eq!(schema["properties"]["from"]["type"], "string");
    assert_eq!(schema["properties"]["to"]["type"], "string");
    // `stat` and `patch` are booleans.
    assert_eq!(schema["properties"]["stat"]["type"], "boolean");
    assert_eq!(schema["properties"]["patch"]["type"], "boolean");

    // None of these are required (all optional in diff).
    let required = schema.get("required");
    assert!(
        required.is_none() || required.unwrap().as_array().is_some_and(Vec::is_empty),
        "diff has no required params: {schema}"
    );
}

#[test]
fn tool_input_schema_scoped_cut_author_fields_not_required() {
    let methods = schema_methods();
    let sc = methods
        .iter()
        .find(|m| m.method == "scoped_cut")
        .expect("scoped_cut method");
    let schema = value_of(&tool_input_schema(sc));

    // `paths` and `message` are required.
    let required = schema["required"].as_array().expect("required array");
    let required_names: Vec<&str> = required.iter().filter_map(Value::as_str).collect();
    assert!(
        required_names.contains(&"paths"),
        "paths must be required: {required_names:?}"
    );
    assert!(
        required_names.contains(&"message"),
        "message must be required: {required_names:?}"
    );

    // `author_name` and `author_email` must NOT be required (server fills them).
    assert!(
        !required_names.contains(&"author_name"),
        "author_name must not be required for scoped_cut"
    );
    assert!(
        !required_names.contains(&"author_email"),
        "author_email must not be required for scoped_cut"
    );

    // But the properties must still be present (optional override).
    assert!(
        schema["properties"].get("author_name").is_some(),
        "author_name must be a declared property"
    );
    assert!(
        schema["properties"].get("author_email").is_some(),
        "author_email must be a declared property"
    );

    // `paths` is `[string]`.
    assert_eq!(schema["properties"]["paths"]["type"], "array");
    assert_eq!(schema["properties"]["paths"]["items"]["type"], "string");
}

// ── tools_list ────────────────────────────────────────────────────────────────

#[test]
fn tools_list_contains_all_methods_with_tack_prefix() {
    let list = value_of(&tools_list());
    let tools = list["tools"].as_array().expect("tools array");

    let methods = schema_methods();
    assert_eq!(
        tools.len(),
        methods.len(),
        "tools/list must expose every schema method"
    );

    for method in &methods {
        let expected_name = format!("tack_{}", method.method);
        let found = tools.iter().any(|t| t["name"] == expected_name);
        assert!(found, "missing tool {expected_name} in tools/list");
    }
}

#[test]
fn tools_list_all_input_schemas_are_valid_objects() {
    let list = value_of(&tools_list());
    let tools = list["tools"].as_array().expect("tools array");

    for tool in tools {
        let name = tool["name"].as_str().unwrap_or("<unknown>");
        let schema = &tool["inputSchema"];
        assert_eq!(
            schema["type"], "object",
            "{name}: inputSchema must be type:object"
        );
        assert_eq!(
            schema["additionalProperties"], false,
            "{name}: inputSchema must have additionalProperties:false"
        );
    }
}

#[test]
fn tools_list_all_names_use_only_allowed_chars() {
    let list = value_of(&tools_list());
    let tools = list["tools"].as_array().expect("tools array");
    for tool in tools {
        let name = tool["name"].as_str().expect("name string");
        assert!(
            name.chars().all(|c| c.is_ascii_alphanumeric() || c == '_'),
            "tool name {name:?} contains disallowed characters"
        );
    }
}

// ── build_request ─────────────────────────────────────────────────────────────

#[test]
fn build_request_status_from_empty_args() {
    let req = value_of(&build_request("status", &Json::empty_object()));
    assert_eq!(req["method"], "status");
    assert_eq!(req.as_object().map(serde_json::Map::len), Some(1));
}

#[test]
fn build_request_diff_with_partial_args() {
    let args = json_of(&parse(r#"{"to": "ab12", "stat": true}"#));
    let req = value_of(&build_request("diff", &args));
    assert_eq!(req["method"], "diff");
    assert_eq!(req["to"], "ab12");
    assert_eq!(req["stat"], true);
}

#[test]
fn build_request_ignores_a_method_among_the_arguments() {
    let args = json_of(&parse(r#"{"method":"undo","from":"ab12"}"#));
    let req = value_of(&build_request("diff", &args));
    assert_eq!(req, parse(r#"{"method":"diff","from":"ab12"}"#));
    assert_eq!(value_of(&args), parse(r#"{"method":"undo","from":"ab12"}"#));
}

#[test]
fn build_request_takes_no_arguments_from_other_values() {
    let req = value_of(&build_request("status", &Json::text("x")));
    assert_eq!(req, parse(r#"{"method": "status"}"#));
}

// ── full session ─────────── ───────────────────────────────────────────────────

#[test]
fn session_initialize_echoes_client_protocol_version() {
    let input = r#"{"jsonrpc":"2.0","id":1,"method":"initialize","params":{"protocolVersion":"2024-11-05","capabilities":{}}}"#.to_owned() + "\n";
    let lines = run_session(&input);
    assert_eq!(lines.len(), 1);
    let resp = &lines[0];
    assert_eq!(resp["id"], 1);
    assert_eq!(resp["result"]["protocolVersion"], "2024-11-05");
    assert_eq!(resp["result"]["capabilities"]["tools"], empty());
    assert_eq!(resp["result"]["serverInfo"]["name"], "tack");
}

#[test]
fn session_initialize_uses_default_version_when_absent() {
    let input =
        r#"{"jsonrpc":"2.0","id":1,"method":"initialize","params":{}}"#.to_owned() + "\n";
    let lines = run_session(&input);
    assert_eq!(lines.len(), 1);
    assert_eq!(lines[0]["result"]["protocolVersion"], "2025-11-25");
}

#[test]
fn session_notifications_initialized_produces_no_output() {
    let input = [
        "{\"jsonrpc\":\"2.0\",\"id\":1,\"method\":\"initialize\",\"params\":{\"protocolVersion\":\"2025-11-25\"}}\n",
        "{\"jsonrpc\":\"2.0\",\"method\":\"notifications/initialized\"}\n",
        "{\"jsonrpc\":\"2.0\",\"id\":2,\"method\":\"ping\"}\n",
    ]
    .concat();
    let lines = run_session(&input);
    // Must have exactly 2 lines: the initialize reply and the ping reply.
    // The notification must NOT produce a line.
    assert_eq!(
        lines.len(),
        2,
        "notification must not produce output: {lines:?}"
    );
    assert_eq!(lines[0]["id"], 1);
    assert_eq!(lines[1]["id"], 2);
    assert_eq!(lines[1]["result"], empty());
}

#[test]
fn session_tools_list_returns_all_tack_tools() {
    let input = r#"{"jsonrpc":"2.0","id":3,"method":"tools/list"}"#.to_owned() + "\n";
    let lines = run_session(&input);
    assert_eq!(lines.len(), 1);
    let tools = lines[0]["result"]["tools"].as_array().expect("tools array");
    let methods = schema_methods();
    assert_eq!(tools.len(), methods.len());
    for method in &methods {
        let expected = format!("tack_{}", method.method);
        assert!(
            tools.iter().any(|t| t["name"] == expected),
            "missing tool {expected}"
        );
    }
}

#[test]
fn session_ping_returns_empty_object() {
    let input = r#"{"jsonrpc":"2.0","id":99,"method":"ping"}"#.to_owned() + "\n";
    let lines = run_session(&input);
    assert_eq!(lines.len(), 1);
    assert_eq!(lines[0]["result"], empty());
}

#[test]
fn session_unknown_method_returns_method_not_found() {
    let input = r#"{"jsonrpc":"2.0","id":5,"method":"unknown/thing"}"#.to_owned() + "\n";
    let lines = run_session(&input);
    assert_eq!(lines.len(), 1);
    assert_eq!(lines[0]["error"]["code"], -32_601);
}

#[test]
fn session_malformed_json_returns_parse_error() {
    let input = "not json at all\n";
    let lines = run_session(input);
    assert_eq!(lines.len(), 1);
    assert_eq!(lines[0]["id"], Value::Null);
    assert_eq!(lines[0]["error"]["code"], -32_700);
}

#[test]
fn session_blank_lines_are_ignored() {
    let input = "\n\n{\"jsonrpc\":\"2.0\",\"id\":1,\"method\":\"ping\"}\n\n";
    let lines = run_session(input);
    assert_eq!(lines.len(), 1);
    assert_eq!(lines[0]["result"], empty());
}

#[test]
fn session_unknown_tool_returns_protocol_error() {
    let input = r#"{"jsonrpc":"2.0","id":7,"method":"tools/call","params":{"name":"git_status","arguments":{}}}"#.to_owned() + "\n";
    let lines = run_session(&input);
    assert_eq!(lines.len(), 1);
    assert_eq!(
        lines[0]["error"]["code"], -32_602,
        "unknown tool must return -32602"
    );
}

// ── tools/call ────────────────────────────────────────────────────────────────

const CALL: &str = r#"{"jsonrpc":"2.0","id":10,"method":"tools/call","params":{"name":"tack_status","arguments":{}}}"#;

#[test]
fn session_tools_call_is_handed_on() {
    let Route::Call { id, method, arguments } = route(&json_of(&parse(CALL)), "1.0") else {
        panic!("expected a call");
    };
    assert_eq!(value_of(&id), 10);
    assert_eq!(method, "status");
    assert_eq!(value_of(&arguments), empty());
    let outcome = CallOutcome::Answered(json_of(&parse(r#"{"status":"status","data":{}}"#)));
    let resp = value_of(&answer_call(&id, &outcome));
    // Must be a result (not an error at the JSON-RPC level).
    assert!(resp.get("result").is_some(), "expected result: {resp}");
    assert!(resp.get("error").is_none(), "unexpected error: {resp}");
    // Content must be present and type must be "text".
    let content = resp["result"]["content"].as_array().expect("content array");
    assert!(!content.is_empty());
    assert_eq!(content[0]["type"], "text");
    assert_eq!(content[0]["text"], r#"{"data":{},"status":"status"}"#);
    // isError must be false for a clean status.
    assert_eq!(resp["result"]["isError"], false);
    assert_eq!(resp["result"]["structuredContent"]["status"], "status");
}

#[test]
fn error_responses_are_marked() {
    let outcome = CallOutcome::Answered(json_of(&parse(r#"{"status":"error","message":"m"}"#)));
    let resp = value_of(&answer_call(&Json::Null, &outcome));
    assert_eq!(resp["result"]["isError"], true);
}

#[test]
fn session_tools_call_no_repo_returns_tool_error() {
    let Route::Call { id, .. } = route(&json_of(&parse(CALL)), "1.0") else {
        panic!("expected a call");
    };
    let resp = value_of(&answer_call(&id, &CallOutcome::NoRepository("/tmp/x".to_owned())));
    // JSON-RPC level: result (not error), but isError:true inside result.
    assert!(resp.get("result").is_some(), "must be a result (tool execution error)");
    assert_eq!(resp["result"]["isError"], true);
    assert_eq!(resp["result"]["content"][0]["text"], "no tack repository at /tmp/x");
}

#[test]
fn calls_that_fail_early_say_why() {
    let resp = value_of(&answer_call(&Json::Null, &CallOutcome::NoDirectory));
    assert_eq!(resp["result"]["content"][0]["text"], "failed to read current directory");
    let bad = CallOutcome::InvalidArguments("missing field `paths`".to_owned());
    let resp = value_of(&answer_call(&Json::Null, &bad));
    assert_eq!(resp["result"]["content"][0]["text"], "invalid arguments: missing field `paths`");
}

#[test]
fn a_message_without_a_method_is_invalid() {
    let lines = run_session("{\"id\":4}\n{\"x\":1}\n");
    assert_eq!(lines.len(), 1);
    assert_eq!(lines[0]["error"]["code"], -32_600);
    assert_eq!(lines[0]["error"]["message"], "invalid request: missing method");
}

// ── author fill ───────────────────────────────────────────────────────────────

fn env(name: Option<&str>, email: Option<&str>) -> AuthorEnv {
    AuthorEnv {
        author_name: name.map(str::to_owned),
        author_email: email.map(str::to_owned),
        username: None,
        user: Some("someone".to_owned()),
        computer_name: Some("  ".to_owned()),
        hostname: None,
    }
}

#[test]
fn author_fill_named_cut_with_env_var() {
    let env = env(Some("TestAuthor"), Some("test@example.com"));
    let mut args = json_of(&parse(r#"{"message":"test cut"}"#));
    maybe_fill_author("named_cut", &mut args, &env);
    let filled = value_of(&args);
    assert_eq!(filled["author_name"], "TestAuthor");
    assert_eq!(filled["author_email"], "test@example.com");
    assert_eq!(filled["message"], "test cut");
}

#[test]
fn author_fill_keeps_what_is_given() {
    let env = env(None, None);
    let mut args = json_of(&parse(r#"{"author_name":"Bob"}"#));
    maybe_fill_author("scoped_cut", &mut args, &env);
    assert_eq!(value_of(&args), parse(r#"{"author_name":"Bob","author_email":"Bob@localhost"}"#));

    let given = r#"{"author_name":"Bob","author_email":"b@x"}"#;
    let mut args = json_of(&parse(given));
    maybe_fill_author("backport", &mut args, &env);
    assert_eq!(value_of(&args), parse(given));

    let mut args = json_of(&parse("{}"));
    maybe_fill_author("status", &mut args, &env);
    assert_eq!(value_of(&args), empty());
}

#[test]
fn author_fill_takes_each_field_by_itself() {
    let env = env(Some("N"), Some("e@env"));
    let mut args = json_of(&parse(r#"{"message":"m","author_email":"me@x"}"#));
    maybe_fill_author("named_cut", &mut args, &env);
    let expected = r#"{"message":"m","author_name":"N","author_email":"me@x"}"#;
    assert_eq!(value_of(&args), parse(expected));
}

#[test]
fn lines_are_parsed_as_they_are() {
    let Route::Reply(reply) = route_line("  {\"id\":1.50,\"method\":\"ping\"} \n", "1") else {
        panic!("a reply")
    };
    assert_eq!(render_json(&reply), r#"{"id":1.5,"jsonrpc":"2.0","result":{}}"#);
    let Route::Reply(reply) = route_line("nope", "1") else { panic!("a reply") };
    assert_eq!(
        render_json(&reply),
        render_json(&parse_error("expected ident at line 1 column 2"))
    );
    assert!(matches!(route_line(" \t\n", "1"), Route::Silent));
}
