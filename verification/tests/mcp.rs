use alog::mcp::{
    args_of, call, content, field, field_within, has_whole_id, js, num, raw_id, reply, request, tools_list, Call,
    Request, TOOLS,
};

#[test]
fn field_reads_scalars_and_leaves_the_envelope_alone() {
    let j = r#"{"jsonrpc":"2.0","id":7,"method":"tools/call","params":{"name":"search","arguments":{"query":"a \"quoted\" term","limit":5}}}"#;
    assert_eq!(field(j, "method").as_deref(), Some("tools/call"));
    assert_eq!(field(j, "name").as_deref(), Some("search"));
    let a = args_of(j);
    assert_eq!(field(&a, "query").as_deref(), Some("a \"quoted\" term"));
    assert_eq!(num(&a, "limit", 20), 5);
    // A key that only exists in the envelope must not leak into arguments.
    assert_eq!(field(&a, "method"), None);
}

#[test]
fn id_keeps_its_json_type_and_notifications_get_none() {
    assert_eq!(raw_id(r#"{"id":7,"method":"ping"}"#).as_deref(), Some("7"));
    assert_eq!(
        raw_id(r#"{"id":"abc","method":"ping"}"#).as_deref(),
        Some("\"abc\"")
    );
    assert_eq!(raw_id(r#"{"method":"notifications/initialized"}"#), None);
    assert_eq!(raw_id(r#"{"id":null,"method":"x"}"#), None);
}

#[test]
fn utf8_survives_a_round_trip() {
    let j = r#"{"params":{"arguments":{"query":"重写 fsync"}}}"#;
    assert_eq!(
        field(&args_of(j), "query").as_deref(),
        Some("重写 fsync"),
        "multi-byte characters must not be split"
    );
}

#[test]
fn every_tool_declares_a_schema_and_a_description() {
    for (name, desc, schema) in TOOLS {
        assert!(!name.is_empty());
        assert!(
            desc.len() > 40,
            "{name} needs a description a model can use"
        );
        assert!(schema.starts_with('{'), "{name} schema must be an object");
    }
    // tools/list must be parseable JSON-ish: balanced braces at minimum.
    let l = tools_list();
    assert_eq!(
        l.chars().filter(|c| *c == '{').count(),
        l.chars().filter(|c| *c == '}').count()
    );
}

#[test]
fn tools_list_is_json() {
    let v: serde_json::Value = serde_json::from_str(&tools_list()).unwrap();
    let tools = v["tools"].as_array().unwrap();
    assert_eq!(tools.len(), 8);
    assert_eq!(tools[0]["name"], "search");
    assert_eq!(tools[6]["name"], "record");
    assert_eq!(tools[6]["inputSchema"]["required"][1], "seq");
}

#[test]
fn what_is_written_is_read_back() {
    let s = "a \"b\" \\ c\nd\te\rf é 重 🦀";
    let line = format!("{{\"key\":{}}}", js(s));
    assert_eq!(field(&line, "key").as_deref(), Some(s));
}

#[test]
fn control_characters_are_escaped() {
    assert_eq!(js("\u{1}\u{1f}"), "\"\\u0001\\u001f\"");
}

#[test]
fn field_reads_bare_values_and_white_space() {
    assert_eq!(field("{\"a\" : true}", "a").as_deref(), Some("true"));
    assert_eq!(field("{\"a\":[1,2]}", "a").as_deref(), Some("[1"));
    assert_eq!(field("{\"a\":", "a"), None);
    assert_eq!(field("{\"a\" 1}", "a"), None);
    assert_eq!(field("{\"a\":\"open", "a"), None);
    assert_eq!(field("{}", "a"), None);
}

#[test]
fn field_reads_escapes() {
    assert_eq!(
        field(r#"{"q":"caf\u00e9 \ud83e\udd80\b\f\/\u000A"}"#, "q").as_deref(),
        Some("café 🦀\u{8}\u{c}/\n")
    );
    // What is no escape stands for itself.
    assert_eq!(field("{\"a\":\"\\é12\"}", "a").as_deref(), Some("é12"));
    assert_eq!(field(r#"{"a":"\u12x"}"#, "a").as_deref(), Some("u12x"));
    assert_eq!(field(r#"{"a":"\ud83e!"}"#, "a").as_deref(), Some("ud83e!"));
    assert_eq!(field(r#"{"a":"\ud83e\u0041"}"#, "a").as_deref(), Some("ud83eA"));
    assert_eq!(field(r#"{"a":"\udd80"}"#, "a").as_deref(), Some("udd80"));
    assert_eq!(field("{\"a\":\"x\\", "a"), None);
}

#[test]
fn field_reads_a_key_and_not_a_value() {
    assert_eq!(field(r#"{"query":"limit","limit":5}"#, "limit").as_deref(), Some("5"));
    assert_eq!(
        field(r#"{"query":"\"limit\":7","limit":5}"#, "limit").as_deref(),
        Some("5")
    );
    assert_eq!(field(r#"{"query":"limit"}"#, "limit"), None);
    assert_eq!(field(r#"{"a\"b":1}"#, "a\"b").as_deref(), Some("1"));
    assert_eq!(field("{\"a\"\u{a0}:1}", "a"), None);
}

#[test]
fn what_stands_in_the_arguments_is_not_the_message() {
    let line = r#"{"params":{"arguments":{"id":3,"method":"ping","name":"doctor"},"name":"sql"},"method":"tools/call","id":9}"#;
    match request(line, "1.0") {
        Request::Tool { id, name, args } => {
            assert_eq!(id.as_deref(), Some("9"));
            assert_eq!(name, "sql");
            assert_eq!(args, r#"{"id":3,"method":"ping","name":"doctor"}"#);
        }
        other => panic!("{other:?}"),
    }
    assert_eq!(field_within(line, "name", 2).as_deref(), Some("sql"));
    assert_eq!(field_within(line, "name", 3).as_deref(), Some("doctor"));
    assert_eq!(raw_id(r#"{"params":{"id":3},"method":"x"}"#), None);
}

#[test]
fn an_id_is_taken_whole() {
    assert_eq!(
        raw_id(r#"{"id":"a\"b","method":"ping"}"#).as_deref(),
        Some(r#""a\"b""#)
    );
    assert_eq!(
        raw_id(r#"{"id":"a\\","method":"ping"}"#).as_deref(),
        Some(r#""a\\""#)
    );
    assert_eq!(raw_id(r#"{"method":"id","id" : 7 }"#).as_deref(), Some("7"));
    assert_eq!(raw_id(r#"{"id":"a\""#).as_deref(), Some(r#""a\""#));
    for s in ["", "null", "a\"\\", "é\u{1}", "}, "] {
        let q = js(s);
        assert_eq!(raw_id(&format!("{{\"id\":{q}}}")), Some(q));
    }
}

#[test]
fn every_string_is_read_back() {
    let all: String = (0..0x300u32).chain([0xffff, 0x10ffff]).filter_map(char::from_u32).collect();
    for s in ["", "\\", "\"", all.as_str()] {
        let q = js(s);
        assert_eq!(serde_json::from_str::<String>(&q).unwrap(), s);
        assert!(q.starts_with('"') && q.ends_with('"'));
        assert!(q.chars().all(|c| c >= ' '));
        let args = format!("{{{q}:{q}}}");
        assert_eq!(field(&args, s).as_deref(), Some(s));
        assert_eq!(args_of(&format!("{{\"arguments\":{args}}}")), args);
    }
}

#[test]
fn num_falls_back() {
    assert_eq!(num("{\"n\":\" 12 \"}", "n", 3), 12);
    assert_eq!(num("{\"n\":\"+7\"}", "n", 3), 7);
    assert_eq!(num("{\"n\":-1}", "n", 3), 3);
    assert_eq!(num("{}", "n", 3), 3);
    assert_eq!(num("{\"n\":18446744073709551615}", "n", 3), usize::MAX);
    assert_eq!(num("{\"n\":18446744073709551616}", "n", 3), 3);
}

#[test]
fn arguments_are_balanced_outside_strings() {
    assert_eq!(
        args_of(r#"{"arguments":{"a":"}","b":{"c":1}},"x":2}"#),
        r#"{"a":"}","b":{"c":1}}"#
    );
    assert_eq!(args_of(r#"{"arguments":7,"x":{}}"#), "");
    assert_eq!(args_of(r#"{"arguments":{"a":1"#), "");
    assert_eq!(
        args_of(r#"{"arguments":{"query":"a\\"}}"#),
        r#"{"query":"a\\"}"#
    );
    assert_eq!(
        args_of(r#"{"name":"arguments","arguments" : {"q":"\"}"}}"#),
        r#"{"q":"\"}"}"#
    );
    assert_eq!(args_of(r#"{"arguments":"{}"}"#), "");
    assert_eq!(args_of("{}"), "");
}

#[test]
fn a_message_may_break_off_in_its_id() {
    assert!(has_whole_id("{}"));
    assert!(has_whole_id("{\"id\":1"));
    assert!(!has_whole_id("{\"id\":"));
    assert!(!has_whole_id("{\"id\": \"ab"));
    assert!(has_whole_id("{\"id\": \"a\\\""));
}

#[test]
fn calls_are_read() {
    match call("search", "{\"query\":\"x\"}") {
        Call::Search { query, limit } => assert_eq!((query.as_str(), limit), ("x", 20)),
        other => panic!("{other:?}"),
    }
    match call("timeline", "{\"session\":\"s\",\"start\":5}") {
        Call::Timeline {
            session,
            start,
            limit,
        } => assert_eq!((session.as_str(), start, limit), ("s", 5, 80)),
        other => panic!("{other:?}"),
    }
    match call("record", "{\"session\":\"s\",\"seq\":3}") {
        Call::Record { session, seq } => assert_eq!((session.as_str(), seq), ("s", 3)),
        other => panic!("{other:?}"),
    }
    match call("errors", "") {
        Call::Errors { limit } => assert_eq!(limit, 50),
        other => panic!("{other:?}"),
    }
    assert!(matches!(call("catalog", ""), Call::Catalog));
    assert!(matches!(call("doctor", ""), Call::Doctor));
}

#[test]
fn calls_are_refused() {
    let refused = |name: &str, args: &str| match call(name, args) {
        Call::Refuse(why) => why,
        other => panic!("{other:?}"),
    };
    assert_eq!(refused("search", "{}"), "search needs a query");
    assert_eq!(refused("turns", "{}"), "turns needs a session");
    assert_eq!(refused("timeline", "{}"), "timeline needs a session");
    assert_eq!(refused("sql", "{}"), "sql needs a query");
    assert_eq!(refused("record", "{}"), "record needs a session");
    assert_eq!(refused("record", "{\"session\":\"s\"}"), "record needs a seq");
    assert_eq!(
        refused("nope", "{}"),
        "unknown tool nope; call tools/list for the 8 available"
    );
}

#[test]
fn replies_carry_the_id() {
    match request("{\"id\":\"a\",\"method\":\"ping\"}", "1.0") {
        Request::Reply(m) => {
            assert_eq!(m, "{\"jsonrpc\":\"2.0\",\"id\":\"a\",\"result\":{}}")
        }
        other => panic!("{other:?}"),
    }
    match request("{\"id\":1,\"method\":\"what\"}", "1.0") {
        Request::Reply(m) => assert_eq!(
            m,
            "{\"jsonrpc\":\"2.0\",\"id\":1,\"error\":{\"code\":-32601,\"message\":\"method not found: what\"}}"
        ),
        other => panic!("{other:?}"),
    }
    match request("{\"id\":1,\"method\":\"initialize\"}", "1.0") {
        Request::Reply(m) => assert_eq!(
            m,
            "{\"jsonrpc\":\"2.0\",\"id\":1,\"result\":{\"protocolVersion\":\"2024-11-05\",\"capabilities\":{\"tools\":{}},\"serverInfo\":{\"name\":\"alog\",\"version\":\"1.0\"}}}"
        ),
        other => panic!("{other:?}"),
    }
    assert!(matches!(
        request("{\"method\":\"ping\"}", "1.0"),
        Request::Ignore
    ));
    assert!(matches!(request("  ", "1.0"), Request::Ignore));
}

#[test]
fn a_notification_runs_its_tool_and_is_not_answered() {
    match request("{\"method\":\"tools/call\",\"name\":\"doctor\"}", "1.0") {
        Request::Tool { id, name, args } => {
            assert_eq!(id, None);
            assert_eq!(name, "doctor");
            assert_eq!(args, "");
            assert_eq!(reply(&id, "{}"), None);
        }
        other => panic!("{other:?}"),
    }
}

#[test]
fn an_error_report_is_marked() {
    assert_eq!(
        content(&Ok("x".to_string())),
        "{\"content\":[{\"type\":\"text\",\"text\":\"x\"}]}"
    );
    assert_eq!(
        content(&Ok("{\"code\":\"ALOG_X\"}".to_string())),
        "{\"content\":[{\"type\":\"text\",\"text\":\"{\\\"code\\\":\\\"ALOG_X\\\"}\"}],\"isError\":true}"
    );
    assert_eq!(
        content(&Err("e".to_string())),
        "{\"content\":[{\"type\":\"text\",\"text\":\"e\"}],\"isError\":true}"
    );
}
