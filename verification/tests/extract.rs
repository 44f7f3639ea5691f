use alog::codex::{argument_target, codex, exit_failed, trunc_chars};
use alog::extract::{
    bracket_count, flat_text, judge, max_depth, parse_ts, rec_hash, scan_buf, scan_line, strip_ws,
    tool_of, Row,
};
use alog::json::{parse, Json};
use alog::record::{ContentField, MaybeStr, Rec, TsVal};
use serde_json::Value;

fn row(line: &str) -> Row {
    match scan_line(format!("{line}\n").as_bytes(), 0) {
        Some(Ok(r)) => r,
        Some(Err(why)) => panic!("{why}: {line}"),
        None => panic!("blank: {line}"),
    }
}

fn reject(line: &str) -> &'static str {
    match scan_line(format!("{line}\n").as_bytes(), 0) {
        Some(Err(why)) => why,
        _ => panic!("not rejected: {line}"),
    }
}

#[test]
fn hash_includes_length() {
    // crc32 alone collides on same-length edits; the length guard is why
    // rec_hash is (crc32 | len << 32) and why both sides must use it.
    assert_ne!(rec_hash(b"abc"), rec_hash(b"abcd"));
    assert_eq!(rec_hash(b"abc"), rec_hash(b"abc"));
}

#[test]
fn hash_is_checksum_and_length() {
    assert_eq!(rec_hash(b"abc"), 0x3_3524_41c2);
    assert_eq!(rec_hash(b""), 0);
    assert_eq!(rec_hash(b"123456789"), 0x9_cbf4_3926);
}

#[test]
fn white_space_is_stripped() {
    assert_eq!(strip_ws(b"\x0b\t a b \r\n"), b"a b");
    assert_eq!(strip_ws(b" \n"), b"");
    assert_eq!(strip_ws("\u{a0}x".as_bytes()), "\u{a0}x".as_bytes());
}

#[test]
fn brackets_nest() {
    assert_eq!(bracket_count(b"[{]}[\"[\"]"), 4);
    assert_eq!(max_depth(b"[{]}[\"[[[\"]"), 2);
    assert_eq!(max_depth(b"]][["), 2);
    assert_eq!(max_depth(b"\"\\\"[\"[["), 2);
    assert_eq!(max_depth(b""), 0);
    assert_eq!(max_depth(b"]]}["), 1);
    for v in [&b"1"[..], b"[]", b"{\"a\":[1,{}]}", b"\"[[\""] {
        let mut w = vec![b'['];
        w.extend_from_slice(v);
        w.push(b']');
        assert_eq!(max_depth(&w), max_depth(v) + 1);
        for n in 0..w.len() {
            let (a, b) = (max_depth(&w[..n]), max_depth(&w[..n + 1]));
            assert!(a <= b && b <= a + 1);
        }
    }
}

#[test]
fn a_record_becomes_a_row() {
    let r = row(
        r#"{"type":"assistant","timestamp":"2026-09-04T12:00:00.000Z","message":{"role":"assistant","model":"m1","content":[{"type":"text","text":"hello"},{"type":"tool_use","name":"Bash","input":{"command":"ls"}}],"usage":{"input_tokens":10,"output_tokens":5,"cache_read_input_tokens":true}}}"#,
    );
    assert_eq!(r.ts, Some(1788523200000));
    assert_eq!(r.kind.as_deref(), Some("assistant"));
    assert_eq!(r.role.as_deref(), Some("assistant"));
    assert_eq!(r.model.as_deref(), Some("m1"));
    assert_eq!(r.tool.as_deref(), Some("Bash"));
    assert_eq!(r.target.as_deref(), Some("ls"));
    assert_eq!((r.in_tok, r.out_tok, r.cache_r), (Some(10), Some(5), Some(1)));
    assert_eq!(r.is_err, None);
    assert_eq!(r.text, "hello ls");
}

#[test]
fn content_has_pieces() {
    let r = row(
        r#"{"message":{"role":"u","content":["a","",{"text":"b"},{"text":"","content":"x"},{"content":["c",{"text":"d"}]},{"content":"e"},{"type":"tool_use","input":{"k":"f","n":1,"k2":"g"}},{"type":"other","input":{"k":"h"}},7,["i"]]}}"#,
    );
    assert_eq!(r.text, "a b c d e f g");
    assert_eq!(row(r#"{"message":{"role":"u","content":"plain"}}"#).text, "plain");
    assert_eq!(row(r#"{"message":{"role":"u","content":{"text":"x"}}}"#).text, "");
}

#[test]
fn a_repeated_key_keeps_its_place_and_takes_the_last_value() {
    let r = row(
        r#"{"type":"a","type":"b","message":{"role":"u","content":[{"type":"tool_use","input":{"x":"1","y":"2","x":"3"}}]}}"#,
    );
    assert_eq!(r.kind.as_deref(), Some("b"));
    assert_eq!(r.text, "3 2");
}

#[test]
fn a_path_is_a_better_target_than_a_command() {
    let input = |i: &str| {
        row(&format!(
            r#"{{"message":{{"role":"u","content":[{{"type":"tool_use","name":"T","input":{i}}}]}}}}"#
        ))
        .target
    };
    assert_eq!(
        input(r#"{"command":"c","path":"p","file_path":"f"}"#).as_deref(),
        Some("f")
    );
    assert_eq!(input(r#"{"file_path":"","url":"u"}"#).as_deref(), Some("u"));
    let long = "é".repeat(300);
    assert_eq!(
        input(&format!(r#"{{"command":"{long}"}}"#)),
        Some("é".repeat(200))
    );
    assert_eq!(input("{}"), None);
    assert_eq!(input("7"), None);
}

#[test]
fn a_later_tool_may_name_itself() {
    let r = row(
        r#"{"message":{"content":[{"type":"tool_use","input":{"path":"p"}},{"type":"tool_use","name":"B","input":{"command":"c"}},{"type":"tool_use","name":"C","input":{"path":"q"}}]}}"#,
    );
    assert_eq!(r.tool.as_deref(), Some("B"));
    assert_eq!(r.target.as_deref(), Some("p"));
}

#[test]
fn failures_are_told_apart() {
    let err = |b: &str| {
        row(&format!(
            r#"{{"message":{{"role":"u","content":[{b}]}}}}"#
        ))
        .is_err
    };
    assert_eq!(err(r#"{"type":"tool_result"}"#), Some(0));
    assert_eq!(err(r#"{"type":"tool_result","is_error":null}"#), Some(0));
    assert_eq!(err(r#"{"type":"tool_result","is_error":true}"#), Some(1));
    assert_eq!(err(r#"{"type":"x","is_error":0.0}"#), Some(0));
    assert_eq!(err(r#"{"type":"x","is_error":-1.5}"#), Some(1));
    assert_eq!(err(r#"{"type":"x","is_error":""}"#), Some(0));
    assert_eq!(err(r#"{"type":"x","is_error":{"a":1}}"#), Some(1));
    assert_eq!(err(r#"{"type":"x","is_error":[]}"#), Some(0));
    assert_eq!(err(r#"{"type":"text"}"#), None);
}

#[test]
fn timestamps_are_read() {
    let ts = |t: &str| row(&format!(r#"{{"timestamp":{t},"message":{{"role":"u"}}}}"#)).ts;
    assert_eq!(ts("1788523200"), Some(1788523200000));
    assert_eq!(ts("1788523200000"), Some(1788523200000));
    assert_eq!(ts("-1"), Some(-1000));
    assert_eq!(ts("1.5"), Some(1500));
    assert_eq!(ts("-0.0015"), Some(-1));
    assert_eq!(ts("1e12"), Some(1_000_000_000_000));
    assert_eq!(ts("1e300"), None);
    assert_eq!(ts("18446744073709551615"), None);
    assert_eq!(ts("true"), Some(1000));
    assert_eq!(ts("null"), None);
    assert_eq!(ts("\"2026-09-04 12:00:00.5\""), Some(1788523200500));
    assert_eq!(ts("\"2026-09-04\""), None);
    assert_eq!(parse_ts(&TsVal::Int(i128::MIN)), None);
}

#[test]
fn rejects_name_their_reason() {
    assert_eq!(reject("{"), "parse_error");
    assert_eq!(reject("[1,2,3]"), "not_an_object");
    assert_eq!(reject("42"), "not_an_object");
    assert_eq!(reject("{} {}"), "parse_error");
    assert_eq!(reject(&"[".repeat(101)), "depth_limit");
    assert_eq!(
        reject(
            r#"{"message":{"content":[{"type":"tool_use","name":42},{"type":"tool_use","name":"x"}]}}"#
        ),
        "tool_name_not_a_string"
    );
    match scan_line(b"{\"a\":\"\xff\"}\n", 0) {
        Some(Err(why)) => assert_eq!(why, "invalid_utf8"),
        _ => panic!("accepted"),
    }
    assert!(scan_line(b" \x0b\n", 0).is_none());
    let mut big = vec![b'x'; 33_554_432];
    big.push(b'\n');
    match scan_line(&big, 0) {
        Some(Err(why)) => assert_eq!(why, "record_too_large"),
        _ => panic!("accepted"),
    }
}

#[test]
fn deep_nesting_inside_a_string_is_no_nesting() {
    let s = "[".repeat(500);
    assert_eq!(row(&format!(r#"{{"message":{{"role":"u","content":"{s}"}}}}"#)).text, s);
}

#[test]
fn only_what_is_needed_must_be_readable() {
    // An unpaired surrogate has no content; where nothing reads it, it is fine.
    assert_eq!(row(r#"{"type":"t","other":"\ud800","message":{"role":"u"}}"#).kind.as_deref(), Some("t"));
    assert_eq!(row(r#"{"type":"t","other":1e999,"message":{"role":"u"}}"#).kind.as_deref(), Some("t"));
    assert_eq!(reject(r#"{"type":"\ud800"}"#), "parse_error");
    assert_eq!(reject(r#"{"\ud800":1}"#), "parse_error");
    assert_eq!(reject(r#"{"type":"\ud800","type":"x"}"#), "parse_error");
    assert_eq!(reject("\"\\ud800\""), "parse_error");
    // Inside a value that reads as absent nothing is looked at.
    assert_eq!(row(r#"{"type":["\ud800"],"message":{"role":"u"}}"#).kind, None);
    // The input of a tool is kept whole, so all of it must be readable.
    assert_eq!(
        reject(r#"{"message":{"content":[{"type":"tool_use","input":{"a":["\ud800"]}}]}}"#),
        "parse_error"
    );
}

#[test]
fn a_scan_goes_line_by_line() {
    let a = r#"{"type":"a","message":{"role":"u","content":"x"}}"#;
    let buf = format!("{a}\n\n  {a}\r\nnope\n{a}");
    let out = scan_buf(buf.as_bytes(), 100);
    assert_eq!(out.rows.len(), 2);
    let n = a.len() as i64;
    assert_eq!((out.rows[0].off, out.rows[0].len), (100, n + 1));
    assert_eq!((out.rows[1].off, out.rows[1].len), (100 + n + 2, n + 4));
    assert_eq!(out.rows[0].hash, rec_hash(a.as_bytes()));
    assert_eq!(out.rows[1].hash, out.rows[0].hash);
    assert_eq!(out.rejects, vec![(100 + 2 * n + 6, 5, "parse_error")]);
    assert_eq!(out.end, 100 + 2 * n + 11);
}

#[test]
fn a_scan_can_be_resumed() {
    let a = "{\"type\":\"a\",\"message\":{\"role\":\"u\"}}\n[]\n";
    let b = "{\"type\":\"b\",\"message\":{\"role\":\"u\"}}\n{\"half\":";
    let all = scan_buf(format!("{a}{b}").as_bytes(), 0);
    let one = scan_buf(a.as_bytes(), 0);
    assert_eq!(one.end, a.len() as i64);
    let two = scan_buf(b.as_bytes(), one.end);
    assert_eq!(all.end, two.end);
    let offs = |r: &[Row]| r.iter().map(|r| (r.off, r.len, r.hash)).collect::<Vec<_>>();
    let mut both = offs(&one.rows);
    both.extend(offs(&two.rows));
    assert_eq!(offs(&all.rows), both);
    assert_eq!(all.rejects, one.rejects);
}

#[test]
fn a_codex_record_becomes_a_row() {
    let r = row(
        r#"{"timestamp":"2026-03-09T05:10:50.882Z","type":"response_item","payload":{"type":"function_call","name":"shell","arguments":"{\"cmd\":\"ls -l\",\"path\":\"p\"}"}}"#,
    );
    assert_eq!(r.ts, Some(1773033050882));
    assert_eq!(r.kind.as_deref(), Some("response_item/function_call"));
    assert_eq!(r.tool.as_deref(), Some("shell"));
    assert_eq!(r.target.as_deref(), Some("ls -l"));
    assert_eq!(r.text, "{\"cmd\":\"ls -l\",\"path\":\"p\"}");
}

#[test]
fn codex_payloads_by_type() {
    let r = |p: &str| row(&format!(r#"{{"type":"t","payload":{p}}}"#));
    let o = r(r#"{"type":"function_call_output","output":"Process exited with code  1\nx"}"#);
    assert_eq!((o.is_err, o.text.as_str()), (Some(1), "Process exited with code  1\nx"));
    assert_eq!(r(r#"{"type":"custom_tool_call_output","output":"fine"}"#).is_err, Some(0));
    let c = r(r#"{"type":"custom_tool_call","input":"a  b\nc"}"#);
    assert_eq!((c.target.as_deref(), c.text.as_str()), (Some("a b"), "a  b\nc"));
    assert_eq!(r(r#"{"type":"custom_tool_call","input":""}"#).target, None);
    assert_eq!(
        r(r#"{"type":"message","role":"user","content":[{"type":"input_text","text":"a"},"",{"content":["b"]},{"summary":"c"}]}"#).text,
        "a  b c"
    );
    assert_eq!(r(r#"{"type":"reasoning","summary":[{"text":"why"}]}"#).text, "why");
    assert_eq!(r(r#"{"type":"agent_message","message":"m"}"#).text, "m");
    assert_eq!(r(r#"{"type":"user_message","message":"m"}"#).text, "m");
    assert_eq!(r(r#"{"type":"agent_reasoning","text":"t"}"#).text, "t");
    let t = r(r#"{"type":"token_count","info":{"last_token_usage":{"input_tokens":1,"output_tokens":2,"cached_input_tokens":3}}}"#);
    assert_eq!((t.in_tok, t.out_tok, t.cache_r), (Some(1), Some(2), Some(3)));
    let m = r(r#"{"id":"x","cwd":"/w"}"#);
    assert_eq!((m.kind.as_deref(), m.target.as_deref()), (Some("t"), Some("/w")));
    // Without a payload the hollow row stands.
    let h = row(r#"{"type":"mode"}"#);
    assert_eq!((h.kind.as_deref(), h.target, h.text.as_str()), (Some("mode"), None, ""));
}

#[test]
fn codex_takes_text() {
    assert!(codex("{\"type\":\"t\"}", 0, 0, 0).is_none());
    assert!(codex("{\"payload\":{}}", 0, 0, 0).is_none());
    assert!(codex("nope", 0, 0, 0).is_none());
    let r = codex("{\"type\":\"t\",\"payload\":1}", 1, 2, 3).unwrap();
    assert_eq!((r.off, r.len, r.hash, r.kind.as_deref()), (1, 2, 3, Some("t")));
}

#[test]
fn a_target_falls_back_to_the_start_of_the_arguments() {
    assert_eq!(argument_target("a \n b", &None), "a b");
    let args = parse(b"{\"query\":\"q\",\"command\":\"\"}");
    assert_eq!(argument_target("x", &args), "");
    let bad = parse(b"{\"query\":\"q\",\"z\":\"\\ud800\"}");
    assert_eq!(argument_target("x", &bad), "x");
    assert_eq!(trunc_chars(" a\tb  c ", 3), "a b");
}

#[test]
fn exit_codes_are_read() {
    assert!(!exit_failed("exited with code 0"));
    assert!(!exit_failed("exited with code \u{2003}0"));
    assert!(exit_failed("exited with code "));
    assert!(exit_failed("x exited with code 137"));
    assert!(!exit_failed("exited"));
}

#[test]
fn documents_nest_as_deep_as_the_reader_allows() {
    let deep = |n: usize| format!("{}{}", "[".repeat(n), "]".repeat(n));
    assert!(parse(deep(127).as_bytes()).unwrap().is_strict());
    assert!(!parse(deep(128).as_bytes()).unwrap().is_strict());
    let value = |n: usize| serde_json::from_str::<serde_json::Value>(&deep(n)).is_ok();
    assert!(value(127));
    assert!(!value(128));
}

#[test]
fn documents_agree_with_serde_json() {
    for s in [
        "null", " true ", "-0", "1.5e3", "18446744073709551615", "-9223372036854775808", "1e400",
        "\"a\\u00e9\\n\"", "\"\\ud83d\\ude00\"", "\"\\ud83d\"", "[1, 2 ,3]", "{\"a\" : [ ] , \"b\":{}}",
        "{\"a\":1,}", "[1 2]", "", "nul", "01", "{\"a\":1}x", "[\"\\q\"]", "\"\u{1}\"",
    ] {
        let ours = parse(s.as_bytes());
        let theirs = serde_json::from_str::<serde_json::Value>(s);
        let strict = match &ours {
            Some(v) => v.is_strict(),
            None => false,
        };
        assert_eq!(strict, theirs.is_ok(), "{s}");
        if let (Some(v), Ok(w)) = (&ours, &theirs) {
            assert!(same(v, w), "{s}: {v:?}");
        }
    }
}

fn same(v: &Json, w: &serde_json::Value) -> bool {
    match (v, w) {
        (Json::Null, Value::Null) => true,
        (Json::Bool(a), Value::Bool(b)) => a == b,
        (Json::Num(a), Value::Number(b)) => match a {
            alog::json::Num::UInt(u) => b.as_u64() == Some(*u),
            alog::json::Num::Int(i) => b.as_i64() == Some(*i),
            alog::json::Num::Float(f) => b.is_f64() && b.as_f64().map(f64::to_bits) == Some(*f),
        },
        (Json::Str(a), Value::String(b)) => a == b,
        (Json::Array(a), Value::Array(b)) => {
            a.len() == b.len() && a.iter().zip(b).all(|(x, y)| same(x, y))
        }
        (Json::Object(a), Value::Object(b)) => {
            a.len() == b.len() && a.iter().zip(b).all(|((k, x), (l, y))| k == l && same(x, y))
        }
        _ => false,
    }
}

#[test]
fn content_without_a_list_has_no_tool() {
    assert_eq!(tool_of(&ContentField::Other), Ok((None, None, None)));
    assert_eq!(flat_text(&ContentField::Str("x".to_string())), "x");
    assert_eq!(MaybeStr::Str("s".to_string()).as_str(), Some("s"));
    assert_eq!(MaybeStr::NotStr.as_str(), None);
    assert!(Rec::from_json(&Json::Null).is_none());
    assert!(judge(&None, 0, 0, 0).is_err());
}

#[test]
fn strings_are_decoded_as_json_has_them() {
    let read = |lit: &str| match parse(format!(" {lit} ").as_bytes()) {
        Some(Json::Str(s)) => Some(s),
        _ => None,
    };
    assert_eq!(read(r#""a\u00E9\ud83e\udd80\/\b\f\n\r\t\"\\""#).as_deref(), Some("aé🦀/\u{8}\u{c}\n\r\t\"\\"));
    assert_eq!(read("\"\u{7f}\"").as_deref(), Some("\u{7f}"));
    for bad in [r#""\ud83e""#, r#""\udd80""#, r#""\ud83e\u0041""#, r#""\x""#, "\"\u{1f}\"", "\"a", "a"] {
        assert_eq!(read(bad), None, "{bad}");
    }
}
