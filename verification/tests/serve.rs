use alog::serve::{
    err_json, errors, group, is_blank, jnum, jopt, jstr, parameter, record, record_printed, route,
    search_hits, sessions, stats, timeline, urldecode, Event, Failure, Found, Route, Session, Totals,
};

#[test]
fn values_are_json() {
    assert_eq!(jstr("a\"\\\u{2}é"), "\"a\\\"\\\\\\u0002é\"");
    assert_eq!(jopt(&None), "null");
    assert_eq!(jopt(&Some("x".to_string())), "\"x\"");
    assert_eq!(jnum(None), "null");
    assert_eq!(jnum(Some(i64::MIN)), "-9223372036854775808");
    assert_eq!(err_json("e"), "{\"error\":\"e\"}");
}

#[test]
fn urls_are_decoded() {
    assert_eq!(urldecode("a+b%20c%C3%a9"), "a b cé");
    assert_eq!(urldecode("%4"), "%4");
    assert_eq!(urldecode("100%"), "100%");
    assert_eq!(urldecode("%zz"), " ");
    assert_eq!(urldecode("%+a|"), "\n|");
    assert_eq!(urldecode("%ff"), "\u{fffd}");
    assert_eq!(urldecode("%é"), " ");
}

#[test]
fn parameters_are_found() {
    assert_eq!(parameter("a=1&b=2&a=3", "a").as_deref(), Some("1"));
    assert_eq!(parameter("a&a=x=y", "a").as_deref(), Some("x=y"));
    assert_eq!(parameter("a=", "a").as_deref(), Some(""));
    assert_eq!(parameter("", "a"), None);
    assert_eq!(parameter("b=1&", "a"), None);
}

#[test]
fn routes_are_found() {
    assert!(matches!(route("/"), Route::Page));
    assert!(matches!(route("/index.html?x=1"), Route::Page));
    assert!(matches!(route("/stats"), Route::Stats));
    assert!(matches!(route("/sessions?limit=x"), Route::Sessions { limit: 300 }));
    assert!(matches!(
        route("/timeline?sid=4&start=-2"),
        Route::Timeline {
            sid: 4,
            start: -2,
            limit: 300
        }
    ));
    assert!(matches!(route("/record?seq=3"), Route::Record { sid: -1, seq: 3 }));
    match route("/search?q=a%20b&limit=7") {
        Route::Search { term, limit } => assert_eq!((term.as_str(), limit), ("a b", 7)),
        other => panic!("{other:?}"),
    }
    assert!(matches!(route("/errors?limit=+5"), Route::Errors { limit: 120 }));
    assert!(matches!(route("/nope"), Route::NotFound));
}

#[test]
fn totals_are_json() {
    let t = Totals {
        events: 1,
        sessions: 2,
        rejects: 3,
        bytes: 4,
        tools: vec![(Some("T".to_string()), 5)],
        errors: vec![(None, 6), (Some("U".to_string()), 7)],
        models: vec![],
    };
    assert_eq!(group(&t.errors), "[[null,6],[\"U\",7]]");
    assert_eq!(
        stats(&t),
        "{\"events\":1,\"sessions\":2,\"rejects\":3,\"bytes\":4,\"tools\":[[\"T\",5]],\"errors\":[[null,6],[\"U\",7]],\"models\":[]}"
    );
}

#[test]
fn sessions_are_json() {
    let s = Session {
        ext: "a/b".to_string(),
        sid: 1,
        n: 2,
        t0: Some(3),
        t1: None,
        errors: None,
        tokens: Some(4),
    };
    assert_eq!(
        sessions(&vec![s]),
        "[{\"ext\":\"a/b\",\"sid\":1,\"n\":2,\"t0\":3,\"t1\":null,\"err\":0,\"tok\":4}]"
    );
    assert_eq!(sessions(&vec![]), "[]");
}

#[test]
fn a_timeline_is_json() {
    let e = |target: Option<&str>, is_err| Event {
        seq: 1,
        ts: Some(2),
        kind: Some("k".to_string()),
        role: None,
        model: None,
        tool: None,
        target: target.map(str::to_string),
        is_err,
        len: 3,
        in_tok: Some(4),
        out_tok: None,
        cache_r: None,
    };
    let p = || vec!["p".to_string()];
    let head = "{\"n_ev\":9,\"n_shown\":5,\"hidden\":4,\"rows\":[{\"seq\":1,\"ts\":2,\"kind\":\"k\",\"role\":null,\"model\":null,\"tool\":null,\"target\":";
    let mid = ",\"len\":3,\"in\":4,\"out\":null,\"cache\":null,\"text\":";
    assert_eq!(
        timeline(9, 5, &vec![e(None, None)], &p()),
        format!("{head}null,\"err\":null{mid}\"p\"}}]}}")
    );
    assert_eq!(
        timeline(9, 5, &vec![e(Some("t"), Some(0))], &p()),
        format!("{head}\"t\",\"err\":0{mid}\"\"}}]}}")
    );
    assert_eq!(
        timeline(9, 5, &vec![e(Some("t"), Some(1))], &p()),
        format!("{head}\"t\",\"err\":1{mid}\"p\"}}]}}")
    );
}

#[test]
fn a_record_is_printed_anew() {
    assert_eq!(
        record(&Ok(b" { \"b\" : 1.50, \"a\" : [ ] }\n".to_vec())),
        "{\"json\":{\"b\":1.5,\"a\":[]}}"
    );
    assert_eq!(
        record(&Ok(b"{\"$serde_json::private::RawValue\": \"[ 1 ]\"}".to_vec())),
        "{\"json\":{\"$serde_json::private::RawValue\":\"[ 1 ]\"}}"
    );
    assert_eq!(record(&Ok(b"x\xff".to_vec())), "{\"raw\":\"x\u{fffd}\"}");
    assert_eq!(record(&Err("why".to_string())), "{\"error\":\"why\"}");
    assert_eq!(
        record_printed(&Ok(vec![]), &Some(None)),
        "{\"json\":null}"
    );
}

#[test]
fn hits_are_json() {
    let f = Found {
        ext: "e".to_string(),
        sid: 1,
        seq: 2,
        ts: None,
        kind: None,
        tool: Some("T".to_string()),
        target: None,
        is_err: Some(1),
    };
    let words = vec!["w".to_string()];
    assert_eq!(
        search_hits(&vec![f], &vec![Ok(b"a w".to_vec())], &words),
        "{\"hits\":[{\"ext\":\"e\",\"sid\":1,\"seq\":2,\"ts\":null,\"kind\":null,\"tool\":\"T\",\"target\":null,\"err\":1,\"snip\":\"a w\"}]}"
    );
    assert_eq!(search_hits(&vec![], &vec![], &words), "{\"hits\":[]}");
    assert!(is_blank(" \u{3000}\n"));
    assert!(!is_blank(" x"));
}

#[test]
fn failures_are_json() {
    let f = Failure {
        ext: "e".to_string(),
        sid: 1,
        seq: 2,
        ts: Some(3),
        tool: None,
        target: Some("t".to_string()),
    };
    assert_eq!(
        errors(&vec![f], &vec!["p".to_string()]),
        "{\"rows\":[{\"ext\":\"e\",\"sid\":1,\"seq\":2,\"ts\":3,\"tool\":null,\"target\":\"t\",\"snip\":\"p\"}]}"
    );
}
