use alog::doctor::{doctor, newest_first, Findings};
use alog::hints::{
    fts_error, hint_for, literals, literals_in, no_rows_hint, sql_error, sql_error_in,
};
use alog::preview::{preview, preview_line};
use alog::query::{
    catalog, cell, clip, outline, query, session_error, turns, Cell, Spread, Step, Store, Turn,
};
use alog::search::{first_of, keep_terms, search, search_terms, snip, snip_at, terms_of, Hit};
use alog::suggest::{closest, lev, rank};

fn strings(v: &[&str]) -> Vec<String> {
    v.iter().map(|s| s.to_string()).collect()
}

#[test]
fn cells_fit_one_field() {
    assert_eq!(cell(&Cell::Null, 0), "");
    assert_eq!(cell(&Cell::Int(-5), 300), "-5");
    assert_eq!(cell(&Cell::Real("1.5".to_string()), 300), "1.5");
    assert_eq!(cell(&Cell::Text(b"a\tb\nc".to_vec()), 300), "a b\\nc");
    assert_eq!(cell(&Cell::Text(b"\xff".to_vec()), 300), "\u{fffd}");
    assert_eq!(cell(&Cell::Blob(3), 300), "<3 bytes>");
    assert_eq!(clip("ééé", 2), "éé…(+2B)");
}

#[test]
fn a_table_says_where_it_was_cut() {
    let row = |n| vec![Cell::Int(n), Cell::Null];
    let names = strings(&["a", "b"]);
    assert_eq!(
        query(&names, &vec![row(1), row(2)], 2, 9, &None),
        "rows=2 elapsed=9ms\na\tb\n1\t\n2\t"
    );
    assert_eq!(
        query(&names, &vec![row(1), row(2), row(3)], 2, 9, &None),
        "rows=2 elapsed=9ms TRUNCATED at limit=2, more rows exist\na\tb\n1\t\n2\t"
    );
    assert_eq!(
        query(&names, &vec![], 2, 9, &Some("hint".to_string())),
        "rows=0 elapsed=9ms\na\tb\nhint"
    );
}

#[test]
fn the_catalog_is_short() {
    let mut s = Store {
        records: 8,
        sessions: 2,
        rejects: 1,
        first: Some(0),
        last: Some(1788523200000),
        nulls: vec![0, 1, 8, 4, 3, 5, 6, 7, 2, 0],
        spreads: vec![
            Spread {
                col: "kind".to_string(),
                total: 3,
                top: vec![("a".to_string(), 5), ("b".to_string(), 2)],
            },
            Spread {
                col: "tool".to_string(),
                total: 0,
                top: vec![],
            },
            Spread {
                col: "model".to_string(),
                total: 1,
                top: vec![("m".to_string(), 8)],
            },
        ],
    };
    assert_eq!(
        catalog(&s),
        "records=8 sessions=2 rejects=1\n\
         time: 1970-01-01 00:00 .. 2026-09-04 12:00\n\
         cols: sid seq off len ts kind role model tool target in_tok out_tok cache_r is_err   (ts epoch_ms)\n\
         null%: ts 0 kind 12 role 100 model 50 tool 38 target 62 in_tok 75 out_tok 88 cache_r 25 is_err 0\n\
         kind(3 top2): a:5 b:2\n\
         model(1): m:8\n"
    );
    // The same rounding as the float print has.
    for (n, p) in s.nulls.iter().zip([0, 12, 100, 50, 38, 62, 75, 88, 25, 0]) {
        assert_eq!(format!("{:.0}", 100.0 * *n as f64 / 8.0), p.to_string());
    }
    s.records = 0;
    assert_eq!(
        catalog(&s),
        "records=0 sessions=2 rejects=1\nempty; run `alog sync <dir>`"
    );
}

#[test]
fn terms_lose_their_syntax() {
    assert_eq!(
        terms_of("\"exact phrase\" AND pre* or (x.y) NEAR not nOt"),
        strings(&["exact", "phrase", "pre", "x", "y"])
    );
    assert_eq!(
        keep_terms(&strings(&["a", "b"]), &strings(&["A", "OR"])),
        strings(&["a"])
    );
}

#[test]
fn snippets_stand_around_the_first_term() {
    assert_eq!(snip("abc", &strings(&["x"]), 2), "ab");
    let s = format!("{}NEEDLE{}", "é".repeat(20), "z".repeat(20));
    assert_eq!(
        snip(&s, &strings(&["needle"]), 12),
        format!("…{}NEEDLEzz", "é".repeat(4))
    );
    assert_eq!(first_of("xay", &strings(&["y", "a"])), Some(1));
    assert_eq!(first_of("xay", &strings(&["q"])), None);
    assert_eq!(snip_at("abcdef", Some(3), 3), "…cde");
    assert_eq!(snip_at("ab", Some(9), 3), "…");
}

fn hit(seq: i64) -> Hit {
    Hit {
        ext: "s".to_string(),
        sid: 1,
        seq,
        ts: None,
        kind: Some("k".to_string()),
        tool: None,
        target: Some("t".repeat(70)),
    }
}

#[test]
fn a_search_says_how_much_it_left_out() {
    let words = strings(&["w"]);
    let t60 = format!("{}…", "t".repeat(60));
    let reads = vec![Ok(b"a w\tb".to_vec()), Err("gone".to_string())];
    assert_eq!(
        search_terms(&vec![hit(1), hit(2)], &reads, &words, 2, 2, 5, true),
        format!(
            "hits=2 elapsed=5ms\nsession\tseq\twhen\tkind\ttool\ttarget\tmatch\ns\t1\t\tk\t\t{t60}\ta w b\ns\t2\t\tk\t\t{t60}\t<gone>"
        )
    );
    assert_eq!(
        search_terms(&vec![hit(1), hit(2)], &reads, &words, 1, 4184, 5, false),
        format!(
            "hits=1 of 4184 elapsed=5ms -- narrow the query or raise --limit\nsession\tseq\twhen\tkind\ttool\ttarget\ns\t1\t\tk\t\t{t60}"
        )
    );
    assert_eq!(
        search_terms(&vec![hit(1)], &reads, &words, 0, -1, 5, false),
        "hits=0 elapsed=5ms TRUNCATED at limit=0\nno matches; try a shorter term or pre*"
    );
    assert_eq!(
        search("w", &vec![], &vec![], 20, 0, 5, true),
        "hits=0 elapsed=5ms\nno matches; try a shorter term or pre*"
    );
}

#[test]
fn a_search_quotes_around_its_first_term() {
    let text = format!("{}W0rd", "x".repeat(100));
    let out = search("NOT \"w0rd\"", &vec![hit(1)], &vec![Ok(text.into_bytes())], 5, 1, 5, true);
    assert!(out.ends_with(&format!("\t…{}W0rd", "x".repeat(80))), "{out}");
}

#[test]
fn distances_are_counted() {
    assert_eq!(lev("kitten", "sitting"), 3);
    assert_eq!(lev("", "abc"), 3);
    assert_eq!(lev("abc", ""), 3);
    assert_eq!(lev("é", "e"), 1);
    assert_eq!(lev("same", "same"), 0);
    assert_eq!(lev("sitting", "kitten"), 3);
    assert_eq!(lev("kitten", "mitten") + lev("mitten", "sitting"), 4);
    assert_eq!(lev("abc", "ac"), 1);
    assert_eq!(lev("ac", "axc"), 1);
}

#[test]
fn the_nearest_come_first() {
    let pool = strings(&["BBash", "Basher", "Bash", "Read", "bash"]);
    assert_eq!(closest("Bashh", &pool, 3), strings(&["Bash", "bash", "BBash"]));
    assert_eq!(closest("zzz", &pool, 3), Vec::<String>::new());
    assert_eq!(
        rank("ab", &strings(&["x", "yy", "z"]), &vec![1, 1, 0], 5),
        strings(&["z", "x", "yy"])
    );
}

#[test]
fn an_unknown_session_has_candidates() {
    assert_eq!(
        session_error("sesion", &strings(&["session", "other"])),
        "{\"code\":\"ALOG_UNKNOWN_SESSION\",\"message\":\"sesion\",\"candidates\":[\"session\"]}"
    );
}

#[test]
fn turns_are_listed() {
    let t = |err| Turn {
        turn: 1,
        first_seq: 0,
        t0: Some(0),
        t1: Some(150_000),
        records: 7,
        tools: 2,
        errors: err,
        calls: 3,
        in_tok: 10,
        out_tok: 20,
        cache: 30,
    };
    assert_eq!(
        turns("s", &vec![t(0), t(4)], &strings(&["ask", "more"]), 2),
        "session=s turns=2\nturn\twhen\tmins\tev\tcalls\ttools\terr\tin\tout\tcache\task\n\
         1\t1970-01-01 00:00\t2\t7\t3\t2\t\t10\t20\t30\task\n\
         2\t1970-01-01 00:00\t2\t7\t3\t2\t4\t10\t20\t30\tmore"
    );
    assert_eq!(
        turns("s", &vec![t(0), t(4)], &strings(&[]), 0),
        "session=s turns=2\nturn\twhen\tmins\tev\tcalls\ttools\terr\tin\tout\tcache\task\n\
         TRUNCATED at limit=0, 2 turns total"
    );
}

#[test]
fn a_timeline_goes_on() {
    let s = |seq, target: Option<&str>, is_err| Step {
        seq,
        ts: None,
        kind: Some("k".to_string()),
        role: None,
        tool: None,
        target: target.map(str::to_string),
        is_err,
        len: 12,
    };
    assert_eq!(
        outline(
            "x",
            9,
            &vec![s(0, Some("t"), Some(1)), s(3, None, Some(0))],
            &strings(&["p", "q"])
        ),
        "session=x events=9 (more: start=4)\nseq\twhen\tkind\trole\ttool\terr\tbytes\twhat\n\
         0\t\tk\t\t\tERR\t12\tt\n3\t\tk\t\t\t\t12\tq"
    );
    assert_eq!(
        outline("x", 0, &vec![], &vec![]),
        "session=x events=0\nseq\twhen\tkind\trole\ttool\terr\tbytes\twhat"
    );
}

#[test]
fn an_unknown_column_is_corrected() {
    assert_eq!(
        sql_error("no such column: toolz in SELECT toolz FROM ev at offset 7", &vec![]),
        "{\"code\":\"ALOG_UNKNOWN_COLUMN\",\"message\":\"no such column: toolz in SELECT toolz FROM ev at offset 7\",\"candidates\":[\"tool\"],\"applicability\":\"MachineApplicable\"}"
    );
    assert_eq!(
        sql_error("No such table: zzzzzzzz", &strings(&["run", "ev"])),
        "{\"code\":\"ALOG_UNKNOWN_TABLE\",\"message\":\"No such table: zzzzzzzz\",\"candidates\":[\"run\", \"ev\"],\"applicability\":\"MachineApplicable\"}"
    );
    assert_eq!(
        sql_error_in("m", "x not authorized", &vec![]),
        "{\"code\":\"ALOG_DENIED\",\"message\":\"m\",\"candidates\":[],\"applicability\":\"Unspecified\"}"
    );
    assert_eq!(
        sql_error("syntax \"x\"", &vec![]),
        "{\"code\":\"ALOG_SQL_ERROR\",\"message\":\"syntax \\\"x\\\"\",\"candidates\":[],\"applicability\":\"Unspecified\"}"
    );
    assert_eq!(
        fts_error("m"),
        "{\"code\":\"ALOG_BAD_QUERY\",\"message\":\"m\",\"syntax\":\"term, \\\"exact phrase\\\", A AND B, A OR B, NOT B, pre*\"}"
    );
}

#[test]
fn a_wrong_literal_is_corrected() {
    let sql = "SELECT * FROM ev WHERE TOOL='Bashh' AND kind = 'x' AND len=3";
    assert_eq!(
        literals(sql),
        Some(vec![(5, "x".to_string()), (8, "Bashh".to_string())])
    );
    assert_eq!(
        literals_in("tool='x", "tool='x"),
        Some(vec![(8, "x".to_string())])
    );
    // Lower case may be longer or shorter than the statement.
    assert_eq!(literals_in("é", "ëëtool="), None);
    assert_eq!(
        hint_for("tool", "Bashh", &strings(&["Read", "Bash", "BBash"])),
        Some("tool: Bash, BBash".to_string())
    );
    assert_eq!(hint_for("tool", "Bash", &strings(&["Bash"])), None);
    assert_eq!(hint_for("tool", "zzz", &strings(&["Bash"])), None);
    assert_eq!(
        no_rows_hint(&strings(&["a", "b"])),
        Some("matched 0 rows. did_you_mean -> a; b".to_string())
    );
    assert_eq!(no_rows_hint(&vec![]), None);
}

#[test]
fn previews_are_readable() {
    assert_eq!(
        preview(br#"{"message":{"content":[{"type":"thinking","thinking":"hm"},{"text":"a  b"}]}}"#, 90),
        "hm a b"
    );
    assert_eq!(preview(br#"{"content":"top level"}"#, 5), "top l…");
    assert_eq!(
        preview(br#"{"message":{"content":[{"type":"tool_use","input":{"a":"x","b":1,"a":"y"}}]}}"#, 90),
        "y"
    );
    assert_eq!(preview(br#"{"type":"system","subtype":"init"}"#, 90), "init");
    assert_eq!(
        preview(br#"{"message":{"content":[{"type":"thinking","thinking":""}]}}"#, 90),
        "(thinking)"
    );
    assert_eq!(
        preview(br#"{"type":"t","payload":{"type":"agent_message","message":"hi"}}"#, 90),
        "hi"
    );
    assert_eq!(preview(br#"{"type":"t","payload":{"cwd":"/w"}}"#, 90), "/w");
    assert_eq!(preview(b"not json \xff", 10), "not json \u{fffd}");
    assert_eq!(preview(b"not json", 3), "not");
    assert_eq!(preview_line(b"ab", &None, &None, 1), "a");
    assert_eq!(preview(b"{}", 9), "");
}

fn findings() -> Findings {
    Findings {
        sessions: 2,
        records: 10,
        rejects: 1,
        integrity: "ok".to_string(),
        gone: vec![],
        checked: 3,
        stale: vec![],
        docs: 4,
        mapped: 4,
        orphans: 0,
    }
}

#[test]
fn a_sound_index_is_ok() {
    assert_eq!(
        doctor(&findings(), 7, false),
        (
            true,
            "sessions 2  records 10  rejects 1\nverified 3 records against their source files in 7ms\nok"
                .to_string()
        )
    );
    assert_eq!(
        doctor(&findings(), 7, true),
        (
            true,
            "{\"ok\":true,\"sessions\":2,\"records\":10,\"rejects\":1,\"checked\":3,\"stale\":0,\"missing_files\":0,\"elapsed_ms\":7,\"problems\":[]}"
                .to_string()
        )
    );
}

#[test]
fn problems_are_listed() {
    let mut f = findings();
    f.integrity = "broken".to_string();
    f.gone = (0..7).map(|i| (format!("s{i}"), format!("/p{i}"))).collect();
    f.stale = vec![("s".to_string(), 4, "why".to_string())];
    f.mapped = 5;
    f.orphans = 2;
    let (ok, text) = doctor(&f, 7, false);
    assert!(!ok);
    let lines: Vec<&str> = text.lines().collect();
    assert_eq!(lines[3], "10 problem(s):");
    assert_eq!(lines[4], "  [corrupt-index] integrity_check: broken");
    assert_eq!(lines[6], "  [file-gone] s0: /p0");
    assert_eq!(lines[7], "      -> run `alog sync` to drop it");
    assert_eq!(lines[16], "  [file-gone] and 2 more");
    assert_eq!(lines[18], "  [stale-record] s seq=4: why");
    assert_eq!(lines[20], "  [fts-desync] 4 documents but 5 map rows");
    assert_eq!(lines[22], "  [fts-orphan] 2 documents point at rows that are gone");
    assert_eq!(lines.len(), 24);
    let (_, json) = doctor(&f, 7, true);
    let v: serde_json::Value = serde_json::from_str(&json).unwrap();
    assert_eq!(v["ok"], false);
    assert_eq!(v["missing_files"], 7);
    assert_eq!(v["problems"].as_array().unwrap().len(), 10);
    assert_eq!(v["problems"][9]["kind"], "fts-orphan");
}

#[test]
fn sessions_come_newest_first() {
    assert_eq!(
        newest_first(&vec![Some(3), None, Some(9), Some(3), None, Some(i64::MIN)]),
        vec![2, 0, 3, 5, 1, 4]
    );
    assert_eq!(newest_first(&vec![]), Vec::<usize>::new());
}

#[test]
fn reports_are_json_whatever_they_quote() {
    let odd = "e\u{301}\u{0}\u{1b}\u{ad}\"\\\n";
    let json = |s: &str| serde_json::from_str::<serde_json::Value>(s).unwrap();
    let v = json(&session_error(odd, &strings(&[odd, "other"])));
    assert_eq!(v["message"], odd);
    assert_eq!(v["candidates"][0], odd);
    assert_eq!(json(&sql_error(odd, &vec![]))["message"], odd);
    assert_eq!(json(&fts_error(odd))["message"], odd);
    let mut f = findings();
    f.gone.push((odd.to_string(), "/p".to_string()));
    f.stale.push(("s".to_string(), 3, odd.to_string()));
    let v = json(&doctor(&f, 7, true).1);
    assert_eq!(v["problems"][0]["what"], format!("{odd}: /p"));
    assert_eq!(v["problems"][1]["what"], format!("s seq=3: {odd}"));
}
