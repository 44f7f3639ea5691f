use alog::binary64::{float_millis, quotient, to_float};
use alog::civil::{civil_from_days, days_from_civil, fmt_ts, iso_ms, parse_ts_str};
use alog::cli::{
    classify, command, errors_sql, fail, no_index, parse, parse_seq, roots, start, Command, Start,
    USAGE,
};
use alog::store::{Prev, Scanned};
use alog::sync::{session_numbers, stale, todo, unknown_format, Known, Tally};
use alog::extract::Row;

fn strings(v: &[&str]) -> Vec<String> {
    v.iter().map(|s| s.to_string()).collect()
}

#[test]
fn options_may_stand_anywhere() {
    let o = parse(
        &strings(&[
            "--limit", "7", "sql", "--json", "SELECT", "--db", "x.db", "1", "-j", "0", "--port",
            "99999", "--no-snippets",
        ]),
        "d".to_string(),
        4,
    );
    assert_eq!(o.db, "x.db");
    assert_eq!(o.limit, 7);
    assert_eq!(o.port, 8877);
    assert_eq!(o.threads, 1);
    assert!(o.json && !o.snippets);
    assert_eq!(o.rest, strings(&["sql", "SELECT", "1"]));
    match command(&o) {
        Command::Sql { query, limit } => assert_eq!((query.as_str(), limit), ("SELECT 1", 7)),
        other => panic!("{other:?}"),
    }
}

#[test]
fn options_have_defaults() {
    let o = parse(&strings(&["-n", "x", "-j", "x"]), "d".to_string(), 4);
    assert_eq!((o.db.as_str(), o.limit, o.port, o.threads), ("d", 50, 8877, 4));
    let o = parse(&strings(&["--db"]), "d".to_string(), 4);
    assert_eq!(o.db, "");
    let o = parse(&strings(&["--port", "80"]), "d".to_string(), 4);
    assert_eq!(o.port, 80);
}

#[test]
fn runs_start() {
    assert_eq!(start(&vec![]), Start::Usage);
    assert_eq!(start(&strings(&["sync", "-h", "-V"])), Start::Usage);
    assert_eq!(start(&strings(&["-V"])), Start::Version);
    assert_eq!(start(&strings(&["sql", "--json"])), Start::Run { json: true });
    assert_eq!(start(&strings(&["sql"])), Start::Run { json: false });
}

fn cmd(v: &[&str]) -> Command {
    command(&parse(&strings(v), "d".to_string(), 1))
}

#[test]
fn commands_are_read() {
    assert!(matches!(cmd(&["search", "a", "b"]), Command::Search { limit: 20, .. }));
    assert!(matches!(cmd(&["show", "s"]), Command::Outline { limit: 80, .. }));
    assert!(matches!(cmd(&["show", "s", "3"]), Command::Record { .. }));
    assert!(matches!(cmd(&["turns", "s"]), Command::Turns { limit: 60, .. }));
    assert!(matches!(cmd(&["errors", "--limit", "3"]), Command::Errors { limit: 3 }));
    assert!(matches!(cmd(&["dump"]), Command::Dump { only: None }));
    assert!(matches!(cmd(&["doctor"]), Command::Doctor { sample: 1 }));
    assert!(matches!(cmd(&["doctor", "all", "-n", "9"]), Command::Doctor { sample: 0 }));
    assert!(matches!(cmd(&["doctor", "-n", "9"]), Command::Doctor { sample: 9 }));
    assert!(matches!(cmd(&["doctor", "--limit", "0"]), Command::Doctor { sample: 0 }));
    assert!(matches!(cmd(&["doctor", "-n", "0"]), Command::Doctor { sample: 0 }));
    assert!(matches!(cmd(&["catalog"]), Command::Catalog));
    assert!(matches!(cmd(&["stats"]), Command::Stats));
    assert!(matches!(cmd(&["mcp"]), Command::Mcp));
    assert!(matches!(cmd(&["index", "ts"]), Command::Index { .. }));
    assert!(matches!(cmd(&["snapshot", "o"]), Command::Snapshot { .. }));
    assert!(matches!(cmd(&["sync", "a"]), Command::Sync { .. }));
    assert!(matches!(cmd(&["view"]), Command::View { .. }));
}

#[test]
fn mistakes_are_told() {
    let bad = |v: &[&str]| match cmd(v) {
        Command::Bad {
            index_first,
            message,
        } => (index_first, message),
        other => panic!("{other:?}"),
    };
    assert_eq!(bad(&["search"]), (true, "search needs a query".to_string()));
    assert_eq!(bad(&["show"]), (true, "show needs a session".to_string()));
    assert_eq!(bad(&["turns"]), (true, "turns needs a session".to_string()));
    assert_eq!(bad(&["index"]), (false, "index needs a column name".to_string()));
    assert_eq!(bad(&["snapshot"]), (false, "snapshot needs an output path".to_string()));
    assert_eq!(bad(&["x"]), (false, format!("unknown command x\n\n{USAGE}")));
    assert_eq!(bad(&["--json"]), (false, format!("no command\n\n{USAGE}")));
    assert_eq!(parse_seq("-3"), Ok(-3));
    assert_eq!(parse_seq("3x"), Err("seq must be a number".to_string()));
    assert_eq!(no_index("p"), "no index at p; run `alog sync <dir>` first");
}

#[test]
fn roots_are_given_or_found() {
    assert_eq!(roots(strings(&["a"]), strings(&["b"])), Ok(strings(&["a"])));
    assert_eq!(roots(vec![], strings(&["b"])), Ok(strings(&["b"])));
    assert_eq!(
        roots(vec![], vec![]),
        Err("no session directory found under ~; pass one".to_string())
    );
}

#[test]
fn failures_have_a_kind() {
    for (e, kind, retry) in [
        ("no index at x", "no-index", false),
        ("no session directory found under ~; pass one", "no-session-directory", false),
        ("no session x", "unknown-session", false),
        ("no .jsonl files under x", "empty-directory", false),
        ("x: No such file or directory", "no-such-path", false),
        ("3 records unreadable; first: x", "stale-index", true),
        ("unknown command x", "bad-usage", false),
        ("no command", "bad-usage", false),
        ("x exists", "output-exists", false),
        ("database is locked", "locked", true),
        ("busy", "locked", true),
        ("else", "error", false),
    ] {
        let (k, _, r) = classify(e);
        assert_eq!((k, r), (kind, retry), "{e}");
    }
    assert_eq!(
        fail("no command\n\nusage"),
        "{\"error\":{\"kind\":\"bad-usage\",\"message\":\"no command\",\"hint\":\"see `alog --help`\",\"retryable\":false}}"
    );
    assert_eq!(
        fail(""),
        "{\"error\":{\"kind\":\"error\",\"message\":\"\",\"hint\":\"\",\"retryable\":false}}"
    );
    let coded = "{\"code\":\"ALOG_DENIED\",\"message\":\"not authorized\"}";
    assert_eq!(fail(coded), coded);
    assert_eq!(
        fail("database is locked"),
        "{\"error\":{\"kind\":\"locked\",\"message\":\"database is locked\",\"hint\":\"another writer holds the index; retry\",\"retryable\":true}}"
    );
}

#[test]
fn errors_are_limited() {
    assert!(errors_sql(7).starts_with("SELECT r.ext AS session, e.seq,"));
    assert!(errors_sql(7).ends_with("ORDER BY e.ts DESC LIMIT 7"));
}

fn known(path: &str, sid: i64) -> Known {
    Known {
        path: path.to_string(),
        parts: path.split('/').map(str::to_string).collect(),
        prev: Prev {
            sid,
            cursor: 0,
            n_ev: 0,
            tail: None,
        },
    }
}

#[test]
fn only_sessions_below_the_root_go() {
    let k = vec![known("r/a", 1), known("r/b", 2), known("q/c", 3), known("rr/d", 4)];
    assert_eq!(stale(&k, &strings(&["r/a"]), &strings(&["r"])), vec![2]);
    assert_eq!(stale(&k, &vec![], &strings(&["r"])), vec![1, 2]);
}

#[test]
fn every_file_is_scanned() {
    let k = vec![known("r/a", 1), known("r/b", 2)];
    let t = todo(&strings(&["r/0", "r/b", "r/b"]), &k);
    assert_eq!(
        t.iter().map(|p| p.map(|p| p.sid)).collect::<Vec<_>>(),
        vec![None, Some(2), None]
    );
}

#[test]
fn a_format_that_yields_nothing_is_told() {
    let row = |text: &str| Row {
        text: text.to_string(),
        ..Default::default()
    };
    let scanned = |rows| Scanned {
        path: "p".to_string(),
        rows,
        rejects: vec![],
        end: 0,
        size: 0,
        sid: 1,
        base_seq: 0,
        fresh: true,
    };
    let mut t = Tally::new();
    t.count(&scanned(vec![row(""), row("x")]));
    t.count(&scanned(vec![]));
    assert_eq!((t.files, t.records, t.bare), (1, 2, 1));
    assert_eq!(unknown_format(2, 1), None);
    assert_eq!(unknown_format(0, 0), None);
    assert!(unknown_format(2, 2)
        .unwrap()
        .starts_with("alog: none of the 2 records yielded a role, tool or searchable text."));
}

#[test]
fn days_are_counted() {
    assert_eq!(days_from_civil(1970, 1, 1), 0);
    assert_eq!(days_from_civil(2000, 2, 29), 11016);
    assert_eq!(days_from_civil(-1, 3, 1), -719834);
    assert_eq!(days_from_civil(-2, 3, 1), -720199);
    assert_eq!(civil_from_days(11016), (2000, 2, 29));
    assert_eq!(civil_from_days(-1), (1969, 12, 31));
    assert_eq!(fmt_ts(951827696789), "2000-02-29 12:34");
    assert_eq!(fmt_ts(-60001), "1969-12-31 23:59");
}

#[test]
fn times_are_read() {
    assert_eq!(parse_ts_str("2000-02-29T12:34:56.789Z"), Some(951827696789));
    assert_eq!(parse_ts_str("2000-02-29 12:34:56"), Some(951827696000));
    assert_eq!(parse_ts_str("2000-02-29T12:34:56.7"), Some(951827696700));
    assert_eq!(parse_ts_str("2000-02-29T12:34:56.x"), Some(951827696000));
    assert_eq!(parse_ts_str("2000/02/29T12:34:56"), None);
    assert_eq!(parse_ts_str("2000-02-29T12:34"), None);
    assert_eq!(iso_ms("2000-02-29T12:34:56.789Z"), Some(951827696789));
    assert_eq!(iso_ms("2000-02-29T12:34:56.7"), Some(951827696000));
    assert_eq!(iso_ms("2000x02x29x12x34x56"), Some(951827696000));
    assert_eq!(iso_ms("2000-0é-29T12:34:56"), None);
    assert_eq!(iso_ms("short"), None);
}

#[test]
fn floats_are_followed_bit_for_bit() {
    let ms = |f: f64| {
        let r = if f < 1e12 { f * 1000.0 } else { f };
        let t = r.trunc();
        if (-9.223372036854776e18..9.223372036854776e18).contains(&t) {
            Some(t as i64)
        } else {
            None
        }
    };
    for f in [
        0.0f64, -0.0, 0.1, 1.1, 123456789.987654, -1.5, 999999999999.9999, 1e12, 1e12 + 0.5, 5e-324,
        1.7e308, -1.7e308, 9.2e18, 9.3e18, -9.2e15, 1e16, 1788523200.123,
    ] {
        assert_eq!(float_millis(f.to_bits()), ms(f), "{f}");
    }
    assert_eq!(float_millis(f64::NAN.to_bits()), None);
    assert_eq!(float_millis(f64::INFINITY.to_bits()), None);
    for d in [0u64, 29999, 30000, 30001, 90000, 150000, 9007199254740993, 1 << 62] {
        assert_eq!(
            quotient(to_float(d), 60000).to_string(),
            format!("{:.0}", d as f64 / 60000.0),
            "{d}"
        );
    }
}

#[test]
fn sessions_are_numbered_in_the_order_of_their_paths() {
    let known = |path: &str, sid: i64| Known {
        path: path.to_string(),
        parts: strings(&["/", path]),
        prev: Prev {
            sid,
            cursor: 0,
            n_ev: 0,
            tail: None,
        },
    };
    let paths = strings(&["a", "b", "c", "d"]);
    assert_eq!(session_numbers(&todo(&paths, &vec![]), 1), vec![1, 2, 3, 4]);
    let held = todo(&paths, &vec![known("d", 5), known("b", 3)]);
    assert_eq!(session_numbers(&held, 6), vec![6, 3, 7, 5]);
    assert_eq!(session_numbers(&vec![], 9), Vec::<i64>::new());
}

#[test]
fn unchanged_files_drop_and_make_no_session() {
    let root = strings(&["/", "r"]);
    let known: Vec<Known> = (1..4)
        .map(|sid| Known {
            path: format!("/r/{sid}"),
            parts: vec!["/".to_string(), "r".to_string(), sid.to_string()],
            prev: Prev {
                sid,
                cursor: 0,
                n_ev: 0,
                tail: None,
            },
        })
        .collect();
    let live = strings(&["/r/1", "/r/2", "/r/3"]);
    assert_eq!(stale(&known, &live, &root), Vec::<i64>::new());
    assert_eq!(session_numbers(&todo(&live, &known), 4), vec![1, 2, 3]);
    assert_eq!(stale(&known, &strings(&["/r/1"]), &root), vec![2, 3]);
}

#[test]
fn a_failure_is_json_whatever_it_says() {
    let e = "no .jsonl files under /tmp/cafe\u{301}\u{7f}\u{1}\t\"x\\";
    let v: serde_json::Value = serde_json::from_str(&fail(e)).unwrap();
    assert_eq!(v["error"]["message"], e);
    assert_eq!(v["error"]["kind"], "empty-directory");
}
