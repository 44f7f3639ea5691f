use alog::store::{
    check_record, denied, documents, ext_id, index_sql, origin, plan, scan_file, tail_matches,
    tail_to_check, walk_entry, Action, Dump, Entry, Prev, Visit, DDL,
};
use rusqlite::Connection;

fn rec(i: usize, text: &str, tool: Option<&str>, err: Option<bool>) -> String {
    let content = match (tool, err) {
        (Some(t), _) => {
            format!(r#"[{{"type":"tool_use","name":"{t}","input":{{"file_path":"/a/b.py"}}}}]"#)
        }
        (_, Some(e)) => {
            format!(r#"[{{"type":"tool_result","content":{text:?},"is_error":{e}}}]"#)
        }
        _ => format!(r#"[{{"type":"text","text":{text:?}}}]"#),
    };
    format!(
        r#"{{"uuid":"u{i}","type":"assistant","timestamp":"2026-09-04T12:00:00.000Z","message":{{"role":"assistant","model":"m1","content":{content},"usage":{{"input_tokens":10,"output_tokens":5}}}}}}"#
    )
}

fn lines(v: &[String]) -> Vec<u8> {
    let mut out = String::new();
    for l in v {
        out.push_str(l);
        out.push('\n');
    }
    out.into_bytes()
}

fn open() -> Connection {
    let con = Connection::open_in_memory().unwrap();
    con.execute_batch(DDL).unwrap();
    con
}

/// What a synchronisation does for one file whose bytes are `file`.
fn ingest(con: &mut Connection, path: &str, file: &[u8]) -> usize {
    let prev: Option<Prev> = con
        .query_row(
            "SELECT r.sid, r.cursor, r.n_ev, e.off, e.len, e.crc
             FROM run r LEFT JOIN ev e ON e.sid=r.sid AND e.seq=r.n_ev-1
             WHERE r.path=?1",
            [path],
            |r| {
                let tail = match (r.get(3)?, r.get(4)?, r.get(5)?) {
                    (Some(o), Some(l), Some(c)) => Some((o, l, c)),
                    _ => None,
                };
                Ok(Prev {
                    sid: r.get(0)?,
                    cursor: r.get(1)?,
                    n_ev: r.get(2)?,
                    tail,
                })
            },
        )
        .ok();
    let sid = match &prev {
        Some(p) => p.sid,
        None => {
            con.execute("INSERT INTO run (ext, path) VALUES (?1, ?1)", [path])
                .unwrap();
            con.last_insert_rowid()
        }
    };
    let size = file.len() as i64;
    let resume = match tail_to_check(prev.as_ref(), size) {
        Some((off, len, crc)) => match file.get(off as usize..(off + len) as usize) {
            Some(b) => tail_matches(b, crc),
            None => false,
        },
        None => false,
    };
    let from = origin(resume, prev.as_ref()).0 as usize;
    let s = scan_file(
        path.to_string(),
        &file[from..],
        size,
        sid,
        resume,
        prev.as_ref(),
    );
    let Some(p) = plan(&s) else {
        return 0;
    };
    let tx = con.transaction().unwrap();
    if p.forget {
        for sql in [
            "DELETE FROM ev WHERE sid=?1",
            "DELETE FROM reject WHERE sid=?1",
            "DELETE FROM ftx WHERE rowid IN (SELECT rid FROM ftx_map WHERE sid=?1)",
            "DELETE FROM ftx_map WHERE sid=?1",
        ] {
            tx.execute(sql, [sid]).unwrap();
        }
    }
    for (seq, i) in &p.events {
        let r = &s.rows[*i];
        tx.execute(
            "INSERT OR REPLACE INTO ev VALUES (?1,?2,?3,?4,?5,?6,?7,?8,?9,?10,?11,?12,?13,?14,?15)",
            (
                sid, seq, r.off, r.len, r.ts, &r.kind, &r.role, &r.model, &r.tool, &r.target,
                r.in_tok, r.out_tok, r.cache_r, r.is_err, r.hash,
            ),
        )
        .unwrap();
    }
    for (off, err) in &p.rejects {
        tx.execute("INSERT OR REPLACE INTO reject VALUES (?1,?2,?3)", (sid, off, err))
            .unwrap();
    }
    let next: i64 = tx
        .query_row("SELECT coalesce(max(rid), 0) + 1 FROM ftx_map", (), |r| r.get(0))
        .unwrap();
    for (rid, seq, i) in documents(&s, next) {
        tx.execute(
            "INSERT INTO ftx(rowid, body) VALUES (?1, ?2)",
            (rid, &s.rows[i].text),
        )
        .unwrap();
        tx.execute("INSERT INTO ftx_map VALUES (?1, ?2, ?3)", (rid, sid, seq))
            .unwrap();
    }
    tx.execute(
        "UPDATE run SET size=?1, cursor=?2, n_ev=?3 WHERE sid=?4",
        (p.size, p.cursor, p.n_ev, sid),
    )
    .unwrap();
    tx.commit().unwrap();
    s.rows.len()
}

fn read(con: &Connection, file: &[u8], sid: i64, seq: i64) -> Result<Vec<u8>, String> {
    let (path, off, len, crc): (String, i64, i64, i64) = con
        .query_row(
            "SELECT r.path, e.off, e.len, e.crc FROM ev e JOIN run r USING (sid)
             WHERE e.sid=?1 AND e.seq=?2",
            (sid, seq),
            |r| Ok((r.get(0)?, r.get(1)?, r.get(2)?, r.get(3)?)),
        )
        .unwrap();
    let b = file[off as usize..(off + len) as usize].to_vec();
    check_record(&path, off, b, crc)
}

fn hits(con: &Connection, term: &str) -> i64 {
    con.query_row("SELECT count(*) FROM ftx WHERE ftx MATCH ?1", [term], |r| {
        r.get(0)
    })
    .unwrap()
}

#[test]
fn roundtrip_tail_and_crc() {
    let mut file = lines(&[
        rec(0, "hello world", None, None),
        rec(1, "", Some("Bash"), None),
        rec(2, "boom", None, Some(true)),
    ]);
    let mut con = open();
    assert_eq!(ingest(&mut con, "s.jsonl", &file), 3);
    let (tool, target, err): (Option<String>, Option<String>, Option<i64>) = con
        .query_row("SELECT tool, target, is_err FROM ev WHERE seq=1", (), |r| {
            Ok((r.get(0)?, r.get(1)?, r.get(2)?))
        })
        .unwrap();
    assert_eq!(tool.as_deref(), Some("Bash"));
    assert_eq!(target.as_deref(), Some("/a/b.py"));
    assert_eq!(err, None);

    // A partial trailing line must not be indexed.
    file.extend_from_slice(br#"{"uuid":"u9","type":"assis"#);
    assert_eq!(
        ingest(&mut con, "s.jsonl", &file),
        0,
        "partial line must be deferred"
    );

    // Reading a record back verifies the original bytes.
    let raw = read(&con, &file, 1, 0).unwrap();
    assert!(String::from_utf8_lossy(&raw).contains("\"u0\""));

    // Editing a record in place must raise, never return the wrong bytes.
    let body = String::from_utf8(file).unwrap();
    let edited = body.replace("hello world", "HELLO WORLD").into_bytes();
    assert!(
        read(&con, &edited, 1, 0).is_err(),
        "crc must catch a mutation"
    );
}

#[test]
fn rewritten_shorter_file_reindexes() {
    let long: Vec<String> = (0..5).map(|i| rec(i, "x", None, None)).collect();
    let mut con = open();
    ingest(&mut con, "t.jsonl", &lines(&long));
    assert_eq!(
        ingest(&mut con, "t.jsonl", &lines(&[rec(0, "x", None, None)])),
        1
    );
    let n: i64 = con
        .query_row("SELECT n_ev FROM run", (), |r| r.get(0))
        .unwrap();
    assert_eq!(n, 1, "stale rows must be gone");
}

#[test]
fn same_length_rewrite_is_detected() {
    let old: Vec<String> = (0..4).map(|i| rec(i, "alphaaaa", None, None)).collect();
    let new: Vec<String> = (0..4).map(|i| rec(i, "omegabbb", None, None)).collect();
    let mut con = open();
    ingest(&mut con, "s.jsonl", &lines(&old));
    assert_eq!(lines(&old).len(), lines(&new).len(), "same length");
    assert_eq!(
        ingest(&mut con, "s.jsonl", &lines(&new)),
        4,
        "a rewrite must be rescanned"
    );
    assert_eq!(hits(&con, "omegabbb"), 4);
    assert_eq!(hits(&con, "alphaaaa"), 0, "stale documents must be gone");

    // Rewritten longer and with different content, so that the old cursor still
    // points inside the file.
    let grown: Vec<String> = (0..12).map(|i| rec(i, "gammaccc", None, None)).collect();
    assert_eq!(
        ingest(&mut con, "s.jsonl", &lines(&grown)),
        12,
        "all 12, not just the tail"
    );
    assert_eq!(hits(&con, "gammaccc"), 12);
    assert_eq!(hits(&con, "omegabbb"), 0);

    // A pure append onto that same file still resumes: only the new records.
    let mut file = lines(&grown);
    file.extend(lines(&[rec(12, "deltaddd", None, None)]));
    assert_eq!(ingest(&mut con, "s.jsonl", &file), 1);
    assert_eq!(hits(&con, "gammaccc"), 12);
}

#[test]
fn append_still_resumes() {
    let base: Vec<String> = (0..4).map(|i| rec(i, "base", None, None)).collect();
    let mut file = lines(&base);
    let mut con = open();
    ingest(&mut con, "s.jsonl", &file);
    file.extend(lines(&[rec(4, "extra", None, None)]));
    assert_eq!(ingest(&mut con, "s.jsonl", &file), 1, "only the new record");
    let n: i64 = con
        .query_row("SELECT count(*) FROM ev", (), |r| r.get(0))
        .unwrap();
    assert_eq!(n, 5);
}

#[test]
fn a_file_that_lost_all_its_records_loses_its_rows() {
    for rest in [&b""[..], b"\n", b"{\"half"] {
        let mut con = open();
        ingest(&mut con, "s.jsonl", &lines(&[rec(0, "gone", None, None), "no".to_string()]));
        assert_eq!(hits(&con, "gone"), 1);
        assert_eq!(ingest(&mut con, "s.jsonl", rest), 0);
        assert_eq!(hits(&con, "gone"), 0);
        let left: (i64, i64, i64, i64) = con
            .query_row(
                "SELECT (SELECT count(*) FROM ev), (SELECT count(*) FROM reject),
                        (SELECT count(*) FROM ftx_map), (SELECT n_ev FROM run)",
                (),
                |r| Ok((r.get(0)?, r.get(1)?, r.get(2)?, r.get(3)?)),
            )
            .unwrap();
        assert_eq!(left, (0, 0, 0, 0));
    }
}

fn contents(con: &Connection) -> Vec<String> {
    let mut out = Vec::new();
    for sql in [
        "SELECT sid || ' ' || size || ' ' || cursor || ' ' || n_ev FROM run ORDER BY sid",
        "SELECT sid || ' ' || seq || ' ' || off || ' ' || len || ' ' || crc FROM ev ORDER BY sid, seq",
        "SELECT sid || ' ' || off || ' ' || err FROM reject ORDER BY sid, off",
        "SELECT rid || ' ' || sid || ' ' || seq FROM ftx_map ORDER BY rid",
        "SELECT 'doc ' || rowid FROM ftx ORDER BY rowid",
    ] {
        let mut st = con.prepare(sql).unwrap();
        let rows = st.query_map((), |r| r.get::<_, String>(0)).unwrap();
        out.extend(rows.flatten());
    }
    out
}

#[test]
fn a_second_synchronisation_changes_nothing() {
    let mut full = lines(&[rec(0, "one", None, None), "no".to_string(), rec(1, "", None, None)]);
    full.extend_from_slice(b" \n{\"half");
    for file in [&full[..], b"no\n[]\n{\"half", b"\n", b""] {
        let mut con = open();
        ingest(&mut con, "other", &lines(&[rec(0, "two", None, None)]));
        ingest(&mut con, "s", file);
        let before = contents(&con);
        assert_eq!(ingest(&mut con, "s", file), 0);
        assert_eq!(contents(&con), before);
    }
}

#[test]
fn a_second_synchronisation_changes_nothing_after_an_edit_unseen() {
    let last = rec(1, "last", None, None);
    let old = lines(&[rec(0, "aaaa", None, None), last.clone()]);
    let mut new = lines(&[rec(0, "bbbb", None, None), last, "no".to_string()]);
    new.extend(lines(&[rec(2, "more", None, None)]));
    let mut con = open();
    ingest(&mut con, "s", &old);
    ingest(&mut con, "t", &old);
    assert_eq!(ingest(&mut con, "s", &new), 1, "the edit is in front of the last record");
    assert_eq!(ingest(&mut con, "t", b"no\n"), 0);
    let before = contents(&con);
    assert_eq!(ingest(&mut con, "t", b"no\n"), 0);
    assert_eq!(ingest(&mut con, "s", &new), 0);
    assert_eq!(contents(&con), before);
}

#[test]
fn a_reader_may_not_attach() {
    assert!(denied(Action::Attach));
    assert!(denied(Action::Detach));
    assert!(!denied(Action::Other));
}

#[test]
fn documents_and_rows_stay_in_step() {
    let mut con = open();
    ingest(&mut con, "a", &lines(&[rec(0, "one", None, None), rec(1, "", None, None)]));
    ingest(&mut con, "b", &lines(&[rec(0, "two", None, None), "nope".to_string()]));
    ingest(&mut con, "a", &lines(&[rec(0, "three", None, None)]));
    let (docs, mapped, orphans, rejects): (i64, i64, i64, i64) = con
        .query_row(
            "SELECT (SELECT count(*) FROM ftx), (SELECT count(*) FROM ftx_map),
                    (SELECT count(*) FROM ftx_map m
                     WHERE NOT EXISTS (SELECT 1 FROM ev e WHERE e.sid=m.sid AND e.seq=m.seq)),
                    (SELECT count(*) FROM reject)",
            (),
            |r| Ok((r.get(0)?, r.get(1)?, r.get(2)?, r.get(3)?)),
        )
        .unwrap();
    assert_eq!((docs, mapped, orphans, rejects), (2, 2, 0, 1));
    assert_eq!((hits(&con, "one"), hits(&con, "two"), hits(&con, "three")), (0, 1, 1));
}

fn parts(v: &[&str]) -> Vec<String> {
    v.iter().map(|s| s.to_string()).collect()
}

#[test]
fn ext_id_is_path_derived_and_slash_separated() {
    // The id is the whole relative path, joined with `/` on every platform.
    let root = parts(&["/", "tmp", "extid"]);
    assert_eq!(
        ext_id(&parts(&["/", "tmp", "extid", "a", "journal.jsonl"]), &root),
        "a/journal"
    );
    assert_eq!(
        ext_id(&parts(&["/", "tmp", "extid", "b", "j.jsonl"]), &root),
        "b/j"
    );
    assert!(!ext_id(&parts(&["/", "tmp", "extid", "a", "journal.jsonl"]), &root).contains('\\'));
}

#[test]
fn a_path_outside_the_root_is_kept_whole() {
    let root = parts(&["x", "y"]);
    assert_eq!(ext_id(&parts(&["x", "z", "a.jsonl.jsonl"]), &root), "x/z/a.jsonl");
    assert_eq!(ext_id(&parts(&["x", "y", "a.ndjson"]), &root), "a.ndjson");
    assert_eq!(ext_id(&parts(&["x"]), &root), "x");
}

#[test]
fn walk_skips_symlinks() {
    // A link beside its target would index the same file twice.
    assert_eq!(walk_entry("s.jsonl", Entry::Other), Visit::Take);
    assert_eq!(walk_entry("link.jsonl", Entry::Symlink), Visit::Skip);
    assert_eq!(walk_entry("real", Entry::Dir), Visit::Descend);
    assert_eq!(walk_entry(".hidden", Entry::Dir), Visit::Skip);
    assert_eq!(walk_entry(".s.jsonl", Entry::Other), Visit::Skip);
    assert_eq!(walk_entry("s.ndjson", Entry::Other), Visit::Skip);
    assert_eq!(walk_entry("s.txt", Entry::Other), Visit::Skip);
}

#[test]
fn a_tail_is_checked_only_where_it_can_hold() {
    let p = |cursor, n_ev, tail| Prev {
        sid: 1,
        cursor,
        n_ev,
        tail,
    };
    let t = Some((0, 10, 7));
    assert_eq!(tail_to_check(Some(&p(10, 1, t)), 10), t);
    assert_eq!(tail_to_check(Some(&p(10, 1, t)), 9), None);
    assert_eq!(tail_to_check(Some(&p(10, 0, t)), 10), None);
    assert_eq!(tail_to_check(Some(&p(10, 1, Some((0, 0, 7)))), 10), None);
    assert_eq!(tail_to_check(Some(&p(10, 1, Some((0, (1 << 30) + 1, 7)))), 10), None);
    assert_eq!(tail_to_check(Some(&p(10, 1, None)), 10), None);
    assert_eq!(tail_to_check(None, 10), None);
    assert_eq!(origin(true, Some(&p(10, 3, t))), (10, 3, false));
    assert_eq!(origin(false, Some(&p(10, 3, t))), (0, 0, true));
    assert_eq!(origin(true, None), (0, 0, true));
}

#[test]
fn a_changed_record_is_named() {
    assert_eq!(
        check_record("p", 12, b"abc".to_vec(), 1),
        Err("p:12 changed on disk; run `alog sync`".to_string())
    );
    assert_eq!(
        check_record("p", 12, b" abc\n".to_vec(), 0x3_3524_41c2),
        Ok(b" abc\n".to_vec())
    );
}

#[test]
fn a_dump_is_the_file() {
    let mut file = lines(&[rec(0, "a", None, None)]);
    file.extend_from_slice(format!(" {}\t\r\n", rec(1, "b", None, None)).as_bytes());
    file.extend(lines(&[rec(2, "c", None, None)]));
    let s = scan_file("p".to_string(), &file, file.len() as i64, 1, false, None);
    assert_eq!(s.rows.len(), 3);
    let mut d = Dump::new();
    let mut out = Vec::new();
    for r in &s.rows {
        let raw = file[r.off as usize..(r.off + r.len) as usize].to_vec();
        out.extend(d.record(check_record("p", r.off, raw, r.hash)).unwrap());
    }
    assert_eq!(out, file);
    assert_eq!(d.finish(), Ok(()));
}

#[test]
fn one_synchronisation_follows_another() {
    let mut con = open();
    let one = rec(0, "one", None, None);
    let two = rec(1, "two", None, None);
    let half = &two.as_bytes()[..20];
    let mut file = lines(&[one.clone()]);
    assert_eq!(ingest(&mut con, "s", &file), 1);
    file.extend_from_slice(half);
    assert_eq!(ingest(&mut con, "s", &file), 0);
    file.truncate(file.len() - half.len());
    file.extend_from_slice(b"\n \n");
    assert_eq!(ingest(&mut con, "s", &file), 0);
    file.extend(lines(&[two.clone()]));
    assert_eq!(ingest(&mut con, "s", &file), 1);
    assert_eq!(ingest(&mut con, "s", &lines(&[two, one])), 2);
    let n: (i64, i64) = con
        .query_row("SELECT n_ev, (SELECT count(*) FROM ev) FROM run", (), |r| {
            Ok((r.get(0)?, r.get(1)?))
        })
        .unwrap();
    assert_eq!(n, (2, 2));
    assert_eq!((hits(&con, "one"), hits(&con, "two")), (1, 1));
}

#[test]
fn a_dump_that_left_something_out_has_failed() {
    let mut d = Dump::new();
    assert_eq!(d.finish(), Ok(()));
    assert_eq!(d.record(Err("first".to_string())), None);
    assert_eq!(d.record(Ok(b"x\r\n".to_vec())), Some(b"x\r\n".to_vec()));
    assert_eq!(d.record(Err("second".to_string())), None);
    assert_eq!(
        d.finish(),
        Err("2 records unreadable; first: first".to_string())
    );
}

#[test]
fn indexes_are_known_by_name() {
    assert_eq!(
        index_sql("err").as_deref(),
        Ok("CREATE INDEX IF NOT EXISTS ix_err ON ev(is_err) WHERE is_err = 1")
    );
    assert_eq!(
        index_sql("x"),
        Err("unknown index x; known: kind tool target ts err".to_string())
    );
    let con = open();
    for name in ["kind", "tool", "target", "ts", "err"] {
        con.execute_batch(&index_sql(name).unwrap()).unwrap();
    }
}
