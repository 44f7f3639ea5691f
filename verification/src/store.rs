//! What the index holds of a log, and how it follows the log.
//!
//! The functions here decide and compute: whether an earlier scan of a file may
//! be resumed, what a scan changes in the index, whether a record read back is
//! the one that was indexed. Files and the database are the caller's.

use crate::extract;
use crate::extract::Row;
use crate::extract::RowV;
use crate::extract::ScanV;
use crate::text;
use vstd::prelude::*;
use vstd::string::*;

verus! {

/// The tables of the index.
pub const DDL: &'static str = "
PRAGMA journal_mode = WAL;
PRAGMA synchronous = NORMAL;

CREATE TABLE IF NOT EXISTS run (
    sid    INTEGER PRIMARY KEY,
    ext    TEXT NOT NULL UNIQUE,
    path   TEXT NOT NULL UNIQUE,
    size   INTEGER NOT NULL DEFAULT 0,
    cursor INTEGER NOT NULL DEFAULT 0,
    n_ev   INTEGER NOT NULL DEFAULT 0
);

CREATE TABLE IF NOT EXISTS ev (
    sid     INTEGER NOT NULL,
    seq     INTEGER NOT NULL,
    off     INTEGER NOT NULL,
    len     INTEGER NOT NULL,
    ts      INTEGER,
    kind    TEXT,
    role    TEXT,
    model   TEXT,
    tool    TEXT,
    target  TEXT,
    in_tok  INTEGER,
    out_tok INTEGER,
    cache_r INTEGER,
    is_err  INTEGER,
    crc     INTEGER NOT NULL,
    PRIMARY KEY (sid, seq)
) WITHOUT ROWID;

CREATE TABLE IF NOT EXISTS reject (
    sid INTEGER NOT NULL,
    off INTEGER NOT NULL,
    err TEXT NOT NULL,
    PRIMARY KEY (sid, off)
) WITHOUT ROWID;

-- contentless: 46.3% of text size vs 172% for ordinary fts5.
-- contentless_delete=1 costs +1.7% size and 0.9->3.2ms per query, and is
-- required: a plain contentless table cannot DELETE, so a rewritten source
-- file would leave stale hits behind.
CREATE VIRTUAL TABLE IF NOT EXISTS ftx USING fts5(body, content='', contentless_delete=1);

CREATE TABLE IF NOT EXISTS ftx_map (
    rid INTEGER PRIMARY KEY,
    sid INTEGER NOT NULL,
    seq INTEGER NOT NULL
);
CREATE INDEX IF NOT EXISTS ix_ftx_map ON ftx_map(sid, seq);
";

/// The secondary indexes that can be built, by name.
pub const INDEXES: [(&'static str, &'static str); 5] = [
    ("kind", "CREATE INDEX IF NOT EXISTS ix_kind ON ev(kind, ts)"),
    ("tool", "CREATE INDEX IF NOT EXISTS ix_tool ON ev(tool, ts)"),
    ("target", "CREATE INDEX IF NOT EXISTS ix_target ON ev(target)"),
    ("ts", "CREATE INDEX IF NOT EXISTS ix_ts ON ev(ts)"),
    ("err", "CREATE INDEX IF NOT EXISTS ix_err ON ev(is_err) WHERE is_err = 1"),
];

/// The statement that builds a secondary index, from the first entry of that
/// name on.
pub open spec fn index_named(name: Seq<char>, i: int) -> Option<Seq<char>>
    decreases 5 - i,
{
    if !(0 <= i < 5) {
        None
    } else if INDEXES@[i].0@ == name {
        Some(INDEXES@[i].1@)
    } else {
        index_named(name, i + 1)
    }
}

/// The names of the secondary indexes.
pub open spec fn index_names() -> Seq<Seq<char>> {
    Seq::new(5, |i: int| INDEXES@[i].0@)
}

/// The statement that builds a secondary index, or a message that lists those
/// there are.
pub fn index_sql(name: &str) -> (r: Result<String, String>)
    ensures
        match r {
            Ok(sql) => index_named(name@, 0) == Some(sql@),
            Err(e) => index_named(name@, 0) is None && e@ == "unknown index "@ + name@
                + "; known: "@ + text::join(index_names(), " "@),
        },
{
    let all = INDEXES;
    let mut names: Vec<String> = Vec::new();
    let mut i: usize = 0;
    while i < 5
        invariant
            i <= 5,
            all == INDEXES,
            index_named(name@, 0) == index_named(name@, i as int),
            text::texts(names@) == index_names().take(i as int),
        decreases 5 - i,
    {
        if text::same(all[i].0, name) {
            return Ok(all[i].1.to_owned());
        }
        let ghost before = text::texts(names@);
        let one = all[i].0.to_owned();
        names.push(one);
        assert(text::texts(names@) =~= before.push(one@));
        assert(before.push(one@) =~= index_names().take(i + 1));
        i += 1;
    }
    assert(index_names().take(5) =~= index_names());
    let mut e = "unknown index ".to_owned();
    e.append(name);
    e.append("; known: ");
    e.append(text::join_strings(&names, " ").as_str());
    Err(e)
}

// ---------------------------------------------------------------------------
// Names of sessions
// ---------------------------------------------------------------------------

/// The parts of a path below a root, all of them where it is not below it.
pub open spec fn below(path: Seq<Seq<char>>, root: Seq<Seq<char>>) -> Seq<Seq<char>> {
    if text::starts_with(path, root) {
        path.skip(root.len() as int)
    } else {
        path
    }
}

/// A text without a suffix.
pub open spec fn without_suffix(s: Seq<char>, x: Seq<char>) -> Seq<char> {
    if text::ends_with(s, x) {
        s.take(s.len() - x.len())
    } else {
        s
    }
}

/// The name of a session: the path of its file below the root, joined by
/// slashes, without `.jsonl`.
pub open spec fn session_name(path: Seq<Seq<char>>, root: Seq<Seq<char>>) -> Seq<char> {
    without_suffix(text::join(below(path, root), "/"@), ".jsonl"@)
}

/// The name of a session, from the components of its file's path and of the
/// root's.
pub fn ext_id(path: &Vec<String>, root: &Vec<String>) -> (r: String)
    ensures
        r@ == session_name(text::texts(path@), text::texts(root@)),
{
    let ghost p = text::texts(path@);
    let ghost q = text::texts(root@);
    let mut k: usize = 0;
    while k < root.len() && k < path.len() && text::same(path[k].as_str(), root[k].as_str())
        invariant
            k <= root@.len(),
            k <= path@.len(),
            p == text::texts(path@),
            q == text::texts(root@),
            forall|j: int| 0 <= j < k ==> p[j] == q[j],
        decreases root.len() - k,
    {
        assert(p[k as int] == q[k as int]);
        k += 1;
    }
    let from: usize = if k == root.len() {
        k
    } else {
        0
    };
    proof {
        if k == root@.len() {
            assert(p.subrange(0, q.len() as int) =~= q);
        } else if q.len() <= p.len() {
            assert(p.subrange(0, q.len() as int)[k as int] != q[k as int]);
        }
        assert(p.skip(0) =~= p);
    }
    let mut rel: Vec<String> = Vec::new();
    let mut i: usize = from;
    while i < path.len()
        invariant
            from <= i <= path@.len(),
            p == text::texts(path@),
            text::texts(rel@) == p.subrange(from as int, i as int),
        decreases path.len() - i,
    {
        let ghost before = text::texts(rel@);
        let one = path[i].clone();
        rel.push(one);
        assert(text::texts(rel@) =~= before.push(one@));
        assert(before.push(one@) =~= p.subrange(from as int, i + 1));
        i += 1;
    }
    assert(text::texts(rel@) =~= below(p, q));
    let s = text::join_strings(&rel, "/");
    let v = text::chars_of(s.as_str());
    let x = text::chars_of(".jsonl");
    if x.len() <= v.len() && text::chars_at(&v, &x, v.len() - x.len()) {
        let cut = vstd::slice::slice_subrange(&v, 0, v.len() - x.len());
        assert(cut@ =~= v@.take(v@.len() - x@.len()));
        text::string_of(cut)
    } else {
        s
    }
}

/// What a directory holds under a name.
#[derive(Clone, Copy, Debug, PartialEq, Eq, Structural)]
pub enum Entry {
    Dir,
    Symlink,
    Other,
}

/// What a walk does with an entry of a directory.
#[derive(Clone, Copy, Debug, PartialEq, Eq, Structural)]
pub enum Visit {
    Skip,
    Descend,
    Take,
}

/// Hidden entries and symbolic links are skipped, so that no file is seen twice.
pub open spec fn visit(name: Seq<char>, entry: Entry) -> Visit {
    if text::starts_with(name, "."@) {
        Visit::Skip
    } else if entry == Entry::Dir {
        Visit::Descend
    } else if entry == Entry::Symlink {
        Visit::Skip
    } else if text::ends_with(name, ".jsonl"@) {
        Visit::Take
    } else {
        Visit::Skip
    }
}

/// What a walk does with an entry of a directory.
pub fn walk_entry(name: &str, entry: Entry) -> (r: Visit)
    ensures
        r == visit(name@, entry),
{
    if text::str_starts_with(name, ".") {
        return Visit::Skip;
    }
    match entry {
        Entry::Dir => Visit::Descend,
        Entry::Symlink => Visit::Skip,
        Entry::Other => if text::str_ends_with(name, ".jsonl") {
            Visit::Take
        } else {
            Visit::Skip
        },
    }
}

// ---------------------------------------------------------------------------
// What a reader may do
// ---------------------------------------------------------------------------

/// What a statement is about to do, as far as it matters to a reader.
#[derive(Clone, Copy, Debug, PartialEq, Eq, Structural)]
pub enum Action {
    Attach,
    Detach,
    Other,
}

/// Whether a reader is denied an action. `ATTACH` creates a file even where
/// nothing may be written.
pub fn denied(action: Action) -> (r: bool)
    ensures
        r == (action == Action::Attach || action == Action::Detach),
{
    match action {
        Action::Attach => true,
        Action::Detach => true,
        Action::Other => false,
    }
}

// ---------------------------------------------------------------------------
// Scanning a file again
// ---------------------------------------------------------------------------

/// What a scan of a file found, and where it goes.
#[derive(Debug)]
pub struct Scanned {
    pub path: String,
    pub rows: Vec<Row>,
    pub rejects: Vec<(i64, i64, &'static str)>,
    pub end: i64,
    pub size: i64,
    pub sid: i64,
    pub base_seq: i64,
    pub fresh: bool,
}

/// What the index holds of a file. The tail is offset, length and hash of the
/// last record that was indexed.
#[derive(Clone, Copy, Debug)]
pub struct Prev {
    pub sid: i64,
    pub cursor: i64,
    pub n_ev: i64,
    pub tail: Option<(i64, i64, i64)>,
}

/// What a `Scanned` stands for.
pub struct ScannedV {
    pub path: Seq<char>,
    pub scan: ScanV,
    pub size: int,
    pub sid: int,
    pub base_seq: int,
    pub fresh: bool,
}

impl View for Scanned {
    type V = ScannedV;

    open spec fn view(&self) -> ScannedV {
        ScannedV {
            path: self.path@,
            scan: ScanV {
                rows: extract::rows_of(self.rows@),
                rejects: extract::rejects_of(self.rejects@),
                end: self.end as int,
            },
            size: self.size as int,
            sid: self.sid as int,
            base_seq: self.base_seq as int,
            fresh: self.fresh,
        }
    }
}

/// The longest tail that is read back.
pub const MAX_TAIL: i64 = 1_073_741_824;

/// The record that must still be there for a scan to be resumed, in a file of
/// the given size.
pub open spec fn tail_of(prev: Option<Prev>, size: int) -> Option<(i64, i64, i64)> {
    match prev {
        Some(p) => if size >= p.cursor && p.n_ev > 0 {
            match p.tail {
                Some((off, len, crc)) => if 0 < len <= MAX_TAIL {
                    Some((off, len, crc))
                } else {
                    None
                },
                None => None,
            }
        } else {
            None
        },
        None => None,
    }
}

/// The record that must still be there for a scan to be resumed: offset, length
/// and hash. `None` where the file has to be scanned from its start.
pub fn tail_to_check(prev: Option<&Prev>, size: i64) -> (r: Option<(i64, i64, i64)>)
    ensures
        r == tail_of(
            match prev {
                Some(p) => Some(*p),
                None => None,
            },
            size as int,
        ),
{
    match prev {
        Some(p) => {
            if size >= p.cursor && p.n_ev > 0 {
                match p.tail {
                    Some((off, len, crc)) => {
                        if len > 0 && len <= MAX_TAIL {
                            Some((off, len, crc))
                        } else {
                            None
                        }
                    },
                    None => None,
                }
            } else {
                None
            }
        },
        None => None,
    }
}

/// The bytes of a record have a hash.
pub open spec fn hashes_to(b: Seq<u8>, crc: int) -> bool {
    extract::record_hash(extract::stripped(b)) == crc
}

/// Whether the bytes of a record have a hash.
pub fn tail_matches(buf: &[u8], crc: i64) -> (r: bool)
    ensures
        r == hashes_to(buf@, crc as int),
{
    extract::rec_hash(extract::strip_ws(buf)) == crc
}

/// Where a scan starts, the number of its first row, and whether it replaces
/// what the index holds.
pub open spec fn origin_of(resume: bool, prev: Option<Prev>) -> (int, int, bool) {
    match (resume, prev) {
        (true, Some(p)) => (p.cursor as int, p.n_ev as int, false),
        _ => (0, 0, true),
    }
}

/// Where a scan starts, the number of its first row, and whether it replaces
/// what the index holds.
pub fn origin(resume: bool, prev: Option<&Prev>) -> (r: (i64, i64, bool))
    ensures
        (r.0 as int, r.1 as int, r.2) == origin_of(
            resume,
            match prev {
                Some(p) => Some(*p),
                None => None,
            },
        ),
{
    match prev {
        Some(p) => if resume {
            (p.cursor, p.n_ev, false)
        } else {
            (0, 0, true)
        },
        None => (0, 0, true),
    }
}

/// A scan of the bytes of a file from where `origin` says.
pub open spec fn scan_of(
    path: Seq<char>,
    b: Seq<u8>,
    size: int,
    sid: int,
    resume: bool,
    prev: Option<Prev>,
) -> ScannedV {
    let (from, base_seq, fresh) = origin_of(resume, prev);
    ScannedV { path, scan: extract::scanned(b, from), size, sid, base_seq, fresh }
}

/// Scans the bytes of a file from where `origin` says to its end.
pub fn scan_file(
    path: String,
    buf: &[u8],
    size: i64,
    sid: i64,
    resume: bool,
    prev: Option<&Prev>,
) -> (r: Scanned)
    requires
        buf@.len() <= i64::MAX,
        origin_of(
            resume,
            match prev {
                Some(p) => Some(*p),
                None => None,
            },
        ).0 + buf@.len() <= i64::MAX,
    ensures
        r@ == scan_of(
            path@,
            buf@,
            size as int,
            sid as int,
            resume,
            match prev {
                Some(p) => Some(*p),
                None => None,
            },
        ),
{
    let (from, base_seq, fresh) = origin(resume, prev);
    let out = extract::scan_buf(buf, from);
    Scanned {
        path,
        rows: out.rows,
        rejects: out.rejects,
        end: out.end,
        size,
        sid,
        base_seq,
        fresh,
    }
}

/// What is said of a record that is not the one that was indexed.
pub open spec fn changed_on_disk(path: Seq<char>, off: int) -> Seq<char> {
    path + ":"@ + text::dec_int(off) + " changed on disk; run `alog sync`"@
}

/// The bytes of a record that were read back, or a message where they are not
/// the ones that were indexed.
pub fn check_record(path: &str, off: i64, buf: Vec<u8>, crc: i64) -> (r: Result<Vec<u8>, String>)
    ensures
        match r {
            Ok(b) => b@ == buf@ && hashes_to(buf@, crc as int),
            Err(e) => !hashes_to(buf@, crc as int) && e@ == path@ + ":"@ + text::dec_int(off as int)
                + " changed on disk; run `alog sync`"@ && e@ == changed_on_disk(path@, off as int),
        },
{
    if tail_matches(buf.as_slice(), crc) {
        Ok(buf)
    } else {
        let mut e = path.to_owned();
        e.append(":");
        text::push_i64(&mut e, off);
        e.append(" changed on disk; run `alog sync`");
        Err(e)
    }
}

// ---------------------------------------------------------------------------
// What a scan changes
// ---------------------------------------------------------------------------

/// What a scan changes in the index, apart from the full text: whether what the
/// index holds of the session goes first, the rows to put, each with its number,
/// the rejects to put, and what becomes of the session's own row.
#[derive(Debug)]
pub struct Plan {
    pub forget: bool,
    pub events: Vec<(i64, usize)>,
    pub rejects: Vec<(i64, &'static str)>,
    pub size: i64,
    pub cursor: i64,
    pub n_ev: i64,
}

/// What a `Plan` stands for.
pub struct PlanV {
    pub forget: bool,
    pub events: Seq<(int, int)>,
    pub rejects: Seq<(int, Seq<char>)>,
    pub size: int,
    pub cursor: int,
    pub n_ev: int,
}

pub open spec fn pairs(v: Seq<(i64, usize)>) -> Seq<(int, int)> {
    Seq::new(v.len(), |i: int| (v[i].0 as int, v[i].1 as int))
}

pub open spec fn reasons(v: Seq<(i64, &'static str)>) -> Seq<(int, Seq<char>)> {
    Seq::new(v.len(), |i: int| (v[i].0 as int, v[i].1@))
}

impl View for Plan {
    type V = PlanV;

    open spec fn view(&self) -> PlanV {
        PlanV {
            forget: self.forget,
            events: pairs(self.events@),
            rejects: reasons(self.rejects@),
            size: self.size as int,
            cursor: self.cursor as int,
            n_ev: self.n_ev as int,
        }
    }
}

/// What a scan changes. A scan that resumed an earlier one and found nothing
/// changes nothing. One from the start of a file replaces what the index holds,
/// whatever it found.
pub open spec fn plan_of(s: ScannedV) -> Option<PlanV> {
    if !s.fresh && s.scan.rows.len() == 0 && s.scan.rejects.len() == 0 {
        None
    } else {
        Some(
            PlanV {
                forget: s.fresh,
                events: Seq::new(s.scan.rows.len(), |i: int| (s.base_seq + i, i)),
                rejects: Seq::new(
                    s.scan.rejects.len(),
                    |i: int| (s.scan.rejects[i].0, s.scan.rejects[i].2),
                ),
                size: s.size,
                cursor: s.scan.end,
                n_ev: s.base_seq + s.scan.rows.len(),
            },
        )
    }
}

/// What a scan changes in the index, apart from the full text.
pub fn plan(s: &Scanned) -> (r: Option<Plan>)
    requires
        s.base_seq + s.rows@.len() <= i64::MAX,
        s.rows@.len() <= i64::MAX,
    ensures
        match r {
            Some(p) => plan_of(s@) == Some(p@),
            None => plan_of(s@) is None,
        },
{
    if !s.fresh && s.rows.len() == 0 && s.rejects.len() == 0 {
        return None;
    }
    let ghost sv = s@;
    let mut events: Vec<(i64, usize)> = Vec::new();
    let mut i: usize = 0;
    while i < s.rows.len()
        invariant
            i <= s.rows@.len(),
            s.base_seq + s.rows@.len() <= i64::MAX,
            s.rows@.len() <= i64::MAX,
            pairs(events@) == Seq::new(i as nat, |k: int| (s.base_seq + k, k)),
        decreases s.rows.len() - i,
    {
        let ghost before = pairs(events@);
        events.push((s.base_seq + i as i64, i));
        assert(pairs(events@) =~= before.push((s.base_seq + i, i as int)));
        i += 1;
        assert(pairs(events@) =~= Seq::new(i as nat, |k: int| (s.base_seq + k, k)));
    }
    let mut rejects: Vec<(i64, &'static str)> = Vec::new();
    let mut j: usize = 0;
    while j < s.rejects.len()
        invariant
            j <= s.rejects@.len(),
            reasons(rejects@) == Seq::new(
                j as nat,
                |k: int| (s.rejects@[k].0 as int, s.rejects@[k].2@),
            ),
        decreases s.rejects.len() - j,
    {
        let ghost before = reasons(rejects@);
        rejects.push((s.rejects[j].0, s.rejects[j].2));
        assert(reasons(rejects@) =~= before.push(
            (s.rejects@[j as int].0 as int, s.rejects@[j as int].2@),
        ));
        j += 1;
        assert(reasons(rejects@) =~= Seq::new(
            j as nat,
            |k: int| (s.rejects@[k].0 as int, s.rejects@[k].2@),
        ));
    }
    let p = Plan {
        forget: s.fresh,
        events,
        rejects,
        size: s.size,
        cursor: s.end,
        n_ev: s.base_seq + s.rows.len() as i64,
    };
    assert(p@.events =~= plan_of(sv)->0.events);
    assert(p@.rejects =~= plan_of(sv)->0.rejects);
    Some(p)
}

/// The full-text documents of some rows, the first of which has the number
/// `base`: for every row with text the document's id, counted from `next`, the
/// row's number, and its index.
pub open spec fn documents_of(rows: Seq<RowV>, base: int, next: int) -> Seq<(int, int, int)>
    decreases rows.len(),
{
    if rows.len() == 0 {
        Seq::empty()
    } else {
        let d = documents_of(rows.drop_last(), base, next);
        if rows.last().text.len() == 0 {
            d
        } else {
            d.push((next + d.len(), base + rows.len() - 1, rows.len() - 1))
        }
    }
}

pub open spec fn triples(v: Seq<(i64, i64, usize)>) -> Seq<(int, int, int)> {
    Seq::new(v.len(), |i: int| (v[i].0 as int, v[i].1 as int, v[i].2 as int))
}

/// The full-text documents of a scan, where `next` is the first free id.
pub fn documents(s: &Scanned, next: i64) -> (r: Vec<(i64, i64, usize)>)
    requires
        s.base_seq + s.rows@.len() <= i64::MAX,
        s.rows@.len() <= i64::MAX,
        next + s.rows@.len() <= i64::MAX,
    ensures
        triples(r@) == documents_of(s@.scan.rows, s.base_seq as int, next as int),
{
    let ghost rows = s@.scan.rows;
    let mut out: Vec<(i64, i64, usize)> = Vec::new();
    let mut id: i64 = next;
    let mut i: usize = 0;
    assert(triples(out@) =~= documents_of(rows.take(0), s.base_seq as int, next as int));
    while i < s.rows.len()
        invariant
            i <= s.rows@.len(),
            rows == extract::rows_of(s.rows@),
            s.base_seq + s.rows@.len() <= i64::MAX,
            s.rows@.len() <= i64::MAX,
            next + s.rows@.len() <= i64::MAX,
            triples(out@) == documents_of(rows.take(i as int), s.base_seq as int, next as int),
            id == next + out@.len(),
            out@.len() <= i,
        decreases s.rows.len() - i,
    {
        assert(rows.take(i + 1).drop_last() =~= rows.take(i as int));
        assert(rows.take(i + 1).last() == s.rows@[i as int]@);
        let ghost before = triples(out@);
        if s.rows[i].text.as_str().unicode_len() > 0 {
            out.push((id, s.base_seq + i as i64, i));
            assert(triples(out@) =~= before.push((id as int, s.base_seq + i, i as int)));
            id += 1;
        }
        i += 1;
    }
    assert(rows.take(s.rows@.len() as int) =~= rows);
    out
}

// ---------------------------------------------------------------------------
// The index as a whole
// ---------------------------------------------------------------------------

/// A session's own row.
pub struct RunV {
    pub size: int,
    pub cursor: int,
    pub n_ev: int,
}

/// The tables of the index: rows and rejects by session and number or offset,
/// the bodies of the full-text documents, what row each document belongs to, and
/// the sessions.
pub struct IndexV {
    pub ev: Map<(int, int), RowV>,
    pub reject: Map<(int, int), Seq<char>>,
    pub ftx: Map<int, Seq<char>>,
    pub ftx_map: Map<int, (int, int)>,
    pub run: Map<int, RunV>,
}

/// The columns of a row, which do not hold its text.
pub open spec fn columns(r: RowV) -> RowV {
    RowV { text: Seq::empty(), ..r }
}

/// An index without what it holds of one session, apart from the session's own
/// row.
pub open spec fn forgotten(ix: IndexV, sid: int) -> IndexV {
    IndexV {
        ev: Map::new(|k: (int, int)| ix.ev.contains_key(k) && k.0 != sid, |k: (int, int)| ix.ev[k]),
        reject: Map::new(
            |k: (int, int)| ix.reject.contains_key(k) && k.0 != sid,
            |k: (int, int)| ix.reject[k],
        ),
        ftx: Map::new(
            |r: int|
                ix.ftx.contains_key(r) && !(ix.ftx_map.contains_key(r) && ix.ftx_map[r].0 == sid),
            |r: int| ix.ftx[r],
        ),
        ftx_map: Map::new(
            |r: int| ix.ftx_map.contains_key(r) && ix.ftx_map[r].0 != sid,
            |r: int| ix.ftx_map[r],
        ),
        run: ix.run,
    }
}

/// Rows put one after another.
pub open spec fn put_events(
    ev: Map<(int, int), RowV>,
    sid: int,
    rows: Seq<RowV>,
    events: Seq<(int, int)>,
) -> Map<(int, int), RowV>
    decreases events.len(),
{
    if events.len() == 0 {
        ev
    } else {
        put_events(ev, sid, rows, events.drop_last()).insert(
            (sid, events.last().0),
            columns(rows[events.last().1]),
        )
    }
}

/// Rejects put one after another.
pub open spec fn put_rejects(
    reject: Map<(int, int), Seq<char>>,
    sid: int,
    rejects: Seq<(int, Seq<char>)>,
) -> Map<(int, int), Seq<char>>
    decreases rejects.len(),
{
    if rejects.len() == 0 {
        reject
    } else {
        put_rejects(reject, sid, rejects.drop_last()).insert(
            (sid, rejects.last().0),
            rejects.last().1,
        )
    }
}

/// The bodies of documents put one after another.
pub open spec fn put_bodies(
    ftx: Map<int, Seq<char>>,
    rows: Seq<RowV>,
    docs: Seq<(int, int, int)>,
) -> Map<int, Seq<char>>
    decreases docs.len(),
{
    if docs.len() == 0 {
        ftx
    } else {
        put_bodies(ftx, rows, docs.drop_last()).insert(docs.last().0, rows[docs.last().2].text)
    }
}

/// What rows documents belong to, put one after another.
pub open spec fn put_links(
    ftx_map: Map<int, (int, int)>,
    sid: int,
    docs: Seq<(int, int, int)>,
) -> Map<int, (int, int)>
    decreases docs.len(),
{
    if docs.len() == 0 {
        ftx_map
    } else {
        put_links(ftx_map, sid, docs.drop_last()).insert(docs.last().0, (sid, docs.last().1))
    }
}

/// The index after a scan has been applied to it: its plan, then its documents,
/// with ids from `next` on.
pub open spec fn applied(ix: IndexV, s: ScannedV, next: int) -> IndexV {
    match plan_of(s) {
        None => ix,
        Some(p) => {
            let a = if p.forget {
                forgotten(ix, s.sid)
            } else {
                ix
            };
            let docs = documents_of(s.scan.rows, s.base_seq, next);
            IndexV {
                ev: put_events(a.ev, s.sid, s.scan.rows, p.events),
                reject: put_rejects(a.reject, s.sid, p.rejects),
                ftx: put_bodies(a.ftx, s.scan.rows, docs),
                ftx_map: put_links(a.ftx_map, s.sid, docs),
                run: if a.run.contains_key(s.sid) {
                    a.run.insert(
                        s.sid,
                        RunV { size: p.size, cursor: p.cursor, n_ev: p.n_ev },
                    )
                } else {
                    a.run
                },
            }
        },
    }
}

/// The id `next` and those after it are free.
pub open spec fn free_from(ix: IndexV, next: int) -> bool {
    &&& forall|r: int| #[trigger] ix.ftx_map.contains_key(r) ==> r < next
    &&& forall|r: int| #[trigger] ix.ftx.contains_key(r) ==> r < next
}

/// Every document belongs to a row that is there, and every link to a row has
/// its document.
pub open spec fn in_step(ix: IndexV) -> bool {
    &&& forall|r: int| #[trigger] ix.ftx.contains_key(r) <==> ix.ftx_map.contains_key(r)
    &&& forall|r: int|
        #[trigger] ix.ftx_map.contains_key(r) ==> ix.ev.contains_key(ix.ftx_map[r])
}

/// The rows that the index holds of a session are those of a scan.
pub open spec fn holds_rows(ix: IndexV, sid: int, rows: Seq<RowV>) -> bool {
    &&& forall|q: int| #[trigger] ix.ev.contains_key((sid, q)) <==> 0 <= q < rows.len()
    &&& forall|q: int| 0 <= q < rows.len() ==> #[trigger] ix.ev[(sid, q)] == columns(rows[q])
}

/// The rejects that the index holds of a session are those of a scan.
pub open spec fn holds_rejects(ix: IndexV, sid: int, rejects: Seq<(int, int, Seq<char>)>) -> bool {
    &&& forall|o: int|
        #[trigger] ix.reject.contains_key((sid, o)) ==> exists|i: int|
            0 <= i < rejects.len() && (#[trigger] rejects[i]).0 == o
    &&& forall|i: int|
        0 <= i < rejects.len() ==> ix.reject.contains_key((sid, (#[trigger] rejects[i]).0))
            && ix.reject[(sid, rejects[i].0)] == rejects[i].2
}

/// The documents that the index holds of a session are the texts of a scan, one
/// for each row that has text.
pub open spec fn holds_texts(ix: IndexV, sid: int, rows: Seq<RowV>) -> bool {
    &&& forall|r: int| #[trigger]
        ix.ftx_map.contains_key(r) && ix.ftx_map[r].0 == sid ==> {
            let q = ix.ftx_map[r].1;
            0 <= q < rows.len() && rows[q].text.len() > 0 && ix.ftx.contains_key(r) && ix.ftx[r]
                == rows[q].text
        }
    &&& forall|q: int|
        0 <= q < rows.len() && (#[trigger] rows[q]).text.len() > 0 ==> exists|r: int| #[trigger]
            ix.ftx_map.contains_key(r) && ix.ftx_map[r] == (sid, q)
    &&& forall|r: int, t: int| #[trigger]
        ix.ftx_map.contains_key(r) && #[trigger] ix.ftx_map.contains_key(t) && ix.ftx_map[r]
            == ix.ftx_map[t] && ix.ftx_map[r].0 == sid ==> r == t
}

/// What the index holds of a session is a scan.
pub open spec fn holds(ix: IndexV, sid: int, scan: ScanV) -> bool {
    &&& holds_rows(ix, sid, scan.rows)
    &&& holds_rejects(ix, sid, scan.rejects)
    &&& holds_texts(ix, sid, scan.rows)
}

// ---------------------------------------------------------------------------
// Laws of the index
// ---------------------------------------------------------------------------

/// The index that the rows of a scan are put into.
pub open spec fn base_of(ix: IndexV, s: ScannedV) -> IndexV {
    if s.fresh {
        forgotten(ix, s.sid)
    } else {
        ix
    }
}

/// Rejects have offsets of their own.
pub open spec fn distinct_offsets(rejects: Seq<(int, int, Seq<char>)>) -> bool {
    forall|i: int, j: int|
        0 <= i < j < rejects.len() ==> (#[trigger] rejects[i]).0 != (#[trigger] rejects[j]).0
}

proof fn lemma_put_events(
    ev: Map<(int, int), RowV>,
    sid: int,
    rows: Seq<RowV>,
    events: Seq<(int, int)>,
    base: int,
)
    requires
        forall|i: int| 0 <= i < events.len() ==> #[trigger] events[i] == (base + i, i),
    ensures
        forall|k: (int, int)| #[trigger]
            put_events(ev, sid, rows, events).contains_key(k) <==> ev.contains_key(k) || (k.0 == sid
                && base <= k.1 < base + events.len()),
        forall|k: (int, int)|
            #![trigger put_events(ev, sid, rows, events)[k]]
            put_events(ev, sid, rows, events).contains_key(k) ==> put_events(
                ev,
                sid,
                rows,
                events,
            )[k] == if k.0 == sid && base <= k.1 < base + events.len() {
                columns(rows[k.1 - base])
            } else {
                ev[k]
            },
    decreases events.len(),
{
    if events.len() > 0 {
        lemma_put_events(ev, sid, rows, events.drop_last(), base);
    }
}

proof fn lemma_put_rejects(
    reject: Map<(int, int), Seq<char>>,
    sid: int,
    rejects: Seq<(int, Seq<char>)>,
)
    requires
        forall|i: int, j: int|
            0 <= i < j < rejects.len() ==> (#[trigger] rejects[i]).0 != (#[trigger] rejects[j]).0,
    ensures
        forall|k: (int, int)| #[trigger]
            put_rejects(reject, sid, rejects).contains_key(k) ==> reject.contains_key(k) || (k.0
                == sid && exists|i: int|
                0 <= i < rejects.len() && (#[trigger] rejects[i]).0 == k.1),
        forall|k: (int, int)|
            #![trigger put_rejects(reject, sid, rejects)[k]]
            #![trigger put_rejects(reject, sid, rejects).contains_key(k)]
            reject.contains_key(k) && (k.0 != sid || forall|i: int|
                0 <= i < rejects.len() ==> (#[trigger] rejects[i]).0 != k.1) ==> put_rejects(
                reject,
                sid,
                rejects,
            ).contains_key(k) && put_rejects(reject, sid, rejects)[k] == reject[k],
        forall|i: int|
            0 <= i < rejects.len() ==> put_rejects(reject, sid, rejects).contains_key(
                (sid, (#[trigger] rejects[i]).0),
            ) && put_rejects(reject, sid, rejects)[(sid, rejects[i].0)] == rejects[i].1,
    decreases rejects.len(),
{
    if rejects.len() > 0 {
        let d = rejects.drop_last();
        assert forall|i: int, j: int| 0 <= i < j < d.len() implies (#[trigger] d[i]).0 != (
        #[trigger] d[j]).0 by {
            assert(d[i] == rejects[i] && d[j] == rejects[j]);
        }
        lemma_put_rejects(reject, sid, d);
        let m = put_rejects(reject, sid, rejects);
        let p = put_rejects(reject, sid, d);
        let last = rejects.last();
        assert(rejects[rejects.len() - 1] == last);
        assert forall|k: (int, int)| #[trigger] m.contains_key(k) implies reject.contains_key(k) || (
        k.0 == sid && exists|i: int| 0 <= i < rejects.len() && (#[trigger] rejects[i]).0
            == k.1) by {
            if k == (sid, last.0) {
                assert(rejects[rejects.len() - 1].0 == k.1);
            } else {
                assert(p.contains_key(k));
                if !reject.contains_key(k) {
                    let i = choose|i: int| 0 <= i < d.len() && (#[trigger] d[i]).0 == k.1;
                    assert(rejects[i].0 == k.1);
                }
            }
        }
        assert forall|k: (int, int)|
            #![trigger m[k]]
            #![trigger m.contains_key(k)]
            reject.contains_key(k) && (k.0 != sid || forall|i: int|
                0 <= i < rejects.len() ==> (#[trigger] rejects[i]).0 != k.1) implies m.contains_key(
            k,
        ) && m[k] == reject[k] by {
            if k.0 == sid {
                assert(rejects[rejects.len() - 1].0 != k.1);
                assert forall|i: int| 0 <= i < d.len() implies (#[trigger] d[i]).0 != k.1 by {
                    assert(d[i] == rejects[i]);
                }
            }
            assert(p.contains_key(k) && p[k] == reject[k]);
        }
        assert forall|i: int| 0 <= i < rejects.len() implies m.contains_key(
            (sid, (#[trigger] rejects[i]).0),
        ) && m[(sid, rejects[i].0)] == rejects[i].1 by {
            if i < d.len() {
                assert(d[i] == rejects[i]);
                assert(rejects[i].0 != rejects[rejects.len() - 1].0);
            }
        }
    }
}

/// The documents of some rows: ids count up from `next`, and every row with text
/// has one.
proof fn lemma_documents(rows: Seq<RowV>, base: int, next: int)
    ensures
        ({
            let d = documents_of(rows, base, next);
            &&& d.len() <= rows.len()
            &&& forall|j: int|
                0 <= j < d.len() ==> (#[trigger] d[j]).0 == next + j && 0 <= d[j].2 < rows.len()
                    && d[j].1 == base + d[j].2 && rows[d[j].2].text.len() > 0
            &&& forall|q: int|
                0 <= q < rows.len() && (#[trigger] rows[q]).text.len() > 0 ==> exists|j: int|
                    0 <= j < d.len() && (#[trigger] d[j]).2 == q
            &&& forall|i: int, j: int|
                0 <= i < j < d.len() ==> (#[trigger] d[i]).2 < (#[trigger] d[j]).2
        }),
    decreases rows.len(),
{
    if rows.len() > 0 {
        let t = rows.drop_last();
        lemma_documents(t, base, next);
        let p = documents_of(t, base, next);
        let d = documents_of(rows, base, next);
        assert forall|j: int| 0 <= j < d.len() implies (#[trigger] d[j]).0 == next + j && 0
            <= d[j].2 < rows.len() && d[j].1 == base + d[j].2 && rows[d[j].2].text.len() > 0 by {
            if j < p.len() {
                assert(d[j] == p[j]);
                assert(t[p[j].2] == rows[p[j].2]);
            }
        }
        assert forall|q: int| 0 <= q < rows.len() && (#[trigger] rows[q]).text.len()
            > 0 implies exists|j: int| 0 <= j < d.len() && (#[trigger] d[j]).2 == q by {
            if q < t.len() {
                assert(t[q] == rows[q]);
                let j = choose|j: int| 0 <= j < p.len() && (#[trigger] p[j]).2 == q;
                assert(d[j] == p[j]);
            } else {
                assert(d[p.len() as int].2 == q);
            }
        }
        assert forall|i: int, j: int| 0 <= i < j < d.len() implies (#[trigger] d[i]).2 < (
        #[trigger] d[j]).2 by {
            assert(d[i] == p[i]);
            if j < p.len() {
                assert(d[j] == p[j]);
            }
        }
    }
}

proof fn lemma_put_links(m: Map<int, (int, int)>, sid: int, docs: Seq<(int, int, int)>, next: int)
    requires
        forall|j: int| 0 <= j < docs.len() ==> (#[trigger] docs[j]).0 == next + j,
    ensures
        forall|r: int| #[trigger]
            put_links(m, sid, docs).contains_key(r) <==> m.contains_key(r) || next <= r < next
                + docs.len(),
        forall|r: int|
            #![trigger put_links(m, sid, docs)[r]]
            put_links(m, sid, docs).contains_key(r) ==> put_links(m, sid, docs)[r] == if next <= r
                < next + docs.len() {
                (sid, docs[r - next].1)
            } else {
                m[r]
            },
    decreases docs.len(),
{
    if docs.len() > 0 {
        let d = docs.drop_last();
        assert forall|j: int| 0 <= j < d.len() implies (#[trigger] d[j]).0 == next + j by {
            assert(d[j] == docs[j]);
        }
        lemma_put_links(m, sid, d, next);
        assert(docs[docs.len() - 1] == docs.last());
        let before = put_links(m, sid, d);
        let after = put_links(m, sid, docs);
        assert forall|r: int| #[trigger]
            after.contains_key(r) <==> m.contains_key(r) || next <= r < next + docs.len() by {
            assert(r != docs.last().0 ==> after.contains_key(r) == before.contains_key(r));
        }
        assert forall|r: int|
            #![trigger after[r]]
            after.contains_key(r) implies after[r] == if next <= r < next + docs.len() {
            (sid, docs[r - next].1)
        } else {
            m[r]
        } by {
            if r != docs.last().0 {
                assert(before.contains_key(r) && after[r] == before[r]);
                if next <= r < next + docs.len() {
                    assert(d[r - next] == docs[r - next]);
                }
            }
        }
    }
}

proof fn lemma_put_bodies(
    m: Map<int, Seq<char>>,
    rows: Seq<RowV>,
    docs: Seq<(int, int, int)>,
    next: int,
)
    requires
        forall|j: int| 0 <= j < docs.len() ==> (#[trigger] docs[j]).0 == next + j,
    ensures
        forall|r: int| #[trigger]
            put_bodies(m, rows, docs).contains_key(r) <==> m.contains_key(r) || next <= r < next
                + docs.len(),
        forall|r: int|
            #![trigger put_bodies(m, rows, docs)[r]]
            put_bodies(m, rows, docs).contains_key(r) ==> put_bodies(m, rows, docs)[r] == if next
                <= r < next + docs.len() {
                rows[docs[r - next].2].text
            } else {
                m[r]
            },
    decreases docs.len(),
{
    if docs.len() > 0 {
        let d = docs.drop_last();
        assert forall|j: int| 0 <= j < d.len() implies (#[trigger] d[j]).0 == next + j by {
            assert(d[j] == docs[j]);
        }
        lemma_put_bodies(m, rows, d, next);
        assert(docs[docs.len() - 1] == docs.last());
        let before = put_bodies(m, rows, d);
        let after = put_bodies(m, rows, docs);
        assert forall|r: int| #[trigger]
            after.contains_key(r) <==> m.contains_key(r) || next <= r < next + docs.len() by {
            assert(r != docs.last().0 ==> after.contains_key(r) == before.contains_key(r));
        }
        assert forall|r: int|
            #![trigger after[r]]
            after.contains_key(r) implies after[r] == if next <= r < next + docs.len() {
            rows[docs[r - next].2].text
        } else {
            m[r]
        } by {
            if r != docs.last().0 {
                assert(before.contains_key(r) && after[r] == before[r]);
                if next <= r < next + docs.len() {
                    assert(d[r - next] == docs[r - next]);
                }
            }
        }
    }
}

/// Rows, rejects and documents that a session gains, on top of those of a scan
/// that the index already holds of it.
proof fn lemma_put(ix: IndexV, s: ScannedV, next: int, before: ScanV)
    requires
        plan_of(s) is Some,
        holds(base_of(ix, s), s.sid, before),
        s.base_seq == before.rows.len(),
        free_from(base_of(ix, s), next),
        distinct_offsets(before.rejects + s.scan.rejects),
    ensures
        holds(applied(ix, s, next), s.sid, extract::scan_then(before, s.scan)),
{
    let a = base_of(ix, s);
    let b = applied(ix, s, next);
    let p = plan_of(s)->0;
    let docs = documents_of(s.scan.rows, s.base_seq, next);
    let n = before.rows.len();
    let rows = before.rows + s.scan.rows;
    let rejects = before.rejects + s.scan.rejects;
    lemma_put_events(a.ev, s.sid, s.scan.rows, p.events, s.base_seq);
    lemma_documents(s.scan.rows, s.base_seq, next);
    lemma_put_links(a.ftx_map, s.sid, docs, next);
    lemma_put_bodies(a.ftx, s.scan.rows, docs, next);
    assert forall|i: int, j: int| 0 <= i < j < p.rejects.len() implies (#[trigger] p.rejects[i]).0
        != (#[trigger] p.rejects[j]).0 by {
        assert(p.rejects[i].0 == rejects[before.rejects.len() + i].0);
        assert(p.rejects[j].0 == rejects[before.rejects.len() + j].0);
    }
    lemma_put_rejects(a.reject, s.sid, p.rejects);
    assert(holds_rows(b, s.sid, rows)) by {
        assert forall|q: int| 0 <= q < rows.len() implies #[trigger] b.ev[(s.sid, q)] == columns(
            rows[q],
        ) by {
            assert(b.ev.contains_key((s.sid, q)));
            if q < n {
                assert(a.ev[(s.sid, q)] == columns(before.rows[q]));
            }
        }
    }
    assert(holds_rejects(b, s.sid, rejects)) by {
        assert forall|o: int| #[trigger] b.reject.contains_key((s.sid, o)) implies exists|i: int|
            0 <= i < rejects.len() && (#[trigger] rejects[i]).0 == o by {
            if a.reject.contains_key((s.sid, o)) {
                let i = choose|i: int|
                    0 <= i < before.rejects.len() && (#[trigger] before.rejects[i]).0 == o;
                assert(rejects[i].0 == o);
            } else {
                let i = choose|i: int| 0 <= i < p.rejects.len() && (#[trigger] p.rejects[i]).0 == o;
                assert(rejects[before.rejects.len() + i].0 == o);
            }
        }
        assert forall|i: int| 0 <= i < rejects.len() implies b.reject.contains_key(
            (s.sid, (#[trigger] rejects[i]).0),
        ) && b.reject[(s.sid, rejects[i].0)] == rejects[i].2 by {
            if i < before.rejects.len() {
                assert(rejects[i] == before.rejects[i]);
                assert(a.reject.contains_key((s.sid, before.rejects[i].0)));
                assert forall|j: int| 0 <= j < p.rejects.len() implies (#[trigger] p.rejects[j]).0
                    != rejects[i].0 by {
                    assert(p.rejects[j].0 == rejects[before.rejects.len() + j].0);
                }
            } else {
                assert(p.rejects[i - before.rejects.len()].0 == rejects[i].0);
            }
        }
    }
    assert(holds_texts(b, s.sid, rows)) by {
        assert forall|r: int| #[trigger]
            b.ftx_map.contains_key(r) && b.ftx_map[r].0 == s.sid implies ({
            let q = b.ftx_map[r].1;
            0 <= q < rows.len() && rows[q].text.len() > 0 && b.ftx.contains_key(r) && b.ftx[r]
                == rows[q].text
        }) by {
            if next <= r < next + docs.len() {
                let d = docs[r - next];
                assert(d.0 == r);
                assert(rows[d.1] == s.scan.rows[d.2]);
            } else {
                assert(a.ftx_map.contains_key(r));
                assert(rows[a.ftx_map[r].1] == before.rows[a.ftx_map[r].1]);
            }
        }
        assert forall|q: int| 0 <= q < rows.len() && (#[trigger] rows[q]).text.len()
            > 0 implies exists|r: int| #[trigger]
            b.ftx_map.contains_key(r) && b.ftx_map[r] == (s.sid, q) by {
            if q < n {
                assert(rows[q] == before.rows[q]);
                let r = choose|r: int| #[trigger]
                    a.ftx_map.contains_key(r) && a.ftx_map[r] == (s.sid, q);
                assert(b.ftx_map.contains_key(r) && b.ftx_map[r] == (s.sid, q));
            } else {
                assert(rows[q] == s.scan.rows[q - n]);
                let j = choose|j: int| 0 <= j < docs.len() && (#[trigger] docs[j]).2 == q - n;
                assert(b.ftx_map.contains_key(next + j) && b.ftx_map[next + j] == (s.sid, q));
            }
        }
        assert forall|r: int, t: int| #[trigger]
            b.ftx_map.contains_key(r) && #[trigger] b.ftx_map.contains_key(t) && b.ftx_map[r]
                == b.ftx_map[t] && b.ftx_map[r].0 == s.sid implies r == t by {
            let new_r = next <= r < next + docs.len();
            let new_t = next <= t < next + docs.len();
            if new_r {
                assert(docs[r - next].0 == r);
            }
            if new_t {
                assert(docs[t - next].0 == t);
            }
            if new_r && new_t {
                if r < t {
                    assert(docs[r - next].2 < docs[t - next].2);
                }
                if t < r {
                    assert(docs[t - next].2 < docs[r - next].2);
                }
            }
            if !new_r {
                assert(a.ftx_map.contains_key(r));
            }
            if !new_t {
                assert(a.ftx_map.contains_key(t));
            }
        }
    }
}

/// A session of which nothing is held.
pub open spec fn nothing() -> ScanV {
    ScanV { rows: Seq::empty(), rejects: Seq::empty(), end: 0 }
}

/// After a session has been forgotten, nothing of it is left, and every other
/// session is as it was.
pub proof fn law_forget(ix: IndexV, sid: int)
    ensures
        holds(forgotten(ix, sid), sid, nothing()),
        in_step(ix) ==> in_step(forgotten(ix, sid)),
        forall|other: int, scan: ScanV|
            other != sid && #[trigger] holds(ix, other, scan) ==> holds(
                forgotten(ix, sid),
                other,
                scan,
            ),
{
    let f = forgotten(ix, sid);
    assert forall|other: int, scan: ScanV|
        other != sid && #[trigger] holds(ix, other, scan) implies holds(f, other, scan) by {
        assert forall|q: int| #[trigger]
            f.ev.contains_key((other, q)) <==> 0 <= q < scan.rows.len() by {
            assert(f.ev.contains_key((other, q)) == ix.ev.contains_key((other, q)));
        }
        assert forall|q: int| 0 <= q < scan.rows.len() implies #[trigger] f.ev[(other, q)]
            == columns(scan.rows[q]) by {
            assert(ix.ev.contains_key((other, q)));
            assert(ix.ev[(other, q)] == columns(scan.rows[q]));
        }
        assert forall|o: int| #[trigger] f.reject.contains_key((other, o)) implies exists|i: int|
            0 <= i < scan.rejects.len() && (#[trigger] scan.rejects[i]).0 == o by {
            assert(ix.reject.contains_key((other, o)));
        }
        assert forall|i: int| 0 <= i < scan.rejects.len() implies f.reject.contains_key(
            (other, (#[trigger] scan.rejects[i]).0),
        ) && f.reject[(other, scan.rejects[i].0)] == scan.rejects[i].2 by {
            assert(ix.reject.contains_key((other, scan.rejects[i].0)));
        }
        assert forall|r: int| #[trigger]
            f.ftx_map.contains_key(r) && f.ftx_map[r].0 == other implies ({
            let q = f.ftx_map[r].1;
            0 <= q < scan.rows.len() && scan.rows[q].text.len() > 0 && f.ftx.contains_key(r)
                && f.ftx[r] == scan.rows[q].text
        }) by {
            assert(ix.ftx_map.contains_key(r) && ix.ftx_map[r].0 == other);
        }
        assert forall|q: int| 0 <= q < scan.rows.len() && (#[trigger] scan.rows[q]).text.len()
            > 0 implies exists|r: int| #[trigger]
            f.ftx_map.contains_key(r) && f.ftx_map[r] == (other, q) by {
            let r = choose|r: int| #[trigger]
                ix.ftx_map.contains_key(r) && ix.ftx_map[r] == (other, q);
            assert(f.ftx_map.contains_key(r) && f.ftx_map[r] == (other, q));
        }
        assert forall|r: int, t: int| #[trigger]
            f.ftx_map.contains_key(r) && #[trigger] f.ftx_map.contains_key(t) && f.ftx_map[r]
                == f.ftx_map[t] && f.ftx_map[r].0 == other implies r == t by {
            assert(ix.ftx_map.contains_key(r) && ix.ftx_map.contains_key(t));
        }
    }
    if in_step(ix) {
        assert forall|r: int| #[trigger]
            f.ftx.contains_key(r) <==> f.ftx_map.contains_key(r) by {
            assert(ix.ftx.contains_key(r) <==> ix.ftx_map.contains_key(r));
        }
        assert forall|r: int| #[trigger] f.ftx_map.contains_key(r) implies f.ev.contains_key(
            f.ftx_map[r],
        ) by {
            assert(ix.ftx_map.contains_key(r));
            assert(ix.ev.contains_key(ix.ftx_map[r]));
        }
    }
}

/// A scan from the start of a file replaces what the index held of the session.
pub proof fn law_fresh_scan_replaces(ix: IndexV, s: ScannedV, next: int)
    requires
        s.fresh,
        s.base_seq == 0,
        free_from(base_of(ix, s), next),
        distinct_offsets(s.scan.rejects),
    ensures
        holds(applied(ix, s, next), s.sid, s.scan),
{
    law_forget(ix, s.sid);
    assert(nothing().rejects + s.scan.rejects =~= s.scan.rejects);
    lemma_put(ix, s, next, nothing());
    assert(nothing().rows + s.scan.rows =~= s.scan.rows);
    assert(extract::scan_then(nothing(), s.scan) == s.scan);
}

/// A scan that resumes an earlier one adds to what the index holds of the
/// session.
pub proof fn law_resumed_scan_extends(ix: IndexV, s: ScannedV, next: int, before: ScanV)
    requires
        !s.fresh,
        s.base_seq == before.rows.len(),
        holds(ix, s.sid, before),
        free_from(ix, next),
        distinct_offsets(before.rejects + s.scan.rejects),
    ensures
        holds(applied(ix, s, next), s.sid, extract::scan_then(before, s.scan)),
{
    if plan_of(s) is Some {
        lemma_put(ix, s, next, before);
    } else {
        assert(before.rows + s.scan.rows =~= before.rows);
        assert(before.rejects + s.scan.rejects =~= before.rejects);
    }
}

/// Applying a scan to one session leaves every other session as it was.
pub proof fn law_other_sessions_stay(ix: IndexV, s: ScannedV, next: int, other: int, scan: ScanV)
    requires
        other != s.sid,
        holds(ix, other, scan),
        free_from(base_of(ix, s), next),
        distinct_offsets(s.scan.rejects),
    ensures
        holds(applied(ix, s, next), other, scan),
{
    if plan_of(s) is Some {
        law_forget(ix, s.sid);
        let a = base_of(ix, s);
        let b = applied(ix, s, next);
        assert(holds(a, other, scan));
        let p = plan_of(s)->0;
        let docs = documents_of(s.scan.rows, s.base_seq, next);
        lemma_put_events(a.ev, s.sid, s.scan.rows, p.events, s.base_seq);
        lemma_documents(s.scan.rows, s.base_seq, next);
        lemma_put_links(a.ftx_map, s.sid, docs, next);
        lemma_put_bodies(a.ftx, s.scan.rows, docs, next);
        assert forall|i: int, j: int| 0 <= i < j < p.rejects.len() implies (
        #[trigger] p.rejects[i]).0 != (#[trigger] p.rejects[j]).0 by {
            assert(p.rejects[i].0 == s.scan.rejects[i].0);
            assert(p.rejects[j].0 == s.scan.rejects[j].0);
        }
        lemma_put_rejects(a.reject, s.sid, p.rejects);
        assert forall|q: int| 0 <= q < scan.rows.len() implies #[trigger] b.ev[(other, q)]
            == columns(scan.rows[q]) by {
            assert(a.ev.contains_key((other, q)));
            assert(b.ev.contains_key((other, q)));
            assert(a.ev[(other, q)] == columns(scan.rows[q]));
        }
        assert forall|q: int| #[trigger]
            b.ev.contains_key((other, q)) <==> 0 <= q < scan.rows.len() by {
            assert(b.ev.contains_key((other, q)) == a.ev.contains_key((other, q)));
        }
        assert forall|o: int| #[trigger] b.reject.contains_key((other, o)) implies exists|i: int|
            0 <= i < scan.rejects.len() && (#[trigger] scan.rejects[i]).0 == o by {
            assert(a.reject.contains_key((other, o)));
        }
        assert forall|i: int| 0 <= i < scan.rejects.len() implies b.reject.contains_key(
            (other, (#[trigger] scan.rejects[i]).0),
        ) && b.reject[(other, scan.rejects[i].0)] == scan.rejects[i].2 by {
            assert(a.reject.contains_key((other, scan.rejects[i].0)));
        }
        assert forall|r: int| #[trigger]
            b.ftx_map.contains_key(r) && b.ftx_map[r].0 == other implies ({
            let q = b.ftx_map[r].1;
            0 <= q < scan.rows.len() && scan.rows[q].text.len() > 0 && b.ftx.contains_key(r)
                && b.ftx[r] == scan.rows[q].text
        }) by {
            assert(a.ftx_map.contains_key(r) && a.ftx_map[r].0 == other);
            assert(a.ftx.contains_key(r));
            assert(b.ftx.contains_key(r));
        }
        assert forall|q: int| 0 <= q < scan.rows.len() && (#[trigger] scan.rows[q]).text.len()
            > 0 implies exists|r: int| #[trigger]
            b.ftx_map.contains_key(r) && b.ftx_map[r] == (other, q) by {
            let r = choose|r: int| #[trigger]
                a.ftx_map.contains_key(r) && a.ftx_map[r] == (other, q);
            assert(b.ftx_map.contains_key(r) && b.ftx_map[r] == (other, q));
        }
        assert forall|r: int, t: int| #[trigger]
            b.ftx_map.contains_key(r) && #[trigger] b.ftx_map.contains_key(t) && b.ftx_map[r]
                == b.ftx_map[t] && b.ftx_map[r].0 == other implies r == t by {
            assert(a.ftx_map.contains_key(r) && a.ftx_map.contains_key(t));
        }
    }
}

/// Applying a scan keeps documents and rows in step: none is lost and none is
/// left behind.
pub proof fn law_stays_in_step(ix: IndexV, s: ScannedV, next: int)
    requires
        in_step(ix),
        free_from(base_of(ix, s), next),
    ensures
        in_step(applied(ix, s, next)),
{
    if plan_of(s) is Some {
        law_forget(ix, s.sid);
        let a = base_of(ix, s);
        let b = applied(ix, s, next);
        let p = plan_of(s)->0;
        let docs = documents_of(s.scan.rows, s.base_seq, next);
        lemma_put_events(a.ev, s.sid, s.scan.rows, p.events, s.base_seq);
        lemma_documents(s.scan.rows, s.base_seq, next);
        lemma_put_links(a.ftx_map, s.sid, docs, next);
        lemma_put_bodies(a.ftx, s.scan.rows, docs, next);
        assert forall|r: int| #[trigger]
            b.ftx.contains_key(r) <==> b.ftx_map.contains_key(r) by {
            assert(a.ftx.contains_key(r) <==> a.ftx_map.contains_key(r));
        }
        assert forall|r: int| #[trigger] b.ftx_map.contains_key(r) implies b.ev.contains_key(
            b.ftx_map[r],
        ) by {
            if next <= r < next + docs.len() {
                assert(docs[r - next].0 == r);
                assert(b.ev.contains_key((s.sid, docs[r - next].1)));
            } else {
                assert(a.ftx_map.contains_key(r));
                assert(a.ev.contains_key(a.ftx_map[r]));
                assert(b.ev.contains_key(a.ftx_map[r]));
            }
        }
    }
}

/// A scan of a file may be resumed: the last record that was indexed is still
/// where it was.
pub open spec fn resumes(prev: Option<Prev>, file: Seq<u8>) -> bool {
    match tail_of(prev, file.len() as int) {
        Some((off, len, crc)) => 0 <= off && off + len <= file.len() && hashes_to(
            file.subrange(off as int, off + len),
            crc as int,
        ),
        None => false,
    }
}

/// The scan of a file of which the index holds `prev`.
pub open spec fn file_scan(path: Seq<char>, file: Seq<u8>, sid: int, prev: Option<Prev>) -> ScannedV {
    let resume = resumes(prev, file);
    scan_of(
        path,
        file.skip(origin_of(resume, prev).0),
        file.len() as int,
        sid,
        resume,
        prev,
    )
}

/// The index follows a file. It held the whole lines `held` of it; now the file
/// is `file`. Where `file` still starts with `held`, or its last indexed record
/// is no longer there, the index then holds a scan of `file`, though it may have
/// read the end alone.
pub proof fn law_index_follows_file(
    ix: IndexV,
    path: Seq<char>,
    sid: int,
    held: Seq<u8>,
    file: Seq<u8>,
    prev: Option<Prev>,
    next: int,
)
    requires
        extract::whole_lines(held),
        holds(ix, sid, extract::scanned(held, 0)),
        prev matches Some(p) ==> p.cursor == held.len() && p.n_ev == extract::scanned(
            held,
            0,
        ).rows.len(),
        text::starts_with(file, held) || !resumes(prev, file),
        free_from(base_of(ix, file_scan(path, file, sid, prev)), next),
    ensures
        holds(
            applied(ix, file_scan(path, file, sid, prev), next),
            sid,
            extract::scanned(file, 0),
        ),
{
    let s = file_scan(path, file, sid, prev);
    let before = extract::scanned(held, 0);
    extract::law_rejects_in_order(file, 0);
    if resumes(prev, file) {
        let b = file.skip(held.len() as int);
        assert(held + b =~= file) by {
            assert(file.subrange(0, held.len() as int) == held);
        }
        extract::law_scan_resumes(held, b, 0);
        assert(s.scan == extract::scanned(b, held.len() as int));
        assert(extract::scanned(file, 0) == extract::scan_then(before, s.scan));
        assert(before.rejects + s.scan.rejects == extract::scanned(file, 0).rejects);
        law_resumed_scan_extends(ix, s, next, before);
    } else {
        assert(file.skip(0) =~= file);
        assert(s.scan == extract::scanned(file, 0));
        law_fresh_scan_replaces(ix, s, next);
    }
}

/// An append is resumed: where the index holds the last record of some whole
/// lines, and more was appended to them, the scan goes on behind them.
pub proof fn law_append_resumes(held: Seq<u8>, more: Seq<u8>, p: Prev)
    requires
        extract::whole_lines(held),
        extract::scanned(held, 0).rows.len() > 0,
        p.cursor == held.len(),
        p.n_ev == extract::scanned(held, 0).rows.len(),
        p.tail matches Some((off, len, crc)) && ({
            let r = extract::scanned(held, 0).rows.last();
            off == r.off && len == r.len && crc == r.hash
        }),
    ensures
        resumes(Some(p), held + more),
        origin_of(resumes(Some(p), held + more), Some(p)) == (
            held.len() as int,
            extract::scanned(held, 0).rows.len() as int,
            false,
        ),
{
    let rows = extract::scanned(held, 0).rows;
    let r = rows.last();
    extract::law_rows_read_back(held, 0);
    assert(extract::reads_back(held, 0, rows[rows.len() - 1]));
    assert((held + more).subrange(r.off, r.off + r.len) =~= held.subrange(r.off, r.off + r.len));
}

// ---------------------------------------------------------------------------
// Dumping
// ---------------------------------------------------------------------------

/// How a dump went: how many records could not be read, and why the first could
/// not.
#[derive(Debug)]
pub struct Dump {
    pub skipped: usize,
    pub first: String,
}

impl Dump {
    /// A dump that has met no record yet.
    pub fn new() -> (r: Dump)
        ensures
            r.skipped == 0,
            r.first@ == Seq::<char>::empty(),
    {
        Dump { skipped: 0, first: String::new() }
    }

    /// What a dump writes for a record: the bytes that were read, as they are.
    /// A record that could not be read is noted.
    pub fn record(&mut self, read: Result<Vec<u8>, String>) -> (r: Option<Vec<u8>>)
        requires
            old(self).skipped < usize::MAX,
        ensures
            match read {
                Ok(b) => r == Some(b) && *final(self) == *old(self),
                Err(why) => {
                    &&& r is None
                    &&& final(self).skipped == old(self).skipped + 1
                    &&& final(self).first@ == if old(self).skipped == 0 {
                        why@
                    } else {
                        old(self).first@
                    }
                },
            },
    {
        match read {
            Ok(b) => Some(b),
            Err(why) => {
                if self.skipped == 0 {
                    self.first = why;
                }
                self.skipped += 1;
                None
            },
        }
    }

    /// A dump that left out a record has failed.
    pub fn finish(&self) -> (r: Result<(), String>)
        ensures
            match r {
                Ok(()) => self.skipped == 0,
                Err(e) => self.skipped > 0 && e@ == text::dec(self.skipped as nat)
                    + " records unreadable; first: "@ + self.first@,
            },
    {
        if self.skipped == 0 {
            return Ok(());
        }
        let mut e = String::new();
        text::push_usize(&mut e, self.skipped);
        assert(e@ =~= text::dec(self.skipped as nat));
        e.append(" records unreadable; first: ");
        e.append(self.first.as_str());
        Err(e)
    }
}

/// The dump of some rows of a log that starts at offset `off`.
pub open spec fn dumped(b: Seq<u8>, off: int, rows: Seq<RowV>) -> Seq<u8>
    decreases rows.len(),
{
    if rows.len() == 0 {
        Seq::empty()
    } else {
        let r = rows[0];
        b.subrange(r.off - off, r.off - off + r.len) + dumped(b, off, rows.drop_first())
    }
}

/// The lines of a log that became rows.
pub open spec fn row_lines(b: Seq<u8>, off: int) -> Seq<u8>
    decreases b.len(),
{
    match extract::newline(b) {
        None => Seq::empty(),
        Some(k) => if 0 <= k < b.len() {
            let line = b.take(k + 1);
            let rest = row_lines(b.skip(k + 1), off + k + 1);
            if extract::line_outcome(line, off) is Row {
                line + rest
            } else {
                rest
            }
        } else {
            Seq::empty()
        },
    }
}

/// Every line became a row.
pub open spec fn all_rows(b: Seq<u8>, off: int) -> bool
    decreases b.len(),
{
    match extract::newline(b) {
        None => true,
        Some(k) => 0 <= k < b.len() && extract::line_outcome(b.take(k + 1), off) is Row
            && all_rows(b.skip(k + 1), off + k + 1),
    }
}

proof fn lemma_dump_shift(b: Seq<u8>, off: int, n: int, rows: Seq<RowV>)
    requires
        0 <= n <= b.len(),
        forall|i: int|
            0 <= i < rows.len() ==> extract::reads_back(b.skip(n), off + n, #[trigger] rows[i]),
    ensures
        dumped(b, off, rows) == dumped(b.skip(n), off + n, rows),
    decreases rows.len(),
{
    if rows.len() > 0 {
        let r = rows[0];
        assert(extract::reads_back(b.skip(n), off + n, r));
        let at = r.off - off;
        assert(b.skip(n).subrange(at - n, at - n + r.len) =~= b.subrange(at, at + r.len));
        let t = rows.drop_first();
        assert forall|i: int| 0 <= i < t.len() implies extract::reads_back(
            b.skip(n),
            off + n,
            #[trigger] t[i],
        ) by {
            assert(t[i] == rows[i + 1]);
        }
        lemma_dump_shift(b, off, n, t);
    }
}

/// A dump gives back every line that became a row, in order, byte for byte.
pub proof fn law_dump(b: Seq<u8>, off: int)
    ensures
        dumped(b, off, extract::scanned(b, off).rows) == row_lines(b, off),
    decreases b.len(),
{
    extract::lemma_newline(b);
    match extract::newline(b) {
        None => {},
        Some(k) => {
            let line = b.take(k + 1);
            let t = b.skip(k + 1);
            let rest = extract::scanned(t, off + k + 1).rows;
            let rows = extract::scanned(b, off).rows;
            law_dump(t, off + k + 1);
            extract::law_rows_read_back(t, off + k + 1);
            lemma_dump_shift(b, off, k + 1, rest);
            if extract::line_outcome(line, off) is Row {
                assert(rows.drop_first() =~= rest);
                assert(b.subrange(0, k + 1) =~= line);
                assert(rows[0].off == off && rows[0].len == k + 1);
            } else {
                assert(rows =~= rest);
            }
        },
    }
}

/// The dump of a log whose every line became a row is the log, byte for byte.
pub proof fn law_dump_identical(b: Seq<u8>, off: int)
    requires
        extract::whole_lines(b),
        all_rows(b, off),
    ensures
        dumped(b, off, extract::scanned(b, off).rows) == b,
{
    law_dump(b, off);
    lemma_all_rows(b, off);
}

proof fn lemma_all_rows(b: Seq<u8>, off: int)
    requires
        extract::whole_lines(b),
        all_rows(b, off),
    ensures
        row_lines(b, off) == b,
    decreases b.len(),
{
    extract::lemma_newline(b);
    match extract::newline(b) {
        None => {
            if b.len() > 0 {
                assert(b[b.len() - 1] == 0x0a);
            }
            assert(b =~= Seq::empty());
        },
        Some(k) => {
            let t = b.skip(k + 1);
            assert(t.len() > 0 ==> t.last() == b.last());
            lemma_all_rows(t, off + k + 1);
            assert(b.take(k + 1) + t =~= b);
        },
    }
}

// ---------------------------------------------------------------------------
// One synchronisation after another
// ---------------------------------------------------------------------------

/// The index holds a scan of the whole lines `held`, and the session's own row
/// says where they end and how many rows they gave.
pub open spec fn tracks(ix: IndexV, sid: int, held: Seq<u8>) -> bool {
    &&& extract::whole_lines(held)
    &&& holds(ix, sid, extract::scanned(held, 0))
    &&& ix.run.contains_key(sid)
    &&& ix.run[sid].cursor == held.len()
    &&& ix.run[sid].n_ev == extract::scanned(held, 0).rows.len()
}

/// The index has caught up with a file: it tracks whole lines that the file
/// starts with, and what follows them gives no row and no reject. Where no line
/// gave a row, the session's own row also says how long the file is, and the
/// lines are all that are whole.
pub open spec fn caught_up(ix: IndexV, sid: int, file: Seq<u8>) -> bool {
    exists|now: Seq<u8>| #[trigger]
        tracks(ix, sid, now) && text::starts_with(file, now) && extract::scanned(now, 0).rows
            == extract::scanned(file, 0).rows && extract::scanned(now, 0).rejects
            == extract::scanned(file, 0).rejects && (extract::scanned(file, 0).rows.len() == 0
            ==> ix.run[sid].size == file.len() && extract::scanned(file, 0).end == now.len())
}

/// What is known of a session before it is scanned: its own row, and the row of
/// its last record.
pub open spec fn knows(p: Prev, ix: IndexV, sid: int) -> bool {
    &&& p.sid == sid
    &&& p.cursor == ix.run[sid].cursor
    &&& p.n_ev == ix.run[sid].n_ev
    &&& match p.tail {
        Some((off, len, crc)) => {
            let r = ix.ev[(sid, p.n_ev - 1)];
            ix.ev.contains_key((sid, p.n_ev - 1)) && off == r.off && len == r.len && crc == r.hash
        },
        None => !ix.ev.contains_key((sid, p.n_ev - 1)),
    }
}

/// An id above all that are in use is free, and so are those after it.
pub proof fn law_next_is_free(ix: IndexV, s: ScannedV, next: int)
    requires
        in_step(ix),
        forall|r: int| #[trigger] base_of(ix, s).ftx_map.contains_key(r) ==> r < next,
    ensures
        free_from(base_of(ix, s), next),
{
    law_forget(ix, s.sid);
    let a = base_of(ix, s);
    assert forall|r: int| #[trigger] a.ftx.contains_key(r) implies r < next by {
        assert(a.ftx_map.contains_key(r));
    }
}

/// Whatever is done to a file between two synchronisations, as long as the last
/// record tells whether what was held of it still stands, the index goes on
/// tracking it: it has caught up with the file as it is, in a state that the next
/// synchronisation can go on from.
pub proof fn law_index_goes_on(
    ix: IndexV,
    path: Seq<char>,
    sid: int,
    held: Seq<u8>,
    file: Seq<u8>,
    p: Prev,
    next: int,
)
    requires
        tracks(ix, sid, held),
        knows(p, ix, sid),
        text::starts_with(file, held) || !resumes(Some(p), file),
        in_step(ix),
        free_from(base_of(ix, file_scan(path, file, sid, Some(p))), next),
    ensures
        ({
            let after = applied(ix, file_scan(path, file, sid, Some(p)), next);
            &&& in_step(after)
            &&& caught_up(after, sid, file)
        }),
{
    let s = file_scan(path, file, sid, Some(p));
    let after = applied(ix, s, next);
    let before = extract::scanned(held, 0);
    let all = extract::scanned(file, 0);
    law_stays_in_step(ix, s, next);
    law_index_follows_file(ix, path, sid, held, file, Some(p), next);
    if resumes(Some(p), file) {
        let b = file.skip(held.len() as int);
        assert(held + b =~= file) by {
            assert(file.subrange(0, held.len() as int) == held);
        }
        extract::law_scan_resumes(held, b, 0);
        assert(s.scan == extract::scanned(b, held.len() as int));
        assert(all == extract::scan_then(before, s.scan));
        if plan_of(s) is None {
            assert(all.rows =~= before.rows);
            assert(all.rejects =~= before.rejects);
            assert(tracks(after, sid, held));
        }
    } else {
        assert(file.skip(0) =~= file);
        assert(s.scan == all);
    }
    if plan_of(s) is Some {
        let now = file.take(all.end);
        extract::law_scan_covers_whole_lines(file, 0);
        assert(file.subrange(0, now.len() as int) =~= now);
        assert(tracks(after, sid, now));
    }
}

/// A new session is tracked from its first scan on.
pub proof fn law_index_begins(
    ix: IndexV,
    path: Seq<char>,
    sid: int,
    file: Seq<u8>,
    next: int,
)
    requires
        holds(ix, sid, nothing()),
        ix.run.contains_key(sid),
        ix.run[sid].cursor == 0,
        ix.run[sid].n_ev == 0,
        in_step(ix),
        free_from(base_of(ix, file_scan(path, file, sid, None)), next),
    ensures
        ({
            let after = applied(ix, file_scan(path, file, sid, None), next);
            &&& in_step(after)
            &&& caught_up(after, sid, file)
        }),
{
    let s = file_scan(path, file, sid, None);
    let after = applied(ix, s, next);
    let all = extract::scanned(file, 0);
    let none = Seq::<u8>::empty();
    assert(extract::scanned(none, 0).rows =~= nothing().rows);
    assert(extract::scanned(none, 0).rejects =~= nothing().rejects);
    assert(tracks(ix, sid, none));
    law_stays_in_step(ix, s, next);
    law_index_follows_file(ix, path, sid, none, file, None, next);
    assert(file.skip(0) =~= file);
    let now = file.take(all.end);
    extract::law_scan_covers_whole_lines(file, 0);
    assert(file.subrange(0, now.len() as int) =~= now);
    assert(tracks(after, sid, now));
}

/// A synchronisation after which the file has not changed is followed by one that
/// finds no row and leaves the index as it is.
pub proof fn law_second_sync_changes_nothing(
    ix: IndexV,
    path: Seq<char>,
    sid: int,
    file: Seq<u8>,
    p: Prev,
    next: int,
)
    requires
        caught_up(ix, sid, file),
        knows(p, ix, sid),
    ensures
        file_scan(path, file, sid, Some(p)).scan.rows.len() == 0,
        applied(ix, file_scan(path, file, sid, Some(p)), next) == ix,
{
    let s = file_scan(path, file, sid, Some(p));
    let all = extract::scanned(file, 0);
    let now = choose|now: Seq<u8>| #[trigger]
        tracks(ix, sid, now) && text::starts_with(file, now) && extract::scanned(now, 0).rows
            == all.rows && extract::scanned(now, 0).rejects == all.rejects && (all.rows.len() == 0
            ==> ix.run[sid].size == file.len() && all.end == now.len());
    let more = file.skip(now.len() as int);
    assert(now + more =~= file) by {
        assert(file.subrange(0, now.len() as int) == now);
    }
    if all.rows.len() > 0 {
        let n = all.rows.len() - 1;
        assert(ix.ev.contains_key((sid, n)));
        assert(ix.ev[(sid, n)] == columns(all.rows[n]));
        extract::law_rows_read_back(now, 0);
        assert(extract::reads_back(now, 0, all.rows[n]));
        law_append_resumes(now, more, p);
        extract::law_scan_resumes(now, more, 0);
        assert(s.scan == extract::scanned(more, now.len() as int));
        assert(s.scan.rows.len() == 0);
        assert(s.scan.rejects.len() == 0);
    } else {
        assert(file.skip(0) =~= file);
        extract::law_rejects_in_order(file, 0);
        lemma_same_again(ix, s, next);
    }
}

/// A scan from the start of a file that gives no row, and the rejects that the
/// index holds already, changes nothing.
proof fn lemma_same_again(ix: IndexV, s: ScannedV, next: int)
    requires
        s.fresh,
        s.base_seq == 0,
        s.scan.rows.len() == 0,
        holds(ix, s.sid, s.scan),
        distinct_offsets(s.scan.rejects),
        ix.run.contains_key(s.sid),
        ix.run[s.sid] == (RunV { size: s.size, cursor: s.scan.end, n_ev: 0 }),
    ensures
        applied(ix, s, next) == ix,
{
    let a = forgotten(ix, s.sid);
    let b = applied(ix, s, next);
    let p = plan_of(s)->0;
    assert forall|i: int, j: int| 0 <= i < j < p.rejects.len() implies (#[trigger] p.rejects[i]).0
        != (#[trigger] p.rejects[j]).0 by {
        assert(p.rejects[i].0 == s.scan.rejects[i].0);
        assert(p.rejects[j].0 == s.scan.rejects[j].0);
    }
    lemma_put_rejects(a.reject, s.sid, p.rejects);
    assert(b.ev =~= ix.ev) by {
        assert(b.ev == a.ev);
        assert forall|k: (int, int)| #[trigger] ix.ev.contains_key(k) implies k.0 != s.sid by {
            if k.0 == s.sid {
                assert(ix.ev.contains_key((s.sid, k.1)));
            }
        }
    }
    assert(b.ftx_map =~= ix.ftx_map);
    assert(b.ftx =~= ix.ftx);
    assert(b.run =~= ix.run);
    assert(b.reject =~= ix.reject) by {
        assert forall|k: (int, int)|
            #![trigger b.reject.contains_key(k)]
            #![trigger ix.reject.contains_key(k)]
            #![trigger b.reject[k]]
            (b.reject.contains_key(k) <==> ix.reject.contains_key(k)) && (ix.reject.contains_key(k)
                ==> b.reject[k] == ix.reject[k]) by {
            if k.0 == s.sid {
                if b.reject.contains_key(k) {
                    let i = choose|i: int|
                        0 <= i < p.rejects.len() && (#[trigger] p.rejects[i]).0 == k.1;
                    assert(s.scan.rejects[i].0 == k.1);
                }
                if ix.reject.contains_key((s.sid, k.1)) {
                    let i = choose|i: int|
                        0 <= i < s.scan.rejects.len() && (#[trigger] s.scan.rejects[i]).0 == k.1;
                    assert(p.rejects[i].0 == k.1);
                }
            } else {
                assert(a.reject.contains_key(k) == ix.reject.contains_key(k));
            }
        }
    }
}

/// What happens to one session leaves every other where it was: one that has
/// caught up with its file has still done so.
pub proof fn law_others_stay_caught_up(
    ix: IndexV,
    s: ScannedV,
    next: int,
    other: int,
    file: Seq<u8>,
)
    requires
        other != s.sid,
        caught_up(ix, other, file),
        free_from(base_of(ix, s), next),
        distinct_offsets(s.scan.rejects),
    ensures
        caught_up(applied(ix, s, next), other, file),
{
    let all = extract::scanned(file, 0);
    let now = choose|now: Seq<u8>| #[trigger]
        tracks(ix, other, now) && text::starts_with(file, now) && extract::scanned(now, 0).rows
            == all.rows && extract::scanned(now, 0).rejects == all.rejects && (all.rows.len() == 0
            ==> ix.run[other].size == file.len() && all.end == now.len());
    law_other_sessions_stay(ix, s, next, other, extract::scanned(now, 0));
    assert(tracks(applied(ix, s, next), other, now));
}

/// A session is settled: a scan of its file, as it is, would find nothing that
/// the index does not hold. Either the last row is still where it was and
/// nothing is left behind the cursor, or the file gives no row and the index
/// holds just its rejects.
pub open spec fn settled(ix: IndexV, sid: int, file: Seq<u8>) -> bool {
    let run = ix.run[sid];
    let r = ix.ev[(sid, run.n_ev - 1)];
    let rest = extract::scanned(file.skip(run.cursor), run.cursor);
    let all = extract::scanned(file, 0);
    &&& ix.run.contains_key(sid)
    &&& {
        ||| {
            &&& run.n_ev > 0
            &&& 0 <= run.cursor <= file.len()
            &&& ix.ev.contains_key((sid, run.n_ev - 1))
            &&& 0 < r.len <= MAX_TAIL
            &&& 0 <= r.off
            &&& r.off + r.len <= file.len()
            &&& hashes_to(file.subrange(r.off, r.off + r.len), r.hash)
            &&& rest.rows.len() == 0
            &&& rest.rejects.len() == 0
        }
        ||| {
            &&& all.rows.len() == 0
            &&& holds(ix, sid, all)
            &&& run == (RunV { size: file.len() as int, cursor: all.end, n_ev: 0 })
        }
    }
}

/// Scanning the file of a settled session finds no row and changes nothing.
pub proof fn law_settled_stays(
    ix: IndexV,
    path: Seq<char>,
    sid: int,
    file: Seq<u8>,
    p: Prev,
    next: int,
)
    requires
        settled(ix, sid, file),
        knows(p, ix, sid),
    ensures
        file_scan(path, file, sid, Some(p)).scan.rows.len() == 0,
        applied(ix, file_scan(path, file, sid, Some(p)), next) == ix,
{
    let s = file_scan(path, file, sid, Some(p));
    if ix.run[sid].n_ev > 0 {
        assert(resumes(Some(p), file));
    } else {
        assert(file.skip(0) =~= file);
        extract::law_rejects_in_order(file, 0);
        lemma_same_again(ix, s, next);
    }
}

/// Nothing follows the end of a scan.
proof fn lemma_nothing_left(file: Seq<u8>, from: int)
    requires
        0 <= from <= file.len(),
    ensures
        ({
            let end = extract::scanned(file.skip(from), from).end;
            &&& from <= end <= file.len()
            &&& extract::scanned(file.skip(end), end).rows.len() == 0
            &&& extract::scanned(file.skip(end), end).rejects.len() == 0
        }),
{
    let b = file.skip(from);
    let end = extract::scanned(b, from).end;
    extract::law_scan_covers_whole_lines(b, from);
    let t = file.skip(end);
    extract::lemma_newline(t);
    assert forall|j: int| 0 <= j < t.len() implies t[j] != 0x0a by {
        assert(t[j] == b[end - from + j]);
    }
}

/// A scan of a file settles its session, whatever was done to the file before.
pub proof fn law_scan_settles(
    ix: IndexV,
    path: Seq<char>,
    sid: int,
    file: Seq<u8>,
    prev: Option<Prev>,
    next: int,
)
    requires
        ix.run.contains_key(sid),
        ix.run[sid].cursor >= 0,
        prev matches Some(p) ==> knows(p, ix, sid),
        free_from(base_of(ix, file_scan(path, file, sid, prev)), next),
    ensures
        settled(applied(ix, file_scan(path, file, sid, prev), next), sid, file),
{
    let s = file_scan(path, file, sid, prev);
    let after = applied(ix, s, next);
    let rows = s.scan.rows;
    if resumes(prev, file) {
        let p = prev->0;
        let from = p.cursor as int;
        let b = file.skip(from);
        lemma_nothing_left(file, from);
        if plan_of(s) is Some {
            lemma_put_events(ix.ev, sid, rows, plan_of(s)->0.events, s.base_seq);
            if rows.len() > 0 {
                let n = rows.len() - 1;
                extract::law_rows_read_back(b, from);
                assert(extract::reads_back(b, from, rows[n]));
                assert(b.subrange(rows[n].off - from, rows[n].off - from + rows[n].len)
                    =~= file.subrange(rows[n].off, rows[n].off + rows[n].len));
                assert(after.ev.contains_key((sid, s.base_seq + n)));
                assert(after.ev[(sid, s.base_seq + n)] == columns(rows[n]));
            } else {
                assert(after.ev.contains_key((sid, p.n_ev - 1)));
                assert(after.ev[(sid, p.n_ev - 1)] == ix.ev[(sid, p.n_ev - 1)]);
            }
        }
    } else {
        assert(file.skip(0) =~= file);
        extract::law_rejects_in_order(file, 0);
        law_fresh_scan_replaces(ix, s, next);
        lemma_nothing_left(file, 0);
        if rows.len() > 0 {
            let n = rows.len() - 1;
            extract::law_rows_read_back(file, 0);
            assert(extract::reads_back(file, 0, rows[n]));
            assert(after.ev.contains_key((sid, n)));
            assert(after.ev[(sid, n)] == columns(rows[n]));
        }
    }
}

/// What a scan does to one session leaves the rows and the own row of every other
/// as they were.
proof fn lemma_others(ix: IndexV, s: ScannedV, next: int, other: int)
    requires
        other != s.sid,
    ensures
        ({
            let after = applied(ix, s, next);
            &&& after.run.contains_key(other) == ix.run.contains_key(other)
            &&& after.run[other] == ix.run[other]
            &&& forall|q: int| #[trigger]
                after.ev.contains_key((other, q)) == ix.ev.contains_key((other, q))
            &&& forall|q: int|
                ix.ev.contains_key((other, q)) ==> #[trigger] after.ev[(other, q)] == ix.ev[(
                    other,
                    q,
                )]
        }),
{
    if plan_of(s) is Some {
        let a = base_of(ix, s);
        lemma_put_events(a.ev, s.sid, s.scan.rows, plan_of(s)->0.events, s.base_seq);
        let after = applied(ix, s, next);
        assert forall|q: int| #[trigger]
            after.ev.contains_key((other, q)) == ix.ev.contains_key((other, q)) by {
            assert(a.ev.contains_key((other, q)) == ix.ev.contains_key((other, q)));
        }
        assert forall|q: int| ix.ev.contains_key((other, q)) implies #[trigger] after.ev[(
            other,
            q,
        )] == ix.ev[(other, q)] by {
            assert(after.ev.contains_key((other, q)));
        }
    }
}

/// A scan of one file leaves every other session as settled, and as known, as it
/// was.
pub proof fn law_others_stay_settled(ix: IndexV, s: ScannedV, next: int, other: int)
    requires
        other != s.sid,
        free_from(base_of(ix, s), next),
        distinct_offsets(s.scan.rejects),
    ensures
        forall|file: Seq<u8>| #[trigger]
            settled(ix, other, file) ==> settled(applied(ix, s, next), other, file),
        forall|p: Prev| #[trigger]
            knows(p, ix, other) ==> knows(p, applied(ix, s, next), other),
{
    let after = applied(ix, s, next);
    lemma_others(ix, s, next, other);
    assert forall|file: Seq<u8>| #[trigger] settled(ix, other, file) implies settled(
        after,
        other,
        file,
    ) by {
        let all = extract::scanned(file, 0);
        if holds(ix, other, all) {
            law_other_sessions_stay(ix, s, next, other, all);
        }
        assert(after.ev.contains_key((other, ix.run[other].n_ev - 1)) == ix.ev.contains_key(
            (other, ix.run[other].n_ev - 1),
        ));
    }
    assert forall|p: Prev| #[trigger] knows(p, ix, other) implies knows(p, after, other) by {
        assert(after.ev.contains_key((other, p.n_ev - 1)) == ix.ev.contains_key(
            (other, p.n_ev - 1),
        ));
    }
}

/// The index after some scans have been applied to it, one after another, each
/// with the first free id of its documents.
pub open spec fn applied_all(ix: IndexV, scans: Seq<(ScannedV, int)>) -> IndexV
    decreases scans.len(),
{
    if scans.len() == 0 {
        ix
    } else {
        applied(applied_all(ix, scans.drop_last()), scans.last().0, scans.last().1)
    }
}

/// A file that is synchronised, with the number of its session.
pub struct Source {
    pub path: Seq<char>,
    pub sid: int,
    pub file: Seq<u8>,
}

/// The scans of some files of which the index holds `prevs`, in the order in
/// which they arrive.
pub open spec fn scans_of(
    sources: Seq<Source>,
    prevs: Seq<Option<Prev>>,
    nexts: Seq<int>,
) -> Seq<(ScannedV, int)> {
    Seq::new(
        sources.len(),
        |k: int|
            (file_scan(sources[k].path, sources[k].file, sources[k].sid, prevs[k]), nexts[k]),
    )
}

/// Every session is there, with what is known of it, and no two have the same
/// number.
pub open spec fn sessions_known(
    ix: IndexV,
    sources: Seq<Source>,
    prevs: Seq<Option<Prev>>,
) -> bool {
    &&& prevs.len() == sources.len()
    &&& forall|a: int, b: int|
        0 <= a < b < sources.len() ==> (#[trigger] sources[a]).sid != (#[trigger] sources[b]).sid
    &&& forall|k: int|
        0 <= k < sources.len() ==> {
            &&& ix.run.contains_key((#[trigger] sources[k]).sid)
            &&& ix.run[sources[k].sid].cursor >= 0
            &&& prevs[k] matches Some(p) ==> knows(p, ix, sources[k].sid)
        }
}

/// Each scan comes with the first of some free ids for its documents.
pub open spec fn ids_free(ix: IndexV, scans: Seq<(ScannedV, int)>) -> bool {
    forall|k: int|
        0 <= k < scans.len() ==> free_from(
            base_of(applied_all(ix, scans.take(k)), (#[trigger] scans[k]).0),
            scans[k].1,
        )
}

/// The first `n` scans of a synchronisation have settled their sessions, and the
/// others are known as before.
#[verifier::spinoff_prover]
#[verifier::rlimit(60)]
proof fn lemma_first_sync(
    ix: IndexV,
    sources: Seq<Source>,
    prevs: Seq<Option<Prev>>,
    nexts: Seq<int>,
    n: int,
)
    requires
        sessions_known(ix, sources, prevs),
        ids_free(ix, scans_of(sources, prevs, nexts)),
        0 <= n <= sources.len(),
    ensures
        ({
            let mid = applied_all(ix, scans_of(sources, prevs, nexts).take(n));
            &&& forall|k: int|
                0 <= k < n ==> settled(mid, (#[trigger] sources[k]).sid, sources[k].file)
            &&& forall|k: int|
                n <= k < sources.len() ==> {
                    &&& mid.run.contains_key((#[trigger] sources[k]).sid)
                    &&& mid.run[sources[k].sid].cursor >= 0
                    &&& prevs[k] matches Some(p) ==> knows(p, mid, sources[k].sid)
                }
        }),
    decreases n,
{
    let scans = scans_of(sources, prevs, nexts);
    if n == 0 {
        assert(scans.take(0) =~= Seq::empty());
    } else {
        let m = n - 1;
        lemma_first_sync(ix, sources, prevs, nexts, m);
        let before = applied_all(ix, scans.take(m));
        let mid = applied_all(ix, scans.take(n));
        assert(scans.take(n).drop_last() =~= scans.take(m));
        assert(scans.take(n).last() == scans[m]);
        let s = scans[m].0;
        let next = scans[m].1;
        let src = sources[m];
        law_scan_settles(before, src.path, src.sid, src.file, prevs[m], next);
        assert(distinct_offsets(s.scan.rejects)) by {
            let from = origin_of(resumes(prevs[m], src.file), prevs[m]).0;
            extract::law_rejects_in_order(src.file.skip(from), from);
        }
        assert forall|k: int| 0 <= k < n implies settled(
            mid,
            (#[trigger] sources[k]).sid,
            sources[k].file,
        ) by {
            if k < m {
                assert(sources[k].sid != sources[m].sid);
                law_others_stay_settled(before, s, next, sources[k].sid);
                assert(settled(before, sources[k].sid, sources[k].file));
            }
        }
        assert forall|k: int| n <= k < sources.len() implies {
            &&& mid.run.contains_key((#[trigger] sources[k]).sid)
            &&& mid.run[sources[k].sid].cursor >= 0
            &&& prevs[k] matches Some(p) ==> knows(p, mid, sources[k].sid)
        } by {
            assert(sources[m].sid != sources[k].sid);
            law_others_stay_settled(before, s, next, sources[k].sid);
            lemma_others(before, s, next, sources[k].sid);
            if let Some(p) = prevs[k] {
                assert(knows(p, before, sources[k].sid));
            }
        }
    }
}

/// A scan is that of one of some files, by what the index knows of it.
pub open spec fn rescans(ix: IndexV, s: ScannedV, sources: Seq<Source>) -> bool {
    exists|k: int, p: Prev|
        0 <= k < sources.len() && #[trigger] knows(p, ix, (#[trigger] sources[k]).sid) && s
            == file_scan(sources[k].path, sources[k].file, sources[k].sid, Some(p))
}

proof fn lemma_rescans(ix: IndexV, sources: Seq<Source>, scans: Seq<(ScannedV, int)>)
    requires
        forall|k: int|
            0 <= k < sources.len() ==> settled(ix, (#[trigger] sources[k]).sid, sources[k].file),
        forall|j: int| 0 <= j < scans.len() ==> rescans(ix, (#[trigger] scans[j]).0, sources),
    ensures
        applied_all(ix, scans) == ix,
        forall|j: int| 0 <= j < scans.len() ==> (#[trigger] scans[j]).0.scan.rows.len() == 0,
    decreases scans.len(),
{
    if scans.len() > 0 {
        let d = scans.drop_last();
        let n = scans.len() - 1;
        assert forall|j: int| 0 <= j < d.len() implies rescans(
            ix,
            (#[trigger] d[j]).0,
            sources,
        ) by {
            assert(d[j] == scans[j]);
        }
        lemma_rescans(ix, sources, d);
        let s = scans[n].0;
        assert(rescans(ix, s, sources));
        let (k, p) = choose|k: int, p: Prev|
            0 <= k < sources.len() && #[trigger] knows(p, ix, (#[trigger] sources[k]).sid) && s
                == file_scan(sources[k].path, sources[k].file, sources[k].sid, Some(p));
        law_settled_stays(ix, sources[k].path, sources[k].sid, sources[k].file, p, scans[n].1);
        assert forall|j: int| 0 <= j < scans.len() implies (
        #[trigger] scans[j]).0.scan.rows.len() == 0 by {
            if j < n {
                assert(d[j] == scans[j]);
            }
        }
    }
}

/// Synchronising twice is synchronising once. Whatever the index held and
/// whatever was done to the files before, after all of them have been scanned a
/// second synchronisation of the same files finds no row and leaves the whole
/// index as it is, in whatever order the scans of either arrive.
pub proof fn law_second_sync_of_all(
    ix: IndexV,
    sources: Seq<Source>,
    prevs: Seq<Option<Prev>>,
    nexts: Seq<int>,
    second: Seq<(ScannedV, int)>,
)
    requires
        sessions_known(ix, sources, prevs),
        ids_free(ix, scans_of(sources, prevs, nexts)),
        forall|j: int|
            0 <= j < second.len() ==> rescans(
                applied_all(ix, scans_of(sources, prevs, nexts)),
                (#[trigger] second[j]).0,
                sources,
            ),
    ensures
        ({
            let first = scans_of(sources, prevs, nexts);
            &&& applied_all(applied_all(ix, first), second) == applied_all(ix, first)
            &&& forall|j: int|
                0 <= j < second.len() ==> (#[trigger] second[j]).0.scan.rows.len() == 0
        }),
{
    let first = scans_of(sources, prevs, nexts);
    lemma_first_sync(ix, sources, prevs, nexts, sources.len() as int);
    assert(first.take(sources.len() as int) =~= first);
    lemma_rescans(applied_all(ix, first), sources, second);
}

// ---------------------------------------------------------------------------
// Names and walks
// ---------------------------------------------------------------------------

/// The name of a session is the path of its file below the root, without the
/// ending; and so two files below a root have two names.
#[verifier::spinoff_prover]
#[verifier::rlimit(60)]
pub proof fn law_session_name(root: Seq<Seq<char>>, dirs: Seq<Seq<char>>, stem: Seq<char>)
    requires
        forall|i: int| 0 <= i < dirs.len() ==> text::free_of(#[trigger] dirs[i], '/'),
        text::free_of(stem, '/'),
    ensures
        ({
            let name = session_name(root + dirs.push(stem + ".jsonl"@), root);
            &&& text::parts(name, '/') == dirs.push(stem)
            &&& name == text::join(dirs.push(stem), "/"@)
        }),
{
    let file = stem + ".jsonl"@;
    let path = root + dirs.push(file);
    let sep = "/"@;
    let x = ".jsonl"@;
    reveal_strlit("/");
    assert("/"@ =~= seq!['/']);
    assert(path.subrange(0, root.len() as int) =~= root);
    assert(path.skip(root.len() as int) =~= dirs.push(file));
    text::law_join_appends(dirs, file, sep);
    text::law_join_appends(dirs, stem, sep);
    let whole = text::join(dirs.push(file), sep);
    let name = text::join(dirs.push(stem), sep);
    if dirs.len() == 0 {
        assert(dirs =~= Seq::empty());
        assert(dirs.push(file) =~= seq![file]);
        assert(dirs.push(stem) =~= seq![stem]);
    }
    assert(whole =~= name + x);
    assert(whole.subrange(whole.len() - x.len(), whole.len() as int) =~= x);
    assert(whole.take(whole.len() - x.len()) =~= name);
    let ps = dirs.push(stem);
    assert forall|i: int| 0 <= i < ps.len() implies text::free_of(#[trigger] ps[i], '/') by {
        if i < dirs.len() {
            assert(ps[i] == dirs[i]);
        }
    }
    text::law_join_comes_apart(ps, '/');
}

/// A walk enters every directory and takes every file of a session; what is
/// hidden, and what a link points at, it leaves alone.
#[verifier::spinoff_prover]
#[verifier::rlimit(60)]
pub proof fn law_walk(stem: Seq<char>, name: Seq<char>, entry: Entry)
    ensures
        visit("."@ + name, entry) == Visit::Skip,
        visit(name, Entry::Symlink) == Visit::Skip,
        name.len() > 0 && name[0] != '.' ==> visit(name, Entry::Dir) == Visit::Descend,
        stem.len() > 0 && stem[0] != '.' ==> visit(stem + ".jsonl"@, Entry::Other) == Visit::Take,
        visit(name, entry) == Visit::Take ==> entry == Entry::Other && text::ends_with(
            name,
            ".jsonl"@,
        ),
        visit(name, entry) == Visit::Descend ==> entry == Entry::Dir,
{
    reveal_strlit(".");
    let hidden = "."@ + name;
    assert(hidden.subrange(0, 1) =~= "."@);
    if name.len() > 0 && text::starts_with(name, "."@) {
        assert(name.subrange(0, 1)[0] == '.');
    }
    let f = stem + ".jsonl"@;
    let x = ".jsonl"@;
    assert(f.subrange(f.len() - x.len(), f.len() as int) =~= x);
    if stem.len() > 0 && text::starts_with(f, "."@) {
        assert(f.subrange(0, 1)[0] == '.');
        assert(f[0] == stem[0]);
    }
}

/// A scan is resumed behind what the index holds, and numbers its rows from
/// there; or it starts at the beginning and replaces everything.
pub proof fn law_origin(resume: bool, prev: Option<Prev>)
    ensures
        ({
            let (from, base, fresh) = origin_of(resume, prev);
            &&& fresh ==> from == 0 && base == 0
            &&& !fresh ==> resume && (prev matches Some(p) && from == p.cursor && base == p.n_ev)
            &&& !resume || prev is None ==> fresh
            &&& resume && prev is Some ==> !fresh
        }),
{
}

/// A file that became shorter, or of which nothing was indexed, is scanned from
/// its start.
pub proof fn law_tail(prev: Option<Prev>, size: int)
    ensures
        prev is None ==> tail_of(prev, size) is None,
        prev matches Some(p) ==> (size < p.cursor || p.n_ev <= 0 ==> tail_of(prev, size) is None),
        tail_of(prev, size) matches Some(t) ==> (prev matches Some(p) && p.tail == Some(t) && size
            >= p.cursor),
        prev matches Some(p) ==> (size >= p.cursor && p.n_ev > 0 ==> (p.tail matches Some(t) ==> (0
            < t.1 <= 1_073_741_824 ==> tail_of(prev, size) == Some(t)))),
{
}

/// A record is taken for unchanged by its bytes alone: white space around them
/// does not count.
pub proof fn law_hash_of_record(b: Seq<u8>, c: u8, crc: int)
    requires
        extract::is_blank(c),
    ensures
        hashes_to(b, extract::record_hash(extract::stripped(b))),
        hashes_to(seq![c] + b, crc) == hashes_to(b, crc),
{
    extract::law_stripped(b, c);
}

/// A record that changed is told by its file and where it stands there.
pub proof fn law_changed_on_disk(path: Seq<char>, off: int)
    ensures
        text::starts_with(changed_on_disk(path, off), path + ":"@ + text::dec_int(off) + " "@),
        text::ends_with(changed_on_disk(path, off), "changed on disk; run `alog sync`"@),
{
    reveal_strlit(" changed on disk; run `alog sync`");
    reveal_strlit("changed on disk; run `alog sync`");
    reveal_strlit(" ");
    let m = changed_on_disk(path, off);
    let p = path + ":"@ + text::dec_int(off) + " "@;
    let z = "changed on disk; run `alog sync`"@;
    assert(m.subrange(0, p.len() as int) =~= p);
    assert(m.subrange(m.len() - z.len(), m.len() as int) =~= z);
}

/// Each secondary index is built on the table of rows, under the name by which it
/// is asked for, and no other name is known.
pub proof fn law_index_names(name: Seq<char>)
    ensures
        index_named(name, 0) is Some <==> name == "kind"@ || name == "tool"@ || name == "target"@
            || name == "ts"@ || name == "err"@,
        index_named(name, 0) matches Some(sql) ==> text::starts_with(
            sql,
            "CREATE INDEX IF NOT EXISTS ix_"@ + name + " ON ev("@,
        ),
{
    reveal_with_fuel(index_named, 7);
    lemma_index_statements();
}

#[verifier::spinoff_prover]
#[verifier::rlimit(60)]
proof fn lemma_index_statements()
    ensures
        INDEXES@[0].0@ == "kind"@ && INDEXES@[1].0@ == "tool"@ && INDEXES@[2].0@ == "target"@
            && INDEXES@[3].0@ == "ts"@ && INDEXES@[4].0@ == "err"@,
        text::starts_with(
            INDEXES@[0].1@,
            "CREATE INDEX IF NOT EXISTS ix_"@ + "kind"@ + " ON ev("@,
        ),
        text::starts_with(
            INDEXES@[1].1@,
            "CREATE INDEX IF NOT EXISTS ix_"@ + "tool"@ + " ON ev("@,
        ),
        text::starts_with(
            INDEXES@[2].1@,
            "CREATE INDEX IF NOT EXISTS ix_"@ + "target"@ + " ON ev("@,
        ),
        text::starts_with(INDEXES@[3].1@, "CREATE INDEX IF NOT EXISTS ix_"@ + "ts"@ + " ON ev("@),
        text::starts_with(INDEXES@[4].1@, "CREATE INDEX IF NOT EXISTS ix_"@ + "err"@ + " ON ev("@),
{
    reveal_strlit("CREATE INDEX IF NOT EXISTS ix_");
    reveal_strlit(" ON ev(");
    reveal_strlit("kind");
    reveal_strlit("tool");
    reveal_strlit("target");
    reveal_strlit("ts");
    reveal_strlit("err");
    reveal_strlit("CREATE INDEX IF NOT EXISTS ix_kind ON ev(kind, ts)");
    reveal_strlit("CREATE INDEX IF NOT EXISTS ix_tool ON ev(tool, ts)");
    reveal_strlit("CREATE INDEX IF NOT EXISTS ix_target ON ev(target)");
    reveal_strlit("CREATE INDEX IF NOT EXISTS ix_ts ON ev(ts)");
    reveal_strlit("CREATE INDEX IF NOT EXISTS ix_err ON ev(is_err) WHERE is_err = 1");
    let c = "CREATE INDEX IF NOT EXISTS ix_"@;
    let o = " ON ev("@;
    let k = c + "kind"@ + o;
    let l = c + "tool"@ + o;
    let g = c + "target"@ + o;
    let t = c + "ts"@ + o;
    let e = c + "err"@ + o;
    assert(INDEXES@[0].1@.subrange(0, k.len() as int) =~= k);
    assert(INDEXES@[1].1@.subrange(0, l.len() as int) =~= l);
    assert(INDEXES@[2].1@.subrange(0, g.len() as int) =~= g);
    assert(INDEXES@[3].1@.subrange(0, t.len() as int) =~= t);
    assert(INDEXES@[4].1@.subrange(0, e.len() as int) =~= e);
}

} // verus!
