//! Answers as text: tables, timelines, suggestions and reports.
//!
//! The rows come from the database, which the caller asks; what is made of them
//! is decided here.

use crate::binary64;
use crate::civil;
use crate::extract;
use crate::mcp;
use crate::suggest;
use crate::text;
use vstd::prelude::*;
use vstd::string::*;
use vstd::utf8::*;

verus! {

/// The columns of a row.
pub const COLS: [&'static str; 14] = [
    "sid",
    "seq",
    "off",
    "len",
    "ts",
    "kind",
    "role",
    "model",
    "tool",
    "target",
    "in_tok",
    "out_tok",
    "cache_r",
    "is_err",
];

/// The rows that a reader wants to see, as a condition. The rest is bookkeeping
/// of the frameworks.
pub const KEEP: &'static str =
    "(is_err = 1 OR tool IS NOT NULL OR role IS NOT NULL
     OR kind IN ('assistant','user','system','result','failed','tool_result')
     OR (kind LIKE 'response_item/%' AND kind != 'response_item/reasoning')
     OR kind IN ('event_msg/user_message','event_msg/agent_message',
                 'event_msg/agent_reasoning','event_msg/error'))";

/// The turns of a session: a user's request and what was done to answer it. A
/// turn counts only where the agent did something, and tokens count once per
/// call, though every record of a call repeats them.
pub const TURNS: &'static str =
    "WITH t AS (
    SELECT seq, ts, kind, tool, is_err, in_tok, out_tok, cache_r,
           sum(kind = 'event_msg/user_message'
               OR (kind = 'user' AND is_err IS NULL)) OVER (ORDER BY seq) AS turn,
           lag(in_tok)  OVER (ORDER BY seq) AS pi,
           lag(out_tok) OVER (ORDER BY seq) AS po,
           lag(cache_r) OVER (ORDER BY seq) AS pc
    FROM ev WHERE sid = ?1
), u AS (
    SELECT *, (out_tok IS NOT NULL AND (
                 kind = 'event_msg/token_count'
                 OR in_tok IS NOT pi OR out_tok IS NOT po OR cache_r IS NOT pc
               )) AS newcall
    FROM t
) SELECT turn, min(seq), min(ts), max(ts), count(*), sum(tool IS NOT NULL),
         sum(is_err = 1), sum(newcall),
         sum(CASE WHEN newcall THEN coalesce(in_tok,0)  ELSE 0 END),
         sum(CASE WHEN newcall THEN coalesce(out_tok,0) ELSE 0 END),
         sum(CASE WHEN newcall THEN coalesce(cache_r,0) ELSE 0 END)
  FROM u WHERE turn > 0 GROUP BY turn
  HAVING sum(kind = 'assistant' OR kind LIKE 'response_item/%'
             OR kind = 'event_msg/agent_message') > 0
  ORDER BY turn";

/// The columns as texts.
pub open spec fn column_names() -> Seq<Seq<char>> {
    Seq::new(14, |i: int| COLS@[i]@)
}

/// The columns as strings.
pub fn columns() -> (r: Vec<String>)
    ensures
        text::texts(r@) == column_names(),
{
    let cols = COLS;
    let mut out: Vec<String> = Vec::new();
    let mut i: usize = 0;
    while i < 14
        invariant
            i <= 14,
            cols == COLS,
            text::texts(out@) == column_names().take(i as int),
        decreases 14 - i,
    {
        let ghost before = text::texts(out@);
        let one = cols[i].to_owned();
        out.push(one);
        assert(text::texts(out@) =~= before.push(one@));
        assert(before.push(one@) =~= column_names().take(i + 1));
        i += 1;
    }
    assert(column_names().take(14) =~= column_names());
    out
}

// ---------------------------------------------------------------------------
// Tables
// ---------------------------------------------------------------------------

/// A value of a result. A real number is given as it is printed, a blob by its
/// length.
#[derive(Debug)]
pub enum Cell {
    Null,
    Int(i64),
    Real(String),
    Text(Vec<u8>),
    Blob(usize),
}

/// A text in one field, cut to `cap` characters, with the number of bytes that
/// were cut off.
pub open spec fn clipped(s: Seq<char>, cap: int) -> Seq<char> {
    let f = text::flat(s);
    if f.len() <= cap {
        f
    } else {
        let t = f.take(cap);
        t + "…(+"@ + text::dec((text::byte_len(f) - text::byte_len(t)) as nat) + "B)"@
    }
}

/// A value as a field of a table.
pub open spec fn field_of(v: Cell, cap: int) -> Seq<char> {
    match v {
        Cell::Null => Seq::empty(),
        Cell::Int(i) => clipped(text::dec_int(i as int), cap),
        Cell::Real(s) => clipped(s@, cap),
        Cell::Text(b) => clipped(text::lossy(b@), cap),
        Cell::Blob(n) => clipped("<"@ + text::dec(n as nat) + " bytes>"@, cap),
    }
}

proof fn lemma_prefix_bytes(s: Seq<char>, n: int)
    requires
        0 <= n <= s.len(),
    ensures
        text::byte_len(s.take(n)) <= text::byte_len(s),
{
    text::lemma_encode_concat(s.take(n), s.skip(n));
    assert(s.take(n) + s.skip(n) =~= s);
}

/// A text in one field, cut to `cap` characters.
pub fn clip(s: &str, cap: usize) -> (r: String)
    ensures
        r@ == clipped(s@, cap as int),
{
    let f = text::flat_chars(&text::chars_of(s));
    let whole = text::string_of(&f);
    if f.len() <= cap {
        return whole;
    }
    let mut t = text::string_of(&text::prefix_chars(&f, cap));
    proof {
        lemma_prefix_bytes(f@, cap as int);
    }
    let cut: usize = whole.as_str().as_bytes().len() - t.as_str().as_bytes().len();
    t.append("…(+");
    text::push_usize(&mut t, cut);
    t.append("B)");
    t
}

/// A value as a field of a table.
pub fn cell(v: &Cell, cap: usize) -> (r: String)
    ensures
        r@ == field_of(*v, cap as int),
{
    match v {
        Cell::Null => {
            let s = String::new();
            assert(s@ =~= Seq::empty());
            s
        },
        Cell::Int(i) => clip(text::i64_string(*i).as_str(), cap),
        Cell::Real(s) => clip(s.as_str(), cap),
        Cell::Text(b) => clip(text::from_utf8_lossy(b.as_slice()).as_str(), cap),
        Cell::Blob(n) => {
            let mut s = "<".to_owned();
            text::push_usize(&mut s, *n);
            s.append(" bytes>");
            clip(s.as_str(), cap)
        },
    }
}

/// The longest field of a table, in characters.
pub const FIELD: usize = 300;

/// The fields of a row.
pub open spec fn fields(row: Seq<Cell>) -> Seq<Seq<char>> {
    Seq::new(row.len(), |i: int| field_of(row[i], FIELD as int))
}

/// A head with the first `n` rows of a table below it.
pub open spec fn with_rows(head: Seq<char>, rows: Seq<Vec<Cell>>, n: int) -> Seq<char>
    decreases n,
{
    if n <= 0 {
        head
    } else {
        with_rows(head, rows, n - 1) + "\n"@ + text::join(fields(rows[n - 1]@), "\t"@)
    }
}

/// A result as a table. `rows` holds one row more than `limit` where there are
/// more; then the first line says so. A table without rows may have a hint.
pub open spec fn table(
    names: Seq<Seq<char>>,
    rows: Seq<Vec<Cell>>,
    limit: int,
    elapsed: int,
    hint: Option<Seq<char>>,
) -> Seq<char> {
    let shown = text::min2(rows.len() as int, limit);
    let h = "rows="@ + text::dec(shown as nat) + " elapsed="@ + text::dec(elapsed as nat) + "ms"@;
    let t = if rows.len() > limit {
        h + " TRUNCATED at limit="@ + text::dec(limit as nat) + ", more rows exist"@
    } else {
        h
    };
    let body = with_rows(t + "\n"@ + text::join(names, "\t"@), rows, shown);
    match hint {
        Some(x) => if shown == 0 {
            body + "\n"@ + x
        } else {
            body
        },
        None => body,
    }
}

/// The fields of a row.
fn row_line(row: &Vec<Cell>) -> (r: String)
    ensures
        r@ == text::join(fields(row@), "\t"@),
{
    let mut out: Vec<String> = Vec::new();
    let mut i: usize = 0;
    while i < row.len()
        invariant
            i <= row@.len(),
            text::texts(out@) == fields(row@).take(i as int),
        decreases row.len() - i,
    {
        let ghost before = text::texts(out@);
        let one = cell(&row[i], FIELD);
        out.push(one);
        assert(text::texts(out@) =~= before.push(one@));
        assert(before.push(one@) =~= fields(row@).take(i + 1));
        i += 1;
    }
    assert(fields(row@).take(row@.len() as int) =~= fields(row@));
    text::join_strings(&out, "\t")
}

/// A result as a table. The caller fetches one row more than `limit`, if there
/// is one, so that nothing is cut off in silence.
pub fn query(
    names: &Vec<String>,
    rows: &Vec<Vec<Cell>>,
    limit: usize,
    elapsed: u64,
    hint: &Option<String>,
) -> (r: String)
    ensures
        r@ == table(
            text::texts(names@),
            rows@,
            limit as int,
            elapsed as int,
            text::opt_text(*hint),
        ),
{
    let shown: usize = if rows.len() <= limit {
        rows.len()
    } else {
        limit
    };
    let mut out = "rows=".to_owned();
    text::push_usize(&mut out, shown);
    out.append(" elapsed=");
    text::push_u64(&mut out, elapsed);
    out.append("ms");
    if rows.len() > limit {
        out.append(" TRUNCATED at limit=");
        text::push_usize(&mut out, limit);
        out.append(", more rows exist");
    }
    out.append("\n");
    out.append(text::join_strings(names, "\t").as_str());
    let ghost head = out@;
    let mut i: usize = 0;
    while i < shown
        invariant
            i <= shown <= rows@.len(),
            out@ == with_rows(head, rows@, i as int),
        decreases shown - i,
    {
        out.append("\n");
        out.append(row_line(&rows[i]).as_str());
        i += 1;
    }
    if shown == 0 {
        match hint {
            Some(h) => {
                out.append("\n");
                out.append(h.as_str());
            },
            None => {},
        }
    }
    out
}

// ---------------------------------------------------------------------------
// What is in the store
// ---------------------------------------------------------------------------

/// How often the most frequent values of a column occur, and how many there are.
#[derive(Debug)]
pub struct Spread {
    pub col: String,
    pub total: i64,
    pub top: Vec<(String, i64)>,
}

/// What the store holds. `nulls` counts the rows without a value, for each
/// column from the fifth on.
#[derive(Debug)]
pub struct Store {
    pub records: i64,
    pub sessions: i64,
    pub rejects: i64,
    pub first: Option<i64>,
    pub last: Option<i64>,
    pub nulls: Vec<i64>,
    pub spreads: Vec<Spread>,
}

/// More rows than a database file can hold.
pub const ROWS: i64 = 0x4000_0000_0000;

/// The counts are those of a database: none is negative, and no column lacks
/// more values than there are rows.
pub open spec fn counted(s: Store) -> bool {
    &&& 0 <= s.records < ROWS
    &&& s.records > 0 ==> s.nulls@.len() == 10 && forall|i: int|
        0 <= i < 10 ==> 0 <= #[trigger] s.nulls@[i] <= s.records
}

/// The columns without a value, in per cent of the rows, up to the `n`-th.
pub open spec fn with_nulls(head: Seq<char>, nulls: Seq<i64>, records: int, n: int) -> Seq<char>
    decreases n,
{
    if n <= 0 {
        head
    } else {
        with_nulls(head, nulls, records, n - 1) + " "@ + COLS@[n + 3]@ + " "@ + text::dec(
            binary64::printed_quotient((100 * nulls[n - 1]) as nat, records as nat) as nat,
        )
    }
}

/// The first `n` values of a column, each with how often it occurs.
pub open spec fn with_top(head: Seq<char>, top: Seq<(String, i64)>, n: int) -> Seq<char>
    decreases n,
{
    if n <= 0 {
        head
    } else {
        with_top(head, top, n - 1) + " "@ + top[n - 1].0@ + ":"@ + text::dec_int(
            top[n - 1].1 as int,
        )
    }
}

/// One line for each of the first `n` columns that has values.
pub open spec fn with_spreads(head: Seq<char>, spreads: Seq<Spread>, n: int) -> Seq<char>
    decreases n,
{
    if n <= 0 {
        head
    } else {
        let before = with_spreads(head, spreads, n - 1);
        let s = spreads[n - 1];
        if s.total == 0 {
            before
        } else {
            let a = before + s.col@ + "("@ + text::dec_int(s.total as int);
            let b = if s.total as usize > s.top@.len() {
                a + " top"@ + text::dec(s.top@.len())
            } else {
                a
            };
            with_top(b + "):"@, s.top@, s.top@.len() as int) + "\n"@
        }
    }
}

/// What the store holds, as text.
pub open spec fn described(s: Store) -> Seq<char> {
    let head = "records="@ + text::dec_int(s.records as int) + " sessions="@ + text::dec_int(
        s.sessions as int,
    ) + " rejects="@ + text::dec_int(s.rejects as int) + "\n"@;
    if s.records == 0 {
        head + "empty; run `alog sync <dir>`"@
    } else {
        let times = match (s.first, s.last) {
            (Some(a), Some(b)) => head + "time: "@ + civil::timestamp(a as int) + " .. "@
                + civil::timestamp(b as int) + "\n"@,
            _ => head,
        };
        let cols = times + "cols: "@ + text::join(column_names(), " "@) + "   (ts epoch_ms)\n"@
            + "null%:"@;
        with_spreads(
            with_nulls(cols, s.nulls@, s.records as int, 10) + "\n"@,
            s.spreads@,
            s.spreads@.len() as int,
        )
    }
}

fn push_spread(out: &mut String, s: &Spread)
    ensures
        final(out)@ == with_spreads(old(out)@, seq![*s], 1),
{
    reveal_with_fuel(with_spreads, 2);
    if s.total == 0 {
        return ;
    }
    out.append(s.col.as_str());
    out.append("(");
    text::push_i64(out, s.total);
    if s.total as usize > s.top.len() {
        out.append(" top");
        text::push_usize(out, s.top.len());
    }
    out.append("):");
    let ghost head = out@;
    let mut i: usize = 0;
    while i < s.top.len()
        invariant
            i <= s.top@.len(),
            out@ == with_top(head, s.top@, i as int),
        decreases s.top.len() - i,
    {
        out.append(" ");
        out.append(s.top[i].0.as_str());
        out.append(":");
        text::push_i64(out, s.top[i].1);
        i += 1;
    }
    out.append("\n");
}

fn push_nulls(out: &mut String, s: &Store)
    requires
        counted(*s),
        s.records > 0,
    ensures
        final(out)@ == with_nulls(old(out)@, s.nulls@, s.records as int, 10),
{
    let cols = COLS;
    let mut i: usize = 0;
    while i < 10
        invariant
            i <= 10,
            cols == COLS,
            counted(*s),
            s.records > 0,
            out@ == with_nulls(old(out)@, s.nulls@, s.records as int, i as int),
        decreases 10 - i,
    {
        out.append(" ");
        out.append(cols[i + 4]);
        out.append(" ");
        assert(0 <= s.nulls@[i as int] <= s.records);
        let k: u64 = 100 * s.nulls[i] as u64;
        let n: u64 = s.records as u64;
        assert(k < n * 0x20_0000_0000_0000) by (nonlinear_arith)
            requires
                k <= 100 * n,
                n > 0,
        ;
        text::push_u64(out, binary64::quotient(k, n));
        i += 1;
    }
}

fn push_spreads(out: &mut String, spreads: &Vec<Spread>)
    ensures
        final(out)@ == with_spreads(old(out)@, spreads@, spreads@.len() as int),
{
    let mut j: usize = 0;
    while j < spreads.len()
        invariant
            j <= spreads@.len(),
            out@ == with_spreads(old(out)@, spreads@, j as int),
        decreases spreads.len() - j,
    {
        proof {
            reveal_with_fuel(with_spreads, 2);
            assert(seq![spreads@[j as int]][0] == spreads@[j as int]);
        }
        push_spread(out, &spreads[j]);
        j += 1;
    }
}

/// What the store holds, in few words: counts, time range, columns, how often
/// they lack a value, and the most frequent kinds, tools and models.
pub fn catalog(s: &Store) -> (r: String)
    requires
        counted(*s),
    ensures
        r@ == described(*s),
{
    let mut out = "records=".to_owned();
    text::push_i64(&mut out, s.records);
    out.append(" sessions=");
    text::push_i64(&mut out, s.sessions);
    out.append(" rejects=");
    text::push_i64(&mut out, s.rejects);
    out.append("\n");
    if s.records == 0 {
        out.append("empty; run `alog sync <dir>`");
        return out;
    }
    match (s.first, s.last) {
        (Some(a), Some(b)) => {
            out.append("time: ");
            out.append(civil::fmt_ts(a).as_str());
            out.append(" .. ");
            out.append(civil::fmt_ts(b).as_str());
            out.append("\n");
        },
        _ => {},
    }
    out.append("cols: ");
    out.append(text::join_strings(&columns(), " ").as_str());
    out.append("   (ts epoch_ms)\n");
    out.append("null%:");
    push_nulls(&mut out, s);
    out.append("\n");
    push_spreads(&mut out, &s.spreads);
    out
}

// ---------------------------------------------------------------------------
// Sessions
// ---------------------------------------------------------------------------

/// Texts as a list of quoted strings.
pub open spec fn quoted_list(v: Seq<Seq<char>>) -> Seq<char> {
    "["@ + text::join(Seq::new(v.len(), |i: int| text::json_quote(v[i])), ", "@) + "]"@
}

/// Texts as a list of quoted strings.
pub fn quote_list(v: &Vec<String>) -> (r: String)
    ensures
        r@ == quoted_list(text::texts(v@)),
{
    let ghost vs = text::texts(v@);
    let ghost all = Seq::new(vs.len(), |i: int| text::json_quote(vs[i]));
    let mut out: Vec<String> = Vec::new();
    let mut i: usize = 0;
    while i < v.len()
        invariant
            i <= v@.len(),
            vs == text::texts(v@),
            all == Seq::new(vs.len(), |k: int| text::json_quote(vs[k])),
            text::texts(out@) == all.take(i as int),
        decreases v.len() - i,
    {
        let ghost before = text::texts(out@);
        let one = text::json_str(v[i].as_str());
        out.push(one);
        assert(text::texts(out@) =~= before.push(one@));
        assert(before.push(one@) =~= all.take(i + 1));
        i += 1;
    }
    assert(all.take(v@.len() as int) =~= all);
    let mut s = "[".to_owned();
    s.append(text::join_strings(&out, ", ").as_str());
    s.append("]");
    s
}

/// An unknown session, with the names that it may have meant.
pub open spec fn no_session(ext: Seq<char>, all: Seq<Seq<char>>) -> Seq<char> {
    "{\"code\":\"ALOG_UNKNOWN_SESSION\",\"message\":"@ + text::json_quote(ext)
        + ",\"candidates\":"@ + quoted_list(suggest::meant(ext, all, 5)) + "}"@
}

/// An unknown session, with the names that it may have meant.
pub fn session_error(ext: &str, all: &Vec<String>) -> (r: String)
    ensures
        r@ == no_session(ext@, text::texts(all@)),
{
    let near = suggest::closest(ext, all, 5);
    let mut out = "{\"code\":\"ALOG_UNKNOWN_SESSION\",\"message\":".to_owned();
    text::push_json(&mut out, ext);
    out.append(",\"candidates\":");
    out.append(quote_list(&near).as_str());
    out.append("}");
    out
}

/// A turn: the number of its first row, its first and last time, and how many
/// rows, tools, errors, calls and tokens it took.
#[derive(Debug)]
pub struct Turn {
    pub turn: i64,
    pub first_seq: i64,
    pub t0: Option<i64>,
    pub t1: Option<i64>,
    pub records: i64,
    pub tools: i64,
    pub errors: i64,
    pub calls: i64,
    pub in_tok: i64,
    pub out_tok: i64,
    pub cache: i64,
}

/// The last time of a turn is not before its first, and their difference fits.
pub open spec fn timed(t: Turn) -> bool {
    match (t.t0, t.t1) {
        (Some(a), Some(b)) => a <= b && b - a <= i64::MAX,
        _ => true,
    }
}

/// How many minutes a turn took.
pub open spec fn minutes(t: Turn) -> Seq<char> {
    match (t.t0, t.t1) {
        (Some(a), Some(b)) => text::dec(
            binary64::printed_quotient(binary64::as_float((b - a) as nat), 60000) as nat,
        ),
        _ => Seq::empty(),
    }
}

/// The columns of the `n`-th turn.
pub open spec fn turn_fields(n: int, t: Turn, ask: Seq<char>) -> Seq<Seq<char>> {
    seq![
        text::dec(n as nat),
        civil::when(t.t0),
        minutes(t),
        text::dec_int(t.records as int),
        text::dec_int(t.calls as int),
        text::dec_int(t.tools as int),
        if t.errors > 0 {
            text::dec_int(t.errors as int)
        } else {
            Seq::empty()
        },
        text::dec_int(t.in_tok as int),
        text::dec_int(t.out_tok as int),
        text::dec_int(t.cache as int),
        text::ellipsis(ask, 70),
    ]
}

/// A head with the first `n` turns below it.
pub open spec fn with_turns(head: Seq<char>, rows: Seq<Turn>, asks: Seq<Seq<char>>, n: int) -> Seq<
    char,
>
    decreases n,
{
    if n <= 0 {
        head
    } else {
        with_turns(head, rows, asks, n - 1) + "\n"@ + text::join(
            turn_fields(n, rows[n - 1], asks[n - 1]),
            "\t"@,
        )
    }
}

/// The turns of a session as a table, at most `limit`; where there are more, the
/// last line says so.
pub open spec fn turn_table(
    ext: Seq<char>,
    rows: Seq<Turn>,
    asks: Seq<Seq<char>>,
    limit: int,
) -> Seq<char> {
    let head = "session="@ + ext + " turns="@ + text::dec(rows.len())
        + "\nturn\twhen\tmins\tev\tcalls\ttools\terr\tin\tout\tcache\task"@;
    let body = with_turns(head, rows, asks, text::min2(rows.len() as int, limit));
    if rows.len() > limit {
        body + "\nTRUNCATED at limit="@ + text::dec(limit as nat) + ", "@ + text::dec(rows.len())
            + " turns total"@
    } else {
        body
    }
}

fn minutes_text(t: &Turn) -> (r: String)
    requires
        timed(*t),
    ensures
        r@ == minutes(*t),
{
    match (t.t0, t.t1) {
        (Some(a), Some(b)) => {
            let d: u64 = (b as i128 - a as i128) as u64;
            let f: u64 = binary64::to_float(d);
            text::u64_string(binary64::quotient(f, 60000))
        },
        _ => {
            let s = String::new();
            assert(s@ =~= Seq::empty());
            s
        },
    }
}

fn turn_line(n: usize, t: &Turn, ask: &str) -> (r: String)
    requires
        timed(*t),
    ensures
        r@ == text::join(turn_fields(n as int, *t, ask@), "\t"@),
{
    let errors = if t.errors > 0 {
        text::i64_string(t.errors)
    } else {
        String::new()
    };
    assert(t.errors <= 0 ==> errors@ =~= Seq::empty());
    let v: Vec<String> = vec![
        text::usize_string(n),
        civil::when_text(t.t0),
        minutes_text(t),
        text::i64_string(t.records),
        text::i64_string(t.calls),
        text::i64_string(t.tools),
        errors,
        text::i64_string(t.in_tok),
        text::i64_string(t.out_tok),
        text::i64_string(t.cache),
        text::ellipsis_string(ask, 70),
    ];
    assert(text::texts(v@) =~= turn_fields(n as int, *t, ask@));
    text::join_strings(&v, "\t")
}

/// The turns of a session as a table. `asks` holds the start of each request.
pub fn turns(ext: &str, rows: &Vec<Turn>, asks: &Vec<String>, limit: usize) -> (r: String)
    requires
        asks@.len() >= text::min2(rows@.len() as int, limit as int),
        forall|i: int| 0 <= i < rows@.len() ==> timed(#[trigger] rows@[i]),
    ensures
        r@ == turn_table(ext@, rows@, text::texts(asks@), limit as int),
{
    let shown: usize = if rows.len() <= limit {
        rows.len()
    } else {
        limit
    };
    let mut out = "session=".to_owned();
    out.append(ext);
    out.append(" turns=");
    text::push_usize(&mut out, rows.len());
    out.append("\nturn\twhen\tmins\tev\tcalls\ttools\terr\tin\tout\tcache\task");
    let ghost head = out@;
    let ghost all = text::texts(asks@);
    let mut i: usize = 0;
    while i < shown
        invariant
            i <= shown <= rows@.len(),
            asks@.len() >= shown,
            all == text::texts(asks@),
            forall|k: int| 0 <= k < rows@.len() ==> timed(#[trigger] rows@[k]),
            out@ == with_turns(head, rows@, all, i as int),
        decreases shown - i,
    {
        out.append("\n");
        out.append(turn_line(i + 1, &rows[i], asks[i].as_str()).as_str());
        i += 1;
    }
    if rows.len() > limit {
        out.append("\nTRUNCATED at limit=");
        text::push_usize(&mut out, limit);
        out.append(", ");
        text::push_usize(&mut out, rows.len());
        out.append(" turns total");
    }
    out
}

/// A row of a session's timeline.
#[derive(Debug)]
pub struct Step {
    pub seq: i64,
    pub ts: Option<i64>,
    pub kind: Option<String>,
    pub role: Option<String>,
    pub tool: Option<String>,
    pub target: Option<String>,
    pub is_err: Option<i64>,
    pub len: i64,
}

/// The columns of a row. Without a target its preview stands in.
pub open spec fn step_fields(s: Step, preview: Seq<char>) -> Seq<Seq<char>> {
    seq![
        text::dec_int(s.seq as int),
        civil::when(s.ts),
        text::given(s.kind),
        text::given(s.role),
        text::given(s.tool),
        if s.is_err == Some(1i64) {
            "ERR"@
        } else {
            Seq::empty()
        },
        text::dec_int(s.len as int),
        text::ellipsis(
            match s.target {
                Some(t) => t@,
                None => preview,
            },
            90,
        ),
    ]
}

/// A head with the first `n` rows below it.
pub open spec fn with_steps(
    head: Seq<char>,
    rows: Seq<Step>,
    previews: Seq<Seq<char>>,
    n: int,
) -> Seq<char>
    decreases n,
{
    if n <= 0 {
        head
    } else {
        with_steps(head, rows, previews, n - 1) + "\n"@ + text::join(
            step_fields(rows[n - 1], previews[n - 1]),
            "\t"@,
        )
    }
}

/// A session's timeline. Where rows follow, the first line says where to go on.
pub open spec fn step_table(
    ext: Seq<char>,
    n_ev: int,
    rows: Seq<Step>,
    previews: Seq<Seq<char>>,
) -> Seq<char> {
    let h = "session="@ + ext + " events="@ + text::dec_int(n_ev);
    let more = if rows.len() > 0 && rows.last().seq + 1 < n_ev {
        h + " (more: start="@ + text::dec_int(rows.last().seq + 1) + ")"@
    } else {
        h
    };
    with_steps(
        more + "\nseq\twhen\tkind\trole\ttool\terr\tbytes\twhat"@,
        rows,
        previews,
        rows.len() as int,
    )
}

fn step_line(s: &Step, preview: &str) -> (r: String)
    ensures
        r@ == text::join(step_fields(*s, preview@), "\t"@),
{
    let failed = match s.is_err {
        Some(e) => e == 1,
        None => false,
    };
    let err = if failed {
        "ERR".to_owned()
    } else {
        String::new()
    };
    assert(!failed ==> err@ =~= Seq::empty());
    let what = match &s.target {
        Some(t) => text::ellipsis_string(t.as_str(), 90),
        None => text::ellipsis_string(preview, 90),
    };
    let v: Vec<String> = vec![
        text::i64_string(s.seq),
        civil::when_text(s.ts),
        text::given_text(&s.kind),
        text::given_text(&s.role),
        text::given_text(&s.tool),
        err,
        text::i64_string(s.len),
        what,
    ];
    assert(text::texts(v@) =~= step_fields(*s, preview@));
    text::join_strings(&v, "\t")
}

/// A session's timeline as a table. `previews` holds the start of each row's
/// record.
pub fn outline(ext: &str, n_ev: i64, rows: &Vec<Step>, previews: &Vec<String>) -> (r: String)
    requires
        previews@.len() == rows@.len(),
        rows@.len() > 0 ==> rows@.last().seq < i64::MAX,
    ensures
        r@ == step_table(ext@, n_ev as int, rows@, text::texts(previews@)),
{
    let mut out = "session=".to_owned();
    out.append(ext);
    out.append(" events=");
    text::push_i64(&mut out, n_ev);
    if rows.len() > 0 {
        let last: i64 = rows[rows.len() - 1].seq;
        if last + 1 < n_ev {
            out.append(" (more: start=");
            text::push_i64(&mut out, last + 1);
            out.append(")");
        }
    }
    out.append("\nseq\twhen\tkind\trole\ttool\terr\tbytes\twhat");
    let ghost head = out@;
    let ghost all = text::texts(previews@);
    let mut i: usize = 0;
    while i < rows.len()
        invariant
            i <= rows@.len(),
            previews@.len() == rows@.len(),
            all == text::texts(previews@),
            out@ == with_steps(head, rows@, all, i as int),
        decreases rows.len() - i,
    {
        out.append("\n");
        out.append(step_line(&rows[i], previews[i].as_str()).as_str());
        i += 1;
    }
    out
}

// ---------------------------------------------------------------------------
// Nothing is cut off in silence
// ---------------------------------------------------------------------------

proof fn lemma_with_rows(head: Seq<char>, rows: Seq<Vec<Cell>>, n: int, p: Seq<char>)
    requires
        text::starts_with(head, p),
    ensures
        text::starts_with(with_rows(head, rows, n), p),
    decreases n,
{
    if n > 0 {
        lemma_with_rows(head, rows, n - 1, p);
        let before = with_rows(head, rows, n - 1);
        text::lemma_starts(before, p, "\n"@);
        text::lemma_starts(before + "\n"@, p, text::join(fields(rows[n - 1]@), "\t"@));
    }
}

/// The first line of a table that was cut.
pub open spec fn cut_line(limit: int, elapsed: int) -> Seq<char> {
    "rows="@ + text::dec(limit as nat) + " elapsed="@ + text::dec(elapsed as nat) + "ms"@
        + " TRUNCATED at limit="@ + text::dec(limit as nat) + ", more rows exist"@
}

/// A table with more rows than it shows says so in its first line.
pub proof fn law_table_says_cut(
    names: Seq<Seq<char>>,
    rows: Seq<Vec<Cell>>,
    limit: int,
    elapsed: int,
    hint: Option<Seq<char>>,
)
    requires
        0 <= limit < rows.len(),
    ensures
        text::starts_with(table(names, rows, limit, elapsed, hint), cut_line(limit, elapsed)),
{
    let p = cut_line(limit, elapsed);
    assert(p.subrange(0, p.len() as int) =~= p);
    text::lemma_starts(p, p, "\n"@);
    text::lemma_starts(p + "\n"@, p, text::join(names, "\t"@));
    let head = p + "\n"@ + text::join(names, "\t"@);
    lemma_with_rows(head, rows, limit, p);
    let body = with_rows(head, rows, limit);
    match hint {
        Some(x) => {
            text::lemma_starts(body, p, "\n"@);
            text::lemma_starts(body + "\n"@, p, x);
        },
        None => {},
    }
}

/// A list of turns with more than it shows says so in its last line, with their
/// number.
pub proof fn law_turns_say_cut(
    ext: Seq<char>,
    rows: Seq<Turn>,
    asks: Seq<Seq<char>>,
    limit: int,
)
    requires
        0 <= limit < rows.len(),
    ensures
        text::ends_with(
            turn_table(ext, rows, asks, limit),
            "\nTRUNCATED at limit="@ + text::dec(limit as nat) + ", "@ + text::dec(rows.len())
                + " turns total"@,
        ),
{
    let t = turn_table(ext, rows, asks, limit);
    let p = "\nTRUNCATED at limit="@ + text::dec(limit as nat) + ", "@ + text::dec(rows.len())
        + " turns total"@;
    assert(t.subrange(t.len() - p.len(), t.len() as int) =~= p);
}

// ---------------------------------------------------------------------------
// What the lines and columns say
// ---------------------------------------------------------------------------

/// A field of a table holds no tab and no line feed. A text that has none and is
/// not too long is shown as it is; of a longer one the start is shown, and how
/// many bytes are missing.
#[verifier::spinoff_prover]
#[verifier::rlimit(60)]
pub proof fn law_clip(s: Seq<char>, cap: int)
    requires
        cap >= 0,
    ensures
        text::free_of(clipped(s, cap), '\t'),
        text::free_of(clipped(s, cap), '\n'),
        text::free_of(s, '\t') && text::free_of(s, '\n') && s.len() <= cap ==> clipped(s, cap) == s,
        text::flat(s).len() <= cap ==> clipped(s, cap) == text::flat(s),
        text::flat(s).len() > cap ==> text::starts_with(clipped(s, cap), text::flat(s).take(cap))
            && clipped(s, cap).skip(cap) == "…(+"@ + text::dec(
            text::byte_len(text::flat(s).skip(cap)) as nat,
        ) + "B)"@,
{
    let f = text::flat(s);
    text::law_flat(s, Seq::empty());
    if f.len() > cap {
        let t = f.take(cap);
        let n = (text::byte_len(f) - text::byte_len(t)) as nat;
        text::lemma_encode_concat(t, f.skip(cap));
        assert(t + f.skip(cap) =~= f);
        reveal_strlit("…(+");
        reveal_strlit("B)");
        text::lemma_dec_plain(n, '\t');
        text::lemma_dec_plain(n, '\n');
        text::lemma_free_concat(t, "…(+"@, '\t');
        text::lemma_free_concat(t, "…(+"@, '\n');
        text::lemma_free_concat(t + "…(+"@, text::dec(n), '\t');
        text::lemma_free_concat(t + "…(+"@, text::dec(n), '\n');
        text::lemma_free_concat(t + "…(+"@ + text::dec(n), "B)"@, '\t');
        text::lemma_free_concat(t + "…(+"@ + text::dec(n), "B)"@, '\n');
        let r = clipped(s, cap);
        assert(r.subrange(0, t.len() as int) =~= t);
        assert(r.skip(cap) =~= "…(+"@ + text::dec(n) + "B)"@);
    }
}

/// A field shows the value of its cell: nothing for no value, a number in
/// decimal, a text as text, and of bytes how many there are.
#[verifier::spinoff_prover]
#[verifier::rlimit(60)]
pub proof fn law_field(v: Cell, cap: int)
    requires
        cap >= 30,
    ensures
        text::free_of(field_of(v, cap), '\t'),
        text::free_of(field_of(v, cap), '\n'),
        v is Null ==> field_of(v, cap).len() == 0,
        v matches Cell::Int(i) ==> text::parse_signed(field_of(v, cap)) == Some(i as int),
        v matches Cell::Real(s) ==> (text::free_of(s@, '\t') && text::free_of(s@, '\n') && s@.len()
            <= cap ==> field_of(v, cap) == s@),
        v matches Cell::Text(b) ==> field_of(v, cap) == clipped(text::lossy(b@), cap),
        v matches Cell::Blob(n) ==> field_of(v, cap) == "<"@ + text::dec(n as nat) + " bytes>"@,
{
    match v {
        Cell::Null => {},
        Cell::Int(i) => {
            let s = text::dec_int(i as int);
            law_clip(s, cap);
            text::lemma_dec_int_plain(i as int, '\t');
            text::lemma_dec_int_plain(i as int, '\n');
            text::law_integer_reads_back(i as int);
            lemma_short(if i < 0 {
                (-(i as int)) as nat
            } else {
                i as nat
            });
        },
        Cell::Real(s) => {
            law_clip(s@, cap);
        },
        Cell::Text(b) => {
            law_clip(text::lossy(b@), cap);
        },
        Cell::Blob(n) => {
            let s = "<"@ + text::dec(n as nat) + " bytes>"@;
            reveal_strlit("<");
            reveal_strlit(" bytes>");
            law_clip(s, cap);
            text::lemma_dec_plain(n as nat, '\t');
            text::lemma_dec_plain(n as nat, '\n');
            text::lemma_free_concat("<"@, text::dec(n as nat), '\t');
            text::lemma_free_concat("<"@, text::dec(n as nat), '\n');
            text::lemma_free_concat("<"@ + text::dec(n as nat), " bytes>"@, '\t');
            text::lemma_free_concat("<"@ + text::dec(n as nat), " bytes>"@, '\n');
            lemma_short(n as nat);
        },
    }
}

/// A number of 64 bits has at most twenty digits.
proof fn lemma_short(n: nat)
    requires
        n < 0x1_0000_0000_0000_0000,
    ensures
        text::dec(n).len() <= 20,
{
    reveal_with_fuel(text::dec, 21);
}

#[verifier::spinoff_prover]
#[verifier::rlimit(60)]
proof fn lemma_row_lines(head: Seq<char>, rows: Seq<Vec<Cell>>, n: int)
    requires
        0 <= n <= rows.len(),
        forall|i: int| 0 <= i < n ==> (#[trigger] rows[i])@.len() > 0,
    ensures
        ({
            let ls = text::parts(with_rows(head, rows, n), '\n');
            let hs = text::parts(head, '\n');
            &&& ls.len() == hs.len() + n
            &&& forall|i: int| 0 <= i < hs.len() ==> #[trigger] ls[i] == hs[i]
            &&& forall|i: int|
                0 <= i < n ==> text::parts(#[trigger] ls[hs.len() + i], '\t') == fields(rows[i]@)
        }),
    decreases n,
{
    if n > 0 {
        lemma_row_lines(head, rows, n - 1);
        let fs = fields(rows[n - 1]@);
        assert forall|j: int| 0 <= j < fs.len() implies text::free_of(#[trigger] fs[j], '\t')
            && text::free_of(fs[j], '\n') by {
            law_field(rows[n - 1]@[j], FIELD as int);
        }
        text::lemma_fields(fs);
        reveal_strlit("\t");
        text::lemma_join_free(fs, "\t"@, '\n');
        text::lemma_line_below(with_rows(head, rows, n - 1), text::join(fs, "\t"@));
    }
}

/// A table has a line that tells of it, one with the names of its columns, and
/// one for each row that is shown: every row that there is, up to the limit, in
/// order, with every cell under the name of its column.
#[verifier::spinoff_prover]
#[verifier::rlimit(60)]
pub proof fn law_table_rows(
    names: Seq<Seq<char>>,
    rows: Seq<Vec<Cell>>,
    limit: int,
    elapsed: int,
    hint: Option<Seq<char>>,
    i: int,
)
    requires
        0 < limit,
        0 <= i < rows.len(),
        i < limit,
        names.len() > 0,
        forall|k: int|
            0 <= k < names.len() ==> text::free_of(#[trigger] names[k], '\t') && text::free_of(
                names[k],
                '\n',
            ),
        forall|k: int| 0 <= k < rows.len() ==> (#[trigger] rows[k])@.len() == names.len(),
    ensures
        ({
            let shown = if rows.len() <= limit {
                rows.len() as int
            } else {
                limit
            };
            let ls = text::parts(table(names, rows, limit, elapsed, hint), '\n');
            let f = text::parts(ls[2 + i], '\t');
            &&& ls.len() == 2 + shown
            &&& text::starts_with(ls[0], "rows="@ + text::dec(shown as nat) + " "@)
            &&& rows.len() <= limit ==> ls[0] == "rows="@ + text::dec(shown as nat) + " elapsed="@
                + text::dec(elapsed as nat) + "ms"@
            &&& text::parts(ls[1], '\t') == names
            &&& f.len() == names.len()
            &&& forall|j: int|
                0 <= j < names.len() ==> #[trigger] f[j] == field_of(rows[i]@[j], 300)
        }),
{
    let shown = text::min2(rows.len() as int, limit);
    let h = "rows="@ + text::dec(shown as nat) + " elapsed="@ + text::dec(elapsed as nat) + "ms"@;
    let t = if rows.len() > limit {
        h + " TRUNCATED at limit="@ + text::dec(limit as nat) + ", more rows exist"@
    } else {
        h
    };
    reveal_strlit("rows=");
    reveal_strlit(" elapsed=");
    reveal_strlit(" ");
    reveal_strlit("ms");
    reveal_strlit(" TRUNCATED at limit=");
    reveal_strlit(", more rows exist");
    let c = '\n';
    text::lemma_dec_plain(shown as nat, c);
    text::lemma_dec_plain(elapsed as nat, c);
    text::lemma_dec_plain(limit as nat, c);
    text::lemma_free_concat("rows="@, text::dec(shown as nat), c);
    text::lemma_free_concat("rows="@ + text::dec(shown as nat), " elapsed="@, c);
    text::lemma_free_concat(
        "rows="@ + text::dec(shown as nat) + " elapsed="@,
        text::dec(elapsed as nat),
        c,
    );
    text::lemma_free_concat(
        "rows="@ + text::dec(shown as nat) + " elapsed="@ + text::dec(elapsed as nat),
        "ms"@,
        c,
    );
    text::lemma_free_concat(h, " TRUNCATED at limit="@, c);
    text::lemma_free_concat(h + " TRUNCATED at limit="@, text::dec(limit as nat), c);
    text::lemma_free_concat(
        h + " TRUNCATED at limit="@ + text::dec(limit as nat),
        ", more rows exist"@,
        c,
    );
    text::lemma_parts_one(t, c);
    reveal_strlit("\t");
    text::lemma_join_free(names, "\t"@, c);
    text::lemma_fields(names);
    let line = text::join(names, "\t"@);
    text::lemma_line_below(t, line);
    let head = t + "\n"@ + line;
    assert(text::parts(head, c) =~= seq![t, line]);
    lemma_row_lines(head, rows, shown);
    let ls = text::parts(table(names, rows, limit, elapsed, hint), c);
    assert(ls[0] == t && ls[1] == line);
    assert(ls[2 + i] == ls[text::parts(head, c).len() + i]);
    let p = "rows="@ + text::dec(shown as nat) + " "@;
    assert(t.subrange(0, p.len() as int) =~= p);
}

/// A table without rows ends with the hint, if there is one.
pub proof fn law_table_hint(
    names: Seq<Seq<char>>,
    rows: Seq<Vec<Cell>>,
    limit: int,
    elapsed: int,
    hint: Seq<char>,
)
    requires
        rows.len() == 0,
        limit >= 0,
    ensures
        text::ends_with(table(names, rows, limit, elapsed, Some(hint)), "\n"@ + hint),
{
    let r = table(names, rows, limit, elapsed, Some(hint));
    let p = "\n"@ + hint;
    assert(r.subrange(r.len() - p.len(), r.len() as int) =~= p);
}

/// The text of a turn's request is shown in one field.
pub open spec fn plain(s: Seq<char>) -> bool {
    text::free_of(s, '\t') && text::free_of(s, '\n')
}

proof fn lemma_turn_plain(n: int, t: Turn, ask: Seq<char>, c: char)
    requires
        text::free_of(ask, c),
        c == '\t' || c == '\n',
    ensures
        forall|j: int|
            0 <= j < turn_fields(n, t, ask).len() ==> text::free_of(
                #[trigger] turn_fields(n, t, ask)[j],
                c,
            ),
{
    text::lemma_dec_plain(n as nat, c);
    civil::lemma_when_plain(t.t0, c);
    match (t.t0, t.t1) {
        (Some(a), Some(b)) => {
            text::lemma_dec_plain(
                binary64::printed_quotient(binary64::as_float((b - a) as nat), 60000) as nat,
                c,
            );
        },
        _ => {},
    }
    text::lemma_dec_int_plain(t.records as int, c);
    text::lemma_dec_int_plain(t.calls as int, c);
    text::lemma_dec_int_plain(t.tools as int, c);
    text::lemma_dec_int_plain(t.errors as int, c);
    text::lemma_dec_int_plain(t.in_tok as int, c);
    text::lemma_dec_int_plain(t.out_tok as int, c);
    text::lemma_dec_int_plain(t.cache as int, c);
    text::lemma_ellipsis_plain(ask, 70, c);
}

#[verifier::spinoff_prover]
#[verifier::rlimit(60)]
proof fn lemma_turn_lines(head: Seq<char>, rows: Seq<Turn>, asks: Seq<Seq<char>>, n: int)
    requires
        0 <= n <= rows.len(),
        n <= asks.len(),
        forall|i: int| 0 <= i < n ==> plain(#[trigger] asks[i]),
    ensures
        ({
            let ls = text::parts(with_turns(head, rows, asks, n), '\n');
            let hs = text::parts(head, '\n');
            &&& ls.len() == hs.len() + n
            &&& forall|i: int| 0 <= i < hs.len() ==> #[trigger] ls[i] == hs[i]
            &&& forall|i: int|
                0 <= i < n ==> text::parts(#[trigger] ls[hs.len() + i], '\t') == turn_fields(
                    i + 1,
                    rows[i],
                    asks[i],
                )
        }),
    decreases n,
{
    if n > 0 {
        lemma_turn_lines(head, rows, asks, n - 1);
        let fs = turn_fields(n, rows[n - 1], asks[n - 1]);
        assert(plain(asks[n - 1]));
        lemma_turn_plain(n, rows[n - 1], asks[n - 1], '\t');
        lemma_turn_plain(n, rows[n - 1], asks[n - 1], '\n');
        text::lemma_fields(fs);
        reveal_strlit("\t");
        text::lemma_join_free(fs, "\t"@, '\n');
        text::lemma_line_below(with_turns(head, rows, asks, n - 1), text::join(fs, "\t"@));
    }
}

/// The names of the columns of a list of turns.
pub open spec fn turn_names() -> Seq<Seq<char>> {
    seq![
        "turn"@,
        "when"@,
        "mins"@,
        "ev"@,
        "calls"@,
        "tools"@,
        "err"@,
        "in"@,
        "out"@,
        "cache"@,
        "ask"@,
    ]
}

#[verifier::spinoff_prover]
#[verifier::rlimit(60)]
proof fn lemma_turn_names()
    ensures
        "\nturn\twhen\tmins\tev\tcalls\ttools\terr\tin\tout\tcache\task"@ == "\n"@ + text::join(
            turn_names(),
            "\t"@,
        ),
        forall|j: int|
            0 <= j < 11 ==> text::free_of(#[trigger] turn_names()[j], '\t') && text::free_of(
                turn_names()[j],
                '\n',
            ),
{
    reveal_strlit("\nturn\twhen\tmins\tev\tcalls\ttools\terr\tin\tout\tcache\task");
    reveal_strlit("\n");
    reveal_strlit("\t");
    reveal_strlit("turn");
    reveal_strlit("when");
    reveal_strlit("mins");
    reveal_strlit("ev");
    reveal_strlit("calls");
    reveal_strlit("tools");
    reveal_strlit("err");
    reveal_strlit("in");
    reveal_strlit("out");
    reveal_strlit("cache");
    reveal_strlit("ask");
    let t = "\t"@;
    let p1 = seq!["turn"@];
    let p2 = p1.push("when"@);
    let p3 = p2.push("mins"@);
    let p4 = p3.push("ev"@);
    let p5 = p4.push("calls"@);
    let p6 = p5.push("tools"@);
    let p7 = p6.push("err"@);
    let p8 = p7.push("in"@);
    let p9 = p8.push("out"@);
    let p10 = p9.push("cache"@);
    let p11 = p10.push("ask"@);
    text::law_join_appends(p1, "when"@, t);
    text::law_join_appends(p2, "mins"@, t);
    text::law_join_appends(p3, "ev"@, t);
    text::law_join_appends(p4, "calls"@, t);
    text::law_join_appends(p5, "tools"@, t);
    text::law_join_appends(p6, "err"@, t);
    text::law_join_appends(p7, "in"@, t);
    text::law_join_appends(p8, "out"@, t);
    text::law_join_appends(p9, "cache"@, t);
    text::law_join_appends(p10, "ask"@, t);
    assert(p11 =~= turn_names());
    assert("\nturn\twhen\tmins\tev\tcalls\ttools\terr\tin\tout\tcache\task"@ =~= "\n"@ + ("turn"@ + t
        + "when"@ + t + "mins"@ + t + "ev"@ + t + "calls"@ + t + "tools"@ + t + "err"@ + t + "in"@
        + t + "out"@ + t + "cache"@ + t + "ask"@));
}

/// A list of turns has a line that tells how many there are, one with the names
/// of its columns, and one for each turn up to the limit, in order; where it was
/// cut one more line follows. Each line says of its turn what the names of the
/// columns promise.
#[verifier::spinoff_prover]
#[verifier::rlimit(60)]
pub proof fn law_turn_lines(
    ext: Seq<char>,
    rows: Seq<Turn>,
    asks: Seq<Seq<char>>,
    limit: int,
    i: int,
)
    requires
        0 <= limit,
        0 <= i < rows.len(),
        i < limit,
        plain(ext),
        asks.len() >= rows.len() || asks.len() >= limit,
        forall|k: int| 0 <= k < asks.len() ==> plain(#[trigger] asks[k]),
    ensures
        ({
            let shown = if rows.len() <= limit {
                rows.len() as int
            } else {
                limit
            };
            let ls = text::parts(turn_table(ext, rows, asks, limit), '\n');
            let names = text::parts(ls[1], '\t');
            let f = text::parts(ls[2 + i], '\t');
            let t = rows[i];
            &&& ls.len() == 2 + shown + (if rows.len() > limit {
                1int
            } else {
                0
            })
            &&& ls[0] == "session="@ + ext + " turns="@ + text::dec(rows.len())
            &&& names == seq![
                "turn"@,
                "when"@,
                "mins"@,
                "ev"@,
                "calls"@,
                "tools"@,
                "err"@,
                "in"@,
                "out"@,
                "cache"@,
                "ask"@,
            ]
            &&& f.len() == 11
            &&& text::parse_unsigned(f[0], usize::MAX as int) == Some((i + 1) as nat) || i
                >= usize::MAX
            &&& t.t0 matches Some(x) ==> f[1] == civil::timestamp(x as int)
            &&& t.t0 is None ==> f[1].len() == 0 && f[2].len() == 0
            &&& f[2] == minutes(t)
            &&& text::parse_signed(f[3]) == Some(t.records as int)
            &&& text::parse_signed(f[4]) == Some(t.calls as int)
            &&& text::parse_signed(f[5]) == Some(t.tools as int)
            &&& t.errors > 0 ==> text::parse_signed(f[6]) == Some(t.errors as int)
            &&& t.errors <= 0 ==> f[6].len() == 0
            &&& text::parse_signed(f[7]) == Some(t.in_tok as int)
            &&& text::parse_signed(f[8]) == Some(t.out_tok as int)
            &&& text::parse_signed(f[9]) == Some(t.cache as int)
            &&& asks[i].len() <= 70 ==> f[10] == asks[i]
            &&& asks[i].len() > 70 ==> f[10].len() == 71 && f[10].take(70) == asks[i].take(70)
        }),
{
    let c = '\n';
    let shown = text::min2(rows.len() as int, limit);
    let first = "session="@ + ext + " turns="@ + text::dec(rows.len());
    reveal_strlit("session=");
    reveal_strlit(" turns=");
    reveal_strlit("\t");
    text::lemma_dec_plain(rows.len(), c);
    text::lemma_free_concat("session="@, ext, c);
    text::lemma_free_concat("session="@ + ext, " turns="@, c);
    text::lemma_free_concat("session="@ + ext + " turns="@, text::dec(rows.len()), c);
    text::lemma_parts_one(first, c);
    lemma_turn_names();
    let line = text::join(turn_names(), "\t"@);
    text::lemma_fields(turn_names());
    text::lemma_join_free(turn_names(), "\t"@, c);
    let head = first + "\nturn\twhen\tmins\tev\tcalls\ttools\terr\tin\tout\tcache\task"@;
    assert(head =~= first + "\n"@ + line);
    text::lemma_line_below(first, line);
    assert(text::parts(head, c) =~= seq![first, line]);
    lemma_turn_lines(head, rows, asks, shown);
    let body = with_turns(head, rows, asks, shown);
    let bs = text::parts(body, c);
    assert(bs[0] == first && bs[1] == line);
    assert(bs[2 + i] == bs[text::parts(head, c).len() + i]);
    if rows.len() > limit {
        let last = "TRUNCATED at limit="@ + text::dec(limit as nat) + ", "@ + text::dec(rows.len())
            + " turns total"@;
        reveal_strlit("\nTRUNCATED at limit=");
        reveal_strlit("TRUNCATED at limit=");
        reveal_strlit(", ");
        reveal_strlit(" turns total");
        reveal_strlit("\n");
        assert("\nTRUNCATED at limit="@ =~= "\n"@ + "TRUNCATED at limit="@);
        text::lemma_dec_plain(limit as nat, c);
        text::lemma_free_concat("TRUNCATED at limit="@, text::dec(limit as nat), c);
        text::lemma_free_concat("TRUNCATED at limit="@ + text::dec(limit as nat), ", "@, c);
        text::lemma_free_concat(
            "TRUNCATED at limit="@ + text::dec(limit as nat) + ", "@,
            text::dec(rows.len()),
            c,
        );
        text::lemma_free_concat(
            "TRUNCATED at limit="@ + text::dec(limit as nat) + ", "@ + text::dec(rows.len()),
            " turns total"@,
            c,
        );
        assert(turn_table(ext, rows, asks, limit) =~= body + "\n"@ + last);
        text::lemma_line_below(body, last);
    }
    let t = rows[i];
    text::law_number_reads_back((i + 1) as nat);
    text::law_integer_reads_back(t.records as int);
    text::law_integer_reads_back(t.calls as int);
    text::law_integer_reads_back(t.tools as int);
    text::law_integer_reads_back(t.errors as int);
    text::law_integer_reads_back(t.in_tok as int);
    text::law_integer_reads_back(t.out_tok as int);
    text::law_integer_reads_back(t.cache as int);
    text::law_cut(asks[i], 70);
    if asks[i].len() > 70 {
        assert(text::ellipsis(asks[i], 70).take(70) =~= asks[i].take(70));
    }
}

/// A turn whose times lie whole minutes apart took that many minutes.
pub proof fn law_minutes(t: Turn, m: int)
    requires
        t.t0 matches Some(a) && t.t1 matches Some(b) && b - a == 60000 * m,
        0 <= m < 100_000_000_000,
    ensures
        minutes(t) == text::dec(m as nat),
{
    let n = (60000 * m) as nat;
    binary64::law_small_integers_are_exact(n);
    binary64::law_whole_quotient(m as nat, 60000);
    assert((m as nat) * 60000 == n);
}

proof fn lemma_step_plain(s: Step, preview: Seq<char>, c: char)
    requires
        text::free_of(text::given(s.kind), c),
        text::free_of(text::given(s.role), c),
        text::free_of(text::given(s.tool), c),
        text::free_of(text::given(s.target), c),
        text::free_of(preview, c),
        c == '\t' || c == '\n',
    ensures
        forall|j: int|
            0 <= j < step_fields(s, preview).len() ==> text::free_of(
                #[trigger] step_fields(s, preview)[j],
                c,
            ),
{
    reveal_strlit("ERR");
    text::lemma_dec_int_plain(s.seq as int, c);
    text::lemma_dec_int_plain(s.len as int, c);
    civil::lemma_when_plain(s.ts, c);
    match s.target {
        Some(t) => {
            text::lemma_ellipsis_plain(t@, 90, c);
        },
        None => {
            text::lemma_ellipsis_plain(preview, 90, c);
        },
    }
}

/// The texts of a row hold no tab and no line feed.
pub open spec fn plain_step(s: Step) -> bool {
    plain(text::given(s.kind)) && plain(text::given(s.role)) && plain(text::given(s.tool)) && plain(
        text::given(s.target),
    )
}

#[verifier::spinoff_prover]
#[verifier::rlimit(60)]
proof fn lemma_step_lines(head: Seq<char>, rows: Seq<Step>, previews: Seq<Seq<char>>, n: int)
    requires
        0 <= n <= rows.len(),
        previews.len() == rows.len(),
        forall|i: int| 0 <= i < rows.len() ==> plain_step(#[trigger] rows[i]),
        forall|i: int| 0 <= i < rows.len() ==> plain(#[trigger] previews[i]),
    ensures
        ({
            let ls = text::parts(with_steps(head, rows, previews, n), '\n');
            let hs = text::parts(head, '\n');
            &&& ls.len() == hs.len() + n
            &&& forall|i: int| 0 <= i < hs.len() ==> #[trigger] ls[i] == hs[i]
            &&& forall|i: int|
                0 <= i < n ==> text::parts(#[trigger] ls[hs.len() + i], '\t') == step_fields(
                    rows[i],
                    previews[i],
                )
        }),
    decreases n,
{
    if n > 0 {
        lemma_step_lines(head, rows, previews, n - 1);
        let fs = step_fields(rows[n - 1], previews[n - 1]);
        assert(plain_step(rows[n - 1]) && plain(previews[n - 1]));
        lemma_step_plain(rows[n - 1], previews[n - 1], '\t');
        lemma_step_plain(rows[n - 1], previews[n - 1], '\n');
        text::lemma_fields(fs);
        reveal_strlit("\t");
        text::lemma_join_free(fs, "\t"@, '\n');
        text::lemma_line_below(with_steps(head, rows, previews, n - 1), text::join(fs, "\t"@));
    }
}

/// The names of the columns of a timeline.
pub open spec fn step_names() -> Seq<Seq<char>> {
    seq!["seq"@, "when"@, "kind"@, "role"@, "tool"@, "err"@, "bytes"@, "what"@]
}

#[verifier::spinoff_prover]
#[verifier::rlimit(60)]
proof fn lemma_step_names()
    ensures
        "\nseq\twhen\tkind\trole\ttool\terr\tbytes\twhat"@ == "\n"@ + text::join(
            step_names(),
            "\t"@,
        ),
        forall|j: int|
            0 <= j < 8 ==> text::free_of(#[trigger] step_names()[j], '\t') && text::free_of(
                step_names()[j],
                '\n',
            ),
{
    reveal_strlit("\nseq\twhen\tkind\trole\ttool\terr\tbytes\twhat");
    reveal_strlit("\n");
    reveal_strlit("\t");
    reveal_strlit("seq");
    reveal_strlit("when");
    reveal_strlit("kind");
    reveal_strlit("role");
    reveal_strlit("tool");
    reveal_strlit("err");
    reveal_strlit("bytes");
    reveal_strlit("what");
    let t = "\t"@;
    let p1 = seq!["seq"@];
    let p2 = p1.push("when"@);
    let p3 = p2.push("kind"@);
    let p4 = p3.push("role"@);
    let p5 = p4.push("tool"@);
    let p6 = p5.push("err"@);
    let p7 = p6.push("bytes"@);
    let p8 = p7.push("what"@);
    text::law_join_appends(p1, "when"@, t);
    text::law_join_appends(p2, "kind"@, t);
    text::law_join_appends(p3, "role"@, t);
    text::law_join_appends(p4, "tool"@, t);
    text::law_join_appends(p5, "err"@, t);
    text::law_join_appends(p6, "bytes"@, t);
    text::law_join_appends(p7, "what"@, t);
    assert(p8 =~= step_names());
    assert("\nseq\twhen\tkind\trole\ttool\terr\tbytes\twhat"@ =~= "\n"@ + ("seq"@ + t + "when"@ + t
        + "kind"@ + t + "role"@ + t + "tool"@ + t + "err"@ + t + "bytes"@ + t + "what"@));
}

/// A timeline has a first line, the names of its columns, and a line for each
/// row, in order, that says of it what the names promise. Where rows follow, the
/// first line tells where to go on.
#[verifier::spinoff_prover]
#[verifier::rlimit(60)]
pub proof fn law_timeline_lines(
    ext: Seq<char>,
    n_ev: int,
    rows: Seq<Step>,
    previews: Seq<Seq<char>>,
    i: int,
)
    requires
        0 <= i < rows.len(),
        previews.len() == rows.len(),
        plain(ext),
        forall|k: int| 0 <= k < rows.len() ==> plain_step(#[trigger] rows[k]),
        forall|k: int| 0 <= k < rows.len() ==> plain(#[trigger] previews[k]),
    ensures
        ({
            let ls = text::parts(step_table(ext, n_ev, rows, previews), '\n');
            let f = text::parts(ls[2 + i], '\t');
            let s = rows[i];
            let first = "session="@ + ext + " events="@ + text::dec_int(n_ev);
            let what = match s.target {
                Some(t) => t@,
                None => previews[i],
            };
            &&& ls.len() == 2 + rows.len()
            &&& rows.last().seq + 1 < n_ev ==> ls[0] == first + " (more: start="@ + text::dec_int(
                rows.last().seq + 1,
            ) + ")"@
            &&& rows.last().seq + 1 >= n_ev ==> ls[0] == first
            &&& text::parts(ls[1], '\t') == seq![
                "seq"@,
                "when"@,
                "kind"@,
                "role"@,
                "tool"@,
                "err"@,
                "bytes"@,
                "what"@,
            ]
            &&& f.len() == 8
            &&& text::parse_signed(f[0]) == Some(s.seq as int)
            &&& s.ts matches Some(x) ==> f[1] == civil::timestamp(x as int)
            &&& s.ts is None ==> f[1].len() == 0
            &&& s.kind matches Some(x) ==> f[2] == x@
            &&& s.kind is None ==> f[2].len() == 0
            &&& s.role matches Some(x) ==> f[3] == x@
            &&& s.role is None ==> f[3].len() == 0
            &&& s.tool matches Some(x) ==> f[4] == x@
            &&& s.tool is None ==> f[4].len() == 0
            &&& (s.is_err == Some(1i64)) <==> f[5] == "ERR"@
            &&& s.is_err != Some(1i64) ==> f[5].len() == 0
            &&& text::parse_signed(f[6]) == Some(s.len as int)
            &&& what.len() <= 90 ==> f[7] == what
            &&& what.len() > 90 ==> f[7].len() == 91 && f[7].take(90) == what.take(90)
        }),
{
    let c = '\n';
    let h = "session="@ + ext + " events="@ + text::dec_int(n_ev);
    let more = if rows.last().seq + 1 < n_ev {
        h + " (more: start="@ + text::dec_int(rows.last().seq + 1) + ")"@
    } else {
        h
    };
    reveal_strlit("session=");
    reveal_strlit(" events=");
    reveal_strlit(" (more: start=");
    reveal_strlit(")");
    reveal_strlit("\t");
    reveal_strlit("ERR");
    text::lemma_dec_int_plain(n_ev, c);
    text::lemma_dec_int_plain(rows.last().seq + 1, c);
    text::lemma_free_concat("session="@, ext, c);
    text::lemma_free_concat("session="@ + ext, " events="@, c);
    text::lemma_free_concat("session="@ + ext + " events="@, text::dec_int(n_ev), c);
    text::lemma_free_concat(h, " (more: start="@, c);
    text::lemma_free_concat(h + " (more: start="@, text::dec_int(rows.last().seq + 1), c);
    text::lemma_free_concat(
        h + " (more: start="@ + text::dec_int(rows.last().seq + 1),
        ")"@,
        c,
    );
    text::lemma_parts_one(more, c);
    lemma_step_names();
    let line = text::join(step_names(), "\t"@);
    text::lemma_fields(step_names());
    text::lemma_join_free(step_names(), "\t"@, c);
    let head = more + "\nseq\twhen\tkind\trole\ttool\terr\tbytes\twhat"@;
    assert(head =~= more + "\n"@ + line);
    text::lemma_line_below(more, line);
    assert(text::parts(head, c) =~= seq![more, line]);
    lemma_step_lines(head, rows, previews, rows.len() as int);
    let ls = text::parts(step_table(ext, n_ev, rows, previews), c);
    assert(ls[0] == more && ls[1] == line);
    assert(ls[2 + i] == ls[text::parts(head, c).len() + i]);
    let s = rows[i];
    text::law_integer_reads_back(s.seq as int);
    text::law_integer_reads_back(s.len as int);
    let what = match s.target {
        Some(t) => t@,
        None => previews[i],
    };
    text::law_cut(what, 90);
    if what.len() > 90 {
        assert(text::ellipsis(what, 90).take(90) =~= what.take(90));
    }
}

/// A list of quoted strings grows by the string that is added, at the end.
pub proof fn law_quoted_list(v: Seq<Seq<char>>, x: Seq<char>)
    ensures
        quoted_list(Seq::empty()) == "[]"@,
        quoted_list(seq![x]) == "["@ + text::json_quote(x) + "]"@,
        v.len() > 0 ==> quoted_list(v.push(x)) == quoted_list(v).drop_last() + ", "@
            + text::json_quote(x) + "]"@,
{
    let q = Seq::new(v.len(), |i: int| text::json_quote(v[i]));
    let w = v.push(x);
    let none = Seq::<Seq<char>>::empty();
    reveal_strlit("[]");
    reveal_strlit("[");
    reveal_strlit("]");
    text::law_join_appends(q, text::json_quote(x), ", "@);
    assert(Seq::new(w.len(), |i: int| text::json_quote(w[i])) =~= q.push(text::json_quote(x)));
    assert(Seq::new(1, |i: int| text::json_quote(seq![x][i])) =~= seq![text::json_quote(x)]);
    assert(Seq::new(0, |i: int| text::json_quote(none[i])) =~= none);
    assert(quoted_list(none) =~= "[]"@);
    if v.len() > 0 {
        assert(quoted_list(v).drop_last() =~= "["@ + text::join(q, ", "@));
        assert(quoted_list(w) =~= quoted_list(v).drop_last() + ", "@ + text::json_quote(x) + "]"@);
    }
}

/// An unknown session is told by its name, with those that it may have meant.
#[verifier::spinoff_prover]
#[verifier::rlimit(60)]
pub proof fn law_no_session(ext: Seq<char>, all: Seq<Seq<char>>)
    ensures
        mcp::scalar_at(no_session(ext, all), "code"@) == Some("ALOG_UNKNOWN_SESSION"@),
        mcp::scalar_at(no_session(ext, all), "message"@) == Some(ext),
        text::ends_with(
            no_session(ext, all),
            ",\"candidates\":"@ + quoted_list(suggest::meant(ext, all, 5)) + "}"@,
        ),
{
    let o = no_session(ext, all);
    let code = "ALOG_UNKNOWN_SESSION"@;
    reveal_strlit("ALOG_UNKNOWN_SESSION");
    reveal_strlit("{\"code\":\"ALOG_UNKNOWN_SESSION\",\"message\":");
    reveal_strlit("{\"code\":\"");
    reveal_strlit("\",\"message\":");
    reveal_strlit(",\"candidates\":");
    let h = "{\"code\":\""@ + code + "\",\"message\":"@;
    assert(h =~= "{\"code\":\"ALOG_UNKNOWN_SESSION\",\"message\":"@);
    let p = h + text::json_quote(ext);
    let z = ",\"candidates\":"@ + quoted_list(suggest::meant(ext, all, 5)) + "}"@;
    assert(o =~= p + z);
    assert(o.subrange(0, p.len() as int) =~= p);
    assert(o[p.len() as int] == ',');
    assert(o.subrange(o.len() - z.len(), o.len() as int) =~= z);
    mcp::lemma_report_reads_back(o, code, ext);
}

proof fn lemma_top_head(h: Seq<char>, top: Seq<(String, i64)>, n: int)
    ensures
        with_top(h, top, n) == h + with_top(Seq::empty(), top, n),
    decreases n,
{
    if n > 0 {
        lemma_top_head(h, top, n - 1);
        assert(with_top(h, top, n) =~= h + with_top(Seq::empty(), top, n));
    } else {
        assert(h + Seq::<char>::empty() =~= h);
    }
}

proof fn lemma_top_same(h: Seq<char>, a: Seq<(String, i64)>, b: Seq<(String, i64)>, n: int)
    requires
        n <= a.len(),
        n <= b.len(),
        forall|i: int| 0 <= i < n ==> a[i] == b[i],
    ensures
        with_top(h, a, n) == with_top(h, b, n),
    decreases n,
{
    if n > 0 {
        lemma_top_same(h, a, b, n - 1);
        assert(a[n - 1] == b[n - 1]);
    }
}

proof fn lemma_spreads_same(h: Seq<char>, a: Seq<Spread>, b: Seq<Spread>, n: int)
    requires
        n <= a.len(),
        n <= b.len(),
        forall|i: int| 0 <= i < n ==> a[i] == b[i],
    ensures
        with_spreads(h, a, n) == with_spreads(h, b, n),
    decreases n,
{
    if n > 0 {
        lemma_spreads_same(h, a, b, n - 1);
        assert(a[n - 1] == b[n - 1]);
    }
}

/// A column of which more is known adds one line to the description: its name, how
/// many values it has and the most frequent ones. The rest stays, and a column
/// without values adds nothing.
#[verifier::spinoff_prover]
#[verifier::rlimit(60)]
pub proof fn law_catalog_grows(s: Store, t: Store, x: Spread)
    requires
        t.records == s.records && t.sessions == s.sessions && t.rejects == s.rejects,
        t.first == s.first && t.last == s.last && t.nulls@ == s.nulls@,
        t.spreads@ == s.spreads@.push(x),
        s.records > 0,
    ensures
        x.total == 0 ==> described(t) == described(s),
        x.total > 0 && x.total <= x.top@.len() ==> described(t) == described(s) + x.col@ + "("@
            + text::dec_int(x.total as int) + "):"@ + with_top(
            Seq::empty(),
            x.top@,
            x.top@.len() as int,
        ) + "\n"@,
        x.top@.len() < x.total <= usize::MAX ==> described(t) == described(s) + x.col@ + "("@ + text::dec_int(
            x.total as int,
        ) + " top"@ + text::dec(x.top@.len()) + "):"@ + with_top(
            Seq::empty(),
            x.top@,
            x.top@.len() as int,
        ) + "\n"@,
{
    let n = s.spreads@.len() as int;
    let head = catalog_head(s);
    assert(described(s) == with_spreads(head, s.spreads@, n));
    assert(described(t) == with_spreads(head, t.spreads@, n + 1));
    lemma_spreads_same(head, s.spreads@, t.spreads@, n);
    assert(t.spreads@[n] == x);
    let d = described(s);
    let a = d + x.col@ + "("@ + text::dec_int(x.total as int);
    let b = if x.total as usize > x.top@.len() {
        a + " top"@ + text::dec(x.top@.len())
    } else {
        a
    };
    lemma_top_head(b + "):"@, x.top@, x.top@.len() as int);
}

/// What a description says before it comes to the values of single columns.
pub open spec fn catalog_head(s: Store) -> Seq<char> {
    let head = "records="@ + text::dec_int(s.records as int) + " sessions="@ + text::dec_int(
        s.sessions as int,
    ) + " rejects="@ + text::dec_int(s.rejects as int) + "\n"@;
    let times = match (s.first, s.last) {
        (Some(a), Some(b)) => head + "time: "@ + civil::timestamp(a as int) + " .. "@
            + civil::timestamp(b as int) + "\n"@,
        _ => head,
    };
    with_nulls(
        times + "cols: "@ + text::join(column_names(), " "@) + "   (ts epoch_ms)\n"@ + "null%:"@,
        s.nulls@,
        s.records as int,
        10,
    ) + "\n"@
}

/// The most frequent values of a column are named in order, each with its number.
pub proof fn law_top_values(h: Seq<char>, top: Seq<(String, i64)>, x: (String, i64))
    ensures
        with_top(h, top.push(x), (top.len() + 1) as int) == with_top(h, top, top.len() as int) + " "@ + x.0@
            + ":"@ + text::dec_int(x.1 as int),
        with_top(h, Seq::empty(), 0) == h,
{
    lemma_top_same(h, top.push(x), top, top.len() as int);
}

/// A description begins with how many records, sessions and rejects there are; an
/// empty store says what to do.
#[verifier::spinoff_prover]
#[verifier::rlimit(60)]
pub proof fn law_catalog_counts(s: Store)
    requires
        s.records >= 0,
    ensures
        text::parts(described(s), '\n')[0] == "records="@ + text::dec_int(s.records as int)
            + " sessions="@ + text::dec_int(s.sessions as int) + " rejects="@ + text::dec_int(
            s.rejects as int,
        ),
        s.records == 0 ==> text::parts(described(s), '\n').len() == 2 && text::parts(
            described(s),
            '\n',
        )[1] == "empty; run `alog sync <dir>`"@,
{
    let c = '\n';
    let h = "records="@ + text::dec_int(s.records as int) + " sessions="@ + text::dec_int(
        s.sessions as int,
    ) + " rejects="@ + text::dec_int(s.rejects as int);
    lemma_first_line_plain(s);
    text::lemma_parts_one(h, c);
    if s.records == 0 {
        let z = "empty; run `alog sync <dir>`"@;
        reveal_strlit("empty; run `alog sync <dir>`");
        reveal_strlit("\n");
        assert("\n"@ =~= seq![c]);
        text::lemma_parts_one(z, c);
        text::lemma_parts_concat(h, c, z);
    } else {
        let nulls = with_nulls("null%:"@, s.nulls@, s.records as int, 10);
        let cols = "cols: "@ + text::join(column_names(), " "@) + "   (ts epoch_ms)"@;
        let rest = with_spreads(Seq::empty(), s.spreads@, s.spreads@.len() as int);
        lemma_described_parts(s, h, cols, nulls, rest);
        let tail = cols + seq![c] + (nulls + seq![c] + rest);
        match (s.first, s.last) {
            (Some(a), Some(b)) => {
                let t = "time: "@ + civil::timestamp(a as int) + " .. "@ + civil::timestamp(
                    b as int,
                );
                text::lemma_parts_concat(h, c, t + seq![c] + tail);
            },
            _ => {
                text::lemma_parts_concat(h, c, tail);
            },
        }
    }
}

/// A column that lacks no value lacks none per cent, and one that lacks all lacks
/// a hundred.
pub proof fn law_percent(records: nat)
    requires
        records > 0,
    ensures
        binary64::printed_quotient(0, records) == 0,
        binary64::printed_quotient(100 * records, records) == 100,
{
    binary64::law_whole_quotient(0, records);
    binary64::law_whole_quotient(100, records);
}

#[verifier::spinoff_prover]
#[verifier::rlimit(60)]
proof fn lemma_cols_plain(i: int, c: char)
    requires
        0 <= i < 14,
        c == ' ' || c == '\n',
    ensures
        text::free_of(COLS@[i]@, c),
{
    reveal_strlit("sid");
    reveal_strlit("seq");
    reveal_strlit("off");
    reveal_strlit("len");
    reveal_strlit("ts");
    reveal_strlit("kind");
    reveal_strlit("role");
    reveal_strlit("model");
    reveal_strlit("tool");
    reveal_strlit("target");
    reveal_strlit("in_tok");
    reveal_strlit("out_tok");
    reveal_strlit("cache_r");
    reveal_strlit("is_err");
    let x = COLS@[i]@;
    assert(x == "sid"@ || x == "seq"@ || x == "off"@ || x == "len"@ || x == "ts"@ || x == "kind"@
        || x == "role"@ || x == "model"@ || x == "tool"@ || x == "target"@ || x == "in_tok"@ || x
        == "out_tok"@ || x == "cache_r"@ || x == "is_err"@);
}

proof fn lemma_nulls_apart(head: Seq<char>, nulls: Seq<i64>, records: int, n: int)
    ensures
        with_nulls(head, nulls, records, n) == head + with_nulls(
            Seq::empty(),
            nulls,
            records,
            n,
        ),
    decreases n,
{
    if n > 0 {
        lemma_nulls_apart(head, nulls, records, n - 1);
        assert(with_nulls(head, nulls, records, n) =~= head + with_nulls(
            Seq::empty(),
            nulls,
            records,
            n,
        ));
    } else {
        assert(head + Seq::<char>::empty() =~= head);
    }
}

/// The share of rows without a value in a column, as it is shown.
pub open spec fn share(nulls: Seq<i64>, records: int, j: int) -> Seq<char> {
    text::dec(binary64::printed_quotient((100 * nulls[j]) as nat, records as nat) as nat)
}

#[verifier::spinoff_prover]
#[verifier::rlimit(60)]
proof fn lemma_null_words(head: Seq<char>, nulls: Seq<i64>, records: int, n: int)
    requires
        0 <= n <= 10,
        text::free_of(head, ' ') && text::free_of(head, '\n'),
    ensures
        ({
            let w = with_nulls(head, nulls, records, n);
            let ps = text::parts(w, ' ');
            &&& text::free_of(w, '\n')
            &&& ps.len() == 2 * n + 1
            &&& ps[0] == head
            &&& forall|j: int|
                0 <= j < n ==> #[trigger] ps[2 * j + 1] == COLS@[j + 4]@ && ps[2 * j + 2] == share(
                    nulls,
                    records,
                    j,
                )
        }),
    decreases n,
{
    if n == 0 {
        text::lemma_parts_one(head, ' ');
    } else {
        lemma_null_words(head, nulls, records, n - 1);
        let u = with_nulls(head, nulls, records, n - 1);
        let x = COLS@[n + 3]@;
        let y = share(nulls, records, n - 1);
        let m = binary64::printed_quotient((100 * nulls[n - 1]) as nat, records as nat) as nat;
        reveal_strlit(" ");
        assert(" "@ =~= seq![' ']);
        lemma_cols_plain(n + 3, ' ');
        lemma_cols_plain(n + 3, '\n');
        text::lemma_dec_plain(m, ' ');
        text::lemma_dec_plain(m, '\n');
        text::lemma_parts_one(x, ' ');
        text::lemma_parts_one(y, ' ');
        text::lemma_parts_concat(u, ' ', x);
        text::lemma_parts_concat(u + seq![' '] + x, ' ', y);
        let w = with_nulls(head, nulls, records, n);
        assert(w =~= u + seq![' '] + x + seq![' '] + y);
        text::lemma_free_concat(u, " "@, '\n');
        text::lemma_free_concat(u + " "@, x, '\n');
        text::lemma_free_concat(u + " "@ + x, " "@, '\n');
        text::lemma_free_concat(u + " "@ + x + " "@, y, '\n');
        let ps = text::parts(w, ' ');
        let us = text::parts(u, ' ');
        assert(ps =~= us + seq![x] + seq![y]);
        assert forall|j: int| 0 <= j < n implies #[trigger] ps[2 * j + 1] == COLS@[j + 4]@ && ps[2
            * j + 2] == share(nulls, records, j) by {
            if j < n - 1 {
                assert(us[2 * j + 1] == COLS@[j + 4]@);
                assert(ps[2 * j + 1] == us[2 * j + 1]);
                assert(ps[2 * j + 2] == us[2 * j + 2]);
            }
        }
    }
}

/// The line on missing values names every column from the fifth on, each with the
/// share of rows that lack it.
#[verifier::spinoff_prover]
#[verifier::rlimit(60)]
pub proof fn law_null_columns(nulls: Seq<i64>, records: int, j: int)
    requires
        0 <= j < 10,
    ensures
        ({
            let ps = text::parts(with_nulls("null%:"@, nulls, records, 10), ' ');
            &&& ps.len() == 21
            &&& ps[0] == "null%:"@
            &&& ps[2 * j + 1] == seq![
                "ts"@,
                "kind"@,
                "role"@,
                "model"@,
                "tool"@,
                "target"@,
                "in_tok"@,
                "out_tok"@,
                "cache_r"@,
                "is_err"@,
            ][j]
            &&& ps[2 * j + 2] == text::dec(
                binary64::printed_quotient((100 * nulls[j]) as nat, records as nat) as nat,
            )
        }),
{
    reveal_strlit("null%:");
    lemma_null_words("null%:"@, nulls, records, 10);
    let ps = text::parts(with_nulls("null%:"@, nulls, records, 10), ' ');
    assert(ps[2 * j + 1] == COLS@[j + 4]@);
    assert(COLS@[4]@ == "ts"@ && COLS@[5]@ == "kind"@ && COLS@[6]@ == "role"@ && COLS@[7]@
        == "model"@ && COLS@[8]@ == "tool"@);
    assert(COLS@[9]@ == "target"@ && COLS@[10]@ == "in_tok"@ && COLS@[11]@ == "out_tok"@
        && COLS@[12]@ == "cache_r"@ && COLS@[13]@ == "is_err"@);
}

/// The description has a line with the times of the first and the last record,
/// where they are known, one with the names of the columns, and one on missing
/// values, in this order.
#[verifier::spinoff_prover]
#[verifier::rlimit(60)]
pub proof fn law_catalog_lines(s: Store)
    requires
        s.records > 0,
    ensures
        ({
            let ls = text::parts(described(s), '\n');
            let timed = s.first is Some && s.last is Some;
            let k = if timed {
                2int
            } else {
                1int
            };
            &&& ls.len() > k + 1
            &&& timed ==> ls[1] == "time: "@ + civil::timestamp(s.first->Some_0 as int) + " .. "@
                + civil::timestamp(s.last->Some_0 as int)
            &&& ls[k] == "cols: "@ + text::join(column_names(), " "@) + "   (ts epoch_ms)"@
            &&& ls[k + 1] == with_nulls("null%:"@, s.nulls@, s.records as int, 10)
        }),
{
    let c = '\n';
    let a = text::dec_int(s.records as int);
    let b = text::dec_int(s.sessions as int);
    let e = text::dec_int(s.rejects as int);
    let h = "records="@ + a + " sessions="@ + b + " rejects="@ + e;
    let timed = s.first is Some && s.last is Some;
    law_catalog_counts(s);
    lemma_first_line_plain(s);
    let cols = "cols: "@ + text::join(column_names(), " "@) + "   (ts epoch_ms)"@;
    let nulls = with_nulls("null%:"@, s.nulls@, s.records as int, 10);
    lemma_cols_line();
    reveal_strlit("null%:");
    lemma_null_words("null%:"@, s.nulls@, s.records as int, 10);
    let rest = with_spreads(Seq::empty(), s.spreads@, s.spreads@.len() as int);
    reveal_strlit("\n");
    assert("\n"@ =~= seq![c]);
    let tail = cols + seq![c] + (nulls + seq![c] + rest);
    text::lemma_parts_one(h, c);
    text::lemma_parts_one(cols, c);
    text::lemma_parts_one(nulls, c);
    text::lemma_parts_some(rest, c);
    text::lemma_parts_concat(nulls, c, rest);
    text::lemma_parts_concat(cols, c, nulls + seq![c] + rest);
    lemma_described_parts(s, h, cols, nulls, rest);
    if timed {
        let t = "time: "@ + civil::timestamp(s.first->Some_0 as int) + " .. "@ + civil::timestamp(
            s.last->Some_0 as int,
        );
        lemma_times_plain(s.first->Some_0, s.last->Some_0);
        text::lemma_parts_one(t, c);
        text::lemma_parts_concat(t, c, tail);
        text::lemma_parts_concat(h, c, t + seq![c] + tail);
    } else {
        text::lemma_parts_concat(h, c, tail);
    }
}

proof fn lemma_times_plain(a: i64, b: i64)
    ensures
        text::free_of(
            "time: "@ + civil::timestamp(a as int) + " .. "@ + civil::timestamp(b as int),
            '\n',
        ),
{
    let c = '\n';
    reveal_strlit("time: ");
    reveal_strlit(" .. ");
    civil::lemma_when_plain(Some(a), c);
    civil::lemma_when_plain(Some(b), c);
    let x = civil::timestamp(a as int);
    let y = civil::timestamp(b as int);
    text::lemma_free_concat("time: "@, x, c);
    text::lemma_free_concat("time: "@ + x, " .. "@, c);
    text::lemma_free_concat("time: "@ + x + " .. "@, y, c);
}

proof fn lemma_cols_line()
    ensures
        text::free_of(
            "cols: "@ + text::join(column_names(), " "@) + "   (ts epoch_ms)"@,
            '\n',
        ),
        "   (ts epoch_ms)\n"@ == "   (ts epoch_ms)"@ + seq!['\n'],
{
    let c = '\n';
    let ns = column_names();
    reveal_strlit("cols: ");
    reveal_strlit(" ");
    reveal_strlit("   (ts epoch_ms)");
    reveal_strlit("   (ts epoch_ms)\n");
    assert("   (ts epoch_ms)\n"@ =~= "   (ts epoch_ms)"@ + seq!['\n']);
    assert forall|i: int| 0 <= i < ns.len() implies text::free_of(#[trigger] ns[i], c) by {
        lemma_cols_plain(i, c);
    }
    text::lemma_join_free(ns, " "@, c);
    text::lemma_free_concat("cols: "@, text::join(ns, " "@), c);
    text::lemma_free_concat("cols: "@ + text::join(ns, " "@), "   (ts epoch_ms)"@, c);
}

proof fn lemma_first_line_plain(s: Store)
    ensures
        text::free_of(
            "records="@ + text::dec_int(s.records as int) + " sessions="@ + text::dec_int(
                s.sessions as int,
            ) + " rejects="@ + text::dec_int(s.rejects as int),
            '\n',
        ),
{
    let c = '\n';
    let a = text::dec_int(s.records as int);
    let b = text::dec_int(s.sessions as int);
    let e = text::dec_int(s.rejects as int);
    reveal_strlit("records=");
    reveal_strlit(" sessions=");
    reveal_strlit(" rejects=");
    text::lemma_dec_int_plain(s.records as int, c);
    text::lemma_dec_int_plain(s.sessions as int, c);
    text::lemma_dec_int_plain(s.rejects as int, c);
    text::lemma_free_concat("records="@, a, c);
    text::lemma_free_concat("records="@ + a, " sessions="@, c);
    text::lemma_free_concat("records="@ + a + " sessions="@, b, c);
    text::lemma_free_concat("records="@ + a + " sessions="@ + b, " rejects="@, c);
    text::lemma_free_concat("records="@ + a + " sessions="@ + b + " rejects="@, e, c);
}

#[verifier::spinoff_prover]
#[verifier::rlimit(60)]
proof fn lemma_spreads_apart(head: Seq<char>, spreads: Seq<Spread>, n: int)
    ensures
        with_spreads(head, spreads, n) == head + with_spreads(Seq::empty(), spreads, n),
    decreases n,
{
    if n > 0 {
        lemma_spreads_apart(head, spreads, n - 1);
        let none = Seq::<char>::empty();
        let u = with_spreads(head, spreads, n - 1);
        let v = with_spreads(none, spreads, n - 1);
        let s = spreads[n - 1];
        if s.total != 0 {
            let a = s.col@ + "("@ + text::dec_int(s.total as int);
            let b = if s.total as usize > s.top@.len() {
                a + " top"@ + text::dec(s.top@.len())
            } else {
                a
            };
            let top = s.top@;
            let m = top.len() as int;
            let x = if s.total as usize > s.top@.len() {
                u + s.col@ + "("@ + text::dec_int(s.total as int) + " top"@ + text::dec(s.top@.len())
            } else {
                u + s.col@ + "("@ + text::dec_int(s.total as int)
            };
            let y = if s.total as usize > s.top@.len() {
                v + s.col@ + "("@ + text::dec_int(s.total as int) + " top"@ + text::dec(s.top@.len())
            } else {
                v + s.col@ + "("@ + text::dec_int(s.total as int)
            };
            lemma_top_head(x + "):"@, top, m);
            lemma_top_head(y + "):"@, top, m);
            assert(x =~= head + y);
            let t = with_top(none, top, m);
            assert(x + "):"@ + t + "\n"@ =~= head + (y + "):"@ + t + "\n"@));
        }
    } else {
        assert(head + Seq::<char>::empty() =~= head);
    }
}

#[verifier::spinoff_prover]
#[verifier::rlimit(60)]
proof fn lemma_described_parts(
    s: Store,
    h: Seq<char>,
    cols: Seq<char>,
    nulls: Seq<char>,
    rest: Seq<char>,
)
    requires
        s.records > 0,
        h == "records="@ + text::dec_int(s.records as int) + " sessions="@ + text::dec_int(
            s.sessions as int,
        ) + " rejects="@ + text::dec_int(s.rejects as int),
        cols == "cols: "@ + text::join(column_names(), " "@) + "   (ts epoch_ms)"@,
        nulls == with_nulls("null%:"@, s.nulls@, s.records as int, 10),
        rest == with_spreads(Seq::empty(), s.spreads@, s.spreads@.len() as int),
    ensures
        ({
            let tail = cols + seq!['\n'] + (nulls + seq!['\n'] + rest);
            match (s.first, s.last) {
                (Some(a), Some(b)) => described(s) == h + seq!['\n'] + ("time: "@
                    + civil::timestamp(a as int) + " .. "@ + civil::timestamp(b as int) + seq!['\n']
                    + tail),
                _ => described(s) == h + seq!['\n'] + tail,
            }
        }),
{
    lemma_cols_line();
    reveal_strlit("\n");
    assert("\n"@ =~= seq!['\n']);
    let nl = seq!['\n'];
    let head = h + nl;
    let times = match (s.first, s.last) {
        (Some(a), Some(b)) => head + "time: "@ + civil::timestamp(a as int) + " .. "@
            + civil::timestamp(b as int) + nl,
        _ => head,
    };
    let join = text::join(column_names(), " "@);
    let c = times + "cols: "@ + join + "   (ts epoch_ms)\n"@ + "null%:"@;
    assert(c =~= times + cols + nl + "null%:"@);
    lemma_nulls_apart(c, s.nulls@, s.records as int, 10);
    lemma_nulls_apart("null%:"@, s.nulls@, s.records as int, 10);
    let n = with_nulls(Seq::empty(), s.nulls@, s.records as int, 10);
    let w = with_nulls(c, s.nulls@, s.records as int, 10) + nl;
    assert(w =~= times + cols + nl + nulls + nl);
    lemma_spreads_apart(w, s.spreads@, s.spreads@.len() as int);
    assert(described(s) == w + rest);
    let tail = cols + nl + (nulls + nl + rest);
    assert(w + rest =~= times + tail);
    match (s.first, s.last) {
        (Some(a), Some(b)) => {
            let t = "time: "@ + civil::timestamp(a as int) + " .. "@ + civil::timestamp(b as int);
            assert(times + tail =~= h + nl + (t + nl + tail));
        },
        _ => {},
    }
}

/// However many turns there are and whatever the limit, a list of them has a line
/// for each that is shown between its two first lines and, where it was cut, its
/// last one; the first line tells how many turns there are in all.
#[verifier::spinoff_prover]
#[verifier::rlimit(60)]
pub proof fn law_turn_count(ext: Seq<char>, rows: Seq<Turn>, asks: Seq<Seq<char>>, limit: int)
    requires
        0 <= limit,
        plain(ext),
        asks.len() >= rows.len() || asks.len() >= limit,
        forall|k: int| 0 <= k < asks.len() ==> plain(#[trigger] asks[k]),
    ensures
        ({
            let ls = text::parts(turn_table(ext, rows, asks, limit), '\n');
            &&& rows.len() <= limit ==> ls.len() == 2 + rows.len()
            &&& rows.len() > limit ==> ls.len() == 3 + limit && ls.last() == "TRUNCATED at limit="@
                + text::dec(limit as nat) + ", "@ + text::dec(rows.len()) + " turns total"@
            &&& ls[0] == "session="@ + ext + " turns="@ + text::dec(rows.len())
            &&& text::parts(ls[1], '\t') == turn_names()
        }),
{
    let c = '\n';
    let shown = text::min2(rows.len() as int, limit);
    let first = "session="@ + ext + " turns="@ + text::dec(rows.len());
    reveal_strlit("session=");
    reveal_strlit(" turns=");
    reveal_strlit("\t");
    text::lemma_dec_plain(rows.len(), c);
    text::lemma_free_concat("session="@, ext, c);
    text::lemma_free_concat("session="@ + ext, " turns="@, c);
    text::lemma_free_concat("session="@ + ext + " turns="@, text::dec(rows.len()), c);
    text::lemma_parts_one(first, c);
    lemma_turn_names();
    let line = text::join(turn_names(), "\t"@);
    text::lemma_fields(turn_names());
    text::lemma_join_free(turn_names(), "\t"@, c);
    let head = first + "\nturn\twhen\tmins\tev\tcalls\ttools\terr\tin\tout\tcache\task"@;
    assert(head =~= first + "\n"@ + line);
    text::lemma_line_below(first, line);
    assert(text::parts(head, c) =~= seq![first, line]);
    lemma_turn_lines(head, rows, asks, shown);
    let body = with_turns(head, rows, asks, shown);
    let bs = text::parts(body, c);
    assert(bs[0] == first && bs[1] == line);
    if rows.len() > limit {
        let last = "TRUNCATED at limit="@ + text::dec(limit as nat) + ", "@ + text::dec(rows.len())
            + " turns total"@;
        reveal_strlit("\nTRUNCATED at limit=");
        reveal_strlit("TRUNCATED at limit=");
        reveal_strlit(", ");
        reveal_strlit(" turns total");
        reveal_strlit("\n");
        assert("\nTRUNCATED at limit="@ =~= "\n"@ + "TRUNCATED at limit="@);
        text::lemma_dec_plain(limit as nat, c);
        text::lemma_free_concat("TRUNCATED at limit="@, text::dec(limit as nat), c);
        text::lemma_free_concat("TRUNCATED at limit="@ + text::dec(limit as nat), ", "@, c);
        text::lemma_free_concat(
            "TRUNCATED at limit="@ + text::dec(limit as nat) + ", "@,
            text::dec(rows.len()),
            c,
        );
        text::lemma_free_concat(
            "TRUNCATED at limit="@ + text::dec(limit as nat) + ", "@ + text::dec(rows.len()),
            " turns total"@,
            c,
        );
        assert(turn_table(ext, rows, asks, limit) =~= body + "\n"@ + last);
        text::lemma_line_below(body, last);
    }
}

/// A timeline without rows has its first line and the names of its columns.
#[verifier::spinoff_prover]
#[verifier::rlimit(60)]
pub proof fn law_empty_timeline(ext: Seq<char>, n_ev: int)
    requires
        plain(ext),
    ensures
        ({
            let ls = text::parts(step_table(ext, n_ev, Seq::empty(), Seq::empty()), '\n');
            &&& ls.len() == 2
            &&& ls[0] == "session="@ + ext + " events="@ + text::dec_int(n_ev)
            &&& text::parts(ls[1], '\t') == step_names()
        }),
{
    let c = '\n';
    let h = "session="@ + ext + " events="@ + text::dec_int(n_ev);
    reveal_strlit("session=");
    reveal_strlit(" events=");
    reveal_strlit("\t");
    text::lemma_dec_int_plain(n_ev, c);
    text::lemma_free_concat("session="@, ext, c);
    text::lemma_free_concat("session="@ + ext, " events="@, c);
    text::lemma_free_concat("session="@ + ext + " events="@, text::dec_int(n_ev), c);
    text::lemma_parts_one(h, c);
    lemma_step_names();
    let line = text::join(step_names(), "\t"@);
    text::lemma_fields(step_names());
    text::lemma_join_free(step_names(), "\t"@, c);
    assert(h + "\nseq\twhen\tkind\trole\ttool\terr\tbytes\twhat"@ =~= h + "\n"@ + line);
    text::lemma_line_below(h, line);
    assert(text::parts(h + "\n"@ + line, c) =~= seq![h, line]);
}

/// A table without rows, or with a limit of none, has its first line and the names
/// of its columns, and below them the hint if there is one.
#[verifier::spinoff_prover]
#[verifier::rlimit(60)]
pub proof fn law_empty_table(
    names: Seq<Seq<char>>,
    rows: Seq<Vec<Cell>>,
    limit: int,
    elapsed: int,
    hint: Seq<char>,
)
    requires
        rows.len() == 0 && limit >= 0 || limit == 0,
        names.len() > 0,
        forall|k: int|
            0 <= k < names.len() ==> text::free_of(#[trigger] names[k], '\t') && text::free_of(
                names[k],
                '\n',
            ),
        text::free_of(hint, '\n'),
    ensures
        ({
            let ls = text::parts(table(names, rows, limit, elapsed, None), '\n');
            let hs = text::parts(table(names, rows, limit, elapsed, Some(hint)), '\n');
            &&& ls.len() == 2
            &&& text::starts_with(ls[0], "rows=0 elapsed="@)
            &&& text::parts(ls[1], '\t') == names
            &&& hs == ls.push(hint)
        }),
{
    let h = "rows="@ + text::dec(0) + " elapsed="@ + text::dec(elapsed as nat) + "ms"@;
    let t = if rows.len() > limit {
        h + " TRUNCATED at limit="@ + text::dec(limit as nat) + ", more rows exist"@
    } else {
        h
    };
    reveal_strlit("rows=");
    reveal_strlit("rows=0 elapsed=");
    reveal_strlit(" elapsed=");
    reveal_strlit("ms");
    reveal_strlit(" TRUNCATED at limit=");
    reveal_strlit(", more rows exist");
    let c = '\n';
    text::lemma_dec_plain(0, c);
    text::lemma_dec_plain(elapsed as nat, c);
    text::lemma_dec_plain(limit as nat, c);
    text::lemma_free_concat("rows="@, text::dec(0), c);
    text::lemma_free_concat("rows="@ + text::dec(0), " elapsed="@, c);
    text::lemma_free_concat(
        "rows="@ + text::dec(0) + " elapsed="@,
        text::dec(elapsed as nat),
        c,
    );
    text::lemma_free_concat(
        "rows="@ + text::dec(0) + " elapsed="@ + text::dec(elapsed as nat),
        "ms"@,
        c,
    );
    text::lemma_free_concat(h, " TRUNCATED at limit="@, c);
    text::lemma_free_concat(h + " TRUNCATED at limit="@, text::dec(limit as nat), c);
    text::lemma_free_concat(
        h + " TRUNCATED at limit="@ + text::dec(limit as nat),
        ", more rows exist"@,
        c,
    );
    text::lemma_parts_one(t, c);
    reveal_strlit("\t");
    text::lemma_join_free(names, "\t"@, c);
    text::lemma_fields(names);
    let line = text::join(names, "\t"@);
    text::lemma_line_below(t, line);
    let head = t + "\n"@ + line;
    assert(text::parts(head, c) =~= seq![t, line]);
    text::lemma_line_below(head, hint);
    assert(table(names, rows, limit, elapsed, None) == head);
    assert(table(names, rows, limit, elapsed, Some(hint)) == head + "\n"@ + hint);
    assert(text::dec(0) =~= seq!['0']) by {
        reveal_with_fuel(text::dec, 2);
    }
    let p = "rows=0 elapsed="@;
    assert(p =~= "rows="@ + text::dec(0) + " elapsed="@);
    assert(t.subrange(0, p.len() as int) =~= p);
}

} // verus!
