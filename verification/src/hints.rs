//! Errors that name their fix.

use crate::cli;
use crate::mcp;
use crate::query;
use crate::suggest;
use crate::text;
use vstd::prelude::*;
use vstd::slice::*;
use vstd::string::*;
use vstd::utf8::*;

verus! {

/// What stands behind the first colon of a message, up to the next.
pub open spec fn after_colon(msg: Seq<char>) -> Seq<char> {
    match text::find(msg, seq![':']) {
        None => Seq::empty(),
        Some(i) => {
            let rest = msg.skip(i + 1);
            match text::find(rest, seq![':']) {
                None => rest,
                Some(j) => rest.take(j),
            }
        },
    }
}

/// The name that an error of the database complains of.
pub open spec fn bad_name(msg: Seq<char>) -> Seq<char> {
    let words = text::words(after_colon(msg));
    if words.len() == 0 {
        Seq::empty()
    } else {
        words[0]
    }
}

/// The code of an error and the names that may have been meant, where `low` is
/// the message in lower case.
pub open spec fn diagnosis(msg: Seq<char>, low: Seq<char>, tables: Seq<Seq<char>>) -> (
    Seq<char>,
    Seq<Seq<char>>,
) {
    if text::contains(low, "no such column"@) {
        ("ALOG_UNKNOWN_COLUMN"@, suggest::meant(bad_name(msg), query::column_names(), 4))
    } else if text::contains(low, "no such table"@) {
        let near = suggest::meant(bad_name(msg), tables, 4);
        (
            "ALOG_UNKNOWN_TABLE"@,
            if near.len() == 0 {
                tables
            } else {
                near
            },
        )
    } else if text::contains(low, "not authorized"@) {
        ("ALOG_DENIED"@, Seq::empty())
    } else {
        ("ALOG_SQL_ERROR"@, Seq::empty())
    }
}

/// An error of the database: its code, its message, the names that may have been
/// meant, and whether one of them is likely the fix.
pub open spec fn sql_report(msg: Seq<char>, low: Seq<char>, tables: Seq<Seq<char>>) -> Seq<char> {
    let (code, cands) = diagnosis(msg, low, tables);
    "{\"code\":\""@ + code + "\",\"message\":"@ + text::json_quote(msg) + ",\"candidates\":"@
        + query::quoted_list(cands) + ",\"applicability\":\""@ + (if cands.len() == 0 {
        "Unspecified"@
    } else {
        "MachineApplicable"@
    }) + "\"}"@
}

fn colon_part(msg: &str) -> (r: Vec<char>)
    ensures
        r@ == after_colon(msg@),
{
    let v = text::chars_of(msg);
    let colon: [char; 1] = [':'];
    assert(colon@ =~= seq![':']);
    match text::find_chars(&v, &colon) {
        None => Vec::new(),
        Some(i) => {
            proof {
                text::lemma_find_from(v@, colon@, 0);
            }
            assert(text::occurs_at(v@, colon@, i as int));
            let n: usize = v.len();
            let rest = slice_subrange(&v, i + 1, n);
            assert(rest@ =~= v@.skip(i + 1));
            match text::find_chars(rest, &colon) {
                None => slice_to_vec(rest),
                Some(j) => {
                    proof {
                        text::lemma_find_from(rest@, colon@, 0);
                    }
                    assert(text::occurs_at(rest@, colon@, j as int));
                    let part = slice_subrange(rest, 0, j);
                    assert(part@ =~= rest@.take(j as int));
                    slice_to_vec(part)
                },
            }
        },
    }
}

fn complained_of(msg: &str) -> (r: String)
    ensures
        r@ == bad_name(msg@),
{
    let words = text::split_words(&colon_part(msg));
    if words.len() == 0 {
        assert(text::words(after_colon(msg@)).len() == 0);
        let s = String::new();
        assert(s@ =~= Seq::empty());
        s
    } else {
        assert(text::words(after_colon(msg@))[0] == words@[0]@);
        text::string_of(&words[0])
    }
}

/// An error of the database as a report, where `low` is the message in lower
/// case.
pub fn sql_error_in(msg: &str, low: &str, tables: &Vec<String>) -> (r: String)
    ensures
        r@ == sql_report(msg@, low@, text::texts(tables@)),
{
    let (code, cands): (&str, Vec<String>) = if text::str_contains(low, "no such column") {
        let bad = complained_of(msg);
        ("ALOG_UNKNOWN_COLUMN", suggest::closest(bad.as_str(), &query::columns(), 4))
    } else if text::str_contains(low, "no such table") {
        let bad = complained_of(msg);
        let near = suggest::closest(bad.as_str(), tables, 4);
        if near.len() == 0 {
            ("ALOG_UNKNOWN_TABLE", copy_strings(tables))
        } else {
            ("ALOG_UNKNOWN_TABLE", near)
        }
    } else if text::str_contains(low, "not authorized") {
        ("ALOG_DENIED", Vec::new())
    } else {
        ("ALOG_SQL_ERROR", Vec::new())
    };
    assert((code@, text::texts(cands@)) == diagnosis(msg@, low@, text::texts(tables@))) by {
        assert(cands@.len() == 0 ==> text::texts(cands@) =~= Seq::empty());
    }
    let mut out = "{\"code\":\"".to_owned();
    out.append(code);
    out.append("\",\"message\":");
    text::push_json(&mut out, msg);
    out.append(",\"candidates\":");
    out.append(query::quote_list(&cands).as_str());
    out.append(",\"applicability\":\"");
    if cands.len() == 0 {
        out.append("Unspecified");
    } else {
        out.append("MachineApplicable");
    }
    out.append("\"}");
    out
}

/// A copy of some strings.
fn copy_strings(v: &Vec<String>) -> (r: Vec<String>)
    ensures
        text::texts(r@) == text::texts(v@),
{
    let mut out: Vec<String> = Vec::new();
    let mut i: usize = 0;
    while i < v.len()
        invariant
            i <= v@.len(),
            out@.len() == i,
            forall|k: int| 0 <= k < i ==> (#[trigger] out@[k])@ == v@[k]@,
        decreases v.len() - i,
    {
        out.push(v[i].clone());
        i += 1;
    }
    assert(text::texts(out@) =~= text::texts(v@));
    out
}

/// An error of the database as a report that a reader can act on. `tables` holds
/// the names of the tables there are.
pub fn sql_error(msg: &str, tables: &Vec<String>) -> (r: String)
    ensures
        r@ == sql_report(msg@, text::lowercase(msg@), text::texts(tables@)),
{
    let low = text::to_lowercase(msg);
    sql_error_in(msg, low.as_str(), tables)
}

/// A full-text query that could not be read, as a report.
pub open spec fn fts_report(msg: Seq<char>) -> Seq<char> {
    "{\"code\":\"ALOG_BAD_QUERY\",\"message\":"@ + text::json_quote(msg)
        + ",\"syntax\":\"term, \\\"exact phrase\\\", A AND B, A OR B, NOT B, pre*\"}"@
}

/// A full-text query that could not be read, as a report.
pub fn fts_error(msg: &str) -> (r: String)
    ensures
        r@ == fts_report(msg@),
        r@ == "{\"code\":\"ALOG_BAD_QUERY\",\"message\":"@ + text::json_quote(msg@)
            + ",\"syntax\":\"term, \\\"exact phrase\\\", A AND B, A OR B, NOT B, pre*\"}"@,
{
    let mut out = "{\"code\":\"ALOG_BAD_QUERY\",\"message\":".to_owned();
    text::push_json(&mut out, msg);
    out.append(
        ",\"syntax\":\"term, \\\"exact phrase\\\", A AND B, A OR B, NOT B, pre*\"}",
    );
    out
}

// ---------------------------------------------------------------------------
// No rows
// ---------------------------------------------------------------------------

/// Where a column is compared in a statement, and the text behind that.
pub enum Compared {
    /// The column is not compared.
    Nowhere,
    /// The place does not fall between two characters of the statement, which
    /// lower case can cause.
    Astray,
    /// What stands behind the comparison.
    Behind(Seq<char>),
}

/// What stands behind index `i` of some bytes.
pub open spec fn behind(b: Seq<u8>, i: int) -> Compared {
    if i <= b.len() && valid_utf8(b.skip(i)) {
        Compared::Behind(decode_utf8(b.skip(i)))
    } else {
        Compared::Astray
    }
}

/// Where a column is first compared. It is looked for in the statement in lower
/// case, `low`, and what stands behind is taken from the statement.
pub open spec fn compared(sql: Seq<char>, low: Seq<char>, col: Seq<char>) -> Compared {
    let b = encode_utf8(sql);
    let l = encode_utf8(low);
    let p = encode_utf8(col + "="@);
    let q = encode_utf8(col + " ="@);
    match text::find(l, p) {
        Some(i) => behind(b, i + p.len()),
        None => match text::find(l, q) {
            Some(i) => behind(b, i + q.len()),
            None => Compared::Nowhere,
        },
    }
}

/// The quoted text at the start of some text.
pub open spec fn literal(s: Seq<char>) -> Option<Seq<char>> {
    let t = text::trim_start(s);
    if t.len() > 0 && t[0] == '\'' {
        let r = t.drop_first();
        match text::find(r, seq!['\'']) {
            Some(k) => Some(r.take(k)),
            None => Some(r),
        }
    } else {
        None
    }
}

/// The quoted texts that the first `n` columns are compared with, each with the
/// index of the column. `None` where a comparison was found astray.
pub open spec fn literals_of(sql: Seq<char>, low: Seq<char>, n: int) -> Option<
    Seq<(int, Seq<char>)>,
>
    decreases n,
{
    if n <= 0 {
        Some(Seq::empty())
    } else {
        match (literals_of(sql, low, n - 1), compared(sql, low, query::COLS@[n - 1]@)) {
            (None, _) => None,
            (Some(_), Compared::Astray) => None,
            (Some(v), Compared::Nowhere) => Some(v),
            (Some(v), Compared::Behind(s)) => match literal(s) {
                Some(t) => Some(v.push((n - 1, t))),
                None => Some(v),
            },
        }
    }
}

/// What some literals stand for.
pub open spec fn literal_views(v: Seq<(usize, String)>) -> Seq<(int, Seq<char>)> {
    Seq::new(v.len(), |i: int| (v[i].0 as int, v[i].1@))
}

/// Where a column is compared.
enum Place {
    Nowhere,
    Astray,
    Behind(Vec<char>),
}

impl Place {
    spec fn compared(self) -> Compared {
        match self {
            Place::Nowhere => Compared::Nowhere,
            Place::Astray => Compared::Astray,
            Place::Behind(v) => Compared::Behind(v@),
        }
    }
}

fn place_behind(b: &[u8], i: usize) -> (r: Place)
    ensures
        r.compared() == behind(b@, i as int),
{
    broadcast use {encode_utf8_decode_utf8, decode_utf8_encode_utf8};

    if i > b.len() {
        return Place::Astray;
    }
    let rest = slice_subrange(b, i, b.len());
    assert(rest@ =~= b@.skip(i as int));
    match text::from_utf8(rest) {
        Some(s) => {
            assert(s@ == decode_utf8(rest@));
            Place::Behind(text::chars_of(s))
        },
        None => Place::Astray,
    }
}

fn find_compared(sql: &str, low: &str, col: &str) -> (r: Place)
    ensures
        r.compared() == compared(sql@, low@, col@),
{
    let b = sql.as_bytes();
    let l = low.as_bytes();
    let n: usize = l.len();
    let mut p = col.to_owned();
    p.append("=");
    let mut q = col.to_owned();
    q.append(" =");
    let pb = p.as_str().as_bytes();
    let qb = q.as_str().as_bytes();
    match text::find_bytes(l, pb) {
        Some(i) => {
            proof {
                text::lemma_find_from(l@, pb@, 0);
            }
            assert(text::occurs_at(l@, pb@, i as int));
            assert(i + pb@.len() <= n);
            place_behind(b, i + pb.len())
        },
        None => match text::find_bytes(l, qb) {
            Some(i) => {
                proof {
                    text::lemma_find_from(l@, qb@, 0);
                }
                assert(text::occurs_at(l@, qb@, i as int));
                assert(i + qb@.len() <= n);
                place_behind(b, i + qb.len())
            },
            None => Place::Nowhere,
        },
    }
}

fn read_literal(v: &Vec<char>) -> (r: Option<String>)
    ensures
        match r {
            Some(s) => literal(v@) == Some(s@),
            None => literal(v@) is None,
        },
{
    let t = text::trim_start_chars(v);
    if t.len() > 0 && t[0] == '\'' {
        let rest = slice_subrange(&t, 1, t.len());
        assert(rest@ =~= t@.drop_first());
        let quote: [char; 1] = ['\''];
        assert(quote@ =~= seq!['\'']);
        match text::find_chars(rest, &quote) {
            Some(k) => {
                proof {
                    text::lemma_find_from(rest@, quote@, 0);
                }
                assert(text::occurs_at(rest@, quote@, k as int));
                let part = slice_subrange(rest, 0, k);
                assert(part@ =~= rest@.take(k as int));
                Some(text::string_of(part))
            },
            None => Some(text::string_of(rest)),
        }
    } else {
        None
    }
}

proof fn lemma_astray(sql: Seq<char>, low: Seq<char>, n: int, m: int)
    requires
        n <= m,
        literals_of(sql, low, n) is None,
    ensures
        literals_of(sql, low, m) is None,
    decreases m - n,
{
    if n < m {
        lemma_astray(sql, low, n, m - 1);
    }
}

/// The quoted texts that columns are compared with, where `low` is the statement
/// in lower case. `None` where a comparison was found astray.
pub fn literals_in(sql: &str, low: &str) -> (r: Option<Vec<(usize, String)>>)
    ensures
        match r {
            Some(v) => literals_of(sql@, low@, 14) == Some(literal_views(v@)),
            None => literals_of(sql@, low@, 14) is None,
        },
{
    let cols = query::COLS;
    let mut out: Vec<(usize, String)> = Vec::new();
    let mut i: usize = 0;
    assert(literal_views(out@) =~= Seq::empty());
    while i < 14
        invariant
            i <= 14,
            cols == query::COLS,
            literals_of(sql@, low@, i as int) == Some(literal_views(out@)),
        decreases 14 - i,
    {
        match find_compared(sql, low, cols[i]) {
            Place::Nowhere => {},
            Place::Astray => {
                assert(literals_of(sql@, low@, i + 1) is None);
                proof {
                    lemma_astray(sql@, low@, i + 1, 14);
                }
                return None;
            },
            Place::Behind(v) => {
                match read_literal(&v) {
                    Some(t) => {
                        let ghost before = literal_views(out@);
                        out.push((i, t));
                        assert(literal_views(out@) =~= before.push((i as int, t@)));
                    },
                    None => {},
                }
            },
        }
        i += 1;
    }
    Some(out)
}

/// The quoted texts that a statement compares columns with, each with the index
/// of the column. `None` where a comparison was found astray.
pub fn literals(sql: &str) -> (r: Option<Vec<(usize, String)>>)
    ensures
        match r {
            Some(v) => literals_of(sql@, text::lowercase(sql@), 14) == Some(literal_views(v@)),
            None => literals_of(sql@, text::lowercase(sql@), 14) is None,
        },
{
    let low = text::to_lowercase(sql);
    literals_in(sql, low.as_str())
}

/// The values of a column that a literal may have meant, unless it is one.
pub open spec fn value_hint(col: Seq<char>, lit: Seq<char>, vals: Seq<Seq<char>>) -> Option<
    Seq<char>,
> {
    let near = suggest::meant(lit, vals, 3);
    if vals.contains(lit) || near.len() == 0 {
        None
    } else {
        Some(col + ": "@ + text::join(near, ", "@))
    }
}

/// The values of a column that a literal may have meant, unless it is one.
pub fn hint_for(col: &str, lit: &str, vals: &Vec<String>) -> (r: Option<String>)
    ensures
        match r {
            Some(s) => value_hint(col@, lit@, text::texts(vals@)) == Some(s@),
            None => value_hint(col@, lit@, text::texts(vals@)) is None,
        },
{
    let ghost vs = text::texts(vals@);
    let mut i: usize = 0;
    while i < vals.len()
        invariant
            i <= vals@.len(),
            vs == text::texts(vals@),
            forall|k: int| 0 <= k < i ==> #[trigger] vs[k] != lit@,
        decreases vals.len() - i,
    {
        if text::same(vals[i].as_str(), lit) {
            assert(vs[i as int] == lit@);
            return None;
        }
        assert(vs[i as int] != lit@);
        i += 1;
    }
    let near = suggest::closest(lit, vals, 3);
    if near.len() == 0 {
        assert(text::texts(near@).len() == 0);
        return None;
    }
    assert(text::texts(near@).len() > 0);
    let mut s = col.to_owned();
    s.append(": ");
    s.append(text::join_strings(&near, ", ").as_str());
    Some(s)
}

/// What a result without rows is told, if anything.
pub open spec fn hint_line(hints: Seq<Seq<char>>) -> Option<Seq<char>> {
    if hints.len() == 0 {
        None
    } else {
        Some("matched 0 rows. did_you_mean -> "@ + text::join(hints, "; "@))
    }
}

/// What a result without rows is told, if anything.
pub fn no_rows_hint(hints: &Vec<String>) -> (r: Option<String>)
    ensures
        match r {
            Some(s) => hint_line(text::texts(hints@)) == Some(s@),
            None => hint_line(text::texts(hints@)) is None,
        },
{
    if hints.len() == 0 {
        return None;
    }
    let mut s = "matched 0 rows. did_you_mean -> ".to_owned();
    s.append(text::join_strings(hints, "; ").as_str());
    Some(s)
}

// ---------------------------------------------------------------------------
// What a report on a query says
// ---------------------------------------------------------------------------

/// The name that a message complains of is the first word behind its colon.
#[verifier::spinoff_prover]
#[verifier::rlimit(60)]
pub proof fn law_bad_name(what: Seq<char>, name: Seq<char>, rest: Seq<char>, c: char)
    requires
        text::free_of(what, ':'),
        text::free_of(name, ':'),
        name.len() > 0,
        forall|i: int| 0 <= i < name.len() ==> !text::is_ws(#[trigger] name[i]),
        text::is_ws(c),
        text::free_of(rest, ':'),
    ensures
        bad_name(what + ": "@ + name) == name,
        bad_name(what + ": "@ + name + seq![c] + rest) == name,
        bad_name(what + ": "@ + name + seq![':'] + rest) == name,
        bad_name(what).len() == 0,
{
    reveal_strlit(": ");
    assert(": "@ =~= seq![':', ' ']);
    let b = seq![' '] + name;
    let none = Seq::<char>::empty();
    assert(what + ": "@ + name =~= what + seq![':'] + b);
    assert(what + ": "@ + name + seq![c] + rest =~= what + seq![':'] + (b + seq![c] + rest));
    assert(what + ": "@ + name + seq![':'] + rest =~= what + seq![':'] + (b + seq![':'] + rest));
    lemma_before_colon(what, b);
    lemma_before_colon(what, b + seq![c] + rest);
    lemma_before_colon(what, b + seq![':'] + rest);
    text::lemma_free_concat(seq![' '], name, ':');
    lemma_before_colon(b, rest);
    text::lemma_free_concat(b, seq![c], ':');
    text::lemma_free_concat(b + seq![c], rest, ':');
    lemma_before_colon(b + seq![c] + rest, none);
    lemma_before_colon(what, none);
    text::law_words(none, ' ', name);
    assert(none + seq![' '] + name =~= b);
    text::law_words(name, c, rest);
    text::law_words(b, c, rest);
    assert(none + seq![' '] + none =~= seq![' ']);
    assert(text::words(b) =~= seq![name]);
}

proof fn lemma_before_colon(a: Seq<char>, b: Seq<char>)
    requires
        text::free_of(a, ':'),
    ensures
        text::find(a + seq![':'] + b, seq![':']) == Some(a.len() as int),
        (a + seq![':'] + b).skip(a.len() as int + 1) == b,
        (a + seq![':'] + b).take(a.len() as int) == a,
        text::find(a, seq![':']) is None,
{
    let x = seq![':'];
    let v = a + x + b;
    let n = a.len() as int;
    assert(v.skip(n + 1) =~= b);
    assert(v.take(n) =~= a);
    assert(v.subrange(n, n + 1) =~= x);
    lemma_colon_found(v, n);
    lemma_no_colon(a);
}

proof fn lemma_colon_found(v: Seq<char>, n: int)
    requires
        0 <= n < v.len(),
        v.subrange(n, n + 1) == seq![':'],
        forall|k: int| 0 <= k < n ==> #[trigger] v[k] != ':',
    ensures
        text::find(v, seq![':']) == Some(n),
{
    let x = seq![':'];
    text::law_find(v, x);
    assert(text::occurs_at(v, x, n));
    let found = text::find(v, x);
    if found is Some {
        let k = found->Some_0;
        assert(v.subrange(k, k + 1)[0] == x[0]);
        assert(v[k] == ':');
    }
}

proof fn lemma_no_colon(a: Seq<char>)
    requires
        text::free_of(a, ':'),
    ensures
        text::find(a, seq![':']) is None,
{
    let x = seq![':'];
    text::law_find(a, x);
    let found = text::find(a, x);
    if found is Some {
        let k = found->Some_0;
        assert(a.subrange(k, k + 1)[0] == x[0]);
        assert(a[k] == ':');
    }
}

/// A report on a query has the message as it is and a code that tells what is
/// wrong; it ends with the candidates, and can be acted on if and only if there
/// are any.
#[verifier::spinoff_prover]
#[verifier::rlimit(60)]
pub proof fn law_sql_report(msg: Seq<char>, low: Seq<char>, tables: Seq<Seq<char>>)
    ensures
        ({
            let o = sql_report(msg, low, tables);
            let cands = diagnosis(msg, low, tables).1;
            let column = text::contains(low, "no such column"@);
            let table = text::contains(low, "no such table"@);
            let refused = text::contains(low, "not authorized"@);
            &&& mcp::scalar_at(o, "message"@) == Some(msg)
            &&& column ==> mcp::scalar_at(o, "code"@) == Some("ALOG_UNKNOWN_COLUMN"@)
            &&& !column && table ==> mcp::scalar_at(o, "code"@) == Some("ALOG_UNKNOWN_TABLE"@)
            &&& !column && !table && refused ==> mcp::scalar_at(o, "code"@) == Some(
                "ALOG_DENIED"@,
            )
            &&& !column && !table && !refused ==> mcp::scalar_at(o, "code"@) == Some(
                "ALOG_SQL_ERROR"@,
            )
            &&& cands.len() == 0 ==> text::ends_with(
                o,
                ",\"candidates\":[],\"applicability\":\"Unspecified\"}"@,
            )
            &&& cands.len() > 0 ==> text::ends_with(
                o,
                ",\"candidates\":"@ + query::quoted_list(cands)
                    + ",\"applicability\":\"MachineApplicable\"}"@,
            )
        }),
{
    let o = sql_report(msg, low, tables);
    let (code, cands) = diagnosis(msg, low, tables);
    reveal_strlit("ALOG_UNKNOWN_COLUMN");
    reveal_strlit("ALOG_UNKNOWN_TABLE");
    reveal_strlit("ALOG_DENIED");
    reveal_strlit("ALOG_SQL_ERROR");
    assert(mcp::plain_key(code));
    lemma_report_words();
    let p = "{\"code\":\""@ + code + "\",\"message\":"@ + text::json_quote(msg);
    let list = ",\"candidates\":"@ + query::quoted_list(cands);
    let last = ",\"applicability\":\""@ + (if cands.len() == 0 {
        "Unspecified"@
    } else {
        "MachineApplicable"@
    }) + "\"}"@;
    let z = list + last;
    assert(o =~= p + z);
    assert(z[0] == ',');
    assert((p + z).subrange(0, p.len() as int) =~= p);
    assert((p + z)[p.len() as int] == ',');
    mcp::lemma_report_reads_back(o, code, msg);
    assert((p + z).subrange(o.len() - z.len(), o.len() as int) =~= z);
    if cands.len() == 0 {
        assert(cands =~= Seq::empty());
        query::law_quoted_list(cands, msg);
        assert(z =~= ",\"candidates\":[],\"applicability\":\"Unspecified\"}"@);
    } else {
        assert(z =~= list + ",\"applicability\":\"MachineApplicable\"}"@);
    }
}

proof fn lemma_report_words()
    ensures
        ",\"applicability\":\""@ + "Unspecified"@ + "\"}"@ == ",\"applicability\":\"Unspecified\"}"@,
        ",\"applicability\":\""@ + "MachineApplicable"@ + "\"}"@
            == ",\"applicability\":\"MachineApplicable\"}"@,
        ",\"candidates\":"@ + "[]"@ + ",\"applicability\":\"Unspecified\"}"@
            == ",\"candidates\":[],\"applicability\":\"Unspecified\"}"@,
        ",\"candidates\":"@.len() > 0,
        ",\"candidates\":"@[0] == ',',
{
    reveal_strlit(",\"applicability\":\"");
    reveal_strlit("Unspecified");
    reveal_strlit("MachineApplicable");
    reveal_strlit("\"}");
    reveal_strlit(",\"applicability\":\"Unspecified\"}");
    reveal_strlit(",\"applicability\":\"MachineApplicable\"}");
    reveal_strlit(",\"candidates\":");
    reveal_strlit("[]");
    reveal_strlit(",\"candidates\":[],\"applicability\":\"Unspecified\"}");
    assert(",\"applicability\":\""@ + "Unspecified"@ + "\"}"@
        =~= ",\"applicability\":\"Unspecified\"}"@);
    assert(",\"applicability\":\""@ + "MachineApplicable"@ + "\"}"@
        =~= ",\"applicability\":\"MachineApplicable\"}"@);
    assert(",\"candidates\":"@ + "[]"@ + ",\"applicability\":\"Unspecified\"}"@
        =~= ",\"candidates\":[],\"applicability\":\"Unspecified\"}"@);
}

/// The candidates for a column are columns, and those for a table are tables: all
/// of them where none is near. Nothing is suggested for anything else.
pub proof fn law_candidates(msg: Seq<char>, low: Seq<char>, tables: Seq<Seq<char>>, c: Seq<char>)
    ensures
        ({
            let cands = diagnosis(msg, low, tables).1;
            let column = text::contains(low, "no such column"@);
            let table = text::contains(low, "no such table"@);
            &&& column && cands.contains(c) ==> query::column_names().contains(c)
            &&& column ==> cands.len() <= 4
            &&& !column && table && cands.contains(c) ==> tables.contains(c)
            &&& !column && table && tables.len() > 0 ==> cands.len() > 0
            &&& !column && !table ==> cands.len() == 0
        }),
{
    let name = bad_name(msg);
    let cols = query::column_names();
    suggest::law_meant(name, cols, 4);
    suggest::law_meant(name, tables, 4);
    let a = suggest::meant(name, cols, 4);
    let b = suggest::meant(name, tables, 4);
    if a.contains(c) {
        let i = a.index_of(c);
        assert(cols.contains(a[i]));
    }
    if b.contains(c) {
        let i = b.index_of(c);
        assert(tables.contains(b[i]));
    }
}

/// A literal is what stands between the quotes, white space in front of them left
/// out; without a second quote it goes on to the end.
#[verifier::spinoff_prover]
#[verifier::rlimit(60)]
pub proof fn law_literal(s: Seq<char>, rest: Seq<char>, c: char)
    requires
        text::free_of(s, '\''),
        text::is_ws(c),
    ensures
        literal(seq!['\''] + s + seq!['\''] + rest) == Some(s),
        literal(seq![c] + (seq!['\''] + s + seq!['\''] + rest)) == Some(s),
        literal(seq!['\''] + s) == Some(s),
        s.len() > 0 && !text::is_ws(s[0]) ==> literal(s) is None,
        literal(Seq::empty()) is None,
{
    let q = seq!['\''];
    let v = q + s + q + rest;
    let w = seq![c] + v;
    let n = s.len() as int;
    let r = s + q + rest;
    assert(!text::is_ws('\''));
    assert(v[0] == '\'');
    assert(text::trim_start(v) == v);
    assert(w.drop_first() =~= v);
    assert(text::trim_start(w) == text::trim_start(v));
    assert(v.drop_first() =~= r);
    text::law_find(r, q);
    assert(r.subrange(n, n + 1) =~= q);
    assert(text::occurs_at(r, q, n));
    match text::find(r, q) {
        Some(k) => {
            assert(r.subrange(k, k + 1)[0] == '\'');
            if k < n {
                assert(r[k] == s[k]);
            }
            assert(r.take(n) =~= s);
        },
        None => {},
    }
    let u = q + s;
    assert(text::trim_start(u) == u);
    assert(u.drop_first() =~= s);
    text::law_find(s, q);
    match text::find(s, q) {
        Some(k) => {
            assert(s.subrange(k, k + 1)[0] == '\'');
        },
        None => {},
    }
    if s.len() > 0 && !text::is_ws(s[0]) {
        assert(text::trim_start(s) == s);
        assert(s[0] != '\'');
    }
}

/// A value that occurs in its column needs no hint. One that does not gets those
/// that are near, under the name of the column, and none where none is near.
#[verifier::spinoff_prover]
#[verifier::rlimit(60)]
pub proof fn law_value_hint(col: Seq<char>, lit: Seq<char>, vals: Seq<Seq<char>>)
    ensures
        vals.contains(lit) ==> value_hint(col, lit, vals) is None,
        value_hint(col, lit, vals) matches Some(h) ==> text::starts_with(
            h,
            col + ": "@ + suggest::meant(lit, vals, 3)[0],
        ) && vals.contains(suggest::meant(lit, vals, 3)[0]),
        !vals.contains(lit) && suggest::meant(lit, vals, 3).len() > 0 ==> value_hint(
            col,
            lit,
            vals,
        ) is Some,
{
    let near = suggest::meant(lit, vals, 3);
    suggest::law_meant(lit, vals, 3);
    match value_hint(col, lit, vals) {
        Some(h) => {
            assert(vals.contains(near[0]));
            text::law_joined_in_order(near, ", "@, 0);
            assert(near.take(1) =~= seq![near[0]]);
            text::law_join_appends(Seq::empty(), near[0], ", "@);
            let j = text::join(near, ", "@);
            let p = col + ": "@ + near[0];
            assert(h =~= col + ": "@ + j);
            assert(j.subrange(0, near[0].len() as int) == near[0]);
            assert forall|k: int| 0 <= k < p.len() implies #[trigger] h[k] == p[k] by {
                let m = (col + ": "@).len() as int;
                if k >= m {
                    assert(j.subrange(0, near[0].len() as int)[k - m] == near[0][k - m]);
                }
            }
            assert(h.subrange(0, p.len() as int) =~= p);
        },
        None => {},
    }
}

/// Hints are told one after the other, and without any nothing is.
pub proof fn law_hint_line(hints: Seq<Seq<char>>, x: Seq<char>)
    ensures
        hint_line(Seq::empty()) is None,
        hint_line(seq![x]) == Some("matched 0 rows. did_you_mean -> "@ + x),
        hints.len() > 0 ==> hint_line(hints.push(x)) == Some(
            hint_line(hints)->Some_0 + "; "@ + x,
        ),
{
    text::law_join_appends(hints, x, "; "@);
    let h = "matched 0 rows. did_you_mean -> "@;
    if hints.len() > 0 {
        assert(h + text::join(hints.push(x), "; "@) =~= h + text::join(hints, "; "@) + "; "@ + x);
    }
}

/// What stands behind the first comparison of a column is what is looked at, with
/// a blank before the equals sign or without.
#[verifier::spinoff_prover]
#[verifier::rlimit(60)]
pub proof fn law_compared(a: Seq<char>, col: Seq<char>, b: Seq<char>, blank: bool)
    requires
        ({
            let mark = encode_utf8(col + "="@);
            let wide = encode_utf8(col + " ="@);
            let sql = encode_utf8(a + col + (if blank {
                " ="@
            } else {
                "="@
            }) + b);
            &&& !blank ==> text::find(sql, mark) == Some(encode_utf8(a).len() as int)
            &&& blank ==> !text::contains(sql, mark) && text::find(sql, wide) == Some(
                encode_utf8(a).len() as int,
            )
        }),
    ensures
        ({
            let sql = a + col + (if blank {
                " ="@
            } else {
                "="@
            }) + b;
            compared(sql, sql, col) == Compared::Behind(b)
        }),
{
    let m = if blank {
        col + " ="@
    } else {
        col + "="@
    };
    let sql = a + col + (if blank {
        " ="@
    } else {
        "="@
    }) + b;
    assert(sql =~= a + m + b);
    text::lemma_encode_concat(a, m);
    text::lemma_encode_concat(a + m, b);
    let e = encode_utf8(sql);
    let n = (encode_utf8(a).len() + encode_utf8(m).len()) as int;
    assert(e.skip(n) =~= encode_utf8(b));
    encode_utf8_valid_utf8(b);
    encode_utf8_decode_utf8(b);
}

/// A literal that a column is compared with is found, under the number of that
/// column, and no other is.
pub proof fn law_literals(sql: Seq<char>, low: Seq<char>, n: int, i: int, t: Seq<char>)
    requires
        0 <= i < n <= 14,
    ensures
        literals_of(sql, low, n) matches Some(v) ==> (v.contains((i, t)) <==> (compared(
            sql,
            low,
            query::COLS@[i]@,
        ) matches Compared::Behind(s) && literal(s) == Some(t))),
    decreases n,
{
    match literals_of(sql, low, n) {
        Some(v) => {
            let d = literals_of(sql, low, n - 1)->Some_0;
            lemma_literals_below(sql, low, n - 1, i, t);
            if i < n - 1 {
                law_literals(sql, low, n - 1, i, t);
                if d.contains((i, t)) {
                    let k = d.index_of((i, t));
                    assert(v[k] == d[k]);
                }
                if v.contains((i, t)) {
                    let k = v.index_of((i, t));
                    assert(k < d.len());
                    assert(d[k] == v[k]);
                }
            } else {
                if v.contains((i, t)) {
                    let k = v.index_of((i, t));
                    if k < d.len() {
                        assert(d[k] == v[k]);
                        assert(d.contains((i, t)));
                    }
                }
                if v.len() > d.len() {
                    assert(v.contains(v[d.len() as int]));
                }
            }
        },
        None => {},
    }
}

proof fn lemma_literals_below(sql: Seq<char>, low: Seq<char>, n: int, i: int, t: Seq<char>)
    ensures
        i >= n ==> (literals_of(sql, low, n) matches Some(v) ==> !v.contains((i, t))),
    decreases n,
{
    if n > 0 {
        lemma_literals_below(sql, low, n - 1, i, t);
        match literals_of(sql, low, n) {
            Some(v) => {
                let d = literals_of(sql, low, n - 1)->Some_0;
                if i >= n && v.contains((i, t)) {
                    let k = v.index_of((i, t));
                    if k < d.len() {
                        assert(d[k] == v[k]);
                        assert(d.contains((i, t)));
                    }
                }
            },
            None => {},
        }
    }
}

/// Every report starts in the way by which it is told from an answer: so that a
/// client sees it marked as an error, and a machine gets it untouched.
#[verifier::spinoff_prover]
#[verifier::rlimit(60)]
pub proof fn law_reports_are_marked(
    msg: Seq<char>,
    low: Seq<char>,
    names: Seq<Seq<char>>,
)
    ensures
        ({
            let a = sql_report(msg, low, names);
            let b = fts_report(msg);
            let c = query::no_session(msg, names);
            &&& mcp::scalar_at(mcp::content_of(Ok(a)), "isError"@) == Some("true"@)
            &&& mcp::scalar_at(mcp::content_of(Ok(b)), "isError"@) == Some("true"@)
            &&& mcp::scalar_at(mcp::content_of(Ok(c)), "isError"@) == Some("true"@)
            &&& cli::told(a) == a && cli::told(b) == b && cli::told(c) == c
        }),
{
    let p = "{\"code\":\"ALOG_"@;
    let a = sql_report(msg, low, names);
    let b = fts_report(msg);
    let c = query::no_session(msg, names);
    reveal_strlit("{\"code\":\"ALOG_");
    reveal_strlit("{\"code\":\"");
    reveal_strlit("{\"code\":\"ALOG_BAD_QUERY\",\"message\":");
    reveal_strlit("{\"code\":\"ALOG_UNKNOWN_SESSION\",\"message\":");
    lemma_code_starts(diagnosis(msg, low, names).0);
    let code = diagnosis(msg, low, names).0;
    let h = "{\"code\":\""@ + code;
    assert(h.subrange(0, p.len() as int) =~= p);
    assert(a.subrange(0, p.len() as int) =~= h.subrange(0, p.len() as int));
    assert(b.subrange(0, p.len() as int) =~= p);
    assert(c.subrange(0, p.len() as int) =~= p);
    mcp::law_content_reads_back(Ok(a));
    mcp::law_content_reads_back(Ok(b));
    mcp::law_content_reads_back(Ok(c));
}

proof fn lemma_code_starts(code: Seq<char>)
    requires
        code == "ALOG_UNKNOWN_COLUMN"@ || code == "ALOG_UNKNOWN_TABLE"@ || code == "ALOG_DENIED"@
            || code == "ALOG_SQL_ERROR"@,
    ensures
        code.len() > 5,
        code[0] == 'A' && code[1] == 'L' && code[2] == 'O' && code[3] == 'G' && code[4] == '_',
{
    reveal_strlit("ALOG_UNKNOWN_COLUMN");
    reveal_strlit("ALOG_UNKNOWN_TABLE");
    reveal_strlit("ALOG_DENIED");
    reveal_strlit("ALOG_SQL_ERROR");
}

/// The code and the message of a report on a full-text query are read back.
pub proof fn law_fts_report(msg: Seq<char>)
    ensures
        mcp::scalar_at(fts_report(msg), "code"@) == Some("ALOG_BAD_QUERY"@),
        mcp::scalar_at(fts_report(msg), "message"@) == Some(msg),
{
    let o = fts_report(msg);
    let code = "ALOG_BAD_QUERY"@;
    reveal_strlit("ALOG_BAD_QUERY");
    reveal_strlit("{\"code\":\"ALOG_BAD_QUERY\",\"message\":");
    reveal_strlit("{\"code\":\"");
    reveal_strlit("\",\"message\":");
    reveal_strlit(
        ",\"syntax\":\"term, \\\"exact phrase\\\", A AND B, A OR B, NOT B, pre*\"}",
    );
    let h = "{\"code\":\""@ + code + "\",\"message\":"@;
    assert(h =~= "{\"code\":\"ALOG_BAD_QUERY\",\"message\":"@);
    let p = h + text::json_quote(msg);
    assert(o.subrange(0, p.len() as int) =~= p);
    assert(o[p.len() as int] == ',');
    mcp::lemma_report_reads_back(o, code, msg);
}

} // verus!
