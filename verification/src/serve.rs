//! The viewer's requests and the JSON that answers them.

use crate::mcp;
use crate::search;
use crate::text;
use vstd::prelude::*;
use vstd::slice::*;
use vstd::string::*;
use vstd::utf8::*;

verus! {

// ---------------------------------------------------------------------------
// JSON
// ---------------------------------------------------------------------------

/// A string as JSON.
pub fn jstr(s: &str) -> (r: String)
    ensures
        r@ == text::json_quote(s@),
{
    text::json_str(s)
}

/// An optional string as JSON.
pub open spec fn json_opt(v: Option<String>) -> Seq<char> {
    match v {
        Some(s) => text::json_quote(s@),
        None => "null"@,
    }
}

/// An optional string as JSON.
pub fn jopt(v: &Option<String>) -> (r: String)
    ensures
        r@ == json_opt(*v),
{
    match v {
        Some(s) => jstr(s.as_str()),
        None => "null".to_owned(),
    }
}

/// An optional number as JSON.
pub open spec fn json_num(v: Option<i64>) -> Seq<char> {
    match v {
        Some(n) => text::dec_int(n as int),
        None => "null"@,
    }
}

/// An optional number as JSON.
pub fn jnum(v: Option<i64>) -> (r: String)
    ensures
        r@ == json_num(v),
{
    match v {
        Some(n) => text::i64_string(n),
        None => "null".to_owned(),
    }
}

/// An error as JSON.
pub open spec fn error_object(m: Seq<char>) -> Seq<char> {
    "{\"error\":"@ + text::json_quote(m) + "}"@
}

/// An error as JSON.
pub fn err_json(m: &str) -> (r: String)
    ensures
        r@ == error_object(m@),
{
    let mut o = "{\"error\":".to_owned();
    o.append(jstr(m).as_str());
    o.append("}");
    o
}

// ---------------------------------------------------------------------------
// Requests
// ---------------------------------------------------------------------------

/// The value of a hexadecimal digit.
pub open spec fn hex_digit(c: u8) -> Option<int> {
    if 0x30 <= c <= 0x39 {
        Some(c - 0x30)
    } else if 0x41 <= c <= 0x46 {
        Some(c - 0x37)
    } else if 0x61 <= c <= 0x66 {
        Some(c - 0x57)
    } else {
        None
    }
}

/// The byte that two characters behind a per cent sign stand for. What is no
/// number stands for a space; a plus sign may stand for the first digit.
pub open spec fn hex_byte(a: u8, b: u8) -> u8 {
    match (hex_digit(a), hex_digit(b)) {
        (Some(x), Some(y)) => (16 * x + y) as u8,
        (None, Some(y)) => if a == 0x2b {
            y as u8
        } else {
            0x20
        },
        _ => 0x20,
    }
}

/// The bytes of a value in a URL, from index `i` on.
pub open spec fn url_bytes(b: Seq<u8>, i: int) -> Seq<u8>
    decreases b.len() - i,
{
    if !(0 <= i < b.len()) {
        Seq::empty()
    } else if b[i] == 0x2b {
        seq![0x20u8] + url_bytes(b, i + 1)
    } else if b[i] == 0x25 && i + 2 < b.len() {
        seq![hex_byte(b[i + 1], b[i + 2])] + url_bytes(b, i + 3)
    } else {
        seq![b[i]] + url_bytes(b, i + 1)
    }
}

/// The text of a value in a URL.
pub open spec fn url_text(s: Seq<char>) -> Seq<char> {
    text::lossy(url_bytes(encode_utf8(s), 0))
}

fn digit(c: u8) -> (r: Option<u8>)
    ensures
        match r {
            Some(d) => hex_digit(c) == Some(d as int) && d < 16,
            None => hex_digit(c) is None,
        },
{
    if c >= 0x30 && c <= 0x39 {
        Some(c - 0x30)
    } else if c >= 0x41 && c <= 0x46 {
        Some(c - 0x37)
    } else if c >= 0x61 && c <= 0x66 {
        Some(c - 0x57)
    } else {
        None
    }
}

/// The text of a value in a URL.
pub fn urldecode(s: &str) -> (r: String)
    ensures
        r@ == url_text(s@),
{
    let b = s.as_bytes();
    let mut out: Vec<u8> = Vec::new();
    let mut i: usize = 0;
    assert(out@ + url_bytes(b@, 0) =~= url_bytes(b@, 0));
    while i < b.len()
        invariant
            i <= b@.len(),
            url_bytes(b@, 0) == out@ + url_bytes(b@, i as int),
        decreases b.len() - i,
    {
        let ghost before = out@;
        if b[i] == 0x2b {
            out.push(0x20);
            assert(before + (seq![0x20u8] + url_bytes(b@, i + 1)) =~= out@ + url_bytes(b@, i + 1));
            i += 1;
        } else if b[i] == 0x25 && b.len() - i > 2 {
            let x: u8 = match (digit(b[i + 1]), digit(b[i + 2])) {
                (Some(h), Some(l)) => 16 * h + l,
                (None, Some(l)) => if b[i + 1] == 0x2b {
                    l
                } else {
                    0x20
                },
                _ => 0x20,
            };
            assert(x == hex_byte(b@[i + 1], b@[i + 2]));
            out.push(x);
            assert(before + (seq![x] + url_bytes(b@, i + 3)) =~= out@ + url_bytes(b@, i + 3));
            i += 3;
        } else {
            let c: u8 = b[i];
            out.push(c);
            assert(before + (seq![c] + url_bytes(b@, i + 1)) =~= out@ + url_bytes(b@, i + 1));
            i += 1;
        }
    }
    assert(out@ + Seq::<u8>::empty() =~= out@);
    text::from_utf8_lossy(out.as_slice())
}

/// What stands before and behind the first of a character.
pub open spec fn split_at_first(s: Seq<char>, c: char) -> Option<(Seq<char>, Seq<char>)> {
    match text::find(s, seq![c]) {
        Some(k) => Some((s.take(k), s.skip(k + 1))),
        None => None,
    }
}

/// The value of a parameter, in the first pair with that name.
pub open spec fn param(qs: Seq<char>, k: Seq<char>) -> Option<Seq<char>>
    decreases qs.len(),
{
    let (kv, rest) = match split_at_first(qs, '&') {
        Some((a, b)) => (a, Some(b)),
        None => (qs, None),
    };
    match split_at_first(kv, '=') {
        Some((a, b)) if a == k => Some(url_text(b)),
        _ => match rest {
            Some(r) => if r.len() < qs.len() {
                param(r, k)
            } else {
                None
            },
            None => None,
        },
    }
}

/// The number of a parameter, or a default.
pub open spec fn param_int(qs: Seq<char>, k: Seq<char>, d: int) -> int {
    match param(qs, k) {
        Some(v) => match text::parse_signed(v) {
            Some(n) => n,
            None => d,
        },
        None => d,
    }
}

fn split_first(v: &Vec<char>, c: char) -> (r: Option<(Vec<char>, Vec<char>)>)
    ensures
        match r {
            Some((a, b)) => split_at_first(v@, c) == Some((a@, b@)) && b@.len() < v@.len(),
            None => split_at_first(v@, c) is None,
        },
{
    let one: [char; 1] = [c];
    assert(one@ =~= seq![c]);
    match text::find_chars(v, &one) {
        Some(k) => {
            proof {
                text::lemma_find_from(v@, one@, 0);
            }
            assert(text::occurs_at(v@, one@, k as int));
            let n: usize = v.len();
            let a = slice_subrange(v, 0, k);
            let b = slice_subrange(v, k + 1, n);
            assert(a@ =~= v@.take(k as int));
            assert(b@ =~= v@.skip(k + 1));
            Some((slice_to_vec(a), slice_to_vec(b)))
        },
        None => None,
    }
}

/// The value of a parameter of a query string.
pub fn parameter(qs: &str, k: &str) -> (r: Option<String>)
    ensures
        match r {
            Some(s) => param(qs@, k@) == Some(s@),
            None => param(qs@, k@) is None,
        },
{
    let mut rest = text::chars_of(qs);
    loop
        invariant
            param(qs@, k@) == param(rest@, k@),
        decreases rest@.len(),
    {
        let (kv, next) = match split_first(&rest, '&') {
            Some((a, b)) => (a, Some(b)),
            None => (text::copy_chars(&rest), None),
        };
        match split_first(&kv, '=') {
            Some((a, b)) => {
                if text::same(text::string_of(&a).as_str(), k) {
                    return Some(urldecode(text::string_of(&b).as_str()));
                }
            },
            None => {},
        }
        match next {
            Some(b) => {
                rest = b;
            },
            None => {
                return None;
            },
        }
    }
}

fn parameter_int(qs: &str, k: &str, d: i64) -> (r: i64)
    ensures
        r == param_int(qs@, k@, d as int),
{
    match parameter(qs, k) {
        Some(v) => match text::read_i64(&text::chars_of(v.as_str())) {
            Some(n) => n,
            None => d,
        },
        None => d,
    }
}

/// What a URL asks for.
#[derive(Debug)]
pub enum Route {
    Page,
    Stats,
    Sessions { limit: i64 },
    Timeline { sid: i64, start: i64, limit: i64 },
    Record { sid: i64, seq: i64 },
    Search { term: String, limit: i64 },
    Errors { limit: i64 },
    NotFound,
}

/// What a `Route` stands for.
pub enum RouteV {
    Page,
    Stats,
    Sessions { limit: int },
    Timeline { sid: int, start: int, limit: int },
    Record { sid: int, seq: int },
    Search { term: Seq<char>, limit: int },
    Errors { limit: int },
    NotFound,
}

impl View for Route {
    type V = RouteV;

    open spec fn view(&self) -> RouteV {
        match self {
            Route::Page => RouteV::Page,
            Route::Stats => RouteV::Stats,
            Route::Sessions { limit } => RouteV::Sessions { limit: *limit as int },
            Route::Timeline { sid, start, limit } => RouteV::Timeline {
                sid: *sid as int,
                start: *start as int,
                limit: *limit as int,
            },
            Route::Record { sid, seq } => RouteV::Record { sid: *sid as int, seq: *seq as int },
            Route::Search { term, limit } => RouteV::Search { term: term@, limit: *limit as int },
            Route::Errors { limit } => RouteV::Errors { limit: *limit as int },
            Route::NotFound => RouteV::NotFound,
        }
    }
}

/// What a path with a query string asks for.
pub open spec fn route_of(path: Seq<char>, qs: Seq<char>) -> RouteV {
    if path == "/"@ || path == "/index.html"@ {
        RouteV::Page
    } else if path == "/stats"@ {
        RouteV::Stats
    } else if path == "/sessions"@ {
        RouteV::Sessions { limit: param_int(qs, "limit"@, 300) }
    } else if path == "/timeline"@ {
        RouteV::Timeline {
            sid: param_int(qs, "sid"@, -1),
            start: param_int(qs, "start"@, 0),
            limit: param_int(qs, "limit"@, 300),
        }
    } else if path == "/record"@ {
        RouteV::Record { sid: param_int(qs, "sid"@, -1), seq: param_int(qs, "seq"@, -1) }
    } else if path == "/search"@ {
        RouteV::Search {
            term: match param(qs, "q"@) {
                Some(t) => t,
                None => Seq::empty(),
            },
            limit: param_int(qs, "limit"@, 60),
        }
    } else if path == "/errors"@ {
        RouteV::Errors { limit: param_int(qs, "limit"@, 120) }
    } else {
        RouteV::NotFound
    }
}

/// What a URL asks for.
pub open spec fn url_route(url: Seq<char>) -> RouteV {
    match split_at_first(url, '?') {
        Some((path, qs)) => route_of(path, qs),
        None => route_of(url, Seq::empty()),
    }
}

fn find_route(path: &str, qs: &str) -> (r: Route)
    ensures
        r@ == route_of(path@, qs@),
{
    if text::same(path, "/") || text::same(path, "/index.html") {
        Route::Page
    } else if text::same(path, "/stats") {
        Route::Stats
    } else if text::same(path, "/sessions") {
        Route::Sessions { limit: parameter_int(qs, "limit", 300) }
    } else if text::same(path, "/timeline") {
        Route::Timeline {
            sid: parameter_int(qs, "sid", -1),
            start: parameter_int(qs, "start", 0),
            limit: parameter_int(qs, "limit", 300),
        }
    } else if text::same(path, "/record") {
        Route::Record { sid: parameter_int(qs, "sid", -1), seq: parameter_int(qs, "seq", -1) }
    } else if text::same(path, "/search") {
        let term = match parameter(qs, "q") {
            Some(t) => t,
            None => String::new(),
        };
        Route::Search { term, limit: parameter_int(qs, "limit", 60) }
    } else if text::same(path, "/errors") {
        Route::Errors { limit: parameter_int(qs, "limit", 120) }
    } else {
        Route::NotFound
    }
}

/// What a URL asks for.
pub fn route(url: &str) -> (r: Route)
    ensures
        r@ == url_route(url@),
{
    let v = text::chars_of(url);
    match split_first(&v, '?') {
        Some((path, qs)) => find_route(
            text::string_of(&path).as_str(),
            text::string_of(&qs).as_str(),
        ),
        None => {
            let none = String::new();
            assert(none@ =~= Seq::empty());
            find_route(url, none.as_str())
        },
    }
}


// ---------------------------------------------------------------------------
// Answers
// ---------------------------------------------------------------------------

/// A value and how often it occurs.
pub open spec fn count_item(v: (Option<String>, i64)) -> Seq<char> {
    "["@ + json_opt(v.0) + ","@ + text::dec_int(v.1 as int) + "]"@
}

/// Values and how often they occur.
pub open spec fn count_list(v: Seq<(Option<String>, i64)>) -> Seq<char> {
    "["@ + text::join(Seq::new(v.len(), |i: int| count_item(v[i])), ","@) + "]"@
}

/// Values and how often they occur.
pub fn group(v: &Vec<(Option<String>, i64)>) -> (r: String)
    ensures
        r@ == count_list(v@),
{
    let ghost all = Seq::new(v@.len(), |i: int| count_item(v@[i]));
    let mut out: Vec<String> = Vec::new();
    let mut i: usize = 0;
    while i < v.len()
        invariant
            i <= v@.len(),
            all == Seq::new(v@.len(), |k: int| count_item(v@[k])),
            text::texts(out@) == all.take(i as int),
        decreases v.len() - i,
    {
        let ghost before = text::texts(out@);
        let mut s = "[".to_owned();
        s.append(jopt(&v[i].0).as_str());
        s.append(",");
        text::push_i64(&mut s, v[i].1);
        s.append("]");
        out.push(s);
        assert(text::texts(out@) =~= before.push(s@));
        assert(before.push(s@) =~= all.take(i + 1));
        i += 1;
    }
    assert(all.take(v@.len() as int) =~= all);
    let mut r = "[".to_owned();
    r.append(text::join_strings(&out, ",").as_str());
    r.append("]");
    r
}

/// Counts of the whole store.
#[derive(Debug)]
pub struct Totals {
    pub events: i64,
    pub sessions: i64,
    pub rejects: i64,
    pub bytes: i64,
    pub tools: Vec<(Option<String>, i64)>,
    pub errors: Vec<(Option<String>, i64)>,
    pub models: Vec<(Option<String>, i64)>,
}

/// Counts of the whole store.
pub open spec fn totals(t: Totals) -> Seq<char> {
    "{\"events\":"@ + text::dec_int(t.events as int) + ",\"sessions\":"@ + text::dec_int(
        t.sessions as int,
    ) + ",\"rejects\":"@ + text::dec_int(t.rejects as int) + ",\"bytes\":"@ + text::dec_int(
        t.bytes as int,
    ) + ",\"tools\":"@ + count_list(t.tools@) + ",\"errors\":"@ + count_list(t.errors@)
        + ",\"models\":"@ + count_list(t.models@) + "}"@
}

/// Counts of the whole store.
pub fn stats(t: &Totals) -> (r: String)
    ensures
        r@ == totals(*t),
{
    let mut o = "{\"events\":".to_owned();
    text::push_i64(&mut o, t.events);
    o.append(",\"sessions\":");
    text::push_i64(&mut o, t.sessions);
    o.append(",\"rejects\":");
    text::push_i64(&mut o, t.rejects);
    o.append(",\"bytes\":");
    text::push_i64(&mut o, t.bytes);
    o.append(",\"tools\":");
    o.append(group(&t.tools).as_str());
    o.append(",\"errors\":");
    o.append(group(&t.errors).as_str());
    o.append(",\"models\":");
    o.append(group(&t.models).as_str());
    o.append("}");
    o
}

/// A session in the list.
#[derive(Debug)]
pub struct Session {
    pub ext: String,
    pub sid: i64,
    pub n: i64,
    pub t0: Option<i64>,
    pub t1: Option<i64>,
    pub errors: Option<i64>,
    pub tokens: Option<i64>,
}

/// A count, zero where there is none.
pub open spec fn or_zero(v: Option<i64>) -> Seq<char> {
    match v {
        Some(n) => text::dec_int(n as int),
        None => text::dec_int(0),
    }
}

fn push_or_zero(out: &mut String, v: Option<i64>)
    ensures
        final(out)@ == old(out)@ + or_zero(v),
{
    match v {
        Some(n) => {
            text::push_i64(out, n);
        },
        None => {
            text::push_i64(out, 0);
        },
    }
}

pub open spec fn session_item(s: Session) -> Seq<char> {
    "{\"ext\":"@ + text::json_quote(s.ext@) + ",\"sid\":"@ + text::dec_int(s.sid as int)
        + ",\"n\":"@ + text::dec_int(s.n as int) + ",\"t0\":"@ + json_num(s.t0) + ",\"t1\":"@
        + json_num(s.t1) + ",\"err\":"@ + or_zero(s.errors) + ",\"tok\":"@ + or_zero(s.tokens)
        + "}"@
}

fn session_json(s: &Session) -> (r: String)
    ensures
        r@ == session_item(*s),
{
    let mut o = "{\"ext\":".to_owned();
    o.append(jstr(s.ext.as_str()).as_str());
    o.append(",\"sid\":");
    text::push_i64(&mut o, s.sid);
    o.append(",\"n\":");
    text::push_i64(&mut o, s.n);
    o.append(",\"t0\":");
    o.append(jnum(s.t0).as_str());
    o.append(",\"t1\":");
    o.append(jnum(s.t1).as_str());
    o.append(",\"err\":");
    push_or_zero(&mut o, s.errors);
    o.append(",\"tok\":");
    push_or_zero(&mut o, s.tokens);
    o.append("}");
    o
}

pub open spec fn session_list(v: Seq<Session>) -> Seq<char> {
    "["@ + text::join(Seq::new(v.len(), |i: int| session_item(v[i])), ","@) + "]"@
}

/// The list of sessions.
pub fn sessions(v: &Vec<Session>) -> (r: String)
    ensures
        r@ == session_list(v@),
{
    let ghost all = Seq::new(v@.len(), |i: int| session_item(v@[i]));
    let mut out: Vec<String> = Vec::new();
    let mut i: usize = 0;
    while i < v.len()
        invariant
            i <= v@.len(),
            all == Seq::new(v@.len(), |k: int| session_item(v@[k])),
            text::texts(out@) == all.take(i as int),
        decreases v.len() - i,
    {
        let ghost before = text::texts(out@);
        let s = session_json(&v[i]);
        out.push(s);
        assert(text::texts(out@) =~= before.push(s@));
        assert(before.push(s@) =~= all.take(i + 1));
        i += 1;
    }
    assert(all.take(v@.len() as int) =~= all);
    let mut r = "[".to_owned();
    r.append(text::join_strings(&out, ",").as_str());
    r.append("]");
    r
}

/// A row of a session's timeline.
#[derive(Debug)]
pub struct Event {
    pub seq: i64,
    pub ts: Option<i64>,
    pub kind: Option<String>,
    pub role: Option<String>,
    pub model: Option<String>,
    pub tool: Option<String>,
    pub target: Option<String>,
    pub is_err: Option<i64>,
    pub len: i64,
    pub in_tok: Option<i64>,
    pub out_tok: Option<i64>,
    pub cache_r: Option<i64>,
}

/// A row whose columns leave it blank, or that failed, shows the start of its
/// record.
pub open spec fn previewed(e: Event) -> bool {
    e.target is None || e.is_err == Some(1i64)
}

/// Whether a row shows the start of its record.
pub fn wants_preview(e: &Event) -> (r: bool)
    ensures
        r == previewed(*e),
{
    let failed = match e.is_err {
        Some(x) => x == 1,
        None => false,
    };
    e.target.is_none() || failed
}

pub open spec fn event_item(e: Event, preview: Seq<char>) -> Seq<char> {
    "{\"seq\":"@ + text::dec_int(e.seq as int) + ",\"ts\":"@ + json_num(e.ts) + ",\"kind\":"@
        + json_opt(e.kind) + ",\"role\":"@ + json_opt(e.role) + ",\"model\":"@ + json_opt(e.model)
        + ",\"tool\":"@ + json_opt(e.tool) + ",\"target\":"@ + json_opt(e.target) + ",\"err\":"@
        + json_num(e.is_err) + ",\"len\":"@ + text::dec_int(e.len as int) + ",\"in\":"@ + json_num(
        e.in_tok,
    ) + ",\"out\":"@ + json_num(e.out_tok) + ",\"cache\":"@ + json_num(e.cache_r) + ",\"text\":"@
        + text::json_quote(
        if previewed(e) {
            preview
        } else {
            Seq::empty()
        },
    ) + "}"@
}

fn event_json(e: &Event, preview: &str) -> (r: String)
    ensures
        r@ == event_item(*e, preview@),
{
    let mut o = "{\"seq\":".to_owned();
    text::push_i64(&mut o, e.seq);
    o.append(",\"ts\":");
    o.append(jnum(e.ts).as_str());
    o.append(",\"kind\":");
    o.append(jopt(&e.kind).as_str());
    o.append(",\"role\":");
    o.append(jopt(&e.role).as_str());
    o.append(",\"model\":");
    o.append(jopt(&e.model).as_str());
    o.append(",\"tool\":");
    o.append(jopt(&e.tool).as_str());
    o.append(",\"target\":");
    o.append(jopt(&e.target).as_str());
    o.append(",\"err\":");
    o.append(jnum(e.is_err).as_str());
    o.append(",\"len\":");
    text::push_i64(&mut o, e.len);
    o.append(",\"in\":");
    o.append(jnum(e.in_tok).as_str());
    o.append(",\"out\":");
    o.append(jnum(e.out_tok).as_str());
    o.append(",\"cache\":");
    o.append(jnum(e.cache_r).as_str());
    o.append(",\"text\":");
    if wants_preview(e) {
        o.append(jstr(preview).as_str());
    } else {
        let none = String::new();
        assert(none@ =~= Seq::empty());
        o.append(jstr(none.as_str()).as_str());
    }
    o.append("}");
    o
}

/// A session's timeline, with how many rows it has, how many of them count, and
/// how many are hidden.
pub open spec fn timeline_object(
    n_ev: int,
    shown: int,
    rows: Seq<Event>,
    previews: Seq<Seq<char>>,
) -> Seq<char> {
    "{\"n_ev\":"@ + text::dec_int(n_ev) + ",\"n_shown\":"@ + text::dec_int(shown) + ",\"hidden\":"@
        + text::dec_int(n_ev - shown) + ",\"rows\":["@ + text::join(
        Seq::new(rows.len(), |i: int| event_item(rows[i], previews[i])),
        ","@,
    ) + "]}"@
}

/// A session's timeline. `previews` holds the start of every row's record; it is
/// looked at only where a row shows it.
pub fn timeline(n_ev: i64, shown: i64, rows: &Vec<Event>, previews: &Vec<String>) -> (r: String)
    requires
        previews@.len() == rows@.len(),
        i64::MIN <= n_ev - shown <= i64::MAX,
    ensures
        r@ == timeline_object(n_ev as int, shown as int, rows@, text::texts(previews@)),
{
    let ghost ps = text::texts(previews@);
    let ghost all = Seq::new(rows@.len(), |i: int| event_item(rows@[i], ps[i]));
    let mut out: Vec<String> = Vec::new();
    let mut i: usize = 0;
    while i < rows.len()
        invariant
            i <= rows@.len(),
            previews@.len() == rows@.len(),
            ps == text::texts(previews@),
            all == Seq::new(rows@.len(), |k: int| event_item(rows@[k], ps[k])),
            text::texts(out@) == all.take(i as int),
        decreases rows.len() - i,
    {
        let ghost before = text::texts(out@);
        let s = event_json(&rows[i], previews[i].as_str());
        out.push(s);
        assert(text::texts(out@) =~= before.push(s@));
        assert(before.push(s@) =~= all.take(i + 1));
        i += 1;
    }
    assert(all.take(rows@.len() as int) =~= all);
    let mut o = "{\"n_ev\":".to_owned();
    text::push_i64(&mut o, n_ev);
    o.append(",\"n_shown\":");
    text::push_i64(&mut o, shown);
    o.append(",\"hidden\":");
    text::push_i64(&mut o, n_ev - shown);
    o.append(",\"rows\":[");
    o.append(text::join_strings(&out, ",").as_str());
    o.append("]}");
    o
}

/// A JSON document printed without white space, where it is one and could be
/// printed.
pub uninterp spec fn compact(b: Seq<u8>) -> Option<Option<Seq<char>>>;

/// What an optional print stands for.
pub open spec fn print_view(p: Option<Option<String>>) -> Option<Option<Seq<char>>> {
    match p {
        Some(Some(s)) => Some(Some(s@)),
        Some(None) => Some(None),
        None => None,
    }
}

/// Trusted: reads a `serde_json::Value` with `serde_json::from_slice` and prints
/// it with `serde_json::to_string`. What comes out depends on the bytes alone.
#[verifier::external_body]
fn reprint(b: &[u8]) -> (r: Option<Option<String>>)
    ensures
        print_view(r) == compact(b@),
{
    match serde_json::from_slice::<serde_json::Value>(b) {
        Ok(v) => Some(serde_json::to_string(&v).ok()),
        Err(_) => None,
    }
}

/// A record that was read, where `p` is its document printed anew: that, or its
/// bytes as text. One that could not be read is an error.
pub open spec fn record_object(
    read: Result<Vec<u8>, String>,
    p: Option<Option<Seq<char>>>,
) -> Seq<char> {
    match read {
        Ok(b) => match p {
            Some(Some(s)) => "{\"json\":"@ + s + "}"@,
            Some(None) => "{\"json\":"@ + "null"@ + "}"@,
            None => "{\"raw\":"@ + text::json_quote(text::lossy(b@)) + "}"@,
        },
        Err(e) => error_object(e@),
    }
}

/// A record that was read, where `p` is its document printed anew.
pub fn record_printed(read: &Result<Vec<u8>, String>, p: &Option<Option<String>>) -> (r: String)
    ensures
        r@ == record_object(*read, print_view(*p)),
{
    match read {
        Ok(b) => match p {
            Some(x) => {
                let mut o = "{\"json\":".to_owned();
                match x {
                    Some(s) => {
                        o.append(s.as_str());
                    },
                    None => {
                        o.append("null");
                    },
                }
                o.append("}");
                o
            },
            None => {
                let mut o = "{\"raw\":".to_owned();
                o.append(jstr(text::from_utf8_lossy(b.as_slice()).as_str()).as_str());
                o.append("}");
                o
            },
        },
        Err(e) => err_json(e.as_str()),
    }
}

/// A record that was read, as JSON where it is JSON.
pub fn record(read: &Result<Vec<u8>, String>) -> (r: String)
    ensures
        r@ == record_object(
            *read,
            match read {
                Ok(b) => compact(b@),
                Err(_) => None,
            },
        ),
{
    let p = match read {
        Ok(b) => reprint(b.as_slice()),
        Err(_) => None,
    };
    record_printed(read, &p)
}

/// A record that a search found.
#[derive(Debug)]
pub struct Found {
    pub ext: String,
    pub sid: i64,
    pub seq: i64,
    pub ts: Option<i64>,
    pub kind: Option<String>,
    pub tool: Option<String>,
    pub target: Option<String>,
    pub is_err: Option<i64>,
}

/// What is quoted of a record that was found, if it could be read.
pub open spec fn excerpt(read: Result<Vec<u8>, String>, words: Seq<Seq<char>>) -> Seq<char> {
    match read {
        Ok(b) => search::snippet(text::lossy(b@), words, 200),
        Err(_) => Seq::empty(),
    }
}

pub open spec fn found_item(f: Found, snip: Seq<char>) -> Seq<char> {
    "{\"ext\":"@ + text::json_quote(f.ext@) + ",\"sid\":"@ + text::dec_int(f.sid as int)
        + ",\"seq\":"@ + text::dec_int(f.seq as int) + ",\"ts\":"@ + json_num(f.ts) + ",\"kind\":"@
        + json_opt(f.kind) + ",\"tool\":"@ + json_opt(f.tool) + ",\"target\":"@ + json_opt(f.target)
        + ",\"err\":"@ + json_num(f.is_err) + ",\"snip\":"@ + text::json_quote(snip) + "}"@
}

fn found_json(f: &Found, snip: &str) -> (r: String)
    ensures
        r@ == found_item(*f, snip@),
{
    let mut o = "{\"ext\":".to_owned();
    o.append(jstr(f.ext.as_str()).as_str());
    o.append(",\"sid\":");
    text::push_i64(&mut o, f.sid);
    o.append(",\"seq\":");
    text::push_i64(&mut o, f.seq);
    o.append(",\"ts\":");
    o.append(jnum(f.ts).as_str());
    o.append(",\"kind\":");
    o.append(jopt(&f.kind).as_str());
    o.append(",\"tool\":");
    o.append(jopt(&f.tool).as_str());
    o.append(",\"target\":");
    o.append(jopt(&f.target).as_str());
    o.append(",\"err\":");
    o.append(jnum(f.is_err).as_str());
    o.append(",\"snip\":");
    o.append(jstr(snip).as_str());
    o.append("}");
    o
}

/// Whether a search is blank, and then has no hits without the database.
pub fn is_blank(term: &str) -> (r: bool)
    ensures
        r == (text::trim(term@).len() == 0),
{
    text::trim_chars(&text::chars_of(term)).len() == 0
}

/// The records that a search found.
pub open spec fn found_object(
    hits: Seq<Found>,
    reads: Seq<Result<Vec<u8>, String>>,
    words: Seq<Seq<char>>,
) -> Seq<char> {
    "{\"hits\":["@ + text::join(
        Seq::new(hits.len(), |i: int| found_item(hits[i], excerpt(reads[i], words))),
        ","@,
    ) + "]}"@
}

fn quote(read: &Result<Vec<u8>, String>, words: &Vec<String>) -> (r: String)
    ensures
        r@ == excerpt(*read, text::texts(words@)),
{
    match read {
        Ok(b) => search::snip(text::from_utf8_lossy(b.as_slice()).as_str(), words, 200),
        Err(_) => {
            let none = String::new();
            assert(none@ =~= Seq::empty());
            none
        },
    }
}

/// The records that a search found. `reads` holds each record, or why it could
/// not be read.
pub fn search_hits(
    hits: &Vec<Found>,
    reads: &Vec<Result<Vec<u8>, String>>,
    words: &Vec<String>,
) -> (r: String)
    requires
        reads@.len() == hits@.len(),
    ensures
        r@ == found_object(hits@, reads@, text::texts(words@)),
{
    let ghost ws = text::texts(words@);
    let ghost all = Seq::new(hits@.len(), |i: int| found_item(hits@[i], excerpt(reads@[i], ws)));
    let mut out: Vec<String> = Vec::new();
    let mut i: usize = 0;
    while i < hits.len()
        invariant
            i <= hits@.len(),
            reads@.len() == hits@.len(),
            ws == text::texts(words@),
            all == Seq::new(
                hits@.len(),
                |k: int| found_item(hits@[k], excerpt(reads@[k], ws)),
            ),
            text::texts(out@) == all.take(i as int),
        decreases hits.len() - i,
    {
        let ghost before = text::texts(out@);
        let q = quote(&reads[i], words);
        let s = found_json(&hits[i], q.as_str());
        out.push(s);
        assert(text::texts(out@) =~= before.push(s@));
        assert(before.push(s@) =~= all.take(i + 1));
        i += 1;
    }
    assert(all.take(hits@.len() as int) =~= all);
    let mut o = "{\"hits\":[".to_owned();
    o.append(text::join_strings(&out, ",").as_str());
    o.append("]}");
    o
}

/// A tool call that failed.
#[derive(Debug)]
pub struct Failure {
    pub ext: String,
    pub sid: i64,
    pub seq: i64,
    pub ts: Option<i64>,
    pub tool: Option<String>,
    pub target: Option<String>,
}

pub open spec fn failure_item(f: Failure, snip: Seq<char>) -> Seq<char> {
    "{\"ext\":"@ + text::json_quote(f.ext@) + ",\"sid\":"@ + text::dec_int(f.sid as int)
        + ",\"seq\":"@ + text::dec_int(f.seq as int) + ",\"ts\":"@ + json_num(f.ts) + ",\"tool\":"@
        + json_opt(f.tool) + ",\"target\":"@ + json_opt(f.target) + ",\"snip\":"@ + text::json_quote(
        snip,
    ) + "}"@
}

fn failure_json(f: &Failure, snip: &str) -> (r: String)
    ensures
        r@ == failure_item(*f, snip@),
{
    let mut o = "{\"ext\":".to_owned();
    o.append(jstr(f.ext.as_str()).as_str());
    o.append(",\"sid\":");
    text::push_i64(&mut o, f.sid);
    o.append(",\"seq\":");
    text::push_i64(&mut o, f.seq);
    o.append(",\"ts\":");
    o.append(jnum(f.ts).as_str());
    o.append(",\"tool\":");
    o.append(jopt(&f.tool).as_str());
    o.append(",\"target\":");
    o.append(jopt(&f.target).as_str());
    o.append(",\"snip\":");
    o.append(jstr(snip).as_str());
    o.append("}");
    o
}

/// Tool calls that failed, each with the start of its record.
pub open spec fn failure_object(rows: Seq<Failure>, previews: Seq<Seq<char>>) -> Seq<char> {
    "{\"rows\":["@ + text::join(
        Seq::new(rows.len(), |i: int| failure_item(rows[i], previews[i])),
        ","@,
    ) + "]}"@
}

/// Tool calls that failed, each with the start of its record.
pub fn errors(rows: &Vec<Failure>, previews: &Vec<String>) -> (r: String)
    requires
        previews@.len() == rows@.len(),
    ensures
        r@ == failure_object(rows@, text::texts(previews@)),
{
    let ghost ps = text::texts(previews@);
    let ghost all = Seq::new(rows@.len(), |i: int| failure_item(rows@[i], ps[i]));
    let mut out: Vec<String> = Vec::new();
    let mut i: usize = 0;
    while i < rows.len()
        invariant
            i <= rows@.len(),
            previews@.len() == rows@.len(),
            ps == text::texts(previews@),
            all == Seq::new(rows@.len(), |k: int| failure_item(rows@[k], ps[k])),
            text::texts(out@) == all.take(i as int),
        decreases rows.len() - i,
    {
        let ghost before = text::texts(out@);
        let s = failure_json(&rows[i], previews[i].as_str());
        out.push(s);
        assert(text::texts(out@) =~= before.push(s@));
        assert(before.push(s@) =~= all.take(i + 1));
        i += 1;
    }
    assert(all.take(rows@.len() as int) =~= all);
    let mut o = "{\"rows\":[".to_owned();
    o.append(text::join_strings(&out, ",").as_str());
    o.append("]}");
    o
}

// ---------------------------------------------------------------------------
// What an answer says
// ---------------------------------------------------------------------------

/// A number, where there is one.
pub open spec fn int_of(v: Option<i64>) -> Option<int> {
    match v {
        Some(n) => Some(n as int),
        None => None,
    }
}

/// Each entry of a session is read back under its name; without a count of errors
/// or tokens there are none.
#[verifier::spinoff_prover]
#[verifier::rlimit(60)]
pub proof fn law_session_item(s: Session)
    ensures
        ({
            let o = session_item(s);
            &&& mcp::reads_text(o, "ext"@, Some(s.ext@))
            &&& mcp::reads_number(o, "sid"@, Some(s.sid as int))
            &&& mcp::reads_number(o, "n"@, Some(s.n as int))
            &&& mcp::reads_number(o, "t0"@, int_of(s.t0))
            &&& mcp::reads_number(o, "t1"@, int_of(s.t1))
            &&& mcp::reads_number(o, "err"@, Some(match s.errors { Some(n) => n as int, None => 0 }))
            &&& mcp::reads_number(o, "tok"@, Some(match s.tokens { Some(n) => n as int, None => 0 }))
        }),
{
    let o = session_item(s);
    lemma_names_session_item();
    let x0 = mcp::text_scalar(Some(s.ext@));
    mcp::lemma_scalars_are_sound(Some(s.ext@), None);
    mcp::lemma_opens("{\"ext\":"@, "ext"@, x0);
    let m0 = seq![("ext"@, x0)];
    let t0 = "{\"ext\":"@ + mcp::written(x0);
    let x1 = mcp::number_scalar(Some(s.sid as int));
    mcp::lemma_scalars_are_sound(None, Some(s.sid as int));
    mcp::lemma_goes_on(t0, m0, ",\"sid\":"@, "sid"@, x1);
    let m1 = m0.push(("sid"@, x1));
    let t1 = t0 + ",\"sid\":"@ + mcp::written(x1);
    let x2 = mcp::number_scalar(Some(s.n as int));
    mcp::lemma_scalars_are_sound(None, Some(s.n as int));
    mcp::lemma_goes_on(t1, m1, ",\"n\":"@, "n"@, x2);
    let m2 = m1.push(("n"@, x2));
    let t2 = t1 + ",\"n\":"@ + mcp::written(x2);
    let x3 = mcp::number_scalar(int_of(s.t0));
    mcp::lemma_scalars_are_sound(None, int_of(s.t0));
    mcp::lemma_goes_on(t2, m2, ",\"t0\":"@, "t0"@, x3);
    let m3 = m2.push(("t0"@, x3));
    let t3 = t2 + ",\"t0\":"@ + mcp::written(x3);
    let x4 = mcp::number_scalar(int_of(s.t1));
    mcp::lemma_scalars_are_sound(None, int_of(s.t1));
    mcp::lemma_goes_on(t3, m3, ",\"t1\":"@, "t1"@, x4);
    let m4 = m3.push(("t1"@, x4));
    let t4 = t3 + ",\"t1\":"@ + mcp::written(x4);
    let x5 = mcp::number_scalar(Some(match s.errors { Some(n) => n as int, None => 0 }));
    mcp::lemma_scalars_are_sound(None, Some(match s.errors { Some(n) => n as int, None => 0 }));
    mcp::lemma_goes_on(t4, m4, ",\"err\":"@, "err"@, x5);
    let m5 = m4.push(("err"@, x5));
    let t5 = t4 + ",\"err\":"@ + mcp::written(x5);
    let x6 = mcp::number_scalar(Some(match s.tokens { Some(n) => n as int, None => 0 }));
    mcp::lemma_scalars_are_sound(None, Some(match s.tokens { Some(n) => n as int, None => 0 }));
    mcp::lemma_goes_on(t5, m5, ",\"tok\":"@, "tok"@, x6);
    let m6 = m5.push(("tok"@, x6));
    let t6 = t5 + ",\"tok\":"@ + mcp::written(x6);
    let w = t6;
    let ms = m6;
    reveal_strlit("}");
    let z = "}"@;
    assert(o == w + z);
    assert((w + z).subrange(0, w.len() as int) =~= w);
    assert((w + z)[w.len() as int] == z[0]);
    assert(ms[0] == ("ext"@, x0) && ms[1] == ("sid"@, x1) && ms[2] == ("n"@, x2) && ms[3] == ("t0"@, x3) && ms[4] == ("t1"@, x4) && ms[5] == ("err"@, x5) && ms[6] == ("tok"@, x6));
    assert(mcp::distinct_keys(ms));
    assert(mcp::sound_members(ms));
    mcp::law_members_read_back(o, ms, 0);
    mcp::law_members_read_back(o, ms, 1);
    mcp::law_members_read_back(o, ms, 2);
    mcp::law_members_read_back(o, ms, 3);
    mcp::law_members_read_back(o, ms, 4);
    mcp::law_members_read_back(o, ms, 5);
    mcp::law_members_read_back(o, ms, 6);
}

proof fn lemma_names_session_item()
    ensures
        "ext"@.len() == 3 && "ext"@[0] == 'e' && "ext"@[1] == 'x' && "ext"@[2] == 't',
        mcp::plain_key("ext"@),
        "{\"ext\":"@ == seq!['{', '"'] + "ext"@ + seq!['"', ':'],
        "sid"@.len() == 3 && "sid"@[0] == 's' && "sid"@[1] == 'i' && "sid"@[2] == 'd',
        mcp::plain_key("sid"@),
        ",\"sid\":"@ == seq![',', '"'] + "sid"@ + seq!['"', ':'],
        "n"@.len() == 1 && "n"@[0] == 'n',
        mcp::plain_key("n"@),
        ",\"n\":"@ == seq![',', '"'] + "n"@ + seq!['"', ':'],
        "t0"@.len() == 2 && "t0"@[0] == 't' && "t0"@[1] == '0',
        mcp::plain_key("t0"@),
        ",\"t0\":"@ == seq![',', '"'] + "t0"@ + seq!['"', ':'],
        "t1"@.len() == 2 && "t1"@[0] == 't' && "t1"@[1] == '1',
        mcp::plain_key("t1"@),
        ",\"t1\":"@ == seq![',', '"'] + "t1"@ + seq!['"', ':'],
        "err"@.len() == 3 && "err"@[0] == 'e' && "err"@[1] == 'r' && "err"@[2] == 'r',
        mcp::plain_key("err"@),
        ",\"err\":"@ == seq![',', '"'] + "err"@ + seq!['"', ':'],
        "tok"@.len() == 3 && "tok"@[0] == 't' && "tok"@[1] == 'o' && "tok"@[2] == 'k',
        mcp::plain_key("tok"@),
        ",\"tok\":"@ == seq![',', '"'] + "tok"@ + seq!['"', ':'],
{
    reveal_strlit("ext");
    reveal_strlit("{\"ext\":");
    assert("{\"ext\":"@ =~= seq!['{', '"'] + "ext"@ + seq!['"', ':']);
    reveal_strlit("sid");
    reveal_strlit(",\"sid\":");
    assert(",\"sid\":"@ =~= seq![',', '"'] + "sid"@ + seq!['"', ':']);
    reveal_strlit("n");
    reveal_strlit(",\"n\":");
    assert(",\"n\":"@ =~= seq![',', '"'] + "n"@ + seq!['"', ':']);
    reveal_strlit("t0");
    reveal_strlit(",\"t0\":");
    assert(",\"t0\":"@ =~= seq![',', '"'] + "t0"@ + seq!['"', ':']);
    reveal_strlit("t1");
    reveal_strlit(",\"t1\":");
    assert(",\"t1\":"@ =~= seq![',', '"'] + "t1"@ + seq!['"', ':']);
    reveal_strlit("err");
    reveal_strlit(",\"err\":");
    assert(",\"err\":"@ =~= seq![',', '"'] + "err"@ + seq!['"', ':']);
    reveal_strlit("tok");
    reveal_strlit(",\"tok\":");
    assert(",\"tok\":"@ =~= seq![',', '"'] + "tok"@ + seq!['"', ':']);
}

/// Each entry of a row of a timeline is read back under its name. A preview is shown
/// of a row without a target and of one that failed.
#[verifier::spinoff_prover]
#[verifier::rlimit(60)]
pub proof fn law_event_item(e: Event, preview: Seq<char>)
    ensures
        ({
            let o = event_item(e, preview);
            &&& mcp::reads_number(o, "seq"@, Some(e.seq as int))
            &&& mcp::reads_number(o, "ts"@, int_of(e.ts))
            &&& mcp::reads_text(o, "kind"@, text::opt_text(e.kind))
            &&& mcp::reads_text(o, "role"@, text::opt_text(e.role))
            &&& mcp::reads_text(o, "model"@, text::opt_text(e.model))
            &&& mcp::reads_text(o, "tool"@, text::opt_text(e.tool))
            &&& mcp::reads_text(o, "target"@, text::opt_text(e.target))
            &&& mcp::reads_number(o, "err"@, int_of(e.is_err))
            &&& mcp::reads_number(o, "len"@, Some(e.len as int))
            &&& mcp::reads_number(o, "in"@, int_of(e.in_tok))
            &&& mcp::reads_number(o, "out"@, int_of(e.out_tok))
            &&& mcp::reads_number(o, "cache"@, int_of(e.cache_r))
            &&& mcp::reads_text(o, "text"@, Some(if e.target is None || e.is_err == Some(1i64) { preview } else { Seq::empty() }))
        }),
{
    let o = event_item(e, preview);
    lemma_names_event_item();
    let x0 = mcp::number_scalar(Some(e.seq as int));
    mcp::lemma_scalars_are_sound(None, Some(e.seq as int));
    mcp::lemma_opens("{\"seq\":"@, "seq"@, x0);
    let m0 = seq![("seq"@, x0)];
    let t0 = "{\"seq\":"@ + mcp::written(x0);
    let x1 = mcp::number_scalar(int_of(e.ts));
    mcp::lemma_scalars_are_sound(None, int_of(e.ts));
    mcp::lemma_goes_on(t0, m0, ",\"ts\":"@, "ts"@, x1);
    let m1 = m0.push(("ts"@, x1));
    let t1 = t0 + ",\"ts\":"@ + mcp::written(x1);
    let x2 = mcp::text_scalar(text::opt_text(e.kind));
    mcp::lemma_scalars_are_sound(text::opt_text(e.kind), None);
    mcp::lemma_goes_on(t1, m1, ",\"kind\":"@, "kind"@, x2);
    let m2 = m1.push(("kind"@, x2));
    let t2 = t1 + ",\"kind\":"@ + mcp::written(x2);
    let x3 = mcp::text_scalar(text::opt_text(e.role));
    mcp::lemma_scalars_are_sound(text::opt_text(e.role), None);
    mcp::lemma_goes_on(t2, m2, ",\"role\":"@, "role"@, x3);
    let m3 = m2.push(("role"@, x3));
    let t3 = t2 + ",\"role\":"@ + mcp::written(x3);
    let x4 = mcp::text_scalar(text::opt_text(e.model));
    mcp::lemma_scalars_are_sound(text::opt_text(e.model), None);
    mcp::lemma_goes_on(t3, m3, ",\"model\":"@, "model"@, x4);
    let m4 = m3.push(("model"@, x4));
    let t4 = t3 + ",\"model\":"@ + mcp::written(x4);
    let x5 = mcp::text_scalar(text::opt_text(e.tool));
    mcp::lemma_scalars_are_sound(text::opt_text(e.tool), None);
    mcp::lemma_goes_on(t4, m4, ",\"tool\":"@, "tool"@, x5);
    let m5 = m4.push(("tool"@, x5));
    let t5 = t4 + ",\"tool\":"@ + mcp::written(x5);
    let x6 = mcp::text_scalar(text::opt_text(e.target));
    mcp::lemma_scalars_are_sound(text::opt_text(e.target), None);
    mcp::lemma_goes_on(t5, m5, ",\"target\":"@, "target"@, x6);
    let m6 = m5.push(("target"@, x6));
    let t6 = t5 + ",\"target\":"@ + mcp::written(x6);
    let x7 = mcp::number_scalar(int_of(e.is_err));
    mcp::lemma_scalars_are_sound(None, int_of(e.is_err));
    mcp::lemma_goes_on(t6, m6, ",\"err\":"@, "err"@, x7);
    let m7 = m6.push(("err"@, x7));
    let t7 = t6 + ",\"err\":"@ + mcp::written(x7);
    let x8 = mcp::number_scalar(Some(e.len as int));
    mcp::lemma_scalars_are_sound(None, Some(e.len as int));
    mcp::lemma_goes_on(t7, m7, ",\"len\":"@, "len"@, x8);
    let m8 = m7.push(("len"@, x8));
    let t8 = t7 + ",\"len\":"@ + mcp::written(x8);
    let x9 = mcp::number_scalar(int_of(e.in_tok));
    mcp::lemma_scalars_are_sound(None, int_of(e.in_tok));
    mcp::lemma_goes_on(t8, m8, ",\"in\":"@, "in"@, x9);
    let m9 = m8.push(("in"@, x9));
    let t9 = t8 + ",\"in\":"@ + mcp::written(x9);
    let x10 = mcp::number_scalar(int_of(e.out_tok));
    mcp::lemma_scalars_are_sound(None, int_of(e.out_tok));
    mcp::lemma_goes_on(t9, m9, ",\"out\":"@, "out"@, x10);
    let m10 = m9.push(("out"@, x10));
    let t10 = t9 + ",\"out\":"@ + mcp::written(x10);
    let x11 = mcp::number_scalar(int_of(e.cache_r));
    mcp::lemma_scalars_are_sound(None, int_of(e.cache_r));
    mcp::lemma_goes_on(t10, m10, ",\"cache\":"@, "cache"@, x11);
    let m11 = m10.push(("cache"@, x11));
    let t11 = t10 + ",\"cache\":"@ + mcp::written(x11);
    let x12 = mcp::text_scalar(Some(if e.target is None || e.is_err == Some(1i64) { preview } else { Seq::empty() }));
    mcp::lemma_scalars_are_sound(Some(if e.target is None || e.is_err == Some(1i64) { preview } else { Seq::empty() }), None);
    mcp::lemma_goes_on(t11, m11, ",\"text\":"@, "text"@, x12);
    let m12 = m11.push(("text"@, x12));
    let t12 = t11 + ",\"text\":"@ + mcp::written(x12);
    let w = t12;
    let ms = m12;
    reveal_strlit("}");
    let z = "}"@;
    assert(o == w + z);
    assert((w + z).subrange(0, w.len() as int) =~= w);
    assert((w + z)[w.len() as int] == z[0]);
    assert(ms[0] == ("seq"@, x0) && ms[1] == ("ts"@, x1) && ms[2] == ("kind"@, x2) && ms[3] == ("role"@, x3) && ms[4] == ("model"@, x4) && ms[5] == ("tool"@, x5) && ms[6] == ("target"@, x6) && ms[7] == ("err"@, x7) && ms[8] == ("len"@, x8) && ms[9] == ("in"@, x9) && ms[10] == ("out"@, x10) && ms[11] == ("cache"@, x11) && ms[12] == ("text"@, x12));
    assert(mcp::distinct_keys(ms));
    assert(mcp::sound_members(ms));
    mcp::law_members_read_back(o, ms, 0);
    mcp::law_members_read_back(o, ms, 1);
    mcp::law_members_read_back(o, ms, 2);
    mcp::law_members_read_back(o, ms, 3);
    mcp::law_members_read_back(o, ms, 4);
    mcp::law_members_read_back(o, ms, 5);
    mcp::law_members_read_back(o, ms, 6);
    mcp::law_members_read_back(o, ms, 7);
    mcp::law_members_read_back(o, ms, 8);
    mcp::law_members_read_back(o, ms, 9);
    mcp::law_members_read_back(o, ms, 10);
    mcp::law_members_read_back(o, ms, 11);
    mcp::law_members_read_back(o, ms, 12);
}

proof fn lemma_names_event_item()
    ensures
        "seq"@.len() == 3 && "seq"@[0] == 's' && "seq"@[1] == 'e' && "seq"@[2] == 'q',
        mcp::plain_key("seq"@),
        "{\"seq\":"@ == seq!['{', '"'] + "seq"@ + seq!['"', ':'],
        "ts"@.len() == 2 && "ts"@[0] == 't' && "ts"@[1] == 's',
        mcp::plain_key("ts"@),
        ",\"ts\":"@ == seq![',', '"'] + "ts"@ + seq!['"', ':'],
        "kind"@.len() == 4 && "kind"@[0] == 'k' && "kind"@[1] == 'i' && "kind"@[2] == 'n' && "kind"@[3] == 'd',
        mcp::plain_key("kind"@),
        ",\"kind\":"@ == seq![',', '"'] + "kind"@ + seq!['"', ':'],
        "role"@.len() == 4 && "role"@[0] == 'r' && "role"@[1] == 'o' && "role"@[2] == 'l' && "role"@[3] == 'e',
        mcp::plain_key("role"@),
        ",\"role\":"@ == seq![',', '"'] + "role"@ + seq!['"', ':'],
        "model"@.len() == 5 && "model"@[0] == 'm' && "model"@[1] == 'o' && "model"@[2] == 'd' && "model"@[3] == 'e' && "model"@[4] == 'l',
        mcp::plain_key("model"@),
        ",\"model\":"@ == seq![',', '"'] + "model"@ + seq!['"', ':'],
        "tool"@.len() == 4 && "tool"@[0] == 't' && "tool"@[1] == 'o' && "tool"@[2] == 'o' && "tool"@[3] == 'l',
        mcp::plain_key("tool"@),
        ",\"tool\":"@ == seq![',', '"'] + "tool"@ + seq!['"', ':'],
        "target"@.len() == 6 && "target"@[0] == 't' && "target"@[1] == 'a' && "target"@[2] == 'r' && "target"@[3] == 'g' && "target"@[4] == 'e' && "target"@[5] == 't',
        mcp::plain_key("target"@),
        ",\"target\":"@ == seq![',', '"'] + "target"@ + seq!['"', ':'],
        "err"@.len() == 3 && "err"@[0] == 'e' && "err"@[1] == 'r' && "err"@[2] == 'r',
        mcp::plain_key("err"@),
        ",\"err\":"@ == seq![',', '"'] + "err"@ + seq!['"', ':'],
        "len"@.len() == 3 && "len"@[0] == 'l' && "len"@[1] == 'e' && "len"@[2] == 'n',
        mcp::plain_key("len"@),
        ",\"len\":"@ == seq![',', '"'] + "len"@ + seq!['"', ':'],
        "in"@.len() == 2 && "in"@[0] == 'i' && "in"@[1] == 'n',
        mcp::plain_key("in"@),
        ",\"in\":"@ == seq![',', '"'] + "in"@ + seq!['"', ':'],
        "out"@.len() == 3 && "out"@[0] == 'o' && "out"@[1] == 'u' && "out"@[2] == 't',
        mcp::plain_key("out"@),
        ",\"out\":"@ == seq![',', '"'] + "out"@ + seq!['"', ':'],
        "cache"@.len() == 5 && "cache"@[0] == 'c' && "cache"@[1] == 'a' && "cache"@[2] == 'c' && "cache"@[3] == 'h' && "cache"@[4] == 'e',
        mcp::plain_key("cache"@),
        ",\"cache\":"@ == seq![',', '"'] + "cache"@ + seq!['"', ':'],
        "text"@.len() == 4 && "text"@[0] == 't' && "text"@[1] == 'e' && "text"@[2] == 'x' && "text"@[3] == 't',
        mcp::plain_key("text"@),
        ",\"text\":"@ == seq![',', '"'] + "text"@ + seq!['"', ':'],
{
    reveal_strlit("seq");
    reveal_strlit("{\"seq\":");
    assert("{\"seq\":"@ =~= seq!['{', '"'] + "seq"@ + seq!['"', ':']);
    reveal_strlit("ts");
    reveal_strlit(",\"ts\":");
    assert(",\"ts\":"@ =~= seq![',', '"'] + "ts"@ + seq!['"', ':']);
    reveal_strlit("kind");
    reveal_strlit(",\"kind\":");
    assert(",\"kind\":"@ =~= seq![',', '"'] + "kind"@ + seq!['"', ':']);
    reveal_strlit("role");
    reveal_strlit(",\"role\":");
    assert(",\"role\":"@ =~= seq![',', '"'] + "role"@ + seq!['"', ':']);
    reveal_strlit("model");
    reveal_strlit(",\"model\":");
    assert(",\"model\":"@ =~= seq![',', '"'] + "model"@ + seq!['"', ':']);
    reveal_strlit("tool");
    reveal_strlit(",\"tool\":");
    assert(",\"tool\":"@ =~= seq![',', '"'] + "tool"@ + seq!['"', ':']);
    reveal_strlit("target");
    reveal_strlit(",\"target\":");
    assert(",\"target\":"@ =~= seq![',', '"'] + "target"@ + seq!['"', ':']);
    reveal_strlit("err");
    reveal_strlit(",\"err\":");
    assert(",\"err\":"@ =~= seq![',', '"'] + "err"@ + seq!['"', ':']);
    reveal_strlit("len");
    reveal_strlit(",\"len\":");
    assert(",\"len\":"@ =~= seq![',', '"'] + "len"@ + seq!['"', ':']);
    reveal_strlit("in");
    reveal_strlit(",\"in\":");
    assert(",\"in\":"@ =~= seq![',', '"'] + "in"@ + seq!['"', ':']);
    reveal_strlit("out");
    reveal_strlit(",\"out\":");
    assert(",\"out\":"@ =~= seq![',', '"'] + "out"@ + seq!['"', ':']);
    reveal_strlit("cache");
    reveal_strlit(",\"cache\":");
    assert(",\"cache\":"@ =~= seq![',', '"'] + "cache"@ + seq!['"', ':']);
    reveal_strlit("text");
    reveal_strlit(",\"text\":");
    assert(",\"text\":"@ =~= seq![',', '"'] + "text"@ + seq!['"', ':']);
}

/// Each entry of a hit is read back under its name.
#[verifier::spinoff_prover]
#[verifier::rlimit(60)]
pub proof fn law_found_item(f: Found, snip: Seq<char>)
    ensures
        ({
            let o = found_item(f, snip);
            &&& mcp::reads_text(o, "ext"@, Some(f.ext@))
            &&& mcp::reads_number(o, "sid"@, Some(f.sid as int))
            &&& mcp::reads_number(o, "seq"@, Some(f.seq as int))
            &&& mcp::reads_number(o, "ts"@, int_of(f.ts))
            &&& mcp::reads_text(o, "kind"@, text::opt_text(f.kind))
            &&& mcp::reads_text(o, "tool"@, text::opt_text(f.tool))
            &&& mcp::reads_text(o, "target"@, text::opt_text(f.target))
            &&& mcp::reads_number(o, "err"@, int_of(f.is_err))
            &&& mcp::reads_text(o, "snip"@, Some(snip))
        }),
{
    let o = found_item(f, snip);
    lemma_names_found_item();
    let x0 = mcp::text_scalar(Some(f.ext@));
    mcp::lemma_scalars_are_sound(Some(f.ext@), None);
    mcp::lemma_opens("{\"ext\":"@, "ext"@, x0);
    let m0 = seq![("ext"@, x0)];
    let t0 = "{\"ext\":"@ + mcp::written(x0);
    let x1 = mcp::number_scalar(Some(f.sid as int));
    mcp::lemma_scalars_are_sound(None, Some(f.sid as int));
    mcp::lemma_goes_on(t0, m0, ",\"sid\":"@, "sid"@, x1);
    let m1 = m0.push(("sid"@, x1));
    let t1 = t0 + ",\"sid\":"@ + mcp::written(x1);
    let x2 = mcp::number_scalar(Some(f.seq as int));
    mcp::lemma_scalars_are_sound(None, Some(f.seq as int));
    mcp::lemma_goes_on(t1, m1, ",\"seq\":"@, "seq"@, x2);
    let m2 = m1.push(("seq"@, x2));
    let t2 = t1 + ",\"seq\":"@ + mcp::written(x2);
    let x3 = mcp::number_scalar(int_of(f.ts));
    mcp::lemma_scalars_are_sound(None, int_of(f.ts));
    mcp::lemma_goes_on(t2, m2, ",\"ts\":"@, "ts"@, x3);
    let m3 = m2.push(("ts"@, x3));
    let t3 = t2 + ",\"ts\":"@ + mcp::written(x3);
    let x4 = mcp::text_scalar(text::opt_text(f.kind));
    mcp::lemma_scalars_are_sound(text::opt_text(f.kind), None);
    mcp::lemma_goes_on(t3, m3, ",\"kind\":"@, "kind"@, x4);
    let m4 = m3.push(("kind"@, x4));
    let t4 = t3 + ",\"kind\":"@ + mcp::written(x4);
    let x5 = mcp::text_scalar(text::opt_text(f.tool));
    mcp::lemma_scalars_are_sound(text::opt_text(f.tool), None);
    mcp::lemma_goes_on(t4, m4, ",\"tool\":"@, "tool"@, x5);
    let m5 = m4.push(("tool"@, x5));
    let t5 = t4 + ",\"tool\":"@ + mcp::written(x5);
    let x6 = mcp::text_scalar(text::opt_text(f.target));
    mcp::lemma_scalars_are_sound(text::opt_text(f.target), None);
    mcp::lemma_goes_on(t5, m5, ",\"target\":"@, "target"@, x6);
    let m6 = m5.push(("target"@, x6));
    let t6 = t5 + ",\"target\":"@ + mcp::written(x6);
    let x7 = mcp::number_scalar(int_of(f.is_err));
    mcp::lemma_scalars_are_sound(None, int_of(f.is_err));
    mcp::lemma_goes_on(t6, m6, ",\"err\":"@, "err"@, x7);
    let m7 = m6.push(("err"@, x7));
    let t7 = t6 + ",\"err\":"@ + mcp::written(x7);
    let x8 = mcp::text_scalar(Some(snip));
    mcp::lemma_scalars_are_sound(Some(snip), None);
    mcp::lemma_goes_on(t7, m7, ",\"snip\":"@, "snip"@, x8);
    let m8 = m7.push(("snip"@, x8));
    let t8 = t7 + ",\"snip\":"@ + mcp::written(x8);
    let w = t8;
    let ms = m8;
    reveal_strlit("}");
    let z = "}"@;
    assert(o == w + z);
    assert((w + z).subrange(0, w.len() as int) =~= w);
    assert((w + z)[w.len() as int] == z[0]);
    assert(ms[0] == ("ext"@, x0) && ms[1] == ("sid"@, x1) && ms[2] == ("seq"@, x2) && ms[3] == ("ts"@, x3) && ms[4] == ("kind"@, x4) && ms[5] == ("tool"@, x5) && ms[6] == ("target"@, x6) && ms[7] == ("err"@, x7) && ms[8] == ("snip"@, x8));
    assert(mcp::distinct_keys(ms));
    assert(mcp::sound_members(ms));
    mcp::law_members_read_back(o, ms, 0);
    mcp::law_members_read_back(o, ms, 1);
    mcp::law_members_read_back(o, ms, 2);
    mcp::law_members_read_back(o, ms, 3);
    mcp::law_members_read_back(o, ms, 4);
    mcp::law_members_read_back(o, ms, 5);
    mcp::law_members_read_back(o, ms, 6);
    mcp::law_members_read_back(o, ms, 7);
    mcp::law_members_read_back(o, ms, 8);
}

proof fn lemma_names_found_item()
    ensures
        "ext"@.len() == 3 && "ext"@[0] == 'e' && "ext"@[1] == 'x' && "ext"@[2] == 't',
        mcp::plain_key("ext"@),
        "{\"ext\":"@ == seq!['{', '"'] + "ext"@ + seq!['"', ':'],
        "sid"@.len() == 3 && "sid"@[0] == 's' && "sid"@[1] == 'i' && "sid"@[2] == 'd',
        mcp::plain_key("sid"@),
        ",\"sid\":"@ == seq![',', '"'] + "sid"@ + seq!['"', ':'],
        "seq"@.len() == 3 && "seq"@[0] == 's' && "seq"@[1] == 'e' && "seq"@[2] == 'q',
        mcp::plain_key("seq"@),
        ",\"seq\":"@ == seq![',', '"'] + "seq"@ + seq!['"', ':'],
        "ts"@.len() == 2 && "ts"@[0] == 't' && "ts"@[1] == 's',
        mcp::plain_key("ts"@),
        ",\"ts\":"@ == seq![',', '"'] + "ts"@ + seq!['"', ':'],
        "kind"@.len() == 4 && "kind"@[0] == 'k' && "kind"@[1] == 'i' && "kind"@[2] == 'n' && "kind"@[3] == 'd',
        mcp::plain_key("kind"@),
        ",\"kind\":"@ == seq![',', '"'] + "kind"@ + seq!['"', ':'],
        "tool"@.len() == 4 && "tool"@[0] == 't' && "tool"@[1] == 'o' && "tool"@[2] == 'o' && "tool"@[3] == 'l',
        mcp::plain_key("tool"@),
        ",\"tool\":"@ == seq![',', '"'] + "tool"@ + seq!['"', ':'],
        "target"@.len() == 6 && "target"@[0] == 't' && "target"@[1] == 'a' && "target"@[2] == 'r' && "target"@[3] == 'g' && "target"@[4] == 'e' && "target"@[5] == 't',
        mcp::plain_key("target"@),
        ",\"target\":"@ == seq![',', '"'] + "target"@ + seq!['"', ':'],
        "err"@.len() == 3 && "err"@[0] == 'e' && "err"@[1] == 'r' && "err"@[2] == 'r',
        mcp::plain_key("err"@),
        ",\"err\":"@ == seq![',', '"'] + "err"@ + seq!['"', ':'],
        "snip"@.len() == 4 && "snip"@[0] == 's' && "snip"@[1] == 'n' && "snip"@[2] == 'i' && "snip"@[3] == 'p',
        mcp::plain_key("snip"@),
        ",\"snip\":"@ == seq![',', '"'] + "snip"@ + seq!['"', ':'],
{
    reveal_strlit("ext");
    reveal_strlit("{\"ext\":");
    assert("{\"ext\":"@ =~= seq!['{', '"'] + "ext"@ + seq!['"', ':']);
    reveal_strlit("sid");
    reveal_strlit(",\"sid\":");
    assert(",\"sid\":"@ =~= seq![',', '"'] + "sid"@ + seq!['"', ':']);
    reveal_strlit("seq");
    reveal_strlit(",\"seq\":");
    assert(",\"seq\":"@ =~= seq![',', '"'] + "seq"@ + seq!['"', ':']);
    reveal_strlit("ts");
    reveal_strlit(",\"ts\":");
    assert(",\"ts\":"@ =~= seq![',', '"'] + "ts"@ + seq!['"', ':']);
    reveal_strlit("kind");
    reveal_strlit(",\"kind\":");
    assert(",\"kind\":"@ =~= seq![',', '"'] + "kind"@ + seq!['"', ':']);
    reveal_strlit("tool");
    reveal_strlit(",\"tool\":");
    assert(",\"tool\":"@ =~= seq![',', '"'] + "tool"@ + seq!['"', ':']);
    reveal_strlit("target");
    reveal_strlit(",\"target\":");
    assert(",\"target\":"@ =~= seq![',', '"'] + "target"@ + seq!['"', ':']);
    reveal_strlit("err");
    reveal_strlit(",\"err\":");
    assert(",\"err\":"@ =~= seq![',', '"'] + "err"@ + seq!['"', ':']);
    reveal_strlit("snip");
    reveal_strlit(",\"snip\":");
    assert(",\"snip\":"@ =~= seq![',', '"'] + "snip"@ + seq!['"', ':']);
}

/// Each entry of a failure is read back under its name.
#[verifier::spinoff_prover]
#[verifier::rlimit(60)]
pub proof fn law_failure_item(f: Failure, snip: Seq<char>)
    ensures
        ({
            let o = failure_item(f, snip);
            &&& mcp::reads_text(o, "ext"@, Some(f.ext@))
            &&& mcp::reads_number(o, "sid"@, Some(f.sid as int))
            &&& mcp::reads_number(o, "seq"@, Some(f.seq as int))
            &&& mcp::reads_number(o, "ts"@, int_of(f.ts))
            &&& mcp::reads_text(o, "tool"@, text::opt_text(f.tool))
            &&& mcp::reads_text(o, "target"@, text::opt_text(f.target))
            &&& mcp::reads_text(o, "snip"@, Some(snip))
        }),
{
    let o = failure_item(f, snip);
    lemma_names_failure_item();
    let x0 = mcp::text_scalar(Some(f.ext@));
    mcp::lemma_scalars_are_sound(Some(f.ext@), None);
    mcp::lemma_opens("{\"ext\":"@, "ext"@, x0);
    let m0 = seq![("ext"@, x0)];
    let t0 = "{\"ext\":"@ + mcp::written(x0);
    let x1 = mcp::number_scalar(Some(f.sid as int));
    mcp::lemma_scalars_are_sound(None, Some(f.sid as int));
    mcp::lemma_goes_on(t0, m0, ",\"sid\":"@, "sid"@, x1);
    let m1 = m0.push(("sid"@, x1));
    let t1 = t0 + ",\"sid\":"@ + mcp::written(x1);
    let x2 = mcp::number_scalar(Some(f.seq as int));
    mcp::lemma_scalars_are_sound(None, Some(f.seq as int));
    mcp::lemma_goes_on(t1, m1, ",\"seq\":"@, "seq"@, x2);
    let m2 = m1.push(("seq"@, x2));
    let t2 = t1 + ",\"seq\":"@ + mcp::written(x2);
    let x3 = mcp::number_scalar(int_of(f.ts));
    mcp::lemma_scalars_are_sound(None, int_of(f.ts));
    mcp::lemma_goes_on(t2, m2, ",\"ts\":"@, "ts"@, x3);
    let m3 = m2.push(("ts"@, x3));
    let t3 = t2 + ",\"ts\":"@ + mcp::written(x3);
    let x4 = mcp::text_scalar(text::opt_text(f.tool));
    mcp::lemma_scalars_are_sound(text::opt_text(f.tool), None);
    mcp::lemma_goes_on(t3, m3, ",\"tool\":"@, "tool"@, x4);
    let m4 = m3.push(("tool"@, x4));
    let t4 = t3 + ",\"tool\":"@ + mcp::written(x4);
    let x5 = mcp::text_scalar(text::opt_text(f.target));
    mcp::lemma_scalars_are_sound(text::opt_text(f.target), None);
    mcp::lemma_goes_on(t4, m4, ",\"target\":"@, "target"@, x5);
    let m5 = m4.push(("target"@, x5));
    let t5 = t4 + ",\"target\":"@ + mcp::written(x5);
    let x6 = mcp::text_scalar(Some(snip));
    mcp::lemma_scalars_are_sound(Some(snip), None);
    mcp::lemma_goes_on(t5, m5, ",\"snip\":"@, "snip"@, x6);
    let m6 = m5.push(("snip"@, x6));
    let t6 = t5 + ",\"snip\":"@ + mcp::written(x6);
    let w = t6;
    let ms = m6;
    reveal_strlit("}");
    let z = "}"@;
    assert(o == w + z);
    assert((w + z).subrange(0, w.len() as int) =~= w);
    assert((w + z)[w.len() as int] == z[0]);
    assert(ms[0] == ("ext"@, x0) && ms[1] == ("sid"@, x1) && ms[2] == ("seq"@, x2) && ms[3] == ("ts"@, x3) && ms[4] == ("tool"@, x4) && ms[5] == ("target"@, x5) && ms[6] == ("snip"@, x6));
    assert(mcp::distinct_keys(ms));
    assert(mcp::sound_members(ms));
    mcp::law_members_read_back(o, ms, 0);
    mcp::law_members_read_back(o, ms, 1);
    mcp::law_members_read_back(o, ms, 2);
    mcp::law_members_read_back(o, ms, 3);
    mcp::law_members_read_back(o, ms, 4);
    mcp::law_members_read_back(o, ms, 5);
    mcp::law_members_read_back(o, ms, 6);
}

proof fn lemma_names_failure_item()
    ensures
        "ext"@.len() == 3 && "ext"@[0] == 'e' && "ext"@[1] == 'x' && "ext"@[2] == 't',
        mcp::plain_key("ext"@),
        "{\"ext\":"@ == seq!['{', '"'] + "ext"@ + seq!['"', ':'],
        "sid"@.len() == 3 && "sid"@[0] == 's' && "sid"@[1] == 'i' && "sid"@[2] == 'd',
        mcp::plain_key("sid"@),
        ",\"sid\":"@ == seq![',', '"'] + "sid"@ + seq!['"', ':'],
        "seq"@.len() == 3 && "seq"@[0] == 's' && "seq"@[1] == 'e' && "seq"@[2] == 'q',
        mcp::plain_key("seq"@),
        ",\"seq\":"@ == seq![',', '"'] + "seq"@ + seq!['"', ':'],
        "ts"@.len() == 2 && "ts"@[0] == 't' && "ts"@[1] == 's',
        mcp::plain_key("ts"@),
        ",\"ts\":"@ == seq![',', '"'] + "ts"@ + seq!['"', ':'],
        "tool"@.len() == 4 && "tool"@[0] == 't' && "tool"@[1] == 'o' && "tool"@[2] == 'o' && "tool"@[3] == 'l',
        mcp::plain_key("tool"@),
        ",\"tool\":"@ == seq![',', '"'] + "tool"@ + seq!['"', ':'],
        "target"@.len() == 6 && "target"@[0] == 't' && "target"@[1] == 'a' && "target"@[2] == 'r' && "target"@[3] == 'g' && "target"@[4] == 'e' && "target"@[5] == 't',
        mcp::plain_key("target"@),
        ",\"target\":"@ == seq![',', '"'] + "target"@ + seq!['"', ':'],
        "snip"@.len() == 4 && "snip"@[0] == 's' && "snip"@[1] == 'n' && "snip"@[2] == 'i' && "snip"@[3] == 'p',
        mcp::plain_key("snip"@),
        ",\"snip\":"@ == seq![',', '"'] + "snip"@ + seq!['"', ':'],
{
    reveal_strlit("ext");
    reveal_strlit("{\"ext\":");
    assert("{\"ext\":"@ =~= seq!['{', '"'] + "ext"@ + seq!['"', ':']);
    reveal_strlit("sid");
    reveal_strlit(",\"sid\":");
    assert(",\"sid\":"@ =~= seq![',', '"'] + "sid"@ + seq!['"', ':']);
    reveal_strlit("seq");
    reveal_strlit(",\"seq\":");
    assert(",\"seq\":"@ =~= seq![',', '"'] + "seq"@ + seq!['"', ':']);
    reveal_strlit("ts");
    reveal_strlit(",\"ts\":");
    assert(",\"ts\":"@ =~= seq![',', '"'] + "ts"@ + seq!['"', ':']);
    reveal_strlit("tool");
    reveal_strlit(",\"tool\":");
    assert(",\"tool\":"@ =~= seq![',', '"'] + "tool"@ + seq!['"', ':']);
    reveal_strlit("target");
    reveal_strlit(",\"target\":");
    assert(",\"target\":"@ =~= seq![',', '"'] + "target"@ + seq!['"', ':']);
    reveal_strlit("snip");
    reveal_strlit(",\"snip\":");
    assert(",\"snip\":"@ =~= seq![',', '"'] + "snip"@ + seq!['"', ':']);
}

/// The totals are read back under their names.
#[verifier::spinoff_prover]
#[verifier::rlimit(60)]
pub proof fn law_totals(t: Totals)
    ensures
        ({
            let o = totals(t);
            &&& mcp::reads_number(o, "events"@, Some(t.events as int))
            &&& mcp::reads_number(o, "sessions"@, Some(t.sessions as int))
            &&& mcp::reads_number(o, "rejects"@, Some(t.rejects as int))
            &&& mcp::reads_number(o, "bytes"@, Some(t.bytes as int))
        }),
{
    let o = totals(t);
    lemma_names_totals();
    let x0 = mcp::number_scalar(Some(t.events as int));
    mcp::lemma_scalars_are_sound(None, Some(t.events as int));
    mcp::lemma_opens("{\"events\":"@, "events"@, x0);
    let m0 = seq![("events"@, x0)];
    let t0 = "{\"events\":"@ + mcp::written(x0);
    let x1 = mcp::number_scalar(Some(t.sessions as int));
    mcp::lemma_scalars_are_sound(None, Some(t.sessions as int));
    mcp::lemma_goes_on(t0, m0, ",\"sessions\":"@, "sessions"@, x1);
    let m1 = m0.push(("sessions"@, x1));
    let t1 = t0 + ",\"sessions\":"@ + mcp::written(x1);
    let x2 = mcp::number_scalar(Some(t.rejects as int));
    mcp::lemma_scalars_are_sound(None, Some(t.rejects as int));
    mcp::lemma_goes_on(t1, m1, ",\"rejects\":"@, "rejects"@, x2);
    let m2 = m1.push(("rejects"@, x2));
    let t2 = t1 + ",\"rejects\":"@ + mcp::written(x2);
    let x3 = mcp::number_scalar(Some(t.bytes as int));
    mcp::lemma_scalars_are_sound(None, Some(t.bytes as int));
    mcp::lemma_goes_on(t2, m2, ",\"bytes\":"@, "bytes"@, x3);
    let m3 = m2.push(("bytes"@, x3));
    let t3 = t2 + ",\"bytes\":"@ + mcp::written(x3);
    let w = t3;
    let ms = m3;
    reveal_strlit(",\"tools\":");
    let z = ",\"tools\":"@ + count_list(t.tools@) + ",\"errors\":"@ + count_list(t.errors@) + ",\"models\":"@ + count_list(t.models@) + "}"@;
    assert(o =~= w + z);
    assert((w + z).subrange(0, w.len() as int) =~= w);
    assert((w + z)[w.len() as int] == z[0]);
    assert(ms[0] == ("events"@, x0) && ms[1] == ("sessions"@, x1) && ms[2] == ("rejects"@, x2) && ms[3] == ("bytes"@, x3));
    assert(mcp::distinct_keys(ms));
    assert(mcp::sound_members(ms));
    mcp::law_members_read_back(o, ms, 0);
    mcp::law_members_read_back(o, ms, 1);
    mcp::law_members_read_back(o, ms, 2);
    mcp::law_members_read_back(o, ms, 3);
}

proof fn lemma_names_totals()
    ensures
        "events"@.len() == 6 && "events"@[0] == 'e' && "events"@[1] == 'v' && "events"@[2] == 'e' && "events"@[3] == 'n' && "events"@[4] == 't' && "events"@[5] == 's',
        mcp::plain_key("events"@),
        "{\"events\":"@ == seq!['{', '"'] + "events"@ + seq!['"', ':'],
        "sessions"@.len() == 8 && "sessions"@[0] == 's' && "sessions"@[1] == 'e' && "sessions"@[2] == 's' && "sessions"@[3] == 's' && "sessions"@[4] == 'i' && "sessions"@[5] == 'o' && "sessions"@[6] == 'n' && "sessions"@[7] == 's',
        mcp::plain_key("sessions"@),
        ",\"sessions\":"@ == seq![',', '"'] + "sessions"@ + seq!['"', ':'],
        "rejects"@.len() == 7 && "rejects"@[0] == 'r' && "rejects"@[1] == 'e' && "rejects"@[2] == 'j' && "rejects"@[3] == 'e' && "rejects"@[4] == 'c' && "rejects"@[5] == 't' && "rejects"@[6] == 's',
        mcp::plain_key("rejects"@),
        ",\"rejects\":"@ == seq![',', '"'] + "rejects"@ + seq!['"', ':'],
        "bytes"@.len() == 5 && "bytes"@[0] == 'b' && "bytes"@[1] == 'y' && "bytes"@[2] == 't' && "bytes"@[3] == 'e' && "bytes"@[4] == 's',
        mcp::plain_key("bytes"@),
        ",\"bytes\":"@ == seq![',', '"'] + "bytes"@ + seq!['"', ':'],
{
    reveal_strlit("events");
    reveal_strlit("{\"events\":");
    assert("{\"events\":"@ =~= seq!['{', '"'] + "events"@ + seq!['"', ':']);
    reveal_strlit("sessions");
    reveal_strlit(",\"sessions\":");
    assert(",\"sessions\":"@ =~= seq![',', '"'] + "sessions"@ + seq!['"', ':']);
    reveal_strlit("rejects");
    reveal_strlit(",\"rejects\":");
    assert(",\"rejects\":"@ =~= seq![',', '"'] + "rejects"@ + seq!['"', ':']);
    reveal_strlit("bytes");
    reveal_strlit(",\"bytes\":");
    assert(",\"bytes\":"@ =~= seq![',', '"'] + "bytes"@ + seq!['"', ':']);
}

/// A timeline tells how many rows the session has, how many are shown, and how many
/// are not: those two make up the first.
#[verifier::spinoff_prover]
#[verifier::rlimit(60)]
pub proof fn law_timeline_counts(n_ev: i64, shown: i64, rows: Seq<Event>, previews: Seq<Seq<char>>)
    requires
        0 <= shown <= n_ev,
    ensures
        ({
            let o = timeline_object(n_ev as int, shown as int, rows, previews);
            &&& mcp::reads_number(o, "n_ev"@, Some(n_ev as int))
            &&& mcp::reads_number(o, "n_shown"@, Some(shown as int))
            &&& mcp::reads_number(o, "hidden"@, Some(n_ev - shown))
        }),
{
    let o = timeline_object(n_ev as int, shown as int, rows, previews);
    lemma_names_timeline_counts();
    let x0 = mcp::number_scalar(Some(n_ev as int));
    mcp::lemma_scalars_are_sound(None, Some(n_ev as int));
    mcp::lemma_opens("{\"n_ev\":"@, "n_ev"@, x0);
    let m0 = seq![("n_ev"@, x0)];
    let t0 = "{\"n_ev\":"@ + mcp::written(x0);
    let x1 = mcp::number_scalar(Some(shown as int));
    mcp::lemma_scalars_are_sound(None, Some(shown as int));
    mcp::lemma_goes_on(t0, m0, ",\"n_shown\":"@, "n_shown"@, x1);
    let m1 = m0.push(("n_shown"@, x1));
    let t1 = t0 + ",\"n_shown\":"@ + mcp::written(x1);
    let x2 = mcp::number_scalar(Some(n_ev - shown));
    mcp::lemma_scalars_are_sound(None, Some(n_ev - shown));
    mcp::lemma_goes_on(t1, m1, ",\"hidden\":"@, "hidden"@, x2);
    let m2 = m1.push(("hidden"@, x2));
    let t2 = t1 + ",\"hidden\":"@ + mcp::written(x2);
    let w = t2;
    let ms = m2;
    reveal_strlit(",\"rows\":[");
    let z = ",\"rows\":["@ + text::join(Seq::new(rows.len(), |i: int| event_item(rows[i], previews[i])), ","@) + "]}"@;
    assert(o =~= w + z);
    assert((w + z).subrange(0, w.len() as int) =~= w);
    assert((w + z)[w.len() as int] == z[0]);
    assert(ms[0] == ("n_ev"@, x0) && ms[1] == ("n_shown"@, x1) && ms[2] == ("hidden"@, x2));
    assert(mcp::distinct_keys(ms));
    assert(mcp::sound_members(ms));
    mcp::law_members_read_back(o, ms, 0);
    mcp::law_members_read_back(o, ms, 1);
    mcp::law_members_read_back(o, ms, 2);
}

proof fn lemma_names_timeline_counts()
    ensures
        "n_ev"@.len() == 4 && "n_ev"@[0] == 'n' && "n_ev"@[1] == '_' && "n_ev"@[2] == 'e' && "n_ev"@[3] == 'v',
        mcp::plain_key("n_ev"@),
        "{\"n_ev\":"@ == seq!['{', '"'] + "n_ev"@ + seq!['"', ':'],
        "n_shown"@.len() == 7 && "n_shown"@[0] == 'n' && "n_shown"@[1] == '_' && "n_shown"@[2] == 's' && "n_shown"@[3] == 'h' && "n_shown"@[4] == 'o' && "n_shown"@[5] == 'w' && "n_shown"@[6] == 'n',
        mcp::plain_key("n_shown"@),
        ",\"n_shown\":"@ == seq![',', '"'] + "n_shown"@ + seq!['"', ':'],
        "hidden"@.len() == 6 && "hidden"@[0] == 'h' && "hidden"@[1] == 'i' && "hidden"@[2] == 'd' && "hidden"@[3] == 'd' && "hidden"@[4] == 'e' && "hidden"@[5] == 'n',
        mcp::plain_key("hidden"@),
        ",\"hidden\":"@ == seq![',', '"'] + "hidden"@ + seq!['"', ':'],
{
    reveal_strlit("n_ev");
    reveal_strlit("{\"n_ev\":");
    assert("{\"n_ev\":"@ =~= seq!['{', '"'] + "n_ev"@ + seq!['"', ':']);
    reveal_strlit("n_shown");
    reveal_strlit(",\"n_shown\":");
    assert(",\"n_shown\":"@ =~= seq![',', '"'] + "n_shown"@ + seq!['"', ':']);
    reveal_strlit("hidden");
    reveal_strlit(",\"hidden\":");
    assert(",\"hidden\":"@ =~= seq![',', '"'] + "hidden"@ + seq!['"', ':']);
}

/// The message of a failure is read back.
#[verifier::spinoff_prover]
#[verifier::rlimit(60)]
pub proof fn law_error_object(m: Seq<char>)
    ensures
        ({
            let o = error_object(m);
            &&& mcp::reads_text(o, "error"@, Some(m))
        }),
{
    let o = error_object(m);
    lemma_names_error_object();
    let x0 = mcp::text_scalar(Some(m));
    mcp::lemma_scalars_are_sound(Some(m), None);
    mcp::lemma_opens("{\"error\":"@, "error"@, x0);
    let m0 = seq![("error"@, x0)];
    let t0 = "{\"error\":"@ + mcp::written(x0);
    let w = t0;
    let ms = m0;
    reveal_strlit("}");
    let z = "}"@;
    assert(o == w + z);
    assert((w + z).subrange(0, w.len() as int) =~= w);
    assert((w + z)[w.len() as int] == z[0]);
    assert(ms[0] == ("error"@, x0));
    assert(mcp::distinct_keys(ms));
    assert(mcp::sound_members(ms));
    mcp::law_members_read_back(o, ms, 0);
}

proof fn lemma_names_error_object()
    ensures
        "error"@.len() == 5 && "error"@[0] == 'e' && "error"@[1] == 'r' && "error"@[2] == 'r' && "error"@[3] == 'o' && "error"@[4] == 'r',
        mcp::plain_key("error"@),
        "{\"error\":"@ == seq!['{', '"'] + "error"@ + seq!['"', ':'],
{
    reveal_strlit("error");
    reveal_strlit("{\"error\":");
    assert("{\"error\":"@ =~= seq!['{', '"'] + "error"@ + seq!['"', ':']);
}

#[verifier::spinoff_prover]
#[verifier::rlimit(60)]
proof fn lemma_null_record(o: Seq<char>)
    requires
        o == "{\"json\":"@ + "null"@ + "}"@,
    ensures
        mcp::reads_text(o, "json"@, None),
{
    reveal_strlit("}");
    reveal_strlit("json");
    reveal_strlit("{\"json\":");
    let x = mcp::text_scalar(None);
    mcp::lemma_scalars_are_sound(None, None);
    assert("{\"json\":"@ =~= seq!['{', '"'] + "json"@ + seq!['"', ':']);
    mcp::lemma_opens("{\"json\":"@, "json"@, x);
    let t = "{\"json\":"@ + mcp::written(x);
    assert(o.subrange(0, t.len() as int) =~= t);
    assert(o[t.len() as int] == '}');
    mcp::law_members_read_back(o, seq![("json"@, x)], 0);
}

/// A record that could not be read is answered with the reason; one that is JSON
/// with that JSON as it is; and any other with its text.
#[verifier::spinoff_prover]
#[verifier::rlimit(60)]
pub proof fn law_record_object(read: Result<Vec<u8>, String>, p: Option<Option<Seq<char>>>)
    ensures
        read matches Err(e) ==> mcp::scalar_at(record_object(read, p), "error"@) == Some(e@),
        read matches Ok(b) ==> (p is None ==> mcp::scalar_at(record_object(read, p), "raw"@) == Some(
            text::lossy(b@),
        )),
        read is Ok ==> (p matches Some(Some(s)) ==> record_object(read, p) == mcp::one_member(
            "json"@,
            s,
        )),
        read is Ok ==> (p matches Some(None) ==> mcp::reads_text(
            record_object(read, p),
            "json"@,
            None,
        )),
{
    reveal_strlit("}");
    match read {
        Ok(b) => match p {
            Some(j) => {
                reveal_strlit("json");
                reveal_strlit("{\"json\":");
                mcp::lemma_plain_key("json"@);
                match j {
                    Some(s) => {
                        assert(record_object(read, p) =~= mcp::one_member("json"@, s));
                    },
                    None => lemma_null_record(record_object(read, p)),
                }
            },
            None => {
                reveal_strlit("raw");
                reveal_strlit("{\"raw\":");
                mcp::lemma_plain_key("raw"@);
                let q = text::json_quote(text::lossy(b@));
                assert(record_object(read, p) =~= mcp::one_member("raw"@, q));
                mcp::law_field_reads_back("raw"@, text::lossy(b@));
            },
        },
        Err(e) => law_error_object(e@),
    }
}

/// A list of counts, of sessions, of hits or of failures, and the rows of a
/// timeline, grow by the entry that is added, at the end; the rest stays.
#[verifier::spinoff_prover]
#[verifier::rlimit(60)]
pub proof fn law_lists_grow(
    counts: Seq<(Option<String>, i64)>,
    c: (Option<String>, i64),
    sessions: Seq<Session>,
    s: Session,
    hits: Seq<Found>,
    reads: Seq<Result<Vec<u8>, String>>,
    words: Seq<Seq<char>>,
    h: Found,
    r: Result<Vec<u8>, String>,
    rows: Seq<Failure>,
    previews: Seq<Seq<char>>,
    f: Failure,
    preview: Seq<char>,
)
    requires
        reads.len() == hits.len(),
        previews.len() == rows.len(),
    ensures
        grown(count_list(counts), count_list(counts.push(c)), count_item(c), "]"@),
        grown(session_list(sessions), session_list(sessions.push(s)), session_item(s), "]"@),
        grown(
            found_object(hits, reads, words),
            found_object(hits.push(h), reads.push(r), words),
            found_item(h, excerpt(r, words)),
            "]}"@,
        ),
        grown(
            failure_object(rows, previews),
            failure_object(rows.push(f), previews.push(preview)),
            failure_item(f, preview),
            "]}"@,
        ),
        count_list(Seq::empty()) == "[]"@,
        session_list(Seq::empty()) == "[]"@,
{
    reveal_strlit("[");
    reveal_strlit("]");
    reveal_strlit("]}");
    reveal_strlit("[]");
    let a = Seq::new(counts.len(), |i: int| count_item(counts[i]));
    assert(Seq::new(counts.push(c).len(), |i: int| count_item(counts.push(c)[i])) =~= a.push(
        count_item(c),
    ));
    lemma_grown("["@, a, count_item(c), "]"@);
    let b = Seq::new(sessions.len(), |i: int| session_item(sessions[i]));
    assert(Seq::new(sessions.push(s).len(), |i: int| session_item(sessions.push(s)[i])) =~= b.push(
        session_item(s),
    ));
    lemma_grown("["@, b, session_item(s), "]"@);
    let d = Seq::new(hits.len(), |i: int| found_item(hits[i], excerpt(reads[i], words)));
    let x = found_item(h, excerpt(r, words));
    assert(Seq::new(
        hits.push(h).len(),
        |i: int| found_item(hits.push(h)[i], excerpt(reads.push(r)[i], words)),
    ) =~= d.push(x));
    lemma_grown("{\"hits\":["@, d, x, "]}"@);
    let e = Seq::new(rows.len(), |i: int| failure_item(rows[i], previews[i]));
    let y = failure_item(f, preview);
    assert(Seq::new(
        rows.push(f).len(),
        |i: int| failure_item(rows.push(f)[i], previews.push(preview)[i]),
    ) =~= e.push(y));
    lemma_grown("{\"rows\":["@, e, y, "]}"@);
    let none = Seq::<Seq<char>>::empty();
    text::law_join_appends(none, x, ","@);
    assert(Seq::new(0, |i: int| count_item(Seq::<(Option<String>, i64)>::empty()[i])) =~= none);
    assert(Seq::new(0, |i: int| session_item(Seq::<Session>::empty()[i])) =~= none);
    assert(count_list(Seq::empty()) =~= "[]"@);
    assert(session_list(Seq::empty()) =~= "[]"@);
}

/// The rows of a timeline grow by the row that is added, at the end.
pub proof fn law_timeline_grows(
    n_ev: int,
    shown: int,
    rows: Seq<Event>,
    previews: Seq<Seq<char>>,
    e: Event,
    preview: Seq<char>,
)
    requires
        previews.len() == rows.len(),
    ensures
        grown(
            timeline_object(n_ev, shown, rows, previews),
            timeline_object(n_ev, shown, rows.push(e), previews.push(preview)),
            event_item(e, preview),
            "]}"@,
        ),
{
    let d = Seq::new(rows.len(), |i: int| event_item(rows[i], previews[i]));
    let x = event_item(e, preview);
    assert(Seq::new(
        rows.push(e).len(),
        |i: int| event_item(rows.push(e)[i], previews.push(preview)[i]),
    ) =~= d.push(x));
    let head = "{\"n_ev\":"@ + text::dec_int(n_ev) + ",\"n_shown\":"@ + text::dec_int(shown)
        + ",\"hidden\":"@ + text::dec_int(n_ev - shown) + ",\"rows\":["@;
    reveal_strlit(",\"rows\":[");
    assert(head[head.len() - 1] == '[');
    lemma_grown(head, d, x, "]}"@);
}

/// A list became longer by one item: it stands behind the others and a comma, or
/// alone, and `tail` closes the list before and after.
pub open spec fn grown(
    before: Seq<char>,
    after: Seq<char>,
    item: Seq<char>,
    tail: Seq<char>,
) -> bool {
    let open = before.take(before.len() - tail.len());
    &&& before == open + tail
    &&& after == open + item + tail && open.last() == '[' || after == open + ","@ + item + tail
}

proof fn lemma_grown(head: Seq<char>, items: Seq<Seq<char>>, item: Seq<char>, tail: Seq<char>)
    requires
        head == "["@ || head == "{\"hits\":["@ || head == "{\"rows\":["@ || (head.len() > 0
            && head.last() == '['),
    ensures
        grown(
            head + text::join(items, ","@) + tail,
            head + text::join(items.push(item), ","@) + tail,
            item,
            tail,
        ),
{
    reveal_strlit("[");
    reveal_strlit("{\"hits\":[");
    reveal_strlit("{\"rows\":[");
    let before = head + text::join(items, ","@) + tail;
    let after = head + text::join(items.push(item), ","@) + tail;
    let open = before.take(before.len() - tail.len());
    assert(open =~= head + text::join(items, ","@));
    text::law_join_appends(items, item, ","@);
    if items.len() == 0 {
        assert(items =~= Seq::empty());
        assert(items.push(item) =~= seq![item]);
        assert(open =~= head);
        assert(open.last() == '[');
        assert(after =~= open + item + tail);
    } else {
        assert(after =~= open + ","@ + item + tail);
    }
}

/// A list of counts shows each name with its number.
pub proof fn law_count_item(v: (Option<String>, i64))
    ensures
        v.0 matches Some(s) ==> text::starts_with(count_item(v), "["@ + text::json_quote(s@) + ","@),
        v.0 is None ==> text::starts_with(count_item(v), "[null,"@),
        text::ends_with(count_item(v), ","@ + text::dec_int(v.1 as int) + "]"@),
{
    reveal_strlit("[");
    reveal_strlit(",");
    reveal_strlit("null");
    reveal_strlit("[null,");
    let o = count_item(v);
    let z = ","@ + text::dec_int(v.1 as int) + "]"@;
    assert(o.subrange(o.len() - z.len(), o.len() as int) =~= z);
    let p = "["@ + json_opt(v.0) + ","@;
    assert(o.subrange(0, p.len() as int) =~= p);
    if v.0 is None {
        assert(p =~= "[null,"@);
    }
}

// ---------------------------------------------------------------------------
// What a request asks for
// ---------------------------------------------------------------------------

proof fn lemma_url_shift(p: Seq<u8>, x: Seq<u8>, i: int)
    requires
        i >= 0,
    ensures
        url_bytes(p + x, p.len() + i) == url_bytes(x, i),
    decreases x.len() - i,
{
    let v = p + x;
    let n = p.len() as int;
    if i < x.len() {
        assert(v[n + i] == x[i]);
        lemma_url_shift(p, x, i + 1);
        if x[i] == 0x25 && i + 2 < x.len() {
            assert(v[n + i + 1] == x[i + 1] && v[n + i + 2] == x[i + 2]);
            lemma_url_shift(p, x, i + 3);
        }
    }
}

/// A hexadecimal digit as a byte.
pub open spec fn digit_byte(d: int, upper: bool) -> u8 {
    if d < 10 {
        (0x30 + d) as u8
    } else if upper {
        (0x37 + d) as u8
    } else {
        (0x57 + d) as u8
    }
}

/// Bytes, each as a percent sign and two hexadecimal digits.
pub open spec fn escaped(b: Seq<u8>, upper: bool) -> Seq<u8>
    decreases b.len(),
{
    if b.len() == 0 {
        Seq::empty()
    } else {
        seq![
            0x25u8,
            digit_byte(b[0] as int / 16, upper),
            digit_byte(b[0] as int % 16, upper),
        ] + escaped(b.drop_first(), upper)
    }
}

/// Bytes that were escaped are read back, whatever they are; a plus sign is a
/// blank; and what is neither that nor an escape stays.
#[verifier::spinoff_prover]
#[verifier::rlimit(60)]
pub proof fn law_url_reads_back(b: Seq<u8>, upper: bool, rest: Seq<u8>)
    ensures
        url_bytes(escaped(b, upper) + rest, 0) == b + url_bytes(rest, 0),
        url_bytes(seq![0x2bu8] + rest, 0) == seq![0x20u8] + url_bytes(rest, 0),
        forall|c: u8|
            c != 0x2b && c != 0x25 ==> #[trigger] url_bytes(seq![c] + rest, 0) == seq![c]
                + url_bytes(rest, 0),
        url_bytes(Seq::empty(), 0).len() == 0,
    decreases b.len(),
{
    lemma_url_shift(seq![0x2bu8], rest, 0);
    assert forall|c: u8| c != 0x2b && c != 0x25 implies #[trigger] url_bytes(seq![c] + rest, 0)
        == seq![c] + url_bytes(rest, 0) by {
        lemma_url_shift(seq![c], rest, 0);
        assert((seq![c] + rest)[0] == c);
    }
    assert((seq![0x2bu8] + rest)[0] == 0x2b);
    if b.len() == 0 {
        assert(escaped(b, upper) + rest =~= rest);
        assert(b + url_bytes(rest, 0) =~= url_bytes(rest, 0));
    } else {
        let d = b.drop_first();
        law_url_reads_back(d, upper, rest);
        let e = seq![
            0x25u8,
            digit_byte(b[0] as int / 16, upper),
            digit_byte(b[0] as int % 16, upper),
        ];
        let tail = escaped(d, upper) + rest;
        let v = escaped(b, upper) + rest;
        assert(v =~= e + tail);
        lemma_url_shift(e, tail, 0);
        assert(v[0] == e[0] && v[1] == e[1] && v[2] == e[2]);
        assert(hex_byte(e[1], e[2]) == b[0]);
        assert(url_bytes(v, 0) == seq![b[0]] + url_bytes(v, 3));
        assert(seq![b[0]] + (d + url_bytes(rest, 0)) =~= b + url_bytes(rest, 0));
    }
}

/// A text whose bytes were escaped is read back.
pub proof fn law_url_text_reads_back(s: Seq<char>, q: Seq<char>, upper: bool)
    requires
        encode_utf8(q) == escaped(encode_utf8(s), upper),
    ensures
        url_text(q) == s,
{
    let b = encode_utf8(s);
    law_url_reads_back(b, upper, Seq::empty());
    assert(escaped(b, upper) + Seq::<u8>::empty() =~= escaped(b, upper));
    assert(b + url_bytes(Seq::empty(), 0) =~= b);
    encode_utf8_valid_utf8(s);
    encode_utf8_decode_utf8(s);
}

/// A text of letters, digits and the like stays as it is.
pub open spec fn harmless(s: Seq<char>) -> bool {
    is_ascii_chars(s) && text::free_of(s, '+') && text::free_of(s, '%') && text::free_of(s, '&')
}

proof fn lemma_plain_bytes(b: Seq<u8>, i: int)
    requires
        0 <= i <= b.len(),
        forall|k: int| 0 <= k < b.len() ==> #[trigger] b[k] != 0x2b && b[k] != 0x25,
    ensures
        url_bytes(b, i) == b.skip(i),
    decreases b.len() - i,
{
    if i < b.len() {
        lemma_plain_bytes(b, i + 1);
        assert(seq![b[i]] + b.skip(i + 1) =~= b.skip(i));
    } else {
        assert(b.skip(i) =~= Seq::empty());
    }
}

proof fn lemma_harmless(s: Seq<char>)
    requires
        harmless(s),
    ensures
        url_text(s) == s,
{
    is_ascii_chars_encode_utf8(s);
    let b = encode_utf8(s);
    assert forall|k: int| 0 <= k < b.len() implies #[trigger] b[k] != 0x2b && b[k] != 0x25 by {
        assert(s[k] != '+' && s[k] != '%');
        assert(s[k] as u8 == b[k]);
        assert('\0' <= s[k] <= '\u{7f}');
    }
    lemma_plain_bytes(b, 0);
    assert(b.skip(0) =~= b);
    encode_utf8_valid_utf8(s);
    encode_utf8_decode_utf8(s);
}

#[verifier::spinoff_prover]
#[verifier::rlimit(60)]
proof fn lemma_split(a: Seq<char>, c: char, b: Seq<char>)
    requires
        text::free_of(a, c),
    ensures
        split_at_first(a + seq![c] + b, c) == Some((a, b)),
        split_at_first(a, c) is None,
{
    let v = a + seq![c] + b;
    let n = a.len() as int;
    text::law_find(v, seq![c]);
    text::law_find(a, seq![c]);
    assert(v.subrange(n, n + 1) =~= seq![c]);
    assert(text::occurs_at(v, seq![c], n));
    match text::find(v, seq![c]) {
        Some(k) => {
            assert(v.subrange(k, k + 1)[0] == c);
            if k < n {
                assert(v[k] == a[k]);
            }
            assert(k == n);
            assert(v.take(n) =~= a);
            assert(v.skip(n + 1) =~= b);
        },
        None => {},
    }
    match text::find(a, seq![c]) {
        Some(k) => {
            assert(a.subrange(k, k + 1)[0] == c);
        },
        None => {},
    }
}

/// The value of a parameter is what stands behind its name, up to the next one;
/// of two with one name the first counts; those of other names are passed over;
/// and one that is not there has none.
#[verifier::spinoff_prover]
#[verifier::rlimit(60)]
pub proof fn law_param(k: Seq<char>, other: Seq<char>, v: Seq<char>, rest: Seq<char>)
    requires
        text::free_of(k, '&') && text::free_of(k, '='),
        text::free_of(other, '&') && text::free_of(other, '='),
        text::free_of(v, '&'),
        other != k,
    ensures
        param(k + "="@ + v, k) == Some(url_text(v)),
        param(k + "="@ + v + "&"@ + rest, k) == Some(url_text(v)),
        param(other + "="@ + v + "&"@ + rest, k) == param(rest, k),
        param(other + "="@ + v, k) is None,
        param(Seq::empty(), k) is None,
{
    reveal_strlit("=");
    reveal_strlit("&");
    assert("="@ =~= seq!['=']);
    assert("&"@ =~= seq!['&']);
    let kv = k + "="@ + v;
    let ov = other + "="@ + v;
    text::lemma_free_concat(k, "="@, '&');
    text::lemma_free_concat(k + "="@, v, '&');
    text::lemma_free_concat(other, "="@, '&');
    text::lemma_free_concat(other + "="@, v, '&');
    lemma_split(kv, '&', rest);
    lemma_split(ov, '&', rest);
    lemma_split(k, '=', v);
    lemma_split(other, '=', v);
    lemma_split(Seq::empty(), '&', v);
    lemma_split(Seq::empty(), '=', v);
}

/// A number that is given as a parameter is used, and without one the default.
pub proof fn law_param_int(k: Seq<char>, other: Seq<char>, n: int, rest: Seq<char>, d: int)
    requires
        text::free_of(k, '&') && text::free_of(k, '='),
        text::free_of(other, '&') && text::free_of(other, '='),
        other != k,
        i64::MIN <= n <= i64::MAX,
    ensures
        param_int(k + "="@ + text::dec_int(n), k, d) == n,
        param_int(k + "="@ + text::dec_int(n) + "&"@ + rest, k, d) == n,
        param_int(other + "="@ + text::dec_int(n) + "&"@ + rest, k, d) == param_int(rest, k, d),
        param_int(other + "="@ + text::dec_int(n), k, d) == d,
        param_int(Seq::empty(), k, d) == d,
{
    let v = text::dec_int(n);
    text::law_integer_reads_back(n);
    text::lemma_dec_int_plain(n, '&');
    text::lemma_dec_int_plain(n, '+');
    text::lemma_dec_int_plain(n, '%');
    assert forall|i: int| 0 <= i < v.len() implies '\0' <= #[trigger] v[i] <= '\u{7f}' by {
        let c = v[i];
        if !text::is_digit(c) && c != '-' {
            text::lemma_dec_int_plain(n, c);
            assert(v[i] != c);
        }
    }
    lemma_harmless(v);
    law_param(k, other, v, rest);
}

proof fn lemma_names_of_params()
    ensures
        "sid"@.len() == 3 && "sid"@[1] == 'i',
        "seq"@.len() == 3 && "seq"@[1] == 'e',
        "start"@.len() == 5 && "start"@[0] == 's',
        "limit"@.len() == 5 && "limit"@[0] == 'l',
        "q"@.len() == 1,
        text::free_of("sid"@, '&') && text::free_of("sid"@, '='),
        text::free_of("seq"@, '&') && text::free_of("seq"@, '='),
        text::free_of("start"@, '&') && text::free_of("start"@, '='),
        text::free_of("limit"@, '&') && text::free_of("limit"@, '='),
        text::free_of("q"@, '&') && text::free_of("q"@, '='),
{
    reveal_strlit("sid");
    reveal_strlit("seq");
    reveal_strlit("start");
    reveal_strlit("limit");
    reveal_strlit("q");
}

proof fn lemma_paths()
    ensures
        "/"@.len() == 1,
        "/index.html"@.len() == 11,
        "/stats"@.len() == 6,
        "/sessions"@.len() == 9 && "/sessions"@[1] == 's',
        "/timeline"@.len() == 9 && "/timeline"@[1] == 't',
        "/record"@.len() == 7 && "/record"@[1] == 'r',
        "/search"@.len() == 7 && "/search"@[1] == 's',
        "/errors"@.len() == 7 && "/errors"@[1] == 'e',
        text::free_of("/sessions"@, '?'),
        text::free_of("/timeline"@, '?'),
        text::free_of("/record"@, '?'),
        text::free_of("/search"@, '?'),
        text::free_of("/errors"@, '?'),
        text::free_of("/stats"@, '?'),
        text::free_of("/"@, '?'),
{
    reveal_strlit("/");
    reveal_strlit("/index.html");
    reveal_strlit("/stats");
    reveal_strlit("/sessions");
    reveal_strlit("/timeline");
    reveal_strlit("/record");
    reveal_strlit("/search");
    reveal_strlit("/errors");
}

/// A request for a timeline is about the session, the row and the number of rows
/// that it names; without them it starts at the first row and shows 300.
#[verifier::spinoff_prover]
#[verifier::rlimit(60)]
pub proof fn law_timeline_request(a: int, b: int, c: int)
    requires
        i64::MIN <= a <= i64::MAX,
        i64::MIN <= b <= i64::MAX,
        i64::MIN <= c <= i64::MAX,
    ensures
        ({
            let one = "sid"@ + "="@ + text::dec_int(a);
            let two = "start"@ + "="@ + text::dec_int(b);
            let three = "limit"@ + "="@ + text::dec_int(c);
            &&& url_route("/timeline"@ + "?"@ + (one + "&"@ + (two + "&"@ + three)))
                == (RouteV::Timeline { sid: a, start: b, limit: c })
            &&& url_route("/timeline"@ + "?"@ + (three + "&"@ + (two + "&"@ + one)))
                == (RouteV::Timeline { sid: a, start: b, limit: c })
            &&& url_route("/timeline"@ + "?"@ + one) == (RouteV::Timeline {
                sid: a,
                start: 0,
                limit: 300,
            })
        }),
{
    let one = "sid"@ + "="@ + text::dec_int(a);
    let two = "start"@ + "="@ + text::dec_int(b);
    let three = "limit"@ + "="@ + text::dec_int(c);
    lemma_names_of_params();
    lemma_paths();
    reveal_strlit("?");
    assert("?"@ =~= seq!['?']);
    lemma_split("/timeline"@, '?', one + "&"@ + (two + "&"@ + three));
    lemma_split("/timeline"@, '?', three + "&"@ + (two + "&"@ + one));
    lemma_split("/timeline"@, '?', one);
    law_param_int("sid"@, "start"@, a, two + "&"@ + three, -1);
    law_param_int("sid"@, "start"@, b, one, -1);
    law_param_int("sid"@, "limit"@, c, two + "&"@ + one, -1);
    law_param_int("start"@, "sid"@, a, two + "&"@ + three, 0);
    law_param_int("start"@, "limit"@, b, three, 0);
    law_param_int("start"@, "limit"@, b, one, 0);
    law_param_int("start"@, "limit"@, c, two + "&"@ + one, 0);
    law_param_int("limit"@, "sid"@, a, two + "&"@ + three, 300);
    law_param_int("limit"@, "start"@, b, three, 300);
    law_param_int("limit"@, "start"@, c, two + "&"@ + one, 300);
}

/// A request for a record is about the session and the record that it names.
#[verifier::spinoff_prover]
#[verifier::rlimit(60)]
pub proof fn law_record_request(a: int, b: int)
    requires
        i64::MIN <= a <= i64::MAX,
        i64::MIN <= b <= i64::MAX,
    ensures
        ({
            let one = "sid"@ + "="@ + text::dec_int(a);
            let two = "seq"@ + "="@ + text::dec_int(b);
            &&& url_route("/record"@ + "?"@ + (one + "&"@ + two)) == (RouteV::Record {
                sid: a,
                seq: b,
            })
            &&& url_route("/record"@ + "?"@ + (two + "&"@ + one)) == (RouteV::Record {
                sid: a,
                seq: b,
            })
        }),
{
    let one = "sid"@ + "="@ + text::dec_int(a);
    let two = "seq"@ + "="@ + text::dec_int(b);
    lemma_names_of_params();
    lemma_paths();
    reveal_strlit("?");
    assert("?"@ =~= seq!['?']);
    lemma_split("/record"@, '?', one + "&"@ + two);
    lemma_split("/record"@, '?', two + "&"@ + one);
    law_param_int("sid"@, "seq"@, a, two, -1);
    law_param_int("sid"@, "seq"@, b, one, -1);
    law_param_int("seq"@, "sid"@, a, two, -1);
    law_param_int("seq"@, "sid"@, b, one, -1);
}

/// A request for a search is about the text that it gives; a request for a list
/// has as many entries as it asks for. The defaults are 60 hits, 300 sessions and
/// 120 failures.
#[verifier::spinoff_prover]
#[verifier::rlimit(60)]
pub proof fn law_list_requests(t: Seq<char>, n: int)
    requires
        text::free_of(t, '&'),
        i64::MIN <= n <= i64::MAX,
    ensures
        ({
            let term = "q"@ + "="@ + t;
            let limit = "limit"@ + "="@ + text::dec_int(n);
            &&& url_route("/search"@ + "?"@ + (term + "&"@ + limit)) == (RouteV::Search {
                term: url_text(t),
                limit: n,
            })
            &&& url_route("/search"@ + "?"@ + (limit + "&"@ + term)) == (RouteV::Search {
                term: url_text(t),
                limit: n,
            })
            &&& url_route("/search"@ + "?"@ + term) == (RouteV::Search {
                term: url_text(t),
                limit: 60,
            })
            &&& url_route("/sessions"@ + "?"@ + limit) == (RouteV::Sessions { limit: n })
            &&& url_route("/errors"@ + "?"@ + limit) == (RouteV::Errors { limit: n })
            &&& url_route("/sessions"@) == (RouteV::Sessions { limit: 300 })
            &&& url_route("/errors"@) == (RouteV::Errors { limit: 120 })
            &&& url_route("/stats"@ + "?"@ + t) is Stats
            &&& url_route("/"@ + "?"@ + t) is Page
            &&& url_route("/stats"@) is Stats
            &&& url_route("/"@) is Page
        }),
{
    let term = "q"@ + "="@ + t;
    let limit = "limit"@ + "="@ + text::dec_int(n);
    lemma_names_of_params();
    lemma_paths();
    reveal_strlit("?");
    assert("?"@ =~= seq!['?']);
    lemma_split("/search"@, '?', term + "&"@ + limit);
    lemma_split("/search"@, '?', limit + "&"@ + term);
    lemma_split("/search"@, '?', term);
    lemma_split("/sessions"@, '?', limit);
    lemma_split("/errors"@, '?', limit);
    lemma_split("/stats"@, '?', t);
    lemma_split("/"@, '?', t);
    text::lemma_dec_int_plain(n, '&');
    law_param("q"@, "limit"@, t, limit);
    law_param("limit"@, "q"@, t, limit);
    law_param("q"@, "limit"@, text::dec_int(n), term);
    law_param_int("limit"@, "q"@, n, term, 60);
    law_param_int("limit"@, "q"@, n, term, 300);
    law_param_int("limit"@, "q"@, n, term, 120);
}

/// A path that is none of these is not found.
pub proof fn law_unknown_path(path: Seq<char>, qs: Seq<char>)
    requires
        text::free_of(path, '?'),
        path != "/"@ && path != "/index.html"@ && path != "/stats"@ && path != "/sessions"@ && path
            != "/timeline"@ && path != "/record"@ && path != "/search"@ && path != "/errors"@,
    ensures
        url_route(path) is NotFound,
        url_route(path + "?"@ + qs) is NotFound,
{
    reveal_strlit("?");
    assert("?"@ =~= seq!['?']);
    lemma_split(path, '?', qs);
}

/// The tools, the failures and the models are listed under their names.
pub proof fn law_totals_lists(t: Totals)
    ensures
        exists|k: int|
            #[trigger] text::occurs_at(
                totals(t),
                ",\"tools\":"@ + count_list(t.tools@) + ",\"errors\":"@ + count_list(t.errors@)
                    + ",\"models\":"@ + count_list(t.models@) + "}"@,
                k,
            ),
{
    let o = totals(t);
    let z = ",\"tools\":"@ + count_list(t.tools@) + ",\"errors\":"@ + count_list(t.errors@)
        + ",\"models\":"@ + count_list(t.models@) + "}"@;
    assert(o.subrange(o.len() - z.len(), o.len() as int) =~= z);
    assert(text::occurs_at(o, z, o.len() - z.len()));
}

/// A hit is quoted from its record, around the first of the words, and without a
/// quote where the record could not be read.
pub proof fn law_excerpt(read: Result<Vec<u8>, String>, words: Seq<Seq<char>>)
    ensures
        read matches Ok(b) ==> excerpt(read, words) == search::snippet(text::lossy(b@), words, 200),
        read is Err ==> excerpt(read, words).len() == 0,
{
}

} // verus!
