//! Rows of Codex records.
//!
//! Codex writes `{timestamp, type, payload}`, and `payload.type` says what a
//! record is.

use crate::civil;
use crate::extract;
use crate::extract::Row;
use crate::extract::RowV;
use crate::json;
use crate::json::Json;
use crate::json::JsonV;
use crate::text;
use vstd::prelude::*;
use vstd::string::*;
use vstd::utf8::*;

verus! {

/// A text with its white space collapsed, cut to `n` characters.
pub open spec fn squeezed(s: Seq<char>, n: int) -> Seq<char> {
    text::prefix(text::join(text::words(s), " "@), n)
}

/// Collapses white space and cuts to `n` characters.
pub fn trunc_chars(s: &str, n: usize) -> (r: String)
    ensures
        r@ == squeezed(s@, n as int),
{
    let words = text::split_words(&text::chars_of(s));
    let flat = text::join_chars(&words, " ");
    text::string_of(&text::prefix_chars(&text::chars_of(flat.as_str()), n))
}

/// The first line of a text, without its line end.
pub open spec fn first_line(s: Seq<char>) -> Option<Seq<char>> {
    if s.len() == 0 {
        None
    } else {
        match text::find(s, seq!['\n']) {
            Some(k) => if k > 0 && s[k - 1] == '\r' {
                Some(s.take(k - 1))
            } else {
                Some(s.take(k))
            },
            None => Some(s),
        }
    }
}

/// The first line of a text, without its line end.
pub fn line_one(s: &str) -> (r: Option<String>)
    ensures
        text::opt_text(r) == first_line(s@),
{
    let v = text::chars_of(s);
    if v.len() == 0 {
        return None;
    }
    let nl: [char; 1] = ['\n'];
    assert(nl@ =~= seq!['\n']);
    match text::find_chars(&v, &nl) {
        Some(k) => {
            proof {
                text::lemma_find_from(v@, nl@, 0);
            }
            let e: usize = if k > 0 && v[k - 1] == '\r' {
                k - 1
            } else {
                k
            };
            let cut = vstd::slice::slice_subrange(&v, 0, e);
            assert(cut@ =~= v@.take(e as int));
            Some(text::string_of(cut))
        },
        None => Some(text::string_of(&v)),
    }
}

/// A text behind another, with a space between them.
pub open spec fn spaced(out: Seq<char>, s: Seq<char>) -> Seq<char> {
    if out.len() == 0 {
        s
    } else {
        out.push(' ') + s
    }
}

/// `out` with the text of a value behind it. In an object the first of `text`,
/// `content` and `summary` that it has counts.
pub open spec fn gathered(v: JsonV, out: Seq<char>) -> Seq<char>
    decreases v, 0nat,
{
    match v {
        JsonV::Str(s) => spaced(out, s),
        JsonV::Array(a) => gathered_all(a, out),
        JsonV::Object(ms) => {
            let t = json::last_at(ms, "text"@);
            let c = json::last_at(ms, "content"@);
            let s = json::last_at(ms, "summary"@);
            if 0 <= t < ms.len() {
                gathered(ms[t].1, out)
            } else if 0 <= c < ms.len() {
                gathered(ms[c].1, out)
            } else if 0 <= s < ms.len() {
                gathered(ms[s].1, out)
            } else {
                out
            }
        },
        _ => out,
    }
}

/// The values of a list, in order.
pub open spec fn gathered_all(a: Seq<JsonV>, out: Seq<char>) -> Seq<char>
    decreases a, 1nat,
{
    if a.len() == 0 {
        out
    } else {
        gathered(a[a.len() - 1], gathered_all(a.drop_last(), out))
    }
}

/// The text of an optional value.
pub open spec fn gathered_opt(v: Option<JsonV>, out: Seq<char>) -> Seq<char> {
    match v {
        Some(x) => gathered(x, out),
        None => out,
    }
}

fn collect(v: &Json, out: &mut String)
    ensures
        final(out)@ == gathered(v@, old(out)@),
    decreases *v,
{
    broadcast use json::lemma_model;

    match v {
        Json::Str(s) => {
            if out.as_str().unicode_len() > 0 {
                out.push(' ');
            }
            out.append(s.as_str());
            assert(Seq::<char>::empty() + s@ =~= s@);
        },
        Json::Array(a) => {
            let ghost all = json::values(a@);
            let mut i: usize = 0;
            assert(gathered_all(all.take(0), old(out)@) == old(out)@);
            while i < a.len()
                invariant
                    i <= a@.len(),
                    *v is Array,
                    v->Array_0 == *a,
                    all == json::values(a@),
                    out@ == gathered_all(all.take(i as int), old(out)@),
                decreases a.len() - i,
            {
                assert(all.take(i + 1).drop_last() == all.take(i as int));
                assert(all.take(i + 1)[i as int] == a@[i as int]@);
                collect(&a[i], out);
                i += 1;
            }
            assert(all.take(a@.len() as int) == all);
        },
        Json::Object(ms) => {
            match json::find_index(ms, "text") {
                Some(i) => {
                    collect(&ms[i].1, out);
                    return ;
                },
                None => {},
            }
            match json::find_index(ms, "content") {
                Some(i) => {
                    collect(&ms[i].1, out);
                    return ;
                },
                None => {},
            }
            match json::find_index(ms, "summary") {
                Some(i) => {
                    collect(&ms[i].1, out);
                },
                None => {},
            }
        },
        _ => {},
    }
}

/// Appends the text of a value, at any depth.
pub fn collect_v(v: Option<&Json>, out: &mut String)
    ensures
        final(out)@ == gathered_opt(
            match v {
                Some(x) => Some(x@),
                None => None,
            },
            old(out)@,
        ),
{
    match v {
        Some(x) => {
            collect(x, out);
        },
        None => {},
    }
}

/// What a payload gives to a row.
pub struct BodyV {
    pub target: Option<Seq<char>>,
    pub is_err: Option<int>,
    pub in_tok: Option<int>,
    pub out_tok: Option<int>,
    pub cache_r: Option<int>,
    pub text: Seq<char>,
}

pub open spec fn empty_body() -> BodyV {
    BodyV {
        target: None,
        is_err: None,
        in_tok: None,
        out_tok: None,
        cache_r: None,
        text: Seq::empty(),
    }
}

/// The arguments of a function call that name what it works on, best first.
pub open spec fn argument_keys() -> Seq<Seq<char>> {
    seq!["cmd"@, "command"@, "path"@, "file_path"@, "query"@]
}

/// The first of some members that is a string.
pub open spec fn first_str(v: JsonV, keys: Seq<Seq<char>>) -> Option<Seq<char>>
    decreases keys.len(),
{
    if keys.len() == 0 {
        None
    } else {
        match json::get_str(v, keys[0]) {
            Some(s) => Some(s),
            None => first_str(v, keys.drop_first()),
        }
    }
}

/// What the parsed arguments of a function call name as its target.
pub open spec fn named_target(args: Option<JsonV>) -> Option<Seq<char>> {
    match args {
        Some(j) => if json::strict(j) {
            first_str(j, argument_keys())
        } else {
            None
        },
        None => None,
    }
}

/// The target of a function call: what its arguments name, else their start.
pub open spec fn call_target(a: Seq<char>, args: Option<JsonV>) -> Seq<char> {
    match named_target(args) {
        Some(t) => t,
        None => squeezed(a, extract::CMD_CHARS as int),
    }
}

/// Whether the output of a tool reports an exit code other than zero.
pub open spec fn failed(o: Seq<char>) -> bool {
    match text::find(o, "exited with code "@) {
        Some(i) => {
            let rest = text::trim_start(o.skip(i + "exited with code "@.len()));
            !(rest.len() > 0 && rest[0] == '0')
        },
        None => false,
    }
}

/// An integer member.
pub open spec fn get_int(v: JsonV, k: Seq<char>) -> Option<int> {
    match json::get(v, k) {
        Some(x) => json::int_of(x),
        None => None,
    }
}

/// The usage of one call, not the running total.
pub open spec fn last_usage(p: JsonV) -> Option<JsonV> {
    match json::get(p, "info"@) {
        Some(i) => json::get(i, "last_token_usage"@),
        None => None,
    }
}

/// The body of a record, by the type of its payload.
pub open spec fn body(pt: Option<Seq<char>>, p: JsonV) -> BodyV {
    if pt == Some("function_call"@) {
        match json::get_str(p, "arguments"@) {
            Some(a) => BodyV {
                target: Some(call_target(a, json::document(encode_utf8(a)))),
                text: a,
                ..empty_body()
            },
            None => empty_body(),
        }
    } else if pt == Some("custom_tool_call"@) {
        match json::get_str(p, "input"@) {
            Some(i) => BodyV {
                target: match first_line(i) {
                    Some(l) => Some(squeezed(l, extract::CMD_CHARS as int)),
                    None => None,
                },
                text: i,
                ..empty_body()
            },
            None => empty_body(),
        }
    } else if pt == Some("function_call_output"@) || pt == Some("custom_tool_call_output"@) {
        match json::get_str(p, "output"@) {
            Some(o) => BodyV {
                is_err: Some(
                    if failed(o) {
                        1
                    } else {
                        0
                    },
                ),
                text: o,
                ..empty_body()
            },
            None => empty_body(),
        }
    } else if pt == Some("message"@) {
        BodyV { text: gathered_opt(json::get(p, "content"@), Seq::empty()), ..empty_body() }
    } else if pt == Some("reasoning"@) {
        BodyV { text: gathered_opt(json::get(p, "summary"@), Seq::empty()), ..empty_body() }
    } else if pt == Some("user_message"@) || pt == Some("agent_message"@) {
        BodyV { text: text::or_empty(json::get_str(p, "message"@)), ..empty_body() }
    } else if pt == Some("agent_reasoning"@) {
        BodyV { text: text::or_empty(json::get_str(p, "text"@)), ..empty_body() }
    } else if pt == Some("token_count"@) {
        match last_usage(p) {
            Some(u) => BodyV {
                in_tok: get_int(u, "input_tokens"@),
                out_tok: get_int(u, "output_tokens"@),
                cache_r: get_int(u, "cached_input_tokens"@),
                ..empty_body()
            },
            None => empty_body(),
        }
    } else {
        BodyV { target: json::get_str(p, "cwd"@), ..empty_body() }
    }
}

/// The row of a parsed record. `None` where the record has no `type` that is a
/// string, or no payload.
pub open spec fn codex_row(v: JsonV, off: int, len: int, hash: int) -> Option<RowV> {
    match (json::get_str(v, "type"@), json::get(v, "payload"@)) {
        (Some(outer), Some(p)) => {
            let pt = json::get_str(p, "type"@);
            let b = body(pt, p);
            Some(
                RowV {
                    off,
                    len,
                    hash,
                    ts: match json::get_str(v, "timestamp"@) {
                        Some(t) => civil::rfc3339_ms(encode_utf8(t)),
                        None => None,
                    },
                    kind: Some(
                        match pt {
                            Some(t) => outer + "/"@ + t,
                            None => outer,
                        },
                    ),
                    role: json::get_str(p, "role"@),
                    model: None,
                    tool: json::get_str(p, "name"@),
                    target: b.target,
                    in_tok: b.in_tok,
                    out_tok: b.out_tok,
                    cache_r: b.cache_r,
                    is_err: b.is_err,
                    text: b.text,
                },
            )
        },
        _ => None,
    }
}

/// The row of a record that may have been unreadable.
pub open spec fn document_row(v: Option<JsonV>, off: int, len: int, hash: int) -> Option<RowV> {
    match v {
        Some(x) => if json::strict(x) {
            codex_row(x, off, len, hash)
        } else {
            None
        },
        None => None,
    }
}

/// The first of some members that is a string.
fn find_str<'a>(v: &'a Json, keys: &[&str]) -> (r: Option<&'a str>)
    ensures
        ({
            let ks = Seq::new(keys@.len(), |i: int| keys@[i]@);
            match r {
                Some(s) => first_str(v@, ks) == Some(s@),
                None => first_str(v@, ks) is None,
            }
        }),
{
    let ghost ks = Seq::new(keys@.len(), |i: int| keys@[i]@);
    let mut i: usize = 0;
    assert(ks.skip(0) == ks);
    while i < keys.len()
        invariant
            i <= keys@.len(),
            ks == Seq::new(keys@.len(), |j: int| keys@[j]@),
            first_str(v@, ks) == first_str(v@, ks.skip(i as int)),
        decreases keys.len() - i,
    {
        assert(ks.skip(i as int).drop_first() == ks.skip(i + 1));
        assert(ks.skip(i as int)[0] == keys@[i as int]@);
        match v.get_str(keys[i]) {
            Some(s) => {
                return Some(s);
            },
            None => {},
        }
        i += 1;
    }
    None
}

/// The target of a function call with the arguments `a`, which were parsed to
/// `args`.
pub fn argument_target(a: &str, args: &Option<Json>) -> (r: String)
    ensures
        r@ == call_target(
            a@,
            match args {
                Some(j) => Some(j@),
                None => None,
            },
        ),
{
    match args {
        Some(j) => {
            if j.is_strict() {
                let keys = ["cmd", "command", "path", "file_path", "query"];
                assert(Seq::new(keys@.len(), |i: int| keys@[i]@) =~= argument_keys());
                match find_str(j, &keys) {
                    Some(t) => {
                        return t.to_owned();
                    },
                    None => {},
                }
            }
        },
        None => {},
    }
    trunc_chars(a, extract::CMD_CHARS)
}

/// Whether the output of a tool reports an exit code other than zero.
pub fn exit_failed(o: &str) -> (r: bool)
    ensures
        r == failed(o@),
{
    let v = text::chars_of(o);
    let mark = text::chars_of("exited with code ");
    match text::find_chars(&v, &mark) {
        Some(i) => {
            proof {
                text::lemma_find_from(v@, mark@, 0);
            }
            assert(text::occurs_at(v@, mark@, i as int));
            let n: usize = v.len();
            let rest = vstd::slice::slice_subrange(&v, i + mark.len(), n);
            assert(rest@ =~= v@.skip(i + mark@.len()));
            let t = text::trim_start_chars(rest);
            !(t.len() > 0 && t[0] == '0')
        },
        None => false,
    }
}

fn member_int(v: &Json, k: &str) -> (r: Option<i64>)
    ensures
        extract::opt_int(r) == get_int(v@, k@),
{
    match v.get(k) {
        Some(x) => x.as_i64(),
        None => None,
    }
}

fn member_text(v: &Json, k: &str) -> (r: Option<String>)
    ensures
        text::opt_text(r) == json::get_str(v@, k@),
{
    match v.get_str(k) {
        Some(s) => Some(s.to_owned()),
        None => None,
    }
}

/// What a payload gives to a row.
pub struct Body {
    pub target: Option<String>,
    pub is_err: Option<i64>,
    pub in_tok: Option<i64>,
    pub out_tok: Option<i64>,
    pub cache_r: Option<i64>,
    pub text: String,
}

impl View for Body {
    type V = BodyV;

    open spec fn view(&self) -> BodyV {
        BodyV {
            target: text::opt_text(self.target),
            is_err: extract::opt_int(self.is_err),
            in_tok: extract::opt_int(self.in_tok),
            out_tok: extract::opt_int(self.out_tok),
            cache_r: extract::opt_int(self.cache_r),
            text: self.text@,
        }
    }
}

/// Whether a type is one of some.
fn is(pt: Option<&str>, s: &str) -> (r: bool)
    ensures
        r == (match pt {
            Some(t) => Some(t@),
            None => None,
        } == Some(s@)),
{
    match pt {
        Some(t) => text::same(t, s),
        None => false,
    }
}

/// The body of a record, by the type of its payload.
fn read_body(pt: Option<&str>, p: &Json) -> (r: Body)
    ensures
        r@ == body(
            match pt {
                Some(t) => Some(t@),
                None => None,
            },
            p@,
        ),
{
    let mut b = Body {
        target: None,
        is_err: None,
        in_tok: None,
        out_tok: None,
        cache_r: None,
        text: String::new(),
    };
    assert(b.text@ =~= Seq::empty());
    if is(pt, "function_call") {
        match p.get_str("arguments") {
            Some(a) => {
                let args = json::parse(a.as_bytes());
                b.target = Some(argument_target(a, &args));
                b.text = a.to_owned();
            },
            None => {},
        }
    } else if is(pt, "custom_tool_call") {
        match p.get_str("input") {
            Some(i) => {
                match line_one(i) {
                    Some(l) => {
                        b.target = Some(trunc_chars(l.as_str(), extract::CMD_CHARS));
                    },
                    None => {},
                }
                b.text = i.to_owned();
            },
            None => {},
        }
    } else if is(pt, "function_call_output") || is(pt, "custom_tool_call_output") {
        match p.get_str("output") {
            Some(o) => {
                b.is_err =
                Some(
                    if exit_failed(o) {
                        1
                    } else {
                        0
                    },
                );
                b.text = o.to_owned();
            },
            None => {},
        }
    } else if is(pt, "message") {
        collect_v(p.get("content"), &mut b.text);
    } else if is(pt, "reasoning") {
        collect_v(p.get("summary"), &mut b.text);
    } else if is(pt, "user_message") || is(pt, "agent_message") {
        match p.get_str("message") {
            Some(m) => {
                b.text = m.to_owned();
            },
            None => {},
        }
    } else if is(pt, "agent_reasoning") {
        match p.get_str("text") {
            Some(m) => {
                b.text = m.to_owned();
            },
            None => {},
        }
    } else if is(pt, "token_count") {
        match p.get("info") {
            Some(info) => match info.get("last_token_usage") {
                Some(u) => {
                    b.in_tok = member_int(u, "input_tokens");
                    b.out_tok = member_int(u, "output_tokens");
                    b.cache_r = member_int(u, "cached_input_tokens");
                },
                None => {},
            },
            None => {},
        }
    } else {
        b.target = member_text(p, "cwd");
    }
    b
}

/// The row of a parsed record.
pub fn row_of(v: &Json, off: i64, len: i64, hash: i64) -> (r: Option<Row>)
    ensures
        match r {
            Some(x) => codex_row(v@, off as int, len as int, hash as int) == Some(x@),
            None => codex_row(v@, off as int, len as int, hash as int) is None,
        },
{
    let outer = match v.get_str("type") {
        Some(s) => s,
        None => {
            return None;
        },
    };
    let p = match v.get("payload") {
        Some(p) => p,
        None => {
            return None;
        },
    };
    let pt = p.get_str("type");
    let mut kind = outer.to_owned();
    match pt {
        Some(t) => {
            kind.append("/");
            kind.append(t);
        },
        None => {},
    }
    let ts = match v.get_str("timestamp") {
        Some(t) => civil::iso_ms(t),
        None => None,
    };
    let b = read_body(pt, p);
    Some(
        Row {
            off,
            len,
            hash,
            ts,
            kind: Some(kind),
            role: member_text(p, "role"),
            model: None,
            tool: member_text(p, "name"),
            target: b.target,
            in_tok: b.in_tok,
            out_tok: b.out_tok,
            cache_r: b.cache_r,
            is_err: b.is_err,
            text: b.text,
        },
    )
}

/// The row of a Codex record, if the text is one.
pub fn codex(txt: &str, off: i64, len: i64, hash: i64) -> (r: Option<Row>)
    ensures
        match r {
            Some(x) => document_row(
                json::document(txt.spec_bytes()),
                off as int,
                len as int,
                hash as int,
            ) == Some(x@),
            None => document_row(
                json::document(txt.spec_bytes()),
                off as int,
                len as int,
                hash as int,
            ) is None,
        },
{
    match json::parse(txt.as_bytes()) {
        Some(v) => if v.is_strict() {
            row_of(&v, off, len, hash)
        } else {
            None
        },
        None => None,
    }
}

// ---------------------------------------------------------------------------
// What a row says
// ---------------------------------------------------------------------------

/// The first line of a text is what stands before its first line break, which may
/// be a line feed alone or behind a carriage return.
#[verifier::spinoff_prover]
#[verifier::rlimit(60)]
pub proof fn law_first_line(a: Seq<char>, b: Seq<char>)
    requires
        text::free_of(a, '\n'),
        a.len() > 0,
        a.last() != '\r',
    ensures
        first_line(a) == Some(a),
        first_line(a + seq!['\n'] + b) == Some(a),
        first_line(a + seq!['\r', '\n'] + b) == Some(a),
        first_line(Seq::empty()) is None,
{
    let c = seq!['\n'];
    let u = a + c + b;
    let v = a + seq!['\r', '\n'] + b;
    let n = a.len() as int;
    text::law_find(a, c);
    text::law_find(u, c);
    text::law_find(v, c);
    assert(u.subrange(n, n + 1) =~= c);
    assert(v.subrange(n + 1, n + 2) =~= c);
    assert(text::occurs_at(u, c, n));
    assert(text::occurs_at(v, c, n + 1));
    match text::find(a, c) {
        Some(k) => {
            assert(a.subrange(k, k + 1)[0] == '\n');
        },
        None => {},
    }
    match text::find(u, c) {
        Some(k) => {
            assert(u.subrange(k, k + 1)[0] == '\n');
            if k < n {
                assert(u[k] == a[k]);
            }
            assert(k == n);
            assert(u[k - 1] == a.last());
            assert(u.take(n) =~= a);
        },
        None => {},
    }
    match text::find(v, c) {
        Some(k) => {
            assert(v.subrange(k, k + 1)[0] == '\n');
            if k < n {
                assert(v[k] == a[k]);
            }
            assert(k == n + 1);
            assert(v[n] == '\r');
            assert(v.take(n) =~= a);
        },
        None => {},
    }
}

/// The row of a Codex record has the kind that its type and that of its payload
/// make, the role and the name that the payload gives, and its time.
#[verifier::spinoff_prover]
#[verifier::rlimit(60)]
pub proof fn law_codex_columns(
    v: JsonV,
    outer: Seq<char>,
    p: JsonV,
    off: int,
    len: int,
    hash: int,
)
    requires
        json::get(v, "type"@) == Some(JsonV::Str(outer)),
        json::get(v, "payload"@) == Some(p),
    ensures
        codex_row(v, off, len, hash) matches Some(x) && {
            let t = json::get(p, "type"@);
            &&& x.off == off && x.len == len && x.hash == hash
            &&& t matches Some(JsonV::Str(s)) ==> x.kind == Some(outer + "/"@ + s)
            &&& t is None ==> x.kind == Some(outer)
            &&& x.model is None
            &&& json::get(p, "role"@) matches Some(JsonV::Str(s)) ==> x.role == Some(s)
            &&& json::get(p, "role"@) is None ==> x.role is None
            &&& json::get(p, "name"@) matches Some(JsonV::Str(s)) ==> x.tool == Some(s)
            &&& json::get(p, "name"@) is None ==> x.tool is None
            &&& json::get(v, "timestamp"@) matches Some(JsonV::Str(s)) ==> x.ts
                == civil::rfc3339_ms(encode_utf8(s))
            &&& json::get(v, "timestamp"@) is None ==> x.ts is None
        },
{
}

/// A record without a type or a payload is no Codex record.
pub proof fn law_codex_refused(v: JsonV, off: int, len: int, hash: int)
    ensures
        !(json::get(v, "type"@) matches Some(JsonV::Str(_))) || json::get(v, "payload"@) is None
            ==> codex_row(v, off, len, hash) is None,
{
}

proof fn lemma_types()
    ensures
        "function_call"@.len() == 13 && "function_call"@[0] == 'f',
        "custom_tool_call"@.len() == 16,
        "function_call_output"@.len() == 20,
        "custom_tool_call_output"@.len() == 23,
        "message"@.len() == 7,
        "reasoning"@.len() == 9,
        "user_message"@.len() == 12,
        "agent_message"@.len() == 13 && "agent_message"@[0] == 'a',
        "agent_reasoning"@.len() == 15,
        "token_count"@.len() == 11,
{
    reveal_strlit("function_call");
    reveal_strlit("custom_tool_call");
    reveal_strlit("function_call_output");
    reveal_strlit("custom_tool_call_output");
    reveal_strlit("message");
    reveal_strlit("reasoning");
    reveal_strlit("user_message");
    reveal_strlit("agent_message");
    reveal_strlit("agent_reasoning");
    reveal_strlit("token_count");
}

/// A call has its arguments as text and works on something; what it printed is
/// text, and is marked as failed or not; no other payload is.
#[verifier::spinoff_prover]
#[verifier::rlimit(60)]
pub proof fn law_codex_calls(v: JsonV, outer: Seq<char>, p: JsonV, t: Seq<char>, s: Seq<char>)
    requires
        json::get(v, "type"@) == Some(JsonV::Str(outer)),
        json::get(v, "payload"@) == Some(p),
        json::get(p, "type"@) == Some(JsonV::Str(t)),
    ensures
        codex_row(v, 0, 0, 0) matches Some(x) && {
            &&& t == "function_call"@ && json::get(p, "arguments"@) == Some(JsonV::Str(s))
                ==> x.text == s && x.target is Some && x.is_err is None
            &&& t == "custom_tool_call"@ && json::get(p, "input"@) == Some(JsonV::Str(s)) ==> x.text
                == s && x.is_err is None && (s.len() > 0 ==> x.target is Some)
            &&& t == "function_call_output"@ || t == "custom_tool_call_output"@ ==> {
                &&& json::get(p, "output"@) == Some(JsonV::Str(s)) ==> x.text == s && x.target
                    is None && (failed(s) <==> x.is_err == Some(1int)) && (!failed(s) <==> x.is_err
                    == Some(0int))
                &&& json::get(p, "output"@) is None ==> x.text.len() == 0 && x.is_err is None
            }
            &&& t != "function_call_output"@ && t != "custom_tool_call_output"@ ==> x.is_err is None
        },
{
    lemma_types();
}

/// A message and what the model thought is text, whoever said it.
#[verifier::spinoff_prover]
#[verifier::rlimit(60)]
pub proof fn law_codex_texts(v: JsonV, outer: Seq<char>, p: JsonV, t: Seq<char>, s: Seq<char>)
    requires
        json::get(v, "type"@) == Some(JsonV::Str(outer)),
        json::get(v, "payload"@) == Some(p),
        json::get(p, "type"@) == Some(JsonV::Str(t)),
    ensures
        codex_row(v, 0, 0, 0) matches Some(x) && {
            &&& t == "message"@ && json::get(p, "content"@) == Some(JsonV::Str(s)) ==> x.text == s
            &&& t == "reasoning"@ && json::get(p, "summary"@) == Some(JsonV::Str(s)) ==> x.text == s
            &&& (t == "user_message"@ || t == "agent_message"@) && json::get(p, "message"@) == Some(
                JsonV::Str(s),
            ) ==> x.text == s
            &&& t == "agent_reasoning"@ && json::get(p, "text"@) == Some(JsonV::Str(s)) ==> x.text
                == s
            &&& t == "message"@ || t == "reasoning"@ || t == "user_message"@ || t
                == "agent_message"@ || t == "agent_reasoning"@ ==> x.target is None && x.in_tok
                is None && x.out_tok is None && x.cache_r is None
        },
{
    lemma_types();
}

/// A list of texts is the text of its items, with a blank between them.
pub proof fn law_codex_lists(
    v: JsonV,
    outer: Seq<char>,
    p: JsonV,
    t: Seq<char>,
    a: Seq<JsonV>,
    ss: Seq<Seq<char>>,
)
    requires
        json::get(v, "type"@) == Some(JsonV::Str(outer)),
        json::get(v, "payload"@) == Some(p),
        json::get(p, "type"@) == Some(JsonV::Str(t)),
        a.len() == ss.len(),
        forall|i: int| 0 <= i < ss.len() ==> (#[trigger] ss[i]).len() > 0,
        forall|i: int|
            0 <= i < a.len() ==> #[trigger] a[i] == JsonV::Str(ss[i]) || json::get(a[i], "text"@)
                == Some(JsonV::Str(ss[i])),
    ensures
        codex_row(v, 0, 0, 0) matches Some(x) && {
            &&& t == "message"@ && json::get(p, "content"@) == Some(JsonV::Array(a)) ==> x.text
                == text::join(ss, " "@)
            &&& t == "reasoning"@ && json::get(p, "summary"@) == Some(JsonV::Array(a)) ==> x.text
                == text::join(ss, " "@)
        },
{
    lemma_types();
    lemma_gathered(a, ss);
}

#[verifier::spinoff_prover]
#[verifier::rlimit(60)]
proof fn lemma_gathered(a: Seq<JsonV>, ss: Seq<Seq<char>>)
    requires
        a.len() == ss.len(),
        forall|i: int| 0 <= i < ss.len() ==> (#[trigger] ss[i]).len() > 0,
        forall|i: int|
            0 <= i < a.len() ==> #[trigger] a[i] == JsonV::Str(ss[i]) || json::get(a[i], "text"@)
                == Some(JsonV::Str(ss[i])),
    ensures
        gathered_all(a, Seq::empty()) == text::join(ss, " "@),
        gathered(JsonV::Array(a), Seq::empty()) == text::join(ss, " "@),
        ss.len() > 0 ==> text::join(ss, " "@).len() > 0,
    decreases a.len(),
{
    reveal_strlit(" ");
    text::law_join_appends(Seq::empty(), Seq::empty(), " "@);
    if a.len() == 0 {
        assert(ss =~= Seq::empty());
    } else {
        let d = a.drop_last();
        let e = ss.drop_last();
        let n = a.len() - 1;
        assert forall|i: int| 0 <= i < d.len() implies #[trigger] d[i] == JsonV::Str(e[i])
            || json::get(d[i], "text"@) == Some(JsonV::Str(e[i])) by {
            assert(d[i] == a[i] && e[i] == ss[i]);
        }
        assert forall|i: int| 0 <= i < e.len() implies (#[trigger] e[i]).len() > 0 by {
            assert(e[i] == ss[i]);
        }
        lemma_gathered(d, e);
        let out = text::join(e, " "@);
        let s = ss[n];
        assert(ss =~= e.push(s));
        text::law_join_appends(e, s, " "@);
        assert(a[n] == JsonV::Str(ss[n]) || json::get(a[n], "text"@) == Some(JsonV::Str(ss[n])));
        lemma_gathered_text(a[n], s, out);
        assert(gathered_all(a, Seq::empty()) == gathered(a[n], gathered_all(d, Seq::empty())));
        if e.len() == 0 {
            assert(e =~= Seq::empty());
            assert(ss =~= seq![s]);
        } else {
            assert(out.push(' ') + s =~= out + " "@ + s);
        }
    }
    assert(gathered(JsonV::Array(a), Seq::empty()) == gathered_all(a, Seq::empty()));
}

proof fn lemma_gathered_text(v: JsonV, s: Seq<char>, out: Seq<char>)
    requires
        v == JsonV::Str(s) || json::get(v, "text"@) == Some(JsonV::Str(s)),
    ensures
        gathered(v, out) == spaced(out, s),
{
    match v {
        JsonV::Object(ms) => {
            let t = json::last_at(ms, "text"@);
            assert(ms[t].1 == JsonV::Str(s));
            assert(gathered(ms[t].1, out) == spaced(out, s));
        },
        _ => {},
    }
}

/// The numbers of tokens are those of the last call, not the running total.
pub proof fn law_codex_tokens(
    v: JsonV,
    outer: Seq<char>,
    p: JsonV,
    info: JsonV,
    u: JsonV,
    a: i64,
    b: i64,
    c: i64,
)
    requires
        json::get(v, "type"@) == Some(JsonV::Str(outer)),
        json::get(v, "payload"@) == Some(p),
        json::get(p, "type"@) == Some(JsonV::Str("token_count"@)),
        json::get(p, "info"@) == Some(info),
        json::get(info, "last_token_usage"@) == Some(u),
    ensures
        codex_row(v, 0, 0, 0) matches Some(x) && {
            &&& json::get(u, "input_tokens"@) == Some(JsonV::Num(json::Num::Int(a))) ==> x.in_tok == Some(
                a as int,
            )
            &&& json::get(u, "output_tokens"@) == Some(JsonV::Num(json::Num::Int(b))) ==> x.out_tok
                == Some(b as int)
            &&& json::get(u, "cached_input_tokens"@) == Some(JsonV::Num(json::Num::Int(c)))
                ==> x.cache_r == Some(c as int)
            &&& json::get(u, "input_tokens"@) is None ==> x.in_tok is None
            &&& json::get(u, "output_tokens"@) is None ==> x.out_tok is None
            &&& json::get(u, "cached_input_tokens"@) is None ==> x.cache_r is None
            &&& x.text.len() == 0 && x.target is None
        },
{
    lemma_types();
}

/// A command failed if and only if the first exit code that it tells of is other
/// than zero.
#[verifier::spinoff_prover]
#[verifier::rlimit(60)]
pub proof fn law_failed(a: Seq<char>, n: nat, b: Seq<char>)
    requires
        text::find(a + "exited with code "@ + text::dec(n) + b, "exited with code "@) == Some(
            a.len() as int,
        ),
    ensures
        failed(a + "exited with code "@ + text::dec(n) + b) <==> n != 0,
{
    let m = "exited with code "@;
    let o = a + m + text::dec(n) + b;
    let rest = text::dec(n) + b;
    assert(o.skip((a.len() + m.len()) as int) =~= rest);
    text::law_number_reads_back(n);
    assert(rest[0] == text::dec(n)[0]);
    assert(text::is_digit(text::dec(n)[0]));
    assert(!text::is_ws(rest[0]));
    assert(text::trim_start(rest) == rest);
    if n == 0 {
        assert(text::dec(n)[0] == '0') by {
            reveal_with_fuel(text::dec, 2);
        }
    }
}

/// A text that names no exit code is no failure.
pub proof fn law_not_failed(o: Seq<char>)
    requires
        !text::contains(o, "exited with code "@),
    ensures
        !failed(o),
{
}

/// What a call works on: the first of the members that can name it, or else the
/// arguments themselves on one line.
#[verifier::spinoff_prover]
#[verifier::rlimit(60)]
pub proof fn law_call_target(a: Seq<char>, j: JsonV, s: Seq<char>)
    requires
        json::strict(j),
    ensures
        json::get(j, "cmd"@) == Some(JsonV::Str(s)) ==> call_target(a, Some(j)) == s,
        json::get(j, "cmd"@) is None && json::get(j, "command"@) == Some(JsonV::Str(s))
            ==> call_target(a, Some(j)) == s,
        json::get(j, "cmd"@) is None && json::get(j, "command"@) is None && json::get(j, "path"@)
            == Some(JsonV::Str(s)) ==> call_target(a, Some(j)) == s,
        json::get(j, "cmd"@) is None && json::get(j, "command"@) is None && json::get(j, "path"@)
            is None && json::get(j, "file_path"@) == Some(JsonV::Str(s)) ==> call_target(a, Some(j))
            == s,
        json::get(j, "cmd"@) is None && json::get(j, "command"@) is None && json::get(j, "path"@)
            is None && json::get(j, "file_path"@) is None && json::get(j, "query"@) == Some(
            JsonV::Str(s),
        ) ==> call_target(a, Some(j)) == s,
        json::get(j, "cmd"@) is None && json::get(j, "command"@) is None && json::get(j, "path"@)
            is None && json::get(j, "file_path"@) is None && json::get(j, "query"@) is None
            ==> call_target(a, Some(j)) == squeezed(a, 200),
        call_target(a, None) == squeezed(a, 200),
{
    reveal_with_fuel(first_str, 6);
    let k0 = argument_keys();
    let k1 = k0.drop_first();
    let k2 = k1.drop_first();
    let k3 = k2.drop_first();
    let k4 = k3.drop_first();
    let k5 = k4.drop_first();
    assert(k1[0] == "command"@ && k2[0] == "path"@ && k3[0] == "file_path"@ && k4[0] == "query"@);
    assert(k5.len() == 0);
    assert(first_str(j, k5) is None);
    assert(first_str(j, k4) == json::get_str(j, "query"@));
}

/// A text on one line has its words with one blank between them, whatever stood
/// there before, and is no longer than asked for.
#[verifier::spinoff_prover]
#[verifier::rlimit(60)]
pub proof fn law_squeezed(a: Seq<char>, c: char, b: Seq<char>, n: int)
    requires
        n >= 0,
    ensures
        squeezed(a, n).len() <= n,
        text::is_ws(c) ==> squeezed(a + seq![c] + b, n) == squeezed(a + " "@ + b, n),
        text::is_ws(c) ==> squeezed(a + seq![c], n) == squeezed(a, n),
        a.len() > 0 && a.len() <= n && (forall|i: int|
            0 <= i < a.len() ==> !text::is_ws(#[trigger] a[i])) ==> squeezed(a, n) == a,
        a.len() > 0 && b.len() > 0 && a.len() + 1 + b.len() <= n && (forall|i: int|
            0 <= i < a.len() ==> !text::is_ws(#[trigger] a[i])) && (forall|i: int|
            0 <= i < b.len() ==> !text::is_ws(#[trigger] b[i])) ==> (text::is_ws(c) ==> squeezed(
            a + seq![c] + b,
            n,
        ) == a + " "@ + b),
{
    reveal_strlit(" ");
    assert(" "@ =~= seq![' ']);
    text::law_words(a, c, b);
    text::law_words(a, ' ', b);
    text::law_words(a, c, Seq::empty());
    text::law_words(b, c, Seq::empty());
    assert(a + seq![c] + Seq::<char>::empty() =~= a + seq![c]);
    assert(text::words(a) + Seq::<Seq<char>>::empty() =~= text::words(a));
    text::law_join_appends(Seq::empty(), a, " "@);
    text::law_join_appends(seq![a], b, " "@);
    assert(seq![a] + seq![b] =~= seq![a].push(b));
}

/// What a custom tool works on is the first line of its input, and any other
/// record is about the directory that it names.
#[verifier::spinoff_prover]
#[verifier::rlimit(60)]
pub proof fn law_codex_targets(v: JsonV, outer: Seq<char>, p: JsonV, t: Seq<char>, s: Seq<char>)
    requires
        json::get(v, "type"@) == Some(JsonV::Str(outer)),
        json::get(v, "payload"@) == Some(p),
        json::get(p, "type"@) == Some(JsonV::Str(t)),
    ensures
        codex_row(v, 0, 0, 0) matches Some(x) && {
            &&& t == "custom_tool_call"@ && json::get(p, "input"@) == Some(JsonV::Str(s)) ==> (
            first_line(s) matches Some(l) ==> x.target == Some(squeezed(l, 200)))
            &&& t == "function_call"@ && json::get(p, "arguments"@) == Some(JsonV::Str(s))
                ==> x.target == Some(call_target(s, json::document(encode_utf8(s))))
            &&& t != "function_call"@ && t != "custom_tool_call"@ && t != "function_call_output"@
                && t != "custom_tool_call_output"@ && t != "message"@ && t != "reasoning"@ && t
                != "user_message"@ && t != "agent_message"@ && t != "agent_reasoning"@ && t
                != "token_count"@ ==> {
                &&& json::get(p, "cwd"@) == Some(JsonV::Str(s)) ==> x.target == Some(s)
                &&& json::get(p, "cwd"@) is None ==> x.target is None
                &&& x.text.len() == 0 && x.in_tok is None && x.out_tok is None
            }
        },
{
    lemma_types();
}

} // verus!
