//! The readable start of a record.

use crate::codex;
use crate::extract::Row;
use crate::extract::RowV;
use crate::json;
use crate::json::Json;
use crate::json::JsonV;
use crate::record;
use crate::record::InputMap;
use crate::text;
use vstd::prelude::*;
use vstd::slice::*;
use vstd::string::*;
use vstd::utf8::*;

verus! {

/// `out` with the strings among the values of some members behind it.
pub open spec fn with_strings(m: Seq<(Seq<char>, JsonV)>, out: Seq<char>) -> Seq<char>
    decreases m.len(),
{
    if m.len() == 0 {
        out
    } else {
        let before = with_strings(m.drop_last(), out);
        match m.last().1 {
            JsonV::Str(s) => codex::spaced(before, s),
            _ => before,
        }
    }
}

/// `out` with the strings among the input of a tool call behind it.
pub open spec fn with_input(ms: Seq<(Seq<char>, JsonV)>, out: Seq<char>) -> Seq<char> {
    if json::get_str(JsonV::Object(ms), "type"@) == Some("tool_use"@) {
        match json::lookup(ms, "input"@) {
            Some(JsonV::Object(inp)) => with_strings(record::settled(inp), out),
            _ => out,
        }
    } else {
        out
    }
}

/// `out` with the readable text of a value behind it. In an object the first of
/// `text`, `thinking` and `content` that it has counts, else the input of a tool
/// call.
pub open spec fn prose(v: JsonV, out: Seq<char>) -> Seq<char>
    decreases v, 0nat,
{
    match v {
        JsonV::Str(s) => codex::spaced(out, s),
        JsonV::Array(a) => prose_all(a, out),
        JsonV::Object(ms) => {
            let t = json::last_at(ms, "text"@);
            let h = json::last_at(ms, "thinking"@);
            let c = json::last_at(ms, "content"@);
            if 0 <= t < ms.len() {
                prose(ms[t].1, out)
            } else if 0 <= h < ms.len() {
                prose(ms[h].1, out)
            } else if 0 <= c < ms.len() {
                prose(ms[c].1, out)
            } else {
                with_input(ms, out)
            }
        },
        _ => out,
    }
}

/// The values of a list, in order.
pub open spec fn prose_all(a: Seq<JsonV>, out: Seq<char>) -> Seq<char>
    decreases a, 1nat,
{
    if a.len() == 0 {
        out
    } else {
        prose(a[a.len() - 1], prose_all(a.drop_last(), out))
    }
}

fn push_spaced(out: &mut String, s: &str)
    ensures
        final(out)@ == codex::spaced(old(out)@, s@),
{
    if out.as_str().unicode_len() > 0 {
        out.push(' ');
    }
    out.append(s);
    assert(Seq::<char>::empty() + s@ =~= s@);
    assert(old(out)@.len() == 0 ==> old(out)@ =~= Seq::empty());
}

fn push_strings(m: &Vec<(String, Json)>, out: &mut String)
    ensures
        final(out)@ == with_strings(json::members_of(m@), old(out)@),
{
    let ghost all = json::members_of(m@);
    let mut i: usize = 0;
    assert(with_strings(all.take(0), old(out)@) == old(out)@);
    while i < m.len()
        invariant
            i <= m@.len(),
            all == json::members_of(m@),
            out@ == with_strings(all.take(i as int), old(out)@),
        decreases m.len() - i,
    {
        assert(all.take(i + 1).drop_last() =~= all.take(i as int));
        assert(all.take(i + 1).last() == (m@[i as int].0@, m@[i as int].1@));
        match m[i].1.as_str() {
            Some(s) => {
                push_spaced(out, s);
            },
            None => {},
        }
        i += 1;
    }
    assert(all.take(m@.len() as int) =~= all);
}

/// Appends the strings among the input of a tool call.
fn push_input(v: &Json, out: &mut String)
    requires
        v is Object,
        json::strict(v@),
    ensures
        final(out)@ == with_input(json::members_of(v->Object_0@), old(out)@),
{
    broadcast use json::lemma_model;

    let calls = match v.get_str("type") {
        Some(t) => text::same(t, "tool_use"),
        None => false,
    };
    if !calls {
        return ;
    }
    match v {
        Json::Object(ms) => match json::find_index(ms, "input") {
            Some(i) => {
                let inp = &ms[i].1;
                proof {
                    lemma_strict_member(v@, i as int);
                }
                match inp {
                    Json::Object(_) => match InputMap::from_json(inp) {
                        Some(InputMap(Some(m))) => {
                            push_strings(&m, out);
                        },
                        _ => {},
                    },
                    _ => {},
                }
            },
            None => {},
        },
        _ => {},
    }
}

/// The parts of a strict value are strict.
proof fn lemma_strict_member(v: JsonV, i: int)
    requires
        json::strict(v),
        match v {
            JsonV::Array(a) => 0 <= i < a.len(),
            JsonV::Object(a) => 0 <= i < a.len(),
            _ => false,
        },
    ensures
        match v {
            JsonV::Array(a) => json::strict(a[i]),
            JsonV::Object(a) => json::strict(a[i].1),
            _ => true,
        },
{
    match v {
        JsonV::Array(a) => {
            assert(json::strict(a[i]));
        },
        JsonV::Object(a) => {
            assert(json::strict(a[i].1));
        },
        _ => {},
    }
}

/// Appends the readable text of a value.
pub fn collect_text(v: &Json, out: &mut String)
    requires
        json::strict(v@),
    ensures
        final(out)@ == prose(v@, old(out)@),
    decreases *v,
{
    broadcast use json::lemma_model;

    match v {
        Json::Str(s) => {
            push_spaced(out, s.as_str());
        },
        Json::Array(a) => {
            let ghost all = json::values(a@);
            let mut i: usize = 0;
            assert(prose_all(all.take(0), old(out)@) == old(out)@);
            while i < a.len()
                invariant
                    i <= a@.len(),
                    *v is Array,
                    v->Array_0 == *a,
                    v@ == JsonV::Array(all),
                    json::strict(v@),
                    all == json::values(a@),
                    out@ == prose_all(all.take(i as int), old(out)@),
                decreases a.len() - i,
            {
                assert(all.take(i + 1).drop_last() =~= all.take(i as int));
                assert(all.take(i + 1)[i as int] == a@[i as int]@);
                proof {
                    lemma_strict_member(v@, i as int);
                }
                collect_text(&a[i], out);
                i += 1;
            }
            assert(all.take(a@.len() as int) =~= all);
        },
        Json::Object(ms) => {
            match json::find_index(ms, "text") {
                Some(i) => {
                    proof {
                        lemma_strict_member(v@, i as int);
                    }
                    collect_text(&ms[i].1, out);
                    return ;
                },
                None => {},
            }
            match json::find_index(ms, "thinking") {
                Some(i) => {
                    proof {
                        lemma_strict_member(v@, i as int);
                    }
                    collect_text(&ms[i].1, out);
                    return ;
                },
                None => {},
            }
            match json::find_index(ms, "content") {
                Some(i) => {
                    proof {
                        lemma_strict_member(v@, i as int);
                    }
                    collect_text(&ms[i].1, out);
                    return ;
                },
                None => {},
            }
            push_input(v, out);
        },
        _ => {},
    }
}

/// Whether content holds a block of thinking.
pub open spec fn thinks(c: Option<JsonV>) -> bool {
    match c {
        Some(JsonV::Array(a)) => exists|i: int|
            0 <= i < a.len() && json::get_str(#[trigger] a[i], "type"@) == Some("thinking"@),
        _ => false,
    }
}

/// Whether content holds a block of thinking.
pub fn has_thinking(c: Option<&Json>) -> (r: bool)
    ensures
        r == thinks(
            match c {
                Some(x) => Some(x@),
                None => None,
            },
        ),
{
    broadcast use json::lemma_model;

    match c {
        Some(Json::Array(a)) => {
            let ghost all = json::values(a@);
            let mut i: usize = 0;
            while i < a.len()
                invariant
                    i <= a@.len(),
                    all == json::values(a@),
                    match c {
                        Some(x) => x@ == JsonV::Array(all),
                        None => false,
                    },
                    forall|k: int|
                        0 <= k < i ==> json::get_str(#[trigger] all[k], "type"@) != Some(
                            "thinking"@,
                        ),
                decreases a.len() - i,
            {
                assert(all[i as int] == a@[i as int]@);
                match a[i].get_str("type") {
                    Some(t) => {
                        if text::same(t, "thinking") {
                            assert(json::get_str(all[i as int], "type"@) == Some("thinking"@));
                            return true;
                        }
                    },
                    None => {},
                }
                i += 1;
            }
            false
        },
        _ => false,
    }
}

/// Where the content of a record stands: in its message, or in the record.
pub open spec fn body_of(v: JsonV) -> JsonV {
    match json::get(v, "message"@) {
        Some(m) => if m is Object {
            m
        } else {
            v
        },
        None => v,
    }
}

/// The readable text of a record, where `c` is its row if it is a Codex record.
/// A record without content has the text of that row, or its subtype.
pub open spec fn readable(v: JsonV, c: Option<RowV>) -> Seq<char> {
    let content = json::get(body_of(v), "content"@);
    let buf = match content {
        Some(x) => prose(x, Seq::empty()),
        None => Seq::empty(),
    };
    if buf.len() > 0 {
        buf
    } else if json::get(v, "payload"@) is Some {
        match c {
            Some(r) => if r.text.len() > 0 {
                r.text
            } else {
                text::or_empty(r.target)
            },
            None => buf,
        }
    } else {
        match json::get_str(v, "subtype"@) {
            Some(s) => s,
            None => if thinks(content) {
                "(thinking)"@
            } else {
                buf
            },
        }
    }
}

fn body<'a>(v: &'a Json) -> (r: &'a Json)
    requires
        json::strict(v@),
    ensures
        r@ == body_of(v@),
        json::strict(r@),
{
    broadcast use json::lemma_model;

    match v {
        Json::Object(ms) => match json::find_index(ms, "message") {
            Some(i) => {
                proof {
                    lemma_strict_member(v@, i as int);
                }
                let m = &ms[i].1;
                match m {
                    Json::Object(_) => m,
                    _ => v,
                }
            },
            None => v,
        },
        _ => v,
    }
}

/// The readable text of a record, where `c` is its row if it is a Codex record.
pub fn readable_text(v: &Json, c: &Option<Row>) -> (r: String)
    requires
        json::strict(v@),
    ensures
        r@ == readable(
            v@,
            match c {
                Some(x) => Some(x@),
                None => None,
            },
        ),
{
    broadcast use json::lemma_model;

    let mut buf = String::new();
    assert(buf@ =~= Seq::empty());
    let b = body(v);
    match b {
        Json::Object(ms) => match json::find_index(ms, "content") {
            Some(i) => {
                proof {
                    lemma_strict_member(b@, i as int);
                }
                collect_text(&ms[i].1, &mut buf);
            },
            None => {},
        },
        _ => {},
    }
    if buf.as_str().unicode_len() > 0 {
        return buf;
    }
    assert(buf@ =~= Seq::empty());
    if v.get("payload").is_some() {
        match c {
            Some(x) => if x.text.as_str().unicode_len() > 0 {
                x.text.clone()
            } else {
                text::given_text(&x.target)
            },
            None => buf,
        }
    } else {
        match v.get_str("subtype") {
            Some(s) => s.to_owned(),
            None => if has_thinking(b.get("content")) {
                "(thinking)".to_owned()
            } else {
                buf
            },
        }
    }
}

/// The bytes of a record, if they are text.
pub open spec fn as_text(raw: Seq<u8>) -> Seq<u8> {
    if valid_utf8(raw) {
        raw
    } else {
        Seq::empty()
    }
}

/// The start of a record on one line, where `v` is the document it holds.
pub open spec fn preview_of(raw: Seq<u8>, v: Option<JsonV>, c: Option<RowV>, cap: int) -> Seq<
    char,
> {
    match v {
        Some(x) => if json::strict(x) {
            text::ellipsis(text::join(text::words(readable(x, c)), " "@), cap)
        } else {
            text::lossy(cut(raw, cap))
        },
        None => text::lossy(cut(raw, cap)),
    }
}

/// The first `n` bytes.
pub open spec fn cut(b: Seq<u8>, n: int) -> Seq<u8> {
    if b.len() <= n {
        b
    } else {
        b.take(n)
    }
}

/// The start of a record on one line, where `v` is the document it holds and `c`
/// its row if it is a Codex record.
pub fn preview_line(raw: &[u8], v: &Option<Json>, c: &Option<Row>, cap: usize) -> (r: String)
    ensures
        r@ == preview_of(
            raw@,
            match v {
                Some(x) => Some(x@),
                None => None,
            },
            match c {
                Some(x) => Some(x@),
                None => None,
            },
            cap as int,
        ),
{
    match v {
        Some(x) => {
            if x.is_strict() {
                let s = readable_text(x, c);
                let words = text::split_words(&text::chars_of(s.as_str()));
                return text::ellipsis_string(text::join_chars(&words, " ").as_str(), cap);
            }
        },
        None => {},
    }
    if raw.len() <= cap {
        text::from_utf8_lossy(raw)
    } else {
        let part = slice_subrange(raw, 0, cap);
        assert(part@ =~= raw@.take(cap as int));
        text::from_utf8_lossy(part)
    }
}

/// The start of a record on one line.
pub fn preview(raw: &[u8], cap: usize) -> (r: String)
    ensures
        r@ == preview_of(
            raw@,
            json::document(raw@),
            codex::document_row(json::document(as_text(raw@)), 0, 0, 0),
            cap as int,
        ),
{
    let v = json::parse(raw);
    let c = match text::from_utf8(raw) {
        Some(s) => codex::codex(s, 0, 0, 0),
        None => {
            proof {
                reveal_strlit("");
            }
            assert(""@ =~= Seq::empty());
            assert(encode_utf8(""@) =~= Seq::empty());
            codex::codex("", 0, 0, 0)
        },
    };
    preview_line(raw, &v, &c, cap)
}

// ---------------------------------------------------------------------------
// What a preview shows
// ---------------------------------------------------------------------------

proof fn lemma_prose_text(v: JsonV, s: Seq<char>, out: Seq<char>)
    requires
        v == JsonV::Str(s) || json::get(v, "text"@) == Some(JsonV::Str(s)) || (json::get(v, "text"@)
            is None && json::get(v, "thinking"@) == Some(JsonV::Str(s))) || (json::get(v, "text"@)
            is None && json::get(v, "thinking"@) is None && json::get(v, "content"@) == Some(
            JsonV::Str(s),
        )),
    ensures
        prose(v, out) == codex::spaced(out, s),
{
    match v {
        JsonV::Object(ms) => {
            let t = json::last_at(ms, "text"@);
            let h = json::last_at(ms, "thinking"@);
            let c = json::last_at(ms, "content"@);
            assert(prose(JsonV::Str(s), out) == codex::spaced(out, s));
            json::law_lookup(ms, ms.last(), "text"@);
            json::law_lookup(ms, ms.last(), "thinking"@);
            json::law_lookup(ms, ms.last(), "content"@);
        },
        _ => {},
    }
}

/// The items of a list each say something.
pub open spec fn says(v: JsonV, s: Seq<char>) -> bool {
    v == JsonV::Str(s) || json::get(v, "text"@) == Some(JsonV::Str(s)) || (json::get(v, "text"@)
        is None && json::get(v, "thinking"@) == Some(JsonV::Str(s))) || (json::get(v, "text"@)
        is None && json::get(v, "thinking"@) is None && json::get(v, "content"@) == Some(
        JsonV::Str(s),
    ))
}

#[verifier::spinoff_prover]
#[verifier::rlimit(60)]
proof fn lemma_prose_all(a: Seq<JsonV>, ss: Seq<Seq<char>>)
    requires
        a.len() == ss.len(),
        forall|i: int| 0 <= i < ss.len() ==> (#[trigger] ss[i]).len() > 0,
        forall|i: int| 0 <= i < a.len() ==> says(#[trigger] a[i], ss[i]),
    ensures
        prose_all(a, Seq::empty()) == text::join(ss, " "@),
        prose(JsonV::Array(a), Seq::empty()) == text::join(ss, " "@),
        ss.len() > 0 ==> text::join(ss, " "@).len() > 0,
    decreases a.len(),
{
    reveal_strlit(" ");
    text::law_join_appends(Seq::empty(), Seq::empty(), " "@);
    if a.len() == 0 {
        assert(ss =~= Seq::empty());
    } else {
        let d = a.drop_last();
        let e = ss.drop_last();
        let n = a.len() - 1;
        assert forall|i: int| 0 <= i < d.len() implies says(#[trigger] d[i], e[i]) by {
            assert(d[i] == a[i] && e[i] == ss[i]);
        }
        assert forall|i: int| 0 <= i < e.len() implies (#[trigger] e[i]).len() > 0 by {
            assert(e[i] == ss[i]);
        }
        lemma_prose_all(d, e);
        let out = text::join(e, " "@);
        let s = ss[n];
        assert(ss =~= e.push(s));
        text::law_join_appends(e, s, " "@);
        assert(says(a[n], ss[n]));
        lemma_prose_text(a[n], s, out);
        assert(prose_all(a, Seq::empty()) == prose(a[n], prose_all(d, Seq::empty())));
        if e.len() == 0 {
            assert(e =~= Seq::empty());
            assert(ss =~= seq![s]);
        } else {
            assert(out.push(' ') + s =~= out + " "@ + s);
        }
    }
    assert(prose(JsonV::Array(a), Seq::empty()) == prose_all(a, Seq::empty()));
}

/// What a message says is what is shown of it: a string as it is, and of a list
/// all that its items say, with a blank between them.
#[verifier::spinoff_prover]
#[verifier::rlimit(60)]
pub proof fn law_message_is_shown(
    v: JsonV,
    m: JsonV,
    c: Option<RowV>,
    s: Seq<char>,
    a: Seq<JsonV>,
    ss: Seq<Seq<char>>,
)
    requires
        json::get(v, "message"@) == Some(m),
        m is Object,
        s.len() > 0,
        a.len() == ss.len(),
        ss.len() > 0,
        forall|i: int| 0 <= i < ss.len() ==> (#[trigger] ss[i]).len() > 0,
        forall|i: int| 0 <= i < a.len() ==> says(#[trigger] a[i], ss[i]),
    ensures
        json::get(m, "content"@) == Some(JsonV::Str(s)) ==> readable(v, c) == s,
        json::get(m, "content"@) == Some(JsonV::Array(a)) ==> readable(v, c) == text::join(
            ss,
            " "@,
        ),
{
    lemma_prose_text(JsonV::Str(s), s, Seq::empty());
    lemma_prose_all(a, ss);
}

/// A record without content of its own: of a Codex record its text is shown, or
/// else what it works on; of any other its subtype.
pub proof fn law_other_records_are_shown(v: JsonV, c: Option<RowV>, s: Seq<char>)
    requires
        json::get(v, "message"@) is None,
        json::get(v, "content"@) is None,
    ensures
        json::get(v, "payload"@) is Some ==> (c matches Some(r) ==> (r.text.len() > 0 ==> readable(
            v,
            c,
        ) == r.text) && (r.text.len() == 0 ==> (r.target matches Some(t) ==> readable(v, c) == t))),
        json::get(v, "payload"@) is None && json::get(v, "subtype"@) == Some(JsonV::Str(s))
            ==> readable(v, c) == s,
{
}

/// A preview of a record that could be read is on one line and no longer than
/// asked for, but for the ellipsis; of one that could not it is the start of its
/// bytes.
#[verifier::spinoff_prover]
#[verifier::rlimit(60)]
pub proof fn law_preview(raw: Seq<u8>, v: Option<JsonV>, c: Option<RowV>, cap: int)
    requires
        cap >= 0,
    ensures
        v is None ==> preview_of(raw, v, c, cap) == text::lossy(
            if raw.len() <= cap {
                raw
            } else {
                raw.take(cap)
            },
        ),
        v matches Some(x) ==> json::strict(x) ==> preview_of(raw, v, c, cap).len() <= cap + 1,
        v matches Some(x) ==> json::strict(x) && readable(x, c).len() <= cap && readable(
            x,
            c,
        ).len() > 0 && (forall|i: int|
            0 <= i < readable(x, c).len() ==> !text::is_ws(#[trigger] readable(x, c)[i]))
            ==> preview_of(raw, v, c, cap) == readable(x, c),
{
    match v {
        Some(x) => {
            let r = readable(x, c);
            let j = text::join(text::words(r), " "@);
            text::law_cut(j, cap);
            text::law_words(r, ' ', Seq::empty());
            text::law_join_appends(Seq::empty(), r, " "@);
        },
        None => {},
    }
}

/// A tool call that says nothing else is shown by the strings of its input, one
/// after the other.
#[verifier::spinoff_prover]
#[verifier::rlimit(60)]
pub proof fn law_call_is_shown(
    ms: Seq<(Seq<char>, JsonV)>,
    k: Seq<char>,
    s: Seq<char>,
    a: Seq<(Seq<char>, JsonV)>,
    v: JsonV,
    out: Seq<char>,
)
    requires
        json::lookup(ms, "text"@) is None,
        json::lookup(ms, "thinking"@) is None,
        json::lookup(ms, "content"@) is None,
    ensures
        json::lookup(ms, "type"@) == Some(JsonV::Str("tool_use"@)) && json::lookup(ms, "input"@)
            == Some(JsonV::Object(seq![(k, JsonV::Str(s))])) ==> prose(
            JsonV::Object(ms),
            Seq::empty(),
        ) == s,
        json::lookup(ms, "type"@) is None ==> prose(JsonV::Object(ms), out) == out,
        with_strings(a.push((k, JsonV::Str(s))), out) == (if with_strings(a, out).len() == 0 {
            s
        } else {
            with_strings(a, out) + seq![' '] + s
        }),
        !(v is Str) ==> with_strings(a.push((k, v)), out) == with_strings(a, out),
{
    let one = seq![(k, JsonV::Str(s))];
    let none = Seq::<(Seq<char>, JsonV)>::empty();
    assert(a.push((k, JsonV::Str(s))).drop_last() =~= a);
    assert(a.push((k, v)).drop_last() =~= a);
    assert(with_strings(a, out).push(' ') + s =~= with_strings(a, out) + seq![' '] + s);
    assert(one.drop_last() =~= none);
    assert(record::settled(none) =~= none);
    assert(record::put(none, (k, JsonV::Str(s))) =~= one);
    assert(record::settled(one) == one);
    assert(with_strings(none, Seq::empty()) =~= Seq::empty());
    assert(with_strings(one, Seq::empty()) == s);
}

/// A message that only thinks is shown as one that does.
pub proof fn law_thinking_is_shown(v: JsonV, c: Option<RowV>, a: Seq<JsonV>, i: int)
    requires
        json::get(v, "message"@) is None,
        json::get(v, "content"@) == Some(JsonV::Array(a)),
        0 <= i < a.len(),
        json::get(a[i], "type"@) == Some(JsonV::Str("thinking"@)),
        prose(JsonV::Array(a), Seq::empty()).len() == 0,
        json::get(v, "payload"@) is None,
        json::get(v, "subtype"@) is None,
    ensures
        readable(v, c) == "(thinking)"@,
{
    assert(json::get_str(a[i], "type"@) == Some("thinking"@));
}

} // verus!
