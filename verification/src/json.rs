//! JSON values read from bytes.
//!
//! `serde_json` finds where a value ends, decodes strings and converts numbers.
//! What lies between, the commas and braces of arrays and objects, is walked
//! here, so that every member of an object is seen, a repeated one too.
//!
//! A value can be well formed and still have no content: a string with an
//! unpaired surrogate, a number out of range, an object with such a string for
//! a key, or a container nested too deep. Such a value is `Bad`; whether that
//! matters depends on whether the reader looks at it.

use crate::text;
use vstd::prelude::*;
use vstd::slice::*;
use vstd::utf8::*;

verus! {

/// A number: a non-negative integer, a negative integer, or the bits of a
/// binary64 number.
#[derive(Clone, Copy, Debug, PartialEq, Eq, Structural)]
pub enum Num {
    UInt(u64),
    Int(i64),
    Float(u64),
}

/// A JSON value. Members stand in the order of the text, repeated keys included.
#[derive(Debug)]
pub enum Json {
    Null,
    Bool(bool),
    Num(Num),
    Str(String),
    Array(Vec<Json>),
    Object(Vec<(String, Json)>),
    Bad,
}

/// What a `Json` value stands for.
pub enum JsonV {
    Null,
    Bool(bool),
    Num(Num),
    Str(Seq<char>),
    Array(Seq<JsonV>),
    Object(Seq<(Seq<char>, JsonV)>),
    Bad,
}

impl Json {
    pub open spec fn model(self) -> JsonV
        decreases self,
    {
        match self {
            Json::Null => JsonV::Null,
            Json::Bool(b) => JsonV::Bool(b),
            Json::Num(n) => JsonV::Num(n),
            Json::Str(s) => JsonV::Str(s@),
            Json::Array(a) => JsonV::Array(
                Seq::new(
                    a@.len(),
                    |i: int|
                        if 0 <= i < a@.len() {
                            a@[i].model()
                        } else {
                            JsonV::Null
                        },
                ),
            ),
            Json::Object(a) => JsonV::Object(
                Seq::new(
                    a@.len(),
                    |i: int|
                        if 0 <= i < a@.len() {
                            (a@[i].0@, a@[i].1.model())
                        } else {
                            (Seq::empty(), JsonV::Null)
                        },
                ),
            ),
            Json::Bad => JsonV::Bad,
        }
    }
}

impl View for Json {
    type V = JsonV;

    open spec fn view(&self) -> JsonV {
        self.model()
    }
}

/// The values of some items.
pub open spec fn values(a: Seq<Json>) -> Seq<JsonV> {
    Seq::new(a.len(), |i: int| a[i]@)
}

/// The keys and values of some members.
pub open spec fn members_of(a: Seq<(String, Json)>) -> Seq<(Seq<char>, JsonV)> {
    Seq::new(a.len(), |i: int| (a[i].0@, a[i].1@))
}

/// What a value stands for, by its kind.
pub broadcast proof fn lemma_model(v: Json)
    ensures
        #[trigger] v.model() == (match v {
            Json::Null => JsonV::Null,
            Json::Bool(b) => JsonV::Bool(b),
            Json::Num(n) => JsonV::Num(n),
            Json::Str(s) => JsonV::Str(s@),
            Json::Array(a) => JsonV::Array(values(a@)),
            Json::Object(a) => JsonV::Object(members_of(a@)),
            Json::Bad => JsonV::Bad,
        }),
{
    match v {
        Json::Array(a) => {
            assert(v.model()->Array_0 =~= values(a@));
        },
        Json::Object(a) => {
            assert(v.model()->Object_0 =~= members_of(a@));
        },
        _ => {},
    }
}

/// No part of the value is `Bad`.
pub open spec fn strict(v: JsonV) -> bool
    decreases v,
{
    match v {
        JsonV::Bad => false,
        JsonV::Array(a) => forall|i: int| 0 <= i < a.len() ==> strict(#[trigger] a[i]),
        JsonV::Object(a) => forall|i: int| 0 <= i < a.len() ==> strict((#[trigger] a[i]).1),
        _ => true,
    }
}

/// A part that is not strict spoils the whole.
proof fn lemma_part(v: JsonV, i: int)
    requires
        match v {
            JsonV::Array(a) => 0 <= i < a.len() && !strict(a[i]),
            JsonV::Object(a) => 0 <= i < a.len() && !strict(a[i].1),
            _ => false,
        },
    ensures
        !strict(v),
{
}

// ---------------------------------------------------------------------------
// What serde_json tells of a text
// ---------------------------------------------------------------------------

/// The offset behind the JSON value at the front of a text, white space skipped.
/// `None` where no well-formed value stands there.
pub uninterp spec fn leading(b: Seq<u8>) -> Option<nat>;

/// A character that is JSON's white space.
pub open spec fn pads(c: char) -> bool {
    c == ' ' || c == '\n' || c == '\t' || c == '\r'
}

/// A text without JSON's white space in front.
pub open spec fn past_padding(v: Seq<char>) -> Seq<char>
    decreases v.len(),
{
    if v.len() > 0 && pads(v[0]) {
        past_padding(v.drop_first())
    } else {
        v
    }
}

/// A text without JSON's white space behind.
pub open spec fn before_padding(v: Seq<char>) -> Seq<char>
    decreases v.len(),
{
    if v.len() > 0 && pads(v.last()) {
        before_padding(v.drop_last())
    } else {
        v
    }
}

/// The string that a JSON string literal denotes, white space around it left out.
pub open spec fn string_value(b: Seq<u8>) -> Option<Seq<char>> {
    if valid_utf8(b) {
        text::json_string(before_padding(past_padding(decode_utf8(b))))
    } else {
        None
    }
}

/// The number that a JSON number literal denotes, as a signed integer, as an
/// unsigned integer and as the bits of a binary64 number, where it is one.
pub uninterp spec fn number_value(b: Seq<u8>) -> Option<(Option<i64>, Option<u64>, Option<u64>)>;

/// Trusted: reads the first value of a `serde_json::StreamDeserializer` as an
/// `IgnoredAny`, which checks the value without decoding it. The deserializer
/// skips white space, and stops right behind the value, which has at least one
/// byte.
#[verifier::external_body]
fn leading_value(b: &[u8]) -> (r: Option<usize>)
    ensures
        match r {
            Some(e) => leading(b@) == Some(e as nat) && ws_end(b@, 0) < e <= b@.len(),
            None => leading(b@) is None,
        },
{
    let mut it = serde_json::Deserializer::from_slice(b).into_iter::<serde::de::IgnoredAny>();
    match it.next() {
        Some(Ok(_)) => Some(it.byte_offset()),
        _ => None,
    }
}

/// Trusted: calls `serde_json::from_slice` for a `String`. It skips white space
/// around one string literal, decodes the escapes of the literal, and fails on
/// anything else: bytes that are not UTF-8, a control character, an escape that
/// JSON does not have, an unpaired surrogate.
#[verifier::external_body]
fn decode_string(b: &[u8]) -> (r: Option<String>)
    ensures
        match r {
            Some(s) => string_value(b@) == Some(s@),
            None => string_value(b@) is None,
        },
{
    serde_json::from_slice::<String>(b).ok()
}

/// Trusted: calls `serde_json::from_slice` for a `Number` and asks it for the
/// integer or the binary64 number that it holds. It fails where the number is
/// out of range.
#[verifier::external_body]
fn decode_number(b: &[u8]) -> (r: Option<(Option<i64>, Option<u64>, Option<u64>)>)
    ensures
        r == number_value(b@),
{
    match serde_json::from_slice::<serde_json::Number>(b) {
        Ok(n) => Some((n.as_i64(), n.as_u64(), n.as_f64().map(|f| f.to_bits()))),
        Err(_) => None,
    }
}

/// What is written as JSON for a string, `serde_json` reads as that string.
pub proof fn law_quote_decodes(s: Seq<char>)
    ensures
        string_value(encode_utf8(text::json_quote(s))) == Some(s),
{
    let q = text::json_quote(s);
    encode_utf8_valid_utf8(q);
    encode_utf8_decode_utf8(q);
    text::law_quote_reads_back(s);
    assert(past_padding(q) == q);
    assert(before_padding(q) == q);
}

// ---------------------------------------------------------------------------
// Walking a text
// ---------------------------------------------------------------------------

/// JSON's white space.
pub open spec fn blank(c: u8) -> bool {
    c == 0x20 || c == 0x0a || c == 0x09 || c == 0x0d
}

/// The first index from `i` on that holds no white space.
pub open spec fn ws_end(b: Seq<u8>, i: int) -> int
    decreases b.len() - i,
{
    if 0 <= i < b.len() && blank(b[i]) {
        ws_end(b, i + 1)
    } else {
        i
    }
}

fn skip_ws(b: &[u8], from: usize) -> (r: usize)
    requires
        from <= b@.len(),
    ensures
        r == ws_end(b@, from as int),
        from <= r <= b@.len(),
{
    let mut i: usize = from;
    while i < b.len() && (b[i] == 0x20 || b[i] == 0x0a || b[i] == 0x09 || b[i] == 0x0d)
        invariant
            from <= i <= b@.len(),
            ws_end(b@, from as int) == ws_end(b@, i as int),
        decreases b.len() - i,
    {
        i += 1;
    }
    i
}

/// The value that starts at index `i`, white space skipped: where it starts and
/// where it ends. It is text in UTF-8.
pub open spec fn value_at(b: Seq<u8>, i: int) -> Option<(int, int)> {
    match leading(b.skip(i)) {
        Some(e) => {
            let s = i + ws_end(b.skip(i), 0);
            if i <= s < i + e <= b.len() && valid_utf8(b.subrange(s, i + e)) {
                Some((s, i + e))
            } else {
                None
            }
        },
        None => None,
    }
}

fn find_value(b: &[u8], i: usize) -> (r: Option<(usize, usize)>)
    requires
        i <= b@.len(),
    ensures
        match r {
            Some((s, e)) => value_at(b@, i as int) == Some((s as int, e as int)) && i <= s < e
                <= b@.len(),
            None => value_at(b@, i as int) is None,
        },
{
    let rest = slice_subrange(b, i, b.len());
    assert(rest@ == b@.skip(i as int));
    match leading_value(rest) {
        Some(e) => {
            let s: usize = skip_ws(rest, 0);
            assert(rest@.subrange(s as int, e as int) =~= b@.subrange(i + s, i + e));
            match text::from_utf8(slice_subrange(rest, s, e)) {
                Some(_) => Some((i + s, i + e)),
                None => None,
            }
        },
        None => None,
    }
}

/// The texts of the items of an array, from index `i` on. Every item is followed
/// by a comma, or by the bracket that ends the array.
pub open spec fn items(b: Seq<u8>, i: int) -> Option<Seq<Seq<u8>>>
    decreases b.len() - i,
{
    match value_at(b, i) {
        Some((s, e)) => {
            let z = ws_end(b, e);
            if !(i < z < b.len()) {
                None
            } else if b[z] == 0x5d {
                Some(seq![b.subrange(s, e)])
            } else if b[z] == 0x2c {
                match items(b, z + 1) {
                    Some(rest) => Some(seq![b.subrange(s, e)] + rest),
                    None => None,
                }
            } else {
                None
            }
        },
        None => None,
    }
}

/// The texts of the keys and values of an object, from index `i` on. A colon
/// stands between a key and its value, and every value is followed by a comma,
/// or by the brace that ends the object.
pub open spec fn members(b: Seq<u8>, i: int) -> Option<Seq<(Seq<u8>, Seq<u8>)>>
    decreases b.len() - i,
{
    match value_at(b, i) {
        Some((ks, ke)) => {
            let c = ws_end(b, ke);
            if !(i < c < b.len()) || b[c] != 0x3a {
                None
            } else {
                match value_at(b, c + 1) {
                    Some((s, e)) => {
                        let z = ws_end(b, e);
                        let one = (b.subrange(ks, ke), b.subrange(s, e));
                        if !(i < z < b.len()) {
                            None
                        } else if b[z] == 0x7d {
                            Some(seq![one])
                        } else if b[z] == 0x2c {
                            match members(b, z + 1) {
                                Some(rest) => Some(seq![one] + rest),
                                None => None,
                            }
                        } else {
                            None
                        }
                    },
                    None => None,
                }
            }
        },
        None => None,
    }
}

/// The texts of the items of an array.
pub open spec fn array_items(b: Seq<u8>) -> Option<Seq<Seq<u8>>> {
    let i = ws_end(b, 1);
    if i < b.len() && b[i] == 0x5d {
        Some(Seq::empty())
    } else {
        items(b, 1)
    }
}

/// The texts of the keys and values of an object.
pub open spec fn object_members(b: Seq<u8>) -> Option<Seq<(Seq<u8>, Seq<u8>)>> {
    let i = ws_end(b, 1);
    if i < b.len() && b[i] == 0x7d {
        Some(Seq::empty())
    } else {
        members(b, 1)
    }
}

/// A range of indices of a text.
#[derive(Clone, Copy, Debug)]
struct Span {
    start: usize,
    end: usize,
}

spec fn span_ok(b: Seq<u8>, s: Span) -> bool {
    s.start < s.end <= b.len()
}

spec fn spanned(b: Seq<u8>, v: Seq<Span>) -> Seq<Seq<u8>> {
    Seq::new(v.len(), |i: int| b.subrange(v[i].start as int, v[i].end as int))
}

spec fn spanned_pairs(b: Seq<u8>, v: Seq<(Span, Span)>) -> Seq<(Seq<u8>, Seq<u8>)> {
    Seq::new(
        v.len(),
        |i: int|
            (
                b.subrange(v[i].0.start as int, v[i].0.end as int),
                b.subrange(v[i].1.start as int, v[i].1.end as int),
            ),
    )
}

/// The items of an array, as ranges of its text.
fn walk_items(b: &[u8]) -> (r: Option<Vec<Span>>)
    requires
        b@.len() > 0,
    ensures
        match r {
            Some(v) => array_items(b@) == Some(spanned(b@, v@)) && forall|i: int|
                0 <= i < v@.len() ==> span_ok(b@, #[trigger] v@[i]),
            None => array_items(b@) is None,
        },
{
    let mut out: Vec<Span> = Vec::new();
    let j: usize = skip_ws(b, 1);
    if j < b.len() && b[j] == 0x5d {
        assert(spanned(b@, out@) == Seq::<Seq<u8>>::empty());
        return Some(out);
    }
    let mut i: usize = 1;
    assert(items(b@, 1) matches Some(rest) ==> spanned(b@, out@) + rest == rest);
    loop
        invariant
            i <= b@.len(),
            match items(b@, i as int) {
                Some(rest) => array_items(b@) == Some(spanned(b@, out@) + rest),
                None => array_items(b@) is None,
            },
            forall|k: int| 0 <= k < out@.len() ==> span_ok(b@, #[trigger] out@[k]),
        decreases b.len() - i,
    {
        match find_value(b, i) {
            None => {
                return None;
            },
            Some((s, e)) => {
                let z: usize = skip_ws(b, e);
                if z >= b.len() {
                    return None;
                }
                let ghost before = spanned(b@, out@);
                let ghost one = b@.subrange(s as int, e as int);
                out.push(Span { start: s, end: e });
                assert(spanned(b@, out@) == before.push(one));
                if b[z] == 0x5d {
                    assert(before + seq![one] == spanned(b@, out@));
                    return Some(out);
                }
                if b[z] != 0x2c {
                    return None;
                }
                assert(items(b@, z + 1) matches Some(rest) ==> before + (seq![one] + rest)
                    == spanned(b@, out@) + rest);
                i = z + 1;
            },
        }
    }
}

/// The members of an object, as ranges of its text.
fn walk_members(b: &[u8]) -> (r: Option<Vec<(Span, Span)>>)
    requires
        b@.len() > 0,
    ensures
        match r {
            Some(v) => object_members(b@) == Some(spanned_pairs(b@, v@)) && forall|i: int|
                0 <= i < v@.len() ==> span_ok(b@, (#[trigger] v@[i]).0) && span_ok(b@, v@[i].1),
            None => object_members(b@) is None,
        },
{
    let mut out: Vec<(Span, Span)> = Vec::new();
    let j: usize = skip_ws(b, 1);
    if j < b.len() && b[j] == 0x7d {
        assert(spanned_pairs(b@, out@) == Seq::<(Seq<u8>, Seq<u8>)>::empty());
        return Some(out);
    }
    let mut i: usize = 1;
    assert(members(b@, 1) matches Some(rest) ==> spanned_pairs(b@, out@) + rest == rest);
    loop
        invariant
            i <= b@.len(),
            match members(b@, i as int) {
                Some(rest) => object_members(b@) == Some(spanned_pairs(b@, out@) + rest),
                None => object_members(b@) is None,
            },
            forall|k: int|
                0 <= k < out@.len() ==> span_ok(b@, (#[trigger] out@[k]).0) && span_ok(
                    b@,
                    out@[k].1,
                ),
        decreases b.len() - i,
    {
        match find_value(b, i) {
            None => {
                return None;
            },
            Some((ks, ke)) => {
                let c: usize = skip_ws(b, ke);
                if c >= b.len() || b[c] != 0x3a {
                    return None;
                }
                match find_value(b, c + 1) {
                    None => {
                        return None;
                    },
                    Some((s, e)) => {
                        let z: usize = skip_ws(b, e);
                        if z >= b.len() {
                            return None;
                        }
                        let ghost before = spanned_pairs(b@, out@);
                        let ghost one = (
                            b@.subrange(ks as int, ke as int),
                            b@.subrange(s as int, e as int),
                        );
                        out.push((Span { start: ks, end: ke }, Span { start: s, end: e }));
                        assert(spanned_pairs(b@, out@) == before.push(one));
                        if b[z] == 0x7d {
                            assert(before + seq![one] == spanned_pairs(b@, out@));
                            return Some(out);
                        }
                        if b[z] != 0x2c {
                            return None;
                        }
                        assert(members(b@, z + 1) matches Some(rest) ==> before + (seq![one] + rest)
                            == spanned_pairs(b@, out@) + rest);
                        i = z + 1;
                    },
                }
            },
        }
    }
}

// ---------------------------------------------------------------------------
// Reading a value
// ---------------------------------------------------------------------------

/// The number that a number literal denotes.
pub open spec fn number(b: Seq<u8>) -> JsonV {
    match number_value(b) {
        Some((_, Some(u), _)) => JsonV::Num(Num::UInt(u)),
        Some((Some(i), None, _)) => JsonV::Num(Num::Int(i)),
        Some((None, None, Some(f))) => JsonV::Num(Num::Float(f)),
        _ => JsonV::Bad,
    }
}

/// All keys denote strings.
pub open spec fn keys_readable(ms: Seq<(Seq<u8>, Seq<u8>)>) -> bool {
    forall|i: int| 0 <= i < ms.len() ==> string_value((#[trigger] ms[i]).0) is Some
}

/// The value that the text of a well-formed JSON value denotes, where containers
/// may nest `room` deep.
pub open spec fn read(b: Seq<u8>, room: nat) -> JsonV
    decreases room,
{
    if b.len() == 0 {
        JsonV::Bad
    } else if b[0] == 0x7b {
        if room == 0 {
            JsonV::Bad
        } else {
            match object_members(b) {
                Some(ms) => if keys_readable(ms) {
                    JsonV::Object(
                        Seq::new(
                            ms.len(),
                            |i: int|
                                (string_value(ms[i].0)->0, read(ms[i].1, (room - 1) as nat)),
                        ),
                    )
                } else {
                    JsonV::Bad
                },
                None => JsonV::Bad,
            }
        }
    } else if b[0] == 0x5b {
        if room == 0 {
            JsonV::Bad
        } else {
            match array_items(b) {
                Some(xs) => JsonV::Array(
                    Seq::new(xs.len(), |i: int| read(xs[i], (room - 1) as nat)),
                ),
                None => JsonV::Bad,
            }
        }
    } else if b[0] == 0x22 {
        match string_value(b) {
            Some(s) => JsonV::Str(s),
            None => JsonV::Bad,
        }
    } else if b[0] == 0x74 {
        JsonV::Bool(true)
    } else if b[0] == 0x66 {
        JsonV::Bool(false)
    } else if b[0] == 0x6e {
        JsonV::Null
    } else {
        number(b)
    }
}

/// Containers nest at most this deep.
pub const DEPTH: usize = 127;

/// The value of a text that holds one JSON value and white space around it.
pub open spec fn document(b: Seq<u8>) -> Option<JsonV> {
    match value_at(b, 0) {
        Some((s, e)) => if ws_end(b, e) == b.len() {
            Some(read(b.subrange(s, e), DEPTH as nat))
        } else {
            None
        },
        None => None,
    }
}

fn read_number(b: &[u8]) -> (r: Json)
    ensures
        r@ == number(b@),
{
    broadcast use lemma_model;

    match decode_number(b) {
        Some((_, Some(u), _)) => Json::Num(Num::UInt(u)),
        Some((Some(i), None, _)) => Json::Num(Num::Int(i)),
        Some((None, None, Some(f))) => Json::Num(Num::Float(f)),
        _ => Json::Bad,
    }
}

fn read_array(b: &[u8], room: usize) -> (r: Json)
    requires
        b@.len() > 0,
        b@[0] == 0x5b,
        room > 0,
    ensures
        r@ == read(b@, room as nat),
    decreases room, 0nat,
{
    broadcast use lemma_model;

    match walk_items(b) {
        None => Json::Bad,
        Some(spans) => {
            let ghost xs = spanned(b@, spans@);
            let mut out: Vec<Json> = Vec::new();
            let mut i: usize = 0;
            while i < spans.len()
                invariant
                    i <= spans@.len(),
                    i == out@.len(),
                    room > 0,
                    xs == spanned(b@, spans@),
                    forall|k: int| 0 <= k < spans@.len() ==> span_ok(b@, #[trigger] spans@[k]),
                    forall|k: int|
                        0 <= k < i ==> (#[trigger] out@[k])@ == read(xs[k], (room - 1) as nat),
                decreases spans.len() - i,
            {
                assert(span_ok(b@, spans@[i as int]));
                let v = read_value(slice_subrange(b, spans[i].start, spans[i].end), room - 1);
                out.push(v);
                i += 1;
            }
            let r = Json::Array(out);
            assert(r@->Array_0 =~= read(b@, room as nat)->Array_0);
            r
        },
    }
}

fn read_object(b: &[u8], room: usize) -> (r: Json)
    requires
        b@.len() > 0,
        b@[0] == 0x7b,
        room > 0,
    ensures
        r@ == read(b@, room as nat),
    decreases room, 0nat,
{
    broadcast use lemma_model;

    match walk_members(b) {
        None => Json::Bad,
        Some(spans) => {
            let ghost ms = spanned_pairs(b@, spans@);
            let mut out: Vec<(String, Json)> = Vec::new();
            let mut i: usize = 0;
            while i < spans.len()
                invariant
                    i <= spans@.len(),
                    i == out@.len(),
                    room > 0,
                    b@.len() > 0,
                    b@[0] == 0x7b,
                    ms == spanned_pairs(b@, spans@),
                    object_members(b@) == Some(ms),
                    forall|k: int|
                        0 <= k < spans@.len() ==> span_ok(b@, (#[trigger] spans@[k]).0) && span_ok(
                            b@,
                            spans@[k].1,
                        ),
                    forall|k: int| 0 <= k < i ==> string_value((#[trigger] ms[k]).0) is Some,
                    forall|k: int|
                        0 <= k < i ==> (#[trigger] out@[k]).0@ == string_value(ms[k].0)->0
                            && out@[k].1@ == read(ms[k].1, (room - 1) as nat),
                decreases spans.len() - i,
            {
                assert(span_ok(b@, spans@[i as int].0));
                let (ks, vs) = spans[i];
                let key = slice_subrange(b, ks.start, ks.end);
                assert(key@ == ms[i as int].0);
                match decode_string(key) {
                    None => {
                        assert(!keys_readable(ms));
                        return Json::Bad;
                    },
                    Some(k) => {
                        let v = read_value(slice_subrange(b, vs.start, vs.end), room - 1);
                        out.push((k, v));
                    },
                }
                i += 1;
            }
            let r = Json::Object(out);
            assert(r@->Object_0 =~= read(b@, room as nat)->Object_0);
            r
        },
    }
}

/// Reads the text of a well-formed value.
fn read_value(b: &[u8], room: usize) -> (r: Json)
    ensures
        r@ == read(b@, room as nat),
    decreases room, 1nat,
{
    broadcast use lemma_model;

    if b.len() == 0 {
        return Json::Bad;
    }
    let c: u8 = b[0];
    if c == 0x7b {
        if room == 0 {
            Json::Bad
        } else {
            read_object(b, room)
        }
    } else if c == 0x5b {
        if room == 0 {
            Json::Bad
        } else {
            read_array(b, room)
        }
    } else if c == 0x22 {
        match decode_string(b) {
            Some(s) => Json::Str(s),
            None => Json::Bad,
        }
    } else if c == 0x74 {
        Json::Bool(true)
    } else if c == 0x66 {
        Json::Bool(false)
    } else if c == 0x6e {
        Json::Null
    } else {
        read_number(b)
    }
}

/// Reads a text that holds one JSON value.
pub fn parse(b: &[u8]) -> (r: Option<Json>)
    ensures
        match r {
            Some(v) => document(b@) == Some(v@),
            None => document(b@) is None,
        },
{
    match find_value(b, 0) {
        None => None,
        Some((s, e)) => {
            if skip_ws(b, e) == b.len() {
                Some(read_value(slice_subrange(b, s, e), DEPTH))
            } else {
                None
            }
        },
    }
}

// ---------------------------------------------------------------------------
// Looking into a value
// ---------------------------------------------------------------------------

/// The index of the last member with a key, or -1.
pub open spec fn last_at(ms: Seq<(Seq<char>, JsonV)>, k: Seq<char>) -> int
    decreases ms.len(),
{
    if ms.len() == 0 {
        -1
    } else if ms.last().0 == k {
        ms.len() - 1
    } else {
        last_at(ms.drop_last(), k)
    }
}

/// The value of the last member with a key.
pub open spec fn lookup(ms: Seq<(Seq<char>, JsonV)>, k: Seq<char>) -> Option<JsonV> {
    let i = last_at(ms, k);
    if 0 <= i < ms.len() {
        Some(ms[i].1)
    } else {
        None
    }
}

/// The member of an object, the last one where the key is repeated.
pub open spec fn get(v: JsonV, k: Seq<char>) -> Option<JsonV> {
    match v {
        JsonV::Object(ms) => lookup(ms, k),
        _ => None,
    }
}

/// The text of a string.
pub open spec fn str_of(v: JsonV) -> Option<Seq<char>> {
    match v {
        JsonV::Str(s) => Some(s),
        _ => None,
    }
}

/// The text of a member that is a string.
pub open spec fn get_str(v: JsonV, k: Seq<char>) -> Option<Seq<char>> {
    match get(v, k) {
        Some(x) => str_of(x),
        None => None,
    }
}

/// An integer that fits 64 signed bits.
pub open spec fn int_of(v: JsonV) -> Option<int> {
    match v {
        JsonV::Num(Num::Int(i)) => Some(i as int),
        JsonV::Num(Num::UInt(u)) => if u <= i64::MAX {
            Some(u as int)
        } else {
            None
        },
        _ => None,
    }
}

/// The index of the last member with a key.
pub fn find_index(ms: &Vec<(String, Json)>, k: &str) -> (r: Option<usize>)
    ensures
        match r {
            Some(i) => last_at(members_of(ms@), k@) == i && i < ms@.len(),
            None => last_at(members_of(ms@), k@) < 0,
        },
{
    let ghost all = members_of(ms@);
    let mut i: usize = ms.len();
    assert(all.take(ms@.len() as int) == all);
    while i > 0
        invariant
            i <= ms@.len(),
            all == members_of(ms@),
            last_at(all, k@) == last_at(all.take(i as int), k@),
        decreases i,
    {
        assert(all.take(i as int).drop_last() == all.take(i - 1));
        assert(all.take(i as int).last() == all[i - 1]);
        if text::same(ms[i - 1].0.as_str(), k) {
            return Some(i - 1);
        }
        i -= 1;
    }
    None
}

/// The last member with a key.
pub fn find_member<'a>(ms: &'a Vec<(String, Json)>, k: &str) -> (r: Option<&'a Json>)
    ensures
        match r {
            Some(x) => lookup(members_of(ms@), k@) == Some(x@),
            None => lookup(members_of(ms@), k@) is None,
        },
{
    match find_index(ms, k) {
        Some(i) => Some(&ms[i].1),
        None => None,
    }
}

impl Json {
    /// The member of an object, the last one where the key is repeated.
    pub fn get(&self, k: &str) -> (r: Option<&Json>)
        ensures
            match r {
                Some(x) => get(self@, k@) == Some(x@),
                None => get(self@, k@) is None,
            },
    {
        broadcast use lemma_model;

        match self {
            Json::Object(ms) => find_member(ms, k),
            _ => None,
        }
    }

    /// The text of a string.
    pub fn as_str(&self) -> (r: Option<&str>)
        ensures
            match r {
                Some(s) => str_of(self@) == Some(s@),
                None => str_of(self@) is None,
            },
    {
        broadcast use lemma_model;

        match self {
            Json::Str(s) => Some(s.as_str()),
            _ => None,
        }
    }

    /// The text of a member that is a string.
    pub fn get_str(&self, k: &str) -> (r: Option<&str>)
        ensures
            match r {
                Some(s) => get_str(self@, k@) == Some(s@),
                None => get_str(self@, k@) is None,
            },
    {
        match self.get(k) {
            Some(x) => x.as_str(),
            None => None,
        }
    }

    /// An integer that fits 64 signed bits.
    pub fn as_i64(&self) -> (r: Option<i64>)
        ensures
            match r {
                Some(i) => int_of(self@) == Some(i as int),
                None => int_of(self@) is None,
            },
    {
        broadcast use lemma_model;

        match self {
            Json::Num(Num::Int(i)) => Some(*i),
            Json::Num(Num::UInt(u)) => {
                if *u <= 0x7fff_ffff_ffff_ffff {
                    Some(*u as i64)
                } else {
                    None
                }
            },
            _ => None,
        }
    }

    /// Whether no part of the value is `Bad`.
    pub fn is_strict(&self) -> (r: bool)
        ensures
            r == strict(self@),
        decreases *self,
    {
        broadcast use lemma_model;

        match self {
            Json::Bad => false,
            Json::Array(a) => {
                let mut i: usize = 0;
                while i < a.len()
                    invariant
                        i <= a@.len(),
                        *self is Array,
                        self->Array_0 == *a,
                        forall|k: int| 0 <= k < i ==> strict(#[trigger] values(a@)[k]),
                    decreases a.len() - i,
                {
                    if !a[i].is_strict() {
                        assert(!strict(values(a@)[i as int]));
                        proof {
                            lemma_model(*self);
                            lemma_part(self@, i as int);
                        }
                        return false;
                    }
                    i += 1;
                }
                true
            },
            Json::Object(a) => {
                let mut i: usize = 0;
                while i < a.len()
                    invariant
                        i <= a@.len(),
                        *self is Object,
                        self->Object_0 == *a,
                        forall|k: int| 0 <= k < i ==> strict((#[trigger] members_of(a@)[k]).1),
                    decreases a.len() - i,
                {
                    if !a[i].1.is_strict() {
                        assert(!strict(members_of(a@)[i as int].1));
                        proof {
                            lemma_model(*self);
                            lemma_part(self@, i as int);
                        }
                        return false;
                    }
                    i += 1;
                }
                true
            },
            _ => true,
        }
    }

    /// A copy of the value.
    pub fn copy(&self) -> (r: Json)
        ensures
            r@ == self@,
        decreases *self,
    {
        broadcast use lemma_model;

        match self {
            Json::Null => Json::Null,
            Json::Bool(b) => Json::Bool(*b),
            Json::Num(n) => Json::Num(*n),
            Json::Str(s) => Json::Str(s.clone()),
            Json::Bad => Json::Bad,
            Json::Array(a) => {
                let mut out: Vec<Json> = Vec::new();
                let mut i: usize = 0;
                while i < a.len()
                    invariant
                        i <= a@.len(),
                        i == out@.len(),
                        *self is Array,
                        self->Array_0 == *a,
                        forall|k: int| 0 <= k < i ==> (#[trigger] out@[k])@ == a@[k]@,
                    decreases a.len() - i,
                {
                    out.push(a[i].copy());
                    i += 1;
                }
                assert(values(out@) =~= values(a@));
                Json::Array(out)
            },
            Json::Object(a) => {
                let mut out: Vec<(String, Json)> = Vec::new();
                let mut i: usize = 0;
                while i < a.len()
                    invariant
                        i <= a@.len(),
                        i == out@.len(),
                        *self is Object,
                        self->Object_0 == *a,
                        forall|k: int|
                            0 <= k < i ==> (#[trigger] out@[k]).0@ == a@[k].0@ && out@[k].1@
                                == a@[k].1@,
                    decreases a.len() - i,
                {
                    out.push((a[i].0.clone(), a[i].1.copy()));
                    i += 1;
                }
                assert(members_of(out@) =~= members_of(a@));
                Json::Object(out)
            },
        }
    }
}

// ---------------------------------------------------------------------------
// Members
// ---------------------------------------------------------------------------

/// Of members with one key the last counts, and those with other keys do not
/// matter.
pub proof fn law_lookup(ms: Seq<(Seq<char>, JsonV)>, m: (Seq<char>, JsonV), k: Seq<char>)
    ensures
        lookup(Seq::empty(), k) is None,
        m.0 == k ==> lookup(ms.push(m), k) == Some(m.1),
        m.0 != k ==> lookup(ms.push(m), k) == lookup(ms, k),
        lookup(ms, k) matches Some(v) ==> ms.contains((k, v)),
        lookup(ms, k) is None ==> forall|i: int| 0 <= i < ms.len() ==> (#[trigger] ms[i]).0 != k,
{
    assert(ms.push(m).drop_last() =~= ms);
    lemma_last_at(ms, k);
    let i = last_at(ms, k);
    if 0 <= i {
        assert(ms[i] == (k, ms[i].1));
    }
}

proof fn lemma_last_at(ms: Seq<(Seq<char>, JsonV)>, k: Seq<char>)
    ensures
        -1 <= last_at(ms, k) < ms.len(),
        last_at(ms, k) >= 0 ==> ms[last_at(ms, k)].0 == k,
        forall|j: int| last_at(ms, k) < j < ms.len() ==> (#[trigger] ms[j]).0 != k,
    decreases ms.len(),
{
    if ms.len() > 0 && ms.last().0 != k {
        let d = ms.drop_last();
        lemma_last_at(d, k);
        assert forall|j: int| last_at(ms, k) < j < ms.len() implies (#[trigger] ms[j]).0 != k by {
            if j < d.len() {
                assert(d[j] == ms[j]);
            }
        }
    }
}

/// The last member of a list is the one that is looked up.
pub proof fn lemma_lookup_last(ms: Seq<(Seq<char>, JsonV)>, k: Seq<char>)
    requires
        ms.len() > 0,
    ensures
        ms.last().0 == k ==> lookup(ms, k) == Some(ms.last().1),
        ms.last().0 != k ==> lookup(ms, k) == lookup(ms.drop_last(), k),
{
    lemma_last_at(ms, k);
    lemma_last_at(ms.drop_last(), k);
}

/// Two lists that differ in keys other than one agree on that one.
pub proof fn lemma_lookup_at(ms: Seq<(Seq<char>, JsonV)>, k: Seq<char>, i: int)
    requires
        0 <= i < ms.len(),
        ms[i].0 == k,
        forall|j: int| 0 <= j < ms.len() && j != i ==> (#[trigger] ms[j]).0 != k,
    ensures
        lookup(ms, k) == Some(ms[i].1),
{
    lemma_last_at(ms, k);
}

/// What a document is, by its first character: a string is the text that its
/// literal denotes, and `true`, `false` and `null` are what they say.
pub proof fn law_document_kinds(b: Seq<u8>)
    ensures
        document(b) matches Some(v) ==> (value_at(b, 0) matches Some((s, e)) && {
            &&& b[s] == 0x74 ==> v == JsonV::Bool(true)
            &&& b[s] == 0x66 ==> v == JsonV::Bool(false)
            &&& b[s] == 0x6e ==> v == JsonV::Null
            &&& b[s] == 0x22 ==> (string_value(b.subrange(s, e)) matches Some(t) ==> v
                == JsonV::Str(t))
            &&& v is Object ==> b[s] == 0x7b
            &&& v is Array ==> b[s] == 0x5b
        }),
{
    match value_at(b, 0) {
        Some((s, e)) => {
            let w = b.subrange(s, e);
            if w.len() > 0 {
                assert(w[0] == b[s]);
            }
        },
        None => {},
    }
}

/// An integer is read as a whole number, without a sign where it has none, and
/// anything else as a fraction.
pub proof fn law_numbers(b: Seq<u8>, i: i64, u: u64, f: u64)
    ensures
        number_value(b) == Some((None::<i64>, Some(u), None::<u64>)) || number_value(b) == Some(
            (Some(i), Some(u), Some(f)),
        ) ==> number(b) == JsonV::Num(Num::UInt(u)),
        number_value(b) == Some((Some(i), None::<u64>, Some(f))) ==> number(b) == JsonV::Num(
            Num::Int(i),
        ),
        number_value(b) == Some((None::<i64>, None::<u64>, Some(f))) ==> number(b) == JsonV::Num(
            Num::Float(f),
        ),
        u <= i64::MAX ==> int_of(JsonV::Num(Num::UInt(u))) == Some(u as int),
        u > i64::MAX ==> int_of(JsonV::Num(Num::UInt(u))) is None,
        int_of(JsonV::Num(Num::Int(i))) == Some(i as int),
        int_of(JsonV::Num(Num::Float(f))) is None,
{
}

/// A value is strict where every part of it is, down to the scalars.
pub proof fn law_strict(v: JsonV, i: int)
    ensures
        v is Null || v is Bool || v is Num || v is Str ==> strict(v),
        v is Bad ==> !strict(v),
        v matches JsonV::Array(a) ==> (strict(v) && 0 <= i < a.len() ==> strict(a[i])),
        v matches JsonV::Array(a) ==> ((forall|k: int| 0 <= k < a.len() ==> strict(#[trigger] a[k]))
            ==> strict(v)),
        v matches JsonV::Object(ms) ==> (strict(v) && 0 <= i < ms.len() ==> strict(ms[i].1)),
        v matches JsonV::Object(ms) ==> ((forall|k: int|
            0 <= k < ms.len() ==> strict((#[trigger] ms[k]).1)) ==> strict(v)),
{
}

} // verus!
