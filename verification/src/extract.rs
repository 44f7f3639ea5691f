//! From the bytes of a log to rows.
//!
//! A log holds one JSON record per line. Every line becomes a row, a reject with
//! a reason, or, if it is blank, nothing. The functions here work on bytes in
//! memory; the caller owns files and parallelism.

use crate::binary64;
use crate::civil;
use crate::codex;
use crate::json;
use crate::json::Json;
use crate::json::JsonV;
use crate::json::Num;
use crate::record;
use crate::record::BlockV;
use crate::record::ContentField;
use crate::record::ContentV;
use crate::record::InputMap;
use crate::record::MaybeStr;
use crate::record::MaybeStrV;
use crate::record::Node;
use crate::record::NodeV;
use crate::record::Present;
use crate::record::Rec;
use crate::record::RecV;
use crate::record::TsVal;
use crate::record::TsValV;
use crate::text;
use vstd::prelude::*;
use vstd::slice::*;
use vstd::string::*;
use vstd::utf8::*;

verus! {

/// Nesting beyond this is a reject, well below the depth at which the JSON
/// reader itself would give up.
pub const MAX_DEPTH: usize = 100;

/// Lines longer than this are rejects, line feed included.
pub const MAX_LINE: usize = 33_554_432;

/// A command shown as a target is cut to this many characters.
pub const CMD_CHARS: usize = 200;

// ---------------------------------------------------------------------------
// Bytes of a line
// ---------------------------------------------------------------------------

/// The six ASCII white-space bytes, vertical tab among them.
pub open spec fn is_blank(c: u8) -> bool {
    c == 0x20 || 0x09 <= c <= 0x0d
}

/// Bytes without leading white space.
pub open spec fn strip_front(b: Seq<u8>) -> Seq<u8>
    decreases b.len(),
{
    if b.len() > 0 && is_blank(b[0]) {
        strip_front(b.drop_first())
    } else {
        b
    }
}

/// Bytes without trailing white space.
pub open spec fn strip_back(b: Seq<u8>) -> Seq<u8>
    decreases b.len(),
{
    if b.len() > 0 && is_blank(b.last()) {
        strip_back(b.drop_last())
    } else {
        b
    }
}

/// Bytes without white space at either end.
pub open spec fn stripped(b: Seq<u8>) -> Seq<u8> {
    strip_back(strip_front(b))
}

fn ws(c: u8) -> (r: bool)
    ensures
        r == is_blank(c),
{
    c == 0x20 || (c >= 0x09 && c <= 0x0d)
}

/// The bytes without white space at either end.
pub fn strip_ws(b: &[u8]) -> (r: &[u8])
    ensures
        r@ == stripped(b@),
        r@.len() <= b@.len(),
{
    let mut s: usize = 0;
    assert(b@.subrange(0, b@.len() as int) == b@);
    while s < b.len() && ws(b[s])
        invariant
            s <= b.len(),
            strip_front(b@) == strip_front(b@.subrange(s as int, b@.len() as int)),
        decreases b.len() - s,
    {
        assert(b@.subrange(s as int, b@.len() as int).drop_first() == b@.subrange(
            s + 1,
            b@.len() as int,
        ));
        s += 1;
    }
    let ghost front = strip_front(b@);
    assert(front == b@.subrange(s as int, b@.len() as int));
    let mut e: usize = b.len();
    while e > s && ws(b[e - 1])
        invariant
            s <= e <= b.len(),
            strip_back(front) == strip_back(b@.subrange(s as int, e as int)),
        decreases e - s,
    {
        assert(b@.subrange(s as int, e as int).drop_last() == b@.subrange(s as int, e - 1));
        e -= 1;
    }
    slice_subrange(b, s, e)
}

/// A CRC-32 register after one more bit, lowest bit first.
pub open spec fn crc_bit(c: u32) -> u32 {
    if c & 1 == 1 {
        (c >> 1) ^ 0xedb8_8320
    } else {
        c >> 1
    }
}

/// A CRC-32 register after `n` more bits.
pub open spec fn crc_bits(c: u32, n: nat) -> u32
    decreases n,
{
    if n == 0 {
        c
    } else {
        crc_bit(crc_bits(c, (n - 1) as nat))
    }
}

/// A CRC-32 register after some bytes. It starts with all bits set.
pub open spec fn crc_register(b: Seq<u8>) -> u32
    decreases b.len(),
{
    if b.len() == 0 {
        0xffff_ffff
    } else {
        crc_bits(crc_register(b.drop_last()) ^ (b.last() as u32), 8)
    }
}

/// The CRC-32 checksum (IEEE) of some bytes.
pub open spec fn crc32(b: Seq<u8>) -> u32 {
    crc_register(b) ^ 0xffff_ffff
}

/// Trusted: calls `crc32fast::hash`, which is the CRC-32 checksum (IEEE) of the
/// bytes.
#[verifier::external_body]
fn crc(b: &[u8]) -> (r: u32)
    ensures
        r == crc32(b@),
{
    crc32fast::hash(b)
}

/// The checksum in the low 32 bits and the length in the high ones, as a signed
/// number.
pub open spec fn record_hash(b: Seq<u8>) -> int {
    let u = crc32(b) + (b.len() % 0x1_0000_0000) * 0x1_0000_0000;
    if u >= 0x8000_0000_0000_0000 {
        u - 0x1_0000_0000_0000_0000
    } else {
        u
    }
}

/// The hash of a stripped record: checksum and length.
pub fn rec_hash(b: &[u8]) -> (r: i64)
    ensures
        r == record_hash(b@),
{
    let c: u64 = crc(b) as u64;
    let n: u64 = b.len() as u64;
    let u: u64 = c | (n << 32);
    assert(u == c + (n % 0x1_0000_0000) * 0x1_0000_0000) by (bit_vector)
        requires
            c < 0x1_0000_0000,
            u == c | (n << 32),
    ;
    if u >= 0x8000_0000_0000_0000 {
        -((0xffff_ffff_ffff_ffff - u) as i64) - 1
    } else {
        u as i64
    }
}

/// Two records with one hash have one checksum, and lengths that differ by a
/// multiple of 2^32 at most.
pub proof fn law_hash_covers_length(a: Seq<u8>, b: Seq<u8>)
    requires
        record_hash(a) == record_hash(b),
    ensures
        crc32(a) == crc32(b),
        a.len() % 0x1_0000_0000 == b.len() % 0x1_0000_0000,
        a.len() < 0x1_0000_0000 && b.len() < 0x1_0000_0000 ==> a.len() == b.len(),
{
}

/// How many of some bytes are one of two.
pub open spec fn count_of(b: Seq<u8>, x: u8, y: u8) -> nat
    decreases b.len(),
{
    if b.len() == 0 {
        0
    } else {
        count_of(b.drop_last(), x, y) + if b.last() == x || b.last() == y {
            1nat
        } else {
            0nat
        }
    }
}

/// Trusted: counts what `memchr::memchr2_iter` yields, which is every position
/// that holds one of the two bytes.
#[verifier::external_body]
fn count_either(x: u8, y: u8, b: &[u8]) -> (r: usize)
    ensures
        r == count_of(b@, x, y),
{
    memchr::memchr2_iter(x, y, b).count()
}

/// The number of opening brackets, those inside strings included.
pub fn bracket_count(b: &[u8]) -> (r: usize)
    ensures
        r == count_of(b@, 0x5b, 0x7b),
{
    count_either(0x5b, 0x7b, b)
}

/// Where a scan for brackets stands: inside a string or not, behind a backslash
/// or not, how many brackets are open, and how many were open at most.
pub struct Depth {
    pub open: int,
    pub most: int,
    pub quoted: bool,
    pub escaped: bool,
}

pub open spec fn depth_step(d: Depth, c: u8) -> Depth {
    if d.quoted {
        if d.escaped {
            Depth { escaped: false, ..d }
        } else if c == 0x5c {
            Depth { escaped: true, ..d }
        } else if c == 0x22 {
            Depth { quoted: false, ..d }
        } else {
            d
        }
    } else if c == 0x22 {
        Depth { quoted: true, ..d }
    } else if c == 0x5b || c == 0x7b {
        Depth {
            open: d.open + 1,
            most: if d.open + 1 > d.most {
                d.open + 1
            } else {
                d.most
            },
            ..d
        }
    } else if c == 0x5d || c == 0x7d {
        Depth {
            open: if d.open > 0 {
                d.open - 1
            } else {
                0
            },
            ..d
        }
    } else {
        d
    }
}

pub open spec fn depth_scan(b: Seq<u8>) -> Depth
    decreases b.len(),
{
    if b.len() == 0 {
        Depth { open: 0, most: 0, quoted: false, escaped: false }
    } else {
        depth_step(depth_scan(b.drop_last()), b.last())
    }
}

/// How deep brackets nest, those inside strings left out.
pub open spec fn nesting(b: Seq<u8>) -> int {
    depth_scan(b).most
}

/// Nesting is never deeper than the number of opening brackets.
pub proof fn law_depth_bounded(b: Seq<u8>)
    ensures
        0 <= depth_scan(b).open <= count_of(b, 0x5b, 0x7b),
        0 <= nesting(b) <= count_of(b, 0x5b, 0x7b) <= b.len(),
    decreases b.len(),
{
    if b.len() > 0 {
        law_depth_bounded(b.drop_last());
    }
}

/// One more byte adds at most one level, and takes none away. Only an opening
/// bracket adds one: a closing one that closes nothing does not count.
pub proof fn law_depth_grows(b: Seq<u8>, c: u8)
    ensures
        nesting(Seq::<u8>::empty()) == 0,
        nesting(b) <= nesting(b.push(c)) <= nesting(b) + 1,
        c != 0x5b && c != 0x7b ==> nesting(b.push(c)) == nesting(b),
        0 <= depth_scan(b).open,
{
    lemma_open_within(b);
    assert(b.push(c).drop_last() =~= b);
}

proof fn lemma_open_within(b: Seq<u8>)
    ensures
        0 <= depth_scan(b).open <= depth_scan(b).most,
    decreases b.len(),
{
    if b.len() > 0 {
        lemma_open_within(b.drop_last());
    }
}

/// Every closing bracket, those inside strings left out, closes one that is
/// open. So it is in every JSON text.
pub open spec fn closes(b: Seq<u8>) -> bool
    decreases b.len(),
{
    if b.len() == 0 {
        true
    } else {
        let d = depth_scan(b.drop_last());
        closes(b.drop_last()) && ((b.last() == 0x5d || b.last() == 0x7d) && !d.quoted ==> d.open
            > 0)
    }
}

proof fn lemma_wrapped(x: u8, b: Seq<u8>)
    requires
        x == 0x5b || x == 0x7b,
        closes(b),
    ensures
        depth_scan(seq![x] + b) == (Depth {
            open: depth_scan(b).open + 1,
            most: depth_scan(b).most + 1,
            ..depth_scan(b)
        }),
    decreases b.len(),
{
    let w = seq![x] + b;
    if b.len() == 0 {
        assert(w.drop_last() =~= b);
    } else {
        lemma_wrapped(x, b.drop_last());
        lemma_open_within(b.drop_last());
        assert(w.drop_last() =~= seq![x] + b.drop_last());
    }
}

/// A value in brackets nests one level deeper than the value.
pub proof fn law_depth_of_wrapped(v: Seq<u8>)
    requires
        closes(v),
    ensures
        nesting(seq![0x5bu8] + v + seq![0x5du8]) == nesting(v) + 1,
        nesting(seq![0x7bu8] + v + seq![0x7du8]) == nesting(v) + 1,
{
    lemma_wrapped(0x5b, v);
    lemma_wrapped(0x7b, v);
    assert((seq![0x5bu8] + v + seq![0x5du8]).drop_last() =~= seq![0x5bu8] + v);
    assert((seq![0x7bu8] + v + seq![0x7du8]).drop_last() =~= seq![0x7bu8] + v);
}

/// How deep brackets nest, those inside strings left out.
pub fn max_depth(b: &[u8]) -> (r: usize)
    ensures
        r == nesting(b@),
{
    let mut d: usize = 0;
    let mut mx: usize = 0;
    let mut in_s: bool = false;
    let mut esc: bool = false;
    let mut i: usize = 0;
    while i < b.len()
        invariant
            i <= b.len(),
            depth_scan(b@.take(i as int)) == (Depth {
                open: d as int,
                most: mx as int,
                quoted: in_s,
                escaped: esc,
            }),
            d <= i,
        decreases b.len() - i,
    {
        assert(b@.take(i + 1).drop_last() == b@.take(i as int));
        let c: u8 = b[i];
        if in_s {
            if esc {
                esc = false;
            } else if c == 0x5c {
                esc = true;
            } else if c == 0x22 {
                in_s = false;
            }
        } else if c == 0x22 {
            in_s = true;
        } else if c == 0x5b || c == 0x7b {
            d += 1;
            if d > mx {
                mx = d;
            }
        } else if c == 0x5d || c == 0x7d {
            if d > 0 {
                d -= 1;
            }
        }
        i += 1;
    }
    assert(b@.take(b@.len() as int) == b@);
    mx
}

// ---------------------------------------------------------------------------
// Text
// ---------------------------------------------------------------------------

/// A text as the only item of a list, nothing if it is empty.
pub open spec fn one(s: Seq<char>) -> Seq<Seq<char>> {
    if s.len() == 0 {
        Seq::empty()
    } else {
        seq![s]
    }
}

/// The non-empty strings among the values of some members.
pub open spec fn string_values(m: Seq<(Seq<char>, JsonV)>) -> Seq<Seq<char>>
    decreases m.len(),
{
    if m.len() == 0 {
        Seq::empty()
    } else {
        string_values(m.drop_last()) + (match m.last().1 {
            JsonV::Str(s) => one(s),
            _ => Seq::empty(),
        })
    }
}

/// The pieces of text in content.
pub open spec fn pieces(c: ContentV) -> Seq<Seq<char>>
    decreases c, 1nat,
{
    match c {
        ContentV::Str(s) => one(s),
        ContentV::List(ns) => list_pieces(ns),
        _ => Seq::empty(),
    }
}

/// The pieces of text in a list of content.
pub open spec fn list_pieces(ns: Seq<NodeV>) -> Seq<Seq<char>>
    decreases ns, 0nat,
{
    if ns.len() == 0 {
        Seq::empty()
    } else {
        list_pieces(ns.drop_last()) + node_pieces(ns[ns.len() - 1])
    }
}

/// The pieces of text in an item of content. A block with a `text` has that
/// text, else its content, joined to one piece, else, in a tool call, the
/// strings among its input.
pub open spec fn node_pieces(n: NodeV) -> Seq<Seq<char>>
    decreases n, 0nat,
{
    match n {
        NodeV::Str(s) => one(s),
        NodeV::Other => Seq::empty(),
        NodeV::Block(b) => match b.text {
            MaybeStrV::Str(t) => one(t),
            _ => match b.content {
                ContentV::Str(s) => one(s),
                ContentV::List(_) => one(text::join(pieces(b.content), " "@)),
                _ => if b.btype == MaybeStrV::Str("tool_use"@) {
                    match b.input {
                        Some(m) => string_values(m),
                        None => Seq::empty(),
                    }
                } else {
                    Seq::empty()
                },
            },
        },
    }
}

/// The text of content: its pieces with a space between each two.
pub open spec fn flat_content(c: ContentV) -> Seq<char> {
    text::join(pieces(c), " "@)
}

/// Appends a text unless it is empty.
fn push_text(out: &mut Vec<String>, s: &str)
    ensures
        text::texts(final(out)@) == text::texts(old(out)@) + one(s@),
{
    if s.unicode_len() > 0 {
        out.push(s.to_owned());
    }
    assert(text::texts(out@) =~= text::texts(old(out)@) + one(s@));
}

/// Appends the non-empty strings among the values of some members.
fn push_strings(out: &mut Vec<String>, m: &Vec<(String, Json)>)
    ensures
        text::texts(final(out)@) == text::texts(old(out)@) + string_values(json::members_of(m@)),
{
    let ghost all = json::members_of(m@);
    let mut i: usize = 0;
    assert(text::texts(out@) =~= text::texts(old(out)@) + string_values(all.take(0)));
    while i < m.len()
        invariant
            i <= m@.len(),
            all == json::members_of(m@),
            text::texts(out@) == text::texts(old(out)@) + string_values(all.take(i as int)),
        decreases m.len() - i,
    {
        assert(all.take(i + 1).drop_last() == all.take(i as int));
        assert(all.take(i + 1).last() == (m@[i as int].0@, m@[i as int].1@));
        match m[i].1.as_str() {
            Some(s) => {
                push_text(out, s);
            },
            None => {},
        }
        assert(text::texts(out@) =~= text::texts(old(out)@) + string_values(all.take(i + 1)));
        i += 1;
    }
    assert(all.take(m@.len() as int) == all);
}

/// Appends the pieces of text in content.
pub fn text_of(c: &ContentField, out: &mut Vec<String>)
    ensures
        text::texts(final(out)@) == text::texts(old(out)@) + pieces(c@),
    decreases *c, 1nat,
{
    broadcast use record::lemma_content_model;

    match c {
        ContentField::Str(s) => {
            push_text(out, s.as_str());
        },
        ContentField::List(ns) => {
            let ghost all = record::nodes(ns@);
            let mut i: usize = 0;
            assert(text::texts(out@) =~= text::texts(old(out)@) + list_pieces(all.take(0)));
            while i < ns.len()
                invariant
                    i <= ns@.len(),
                    *c is List,
                    c->List_0 == *ns,
                    all == record::nodes(ns@),
                    text::texts(out@) == text::texts(old(out)@) + list_pieces(all.take(i as int)),
                decreases ns.len() - i,
            {
                assert(all.take(i + 1).drop_last() == all.take(i as int));
                assert(all.take(i + 1)[i as int] == ns@[i as int]@);
                node_text(&ns[i], out);
                assert(text::texts(out@) =~= text::texts(old(out)@) + list_pieces(all.take(i + 1)));
                i += 1;
            }
            assert(all.take(ns@.len() as int) == all);
        },
        _ => {
            assert(text::texts(out@) =~= text::texts(old(out)@) + pieces(c@));
        },
    }
}

/// Appends the pieces of text in an item of content.
fn node_text(n: &Node, out: &mut Vec<String>)
    ensures
        text::texts(final(out)@) == text::texts(old(out)@) + node_pieces(n@),
    decreases *n, 0nat,
{
    broadcast use record::lemma_content_model;

    let ghost before = text::texts(out@);
    assert(before + Seq::<Seq<char>>::empty() =~= before);
    match n {
        Node::Str(s) => {
            push_text(out, s.as_str());
        },
        Node::Other => {},
        Node::Block(b) => {
            match b.text.as_str() {
                Some(t) => {
                    push_text(out, t);
                },
                None => match &b.content {
                    ContentField::Str(s) => {
                        push_text(out, s.as_str());
                    },
                    ContentField::List(_) => {
                        let mut inner: Vec<String> = Vec::new();
                        text_of(&b.content, &mut inner);
                        assert(text::texts(inner@) =~= pieces(b.content@));
                        let j = text::join_strings(&inner, " ");
                        push_text(out, j.as_str());
                    },
                    _ => {
                        if is_type(&b.btype, "tool_use") {
                            match &b.input.0 {
                                Some(m) => {
                                    push_strings(out, m);
                                },
                                None => {},
                            }
                        }
                    },
                },
            }
        },
    }
}

/// Whether a member is a certain string.
fn is_type(t: &MaybeStr, s: &str) -> (r: bool)
    ensures
        r == (t@ == MaybeStrV::Str(s@)),
{
    match t.as_str() {
        Some(x) => text::same(x, s),
        None => false,
    }
}

/// The text of content.
pub fn flat_text(c: &ContentField) -> (r: String)
    ensures
        r@ == flat_content(c@),
{
    let mut v: Vec<String> = Vec::new();
    text_of(c, &mut v);
    assert(text::texts(v@) =~= pieces(c@));
    text::join_strings(&v, " ")
}

// ---------------------------------------------------------------------------
// Tools
// ---------------------------------------------------------------------------

/// What an optional integer stands for.
pub open spec fn opt_int(o: Option<i64>) -> Option<int> {
    match o {
        Some(i) => Some(i as int),
        None => None,
    }
}

/// What counts as true: a non-zero number, a non-empty string or container.
pub open spec fn truthy(v: JsonV) -> bool {
    match v {
        JsonV::Null => false,
        JsonV::Bool(b) => b,
        JsonV::Num(Num::UInt(u)) => u != 0,
        JsonV::Num(Num::Int(i)) => i != 0,
        JsonV::Num(Num::Float(f)) => binary64::nonzero(f),
        JsonV::Str(s) => s.len() > 0,
        JsonV::Array(a) => a.len() > 0,
        JsonV::Object(ms) => ms.len() > 0,
        JsonV::Bad => false,
    }
}

/// Whether a value counts as true.
pub fn py_truthy(v: &Json) -> (r: bool)
    ensures
        r == truthy(v@),
{
    broadcast use json::lemma_model;

    match v {
        Json::Null => false,
        Json::Bool(b) => *b,
        Json::Num(Num::UInt(u)) => *u != 0,
        Json::Num(Num::Int(i)) => *i != 0,
        Json::Num(Num::Float(f)) => binary64::is_nonzero(*f),
        Json::Str(s) => s.as_str().unicode_len() > 0,
        Json::Array(a) => a.len() > 0,
        Json::Object(ms) => ms.len() > 0,
        Json::Bad => false,
    }
}

/// The members of a tool's input that name what it works on, best first.
pub open spec fn target_keys() -> Seq<Seq<char>> {
    seq!["file_path"@, "path"@, "notebook_path"@, "filePath"@, "url"@, "pattern"@]
}

/// The text of a member that is a non-empty string.
pub open spec fn some_text(m: Seq<(Seq<char>, JsonV)>, k: Seq<char>) -> Option<Seq<char>> {
    match json::lookup(m, k) {
        Some(JsonV::Str(s)) => if s.len() > 0 {
            Some(s)
        } else {
            None
        },
        _ => None,
    }
}

/// The first of some members that is a non-empty string.
pub open spec fn first_text(m: Seq<(Seq<char>, JsonV)>, keys: Seq<Seq<char>>) -> Option<Seq<char>>
    decreases keys.len(),
{
    if keys.len() == 0 {
        None
    } else {
        match some_text(m, keys[0]) {
            Some(s) => Some(s),
            None => first_text(m, keys.drop_first()),
        }
    }
}

/// The target that the input of a tool call gives, where `before` is the one
/// known so far. A path or the like replaces it; the start of a command only
/// stands in where there is none.
pub open spec fn target_of(
    input: Option<Seq<(Seq<char>, JsonV)>>,
    before: Option<Seq<char>>,
) -> Option<Seq<char>> {
    match input {
        None => before,
        Some(m) => match first_text(m, target_keys()) {
            Some(t) => Some(t),
            None => match before {
                Some(t) => Some(t),
                None => match some_text(m, "command"@) {
                    Some(c) => Some(text::prefix(c, CMD_CHARS as int)),
                    None => None,
                },
            },
        },
    }
}

/// The tool that content calls, what it works on, and whether a call failed.
pub struct ToolV {
    pub tool: Option<Seq<char>>,
    pub target: Option<Seq<char>>,
    pub is_err: Option<int>,
}

/// One block of content. `None` where a tool has a name that is no string.
pub open spec fn tool_block(t: ToolV, b: BlockV) -> Option<ToolV> {
    let calls = b.btype == MaybeStrV::Str("tool_use"@) && t.tool is None;
    if calls && b.name is NotStr {
        None
    } else {
        Some(
            ToolV {
                tool: if calls {
                    match b.name {
                        MaybeStrV::Str(s) => Some(s),
                        _ => None,
                    }
                } else {
                    t.tool
                },
                target: if calls {
                    target_of(b.input, t.target)
                } else {
                    t.target
                },
                is_err: match b.is_error {
                    Some(v) => Some(
                        if truthy(v) {
                            1
                        } else {
                            0
                        },
                    ),
                    None => if b.btype == MaybeStrV::Str("tool_result"@) && t.is_err is None {
                        Some(0)
                    } else {
                        t.is_err
                    },
                },
            },
        )
    }
}

/// The blocks of content, in order.
pub open spec fn tool_nodes(ns: Seq<NodeV>) -> Option<ToolV>
    decreases ns.len(),
{
    if ns.len() == 0 {
        Some(ToolV { tool: None, target: None, is_err: None })
    } else {
        match (tool_nodes(ns.drop_last()), ns.last()) {
            (Some(t), NodeV::Block(b)) => tool_block(t, b),
            (t, _) => t,
        }
    }
}

/// The tool of content.
pub open spec fn tool(c: ContentV) -> Option<ToolV> {
    match c {
        ContentV::List(ns) => tool_nodes(ns),
        _ => Some(ToolV { tool: None, target: None, is_err: None }),
    }
}

/// Tool, target, and 1 where a call failed, 0 where none did.
pub type ToolOf = (Option<String>, Option<String>, Option<i64>);

pub open spec fn tool_view(t: ToolOf) -> ToolV {
    ToolV { tool: text::opt_text(t.0), target: text::opt_text(t.1), is_err: opt_int(t.2) }
}

/// The text of a member that is a non-empty string.
fn get_text<'a>(m: &'a Vec<(String, Json)>, k: &str) -> (r: Option<&'a str>)
    ensures
        match r {
            Some(s) => some_text(json::members_of(m@), k@) == Some(s@),
            None => some_text(json::members_of(m@), k@) is None,
        },
{
    broadcast use json::lemma_model;

    match json::find_member(m, k) {
        Some(x) => match x.as_str() {
            Some(s) => if s.unicode_len() > 0 {
                Some(s)
            } else {
                None
            },
            None => None,
        },
        None => None,
    }
}

/// The first of some members that is a non-empty string.
fn get_first<'a>(m: &'a Vec<(String, Json)>, keys: &[&str]) -> (r: Option<&'a str>)
    ensures
        ({
            let ks = Seq::new(keys@.len(), |i: int| keys@[i]@);
            match r {
                Some(s) => first_text(json::members_of(m@), ks) == Some(s@),
                None => first_text(json::members_of(m@), ks) is None,
            }
        }),
{
    let ghost ks = Seq::new(keys@.len(), |i: int| keys@[i]@);
    let mut i: usize = 0;
    assert(ks.skip(0) == ks);
    while i < keys.len()
        invariant
            i <= keys@.len(),
            ks == Seq::new(keys@.len(), |j: int| keys@[j]@),
            first_text(json::members_of(m@), ks) == first_text(
                json::members_of(m@),
                ks.skip(i as int),
            ),
        decreases keys.len() - i,
    {
        assert(ks.skip(i as int).drop_first() == ks.skip(i + 1));
        assert(ks.skip(i as int)[0] == keys@[i as int]@);
        match get_text(m, keys[i]) {
            Some(s) => {
                return Some(s);
            },
            None => {},
        }
        i += 1;
    }
    None
}

/// The target that the input of a tool call gives.
fn find_target(input: &InputMap, before: Option<String>) -> (r: Option<String>)
    ensures
        text::opt_text(r) == target_of(input@, text::opt_text(before)),
{
    match &input.0 {
        None => before,
        Some(m) => {
            let keys = ["file_path", "path", "notebook_path", "filePath", "url", "pattern"];
            assert(Seq::new(keys@.len(), |i: int| keys@[i]@) =~= target_keys());
            match get_first(m, &keys) {
                Some(t) => Some(t.to_owned()),
                None => match before {
                    Some(t) => Some(t),
                    None => match get_text(m, "command") {
                        Some(c) => Some(
                            text::string_of(&text::prefix_chars(&text::chars_of(c), CMD_CHARS)),
                        ),
                        None => None,
                    },
                },
            }
        },
    }
}

/// Once a tool's name is no string, the content has no tool.
proof fn lemma_bad_tool(ns: Seq<NodeV>, n: int)
    requires
        0 <= n <= ns.len(),
        tool_nodes(ns.take(n)) is None,
    ensures
        tool_nodes(ns) is None,
    decreases ns.len() - n,
{
    if n < ns.len() {
        assert(ns.take(n + 1).drop_last() == ns.take(n));
        lemma_bad_tool(ns, n + 1);
    } else {
        assert(ns.take(n) == ns);
    }
}

/// The tool that content calls, what it works on, and whether a call failed. A
/// tool whose name is no string is an error, since no column could hold it.
pub fn tool_of(c: &ContentField) -> (r: Result<ToolOf, &'static str>)
    ensures
        match r {
            Ok(t) => tool(c@) == Some(tool_view(t)),
            Err(why) => tool(c@) is None && why@ == "tool_name_not_a_string"@,
        },
{
    broadcast use record::lemma_content_model;

    let mut tool: Option<String> = None;
    let mut target: Option<String> = None;
    let mut is_err: Option<i64> = None;
    let ns = match c {
        ContentField::List(ns) => ns,
        _ => {
            return Ok((None, None, None));
        },
    };
    let ghost all = record::nodes(ns@);
    let mut i: usize = 0;
    assert(tool_nodes(all.take(0)) == Some(ToolV { tool: None, target: None, is_err: None }));
    while i < ns.len()
        invariant
            i <= ns@.len(),
            c@ == ContentV::List(all),
            all == record::nodes(ns@),
            tool_nodes(all.take(i as int)) == Some(
                ToolV { tool: text::opt_text(tool), target: text::opt_text(target), is_err: opt_int(is_err) },
            ),
        decreases ns.len() - i,
    {
        assert(all.take(i + 1).drop_last() == all.take(i as int));
        assert(all.take(i + 1).last() == ns@[i as int]@);
        match &ns[i] {
            Node::Block(b) => {
                let ghost t = ToolV {
                    tool: text::opt_text(tool),
                    target: text::opt_text(target),
                    is_err: opt_int(is_err),
                };
                let ghost bv = b@;
                assert(ns@[i as int]@ == NodeV::Block(bv));
                if is_type(&b.btype, "tool_use") && tool.is_none() {
                    match &b.name {
                        MaybeStr::Str(s) => {
                            tool = Some(s.clone());
                        },
                        MaybeStr::NotStr => {
                            assert(tool_block(t, bv) is None);
                            proof {
                                lemma_bad_tool(all, i + 1);
                            }
                            return Err("tool_name_not_a_string");
                        },
                        MaybeStr::Absent => {},
                    }
                    target = find_target(&b.input, target);
                }
                match &b.is_error {
                    Present::Val(v) => {
                        is_err =
                        Some(
                            if py_truthy(v) {
                                1
                            } else {
                                0
                            },
                        );
                    },
                    Present::Absent => {
                        if is_type(&b.btype, "tool_result") && is_err.is_none() {
                            is_err = Some(0);
                        }
                    },
                }
                assert(tool_block(t, bv) == Some(
                    ToolV {
                        tool: text::opt_text(tool),
                        target: text::opt_text(target),
                        is_err: opt_int(is_err),
                    },
                ));
            },
            _ => {},
        }
        i += 1;
    }
    assert(all.take(ns@.len() as int) == all);
    Ok((tool, target, is_err))
}

// ---------------------------------------------------------------------------
// Rows
// ---------------------------------------------------------------------------

/// A bare number is seconds below 1e12 and milliseconds from there on. What does
/// not fit 64 bits is nothing.
pub open spec fn int_ms(i: int) -> Option<int> {
    let ms = if i < 1_000_000_000_000 {
        i * 1000
    } else {
        i
    };
    if i64::MIN <= ms <= i64::MAX {
        Some(ms)
    } else {
        None
    }
}

/// The epoch milliseconds of a timestamp.
pub open spec fn ts_ms(v: TsValV) -> Option<int> {
    match v {
        TsValV::Int(i) => int_ms(i),
        TsValV::Float(f) => binary64::float_ms(f),
        TsValV::Str(s) => civil::timestamp_ms(encode_utf8(s)),
        _ => None,
    }
}

/// The epoch milliseconds of a timestamp.
pub fn parse_ts(v: &TsVal) -> (r: Option<i64>)
    ensures
        opt_int(r) == ts_ms(v@),
{
    match v {
        TsVal::Int(i) => {
            if *i < i64::MIN as i128 || *i > i64::MAX as i128 {
                return None;
            }
            let ms: i128 = if *i < 1_000_000_000_000 {
                *i * 1000
            } else {
                *i
            };
            if ms >= i64::MIN as i128 && ms <= i64::MAX as i128 {
                Some(ms as i64)
            } else {
                None
            }
        },
        TsVal::Float(f) => binary64::float_millis(*f),
        TsVal::Str(s) => civil::parse_ts_str(s.as_str()),
        _ => None,
    }
}

/// A row of the index.
#[derive(Debug, Default)]
pub struct Row {
    pub off: i64,
    pub len: i64,
    pub hash: i64,
    pub ts: Option<i64>,
    pub kind: Option<String>,
    pub role: Option<String>,
    pub model: Option<String>,
    pub tool: Option<String>,
    pub target: Option<String>,
    pub in_tok: Option<i64>,
    pub out_tok: Option<i64>,
    pub cache_r: Option<i64>,
    pub is_err: Option<i64>,
    pub text: String,
}

/// What a `Row` stands for.
pub struct RowV {
    pub off: int,
    pub len: int,
    pub hash: int,
    pub ts: Option<int>,
    pub kind: Option<Seq<char>>,
    pub role: Option<Seq<char>>,
    pub model: Option<Seq<char>>,
    pub tool: Option<Seq<char>>,
    pub target: Option<Seq<char>>,
    pub in_tok: Option<int>,
    pub out_tok: Option<int>,
    pub cache_r: Option<int>,
    pub is_err: Option<int>,
    pub text: Seq<char>,
}

impl View for Row {
    type V = RowV;

    open spec fn view(&self) -> RowV {
        RowV {
            off: self.off as int,
            len: self.len as int,
            hash: self.hash as int,
            ts: opt_int(self.ts),
            kind: text::opt_text(self.kind),
            role: text::opt_text(self.role),
            model: text::opt_text(self.model),
            tool: text::opt_text(self.tool),
            target: text::opt_text(self.target),
            in_tok: opt_int(self.in_tok),
            out_tok: opt_int(self.out_tok),
            cache_r: opt_int(self.cache_r),
            is_err: opt_int(self.is_err),
            text: self.text@,
        }
    }
}

/// The text of a string member, where it has one.
pub open spec fn str_part(m: MaybeStrV) -> Option<Seq<char>> {
    match m {
        MaybeStrV::Str(s) => Some(s),
        _ => None,
    }
}

/// The row of a record. `None` where a tool has a name that is no string.
pub open spec fn record_row(r: RecV, off: int, len: int, hash: int) -> Option<RowV> {
    match tool(r.message.content) {
        Some(t) => Some(
            RowV {
                off,
                len,
                hash,
                ts: ts_ms(r.timestamp),
                kind: str_part(r.rtype),
                role: str_part(r.message.role),
                model: str_part(r.message.model),
                tool: t.tool,
                target: t.target,
                in_tok: r.message.usage.input_tokens,
                out_tok: r.message.usage.output_tokens,
                cache_r: r.message.usage.cache_read_input_tokens,
                is_err: t.is_err,
                text: flat_content(r.message.content),
            },
        ),
        None => None,
    }
}

/// A copy of the text of a string member.
fn owned(m: &MaybeStr) -> (r: Option<String>)
    ensures
        text::opt_text(r) == str_part(m@),
{
    match m.as_str() {
        Some(s) => Some(s.to_owned()),
        None => None,
    }
}

/// The row of a record.
pub fn claude_code(r: &Rec, off: i64, len: i64, hash: i64) -> (row: Result<Row, &'static str>)
    ensures
        match row {
            Ok(x) => record_row(r@, off as int, len as int, hash as int) == Some(x@),
            Err(why) => record_row(r@, off as int, len as int, hash as int) is None && why@
                == "tool_name_not_a_string"@,
        },
{
    match tool_of(&r.message.content) {
        Ok((tool, target, is_err)) => {
            let u = &r.message.usage;
            Ok(
                Row {
                    off,
                    len,
                    hash,
                    ts: parse_ts(&r.timestamp),
                    kind: owned(&r.rtype),
                    role: owned(&r.message.role),
                    model: owned(&r.message.model),
                    tool,
                    target,
                    in_tok: u.input_tokens.0,
                    out_tok: u.output_tokens.0,
                    cache_r: u.cache_read_input_tokens.0,
                    is_err,
                    text: flat_text(&r.message.content),
                },
            )
        },
        Err(why) => Err(why),
    }
}

// ---------------------------------------------------------------------------
// Scanning
// ---------------------------------------------------------------------------

/// What becomes of a line.
pub enum Outcome {
    Blank,
    Row(RowV),
    Reject(Seq<char>),
}

/// A row that says nothing of a message.
pub open spec fn hollow(r: RowV) -> bool {
    r.text.len() == 0 && r.role is None && r.tool is None
}

/// What becomes of a line that holds the document `v`. A record whose row is
/// hollow is read as a Codex record, if it is one.
pub open spec fn judged(v: Option<JsonV>, off: int, len: int, hash: int) -> Outcome {
    match v {
        None => Outcome::Reject("parse_error"@),
        Some(j) => match record::rec(j) {
            None => if json::strict(j) && !(j is Object) {
                Outcome::Reject("not_an_object"@)
            } else {
                Outcome::Reject("parse_error"@)
            },
            Some(r) => match record_row(r, off, len, hash) {
                None => Outcome::Reject("tool_name_not_a_string"@),
                Some(row) => if hollow(row) {
                    match codex::document_row(v, off, len, hash) {
                        Some(x) => Outcome::Row(x),
                        None => Outcome::Row(row),
                    }
                } else {
                    Outcome::Row(row)
                },
            },
        },
    }
}

/// What becomes of a line, line feed included.
pub open spec fn line_outcome(line: Seq<u8>, off: int) -> Outcome {
    let s = stripped(line);
    if s.len() == 0 {
        Outcome::Blank
    } else if line.len() > MAX_LINE {
        Outcome::Reject("record_too_large"@)
    } else if nesting(s) > MAX_DEPTH {
        Outcome::Reject("depth_limit"@)
    } else if !valid_utf8(s) {
        Outcome::Reject("invalid_utf8"@)
    } else {
        judged(json::document(s), off, line.len() as int, record_hash(s))
    }
}

/// The index of the first line feed.
pub open spec fn newline(b: Seq<u8>) -> Option<int>
    decreases b.len(),
{
    if b.len() == 0 {
        None
    } else if b[0] == 0x0a {
        Some(0)
    } else {
        match newline(b.drop_first()) {
            Some(k) => Some(k + 1),
            None => None,
        }
    }
}

/// The first line feed is the one that none stands before.
pub proof fn lemma_newline(b: Seq<u8>)
    ensures
        newline(b) matches Some(k) ==> 0 <= k < b.len() && b[k] == 0x0a && forall|j: int|
            0 <= j < k ==> b[j] != 0x0a,
        newline(b) is None ==> forall|j: int| 0 <= j < b.len() ==> b[j] != 0x0a,
    decreases b.len(),
{
    if b.len() > 0 && b[0] != 0x0a {
        lemma_newline(b.drop_first());
        assert forall|j: int| 1 <= j < b.len() implies b[j] == #[trigger] b.drop_first()[j - 1] by {
        }
        match newline(b) {
            Some(k) => {
                assert forall|j: int| 0 <= j < k implies b[j] != 0x0a by {
                    if j > 0 {
                        assert(b[j] == b.drop_first()[j - 1]);
                    }
                }
            },
            None => {
                assert forall|j: int| 0 <= j < b.len() implies b[j] != 0x0a by {
                    if j > 0 {
                        assert(b[j] == b.drop_first()[j - 1]);
                    }
                }
            },
        }
    }
}

proof fn lemma_newline_at(b: Seq<u8>, k: int)
    requires
        0 <= k < b.len(),
        b[k] == 0x0a,
        forall|j: int| 0 <= j < k ==> b[j] != 0x0a,
    ensures
        newline(b) == Some(k),
{
    lemma_newline(b);
    match newline(b) {
        Some(m) => {
            if m < k {
                assert(b[m] != 0x0a);
            }
            if k < m {
                assert(b[k] != 0x0a);
            }
        },
        None => {
            assert(b[k] != 0x0a);
        },
    }
}

/// What a scan of a log gives: rows, rejects with offset, length and reason, and
/// the offset behind the last line.
pub struct ScanV {
    pub rows: Seq<RowV>,
    pub rejects: Seq<(int, int, Seq<char>)>,
    pub end: int,
}

/// A line, followed by the rest of a scan.
pub open spec fn line_then(o: Outcome, off: int, len: int, rest: ScanV) -> ScanV {
    match o {
        Outcome::Blank => rest,
        Outcome::Row(r) => ScanV { rows: seq![r] + rest.rows, ..rest },
        Outcome::Reject(why) => ScanV { rejects: seq![(off, len, why)] + rest.rejects, ..rest },
    }
}

/// A log, line by line. What follows the last line feed is left for later.
pub open spec fn scanned(b: Seq<u8>, off: int) -> ScanV
    decreases b.len(),
{
    match newline(b) {
        None => ScanV { rows: Seq::empty(), rejects: Seq::empty(), end: off },
        Some(k) => if 0 <= k < b.len() {
            let line = b.take(k + 1);
            line_then(
                line_outcome(line, off),
                off,
                k + 1,
                scanned(b.skip(k + 1), off + k + 1),
            )
        } else {
            ScanV { rows: Seq::empty(), rejects: Seq::empty(), end: off }
        },
    }
}

/// One scan after another.
pub open spec fn scan_then(a: ScanV, b: ScanV) -> ScanV {
    ScanV { rows: a.rows + b.rows, rejects: a.rejects + b.rejects, end: b.end }
}

/// The rows of a log, the lines that were rejected, and the offset behind the
/// last line.
#[derive(Debug)]
pub struct ScanOut {
    pub rows: Vec<Row>,
    pub rejects: Vec<(i64, i64, &'static str)>,
    pub end: i64,
}

/// What some rows stand for.
pub open spec fn rows_of(rows: Seq<Row>) -> Seq<RowV> {
    Seq::new(rows.len(), |i: int| rows[i]@)
}

/// What some rejects stand for.
pub open spec fn rejects_of(v: Seq<(i64, i64, &'static str)>) -> Seq<(int, int, Seq<char>)> {
    Seq::new(v.len(), |i: int| (v[i].0 as int, v[i].1 as int, v[i].2@))
}

impl View for ScanOut {
    type V = ScanV;

    open spec fn view(&self) -> ScanV {
        ScanV {
            rows: rows_of(self.rows@),
            rejects: rejects_of(self.rejects@),
            end: self.end as int,
        }
    }
}

/// Trusted: calls `memchr::memchr`, which gives the first position of a byte.
#[verifier::external_body]
fn find_byte(c: u8, b: &[u8]) -> (r: Option<usize>)
    ensures
        match r {
            Some(i) => i < b@.len() && b@[i as int] == c && forall|j: int|
                0 <= j < i ==> b@[j] != c,
            None => forall|j: int| 0 <= j < b@.len() ==> b@[j] != c,
        },
{
    memchr::memchr(c, b)
}

/// What a judgement on a non-blank line stands for.
pub open spec fn judgement(r: Result<Row, &'static str>) -> Outcome {
    match r {
        Ok(x) => Outcome::Row(x@),
        Err(why) => Outcome::Reject(why@),
    }
}

/// The row of a parsed line, or why there is none.
pub fn judge(v: &Option<Json>, off: i64, len: i64, hash: i64) -> (r: Result<Row, &'static str>)
    ensures
        judgement(r) == judged(
            match v {
                Some(j) => Some(j@),
                None => None,
            },
            off as int,
            len as int,
            hash as int,
        ),
{
    broadcast use json::lemma_model;

    let j = match v {
        Some(j) => j,
        None => {
            return Err("parse_error");
        },
    };
    match Rec::from_json(j) {
        None => {
            let object = match j {
                Json::Object(_) => true,
                _ => false,
            };
            if j.is_strict() && !object {
                Err("not_an_object")
            } else {
                Err("parse_error")
            }
        },
        Some(rec) => {
            match claude_code(&rec, off, len, hash) {
                Ok(row) => {
                    if row.text.as_str().unicode_len() == 0 && row.role.is_none()
                        && row.tool.is_none() {
                        if j.is_strict() {
                            match codex::row_of(j, off, len, hash) {
                                Some(x) => Ok(x),
                                None => Ok(row),
                            }
                        } else {
                            Ok(row)
                        }
                    } else {
                        Ok(row)
                    }
                },
                Err(why) => Err(why),
            }
        },
    }
}

/// What becomes of a line: nothing, a row, or a reject with a reason.
pub fn scan_line(line: &[u8], off: i64) -> (r: Option<Result<Row, &'static str>>)
    requires
        line@.len() <= i64::MAX,
    ensures
        match r {
            Some(x) => line_outcome(line@, off as int) == judgement(x),
            None => line_outcome(line@, off as int) is Blank,
        },
{
    let s = strip_ws(line);
    if s.len() == 0 {
        return None;
    }
    if line.len() > MAX_LINE {
        return Some(Err("record_too_large"));
    }
    proof {
        law_depth_bounded(s@);
    }
    if bracket_count(s) > MAX_DEPTH && max_depth(s) > MAX_DEPTH {
        return Some(Err("depth_limit"));
    }
    match text::from_utf8(s) {
        None => Some(Err("invalid_utf8")),
        Some(_) => {
            let v = json::parse(s);
            Some(judge(&v, off, line.len() as i64, rec_hash(s)))
        },
    }
}

/// A scan with one more line.
spec fn with_line(done: ScanV, o: Outcome, off: int, len: int) -> ScanV {
    match o {
        Outcome::Blank => ScanV { end: off + len, ..done },
        Outcome::Row(r) => ScanV { rows: done.rows.push(r), end: off + len, ..done },
        Outcome::Reject(why) => ScanV {
            rejects: done.rejects.push((off, len, why)),
            end: off + len,
            ..done
        },
    }
}

proof fn lemma_with_line(done: ScanV, b: Seq<u8>, off: int, k: int)
    requires
        newline(b) == Some(k),
        0 <= k < b.len(),
    ensures
        scan_then(done, scanned(b, off)) == scan_then(
            with_line(done, line_outcome(b.take(k + 1), off), off, k + 1),
            scanned(b.skip(k + 1), off + k + 1),
        ),
{
    let rest = scanned(b.skip(k + 1), off + k + 1);
    match line_outcome(b.take(k + 1), off) {
        Outcome::Blank => {},
        Outcome::Row(r) => {
            assert(done.rows + (seq![r] + rest.rows) =~= done.rows.push(r) + rest.rows);
        },
        Outcome::Reject(why) => {
            let one = (off, k + 1, why);
            assert(done.rejects + (seq![one] + rest.rejects) =~= done.rejects.push(one)
                + rest.rejects);
        },
    }
}

proof fn lemma_nothing_left(done: ScanV, b: Seq<u8>)
    requires
        newline(b) is None,
    ensures
        scan_then(done, scanned(b, done.end)) == done,
{
    assert(done.rows + Seq::<RowV>::empty() =~= done.rows);
    assert(done.rejects + Seq::<(int, int, Seq<char>)>::empty() =~= done.rejects);
}

/// Adds what became of a line to a scan.
fn add_line(out: &mut ScanOut, line: &[u8])
    requires
        line@.len() <= i64::MAX,
        old(out).end + line@.len() <= i64::MAX,
    ensures
        final(out)@ == with_line(
            old(out)@,
            line_outcome(line@, old(out).end as int),
            old(out).end as int,
            line@.len() as int,
        ),
{
    let off: i64 = out.end;
    let n: i64 = line.len() as i64;
    match scan_line(line, off) {
        None => {},
        Some(Ok(row)) => {
            out.rows.push(row);
            assert(rows_of(out.rows@) =~= rows_of(old(out).rows@).push(row@));
        },
        Some(Err(why)) => {
            out.rejects.push((off, n, why));
            assert(rejects_of(out.rejects@) =~= rejects_of(old(out).rejects@).push(
                (off as int, n as int, why@),
            ));
        },
    }
    out.end = off + n;
}

/// Scans a log that starts at offset `start`.
pub fn scan_buf(buf: &[u8], start: i64) -> (r: ScanOut)
    requires
        buf@.len() <= i64::MAX,
        start + buf@.len() <= i64::MAX,
    ensures
        r@ == scanned(buf@, start as int),
        start <= r.end <= start + buf@.len(),
{
    let mut out = ScanOut { rows: Vec::new(), rejects: Vec::new(), end: start };
    let mut pos: usize = 0;
    let ghost all = scanned(buf@, start as int);
    assert(buf@.skip(0) == buf@);
    assert(scan_then(out@, all).rows =~= all.rows);
    assert(scan_then(out@, all).rejects =~= all.rejects);
    loop
        invariant_except_break
            pos <= buf@.len(),
            out.end == start + pos,
            start + buf@.len() <= i64::MAX,
            buf@.len() <= i64::MAX,
            all == scan_then(out@, scanned(buf@.skip(pos as int), start + pos)),
        ensures
            pos <= buf@.len(),
            out.end == start + pos,
            all == out@,
        decreases buf.len() - pos,
    {
        let rest = slice_subrange(buf, pos, buf.len());
        assert(rest@ == buf@.skip(pos as int));
        match find_byte(0x0a, rest) {
            None => {
                proof {
                    lemma_newline(rest@);
                    lemma_nothing_left(out@, rest@);
                }
                break ;
            },
            Some(i) => {
                proof {
                    lemma_newline_at(rest@, i as int);
                    lemma_with_line(out@, rest@, start + pos, i as int);
                }
                let line = slice_subrange(rest, 0, i + 1);
                assert(line@ == rest@.take(i + 1));
                assert(rest@.skip(i + 1) == buf@.skip(pos + i + 1));
                add_line(&mut out, line);
                pos = pos + i + 1;
            },
        }
    }
    out
}

// ---------------------------------------------------------------------------
// Laws of scanning
// ---------------------------------------------------------------------------

/// Bytes that are whole lines.
pub open spec fn whole_lines(b: Seq<u8>) -> bool {
    b.len() == 0 || b.last() == 0x0a
}

proof fn lemma_line_then(o: Outcome, off: int, len: int, x: ScanV, y: ScanV)
    ensures
        line_then(o, off, len, scan_then(x, y)) == scan_then(line_then(o, off, len, x), y),
{
    match o {
        Outcome::Blank => {},
        Outcome::Row(r) => {
            assert(seq![r] + (x.rows + y.rows) =~= (seq![r] + x.rows) + y.rows);
        },
        Outcome::Reject(why) => {
            let one = (off, len, why);
            assert(seq![one] + (x.rejects + y.rejects) =~= (seq![one] + x.rejects) + y.rejects);
        },
    }
}

/// Scanning whole lines and then, from the offset where they end, what was
/// appended to them, gives what one scan of all gives.
pub proof fn law_scan_resumes(a: Seq<u8>, b: Seq<u8>, off: int)
    requires
        whole_lines(a),
    ensures
        scanned(a, off).end == off + a.len(),
        scanned(a + b, off) == scan_then(scanned(a, off), scanned(b, off + a.len())),
    decreases a.len(),
{
    lemma_newline(a);
    if a.len() == 0 {
        assert(a + b =~= b);
        let all = scanned(b, off);
        assert(Seq::<RowV>::empty() + all.rows =~= all.rows);
        assert(Seq::<(int, int, Seq<char>)>::empty() + all.rejects =~= all.rejects);
    } else {
        assert(a[a.len() - 1] == 0x0a);
        let k = newline(a)->0;
        assert forall|j: int| 0 <= j < k implies (a + b)[j] != 0x0a by {
            assert((a + b)[j] == a[j]);
        }
        lemma_newline_at(a + b, k);
        assert((a + b).take(k + 1) =~= a.take(k + 1));
        assert((a + b).skip(k + 1) =~= a.skip(k + 1) + b);
        let t = a.skip(k + 1);
        assert(t.len() > 0 ==> t.last() == a.last());
        law_scan_resumes(t, b, off + k + 1);
        lemma_line_then(
            line_outcome(a.take(k + 1), off),
            off,
            k + 1,
            scanned(t, off + k + 1),
            scanned(b, off + a.len()),
        );
    }
}

/// A last line without its line feed is not consumed: what is whole is scanned
/// as if the rest were not there, and the scan ends before the rest.
pub proof fn law_partial_line_waits(a: Seq<u8>, t: Seq<u8>, off: int)
    requires
        whole_lines(a),
        forall|j: int| 0 <= j < t.len() ==> t[j] != 0x0a,
    ensures
        scanned(a + t, off) == scanned(a, off),
        scanned(a + t, off).end == off + a.len(),
{
    lemma_newline(t);
    law_scan_resumes(a, t, off);
    lemma_nothing_left(scanned(a, off), t);
}

/// A row that gives back its record: the bytes at its offset, stripped, have
/// its hash.
pub open spec fn reads_back(b: Seq<u8>, off: int, r: RowV) -> bool {
    &&& off <= r.off
    &&& 0 < r.len <= MAX_LINE
    &&& r.off + r.len <= off + b.len()
    &&& b[r.off + r.len - 1 - off] == 0x0a
    &&& record_hash(stripped(b.subrange(r.off - off, r.off - off + r.len))) == r.hash
}

/// Every row of a scan gives back its record.
pub proof fn law_rows_read_back(b: Seq<u8>, off: int)
    ensures
        forall|i: int|
            0 <= i < scanned(b, off).rows.len() ==> reads_back(
                b,
                off,
                #[trigger] scanned(b, off).rows[i],
            ),
    decreases b.len(),
{
    lemma_newline(b);
    match newline(b) {
        None => {},
        Some(k) => {
            let line = b.take(k + 1);
            let t = b.skip(k + 1);
            let rest = scanned(t, off + k + 1);
            let all = scanned(b, off);
            law_rows_read_back(t, off + k + 1);
            let first: int = if line_outcome(line, off) is Row {
                1
            } else {
                0
            };
            assert forall|i: int| 0 <= i < all.rows.len() implies reads_back(
                b,
                off,
                #[trigger] all.rows[i],
            ) by {
                let r = all.rows[i];
                if i < first {
                    assert(b.subrange(0, k + 1) =~= line);
                } else {
                    assert(r == rest.rows[i - first]);
                    assert(reads_back(t, off + k + 1, r));
                    let at = r.off - off;
                    assert(t.subrange(at - k - 1, at - k - 1 + r.len) =~= b.subrange(
                        at,
                        at + r.len,
                    ));
                }
            }
        },
    }
}

/// Rows come in the order of their records, which do not overlap.
pub proof fn law_rows_in_order(b: Seq<u8>, off: int)
    ensures
        forall|i: int, j: int|
            0 <= i < j < scanned(b, off).rows.len() ==> (#[trigger] scanned(b, off).rows[i]).off
                + scanned(b, off).rows[i].len <= (#[trigger] scanned(b, off).rows[j]).off,
    decreases b.len(),
{
    lemma_newline(b);
    match newline(b) {
        None => {},
        Some(k) => {
            let line = b.take(k + 1);
            let t = b.skip(k + 1);
            let rest = scanned(t, off + k + 1);
            let all = scanned(b, off);
            law_rows_in_order(t, off + k + 1);
            law_rows_read_back(t, off + k + 1);
            let first: int = if line_outcome(line, off) is Row {
                1
            } else {
                0
            };
            assert forall|i: int, j: int| 0 <= i < j < all.rows.len() implies (
            #[trigger] all.rows[i]).off + all.rows[i].len <= (#[trigger] all.rows[j]).off by {
                assert(all.rows[j] == rest.rows[j - first]);
                assert(reads_back(t, off + k + 1, rest.rows[j - first]));
                if i >= first {
                    assert(all.rows[i] == rest.rows[i - first]);
                }
            }
        },
    }
}

/// The number of whole lines that are not blank.
pub open spec fn filled_lines(b: Seq<u8>) -> nat
    decreases b.len(),
{
    match newline(b) {
        None => 0,
        Some(k) => if 0 <= k < b.len() {
            filled_lines(b.skip(k + 1)) + if stripped(b.take(k + 1)).len() == 0 {
                0nat
            } else {
                1nat
            }
        } else {
            0
        },
    }
}

/// No line is lost and none counts twice: every line that is not blank gives one
/// row or one reject.
pub proof fn law_every_line_counts(b: Seq<u8>, off: int)
    ensures
        scanned(b, off).rows.len() + scanned(b, off).rejects.len() == filled_lines(b),
    decreases b.len(),
{
    lemma_newline(b);
    match newline(b) {
        None => {},
        Some(k) => {
            law_every_line_counts(b.skip(k + 1), off + k + 1);
        },
    }
}

/// Rejects come in the order of their lines, which do not overlap.
pub proof fn law_rejects_in_order(b: Seq<u8>, off: int)
    ensures
        forall|i: int|
            0 <= i < scanned(b, off).rejects.len() ==> off <= (#[trigger] scanned(
                b,
                off,
            ).rejects[i]).0 && scanned(b, off).rejects[i].0 < off + b.len(),
        forall|i: int, j: int|
            0 <= i < j < scanned(b, off).rejects.len() ==> (#[trigger] scanned(
                b,
                off,
            ).rejects[i]).0 < (#[trigger] scanned(b, off).rejects[j]).0,
    decreases b.len(),
{
    lemma_newline(b);
    match newline(b) {
        None => {},
        Some(k) => {
            let line = b.take(k + 1);
            let t = b.skip(k + 1);
            let rest = scanned(t, off + k + 1);
            let all = scanned(b, off);
            law_rejects_in_order(t, off + k + 1);
            let first: int = if line_outcome(line, off) is Reject {
                1
            } else {
                0
            };
            assert forall|i: int| 0 <= i < all.rejects.len() implies off <= (
            #[trigger] all.rejects[i]).0 && all.rejects[i].0 < off + b.len() by {
                if i >= first {
                    assert(all.rejects[i] == rest.rejects[i - first]);
                }
            }
            assert forall|i: int, j: int| 0 <= i < j < all.rejects.len() implies (
            #[trigger] all.rejects[i]).0 < (#[trigger] all.rejects[j]).0 by {
                assert(all.rejects[j] == rest.rejects[j - first]);
                if i >= first {
                    assert(all.rejects[i] == rest.rejects[i - first]);
                }
            }
        },
    }
}

/// A scan ends behind the last line feed: what it covers are whole lines, and
/// scanning them alone gives the same.
pub proof fn law_scan_covers_whole_lines(b: Seq<u8>, off: int)
    ensures
        ({
            let n = scanned(b, off).end - off;
            &&& 0 <= n <= b.len()
            &&& whole_lines(b.take(n))
            &&& forall|j: int| n <= j < b.len() ==> b[j] != 0x0a
            &&& scanned(b.take(n), off) == scanned(b, off)
        }),
{
    lemma_covered(b, off);
    let n = scanned(b, off).end - off;
    let a = b.take(n);
    let t = b.skip(n);
    assert(a + t =~= b);
    assert forall|j: int| 0 <= j < t.len() implies t[j] != 0x0a by {
        assert(t[j] == b[n + j]);
    }
    law_partial_line_waits(a, t, off);
}

proof fn lemma_covered(b: Seq<u8>, off: int)
    ensures
        ({
            let n = scanned(b, off).end - off;
            &&& 0 <= n <= b.len()
            &&& whole_lines(b.take(n))
            &&& forall|j: int| n <= j < b.len() ==> b[j] != 0x0a
        }),
    decreases b.len(),
{
    lemma_newline(b);
    match newline(b) {
        None => {},
        Some(k) => {
            let t = b.skip(k + 1);
            lemma_covered(t, off + k + 1);
            let m = scanned(t, off + k + 1).end - (off + k + 1);
            let n = scanned(b, off).end - off;
            assert(n == m + k + 1);
            if m == 0 {
                assert(b.take(n).last() == b[k]);
            } else {
                assert(b.take(n).last() == t.take(m).last());
            }
            assert forall|j: int| n <= j < b.len() implies b[j] != 0x0a by {
                assert(b[j] == t[j - k - 1]);
            }
        },
    }
}

// ---------------------------------------------------------------------------
// What a row says of its record
// ---------------------------------------------------------------------------

/// One text behind another with a space between, where neither is empty.
pub open spec fn glued(a: Seq<char>, b: Seq<char>) -> Seq<char> {
    if a.len() == 0 {
        b
    } else if b.len() == 0 {
        a
    } else {
        a.push(' ') + b
    }
}

/// No text of a list is empty.
pub open spec fn all_filled(ps: Seq<Seq<char>>) -> bool {
    forall|i: int| 0 <= i < ps.len() ==> (#[trigger] ps[i]).len() > 0
}

proof fn lemma_join_glued(a: Seq<Seq<char>>, b: Seq<Seq<char>>)
    requires
        all_filled(a),
        all_filled(b),
    ensures
        text::join(a + b, " "@) == glued(text::join(a, " "@), text::join(b, " "@)),
        a.len() > 0 ==> text::join(a, " "@).len() > 0,
    decreases b.len(),
{
    reveal_strlit(" ");
    if a.len() > 0 {
        lemma_join_filled(a);
    }
    if b.len() == 0 {
        assert(a + b =~= a);
    } else {
        let d = b.drop_last();
        assert(all_filled(d)) by {
            assert forall|i: int| 0 <= i < d.len() implies (#[trigger] d[i]).len() > 0 by {
                assert(d[i] == b[i]);
            }
        }
        lemma_join_glued(a, d);
        lemma_join_filled(b);
        assert((a + b).drop_last() =~= a + d);
        assert((a + b).last() == b.last());
        if a.len() == 0 {
            assert(a + b =~= b);
        } else {
            assert(" "@ =~= seq![' ']);
            if d.len() == 0 {
                assert(a + d =~= a);
                assert(text::join(a + b, " "@) =~= text::join(a, " "@).push(' ') + b[0]);
            } else {
                lemma_join_filled(d);
                assert(text::join(a + b, " "@) =~= text::join(a, " "@).push(' ') + (text::join(
                    d,
                    " "@,
                ) + " "@ + b.last()));
            }
        }
    }
}

proof fn lemma_join_filled(a: Seq<Seq<char>>)
    requires
        a.len() > 0,
        all_filled(a),
    ensures
        text::join(a, " "@).len() > 0,
{
    assert(a[a.len() - 1].len() > 0);
}

proof fn lemma_values_filled(m: Seq<(Seq<char>, JsonV)>)
    ensures
        all_filled(string_values(m)),
    decreases m.len(),
{
    if m.len() > 0 {
        lemma_values_filled(m.drop_last());
    }
}

proof fn lemma_node_filled(n: NodeV)
    ensures
        all_filled(node_pieces(n)),
{
    match n {
        NodeV::Block(b) => {
            if let Some(m) = b.input {
                lemma_values_filled(m);
            }
        },
        _ => {},
    }
}

proof fn lemma_list_filled(ns: Seq<NodeV>)
    ensures
        all_filled(list_pieces(ns)),
    decreases ns.len(),
{
    if ns.len() > 0 {
        lemma_list_filled(ns.drop_last());
        lemma_node_filled(ns[ns.len() - 1]);
    }
}

proof fn lemma_list_pieces(a: Seq<NodeV>, b: Seq<NodeV>)
    ensures
        list_pieces(a + b) == list_pieces(a) + list_pieces(b),
    decreases b.len(),
{
    if b.len() == 0 {
        assert(a + b =~= a);
        assert(list_pieces(a) + list_pieces(b) =~= list_pieces(a));
    } else {
        lemma_list_pieces(a, b.drop_last());
        assert((a + b).drop_last() =~= a + b.drop_last());
        assert(list_pieces(a + b) =~= list_pieces(a) + list_pieces(b));
    }
}

/// The text of a list is that of its parts, one behind the other.
pub proof fn law_text_of_lists(a: Seq<NodeV>, b: Seq<NodeV>)
    ensures
        flat_content(ContentV::List(a + b)) == glued(
            flat_content(ContentV::List(a)),
            flat_content(ContentV::List(b)),
        ),
{
    lemma_list_pieces(a, b);
    lemma_list_filled(a);
    lemma_list_filled(b);
    lemma_join_glued(list_pieces(a), list_pieces(b));
}

/// What the text of one item of content is. A string is its own text. A block
/// has its `text`; without one it has the text of its `content`, whatever its
/// type; without either a tool call alone has text, which is that of its input.
pub proof fn law_text_of_item(n: NodeV)
    ensures
        ({
            let t = flat_content(ContentV::List(seq![n]));
            match n {
                NodeV::Str(s) => t == s,
                NodeV::Other => t.len() == 0,
                NodeV::Block(b) => {
                    &&& b.text matches MaybeStrV::Str(x) ==> t == x
                    &&& !(b.text is Str) && b.content is Str ==> t == b.content->Str_0
                    &&& !(b.text is Str) && b.content is List ==> t == flat_content(b.content)
                    &&& !(b.text is Str) && !(b.content is Str) && !(b.content is List) ==> {
                        &&& b.btype != MaybeStrV::Str("tool_use"@) ==> t.len() == 0
                        &&& b.input is None ==> t.len() == 0
                    }
                },
            }
        }),
        forall|s: Seq<char>| #[trigger] flat_content(ContentV::Str(s)) == s,
        flat_content(ContentV::Absent).len() == 0,
        flat_content(ContentV::Other).len() == 0,
{
    reveal_with_fuel(list_pieces, 2);
    let one_item = seq![n];
    assert(one_item.drop_last() =~= Seq::empty());
    assert(list_pieces(one_item) =~= node_pieces(n));
    assert forall|s: Seq<char>| text::join(#[trigger] one(s), " "@) == s by {
        if s.len() == 0 {
            assert(s =~= Seq::empty());
        }
    }
    assert forall|s: Seq<char>| #[trigger] flat_content(ContentV::Str(s)) == s by {
        assert(text::join(one(s), " "@) == s);
    }
    match n {
        NodeV::Str(s) => {
            assert(text::join(one(s), " "@) == s);
        },
        NodeV::Block(b) => {
            if let MaybeStrV::Str(x) = b.text {
                assert(text::join(one(x), " "@) == x);
            } else {
                match b.content {
                    ContentV::Str(x) => {
                        assert(text::join(one(x), " "@) == x);
                    },
                    ContentV::List(_) => {
                        let x = text::join(pieces(b.content), " "@);
                        assert(text::join(one(x), " "@) == x);
                    },
                    _ => {},
                }
            }
        },
        NodeV::Other => {},
    }
}

/// A tool call whose input has the members `m`, and no more.
pub open spec fn call_with(m: Seq<(Seq<char>, JsonV)>) -> NodeV {
    NodeV::Block(
        BlockV {
            text: MaybeStrV::Absent,
            content: ContentV::Absent,
            btype: MaybeStrV::Str("tool_use"@),
            name: MaybeStrV::Absent,
            input: Some(m),
            is_error: None,
        },
    )
}

/// The text of a tool call is made of the strings of its input, in order, and of
/// nothing else.
pub proof fn law_text_of_call(
    a: Seq<(Seq<char>, JsonV)>,
    k: Seq<char>,
    v: JsonV,
)
    ensures
        flat_content(ContentV::List(seq![call_with(Seq::empty())])).len() == 0,
        flat_content(ContentV::List(seq![call_with(a.push((k, v)))])) == glued(
            flat_content(ContentV::List(seq![call_with(a)])),
            match v {
                JsonV::Str(s) => s,
                _ => Seq::empty(),
            },
        ),
{
    reveal_with_fuel(list_pieces, 2);
    assert forall|m: Seq<(Seq<char>, JsonV)>| flat_content(
        ContentV::List(seq![#[trigger] call_with(m)]),
    ) == text::join(string_values(m), " "@) by {
        let l = seq![call_with(m)];
        assert(l.drop_last() =~= Seq::empty());
        assert(list_pieces(l) =~= string_values(m));
    }
    let m = a.push((k, v));
    assert(m.drop_last() =~= a);
    let more = match v {
        JsonV::Str(s) => one(s),
        _ => Seq::empty(),
    };
    lemma_values_filled(a);
    assert(all_filled(more));
    lemma_join_glued(string_values(a), more);
    if let JsonV::Str(s) = v {
        if s.len() == 0 {
            assert(s =~= Seq::empty());
        }
    }
    assert(call_with(m) == call_with(a.push((k, v))));
    assert(call_with(a) == call_with(a));
    assert(call_with(Seq::empty()) == call_with(Seq::empty()));
}

proof fn lemma_glued_holds(a: Seq<char>, s: Seq<char>, b: Seq<char>)
    requires
        s.len() > 0,
    ensures
        exists|k: int| text::occurs_at(glued(glued(a, s), b), s, k),
{
    let t = glued(glued(a, s), b);
    let k = if a.len() == 0 {
        0int
    } else {
        a.len() as int + 1
    };
    assert(t.subrange(k, k + s.len()) =~= s);
    assert(text::occurs_at(t, s, k));
}

/// What every item of a list says can be searched for: its text stands whole in
/// that of the list. So it is with what a tool printed.
pub proof fn law_every_item_is_searchable(ns: Seq<NodeV>, i: int)
    requires
        0 <= i < ns.len(),
        flat_content(ContentV::List(seq![ns[i]])).len() > 0,
    ensures
        exists|k: int|
            text::occurs_at(
                flat_content(ContentV::List(ns)),
                flat_content(ContentV::List(seq![ns[i]])),
                k,
            ),
        ns[i] matches NodeV::Block(b) ==> !(b.text is Str) && b.content is Str ==> exists|k: int|
            text::occurs_at(flat_content(ContentV::List(ns)), b.content->Str_0, k),
{
    let a = ns.take(i);
    let b = ns.skip(i + 1);
    let m = seq![ns[i]];
    law_text_of_lists(a, m);
    law_text_of_lists(a + m, b);
    assert(a + m + b =~= ns);
    law_text_of_item(ns[i]);
    lemma_glued_holds(
        flat_content(ContentV::List(a)),
        flat_content(ContentV::List(m)),
        flat_content(ContentV::List(b)),
    );
}

/// The output of a tool call is the text of its record: it can be searched for.
pub proof fn law_tool_output_is_text(s: Seq<char>, failed: Option<JsonV>)
    ensures
        flat_content(
            ContentV::List(
                seq![
                    NodeV::Block(
                        BlockV {
                            text: MaybeStrV::Absent,
                            content: ContentV::Str(s),
                            btype: MaybeStrV::Str("tool_result"@),
                            name: MaybeStrV::Absent,
                            input: None,
                            is_error: failed,
                        },
                    ),
                ],
            ),
        ) == s,
{
    let b = BlockV {
        text: MaybeStrV::Absent,
        content: ContentV::Str(s),
        btype: MaybeStrV::Str("tool_result"@),
        name: MaybeStrV::Absent,
        input: None,
        is_error: failed,
    };
    law_text_of_item(NodeV::Block(b));
}

/// The value of a member `is_error`, if an item has one.
pub open spec fn error_member(n: NodeV) -> Option<JsonV> {
    match n {
        NodeV::Block(b) => b.is_error,
        _ => None,
    }
}

/// The type of a block, if an item is one.
pub open spec fn type_is(n: NodeV, t: Seq<char>) -> bool {
    n matches NodeV::Block(b) && b.btype == MaybeStrV::Str(t)
}

/// The last block that says whether a call failed decides. Where none says so, a
/// call that has a result did not fail, and without a result nothing is known.
pub proof fn law_error_flag(ns: Seq<NodeV>, i: int)
    requires
        tool(ContentV::List(ns)) is Some,
    ensures
        0 <= i < ns.len() && error_member(ns[i]) is Some && (forall|j: int|
            i < j < ns.len() ==> error_member(#[trigger] ns[j]) is None) ==> {
            let e = tool(ContentV::List(ns))->0.is_err;
            let v = error_member(ns[i])->0;
            &&& e == Some(0int) || e == Some(1int)
            &&& v matches JsonV::Bool(b) ==> (e == Some(1int) <==> b)
            &&& v matches JsonV::Null ==> e == Some(0int)
            &&& v matches JsonV::Str(s) ==> (e == Some(1int) <==> s.len() > 0)
            &&& v matches JsonV::Array(a) ==> (e == Some(1int) <==> a.len() > 0)
            &&& v matches JsonV::Object(m) ==> (e == Some(1int) <==> m.len() > 0)
            &&& v matches JsonV::Num(Num::UInt(u)) ==> (e == Some(1int) <==> u > 0)
            &&& v matches JsonV::Num(Num::Int(u)) ==> (e == Some(1int) <==> u != 0)
            &&& v == JsonV::Num(Num::Float(0)) ==> e == Some(0int)
            &&& v == JsonV::Num(Num::Float(0x8000_0000_0000_0000)) ==> e == Some(0int)
            &&& (v matches JsonV::Num(Num::Float(f)) && 0 < f < 0x8000_0000_0000_0000) ==> e
                == Some(1int)
            &&& (v matches JsonV::Num(Num::Float(f)) && f > 0x8000_0000_0000_0000) ==> e == Some(
                1int,
            )
        },
        (forall|j: int| 0 <= j < ns.len() ==> error_member(#[trigger] ns[j]) is None) ==> {
            let e = tool(ContentV::List(ns))->0.is_err;
            &&& (exists|j: int| 0 <= j < ns.len() && type_is(#[trigger] ns[j], "tool_result"@))
                ==> e == Some(0int)
            &&& !(exists|j: int| 0 <= j < ns.len() && type_is(#[trigger] ns[j], "tool_result"@))
                ==> e is None
        },
    decreases ns.len(),
{
    if ns.len() > 0 {
        let d = ns.drop_last();
        let n = ns.len() - 1;
        assert(tool(ContentV::List(d)) is Some);
        law_error_flag(d, i);
        assert(ns.last() == ns[n]);
        assert forall|j: int| 0 <= j < d.len() implies d[j] == #[trigger] ns[j] by {}
        if forall|j: int| 0 <= j < ns.len() ==> error_member(#[trigger] ns[j]) is None {
            assert forall|j: int| 0 <= j < d.len() implies error_member(#[trigger] d[j]) is None by {
                assert(d[j] == ns[j]);
            }
            assert(error_member(ns[n]) is None);
            if exists|j: int| 0 <= j < ns.len() && type_is(#[trigger] ns[j], "tool_result"@) {
                let j = choose|j: int| 0 <= j < ns.len() && type_is(#[trigger] ns[j], "tool_result"@);
                if j < n {
                    assert(type_is(d[j], "tool_result"@));
                }
            } else {
                assert forall|j: int| 0 <= j < d.len() implies !type_is(
                    #[trigger] d[j],
                    "tool_result"@,
                ) by {
                    assert(d[j] == ns[j]);
                }
                assert(!type_is(ns[n], "tool_result"@));
            }
        }
        if 0 <= i < ns.len() && error_member(ns[i]) is Some && (forall|j: int|
            i < j < ns.len() ==> error_member(#[trigger] ns[j]) is None) {
            if i < n {
                assert(error_member(ns[n]) is None);
                assert(d[i] == ns[i]);
                assert forall|j: int| i < j < d.len() implies error_member(#[trigger] d[j]) is None by {
                    assert(d[j] == ns[j]);
                }
            }
        }
    }
}

/// An item calls a tool by a name.
pub open spec fn calls(n: NodeV, name: Seq<char>) -> bool {
    n matches NodeV::Block(b) && b.btype == MaybeStrV::Str("tool_use"@) && b.name
        == MaybeStrV::Str(name)
}

/// An item calls a tool by something that is no name.
pub open spec fn calls_badly(n: NodeV) -> bool {
    n matches NodeV::Block(b) && b.btype == MaybeStrV::Str("tool_use"@) && b.name is NotStr
}

/// An item calls no tool by a name.
pub open spec fn calls_none(n: NodeV) -> bool {
    !(n matches NodeV::Block(b) && b.btype == MaybeStrV::Str("tool_use"@) && b.name is Str)
}

/// The tool of content is that of its first call that has a name. It is refused
/// where a call before that has a name that is no string.
pub proof fn law_first_call_names_tool(ns: Seq<NodeV>)
    ensures
        match tool(ContentV::List(ns)) {
            Some(t) => match t.tool {
                Some(x) => exists|i: int|
                    0 <= i < ns.len() && calls(#[trigger] ns[i], x) && forall|j: int|
                        0 <= j < i ==> !calls_badly(#[trigger] ns[j]) && calls_none(ns[j]),
                None => forall|j: int|
                    0 <= j < ns.len() ==> !calls_badly(#[trigger] ns[j]) && calls_none(ns[j]),
            },
            None => exists|i: int|
                0 <= i < ns.len() && calls_badly(#[trigger] ns[i]) && forall|j: int|
                    0 <= j < i ==> calls_none(#[trigger] ns[j]),
        },
    decreases ns.len(),
{
    if ns.len() > 0 {
        let d = ns.drop_last();
        let n = ns.len() - 1;
        law_first_call_names_tool(d);
        assert(ns.last() == ns[n]);
        match tool(ContentV::List(d)) {
            None => {
                let i = choose|i: int|
                    0 <= i < d.len() && calls_badly(#[trigger] d[i]) && forall|j: int|
                        0 <= j < i ==> calls_none(#[trigger] d[j]);
                assert(calls_badly(ns[i]));
                assert forall|j: int| 0 <= j < i implies calls_none(#[trigger] ns[j]) by {
                    assert(d[j] == ns[j]);
                }
            },
            Some(t) => match t.tool {
                Some(x) => {
                    let i = choose|i: int|
                        0 <= i < d.len() && calls(#[trigger] d[i], x) && forall|j: int|
                            0 <= j < i ==> !calls_badly(#[trigger] d[j]) && calls_none(d[j]);
                    assert(calls(ns[i], x));
                    assert forall|j: int| 0 <= j < i implies !calls_badly(#[trigger] ns[j])
                        && calls_none(ns[j]) by {
                        assert(d[j] == ns[j]);
                    }
                },
                None => {
                    assert forall|j: int| 0 <= j < n implies !calls_badly(#[trigger] ns[j])
                        && calls_none(ns[j]) by {
                        assert(d[j] == ns[j]);
                    }
                    if !calls_badly(ns[n]) && !calls_none(ns[n]) {
                        assert(calls(ns[n], ns[n]->Block_0.name->Str_0));
                    }
                },
            },
        }
    }
}

/// Once a tool is known, later items change neither it nor its target.
pub proof fn law_first_call_counts(a: Seq<NodeV>, b: Seq<NodeV>)
    requires
        tool(ContentV::List(a)) matches Some(t) && t.tool is Some,
    ensures
        tool(ContentV::List(a + b)) matches Some(u) && u.tool == tool(ContentV::List(a))->0.tool
            && u.target == tool(ContentV::List(a))->0.target,
    decreases b.len(),
{
    if b.len() == 0 {
        assert(a + b =~= a);
    } else {
        law_first_call_counts(a, b.drop_last());
        assert((a + b).drop_last() =~= a + b.drop_last());
        assert((a + b).last() == b.last());
    }
}

/// A member is a string that is not empty.
pub open spec fn says(m: Seq<(Seq<char>, JsonV)>, k: Seq<char>, s: Seq<char>) -> bool {
    json::lookup(m, k) == Some(JsonV::Str(s)) && s.len() > 0
}

pub open spec fn silent(m: Seq<(Seq<char>, JsonV)>, k: Seq<char>) -> bool {
    forall|s: Seq<char>| !#[trigger] says(m, k, s)
}

proof fn lemma_silent(m: Seq<(Seq<char>, JsonV)>, k: Seq<char>)
    ensures
        silent(m, k) <==> some_text(m, k) is None,
        some_text(m, k) matches Some(s) ==> says(m, k, s),
{
    if let Some(s) = some_text(m, k) {
        assert(says(m, k, s));
    }
}

/// What a tool call works on: a path, else a URL or a pattern, else the start of
/// its command.
pub proof fn law_target_of_call(m: Seq<(Seq<char>, JsonV)>, s: Seq<char>)
    ensures
        ({
            let t = tool(ContentV::List(seq![call_with(m)]))->0.target;
            let no_path = silent(m, "file_path"@) && silent(m, "path"@) && silent(
                m,
                "notebook_path"@,
            ) && silent(m, "filePath"@);
            let no_name = no_path && silent(m, "url"@) && silent(m, "pattern"@);
            &&& tool(ContentV::List(seq![call_with(m)])) is Some
            &&& says(m, "file_path"@, s) ==> t == Some(s)
            &&& silent(m, "file_path"@) && says(m, "path"@, s) ==> t == Some(s)
            &&& silent(m, "file_path"@) && silent(m, "path"@) && says(m, "notebook_path"@, s) ==> t
                == Some(s)
            &&& silent(m, "file_path"@) && silent(m, "path"@) && silent(m, "notebook_path"@)
                && says(m, "filePath"@, s) ==> t == Some(s)
            &&& no_path && says(m, "url"@, s) ==> t == Some(s)
            &&& no_path && silent(m, "url"@) && says(m, "pattern"@, s) ==> t == Some(s)
            &&& no_name && says(m, "command"@, s) && s.len() <= 200 ==> t == Some(s)
            &&& no_name && says(m, "command"@, s) && s.len() > 200 ==> t == Some(s.take(200))
            &&& no_name && silent(m, "command"@) ==> t is None
        }),
{
    reveal_with_fuel(tool_nodes, 2);
    reveal_with_fuel(first_text, 7);
    let l = seq![call_with(m)];
    assert(l.drop_last() =~= Seq::empty());
    lemma_silent(m, "file_path"@);
    lemma_silent(m, "path"@);
    lemma_silent(m, "notebook_path"@);
    lemma_silent(m, "filePath"@);
    lemma_silent(m, "url"@);
    lemma_silent(m, "pattern"@);
    lemma_silent(m, "command"@);
    let k0 = target_keys();
    let k1 = k0.drop_first();
    let k2 = k1.drop_first();
    let k3 = k2.drop_first();
    let k4 = k3.drop_first();
    let k5 = k4.drop_first();
    assert(k1[0] == "path"@ && k2[0] == "notebook_path"@ && k3[0] == "filePath"@ && k4[0] == "url"@
        && k5[0] == "pattern"@);
    assert(k5.drop_first().len() == 0);
}

// ---------------------------------------------------------------------------
// What a row says of its record
// ---------------------------------------------------------------------------

/// The row of a record with a message whose role is given has that role, the type
/// of the record as its kind, the model of the message, the numbers of tokens of
/// its usage, and the text of its content; and it stands where the record stands.
#[verifier::spinoff_prover]
#[verifier::rlimit(60)]
pub proof fn law_row_of_record(
    ms: Seq<(Seq<char>, JsonV)>,
    mm: Seq<(Seq<char>, JsonV)>,
    role: Seq<char>,
    off: int,
    len: int,
    hash: int,
)
    requires
        json::lookup(ms, "message"@) == Some(JsonV::Object(mm)),
        json::lookup(mm, "role"@) == Some(JsonV::Str(role)),
    ensures
        judged(Some(JsonV::Object(ms)), off, len, hash) matches Outcome::Row(x) ==> {
            let t = json::lookup(ms, "timestamp"@);
            let c = json::lookup(mm, "content"@);
            let u = json::lookup(mm, "usage"@);
            &&& x.off == off && x.len == len && x.hash == hash
            &&& x.role == Some(role)
            &&& x.kind == json::get_str(JsonV::Object(ms), "type"@)
            &&& x.model == json::get_str(JsonV::Object(mm), "model"@)
            &&& t matches Some(JsonV::Str(s)) ==> x.ts == civil::timestamp_ms(encode_utf8(s))
            &&& t matches Some(JsonV::Num(Num::Int(i))) ==> x.ts == int_ms(i as int)
            &&& t is None ==> x.ts is None
            &&& c matches Some(JsonV::Str(s)) ==> x.text == s && x.tool is None && x.target is None
                && x.is_err is None
            &&& c is None ==> x.text.len() == 0
            &&& u matches Some(JsonV::Object(um)) ==> {
                &&& record::counts_as(json::lookup(um, "input_tokens"@), x.in_tok)
                &&& record::counts_as(json::lookup(um, "output_tokens"@), x.out_tok)
                &&& record::counts_as(json::lookup(um, "cache_read_input_tokens"@), x.cache_r)
            }
            &&& u is None ==> x.in_tok is None && x.out_tok is None && x.cache_r is None
        },
{
    record::law_record(ms);
    record::law_message(mm);
    match json::lookup(mm, "usage"@) {
        Some(JsonV::Object(um)) => {
            record::law_usage(um);
        },
        _ => {},
    }
    match json::lookup(mm, "content"@) {
        Some(JsonV::Str(s)) => {
            text::law_join_appends(Seq::empty(), s, " "@);
            assert(s.len() == 0 ==> s =~= Seq::empty());
        },
        None => {
            text::law_join_appends(Seq::empty(), role, " "@);
        },
        _ => {},
    }
}

/// A list of content gives its text item by item: the row's text is that of the
/// items that were read.
#[verifier::spinoff_prover]
#[verifier::rlimit(60)]
pub proof fn law_row_of_list(
    ms: Seq<(Seq<char>, JsonV)>,
    mm: Seq<(Seq<char>, JsonV)>,
    role: Seq<char>,
    a: Seq<JsonV>,
    i: int,
    s: Seq<char>,
    off: int,
    len: int,
    hash: int,
)
    requires
        json::lookup(ms, "message"@) == Some(JsonV::Object(mm)),
        json::lookup(mm, "role"@) == Some(JsonV::Str(role)),
        json::lookup(mm, "content"@) == Some(JsonV::Array(a)),
        0 <= i < a.len(),
        s.len() > 0,
        a[i] == JsonV::Str(s) || json::get(a[i], "text"@) == Some(JsonV::Str(s)) || (json::get(
            a[i],
            "content"@,
        ) == Some(JsonV::Str(s)) && json::get(a[i], "text"@) is None),
    ensures
        judged(Some(JsonV::Object(ms)), off, len, hash) matches Outcome::Row(x) ==> text::contains(
            x.text,
            s,
        ),
{
    record::law_record(ms);
    record::law_message(mm);
    match record::rec(JsonV::Object(ms)) {
        Some(r) => {
            let ns = r.message.content->List_0;
            record::law_node(a[i]);
            assert(record::node(a[i]) == Some(ns[i]));
            match a[i] {
                JsonV::Object(bm) => {
                    record::law_block(bm);
                },
                _ => {},
            }
            law_text_of_item(ns[i]);
            law_every_item_is_searchable(ns, i);
            let all = flat_content(ContentV::List(ns));
            assert(flat_content(ContentV::List(seq![ns[i]])) == s);
            assert(exists|k: int| text::occurs_at(all, s, k));
            text::law_find(all, s);
        },
        None => {},
    }
}

/// A time that is given as a number is in seconds where it is below a trillion
/// and in milliseconds from there on.
pub proof fn law_number_as_time(i: int)
    ensures
        0 <= i < 1_000_000_000_000 ==> int_ms(i) == Some(1000 * i),
        1_000_000_000_000 <= i <= i64::MAX ==> int_ms(i) == Some(i),
        i > i64::MAX ==> int_ms(i) is None,
{
}

/// A line that is only white space becomes nothing. One that is too long, too
/// deep or no text is rejected for that reason, in this order; and what is no
/// object is, too.
#[verifier::spinoff_prover]
#[verifier::rlimit(60)]
pub proof fn law_line_outcomes(line: Seq<u8>, off: int)
    ensures
        (forall|i: int| 0 <= i < line.len() ==> is_blank(#[trigger] line[i])) ==> line_outcome(
            line,
            off,
        ) is Blank,
        stripped(line).len() > 0 ==> !(line_outcome(line, off) is Blank),
        stripped(line).len() > 0 && line.len() > 33_554_432 ==> line_outcome(line, off)
            == Outcome::Reject("record_too_large"@),
        stripped(line).len() > 0 && line.len() <= 33_554_432 && nesting(stripped(line)) > 100
            ==> line_outcome(line, off) == Outcome::Reject("depth_limit"@),
        line_outcome(line, off) matches Outcome::Row(x) ==> x.off == off && x.len == line.len()
            && x.hash == record_hash(stripped(line)) && valid_utf8(stripped(line)),
{
    if forall|i: int| 0 <= i < line.len() ==> is_blank(#[trigger] line[i]) {
        lemma_all_blank(line);
    }
}

proof fn lemma_all_blank(b: Seq<u8>)
    requires
        forall|i: int| 0 <= i < b.len() ==> is_blank(#[trigger] b[i]),
    ensures
        strip_front(b).len() == 0,
        stripped(b).len() == 0,
    decreases b.len(),
{
    if b.len() > 0 {
        let d = b.drop_first();
        assert forall|i: int| 0 <= i < d.len() implies is_blank(#[trigger] d[i]) by {
            assert(d[i] == b[i + 1]);
        }
        assert(is_blank(b[0]));
        lemma_all_blank(d);
    }
}

/// White space in front of a line and behind it does not matter to what the line
/// says; what stands between is kept.
pub proof fn law_stripped(b: Seq<u8>, c: u8)
    requires
        is_blank(c),
    ensures
        stripped(seq![c] + b) == stripped(b),
        b.len() > 0 && !is_blank(b[0]) && !is_blank(b.last()) ==> stripped(b) == b && stripped(
            b.push(c),
        ) == b,
{
    assert((seq![c] + b).drop_first() =~= b);
    if b.len() > 0 && !is_blank(b[0]) && !is_blank(b.last()) {
        assert(b.push(c).drop_last() =~= b);
        assert(b.push(c)[0] == b[0]);
        assert(b.push(c).last() == c);
        assert(strip_front(b.push(c)) == b.push(c));
        assert(strip_back(b.push(c)) == strip_back(b));
    }
}

/// A record that could not be read is rejected, and so is a value that is no
/// object.
pub proof fn law_judged_rejects(v: JsonV, off: int, len: int, hash: int)
    ensures
        judged(None, off, len, hash) == Outcome::Reject("parse_error"@),
        !(judged(Some(v), off, len, hash) is Blank),
        json::strict(v) && !(v is Object) ==> judged(Some(v), off, len, hash) is Reject,
{
}

/// Brackets are counted one by one: those of two parts add up.
pub proof fn law_brackets_add_up(a: Seq<u8>, c: u8, x: u8, y: u8)
    ensures
        count_of(Seq::empty(), x, y) == 0,
        c == x || c == y ==> count_of(a.push(c), x, y) == count_of(a, x, y) + 1,
        c != x && c != y ==> count_of(a.push(c), x, y) == count_of(a, x, y),
{
    assert(a.push(c).drop_last() =~= a);
}

/// Every object without a fault in it becomes a row, unless it calls a tool whose
/// name is no string.
pub proof fn law_record_becomes_row(
    ms: Seq<(Seq<char>, JsonV)>,
    off: int,
    len: int,
    hash: int,
)
    requires
        json::strict(JsonV::Object(ms)),
    ensures
        ({
            let o = judged(Some(JsonV::Object(ms)), off, len, hash);
            &&& o is Row || o == Outcome::Reject("tool_name_not_a_string"@)
            &&& (match json::get(JsonV::Object(ms), "message"@) {
                Some(m) => !(json::get(m, "content"@) matches Some(JsonV::Array(_))),
                None => true,
            }) ==> o is Row
        }),
{
    let v = JsonV::Object(ms);
    assert forall|i: int| 0 <= i < ms.len() implies json::strict((#[trigger] ms[i]).1) by {
        json::law_strict(v, i);
    }
    record::law_strict_is_readable(ms);
    record::law_record(ms);
    match json::lookup(ms, "message"@) {
        Some(JsonV::Object(mm)) => {
            record::law_message(mm);
        },
        _ => {},
    }
}

} // verus!
