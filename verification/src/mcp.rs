//! The Model Context Protocol: one line of JSON-RPC in, one line out.
//!
//! Requests are read without a parser: what is needed of one are its id, scalars
//! at known keys, and the object of its arguments.

use crate::text;
use vstd::prelude::*;
use vstd::slice::*;
use vstd::string::*;

verus! {

/// A string as JSON.
pub fn js(s: &str) -> (r: String)
    ensures
        r@ == text::json_quote(s@),
{
    text::json_str(s)
}

// ---------------------------------------------------------------------------
// Fields
// ---------------------------------------------------------------------------

/// White space between the parts of a message.
pub open spec fn blank(c: char) -> bool {
    9 <= c as int <= 13 || c == ' '
}

/// The first index from `i` on that holds no white space.
pub open spec fn past_blanks(v: Seq<char>, i: int) -> int
    decreases v.len() - i,
{
    if 0 <= i < v.len() && blank(v[i]) {
        past_blanks(v, i + 1)
    } else {
        i
    }
}

/// The character that a backslash at index `i` stands for together with what is
/// behind it, and the index behind that. Where they are no JSON escape, the
/// character behind the backslash stands for itself.
pub open spec fn unescaped(v: Seq<char>, i: int) -> (char, int) {
    match text::escape_at(v, i) {
        Some(x) => x,
        None => (v[i + 1], i + 2),
    }
}

/// What stands from index `i` on up to the closing quote of a string, and the
/// index behind the quote.
pub open spec fn unquoted(v: Seq<char>, i: int) -> Option<(Seq<char>, int)>
    decreases v.len() - i,
{
    if !(0 <= i < v.len()) {
        None
    } else if v[i] == '"' {
        Some((Seq::empty(), i + 1))
    } else if v[i] == '\\' {
        if i + 1 < v.len() {
            let (c, n) = unescaped(v, i);
            match unquoted(v, n) {
                Some((t, e)) => Some((seq![c] + t, e)),
                None => None,
            }
        } else {
            None
        }
    } else {
        match unquoted(v, i + 1) {
            Some((t, e)) => Some((seq![v[i]] + t, e)),
            None => None,
        }
    }
}

/// A string ends behind its closing quote.
pub proof fn lemma_unquoted_end(v: Seq<char>, i: int)
    ensures
        unquoted(v, i) matches Some((t, e)) ==> 0 <= i < e <= v.len() && v[e - 1] == '"',
    decreases v.len() - i,
{
    if 0 <= i < v.len() && v[i] != '"' {
        if v[i] == '\\' {
            if i + 1 < v.len() {
                lemma_unquoted_end(v, unescaped(v, i).1);
            }
        } else {
            lemma_unquoted_end(v, i + 1);
        }
    }
}

/// Whether a string is a key, where index `e` is behind its closing quote: a
/// colon follows.
pub open spec fn is_key(v: Seq<char>, e: int) -> bool {
    let c = past_blanks(v, e);
    0 <= c < v.len() && v[c] == ':'
}

/// Where the value starts of the first member from index `i` on that has a key
/// and stands in at most `limit` objects, with `depth` objects open at `i`. What
/// stands in a string is neither a key nor a brace.
pub open spec fn member_at(
    v: Seq<char>,
    key: Seq<char>,
    i: int,
    depth: int,
    limit: int,
) -> Option<int>
    decreases v.len() - i,
{
    if !(0 <= i < v.len()) {
        None
    } else if v[i] == '"' {
        proof {
            lemma_unquoted_end(v, i + 1);
        }
        match unquoted(v, i + 1) {
            Some((t, e)) => if depth <= limit && t == key && is_key(v, e) {
                Some(past_blanks(v, past_blanks(v, e) + 1))
            } else {
                member_at(v, key, e, depth, limit)
            },
            None => None,
        }
    } else if v[i] == '{' {
        member_at(v, key, i + 1, depth + 1, limit)
    } else if v[i] == '}' {
        member_at(v, key, i + 1, depth - 1, limit)
    } else {
        member_at(v, key, i + 1, depth, limit)
    }
}

/// A bare value ends before such a character.
pub open spec fn ends_bare(c: char) -> bool {
    c == ',' || c == '}' || c == ']' || c == ' '
}

/// Where a bare value ends that goes on at index `i`.
pub open spec fn bare_end(v: Seq<char>, i: int) -> int
    decreases v.len() - i,
{
    if 0 <= i < v.len() && !ends_bare(v[i]) {
        bare_end(v, i + 1)
    } else {
        i
    }
}

/// The scalar that starts at index `i`: the text of a string, or a bare value as
/// it is written.
pub open spec fn scalar_from(v: Seq<char>, i: int) -> Option<Seq<char>> {
    if !(0 <= i < v.len()) {
        None
    } else if v[i] == '"' {
        match unquoted(v, i + 1) {
            Some((t, _)) => Some(t),
            None => None,
        }
    } else {
        Some(v.subrange(i, bare_end(v, i)))
    }
}

/// The scalar at a key that stands in at most `limit` objects.
pub open spec fn scalar_within(json: Seq<char>, key: Seq<char>, limit: int) -> Option<Seq<char>> {
    match member_at(json, key, 0, 0, limit) {
        Some(i) => scalar_from(json, i),
        None => None,
    }
}

/// The scalar at a key.
pub open spec fn scalar_at(json: Seq<char>, key: Seq<char>) -> Option<Seq<char>> {
    scalar_within(json, key, usize::MAX as int)
}

fn is_blank(c: char) -> (r: bool)
    ensures
        r == blank(c),
{
    c == ' ' || (c as u32 >= 9 && c as u32 <= 13)
}

fn skip_blanks(v: &[char], from: usize) -> (r: usize)
    requires
        from <= v@.len(),
    ensures
        r == past_blanks(v@, from as int),
        from <= r <= v@.len(),
{
    let mut i: usize = from;
    while i < v.len() && is_blank(v[i])
        invariant
            from <= i <= v@.len(),
            past_blanks(v@, from as int) == past_blanks(v@, i as int),
        decreases v.len() - i,
    {
        i += 1;
    }
    i
}

/// Reads a string from index `from` on, which is behind its opening quote.
fn read_quoted(v: &[char], from: usize) -> (r: Option<(Vec<char>, usize)>)
    ensures
        match r {
            Some((t, e)) => unquoted(v@, from as int) == Some((t@, e as int)) && from < e
                <= v@.len(),
            None => unquoted(v@, from as int) is None,
        },
{
    let n: usize = v.len();
    let mut out: Vec<char> = Vec::new();
    let mut i: usize = from;
    proof {
        match unquoted(v@, i as int) {
            Some((t, e)) => assert(out@ + t =~= t),
            None => {},
        }
    }
    while i < n
        invariant
            n == v@.len(),
            from <= i,
            unquoted(v@, from as int) == match unquoted(v@, i as int) {
                Some((t, e)) => Some((out@ + t, e)),
                None => None,
            },
        decreases n - i,
    {
        let ghost before = out@;
        if v[i] == '"' {
            assert(out@ + Seq::<char>::empty() =~= out@);
            return Some((out, i + 1));
        }
        if v[i] == '\\' {
            let (c, k) = match text::read_escape(v, i) {
                Some(x) => x,
                None => if n - i >= 2 {
                    (v[i + 1], i + 2)
                } else {
                    return None;
                },
            };
            out.push(c);
            proof {
                match unquoted(v@, k as int) {
                    Some((t, e)) => assert(before + (seq![c] + t) =~= out@ + t),
                    None => {},
                }
            }
            i = k;
        } else {
            out.push(v[i]);
            proof {
                match unquoted(v@, i + 1) {
                    Some((t, e)) => assert(before + (seq![v@[i as int]] + t) =~= out@ + t),
                    None => {},
                }
            }
            i += 1;
        }
    }
    None
}

fn same_chars(a: &[char], b: &[char]) -> (r: bool)
    ensures
        r == (a@ == b@),
{
    if a.len() == b.len() && text::chars_at(a, b, 0) {
        assert(a@.subrange(0, b@.len() as int) =~= a@);
        true
    } else {
        proof {
            if a@ == b@ {
                assert(a@.subrange(0, b@.len() as int) =~= b@);
            }
        }
        false
    }
}

/// Finds where the value of a member starts.
fn find_member(v: &[char], key: &[char], limit: usize) -> (r: Option<usize>)
    ensures
        match r {
            Some(i) => member_at(v@, key@, 0, 0, limit as int) == Some(i as int) && i <= v@.len(),
            None => member_at(v@, key@, 0, 0, limit as int) is None,
        },
{
    let n: usize = v.len();
    let mut depth: i128 = 0;
    let mut i: usize = 0;
    while i < n
        invariant
            n == v@.len(),
            i <= n,
            -(i as int) <= depth <= i,
            member_at(v@, key@, 0, 0, limit as int) == member_at(
                v@,
                key@,
                i as int,
                depth as int,
                limit as int,
            ),
        decreases n - i,
    {
        if v[i] == '"' {
            match read_quoted(v, i + 1) {
                Some((t, e)) => {
                    if depth <= limit as i128 && same_chars(&t, key) {
                        let c: usize = skip_blanks(v, e);
                        if c < n && v[c] == ':' {
                            return Some(skip_blanks(v, c + 1));
                        }
                    }
                    i = e;
                },
                None => {
                    return None;
                },
            }
        } else {
            if v[i] == '{' {
                depth = depth + 1;
            } else if v[i] == '}' {
                depth = depth - 1;
            }
            i += 1;
        }
    }
    None
}

fn read_scalar(v: &[char], i: usize) -> (r: Option<String>)
    requires
        i <= v@.len(),
    ensures
        match r {
            Some(s) => scalar_from(v@, i as int) == Some(s@),
            None => scalar_from(v@, i as int) is None,
        },
{
    if i >= v.len() {
        return None;
    }
    if v[i] == '"' {
        return match read_quoted(v, i + 1) {
            Some((t, _)) => Some(text::string_of(&t)),
            None => None,
        };
    }
    let mut e: usize = i;
    while e < v.len() && !(v[e] == ',' || v[e] == '}' || v[e] == ']' || v[e] == ' ')
        invariant
            i <= e <= v@.len(),
            bare_end(v@, i as int) == bare_end(v@, e as int),
        decreases v.len() - e,
    {
        e += 1;
    }
    Some(text::string_of(slice_subrange(v, i, e)))
}

/// The scalar at a key that stands in at most `limit` objects, without a parser.
pub fn field_within(json: &str, key: &str, limit: usize) -> (r: Option<String>)
    ensures
        match r {
            Some(s) => scalar_within(json@, key@, limit as int) == Some(s@),
            None => scalar_within(json@, key@, limit as int) is None,
        },
{
    let v = text::chars_of(json);
    match find_member(&v, &text::chars_of(key), limit) {
        Some(i) => read_scalar(&v, i),
        None => None,
    }
}

/// The scalar at a key, without a parser.
pub fn field(json: &str, key: &str) -> (r: Option<String>)
    ensures
        match r {
            Some(s) => scalar_at(json@, key@) == Some(s@),
            None => scalar_at(json@, key@) is None,
        },
{
    field_within(json, key, usize::MAX)
}

/// The number at a key, or a default.
pub open spec fn number_at(json: Seq<char>, key: Seq<char>, dflt: int) -> int {
    match scalar_at(json, key) {
        Some(s) => match text::parse_unsigned(text::trim(s), usize::MAX as int) {
            Some(n) => n as int,
            None => dflt,
        },
        None => dflt,
    }
}

/// The number at a key, or a default.
pub fn num(json: &str, key: &str, dflt: usize) -> (r: usize)
    ensures
        r == number_at(json@, key@, dflt as int),
{
    match field(json, key) {
        Some(s) => match text::read_unsigned(
            &text::trim_chars(&text::chars_of(s.as_str())),
            usize::MAX as u64,
        ) {
            Some(n) => n as usize,
            None => dflt,
        },
        None => dflt,
    }
}

// ---------------------------------------------------------------------------
// The id and the arguments
// ---------------------------------------------------------------------------

/// The first index from `i` on that holds a comma or a closing brace, or the end.
pub open spec fn member_end(v: Seq<char>, i: int) -> int
    decreases v.len() - i,
{
    if 0 <= i < v.len() && v[i] != ',' && v[i] != '}' {
        member_end(v, i + 1)
    } else {
        i
    }
}

/// Where the id of a message starts, which is a member of the message itself.
pub open spec fn id_start(v: Seq<char>) -> Option<int> {
    member_at(v, "id"@, 0, 0, 1)
}

/// Where an id ends that starts at index `i`: behind its closing quote, or where
/// its member ends. A string that is not closed goes on to the end.
pub open spec fn id_end(v: Seq<char>, i: int) -> int {
    if v[i] == '"' {
        match unquoted(v, i + 1) {
            Some((_, e)) => e,
            None => v.len() as int,
        }
    } else {
        member_end(v, i)
    }
}

/// If the text has an id, it does not break off before the id or in it: a string
/// has a second quote.
pub open spec fn id_complete(json: Seq<char>) -> bool {
    match id_start(json) {
        Some(i) => i < json.len() && (json[i] == '"' ==> exists|j: int|
            i < j < json.len() && #[trigger] json[j] == '"'),
        None => true,
    }
}

/// The id of a message as it is written. A message without one, or with `null`,
/// is a notification.
pub open spec fn id_of(json: Seq<char>) -> Option<Seq<char>> {
    match id_start(json) {
        Some(i) => {
            let s = text::trim(json.subrange(i, id_end(json, i)));
            if s == "null"@ || s.len() == 0 {
                None
            } else {
                Some(s)
            }
        },
        None => None,
    }
}

fn find_id(v: &[char]) -> (r: Option<usize>)
    ensures
        match r {
            Some(i) => id_start(v@) == Some(i as int) && i <= v@.len(),
            None => id_start(v@) is None,
        },
{
    find_member(v, &text::chars_of("id"), 1)
}

/// Whether the text does not break off before its id or in it.
pub fn has_whole_id(json: &str) -> (r: bool)
    ensures
        r == id_complete(json@),
{
    let v = text::chars_of(json);
    let i: usize = match find_id(&v) {
        Some(i) => i,
        None => {
            return true;
        },
    };
    if i >= v.len() {
        return false;
    }
    if v[i] != '"' {
        return true;
    }
    let mut j: usize = i + 1;
    while j < v.len()
        invariant
            i < j <= v@.len(),
            v@ == json@,
            id_start(json@) == Some(i as int),
            forall|k: int| i < k < j ==> #[trigger] v@[k] != '"',
        decreases v.len() - j,
    {
        if v[j] == '"' {
            assert(json@[j as int] == '"');
            return true;
        }
        j += 1;
    }
    false
}

/// The id of a message as it is written, so that a string stays a string and a
/// number a number. `None` for a notification, which gets no reply.
pub fn raw_id(json: &str) -> (r: Option<String>)
    requires
        id_complete(json@),
    ensures
        match r {
            Some(s) => id_of(json@) == Some(s@),
            None => id_of(json@) is None,
        },
{
    let v = text::chars_of(json);
    let i: usize = match find_id(&v) {
        Some(i) => i,
        None => {
            return None;
        },
    };
    let e: usize = if v[i] == '"' {
        match read_quoted(&v, i + 1) {
            Some((_, e)) => e,
            None => v.len(),
        }
    } else {
        let mut e: usize = i;
        while e < v.len() && v[e] != ',' && v[e] != '}'
            invariant
                i <= e <= v@.len(),
                member_end(v@, i as int) == member_end(v@, e as int),
            decreases v.len() - e,
        {
            e += 1;
        }
        e
    };
    let t = text::string_of(&text::trim_chars(slice_subrange(&v, i, e)));
    if text::same(t.as_str(), "null") || t.as_str().unicode_len() == 0 {
        None
    } else {
        Some(t)
    }
}

/// Where the object ends of which `depth` braces are open at index `i`. Braces
/// inside strings do not count.
pub open spec fn object_end(v: Seq<char>, i: int, depth: int) -> Option<int>
    decreases v.len() - i,
{
    if !(0 <= i < v.len()) {
        None
    } else if v[i] == '"' {
        proof {
            lemma_unquoted_end(v, i + 1);
        }
        match unquoted(v, i + 1) {
            Some((_, e)) => object_end(v, e, depth),
            None => None,
        }
    } else if v[i] == '{' {
        object_end(v, i + 1, depth + 1)
    } else if v[i] == '}' {
        if depth == 1 {
            Some(i)
        } else {
            object_end(v, i + 1, depth - 1)
        }
    } else {
        object_end(v, i + 1, depth)
    }
}

/// The `arguments` object of a message, or nothing. It is a member of the message
/// or of an object in it.
pub open spec fn arguments_of(json: Seq<char>) -> Seq<char> {
    match member_at(json, "arguments"@, 0, 0, 2) {
        Some(s) => if 0 <= s < json.len() && json[s] == '{' {
            match object_end(json, s, 0) {
                Some(e) => json.subrange(s, e + 1),
                None => Seq::empty(),
            }
        } else {
            Seq::empty()
        },
        None => Seq::empty(),
    }
}

fn empty_string() -> (r: String)
    ensures
        r@ == Seq::<char>::empty(),
{
    String::new()
}

/// Finds the closing brace of the object that starts at index `from`.
fn find_object_end(v: &[char], from: usize) -> (r: Option<usize>)
    requires
        from < v@.len(),
        v@[from as int] == '{',
    ensures
        match r {
            Some(e) => object_end(v@, from as int, 0) == Some(e as int) && from < e < v@.len(),
            None => object_end(v@, from as int, 0) is None,
        },
{
    let n: usize = v.len();
    let mut depth: usize = 1;
    let mut i: usize = from + 1;
    while i < n
        invariant
            n == v@.len(),
            from < i <= n,
            1 <= depth <= i,
            object_end(v@, from as int, 0) == object_end(v@, i as int, depth as int),
        decreases n - i,
    {
        if v[i] == '"' {
            match read_quoted(v, i + 1) {
                Some((_, e)) => {
                    i = e;
                },
                None => {
                    return None;
                },
            }
        } else {
            if v[i] == '{' {
                depth += 1;
            } else if v[i] == '}' {
                if depth == 1 {
                    return Some(i);
                }
                depth -= 1;
            }
            i += 1;
        }
    }
    None
}

/// The `arguments` object of a message, so that a key of the message itself is
/// not taken for an argument.
pub fn args_of(json: &str) -> (r: String)
    ensures
        r@ == arguments_of(json@),
{
    let v = text::chars_of(json);
    match find_member(&v, &text::chars_of("arguments"), 2) {
        Some(s) => if s < v.len() && v[s] == '{' {
            match find_object_end(&v, s) {
                Some(e) => text::string_of(slice_subrange(&v, s, e + 1)),
                None => empty_string(),
            }
        } else {
            empty_string()
        },
        None => empty_string(),
    }
}

// ---------------------------------------------------------------------------
// Tools
// ---------------------------------------------------------------------------

/// The tools: name, description, and the JSON schema of the arguments. The
/// descriptions are written for a model that decides whether to call the tool.
pub const TOOLS: [(&'static str, &'static str, &'static str); 8] = [
    (
        "search",
        "Full-text search across every indexed agent session (claude_code and Codex CLI). fts5 syntax: bare terms, \"exact phrase\", A AND B, A OR B, NOT B, prefix*. Returns TSV with a match snippet read from the source file. Prefer several narrow searches over one broad one; the header reports the total so you know when to narrow.",
        "{\"type\":\"object\",\"properties\":{\"query\":{\"type\":\"string\",\"description\":\"fts5 query\"},\"limit\":{\"type\":\"integer\",\"description\":\"max rows, default 20\"}},\"required\":[\"query\"]}",
    ),
    (
        "catalog",
        "Describe the whole store in ~1.7 KB: schema, time range, per-column null rate, and the full kind/tool/model distributions. Call this first -- it is cheaper than guessing what is in here, and it names the exact values later filters can use.",
        "{\"type\":\"object\",\"properties\":{}}",
    ),
    (
        "turns",
        "One line per user request in a session: what was asked, how many records and tool calls it took, how many failed, and what it cost in tokens. Tokens are counted once per LLM call, not once per record -- a naive sum inflates them 1.7x.",
        "{\"type\":\"object\",\"properties\":{\"session\":{\"type\":\"string\",\"description\":\"session id, as printed by search or catalog\"},\"limit\":{\"type\":\"integer\"}},\"required\":[\"session\"]}",
    ),
    (
        "timeline",
        "A session's events in order: kind, role, tool, target, error flag, and a text preview read from the source. Use after `turns` to see how one request actually went.",
        "{\"type\":\"object\",\"properties\":{\"session\":{\"type\":\"string\"},\"start\":{\"type\":\"integer\",\"description\":\"first seq, default 0\"},\"limit\":{\"type\":\"integer\"}},\"required\":[\"session\"]}",
    ),
    (
        "errors",
        "Failed tool calls across all sessions, newest first, each naming the tool and what it was acting on. The tool name is inherited from the preceding call when the failure record does not carry one.",
        "{\"type\":\"object\",\"properties\":{\"limit\":{\"type\":\"integer\"}}}",
    ),
    (
        "sql",
        "Read-only SQL over the index. Tables: run(sid,ext,path,size,cursor,n_ev), ev(sid,seq,off,len,ts,kind,role,model,tool,target,in_tok,out_tok,cache_r,is_err), ftx (fts5, MATCH only), ftx_map(rid,sid,seq). ts is epoch ms. Writes and ATTACH are refused. Errors name the fix, including a candidate column or literal.",
        "{\"type\":\"object\",\"properties\":{\"query\":{\"type\":\"string\"},\"limit\":{\"type\":\"integer\"}},\"required\":[\"query\"]}",
    ),
    (
        "record",
        "The original bytes of one record, exactly as the framework wrote them. Verified by checksum: if the source changed on disk this fails loudly rather than returning the wrong bytes.",
        "{\"type\":\"object\",\"properties\":{\"session\":{\"type\":\"string\"},\"seq\":{\"type\":\"integer\"}},\"required\":[\"session\",\"seq\"]}",
    ),
    (
        "doctor",
        "Verify the index against the files it was built from: re-hash records, find sessions whose file is gone, check the full-text index for desync. Use when a result looks stale -- SQLite's own integrity_check cannot see any of this.",
        "{\"type\":\"object\",\"properties\":{}}",
    ),
];

/// A tool as an entry of the list.
pub open spec fn tool_entry(i: int) -> Seq<char> {
    "{\"name\":"@ + text::json_quote(TOOLS@[i].0@) + ",\"description\":"@ + text::json_quote(
        TOOLS@[i].1@,
    ) + ",\"inputSchema\":"@ + TOOLS@[i].2@ + "}"@
}

/// The entries of the list of tools.
pub open spec fn tool_entries() -> Seq<Seq<char>> {
    Seq::new(8, |i: int| tool_entry(i))
}

/// The list of tools.
pub open spec fn tool_list() -> Seq<char> {
    "{\"tools\":["@ + text::join(tool_entries(), ","@) + "]}"@
}

/// The list of tools.
pub fn tools_list() -> (r: String)
    ensures
        r@ == tool_list(),
{
    let tools = TOOLS;
    let mut v: Vec<String> = Vec::new();
    let mut i: usize = 0;
    while i < 8
        invariant
            i <= 8,
            tools == TOOLS,
            text::texts(v@) == tool_entries().take(i as int),
        decreases 8 - i,
    {
        let (name, desc, schema) = tools[i];
        let mut s = "{\"name\":".to_owned();
        s.append(js(name).as_str());
        s.append(",\"description\":");
        s.append(js(desc).as_str());
        s.append(",\"inputSchema\":");
        s.append(schema);
        s.append("}");
        let ghost before = text::texts(v@);
        assert(s@ == tool_entry(i as int));
        v.push(s);
        assert(text::texts(v@) =~= before.push(s@));
        assert(before.push(s@) =~= tool_entries().take(i + 1));
        i += 1;
    }
    assert(tool_entries().take(8) =~= tool_entries());
    let mut out = "{\"tools\":[".to_owned();
    out.append(text::join_strings(&v, ",").as_str());
    out.append("]}");
    out
}

/// What a call of a tool asks for.
#[derive(Debug)]
pub enum Call {
    Search { query: String, limit: usize },
    Catalog,
    Turns { session: String, limit: usize },
    Timeline { session: String, start: i64, limit: usize },
    Errors { limit: usize },
    Sql { query: String, limit: usize },
    Record { session: String, seq: i64 },
    Doctor,
    Refuse(String),
}

/// What a `Call` stands for.
pub enum CallV {
    Search { query: Seq<char>, limit: int },
    Catalog,
    Turns { session: Seq<char>, limit: int },
    Timeline { session: Seq<char>, start: int, limit: int },
    Errors { limit: int },
    Sql { query: Seq<char>, limit: int },
    Record { session: Seq<char>, seq: int },
    Doctor,
    Refuse(Seq<char>),
}

impl View for Call {
    type V = CallV;

    open spec fn view(&self) -> CallV {
        match self {
            Call::Search { query, limit } => CallV::Search { query: query@, limit: *limit as int },
            Call::Catalog => CallV::Catalog,
            Call::Turns { session, limit } => CallV::Turns {
                session: session@,
                limit: *limit as int,
            },
            Call::Timeline { session, start, limit } => CallV::Timeline {
                session: session@,
                start: *start as int,
                limit: *limit as int,
            },
            Call::Errors { limit } => CallV::Errors { limit: *limit as int },
            Call::Sql { query, limit } => CallV::Sql { query: query@, limit: *limit as int },
            Call::Record { session, seq } => CallV::Record {
                session: session@,
                seq: *seq as int,
            },
            Call::Doctor => CallV::Doctor,
            Call::Refuse(why) => CallV::Refuse(why@),
        }
    }
}

/// An unsigned number read as a signed one of 64 bits.
pub open spec fn signed(n: int) -> int {
    if n >= 0x8000_0000_0000_0000 {
        n - 0x1_0000_0000_0000_0000
    } else {
        n
    }
}

fn as_signed(n: usize) -> (r: i64)
    ensures
        r == signed(n as int),
{
    let w: u64 = n as u64;
    if w >= 0x8000_0000_0000_0000 {
        -((0xffff_ffff_ffff_ffff - w) as i64) - 1
    } else {
        w as i64
    }
}

/// What a call with a name and arguments asks for.
pub open spec fn call_of(name: Seq<char>, args: Seq<char>) -> CallV {
    let query = scalar_at(args, "query"@);
    let session = scalar_at(args, "session"@);
    if name == "search"@ {
        match query {
            Some(q) => CallV::Search { query: q, limit: number_at(args, "limit"@, 20) },
            None => CallV::Refuse("search needs a query"@),
        }
    } else if name == "catalog"@ {
        CallV::Catalog
    } else if name == "turns"@ {
        match session {
            Some(s) => CallV::Turns { session: s, limit: number_at(args, "limit"@, 60) },
            None => CallV::Refuse("turns needs a session"@),
        }
    } else if name == "timeline"@ {
        match session {
            Some(s) => CallV::Timeline {
                session: s,
                start: signed(number_at(args, "start"@, 0)),
                limit: number_at(args, "limit"@, 80),
            },
            None => CallV::Refuse("timeline needs a session"@),
        }
    } else if name == "errors"@ {
        CallV::Errors { limit: number_at(args, "limit"@, 50) }
    } else if name == "sql"@ {
        match query {
            Some(q) => CallV::Sql { query: q, limit: number_at(args, "limit"@, 50) },
            None => CallV::Refuse("sql needs a query"@),
        }
    } else if name == "record"@ {
        match session {
            Some(s) => {
                let seq = number_at(args, "seq"@, usize::MAX as int);
                if seq == usize::MAX {
                    CallV::Refuse("record needs a seq"@)
                } else {
                    CallV::Record { session: s, seq: signed(seq) }
                }
            },
            None => CallV::Refuse("record needs a session"@),
        }
    } else if name == "doctor"@ {
        CallV::Doctor
    } else {
        CallV::Refuse(
            "unknown tool "@ + name + "; call tools/list for the "@ + text::dec(8)
                + " available"@,
        )
    }
}

/// What a call with a name and arguments asks for, or why it is refused.
pub fn call(name: &str, args: &str) -> (r: Call)
    ensures
        r@ == call_of(name@, args@),
{
    if text::same(name, "search") {
        match field(args, "query") {
            Some(q) => Call::Search { query: q, limit: num(args, "limit", 20) },
            None => Call::Refuse("search needs a query".to_owned()),
        }
    } else if text::same(name, "catalog") {
        Call::Catalog
    } else if text::same(name, "turns") {
        match field(args, "session") {
            Some(s) => Call::Turns { session: s, limit: num(args, "limit", 60) },
            None => Call::Refuse("turns needs a session".to_owned()),
        }
    } else if text::same(name, "timeline") {
        match field(args, "session") {
            Some(s) => Call::Timeline {
                session: s,
                start: as_signed(num(args, "start", 0)),
                limit: num(args, "limit", 80),
            },
            None => Call::Refuse("timeline needs a session".to_owned()),
        }
    } else if text::same(name, "errors") {
        Call::Errors { limit: num(args, "limit", 50) }
    } else if text::same(name, "sql") {
        match field(args, "query") {
            Some(q) => Call::Sql { query: q, limit: num(args, "limit", 50) },
            None => Call::Refuse("sql needs a query".to_owned()),
        }
    } else if text::same(name, "record") {
        match field(args, "session") {
            Some(s) => {
                let seq: usize = num(args, "seq", usize::MAX);
                if seq == usize::MAX {
                    Call::Refuse("record needs a seq".to_owned())
                } else {
                    Call::Record { session: s, seq: as_signed(seq) }
                }
            },
            None => Call::Refuse("record needs a session".to_owned()),
        }
    } else if text::same(name, "doctor") {
        Call::Doctor
    } else {
        let mut e = "unknown tool ".to_owned();
        e.append(name);
        e.append("; call tools/list for the ");
        text::push_usize(&mut e, 8);
        e.append(" available");
        Call::Refuse(e)
    }
}

// ---------------------------------------------------------------------------
// Replies
// ---------------------------------------------------------------------------

/// The result of a call. An answer that is itself an error report is marked as
/// one.
pub open spec fn content_of(r: Result<Seq<char>, Seq<char>>) -> Seq<char> {
    match r {
        Ok(t) => "{\"content\":[{\"type\":\"text\",\"text\":"@ + text::json_quote(t) + "}]"@ + (
        if text::starts_with(t, "{\"code\":\"ALOG_"@) {
            ",\"isError\":true"@
        } else {
            Seq::empty()
        }) + "}"@,
        Err(e) => "{\"content\":[{\"type\":\"text\",\"text\":"@ + text::json_quote(e)
            + "}],\"isError\":true}"@,
    }
}

pub open spec fn answer_view(r: Result<String, String>) -> Result<Seq<char>, Seq<char>> {
    match r {
        Ok(t) => Ok(t@),
        Err(e) => Err(e@),
    }
}

/// The result of a call.
pub fn content(r: &Result<String, String>) -> (s: String)
    ensures
        s@ == content_of(answer_view(*r)),
{
    let mut out = "{\"content\":[{\"type\":\"text\",\"text\":".to_owned();
    match r {
        Ok(t) => {
            out.append(js(t.as_str()).as_str());
            out.append("}]");
            if text::str_starts_with(t.as_str(), "{\"code\":\"ALOG_") {
                out.append(",\"isError\":true");
            } else {
                assert(out@ + Seq::<char>::empty() =~= out@);
            }
            out.append("}");
        },
        Err(e) => {
            out.append(js(e.as_str()).as_str());
            out.append("}],\"isError\":true}");
        },
    }
    out
}

/// A reply with a result.
pub open spec fn result_reply(id: Seq<char>, body: Seq<char>) -> Seq<char> {
    "{\"jsonrpc\":\"2.0\",\"id\":"@ + id + ",\"result\":"@ + body + "}"@
}

/// A reply to a method that there is not.
pub open spec fn unknown_reply(id: Seq<char>, method: Seq<char>) -> Seq<char> {
    "{\"jsonrpc\":\"2.0\",\"id\":"@ + id + ",\"error\":{\"code\":-32601,\"message\":"@
        + text::json_quote("method not found: "@ + method) + "}}"@
}

/// A reply with a result, unless the message was a notification.
pub fn reply(id: &Option<String>, body: &str) -> (r: Option<String>)
    ensures
        match (r, *id) {
            (Some(m), Some(i)) => m@ == result_reply(i@, body@),
            (None, None) => true,
            _ => false,
        },
{
    match id {
        Some(i) => {
            let mut m = "{\"jsonrpc\":\"2.0\",\"id\":".to_owned();
            m.append(i.as_str());
            m.append(",\"result\":");
            m.append(body);
            m.append("}");
            Some(m)
        },
        None => None,
    }
}

/// What a line asks for.
#[derive(Debug)]
pub enum Request {
    /// Nothing is to be done or said.
    Ignore,
    /// A reply is to be sent.
    Reply(String),
    /// A tool is to be called; the result goes to the id, if there is one.
    Tool { id: Option<String>, name: String, args: String },
}

/// What a `Request` stands for.
pub enum RequestV {
    Ignore,
    Reply(Seq<char>),
    Tool { id: Option<Seq<char>>, name: Seq<char>, args: Seq<char> },
}

impl View for Request {
    type V = RequestV;

    open spec fn view(&self) -> RequestV {
        match self {
            Request::Ignore => RequestV::Ignore,
            Request::Reply(s) => RequestV::Reply(s@),
            Request::Tool { id, name, args } => RequestV::Tool {
                id: text::opt_text(*id),
                name: name@,
                args: args@,
            },
        }
    }
}

/// The answer to `initialize`.
pub open spec fn greeting(version: Seq<char>) -> Seq<char> {
    "{\"protocolVersion\":\"2024-11-05\",\"capabilities\":{\"tools\":{}},\"serverInfo\":{\"name\":\"alog\",\"version\":"@
        + text::json_quote(version) + "}}"@
}

/// What a line asks for, where `version` is the program's. The method is a member
/// of the message, the name of a tool one of the message or of an object in it:
/// what stands in the arguments is neither. A notification gets no reply, and a
/// tool that it calls runs all the same.
pub open spec fn request_of(line: Seq<char>, version: Seq<char>) -> RequestV {
    let t = text::trim(line);
    let method = text::or_empty(scalar_within(t, "method"@, 1));
    if t.len() == 0 {
        RequestV::Ignore
    } else if method == "tools/call"@ {
        RequestV::Tool {
            id: id_of(t),
            name: text::or_empty(scalar_within(t, "name"@, 2)),
            args: arguments_of(t),
        }
    } else {
        match id_of(t) {
            None => RequestV::Ignore,
            Some(id) => RequestV::Reply(
                if method == "initialize"@ {
                    result_reply(id, greeting(version))
                } else if method == "tools/list"@ {
                    result_reply(id, tool_list())
                } else if method == "ping"@ {
                    result_reply(id, "{}"@)
                } else {
                    unknown_reply(id, method)
                },
            ),
        }
    }
}

/// A notification is never answered.
pub proof fn law_notification_silent(line: Seq<char>, version: Seq<char>)
    requires
        id_of(text::trim(line)) is None,
    ensures
        !(request_of(line, version) is Reply),
        request_of(line, version) matches RequestV::Tool { id, .. } ==> id is None,
{
}

fn reply_to(id: &Option<String>, body: &str) -> (r: Request)
    ensures
        match text::opt_text(*id) {
            Some(i) => r@ == RequestV::Reply(result_reply(i, body@)),
            None => r@ == RequestV::Ignore,
        },
{
    match reply(id, body) {
        Some(m) => Request::Reply(m),
        None => Request::Ignore,
    }
}

/// What a line asks for. The caller makes sure that the line does not break off
/// in its id.
pub fn request(line: &str, version: &str) -> (r: Request)
    requires
        id_complete(text::trim(line@)),
    ensures
        r@ == request_of(line@, version@),
{
    let t = text::string_of(&text::trim_chars(&text::chars_of(line)));
    let t = t.as_str();
    if t.unicode_len() == 0 {
        return Request::Ignore;
    }
    let method = match field_within(t, "method", 1) {
        Some(m) => m,
        None => empty_string(),
    };
    let m = method.as_str();
    let id = raw_id(t);
    if text::same(m, "tools/call") {
        let name = match field_within(t, "name", 2) {
            Some(n) => n,
            None => empty_string(),
        };
        return Request::Tool { id, name, args: args_of(t) };
    }
    if text::same(m, "initialize") {
        let mut body =
            "{\"protocolVersion\":\"2024-11-05\",\"capabilities\":{\"tools\":{}},\"serverInfo\":{\"name\":\"alog\",\"version\":".to_owned();
        body.append(js(version).as_str());
        body.append("}}");
        reply_to(&id, body.as_str())
    } else if text::same(m, "tools/list") {
        reply_to(&id, tools_list().as_str())
    } else if text::same(m, "ping") {
        reply_to(&id, "{}")
    } else {
        match &id {
            Some(i) => {
                let mut e = "method not found: ".to_owned();
                e.append(m);
                let mut out = "{\"jsonrpc\":\"2.0\",\"id\":".to_owned();
                out.append(i.as_str());
                out.append(",\"error\":{\"code\":-32601,\"message\":");
                out.append(js(e.as_str()).as_str());
                out.append("}}");
                Request::Reply(out)
            },
            None => Request::Ignore,
        }
    }
}

// ---------------------------------------------------------------------------
// What is written can be read
// ---------------------------------------------------------------------------

/// A string that a JSON reader reads is read.
proof fn lemma_reads_json(v: Seq<char>, i: int)
    ensures
        text::json_rest(v, i) is Some ==> unquoted(v, i) == text::json_rest(v, i),
    decreases v.len() - i,
{
    if 0 <= i < v.len() && v[i] != '"' {
        if v[i] == '\\' {
            match text::escape_at(v, i) {
                Some((c, n)) => lemma_reads_json(v, n),
                None => {},
            }
        } else {
            lemma_reads_json(v, i + 1);
        }
    }
}

/// A string that was written as JSON at index `i` is read from there.
proof fn lemma_quoted_at(v: Seq<char>, i: int, s: Seq<char>)
    requires
        text::occurs_at(v, text::json_quote(s), i),
    ensures
        v[i] == '"',
        i + text::json_quote(s).len() <= v.len(),
        unquoted(v, i + 1) == Some((s, i + text::json_quote(s).len())),
{
    let q = text::json_quote(s);
    let w = text::json_body(s);
    let u = v.subrange(i, i + q.len());
    assert(u[0] == v[i]);
    assert(u[q.len() - 1] == v[i + q.len() - 1]);
    assert(v.subrange(i + 1, i + 1 + w.len()) =~= w) by {
        assert(q.subrange(1, (1 + w.len()) as int) =~= w);
        assert(u.subrange(1, (1 + w.len()) as int) =~= v.subrange(i + 1, i + 1 + w.len()));
    }
    text::lemma_json_rest(v, i + 1, s);
    lemma_reads_json(v, i + 1);
}

/// An object with one member as JSON.
pub open spec fn one_member(key: Seq<char>, value: Seq<char>) -> Seq<char> {
    seq!['{'] + text::json_quote(key) + seq![':'] + value + seq!['}']
}

/// The value of an object's only member is found.
proof fn lemma_one_member(key: Seq<char>, value: Seq<char>, limit: int)
    requires
        limit >= 1,
        value.len() > 0,
        !blank(value[0]),
    ensures
        ({
            let v = one_member(key, value);
            let k = text::json_quote(key).len() as int;
            &&& member_at(v, key, 0, 0, limit) == Some(k + 2)
            &&& v.len() == k + value.len() + 3
            &&& v[0] == '{'
            &&& v[k + 1] == ':'
            &&& v[v.len() - 1] == '}'
            &&& text::occurs_at(v, value, k + 2)
            &&& v[1] == '"'
            &&& unquoted(v, 2) == Some((key, k + 1))
        }),
{
    let v = one_member(key, value);
    let q = text::json_quote(key);
    let k = q.len() as int;
    assert(v.subrange(1, 1 + k) =~= q);
    lemma_quoted_at(v, 1, key);
    assert(v.subrange(k + 2, k + 2 + value.len()) =~= value);
    assert(v[k + 1] == ':');
    assert(v[k + 2] == value[0]);
    assert(past_blanks(v, k + 1) == k + 1);
    assert(past_blanks(v, k + 2) == k + 2);
    assert(is_key(v, k + 1));
    assert(member_at(v, key, 1, 1, limit) == Some(k + 2));
    assert(member_at(v, key, 0, 0, limit) == member_at(v, key, 1, 1, limit));
}

/// Every string that is written as JSON under any key is read back from there.
pub proof fn law_field_reads_back(key: Seq<char>, s: Seq<char>)
    ensures
        scalar_at(one_member(key, text::json_quote(s)), key) == Some(s),
{
    let v = one_member(key, text::json_quote(s));
    lemma_one_member(key, text::json_quote(s), usize::MAX as int);
    lemma_quoted_at(v, text::json_quote(key).len() as int + 2, s);
}

proof fn lemma_trim_keeps(s: Seq<char>)
    requires
        s.len() > 0,
        !text::is_ws(s[0]),
        !text::is_ws(s.last()),
    ensures
        text::trim(s) == s,
{
}

/// A string that a client sends as its id comes back as it was written, whatever
/// it holds.
pub proof fn law_id_reads_back(s: Seq<char>)
    ensures
        id_of(one_member("id"@, text::json_quote(s))) == Some(text::json_quote(s)),
{
    let q = text::json_quote(s);
    let v = one_member("id"@, q);
    lemma_one_member("id"@, q, 1);
    let i = text::json_quote("id"@).len() as int + 2;
    lemma_quoted_at(v, i, s);
    assert(v.subrange(i, i + q.len()) == q);
    lemma_trim_keeps(q);
    reveal_strlit("null");
    assert(q[0] != "null"@[0]);
}

proof fn lemma_object_end(v: Seq<char>, i: int, depth: int)
    ensures
        object_end(v, i, depth) matches Some(e) ==> 0 <= i <= e < v.len() && v[e] == '}',
    decreases v.len() - i,
{
    if 0 <= i < v.len() {
        if v[i] == '"' {
            lemma_unquoted_end(v, i + 1);
            match unquoted(v, i + 1) {
                Some((_, e)) => lemma_object_end(v, e, depth),
                None => {},
            }
        } else if v[i] == '{' {
            lemma_object_end(v, i + 1, depth + 1);
        } else if v[i] == '}' {
            lemma_object_end(v, i + 1, depth - 1);
        } else {
            lemma_object_end(v, i + 1, depth);
        }
    }
}

/// The arguments of a message are nothing, or a part of it that starts with an
/// opening brace and ends with a closing one: no key outside of them is read as
/// an argument.
pub proof fn law_arguments_are_a_part(json: Seq<char>)
    ensures
        ({
            let a = arguments_of(json);
            a.len() == 0 || (a[0] == '{' && a.last() == '}' && exists|k: int|
                text::occurs_at(json, a, k))
        }),
{
    match member_at(json, "arguments"@, 0, 0, 2) {
        Some(s) => {
            if 0 <= s < json.len() && json[s] == '{' {
                lemma_object_end(json, s, 0);
                match object_end(json, s, 0) {
                    Some(e) => {
                        assert(text::occurs_at(json, json.subrange(s, e + 1), s));
                    },
                    None => {},
                }
            }
        },
        None => {},
    }
}

/// Every string that a client sends as an argument is read, whatever it and its
/// key hold.
pub proof fn law_argument_reads_back(key: Seq<char>, s: Seq<char>)
    ensures
        ({
            let args = one_member(key, text::json_quote(s));
            &&& arguments_of(one_member("arguments"@, args)) == args
            &&& scalar_at(arguments_of(one_member("arguments"@, args)), key) == Some(s)
        }),
{
    let q = text::json_quote(s);
    let args = one_member(key, q);
    let v = one_member("arguments"@, args);
    lemma_one_member(key, q, 2);
    lemma_one_member("arguments"@, args, 2);
    let at = text::json_quote("arguments"@).len() as int + 2;
    let k = text::json_quote(key);
    assert(v.subrange(at, at + args.len()) == args);
    assert forall|i: int| 0 <= i < args.len() implies #[trigger] v[at + i] == args[i] by {
        assert(v.subrange(at, at + args.len())[i] == args[i]);
    }
    assert(v.subrange(at + 1, at + 1 + k.len()) =~= k) by {
        assert(args.subrange(1, (1 + k.len()) as int) =~= k);
        assert(v.subrange(at + 1, at + 1 + k.len()) =~= args.subrange(1, (1 + k.len()) as int));
    }
    lemma_quoted_at(v, at + 1, key);
    let c = at + 1 + k.len();
    assert(v[at + (1 + k.len())] == args[(1 + k.len()) as int]);
    assert(v.subrange(c + 1, c + 1 + q.len()) =~= q) by {
        assert(args.subrange((2 + k.len()) as int, (2 + k.len() + q.len()) as int) =~= q);
        assert(v.subrange(c + 1, c + 1 + q.len()) =~= args.subrange(
            (2 + k.len()) as int,
            (2 + k.len() + q.len()) as int,
        ));
    }
    lemma_quoted_at(v, c + 1, s);
    let e = c + 1 + q.len();
    assert(v[at + (2 + k.len() + q.len())] == args[(2 + k.len() + q.len()) as int]);
    assert(v[e] == '}');
    assert(v[at + 0] == args[0]);
    assert(object_end(v, e, 1) == Some(e));
    assert(object_end(v, c + 1, 1) == Some(e));
    assert(object_end(v, c, 1) == Some(e));
    assert(object_end(v, at + 1, 1) == Some(e));
    assert(object_end(v, at, 0) == Some(e));
    assert(arguments_of(v) == v.subrange(at, e + 1));
    law_field_reads_back(key, s);
}

/// A reply carries the id of its message as it was written.
pub proof fn law_reply_carries_id(line: Seq<char>, version: Seq<char>)
    ensures
        request_of(line, version) matches RequestV::Reply(m) ==> (id_of(text::trim(line)) matches Some(
            id,
        ) && text::starts_with(m, "{\"jsonrpc\":\"2.0\",\"id\":"@ + id)),
{
    match request_of(line, version) {
        RequestV::Reply(m) => {
            let id = id_of(text::trim(line))->0;
            let p = "{\"jsonrpc\":\"2.0\",\"id\":"@ + id;
            assert(m.subrange(0, p.len() as int) =~= p);
        },
        _ => {},
    }
}

// ---------------------------------------------------------------------------
// Objects of several members
// ---------------------------------------------------------------------------

/// A scalar: a string, or a value that is written bare.
pub enum Scalar {
    Text(Seq<char>),
    Bare(Seq<char>),
}

/// A character of a number or of a word like `null`.
pub open spec fn bare_char(c: char) -> bool {
    '0' <= c <= '9' || 'a' <= c <= 'z' || c == '-'
}

/// A value that can be written bare.
pub open spec fn bare_text(s: Seq<char>) -> bool {
    s.len() > 0 && forall|i: int| 0 <= i < s.len() ==> bare_char(#[trigger] s[i])
}

/// A scalar that can be written.
pub open spec fn sound_scalar(x: Scalar) -> bool {
    match x {
        Scalar::Text(_) => true,
        Scalar::Bare(s) => bare_text(s),
    }
}

/// How a scalar is written.
pub open spec fn written(x: Scalar) -> Seq<char> {
    match x {
        Scalar::Text(s) => text::json_quote(s),
        Scalar::Bare(s) => s,
    }
}

/// What a reader gets from a scalar.
pub open spec fn said(x: Scalar) -> Seq<char> {
    match x {
        Scalar::Text(s) => s,
        Scalar::Bare(s) => s,
    }
}

/// The start of an object, up to the last of some members.
pub open spec fn opened(ms: Seq<(Seq<char>, Scalar)>) -> Seq<char>
    decreases ms.len(),
{
    if ms.len() == 0 {
        seq!['{']
    } else {
        opened(ms.drop_last()) + (if ms.len() > 1 {
            seq![',']
        } else {
            Seq::empty()
        }) + text::json_quote(ms.last().0) + seq![':'] + written(ms.last().1)
    }
}

/// No member has a key.
pub open spec fn lacks(ms: Seq<(Seq<char>, Scalar)>, key: Seq<char>) -> bool {
    forall|i: int| 0 <= i < ms.len() ==> (#[trigger] ms[i]).0 != key
}

/// All members have scalars that can be written.
pub open spec fn sound_members(ms: Seq<(Seq<char>, Scalar)>) -> bool {
    forall|i: int| 0 <= i < ms.len() ==> sound_scalar((#[trigger] ms[i]).1)
}

/// A comma or a closing brace stands at an index.
pub open spec fn closes(v: Seq<char>, i: int) -> bool {
    0 <= i < v.len() && (v[i] == ',' || v[i] == '}')
}

proof fn lemma_part(v: Seq<char>, w: Seq<char>, at: int, x: Seq<char>, k: int)
    requires
        text::occurs_at(v, w, at),
        text::occurs_at(w, x, k),
    ensures
        text::occurs_at(v, x, at + k),
{
    assert(v.subrange(at + k, at + k + x.len()) =~= x) by {
        assert forall|j: int| 0 <= j < x.len() implies #[trigger] v[at + k + j] == x[j] by {
            assert(w[k + j] == v.subrange(at, at + w.len())[k + j]);
            assert(x[j] == w.subrange(k, k + x.len())[j]);
        }
    }
}

/// A key that is another one is passed over.
pub proof fn lemma_pass_key(
    v: Seq<char>,
    key: Seq<char>,
    k: Seq<char>,
    i: int,
    depth: int,
    limit: int,
)
    requires
        text::occurs_at(v, text::json_quote(k), i),
        k != key,
    ensures
        member_at(v, key, i, depth, limit) == member_at(
            v,
            key,
            i + text::json_quote(k).len(),
            depth,
            limit,
        ),
{
    lemma_quoted_at(v, i, k);
}

proof fn lemma_pass_bare(
    v: Seq<char>,
    key: Seq<char>,
    s: Seq<char>,
    n: int,
    i: int,
    depth: int,
    limit: int,
)
    requires
        text::occurs_at(v, s, i),
        bare_text(s),
        0 <= n <= s.len(),
    ensures
        member_at(v, key, i + n, depth, limit) == member_at(v, key, i + s.len(), depth, limit),
    decreases s.len() - n,
{
    if n < s.len() {
        assert(v.subrange(i, i + s.len())[n] == s[n]);
        assert(bare_char(s[n]));
        lemma_pass_bare(v, key, s, n + 1, i, depth, limit);
    }
}

proof fn lemma_bare_end(v: Seq<char>, s: Seq<char>, n: int, i: int)
    requires
        text::occurs_at(v, s, i),
        bare_text(s),
        0 <= n <= s.len(),
        i + s.len() < v.len(),
        ends_bare(v[i + s.len()]),
    ensures
        bare_end(v, i + n) == i + s.len(),
    decreases s.len() - n,
{
    if n < s.len() {
        assert(v.subrange(i, i + s.len())[n] == s[n]);
        assert(bare_char(s[n]));
        lemma_bare_end(v, s, n + 1, i);
    }
}

/// The parts of the last member and where they stand.
#[verifier::spinoff_prover]
#[verifier::rlimit(60)]
proof fn lemma_last_member(v: Seq<char>, ms: Seq<(Seq<char>, Scalar)>, at: int)
    requires
        ms.len() > 0,
        text::occurs_at(v, opened(ms), at),
    ensures
        ({
            let d = opened(ms.drop_last());
            let k = at + d.len() + (if ms.len() > 1 {
                1int
            } else {
                0
            });
            let q = text::json_quote(ms.last().0);
            &&& text::occurs_at(v, d, at)
            &&& ms.len() > 1 ==> v[at + d.len()] == ','
            &&& text::occurs_at(v, q, k)
            &&& v[k + q.len()] == ':'
            &&& text::occurs_at(v, written(ms.last().1), k + q.len() + 1)
            &&& at + opened(ms).len() == k + q.len() + 1 + written(ms.last().1).len()
            &&& at >= 0 && at + opened(ms).len() <= v.len()
        }),
{
    let d = opened(ms.drop_last());
    let w = opened(ms);
    let sep = if ms.len() > 1 {
        seq![',']
    } else {
        Seq::<char>::empty()
    };
    let q = text::json_quote(ms.last().0);
    let x = written(ms.last().1);
    let k = (d.len() + sep.len()) as int;
    assert(w.subrange(0, d.len() as int) =~= d);
    lemma_part(v, w, at, d, 0);
    assert(w.subrange(k, (k + q.len()) as int) =~= q);
    lemma_part(v, w, at, q, k);
    assert(w.subrange(k + q.len() + 1, (k + q.len() + 1 + x.len()) as int) =~= x);
    lemma_part(v, w, at, x, (k + q.len() + 1) as int);
    assert(v.subrange(at, at + w.len())[k + q.len()] == w[(k + q.len()) as int]);
    assert(w[(k + q.len()) as int] == ':');
    if ms.len() > 1 {
        assert(w[d.len() as int] == ',');
        assert(v.subrange(at, at + w.len())[d.len() as int] == w[d.len() as int]);
    }
}

/// Members with other keys are passed over.
#[verifier::spinoff_prover]
#[verifier::rlimit(60)]
proof fn lemma_pass_members(
    v: Seq<char>,
    ms: Seq<(Seq<char>, Scalar)>,
    key: Seq<char>,
    at: int,
    depth: int,
    limit: int,
)
    requires
        text::occurs_at(v, opened(ms), at),
        lacks(ms, key),
        sound_members(ms),
        ms.len() > 0 ==> closes(v, at + opened(ms).len() as int),
    ensures
        member_at(v, key, at, depth, limit) == member_at(
            v,
            key,
            at + opened(ms).len(),
            depth + 1,
            limit,
        ),
    decreases ms.len(),
{
    if ms.len() == 0 {
        assert(v.subrange(at, at + 1)[0] == '{');
    } else {
        let d = ms.drop_last();
        lemma_last_member(v, ms, at);
        assert(ms.last() == ms[ms.len() - 1]);
        assert forall|i: int| 0 <= i < d.len() implies (#[trigger] d[i]).0 != key && sound_scalar(
            d[i].1,
        ) by {
            assert(d[i] == ms[i]);
        }
        lemma_pass_members(v, d, key, at, depth, limit);
        let k = at + opened(d).len() + (if ms.len() > 1 {
            1int
        } else {
            0
        });
        let q = text::json_quote(ms.last().0);
        lemma_pass_key(v, key, ms.last().0, k, depth + 1, limit);
        match ms.last().1 {
            Scalar::Text(s) => {
                lemma_value_passed(v, key, s, k + q.len() + 1, depth + 1, limit);
            },
            Scalar::Bare(s) => {
                lemma_pass_bare(v, key, s, 0, k + q.len() + 1, depth + 1, limit);
            },
        }
    }
}

/// A string that is followed by no colon is passed over.
proof fn lemma_value_passed(
    v: Seq<char>,
    key: Seq<char>,
    s: Seq<char>,
    i: int,
    depth: int,
    limit: int,
)
    requires
        text::occurs_at(v, text::json_quote(s), i),
        s != key || !is_key(v, i + text::json_quote(s).len()),
    ensures
        member_at(v, key, i, depth, limit) == member_at(
            v,
            key,
            i + text::json_quote(s).len(),
            depth,
            limit,
        ),
{
    lemma_quoted_at(v, i, s);
}

/// The value of the last member is found, where no earlier one has its key.
#[verifier::spinoff_prover]
#[verifier::rlimit(60)]
proof fn lemma_last_found(
    v: Seq<char>,
    ms: Seq<(Seq<char>, Scalar)>,
    at: int,
    depth: int,
    limit: int,
)
    requires
        ms.len() > 0,
        text::occurs_at(v, opened(ms), at),
        lacks(ms.drop_last(), ms.last().0),
        sound_members(ms),
        closes(v, at + opened(ms).len() as int),
        depth + 1 <= limit,
    ensures
        match member_at(v, ms.last().0, at, depth, limit) {
            Some(i) => scalar_from(v, i) == Some(said(ms.last().1)),
            None => false,
        },
{
    let d = ms.drop_last();
    let key = ms.last().0;
    lemma_last_member(v, ms, at);
    assert(ms.last() == ms[ms.len() - 1]);
    assert forall|i: int| 0 <= i < d.len() implies sound_scalar((#[trigger] d[i]).1) by {
        assert(d[i] == ms[i]);
    }
    lemma_pass_members(v, d, key, at, depth, limit);
    let k = at + opened(d).len() + (if ms.len() > 1 {
        1int
    } else {
        0
    });
    let q = text::json_quote(key);
    lemma_quoted_at(v, k, key);
    let c = k + q.len();
    assert(past_blanks(v, c) == c);
    let x = written(ms.last().1);
    match ms.last().1 {
        Scalar::Text(s) => {
            lemma_quoted_at(v, c + 1, s);
            assert(past_blanks(v, c + 1) == c + 1);
        },
        Scalar::Bare(s) => {
            assert(v.subrange(c + 1, c + 1 + s.len())[0] == s[0]);
            assert(bare_char(s[0]));
            assert(past_blanks(v, c + 1) == c + 1);
            lemma_bare_end(v, s, 0, c + 1);
        },
    }
    assert(member_at(v, key, k, depth + 1, limit) == Some(c + 1));
    if ms.len() > 1 {
        assert(member_at(v, key, k - 1, depth + 1, limit) == member_at(
            v,
            key,
            k,
            depth + 1,
            limit,
        ));
    }
}

#[verifier::spinoff_prover]
#[verifier::rlimit(60)]
proof fn lemma_opened_take(ms: Seq<(Seq<char>, Scalar)>, n: int)
    requires
        0 < n <= ms.len(),
    ensures
        text::occurs_at(opened(ms), opened(ms.take(n)), 0),
        n < ms.len() ==> closes(opened(ms), opened(ms.take(n)).len() as int),
    decreases ms.len(),
{
    let w = opened(ms);
    if n == ms.len() {
        assert(ms.take(n) =~= ms);
        assert(w.subrange(0, w.len() as int) =~= w);
    } else {
        let d = ms.drop_last();
        assert(d.take(n) =~= ms.take(n));
        lemma_opened_take(d, n);
        let p = opened(ms.take(n));
        let e = opened(d);
        assert(w.subrange(0, p.len() as int) =~= p) by {
            assert(e.subrange(0, p.len() as int) =~= w.subrange(0, p.len() as int));
        }
        if n < d.len() {
            assert(w[p.len() as int] == e[p.len() as int]);
        } else {
            assert(d.take(n) =~= d);
            assert(w[p.len() as int] == ',');
        }
    }
}

/// What an object's member holds is read back under its key, where the object
/// starts at index `at` and no earlier member has that key.
pub proof fn lemma_member_reads_back(
    v: Seq<char>,
    ms: Seq<(Seq<char>, Scalar)>,
    n: int,
    at: int,
    depth: int,
    limit: int,
)
    requires
        0 <= n < ms.len(),
        text::occurs_at(v, opened(ms), at),
        closes(v, at + opened(ms).len() as int),
        sound_members(ms),
        lacks(ms.take(n), ms[n].0),
        depth + 1 <= limit,
    ensures
        match member_at(v, ms[n].0, at, depth, limit) {
            Some(i) => scalar_from(v, i) == Some(said(ms[n].1)),
            None => false,
        },
{
    let t = ms.take(n + 1);
    assert(t.last() == ms[n]);
    assert(t.drop_last() =~= ms.take(n));
    lemma_opened_take(ms, n + 1);
    let w = opened(ms);
    let p = opened(t);
    lemma_part(v, w, at, p, 0);
    if n + 1 < ms.len() {
        assert(v.subrange(at, at + w.len())[p.len() as int] == w[p.len() as int]);
    } else {
        assert(t =~= ms);
    }
    lemma_last_found(v, t, at, depth, limit);
}

/// Two members have different keys.
pub open spec fn distinct_keys(ms: Seq<(Seq<char>, Scalar)>) -> bool {
    forall|i: int, j: int| 0 <= i < j < ms.len() ==> (#[trigger] ms[i]).0 != (#[trigger] ms[j]).0
}

/// Each of the members that an object starts with is read back under its key.
pub proof fn law_members_read_back(v: Seq<char>, ms: Seq<(Seq<char>, Scalar)>, n: int)
    requires
        0 <= n < ms.len(),
        text::starts_with(v, opened(ms)),
        closes(v, opened(ms).len() as int),
        sound_members(ms),
        distinct_keys(ms),
    ensures
        scalar_at(v, ms[n].0) == Some(said(ms[n].1)),
{
    assert(text::occurs_at(v, opened(ms), 0));
    assert forall|i: int| 0 <= i < n implies (#[trigger] ms.take(n)[i]).0 != ms[n].0 by {
        assert(ms.take(n)[i] == ms[i]);
    }
    lemma_member_reads_back(v, ms, n, 0, 0, usize::MAX as int);
}

/// A key that needs no escape.
pub open spec fn plain_key(k: Seq<char>) -> bool {
    forall|i: int| 0 <= i < k.len() ==> 'A' <= #[trigger] k[i] <= 'Z' || 'a' <= k[i] <= 'z' || k[i]
        == '_' || '0' <= k[i] <= '9'
}

pub proof fn lemma_plain_key(k: Seq<char>)
    requires
        plain_key(k),
    ensures
        text::json_quote(k) == seq!['"'] + k + seq!['"'],
{
    lemma_plain_body(k);
}

proof fn lemma_plain_body(k: Seq<char>)
    requires
        plain_key(k),
    ensures
        text::json_body(k) == k,
    decreases k.len(),
{
    if k.len() > 0 {
        let d = k.drop_last();
        assert forall|i: int| 0 <= i < d.len() implies 'A' <= #[trigger] d[i] <= 'Z' || 'a' <= d[i]
            <= 'z' || d[i] == '_' || '0' <= d[i] <= '9' by {
            assert(d[i] == k[i]);
        }
        lemma_plain_body(d);
        assert(k.last() == k[k.len() - 1]);
        assert(text::json_char(k.last()) == seq![k.last()]);
        assert(d + seq![k.last()] =~= k);
    } else {
        assert(text::json_body(k) =~= k);
    }
}

/// An object that starts with one member.
pub proof fn lemma_opens(lit: Seq<char>, k: Seq<char>, x: Scalar)
    requires
        lit == seq!['{', '"'] + k + seq!['"', ':'],
        plain_key(k),
    ensures
        lit + written(x) == opened(seq![(k, x)]),
{
    lemma_plain_key(k);
    let ms = seq![(k, x)];
    assert(ms.drop_last() =~= Seq::empty());
    assert(ms.last() == (k, x));
    assert(opened(Seq::<(Seq<char>, Scalar)>::empty()) == seq!['{']);
    assert(opened(ms) =~= lit + written(x));
}

/// An object with one member more.
pub proof fn lemma_goes_on(
    t: Seq<char>,
    ms: Seq<(Seq<char>, Scalar)>,
    lit: Seq<char>,
    k: Seq<char>,
    x: Scalar,
)
    requires
        ms.len() > 0,
        t == opened(ms),
        lit == seq![',', '"'] + k + seq!['"', ':'],
        plain_key(k),
    ensures
        t + lit + written(x) == opened(ms.push((k, x))),
{
    lemma_plain_key(k);
    let n = ms.push((k, x));
    assert(n.drop_last() =~= ms);
    assert(n.last() == (k, x));
    assert(opened(n) =~= t + lit + written(x));
}

/// A number in decimal can be written bare.
pub proof fn lemma_number_is_bare(n: int)
    ensures
        bare_text(text::dec_int(n)),
{
    let s = text::dec_int(n);
    text::lemma_dec_int_plain(n, 'x');
    assert forall|i: int| 0 <= i < s.len() implies bare_char(#[trigger] s[i]) by {
        if !bare_char(s[i]) {
            text::lemma_dec_int_plain(n, s[i]);
        }
    }
}

/// A text, or `null` for none, is read back under a key.
pub open spec fn reads_text(json: Seq<char>, key: Seq<char>, v: Option<Seq<char>>) -> bool {
    scalar_at(json, key) == Some(
        match v {
            Some(s) => s,
            None => "null"@,
        },
    )
}

/// A number, or `null` for none, is read back under a key.
pub open spec fn reads_number(json: Seq<char>, key: Seq<char>, v: Option<int>) -> bool {
    match scalar_at(json, key) {
        Some(t) => match v {
            Some(n) => text::parse_signed(t) == Some(n),
            None => t == "null"@,
        },
        None => false,
    }
}

/// A text, or `null` for none, as a scalar.
pub open spec fn text_scalar(v: Option<Seq<char>>) -> Scalar {
    match v {
        Some(s) => Scalar::Text(s),
        None => Scalar::Bare("null"@),
    }
}

/// A number, or `null` for none, as a scalar.
pub open spec fn number_scalar(v: Option<int>) -> Scalar {
    match v {
        Some(n) => Scalar::Bare(text::dec_int(n)),
        None => Scalar::Bare("null"@),
    }
}

pub proof fn lemma_scalars_are_sound(s: Option<Seq<char>>, n: Option<int>)
    ensures
        sound_scalar(text_scalar(s)),
        sound_scalar(number_scalar(n)),
        said(text_scalar(s)) == (match s {
            Some(x) => x,
            None => "null"@,
        }),
        n matches Some(i) ==> (i64::MIN <= i <= i64::MAX ==> text::parse_signed(
            said(number_scalar(n)),
        ) == Some(i)),
{
    reveal_strlit("null");
    match n {
        Some(i) => {
            lemma_number_is_bare(i);
            if i64::MIN <= i <= i64::MAX {
                text::law_integer_reads_back(i);
            }
        },
        None => {},
    }
}

/// Yes or no as a scalar.
pub open spec fn bool_scalar(b: bool) -> Scalar {
    Scalar::Bare(
        if b {
            "true"@
        } else {
            "false"@
        },
    )
}

/// A number that has no sign as a scalar.
pub open spec fn nat_scalar(n: nat) -> Scalar {
    Scalar::Bare(text::dec(n))
}

pub proof fn lemma_flags_are_sound(b: bool, n: nat)
    ensures
        sound_scalar(bool_scalar(b)),
        sound_scalar(nat_scalar(n)),
{
    reveal_strlit("true");
    reveal_strlit("false");
    lemma_number_is_bare(n as int);
    assert(text::dec_int(n as int) == text::dec(n));
}

/// What the object in an object's first member holds is read back, also where
/// that object stands in a list.
pub proof fn lemma_nested_reads_back(
    v: Seq<char>,
    k: Seq<char>,
    mid: Seq<char>,
    ms: Seq<(Seq<char>, Scalar)>,
    n: int,
)
    requires
        0 <= n < ms.len(),
        mid == seq![':'] || mid == seq![':', '['],
        ({
            let p = seq!['{'] + text::json_quote(k) + mid;
            &&& text::occurs_at(v, p, 0)
            &&& text::occurs_at(v, opened(ms), p.len() as int)
            &&& closes(v, (p.len() + opened(ms).len()) as int)
        }),
        sound_members(ms),
        distinct_keys(ms),
        ms[n].0 != k,
    ensures
        scalar_at(v, ms[n].0) == Some(said(ms[n].1)),
{
    let key = ms[n].0;
    let limit = usize::MAX as int;
    let q = text::json_quote(k);
    let p = seq!['{'] + q + mid;
    lemma_outer_passed(v, key, k, mid, limit);
    assert forall|i: int| 0 <= i < n implies (#[trigger] ms.take(n)[i]).0 != ms[n].0 by {
        assert(ms.take(n)[i] == ms[i]);
    }
    lemma_member_reads_back(v, ms, n, p.len() as int, 1, limit);
}

proof fn lemma_outer_passed(
    v: Seq<char>,
    key: Seq<char>,
    k: Seq<char>,
    mid: Seq<char>,
    limit: int,
)
    requires
        mid == seq![':'] || mid == seq![':', '['],
        text::occurs_at(v, seq!['{'] + text::json_quote(k) + mid, 0),
        key != k,
    ensures
        member_at(v, key, 0, 0, limit) == member_at(
            v,
            key,
            (seq!['{'] + text::json_quote(k) + mid).len() as int,
            1,
            limit,
        ),
{
    let q = text::json_quote(k);
    let p = seq!['{'] + q + mid;
    assert(p.subrange(1, (1 + q.len()) as int) =~= q);
    lemma_part(v, p, 0, q, 1);
    assert(v.subrange(0, p.len() as int)[0] == p[0]);
    lemma_pass_key(v, key, k, 1, 1, limit);
    let c = (1 + q.len()) as int;
    assert(v.subrange(0, p.len() as int)[c] == p[c]);
    assert(member_at(v, key, c, 1, limit) == member_at(v, key, c + 1, 1, limit));
    if mid.len() == 2 {
        assert(v.subrange(0, p.len() as int)[c + 1] == p[c + 1]);
        assert(p[c + 1] == '[');
        assert(member_at(v, key, c + 1, 1, limit) == member_at(v, key, c + 2, 1, limit));
    }
}

proof fn lemma_trim_bare(s: Seq<char>)
    requires
        bare_text(s),
    ensures
        text::trim(s) == s,
{
    assert(bare_char(s[0]));
    assert(bare_char(s[s.len() - 1]));
    lemma_trim_keeps(s);
}

/// An object with a text and a number, in this order.
#[verifier::opaque]
pub open spec fn two_members(k: Seq<char>, s: Seq<char>, l: Seq<char>, n: nat) -> Seq<char> {
    opened(seq![(k, Scalar::Text(s)), (l, nat_scalar(n))]) + seq!['}']
}

#[verifier::spinoff_prover]
#[verifier::rlimit(60)]
proof fn lemma_two_members(k: Seq<char>, s: Seq<char>, l: Seq<char>, n: nat, d: int)
    requires
        k != l,
        n <= usize::MAX,
    ensures
        scalar_at(two_members(k, s, l, n), k) == Some(s),
        number_at(two_members(k, s, l, n), l, d) == n,
{
    reveal(two_members);
    let ms = seq![(k, Scalar::Text(s)), (l, nat_scalar(n))];
    let v = two_members(k, s, l, n);
    let w = opened(ms);
    assert(v.subrange(0, w.len() as int) =~= w);
    assert(v[w.len() as int] == '}');
    lemma_flags_are_sound(true, n);
    assert(ms[0] == (k, Scalar::Text(s)));
    assert(ms[1] == (l, nat_scalar(n)));
    law_members_read_back(v, ms, 0);
    law_members_read_back(v, ms, 1);
    lemma_trim_bare(text::dec(n));
    text::law_number_reads_back(n);
}

proof fn lemma_tool_names()
    ensures
        "search"@.len() == 6 && "search"@[0] == 's',
        "catalog"@.len() == 7,
        "turns"@.len() == 5,
        "timeline"@.len() == 8,
        "errors"@.len() == 6 && "errors"@[0] == 'e',
        "sql"@.len() == 3,
        "record"@.len() == 6 && "record"@[0] == 'r',
        "doctor"@.len() == 6 && "doctor"@[0] == 'd',
        "query"@.len() == 5 && "query"@[0] == 'q',
        "session"@.len() == 7,
        "limit"@.len() == 5 && "limit"@[0] == 'l',
        "start"@.len() == 5 && "start"@[0] == 's',
        "seq"@.len() == 3,
{
    reveal_strlit("search");
    reveal_strlit("catalog");
    reveal_strlit("turns");
    reveal_strlit("timeline");
    reveal_strlit("errors");
    reveal_strlit("sql");
    reveal_strlit("record");
    reveal_strlit("doctor");
    reveal_strlit("query");
    reveal_strlit("session");
    reveal_strlit("limit");
    reveal_strlit("start");
    reveal_strlit("seq");
}

/// A tool that is called with a text and a number uses both: a search and a query
/// ask for what is asked, and what is about a session is about the one that is
/// named.
#[verifier::spinoff_prover]
#[verifier::rlimit(60)]
pub proof fn law_call_with_both(s: Seq<char>, n: nat)
    requires
        n < i64::MAX,
        n < usize::MAX,
    ensures
        call_of("search"@, two_members("query"@, s, "limit"@, n)) == (CallV::Search {
            query: s,
            limit: n as int,
        }),
        call_of("sql"@, two_members("query"@, s, "limit"@, n)) == (CallV::Sql {
            query: s,
            limit: n as int,
        }),
        call_of("turns"@, two_members("session"@, s, "limit"@, n)) == (CallV::Turns {
            session: s,
            limit: n as int,
        }),
        call_of("record"@, two_members("session"@, s, "seq"@, n)) == (CallV::Record {
            session: s,
            seq: n as int,
        }),
        match call_of("timeline"@, two_members("session"@, s, "limit"@, n)) {
            CallV::Timeline { session, limit, .. } => session == s && limit == n,
            _ => false,
        },
        match call_of("timeline"@, two_members("session"@, s, "start"@, n)) {
            CallV::Timeline { session, start, .. } => session == s && start == n,
            _ => false,
        },
{
    lemma_tool_names();
    lemma_two_members("query"@, s, "limit"@, n, 20);
    lemma_two_members("query"@, s, "limit"@, n, 50);
    lemma_two_members("session"@, s, "limit"@, n, 60);
    lemma_two_members("session"@, s, "limit"@, n, 80);
    lemma_two_members("session"@, s, "start"@, n, 0);
    lemma_two_members("session"@, s, "seq"@, n, usize::MAX as int);
}

#[verifier::spinoff_prover]
#[verifier::rlimit(60)]
proof fn lemma_alone(k: Seq<char>, s: Seq<char>, other: Seq<char>)
    requires
        k != other,
    ensures
        scalar_at(one_member(k, text::json_quote(s)), k) == Some(s),
        scalar_at(one_member(k, text::json_quote(s)), other) is None,
{
    law_field_reads_back(k, s);
    let q = text::json_quote(s);
    let v = one_member(k, q);
    let limit = usize::MAX as int;
    lemma_one_member(k, q, limit);
    let a = text::json_quote(k).len() as int;
    assert(v.subrange(1, 1 + a) =~= text::json_quote(k));
    lemma_pass_key(v, other, k, 1, 1, limit);
    lemma_quoted_at(v, a + 2, s);
    let e = a + 2 + q.len();
    assert(v[e] == '}');
    assert(past_blanks(v, e) == e);
    assert(!is_key(v, e));
    lemma_value_passed(v, other, s, a + 2, 1, limit);
    assert(member_at(v, other, e + 1, 0, limit) is None);
    assert(member_at(v, other, e, 1, limit) is None);
    assert(member_at(v, other, a + 1, 1, limit) == member_at(v, other, a + 2, 1, limit));
    assert(member_at(v, other, 0, 0, limit) == member_at(v, other, 1, 1, limit));
}

/// Without a number a tool uses its default, and a record cannot be asked for.
#[verifier::spinoff_prover]
#[verifier::rlimit(60)]
pub proof fn law_call_with_text(s: Seq<char>)
    ensures
        call_of("search"@, one_member("query"@, text::json_quote(s))) == (CallV::Search {
            query: s,
            limit: 20,
        }),
        call_of("sql"@, one_member("query"@, text::json_quote(s))) == (CallV::Sql {
            query: s,
            limit: 50,
        }),
        call_of("turns"@, one_member("session"@, text::json_quote(s))) == (CallV::Turns {
            session: s,
            limit: 60,
        }),
        call_of("timeline"@, one_member("session"@, text::json_quote(s))) == (CallV::Timeline {
            session: s,
            start: 0,
            limit: 80,
        }),
        call_of("record"@, one_member("session"@, text::json_quote(s))) is Refuse,
{
    lemma_tool_names();
    lemma_alone("query"@, s, "limit"@);
    lemma_alone("session"@, s, "limit"@);
    lemma_alone("session"@, s, "start"@);
    lemma_alone("session"@, s, "seq"@);
}

/// A tool that needs a text is refused without it; the others never are; and a
/// name that is no tool's is.
#[verifier::spinoff_prover]
#[verifier::rlimit(60)]
pub proof fn law_call_refused(args: Seq<char>, name: Seq<char>)
    ensures
        scalar_at(args, "query"@) is None ==> call_of("search"@, args) is Refuse && call_of(
            "sql"@,
            args,
        ) is Refuse,
        scalar_at(args, "session"@) is None ==> call_of("turns"@, args) is Refuse && call_of(
            "timeline"@,
            args,
        ) is Refuse && call_of("record"@, args) is Refuse,
        call_of("catalog"@, args) is Catalog,
        call_of("doctor"@, args) is Doctor,
        call_of("errors"@, args) is Errors,
        name != "search"@ && name != "catalog"@ && name != "turns"@ && name != "timeline"@ && name
            != "errors"@ && name != "sql"@ && name != "record"@ && name != "doctor"@ ==> (call_of(
            name,
            args,
        ) matches CallV::Refuse(m) && text::starts_with(m, "unknown tool "@ + name + ";"@)),
{
    lemma_tool_names();
    reveal_strlit("; call tools/list for the ");
    reveal_strlit(";");
    match call_of(name, args) {
        CallV::Refuse(m) => {
            let p = "unknown tool "@ + name + ";"@;
            if name != "search"@ && name != "turns"@ && name != "timeline"@ && name != "sql"@ && name
                != "record"@ {
                assert(m.subrange(0, p.len() as int) =~= p);
            }
        },
        _ => {},
    }
}

/// The text of an answer, or of a failure, is read back as it is; it is marked as
/// an error if and only if it is one.
#[verifier::spinoff_prover]
#[verifier::rlimit(60)]
pub proof fn law_content_reads_back(r: Result<Seq<char>, Seq<char>>)
    ensures
        ({
            let t = match r {
                Ok(t) => t,
                Err(e) => e,
            };
            let o = content_of(r);
            &&& scalar_at(o, "text"@) == Some(t)
            &&& r is Err ==> scalar_at(o, "isError"@) == Some("true"@)
            &&& r is Ok && text::starts_with(t, "{\"code\":\"ALOG_"@) ==> scalar_at(o, "isError"@)
                == Some("true"@)
            &&& r is Ok && !text::starts_with(t, "{\"code\":\"ALOG_"@) ==> scalar_at(
                o,
                "isError"@,
            ) is None
        }),
{
    let t = match r {
        Ok(t) => t,
        Err(e) => e,
    };
    let o = content_of(r);
    let head = "{\"content\":[{\"type\":\"text\",\"text\":"@;
    let wrong = r is Err || text::starts_with(t, "{\"code\":\"ALOG_"@);
    let tail = if wrong {
        "}],\"isError\":true}"@
    } else {
        "}]}"@
    };
    lemma_content_words();
    assert(o =~= head + text::json_quote(t) + tail);
    let mid = seq![':', '['];
    let p = seq!['{'] + text::json_quote("content"@) + mid;
    let ms = seq![("type"@, Scalar::Text("text"@)), ("text"@, Scalar::Text(t))];
    let one = seq![("type"@, Scalar::Text("text"@))];
    let first = "{\"type\":"@ + text::json_quote("text"@);
    lemma_opens("{\"type\":"@, "type"@, Scalar::Text("text"@));
    lemma_goes_on(first, one, ",\"text\":"@, "text"@, Scalar::Text(t));
    assert(one.push(("text"@, Scalar::Text(t))) =~= ms);
    let w = opened(ms);
    assert(w == first + ",\"text\":"@ + text::json_quote(t));
    assert(head == p + first + ",\"text\":"@);
    assert(o =~= p + w + tail);
    assert(o.subrange(0, p.len() as int) =~= p);
    assert(o.subrange(p.len() as int, (p.len() + w.len()) as int) =~= w);
    let e = (p.len() + w.len()) as int;
    assert(o.skip(e) =~= tail);
    assert forall|i: int| 0 <= i < tail.len() implies #[trigger] o[e + i] == tail[i] by {
        assert(o.skip(e)[i] == tail[i]);
    }
    assert(o[e + 0] == '}' && o[e + 1] == ']');
    lemma_nested_reads_back(o, "content"@, mid, ms, 1);
    let limit = usize::MAX as int;
    let key = "isError"@;
    lemma_outer_passed(o, key, "content"@, mid, limit);
    lemma_pass_members(o, ms, key, p.len() as int, 1, limit);
    assert(member_at(o, key, e, 2, limit) == member_at(o, key, e + 1, 1, limit));
    assert(member_at(o, key, e + 1, 1, limit) == member_at(o, key, e + 2, 1, limit));
    if wrong {
        assert(o[e + 2] == ',');
        assert(member_at(o, key, e + 2, 1, limit) == member_at(o, key, e + 3, 1, limit));
        let q = text::json_quote(key);
        lemma_plain_key(key);
        assert(o.subrange(e + 3, e + 3 + q.len()) =~= q);
        lemma_quoted_at(o, e + 3, key);
        let c = e + 3 + q.len();
        assert(o[e + 12] == ':');
        assert(past_blanks(o, c) == c);
        assert(o[e + 13] == 't');
        assert(past_blanks(o, c + 1) == c + 1);
        assert(member_at(o, key, e + 3, 1, limit) == Some(c + 1));
        assert(o.subrange(c + 1, c + 5) =~= "true"@);
        assert(o[e + 17] == '}');
        lemma_bare_end(o, "true"@, 0, c + 1);
    } else {
        assert(o[e + 2] == '}');
        assert(member_at(o, key, e + 3, 0, limit) is None);
        assert(member_at(o, key, e + 2, 1, limit) is None);
    }
}

#[verifier::spinoff_prover]
#[verifier::rlimit(60)]
proof fn lemma_content_words()
    ensures
        "{\"content\":[{\"type\":\"text\",\"text\":"@ == seq!['{'] + text::json_quote("content"@)
            + seq![':', '['] + ("{\"type\":"@ + text::json_quote("text"@)) + ",\"text\":"@,
        "{\"type\":"@ == seq!['{', '"'] + "type"@ + seq!['"', ':'],
        ",\"text\":"@ == seq![',', '"'] + "text"@ + seq!['"', ':'],
        plain_key("content"@) && plain_key("type"@) && plain_key("text"@) && plain_key("isError"@),
        "content"@.len() == 7 && "type"@.len() == 4 && "text"@.len() == 4 && "isError"@.len() == 7,
        "content"@[0] == 'c' && "isError"@[0] == 'i' && "type"@[1] == 'y' && "text"@[1] == 'e',
        "}]"@ + ",\"isError\":true"@ + "}"@ == "}],\"isError\":true}"@,
        "}]"@ + Seq::<char>::empty() + "}"@ == "}]}"@,
        "}]}"@ == seq!['}', ']', '}'],
        "}],\"isError\":true}"@ == seq!['}', ']', ','] + (seq!['"'] + "isError"@ + seq!['"']) + seq![
            ':',
        ] + "true"@ + seq!['}'],
        bare_text("true"@),
        "true"@.len() == 4 && "true"@[0] == 't',
{
    reveal_strlit("{\"content\":[{\"type\":\"text\",\"text\":");
    reveal_strlit("{\"type\":");
    reveal_strlit(",\"text\":");
    reveal_strlit("content");
    reveal_strlit("type");
    reveal_strlit("text");
    reveal_strlit("isError");
    reveal_strlit("}]");
    reveal_strlit(",\"isError\":true");
    reveal_strlit("}");
    reveal_strlit("}],\"isError\":true}");
    reveal_strlit("}]}");
    reveal_strlit("true");
    lemma_plain_key("content"@);
    lemma_plain_key("text"@);
    assert("{\"content\":[{\"type\":\"text\",\"text\":"@ =~= seq!['{'] + (seq!['"'] + "content"@ + seq![
        '"',
    ]) + seq![':', '['] + ("{\"type\":"@ + (seq!['"'] + "text"@ + seq!['"'])) + ",\"text\":"@);
    assert("{\"type\":"@ =~= seq!['{', '"'] + "type"@ + seq!['"', ':']);
    assert(",\"text\":"@ =~= seq![',', '"'] + "text"@ + seq!['"', ':']);
    assert("}]"@ + ",\"isError\":true"@ + "}"@ =~= "}],\"isError\":true}"@);
    assert("}]"@ + Seq::<char>::empty() + "}"@ =~= "}]}"@);
    assert("}]}"@ =~= seq!['}', ']', '}']);
    assert("}],\"isError\":true}"@ =~= seq!['}', ']', ','] + (seq!['"'] + "isError"@ + seq!['"'])
        + seq![':'] + "true"@ + seq!['}']);
}

/// A message that calls a tool, with an id, a method, and in its parameters the
/// name of the tool and the arguments.
#[verifier::opaque]
pub open spec fn call_message(
    id: Scalar,
    name: Seq<char>,
    args: Seq<(Seq<char>, Scalar)>,
) -> Seq<char> {
    opened(seq![("id"@, id), ("method"@, Scalar::Text("tools/call"@))]) + seq![','] + text::json_quote(
        "params"@,
    ) + seq![':'] + (opened(seq![("name"@, Scalar::Text(name))]) + seq![','] + text::json_quote(
        "arguments"@,
    ) + seq![':'] + (opened(args) + seq!['}'])) + seq!['}', '}']
}

proof fn lemma_message_names()
    ensures
        "id"@.len() == 2,
        "method"@.len() == 6 && "method"@[0] == 'm',
        "params"@.len() == 6 && "params"@[0] == 'p',
        "name"@.len() == 4,
        "arguments"@.len() == 9,
{
    reveal_strlit("id");
    reveal_strlit("method");
    reveal_strlit("params");
    reveal_strlit("name");
    reveal_strlit("arguments");
}

/// Where the parts of a call stand.
#[verifier::spinoff_prover]
#[verifier::rlimit(60)]
proof fn lemma_call_parts(id: Scalar, name: Seq<char>, args: Seq<(Seq<char>, Scalar)>)
    ensures
        ({
            let v = call_message(id, name, args);
            let a = opened(seq![("id"@, id), ("method"@, Scalar::Text("tools/call"@))]);
            let p = text::json_quote("params"@);
            let b = opened(seq![("name"@, Scalar::Text(name))]);
            let q = text::json_quote("arguments"@);
            let c = opened(args);
            let i = a.len() as int;
            let j = i + 2 + p.len();
            let k = j + b.len();
            let l = k + 2 + q.len();
            let m = l + c.len();
            &&& text::occurs_at(v, a, 0)
            &&& v[i] == ','
            &&& text::occurs_at(v, p, i + 1)
            &&& v[j - 1] == ':'
            &&& text::occurs_at(v, b, j)
            &&& v[k] == ','
            &&& text::occurs_at(v, q, k + 1)
            &&& v[l - 1] == ':'
            &&& text::occurs_at(v, c, l)
            &&& v[m] == '}' && v[m + 1] == '}' && v[m + 2] == '}'
            &&& v.len() == m + 3
        }),
{
    reveal(call_message);
    let v = call_message(id, name, args);
    let a = opened(seq![("id"@, id), ("method"@, Scalar::Text("tools/call"@))]);
    let p = text::json_quote("params"@);
    let b = opened(seq![("name"@, Scalar::Text(name))]);
    let q = text::json_quote("arguments"@);
    let c = opened(args);
    let i = a.len() as int;
    let j = i + 2 + p.len();
    let k = j + b.len();
    let l = k + 2 + q.len();
    let m = l + c.len();
    assert(v.subrange(0, i) =~= a);
    assert(v.subrange(i + 1, i + 1 + p.len()) =~= p);
    assert(v.subrange(j, j + b.len()) =~= b);
    assert(v.subrange(k + 1, k + 1 + q.len()) =~= q);
    assert(v.subrange(l, l + c.len()) =~= c);
}

proof fn lemma_opened_starts(ms: Seq<(Seq<char>, Scalar)>)
    ensures
        opened(ms).len() > 0,
        opened(ms)[0] == '{',
    decreases ms.len(),
{
    if ms.len() > 0 {
        lemma_opened_starts(ms.drop_last());
    }
}

/// An object of scalars ends where its brace closes.
#[verifier::spinoff_prover]
#[verifier::rlimit(60)]
proof fn lemma_members_end(
    v: Seq<char>,
    ms: Seq<(Seq<char>, Scalar)>,
    at: int,
    depth: int,
)
    requires
        text::occurs_at(v, opened(ms), at),
        sound_members(ms),
    ensures
        object_end(v, at, depth) == object_end(v, at + opened(ms).len(), depth + 1),
    decreases ms.len(),
{
    if ms.len() == 0 {
        assert(v.subrange(at, at + 1)[0] == '{');
    } else {
        let d = ms.drop_last();
        lemma_last_member(v, ms, at);
        assert(ms.last() == ms[ms.len() - 1]);
        assert forall|i: int| 0 <= i < d.len() implies sound_scalar((#[trigger] d[i]).1) by {
            assert(d[i] == ms[i]);
        }
        lemma_members_end(v, d, at, depth);
        let k = at + opened(d).len() + (if ms.len() > 1 {
            1int
        } else {
            0
        });
        let q = text::json_quote(ms.last().0);
        lemma_quoted_at(v, k, ms.last().0);
        let c = k + q.len();
        assert(object_end(v, k, depth + 1) == object_end(v, c, depth + 1));
        assert(object_end(v, c, depth + 1) == object_end(v, c + 1, depth + 1));
        match ms.last().1 {
            Scalar::Text(s) => {
                lemma_quoted_at(v, c + 1, s);
            },
            Scalar::Bare(s) => {
                lemma_bare_end_of(v, s, 0, c + 1, depth + 1);
            },
        }
        if ms.len() > 1 {
            assert(object_end(v, k - 1, depth + 1) == object_end(v, k, depth + 1));
        }
    }
}

proof fn lemma_bare_end_of(v: Seq<char>, s: Seq<char>, n: int, i: int, depth: int)
    requires
        text::occurs_at(v, s, i),
        bare_text(s),
        0 <= n <= s.len(),
    ensures
        object_end(v, i + n, depth) == object_end(v, i + s.len(), depth),
    decreases s.len() - n,
{
    if n < s.len() {
        assert(v.subrange(i, i + s.len())[n] == s[n]);
        assert(bare_char(s[n]));
        lemma_bare_end_of(v, s, n + 1, i, depth);
    }
}

/// The id and the method of a message that starts with both.
proof fn lemma_head_of_message(v: Seq<char>, id: Scalar, method: Seq<char>)
    requires
        sound_scalar(id),
        id != Scalar::Bare("null"@),
        text::occurs_at(v, opened(seq![("id"@, id), ("method"@, Scalar::Text(method))]), 0),
        closes(v, opened(seq![("id"@, id), ("method"@, Scalar::Text(method))]).len() as int),
        v.last() == '}',
    ensures
        text::trim(v) == v,
        v.len() > 0,
        scalar_within(v, "method"@, 1) == Some(method),
        id_of(v) == Some(written(id)),
{
    let ms = seq![("id"@, id), ("method"@, Scalar::Text(method))];
    lemma_message_names();
    lemma_opened_starts(ms);
    assert(v.subrange(0, opened(ms).len() as int)[0] == opened(ms)[0]);
    lemma_trim_keeps(v);
    assert(ms[0] == ("id"@, id) && ms[1] == ("method"@, Scalar::Text(method)));
    assert(sound_members(ms));
    assert(ms.take(1)[0] == ms[0]);
    lemma_member_reads_back(v, ms, 1, 0, 0, 1);
    lemma_id_of_call(v, id, ms);
}

/// A key other than those before it is looked for in the parameters.
proof fn lemma_into_params(
    id: Scalar,
    name: Seq<char>,
    args: Seq<(Seq<char>, Scalar)>,
    key: Seq<char>,
)
    requires
        sound_scalar(id),
        key != "id"@ && key != "method"@ && key != "params"@,
    ensures
        ({
            let v = call_message(id, name, args);
            let i = opened(seq![("id"@, id), ("method"@, Scalar::Text("tools/call"@))]).len() as int;
            member_at(v, key, 0, 0, 2) == member_at(
                v,
                key,
                i + 2 + text::json_quote("params"@).len(),
                1,
                2,
            )
        }),
{
    let v = call_message(id, name, args);
    let ms = seq![("id"@, id), ("method"@, Scalar::Text("tools/call"@))];
    let p = text::json_quote("params"@);
    let i = opened(ms).len() as int;
    let j = i + 2 + p.len();
    lemma_call_parts(id, name, args);
    assert(ms[0] == ("id"@, id) && ms[1] == ("method"@, Scalar::Text("tools/call"@)));
    assert(sound_members(ms));
    assert(lacks(ms, key));
    lemma_pass_members(v, ms, key, 0, 0, 2);
    assert(member_at(v, key, i, 1, 2) == member_at(v, key, i + 1, 1, 2));
    lemma_pass_key(v, key, "params"@, i + 1, 1, 2);
    assert(member_at(v, key, j - 1, 1, 2) == member_at(v, key, j, 1, 2));
}

proof fn lemma_name_of_call(id: Scalar, name: Seq<char>, args: Seq<(Seq<char>, Scalar)>)
    requires
        sound_scalar(id),
    ensures
        scalar_within(call_message(id, name, args), "name"@, 2) == Some(name),
{
    let v = call_message(id, name, args);
    let ns = seq![("name"@, Scalar::Text(name))];
    let i = opened(seq![("id"@, id), ("method"@, Scalar::Text("tools/call"@))]).len() as int;
    let j = i + 2 + text::json_quote("params"@).len();
    lemma_message_names();
    lemma_call_parts(id, name, args);
    lemma_into_params(id, name, args, "name"@);
    assert(ns[0] == ("name"@, Scalar::Text(name)));
    assert(sound_members(ns));
    assert(ns.take(0) =~= Seq::empty());
    lemma_member_reads_back(v, ns, 0, j, 1, 2);
}

#[verifier::spinoff_prover]
#[verifier::rlimit(60)]
proof fn lemma_arguments_of_call(id: Scalar, name: Seq<char>, args: Seq<(Seq<char>, Scalar)>)
    requires
        sound_scalar(id),
        sound_members(args),
    ensures
        arguments_of(call_message(id, name, args)) == opened(args) + seq!['}'],
{
    let v = call_message(id, name, args);
    let ns = seq![("name"@, Scalar::Text(name))];
    let b = opened(ns);
    let q = text::json_quote("arguments"@);
    let c = opened(args);
    let key = "arguments"@;
    let i = opened(seq![("id"@, id), ("method"@, Scalar::Text("tools/call"@))]).len() as int;
    let j = i + 2 + text::json_quote("params"@).len();
    let k = j + b.len();
    let l = k + 2 + q.len();
    let m = l + c.len();
    lemma_message_names();
    lemma_call_parts(id, name, args);
    lemma_into_params(id, name, args, key);
    lemma_opened_starts(args);
    assert(ns[0] == ("name"@, Scalar::Text(name)));
    assert(sound_members(ns));
    assert(lacks(ns, key));
    lemma_pass_members(v, ns, key, j, 1, 2);
    assert(member_at(v, key, k, 2, 2) == member_at(v, key, k + 1, 2, 2));
    lemma_quoted_at(v, k + 1, key);
    assert(past_blanks(v, l - 1) == l - 1);
    assert(v.subrange(l, l + c.len())[0] == c[0]);
    assert(v[l] == '{');
    assert(past_blanks(v, l) == l);
    assert(member_at(v, key, k + 1, 2, 2) == Some(l));
    lemma_members_end(v, args, l, 0);
    assert(object_end(v, m, 1) == Some(m));
    assert(v.subrange(l, m + 1) =~= c + seq!['}']) by {
        assert(v.subrange(l, m) == c);
        assert forall|n: int| 0 <= n < c.len() implies #[trigger] v[l + n] == c[n] by {
            assert(v.subrange(l, m)[n] == c[n]);
        }
    }
}

/// A call reaches its tool: with the name that it gives, the arguments that it
/// gives, and the id that the answer goes to.
pub proof fn law_call_is_understood(
    id: Scalar,
    name: Seq<char>,
    args: Seq<(Seq<char>, Scalar)>,
    version: Seq<char>,
)
    requires
        sound_scalar(id),
        id != Scalar::Bare("null"@),
        sound_members(args),
    ensures
        request_of(call_message(id, name, args), version) == (RequestV::Tool {
            id: Some(written(id)),
            name,
            args: opened(args) + seq!['}'],
        }),
{
    lemma_call_parts(id, name, args);
    lemma_head_of_message(call_message(id, name, args), id, "tools/call"@);
    lemma_name_of_call(id, name, args);
    lemma_arguments_of_call(id, name, args);
}

#[verifier::spinoff_prover]
#[verifier::rlimit(60)]
proof fn lemma_id_of_call(v: Seq<char>, id: Scalar, ms: Seq<(Seq<char>, Scalar)>)
    requires
        ms.len() > 1,
        ms[0] == ("id"@, id),
        sound_members(ms),
        id != Scalar::Bare("null"@),
        text::occurs_at(v, opened(ms), 0),
    ensures
        id_of(v) == Some(written(id)),
{
    let one = ms.take(1);
    lemma_opened_take(ms, 1);
    let w = opened(ms);
    let a = opened(one);
    lemma_part(v, w, 0, a, 0);
    assert(v.subrange(0, w.len() as int)[a.len() as int] == w[a.len() as int]);
    lemma_last_member(v, one, 0);
    assert(one.last() == ms[0]);
    assert(one.drop_last() =~= Seq::empty());
    assert(opened(one.drop_last()) == seq!['{']);
    assert(sound_scalar(ms[0].1));
    let q = text::json_quote("id"@);
    assert(v.subrange(0, a.len() as int)[0] == a[0]);
    assert(a[0] == '{');
    lemma_quoted_at(v, 1, "id"@);
    let c = (1 + q.len()) as int;
    assert(past_blanks(v, c) == c);
    let x = written(id);
    assert(v.subrange(c + 1, c + 1 + x.len()) == x);
    match id {
        Scalar::Text(s) => {
            lemma_quoted_at(v, c + 1, s);
            assert(past_blanks(v, c + 1) == c + 1);
            lemma_trim_keeps(x);
            reveal_strlit("null");
            assert(x[0] != "null"@[0]);
        },
        Scalar::Bare(s) => {
            assert(v.subrange(c + 1, c + 1 + s.len())[0] == s[0]);
            assert(bare_char(s[0]));
            assert(past_blanks(v, c + 1) == c + 1);
            lemma_member_end(v, s, 0, c + 1);
            lemma_trim_bare(s);
        },
    }
    assert(member_at(v, "id"@, 1, 1, 1) == Some(c + 1));
    assert(member_at(v, "id"@, 0, 0, 1) == member_at(v, "id"@, 1, 1, 1));
}

proof fn lemma_member_end(v: Seq<char>, s: Seq<char>, n: int, i: int)
    requires
        text::occurs_at(v, s, i),
        bare_text(s),
        0 <= n <= s.len(),
        closes(v, i + s.len() as int),
    ensures
        member_end(v, i + n) == i + s.len(),
    decreases s.len() - n,
{
    if n < s.len() {
        assert(v.subrange(i, i + s.len())[n] == s[n]);
        assert(bare_char(s[n]));
        lemma_member_end(v, s, n + 1, i);
    }
}

/// A message with a method and no parameters.
#[verifier::opaque]
pub open spec fn plain_message(id: Scalar, method: Seq<char>) -> Seq<char> {
    opened(seq![("id"@, id), ("method"@, Scalar::Text(method))]) + seq!['}']
}

/// What a message asks for by its method is answered under its id: a greeting
/// with the version, the list of tools, a sign of life, or that there is no such
/// method.
#[verifier::spinoff_prover]
#[verifier::rlimit(60)]
pub proof fn law_methods(id: Scalar, method: Seq<char>, version: Seq<char>)
    requires
        sound_scalar(id),
        id != Scalar::Bare("null"@),
        method != "tools/call"@,
    ensures
        request_of(plain_message(id, method), version) matches RequestV::Reply(m) && {
            &&& text::starts_with(m, "{\"jsonrpc\":\"2.0\",\"id\":"@ + written(id) + ","@)
            &&& method == "initialize"@ ==> text::contains(m, text::json_quote(version))
            &&& method == "tools/list"@ ==> text::contains(m, tool_list())
            &&& method == "ping"@ ==> text::ends_with(m, ",\"result\":{}}"@)
            &&& method != "initialize"@ && method != "tools/list"@ && method != "ping"@
                ==> text::contains(m, ",\"error\":{\"code\":-32601,\"message\":"@)
                && text::contains(m, text::json_quote("method not found: "@ + method))
        },
{
    lemma_plain_message(id, method);
    let i = written(id);
    let h = "{\"jsonrpc\":\"2.0\",\"id\":"@ + i;
    reveal_strlit(",");
    reveal_strlit(",\"result\":");
    reveal_strlit(",\"error\":{\"code\":-32601,\"message\":");
    lemma_method_names();
    if method == "initialize"@ {
        let g = "{\"protocolVersion\":\"2024-11-05\",\"capabilities\":{\"tools\":{}},\"serverInfo\":{\"name\":\"alog\",\"version\":"@;
        lemma_holds(h + ",\"result\":"@ + g, text::json_quote(version), "}}"@ + "}"@);
        let m = result_reply(i, greeting(version));
        assert(m =~= h + ",\"result\":"@ + g + text::json_quote(version) + ("}}"@ + "}"@));
        lemma_starts_with_id(m, h);
    } else if method == "tools/list"@ {
        let m = result_reply(i, tool_list());
        lemma_holds(h + ",\"result\":"@, tool_list(), "}"@);
        lemma_starts_with_id(m, h);
    } else if method == "ping"@ {
        let m = result_reply(i, "{}"@);
        let z = ",\"result\":{}}"@;
        reveal_strlit(",\"result\":{}}");
        reveal_strlit("{}");
        reveal_strlit("}");
        assert(m.subrange(m.len() - z.len(), m.len() as int) =~= z);
        lemma_starts_with_id(m, h);
    } else {
        let m = unknown_reply(i, method);
        let e = ",\"error\":{\"code\":-32601,\"message\":"@;
        let x = text::json_quote("method not found: "@ + method);
        lemma_holds(h, e, x + "}}"@);
        assert(m =~= h + e + (x + "}}"@));
        lemma_holds(h + e, x, "}}"@);
        lemma_starts_with_id(m, h);
    }
}

proof fn lemma_plain_message(id: Scalar, method: Seq<char>)
    requires
        sound_scalar(id),
        id != Scalar::Bare("null"@),
    ensures
        ({
            let v = plain_message(id, method);
            &&& text::trim(v) == v
            &&& v.len() > 0
            &&& scalar_within(v, "method"@, 1) == Some(method)
            &&& id_of(v) == Some(written(id))
        }),
{
    reveal(plain_message);
    let v = plain_message(id, method);
    let a = opened(seq![("id"@, id), ("method"@, Scalar::Text(method))]);
    assert(v.subrange(0, a.len() as int) =~= a);
    assert(v[a.len() as int] == '}');
    assert(v.last() == '}');
    lemma_head_of_message(v, id, method);
}

proof fn lemma_method_names()
    ensures
        "initialize"@.len() == 10 && "initialize"@[0] == 'i',
        "tools/list"@.len() == 10 && "tools/list"@[0] == 't',
        "ping"@.len() == 4,
{
    reveal_strlit("initialize");
    reveal_strlit("tools/list");
    reveal_strlit("ping");
}

proof fn lemma_holds(a: Seq<char>, x: Seq<char>, b: Seq<char>)
    ensures
        text::contains(a + x + b, x),
{
    let v = a + x + b;
    let n = a.len() as int;
    assert(v.subrange(n, n + x.len()) =~= x);
    assert(text::occurs_at(v, x, n));
    text::law_find(v, x);
}

proof fn lemma_starts_with_id(m: Seq<char>, h: Seq<char>)
    requires
        m.len() > h.len(),
        m.subrange(0, h.len() as int) =~= h,
        m[h.len() as int] == ',',
    ensures
        text::starts_with(m, h + ","@),
{
    reveal_strlit(",");
    let p = h + ","@;
    assert forall|k: int| 0 <= k < p.len() implies #[trigger] m[k] == p[k] by {
        if k < h.len() {
            assert(m.subrange(0, h.len() as int)[k] == h[k]);
        }
    }
    assert(m.subrange(0, p.len() as int) =~= p);
}

/// The code and the message of an error report are read back.
#[verifier::spinoff_prover]
#[verifier::rlimit(60)]
pub proof fn lemma_report_reads_back(v: Seq<char>, code: Seq<char>, msg: Seq<char>)
    requires
        plain_key(code),
        text::starts_with(
            v,
            "{\"code\":\""@ + code + "\",\"message\":"@ + text::json_quote(msg),
        ),
        closes(
            v,
            ("{\"code\":\""@ + code + "\",\"message\":"@ + text::json_quote(msg)).len() as int,
        ),
    ensures
        scalar_at(v, "code"@) == Some(code),
        scalar_at(v, "message"@) == Some(msg),
{
    reveal_strlit("{\"code\":\"");
    reveal_strlit("\",\"message\":");
    reveal_strlit("{\"code\":");
    reveal_strlit(",\"message\":");
    reveal_strlit("code");
    reveal_strlit("message");
    let x = Scalar::Text(code);
    let y = Scalar::Text(msg);
    assert("{\"code\":"@ =~= seq!['{', '"'] + "code"@ + seq!['"', ':']);
    assert(",\"message\":"@ =~= seq![',', '"'] + "message"@ + seq!['"', ':']);
    assert("code"@.len() == 4 && "message"@.len() == 7);
    lemma_opens("{\"code\":"@, "code"@, x);
    let t = "{\"code\":"@ + written(x);
    let one = seq![("code"@, x)];
    lemma_goes_on(t, one, ",\"message\":"@, "message"@, y);
    lemma_plain_key(code);
    let ms = one.push(("message"@, y));
    assert("{\"code\":\""@ + code + "\",\"message\":"@ =~= t + ",\"message\":"@);
    assert(ms[0] == ("code"@, x) && ms[1] == ("message"@, y));
    assert(sound_members(ms));
    law_members_read_back(v, ms, 0);
    law_members_read_back(v, ms, 1);
}

/// Every tool has its name and its description in the list, where they can be
/// read, and is known when it is called.
#[verifier::spinoff_prover]
#[verifier::rlimit(60)]
pub proof fn law_tools(i: int, args: Seq<char>)
    requires
        0 <= i < 8,
    ensures
        text::starts_with(
            tool_entry(i),
            "{\"name\":"@ + text::json_quote(TOOLS@[i].0@) + ",\"description\":"@
                + text::json_quote(TOOLS@[i].1@) + ",\"inputSchema\":"@ + TOOLS@[i].2@,
        ),
        exists|k: int| #[trigger] text::occurs_at(tool_list(), tool_entry(i), k),
        call_of(TOOLS@[i].0@, args) matches CallV::Refuse(m) ==> m == TOOLS@[i].0@ + " needs a "@
            + (if i == 0 || i == 5 {
            "query"@
        } else if i == 6 && scalar_at(args, "session"@) is Some {
            "seq"@
        } else {
            "session"@
        }),
{
    let e = tool_entry(i);
    let p = "{\"name\":"@ + text::json_quote(TOOLS@[i].0@) + ",\"description\":"@
        + text::json_quote(TOOLS@[i].1@) + ",\"inputSchema\":"@ + TOOLS@[i].2@;
    assert(e.subrange(0, p.len() as int) =~= p);
    let es = tool_entries();
    let j = text::join(es, ","@);
    text::law_joined_in_order(es, ","@, i);
    let at = text::join(es.take(i + 1), ","@).len() - es[i].len();
    let o = tool_list();
    let h = "{\"tools\":["@.len() as int;
    assert(o.subrange(h, h + j.len()) =~= j);
    lemma_part(o, j, h, e, at);
    assert(text::occurs_at(o, e, h + at));
    lemma_tool_names();
    lemma_needs();
    let n = TOOLS@[i].0@;
    assert(n == "search"@ || n == "catalog"@ || n == "turns"@ || n == "timeline"@ || n == "errors"@
        || n == "sql"@ || n == "record"@ || n == "doctor"@);
}

proof fn lemma_needs()
    ensures
        "search needs a query"@ == "search"@ + " needs a "@ + "query"@,
        "sql needs a query"@ == "sql"@ + " needs a "@ + "query"@,
        "turns needs a session"@ == "turns"@ + " needs a "@ + "session"@,
        "timeline needs a session"@ == "timeline"@ + " needs a "@ + "session"@,
        "record needs a session"@ == "record"@ + " needs a "@ + "session"@,
        "record needs a seq"@ == "record"@ + " needs a "@ + "seq"@,
{
    reveal_strlit("search needs a query");
    reveal_strlit("sql needs a query");
    reveal_strlit("turns needs a session");
    reveal_strlit("timeline needs a session");
    reveal_strlit("record needs a session");
    reveal_strlit("record needs a seq");
    reveal_strlit(" needs a ");
    reveal_strlit("search");
    reveal_strlit("sql");
    reveal_strlit("turns");
    reveal_strlit("timeline");
    reveal_strlit("record");
    reveal_strlit("query");
    reveal_strlit("session");
    reveal_strlit("seq");
    assert("search needs a query"@ =~= "search"@ + " needs a "@ + "query"@);
    assert("sql needs a query"@ =~= "sql"@ + " needs a "@ + "query"@);
    assert("turns needs a session"@ =~= "turns"@ + " needs a "@ + "session"@);
    assert("timeline needs a session"@ =~= "timeline"@ + " needs a "@ + "session"@);
    assert("record needs a session"@ =~= "record"@ + " needs a "@ + "session"@);
    assert("record needs a seq"@ =~= "record"@ + " needs a "@ + "seq"@);
}

} // verus!
