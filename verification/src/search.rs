//! Full-text search: the terms of a query, and its result as text.

use crate::civil;
use crate::suggest;
use crate::text;
use vstd::prelude::*;
use vstd::string::*;

verus! {

/// A character that is syntax in a full-text query.
pub open spec fn is_syntax(c: char) -> bool {
    c == '"' || c == '*' || c == '.' || c == '(' || c == ')'
}

/// A query with a space for each character that is syntax.
pub open spec fn bare(q: Seq<char>) -> Seq<char> {
    Seq::new(
        q.len(),
        |i: int|
            if is_syntax(q[i]) {
                ' '
            } else {
                q[i]
            },
    )
}

/// The words that combine the terms of a query.
pub open spec fn is_operator(upper: Seq<char>) -> bool {
    upper == "AND"@ || upper == "OR"@ || upper == "NOT"@ || upper == "NEAR"@
}

/// The words that are terms; `upper` holds each of them in upper case.
pub open spec fn without_operators(words: Seq<Seq<char>>, upper: Seq<Seq<char>>) -> Seq<Seq<char>>
    decreases words.len(),
{
    if words.len() == 0 || upper.len() != words.len() {
        Seq::empty()
    } else {
        let before = without_operators(words.drop_last(), upper.drop_last());
        if is_operator(upper.last()) {
            before
        } else {
            before.push(words.last())
        }
    }
}

/// Some texts in upper case.
pub open spec fn uppers(words: Seq<Seq<char>>) -> Seq<Seq<char>> {
    Seq::new(words.len(), |i: int| text::uppercase(words[i]))
}

/// Some texts in lower case.
pub open spec fn lowers(words: Seq<Seq<char>>) -> Seq<Seq<char>> {
    Seq::new(words.len(), |i: int| text::lowercase(words[i]))
}

/// The terms of a query.
pub open spec fn terms(q: Seq<char>) -> Seq<Seq<char>> {
    let words = text::words(bare(q));
    without_operators(words, uppers(words))
}

/// The words that are terms; `upper` holds each of them in upper case.
pub fn keep_terms(words: &Vec<String>, upper: &Vec<String>) -> (r: Vec<String>)
    requires
        words@.len() == upper@.len(),
    ensures
        text::texts(r@) == without_operators(text::texts(words@), text::texts(upper@)),
{
    let ghost w = text::texts(words@);
    let ghost u = text::texts(upper@);
    let mut out: Vec<String> = Vec::new();
    let mut i: usize = 0;
    assert(text::texts(out@) =~= without_operators(w.take(0), u.take(0)));
    while i < words.len()
        invariant
            i <= words@.len(),
            w == text::texts(words@),
            u == text::texts(upper@),
            words@.len() == upper@.len(),
            text::texts(out@) == without_operators(w.take(i as int), u.take(i as int)),
        decreases words.len() - i,
    {
        assert(w.take(i + 1).drop_last() =~= w.take(i as int));
        assert(u.take(i + 1).drop_last() =~= u.take(i as int));
        let x = upper[i].as_str();
        assert(u.take(i + 1).last() == x@);
        let ghost before = text::texts(out@);
        if !(text::same(x, "AND") || text::same(x, "OR") || text::same(x, "NOT") || text::same(
            x,
            "NEAR",
        )) {
            let one = words[i].clone();
            out.push(one);
            assert(text::texts(out@) =~= before.push(one@));
        }
        i += 1;
    }
    assert(w.take(words@.len() as int) =~= w);
    assert(u.take(words@.len() as int) =~= u);
    out
}

/// The terms of a query: its words without quotes, stars and operators.
pub fn terms_of(q: &str) -> (r: Vec<String>)
    ensures
        text::texts(r@) == terms(q@),
{
    let v = text::chars_of(q);
    let mut b: Vec<char> = Vec::new();
    let mut i: usize = 0;
    while i < v.len()
        invariant
            i <= v@.len(),
            b@ == bare(v@).take(i as int),
        decreases v.len() - i,
    {
        let c = v[i];
        if c == '"' || c == '*' || c == '.' || c == '(' || c == ')' {
            b.push(' ');
        } else {
            b.push(c);
        }
        assert(b@ =~= bare(v@).take(i + 1));
        i += 1;
    }
    assert(bare(v@).take(v@.len() as int) =~= bare(v@));
    let parts = text::split_words(&b);
    let ghost ws = text::words(bare(q@));
    let mut words: Vec<String> = Vec::new();
    let mut upper: Vec<String> = Vec::new();
    let mut j: usize = 0;
    while j < parts.len()
        invariant
            j <= parts@.len(),
            text::views(parts@) == ws,
            words@.len() == j,
            upper@.len() == j,
            forall|k: int| 0 <= k < j ==> (#[trigger] words@[k])@ == ws[k],
            forall|k: int| 0 <= k < j ==> (#[trigger] upper@[k])@ == text::uppercase(ws[k]),
        decreases parts.len() - j,
    {
        assert(ws[j as int] == parts@[j as int]@);
        let w = text::string_of(&parts[j]);
        let u = text::to_uppercase(w.as_str());
        words.push(w);
        upper.push(u);
        j += 1;
    }
    assert(text::texts(words@) =~= ws);
    assert(text::texts(upper@) =~= uppers(ws));
    keep_terms(&words, &upper)
}

/// The first index at which one of some texts stands.
pub open spec fn earliest(s: Seq<char>, needles: Seq<Seq<char>>) -> Option<int>
    decreases needles.len(),
{
    if needles.len() == 0 {
        None
    } else {
        match (earliest(s, needles.drop_last()), text::find(s, needles.last())) {
            (Some(a), Some(b)) => Some(text::min2(a, b)),
            (Some(a), None) => Some(a),
            (None, b) => b,
        }
    }
}

/// A window of `width` characters, a third of which stand before index `at`.
pub open spec fn window(s: Seq<char>, at: Option<int>, width: int) -> Seq<char> {
    let skip = match at {
        Some(c) => text::max2(c - width / 3, 0),
        None => 0,
    };
    let rest = if skip <= s.len() {
        s.skip(skip)
    } else {
        Seq::empty()
    };
    let out = text::prefix(rest, width);
    if skip > 0 {
        "…"@ + out
    } else {
        out
    }
}

/// The part of a text where a term stands first, without regard to case.
pub open spec fn snippet(s: Seq<char>, words: Seq<Seq<char>>, width: int) -> Seq<char> {
    window(s, earliest(text::lowercase(s), lowers(words)), width)
}

/// The first index at which one of some texts stands.
pub fn first_of(s: &str, needles: &Vec<String>) -> (r: Option<usize>)
    ensures
        match r {
            Some(k) => earliest(s@, text::texts(needles@)) == Some(k as int),
            None => earliest(s@, text::texts(needles@)) is None,
        },
{
    let v = text::chars_of(s);
    let ghost ns = text::texts(needles@);
    let mut at: Option<usize> = None;
    let mut i: usize = 0;
    assert(earliest(s@, ns.take(0)) is None);
    while i < needles.len()
        invariant
            i <= needles@.len(),
            v@ == s@,
            ns == text::texts(needles@),
            match at {
                Some(k) => earliest(s@, ns.take(i as int)) == Some(k as int),
                None => earliest(s@, ns.take(i as int)) is None,
            },
        decreases needles.len() - i,
    {
        assert(ns.take(i + 1).drop_last() =~= ns.take(i as int));
        let n = text::chars_of(needles[i].as_str());
        assert(ns.take(i + 1).last() == n@);
        match text::find_chars(&v, &n) {
            Some(k) => {
                at = match at {
                    Some(a) => Some(
                        if a <= k {
                            a
                        } else {
                            k
                        },
                    ),
                    None => Some(k),
                };
            },
            None => {},
        }
        i += 1;
    }
    assert(ns.take(needles@.len() as int) =~= ns);
    at
}

/// A window of `width` characters, a third of which stand before index `at`.
pub fn snip_at(s: &str, at: Option<usize>, width: usize) -> (r: String)
    ensures
        r@ == window(
            s@,
            match at {
                Some(k) => Some(k as int),
                None => None,
            },
            width as int,
        ),
{
    let v = text::chars_of(s);
    let skip: usize = match at {
        Some(c) => if c >= width / 3 {
            c - width / 3
        } else {
            0
        },
        None => 0,
    };
    let mut out = String::new();
    if skip > 0 {
        out.append("…");
    }
    let ghost head = out@;
    if skip <= v.len() {
        let rest = vstd::slice::slice_subrange(&v, skip, v.len());
        assert(rest@ =~= v@.skip(skip as int));
        text::push_chars(&mut out, &text::prefix_chars(rest, width));
    } else {
        assert(text::prefix(Seq::empty(), width as int) =~= Seq::empty());
    }
    assert(skip > 0 ==> head =~= "…"@);
    assert(out@ =~= window(
        s@,
        match at {
            Some(k) => Some(k as int),
            None => None,
        },
        width as int,
    ));
    out
}

/// The part of a text where a term stands first.
pub fn snip(s: &str, words: &Vec<String>, width: usize) -> (r: String)
    ensures
        r@ == snippet(s@, text::texts(words@), width as int),
{
    let low = text::to_lowercase(s);
    let ghost ws = text::texts(words@);
    let mut lows: Vec<String> = Vec::new();
    let mut i: usize = 0;
    while i < words.len()
        invariant
            i <= words@.len(),
            ws == text::texts(words@),
            lows@.len() == i,
            forall|k: int| 0 <= k < i ==> (#[trigger] lows@[k])@ == text::lowercase(ws[k]),
        decreases words.len() - i,
    {
        lows.push(text::to_lowercase(words[i].as_str()));
        i += 1;
    }
    assert(text::texts(lows@) =~= lowers(ws));
    let at = first_of(low.as_str(), &lows);
    snip_at(s, at, width)
}

/// A record that a search found.
#[derive(Debug)]
pub struct Hit {
    pub ext: String,
    pub sid: i64,
    pub seq: i64,
    pub ts: Option<i64>,
    pub kind: Option<String>,
    pub tool: Option<String>,
    pub target: Option<String>,
}

/// The columns of a hit.
pub open spec fn hit_fields(h: Hit) -> Seq<Seq<char>> {
    seq![
        text::ellipsis(h.ext@, 60),
        text::dec_int(h.seq as int),
        civil::when(h.ts),
        text::given(h.kind),
        text::given(h.tool),
        text::ellipsis(text::given(h.target), 60),
    ]
}

/// What is quoted of a record. One that could not be read is named.
pub open spec fn quoted(read: Result<Vec<u8>, String>, words: Seq<Seq<char>>) -> Seq<char> {
    match read {
        Ok(b) => snippet(text::lossy(b@), words, 240),
        Err(e) => "<"@ + e@ + ">"@,
    }
}

/// A head with the first `n` hits below it.
pub open spec fn with_hits(
    head: Seq<char>,
    hits: Seq<Hit>,
    reads: Seq<Result<Vec<u8>, String>>,
    words: Seq<Seq<char>>,
    snippets: bool,
    n: int,
) -> Seq<char>
    decreases n,
{
    if n <= 0 {
        head
    } else {
        let line = with_hits(head, hits, reads, words, snippets, n - 1) + "\n"@ + text::join(
            hit_fields(hits[n - 1]),
            "\t"@,
        );
        if snippets {
            line + "\t"@ + text::flat(quoted(reads[n - 1], words))
        } else {
            line
        }
    }
}

/// The first line of a search: how many hits are shown, and of how many, where
/// that is known.
pub open spec fn search_head(n: int, limit: int, total: int, elapsed: int) -> Seq<char> {
    let shown = text::min2(n, limit);
    let h = if n > limit && total > 0 {
        "hits="@ + text::dec(shown as nat) + " of "@ + text::dec_int(total)
    } else {
        "hits="@ + text::dec(shown as nat)
    };
    let t = h + " elapsed="@ + text::dec(elapsed as nat) + "ms"@;
    if n > limit {
        if total > 0 {
            t + " -- narrow the query or raise --limit"@
        } else {
            t + " TRUNCATED at limit="@ + text::dec(limit as nat)
        }
    } else {
        t
    }
}

/// The result of a search. `hits` holds one more than `limit` where there are
/// more, and `total` counts them all, where it could be found out.
pub open spec fn search_result(
    hits: Seq<Hit>,
    reads: Seq<Result<Vec<u8>, String>>,
    words: Seq<Seq<char>>,
    limit: int,
    total: int,
    elapsed: int,
    snippets: bool,
) -> Seq<char> {
    let head = search_head(hits.len() as int, limit, total, elapsed);
    let shown = text::min2(hits.len() as int, limit);
    if shown == 0 {
        head + "\nno matches; try a shorter term or pre*"@
    } else {
        let cols = head + "\nsession\tseq\twhen\tkind\ttool\ttarget"@;
        with_hits(
            if snippets {
                cols + "\tmatch"@
            } else {
                cols
            },
            hits,
            reads,
            words,
            snippets,
            shown,
        )
    }
}

fn hit_line(h: &Hit) -> (r: String)
    ensures
        r@ == text::join(hit_fields(*h), "\t"@),
{
    let target = text::given_text(&h.target);
    let v: Vec<String> = vec![
        text::ellipsis_string(h.ext.as_str(), 60),
        text::i64_string(h.seq),
        civil::when_text(h.ts),
        text::given_text(&h.kind),
        text::given_text(&h.tool),
        text::ellipsis_string(target.as_str(), 60),
    ];
    assert(text::texts(v@) =~= hit_fields(*h));
    text::join_strings(&v, "\t")
}

fn quote(read: &Result<Vec<u8>, String>, words: &Vec<String>) -> (r: String)
    ensures
        r@ == quoted(*read, text::texts(words@)),
{
    match read {
        Ok(b) => snip(text::from_utf8_lossy(b.as_slice()).as_str(), words, 240),
        Err(e) => {
            let mut s = "<".to_owned();
            s.append(e.as_str());
            s.append(">");
            s
        },
    }
}

/// The result of a search for some terms, as text. `reads` holds, for every hit
/// that is shown, the record or why it could not be read.
pub fn search_terms(
    hits: &Vec<Hit>,
    reads: &Vec<Result<Vec<u8>, String>>,
    words: &Vec<String>,
    limit: usize,
    total: i64,
    elapsed: u64,
    snippets: bool,
) -> (r: String)
    requires
        snippets ==> reads@.len() >= text::min2(hits@.len() as int, limit as int),
    ensures
        r@ == search_result(
            hits@,
            reads@,
            text::texts(words@),
            limit as int,
            total as int,
            elapsed as int,
            snippets,
        ),
{
    let shown: usize = if hits.len() <= limit {
        hits.len()
    } else {
        limit
    };
    let mut out = "hits=".to_owned();
    text::push_usize(&mut out, shown);
    let more = hits.len() > limit;
    if more && total > 0 {
        out.append(" of ");
        text::push_i64(&mut out, total);
    }
    out.append(" elapsed=");
    text::push_u64(&mut out, elapsed);
    out.append("ms");
    if more {
        if total > 0 {
            out.append(" -- narrow the query or raise --limit");
        } else {
            out.append(" TRUNCATED at limit=");
            text::push_usize(&mut out, limit);
        }
    }
    if shown == 0 {
        out.append("\nno matches; try a shorter term or pre*");
        return out;
    }
    out.append("\nsession\tseq\twhen\tkind\ttool\ttarget");
    if snippets {
        out.append("\tmatch");
    }
    let ghost head = out@;
    let mut i: usize = 0;
    while i < shown
        invariant
            i <= shown <= hits@.len(),
            snippets ==> reads@.len() >= shown,
            out@ == with_hits(head, hits@, reads@, text::texts(words@), snippets, i as int),
        decreases shown - i,
    {
        out.append("\n");
        out.append(hit_line(&hits[i]).as_str());
        if snippets {
            out.append("\t");
            let q = quote(&reads[i], words);
            out.append(text::flat_string(q.as_str()).as_str());
        }
        i += 1;
    }
    out
}

/// The result of a search as text. The caller fetches one hit more than `limit`,
/// if there is one, and then counts them all in `total`. `reads` holds, for every
/// hit that is shown, the record or why it could not be read.
pub fn search(
    term: &str,
    hits: &Vec<Hit>,
    reads: &Vec<Result<Vec<u8>, String>>,
    limit: usize,
    total: i64,
    elapsed: u64,
    snippets: bool,
) -> (r: String)
    requires
        snippets ==> reads@.len() >= text::min2(hits@.len() as int, limit as int),
    ensures
        r@ == search_result(
            hits@,
            reads@,
            terms(term@),
            limit as int,
            total as int,
            elapsed as int,
            snippets,
        ),
{
    let words = terms_of(term);
    search_terms(hits, reads, &words, limit, total, elapsed, snippets)
}

proof fn lemma_with_hits(
    head: Seq<char>,
    hits: Seq<Hit>,
    reads: Seq<Result<Vec<u8>, String>>,
    words: Seq<Seq<char>>,
    snippets: bool,
    n: int,
    p: Seq<char>,
)
    requires
        text::starts_with(head, p),
    ensures
        text::starts_with(with_hits(head, hits, reads, words, snippets, n), p),
    decreases n,
{
    if n > 0 {
        lemma_with_hits(head, hits, reads, words, snippets, n - 1, p);
        let before = with_hits(head, hits, reads, words, snippets, n - 1);
        let f = text::join(hit_fields(hits[n - 1]), "\t"@);
        text::lemma_starts(before, p, "\n"@);
        text::lemma_starts(before + "\n"@, p, f);
        let line = before + "\n"@ + f;
        text::lemma_starts(line, p, "\t"@);
        text::lemma_starts(line + "\t"@, p, text::flat(quoted(reads[n - 1], words)));
    }
}

/// The result of a search starts with a line that tells how many hits are shown
/// and, where there are more, that there are.
pub proof fn law_search_says_cut(
    hits: Seq<Hit>,
    reads: Seq<Result<Vec<u8>, String>>,
    words: Seq<Seq<char>>,
    limit: int,
    total: int,
    elapsed: int,
    snippets: bool,
)
    ensures
        text::starts_with(
            search_result(hits, reads, words, limit, total, elapsed, snippets),
            search_head(hits.len() as int, limit, total, elapsed),
        ),
        hits.len() > limit ==> search_head(hits.len() as int, limit, total, elapsed)
            != search_head(limit, limit, total, elapsed),
{
    let p = search_head(hits.len() as int, limit, total, elapsed);
    assert(p.subrange(0, p.len() as int) =~= p);
    text::lemma_starts(p, p, "\nno matches; try a shorter term or pre*"@);
    let cols = p + "\nsession\tseq\twhen\tkind\ttool\ttarget"@;
    text::lemma_starts(p, p, "\nsession\tseq\twhen\tkind\ttool\ttarget"@);
    text::lemma_starts(cols, p, "\tmatch"@);
    let shown = text::min2(hits.len() as int, limit);
    lemma_with_hits(
        if snippets {
            cols + "\tmatch"@
        } else {
            cols
        },
        hits,
        reads,
        words,
        snippets,
        shown,
        p,
    );
    if hits.len() > limit {
        let q = search_head(limit, limit, total, elapsed);
        reveal_strlit(" -- narrow the query or raise --limit");
        reveal_strlit(" TRUNCATED at limit=");
        assert(p.len() > q.len());
    }
}

// ---------------------------------------------------------------------------
// Which column says what
// ---------------------------------------------------------------------------

/// The texts of a hit hold no tab and no line feed, which would shift its
/// columns.
pub open spec fn plain_hit(h: Hit) -> bool {
    &&& text::free_of(h.ext@, '\t') && text::free_of(h.ext@, '\n')
    &&& text::free_of(text::given(h.kind), '\t') && text::free_of(text::given(h.kind), '\n')
    &&& text::free_of(text::given(h.tool), '\t') && text::free_of(text::given(h.tool), '\n')
    &&& text::free_of(text::given(h.target), '\t') && text::free_of(text::given(h.target), '\n')
}

proof fn lemma_fields_plain(h: Hit, c: char)
    requires
        plain_hit(h),
        c == '\t' || c == '\n',
    ensures
        forall|j: int| 0 <= j < hit_fields(h).len() ==> text::free_of(#[trigger] hit_fields(h)[j], c),
{
    text::lemma_ellipsis_plain(h.ext@, 60, c);
    text::lemma_ellipsis_plain(text::given(h.target), 60, c);
    text::lemma_dec_int_plain(h.seq as int, c);
    civil::lemma_when_plain(h.ts, c);
}

proof fn lemma_head_line(n: int, limit: int, total: int, elapsed: int)
    ensures
        text::free_of(search_head(n, limit, total, elapsed), '\n'),
{
    let c = '\n';
    let shown = text::min2(n, limit);
    reveal_strlit("hits=");
    reveal_strlit(" of ");
    reveal_strlit(" elapsed=");
    reveal_strlit("ms");
    reveal_strlit(" -- narrow the query or raise --limit");
    reveal_strlit(" TRUNCATED at limit=");
    text::lemma_dec_plain(shown as nat, c);
    text::lemma_dec_int_plain(total, c);
    text::lemma_dec_plain(elapsed as nat, c);
    text::lemma_dec_plain(limit as nat, c);
    let a = "hits="@ + text::dec(shown as nat);
    text::lemma_free_concat("hits="@, text::dec(shown as nat), c);
    text::lemma_free_concat(a, " of "@, c);
    text::lemma_free_concat(a + " of "@, text::dec_int(total), c);
    let h = if n > limit && total > 0 {
        a + " of "@ + text::dec_int(total)
    } else {
        a
    };
    text::lemma_free_concat(h, " elapsed="@, c);
    text::lemma_free_concat(h + " elapsed="@, text::dec(elapsed as nat), c);
    let t = h + " elapsed="@ + text::dec(elapsed as nat) + "ms"@;
    text::lemma_free_concat(h + " elapsed="@ + text::dec(elapsed as nat), "ms"@, c);
    text::lemma_free_concat(t, " -- narrow the query or raise --limit"@, c);
    text::lemma_free_concat(t, " TRUNCATED at limit="@, c);
    text::lemma_free_concat(t + " TRUNCATED at limit="@, text::dec(limit as nat), c);
}

/// The fields of a line of the result.
spec fn line_fields(
    h: Hit,
    reads: Seq<Result<Vec<u8>, String>>,
    words: Seq<Seq<char>>,
    snippets: bool,
    i: int,
) -> Seq<Seq<char>> {
    if snippets {
        hit_fields(h).push(text::flat(quoted(reads[i], words)))
    } else {
        hit_fields(h)
    }
}

proof fn lemma_hit_lines(
    head: Seq<char>,
    hits: Seq<Hit>,
    reads: Seq<Result<Vec<u8>, String>>,
    words: Seq<Seq<char>>,
    snippets: bool,
    n: int,
)
    requires
        0 <= n <= hits.len(),
        forall|i: int| 0 <= i < n ==> plain_hit(#[trigger] hits[i]),
    ensures
        ({
            let ls = text::parts(with_hits(head, hits, reads, words, snippets, n), '\n');
            let hs = text::parts(head, '\n');
            &&& ls.len() == hs.len() + n
            &&& forall|i: int| 0 <= i < hs.len() ==> #[trigger] ls[i] == hs[i]
            &&& forall|i: int|
                0 <= i < n ==> text::parts(#[trigger] ls[hs.len() + i], '\t') == line_fields(
                    hits[i],
                    reads,
                    words,
                    snippets,
                    i,
                )
        }),
    decreases n,
{
    if n > 0 {
        lemma_hit_lines(head, hits, reads, words, snippets, n - 1);
        let before = with_hits(head, hits, reads, words, snippets, n - 1);
        let h = hits[n - 1];
        assert(plain_hit(h));
        lemma_fields_plain(h, '\t');
        lemma_fields_plain(h, '\n');
        let fs = line_fields(h, reads, words, snippets, n - 1);
        let q = text::flat(quoted(reads[n - 1], words));
        text::law_flat(quoted(reads[n - 1], words), Seq::empty());
        assert forall|j: int| 0 <= j < fs.len() implies text::free_of(#[trigger] fs[j], '\t')
            && text::free_of(fs[j], '\n') by {
            if j < hit_fields(h).len() {
                assert(fs[j] == hit_fields(h)[j]);
            }
        }
        let line = text::join(fs, "\t"@);
        text::lemma_fields(fs);
        reveal_strlit("\t");
        text::lemma_join_free(fs, "\t"@, '\n');
        if snippets {
            text::law_join_appends(hit_fields(h), q, "\t"@);
        }
        let all = with_hits(head, hits, reads, words, snippets, n);
        assert(all =~= before + "\n"@ + line);
        text::lemma_line_below(before, line);
    }
}

/// A result has its first line, the names of its columns, and a line for each hit
/// that is shown, in order. Every line has a field for each column, and the field
/// says of the hit what the name of the column promises.
#[verifier::spinoff_prover]
#[verifier::rlimit(60)]
pub proof fn law_search_columns(
    hits: Seq<Hit>,
    reads: Seq<Result<Vec<u8>, String>>,
    words: Seq<Seq<char>>,
    limit: int,
    total: int,
    elapsed: int,
    snippets: bool,
    i: int,
)
    requires
        0 < limit,
        forall|k: int| 0 <= k < hits.len() ==> plain_hit(#[trigger] hits[k]),
        0 <= i < hits.len(),
        i < limit,
    ensures
        ({
            let shown = if hits.len() <= limit {
                hits.len() as int
            } else {
                limit
            };
            let ls = text::parts(
                search_result(hits, reads, words, limit, total, elapsed, snippets),
                '\n',
            );
            let names = text::parts(ls[1], '\t');
            let f = text::parts(ls[2 + i], '\t');
            &&& ls.len() == 2 + shown
            &&& names == seq![
                "session"@,
                "seq"@,
                "when"@,
                "kind"@,
                "tool"@,
                "target"@,
            ] + (if snippets {
                seq!["match"@]
            } else {
                Seq::empty()
            })
            &&& f.len() == names.len()
            &&& forall|j: int|
                0 <= j < names.len() ==> {
                    &&& #[trigger] names[j] == "session"@ && hits[i].ext@.len() <= 60 ==> f[j]
                        == hits[i].ext@
                    &&& names[j] == "session"@ && hits[i].ext@.len() > 60 ==> f[j].len() == 61
                        && f[j].take(60) == hits[i].ext@.take(60)
                    &&& names[j] == "seq"@ ==> text::parse_signed(f[j]) == Some(hits[i].seq as int)
                    &&& names[j] == "when"@ ==> (hits[i].ts matches Some(t) ==> f[j]
                        == civil::timestamp(t as int)) && (hits[i].ts is None ==> f[j].len() == 0)
                    &&& names[j] == "kind"@ ==> (hits[i].kind matches Some(t) ==> f[j] == t@) && (
                    hits[i].kind is None ==> f[j].len() == 0)
                    &&& names[j] == "tool"@ ==> (hits[i].tool matches Some(t) ==> f[j] == t@) && (
                    hits[i].tool is None ==> f[j].len() == 0)
                    &&& names[j] == "target"@ ==> (hits[i].target matches Some(t) ==> t@.len() <= 60
                        ==> f[j] == t@) && (hits[i].target is None ==> f[j].len() == 0)
                    &&& names[j] == "target"@ ==> (hits[i].target matches Some(t) ==> t@.len() > 60
                        ==> f[j].len() == 61 && f[j].take(60) == t@.take(60))
                    &&& names[j] == "match"@ ==> f[j] == text::flat(quoted(reads[i], words))
                }
        }),
{
    let head = search_head(hits.len() as int, limit, total, elapsed);
    let shown = text::min2(hits.len() as int, limit);
    lemma_head_line(hits.len() as int, limit, total, elapsed);
    text::lemma_parts_one(head, '\n');
    lemma_column_names();
    let base = seq!["session"@, "seq"@, "when"@, "kind"@, "tool"@, "target"@];
    let names = base + (if snippets {
        seq!["match"@]
    } else {
        Seq::empty()
    });
    let line = if snippets {
        text::join(base, "\t"@) + "\tmatch"@
    } else {
        text::join(base, "\t"@)
    };
    let cols = head + "\nsession\tseq\twhen\tkind\ttool\ttarget"@;
    let top = if snippets {
        cols + "\tmatch"@
    } else {
        cols
    };
    reveal_strlit("\n");
    assert(top =~= head + "\n"@ + line);
    if snippets {
        text::law_join_appends(base, "match"@, "\t"@);
        reveal_strlit("\tmatch");
        reveal_strlit("match");
        reveal_strlit("\t");
        assert("\tmatch"@ =~= "\t"@ + "match"@);
        assert(base.push("match"@) =~= names);
        assert(line =~= text::join(names, "\t"@));
    } else {
        assert(base + Seq::<Seq<char>>::empty() =~= base);
    }
    lemma_names_plain(names, snippets);
    text::lemma_fields(names);
    reveal_strlit("\t");
    text::lemma_join_free(names, "\t"@, '\n');
    text::lemma_line_below(head, line);
    lemma_hit_lines(top, hits, reads, words, snippets, shown);
    let hs = text::parts(top, '\n');
    assert(hs =~= seq![head, line]);
    let ls = text::parts(search_result(hits, reads, words, limit, total, elapsed, snippets), '\n');
    assert(ls[1] == hs[1]);
    assert(ls[hs.len() + i] == ls[2 + i]);
    text::law_integer_reads_back(hits[i].seq as int);
    lemma_names_differ();
    lemma_cut_off(hits[i].ext@, 60);
    lemma_cut_off(text::given(hits[i].target), 60);
    assert(text::parts(ls[1], '\t') == names);
    assert(text::parts(ls[2 + i], '\t') == line_fields(hits[i], reads, words, snippets, i));
}

proof fn lemma_cut_off(s: Seq<char>, n: int)
    requires
        n >= 0,
    ensures
        s.len() > n ==> text::ellipsis(s, n).len() == n + 1 && text::ellipsis(s, n).take(n)
            == s.take(n),
{
    text::law_cut(s, n);
    if s.len() > n {
        assert(text::ellipsis(s, n).take(n) =~= s.take(n));
    }
}

proof fn lemma_column_names()
    ensures
        "\nsession\tseq\twhen\tkind\ttool\ttarget"@ == "\n"@ + text::join(
            seq!["session"@, "seq"@, "when"@, "kind"@, "tool"@, "target"@],
            "\t"@,
        ),
{
    reveal_strlit("\nsession\tseq\twhen\tkind\ttool\ttarget");
    reveal_strlit("\n");
    reveal_strlit("\t");
    reveal_strlit("session");
    reveal_strlit("seq");
    reveal_strlit("when");
    reveal_strlit("kind");
    reveal_strlit("tool");
    reveal_strlit("target");
    let p1 = seq!["session"@];
    let p2 = p1.push("seq"@);
    let p3 = p2.push("when"@);
    let p4 = p3.push("kind"@);
    let p5 = p4.push("tool"@);
    let p6 = p5.push("target"@);
    let t = "\t"@;
    text::law_join_appends(p1, "seq"@, t);
    text::law_join_appends(p2, "when"@, t);
    text::law_join_appends(p3, "kind"@, t);
    text::law_join_appends(p4, "tool"@, t);
    text::law_join_appends(p5, "target"@, t);
    assert(p6 =~= seq!["session"@, "seq"@, "when"@, "kind"@, "tool"@, "target"@]);
    assert("\nsession\tseq\twhen\tkind\ttool\ttarget"@ =~= "\n"@ + ("session"@ + t + "seq"@ + t
        + "when"@ + t + "kind"@ + t + "tool"@ + t + "target"@));
}

proof fn lemma_names_plain(names: Seq<Seq<char>>, snippets: bool)
    requires
        names == seq!["session"@, "seq"@, "when"@, "kind"@, "tool"@, "target"@] + (if snippets {
            seq!["match"@]
        } else {
            Seq::empty()
        }),
    ensures
        forall|j: int|
            0 <= j < names.len() ==> text::free_of(#[trigger] names[j], '\t') && text::free_of(
                names[j],
                '\n',
            ),
{
    reveal_strlit("session");
    reveal_strlit("seq");
    reveal_strlit("when");
    reveal_strlit("kind");
    reveal_strlit("tool");
    reveal_strlit("target");
    reveal_strlit("match");
}

proof fn lemma_names_differ()
    ensures
        "session"@ != "seq"@ && "session"@ != "when"@ && "session"@ != "kind"@ && "session"@
            != "tool"@ && "session"@ != "target"@ && "session"@ != "match"@,
        "seq"@ != "when"@ && "seq"@ != "kind"@ && "seq"@ != "tool"@ && "seq"@ != "target"@ && "seq"@
            != "match"@,
        "when"@ != "kind"@ && "when"@ != "tool"@ && "when"@ != "target"@ && "when"@ != "match"@,
        "kind"@ != "tool"@ && "kind"@ != "target"@ && "kind"@ != "match"@,
        "tool"@ != "target"@ && "tool"@ != "match"@ && "target"@ != "match"@,
{
    reveal_strlit("session");
    reveal_strlit("seq");
    reveal_strlit("when");
    reveal_strlit("kind");
    reveal_strlit("tool");
    reveal_strlit("target");
    reveal_strlit("match");
    assert("session"@.len() == 7 && "seq"@.len() == 3 && "target"@.len() == 6 && "match"@.len() == 5);
    assert("when"@.len() == 4 && "kind"@.len() == 4 && "tool"@.len() == 4);
    assert("when"@[0] == 'w' && "kind"@[0] == 'k' && "tool"@[0] == 't' && "target"@[1] == 'a'
        && "match"@[0] == 'm' && "session"@[0] == 's' && "seq"@[0] == 's');
}

/// Where nothing is found, or nothing may be shown, the result says so.
pub proof fn law_search_without_hits(
    hits: Seq<Hit>,
    reads: Seq<Result<Vec<u8>, String>>,
    words: Seq<Seq<char>>,
    limit: int,
    total: int,
    elapsed: int,
    snippets: bool,
)
    requires
        limit >= 0,
        hits.len() == 0 || limit == 0,
    ensures
        text::ends_with(
            search_result(hits, reads, words, limit, total, elapsed, snippets),
            "\nno matches; try a shorter term or pre*"@,
        ),
{
    let r = search_result(hits, reads, words, limit, total, elapsed, snippets);
    let p = "\nno matches; try a shorter term or pre*"@;
    assert(r.subrange(r.len() - p.len(), r.len() as int) =~= p);
}

/// A search tells how many hits are shown, and of how many where there are more.
pub proof fn law_search_counts(n: int, limit: int, total: int, elapsed: int)
    requires
        0 <= n,
        0 <= limit,
    ensures
        n <= limit ==> text::starts_with(
            search_head(n, limit, total, elapsed),
            "hits="@ + text::dec(n as nat) + " elapsed="@ + text::dec(elapsed as nat) + "ms"@,
        ),
        n > limit && total > 0 ==> text::starts_with(
            search_head(n, limit, total, elapsed),
            "hits="@ + text::dec(limit as nat) + " of "@ + text::dec(total as nat) + " elapsed="@
                + text::dec(elapsed as nat) + "ms"@,
        ),
        n > limit && total <= 0 ==> text::ends_with(
            search_head(n, limit, total, elapsed),
            " TRUNCATED at limit="@ + text::dec(limit as nat),
        ),
{
    let h = search_head(n, limit, total, elapsed);
    let a = "hits="@ + text::dec(n as nat) + " elapsed="@ + text::dec(elapsed as nat) + "ms"@;
    let b = "hits="@ + text::dec(limit as nat) + " of "@ + text::dec(total as nat) + " elapsed="@
        + text::dec(elapsed as nat) + "ms"@;
    let c = " TRUNCATED at limit="@ + text::dec(limit as nat);
    if n <= limit {
        assert(h.subrange(0, a.len() as int) =~= a);
    } else if total > 0 {
        assert(h.subrange(0, b.len() as int) =~= b);
    } else {
        assert(h.subrange(h.len() - c.len(), h.len() as int) =~= c);
    }
}

/// What is quoted of a record that could not be read names the reason; what is
/// quoted of one that could is a part of it.
pub proof fn law_quote_is_honest(read: Result<Vec<u8>, String>, words: Seq<Seq<char>>)
    ensures
        match read {
            Ok(b) => quoted(read, words) == snippet(text::lossy(b@), words, 240),
            Err(e) => quoted(read, words).len() == e@.len() + 2 && text::occurs_at(
                quoted(read, words),
                e@,
                1,
            ),
        },
{
    reveal_strlit("<");
    reveal_strlit(">");
    match read {
        Err(e) => {
            assert(quoted(read, words).subrange(1, 1 + e@.len() as int) =~= e@);
        },
        Ok(_) => {},
    }
}

/// A snippet is a part of the text, at most `width` characters long, with an
/// ellipsis in front where it does not start with the text. Where a term stands
/// in the text, the snippet reaches from a third of its width before the first
/// one on, so that it holds it.
pub proof fn law_window(s: Seq<char>, at: Option<int>, width: int)
    requires
        width >= 0,
        at matches Some(k) ==> 0 <= k < s.len(),
    ensures
        ({
            let from = match at {
                Some(k) => if k > width / 3 {
                    k - width / 3
                } else {
                    0
                },
                None => 0,
            };
            let w = window(s, at, width);
            let body = if from > 0 {
                w.drop_first()
            } else {
                w
            };
            &&& from > 0 ==> w.len() > 0 && w[0] == '…'
            &&& body.len() <= width
            &&& from + body.len() <= s.len()
            &&& body == s.subrange(from, from + body.len())
            &&& body.len() < width ==> from + body.len() == s.len()
        }),
{
    reveal_strlit("…");
    let skip = match at {
        Some(c) => text::max2(c - width / 3, 0),
        None => 0,
    };
    let rest = s.skip(skip);
    let out = text::prefix(rest, width);
    assert(out =~= s.subrange(skip, skip + out.len()));
    let w = window(s, at, width);
    if skip > 0 {
        assert(w.drop_first() =~= out);
    }
}

/// The place of a snippet is the first at which one of the terms stands.
pub proof fn law_earliest(s: Seq<char>, needles: Seq<Seq<char>>)
    ensures
        match earliest(s, needles) {
            Some(k) => (exists|i: int|
                0 <= i < needles.len() && text::occurs_at(s, #[trigger] needles[i], k)) && forall|
                i: int,
                j: int,
            |
                0 <= i < needles.len() && 0 <= j < k ==> !#[trigger] text::occurs_at(
                    s,
                    needles[i],
                    j,
                ),
            None => forall|i: int, j: int|
                0 <= i < needles.len() && 0 <= j && j + needles[i].len() <= s.len()
                    ==> !#[trigger] text::occurs_at(s, needles[i], j),
        },
    decreases needles.len(),
{
    if needles.len() > 0 {
        let d = needles.drop_last();
        let n = needles.len() - 1;
        law_earliest(s, d);
        text::law_find(s, needles.last());
        assert(needles.last() == needles[n]);
        match earliest(s, needles) {
            Some(k) => {
                if earliest(s, d) == Some(k) {
                    let i = choose|i: int|
                        0 <= i < d.len() && text::occurs_at(s, #[trigger] d[i], k);
                    assert(text::occurs_at(s, needles[i], k));
                } else {
                    assert(text::occurs_at(s, needles[n], k));
                }
                assert forall|i: int, j: int|
                    0 <= i < needles.len() && 0 <= j < k implies !#[trigger] text::occurs_at(
                    s,
                    needles[i],
                    j,
                ) by {
                    if i < n {
                        assert(d[i] == needles[i]);
                        if text::occurs_at(s, d[i], j) {
                            assert(text::occurs_at(s, d[i], j));
                        }
                    } else if text::occurs_at(s, needles.last(), j) {
                        assert(text::occurs_at(s, needles.last(), j));
                    }
                }
            },
            None => {
                assert forall|i: int, j: int|
                    0 <= i < needles.len() && 0 <= j && j + needles[i].len()
                        <= s.len() implies !#[trigger] text::occurs_at(s, needles[i], j) by {
                    if i < n {
                        assert(d[i] == needles[i]);
                        if text::occurs_at(s, d[i], j) {
                            assert(text::occurs_at(s, d[i], j));
                        }
                    } else if text::occurs_at(s, needles.last(), j) {
                        assert(text::occurs_at(s, needles.last(), j));
                    }
                }
            },
        }
    }
}

/// The terms of a query are words of it, in order, without the operators and the
/// characters of the syntax.
pub proof fn law_terms(words: Seq<Seq<char>>, upper: Seq<Seq<char>>, w: Seq<char>, u: Seq<char>)
    requires
        words.len() == upper.len(),
    ensures
        without_operators(Seq::empty(), Seq::empty()) == Seq::<Seq<char>>::empty(),
        u == "AND"@ || u == "OR"@ || u == "NOT"@ || u == "NEAR"@ ==> without_operators(
            words.push(w),
            upper.push(u),
        ) == without_operators(words, upper),
        u != "AND"@ && u != "OR"@ && u != "NOT"@ && u != "NEAR"@ ==> without_operators(
            words.push(w),
            upper.push(u),
        ) == without_operators(words, upper).push(w),
{
    assert(words.push(w).drop_last() =~= words);
    assert(upper.push(u).drop_last() =~= upper);
}

/// A character of the syntax stands for a space, and every other for itself.
pub proof fn law_bare(q: Seq<char>, i: int)
    requires
        0 <= i < q.len(),
    ensures
        bare(q).len() == q.len(),
        q[i] == '"' || q[i] == '*' || q[i] == '.' || q[i] == '(' || q[i] == ')' ==> bare(q)[i]
            == ' ',
        q[i] != '"' && q[i] != '*' && q[i] != '.' && q[i] != '(' && q[i] != ')' ==> bare(q)[i]
            == q[i],
        terms(q) == without_operators(text::words(bare(q)), uppers(text::words(bare(q)))),
{
}

} // verus!
