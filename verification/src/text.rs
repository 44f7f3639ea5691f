//! Characters, strings and numbers as text.
//!
//! Strings are handled as sequences of characters. What a function computes is
//! stated by a specification function over `Seq<char>` that bears a close name.

use vstd::prelude::*;
use vstd::string::*;
use vstd::utf8::*;

verus! {

/// Trusted: `char::from_u32` gives the character with a code, and none where no
/// character has the code.
pub assume_specification[ char::from_u32 ](i: u32) -> (r: Option<char>)
    ensures
        match r {
            Some(c) => c as int == i && !(i > 0x10ffff || 0xd800 <= i <= 0xdfff),
            None => i > 0x10ffff || 0xd800 <= i <= 0xdfff,
        },
;

/// Trusted: `String::push` appends the character.
pub assume_specification[ String::push ](s: &mut String, c: char)
    ensures
        final(s)@ == old(s)@.push(c),
;

/// What `str::to_lowercase` makes of a string: the Unicode lower-case mapping.
pub uninterp spec fn lowercase(s: Seq<char>) -> Seq<char>;

/// What `str::to_uppercase` makes of a string: the Unicode upper-case mapping.
pub uninterp spec fn uppercase(s: Seq<char>) -> Seq<char>;

/// What `String::from_utf8_lossy` makes of bytes that are not UTF-8.
pub uninterp spec fn utf8_lossy(b: Seq<u8>) -> Seq<char>;

/// Bytes read as text: UTF-8 as it is, and else with replacements.
pub open spec fn lossy(b: Seq<u8>) -> Seq<char> {
    if valid_utf8(b) {
        decode_utf8(b)
    } else {
        utf8_lossy(b)
    }
}

/// Trusted: calls `str::to_lowercase`, whose result depends on the string alone.
#[verifier::external_body]
pub(crate) fn to_lowercase(s: &str) -> (r: String)
    ensures
        r@ == lowercase(s@),
{
    s.to_lowercase()
}

/// Trusted: calls `str::to_uppercase`, whose result depends on the string alone.
#[verifier::external_body]
pub(crate) fn to_uppercase(s: &str) -> (r: String)
    ensures
        r@ == uppercase(s@),
{
    s.to_uppercase()
}

/// Trusted: calls `String::from_utf8_lossy`. UTF-8 is decoded as it is; what
/// stands for other bytes depends on the bytes alone and is left to the name.
#[verifier::external_body]
fn decode_lossy(b: &[u8]) -> (r: String)
    ensures
        valid_utf8(b@) ==> r@ == decode_utf8(b@),
        !valid_utf8(b@) ==> r@ == utf8_lossy(b@),
{
    String::from_utf8_lossy(b).into_owned()
}

/// Bytes read as text.
pub fn from_utf8_lossy(b: &[u8]) -> (r: String)
    ensures
        r@ == lossy(b@),
{
    decode_lossy(b)
}

/// Trusted: calls `std::str::from_utf8`, which succeeds exactly on valid UTF-8
/// and then borrows the same bytes.
#[verifier::external_body]
pub(crate) fn from_utf8(b: &[u8]) -> (r: Option<&str>)
    ensures
        r is Some <==> valid_utf8(b@),
        r matches Some(s) ==> s.spec_bytes() == b@,
{
    std::str::from_utf8(b).ok()
}

/// The characters of a string.
pub fn chars_of(s: &str) -> (r: Vec<char>)
    ensures
        r@ == s@,
{
    let mut out: Vec<char> = Vec::new();
    for c in it: s.chars()
        invariant
            it.seq() == s@,
            out@ == s@.take(it.index()),
    {
        out.push(c);
    }
    assert(s@.take(s@.len() as int) == s@);
    out
}

/// Appends some characters.
pub fn push_chars(out: &mut String, v: &[char])
    ensures
        final(out)@ == old(out)@ + v@,
{
    let mut i: usize = 0;
    while i < v.len()
        invariant
            i <= v.len(),
            out@ == old(out)@ + v@.take(i as int),
        decreases v.len() - i,
    {
        out.push(v[i]);
        i += 1;
    }
    assert(v@.take(v@.len() as int) == v@);
}

/// The string of some characters.
pub fn string_of(v: &[char]) -> (r: String)
    ensures
        r@ == v@,
{
    let mut out = String::new();
    push_chars(&mut out, v);
    assert(Seq::<char>::empty() + v@ == v@);
    out
}

/// Whether two strings hold the same characters.
pub fn same(a: &str, b: &str) -> (r: bool)
    ensures
        r == (a@ == b@),
{
    a.to_owned() == b.to_owned()
}

/// A copy of some characters.
pub fn copy_chars(v: &[char]) -> (r: Vec<char>)
    ensures
        r@ == v@,
{
    vstd::slice::slice_to_vec(v)
}

// ---------------------------------------------------------------------------
// Searching
// ---------------------------------------------------------------------------

/// `needle` stands in `hay` at index `i`.
pub open spec fn occurs_at<T>(hay: Seq<T>, needle: Seq<T>, i: int) -> bool {
    &&& 0 <= i
    &&& i + needle.len() <= hay.len()
    &&& hay.subrange(i, i + needle.len()) == needle
}

/// The first index, from `i` on, at which `needle` stands in `hay`.
pub open spec fn find_from<T>(hay: Seq<T>, needle: Seq<T>, i: int) -> Option<int>
    decreases hay.len() - i + 1,
{
    if i + needle.len() > hay.len() {
        None
    } else if occurs_at(hay, needle, i) {
        Some(i)
    } else {
        find_from(hay, needle, i + 1)
    }
}

/// The first index at which `needle` stands in `hay`.
pub open spec fn find<T>(hay: Seq<T>, needle: Seq<T>) -> Option<int> {
    find_from(hay, needle, 0)
}

pub open spec fn contains<T>(hay: Seq<T>, needle: Seq<T>) -> bool {
    find(hay, needle) is Some
}

pub open spec fn starts_with<T>(s: Seq<T>, p: Seq<T>) -> bool {
    occurs_at(s, p, 0)
}

pub open spec fn ends_with<T>(s: Seq<T>, p: Seq<T>) -> bool {
    occurs_at(s, p, s.len() - p.len())
}

/// What `find_from` returns: the least index at which the needle stands.
pub proof fn lemma_find_from<T>(hay: Seq<T>, needle: Seq<T>, i: int)
    requires
        0 <= i,
    ensures
        find_from(hay, needle, i) matches Some(k) ==> i <= k && occurs_at(hay, needle, k)
            && forall|j: int| i <= j < k ==> !occurs_at(hay, needle, j),
        find_from(hay, needle, i) is None ==> forall|j: int| i <= j ==> !occurs_at(hay, needle, j),
    decreases hay.len() - i + 1,
{
    if i + needle.len() <= hay.len() && !occurs_at(hay, needle, i) {
        lemma_find_from(hay, needle, i + 1);
    }
}

/// What a text starts with is kept when more follows.
pub proof fn lemma_starts(s: Seq<char>, p: Seq<char>, more: Seq<char>)
    requires
        starts_with(s, p),
    ensures
        starts_with(s + more, p),
{
    assert((s + more).subrange(0, p.len() as int) =~= s.subrange(0, p.len() as int));
}

/// Whether `needle` stands in `hay` at index `i`.
pub fn chars_at(hay: &[char], needle: &[char], i: usize) -> (r: bool)
    ensures
        r == occurs_at(hay@, needle@, i as int),
{
    if i > hay.len() || needle.len() > hay.len() - i {
        return false;
    }
    let mut k: usize = 0;
    while k < needle.len()
        invariant
            k <= needle.len(),
            i + needle.len() <= hay.len(),
            forall|j: int| 0 <= j < k ==> hay@[i + j] == needle@[j],
        decreases needle.len() - k,
    {
        if hay[i + k] != needle[k] {
            assert(hay@.subrange(i as int, i + needle@.len())[k as int] != needle@[k as int]);
            return false;
        }
        k += 1;
    }
    assert(hay@.subrange(i as int, i + needle@.len()) == needle@);
    true
}

/// The first index at which `needle` stands in `hay`.
pub fn find_chars(hay: &[char], needle: &[char]) -> (r: Option<usize>)
    ensures
        (r matches Some(k) ==> find(hay@, needle@) == Some(k as int)),
        r is None ==> find(hay@, needle@) is None,
{
    let mut i: usize = 0;
    if needle.len() > hay.len() {
        return None;
    }
    let last: usize = hay.len() - needle.len();
    loop
        invariant
            i <= last,
            last + needle.len() == hay.len(),
            find(hay@, needle@) == find_from(hay@, needle@, i as int),
        decreases last - i,
    {
        if chars_at(hay, needle, i) {
            return Some(i);
        }
        if i == last {
            assert(find_from(hay@, needle@, i + 1) is None);
            return None;
        }
        i += 1;
    }
}

/// Whether `needle` stands in `hay` at index `i`, for bytes.
pub fn bytes_at(hay: &[u8], needle: &[u8], i: usize) -> (r: bool)
    ensures
        r == occurs_at(hay@, needle@, i as int),
{
    if i > hay.len() || needle.len() > hay.len() - i {
        return false;
    }
    let mut k: usize = 0;
    while k < needle.len()
        invariant
            k <= needle.len(),
            i + needle.len() <= hay.len(),
            forall|j: int| 0 <= j < k ==> hay@[i + j] == needle@[j],
        decreases needle.len() - k,
    {
        if hay[i + k] != needle[k] {
            assert(hay@.subrange(i as int, i + needle@.len())[k as int] != needle@[k as int]);
            return false;
        }
        k += 1;
    }
    assert(hay@.subrange(i as int, i + needle@.len()) == needle@);
    true
}

/// The first index at which `needle` stands in `hay`, for bytes.
pub fn find_bytes(hay: &[u8], needle: &[u8]) -> (r: Option<usize>)
    ensures
        (r matches Some(k) ==> find(hay@, needle@) == Some(k as int)),
        r is None ==> find(hay@, needle@) is None,
{
    let mut i: usize = 0;
    if needle.len() > hay.len() {
        return None;
    }
    let last: usize = hay.len() - needle.len();
    loop
        invariant
            i <= last,
            last + needle.len() == hay.len(),
            find(hay@, needle@) == find_from(hay@, needle@, i as int),
        decreases last - i,
    {
        if bytes_at(hay, needle, i) {
            return Some(i);
        }
        if i == last {
            assert(find_from(hay@, needle@, i + 1) is None);
            return None;
        }
        i += 1;
    }
}

/// Whether a string holds another.
pub fn str_contains(s: &str, p: &str) -> (r: bool)
    ensures
        r == contains(s@, p@),
{
    find_chars(&chars_of(s), &chars_of(p)).is_some()
}

/// Whether a string starts with another.
pub fn str_starts_with(s: &str, p: &str) -> (r: bool)
    ensures
        r == starts_with(s@, p@),
{
    chars_at(&chars_of(s), &chars_of(p), 0)
}

/// Whether a string ends with another.
pub fn str_ends_with(s: &str, p: &str) -> (r: bool)
    ensures
        r == ends_with(s@, p@),
{
    let a = chars_of(s);
    let b = chars_of(p);
    if b.len() > a.len() {
        return false;
    }
    chars_at(&a, &b, a.len() - b.len())
}

// ---------------------------------------------------------------------------
// White space and words
// ---------------------------------------------------------------------------

/// The characters with Unicode's White_Space property.
pub open spec fn is_ws(c: char) -> bool {
    ||| '\u{9}' <= c <= '\u{d}'
    ||| c == ' '
    ||| c == '\u{85}'
    ||| c == '\u{a0}'
    ||| c == '\u{1680}'
    ||| '\u{2000}' <= c <= '\u{200a}'
    ||| c == '\u{2028}'
    ||| c == '\u{2029}'
    ||| c == '\u{202f}'
    ||| c == '\u{205f}'
    ||| c == '\u{3000}'
}

/// Whether a character is white space.
pub fn ws(c: char) -> (r: bool)
    ensures
        r == is_ws(c),
{
    ('\u{9}' <= c && c <= '\u{d}') || c == ' ' || c == '\u{85}' || c == '\u{a0}' || c == '\u{1680}'
        || ('\u{2000}' <= c && c <= '\u{200a}') || c == '\u{2028}' || c == '\u{2029}' || c
        == '\u{202f}' || c == '\u{205f}' || c == '\u{3000}'
}

/// A sequence without its leading white space.
pub open spec fn trim_start(s: Seq<char>) -> Seq<char>
    decreases s.len(),
{
    if s.len() > 0 && is_ws(s[0]) {
        trim_start(s.drop_first())
    } else {
        s
    }
}

/// A sequence without its trailing white space.
pub open spec fn trim_end(s: Seq<char>) -> Seq<char>
    decreases s.len(),
{
    if s.len() > 0 && is_ws(s.last()) {
        trim_end(s.drop_last())
    } else {
        s
    }
}

/// A sequence without white space at either end.
pub open spec fn trim(s: Seq<char>) -> Seq<char> {
    trim_end(trim_start(s))
}

/// The characters without white space at either end.
pub fn trim_chars(v: &[char]) -> (r: Vec<char>)
    ensures
        r@ == trim(v@),
{
    let mut i: usize = 0;
    assert(v@.subrange(0, v@.len() as int) == v@);
    while i < v.len() && ws(v[i])
        invariant
            i <= v.len(),
            trim_start(v@) == trim_start(v@.subrange(i as int, v@.len() as int)),
        decreases v.len() - i,
    {
        assert(v@.subrange(i as int, v@.len() as int).drop_first() == v@.subrange(
            i + 1,
            v@.len() as int,
        ));
        i += 1;
    }
    let ghost t = trim_start(v@);
    assert(t == v@.subrange(i as int, v@.len() as int));
    let mut j: usize = v.len();
    while j > i && ws(v[j - 1])
        invariant
            i <= j <= v.len(),
            trim_end(t) == trim_end(v@.subrange(i as int, j as int)),
        decreases j - i,
    {
        assert(v@.subrange(i as int, j as int).drop_last() == v@.subrange(i as int, j - 1));
        j -= 1;
    }
    vstd::slice::slice_to_vec(vstd::slice::slice_subrange(v, i, j))
}

/// The string without leading white space.
pub fn trim_start_chars(v: &[char]) -> (r: Vec<char>)
    ensures
        r@ == trim_start(v@),
{
    let mut i: usize = 0;
    assert(v@.subrange(0, v@.len() as int) == v@);
    while i < v.len() && ws(v[i])
        invariant
            i <= v.len(),
            trim_start(v@) == trim_start(v@.subrange(i as int, v@.len() as int)),
        decreases v.len() - i,
    {
        assert(v@.subrange(i as int, v@.len() as int).drop_first() == v@.subrange(
            i + 1,
            v@.len() as int,
        ));
        i += 1;
    }
    vstd::slice::slice_to_vec(vstd::slice::slice_subrange(v, i, v.len()))
}

/// The length of the longest prefix without white space.
pub open spec fn word_len(s: Seq<char>) -> nat
    decreases s.len(),
{
    if s.len() == 0 || is_ws(s[0]) {
        0
    } else {
        1 + word_len(s.drop_first())
    }
}

/// The maximal runs of characters that are not white space, in order.
pub open spec fn words(s: Seq<char>) -> Seq<Seq<char>>
    decreases s.len(),
{
    if s.len() == 0 {
        Seq::empty()
    } else if is_ws(s[0]) {
        words(s.drop_first())
    } else {
        let n = word_len(s) as int;
        if 0 < n <= s.len() {
            seq![s.take(n)] + words(s.skip(n))
        } else {
            Seq::empty()
        }
    }
}

pub proof fn lemma_word_len(s: Seq<char>)
    ensures
        word_len(s) <= s.len(),
        s.len() > 0 && !is_ws(s[0]) ==> word_len(s) > 0,
        forall|i: int| 0 <= i < word_len(s) ==> !is_ws(#[trigger] s[i]),
        word_len(s) < s.len() ==> is_ws(s[word_len(s) as int]),
    decreases s.len(),
{
    if s.len() > 0 && !is_ws(s[0]) {
        lemma_word_len(s.drop_first());
        let n = word_len(s.drop_first()) as int;
        assert forall|i: int| 0 <= i < word_len(s) implies !is_ws(#[trigger] s[i]) by {
            if i > 0 {
                assert(s[i] == s.drop_first()[i - 1]);
            }
        }
        if n < s.drop_first().len() {
            assert(s.drop_first()[n] == s[n + 1]);
        }
    }
}

/// What an optional string stands for.
pub open spec fn opt_text(o: Option<String>) -> Option<Seq<char>> {
    match o {
        Some(s) => Some(s@),
        None => None,
    }
}

/// A text, or nothing.
pub open spec fn or_empty(s: Option<Seq<char>>) -> Seq<char> {
    match s {
        Some(t) => t,
        None => Seq::empty(),
    }
}

/// A string, or nothing.
pub open spec fn given(s: Option<String>) -> Seq<char> {
    match s {
        Some(t) => t@,
        None => Seq::empty(),
    }
}

/// A string, or nothing.
pub fn given_text(s: &Option<String>) -> (r: String)
    ensures
        r@ == given(*s),
{
    match s {
        Some(t) => t.clone(),
        None => {
            let e = String::new();
            assert(e@ =~= Seq::empty());
            e
        },
    }
}

/// The views of some character vectors.
pub open spec fn views(v: Seq<Vec<char>>) -> Seq<Seq<char>> {
    v.map_values(|w: Vec<char>| w@)
}

/// The views of some strings.
pub open spec fn texts(v: Seq<String>) -> Seq<Seq<char>> {
    v.map_values(|w: String| w@)
}

/// The words of a text.
pub fn split_words(v: &[char]) -> (r: Vec<Vec<char>>)
    ensures
        views(r@) == words(v@),
{
    let mut out: Vec<Vec<char>> = Vec::new();
    let mut i: usize = 0;
    let ghost n = v@.len() as int;
    assert(v@.subrange(0, n) == v@);
    assert(views(out@) + words(v@) == words(v@));
    while i < v.len()
        invariant
            i <= v.len(),
            n == v@.len(),
            views(out@) + words(v@.subrange(i as int, n)) == words(v@),
        decreases v.len() - i,
    {
        let ghost rest = v@.subrange(i as int, n);
        if ws(v[i]) {
            assert(rest.drop_first() == v@.subrange(i + 1, n));
            i += 1;
        } else {
            let mut j: usize = i;
            while j < v.len() && !ws(v[j])
                invariant
                    i <= j <= v.len(),
                    n == v@.len(),
                    rest == v@.subrange(i as int, n),
                    word_len(rest) == (j - i) + word_len(v@.subrange(j as int, n)),
                decreases v.len() - j,
            {
                assert(v@.subrange(j as int, n).drop_first() == v@.subrange(j + 1, n));
                j += 1;
            }
            assert(word_len(v@.subrange(j as int, n)) == 0);
            proof {
                lemma_word_len(rest);
            }
            let w = vstd::slice::slice_to_vec(vstd::slice::slice_subrange(v, i, j));
            assert(rest.take(j - i) == w@);
            assert(rest.skip(j - i) == v@.subrange(j as int, n));
            let ghost before = views(out@);
            out.push(w);
            assert(views(out@) == before.push(w@));
            assert(before.push(w@) + words(v@.subrange(j as int, n)) == before + (seq![w@] + words(
                v@.subrange(j as int, n),
            )));
            i = j;
        }
    }
    assert(v@.subrange(n, n).len() == 0);
    assert(views(out@) + Seq::<Seq<char>>::empty() == views(out@));
    out
}

/// The parts in order, with the separator between each two.
pub open spec fn join(parts: Seq<Seq<char>>, sep: Seq<char>) -> Seq<char>
    decreases parts.len(),
{
    if parts.len() == 0 {
        Seq::empty()
    } else if parts.len() == 1 {
        parts[0]
    } else {
        join(parts.drop_last(), sep) + sep + parts.last()
    }
}

/// Joins character vectors.
pub fn join_chars(parts: &Vec<Vec<char>>, sep: &str) -> (r: String)
    ensures
        r@ == join(views(parts@), sep@),
{
    let mut out = String::new();
    let mut i: usize = 0;
    let ghost vs = views(parts@);
    assert(vs.take(0) == Seq::<Seq<char>>::empty());
    while i < parts.len()
        invariant
            i <= parts.len(),
            vs == views(parts@),
            out@ == join(vs.take(i as int), sep@),
        decreases parts.len() - i,
    {
        assert(vs.take(i + 1).drop_last() == vs.take(i as int));
        assert(vs.take(i + 1).last() == parts@[i as int]@);
        if i > 0 {
            out.append(sep);
        }
        push_chars(&mut out, &parts[i]);
        assert(i == 0 ==> Seq::<char>::empty() + parts@[0]@ == parts@[0]@);
        i += 1;
    }
    assert(vs.take(vs.len() as int) == vs);
    out
}

/// Joins strings.
pub fn join_strings(parts: &Vec<String>, sep: &str) -> (r: String)
    ensures
        r@ == join(texts(parts@), sep@),
{
    let mut out = String::new();
    let mut i: usize = 0;
    let ghost vs = texts(parts@);
    assert(vs.take(0) == Seq::<Seq<char>>::empty());
    while i < parts.len()
        invariant
            i <= parts.len(),
            vs == texts(parts@),
            out@ == join(vs.take(i as int), sep@),
        decreases parts.len() - i,
    {
        assert(vs.take(i + 1).drop_last() == vs.take(i as int));
        assert(vs.take(i + 1).last() == parts@[i as int]@);
        if i > 0 {
            out.append(sep);
        }
        out.append(parts[i].as_str());
        assert(i == 0 ==> Seq::<char>::empty() + parts@[0]@ == parts@[0]@);
        i += 1;
    }
    assert(vs.take(vs.len() as int) == vs);
    out
}

/// A sequence cut to its first `n` characters.
pub open spec fn prefix(s: Seq<char>, n: int) -> Seq<char> {
    if s.len() <= n {
        s
    } else {
        s.take(n)
    }
}

/// A sequence cut to its first `cap` characters, with an ellipsis where
/// something was cut off.
pub open spec fn ellipsis(s: Seq<char>, cap: int) -> Seq<char> {
    if s.len() <= cap {
        s
    } else {
        s.take(cap) + "…"@
    }
}

/// The first `n` characters.
pub fn prefix_chars(v: &[char], n: usize) -> (r: Vec<char>)
    ensures
        r@ == prefix(v@, n as int),
{
    if v.len() <= n {
        vstd::slice::slice_to_vec(v)
    } else {
        vstd::slice::slice_to_vec(vstd::slice::slice_subrange(v, 0, n))
    }
}

/// The first `cap` characters, with an ellipsis where something was cut off.
pub fn ellipsis_chars(v: &[char], cap: usize) -> (r: String)
    ensures
        r@ == ellipsis(v@, cap as int),
{
    let mut out = string_of(&prefix_chars(v, cap));
    if v.len() > cap {
        out.append("…");
    }
    out
}

/// A text cut to `cap` characters, with an ellipsis where something was cut off.
pub fn ellipsis_string(s: &str, cap: usize) -> (r: String)
    ensures
        r@ == ellipsis(s@, cap as int),
{
    ellipsis_chars(&chars_of(s), cap)
}

// ---------------------------------------------------------------------------
// Numbers
// ---------------------------------------------------------------------------

/// The lesser of two numbers.
pub open spec fn min2(a: int, b: int) -> int {
    if a <= b {
        a
    } else {
        b
    }
}

/// The greater of two numbers.
pub open spec fn max2(a: int, b: int) -> int {
    if a >= b {
        a
    } else {
        b
    }
}

/// The decimal digit of `d`.
pub open spec fn digit(d: int) -> char {
    (48 + d) as u8 as char
}

/// A natural number in decimal.
pub open spec fn dec(n: nat) -> Seq<char>
    decreases n,
{
    if n < 10 {
        seq![digit(n as int)]
    } else {
        dec(n / 10).push(digit((n % 10) as int))
    }
}

/// An integer in decimal.
pub open spec fn dec_int(i: int) -> Seq<char> {
    if i < 0 {
        seq!['-'] + dec((-i) as nat)
    } else {
        dec(i as nat)
    }
}

/// Appends a number in decimal.
pub fn push_u64(out: &mut String, n: u64)
    ensures
        final(out)@ == old(out)@ + dec(n as nat),
    decreases n,
{
    if n >= 10 {
        push_u64(out, n / 10);
    }
    out.push((48u8 + (n % 10) as u8) as char);
}

/// Appends a number in decimal.
pub fn push_usize(out: &mut String, n: usize)
    ensures
        final(out)@ == old(out)@ + dec(n as nat),
{
    push_u64(out, n as u64);
}

/// Appends a number in decimal.
pub fn push_i64(out: &mut String, n: i64)
    ensures
        final(out)@ == old(out)@ + dec_int(n as int),
{
    if n < 0 {
        let m: u64 = (-(n as i128)) as u64;
        out.push('-');
        push_u64(out, m);
        assert(old(out)@.push('-') + dec(m as nat) == old(out)@ + (seq!['-'] + dec(m as nat)));
    } else {
        push_u64(out, n as u64);
    }
}

pub open spec fn is_digit(c: char) -> bool {
    '0' <= c <= '9'
}

pub open spec fn all_digits(s: Seq<char>) -> bool {
    forall|i: int| 0 <= i < s.len() ==> is_digit(#[trigger] s[i])
}

/// The number that some decimal digits denote.
pub open spec fn value(s: Seq<char>) -> nat
    decreases s.len(),
{
    if s.len() == 0 {
        0
    } else {
        value(s.drop_last()) * 10 + ((s.last() as u8) - 48) as nat
    }
}

/// The number that a non-empty run of digits denotes, where it is at most `max`.
pub open spec fn parse_nat(s: Seq<char>, max: int) -> Option<nat> {
    if s.len() > 0 && all_digits(s) && value(s) <= max {
        Some(value(s))
    } else {
        None
    }
}

/// How an unsigned integer is read: digits, after an optional plus sign.
pub open spec fn parse_unsigned(s: Seq<char>, max: int) -> Option<nat> {
    if s.len() > 0 && s[0] == '+' {
        parse_nat(s.drop_first(), max)
    } else {
        parse_nat(s, max)
    }
}

/// How a 64-bit signed integer is read: digits, after an optional sign.
pub open spec fn parse_signed(s: Seq<char>) -> Option<int> {
    if s.len() > 0 && s[0] == '-' {
        match parse_nat(s.drop_first(), 0x8000_0000_0000_0000) {
            Some(n) => Some(-n),
            None => None,
        }
    } else if s.len() > 0 && s[0] == '+' {
        match parse_nat(s.drop_first(), 0x7fff_ffff_ffff_ffff) {
            Some(n) => Some(n as int),
            None => None,
        }
    } else {
        match parse_nat(s, 0x7fff_ffff_ffff_ffff) {
            Some(n) => Some(n as int),
            None => None,
        }
    }
}

proof fn lemma_value_grows(s: Seq<char>, i: int)
    requires
        all_digits(s),
        0 <= i <= s.len(),
    ensures
        value(s.take(i)) <= value(s),
    decreases s.len() - i,
{
    if i < s.len() {
        lemma_value_grows(s, i + 1);
        assert(s.take(i + 1).drop_last() == s.take(i));
        assert(is_digit(s[i]));
    } else {
        assert(s.take(i) == s);
    }
}

/// Reads a non-empty run of digits that denotes at most `max`.
pub fn read_nat(v: &[char], max: u64) -> (r: Option<u64>)
    ensures
        match r {
            Some(n) => parse_nat(v@, max as int) == Some(n as nat),
            None => parse_nat(v@, max as int) is None,
        },
{
    if v.len() == 0 {
        return None;
    }
    let mut j: usize = 0;
    while j < v.len()
        invariant
            j <= v.len(),
            forall|k: int| 0 <= k < j ==> is_digit(#[trigger] v@[k]),
        decreases v.len() - j,
    {
        if v[j] < '0' || v[j] > '9' {
            assert(!is_digit(v@[j as int]));
            return None;
        }
        j += 1;
    }
    let mut n: u64 = 0;
    let mut i: usize = 0;
    while i < v.len()
        invariant
            i <= v.len(),
            all_digits(v@),
            n == value(v@.take(i as int)),
            n <= max,
        decreases v.len() - i,
    {
        assert(v@.take(i + 1).drop_last() == v@.take(i as int));
        assert(is_digit(v@[i as int]));
        let d: u64 = (v[i] as u8 - 48) as u64;
        let big: u128 = n as u128 * 10 + d as u128;
        assert(big == value(v@.take(i + 1)));
        if big > max as u128 {
            proof {
                lemma_value_grows(v@, i + 1);
            }
            return None;
        }
        n = big as u64;
        i += 1;
    }
    assert(v@.take(v@.len() as int) == v@);
    Some(n)
}

/// Reads an unsigned integer of at most `max`.
pub fn read_unsigned(v: &[char], max: u64) -> (r: Option<u64>)
    ensures
        match r {
            Some(n) => parse_unsigned(v@, max as int) == Some(n as nat),
            None => parse_unsigned(v@, max as int) is None,
        },
{
    if v.len() > 0 && v[0] == '+' {
        let rest = vstd::slice::slice_subrange(v, 1, v.len());
        assert(rest@ == v@.drop_first());
        read_nat(rest, max)
    } else {
        read_nat(v, max)
    }
}

/// Reads a signed integer.
pub fn read_i64(v: &[char]) -> (r: Option<i64>)
    ensures
        match r {
            Some(n) => parse_signed(v@) == Some(n as int),
            None => parse_signed(v@) is None,
        },
{
    if v.len() > 0 && (v[0] == '-' || v[0] == '+') {
        let rest = vstd::slice::slice_subrange(v, 1, v.len());
        assert(rest@ == v@.drop_first());
        if v[0] == '-' {
            match read_nat(rest, 0x8000_0000_0000_0000) {
                Some(n) => Some((-(n as i128)) as i64),
                None => None,
            }
        } else {
            match read_nat(rest, 0x7fff_ffff_ffff_ffff) {
                Some(n) => Some(n as i64),
                None => None,
            }
        }
    } else {
        match read_nat(v, 0x7fff_ffff_ffff_ffff) {
            Some(n) => Some(n as i64),
            None => None,
        }
    }
}

/// A number in decimal.
pub fn usize_string(n: usize) -> (r: String)
    ensures
        r@ == dec(n as nat),
{
    let mut s = String::new();
    push_usize(&mut s, n);
    assert(s@ =~= dec(n as nat));
    s
}

/// A number in decimal.
pub fn i64_string(n: i64) -> (r: String)
    ensures
        r@ == dec_int(n as int),
{
    let mut s = String::new();
    push_i64(&mut s, n);
    assert(s@ =~= dec_int(n as int));
    s
}

/// A number in decimal.
pub fn u64_string(n: u64) -> (r: String)
    ensures
        r@ == dec(n as nat),
{
    let mut s = String::new();
    push_u64(&mut s, n);
    assert(s@ =~= dec(n as nat));
    s
}

// ---------------------------------------------------------------------------
// Quoting
// ---------------------------------------------------------------------------

/// The lower-case hexadecimal digit of `d`.
pub open spec fn hex(d: int) -> char {
    if d < 10 {
        (48 + d) as u8 as char
    } else {
        (87 + d) as u8 as char
    }
}

/// One character inside a JSON string.
pub open spec fn json_char(c: char) -> Seq<char> {
    if c == '"' {
        seq!['\\', '"']
    } else if c == '\\' {
        seq!['\\', '\\']
    } else if c == '\n' {
        seq!['\\', 'n']
    } else if c == '\r' {
        seq!['\\', 'r']
    } else if c == '\t' {
        seq!['\\', 't']
    } else if ' ' > c {
        seq!['\\', 'u', '0', '0', hex(c as int / 16), hex(c as int % 16)]
    } else {
        seq![c]
    }
}

/// The inside of a JSON string.
pub open spec fn json_body(s: Seq<char>) -> Seq<char>
    decreases s.len(),
{
    if s.len() == 0 {
        Seq::empty()
    } else {
        json_body(s.drop_last()) + json_char(s.last())
    }
}

/// A string as JSON.
pub open spec fn json_quote(s: Seq<char>) -> Seq<char> {
    seq!['"'] + json_body(s) + seq!['"']
}

fn push_hex(out: &mut String, d: u8)
    requires
        d < 16,
    ensures
        final(out)@ == old(out)@.push(hex(d as int)),
{
    if d < 10 {
        out.push((48u8 + d) as char);
    } else {
        out.push((87u8 + d) as char);
    }
}

fn push_json_char(out: &mut String, c: char)
    ensures
        final(out)@ == old(out)@ + json_char(c),
{
    if c == '"' {
        out.push('\\');
        out.push('"');
    } else if c == '\\' {
        out.push('\\');
        out.push('\\');
    } else if c == '\n' {
        out.push('\\');
        out.push('n');
    } else if c == '\r' {
        out.push('\\');
        out.push('r');
    } else if c == '\t' {
        out.push('\\');
        out.push('t');
    } else if ' ' > c {
        let n: u8 = c as u8;
        out.push('\\');
        out.push('u');
        out.push('0');
        out.push('0');
        push_hex(out, n / 16);
        push_hex(out, n % 16);
    } else {
        out.push(c);
    }
}

/// Appends a string as JSON.
pub fn push_json(out: &mut String, s: &str)
    ensures
        final(out)@ == old(out)@ + json_quote(s@),
{
    let v = chars_of(s);
    out.push('"');
    let mut i: usize = 0;
    let ghost start = out@;
    while i < v.len()
        invariant
            i <= v.len(),
            out@ == start + json_body(v@.take(i as int)),
        decreases v.len() - i,
    {
        assert(v@.take(i + 1).drop_last() == v@.take(i as int));
        push_json_char(out, v[i]);
        i += 1;
    }
    assert(v@.take(v@.len() as int) == v@);
    out.push('"');
    assert(out@ == old(out)@ + json_quote(s@));
}

/// A string as JSON.
pub fn json_str(s: &str) -> (r: String)
    ensures
        r@ == json_quote(s@),
{
    let mut o = String::new();
    push_json(&mut o, s);
    assert(o@ =~= json_quote(s@));
    o
}

// ---------------------------------------------------------------------------
// Reading a JSON string
// ---------------------------------------------------------------------------

/// The value of a hexadecimal digit.
pub open spec fn hex_value(c: char) -> Option<int> {
    let n = c as int;
    if 48 <= n <= 57 {
        Some(n - 48)
    } else if 97 <= n <= 102 {
        Some(n - 87)
    } else if 65 <= n <= 70 {
        Some(n - 55)
    } else {
        None
    }
}

/// The value of the four hexadecimal digits from index `i` on.
pub open spec fn hex4(v: Seq<char>, i: int) -> Option<int> {
    if !(0 <= i && i + 4 <= v.len()) {
        None
    } else {
        match (hex_value(v[i]), hex_value(v[i + 1]), hex_value(v[i + 2]), hex_value(v[i + 3])) {
            (Some(a), Some(b), Some(c), Some(d)) => Some(((a * 16 + b) * 16 + c) * 16 + d),
            _ => None,
        }
    }
}

/// The character that a `\u` escape stands for whose digits start at index `i`,
/// and the index behind it. A high surrogate takes the low one that follows with
/// it; neither stands for a character alone.
pub open spec fn code_point(v: Seq<char>, i: int) -> Option<(char, int)> {
    match hex4(v, i) {
        None => None,
        Some(h) => if 0xd800 <= h < 0xdc00 {
            if i + 6 <= v.len() && v[i + 4] == '\\' && v[i + 5] == 'u' {
                match hex4(v, i + 6) {
                    Some(l) => if 0xdc00 <= l < 0xe000 {
                        Some(((0x10000 + (h - 0xd800) * 1024 + (l - 0xdc00)) as char, i + 10))
                    } else {
                        None
                    },
                    None => None,
                }
            } else {
                None
            }
        } else if 0xdc00 <= h < 0xe000 {
            None
        } else {
            Some((h as char, i + 4))
        },
    }
}

/// The character that an escape stands for whose backslash is at index `i`, and
/// the index behind it.
pub open spec fn escape_at(v: Seq<char>, i: int) -> Option<(char, int)> {
    if !(0 <= i && i + 1 < v.len()) {
        None
    } else {
        let c = v[i + 1];
        if c == '"' || c == '\\' || c == '/' {
            Some((c, i + 2))
        } else if c == 'b' {
            Some(('\u{8}', i + 2))
        } else if c == 'f' {
            Some(('\u{c}', i + 2))
        } else if c == 'n' {
            Some(('\n', i + 2))
        } else if c == 'r' {
            Some(('\r', i + 2))
        } else if c == 't' {
            Some(('\t', i + 2))
        } else if c == 'u' {
            code_point(v, i + 2)
        } else {
            None
        }
    }
}

/// What stands from index `i` on up to the closing quote of a JSON string, and
/// the index behind the quote. A character below a space stands in no JSON
/// string, nor does a backslash that starts no escape.
pub open spec fn json_rest(v: Seq<char>, i: int) -> Option<(Seq<char>, int)>
    decreases v.len() - i,
{
    if !(0 <= i < v.len()) {
        None
    } else if v[i] == '"' {
        Some((Seq::empty(), i + 1))
    } else if v[i] == '\\' {
        match escape_at(v, i) {
            Some((c, n)) => match json_rest(v, n) {
                Some((t, e)) => Some((seq![c] + t, e)),
                None => None,
            },
            None => None,
        }
    } else if ' ' > v[i] {
        None
    } else {
        match json_rest(v, i + 1) {
            Some((t, e)) => Some((seq![v[i]] + t, e)),
            None => None,
        }
    }
}

/// The string that a JSON text stands for, if it is a string and nothing else.
pub open spec fn json_string(v: Seq<char>) -> Option<Seq<char>> {
    if v.len() > 0 && v[0] == '"' {
        match json_rest(v, 1) {
            Some((t, e)) => if e == v.len() {
                Some(t)
            } else {
                None
            },
            None => None,
        }
    } else {
        None
    }
}

fn hex_of(c: char) -> (r: Option<u32>)
    ensures
        match r {
            Some(d) => hex_value(c) == Some(d as int) && d < 16,
            None => hex_value(c) is None,
        },
{
    let n: u32 = c as u32;
    if n >= 48 && n <= 57 {
        Some(n - 48)
    } else if n >= 97 && n <= 102 {
        Some(n - 87)
    } else if n >= 65 && n <= 70 {
        Some(n - 55)
    } else {
        None
    }
}

fn read_hex4(v: &[char], i: usize) -> (r: Option<u32>)
    ensures
        match r {
            Some(d) => hex4(v@, i as int) == Some(d as int) && d < 0x10000 && i + 4 <= v@.len(),
            None => hex4(v@, i as int) is None,
        },
{
    let n: usize = v.len();
    if i > n || n - i < 4 {
        return None;
    }
    match (hex_of(v[i]), hex_of(v[i + 1]), hex_of(v[i + 2]), hex_of(v[i + 3])) {
        (Some(a), Some(b), Some(c), Some(d)) => Some(((a * 16 + b) * 16 + c) * 16 + d),
        _ => None,
    }
}

fn read_code_point(v: &[char], i: usize) -> (r: Option<(char, usize)>)
    ensures
        match r {
            Some((c, n)) => code_point(v@, i as int) == Some((c, n as int)) && n <= v@.len(),
            None => code_point(v@, i as int) is None,
        },
{
    let n: usize = v.len();
    let h: u32 = match read_hex4(v, i) {
        Some(h) => h,
        None => {
            return None;
        },
    };
    if h >= 0xd800 && h < 0xdc00 {
        if n - i >= 6 && v[i + 4] == '\\' && v[i + 5] == 'u' {
            match read_hex4(v, i + 6) {
                Some(l) => if l >= 0xdc00 && l < 0xe000 {
                    match char::from_u32(0x10000 + (h - 0xd800) * 1024 + (l - 0xdc00)) {
                        Some(c) => Some((c, i + 10)),
                        None => None,
                    }
                } else {
                    None
                },
                None => None,
            }
        } else {
            None
        }
    } else {
        match char::from_u32(h) {
            Some(c) => Some((c, i + 4)),
            None => None,
        }
    }
}

/// The character that an escape stands for whose backslash is at index `i`, and
/// the index behind it.
pub fn read_escape(v: &[char], i: usize) -> (r: Option<(char, usize)>)
    ensures
        match r {
            Some((c, n)) => escape_at(v@, i as int) == Some((c, n as int)) && n <= v@.len(),
            None => escape_at(v@, i as int) is None,
        },
{
    let n: usize = v.len();
    if i >= n || n - i < 2 {
        return None;
    }
    let c = v[i + 1];
    if c == '"' || c == '\\' || c == '/' {
        Some((c, i + 2))
    } else if c == 'b' {
        Some(('\u{8}', i + 2))
    } else if c == 'f' {
        Some(('\u{c}', i + 2))
    } else if c == 'n' {
        Some(('\n', i + 2))
    } else if c == 'r' {
        Some(('\r', i + 2))
    } else if c == 't' {
        Some(('\t', i + 2))
    } else if c == 'u' {
        read_code_point(v, i + 2)
    } else {
        None
    }
}

proof fn lemma_json_body_front(s: Seq<char>)
    requires
        s.len() > 0,
    ensures
        json_body(s) == json_char(s[0]) + json_body(s.drop_first()),
    decreases s.len(),
{
    let t = s.drop_first();
    if s.len() == 1 {
        assert(s.drop_last() =~= t);
        assert(json_body(s) =~= json_char(s[0]) + json_body(t));
    } else {
        lemma_json_body_front(s.drop_last());
        assert(s.drop_last().drop_first() =~= t.drop_last());
        assert(json_body(s) =~= json_char(s[0]) + (json_body(t.drop_last()) + json_char(t.last())));
    }
}

proof fn lemma_json_char_reads(v: Seq<char>, i: int, c: char)
    requires
        0 <= i,
        i + json_char(c).len() <= v.len(),
        v.subrange(i, i + json_char(c).len()) == json_char(c),
    ensures
        v[i] != '"',
        json_char(c).len() == 1 ==> v[i] == c && v[i] != '\\' && !(' ' > v[i]),
        json_char(c).len() > 1 ==> v[i] == '\\' && escape_at(v, i) == Some(
            (c, (i + json_char(c).len()) as int),
        ),
{
    let e = json_char(c);
    let w = v.subrange(i, i + e.len());
    assert(w[0] == v[i]);
    if e.len() > 1 {
        assert(w[1] == v[i + 1]);
    }
    if e.len() == 6 {
        assert(w[2] == v[i + 2] && w[3] == v[i + 3] && w[4] == v[i + 4] && w[5] == v[i + 5]);
        let n = c as int;
        assert(hex_value('0') == Some(0int));
        assert(hex_value(hex(n / 16)) == Some(n / 16));
        assert(hex_value(hex(n % 16)) == Some(n % 16));
        assert(hex4(v, i + 2) == Some(n));
    }
}

/// The inside of a string that was written as JSON reads back, wherever it
/// stands.
pub proof fn lemma_json_rest(v: Seq<char>, i: int, s: Seq<char>)
    requires
        0 <= i,
        i + json_body(s).len() < v.len(),
        v.subrange(i, i + json_body(s).len()) == json_body(s),
        v[i + json_body(s).len()] == '"',
    ensures
        json_rest(v, i) == Some((s, i + json_body(s).len() + 1)),
    decreases s.len(),
{
    if s.len() == 0 {
        assert(s =~= Seq::empty());
    } else {
        lemma_json_body_front(s);
        let e = json_char(s[0]);
        let t = s.drop_first();
        let w = json_body(s);
        assert(v.subrange(i, i + e.len()) =~= e) by {
            assert(w.subrange(0, e.len() as int) =~= e);
            assert(v.subrange(i, i + w.len()).subrange(0, e.len() as int) =~= v.subrange(
                i,
                i + e.len(),
            ));
        }
        assert(v.subrange(i + e.len(), i + e.len() + json_body(t).len()) =~= json_body(t)) by {
            assert(w.subrange(e.len() as int, w.len() as int) =~= json_body(t));
            assert(v.subrange(i, i + w.len()).subrange(e.len() as int, w.len() as int)
                =~= v.subrange(i + e.len(), i + w.len()));
        }
        lemma_json_char_reads(v, i, s[0]);
        lemma_json_rest(v, i + e.len(), t);
        assert(seq![s[0]] + t =~= s);
    }
}

proof fn lemma_code(c: char)
    ensures
        0 <= c as int <= 0x10ffff,
{
}

proof fn lemma_json_body_plain(s: Seq<char>)
    ensures
        forall|i: int| 0 <= i < json_body(s).len() ==> !(' ' > #[trigger] json_body(s)[i]),
    decreases s.len(),
{
    if s.len() > 0 {
        lemma_json_body_plain(s.drop_last());
        let n = s.last() as int;
        if ' ' > s.last() {
            lemma_code(s.last());
            assert(hex(n / 16) as int >= 48);
            assert(hex(n % 16) as int >= 48);
        }
        let a = json_body(s.drop_last());
        assert forall|i: int| 0 <= i < json_body(s).len() implies !(' ' > #[trigger] json_body(
            s,
        )[i]) by {
            if i < a.len() {
                assert(json_body(s)[i] == a[i]);
            } else {
                assert(json_body(s)[i] == json_char(s.last())[i - a.len()]);
            }
        }
    }
}

/// Every string that is written as JSON is read back by a JSON reader. What is
/// written stands between quotes and holds no control character below a space.
pub proof fn law_quote_reads_back(s: Seq<char>)
    ensures
        json_string(json_quote(s)) == Some(s),
        json_quote(s)[0] == '"',
        json_quote(s).last() == '"',
        json_quote(s).len() >= 2,
        forall|i: int| 0 <= i < json_quote(s).len() ==> !(' ' > #[trigger] json_quote(s)[i]),
{
    let v = json_quote(s);
    let w = json_body(s);
    assert(v.subrange(1, (1 + w.len()) as int) =~= w);
    lemma_json_rest(v, 1, s);
    lemma_json_body_plain(s);
    assert forall|i: int| 0 <= i < v.len() implies !(' ' > #[trigger] v[i]) by {
        if 0 < i < v.len() - 1 {
            assert(v[i] == w[i - 1]);
        }
    }
}

// ---------------------------------------------------------------------------
// One line
// ---------------------------------------------------------------------------

/// A tab becomes a space and a line feed becomes `\n`, so that the text fits
/// into one field of one line.
pub open spec fn flat_char(c: char) -> Seq<char> {
    if c == '\t' {
        seq![' ']
    } else if c == '\n' {
        seq!['\\', 'n']
    } else {
        seq![c]
    }
}

/// A text made to fit into one field of one line.
pub open spec fn flat(s: Seq<char>) -> Seq<char>
    decreases s.len(),
{
    if s.len() == 0 {
        Seq::empty()
    } else {
        flat(s.drop_last()) + flat_char(s.last())
    }
}

/// Makes a text fit into one field of one line.
pub fn flat_chars(v: &[char]) -> (r: Vec<char>)
    ensures
        r@ == flat(v@),
{
    let mut out: Vec<char> = Vec::new();
    let mut i: usize = 0;
    while i < v.len()
        invariant
            i <= v.len(),
            out@ == flat(v@.take(i as int)),
        decreases v.len() - i,
    {
        assert(v@.take(i + 1).drop_last() == v@.take(i as int));
        if v[i] == '\t' {
            out.push(' ');
        } else if v[i] == '\n' {
            out.push('\\');
            out.push('n');
        } else {
            out.push(v[i]);
        }
        i += 1;
    }
    assert(v@.take(v@.len() as int) == v@);
    out
}

/// A text made to fit into one field of one line.
pub fn flat_string(s: &str) -> (r: String)
    ensures
        r@ == flat(s@),
{
    string_of(&flat_chars(&chars_of(s)))
}

// ---------------------------------------------------------------------------
// Bytes
// ---------------------------------------------------------------------------

/// The length of a text in bytes.
pub open spec fn byte_len(s: Seq<char>) -> int {
    encode_utf8(s).len() as int
}

/// The bytes of two texts, one after the other.
pub proof fn lemma_encode_concat(a: Seq<char>, b: Seq<char>)
    ensures
        encode_utf8(a + b) == encode_utf8(a) + encode_utf8(b),
    decreases a.len(),
{
    if a.len() == 0 {
        assert(a + b =~= b);
        assert(encode_utf8(a) + encode_utf8(b) =~= encode_utf8(b));
    } else {
        lemma_encode_concat(a.drop_first(), b);
        assert((a + b).drop_first() =~= a.drop_first() + b);
        let h = encode_scalar(a[0] as u32);
        assert(h + (encode_utf8(a.drop_first()) + encode_utf8(b)) =~= (h + encode_utf8(
            a.drop_first(),
        )) + encode_utf8(b));
    }
}

// ---------------------------------------------------------------------------
// What the texts are made of
// ---------------------------------------------------------------------------

/// A text holds no such character.
pub open spec fn free_of(s: Seq<char>, c: char) -> bool {
    forall|i: int| 0 <= i < s.len() ==> #[trigger] s[i] != c
}

/// The parts of a text between the characters `c`: one more than there are of
/// them.
pub open spec fn parts(s: Seq<char>, c: char) -> Seq<Seq<char>>
    decreases s.len(),
{
    if s.len() == 0 {
        seq![Seq::<char>::empty()]
    } else if s[0] == c {
        seq![Seq::<char>::empty()] + parts(s.drop_first(), c)
    } else {
        let t = parts(s.drop_first(), c);
        seq![seq![s[0]] + t[0]] + t.drop_first()
    }
}

pub proof fn lemma_parts_one(s: Seq<char>, c: char)
    requires
        free_of(s, c),
    ensures
        parts(s, c) == seq![s],
    decreases s.len(),
{
    if s.len() == 0 {
        assert(s =~= Seq::empty());
    } else {
        let t = s.drop_first();
        assert forall|i: int| 0 <= i < t.len() implies #[trigger] t[i] != c by {
            assert(t[i] == s[i + 1]);
        }
        lemma_parts_one(t, c);
        assert(seq![s[0]] + t =~= s);
        assert(parts(s, c) =~= seq![s]);
    }
}

pub proof fn lemma_parts_some(s: Seq<char>, c: char)
    ensures
        parts(s, c).len() >= 1,
    decreases s.len(),
{
    if s.len() > 0 {
        lemma_parts_some(s.drop_first(), c);
    }
}

/// What stands on either side of a separator is divided on its own.
pub proof fn lemma_parts_concat(a: Seq<char>, c: char, b: Seq<char>)
    ensures
        parts(a + seq![c] + b, c) == parts(a, c) + parts(b, c),
    decreases a.len(),
{
    let s = a + seq![c] + b;
    if a.len() == 0 {
        assert(s.drop_first() =~= b);
        assert(parts(s, c) =~= parts(a, c) + parts(b, c));
    } else {
        lemma_parts_concat(a.drop_first(), c, b);
        lemma_parts_some(a.drop_first(), c);
        assert(s.drop_first() =~= a.drop_first() + seq![c] + b);
        assert(parts(s, c) =~= parts(a, c) + parts(b, c));
    }
}

/// Texts that were joined by a character that none of them holds can be taken
/// apart again.
pub proof fn law_join_comes_apart(ps: Seq<Seq<char>>, c: char)
    requires
        ps.len() > 0,
        forall|i: int| 0 <= i < ps.len() ==> free_of(#[trigger] ps[i], c),
    ensures
        parts(join(ps, seq![c]), c) == ps,
    decreases ps.len(),
{
    if ps.len() == 1 {
        lemma_parts_one(ps[0], c);
        assert(seq![ps[0]] =~= ps);
    } else {
        let d = ps.drop_last();
        assert forall|i: int| 0 <= i < d.len() implies free_of(#[trigger] d[i], c) by {
            assert(d[i] == ps[i]);
        }
        law_join_comes_apart(d, c);
        assert(free_of(ps[ps.len() - 1], c));
        lemma_parts_one(ps.last(), c);
        lemma_parts_concat(join(d, seq![c]), c, ps.last());
        assert(d + seq![ps.last()] =~= ps);
    }
}

/// A text that is joined to others stands behind them, with the separator
/// between.
pub proof fn law_join_appends(ps: Seq<Seq<char>>, x: Seq<char>, sep: Seq<char>)
    ensures
        join(Seq::<Seq<char>>::empty(), sep) == Seq::<char>::empty(),
        join(seq![x], sep) == x,
        ps.len() > 0 ==> join(ps.push(x), sep) == join(ps, sep) + sep + x,
{
    assert(ps.push(x).drop_last() =~= ps);
}

/// Every text that is joined stands in the whole, and those before it stand
/// before it.
pub proof fn law_joined_in_order(ps: Seq<Seq<char>>, sep: Seq<char>, i: int)
    requires
        0 <= i < ps.len(),
    ensures
        ({
            let at = join(ps.take(i + 1), sep).len() - ps[i].len();
            &&& occurs_at(join(ps, sep), ps[i], at)
            &&& i > 0 ==> at == join(ps.take(i), sep).len() + sep.len()
        }),
{
    let n = ps.len() as int;
    if i == n - 1 {
        assert(ps.take(n) =~= ps);
        assert(ps.take(i) =~= ps.drop_last());
        let at = join(ps, sep).len() - ps[i].len();
        assert(join(ps, sep).subrange(at, at + ps[i].len()) =~= ps[i]);
    } else {
        lemma_joined_below(ps, sep, i);
    }
}

proof fn lemma_joined_below(ps: Seq<Seq<char>>, sep: Seq<char>, i: int)
    requires
        0 <= i < ps.len() - 1,
    ensures
        ({
            let at = join(ps.take(i + 1), sep).len() - ps[i].len();
            &&& occurs_at(join(ps, sep), ps[i], at)
            &&& i > 0 ==> at == join(ps.take(i), sep).len() + sep.len()
        }),
    decreases ps.len(),
{
    let d = ps.drop_last();
    let at = join(ps.take(i + 1), sep).len() - ps[i].len();
    assert(d.take(i + 1) =~= ps.take(i + 1));
    assert(d.take(i) =~= ps.take(i));
    assert(d[i] == ps[i]);
    if i < d.len() - 1 {
        lemma_joined_below(d, sep, i);
    } else {
        assert(d.take(i + 1) =~= d);
        assert(d.take(i) =~= d.drop_last());
        assert(join(d, sep).subrange(at, at + d[i].len()) =~= d[i]);
    }
    let s = join(d, sep);
    assert(join(ps, sep).subrange(at, at + ps[i].len()) =~= s.subrange(at, at + ps[i].len()));
}

/// A number that is written in decimal has digits alone, no zero in front, and
/// reads back as the number.
pub proof fn law_number_reads_back(n: nat)
    ensures
        dec(n).len() > 0,
        all_digits(dec(n)),
        n > 0 ==> dec(n)[0] != '0',
        n == 0 ==> dec(n).len() == 1,
        value(dec(n)) == n,
        forall|max: int| n <= max ==> #[trigger] parse_unsigned(dec(n), max) == Some(n),
        forall|max: int| n > max ==> #[trigger] parse_unsigned(dec(n), max) is None,
    decreases n,
{
    let s = dec(n);
    if n < 10 {
        assert(s.drop_last() =~= Seq::empty());
        assert(value(s.drop_last()) == 0);
        assert(s.last() == digit(n as int));
        assert(is_digit(s[0]));
    } else {
        law_number_reads_back(n / 10);
        assert(s.drop_last() =~= dec(n / 10));
        assert(is_digit(digit((n % 10) as int)));
        assert forall|i: int| 0 <= i < s.len() implies is_digit(#[trigger] s[i]) by {
            if i < s.len() - 1 {
                assert(s[i] == dec(n / 10)[i]);
            }
        }
        assert(s[0] == dec(n / 10)[0]);
    }
    assert(is_digit(s[0]));
}

/// An integer of 64 bits that is written in decimal reads back.
pub proof fn law_integer_reads_back(i: int)
    requires
        i64::MIN <= i <= i64::MAX,
    ensures
        parse_signed(dec_int(i)) == Some(i),
{
    if i < 0 {
        law_number_reads_back((-i) as nat);
        assert(dec_int(i).drop_first() =~= dec((-i) as nat));
    } else {
        law_number_reads_back(i as nat);
        assert(is_digit(dec(i as nat)[0]));
    }
}

/// What a number is written with.
pub proof fn lemma_dec_plain(n: nat, c: char)
    requires
        !is_digit(c),
    ensures
        free_of(dec(n), c),
{
    law_number_reads_back(n);
    assert forall|i: int| 0 <= i < dec(n).len() implies #[trigger] dec(n)[i] != c by {
        assert(is_digit(dec(n)[i]));
    }
}

/// What an integer is written with.
pub proof fn lemma_dec_int_plain(i: int, c: char)
    requires
        !is_digit(c),
        c != '-',
    ensures
        free_of(dec_int(i), c),
        dec_int(i).len() > 0,
{
    if i < 0 {
        lemma_dec_plain((-i) as nat, c);
        law_number_reads_back((-i) as nat);
        let s = dec((-i) as nat);
        assert forall|k: int| 0 <= k < dec_int(i).len() implies #[trigger] dec_int(i)[k] != c by {
            if k > 0 {
                assert(dec_int(i)[k] == s[k - 1]);
            }
        }
    } else {
        lemma_dec_plain(i as nat, c);
        law_number_reads_back(i as nat);
    }
}

/// White space divides a text into words: those before it and those behind it
/// are the words of the whole. A text without white space is one word.
pub proof fn law_words(a: Seq<char>, c: char, b: Seq<char>)
    ensures
        words(Seq::<char>::empty()) == Seq::<Seq<char>>::empty(),
        is_ws(c) ==> words(a + seq![c] + b) == words(a) + words(b),
        a.len() > 0 && (forall|i: int| 0 <= i < a.len() ==> !is_ws(#[trigger] a[i])) ==> words(a)
            == seq![a],
    decreases a.len(),
{
    let s = a + seq![c] + b;
    if a.len() == 0 {
        assert(s.drop_first() =~= b);
        assert(words(a) + words(b) =~= words(b));
    } else {
        lemma_word_len(a);
        if is_ws(a[0]) {
            law_words(a.drop_first(), c, b);
            assert(s.drop_first() =~= a.drop_first() + seq![c] + b);
        } else {
            let n = word_len(a) as int;
            law_words(a.skip(n), c, b);
            assert(a.skip(n) + seq![c] + b =~= s.skip(n));
            lemma_word_len(s);
            if is_ws(c) {
                let m = word_len(s) as int;
                assert(m == n) by {
                    if m < n {
                        assert(is_ws(s[m]));
                        assert(s[m] == a[m]);
                    }
                    if m > n {
                        assert(!is_ws(s[n]));
                        if n < a.len() {
                            assert(s[n] == a[n]);
                        } else {
                            assert(s[n] == c);
                        }
                    }
                }
                assert(s.take(n) =~= a.take(n));
                assert(seq![a.take(n)] + (words(a.skip(n)) + words(b)) =~= words(a) + words(b));
            }
            if forall|i: int| 0 <= i < a.len() ==> !is_ws(#[trigger] a[i]) {
                if n < a.len() {
                    assert(is_ws(a[n]));
                }
                assert(a.take(n) =~= a);
                assert(a.skip(n) =~= Seq::empty());
                assert(words(a) =~= seq![a]);
            }
        }
    }
}

/// Trimming takes white space away at both ends, all of it, and nothing else.
pub proof fn law_trim(s: Seq<char>)
    ensures
        ({
            let t = trim(s);
            &&& t.len() > 0 ==> !is_ws(t[0]) && !is_ws(t.last())
            &&& exists|i: int|
                #![trigger s.subrange(i, i + t.len())]
                0 <= i && i + t.len() <= s.len() && s.subrange(i, i + t.len()) == t && (forall|
                    k: int,
                |
                    0 <= k < s.len() && (k < i || k >= i + t.len()) ==> is_ws(#[trigger] s[k]))
        }),
{
    let a = trim_start(s);
    lemma_trim_start(s);
    lemma_trim_end(a);
    let t = trim(s);
    let i = s.len() - a.len();
    assert(s.subrange(i, i + t.len()) =~= t) by {
        assert(a =~= s.skip(i));
    }
    assert forall|k: int| 0 <= k < s.len() && (k < i || k >= i + t.len()) implies is_ws(
        #[trigger] s[k],
    ) by {
        if k >= i {
            assert(s[k] == a[k - i]);
        }
    }
}

proof fn lemma_trim_start(s: Seq<char>)
    ensures
        trim_start(s).len() <= s.len(),
        trim_start(s) == s.skip(s.len() - trim_start(s).len()),
        trim_start(s).len() > 0 ==> !is_ws(trim_start(s)[0]),
        forall|k: int| 0 <= k < s.len() - trim_start(s).len() ==> is_ws(#[trigger] s[k]),
    decreases s.len(),
{
    if s.len() > 0 && is_ws(s[0]) {
        let d = s.drop_first();
        lemma_trim_start(d);
        let n = d.len() - trim_start(d).len();
        assert(d.skip(n) =~= s.skip(n + 1));
        assert forall|k: int| 0 <= k < s.len() - trim_start(s).len() implies is_ws(
            #[trigger] s[k],
        ) by {
            if k > 0 {
                assert(s[k] == d[k - 1]);
            }
        }
    } else {
        assert(s.skip(0) =~= s);
    }
}

proof fn lemma_trim_end(s: Seq<char>)
    ensures
        trim_end(s).len() <= s.len(),
        trim_end(s) == s.take(trim_end(s).len() as int),
        trim_end(s).len() > 0 ==> !is_ws(trim_end(s).last()),
        trim_end(s).len() > 0 ==> trim_end(s)[0] == s[0],
        forall|k: int| trim_end(s).len() <= k < s.len() ==> is_ws(#[trigger] s[k]),
    decreases s.len(),
{
    if s.len() > 0 && is_ws(s.last()) {
        let d = s.drop_last();
        lemma_trim_end(d);
        let n = trim_end(d).len() as int;
        assert(d.take(n) =~= s.take(n));
        assert forall|k: int| n <= k < s.len() implies is_ws(#[trigger] s[k]) by {
            if k < d.len() {
                assert(s[k] == d[k]);
            }
        }
    } else {
        assert(s.take(s.len() as int) =~= s);
    }
}

/// The first occurrence is one, and none comes before it.
pub proof fn law_find<T>(hay: Seq<T>, needle: Seq<T>)
    ensures
        match find(hay, needle) {
            Some(k) => 0 <= k && k + needle.len() <= hay.len() && hay.subrange(k, k + needle.len())
                == needle && forall|j: int|
                0 <= j < k ==> !#[trigger] occurs_at(hay, needle, j),
            None => forall|j: int|
                0 <= j && j + needle.len() <= hay.len() ==> !#[trigger] occurs_at(hay, needle, j),
        },
{
    lemma_find_all(hay, needle, 0);
}

proof fn lemma_find_all<T>(hay: Seq<T>, needle: Seq<T>, i: int)
    requires
        i >= 0,
    ensures
        match find_from(hay, needle, i) {
            Some(k) => i <= k && k + needle.len() <= hay.len() && hay.subrange(k, k + needle.len())
                == needle && forall|j: int|
                i <= j < k ==> !#[trigger] occurs_at(hay, needle, j),
            None => forall|j: int|
                i <= j && j + needle.len() <= hay.len() ==> !#[trigger] occurs_at(hay, needle, j),
        },
    decreases hay.len() - i,
{
    if i + needle.len() <= hay.len() && !occurs_at(hay, needle, i) {
        if i < hay.len() {
            lemma_find_all(hay, needle, i + 1);
        }
    }
}

/// A text is cut only where it is too long: then its first `cap` characters are
/// left, and an ellipsis where the cut is to be seen.
pub proof fn law_cut(s: Seq<char>, cap: int)
    requires
        cap >= 0,
    ensures
        s.len() <= cap ==> ellipsis(s, cap) == s && prefix(s, cap) == s,
        s.len() > cap ==> {
            &&& ellipsis(s, cap).len() == cap + 1
            &&& ellipsis(s, cap).last() == '…'
            &&& forall|i: int| 0 <= i < cap ==> #[trigger] ellipsis(s, cap)[i] == s[i]
            &&& prefix(s, cap).len() == cap
            &&& forall|i: int| 0 <= i < cap ==> #[trigger] prefix(s, cap)[i] == s[i]
        },
{
    reveal_strlit("…");
}

/// A cut text holds no character that the text does not, apart from the
/// ellipsis.
pub proof fn lemma_ellipsis_plain(s: Seq<char>, cap: int, c: char)
    requires
        free_of(s, c),
        c != '…',
        cap >= 0,
    ensures
        free_of(ellipsis(s, cap), c),
{
    reveal_strlit("…");
}

/// A text that is made to fit into one field holds no tab and no line feed; a
/// text without them stays as it is, and texts behind one another are changed
/// each on its own.
pub proof fn law_flat(a: Seq<char>, b: Seq<char>)
    ensures
        free_of(flat(a), '\t'),
        free_of(flat(a), '\n'),
        free_of(a, '\t') && free_of(a, '\n') ==> flat(a) == a,
        flat(a + b) == flat(a) + flat(b),
        flat(seq!['\t']) == seq![' '],
        flat(seq!['\n']) == seq!['\\', 'n'],
    decreases a.len() + b.len(),
{
    reveal_with_fuel(flat, 2);
    if a.len() > 0 {
        let d = a.drop_last();
        law_flat(d, Seq::empty());
        assert(free_of(a, '\t') && free_of(a, '\n') ==> free_of(d, '\t') && free_of(d, '\n'));
        assert forall|i: int| 0 <= i < flat(a).len() implies #[trigger] flat(a)[i] != '\t' && flat(
            a,
        )[i] != '\n' by {
            if i < flat(d).len() {
                assert(flat(a)[i] == flat(d)[i]);
            } else {
                assert(flat(a)[i] == flat_char(a.last())[i - flat(d).len()]);
            }
        }
        if free_of(a, '\t') && free_of(a, '\n') {
            assert(a[a.len() - 1] != '\t' && a[a.len() - 1] != '\n');
            assert(flat(a) =~= a);
        }
    } else {
        assert(a =~= Seq::empty());
    }
    if b.len() > 0 {
        law_flat(a, b.drop_last());
        assert((a + b).drop_last() =~= a + b.drop_last());
        assert(flat(a + b) =~= flat(a) + flat(b));
    } else {
        assert(a + b =~= a);
        assert(flat(a) + flat(b) =~= flat(a));
    }
    assert(seq!['\t'].drop_last() =~= Seq::empty());
    assert(seq!['\n'].drop_last() =~= Seq::empty());
    assert(flat(seq!['\t']) =~= seq![' ']);
    assert(flat(seq!['\n']) =~= seq!['\\', 'n']);
}

pub proof fn lemma_free_concat(a: Seq<char>, b: Seq<char>, c: char)
    requires
        free_of(a, c),
        free_of(b, c),
    ensures
        free_of(a + b, c),
{
    assert forall|i: int| 0 <= i < (a + b).len() implies #[trigger] (a + b)[i] != c by {
        if i < a.len() {
            assert((a + b)[i] == a[i]);
        } else {
            assert((a + b)[i] == b[i - a.len()]);
        }
    }
}

pub proof fn lemma_join_free(ps: Seq<Seq<char>>, sep: Seq<char>, c: char)
    requires
        free_of(sep, c),
        forall|i: int| 0 <= i < ps.len() ==> free_of(#[trigger] ps[i], c),
    ensures
        free_of(join(ps, sep), c),
    decreases ps.len(),
{
    if ps.len() == 1 {
        assert(free_of(ps[0], c));
    } else if ps.len() > 1 {
        let d = ps.drop_last();
        assert forall|i: int| 0 <= i < d.len() implies free_of(#[trigger] d[i], c) by {
            assert(d[i] == ps[i]);
        }
        lemma_join_free(d, sep, c);
        assert(free_of(ps[ps.len() - 1], c));
        lemma_free_concat(join(d, sep), sep, c);
        lemma_free_concat(join(d, sep) + sep, ps.last(), c);
    }
}

/// A line below a text is one more line.
pub proof fn lemma_line_below(head: Seq<char>, line: Seq<char>)
    requires
        free_of(line, '\n'),
    ensures
        parts(head + "\n"@ + line, '\n') == parts(head, '\n').push(line),
{
    reveal_strlit("\n");
    assert("\n"@ =~= seq!['\n']);
    lemma_parts_concat(head, '\n', line);
    lemma_parts_one(line, '\n');
    assert(parts(head, '\n') + seq![line] =~= parts(head, '\n').push(line));
}

/// Fields that hold no tab come apart at the tabs.
pub proof fn lemma_fields(fs: Seq<Seq<char>>)
    requires
        fs.len() > 0,
        forall|i: int| 0 <= i < fs.len() ==> free_of(#[trigger] fs[i], '\t'),
    ensures
        parts(join(fs, "\t"@), '\t') == fs,
{
    reveal_strlit("\t");
    assert("\t"@ =~= seq!['\t']);
    law_join_comes_apart(fs, '\t');
}

/// A text that is cut to its first characters has no others, and is kept where it
/// is short.
pub proof fn law_prefix(s: Seq<char>, n: int)
    requires
        n >= 0,
    ensures
        s.len() <= n ==> prefix(s, n) == s,
        s.len() > n ==> prefix(s, n).len() == n && starts_with(s, prefix(s, n)),
{
    if s.len() > n {
        assert(s.subrange(0, n) =~= s.take(n));
    }
}

} // verus!
