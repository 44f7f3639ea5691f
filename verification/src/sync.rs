//! What a synchronisation does: which sessions go, which files are scanned, and
//! what it counts.

use crate::extract;
use crate::extract::RowV;
use crate::store::Prev;
use crate::store::Scanned;
use crate::text;
use vstd::hash_map::StringHashMap;
use vstd::hash_set::StringHashSet;
use vstd::prelude::*;
use vstd::string::*;

verus! {

/// This many files share a transaction.
pub const BATCH: usize = 64;

/// A file that the index knows: its path, the components of the path, and what
/// the index holds of it.
#[derive(Debug)]
pub struct Known {
    pub path: String,
    pub parts: Vec<String>,
    pub prev: Prev,
}

/// A known file is below the root and no longer there.
pub open spec fn is_stale(k: Known, live: Seq<Seq<char>>, root: Seq<Seq<char>>) -> bool {
    !live.contains(k.path@) && text::starts_with(text::texts(k.parts@), root)
}

/// The sessions of known files that are no longer there.
pub open spec fn stale_sids(
    known: Seq<Known>,
    live: Seq<Seq<char>>,
    root: Seq<Seq<char>>,
) -> Seq<i64>
    decreases known.len(),
{
    if known.len() == 0 {
        Seq::empty()
    } else {
        let before = stale_sids(known.drop_last(), live, root);
        if is_stale(known.last(), live, root) {
            before.push(known.last().prev.sid)
        } else {
            before
        }
    }
}

/// Synchronising one directory drops no session of another: every session that
/// goes is that of a known file below the root which is no longer there.
pub proof fn law_only_below_root(
    known: Seq<Known>,
    live: Seq<Seq<char>>,
    root: Seq<Seq<char>>,
    sid: i64,
)
    requires
        stale_sids(known, live, root).contains(sid),
    ensures
        exists|i: int|
            0 <= i < known.len() && (#[trigger] known[i]).prev.sid == sid && is_stale(
                known[i],
                live,
                root,
            ),
    decreases known.len(),
{
    let v = stale_sids(known, live, root);
    let k = choose|k: int| 0 <= k < v.len() && v[k] == sid;
    if known.len() > 0 {
        let d = known.drop_last();
        let before = stale_sids(d, live, root);
        if is_stale(known.last(), live, root) && k == before.len() {
            assert(known[known.len() - 1].prev.sid == sid);
        } else {
            assert(before[k] == sid);
            law_only_below_root(d, live, root, sid);
            let i = choose|i: int|
                0 <= i < d.len() && (#[trigger] d[i]).prev.sid == sid && is_stale(d[i], live, root);
            assert(known[i] == d[i]);
        }
    }
}

/// A known file that is gone takes its session with it.
pub proof fn law_gone_is_dropped(
    known: Seq<Known>,
    live: Seq<Seq<char>>,
    root: Seq<Seq<char>>,
    i: int,
)
    requires
        0 <= i < known.len(),
        is_stale(known[i], live, root),
    ensures
        stale_sids(known, live, root).contains(known[i].prev.sid),
    decreases known.len(),
{
    let d = known.drop_last();
    let before = stale_sids(d, live, root);
    let all = stale_sids(known, live, root);
    if i == known.len() - 1 {
        assert(all[before.len() as int] == known[i].prev.sid);
    } else {
        assert(d[i] == known[i]);
        law_gone_is_dropped(d, live, root, i);
        let k = choose|k: int| 0 <= k < before.len() && before[k] == known[i].prev.sid;
        assert(all[k] == known[i].prev.sid);
    }
}

/// Whether the components of a path start with those of a root.
fn is_below(parts: &Vec<String>, root: &Vec<String>) -> (r: bool)
    ensures
        r == text::starts_with(text::texts(parts@), text::texts(root@)),
{
    let ghost p = text::texts(parts@);
    let ghost q = text::texts(root@);
    if root.len() > parts.len() {
        return false;
    }
    let mut i: usize = 0;
    while i < root.len()
        invariant
            i <= root@.len() <= parts@.len(),
            p == text::texts(parts@),
            q == text::texts(root@),
            forall|j: int| 0 <= j < i ==> p[j] == q[j],
        decreases root.len() - i,
    {
        if !text::same(parts[i].as_str(), root[i].as_str()) {
            assert(p.subrange(0, q.len() as int)[i as int] != q[i as int]);
            return false;
        }
        assert(p[i as int] == q[i as int]);
        i += 1;
    }
    assert(p.subrange(0, q.len() as int) =~= q);
    true
}

/// The sessions of known files that are no longer there. `live` holds the paths
/// of the files that are.
pub fn stale(known: &Vec<Known>, live: &Vec<String>, root: &Vec<String>) -> (r: Vec<i64>)
    ensures
        r@ == stale_sids(known@, text::texts(live@), text::texts(root@)),
{
    let ghost paths = text::texts(live@);
    let ghost top = text::texts(root@);
    let mut set = StringHashSet::new();
    let mut j: usize = 0;
    while j < live.len()
        invariant
            j <= live@.len(),
            paths == text::texts(live@),
            forall|p: Seq<char>| #[trigger] set@.contains(p) <==> paths.take(j as int).contains(p),
        decreases live.len() - j,
    {
        let ghost before = paths.take(j as int);
        let ghost after = paths.take(j + 1);
        let ghost had = set@;
        set.insert(live[j].clone());
        assert forall|p: Seq<char>| #[trigger] set@.contains(p) <==> after.contains(p) by {
            assert(after =~= before.push(live@[j as int]@));
            if before.contains(p) {
                let k = choose|k: int| 0 <= k < before.len() && before[k] == p;
                assert(after[k] == p);
            }
            if p == live@[j as int]@ {
                assert(after[j as int] == p);
            }
            if after.contains(p) && p != live@[j as int]@ {
                let k = choose|k: int| 0 <= k < after.len() && after[k] == p;
                assert(before[k] == p);
            }
            assert(had.contains(p) <==> before.contains(p));
        }
        j += 1;
    }
    assert(paths.take(live@.len() as int) =~= paths);
    let mut out: Vec<i64> = Vec::new();
    let mut i: usize = 0;
    assert(out@ =~= stale_sids(known@.take(0), paths, top));
    while i < known.len()
        invariant
            i <= known@.len(),
            top == text::texts(root@),
            forall|p: Seq<char>| #[trigger] set@.contains(p) <==> paths.contains(p),
            out@ == stale_sids(known@.take(i as int), paths, top),
        decreases known.len() - i,
    {
        assert(known@.take(i + 1).drop_last() =~= known@.take(i as int));
        if !set.contains(known[i].path.as_str()) && is_below(&known[i].parts, root) {
            out.push(known[i].prev.sid);
        }
        i += 1;
    }
    assert(known@.take(known@.len() as int) =~= known@);
    out
}

/// What the index holds, by path.
pub open spec fn by_path(known: Seq<Known>) -> Map<Seq<char>, Prev>
    decreases known.len(),
{
    if known.len() == 0 {
        Map::empty()
    } else {
        by_path(known.drop_last()).insert(known.last().path@, known.last().prev)
    }
}

/// What the index holds of each of some files, the first time it comes.
pub open spec fn held(paths: Seq<Seq<char>>, m: Map<Seq<char>, Prev>) -> Seq<Option<Prev>>
    decreases paths.len(),
{
    if paths.len() == 0 {
        Seq::empty()
    } else {
        seq![
            if m.contains_key(paths[0]) {
                Some(m[paths[0]])
            } else {
                None
            },
        ] + held(paths.drop_first(), m.remove(paths[0]))
    }
}

/// Every file is scanned, in the order of the paths: no file is passed over.
pub proof fn law_every_file_scanned(paths: Seq<Seq<char>>, m: Map<Seq<char>, Prev>)
    ensures
        held(paths, m).len() == paths.len(),
    decreases paths.len(),
{
    if paths.len() > 0 {
        law_every_file_scanned(paths.drop_first(), m.remove(paths[0]));
    }
}

/// What the index holds of each of some files, `None` for a new one. New files
/// get their session in this order, so that it does not depend on timing.
pub fn todo(paths: &Vec<String>, known: &Vec<Known>) -> (r: Vec<Option<Prev>>)
    ensures
        r@ == held(text::texts(paths@), by_path(known@)),
        r@.len() == paths@.len(),
{
    let ghost ps = text::texts(paths@);
    let mut m: StringHashMap<Prev> = StringHashMap::new();
    let mut i: usize = 0;
    assert(by_path(known@.take(0)) == Map::<Seq<char>, Prev>::empty());
    while i < known.len()
        invariant
            i <= known@.len(),
            m@ == by_path(known@.take(i as int)),
        decreases known.len() - i,
    {
        assert(known@.take(i + 1).drop_last() =~= known@.take(i as int));
        m.insert(known[i].path.clone(), known[i].prev);
        i += 1;
    }
    assert(known@.take(known@.len() as int) =~= known@);
    let mut out: Vec<Option<Prev>> = Vec::new();
    let mut j: usize = 0;
    assert(ps.skip(0) =~= ps);
    assert(out@ + held(ps, m@) =~= held(ps, m@));
    while j < paths.len()
        invariant
            j <= paths@.len(),
            ps == text::texts(paths@),
            out@ + held(ps.skip(j as int), m@) == held(ps, by_path(known@)),
        decreases paths.len() - j,
    {
        let ghost rest = ps.skip(j as int);
        assert(rest.drop_first() =~= ps.skip(j + 1));
        assert(rest[0] == paths@[j as int]@);
        let ghost before = out@;
        let one = match m.get(paths[j].as_str()) {
            Some(p) => Some(*p),
            None => None,
        };
        m.remove(paths[j].as_str());
        out.push(one);
        assert(before + (seq![one] + held(rest.drop_first(), m@)) =~= out@ + held(
            rest.drop_first(),
            m@,
        ));
        j += 1;
    }
    assert(ps.skip(ps.len() as int) =~= Seq::empty());
    assert(out@ + Seq::<Option<Prev>>::empty() =~= out@);
    proof {
        law_every_file_scanned(ps, by_path(known@));
    }
    out
}

/// How many rows say nothing of a message.
pub open spec fn bare_rows(rows: Seq<RowV>) -> nat
    decreases rows.len(),
{
    if rows.len() == 0 {
        0
    } else {
        bare_rows(rows.drop_last()) + if extract::hollow(rows.last()) {
            1nat
        } else {
            0nat
        }
    }
}

/// What a synchronisation counts: files with records, records, and records that
/// say nothing of a message.
#[derive(Debug, Clone, Copy)]
pub struct Tally {
    pub files: usize,
    pub records: usize,
    pub bare: usize,
}

impl Tally {
    /// Nothing counted yet.
    pub fn new() -> (r: Tally)
        ensures
            r.files == 0,
            r.records == 0,
            r.bare == 0,
    {
        Tally { files: 0, records: 0, bare: 0 }
    }

    /// Counts a file that was scanned.
    pub fn count(&mut self, s: &Scanned)
        requires
            old(self).files < usize::MAX,
            old(self).records + s.rows@.len() <= usize::MAX,
            old(self).bare + s.rows@.len() <= usize::MAX,
        ensures
            final(self).files == old(self).files + if s.rows@.len() > 0 {
                1int
            } else {
                0
            },
            final(self).records == old(self).records + s.rows@.len(),
            final(self).bare == old(self).bare + bare_rows(extract::rows_of(s.rows@)),
    {
        let ghost rows = extract::rows_of(s.rows@);
        if s.rows.len() > 0 {
            self.files += 1;
            self.records += s.rows.len();
        }
        let mut n: usize = 0;
        let mut i: usize = 0;
        while i < s.rows.len()
            invariant
                i <= s.rows@.len(),
                rows == extract::rows_of(s.rows@),
                n == bare_rows(rows.take(i as int)),
                n <= i,
            decreases s.rows.len() - i,
        {
            assert(rows.take(i + 1).drop_last() =~= rows.take(i as int));
            assert(rows.take(i + 1).last() == s.rows@[i as int]@);
            let r = &s.rows[i];
            if r.role.is_none() && r.tool.is_none() && r.text.as_str().unicode_len() == 0 {
                n += 1;
            }
            i += 1;
        }
        assert(rows.take(s.rows@.len() as int) =~= rows);
        self.bare += n;
    }
}

/// Where no record says anything of a message, the format is not understood, and
/// the reader is told.
pub open spec fn format_note(records: int, bare: int) -> Option<Seq<char>> {
    if records > 0 && bare == records {
        Some(
            "alog: none of the "@ + text::dec(records as nat)
                + " records yielded a role, tool or searchable text. claude_code and Codex CLI sessions are understood; this format is indexed and dumpable, but not searchable."@,
        )
    } else {
        None
    }
}

/// What the reader is told of a format that is not understood.
pub fn unknown_format(records: usize, bare: usize) -> (r: Option<String>)
    ensures
        match r {
            Some(s) => format_note(records as int, bare as int) == Some(s@),
            None => format_note(records as int, bare as int) is None,
        },
{
    if records > 0 && bare == records {
        let mut s = "alog: none of the ".to_owned();
        text::push_usize(&mut s, records);
        s.append(
            " records yielded a role, tool or searchable text. claude_code and Codex CLI sessions are understood; this format is indexed and dumpable, but not searchable.",
        );
        Some(s)
    } else {
        None
    }
}

/// What the index holds of a file does not depend on the other files: with no
/// path twice, each gets what the index holds under its path.
pub proof fn law_held_by_path(paths: Seq<Seq<char>>, m: Map<Seq<char>, Prev>, i: int)
    requires
        0 <= i < paths.len(),
        forall|a: int, b: int|
            0 <= a < b < paths.len() ==> #[trigger] paths[a] != #[trigger] paths[b],
    ensures
        held(paths, m).len() == paths.len(),
        held(paths, m)[i] == if m.contains_key(paths[i]) {
            Some(m[paths[i]])
        } else {
            None
        },
    decreases paths.len(),
{
    law_every_file_scanned(paths, m);
    if i > 0 {
        let t = paths.drop_first();
        assert forall|a: int, b: int| 0 <= a < b < t.len() implies #[trigger] t[a]
            != #[trigger] t[b] by {
            assert(t[a] == paths[a + 1] && t[b] == paths[b + 1]);
        }
        law_held_by_path(t, m.remove(paths[0]), i - 1);
        assert(t[i - 1] == paths[i]);
        assert(paths[0] != paths[i]);
    }
}

// ---------------------------------------------------------------------------
// Session numbers
// ---------------------------------------------------------------------------

/// How many files are new.
pub open spec fn new_files(held: Seq<Option<Prev>>) -> nat
    decreases held.len(),
{
    if held.len() == 0 {
        0
    } else {
        new_files(held.drop_last()) + if held.last() is None {
            1nat
        } else {
            0nat
        }
    }
}

/// The session numbers of some files, given what the index holds of each. A file
/// that is known keeps its number; the new ones are counted from `next` on, in
/// their order.
pub open spec fn numbers(held: Seq<Option<Prev>>, next: int) -> Seq<int> {
    Seq::new(
        held.len(),
        |i: int|
            match held[i] {
                Some(p) => p.sid as int,
                None => next + new_files(held.take(i)),
            },
    )
}

/// The session numbers of some files, where `next` is the first free one.
pub fn session_numbers(held: &Vec<Option<Prev>>, next: i64) -> (r: Vec<i64>)
    requires
        next + held@.len() <= i64::MAX,
    ensures
        Seq::new(r@.len(), |i: int| r@[i] as int) == numbers(held@, next as int),
{
    let mut out: Vec<i64> = Vec::new();
    let mut free: i64 = next;
    let mut i: usize = 0;
    while i < held.len()
        invariant
            i <= held@.len(),
            next + held@.len() <= i64::MAX,
            out@.len() == i,
            free == next + new_files(held@.take(i as int)),
            free <= next + i,
            forall|k: int|
                0 <= k < i ==> #[trigger] out@[k] as int == numbers(held@, next as int)[k],
        decreases held.len() - i,
    {
        assert(held@.take(i + 1).drop_last() =~= held@.take(i as int));
        match &held[i] {
            Some(p) => {
                out.push(p.sid);
            },
            None => {
                out.push(free);
                free += 1;
            },
        }
        i += 1;
    }
    assert(Seq::new(out@.len(), |i: int| out@[i] as int) =~= numbers(held@, next as int));
    out
}

proof fn lemma_new_files(held: Seq<Option<Prev>>, i: int, j: int)
    requires
        0 <= i <= j <= held.len(),
    ensures
        new_files(held.take(i)) <= new_files(held.take(j)),
        i < j && held[i] is None ==> new_files(held.take(i)) < new_files(held.take(j)),
    decreases j - i,
{
    if i < j {
        lemma_new_files(held, i, j - 1);
        assert(held.take(j).drop_last() =~= held.take(j - 1));
        assert(held.take(j).last() == held[j - 1]);
    }
}

/// The numbers of new sessions follow the order of their paths, whatever it is:
/// where the paths are in order, a new file that comes before another has the
/// smaller number.
pub proof fn law_numbers_follow_paths(
    paths: Seq<Seq<char>>,
    m: Map<Seq<char>, Prev>,
    next: int,
    before: spec_fn(Seq<char>, Seq<char>) -> bool,
    i: int,
    j: int,
)
    requires
        forall|a: int, b: int|
            0 <= a <= b < paths.len() ==> !before(#[trigger] paths[b], #[trigger] paths[a]),
        0 <= i < paths.len(),
        0 <= j < paths.len(),
        before(paths[i], paths[j]),
        held(paths, m)[i] is None,
        held(paths, m)[j] is None,
    ensures
        next <= numbers(held(paths, m), next)[i] < numbers(held(paths, m), next)[j],
{
    law_every_file_scanned(paths, m);
    lemma_new_files(held(paths, m), i, j);
}

/// In an empty index the sessions are numbered through in the order of their
/// paths: the numbers depend on the paths alone.
pub proof fn law_numbers_from_empty(paths: Seq<Seq<char>>, next: int)
    ensures
        numbers(held(paths, Map::empty()), next) == Seq::new(paths.len(), |i: int| next + i),
{
    let h = held(paths, Map::empty());
    law_every_file_scanned(paths, Map::empty());
    lemma_all_new(paths);
    assert forall|i: int| 0 <= i < paths.len() implies numbers(h, next)[i] == next + i by {
        lemma_counted(h, i);
    }
    assert(numbers(h, next) =~= Seq::new(paths.len(), |i: int| next + i));
}

proof fn lemma_all_new(paths: Seq<Seq<char>>)
    ensures
        held(paths, Map::empty()).len() == paths.len(),
        forall|i: int| 0 <= i < paths.len() ==> #[trigger] held(paths, Map::empty())[i] is None,
    decreases paths.len(),
{
    if paths.len() > 0 {
        let t = paths.drop_first();
        lemma_all_new(t);
        assert(Map::<Seq<char>, Prev>::empty().remove(paths[0]) =~= Map::empty());
        assert forall|i: int| 0 <= i < paths.len() implies #[trigger] held(
            paths,
            Map::empty(),
        )[i] is None by {
            if i > 0 {
                assert(held(paths, Map::empty())[i] == held(t, Map::empty())[i - 1]);
            }
        }
    }
}

proof fn lemma_counted(held: Seq<Option<Prev>>, i: int)
    requires
        0 <= i <= held.len(),
        forall|k: int| 0 <= k < held.len() ==> #[trigger] held[k] is None,
    ensures
        new_files(held.take(i)) == i,
    decreases i,
{
    if i > 0 {
        lemma_counted(held, i - 1);
        assert(held.take(i).drop_last() =~= held.take(i - 1));
        assert(held.take(i).last() == held[i - 1]);
    }
}

/// A synchronisation that finds every known file below the root, and no other,
/// drops no session and makes none.
pub proof fn law_unchanged_files(
    known: Seq<Known>,
    live: Seq<Seq<char>>,
    root: Seq<Seq<char>>,
)
    requires
        forall|i: int|
            0 <= i < known.len() && text::starts_with(
                text::texts((#[trigger] known[i]).parts@),
                root,
            ) ==> live.contains(known[i].path@),
        forall|a: int, b: int| 0 <= a < b < live.len() ==> #[trigger] live[a] != #[trigger] live[b],
        forall|i: int| 0 <= i < live.len() ==> by_path(known).contains_key(#[trigger] live[i]),
    ensures
        stale_sids(known, live, root) == Seq::<i64>::empty(),
        new_files(held(live, by_path(known))) == 0,
{
    lemma_none_stale(known, live, root);
    let h = held(live, by_path(known));
    assert forall|i: int| 0 <= i < h.len() implies #[trigger] h[i] is Some by {
        law_every_file_scanned(live, by_path(known));
        law_held_by_path(live, by_path(known), i);
    }
    lemma_none_new(h);
}

proof fn lemma_none_stale(known: Seq<Known>, live: Seq<Seq<char>>, root: Seq<Seq<char>>)
    requires
        forall|i: int|
            0 <= i < known.len() && text::starts_with(
                text::texts((#[trigger] known[i]).parts@),
                root,
            ) ==> live.contains(known[i].path@),
    ensures
        stale_sids(known, live, root) == Seq::<i64>::empty(),
    decreases known.len(),
{
    if known.len() > 0 {
        let d = known.drop_last();
        assert(known[known.len() - 1] == known.last());
        assert forall|i: int|
            0 <= i < d.len() && text::starts_with(
                text::texts((#[trigger] d[i]).parts@),
                root,
            ) implies live.contains(d[i].path@) by {
            assert(d[i] == known[i]);
        }
        lemma_none_stale(d, live, root);
    }
}

proof fn lemma_none_new(held: Seq<Option<Prev>>)
    requires
        forall|i: int| 0 <= i < held.len() ==> #[trigger] held[i] is Some,
    ensures
        new_files(held) == 0,
    decreases held.len(),
{
    if held.len() > 0 {
        let d = held.drop_last();
        assert(held[held.len() - 1] is Some);
        assert forall|i: int| 0 <= i < d.len() implies #[trigger] d[i] is Some by {
            assert(d[i] == held[i]);
        }
        lemma_none_new(d);
    }
}

/// The reader is told of a format that is not understood if and only if there are
/// records and none of them says anything.
pub proof fn law_format_note(rows: Seq<RowV>)
    ensures
        bare_rows(rows) <= rows.len(),
        bare_rows(rows) == rows.len() <==> forall|i: int|
            0 <= i < rows.len() ==> (#[trigger] rows[i]).role is None && rows[i].tool is None
                && rows[i].text.len() == 0,
        format_note(rows.len() as int, bare_rows(rows) as int) is Some <==> rows.len() > 0 && forall|
            i: int,
        |
            0 <= i < rows.len() ==> (#[trigger] rows[i]).role is None && rows[i].tool is None
                && rows[i].text.len() == 0,
    decreases rows.len(),
{
    if rows.len() > 0 {
        let d = rows.drop_last();
        let n = rows.len() - 1;
        law_format_note(d);
        if bare_rows(rows) == rows.len() {
            assert forall|i: int| 0 <= i < rows.len() implies (#[trigger] rows[i]).role is None
                && rows[i].tool is None && rows[i].text.len() == 0 by {
                if i < n {
                    assert(d[i] == rows[i]);
                } else {
                    assert(rows[i] == rows.last());
                }
            }
        }
        if forall|i: int|
            0 <= i < rows.len() ==> (#[trigger] rows[i]).role is None && rows[i].tool is None
                && rows[i].text.len() == 0 {
            assert forall|i: int| 0 <= i < d.len() implies (#[trigger] d[i]).role is None
                && d[i].tool is None && d[i].text.len() == 0 by {
                assert(d[i] == rows[i]);
            }
            assert(rows[n] == rows.last());
        }
    }
}

} // verus!
