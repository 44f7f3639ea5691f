//! A report on whether the index still matches the files it was built from.

use crate::mcp;
use crate::text;
use vstd::prelude::*;
use vstd::string::*;

verus! {

/// What was found: how many sessions, records and rejects there are, what the
/// database says of itself, the sessions whose file is gone, how many records
/// were read back, those that could not be, and the counts of documents, of
/// their links, and of links to rows that are gone.
#[derive(Debug)]
pub struct Findings {
    pub sessions: i64,
    pub records: i64,
    pub rejects: i64,
    pub integrity: String,
    pub gone: Vec<(String, String)>,
    pub checked: usize,
    pub stale: Vec<(String, i64, String)>,
    pub docs: i64,
    pub mapped: i64,
    pub orphans: i64,
}

/// A problem: its kind, what it is, and what to do.
#[derive(Debug)]
pub struct Problem {
    pub kind: String,
    pub what: String,
    pub hint: String,
}

/// What a `Problem` stands for.
pub struct ProblemV {
    pub kind: Seq<char>,
    pub what: Seq<char>,
    pub hint: Seq<char>,
}

impl View for Problem {
    type V = ProblemV;

    open spec fn view(&self) -> ProblemV {
        ProblemV { kind: self.kind@, what: self.what@, hint: self.hint@ }
    }
}

pub open spec fn problem_views(v: Seq<Problem>) -> Seq<ProblemV> {
    Seq::new(v.len(), |i: int| v[i]@)
}

/// Of problems of one kind this many are named one by one.
pub const NAMED: usize = 5;

pub open spec fn corrupt(integrity: Seq<char>) -> Seq<ProblemV> {
    if integrity == "ok"@ {
        Seq::empty()
    } else {
        seq![
            ProblemV {
                kind: "corrupt-index"@,
                what: "integrity_check: "@ + integrity,
                hint: "rebuild: delete the index and run `alog sync`"@,
            },
        ]
    }
}

pub open spec fn gone_file(g: (String, String)) -> ProblemV {
    ProblemV {
        kind: "file-gone"@,
        what: g.0@ + ": "@ + g.1@,
        hint: "run `alog sync` to drop it"@,
    }
}

pub open spec fn stale_record(s: (String, i64, String)) -> ProblemV {
    ProblemV {
        kind: "stale-record"@,
        what: s.0@ + " seq="@ + text::dec_int(s.1 as int) + ": "@ + s.2@,
        hint: "run `alog sync` to reindex the file"@,
    }
}

/// What stands for the problems of one kind that are not named.
pub open spec fn and_more(n: nat, kind: Seq<char>, hint: Seq<char>) -> Seq<ProblemV> {
    if n > NAMED {
        seq![
            ProblemV {
                kind,
                what: "and "@ + text::dec((n - NAMED) as nat) + " more"@,
                hint,
            },
        ]
    } else {
        Seq::empty()
    }
}

pub open spec fn named(n: nat) -> nat {
    if n <= NAMED {
        n
    } else {
        NAMED as nat
    }
}

pub open spec fn gone_files(v: Seq<(String, String)>) -> Seq<ProblemV> {
    Seq::new(named(v.len()), |i: int| gone_file(v[i])) + and_more(
        v.len(),
        "file-gone"@,
        "run `alog sync` to drop them"@,
    )
}

pub open spec fn stale_records(v: Seq<(String, i64, String)>) -> Seq<ProblemV> {
    Seq::new(named(v.len()), |i: int| stale_record(v[i])) + and_more(
        v.len(),
        "stale-record"@,
        "run `alog sync`"@,
    )
}

pub open spec fn desync(docs: int, mapped: int) -> Seq<ProblemV> {
    if docs != mapped {
        seq![
            ProblemV {
                kind: "fts-desync"@,
                what: text::dec_int(docs) + " documents but "@ + text::dec_int(mapped)
                    + " map rows"@,
                hint: "rebuild: delete the index and run `alog sync`"@,
            },
        ]
    } else {
        Seq::empty()
    }
}

pub open spec fn orphaned(n: int) -> Seq<ProblemV> {
    if n > 0 {
        seq![
            ProblemV {
                kind: "fts-orphan"@,
                what: text::dec_int(n) + " documents point at rows that are gone"@,
                hint: "rebuild: delete the index and run `alog sync`"@,
            },
        ]
    } else {
        Seq::empty()
    }
}

/// All problems, in the order in which they are reported.
pub open spec fn problems(f: Findings) -> Seq<ProblemV> {
    corrupt(f.integrity@) + gone_files(f.gone@) + stale_records(f.stale@) + desync(
        f.docs as int,
        f.mapped as int,
    ) + orphaned(f.orphans as int)
}

/// An index is sound when nothing was found: the database is intact, every file
/// is there, every record reads back, and the full text is in step.
pub proof fn law_sound(f: Findings)
    ensures
        problems(f).len() == 0 <==> f.integrity@ == "ok"@ && f.gone@.len() == 0 && f.stale@.len()
            == 0 && f.docs == f.mapped && f.orphans <= 0,
{
}

fn push_problem(out: &mut Vec<Problem>, kind: &str, what: String, hint: &str)
    ensures
        problem_views(final(out)@) == problem_views(old(out)@).push(
            ProblemV { kind: kind@, what: what@, hint: hint@ },
        ),
{
    let p = Problem { kind: kind.to_owned(), what, hint: hint.to_owned() };
    out.push(p);
    assert(problem_views(out@) =~= problem_views(old(out)@).push(p@));
}

fn push_more(out: &mut Vec<Problem>, n: usize, kind: &str, hint: &str)
    ensures
        problem_views(final(out)@) == problem_views(old(out)@) + and_more(n as nat, kind@, hint@),
{
    let ghost before = problem_views(out@);
    if n > NAMED {
        let mut what = "and ".to_owned();
        text::push_usize(&mut what, n - NAMED);
        what.append(" more");
        push_problem(out, kind, what, hint);
    }
    assert(problem_views(out@) =~= before + and_more(n as nat, kind@, hint@));
}

fn push_gone(out: &mut Vec<Problem>, v: &Vec<(String, String)>)
    ensures
        problem_views(final(out)@) == problem_views(old(out)@) + gone_files(v@),
{
    let ghost before = problem_views(out@);
    let ghost all = Seq::new(named(v@.len()), |i: int| gone_file(v@[i]));
    let mut i: usize = 0;
    assert(problem_views(out@) =~= before + all.take(0));
    while i < v.len() && i < NAMED
        invariant
            i <= v@.len(),
            i <= NAMED,
            all == Seq::new(named(v@.len()), |k: int| gone_file(v@[k])),
            problem_views(out@) == before + all.take(i as int),
        decreases v.len() - i,
    {
        let mut what = v[i].0.clone();
        what.append(": ");
        what.append(v[i].1.as_str());
        push_problem(out, "file-gone", what, "run `alog sync` to drop it");
        assert((before + all.take(i as int)).push(gone_file(v@[i as int])) =~= before + all.take(
            i + 1,
        ));
        i += 1;
    }
    assert(all.take(i as int) =~= all);
    push_more(out, v.len(), "file-gone", "run `alog sync` to drop them");
    assert(problem_views(out@) =~= before + gone_files(v@));
}

fn push_stale(out: &mut Vec<Problem>, v: &Vec<(String, i64, String)>)
    ensures
        problem_views(final(out)@) == problem_views(old(out)@) + stale_records(v@),
{
    let ghost before = problem_views(out@);
    let ghost all = Seq::new(named(v@.len()), |i: int| stale_record(v@[i]));
    let mut i: usize = 0;
    assert(problem_views(out@) =~= before + all.take(0));
    while i < v.len() && i < NAMED
        invariant
            i <= v@.len(),
            i <= NAMED,
            all == Seq::new(named(v@.len()), |k: int| stale_record(v@[k])),
            problem_views(out@) == before + all.take(i as int),
        decreases v.len() - i,
    {
        let mut what = v[i].0.clone();
        what.append(" seq=");
        text::push_i64(&mut what, v[i].1);
        what.append(": ");
        what.append(v[i].2.as_str());
        push_problem(out, "stale-record", what, "run `alog sync` to reindex the file");
        assert((before + all.take(i as int)).push(stale_record(v@[i as int])) =~= before + all.take(
            i + 1,
        ));
        i += 1;
    }
    assert(all.take(i as int) =~= all);
    push_more(out, v.len(), "stale-record", "run `alog sync`");
    assert(problem_views(out@) =~= before + stale_records(v@));
}

/// All problems, in the order in which they are reported.
pub fn diagnose(f: &Findings) -> (r: Vec<Problem>)
    ensures
        problem_views(r@) == problems(*f),
{
    let mut out: Vec<Problem> = Vec::new();
    if !text::same(f.integrity.as_str(), "ok") {
        let mut what = "integrity_check: ".to_owned();
        what.append(f.integrity.as_str());
        push_problem(
            &mut out,
            "corrupt-index",
            what,
            "rebuild: delete the index and run `alog sync`",
        );
    }
    assert(problem_views(out@) =~= corrupt(f.integrity@));
    push_gone(&mut out, &f.gone);
    push_stale(&mut out, &f.stale);
    let ghost before = problem_views(out@);
    if f.docs != f.mapped {
        let mut what = text::i64_string(f.docs);
        what.append(" documents but ");
        text::push_i64(&mut what, f.mapped);
        what.append(" map rows");
        push_problem(
            &mut out,
            "fts-desync",
            what,
            "rebuild: delete the index and run `alog sync`",
        );
    }
    assert(problem_views(out@) =~= before + desync(f.docs as int, f.mapped as int));
    let ghost then = problem_views(out@);
    if f.orphans > 0 {
        let mut what = text::i64_string(f.orphans);
        what.append(" documents point at rows that are gone");
        push_problem(
            &mut out,
            "fts-orphan",
            what,
            "rebuild: delete the index and run `alog sync`",
        );
    }
    assert(problem_views(out@) =~= then + orphaned(f.orphans as int));
    out
}

/// One problem as JSON.
pub open spec fn problem_json(p: ProblemV) -> Seq<char> {
    "{\"kind\":"@ + text::json_quote(p.kind) + ",\"what\":"@ + text::json_quote(p.what)
        + ",\"hint\":"@ + text::json_quote(p.hint) + "}"@
}

pub open spec fn yes_no(b: bool) -> Seq<char> {
    if b {
        "true"@
    } else {
        "false"@
    }
}

/// The report for a machine.
pub open spec fn json_report(f: Findings, ps: Seq<ProblemV>, elapsed: int) -> Seq<char> {
    "{\"ok\":"@ + yes_no(ps.len() == 0) + ",\"sessions\":"@ + text::dec_int(f.sessions as int)
        + ",\"records\":"@ + text::dec_int(f.records as int) + ",\"rejects\":"@ + text::dec_int(
        f.rejects as int,
    ) + ",\"checked\":"@ + text::dec(f.checked as nat) + ",\"stale\":"@ + text::dec(f.stale@.len())
        + ",\"missing_files\":"@ + text::dec(f.gone@.len()) + ",\"elapsed_ms\":"@ + text::dec(
        elapsed as nat,
    ) + ",\"problems\":["@ + text::join(Seq::new(ps.len(), |i: int| problem_json(ps[i])), ","@)
        + "]}"@
}

/// A head with the first `n` problems below it.
pub open spec fn with_problems(head: Seq<char>, ps: Seq<ProblemV>, n: int) -> Seq<char>
    decreases n,
{
    if n <= 0 {
        head
    } else {
        with_problems(head, ps, n - 1) + "  ["@ + ps[n - 1].kind + "] "@ + ps[n - 1].what
            + "\n      -> "@ + ps[n - 1].hint + "\n"@
    }
}

/// The report for a person.
pub open spec fn plain_report(f: Findings, ps: Seq<ProblemV>, elapsed: int) -> Seq<char> {
    let head = "sessions "@ + text::dec_int(f.sessions as int) + "  records "@ + text::dec_int(
        f.records as int,
    ) + "  rejects "@ + text::dec_int(f.rejects as int) + "\nverified "@ + text::dec(
        f.checked as nat,
    ) + " records against their source files in "@ + text::dec(elapsed as nat) + "ms\n"@;
    if ps.len() == 0 {
        head + "ok"@
    } else {
        with_problems(
            head + "\n"@ + text::dec(ps.len()) + " problem(s):\n"@,
            ps,
            ps.len() as int,
        )
    }
}

fn json_of(p: &Problem) -> (r: String)
    ensures
        r@ == problem_json(p@),
{
    let mut s = "{\"kind\":".to_owned();
    text::push_json(&mut s, p.kind.as_str());
    s.append(",\"what\":");
    text::push_json(&mut s, p.what.as_str());
    s.append(",\"hint\":");
    text::push_json(&mut s, p.hint.as_str());
    s.append("}");
    s
}

fn all_json(ps: &Vec<Problem>) -> (r: String)
    ensures
        r@ == text::join(
            Seq::new(ps@.len(), |i: int| problem_json(problem_views(ps@)[i])),
            ","@,
        ),
{
    let ghost all = Seq::new(ps@.len(), |i: int| problem_json(problem_views(ps@)[i]));
    let mut v: Vec<String> = Vec::new();
    let mut i: usize = 0;
    while i < ps.len()
        invariant
            i <= ps@.len(),
            all == Seq::new(ps@.len(), |k: int| problem_json(problem_views(ps@)[k])),
            text::texts(v@) == all.take(i as int),
        decreases ps.len() - i,
    {
        let ghost before = text::texts(v@);
        let one = json_of(&ps[i]);
        v.push(one);
        assert(text::texts(v@) =~= before.push(one@));
        assert(before.push(one@) =~= all.take(i + 1));
        i += 1;
    }
    assert(all.take(ps@.len() as int) =~= all);
    text::join_strings(&v, ",")
}

fn report_json(f: &Findings, ps: &Vec<Problem>, elapsed: u64) -> (r: String)
    ensures
        r@ == json_report(*f, problem_views(ps@), elapsed as int),
{
    let mut out = "{\"ok\":".to_owned();
    if ps.len() == 0 {
        out.append("true");
    } else {
        out.append("false");
    }
    out.append(",\"sessions\":");
    text::push_i64(&mut out, f.sessions);
    out.append(",\"records\":");
    text::push_i64(&mut out, f.records);
    out.append(",\"rejects\":");
    text::push_i64(&mut out, f.rejects);
    out.append(",\"checked\":");
    text::push_usize(&mut out, f.checked);
    out.append(",\"stale\":");
    text::push_usize(&mut out, f.stale.len());
    out.append(",\"missing_files\":");
    text::push_usize(&mut out, f.gone.len());
    out.append(",\"elapsed_ms\":");
    text::push_u64(&mut out, elapsed);
    out.append(",\"problems\":[");
    out.append(all_json(ps).as_str());
    out.append("]}");
    assert(Seq::new(ps@.len(), |i: int| problem_json(problem_views(ps@)[i])) =~= Seq::new(
        problem_views(ps@).len(),
        |i: int| problem_json(problem_views(ps@)[i]),
    ));
    out
}

fn report_plain(f: &Findings, ps: &Vec<Problem>, elapsed: u64) -> (r: String)
    ensures
        r@ == plain_report(*f, problem_views(ps@), elapsed as int),
{
    let mut out = "sessions ".to_owned();
    text::push_i64(&mut out, f.sessions);
    out.append("  records ");
    text::push_i64(&mut out, f.records);
    out.append("  rejects ");
    text::push_i64(&mut out, f.rejects);
    out.append("\nverified ");
    text::push_usize(&mut out, f.checked);
    out.append(" records against their source files in ");
    text::push_u64(&mut out, elapsed);
    out.append("ms\n");
    if ps.len() == 0 {
        out.append("ok");
        return out;
    }
    out.append("\n");
    text::push_usize(&mut out, ps.len());
    out.append(" problem(s):\n");
    let ghost head = out@;
    let ghost all = problem_views(ps@);
    let mut i: usize = 0;
    while i < ps.len()
        invariant
            i <= ps@.len(),
            all == problem_views(ps@),
            out@ == with_problems(head, all, i as int),
        decreases ps.len() - i,
    {
        out.append("  [");
        out.append(ps[i].kind.as_str());
        out.append("] ");
        out.append(ps[i].what.as_str());
        out.append("\n      -> ");
        out.append(ps[i].hint.as_str());
        out.append("\n");
        i += 1;
    }
    out
}

/// Whether the index is sound, and the report on it.
pub fn doctor(f: &Findings, elapsed: u64, json: bool) -> (r: (bool, String))
    ensures
        r.0 == (problems(*f).len() == 0),
        r.1@ == if json {
            json_report(*f, problems(*f), elapsed as int)
        } else {
            plain_report(*f, problems(*f), elapsed as int)
        },
{
    let ps = diagnose(f);
    assert(problem_views(ps@).len() == ps@.len());
    let out = if json {
        report_json(f, &ps, elapsed)
    } else {
        report_plain(f, &ps, elapsed)
    };
    (ps.len() == 0, out)
}

// ---------------------------------------------------------------------------
// The order of the sessions
// ---------------------------------------------------------------------------

/// One last time is newer than another. A session without a time is the oldest.
pub open spec fn newer(a: Option<i64>, b: Option<i64>) -> bool {
    match (a, b) {
        (Some(x), Some(y)) => x > y,
        (Some(_), None) => true,
        _ => false,
    }
}

/// Indices are in order: newest first, and those of the same time as they came.
pub open spec fn in_order(last: Seq<Option<i64>>, r: Seq<usize>) -> bool {
    forall|a: int, b: int|
        0 <= a < b < r.len() ==> newer(last[#[trigger] r[a] as int], last[#[trigger] r[b] as int])
            || (last[r[a] as int] == last[r[b] as int] && r[a] < r[b])
}

fn is_newer(a: &Option<i64>, b: &Option<i64>) -> (r: bool)
    ensures
        r == newer(*a, *b),
{
    match (a, b) {
        (Some(x), Some(y)) => *x > *y,
        (Some(_), None) => true,
        _ => false,
    }
}

/// The sessions by their last time, newest first: every index once.
pub fn newest_first(last: &Vec<Option<i64>>) -> (r: Vec<usize>)
    ensures
        r@.len() == last@.len(),
        forall|k: int| 0 <= k < r@.len() ==> #[trigger] r@[k] < last@.len(),
        forall|i: usize| i < last@.len() ==> #[trigger] r@.contains(i),
        r@.no_duplicates(),
        in_order(last@, r@),
{
    let mut out: Vec<usize> = Vec::new();
    let mut i: usize = 0;
    while i < last.len()
        invariant
            i <= last@.len(),
            out@.len() == i,
            forall|k: int| 0 <= k < i ==> #[trigger] out@[k] < i,
            forall|x: usize| x < i ==> #[trigger] out@.contains(x),
            in_order(last@, out@),
        decreases last.len() - i,
    {
        let mut p: usize = 0;
        while p < out.len() && !is_newer(&last[i], &last[out[p]])
            invariant
                i < last@.len(),
                p <= out@.len(),
                out@.len() == i,
                forall|k: int| 0 <= k < i ==> #[trigger] out@[k] < i,
                forall|k: int|
                    0 <= k < p ==> !newer(last@[i as int], last@[#[trigger] out@[k] as int]),
            decreases out.len() - p,
        {
            p += 1;
        }
        let ghost before = out@;
        out.insert(p, i);
        proof {
            assert(out@ =~= before.insert(p as int, i));
            assert forall|x: usize| x < i + 1 implies #[trigger] out@.contains(x) by {
                if x == i {
                    assert(out@[p as int] == i);
                } else {
                    assert(before.contains(x));
                    let k = choose|k: int| 0 <= k < before.len() && before[k] == x;
                    if k < p {
                        assert(out@[k] == x);
                    } else {
                        assert(out@[k + 1] == x);
                    }
                }
            }
            assert forall|k: int| 0 <= k < i + 1 implies #[trigger] out@[k] < i + 1 by {
                if k < p {
                    assert(out@[k] == before[k]);
                } else if k > p {
                    assert(out@[k] == before[k - 1]);
                }
            }
            assert forall|a: int, b: int| 0 <= a < b < out@.len() implies newer(
                last@[#[trigger] out@[a] as int],
                last@[#[trigger] out@[b] as int],
            ) || (last@[out@[a] as int] == last@[out@[b] as int] && out@[a] < out@[b]) by {
                let x = if a < p {
                    a
                } else {
                    a - 1
                };
                let y = if b < p {
                    b
                } else {
                    b - 1
                };
                if a != p {
                    assert(out@[a] == before[x]);
                }
                if b != p {
                    assert(out@[b] == before[y]);
                }
                if a == p && y > p {
                    assert(newer(last@[i as int], last@[before[p as int] as int]));
                }
            }
        }
        i += 1;
    }
    out
}

// ---------------------------------------------------------------------------
// What a report says
// ---------------------------------------------------------------------------

/// The kind, the description and the advice of a problem are read back.
#[verifier::spinoff_prover]
#[verifier::rlimit(60)]
pub proof fn law_problem_json(p: ProblemV)
    ensures
        ({
            let o = problem_json(p);
            &&& mcp::reads_text(o, "kind"@, Some(p.kind))
            &&& mcp::reads_text(o, "what"@, Some(p.what))
            &&& mcp::reads_text(o, "hint"@, Some(p.hint))
        }),
{
    let o = problem_json(p);
    lemma_names_problem_json();
    let x0 = mcp::text_scalar(Some(p.kind));
    mcp::lemma_scalars_are_sound(Some(p.kind), None);
    mcp::lemma_opens("{\"kind\":"@, "kind"@, x0);
    let m0 = seq![("kind"@, x0)];
    let t0 = "{\"kind\":"@ + mcp::written(x0);
    let x1 = mcp::text_scalar(Some(p.what));
    mcp::lemma_scalars_are_sound(Some(p.what), None);
    mcp::lemma_goes_on(t0, m0, ",\"what\":"@, "what"@, x1);
    let m1 = m0.push(("what"@, x1));
    let t1 = t0 + ",\"what\":"@ + mcp::written(x1);
    let x2 = mcp::text_scalar(Some(p.hint));
    mcp::lemma_scalars_are_sound(Some(p.hint), None);
    mcp::lemma_goes_on(t1, m1, ",\"hint\":"@, "hint"@, x2);
    let m2 = m1.push(("hint"@, x2));
    let t2 = t1 + ",\"hint\":"@ + mcp::written(x2);
    let w = t2;
    let ms = m2;
    reveal_strlit("}");
    let z = "}"@;
    assert(ms[0] == ("kind"@, x0) && ms[1] == ("what"@, x1) && ms[2] == ("hint"@, x2));
    assert(mcp::distinct_keys(ms));
    assert(mcp::sound_members(ms));
    assert(o == w + z);
    assert((w + z).subrange(0, w.len() as int) =~= w);
    assert((w + z)[w.len() as int] == z[0]);
    mcp::law_members_read_back(o, ms, 0);
    mcp::law_members_read_back(o, ms, 1);
    mcp::law_members_read_back(o, ms, 2);
}

proof fn lemma_names_problem_json()
    ensures
        "kind"@.len() == 4 && "kind"@[0] == 'k' && "kind"@[1] == 'i' && "kind"@[2] == 'n' && "kind"@[3] == 'd',
        mcp::plain_key("kind"@),
        "{\"kind\":"@ == seq!['{', '"'] + "kind"@ + seq!['"', ':'],
        "what"@.len() == 4 && "what"@[0] == 'w' && "what"@[1] == 'h' && "what"@[2] == 'a' && "what"@[3] == 't',
        mcp::plain_key("what"@),
        ",\"what\":"@ == seq![',', '"'] + "what"@ + seq!['"', ':'],
        "hint"@.len() == 4 && "hint"@[0] == 'h' && "hint"@[1] == 'i' && "hint"@[2] == 'n' && "hint"@[3] == 't',
        mcp::plain_key("hint"@),
        ",\"hint\":"@ == seq![',', '"'] + "hint"@ + seq!['"', ':'],
{
    reveal_strlit("kind");
    reveal_strlit("{\"kind\":");
    assert("{\"kind\":"@ =~= seq!['{', '"'] + "kind"@ + seq!['"', ':']);
    reveal_strlit("what");
    reveal_strlit(",\"what\":");
    assert(",\"what\":"@ =~= seq![',', '"'] + "what"@ + seq!['"', ':']);
    reveal_strlit("hint");
    reveal_strlit(",\"hint\":");
    assert(",\"hint\":"@ =~= seq![',', '"'] + "hint"@ + seq!['"', ':']);
}

/// The counts of a report are read back; all is well if and only if there is no
/// problem.
#[verifier::spinoff_prover]
#[verifier::rlimit(60)]
pub proof fn law_report_counts(f: Findings, ps: Seq<ProblemV>, elapsed: nat)
    ensures
        ({
            let o = json_report(f, ps, elapsed as int);
            &&& ps.len() == 0 ==> mcp::scalar_at(o, "ok"@) == Some("true"@)
            &&& !(ps.len() == 0) ==> mcp::scalar_at(o, "ok"@) == Some("false"@)
            &&& mcp::reads_number(o, "sessions"@, Some(f.sessions as int))
            &&& mcp::reads_number(o, "records"@, Some(f.records as int))
            &&& mcp::reads_number(o, "rejects"@, Some(f.rejects as int))
            &&& mcp::scalar_at(o, "checked"@) == Some(text::dec(f.checked as nat))
            &&& mcp::scalar_at(o, "stale"@) == Some(text::dec(f.stale@.len()))
            &&& mcp::scalar_at(o, "missing_files"@) == Some(text::dec(f.gone@.len()))
            &&& mcp::scalar_at(o, "elapsed_ms"@) == Some(text::dec(elapsed))
        }),
{
    let o = json_report(f, ps, elapsed as int);
    lemma_names_report_counts();
    let x0 = mcp::bool_scalar(ps.len() == 0);
    mcp::lemma_flags_are_sound(ps.len() == 0, 0);
    mcp::lemma_opens("{\"ok\":"@, "ok"@, x0);
    let m0 = seq![("ok"@, x0)];
    let t0 = "{\"ok\":"@ + mcp::written(x0);
    let x1 = mcp::number_scalar(Some(f.sessions as int));
    mcp::lemma_scalars_are_sound(None, Some(f.sessions as int));
    mcp::lemma_goes_on(t0, m0, ",\"sessions\":"@, "sessions"@, x1);
    let m1 = m0.push(("sessions"@, x1));
    let t1 = t0 + ",\"sessions\":"@ + mcp::written(x1);
    let x2 = mcp::number_scalar(Some(f.records as int));
    mcp::lemma_scalars_are_sound(None, Some(f.records as int));
    mcp::lemma_goes_on(t1, m1, ",\"records\":"@, "records"@, x2);
    let m2 = m1.push(("records"@, x2));
    let t2 = t1 + ",\"records\":"@ + mcp::written(x2);
    let x3 = mcp::number_scalar(Some(f.rejects as int));
    mcp::lemma_scalars_are_sound(None, Some(f.rejects as int));
    mcp::lemma_goes_on(t2, m2, ",\"rejects\":"@, "rejects"@, x3);
    let m3 = m2.push(("rejects"@, x3));
    let t3 = t2 + ",\"rejects\":"@ + mcp::written(x3);
    let x4 = mcp::nat_scalar(f.checked as nat);
    mcp::lemma_flags_are_sound(true, f.checked as nat);
    mcp::lemma_goes_on(t3, m3, ",\"checked\":"@, "checked"@, x4);
    let m4 = m3.push(("checked"@, x4));
    let t4 = t3 + ",\"checked\":"@ + mcp::written(x4);
    let x5 = mcp::nat_scalar(f.stale@.len());
    mcp::lemma_flags_are_sound(true, f.stale@.len());
    mcp::lemma_goes_on(t4, m4, ",\"stale\":"@, "stale"@, x5);
    let m5 = m4.push(("stale"@, x5));
    let t5 = t4 + ",\"stale\":"@ + mcp::written(x5);
    let x6 = mcp::nat_scalar(f.gone@.len());
    mcp::lemma_flags_are_sound(true, f.gone@.len());
    mcp::lemma_goes_on(t5, m5, ",\"missing_files\":"@, "missing_files"@, x6);
    let m6 = m5.push(("missing_files"@, x6));
    let t6 = t5 + ",\"missing_files\":"@ + mcp::written(x6);
    let x7 = mcp::nat_scalar(elapsed);
    mcp::lemma_flags_are_sound(true, elapsed);
    mcp::lemma_goes_on(t6, m6, ",\"elapsed_ms\":"@, "elapsed_ms"@, x7);
    let m7 = m6.push(("elapsed_ms"@, x7));
    let t7 = t6 + ",\"elapsed_ms\":"@ + mcp::written(x7);
    let w = t7;
    let ms = m7;
    reveal_strlit(",\"problems\":[");
    let z = ",\"problems\":["@ + text::join(Seq::new(ps.len(), |i: int| problem_json(ps[i])), ","@) + "]}"@;
    assert(ms[0] == ("ok"@, x0) && ms[1] == ("sessions"@, x1) && ms[2] == ("records"@, x2) && ms[3] == ("rejects"@, x3) && ms[4] == ("checked"@, x4) && ms[5] == ("stale"@, x5) && ms[6] == ("missing_files"@, x6) && ms[7] == ("elapsed_ms"@, x7));
    assert(mcp::distinct_keys(ms));
    assert(mcp::sound_members(ms));
    lemma_three(
        w,
        ",\"problems\":["@,
        text::join(Seq::new(ps.len(), |i: int| problem_json(ps[i])), ","@),
        "]}"@,
    );
    assert(o == w + z);
    assert((w + z).subrange(0, w.len() as int) =~= w);
    assert((w + z)[w.len() as int] == z[0]);
    mcp::law_members_read_back(o, ms, 0);
    mcp::law_members_read_back(o, ms, 1);
    mcp::law_members_read_back(o, ms, 2);
    mcp::law_members_read_back(o, ms, 3);
    mcp::law_members_read_back(o, ms, 4);
    mcp::law_members_read_back(o, ms, 5);
    mcp::law_members_read_back(o, ms, 6);
    mcp::law_members_read_back(o, ms, 7);
}

proof fn lemma_names_report_counts()
    ensures
        "ok"@.len() == 2 && "ok"@[0] == 'o' && "ok"@[1] == 'k',
        mcp::plain_key("ok"@),
        "{\"ok\":"@ == seq!['{', '"'] + "ok"@ + seq!['"', ':'],
        "sessions"@.len() == 8 && "sessions"@[0] == 's' && "sessions"@[1] == 'e' && "sessions"@[2] == 's' && "sessions"@[3] == 's' && "sessions"@[4] == 'i' && "sessions"@[5] == 'o' && "sessions"@[6] == 'n' && "sessions"@[7] == 's',
        mcp::plain_key("sessions"@),
        ",\"sessions\":"@ == seq![',', '"'] + "sessions"@ + seq!['"', ':'],
        "records"@.len() == 7 && "records"@[0] == 'r' && "records"@[1] == 'e' && "records"@[2] == 'c' && "records"@[3] == 'o' && "records"@[4] == 'r' && "records"@[5] == 'd' && "records"@[6] == 's',
        mcp::plain_key("records"@),
        ",\"records\":"@ == seq![',', '"'] + "records"@ + seq!['"', ':'],
        "rejects"@.len() == 7 && "rejects"@[0] == 'r' && "rejects"@[1] == 'e' && "rejects"@[2] == 'j' && "rejects"@[3] == 'e' && "rejects"@[4] == 'c' && "rejects"@[5] == 't' && "rejects"@[6] == 's',
        mcp::plain_key("rejects"@),
        ",\"rejects\":"@ == seq![',', '"'] + "rejects"@ + seq!['"', ':'],
        "checked"@.len() == 7 && "checked"@[0] == 'c' && "checked"@[1] == 'h' && "checked"@[2] == 'e' && "checked"@[3] == 'c' && "checked"@[4] == 'k' && "checked"@[5] == 'e' && "checked"@[6] == 'd',
        mcp::plain_key("checked"@),
        ",\"checked\":"@ == seq![',', '"'] + "checked"@ + seq!['"', ':'],
        "stale"@.len() == 5 && "stale"@[0] == 's' && "stale"@[1] == 't' && "stale"@[2] == 'a' && "stale"@[3] == 'l' && "stale"@[4] == 'e',
        mcp::plain_key("stale"@),
        ",\"stale\":"@ == seq![',', '"'] + "stale"@ + seq!['"', ':'],
        "missing_files"@.len() == 13 && "missing_files"@[0] == 'm' && "missing_files"@[1] == 'i' && "missing_files"@[2] == 's' && "missing_files"@[3] == 's' && "missing_files"@[4] == 'i' && "missing_files"@[5] == 'n' && "missing_files"@[6] == 'g' && "missing_files"@[7] == '_' && "missing_files"@[8] == 'f' && "missing_files"@[9] == 'i' && "missing_files"@[10] == 'l' && "missing_files"@[11] == 'e' && "missing_files"@[12] == 's',
        mcp::plain_key("missing_files"@),
        ",\"missing_files\":"@ == seq![',', '"'] + "missing_files"@ + seq!['"', ':'],
        "elapsed_ms"@.len() == 10 && "elapsed_ms"@[0] == 'e' && "elapsed_ms"@[1] == 'l' && "elapsed_ms"@[2] == 'a' && "elapsed_ms"@[3] == 'p' && "elapsed_ms"@[4] == 's' && "elapsed_ms"@[5] == 'e' && "elapsed_ms"@[6] == 'd' && "elapsed_ms"@[7] == '_' && "elapsed_ms"@[8] == 'm' && "elapsed_ms"@[9] == 's',
        mcp::plain_key("elapsed_ms"@),
        ",\"elapsed_ms\":"@ == seq![',', '"'] + "elapsed_ms"@ + seq!['"', ':'],
{
    reveal_strlit("ok");
    reveal_strlit("{\"ok\":");
    assert("{\"ok\":"@ =~= seq!['{', '"'] + "ok"@ + seq!['"', ':']);
    reveal_strlit("sessions");
    reveal_strlit(",\"sessions\":");
    assert(",\"sessions\":"@ =~= seq![',', '"'] + "sessions"@ + seq!['"', ':']);
    reveal_strlit("records");
    reveal_strlit(",\"records\":");
    assert(",\"records\":"@ =~= seq![',', '"'] + "records"@ + seq!['"', ':']);
    reveal_strlit("rejects");
    reveal_strlit(",\"rejects\":");
    assert(",\"rejects\":"@ =~= seq![',', '"'] + "rejects"@ + seq!['"', ':']);
    reveal_strlit("checked");
    reveal_strlit(",\"checked\":");
    assert(",\"checked\":"@ =~= seq![',', '"'] + "checked"@ + seq!['"', ':']);
    reveal_strlit("stale");
    reveal_strlit(",\"stale\":");
    assert(",\"stale\":"@ =~= seq![',', '"'] + "stale"@ + seq!['"', ':']);
    reveal_strlit("missing_files");
    reveal_strlit(",\"missing_files\":");
    assert(",\"missing_files\":"@ =~= seq![',', '"'] + "missing_files"@ + seq!['"', ':']);
    reveal_strlit("elapsed_ms");
    reveal_strlit(",\"elapsed_ms\":");
    assert(",\"elapsed_ms\":"@ =~= seq![',', '"'] + "elapsed_ms"@ + seq!['"', ':']);
}

proof fn lemma_three(w: Seq<char>, a: Seq<char>, b: Seq<char>, c: Seq<char>)
    ensures
        w + a + b + c == w + (a + b + c),
{
    assert(w + a + b + c =~= w + (a + b + c));
}

/// Each problem stands in a report, behind those before it.
#[verifier::spinoff_prover]
#[verifier::rlimit(60)]
pub proof fn law_report_problems(f: Findings, ps: Seq<ProblemV>, elapsed: int, i: int)
    requires
        0 <= i < ps.len(),
    ensures
        exists|k: int| #[trigger] text::occurs_at(json_report(f, ps, elapsed), problem_json(ps[i]), k),
        exists|k: int|
            #[trigger] text::occurs_at(
                plain_report(f, ps, elapsed),
                "  ["@ + ps[i].kind + "] "@ + ps[i].what + "\n      -> "@ + ps[i].hint + "\n"@,
                k,
            ),
{
    let js = Seq::new(ps.len(), |i: int| problem_json(ps[i]));
    let j = text::join(js, ","@);
    text::law_joined_in_order(js, ","@, i);
    let at = text::join(js.take(i + 1), ","@).len() - js[i].len();
    let o = json_report(f, ps, elapsed);
    let n = o.len() - "]}"@.len() - j.len();
    assert(o.subrange(n, n + j.len()) =~= j);
    assert(o.subrange(n + at, n + at + js[i].len()) =~= js[i]) by {
        assert(j.subrange(at, at + js[i].len()) =~= o.subrange(n + at, n + at + js[i].len()));
    }
    assert(text::occurs_at(o, problem_json(ps[i]), n + at));
    let head = "sessions "@ + text::dec_int(f.sessions as int) + "  records "@ + text::dec_int(
        f.records as int,
    ) + "  rejects "@ + text::dec_int(f.rejects as int) + "\nverified "@ + text::dec(
        f.checked as nat,
    ) + " records against their source files in "@ + text::dec(elapsed as nat) + "ms\n"@ + "\n"@
        + text::dec(ps.len()) + " problem(s):\n"@;
    lemma_listed(head, ps, i, ps.len() as int);
    assert(plain_report(f, ps, elapsed) == with_problems(head, ps, ps.len() as int));
}

proof fn lemma_listed(head: Seq<char>, ps: Seq<ProblemV>, i: int, n: int)
    requires
        0 <= i < n <= ps.len(),
    ensures
        exists|k: int|
            #[trigger] text::occurs_at(
                with_problems(head, ps, n),
                "  ["@ + ps[i].kind + "] "@ + ps[i].what + "\n      -> "@ + ps[i].hint + "\n"@,
                k,
            ),
    decreases n,
{
    let x = "  ["@ + ps[i].kind + "] "@ + ps[i].what + "\n      -> "@ + ps[i].hint + "\n"@;
    let w = with_problems(head, ps, n);
    let u = with_problems(head, ps, n - 1);
    if i == n - 1 {
        assert(w =~= u + x);
        assert(w.subrange(u.len() as int, (u.len() + x.len()) as int) =~= x);
        assert(text::occurs_at(w, x, u.len() as int));
    } else {
        lemma_listed(head, ps, i, n - 1);
        let k = choose|k: int| #[trigger] text::occurs_at(u, x, k);
        assert(w.subrange(k, k + x.len()) =~= u.subrange(k, k + x.len()));
        assert(text::occurs_at(w, x, k));
    }
}

/// The files that are gone and the records that are stale are named with their
/// session and the reason, in order, up to five of each, and then how many more
/// there are.
#[verifier::spinoff_prover]
#[verifier::rlimit(60)]
pub proof fn law_named(
    gone: Seq<(String, String)>,
    stale: Seq<(String, i64, String)>,
    i: int,
    j: int,
)
    requires
        0 <= i < gone.len() && i < 5,
        0 <= j < stale.len() && j < 5,
    ensures
        gone_files(gone).len() == (if gone.len() <= 5 {
            gone.len() as int
        } else {
            6
        }),
        stale_records(stale).len() == (if stale.len() <= 5 {
            stale.len() as int
        } else {
            6
        }),
        gone_files(gone)[i].kind == "file-gone"@,
        stale_records(stale)[j].kind == "stale-record"@,
        gone_files(gone)[i].what == gone[i].0@ + ": "@ + gone[i].1@,
        stale_records(stale)[j].what == stale[j].0@ + " seq="@ + text::dec_int(stale[j].1 as int)
            + ": "@ + stale[j].2@,
        gone.len() > 5 ==> gone_files(gone)[5].what == "and "@ + text::dec(
            (gone.len() - 5) as nat,
        ) + " more"@,
        stale.len() > 5 ==> stale_records(stale)[5].what == "and "@ + text::dec(
            (stale.len() - 5) as nat,
        ) + " more"@,
{
}

/// Whatever is wrong is told: a damaged index, a file that is gone, a record that
/// changed, and a full-text index that does not fit.
#[verifier::spinoff_prover]
#[verifier::rlimit(60)]
pub proof fn law_all_is_told(f: Findings, p: ProblemV)
    ensures
        f.integrity@ != "ok"@ ==> exists|k: int|
            0 <= k < problems(f).len() && (#[trigger] problems(f)[k]).kind == "corrupt-index"@
                && text::ends_with(problems(f)[k].what, f.integrity@),
        gone_files(f.gone@).contains(p) ==> problems(f).contains(p),
        stale_records(f.stale@).contains(p) ==> problems(f).contains(p),
        f.docs != f.mapped ==> exists|k: int|
            0 <= k < problems(f).len() && (#[trigger] problems(f)[k]).kind == "fts-desync"@,
        f.orphans > 0 ==> exists|k: int|
            0 <= k < problems(f).len() && (#[trigger] problems(f)[k]).kind == "fts-orphan"@,
{
    let a = corrupt(f.integrity@);
    let b = gone_files(f.gone@);
    let c = stale_records(f.stale@);
    let d = desync(f.docs as int, f.mapped as int);
    let e = orphaned(f.orphans as int);
    let ps = problems(f);
    if f.integrity@ != "ok"@ {
        assert(ps[0] == a[0]);
        let w = "integrity_check: "@ + f.integrity@;
        assert(w.subrange(w.len() - f.integrity@.len(), w.len() as int) =~= f.integrity@);
        assert(ps[0].kind == "corrupt-index"@);
    }
    if b.contains(p) {
        let k = b.index_of(p);
        assert(ps[a.len() + k] == p);
    }
    if c.contains(p) {
        let k = c.index_of(p);
        assert(ps[a.len() + b.len() + k] == p);
    }
    if f.docs != f.mapped {
        let k = (a.len() + b.len() + c.len()) as int;
        assert(ps[k] == d[0]);
    }
    if f.orphans > 0 {
        let k = (a.len() + b.len() + c.len() + d.len()) as int;
        assert(ps[k] == e[0]);
    }
}

/// A later time is newer, and any time is newer than none.
pub proof fn law_newer(a: i64, b: i64, t: Option<i64>)
    ensures
        newer(Some(a), Some(b)) <==> a > b,
        newer(Some(a), None),
        !newer(None, t),
{
}

} // verus!
