//! Nearest strings, for "did you mean".

use crate::text;
use vstd::prelude::*;
use vstd::string::*;
use vstd::utf8::*;

verus! {

/// The least number of insertions, deletions and replacements of one character
/// that turn one text into another.
pub open spec fn distance(a: Seq<char>, b: Seq<char>) -> int
    decreases a.len() + b.len(),
{
    if a.len() == 0 {
        b.len() as int
    } else if b.len() == 0 {
        a.len() as int
    } else {
        let change: int = if a.last() == b.last() {
            0
        } else {
            1
        };
        text::min2(
            text::min2(distance(a.drop_last(), b) + 1, distance(a, b.drop_last()) + 1),
            distance(a.drop_last(), b.drop_last()) + change,
        )
    }
}

/// The distance lies between the difference of the lengths and the longer one.
pub proof fn law_distance_bounded(a: Seq<char>, b: Seq<char>)
    ensures
        a.len() - b.len() <= distance(a, b),
        b.len() - a.len() <= distance(a, b),
        0 <= distance(a, b) <= text::max2(a.len() as int, b.len() as int),
    decreases a.len() + b.len(),
{
    if a.len() > 0 && b.len() > 0 {
        law_distance_bounded(a.drop_last(), b);
        law_distance_bounded(a, b.drop_last());
        law_distance_bounded(a.drop_last(), b.drop_last());
    }
}

/// The distance is the same both ways.
pub proof fn law_distance_symmetric(a: Seq<char>, b: Seq<char>)
    ensures
        distance(a, b) == distance(b, a),
    decreases a.len() + b.len(),
{
    if a.len() > 0 && b.len() > 0 {
        law_distance_symmetric(a.drop_last(), b);
        law_distance_symmetric(a, b.drop_last());
        law_distance_symmetric(a.drop_last(), b.drop_last());
    }
}

/// The distance is zero between equal texts, and only there.
pub proof fn law_distance_zero(a: Seq<char>, b: Seq<char>)
    ensures
        distance(a, b) == 0 <==> a == b,
    decreases a.len() + b.len(),
{
    if a.len() > 0 && b.len() > 0 {
        law_distance_zero(a.drop_last(), b.drop_last());
        law_distance_bounded(a.drop_last(), b);
        law_distance_bounded(a, b.drop_last());
        law_distance_bounded(a.drop_last(), b.drop_last());
        if distance(a, b) == 0 {
            assert(a.drop_last().push(a.last()) =~= a);
            assert(b.drop_last().push(b.last()) =~= b);
        }
    } else if a.len() == b.len() {
        assert(a =~= b);
    }
}

/// The way over a third text is never shorter.
pub proof fn law_distance_triangle(a: Seq<char>, b: Seq<char>, c: Seq<char>)
    ensures
        distance(a, c) <= distance(a, b) + distance(b, c),
    decreases a.len() + b.len() + c.len(),
{
    law_distance_bounded(a, b);
    law_distance_bounded(b, c);
    law_distance_bounded(a, c);
    if a.len() > 0 && b.len() > 0 && c.len() > 0 {
        let p = a.drop_last();
        let q = b.drop_last();
        let r = c.drop_last();
        law_distance_triangle(p, b, c);
        law_distance_triangle(a, b, r);
        law_distance_triangle(a, q, c);
        law_distance_triangle(a, q, r);
        law_distance_triangle(p, q, c);
        law_distance_triangle(p, q, r);
    }
}

/// One text is another with one character inserted, taken out or replaced.
pub open spec fn one_edit(a: Seq<char>, b: Seq<char>) -> bool {
    ||| exists|i: int, x: char| 0 <= i <= a.len() && b == #[trigger] a.insert(i, x)
    ||| exists|i: int| 0 <= i < a.len() && b == #[trigger] a.remove(i)
    ||| exists|i: int, x: char| 0 <= i < a.len() && b == #[trigger] a.update(i, x)
}

/// `n` edits, one after another, turn one text into another.
pub open spec fn edits(a: Seq<char>, b: Seq<char>, n: nat) -> bool
    decreases n,
{
    if n == 0 {
        a == b
    } else {
        exists|c: Seq<char>| edits(a, c, (n - 1) as nat) && #[trigger] one_edit(c, b)
    }
}

proof fn lemma_insert_near(a: Seq<char>, i: int, x: char)
    requires
        0 <= i <= a.len(),
    ensures
        distance(a, a.insert(i, x)) <= 1,
    decreases a.len() - i,
{
    let b = a.insert(i, x);
    if i == a.len() {
        assert(b.drop_last() =~= a);
        law_distance_zero(a, a);
        law_distance_bounded(a, b);
    } else {
        let p = a.drop_last();
        lemma_insert_near(p, i, x);
        assert(b.drop_last() =~= p.insert(i, x));
        assert(b.last() == a.last());
    }
}

proof fn lemma_update_near(a: Seq<char>, i: int, x: char)
    requires
        0 <= i < a.len(),
    ensures
        distance(a, a.update(i, x)) <= 1,
    decreases a.len() - i,
{
    let b = a.update(i, x);
    let p = a.drop_last();
    if i == a.len() - 1 {
        assert(b.drop_last() =~= p);
        law_distance_zero(p, p);
    } else {
        lemma_update_near(p, i, x);
        assert(b.drop_last() =~= p.update(i, x));
        assert(b.last() == a.last());
    }
}

proof fn lemma_edit_near(a: Seq<char>, b: Seq<char>)
    requires
        one_edit(a, b),
    ensures
        distance(a, b) <= 1,
{
    if exists|i: int, x: char| 0 <= i <= a.len() && b == #[trigger] a.insert(i, x) {
        let (i, x) = choose|i: int, x: char| 0 <= i <= a.len() && b == #[trigger] a.insert(i, x);
        lemma_insert_near(a, i, x);
    } else if exists|i: int| 0 <= i < a.len() && b == #[trigger] a.remove(i) {
        let i = choose|i: int| 0 <= i < a.len() && b == #[trigger] a.remove(i);
        lemma_insert_near(b, i, a[i]);
        assert(b.insert(i, a[i]) =~= a);
        law_distance_symmetric(a, b);
    } else {
        let (i, x) = choose|i: int, x: char| 0 <= i < a.len() && b == #[trigger] a.update(i, x);
        lemma_update_near(a, i, x);
    }
}

proof fn lemma_edit_kept(a: Seq<char>, b: Seq<char>, z: char)
    requires
        one_edit(a, b),
    ensures
        one_edit(a.push(z), b.push(z)),
{
    if exists|i: int, x: char| 0 <= i <= a.len() && b == #[trigger] a.insert(i, x) {
        let (i, x) = choose|i: int, x: char| 0 <= i <= a.len() && b == #[trigger] a.insert(i, x);
        assert(b.push(z) =~= a.push(z).insert(i, x));
    } else if exists|i: int| 0 <= i < a.len() && b == #[trigger] a.remove(i) {
        let i = choose|i: int| 0 <= i < a.len() && b == #[trigger] a.remove(i);
        assert(b.push(z) =~= a.push(z).remove(i));
    } else {
        let (i, x) = choose|i: int, x: char| 0 <= i < a.len() && b == #[trigger] a.update(i, x);
        assert(b.push(z) =~= a.push(z).update(i, x));
    }
}

proof fn lemma_edits_kept(a: Seq<char>, b: Seq<char>, n: nat, z: char)
    requires
        edits(a, b, n),
    ensures
        edits(a.push(z), b.push(z), n),
    decreases n,
{
    if n > 0 {
        let m = (n - 1) as nat;
        let c = choose|c: Seq<char>| edits(a, c, m) && #[trigger] one_edit(c, b);
        lemma_edits_kept(a, c, m, z);
        lemma_edit_kept(c, b, z);
        assert(edits(a.push(z), c.push(z), m));
    }
}

/// An edit first, and then some more.
proof fn lemma_edit_first(a: Seq<char>, b: Seq<char>, c: Seq<char>, n: nat)
    requires
        one_edit(a, b),
        edits(b, c, n),
    ensures
        edits(a, c, n + 1),
    decreases n,
{
    if n == 0 {
        assert(edits(a, a, 0));
    } else {
        let m = (n - 1) as nat;
        let d = choose|d: Seq<char>| edits(b, d, m) && #[trigger] one_edit(d, c);
        lemma_edit_first(a, b, d, m);
        assert(edits(a, d, n));
    }
}

proof fn lemma_reached(a: Seq<char>, b: Seq<char>)
    ensures
        edits(a, b, distance(a, b) as nat),
    decreases a.len() + b.len(),
{
    law_distance_bounded(a, b);
    if a.len() == 0 && b.len() == 0 {
        assert(a =~= b);
    } else if a.len() == 0 {
        let q = b.drop_last();
        lemma_reached(a, q);
        assert(b =~= q.insert(q.len() as int, b.last()));
        assert(one_edit(q, b));
        assert(edits(a, q, (b.len() - 1) as nat));
    } else if b.len() == 0 {
        let p = a.drop_last();
        lemma_reached(p, b);
        assert(p =~= a.remove(a.len() - 1));
        assert(one_edit(a, p));
        lemma_edit_first(a, p, b, (a.len() - 1) as nat);
    } else {
        let p = a.drop_last();
        let q = b.drop_last();
        let d = distance(a, b);
        law_distance_bounded(p, b);
        law_distance_bounded(a, q);
        law_distance_bounded(p, q);
        if d == distance(p, b) + 1 {
            lemma_reached(p, b);
            assert(p =~= a.remove(a.len() - 1));
            assert(one_edit(a, p));
            lemma_edit_first(a, p, b, distance(p, b) as nat);
        } else if d == distance(a, q) + 1 {
            lemma_reached(a, q);
            assert(b =~= q.insert(q.len() as int, b.last()));
            assert(one_edit(q, b));
            assert(edits(a, q, (d - 1) as nat));
        } else {
            lemma_reached(p, q);
            let n = distance(p, q) as nat;
            lemma_edits_kept(p, q, n, a.last());
            assert(p.push(a.last()) =~= a);
            let c = q.push(a.last());
            if a.last() == b.last() {
                assert(c =~= b);
            } else {
                assert(b =~= c.update(c.len() - 1, b.last()));
                assert(one_edit(c, b));
                assert(edits(a, c, (d - 1) as nat));
            }
        }
    }
}

proof fn lemma_no_fewer(a: Seq<char>, b: Seq<char>, n: nat)
    requires
        edits(a, b, n),
    ensures
        distance(a, b) <= n,
    decreases n,
{
    if n == 0 {
        law_distance_zero(a, b);
    } else {
        let m = (n - 1) as nat;
        let c = choose|c: Seq<char>| edits(a, c, m) && #[trigger] one_edit(c, b);
        lemma_no_fewer(a, c, m);
        lemma_edit_near(c, b);
        law_distance_triangle(a, c, b);
    }
}

/// The distance is the least number of edits of one character that turn one
/// text into another.
pub proof fn law_distance_least(a: Seq<char>, b: Seq<char>)
    ensures
        distance(a, b) >= 0,
        edits(a, b, distance(a, b) as nat),
        forall|n: nat| #[trigger] edits(a, b, n) ==> distance(a, b) <= n,
{
    law_distance_bounded(a, b);
    lemma_reached(a, b);
    assert forall|n: nat| #[trigger] edits(a, b, n) implies distance(a, b) <= n by {
        lemma_no_fewer(a, b, n);
    }
}

/// One more row of the table of distances: those from `a`, cut behind `i`
/// characters, to the prefixes of `b`.
fn next_row(a: &[char], b: &[char], i: usize, prev: &Vec<u128>) -> (cur: Vec<u128>)
    requires
        i < a@.len(),
        prev@.len() == b@.len(),
        forall|j: int|
            0 <= j < b@.len() ==> #[trigger] prev@[j] == distance(
                a@.take(i as int),
                b@.take(j + 1),
            ),
    ensures
        cur@.len() == b@.len(),
        forall|j: int|
            0 <= j < b@.len() ==> #[trigger] cur@[j] == distance(a@.take(i + 1), b@.take(j + 1)),
{
    let ghost x = a@.take(i + 1);
    assert(x.drop_last() =~= a@.take(i as int));
    let mut cur: Vec<u128> = Vec::new();
    let mut diag: u128 = i as u128;
    let mut left: u128 = i as u128 + 1;
    let mut j: usize = 0;
    while j < b.len()
        invariant
            i < a@.len(),
            x == a@.take(i + 1),
            x.drop_last() == a@.take(i as int),
            j <= b@.len(),
            prev@.len() == b@.len(),
            cur@.len() == j,
            forall|k: int|
                0 <= k < b@.len() ==> #[trigger] prev@[k] == distance(
                    a@.take(i as int),
                    b@.take(k + 1),
                ),
            forall|k: int| 0 <= k < j ==> #[trigger] cur@[k] == distance(x, b@.take(k + 1)),
            diag == distance(a@.take(i as int), b@.take(j as int)),
            left == distance(x, b@.take(j as int)),
        decreases b.len() - j,
    {
        let ghost y = b@.take(j + 1);
        assert(y.drop_last() =~= b@.take(j as int));
        proof {
            law_distance_bounded(a@.take(i as int), y);
            law_distance_bounded(x, b@.take(j as int));
            law_distance_bounded(a@.take(i as int), b@.take(j as int));
        }
        let up: u128 = prev[j];
        let mut d: u128 = up + 1;
        if left + 1 < d {
            d = left + 1;
        }
        let change: u128 = if a[i] == b[j] {
            0
        } else {
            1
        };
        if diag + change < d {
            d = diag + change;
        }
        assert(d == distance(x, y));
        cur.push(d);
        diag = up;
        left = d;
        j += 1;
    }
    cur
}

/// The least number of changes that turn one text into another.
pub fn lev(a: &str, b: &str) -> (r: usize)
    ensures
        r == distance(a@, b@),
{
    let x = text::chars_of(a);
    let y = text::chars_of(b);
    let mut prev: Vec<u128> = Vec::new();
    let mut j: usize = 0;
    while j < y.len()
        invariant
            j <= y@.len(),
            prev@.len() == j,
            forall|k: int| 0 <= k < j ==> #[trigger] prev@[k] == k + 1,
        decreases y.len() - j,
    {
        prev.push(j as u128 + 1);
        j += 1;
    }
    let mut i: usize = 0;
    while i < x.len()
        invariant
            i <= x@.len(),
            prev@.len() == y@.len(),
            forall|k: int|
                0 <= k < y@.len() ==> #[trigger] prev@[k] == distance(
                    x@.take(i as int),
                    y@.take(k + 1),
                ),
        decreases x.len() - i,
    {
        prev = next_row(&x, &y, i, &prev);
        i += 1;
    }
    proof {
        law_distance_bounded(x@, y@);
        assert(x@.take(x@.len() as int) =~= x@);
        assert(y@.take(y@.len() as int) =~= y@);
    }
    if y.len() == 0 {
        x.len()
    } else {
        prev[y.len() - 1] as usize
    }
}

/// A candidate is near when at most half of it would have to change.
pub open spec fn near(d: int, want: Seq<char>, c: Seq<char>) -> bool {
    d * 2 <= text::max2(text::max2(text::byte_len(want), text::byte_len(c)), 1)
}

/// A candidate: its distance, its length in bytes, and its index.
pub struct Ranked {
    pub d: int,
    pub n: int,
    pub at: int,
}

/// Nearer candidates come first, then shorter ones.
pub open spec fn not_after(a: Ranked, b: Ranked) -> bool {
    a.d < b.d || (a.d == b.d && a.n <= b.n)
}

/// Where a candidate goes: behind all that do not come after it.
pub open spec fn slot(v: Seq<Ranked>, c: Ranked) -> int
    decreases v.len(),
{
    if v.len() == 0 {
        0
    } else if not_after(v.last(), c) {
        v.len() as int
    } else {
        slot(v.drop_last(), c)
    }
}

/// The candidates in order. `ds` holds their distances; those that are not near
/// are left out.
pub open spec fn ranking(want: Seq<char>, pool: Seq<Seq<char>>, ds: Seq<int>) -> Seq<Ranked>
    decreases pool.len(),
{
    if pool.len() == 0 || ds.len() != pool.len() {
        Seq::empty()
    } else {
        let v = ranking(want, pool.drop_last(), ds.drop_last());
        let c = Ranked { d: ds.last(), n: text::byte_len(pool.last()), at: pool.len() - 1 };
        if near(ds.last(), want, pool.last()) {
            v.insert(slot(v, c), c)
        } else {
            v
        }
    }
}

/// The nearest candidates, at most `n`.
pub open spec fn nearest(
    want: Seq<char>,
    pool: Seq<Seq<char>>,
    ds: Seq<int>,
    n: int,
) -> Seq<Seq<char>> {
    let v = ranking(want, pool, ds);
    Seq::new(text::min2(n, v.len() as int) as nat, |i: int| pool[v[i].at])
}

/// The distances between a text and some candidates, without regard to case.
pub open spec fn distances(want: Seq<char>, pool: Seq<Seq<char>>) -> Seq<int> {
    Seq::new(
        pool.len(),
        |i: int| distance(text::lowercase(want), text::lowercase(pool[i])),
    )
}

/// The candidates that a wrong name may have meant, nearest first.
pub open spec fn meant(want: Seq<char>, pool: Seq<Seq<char>>, n: int) -> Seq<Seq<char>> {
    nearest(want, pool, distances(want, pool), n)
}

proof fn lemma_slot(v: Seq<Ranked>, c: Ranked)
    ensures
        0 <= slot(v, c) <= v.len(),
        slot(v, c) > 0 ==> not_after(v[slot(v, c) - 1], c),
        forall|j: int| slot(v, c) <= j < v.len() ==> !not_after(#[trigger] v[j], c),
    decreases v.len(),
{
    if v.len() > 0 && !not_after(v.last(), c) {
        lemma_slot(v.drop_last(), c);
        let k = slot(v, c);
        assert forall|j: int| k <= j < v.len() implies !not_after(#[trigger] v[j], c) by {
            if j < v.len() - 1 {
                assert(v[j] == v.drop_last()[j]);
            }
        }
        if k > 0 {
            assert(v[k - 1] == v.drop_last()[k - 1]);
        }
    }
}

/// The ranking is in order, holds near candidates alone, each under its own
/// distance and at most once, and leaves out no near one.
pub proof fn law_ranking(want: Seq<char>, pool: Seq<Seq<char>>, ds: Seq<int>)
    requires
        ds.len() == pool.len(),
    ensures
        ({
            let v = ranking(want, pool, ds);
            &&& forall|i: int, j: int| 0 <= i < j < v.len() ==> not_after(#[trigger] v[i], #[trigger] v[j])
            &&& forall|i: int|
                0 <= i < v.len() ==> 0 <= (#[trigger] v[i]).at < pool.len() && v[i].d == ds[v[i].at]
                    && near(v[i].d, want, pool[v[i].at]) && v[i].n == text::byte_len(pool[v[i].at])
            &&& forall|i: int, j: int|
                0 <= i < j < v.len() ==> (#[trigger] v[i]).at != (#[trigger] v[j]).at
            &&& forall|k: int|
                0 <= k < pool.len() && near(#[trigger] ds[k], want, pool[k]) ==> exists|i: int|
                    0 <= i < v.len() && (#[trigger] v[i]).at == k
        }),
    decreases pool.len(),
{
    if pool.len() > 0 {
        let p = pool.drop_last();
        let q = ds.drop_last();
        law_ranking(want, p, q);
        let u = ranking(want, p, q);
        let v = ranking(want, pool, ds);
        let c = Ranked { d: ds.last(), n: text::byte_len(pool.last()), at: pool.len() - 1 };
        assert forall|i: int| 0 <= i < u.len() implies 0 <= (#[trigger] u[i]).at < pool.len() - 1
            && u[i].d == ds[u[i].at] && near(u[i].d, want, pool[u[i].at]) && u[i].n == text::byte_len(
            pool[u[i].at],
        ) by {
            assert(p[u[i].at] == pool[u[i].at]);
        }
        if near(ds.last(), want, pool.last()) {
            lemma_slot(u, c);
            let k = slot(u, c);
            assert(v == u.insert(k, c));
            assert forall|i: int| 0 <= i < v.len() implies #[trigger] v[i] == if i < k {
                u[i]
            } else if i == k {
                c
            } else {
                u[i - 1]
            } by {
            }
            assert forall|i: int, j: int| 0 <= i < j < v.len() implies not_after(
                #[trigger] v[i],
                #[trigger] v[j],
            ) by {
                if i < k && j >= k {
                    assert(not_after(u[k - 1], c));
                    if i < k - 1 {
                        assert(not_after(u[i], u[k - 1]));
                    }
                    if j > k {
                        assert(not_after(u[i], u[j - 1]));
                    }
                }
                if i == k {
                    assert(!not_after(u[j - 1], c));
                }
            }
            assert forall|m: int|
                0 <= m < pool.len() && near(#[trigger] ds[m], want, pool[m]) implies exists|i: int|
                0 <= i < v.len() && (#[trigger] v[i]).at == m by {
                if m < p.len() {
                    assert(q[m] == ds[m] && p[m] == pool[m]);
                    let i = choose|i: int| 0 <= i < u.len() && (#[trigger] u[i]).at == m;
                    assert(v[if i < k {
                        i
                    } else {
                        i + 1
                    }].at == m);
                } else {
                    assert(v[k].at == m);
                }
            }
        } else {
            assert forall|m: int|
                0 <= m < pool.len() && near(#[trigger] ds[m], want, pool[m]) implies exists|i: int|
                0 <= i < v.len() && (#[trigger] v[i]).at == m by {
                assert(q[m] == ds[m] && p[m] == pool[m]);
                let i = choose|i: int| 0 <= i < u.len() && (#[trigger] u[i]).at == m;
                assert(v[i].at == m);
            }
        }
    }
}

/// A candidate with its distance and its length in bytes.
#[derive(Clone, Copy, Debug)]
struct Scored {
    d: usize,
    n: usize,
    at: usize,
}

impl Scored {
    spec fn rank(self) -> Ranked {
        Ranked { d: self.d as int, n: self.n as int, at: self.at as int }
    }
}

spec fn ranks(v: Seq<Scored>) -> Seq<Ranked> {
    Seq::new(v.len(), |i: int| v[i].rank())
}

spec fn ints(v: Seq<usize>) -> Seq<int> {
    Seq::new(v.len(), |i: int| v[i] as int)
}

/// Puts a candidate where it goes.
fn place(v: &mut Vec<Scored>, c: Scored)
    ensures
        ranks(final(v)@) == ranks(old(v)@).insert(
            slot(ranks(old(v)@), c.rank()),
            c.rank(),
        ),
{
    let ghost all = ranks(v@);
    let mut i: usize = v.len();
    assert(all.take(i as int) =~= all);
    while i > 0 && !(v[i - 1].d < c.d || (v[i - 1].d == c.d && v[i - 1].n <= c.n))
        invariant
            i <= v@.len(),
            all == ranks(v@),
            slot(all, c.rank()) == slot(all.take(i as int), c.rank()),
        decreases i,
    {
        assert(all.take(i as int).drop_last() =~= all.take(i - 1));
        assert(all.take(i as int).last() == v@[i - 1].rank());
        i -= 1;
    }
    proof {
        if i > 0 {
            assert(all.take(i as int).last() == v@[i - 1].rank());
        }
    }
    v.insert(i, c);
    assert(ranks(v@) =~= all.insert(i as int, c.rank()));
}

/// The nearest of some candidates, at most `n`, where `ds` holds their distances.
pub fn rank(want: &str, pool: &Vec<String>, ds: &Vec<usize>, n: usize) -> (r: Vec<String>)
    requires
        ds@.len() == pool@.len(),
    ensures
        text::texts(r@) == nearest(
            want@,
            text::texts(pool@),
            Seq::new(ds@.len(), |i: int| ds@[i] as int),
            n as int,
        ),
{
    let ghost p = text::texts(pool@);
    let ghost q = ints(ds@);
    let mut v: Vec<Scored> = Vec::new();
    let mut i: usize = 0;
    assert(ranks(v@) =~= ranking(want@, p.take(0), q.take(0)));
    while i < pool.len()
        invariant
            i <= pool@.len(),
            p == text::texts(pool@),
            q == ints(ds@),
            ds@.len() == pool@.len(),
            ranks(v@) == ranking(want@, p.take(i as int), q.take(i as int)),
        decreases pool.len() - i,
    {
        assert(p.take(i + 1).drop_last() =~= p.take(i as int));
        assert(q.take(i + 1).drop_last() =~= q.take(i as int));
        let m: usize = pool[i].as_str().as_bytes().len();
        let w: usize = want.as_bytes().len();
        let mut top: usize = if w >= m {
            w
        } else {
            m
        };
        if top < 1 {
            top = 1;
        }
        assert(p.take(i + 1).last() == pool@[i as int]@);
        assert(q.take(i + 1).last() == ds@[i as int]);
        assert(m == text::byte_len(pool@[i as int]@));
        assert(w == text::byte_len(want@));
        if ds[i] <= top / 2 {
            place(&mut v, Scored { d: ds[i], n: m, at: i });
        }
        i += 1;
    }
    assert(p.take(pool@.len() as int) =~= p);
    assert(q.take(pool@.len() as int) =~= q);
    assert(q =~= Seq::new(ds@.len(), |k: int| ds@[k] as int));
    proof {
        law_ranking(want@, p, q);
    }
    let ghost order = ranking(want@, p, q);
    let mut out: Vec<String> = Vec::new();
    let mut k: usize = 0;
    while k < n && k < v.len()
        invariant
            k <= n,
            k <= v@.len(),
            p == text::texts(pool@),
            ranks(v@) == order,
            forall|j: int| 0 <= j < order.len() ==> 0 <= (#[trigger] order[j]).at < pool@.len(),
            text::texts(out@) == Seq::new(k as nat, |j: int| p[order[j].at]),
        decreases n - k,
    {
        assert(order[k as int].at == v@[k as int].at);
        let ghost before = text::texts(out@);
        let one = pool[v[k].at].clone();
        out.push(one);
        assert(text::texts(out@) =~= before.push(one@));
        k += 1;
        assert(text::texts(out@) =~= Seq::new(k as nat, |j: int| p[order[j].at]));
    }
    assert(text::texts(out@) =~= nearest(want@, p, q, n as int));
    out
}

/// The candidates that a wrong name may have meant, nearest first, at most `n`.
pub fn closest(want: &str, pool: &Vec<String>, n: usize) -> (r: Vec<String>)
    ensures
        text::texts(r@) == meant(want@, text::texts(pool@), n as int),
{
    let low = text::to_lowercase(want);
    let ghost p = text::texts(pool@);
    let mut ds: Vec<usize> = Vec::new();
    let mut i: usize = 0;
    while i < pool.len()
        invariant
            i <= pool@.len(),
            p == text::texts(pool@),
            low@ == text::lowercase(want@),
            ds@.len() == i,
            forall|j: int| 0 <= j < i ==> #[trigger] ds@[j] == distances(want@, p)[j],
        decreases pool.len() - i,
    {
        let c = text::to_lowercase(pool[i].as_str());
        ds.push(lev(low.as_str(), c.as_str()));
        i += 1;
    }
    assert(Seq::new(ds@.len(), |j: int| ds@[j] as int) =~= distances(want@, p));
    rank(want, pool, &ds, n)
}

/// What may have been meant is at most `n` of the candidates, and a candidate
/// that differs in case alone, if there is one, comes first.
pub proof fn law_meant(want: Seq<char>, pool: Seq<Seq<char>>, n: int)
    requires
        n > 0,
    ensures
        meant(want, pool, n).len() <= n,
        forall|i: int|
            0 <= i < meant(want, pool, n).len() ==> pool.contains(
                #[trigger] meant(want, pool, n)[i],
            ),
        forall|k: int|
            0 <= k < pool.len() && text::lowercase(#[trigger] pool[k]) == text::lowercase(want)
                ==> meant(want, pool, n).len() > 0 && text::lowercase(meant(want, pool, n)[0])
                == text::lowercase(want),
{
    let ds = distances(want, pool);
    let v = ranking(want, pool, ds);
    let m = meant(want, pool, n);
    law_ranking(want, pool, ds);
    assert forall|i: int| 0 <= i < m.len() implies pool.contains(#[trigger] m[i]) by {
        assert(m[i] == pool[v[i].at]);
    }
    assert forall|k: int|
        0 <= k < pool.len() && text::lowercase(#[trigger] pool[k]) == text::lowercase(
            want,
        ) implies m.len() > 0 && text::lowercase(m[0]) == text::lowercase(want) by {
        let low = text::lowercase(want);
        law_distance_zero(low, text::lowercase(pool[k]));
        assert(ds[k] == 0);
        assert(near(ds[k], want, pool[k]));
        let i = choose|i: int| 0 <= i < v.len() && (#[trigger] v[i]).at == k;
        if i > 0 {
            assert(not_after(v[0], v[i]));
        }
        let a = v[0].at;
        law_distance_bounded(low, text::lowercase(pool[a]));
        assert(ds[a] == 0);
        law_distance_zero(low, text::lowercase(pool[a]));
        assert(m[0] == pool[a]);
    }
}

/// What may have been meant is near, nearest first; and a near candidate is left
/// out only where there are `n` others that are no farther away.
#[verifier::spinoff_prover]
#[verifier::rlimit(60)]
pub proof fn law_meant_nearest(want: Seq<char>, pool: Seq<Seq<char>>, n: int, k: int)
    requires
        n > 0,
        0 <= k < pool.len(),
    ensures
        ({
            let m = meant(want, pool, n);
            let low = text::lowercase(want);
            let d = distance(low, text::lowercase(pool[k]));
            &&& forall|i: int, j: int|
                0 <= i < j < m.len() ==> distance(low, text::lowercase(#[trigger] m[i]))
                    <= distance(low, text::lowercase(#[trigger] m[j]))
            &&& forall|i: int|
                0 <= i < m.len() ==> 2 * distance(low, text::lowercase(#[trigger] m[i])) <= text::max2(
                    text::max2(text::byte_len(want), text::byte_len(m[i])),
                    1,
                )
            &&& 2 * d <= text::byte_len(want) && !m.contains(pool[k]) ==> m.len() == n && forall|
                i: int,
            |
                0 <= i < m.len() ==> distance(low, text::lowercase(#[trigger] m[i])) <= d
        }),
{
    let ds = distances(want, pool);
    let v = ranking(want, pool, ds);
    let m = meant(want, pool, n);
    let low = text::lowercase(want);
    law_ranking(want, pool, ds);
    assert forall|i: int| 0 <= i < m.len() implies distance(low, text::lowercase(#[trigger] m[i]))
        == v[i].d && near(v[i].d, want, m[i]) by {
        assert(m[i] == pool[v[i].at]);
        assert(ds[v[i].at] == distance(low, text::lowercase(pool[v[i].at])));
    }
    assert forall|i: int, j: int| 0 <= i < j < m.len() implies distance(
        low,
        text::lowercase(#[trigger] m[i]),
    ) <= distance(low, text::lowercase(#[trigger] m[j])) by {
        assert(not_after(v[i], v[j]));
    }
    let d = distance(low, text::lowercase(pool[k]));
    assert(ds[k] == d);
    if 2 * d <= text::byte_len(want) && !m.contains(pool[k]) {
        assert(near(ds[k], want, pool[k]));
        let at = choose|i: int| 0 <= i < v.len() && (#[trigger] v[i]).at == k;
        if at < m.len() {
            assert(m[at] == pool[k]);
        }
        assert forall|i: int| 0 <= i < m.len() implies distance(
            low,
            text::lowercase(#[trigger] m[i]),
        ) <= d by {
            assert(not_after(v[i], v[at]));
        }
    }
}

} // verus!
