//! Arithmetic on 64-bit binary floating-point numbers, done on integers.
//!
//! A number is handled as its bits, or as the quotient of two integers. Every
//! operation is rounded to 53 significant bits, to nearest with ties to even.

use vstd::arithmetic::power2::*;
use vstd::prelude::*;

verus! {

/// `n / d` rounded to the nearest integer, ties to even.
pub open spec fn nearest(n: int, d: int) -> int {
    let q = n / d;
    let r = n % d;
    if 2 * r < d {
        q
    } else if 2 * r > d {
        q + 1
    } else if q % 2 == 0 {
        q
    } else {
        q + 1
    }
}

/// The number of low bits that do not fit into 53 significant bits.
pub open spec fn excess(p: nat) -> nat
    decreases p,
{
    if p < 0x20_0000_0000_0000 {
        0
    } else {
        1 + excess(p / 2)
    }
}

pub open spec fn negative(bits: u64) -> bool {
    bits >= 0x8000_0000_0000_0000
}

pub open spec fn exponent_bits(bits: u64) -> int {
    (bits as int / 0x10_0000_0000_0000) % 2048
}

/// The integer significand.
pub open spec fn significand(bits: u64) -> int {
    let frac = bits as int % 0x10_0000_0000_0000;
    if exponent_bits(bits) == 0 {
        frac
    } else {
        frac + 0x10_0000_0000_0000
    }
}

/// The exponent of two that goes with the integer significand.
pub open spec fn exponent(bits: u64) -> int {
    if exponent_bits(bits) == 0 {
        -1074
    } else {
        exponent_bits(bits) - 1075
    }
}

/// `m * 2^e` is below `limit`.
pub open spec fn below(m: int, e: int, limit: int) -> bool {
    if e >= 0 {
        m * pow2(e as nat) < limit
    } else {
        m < limit * pow2((-e) as nat)
    }
}

/// `m * 2^e`, cut off to an integer.
pub open spec fn scaled(m: int, e: int) -> int {
    if e >= 0 {
        m * pow2(e as nat)
    } else {
        m / pow2((-e) as nat) as int
    }
}

/// The magnitude of the epoch milliseconds that a finite number stands for: as
/// seconds below 1e12, as milliseconds from there on, cut off to an integer.
pub open spec fn magnitude_ms(bits: u64) -> int {
    let m = significand(bits);
    let e = exponent(bits);
    if negative(bits) || below(m, e, 1_000_000_000_000) {
        let p = m * 1000;
        let k = excess(p as nat);
        scaled(nearest(p, pow2(k) as int), e + k)
    } else {
        scaled(m, e)
    }
}

/// The epoch milliseconds that a number stands for, where they fit 64 bits.
pub open spec fn float_ms(bits: u64) -> Option<int> {
    let t = magnitude_ms(bits);
    if exponent_bits(bits) == 2047 {
        None
    } else if negative(bits) {
        if t <= 0x8000_0000_0000_0000 {
            Some(-t)
        } else {
            None
        }
    } else if t < 0x8000_0000_0000_0000 {
        Some(t)
    } else {
        None
    }
}

/// The number is neither zero nor negative zero.
pub open spec fn nonzero(bits: u64) -> bool {
    bits != 0 && bits != 0x8000_0000_0000_0000
}

/// Whether a number differs from zero.
pub fn is_nonzero(bits: u64) -> (r: bool)
    ensures
        r == nonzero(bits),
{
    bits != 0 && bits != 0x8000_0000_0000_0000
}

fn power(k: u32) -> (r: u128)
    requires
        k < 64,
    ensures
        r == pow2(k as nat),
        1 <= r <= 0x8000_0000_0000_0000,
{
    let mut r: u128 = 1;
    let mut i: u32 = 0;
    proof {
        lemma2_to64();
        lemma2_to64_rest();
        lemma_pow2_strictly_increases(k as nat, 64);
    }
    while i < k
        invariant
            i <= k < 64,
            r == pow2(i as nat),
            pow2(63) == 0x8000_0000_0000_0000,
        decreases k - i,
    {
        proof {
            lemma_pow2_unfold((i + 1) as nat);
            if i + 1 < 63 {
                lemma_pow2_strictly_increases((i + 1) as nat, 63);
            }
        }
        r = r * 2;
        i += 1;
    }
    proof {
        if k < 63 {
            lemma_pow2_strictly_increases(k as nat, 63);
        }
        lemma_pow2_pos(k as nat);
    }
    r
}

fn round_div(n: u128, d: u128) -> (r: u128)
    requires
        0 < d < 0x1_0000_0000_0000_0000,
        n < 0x1000_0000_0000_0000_0000_0000_0000_0000,
    ensures
        r == nearest(n as int, d as int),
        r <= n / d + 1,
{
    let q: u128 = n / d;
    let m: u128 = n % d;
    assert(q <= n) by (nonlinear_arith)
        requires
            q == n / d,
            d > 0,
    ;
    if 2 * m < d {
        q
    } else if 2 * m > d {
        q + 1
    } else if q % 2 == 0 {
        q
    } else {
        q + 1
    }
}

fn excess_bits(p: u64) -> (k: u32)
    ensures
        k == excess(p as nat),
        k <= 11,
{
    let mut x: u64 = p;
    let mut k: u32 = 0;
    let ghost mut room: int = 0x1_0000_0000_0000_0000;
    while x >= 0x20_0000_0000_0000
        invariant
            excess(p as nat) == k + excess(x as nat),
            k <= 11,
            k == 0 ==> room == 0x1_0000_0000_0000_0000,
            k == 1 ==> room == 0x8000_0000_0000_0000,
            k == 2 ==> room == 0x4000_0000_0000_0000,
            k == 3 ==> room == 0x2000_0000_0000_0000,
            k == 4 ==> room == 0x1000_0000_0000_0000,
            k == 5 ==> room == 0x800_0000_0000_0000,
            k == 6 ==> room == 0x400_0000_0000_0000,
            k == 7 ==> room == 0x200_0000_0000_0000,
            k == 8 ==> room == 0x100_0000_0000_0000,
            k == 9 ==> room == 0x80_0000_0000_0000,
            k == 10 ==> room == 0x40_0000_0000_0000,
            k == 11 ==> room == 0x20_0000_0000_0000,
            x < room,
        decreases x,
    {
        x = x / 2;
        k += 1;
        proof {
            room = room / 2;
        }
    }
    k
}

proof fn lemma_pow2_at_least(k: nat)
    requires
        k >= 64,
    ensures
        pow2(k) >= 0x1_0000_0000_0000_0000,
{
    lemma2_to64_rest();
    if k > 64 {
        lemma_pow2_strictly_increases(64, k);
    }
}

fn scale(q: u64, s: i64) -> (r: Option<u128>)
    requires
        -2000 <= s <= 2000,
    ensures
        match r {
            Some(t) => t == scaled(q as int, s as int),
            None => scaled(q as int, s as int) >= 0x1_0000_0000_0000_0000,
        },
{
    if s >= 0 {
        if q == 0 {
            assert(scaled(0, s as int) == 0);
            Some(0)
        } else if s >= 64 {
            proof {
                lemma_pow2_at_least(s as nat);
                let w = pow2(s as nat) as int;
                assert(q as int * w >= w) by (nonlinear_arith)
                    requires
                        q >= 1,
                        w >= 0,
                ;
            }
            None
        } else {
            let w: u128 = power(s as u32);
            assert(q as int * w as int <= 0xffff_ffff_ffff_ffff * 0x8000_0000_0000_0000)
                by (nonlinear_arith)
                requires
                    0 <= q <= 0xffff_ffff_ffff_ffff,
                    0 <= w <= 0x8000_0000_0000_0000,
            ;
            Some(q as u128 * w)
        }
    } else {
        let n: u32 = (-s) as u32;
        if n >= 64 {
            proof {
                lemma_pow2_at_least(n as nat);
                vstd::arithmetic::div_mod::lemma_basic_div(q as int, pow2(n as nat) as int);
            }
            Some(0)
        } else {
            let w: u128 = power(n);
            Some(q as u128 / w)
        }
    }
}

fn is_below(m: u64, e: i64) -> (r: bool)
    requires
        m < 0x20_0000_0000_0000,
        -1074 <= e <= 1000,
        e >= 0 ==> m >= 0x10_0000_0000_0000,
    ensures
        r == below(m as int, e as int, 1_000_000_000_000),
{
    if e >= 0 {
        proof {
            lemma_pow2_pos(e as nat);
            let w = pow2(e as nat) as int;
            assert(m as int * w >= m) by (nonlinear_arith)
                requires
                    m >= 0,
                    w >= 1,
            ;
        }
        false
    } else {
        let n: u32 = (-e) as u32;
        if n >= 64 {
            proof {
                lemma_pow2_at_least(n as nat);
            }
            true
        } else {
            let w: u128 = power(n);
            (m as u128) < 1_000_000_000_000 * w
        }
    }
}

/// The epoch milliseconds that a number stands for: it counts seconds below
/// 1e12 and milliseconds from there on.
pub fn float_millis(bits: u64) -> (r: Option<i64>)
    ensures
        match r {
            Some(ms) => float_ms(bits) == Some(ms as int),
            None => float_ms(bits) is None,
        },
{
    let eb: u64 = (bits / 0x10_0000_0000_0000) % 2048;
    if eb == 2047 {
        return None;
    }
    let frac: u64 = bits % 0x10_0000_0000_0000;
    let m: u64 = if eb == 0 {
        frac
    } else {
        frac + 0x10_0000_0000_0000
    };
    let e: i64 = if eb == 0 {
        -1074
    } else {
        eb as i64 - 1075
    };
    let neg: bool = bits >= 0x8000_0000_0000_0000;
    let t: Option<u128> = if neg || is_below(m, e) {
        let p: u64 = m * 1000;
        let k: u32 = excess_bits(p);
        let q: u128 = round_div(p as u128, power(k));
        assert(q <= p as int + 1) by {
            let d = pow2(k as nat) as int;
            assert(p as int / d <= p) by (nonlinear_arith)
                requires
                    d >= 1,
                    p >= 0,
            ;
        }
        scale(q as u64, e + k as i64)
    } else {
        scale(m, e)
    };
    match t {
        None => None,
        Some(v) => if neg {
            if v <= 0x8000_0000_0000_0000 {
                Some((-(v as i128)) as i64)
            } else {
                None
            }
        } else if v < 0x8000_0000_0000_0000 {
            Some(v as i64)
        } else {
            None
        },
    }
}

/// The number of times that `n` is doubled to make `n / d` at least `2^52`.
pub open spec fn doublings(n: nat, d: nat) -> nat
    decreases
            if d * 0x10_0000_0000_0000 >= n {
                d * 0x10_0000_0000_0000 - n
            } else {
                0
            },
{
    if n == 0 || n >= d * 0x10_0000_0000_0000 {
        0
    } else {
        1 + doublings(2 * n, d)
    }
}

/// An integer rounded to 53 significant bits.
pub open spec fn as_float(n: nat) -> nat {
    let k = excess(n);
    (nearest(n as int, pow2(k) as int) * pow2(k)) as nat
}

/// The quotient of two numbers rounded to 53 significant bits, then rounded to
/// an integer as it is when printed without decimals.
pub open spec fn printed_quotient(n: nat, d: nat) -> int {
    let k = doublings(n, d);
    nearest(nearest((n * pow2(k)) as int, d as int), pow2(k) as int)
}

/// Rounds an integer to 53 significant bits.
pub fn to_float(n: u64) -> (r: u64)
    requires
        n < 0x8000_0000_0000_0000,
    ensures
        r == as_float(n as nat),
        r <= 0x8000_0000_0000_0000,
{
    let k: u32 = excess_bits(n);
    let w: u128 = power(k);
    let q: u128 = round_div(n as u128, w);
    proof {
        let d = w as int;
        let f = n as int / d;
        vstd::arithmetic::div_mod::lemma_fundamental_div_mod(n as int, d);
        // A power of two that divides 2^63: rounding up stays at or below it.
        lemma2_to64();
        lemma2_to64_rest();
        lemma_pow2_adds(k as nat, (63 - k) as nat);
        let top = pow2((63 - k) as nat) as int;
        assert(f < top) by (nonlinear_arith)
            requires
                n == d * f + n as int % d,
                n as int % d >= 0,
                n < d * top,
                d >= 1,
        ;
        assert(q * d <= top * d) by (nonlinear_arith)
            requires
                q <= f + 1,
                f < top,
                d >= 1,
        ;
        assert(top * d == d * top) by (nonlinear_arith);
    }
    (q * w) as u64
}

/// A quotient as it is printed without decimals.
pub fn quotient(n: u64, d: u64) -> (r: u64)
    requires
        d > 0,
        n < d * 0x20_0000_0000_0000,
    ensures
        r == printed_quotient(n as nat, d as nat),
{
    let top: u128 = d as u128 * 0x10_0000_0000_0000;
    let mut x: u128 = n as u128;
    let mut k: u32 = 0;
    proof {
        lemma2_to64();
        assert(n * pow2(0) == n);
    }
    while x > 0 && x < top
        invariant
            top == d * 0x10_0000_0000_0000,
            d > 0,
            n > 0 ==> x >= pow2(k as nat),
            x < 2 * top,
            x == n * pow2(k as nat),
            doublings(n as nat, d as nat) == k + doublings(x as nat, d as nat),
            k <= 116,
        decreases 200 - k,
    {
        proof {
            lemma_pow2_unfold((k + 1) as nat);
            let w = pow2(k as nat) as int;
            assert(n as int * (2 * w) == 2 * (n as int * w)) by (nonlinear_arith);
            assert(n == 0 ==> n as int * w == 0) by (nonlinear_arith);
            lemma2_to64();
            lemma2_to64_rest();
            lemma_pow2_adds(64, 52);
            assert(pow2(116) == 0x10_0000_0000_0000_0000_0000_0000_0000);
        }
        x = x * 2;
        k += 1;
    }
    let q: u128 = round_div(x, d as u128);
    assert(q <= 0x20_0000_0000_0000) by {
        let y = x as int;
        let e = d as int;
        assert(y / e < 0x20_0000_0000_0000) by (nonlinear_arith)
            requires
                0 <= y < e * 0x20_0000_0000_0000,
                e > 0,
        ;
    }
    if k >= 64 {
        proof {
            lemma_pow2_at_least(k as nat);
            vstd::arithmetic::div_mod::lemma_basic_div(q as int, pow2(k as nat) as int);
            vstd::arithmetic::div_mod::lemma_small_mod(q as nat, pow2(k as nat));
        }
        return 0;
    }
    let w: u128 = power(k);
    let r: u128 = round_div(q, w);
    assert(r <= q + 1) by {
        let a = q as int;
        let b = w as int;
        assert(a / b <= a) by (nonlinear_arith)
            requires
                a >= 0,
                b >= 1,
        ;
    }
    r as u64
}

// ---------------------------------------------------------------------------
// How numbers are rounded
// ---------------------------------------------------------------------------

/// A quotient is rounded to an integer that is at most a half away from it, and
/// to the even one where two are as near.
pub proof fn law_nearest(n: int, d: int)
    requires
        d > 0,
    ensures
        -d <= 2 * (n - d * nearest(n, d)) <= d,
        2 * (n - d * nearest(n, d)) == d || 2 * (n - d * nearest(n, d)) == -d ==> nearest(n, d) % 2
            == 0,
{
    let q = n / d;
    let r = n % d;
    vstd::arithmetic::div_mod::lemma_fundamental_div_mod(n, d);
    assert(d * (q + 1) == d * q + d) by (nonlinear_arith);
}

/// An integer of up to 53 bits is kept as it is.
pub proof fn law_small_integers_are_exact(n: nat)
    requires
        n < 0x20_0000_0000_0000,
    ensures
        as_float(n) == n,
{
    vstd::arithmetic::power2::lemma2_to64();
    lemma_exact(n as int, 1);
}

/// A quotient that is an integer is printed as that integer.
pub proof fn law_whole_quotient(m: nat, d: nat)
    requires
        d > 0,
    ensures
        printed_quotient(m * d, d) == m,
{
    let k = doublings(m * d, d);
    let w = pow2(k) as int;
    vstd::arithmetic::power2::lemma_pow2_pos(k);
    let x = (m * d) as int * w;
    assert(x == (m as int * w) * (d as int)) by (nonlinear_arith)
        requires
            x == (m * d) as int * w,
    ;
    lemma_exact(m as int * w, d as int);
    assert((m * d * pow2(k)) as int == x);
    lemma_exact(m as int, w);
}

proof fn lemma_exact(q: int, d: int)
    requires
        d > 0,
    ensures
        nearest(q * d, d) == q,
{
    vstd::arithmetic::div_mod::lemma_fundamental_div_mod_converse(q * d, d, q, 0);
}

/// Zero, with either sign, is no true value; every other number is one.
pub proof fn law_zero(bits: u64)
    ensures
        !nonzero(0),
        !nonzero(0x8000_0000_0000_0000),
        bits != 0 && bits != 0x8000_0000_0000_0000 ==> nonzero(bits),
{
}

/// What is no finite number stands for no time.
pub proof fn law_no_time(bits: u64)
    ensures
        exponent_bits(bits) == 2047 ==> float_ms(bits) is None,
{
}

/// A quotient is printed as an integer that is less than one away from it.
pub proof fn law_printed_near(n: nat, d: nat)
    requires
        d > 0,
    ensures
        -(d as int) <= n - d * printed_quotient(n, d) <= d,
{
    let k = doublings(n, d);
    let w = pow2(k) as int;
    lemma_pow2_pos(k);
    let a = nearest((n * pow2(k)) as int, d as int);
    let q = nearest(a, w);
    law_nearest((n * pow2(k)) as int, d as int);
    law_nearest(a, w);
    let x = n as int * w;
    assert(x == (n * pow2(k)) as int);
    let y = d as int;
    assert(-y <= n - y * q <= y) by (nonlinear_arith)
        requires
            y > 0,
            w >= 1,
            x == n * w,
            -y <= 2 * (x - y * a) <= y,
            -w <= 2 * (a - w * q) <= w,
    {
        // Both bounds, times the other's unit: 2 w (n - y q) is at most y + y w.
        assert(2 * w * (n - y * q) == 2 * (x - y * a) + y * (2 * (a - w * q)));
        assert(y * (2 * (a - w * q)) <= y * w);
        assert(y * (2 * (a - w * q)) >= -(y * w));
        assert(2 * w * (n - y * q) <= y + y * w);
        assert(2 * w * (n - y * q) >= -(y + y * w));
        assert(y + y * w <= 2 * w * y);
        assert(w * (n - y * q) <= w * y);
        assert(w * (n - y * q) >= -(w * y));
    }
}

proof fn lemma_excess_bound(p: nat, s: nat)
    requires
        p < 0x20_0000_0000_0000 * pow2(s),
    ensures
        excess(p) <= s,
    decreases s,
{
    if p >= 0x20_0000_0000_0000 {
        if s == 0 {
            lemma2_to64();
        } else {
            lemma_pow2_unfold(s);
            lemma_excess_bound(p / 2, (s - 1) as nat);
        }
    }
}

/// A whole number is read as an integer would be: as seconds where it is below a
/// trillion, and as milliseconds from there on, exactly.
#[verifier::spinoff_prover]
#[verifier::rlimit(60)]
pub proof fn law_whole_numbers_are_exact(bits: u64, v: nat, s: nat)
    requires
        !negative(bits),
        exponent_bits(bits) != 2047,
        exponent(bits) == -(s as int),
        significand(bits) == v * pow2(s),
    ensures
        v < 1_000_000_000_000 ==> float_ms(bits) == Some((1000 * v) as int),
        1_000_000_000_000 <= v < 0x8000_0000_0000_0000 ==> float_ms(bits) == Some(v as int),
{
    let w = pow2(s) as int;
    let m = significand(bits);
    lemma_pow2_pos(s);
    if s == 0 {
        lemma2_to64();
    }
    assert(below(m, -(s as int), 1_000_000_000_000) <==> v < 1_000_000_000_000) by {
        assert(v as int * w < 1_000_000_000_000 * w <==> v < 1_000_000_000_000)
            by (nonlinear_arith)
            requires
                w >= 1,
        ;
    }
    if v < 1_000_000_000_000 {
        let p = m * 1000;
        let k = excess(p as nat);
        assert(p == (1000 * v) * w) by (nonlinear_arith)
            requires
                p == m * 1000,
                m == v * w,
        ;
        assert(p < 0x20_0000_0000_0000 * w) by (nonlinear_arith)
            requires
                p == (1000 * v) * w,
                v < 1_000_000_000_000,
                w >= 1,
        ;
        lemma_excess_bound(p as nat, s);
        let a = pow2(k) as int;
        let t = (s - k) as nat;
        let b = pow2(t) as int;
        lemma_pow2_pos(k);
        lemma_pow2_pos(t);
        lemma_pow2_adds(t, k);
        assert(p == (1000 * v * b) * a) by (nonlinear_arith)
            requires
                p == (1000 * v) * w,
                w == b * a,
        ;
        lemma_exact(1000 * v * b, a);
        assert(nearest(p, a) == 1000 * v * b);
        let e = -(s as int) + k as int;
        if t == 0 {
            lemma2_to64();
            assert(scaled(1000 * v * b, e) == 1000 * v) by {
                assert(b == 1);
                assert(pow2(0) == 1);
            }
        } else {
            assert((-e) as nat == t);
            vstd::arithmetic::div_mod::lemma_fundamental_div_mod_converse(
                1000 * v * b,
                b,
                (1000 * v) as int,
                0,
            );
        }
    } else if v < 0x8000_0000_0000_0000 {
        if s > 0 {
            vstd::arithmetic::div_mod::lemma_fundamental_div_mod_converse(m, w, v as int, 0);
            assert(scaled(m, -(s as int)) == m / w);
        } else {
            assert(w == 1);
            assert(m == v) by (nonlinear_arith)
                requires
                    m == v * w,
                    w == 1,
            ;
            assert(scaled(m, 0) == m * 1);
        }
        assert(magnitude_ms(bits) == v);
    }
}

/// A number below zero is as far before the epoch as its counterpart is behind it.
pub proof fn law_sign(a: u64, b: u64)
    requires
        !negative(a),
        b == a + 0x8000_0000_0000_0000,
        below(significand(a), exponent(a), 1_000_000_000_000),
    ensures
        float_ms(a) matches Some(t) ==> float_ms(b) == Some(-t),
{
    assert(b as int / 0x10_0000_0000_0000 == a as int / 0x10_0000_0000_0000 + 2048);
    assert(exponent_bits(b) == exponent_bits(a));
    assert(b as int % 0x10_0000_0000_0000 == a as int % 0x10_0000_0000_0000);
}

} // verus!
