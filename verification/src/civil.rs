//! Calendar dates and epoch milliseconds.
//!
//! Dates are those of the proleptic Gregorian calendar, in UTC.

use crate::text;
use vstd::prelude::*;
use vstd::string::*;

verus! {

/// The day number of a date whose year starts in March: `y` is that year, `mp`
/// the months since March and `d` the day of the month. 1970-01-01 is day 0.
pub open spec fn march_day(y: int, mp: int, d: int) -> int {
    let era = y / 400;
    let yoe = y % 400;
    let doy = month_start(mp) + d - 1;
    era * 146097 + yoe * 365 + yoe / 4 - yoe / 100 + doy - 719468
}

/// The days from the first of March to the first of a month. Months beyond a
/// year count on in either direction, cut off toward March.
pub open spec fn month_start(mp: int) -> int {
    let n = 153 * mp + 2;
    if n >= 0 {
        n / 5
    } else {
        -((-n) / 5)
    }
}

/// The year, starting in March, that a month of a year belongs to.
pub open spec fn march_year(y: int, mo: int) -> int {
    if mo <= 2 {
        y - 1
    } else {
        y
    }
}

/// The months since March.
pub open spec fn months_since_march(mo: int) -> int {
    if mo > 2 {
        mo - 3
    } else {
        mo + 9
    }
}

/// The number of days from 1970-01-01 to a date.
pub open spec fn day_number(y: int, mo: int, d: int) -> int {
    march_day(march_year(y, mo), months_since_march(mo), d)
}

pub open spec fn leap(y: int) -> bool {
    y % 4 == 0 && (y % 100 != 0 || y % 400 == 0)
}

pub open spec fn month_len(y: int, mo: int) -> int {
    if mo == 2 {
        if leap(y) {
            29
        } else {
            28
        }
    } else if mo == 4 || mo == 6 || mo == 9 || mo == 11 {
        30
    } else {
        31
    }
}

pub open spec fn valid_date(y: int, mo: int, d: int) -> bool {
    1 <= mo <= 12 && 1 <= d <= month_len(y, mo)
}

/// The date after a date.
pub open spec fn next_date(y: int, mo: int, d: int) -> (int, int, int) {
    if d < month_len(y, mo) {
        (y, mo, d + 1)
    } else if mo < 12 {
        (y, mo + 1, 1)
    } else {
        (y + 1, 1, 1)
    }
}

/// Day 0 is the first of January 1970.
pub proof fn law_epoch()
    ensures
        day_number(1970, 1, 1) == 0,
{
}

proof fn lemma_leap_cycle(era: int, n: int)
    ensures
        leap(400 * era + n) == leap(n),
{
    assert((400 * era + n) % 4 == n % 4);
    assert((400 * era + n) % 100 == n % 100);
    assert((400 * era + n) % 400 == n % 400);
}

proof fn lemma_year_step(y: int)
    ensures
        march_day(y + 1, 0, 1) == march_day(y, 11, 1) + (if leap(y + 1) {
            29int
        } else {
            28int
        }),
{
    let era = y / 400;
    let yoe = y % 400;
    lemma_leap_cycle(era, yoe + 1);
    assert(y + 1 == 400 * era + (yoe + 1));
    if yoe < 399 {
        assert((y + 1) / 400 == era && (y + 1) % 400 == yoe + 1);
        assert((yoe + 1) % 400 != 0);
        assert((yoe + 1) / 4 == yoe / 4 + (if (yoe + 1) % 4 == 0 { 1int } else { 0int }));
        assert((yoe + 1) / 100 == yoe / 100 + (if (yoe + 1) % 100 == 0 { 1int } else { 0int }));
        assert((yoe + 1) % 100 == 0 ==> (yoe + 1) % 4 == 0);
    } else {
        assert((y + 1) / 400 == era + 1 && (y + 1) % 400 == 0);
    }
}

/// Each date's day number is one more than that of the date before it.
/// With day 0 this fixes the day number of every date.
pub proof fn law_next_day(y: int, mo: int, d: int)
    requires
        valid_date(y, mo, d),
    ensures
        ({
            let (y2, mo2, d2) = next_date(y, mo, d);
            valid_date(y2, mo2, d2) && day_number(y2, mo2, d2) == day_number(y, mo, d) + 1
        }),
{
    if d == month_len(y, mo) && mo == 2 {
        lemma_year_step(y - 1);
    }
}

/// The year of the era, from the day of the era.
pub open spec fn year_of_era(doe: int) -> int {
    (doe - doe / 1460 + doe / 36524 - doe / 146096) / 365
}

/// The date of a day number.
pub open spec fn civil(z: int) -> (int, int, int) {
    let era = (z + 719468) / 146097;
    let doe = (z + 719468) % 146097;
    let yoe = year_of_era(doe);
    let doy = doe - (365 * yoe + yoe / 4 - yoe / 100);
    let mp = (5 * doy + 2) / 153;
    let d = doy - (153 * mp + 2) / 5 + 1;
    let m = if mp < 10 {
        mp + 3
    } else {
        mp - 9
    };
    let y = yoe + era * 400;
    (if m <= 2 {
        y + 1
    } else {
        y
    }, m, d)
}

proof fn lemma_year_of_era(doe: int)
    requires
        0 <= doe < 146097,
    ensures
        ({
            let yoe = year_of_era(doe);
            let doy = doe - (365 * yoe + yoe / 4 - yoe / 100);
            &&& 0 <= yoe <= 399
            &&& 0 <= doy <= 365
            &&& doy == 365 ==> leap(yoe + 1)
        }),
{
    // The year of the era is found within its century, and within that in its
    // run of four years.
    let c = if doe == 146096 { 3 } else { doe / 36524 };
    let doc = doe - c * 36524;
    assert(0 <= c <= 3);
    let f = if doc == 36524 { 24 } else { doc / 1461 };
    assert(0 <= f <= 24);
    let dof = doc - f * 1461;
    let k = if dof >= 1460 { 3 } else { dof / 365 };
    assert(0 <= k <= 3);
    assert(year_of_era(doe) == c * 100 + f * 4 + k);
}

/// A day number and its date determine each other.
pub proof fn law_civil_inverse(z: int)
    ensures
        ({
            let (y, mo, d) = civil(z);
            valid_date(y, mo, d) && day_number(y, mo, d) == z
        }),
{
    let era = (z + 719468) / 146097;
    let doe = (z + 719468) % 146097;
    lemma_year_of_era(doe);
    let yoe = year_of_era(doe);
    let doy = doe - (365 * yoe + yoe / 4 - yoe / 100);
    let mp = (5 * doy + 2) / 153;
    assert(0 <= mp <= 11);
    let y = yoe + era * 400;
    assert(y / 400 == era && y % 400 == yoe);
    assert(leap(y + 1) == leap(yoe + 1));
}

proof fn lemma_era_year(yoe: int, doy: int)
    requires
        0 <= yoe <= 399,
        0 <= doy <= 365,
        doy == 365 ==> leap(yoe + 1),
    ensures
        ({
            let doe = 365 * yoe + yoe / 4 - yoe / 100 + doy;
            0 <= doe < 146097 && year_of_era(doe) == yoe
        }),
{
    let doe = 365 * yoe + yoe / 4 - yoe / 100 + doy;
    let c = yoe / 100;
    let f = (yoe % 100) / 4;
    let k = yoe % 4;
    assert(yoe == c * 100 + f * 4 + k && 0 <= c <= 3 && 0 <= f <= 24 && 0 <= k <= 3);
    assert(doe == c * 36524 + f * 1461 + k * 365 + doy);
    assert(leap(yoe + 1) ==> k == 3 && (f < 24 || c == 3));
    lemma_year_of_era(doe);
}

/// The date of a date's day number is that date.
pub proof fn law_date_inverse(y: int, mo: int, d: int)
    requires
        valid_date(y, mo, d),
    ensures
        civil(day_number(y, mo, d)) == (y, mo, d),
{
    let my = march_year(y, mo);
    let mp = months_since_march(mo);
    let era = my / 400;
    let yoe = my % 400;
    let doy = (153 * mp + 2) / 5 + d - 1;
    lemma_leap_cycle(era, yoe + 1);
    assert(my + 1 == 400 * era + (yoe + 1));
    lemma_era_year(yoe, doy);
    let doe = 365 * yoe + yoe / 4 - yoe / 100 + doy;
    let z = day_number(y, mo, d);
    assert((z + 719468) / 146097 == era && (z + 719468) % 146097 == doe);
    assert((5 * doy + 2) / 153 == mp);
}

/// The number of a day, after Howard Hinnant. Years before 0 count on backward.
#[verifier::spinoff_prover]
#[verifier::rlimit(60)]
pub fn days_from_civil(y: i64, mo: i64, d: i64) -> (r: i64)
    requires
        i64::MIN <= day_number(y as int, mo as int, d as int) <= i64::MAX,
    ensures
        r == day_number(y as int, mo as int, d as int),
{
    let my: i128 = if mo <= 2 {
        y as i128 - 1
    } else {
        y as i128
    };
    let mp: i128 = if mo > 2 {
        mo as i128 - 3
    } else {
        mo as i128 + 9
    };
    let era: i128 = if my >= 0 {
        my / 400
    } else {
        -((-my - 1) / 400) - 1
    };
    let yoe: i128 = my - era * 400;
    let n: i128 = 153 * mp + 2;
    let start: i128 = if n >= 0 {
        n / 5
    } else {
        -((-n) / 5)
    };
    let doe: i128 = yoe * 365 + yoe / 4 - yoe / 100 + start + d as i128 - 1;
    (era * 146097 + doe - 719468) as i64
}

/// Floored division by a positive number.
fn floor_div(a: i64, b: i64) -> (r: i64)
    requires
        b > 0,
    ensures
        r == a as int / b as int,
{
    if a >= 0 {
        a / b
    } else {
        let m: i128 = -(a as i128) - 1;
        let q: i128 = m / (b as i128);
        proof {
            let ai = a as int;
            let bi = b as int;
            let qi = m as int / bi;
            let ri = m as int % bi;
            vstd::arithmetic::div_mod::lemma_fundamental_div_mod(m as int, bi);
            vstd::arithmetic::div_mod::lemma_div_pos_is_pos(m as int, bi);
            assert(qi <= m) by (nonlinear_arith)
                requires
                    qi == m as int / bi,
                    bi > 0,
                    m >= 0,
            ;
            assert(ai == bi * (-qi - 1) + (bi - 1 - ri)) by (nonlinear_arith)
                requires
                    m == bi * qi + ri,
                    m == -ai - 1,
            ;
            vstd::arithmetic::div_mod::lemma_fundamental_div_mod_converse(
                ai,
                bi,
                -qi - 1,
                bi - 1 - ri,
            );
        }
        (-q - 1) as i64
    }
}

/// The date of a day number.
pub fn civil_from_days(z: i64) -> (r: (i64, i64, i64))
    requires
        z <= i64::MAX - 719468,
    ensures
        (r.0 as int, r.1 as int, r.2 as int) == civil(z as int),
        valid_date(r.0 as int, r.1 as int, r.2 as int),
        day_number(r.0 as int, r.1 as int, r.2 as int) == z,
{
    let zz: i64 = z + 719468;
    let era: i64 = floor_div(zz, 146097);
    let doe: i64 = zz - era * 146097;
    proof {
        lemma_year_of_era(doe as int);
        law_civil_inverse(z as int);
    }
    let yoe: i64 = (doe - doe / 1460 + doe / 36524 - doe / 146096) / 365;
    let y: i64 = yoe + era * 400;
    let doy: i64 = doe - (365 * yoe + yoe / 4 - yoe / 100);
    let mp: i64 = (5 * doy + 2) / 153;
    let d: i64 = doy - (153 * mp + 2) / 5 + 1;
    let m: i64 = if mp < 10 {
        mp + 3
    } else {
        mp - 9
    };
    (if m <= 2 {
        y + 1
    } else {
        y
    }, m, d)
}

/// `n` zeros.
pub open spec fn zeros(n: int) -> Seq<char> {
    Seq::new(
        if n > 0 {
            n as nat
        } else {
            0
        },
        |i: int| '0',
    )
}

/// An integer padded with zeros to a width, in which a sign counts.
pub open spec fn padded(i: int, width: int) -> Seq<char> {
    if i < 0 {
        let s = text::dec((-i) as nat);
        seq!['-'] + zeros(width - 1 - s.len()) + s
    } else {
        let s = text::dec(i as nat);
        zeros(width - s.len()) + s
    }
}

fn push_zeros(out: &mut String, len: usize, width: usize)
    ensures
        final(out)@ == old(out)@ + zeros(width - len),
{
    let mut k: usize = len;
    assert(old(out)@ + zeros(0) == old(out)@);
    while k < width
        invariant
            out@ == old(out)@ + zeros(k - len),
            len <= width ==> len <= k <= width,
            len > width ==> k == len,
        decreases width - k,
    {
        out.push('0');
        assert(zeros(k + 1 - len) == zeros(k - len).push('0'));
        k += 1;
    }
    assert(len > width ==> zeros(width - len) == zeros(0));
}

/// Appends an integer padded with zeros.
pub fn push_padded(out: &mut String, i: i64, width: usize)
    ensures
        final(out)@ == old(out)@ + padded(i as int, width as int),
{
    let mut s = String::new();
    if i < 0 {
        let m: u64 = (-(i as i128)) as u64;
        text::push_u64(&mut s, m);
        assert(s@ == text::dec(m as nat));
        let n = s.as_str().unicode_len();
        out.push('-');
        if width > 0 {
            push_zeros(out, n, width - 1);
        } else {
            assert(zeros(width - 1 - n) == Seq::<char>::empty());
        }
        out.append(s.as_str());
        assert(out@ == old(out)@ + padded(i as int, width as int));
    } else {
        text::push_u64(&mut s, i as u64);
        assert(s@ == text::dec(i as nat));
        let n = s.as_str().unicode_len();
        push_zeros(out, n, width);
        out.append(s.as_str());
        assert(out@ == old(out)@ + padded(i as int, width as int));
    }
}

/// The second an epoch time in milliseconds falls in, cut off toward zero.
pub open spec fn whole_seconds(ms: int) -> int {
    if ms >= 0 {
        ms / 1000
    } else {
        -((-ms) / 1000)
    }
}

/// `YYYY-MM-DD HH:MM` of an epoch time in milliseconds.
pub open spec fn timestamp(ms: int) -> Seq<char> {
    let secs = whole_seconds(ms);
    let (y, mo, d) = civil(secs / 86400);
    let tod = secs % 86400;
    padded(y, 4) + "-"@ + padded(mo, 2) + "-"@ + padded(d, 2) + " "@ + padded(tod / 3600, 2) + ":"@
        + padded((tod % 3600) / 60, 2)
}

/// Formats an epoch time in milliseconds, without a time zone.
pub fn fmt_ts(ms: i64) -> (r: String)
    ensures
        r@ == timestamp(ms as int),
{
    let secs: i64 = if ms >= 0 {
        ms / 1000
    } else {
        let m: i128 = -(ms as i128);
        (-(m / 1000)) as i64
    };
    assert(secs == whole_seconds(ms as int));
    let days: i64 = floor_div(secs, 86400);
    let tod: i64 = secs - days * 86400;
    let (y, mo, d) = civil_from_days(days);
    let mut out = String::new();
    push_padded(&mut out, y, 4);
    out.append("-");
    push_padded(&mut out, mo, 2);
    out.append("-");
    push_padded(&mut out, d, 2);
    out.append(" ");
    push_padded(&mut out, tod / 3600, 2);
    out.append(":");
    push_padded(&mut out, (tod % 3600) / 60, 2);
    assert(Seq::<char>::empty() + padded(y as int, 4) == padded(y as int, 4));
    out
}

// ---------------------------------------------------------------------------
// Reading timestamps
// ---------------------------------------------------------------------------

pub open spec fn is_digit(b: u8) -> bool {
    48 <= b <= 57
}

/// The two digits at `at`.
pub open spec fn two_at(b: Seq<u8>, at: int) -> int {
    (b[at] - 48) * 10 + (b[at + 1] - 48)
}

/// The bytes start with `YYYY-MM-DD`, then `T` or a space, then `HH:MM:SS`.
pub open spec fn has_date_time(b: Seq<u8>) -> bool {
    &&& b.len() >= 19
    &&& is_digit(b[0]) && is_digit(b[1]) && is_digit(b[2]) && is_digit(b[3])
    &&& b[4] == 45
    &&& is_digit(b[5]) && is_digit(b[6])
    &&& b[7] == 45
    &&& is_digit(b[8]) && is_digit(b[9])
    &&& (b[10] == 84 || b[10] == 32)
    &&& is_digit(b[11]) && is_digit(b[12])
    &&& b[13] == 58
    &&& is_digit(b[14]) && is_digit(b[15])
    &&& b[16] == 58
    &&& is_digit(b[17]) && is_digit(b[18])
}

/// The milliseconds of the fraction: its first three digits, where a digit
/// that is not there counts as zero.
pub open spec fn fraction_ms(b: Seq<u8>) -> int {
    if b.len() > 20 && b[19] == 46 && is_digit(b[20]) {
        (b[20] - 48) * 100 + (if b.len() > 21 && is_digit(b[21]) {
            (b[21] - 48) * 10 + (if b.len() > 22 && is_digit(b[22]) {
                b[22] - 48
            } else {
                0
            })
        } else {
            0
        })
    } else {
        0
    }
}

/// The epoch milliseconds of a date and a time of day.
pub open spec fn epoch_ms(days: int, h: int, mi: int, sec: int) -> int {
    (((days * 24 + h) * 60 + mi) * 60 + sec) * 1000
}

/// The epoch milliseconds that a timestamp denotes; what follows the seconds
/// and their fraction is not looked at.
pub open spec fn timestamp_ms(b: Seq<u8>) -> Option<int> {
    if has_date_time(b) {
        let y = two_at(b, 0) * 100 + two_at(b, 2);
        let days = day_number(y, two_at(b, 5), two_at(b, 8));
        Some(epoch_ms(days, two_at(b, 11), two_at(b, 14), two_at(b, 17)) + fraction_ms(b))
    } else {
        None
    }
}

fn digit(b: &[u8], at: usize) -> (r: Option<i64>)
    requires
        at < b.len(),
    ensures
        r is Some <==> is_digit(b@[at as int]),
        r matches Some(d) ==> d == b@[at as int] - 48 && 0 <= d <= 9,
{
    if b[at] >= 48 && b[at] <= 57 {
        Some((b[at] - 48) as i64)
    } else {
        None
    }
}

fn two(b: &[u8], at: usize) -> (r: Option<i64>)
    requires
        at + 1 < b.len(),
    ensures
        r is Some <==> is_digit(b@[at as int]) && is_digit(b@[at + 1]),
        r matches Some(d) ==> d == two_at(b@, at as int) && 0 <= d <= 99,
{
    let a: i64 = digit(b, at)?;
    let c: i64 = digit(b, at + 1)?;
    Some(a * 10 + c)
}

fn fraction(b: &[u8]) -> (r: i64)
    ensures
        r == fraction_ms(b@),
        0 <= r <= 999,
{
    if b.len() <= 20 || b[19] != 46 {
        return 0;
    }
    let mut f: i64 = match digit(b, 20) {
        Some(d) => d * 100,
        None => return 0,
    };
    if b.len() > 21 {
        match digit(b, 21) {
            Some(d) => {
                f += d * 10;
                if b.len() > 22 {
                    match digit(b, 22) {
                        Some(e) => {
                            f += e;
                        },
                        None => {},
                    }
                }
            },
            None => {},
        }
    }
    f
}

/// Reads `YYYY-MM-DD[T ]HH:MM:SS(.frac)?`, ASCII digits only.
pub fn parse_ts_str(s: &str) -> (r: Option<i64>)
    ensures
        match r {
            Some(ms) => timestamp_ms(s.spec_bytes()) == Some(ms as int),
            None => timestamp_ms(s.spec_bytes()) is None,
        },
{
    let b = s.as_bytes();
    if b.len() < 19 {
        return None;
    }
    let century: i64 = two(b, 0)?;
    let year: i64 = two(b, 2)?;
    if b[4] != 45 {
        return None;
    }
    let mo: i64 = two(b, 5)?;
    if b[7] != 45 {
        return None;
    }
    let d: i64 = two(b, 8)?;
    if b[10] != 84 && b[10] != 32 {
        return None;
    }
    let h: i64 = two(b, 11)?;
    if b[13] != 58 {
        return None;
    }
    let mi: i64 = two(b, 14)?;
    if b[16] != 58 {
        return None;
    }
    let sec: i64 = two(b, 17)?;
    let days: i64 = days_from_civil(century * 100 + year, mo, d);
    let ms: i64 = (((days * 24 + h) * 60 + mi) * 60 + sec) * 1000;
    Some(ms + fraction(b))
}

/// Bytes, each taken as the character of its number.
pub open spec fn latin(b: Seq<u8>) -> Seq<char> {
    b.map_values(|x: u8| x as char)
}

/// The integer written in the bytes from `a` to `z`.
pub open spec fn int_at(b: Seq<u8>, a: int, z: int) -> Option<int> {
    text::parse_signed(latin(b.subrange(a, z)))
}

/// The epoch milliseconds of an RFC 3339 time in UTC. The separators are not
/// looked at, and a month is counted modulo twelve from March.
pub open spec fn rfc3339_ms(b: Seq<u8>) -> Option<int> {
    if b.len() < 19 {
        None
    } else {
        match (
            int_at(b, 0, 4),
            int_at(b, 5, 7),
            int_at(b, 8, 10),
            int_at(b, 11, 13),
            int_at(b, 14, 16),
            int_at(b, 17, 19),
        ) {
            (Some(y), Some(mo), Some(d), Some(h), Some(mi), Some(sec)) => {
                let days = march_day(march_year(y, mo), (mo + 9) % 12, d);
                let ms = if b.len() >= 23 && b[19] == 46 {
                    match int_at(b, 20, 23) {
                        Some(f) => f,
                        None => 0,
                    }
                } else {
                    0
                };
                Some(epoch_ms(days, h, mi, sec) + ms)
            },
            _ => None,
        }
    }
}

proof fn lemma_value_bound(s: Seq<char>, w: nat)
    requires
        text::all_digits(s),
        s.len() <= w,
    ensures
        text::value(s) < vstd::arithmetic::power::pow(10, w),
    decreases s.len(),
{
    vstd::arithmetic::power::lemma_pow_positive(10, w);
    if s.len() > 0 {
        lemma_value_bound(s.drop_last(), (w - 1) as nat);
        assert(text::is_digit(s.last()));
        vstd::arithmetic::power::lemma_pow_adds(10, 1, (w - 1) as nat);
        vstd::arithmetic::power::lemma_pow1(10);
        assert(vstd::arithmetic::power::pow(10, w) == 10 * vstd::arithmetic::power::pow(
            10,
            (w - 1) as nat,
        ));
    }
}

proof fn lemma_signed_bound(s: Seq<char>)
    requires
        s.len() <= 4,
    ensures
        text::parse_signed(s) matches Some(n) ==> -9999 <= n <= 9999,
        s.len() <= 3 ==> (text::parse_signed(s) matches Some(n) ==> -999 <= n <= 999),
        s.len() <= 2 ==> (text::parse_signed(s) matches Some(n) ==> -9 <= n <= 99),
{
    reveal_with_fuel(vstd::arithmetic::power::pow, 5);
    let t = s.drop_first();
    if text::all_digits(s) {
        lemma_value_bound(s, s.len());
    }
    if s.len() > 0 && text::all_digits(t) {
        lemma_value_bound(t, t.len());
    }
}

fn read_at(b: &[u8], a: usize, z: usize) -> (r: Option<i64>)
    requires
        a <= z <= b.len(),
        z - a <= 4,
    ensures
        match r {
            Some(n) => int_at(b@, a as int, z as int) == Some(n as int) && -9999 <= n <= 9999 && (z
                - a <= 3 ==> -999 <= n <= 999) && (z - a <= 2 ==> -9 <= n <= 99),
            None => int_at(b@, a as int, z as int) is None,
        },
{
    let mut v: Vec<char> = Vec::new();
    let mut i: usize = a;
    while i < z
        invariant
            a <= i <= z <= b.len(),
            v@ == latin(b@.subrange(a as int, i as int)),
        decreases z - i,
    {
        v.push(b[i] as char);
        assert(v@ == latin(b@.subrange(a as int, i + 1)));
        i += 1;
    }
    proof {
        lemma_signed_bound(v@);
    }
    text::read_i64(&v)
}

/// The day number of a date whose month is counted modulo twelve from March.
fn days_modulo(y: i64, mo: i64, d: i64) -> (r: i64)
    requires
        -9999 <= y <= 9999,
        -9 <= mo <= 99,
        -9 <= d <= 99,
    ensures
        r == march_day(march_year(y as int, mo as int), (mo + 9) % 12, d as int),
        -10_000_000 <= r <= 10_000_000,
{
    let my: i64 = if mo <= 2 {
        y - 1
    } else {
        y
    };
    let era: i64 = floor_div(my, 400);
    let yoe: i64 = my - era * 400;
    let mp: i64 = (mo + 9) % 12;
    let doy: i64 = (153 * mp + 2) / 5 + d - 1;
    let doe: i64 = yoe * 365 + yoe / 4 - yoe / 100 + doy;
    era * 146097 + doe - 719468
}

/// `2026-03-09T05:10:50.882Z` to epoch milliseconds.
pub fn iso_ms(s: &str) -> (r: Option<i64>)
    ensures
        match r {
            Some(ms) => rfc3339_ms(s.spec_bytes()) == Some(ms as int),
            None => rfc3339_ms(s.spec_bytes()) is None,
        },
{
    let b = s.as_bytes();
    if b.len() < 19 {
        return None;
    }
    let y: i64 = read_at(b, 0, 4)?;
    let mo: i64 = read_at(b, 5, 7)?;
    let d: i64 = read_at(b, 8, 10)?;
    let h: i64 = read_at(b, 11, 13)?;
    let mi: i64 = read_at(b, 14, 16)?;
    let sec: i64 = read_at(b, 17, 19)?;
    let ms: i64 = if b.len() >= 23 && b[19] == 46 {
        match read_at(b, 20, 23) {
            Some(f) => f,
            None => 0,
        }
    } else {
        0
    };
    let days: i64 = days_modulo(y, mo, d);
    Some((((days * 24 + h) * 60 + mi) * 60 + sec) * 1000 + ms)
}

/// A time, or nothing.
pub open spec fn when(ts: Option<i64>) -> Seq<char> {
    match ts {
        Some(t) => timestamp(t as int),
        None => Seq::empty(),
    }
}

/// A time, or nothing.
pub fn when_text(ts: Option<i64>) -> (r: String)
    ensures
        r@ == when(ts),
{
    match ts {
        Some(t) => fmt_ts(t),
        None => {
            let s = String::new();
            assert(s@ =~= Seq::empty());
            s
        },
    }
}

// ---------------------------------------------------------------------------
// Times that are written and read
// ---------------------------------------------------------------------------

/// What a padded number is written with.
proof fn lemma_padded_plain(i: int, width: int, c: char)
    requires
        !text::is_digit(c),
        c != '-',
    ensures
        text::free_of(padded(i, width), c),
{
    if i < 0 {
        text::lemma_dec_plain((-i) as nat, c);
        let s = text::dec((-i) as nat);
        text::lemma_free_concat(seq!['-'], zeros(width - 1 - s.len()), c);
        text::lemma_free_concat(seq!['-'] + zeros(width - 1 - s.len()), s, c);
    } else {
        text::lemma_dec_plain(i as nat, c);
        let s = text::dec(i as nat);
        text::lemma_free_concat(zeros(width - s.len()), s, c);
    }
}

/// What a time is written with.
pub proof fn lemma_when_plain(ts: Option<i64>, c: char)
    requires
        !text::is_digit(c),
        c != '-' && c != ' ' && c != ':',
    ensures
        text::free_of(when(ts), c),
{
    match ts {
        Some(t) => {
            reveal_strlit("-");
            reveal_strlit(" ");
            reveal_strlit(":");
            let secs = whole_seconds(t as int);
            let (y, mo, d) = civil(secs / 86400);
            let tod = secs % 86400;
            lemma_padded_plain(y, 4, c);
            lemma_padded_plain(mo, 2, c);
            lemma_padded_plain(d, 2, c);
            lemma_padded_plain(tod / 3600, 2, c);
            lemma_padded_plain((tod % 3600) / 60, 2, c);
            let a = padded(y, 4) + "-"@;
            text::lemma_free_concat(padded(y, 4), "-"@, c);
            text::lemma_free_concat(a, padded(mo, 2), c);
            text::lemma_free_concat(a + padded(mo, 2), "-"@, c);
            let b = a + padded(mo, 2) + "-"@;
            text::lemma_free_concat(b, padded(d, 2), c);
            text::lemma_free_concat(b + padded(d, 2), " "@, c);
            let e = b + padded(d, 2) + " "@;
            text::lemma_free_concat(e, padded(tod / 3600, 2), c);
            text::lemma_free_concat(e + padded(tod / 3600, 2), ":"@, c);
            text::lemma_free_concat(
                e + padded(tod / 3600, 2) + ":"@,
                padded((tod % 3600) / 60, 2),
                c,
            );
        },
        None => {},
    }
}

/// A number of two digits, padded.
proof fn lemma_two_digits(n: int)
    requires
        0 <= n <= 99,
    ensures
        padded(n, 2) == seq![text::digit(n / 10), text::digit(n % 10)],
{
    reveal_with_fuel(text::dec, 2);
    if n < 10 {
        assert(zeros(1) =~= seq!['0']);
        assert(text::digit(0) == '0');
        assert(padded(n, 2) =~= seq![text::digit(0), text::digit(n)]);
    } else {
        assert(text::dec(n as nat) =~= seq![text::digit(n / 10), text::digit(n % 10)]);
        assert(padded(n, 2) =~= text::dec(n as nat));
    }
}

/// A number of four digits, padded.
proof fn lemma_four_digits(n: int)
    requires
        0 <= n <= 9999,
    ensures
        padded(n, 4) == seq![
            text::digit(n / 1000),
            text::digit(n / 100 % 10),
            text::digit(n / 10 % 10),
            text::digit(n % 10),
        ],
{
    reveal_with_fuel(text::dec, 4);
    let m = n as nat;
    assert(text::digit(0) == '0');
    assert(m / 10 / 10 == m / 100 && m / 100 / 10 == m / 1000);
    if n < 10 {
        assert(text::dec(m) =~= seq![text::digit(n)]);
    } else if n < 100 {
        assert(text::dec(m) =~= seq![text::digit(n / 10), text::digit(n % 10)]);
    } else if n < 1000 {
        assert(text::dec(m) =~= seq![
            text::digit(n / 100),
            text::digit(n / 10 % 10),
            text::digit(n % 10),
        ]);
    } else {
        assert(text::dec(m) =~= seq![
            text::digit(n / 1000),
            text::digit(n / 100 % 10),
            text::digit(n / 10 % 10),
            text::digit(n % 10),
        ]);
    }
    assert(padded(n, 4) =~= seq![
        text::digit(n / 1000),
        text::digit(n / 100 % 10),
        text::digit(n / 10 % 10),
        text::digit(n % 10),
    ]);
}

/// The bytes of a written time, seconds included.
proof fn lemma_written(y: int, mo: int, d: int, h: int, mi: int)
    requires
        0 <= y <= 9999,
        0 <= mo <= 99,
        0 <= d <= 99,
        0 <= h <= 99,
        0 <= mi <= 99,
    ensures
        ({
            let s = padded(y, 4) + "-"@ + padded(mo, 2) + "-"@ + padded(d, 2) + " "@ + padded(h, 2)
                + ":"@ + padded(mi, 2);
            let b = vstd::utf8::encode_utf8(s + ":00"@);
            &&& s.len() == 16
            &&& has_date_time(b)
            &&& two_at(b, 0) * 100 + two_at(b, 2) == y
            &&& two_at(b, 5) == mo
            &&& two_at(b, 8) == d
            &&& two_at(b, 11) == h
            &&& two_at(b, 14) == mi
            &&& two_at(b, 17) == 0
            &&& b.len() == 19
        }),
{
    let s = padded(y, 4) + "-"@ + padded(mo, 2) + "-"@ + padded(d, 2) + " "@ + padded(h, 2) + ":"@
        + padded(mi, 2);
    lemma_four_digits(y);
    lemma_two_digits(mo);
    lemma_two_digits(d);
    lemma_two_digits(h);
    lemma_two_digits(mi);
    reveal_strlit("-");
    reveal_strlit(" ");
    reveal_strlit(":");
    reveal_strlit(":00");
    let t = seq![
        text::digit(y / 1000),
        text::digit(y / 100 % 10),
        text::digit(y / 10 % 10),
        text::digit(y % 10),
        '-',
        text::digit(mo / 10),
        text::digit(mo % 10),
        '-',
        text::digit(d / 10),
        text::digit(d % 10),
        ' ',
        text::digit(h / 10),
        text::digit(h % 10),
        ':',
        text::digit(mi / 10),
        text::digit(mi % 10),
        ':',
        '0',
        '0',
    ];
    assert(s + ":00"@ =~= t);
    lemma_written_bytes(t, y, mo, d, h, mi);
}

proof fn lemma_digit_byte(k: int)
    requires
        0 <= k <= 9,
    ensures
        text::digit(k) as u8 == 48 + k,
        '\0' <= text::digit(k) <= '\u{7f}',
{
}

proof fn lemma_written_bytes(t: Seq<char>, y: int, mo: int, d: int, h: int, mi: int)
    requires
        0 <= y <= 9999,
        0 <= mo <= 99,
        0 <= d <= 99,
        0 <= h <= 99,
        0 <= mi <= 99,
        t.len() == 19,
        t[0] == text::digit(y / 1000),
        t[1] == text::digit(y / 100 % 10),
        t[2] == text::digit(y / 10 % 10),
        t[3] == text::digit(y % 10),
        t[4] == '-' && t[7] == '-' && t[10] == ' ' && t[13] == ':' && t[16] == ':',
        t[5] == text::digit(mo / 10) && t[6] == text::digit(mo % 10),
        t[8] == text::digit(d / 10) && t[9] == text::digit(d % 10),
        t[11] == text::digit(h / 10) && t[12] == text::digit(h % 10),
        t[14] == text::digit(mi / 10) && t[15] == text::digit(mi % 10),
        t[17] == '0' && t[18] == '0',
    ensures
        ({
            let b = vstd::utf8::encode_utf8(t);
            &&& has_date_time(b)
            &&& two_at(b, 0) * 100 + two_at(b, 2) == y
            &&& two_at(b, 5) == mo
            &&& two_at(b, 8) == d
            &&& two_at(b, 11) == h
            &&& two_at(b, 14) == mi
            &&& two_at(b, 17) == 0
            &&& b.len() == 19
        }),
{
    lemma_digit_byte(y / 1000);
    lemma_digit_byte(y / 100 % 10);
    lemma_digit_byte(y / 10 % 10);
    lemma_digit_byte(y % 10);
    lemma_digit_byte(mo / 10);
    lemma_digit_byte(mo % 10);
    lemma_digit_byte(d / 10);
    lemma_digit_byte(d % 10);
    lemma_digit_byte(h / 10);
    lemma_digit_byte(h % 10);
    lemma_digit_byte(mi / 10);
    lemma_digit_byte(mi % 10);
    assert(vstd::utf8::is_ascii_chars(t));
    vstd::utf8::is_ascii_chars_encode_utf8(t);
    let b = vstd::utf8::encode_utf8(t);
    assert(b[0] == 48 + y / 1000 && b[1] == 48 + y / 100 % 10 && b[2] == 48 + y / 10 % 10 && b[3]
        == 48 + y % 10);
    assert(b[4] == 45 && b[7] == 45 && b[10] == 32 && b[13] == 58 && b[16] == 58);
    assert(b[5] == 48 + mo / 10 && b[6] == 48 + mo % 10);
    assert(b[8] == 48 + d / 10 && b[9] == 48 + d % 10);
    assert(b[11] == 48 + h / 10 && b[12] == 48 + h % 10);
    assert(b[14] == 48 + mi / 10 && b[15] == 48 + mi % 10);
    assert(b[17] == 48 && b[18] == 48);
}

proof fn lemma_minute(ms: int)
    requires
        0 <= ms,
    ensures
        ({
            let secs = whole_seconds(ms);
            let tod = secs % 86400;
            &&& epoch_ms(secs / 86400, tod / 3600, (tod % 3600) / 60, 0) == ms - ms % 60000
            &&& 0 <= tod / 3600 <= 23
            &&& 0 <= (tod % 3600) / 60 <= 59
        }),
{
}

/// A time that is shown is the minute that it falls in: read as a timestamp, with
/// no seconds, it gives back the time without what is left of the minute. So it
/// is for every year of four digits.
pub proof fn law_time_reads_back(ms: int)
    requires
        0 <= ms,
        civil(whole_seconds(ms) / 86400).0 <= 9999,
    ensures
        timestamp(ms).len() == 16,
        timestamp_ms(vstd::utf8::encode_utf8(timestamp(ms) + ":00"@)) == Some(ms - ms % 60000),
{
    let secs = whole_seconds(ms);
    let z = secs / 86400;
    let (y, mo, d) = civil(z);
    let tod = secs % 86400;
    law_civil_inverse(z);
    lemma_year_not_negative(z);
    lemma_minute(ms);
    lemma_written(y, mo, d, tod / 3600, (tod % 3600) / 60);
}

/// No day from the first one on lies in a negative year.
proof fn lemma_year_not_negative(z: int)
    requires
        z >= 0,
    ensures
        civil(z).0 >= 0,
{
    let era = (z + 719468) / 146097;
    assert(era >= 0);
    lemma_year_of_era((z + 719468) % 146097);
}

/// A time that is not known is not shown.
pub proof fn law_unknown_time_is_blank(ts: Option<i64>)
    ensures
        ts is None ==> when(ts).len() == 0,
        ts matches Some(t) ==> when(ts) == timestamp(t as int),
{
}

// ---------------------------------------------------------------------------
// What the digits of a timestamp mean
// ---------------------------------------------------------------------------

/// One more second, minute, hour or day in a timestamp is that much later.
#[verifier::spinoff_prover]
#[verifier::rlimit(60)]
pub proof fn law_digits_count(b: Seq<u8>)
    requires
        has_date_time(b),
    ensures
        b[18] < 57 ==> (timestamp_ms(b.update(18, (b[18] + 1) as u8)) matches Some(t) && t
            == timestamp_ms(b)->Some_0 + 1_000),
        b[15] < 57 ==> (timestamp_ms(b.update(15, (b[15] + 1) as u8)) matches Some(t) && t
            == timestamp_ms(b)->Some_0 + 60_000),
        b[12] < 57 ==> (timestamp_ms(b.update(12, (b[12] + 1) as u8)) matches Some(t) && t
            == timestamp_ms(b)->Some_0 + 3_600_000),
        b[9] < 57 ==> (timestamp_ms(b.update(9, (b[9] + 1) as u8)) matches Some(t) && t
            == timestamp_ms(b)->Some_0 + 86_400_000),
        b[17] < 57 ==> (timestamp_ms(b.update(17, (b[17] + 1) as u8)) matches Some(t) && t
            == timestamp_ms(b)->Some_0 + 10_000),
        b[14] < 57 ==> (timestamp_ms(b.update(14, (b[14] + 1) as u8)) matches Some(t) && t
            == timestamp_ms(b)->Some_0 + 600_000),
        b[11] < 57 ==> (timestamp_ms(b.update(11, (b[11] + 1) as u8)) matches Some(t) && t
            == timestamp_ms(b)->Some_0 + 36_000_000),
        b[8] < 57 ==> (timestamp_ms(b.update(8, (b[8] + 1) as u8)) matches Some(t) && t
            == timestamp_ms(b)->Some_0 + 864_000_000),
{
}

/// A fraction counts in milliseconds, down to its third digit; what stands behind
/// it, or behind the seconds where there is none, does not change the time.
#[verifier::spinoff_prover]
#[verifier::rlimit(60)]
pub proof fn law_fraction(b: Seq<u8>, x: u8, y: u8, z: u8, rest: Seq<u8>)
    requires
        has_date_time(b),
        b.len() == 19,
        is_digit(x) && is_digit(y) && is_digit(z),
    ensures
        timestamp_ms(b + seq![46u8, x, y, z] + rest) == Some(
            timestamp_ms(b)->Some_0 + 100 * (x - 48) + 10 * (y - 48) + (z - 48),
        ),
        rest.len() == 0 || !is_digit(rest[0]) ==> timestamp_ms(b + seq![46u8, x, y] + rest) == Some(
            timestamp_ms(b)->Some_0 + 100 * (x - 48) + 10 * (y - 48),
        ),
        rest.len() == 0 || !is_digit(rest[0]) ==> timestamp_ms(b + seq![46u8, x] + rest) == Some(
            timestamp_ms(b)->Some_0 + 100 * (x - 48),
        ),
        rest.len() == 0 || rest[0] != 46 ==> timestamp_ms(b + rest) == timestamp_ms(b),
{
    let three = b + seq![46u8, x, y, z] + rest;
    let two = b + seq![46u8, x, y] + rest;
    let one = b + seq![46u8, x] + rest;
    let none = b + rest;
    lemma_same_time(b, three);
    lemma_same_time(b, two);
    lemma_same_time(b, one);
    lemma_same_time(b, none);
    assert(three[19] == 46 && three[20] == x && three[21] == y && three[22] == z);
    assert(two[19] == 46 && two[20] == x && two[21] == y);
    assert(one[19] == 46 && one[20] == x);
    if rest.len() > 0 {
        assert(two[22] == rest[0]);
        assert(one[21] == rest[0]);
        assert(none[19] == rest[0]);
    }
}

proof fn lemma_same_time(b: Seq<u8>, w: Seq<u8>)
    requires
        has_date_time(b),
        b.len() == 19,
        w.len() >= 19,
        w.subrange(0, 19) =~= b,
    ensures
        has_date_time(w),
        timestamp_ms(w) == Some(timestamp_ms(b)->Some_0 + fraction_ms(w)),
{
    assert forall|i: int| 0 <= i < 19 implies #[trigger] w[i] == b[i] by {
        assert(w.subrange(0, 19)[i] == b[i]);
    }
    assert(two_at(w, 0) == two_at(b, 0) && two_at(w, 2) == two_at(b, 2) && two_at(w, 5) == two_at(
        b,
        5,
    ) && two_at(w, 8) == two_at(b, 8) && two_at(w, 11) == two_at(b, 11) && two_at(w, 14) == two_at(
        b,
        14,
    ) && two_at(w, 17) == two_at(b, 17));
}

#[verifier::spinoff_prover]
#[verifier::rlimit(60)]
proof fn lemma_int_at(b: Seq<u8>, a: int, n: int)
    requires
        0 <= a,
        2 <= n <= 4,
        a + n <= b.len(),
        forall|i: int| a <= i < a + n ==> is_digit(#[trigger] b[i]),
    ensures
        n == 2 ==> int_at(b, a, a + n) == Some(two_at(b, a)),
        n == 3 ==> int_at(b, a, a + n) == Some(two_at(b, a) * 10 + (b[a + 2] - 48)),
        n == 4 ==> int_at(b, a, a + n) == Some(two_at(b, a) * 100 + two_at(b, a + 2)),
{
    let s = latin(b.subrange(a, a + n));
    assert(s.len() == n);
    assert forall|i: int| 0 <= i < n implies #[trigger] s[i] == b[a + i] as char && text::is_digit(
        s[i],
    ) && s[i] as int == b[a + i] by {
        assert(is_digit(b[a + i]));
    }
    let s1 = s.drop_last();
    let s2 = s1.drop_last();
    let s3 = s2.drop_last();
    let s4 = s3.drop_last();
    reveal_with_fuel(text::value, 5);
    assert(s.last() == s[n - 1]);
    assert(s1.last() == s[n - 2]);
    if n >= 3 {
        assert(s2.last() == s[n - 3]);
    }
    if n >= 4 {
        assert(s3.last() == s[n - 4]);
    }
    assert(s[0] as int == b[a + 0] && s[1] as int == b[a + 1]);
    if n >= 3 {
        assert(s[2] as int == b[a + 2]);
    }
    if n >= 4 {
        assert(s[3] as int == b[a + 3]);
    }
    assert(text::all_digits(s));
    assert(s[0] != '-' && s[0] != '+');
}

/// Both readers of times agree on a time in UTC, with or without milliseconds.
#[verifier::spinoff_prover]
#[verifier::rlimit(60)]
pub proof fn law_readers_agree(b: Seq<u8>)
    requires
        has_date_time(b),
        1 <= two_at(b, 5) <= 12,
        b.len() == 19 || b[19] != 46 || (b.len() >= 23 && is_digit(b[20]) && is_digit(b[21])
            && is_digit(b[22])),
    ensures
        rfc3339_ms(b) == timestamp_ms(b),
{
    lemma_int_at(b, 0, 4);
    lemma_int_at(b, 5, 2);
    lemma_int_at(b, 8, 2);
    lemma_int_at(b, 11, 2);
    lemma_int_at(b, 14, 2);
    lemma_int_at(b, 17, 2);
    if b.len() >= 23 && b[19] == 46 {
        lemma_int_at(b, 20, 3);
    }
}

/// A text that is too short, or has anything but digits where they belong, is no
/// time.
pub proof fn law_no_time(b: Seq<u8>, i: int)
    ensures
        b.len() < 19 ==> timestamp_ms(b) is None && rfc3339_ms(b) is None,
        (i == 0 || i == 1 || i == 2 || i == 3 || i == 5 || i == 6 || i == 8 || i == 9 || i == 11
            || i == 12 || i == 14 || i == 15 || i == 17 || i == 18) && i < b.len() && !is_digit(b[i])
            ==> timestamp_ms(b) is None,
{
}

} // verus!
