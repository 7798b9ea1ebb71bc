//! Calendar dates: the Gregorian calendar, Julian day numbers, and ISO dates
//! in text.

use vstd::prelude::*;
use vstd::string::*;
use crate::chars;
use crate::chars::ascii_digit;
use crate::strs;
use crate::strs::{cat2, cat3, dec, one};
use crate::text;
use crate::text::{chars_of, index_at, offset_of};

verus! {

/// Quotient rounded toward zero.
pub open spec fn tdiv(a: int, b: int) -> int {
    if a >= 0 {
        a / b
    } else {
        -((-a) / b)
    }
}

pub open spec fn leap(y: int) -> bool {
    (y % 4 == 0 && y % 100 != 0) || y % 400 == 0
}

pub open spec fn month_len(y: int, m: int) -> int {
    if m == 1 || m == 3 || m == 5 || m == 7 || m == 8 || m == 10 || m == 12 {
        31
    } else if m == 4 || m == 6 || m == 9 || m == 11 {
        30
    } else if m == 2 {
        if leap(y) {
            29
        } else {
            28
        }
    } else {
        0
    }
}

pub open spec fn valid_date(y: int, m: int, d: int) -> bool {
    1 <= m <= 12 && 1 <= d <= month_len(y, m)
}

/// Julian day number of a date.
pub open spec fn jdn(y: int, m: int, d: int) -> int {
    let a = (14 - m) / 12;
    let yy = y + 4800 - a;
    let mm = m + 12 * a - 3;
    d + (153 * mm + 2) / 5 + 365 * yy + yy / 4 - yy / 100 + yy / 400 - 32045
}

/// The same with quotients rounded toward zero, for any numbers.
pub open spec fn day_number(y: int, m: int, d: int) -> int {
    let a = tdiv(14 - m, 12);
    let yy = y + 4800 - a;
    let mm = m + 12 * a - 3;
    d + tdiv(153 * mm + 2, 5) + 365 * yy + tdiv(yy, 4) - tdiv(yy, 100) + tdiv(yy, 400) - 32045
}

/// Date of a Julian day number.
pub open spec fn civil(j: int) -> (int, int, int) {
    let a = j + 32044;
    let b = tdiv(4 * a + 3, 146097);
    let c = a - tdiv(146097 * b, 4);
    let d = tdiv(4 * c + 3, 1461);
    let e = c - tdiv(1461 * d, 4);
    let m = tdiv(5 * e + 2, 153);
    (
        100 * b + d - 4800 + tdiv(m, 10),
        m + 3 - 12 * tdiv(m, 10),
        e - tdiv(153 * m + 2, 5) + 1,
    )
}

/// A number with zeros in front of its digits, `width` characters wide with
/// the sign.
pub open spec fn padded(n: int, width: int) -> Seq<char> {
    if n < 0 {
        seq!['-'] + strs::zero_padded(strs::dec_of(-n), width - 1)
    } else {
        strs::zero_padded(strs::dec_of(n), width)
    }
}

pub open spec fn iso(y: int, m: int, d: int) -> Seq<char> {
    padded(y, 4) + "-"@ + padded(m, 2) + "-"@ + padded(d, 2)
}

/// Value of the digits `lo..hi`.
pub open spec fn digits(l: Seq<char>, lo: int, hi: int) -> int {
    strs::value_of(l.subrange(lo, hi), hi - lo)
}

/// `YYYY-MM-DD` stands at index `i`, and no digit follows it.
pub open spec fn iso_shape(l: Seq<char>, i: int) -> bool {
    &&& 0 <= i
    &&& i + 10 <= l.len()
    &&& forall|k: int|
        i <= k < i + 10 ==> if k == i + 4 || k == i + 7 {
            #[trigger] l[k] == '-'
        } else {
            chars::is_digit(l[k])
        }
    &&& i + 10 < l.len() ==> !chars::is_digit(l[i + 10])
}

/// The date that stands at byte `b` of a line, moved by `delta` days.
pub open spec fn moved_date(l: Seq<char>, b: int, delta: int) -> Option<Seq<char>> {
    let i = text::at(l, b);
    let y = digits(l, i, i + 4);
    let m = digits(l, i + 5, i + 7);
    let d = digits(l, i + 8, i + 10);
    if text::bd(l, b) && iso_shape(l, i) && valid_date(y, m, d) {
        let (y2, m2, d2) = civil(jdn(y, m, d) + delta);
        Some(iso(y2, m2, d2))
    } else {
        None
    }
}

pub fn is_leap(y: i64) -> (r: bool)
    ensures
        r == leap(y as int),
{
    let n: i64 = match y.checked_rem_euclid(400) {
        Some(r) => r,
        None => 0,
    };
    proof {
        vstd::arithmetic::div_mod::lemma_mod_mod(y as int, 4, 100);
        vstd::arithmetic::div_mod::lemma_mod_mod(y as int, 100, 4);
    }
    (n % 4 == 0 && n % 100 != 0) || n == 0
}

/// Days in a month; 0 when there is no such month.
pub fn days_in_month(year: i64, month: u32) -> (n: i64)
    ensures
        n == month_len(year as int, month as int),
{
    if month == 1 || month == 3 || month == 5 || month == 7 || month == 8 || month == 10 || month
        == 12 {
        31
    } else if month == 4 || month == 6 || month == 9 || month == 11 {
        30
    } else if month == 2 {
        if is_leap(year) {
            29
        } else {
            28
        }
    } else {
        0
    }
}

/// Julian day number of a date. Years so far off that the number does not fit
/// are left out.
pub fn ymd_to_jdn(y: i64, m: i32, d: i32) -> (j: i64)
    requires
        -25_200_000_000_000_000 <= y <= 25_200_000_000_000_000,
    ensures
        j == day_number(y as int, m as int, d as int),
        y >= -4799 && 1 <= m <= 12 ==> j == jdn(y as int, m as int, d as int),
{
    let a: i128 = quot(14 - m as i128, 12);
    let yy: i128 = y as i128 + 4800 - a;
    let mm: i128 = m as i128 + 12 * a - 3;
    let j: i128 = d as i128 + quot(153 * mm + 2, 5) + 365 * yy + quot(yy, 4) - quot(yy, 100) + quot(
        yy,
        400,
    ) - 32045;
    j as i64
}

fn quot(a: i128, b: i128) -> (q: i128)
    requires
        a > i128::MIN,
        b > 0,
    ensures
        q == tdiv(a as int, b as int),
        a >= 0 ==> 0 <= q <= a,
        a < 0 ==> a <= q <= 0,
{
    if a >= 0 {
        proof {
            lemma_quot(a as int, b as int);
        }
        a / b
    } else {
        proof {
            lemma_quot(-a, b as int);
        }
        -((-a) / b)
    }
}

proof fn lemma_quot(a: int, b: int)
    requires
        a >= 0,
        b > 0,
    ensures
        0 <= a / b <= a,
{
    vstd::arithmetic::div_mod::lemma_div_pos_is_pos(a, b);
    vstd::arithmetic::div_mod::lemma_div_is_ordered_by_denominator(a, 1, b);
    vstd::arithmetic::div_mod::lemma_div_basics(a);
}

/// Date of a Julian day number.
pub fn jdn_to_ymd(jdn: i128) -> (r: (i128, i128, i128))
    requires
        -0x1_0000_0000_0000_0000 <= jdn <= 0x1_0000_0000_0000_0000,
    ensures
        (r.0 as int, r.1 as int, r.2 as int) == civil(jdn as int),
        -0x1_0000_0000_0000_0000_0000_0000 <= r.0 <= 0x1_0000_0000_0000_0000_0000_0000,
        -0x1_0000_0000_0000_0000_0000_0000 <= r.1 <= 0x1_0000_0000_0000_0000_0000_0000,
        -0x1_0000_0000_0000_0000_0000_0000 <= r.2 <= 0x1_0000_0000_0000_0000_0000_0000,
{
    let a: i128 = jdn + 32044;
    let b: i128 = quot(4 * a + 3, 146097);
    let c: i128 = a - quot(146097 * b, 4);
    let d: i128 = quot(4 * c + 3, 1461);
    let e: i128 = c - quot(1461 * d, 4);
    let m: i128 = quot(5 * e + 2, 153);
    let day: i128 = e - quot(153 * m + 2, 5) + 1;
    let month: i128 = m + 3 - 12 * quot(m, 10);
    let year: i128 = 100 * b + d - 4800 + quot(m, 10);
    (year, month, day)
}

/// A number `width` characters wide.
pub fn pad(n: i128, width: usize) -> (s: String)
    requires
        n > i128::MIN,
    ensures
        s@ == padded(n as int, width as int),
{
    if n < 0 {
        let ds: String = dec((-n) as u128);
        let body: String = if width > 0 {
            strs::pad_zeros(&ds, width - 1)
        } else {
            assert(strs::zero_padded(ds@, -1) =~= strs::zero_padded(ds@, 0));
            strs::pad_zeros(&ds, 0)
        };
        cat2(&one('-'), &body)
    } else {
        let ds: String = dec(n as u128);
        strs::pad_zeros(&ds, width)
    }
}

pub fn iso_text(y: i128, m: i128, d: i128) -> (s: String)
    requires
        y > i128::MIN,
        m > i128::MIN,
        d > i128::MIN,
    ensures
        s@ == iso(y as int, m as int, d as int),
{
    let a: String = cat3(&pad(y, 4), "-", &pad(m, 2));
    cat3(&a, "-", &pad(d, 2))
}

pub(crate) fn is_iso_shape(v: &Vec<char>, i: usize) -> (r: bool)
    ensures
        r == iso_shape(v@, i as int),
{
    let n: usize = v.len();
    if n < 10 || i > n - 10 {
        return false;
    }
    let mut k: usize = i;
    while k < i + 10
        invariant
            i <= k <= i + 10 <= n,
            n == v.len(),
            forall|j: int|
                i <= j < k ==> if j == i + 4 || j == i + 7 {
                    #[trigger] v@[j] == '-'
                } else {
                    chars::is_digit(v@[j])
                },
        decreases i + 10 - k,
    {
        let c: char = v[k];
        if k == i + 4 || k == i + 7 {
            if c != '-' {
                return false;
            }
        } else if !ascii_digit(c) {
            return false;
        }
        k += 1;
    }
    if i + 10 < n && ascii_digit(v[i + 10]) {
        return false;
    }
    true
}

/// Value of a short run of digits.
pub(crate) fn read_digits(v: &Vec<char>, lo: usize, hi: usize) -> (n: i64)
    requires
        lo <= hi <= v.len(),
        hi - lo <= 4,
        forall|k: int| lo <= k < hi ==> chars::is_digit(#[trigger] v@[k]),
    ensures
        n == digits(v@, lo as int, hi as int),
        0 <= n <= 9999,
        hi - lo <= 2 ==> n <= 99,
{
    let ghost s = v@.subrange(lo as int, hi as int);
    let mut n: i64 = 0;
    let mut k: usize = lo;
    while k < hi
        invariant
            lo <= k <= hi <= v.len(),
            hi - lo <= 4,
            s == v@.subrange(lo as int, hi as int),
            forall|k: int| lo <= k < hi ==> chars::is_digit(#[trigger] v@[k]),
            n == strs::value_of(s, k - lo),
            0 <= n,
            k - lo == 0 ==> n == 0,
            k - lo == 1 ==> n <= 9,
            k - lo == 2 ==> n <= 99,
            k - lo == 3 ==> n <= 999,
            k - lo == 4 ==> n <= 9999,
        decreases hi - k,
    {
        assert(chars::is_digit(v@[k as int]));
        assert(s[k - lo] == v@[k as int]);
        let d: i64 = (v[k] as u32 - '0' as u32) as i64;
        n = n * 10 + d;
        k += 1;
    }
    n
}

/// If a valid `YYYY-MM-DD` starts at byte `start` of a line, that date moved
/// by `delta` days.
pub fn iso_date_match(line: &str, start: usize, delta: i64) -> (r: Option<String>)
    ensures
        (match r {
            Some(s) => Some(s@),
            None => None,
        }) == moved_date(line@, start as int, delta as int),
{
    let v: Vec<char> = chars_of(line);
    let i: usize = index_at(&v, start);
    let total: usize = offset_of(&v, v.len());
    if start > total || offset_of(&v, i) != start || !is_iso_shape(&v, i) {
        return None;
    }
    let y: i64 = read_digits(&v, i, i + 4);
    let m: i64 = read_digits(&v, i + 5, i + 7);
    let d: i64 = read_digits(&v, i + 8, i + 10);
    if m < 1 || m > 12 || d < 1 || d > days_in_month(y, m as u32) {
        return None;
    }
    let j: i64 = ymd_to_jdn(y, m as i32, d as i32);
    let (y2, m2, d2) = jdn_to_ymd(j as i128 + delta as i128);
    Some(iso_text(y2, m2, d2))
}

/// Days from March to the start of the month `mm` months after it, and back.
proof fn lemma_month(mm: int, day: int)
    requires
        0 <= mm <= 11,
        1 <= day,
        day <= (if mm == 1 || mm == 3 || mm == 6 || mm == 8 {
            30int
        } else if mm == 11 {
            29
        } else {
            31
        }),
    ensures
        ({
            let e = day - 1 + (153 * mm + 2) / 5;
            &&& 0 <= e <= 365
            &&& e == 365 ==> mm == 11 && day == 29
            &&& (5 * e + 2) / 153 == mm
        }),
{
}

proof fn lemma_year(z: int, e: int)
    requires
        0 <= z <= 99,
        0 <= e <= 365,
        e == 365 ==> z % 4 == 3,
    ensures
        ({
            let c = 365 * z + z / 4 + e;
            &&& (4 * c + 3) / 1461 == z
            &&& (1461 * z) / 4 == 365 * z + z / 4
        }),
{
    let k = z / 4;
    let s = z % 4;
    assert(z == 4 * k + s);
    let c = 365 * z + z / 4 + e;
    assert(1461 * z <= 4 * c + 3 < 1461 * (z + 1));
}

proof fn lemma_century(q: int, z: int, e: int)
    requires
        q >= 0,
        0 <= z <= 99,
        0 <= e <= 365,
        e == 365 ==> z % 4 == 3 && (z == 99 ==> q % 4 == 3),
    ensures
        ({
            let a = 36524 * q + q / 4 + 365 * z + z / 4 + e;
            &&& (4 * a + 3) / 146097 == q
            &&& (146097 * q) / 4 == 36524 * q + q / 4
        }),
{
    let k = q / 4;
    let s = q % 4;
    assert(q == 4 * k + s);
    let c = 365 * z + z / 4 + e;
    assert(0 <= c <= 36524);
    assert(c == 36524 ==> z == 99 && e == 365);
    let a = 36524 * q + q / 4 + c;
    assert(146097 * q <= 4 * a + 3 < 146097 * (q + 1));
}

/// The Julian day number of a date leads back to the date.
pub proof fn law_date_round_trip(y: int, m: int, d: int)
    requires
        y >= -4799 || (y == -4800 && m >= 3),
        valid_date(y, m, d),
    ensures
        civil(jdn(y, m, d)) == (y, m, d),
{
    let a = (14 - m) / 12;
    let yy = y + 4800 - a;
    let mm = m + 12 * a - 3;
    assert(a == (if m <= 2 {
        1int
    } else {
        0
    }));
    lemma_month(mm, d);
    let e = d - 1 + (153 * mm + 2) / 5;
    let q = yy / 100;
    let z = yy % 100;
    assert(yy == 100 * q + z);
    assert(yy / 4 == 25 * q + z / 4);
    assert(yy / 400 == q / 4);
    if e == 365 {
        assert(m == 2 && d == 29);
        assert(leap(y));
        assert(yy == y + 4799);
        lemma_leap_tail(y, yy, q, z);
    }
    lemma_year(z, e);
    lemma_century(q, z, e);
    let j = jdn(y, m, d);
    assert(j + 32044 == 36524 * q + q / 4 + 365 * z + z / 4 + e);
}

proof fn lemma_leap_tail(y: int, yy: int, q: int, z: int)
    requires
        leap(y),
        yy == y + 4799,
        yy == 100 * q + z,
        0 <= z <= 99,
    ensures
        z % 4 == 3,
        z == 99 ==> q % 4 == 3,
{
    assert(y % 4 == 0);
    assert((yy + 1) % 4 == 0);
    if z == 99 {
        assert(yy + 1 == 100 * (q + 1));
        assert(y == 100 * (q + 1) - 4800);
        assert(y % 100 == 0);
        assert(y % 400 == 0);
    }
}

/// Each day is followed by the next: the number of the first day of a month
/// is that of the last day of the month before, plus one.
pub proof fn law_months_follow(y: int, m: int)
    requires
        1 <= m <= 12,
    ensures
        m < 12 ==> jdn(y, m + 1, 1) == jdn(y, m, month_len(y, m)) + 1,
        m == 12 ==> jdn(y + 1, 1, 1) == jdn(y, 12, 31) + 1,
{
    if m == 2 {
        lemma_feb(y);
    }
}

proof fn lemma_feb(y: int)
    ensures
        jdn(y, 3, 1) == jdn(y, 2, month_len(y, 2)) + 1,
{
    let yy = y + 4799;
    // The year that starts in March is the one after `yy`.
    assert((yy + 1) / 4 - yy / 4 == (if y % 4 == 0 {
        1int
    } else {
        0
    }));
    assert((yy + 1) / 100 - yy / 100 == (if y % 100 == 0 {
        1int
    } else {
        0
    }));
    assert((yy + 1) / 400 - yy / 400 == (if y % 400 == 0 {
        1int
    } else {
        0
    }));
}

/// The date of each day number from the start of the count on.
proof fn lemma_date_of(j: int) -> (r: (int, int, int))
    requires
        j >= -32044,
    ensures
        valid_date(r.0, r.1, r.2),
        jdn(r.0, r.1, r.2) == j,
        r.0 >= -4799 || (r.0 == -4800 && r.1 >= 3),
    decreases j + 32044,
{
    if j == -32044 {
        (-4800, 3, 1)
    } else {
        let (y, m, d) = lemma_date_of(j - 1);
        law_months_follow(y, m);
        if d < month_len(y, m) {
            (y, m, d + 1)
        } else if m < 12 {
            (y, m + 1, 1)
        } else {
            (y + 1, 1, 1)
        }
    }
}

/// The date of a day number leads back to the number, from the day on that the
/// count of March years starts with.
pub proof fn law_day_round_trip(j: int)
    requires
        j >= -32044,
    ensures
        ({
            let (y, m, d) = civil(j);
            valid_date(y, m, d) && jdn(y, m, d) == j
        }),
{
    let (y, m, d) = lemma_date_of(j);
    law_date_round_trip(y, m, d);
}

/// One date is before another.
pub open spec fn before(y: int, m: int, d: int, y2: int, m2: int, d2: int) -> bool {
    y < y2 || (y == y2 && (m < m2 || (m == m2 && d < d2)))
}

proof fn lemma_years(y: int, n: int)
    requires
        n >= 0,
    ensures
        jdn(y + n, 1, 1) >= jdn(y, 1, 1) + 365 * n,
    decreases n,
{
    if n > 0 {
        lemma_years(y, n - 1);
        lemma_next_year(y + n - 1);
    }
}

pub(crate) proof fn lemma_next_year(y: int)
    ensures
        jdn(y + 1, 1, 1) == jdn(y, 1, 1) + if leap(y) {
            366int
        } else {
            365
        },
{
    let yy = y + 4799;
    assert((yy + 1) / 4 - yy / 4 == (if y % 4 == 0 {
        1int
    } else {
        0
    }));
    assert((yy + 1) / 100 - yy / 100 == (if y % 100 == 0 {
        1int
    } else {
        0
    }));
    assert((yy + 1) / 400 - yy / 400 == (if y % 400 == 0 {
        1int
    } else {
        0
    }));
}

proof fn lemma_months(y: int, m: int, n: int)
    requires
        1 <= m,
        n >= 0,
        m + n <= 12,
    ensures
        jdn(y, m + n, 1) >= jdn(y, m, 1) + n,
        n > 0 ==> jdn(y, m + n, 1) > jdn(y, m, month_len(y, m)),
    decreases n,
{
    if n > 0 {
        lemma_months(y, m, n - 1);
        law_months_follow(y, m + n - 1);
        law_months_follow(y, m);
    }
}

proof fn lemma_year_end(y: int, m: int, d: int)
    requires
        valid_date(y, m, d),
    ensures
        jdn(y, 1, 1) <= jdn(y, m, d) < jdn(y + 1, 1, 1),
{
    lemma_months(y, 1, m - 1);
    lemma_months(y, m, 12 - m);
    law_months_follow(y, 12);
}

/// Later dates have greater day numbers, and only they.
pub proof fn law_dates_increase(y: int, m: int, d: int, y2: int, m2: int, d2: int)
    requires
        valid_date(y, m, d),
        valid_date(y2, m2, d2),
    ensures
        before(y, m, d, y2, m2, d2) == (jdn(y, m, d) < jdn(y2, m2, d2)),
{
    lemma_later(y, m, d, y2, m2, d2);
    lemma_later(y2, m2, d2, y, m, d);
}

/// Of two days, the later one has the later date.
pub proof fn law_days_in_order(a: int, b: int)
    requires
        -32044 <= a < b,
    ensures
        before(civil(a).0, civil(a).1, civil(a).2, civil(b).0, civil(b).1, civil(b).2),
{
    law_day_round_trip(a);
    law_day_round_trip(b);
    law_dates_increase(civil(a).0, civil(a).1, civil(a).2, civil(b).0, civil(b).1, civil(b).2);
}

proof fn lemma_later(y: int, m: int, d: int, y2: int, m2: int, d2: int)
    requires
        valid_date(y, m, d),
        valid_date(y2, m2, d2),
    ensures
        before(y, m, d, y2, m2, d2) ==> jdn(y, m, d) < jdn(y2, m2, d2),
{
    lemma_year_end(y, m, d);
    lemma_year_end(y2, m2, d2);
    if y < y2 {
        lemma_years(y + 1, y2 - y - 1);
    } else if y == y2 && m < m2 {
        lemma_months(y, m, m2 - m);
    }
}

/// A date that is moved by some days and back is the same again, as long as it
/// keeps to years of four digits.
pub proof fn law_date_moves_back(l: Seq<char>, b: int, delta: int)
    requires
        moved_date(l, b, delta) is Some,
        -1_000_000 <= delta <= 1_000_000,
        ({
            let i = text::at(l, b);
            0 <= civil(
                jdn(digits(l, i, i + 4), digits(l, i + 5, i + 7), digits(l, i + 8, i + 10)) + delta,
            ).0 <= 9999
        }),
    ensures
        ({
            let i = text::at(l, b);
            let s = moved_date(l, b, delta)->0;
            &&& s.len() == 10
            &&& moved_date(l.take(i) + s + l.skip(i + 10), b, -delta) == Some(
                l.subrange(i, i + 10),
            )
        }),
{
    let i = text::at(l, b);
    let (y, m, d) = (digits(l, i, i + 4), digits(l, i + 5, i + 7), digits(l, i + 8, i + 10));
    let j = jdn(y, m, d);
    let (y2, m2, d2) = civil(j + delta);
    strs::lemma_digits_value(l.subrange(i, i + 4));
    lemma_after_zero(y, m, d);
    law_day_round_trip(j + delta);
    law_date_round_trip(y, m, d);
    lemma_other_date(l, b, y2, m2, d2);
    lemma_four(l.subrange(i, i + 4));
    lemma_own_date(l, i);
}

proof fn lemma_four(s: Seq<char>)
    requires
        s.len() == 4,
        strs::all_digits(s),
    ensures
        strs::value_of(s, 4) <= 9999,
{
    reveal_with_fuel(strs::value_of, 5);
    assert(chars::is_digit(s[0]) && chars::is_digit(s[1]) && chars::is_digit(s[2])
        && chars::is_digit(s[3]));
}

proof fn lemma_after_zero(y: int, m: int, d: int)
    requires
        y >= 0,
        valid_date(y, m, d),
    ensures
        jdn(y, m, d) >= 1721060,
{
    lemma_year_end(y, m, d);
    lemma_years(0, y);
    assert(jdn(0, 1, 1) == 1721060);
}

/// Another date in place of the one that stands at byte `b`.
proof fn lemma_other_date(l: Seq<char>, b: int, y: int, m: int, d: int)
    requires
        text::bd(l, b),
        iso_shape(l, text::at(l, b)),
        0 <= y <= 9999,
        0 <= m <= 99,
        0 <= d <= 99,
    ensures
        ({
            let i = text::at(l, b);
            let n = l.take(i) + iso(y, m, d) + l.skip(i + 10);
            &&& iso(y, m, d).len() == 10
            &&& text::bd(n, b)
            &&& text::at(n, b) == i
            &&& iso_shape(n, i)
            &&& digits(n, i, i + 4) == y
            &&& digits(n, i + 5, i + 7) == m
            &&& digits(n, i + 8, i + 10) == d
        }),
{
    let i = text::at(l, b);
    let s = iso(y, m, d);
    lemma_iso(y, m, d);
    let n = l.take(i) + s + l.skip(i + 10);
    text::lemma_at(l, b);
    assert(n.take(i) =~= l.take(i));
    text::lemma_off_take(l, i, i);
    text::lemma_off_take(n, i, i);
    text::lemma_at_off(n, i);
    assert(n.subrange(i, i + 4) =~= s.subrange(0, 4));
    assert(n.subrange(i + 5, i + 7) =~= s.subrange(5, 7));
    assert(n.subrange(i + 8, i + 10) =~= s.subrange(8, 10));
    assert forall|k: int| i <= k < i + 10 implies if k == i + 4 || k == i + 7 {
        #[trigger] n[k] == '-'
    } else {
        chars::is_digit(n[k])
    } by {
        assert(n[k] == s[k - i]);
    }
    assert(i + 10 < n.len() ==> n[i + 10] == l[i + 10]);
}

/// A date in a line is the text of its three numbers.
proof fn lemma_own_date(l: Seq<char>, i: int)
    requires
        iso_shape(l, i),
        0 <= digits(l, i, i + 4) <= 9999,
        0 <= digits(l, i + 5, i + 7) <= 99,
        0 <= digits(l, i + 8, i + 10) <= 99,
    ensures
        iso(digits(l, i, i + 4), digits(l, i + 5, i + 7), digits(l, i + 8, i + 10)) == l.subrange(
            i,
            i + 10,
        ),
{
    let (y, m, d) = (digits(l, i, i + 4), digits(l, i + 5, i + 7), digits(l, i + 8, i + 10));
    lemma_iso(y, m, d);
    let o = l.subrange(i, i + 10);
    assert(o.subrange(0, 4) =~= l.subrange(i, i + 4));
    assert(o.subrange(5, 7) =~= l.subrange(i + 5, i + 7));
    assert(o.subrange(8, 10) =~= l.subrange(i + 8, i + 10));
    assert forall|k: int| 0 <= k < 10 && k != 4 && k != 7 implies chars::is_digit(
        #[trigger] o[k],
    ) by {
        assert(o[k] == l[i + k]);
    }
    let w = iso(y, m, d);
    strs::lemma_same_digits(o.subrange(0, 4), w.subrange(0, 4));
    strs::lemma_same_digits(o.subrange(5, 7), w.subrange(5, 7));
    strs::lemma_same_digits(o.subrange(8, 10), w.subrange(8, 10));
    assert(o[4] == l[i + 4] && o[7] == l[i + 7]);
    assert(w =~= w.subrange(0, 4) + seq!['-'] + w.subrange(5, 7) + seq!['-'] + w.subrange(8, 10));
    assert(o =~= o.subrange(0, 4) + seq!['-'] + o.subrange(5, 7) + seq!['-'] + o.subrange(8, 10));
}

proof fn lemma_iso(y: int, m: int, d: int)
    requires
        0 <= y <= 9999,
        0 <= m <= 99,
        0 <= d <= 99,
    ensures
        ({
            let s = iso(y, m, d);
            &&& s.len() == 10
            &&& s[4] == '-'
            &&& s[7] == '-'
            &&& forall|k: int|
                0 <= k < 10 && k != 4 && k != 7 ==> chars::is_digit(#[trigger] s[k])
            &&& strs::value_of(s.subrange(0, 4), 4) == y
            &&& strs::value_of(s.subrange(5, 7), 2) == m
            &&& strs::value_of(s.subrange(8, 10), 2) == d
        }),
{
    reveal_strlit("-");
    strs::lemma_padded_value(y, 4);
    strs::lemma_padded_value(m, 2);
    strs::lemma_padded_value(d, 2);
    let (a, b, c) = (padded(y, 4), padded(m, 2), padded(d, 2));
    let s = iso(y, m, d);
    assert(s.subrange(0, 4) =~= a);
    assert(s.subrange(5, 7) =~= b);
    assert(s.subrange(8, 10) =~= c);
    assert forall|k: int| 0 <= k < 10 && k != 4 && k != 7 implies chars::is_digit(
        #[trigger] s[k],
    ) by {
        if k < 4 {
            assert(s[k] == a[k]);
        } else if k < 7 {
            assert(s[k] == b[k - 5]);
        } else {
            assert(s[k] == c[k - 8]);
        }
    }
}

} // verus!
