//! Dated items of a HyperList as calendar events.
//!
//! A date is written `YYYY-MM-DD`, `DD.MM.YYYY` or `DD/MM/YYYY`.

use vstd::prelude::*;
use vstd::string::*;
use crate::chars;
use crate::chars::ascii_digit;
use crate::dates;
use crate::dates::{days_in_month, iso_text, pad};
use crate::editor::items;
use crate::strs;
use crate::strs::{
    cat2, cat3, clip, dec, next_char, one, parse_number, parse_signed, replace_char, split_lines,
    trim,
};
use crate::fold;
use crate::text;
use crate::text::{chars_of, piece};

verus! {

pub struct Event {
    pub year: i64,
    pub month: u32,
    pub day: u32,
    pub summary: String,
}

/// Model of an [`Event`].
#[verifier::ext_equal]
pub struct EventV {
    pub date: (int, int, int),
    pub summary: Seq<char>,
}

impl View for Event {
    type V = EventV;

    open spec fn view(&self) -> EventV {
        EventV {
            date: (self.year as int, self.month as int, self.day as int),
            summary: self.summary@,
        }
    }
}

/// A date out of its three parts, when each is a number.
pub open spec fn date_of(y: Seq<char>, m: Seq<char>, d: Seq<char>) -> Option<(int, int, int)> {
    match strs::signed_number(y, i64::MAX as int) {
        Some(yy) => match strs::plus_number(m, u32::MAX as int) {
            Some(mm) => match strs::plus_number(d, u32::MAX as int) {
                Some(dd) => Some((yy, mm, dd)),
                None => None,
            },
            None => None,
        },
        None => None,
    }
}

/// The year first, at index `i`.
pub open spec fn iso_at(l: Seq<char>, i: int) -> Option<(int, int, int)> {
    if l[i + 4] == '-' && l[i + 7] == '-' {
        date_of(l.subrange(i, i + 4), l.subrange(i + 5, i + 7), l.subrange(i + 8, i + 10))
    } else {
        None
    }
}

/// The day first, at index `i`, with `sep` between the parts.
pub open spec fn day_first_at(l: Seq<char>, i: int, sep: char) -> Option<(int, int, int)> {
    if l[i + 2] == sep && l[i + 5] == sep {
        date_of(l.subrange(i + 6, i + 10), l.subrange(i + 3, i + 5), l.subrange(i, i + 2))
    } else {
        None
    }
}

pub open spec fn date_at(l: Seq<char>, i: int) -> Option<(int, int, int)> {
    match iso_at(l, i) {
        Some(d) => Some(d),
        None => match day_first_at(l, i, '.') {
            Some(d) => Some(d),
            None => day_first_at(l, i, '/'),
        },
    }
}

/// The first date from index `i` on.
pub open spec fn date_from(l: Seq<char>, i: int) -> Option<(int, int, int)>
    decreases l.len() - i,
{
    if i < 0 || i + 10 > l.len() {
        None
    } else if chars::is_digit(l[i]) && date_at(l, i) is Some {
        date_at(l, i)
    } else {
        date_from(l, i + 1)
    }
}

pub open spec fn triple(r: Option<(i64, u32, u32)>) -> Option<(int, int, int)> {
    match r {
        Some((y, m, d)) => Some((y as int, m as int, d as int)),
        None => None,
    }
}

fn read_date(y: &str, m: &str, d: &str) -> (r: Option<(i64, u32, u32)>)
    ensures
        triple(r) == date_of(y@, m@, d@),
{
    match parse_signed(y) {
        Some(yy) => match parse_number(m, 0xffff_ffff) {
            Some(mm) => match parse_number(d, 0xffff_ffff) {
                Some(dd) => Some((yy as i64, mm as u32, dd as u32)),
                None => None,
            },
            None => None,
        },
        None => None,
    }
}

fn try_iso_at(v: &Vec<char>, i: usize) -> (r: Option<(i64, u32, u32)>)
    requires
        i + 10 <= v.len(),
    ensures
        triple(r) == iso_at(v@, i as int),
{
    if v[i + 4] == '-' && v[i + 7] == '-' {
        read_date(&piece(v, i, i + 4), &piece(v, i + 5, i + 7), &piece(v, i + 8, i + 10))
    } else {
        None
    }
}

fn try_day_first_at(v: &Vec<char>, i: usize, sep: char) -> (r: Option<(i64, u32, u32)>)
    requires
        i + 10 <= v.len(),
    ensures
        triple(r) == day_first_at(v@, i as int, sep),
{
    if v[i + 2] == sep && v[i + 5] == sep {
        read_date(&piece(v, i + 6, i + 10), &piece(v, i + 3, i + 5), &piece(v, i, i + 2))
    } else {
        None
    }
}

/// The first date of a line.
pub fn scan_date(s: &str) -> (r: Option<(i64, u32, u32)>)
    ensures
        triple(r) == date_from(s@, 0),
{
    let v: Vec<char> = chars_of(s);
    let mut i: usize = 0;
    while i < v.len() && v.len() - i >= 10
        invariant
            i <= v.len(),
            v@ == s@,
            date_from(s@, 0) == date_from(s@, i as int),
        decreases v.len() - i,
    {
        if ascii_digit(v[i]) {
            if let Some(d) = try_iso_at(&v, i) {
                return Some(d);
            }
            if let Some(d) = try_day_first_at(&v, i, '.') {
                return Some(d);
            }
            if let Some(d) = try_day_first_at(&v, i, '/') {
                return Some(d);
            }
        }
        i += 1;
    }
    None
}

/// What an event is called: the item without its indentation and its first
/// qualifier.
pub open spec fn summary_of(l: Seq<char>) -> Seq<char> {
    let s = l.skip(items::lead(l));
    let a = text::skip_fwd(s, 0, strs::other_than('['));
    let b = text::skip_fwd(s, a, strs::other_than(']'));
    if a < s.len() && b < s.len() {
        strs::trimmed(s.take(a) + s.skip(b + 1))
    } else {
        s
    }
}

/// What an event is about: the item without its marks and its first
/// qualifier.
pub fn sanitize_summary(line: &str) -> (r: String)
    ensures
        r@ == summary_of(line@),
{
    let v: Vec<char> = chars_of(line);
    let n: usize = items::lead_len(&v);
    let s: String = piece(&v, n, v.len());
    assert(s@ =~= line@.skip(n as int));
    let w: Vec<char> = chars_of(&s);
    let a: usize = next_char(&w, '[', 0);
    proof {
        text::lemma_skip_fwd(w@, 0, strs::other_than('['));
    }
    if a >= w.len() {
        return s;
    }
    let b: usize = next_char(&w, ']', a);
    proof {
        text::lemma_skip_fwd(w@, a as int, strs::other_than(']'));
    }
    if b >= w.len() {
        return s;
    }
    let x: String = piece(&w, 0, a);
    let y: String = piece(&w, b + 1, w.len());
    assert(x@ =~= s@.take(a as int));
    assert(y@ =~= s@.skip(b + 1));
    trim(&cat2(&x, &y))
}

/// `d` is no earlier than `t`.
pub open spec fn not_before(d: (int, int, int), t: (int, int, int)) -> bool {
    d.0 > t.0 || d.0 == t.0 && (d.1 > t.1 || d.1 == t.1 && d.2 >= t.2)
}

/// Whether a date is not past.
pub fn is_future_or_today(d: (i64, u32, u32), today: (i64, u32, u32)) -> (r: bool)
    ensures
        r == not_before(
            (d.0 as int, d.1 as int, d.2 as int),
            (today.0 as int, today.1 as int, today.2 as int),
        ),
{
    d.0 > today.0 || d.0 == today.0 && (d.1 > today.1 || d.1 == today.1 && d.2 >= today.2)
}

/// The event of a line: its date and what it is called. Without `all` a date
/// that has passed is none.
pub open spec fn event_of(l: Seq<char>, today: (int, int, int), all: bool) -> Option<EventV> {
    let t = strs::trimmed(l);
    match date_from(t, 0) {
        Some(d) => if all || not_before(d, today) {
            Some(EventV { date: d, summary: summary_of(t) })
        } else {
            None
        },
        None => None,
    }
}

/// The events of the first `n` lines.
pub open spec fn events(ls: Seq<Seq<char>>, today: (int, int, int), all: bool, n: int) -> Seq<EventV>
    decreases n,
{
    if n <= 0 {
        Seq::empty()
    } else {
        let r = events(ls, today, all, n - 1);
        match event_of(ls[n - 1], today, all) {
            Some(e) => r.push(e),
            None => r,
        }
    }
}

/// Unless all dates are asked for, no event that has passed is among those
/// found.
pub proof fn law_no_past_events(
    ls: Seq<Seq<char>>,
    today: (int, int, int),
    n: int,
    i: int,
)
    requires
        0 <= i < events(ls, today, false, n).len(),
    ensures
        not_before(events(ls, today, false, n)[i].date, today),
    decreases n,
{
    if n > 0 && i < events(ls, today, false, n - 1).len() {
        law_no_past_events(ls, today, n - 1, i);
    }
}

pub open spec fn events_view(v: Seq<Event>) -> Seq<EventV> {
    Seq::new(v.len(), |i: int| v[i]@)
}

fn line_event(line: &str, today: (i64, u32, u32), all: bool) -> (r: Option<Event>)
    ensures
        event_of(line@, (today.0 as int, today.1 as int, today.2 as int), all) == match r {
            Some(e) => Some(e@),
            None => None,
        },
{
    let t: String = trim(line);
    match scan_date(&t) {
        Some(d) => if all || is_future_or_today(d, today) {
            Some(Event { year: d.0, month: d.1, day: d.2, summary: sanitize_summary(&t) })
        } else {
            None
        },
        None => None,
    }
}

/// The events of a text, in order: those of today and later, or all.
pub fn add_future_events(t: &str, today: (i64, u32, u32), alldates: bool) -> (out: Vec<Event>)
    ensures
        ({
            let ls = strs::lines_from(t@, 0);
            events_view(out@) == events(
                ls,
                (today.0 as int, today.1 as int, today.2 as int),
                alldates,
                ls.len() as int,
            )
        }),
{
    let ghost td = (today.0 as int, today.1 as int, today.2 as int);
    let ls: Vec<String> = split_lines(t);
    let ghost lv = strs::lines_from(t@, 0);
    let mut out: Vec<Event> = Vec::new();
    let mut i: usize = 0;
    assert(events_view(out@) =~= events(lv, td, alldates, 0));
    while i < ls.len()
        invariant
            i <= ls.len(),
            lv == fold::views(ls@),
            td == (today.0 as int, today.1 as int, today.2 as int),
            events_view(out@) == events(lv, td, alldates, i as int),
        decreases ls.len() - i,
    {
        let ghost before = out@;
        assert(lv[i as int] == ls@[i as int]@);
        if let Some(e) = line_event(&ls[i], today, alldates) {
            let ghost ev = e@;
            out.push(e);
            assert(events_view(out@) =~= events_view(before).push(ev));
        }
        i += 1;
    }
    out
}

impl Event {
    /// The event's date as `YYYY-MM-DD`.
    pub fn when(&self) -> (s: String)
        ensures
            s@ == dates::iso(self@.date.0, self@.date.1, self@.date.2),
    {
        iso_text(self.year as i128, self.month as i128, self.day as i128)
    }

    /// The date without dashes.
    fn stamp(&self) -> (s: String)
        ensures
            s@ == stamp_of(self@.date),
    {
        cat3(
            &pad(self.year as i128, 4),
            &pad(self.month as i128, 2),
            &pad(self.day as i128, 2),
        )
    }

    /// Name of the event's calendar file.
    pub fn ics_name(&self) -> (s: String)
        ensures
            s@ == ics_name_of(self@),
    {
        let v: Vec<char> = chars_of(&self.summary);
        let mut t: String = String::new();
        let mut i: usize = 0;
        while i < v.len()
            invariant
                i <= v.len(),
                v@ == self.summary@,
                t@ == name_chars(self.summary@, i as int),
            decreases v.len() - i,
        {
            if v[i].is_alphanumeric() || v[i] == '_' {
                t = cat2(&t, &one(v[i]));
            }
            i += 1;
        }
        let name: String = clip(&t, 20);
        let head: String = cat2(&self.stamp(), "-");
        if chars_of(&name).len() == 0 {
            cat3(&head, "event", ".ics")
        } else {
            cat3(&head, &name, ".ics")
        }
    }

    /// The event's calendar file.
    pub fn ics_body(&self) -> (s: String)
        ensures
            s@ == ics_text(self@),
    {
        let stamp: String = self.stamp();
        let id: String = replace_char(&clip(&self.summary, 8), ' ', "_");
        let name: String = replace_char(&replace_char(&self.summary, ',', "\\,"), ';', "\\;");
        let a: String = cat3(
            "BEGIN:VCALENDAR\r\nVERSION:2.0\r\nPRODID:-//scribe//hyperlist//EN\r\nBEGIN:VEVENT\r\nUID:scribe-",
            &stamp,
            "-",
        );
        let b: String = cat3(&a, &id, "@local\r\nDTSTART;VALUE=DATE:");
        let c: String = cat3(&b, &stamp, "\r\nSUMMARY:");
        cat3(&c, &name, "\r\nEND:VEVENT\r\nEND:VCALENDAR\r\n")
    }
}

pub open spec fn stamp_of(d: (int, int, int)) -> Seq<char> {
    dates::padded(d.0, 4) + dates::padded(d.1, 2) + dates::padded(d.2, 2)
}

/// Letters, digits and underscores of the first `n` characters.
pub open spec fn name_chars(s: Seq<char>, n: int) -> Seq<char>
    decreases n,
{
    if n <= 0 {
        Seq::empty()
    } else {
        name_chars(s, n - 1) + if chars::is_alnum(s[n - 1]) || s[n - 1] == '_' {
            seq![s[n - 1]]
        } else {
            Seq::empty()
        }
    }
}

pub open spec fn ics_name_of(e: EventV) -> Seq<char> {
    let t = strs::clipped(name_chars(e.summary, e.summary.len() as int), 20);
    stamp_of(e.date) + "-"@ + (if t.len() == 0 {
        "event"@
    } else {
        t
    }) + ".ics"@
}

pub open spec fn replaced(s: Seq<char>, c: char, r: Seq<char>) -> Seq<char> {
    strs::char_replaced(s, c, r, s.len() as int)
}

pub open spec fn ics_text(e: EventV) -> Seq<char> {
    "BEGIN:VCALENDAR\r\nVERSION:2.0\r\nPRODID:-//scribe//hyperlist//EN\r\nBEGIN:VEVENT\r\nUID:scribe-"@
        + stamp_of(e.date) + "-"@ + replaced(strs::clipped(e.summary, 8), ' ', "_"@)
        + "@local\r\nDTSTART;VALUE=DATE:"@ + stamp_of(e.date) + "\r\nSUMMARY:"@ + replaced(
        replaced(e.summary, ',', "\\,"@),
        ';',
        "\\;"@,
    ) + "\r\nEND:VEVENT\r\nEND:VCALENDAR\r\n"@
}

// ── The report ──────────────────────────────────────────────────────────

/// How many events were posted, and what went wrong with the others.
pub struct CalendarReport {
    pub posted: usize,
    pub errors: Vec<String>,
}

/// Number of successes among the first `n` results.
pub open spec fn successes(rs: Seq<Result<(), String>>, n: int) -> int
    decreases n,
{
    if n <= 0 {
        0
    } else {
        successes(rs, n - 1) + if rs[n - 1] is Ok {
            1int
        } else {
            0
        }
    }
}

/// The errors among the first `n` results, each with its event's date.
pub open spec fn failures(es: Seq<EventV>, rs: Seq<Result<(), String>>, n: int) -> Seq<Seq<char>>
    decreases n,
{
    if n <= 0 {
        Seq::empty()
    } else {
        let f = failures(es, rs, n - 1);
        let d = es[n - 1].date;
        match rs[n - 1] {
            Ok(u) => f,
            Err(e) => f.push(dates::iso(d.0, d.1, d.2) + ": "@ + e@),
        }
    }
}

impl CalendarReport {
    /// The report on the results of posting the events, one for each.
    pub fn of(es: &Vec<Event>, rs: &Vec<Result<(), String>>) -> (r: CalendarReport)
        requires
            es@.len() == rs@.len(),
        ensures
            r.posted == successes(rs@, rs@.len() as int),
            fold::views(r.errors@) == failures(events_view(es@), rs@, rs@.len() as int),
    {
        let mut posted: usize = 0;
        let mut errors: Vec<String> = Vec::new();
        let mut i: usize = 0;
        assert(fold::views(errors@) =~= failures(events_view(es@), rs@, 0));
        while i < rs.len()
            invariant
                i <= rs.len(),
                es@.len() == rs@.len(),
                posted <= i,
                posted == successes(rs@, i as int),
                fold::views(errors@) == failures(events_view(es@), rs@, i as int),
            decreases rs.len() - i,
        {
            let ghost before = errors@;
            match &rs[i] {
                Ok(_) => {
                    posted += 1;
                },
                Err(e) => {
                    assert(events_view(es@)[i as int] == es@[i as int]@);
                    let m: String = cat3(&es[i].when(), ": ", e);
                    let ghost mv = m@;
                    errors.push(m);
                    assert(fold::views(errors@) =~= fold::views(before).push(mv));
                },
            }
            i += 1;
        }
        CalendarReport { posted, errors }
    }

    /// The report in a line, and its colour.
    pub fn message(&self, calendar: bool) -> (r: (String, u8))
        ensures
            (r.0@, r.1) == report_line(self.posted as int, fold::views(self.errors@), calendar),
    {
        if self.errors.len() == 0 {
            let a: String = cat3(" ", &dec(self.posted as u128), " events posted via ");
            (
                cat2(
                    &a,
                    if calendar {
                        "gcalcli"
                    } else {
                        "ics files"
                    },
                ),
                46,
            )
        } else {
            assert(fold::views(self.errors@)[0] == self.errors@[0]@);
            let a: String = cat3(" ", &dec(self.posted as u128), " posted, ");
            let b: String = cat3(&a, &dec(self.errors.len() as u128), " errors (first: ");
            (cat3(&b, &self.errors[0], ")"), 178)
        }
    }
}

pub open spec fn report_line(posted: int, errors: Seq<Seq<char>>, calendar: bool) -> (
    Seq<char>,
    u8,
) {
    if errors.len() == 0 {
        (
            " "@ + strs::dec_of(posted) + " events posted via "@ + (if calendar {
                "gcalcli"@
            } else {
                "ics files"@
            }),
            46,
        )
    } else {
        (
            " "@ + strs::dec_of(posted) + " posted, "@ + strs::dec_of(errors.len() as int)
                + " errors (first: "@ + errors[0] + ")"@,
            178,
        )
    }
}

/// The calendar to post to: the one that is set, as long as the program that
/// posts to it can be run.
pub fn calendar_target(calendar: Option<String>, runnable: bool) -> (r: Option<String>)
    ensures
        runnable ==> r == calendar,
        !runnable ==> r is None,
{
    if runnable {
        calendar
    } else {
        None
    }
}

// ── Today ───────────────────────────────────────────────────────────────

proof fn lemma_month(y: int, m: int)
    requires
        1 <= m <= 12,
    ensures
        m < 12 ==> dates::jdn(y, m + 1, 1) == dates::jdn(y, m, 1) + dates::month_len(y, m),
        m == 12 ==> dates::jdn(y + 1, 1, 1) == dates::jdn(y, 12, 1) + 31,
{
    dates::law_months_follow(y, m);
    assert(dates::jdn(y, m, dates::month_len(y, m)) == dates::jdn(y, m, 1) + dates::month_len(y, m)
        - 1);
}

/// The date that many days after the first of January 1970, or before it when
/// the number is negative.
pub fn days_to_ymd(days: i64) -> (r: (i64, u32, u32))
    ensures
        dates::valid_date(r.0 as int, r.1 as int, r.2 as int),
        dates::jdn(r.0 as int, r.1 as int, r.2 as int) == days + 2440588,
        days + 2440588 >= dates::jdn(-4799, 1, 1) ==> (r.0 as int, r.1 as int, r.2 as int)
            == dates::civil(days + 2440588),
{
    let mut left: i64 = days;
    let mut year: i64 = 1970;
    assert(dates::jdn(1970, 1, 1) == 2440588);
    while left < 0
        invariant
            days <= left,
            left == days || left < 366,
            year <= 1970,
            365 * (1970 - year) <= left - days,
            dates::jdn(year as int, 1, 1) + left == days + 2440588,
        decreases (if left < 0 { -(left as int) } else { 0 }),
    {
        proof {
            dates::lemma_next_year(year - 1);
        }
        year -= 1;
        left += if dates::is_leap(year) {
            366
        } else {
            365
        };
    }
    let ghost first = left;
    let ghost from = year;
    loop
        invariant
            0 <= left <= first,
            from <= year,
            -30_000_000_000_000_000 <= from <= 1970,
            365 * (year - from) <= first - left,
            dates::jdn(year as int, 1, 1) + left == days + 2440588,
        ensures
            0 <= left < 366,
            left < 365 || dates::leap(year as int),
            dates::jdn(year as int, 1, 1) + left == days + 2440588,
        decreases left,
    {
        let n: i64 = if dates::is_leap(year) {
            366
        } else {
            365
        };
        if left < n {
            break;
        }
        proof {
            dates::lemma_next_year(year as int);
        }
        left -= n;
        year += 1;
    }
    let mut month: u32 = 1;
    let mut d: i64 = left;
    proof {
        dates::lemma_next_year(year as int);
    }
    while month < 12 && d >= days_in_month(year, month)
        invariant
            1 <= month <= 12,
            0 <= d < 366,
            dates::jdn(year as int, month as int, 1) + d == days + 2440588,
            dates::jdn(year as int, month as int, 1) + d < dates::jdn(year + 1, 1, 1),
        decreases 12 - month,
    {
        proof {
            lemma_month(year as int, month as int);
        }
        d -= days_in_month(year, month);
        month += 1;
    }
    proof {
        lemma_month(year as int, month as int);
        if days + 2440588 >= dates::jdn(-4799, 1, 1) {
            dates::law_dates_increase(year as int, month as int, d + 1, -4799, 1, 1);
            dates::law_date_round_trip(year as int, month as int, d + 1);
        }
    }
    (year, month, d as u32 + 1)
}

/// The date that many seconds after the start of 1970.
pub fn today_ymd(secs: u64) -> (r: (i64, u32, u32))
    ensures
        dates::valid_date(r.0 as int, r.1 as int, r.2 as int),
        dates::jdn(r.0 as int, r.1 as int, r.2 as int) == secs / 86400 + 2440588,
{
    days_to_ymd((secs / 86400) as i64)
}

// ── What the calendar holds ─────────────────────────────────────────────

/// A date is read alike with the year first and hyphens, and with the day
/// first and periods or slashes.
pub proof fn law_date_forms(y: Seq<char>, m: Seq<char>, d: Seq<char>, rest: Seq<char>)
    requires
        y.len() == 4,
        m.len() == 2,
        d.len() == 2,
        strs::all_digits(y),
        strs::all_digits(m),
        strs::all_digits(d),
    ensures
        ({
            let date = Some((strs::value_of(y, 4), strs::value_of(m, 2), strs::value_of(d, 2)));
            &&& date_from(y + seq!['-'] + m + seq!['-'] + d + rest, 0) == date
            &&& date_from(d + seq!['.'] + m + seq!['.'] + y + rest, 0) == date
            &&& date_from(d + seq!['/'] + m + seq!['/'] + y + rest, 0) == date
        }),
{
    let iso = y + seq!['-'] + m + seq!['-'] + d + rest;
    let dot = d + seq!['.'] + m + seq!['.'] + y + rest;
    let sla = d + seq!['/'] + m + seq!['/'] + y + rest;
    assert(chars::is_digit(y[0]));
    assert(chars::is_digit(m[0]));
    assert(chars::is_digit(m[1]));
    assert(chars::is_digit(d[0]));
    assert(chars::is_digit(d[1]));
    assert(iso.subrange(0, 4) =~= y);
    assert(iso.subrange(5, 7) =~= m);
    assert(iso.subrange(8, 10) =~= d);
    assert(dot.subrange(6, 10) =~= y);
    assert(dot.subrange(3, 5) =~= m);
    assert(dot.subrange(0, 2) =~= d);
    assert(sla.subrange(6, 10) =~= y);
    assert(sla.subrange(3, 5) =~= m);
    assert(sla.subrange(0, 2) =~= d);
    lemma_small(y);
    lemma_small(m);
    lemma_small(d);
    assert(date_of(y, m, d) == Some(
        (strs::value_of(y, 4), strs::value_of(m, 2), strs::value_of(d, 2)),
    ));
    assert(iso[4] == '-' && iso[7] == '-');
    assert(iso[0] == y[0]);
    assert(dot[2] == '.' && dot[5] == '.');
    assert(dot[4] == m[1]);
    assert(dot[0] == d[0]);
    assert(sla[2] == '/' && sla[5] == '/');
    assert(sla[4] == m[1]);
    assert(sla[0] == d[0]);
}

proof fn lemma_small(s: Seq<char>)
    requires
        s.len() <= 4,
        strs::all_digits(s),
    ensures
        0 <= strs::value_of(s, s.len() as int) <= 9999,
{
    reveal_with_fuel(strs::value_of, 5);
    assert forall|i: int| 0 <= i < s.len() implies 0 <= strs::digit_value(#[trigger] s[i]) <= 9 by {
        assert(chars::is_digit(s[i]));
    }
    if s.len() > 0 {
        assert(0 <= strs::digit_value(s[0]) <= 9);
    }
    if s.len() > 1 {
        assert(0 <= strs::digit_value(s[1]) <= 9);
    }
    if s.len() > 2 {
        assert(0 <= strs::digit_value(s[2]) <= 9);
    }
    if s.len() > 3 {
        assert(0 <= strs::digit_value(s[3]) <= 9);
    }
}

/// A date is not past exactly when its day is today's or a later one.
pub proof fn law_not_past(d: (int, int, int), today: (int, int, int))
    requires
        dates::valid_date(d.0, d.1, d.2),
        dates::valid_date(today.0, today.1, today.2),
    ensures
        not_before(d, today) == (dates::jdn(d.0, d.1, d.2) >= dates::jdn(
            today.0,
            today.1,
            today.2,
        )),
{
    dates::law_dates_increase(d.0, d.1, d.2, today.0, today.1, today.2);
}

/// The events of lines come in the order of the lines; a line without a date
/// gives none, and with all dates asked for every line with a date gives one.
pub proof fn law_events_in_order(
    a: Seq<Seq<char>>,
    b: Seq<Seq<char>>,
    today: (int, int, int),
    all: bool,
)
    ensures
        events(a + b, today, all, (a + b).len() as int) == events(a, today, all, a.len() as int)
            + events(b, today, all, b.len() as int),
        a.len() == 1 && date_from(strs::trimmed(a[0]), 0) is None ==> events(
            a,
            today,
            all,
            1,
        ).len() == 0,
        a.len() == 1 && all && date_from(strs::trimmed(a[0]), 0) is Some ==> events(
            a,
            today,
            all,
            1,
        ).len() == 1 && events(a, today, all, 1)[0].date == date_from(strs::trimmed(a[0]), 0)->0,
    decreases b.len(),
{
    let m = a.len() as int;
    let n = b.len() as int;
    if m == 1 {
        assert(events(a, today, all, 0) =~= Seq::empty());
    }
    if n == 0 {
        assert(a + b =~= a);
        assert(events(a, today, all, m) + events(b, today, all, 0) =~= events(a, today, all, m));
    } else {
        let c = b.drop_last();
        law_events_in_order(a, c, today, all);
        lemma_events_prefix(a + c, a + b, today, all, m + n - 1);
        lemma_events_prefix(c, b, today, all, n - 1);
        assert((a + b)[m + n - 1] == b[n - 1]);
        let x = events(a, today, all, m);
        let y = events(b, today, all, n - 1);
        if let Some(e) = event_of(b[n - 1], today, all) {
            assert((x + y).push(e) =~= x + y.push(e));
        }
    }
}

proof fn lemma_events_prefix(
    a: Seq<Seq<char>>,
    b: Seq<Seq<char>>,
    today: (int, int, int),
    all: bool,
    n: int,
)
    requires
        0 <= n <= a.len(),
        n <= b.len(),
        forall|k: int| 0 <= k < n ==> #[trigger] a[k] == b[k],
    ensures
        events(a, today, all, n) == events(b, today, all, n),
    decreases n,
{
    if n > 0 {
        lemma_events_prefix(a, b, today, all, n - 1);
        assert(a[n - 1] == b[n - 1]);
    }
}

/// An event is called what its item says, without the indentation and without
/// the first qualifier in brackets.
pub proof fn law_summary(lead: Seq<char>, a: Seq<char>, q: Seq<char>, b: Seq<char>)
    requires
        forall|k: int|
            0 <= k < lead.len() ==> (#[trigger] lead[k] == '\t' || lead[k] == ' ' || lead[k]
                == '*'),
        a.len() > 0,
        a[0] != '\t' && a[0] != ' ' && a[0] != '*',
        !a.contains('['),
        !q.contains(']'),
    ensures
        summary_of(lead + a + seq!['['] + q + seq![']'] + b) == strs::trimmed(a + b),
        summary_of(lead + a) == a,
{
    let s = a + seq!['['] + q + seq![']'] + b;
    let l = lead + a + seq!['['] + q + seq![']'] + b;
    lemma_lead(lead, s, l);
    assert(l =~= lead + s);
    lemma_lead(lead, a, lead + a);
    let p = strs::other_than('[');
    let r = strs::other_than(']');
    text::lemma_skip_fwd(a, 0, p);
    let i = text::skip_fwd(a, 0, p);
    if i < a.len() {
        assert(a.contains(a[i]));
    }
    text::lemma_skip_fwd(s, 0, p);
    let j = text::skip_fwd(s, 0, p);
    let m = a.len() as int;
    assert(s[m] == '[');
    if j < m {
        assert(s[j] == a[j]);
        assert(a.contains(a[j]));
    } else if j > m {
        assert(p(s[m]));
    }
    text::lemma_skip_fwd(s, m, r);
    let k = text::skip_fwd(s, m, r);
    let e = m + 1 + q.len();
    assert(s[e] == ']');
    if k < e {
        if k == m {
            assert(!r(s[m]));
        } else {
            assert(s[k] == q[k - m - 1]);
            assert(q.contains(q[k - m - 1]));
        }
    } else if k > e {
        assert(r(s[e]));
    }
    assert(s.take(m) =~= a);
    assert(s.skip(e + 1) =~= b);
}

proof fn lemma_lead(lead: Seq<char>, s: Seq<char>, l: Seq<char>)
    requires
        forall|k: int|
            0 <= k < lead.len() ==> (#[trigger] lead[k] == '\t' || lead[k] == ' ' || lead[k]
                == '*'),
        s.len() > 0,
        s[0] != '\t' && s[0] != ' ' && s[0] != '*',
        l =~= lead + s,
    ensures
        items::lead(l) == lead.len(),
        l.skip(lead.len() as int) == s,
{
    let f = items::lead_fn();
    text::lemma_skip_fwd(l, 0, f);
    let m = items::lead(l);
    if m < lead.len() {
        assert(l[m] == lead[m]);
        assert(!f(l[m]));
    } else if m > lead.len() {
        assert(f(l[lead.len() as int]));
        assert(l[lead.len() as int] == s[0]);
    }
    assert(l.skip(lead.len() as int) =~= s);
}

/// Every result is either counted as posted or told as an error.
pub proof fn law_all_reported(es: Seq<EventV>, rs: Seq<Result<(), String>>, n: int)
    requires
        0 <= n <= rs.len(),
        rs.len() == es.len(),
    ensures
        successes(rs, n) + failures(es, rs, n).len() == n,
        (forall|i: int| 0 <= i < n ==> (#[trigger] rs[i]) is Ok) ==> failures(es, rs, n).len() == 0,
        (forall|i: int| 0 <= i < n ==> (#[trigger] rs[i]) is Err) ==> successes(rs, n) == 0,
    decreases n,
{
    if n > 0 {
        law_all_reported(es, rs, n - 1);
    }
}

/// The name of an event's file has nothing of the summary in it but letters,
/// digits and underscores, and these in their order.
pub proof fn law_name_chars(a: Seq<char>, c: char)
    ensures
        name_chars(a.push(c), a.len() + 1int) == (if chars::is_alnum(c) || c == '_' {
            name_chars(a, a.len() as int).push(c)
        } else {
            name_chars(a, a.len() as int)
        }),
{
    assert(a.push(c)[a.len() as int] == c);
    lemma_name_front(a, c, a.len() as int);
    let f = name_chars(a, a.len() as int);
    assert(f + seq![c] =~= f.push(c));
    assert(f + Seq::<char>::empty() =~= f);
}

proof fn lemma_name_front(a: Seq<char>, c: char, n: int)
    requires
        n <= a.len(),
    ensures
        name_chars(a.push(c), n) == name_chars(a, n),
    decreases n,
{
    if n > 0 {
        lemma_name_front(a, c, n - 1);
        assert(a.push(c)[n - 1] == a[n - 1]);
    }
}

} // verus!
