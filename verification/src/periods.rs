//! The keys of the chart periods a reading belongs to (week, month,
//! 26-week semester, 36-month triennium), the query ranges of each period,
//! and the list of periods that a set of dates covers.
use vstd::prelude::*;
use vstd::string::{StrSliceExecFns, StringSliceAdditionalSpecFns};
use vstd::utf8::{decode_utf8, encode_utf8, is_char_boundary};

use crate::calendar::weekday_of;
use crate::civil::{
    checked_add_days, checked_add_weeks, checked_sub_days, chrono_parsed_date, date_at,
    date_from_ymd, date_text, format_date, in_chrono_range, iso_date_format, lemma_date_at,
    lemma_date_text_injective, lemma_valid_date, parse_date, weekday_from_monday, weeks_between, Date,
};
use crate::text::{
    int_text, lemma_short_text_value, parse_i32, parse_u32, parsed_i32, parsed_u32, push_char,
    push_int, push_padded,
};

verus! {

/// The format string "%Y-%m-%d".
pub(crate) fn iso_format() -> (r: &'static str)
    ensures
        r@ == iso_date_format(),
{
    let f = "%Y-%m-%d";
    proof {
        reveal_strlit("%Y-%m-%d");
    }
    assert(f@ =~= iso_date_format());
    f
}

/// The month key "YYYY-MM" of a reading's hour key: its first seven bytes.
pub fn month_of(hour: &str) -> (r: String)
    requires
        hour.spec_bytes().len() >= 7,
        is_char_boundary(hour.spec_bytes(), 7),
    ensures
        encode_utf8(r@) == hour.spec_bytes().subrange(0, 7),
{
    let (head, _tail) = hour.split_at(7);
    head.to_owned()
}

/// The triennium (36 months, counted from January 1970) that month `month`
/// of year `year` falls in.
pub open spec fn triennium_index(year: int, month: int) -> int {
    ((year - 1970) * 12 + month - 1) / 36
}

/// The start key "Y-01-01" of that triennium, the year written as `{}`.
pub open spec fn triennium_start_text(year: int, month: int) -> Seq<char> {
    int_text(1970 + 3 * triennium_index(year, month)) + seq!['-', '0', '1', '-', '0', '1']
}

/// The year `s[0..4]` and month `s[5..7]` of a key, as the server parses them.
pub open spec fn key_year_month(b: Seq<u8>) -> (Option<i32>, Option<u32>) {
    (parsed_i32(b.subrange(0, 4)), parsed_u32(b.subrange(5, 7)))
}

/// The key starts with a year and a month the server can read: `s[0..4]`
/// parses as an `i32` and `s[5..7]` as a `u32`.
pub open spec fn has_year_month(b: Seq<u8>) -> bool {
    b.len() >= 7 && key_year_month(b).0 is Some && key_year_month(b).1 is Some
}

/// Whether a key starts with a year and a month the server can read.
pub fn reads_year_month(key: &str) -> (r: bool)
    ensures
        r == has_year_month(key.spec_bytes()),
{
    let b = key.as_bytes();
    b.len() >= 7 && parse_i32(b, 0, 4).is_some() && parse_u32(b, 5, 7).is_some()
}

/// Reads the year and month of a key.
pub(crate) fn year_month(b: &[u8]) -> (r: (i32, u32))
    requires
        has_year_month(b@),
    ensures
        r.0 == key_year_month(b@).0.unwrap(),
        r.1 == key_year_month(b@).1.unwrap(),
        -10000 < r.0 < 10000,
        r.1 < 100,
{
    let y = parse_i32(b, 0, 4).unwrap();
    let m = parse_u32(b, 5, 7).unwrap();
    proof {
        lemma_short_text_value(b@.subrange(0, 4));
        lemma_short_text_value(b@.subrange(5, 7));
    }
    (y, m)
}

/// Floor division by a positive number, as `i64::div_euclid` computes it.
pub(crate) fn floor_div(a: i64, b: i64) -> (r: i64)
    requires
        b > 0,
        a > i64::MIN + b,
    ensures
        r == a / b,
{
    if a >= 0 {
        a / b
    } else {
        let q = (0 - a - 1) / b;
        proof {
            let ai = a as int;
            let bi = b as int;
            let qi = q as int;
            assert(-(qi + 1) == ai / bi) by (nonlinear_arith)
                requires
                    qi == (-ai - 1) / bi,
                    ai < 0,
                    bi > 0,
            ;
        }
        0 - q - 1
    }
}

/// The start of the triennium an hour key belongs to, "Y-01-01".
pub fn triennium_start_of(hour: &str) -> (r: String)
    requires
        has_year_month(hour.spec_bytes()),
    ensures
        r@ == triennium_start_text(
            key_year_month(hour.spec_bytes()).0.unwrap() as int,
            key_year_month(hour.spec_bytes()).1.unwrap() as int,
        ),
{
    let (year, mo) = year_month(hour.as_bytes());
    let months: i64 = (year as i64 - 1970) * 12 + mo as i64 - 1;
    let index = floor_div(months, 36);
    let start_year = 1970 + 3 * index;
    let mut s = String::new();
    push_int(&mut s, start_year);
    push_char(&mut s, '-');
    push_padded(&mut s, 1, 2);
    push_char(&mut s, '-');
    push_char(&mut s, '0');
    push_char(&mut s, '1');
    proof {
        reveal_with_fuel(crate::text::decimal_text, 2);
    }
    assert(s@ =~= triennium_start_text(year as int, mo as int));
    s
}

/// The first ten bytes of a key, "YYYY-MM-DD", as text.
pub open spec fn date_part(hour: Seq<char>) -> Seq<char> {
    decode_utf8(encode_utf8(hour).subrange(0, 10))
}

/// The key has ten bytes that can be cut off as text.
pub open spec fn has_date_part(hour: Seq<char>) -> bool {
    encode_utf8(hour).len() >= 10 && is_char_boundary(encode_utf8(hour), 10)
}

/// The date chrono reads from the first ten bytes of a key.
pub open spec fn date_of_key(hour: Seq<char>) -> Option<Date> {
    chrono_parsed_date(date_part(hour), iso_date_format())
}

/// Cuts off the first ten bytes of a key.
pub(crate) fn date_slice(hour: &str) -> (r: &str)
    requires
        has_date_part(hour@),
    ensures
        r@ == date_part(hour@),
{
    let (head, _tail) = hour.split_at(10);
    proof {
        vstd::utf8::encode_utf8_decode_utf8(head@);
    }
    head
}

/// The epoch day of the Monday of the week of `d`.
pub open spec fn monday_day(d: Date) -> int {
    d.day_number() - weekday_of(d.day_number())
}

/// The Monday key of the week of `d`.
pub open spec fn monday_text(d: Date) -> Seq<char> {
    date_text(date_at(monday_day(d)))
}

/// The key's date can be read and its Monday lies in chrono's range.
pub open spec fn monday_of_defined(hour: Seq<char>) -> bool {
    &&& has_date_part(hour)
    &&& date_of_key(hour) is Some
    &&& in_chrono_range(monday_day(date_of_key(hour).unwrap()))
}

/// The Monday of a valid date, when chrono can represent it.
pub(crate) fn monday_date(d: Date) -> (r: Option<Date>)
    requires
        d.valid(),
    ensures
        r is Some <==> in_chrono_range(monday_day(d)),
        r matches Some(m) ==> m.valid() && m.day_number() == monday_day(d) && m == date_at(
            monday_day(d),
        ),
{
    let w = weekday_from_monday(d);
    let r = checked_sub_days(d, w as i64);
    proof {
        if let Some(m) = r {
            lemma_valid_date(m);
        }
    }
    r
}

/// The Monday key "YYYY-MM-DD" of the week of a reading's hour key.
pub fn monday_of(hour: &str) -> (r: String)
    requires
        monday_of_defined(hour@),
    ensures
        r@ == monday_text(date_of_key(hour@).unwrap()),
{
    let date = parse_date(date_slice(hour), iso_format()).unwrap();
    let monday = monday_date(date).unwrap();
    format_date(monday, iso_format())
}

/// The Monday key of a reading's hour key, or `None` where `monday_of`
/// cannot compute it (a key shorter than ten bytes or cut inside a
/// character, a date chrono does not read, a Monday out of range).
pub fn try_monday_of(hour: &str) -> (r: Option<String>)
    ensures
        r is Some <==> monday_of_defined(hour@),
        r matches Some(s) ==> s@ == monday_text(date_of_key(hour@).unwrap()),
{
    if hour.as_bytes().len() < 10 || !hour.is_char_boundary(10) {
        return None;
    }
    match parse_date(date_slice(hour), iso_format()) {
        None => None,
        Some(date) => match monday_date(date) {
            None => None,
            Some(_) => Some(monday_of(hour)),
        },
    }
}

/// Weeks in a semester.
pub const SEMESTER_WEEKS: usize = 26;

/// Semesters are counted from the Monday 1970-01-05, epoch day 4.
pub open spec fn epoch_monday_day() -> int {
    4
}

/// The epoch day of the start of the semester of the week of `d`.
pub open spec fn semester_start_day(d: Date) -> int {
    epoch_monday_day() + 182 * (((monday_day(d) - epoch_monday_day()) / 7) / 26)
}

/// The key's date can be read, and its Monday and its semester's start lie
/// in chrono's range.
pub open spec fn semester_start_defined(hour: Seq<char>) -> bool {
    &&& monday_of_defined(hour)
    &&& in_chrono_range(semester_start_day(date_of_key(hour).unwrap()))
}

/// The semester start key of `d`.
pub open spec fn semester_start_text(d: Date) -> Seq<char> {
    date_text(date_at(semester_start_day(d)))
}

/// The Monday 1970-01-05.
fn epoch_monday() -> (r: Date)
    ensures
        r.valid(),
        r.day_number() == epoch_monday_day(),
{
    let r = date_from_ymd(1970, 1, 5).unwrap();
    proof {
        reveal_with_fuel(crate::calendar::days_before_month, 2);
    }
    r
}

/// The start of the semester of a valid date whose Monday is `monday`.
fn semester_start_date(d: Date, monday: Date) -> (r: Option<Date>)
    requires
        d.valid(),
        monday.valid(),
        monday.day_number() == monday_day(d),
    ensures
        r is Some <==> in_chrono_range(semester_start_day(d)),
        r matches Some(s) ==> s.valid() && s == date_at(semester_start_day(d)),
{
    let epoch = epoch_monday();
    let weeks = weeks_between(monday, epoch);
    proof {
        crate::civil::lemma_valid_date(monday);
        crate::civil::lemma_valid_date(epoch);
        lemma_day_range(monday);
        lemma_monday_mod(d);
    }
    let index = floor_div(weeks, 26);
    let r = checked_add_weeks(epoch, index * 26);
    proof {
        if let Some(s) = r {
            lemma_valid_date(s);
        }
    }
    r
}

/// The epoch days of valid dates are within about 100 million of 1970.
pub(crate) proof fn lemma_day_range(d: Date)
    requires
        d.valid(),
    ensures
        -100_000_000 < d.day_number() < 100_000_000,
{
    crate::calendar::lemma_epoch_day_bounds(d.year as int, d.month as int, d.day as int);
    lemma_days_before_year_range(d.year as int);
    lemma_days_before_year_range(d.year as int + 1);
}

proof fn lemma_days_before_year_range(y: int)
    requires
        -262143 <= y <= 262143,
    ensures
        -100_000_000 < crate::calendar::days_before_year(y) < 100_000_000,
{
    if y >= 1970 {
        crate::calendar::lemma_days_before_year_mono(1970, y);
        lemma_days_before_year_upper(1970, y);
    } else {
        crate::calendar::lemma_days_before_year_mono(y, 1970);
        lemma_days_before_year_upper(y, 1970);
    }
}

proof fn lemma_days_before_year_upper(a: int, b: int)
    requires
        a <= b,
    ensures
        crate::calendar::days_before_year(b) <= crate::calendar::days_before_year(a) + 366 * (b
            - a),
    decreases b - a,
{
    if a < b {
        lemma_days_before_year_upper(a, b - 1);
        crate::calendar::lemma_days_before_year_step(b - 1);
    }
}

/// The Monday of a date is four days after a multiple of seven.
proof fn lemma_monday_mod(d: Date)
    ensures
        (monday_day(d) - epoch_monday_day()) % 7 == 0,
{
}

/// The semester start key "YYYY-MM-DD" of a reading's hour key: the Monday
/// that starts its 26-week block, blocks counted from 1970-01-05.
pub fn semester_start_of(hour: &str) -> (r: String)
    requires
        semester_start_defined(hour@),
    ensures
        r@ == semester_start_text(date_of_key(hour@).unwrap()),
{
    let date = parse_date(date_slice(hour), iso_format()).unwrap();
    let monday = monday_date(date).unwrap();
    let start = semester_start_date(date, monday).unwrap();
    format_date(start, iso_format())
}

/// The semester start key of a reading's hour key, or `None` where
/// `semester_start_of` cannot compute it.
pub fn try_semester_start_of(hour: &str) -> (r: Option<String>)
    ensures
        r is Some <==> semester_start_defined(hour@),
        r matches Some(s) ==> s@ == semester_start_text(date_of_key(hour@).unwrap()),
{
    if hour.as_bytes().len() < 10 || !hour.is_char_boundary(10) {
        return None;
    }
    match parse_date(date_slice(hour), iso_format()) {
        None => None,
        Some(date) => match monday_date(date) {
            None => None,
            Some(monday) => match semester_start_date(date, monday) {
                None => None,
                Some(_) => Some(semester_start_of(hour)),
            },
        },
    }
}

/// The day key of a reading: the first ten characters of its hour key
/// (all of it when shorter).
pub fn day_key_of(hour: &str) -> (r: String)
    ensures
        r@ == hour@.subrange(0, if hour@.len() < 10 {
            hour@.len() as int
        } else {
            10
        }),
{
    let n = hour.unicode_len();
    let k = if n < 10 {
        n
    } else {
        10
    };
    hour.substring_char(0, k).to_owned()
}

/// The SQL `LIKE` pattern of the readings whose hour starts with `key`.
pub fn prefix_pattern(key: &str) -> (r: String)
    ensures
        r@ == key@.push('%'),
{
    let mut s = key.to_owned();
    push_char(&mut s, '%');
    s
}

/// The first and last hour keys of a week, given its Monday key: the Monday
/// at hour 00 (the key as given) and the Sunday at hour 23.
pub open spec fn week_range_spec(monday: Seq<char>, d: Date) -> (Seq<char>, Seq<char>) {
    (monday + seq!['T', '0', '0'], date_text(date_at(d.day_number() + 6)) + seq!['T', '2', '3'])
}

/// chrono reads the Monday key, and the Sunday after it is in range.
pub open spec fn week_range_defined(monday: Seq<char>) -> bool {
    &&& chrono_parsed_date(monday, iso_date_format()) is Some
    &&& in_chrono_range(chrono_parsed_date(monday, iso_date_format()).unwrap().day_number() + 6)
}

fn push_hour_suffix(s: &mut String, late: bool)
    ensures
        final(s)@ == old(s)@ + (if late {
            seq!['T', '2', '3']
        } else {
            seq!['T', '0', '0']
        }),
{
    push_char(s, 'T');
    if late {
        push_char(s, '2');
        push_char(s, '3');
    } else {
        push_char(s, '0');
        push_char(s, '0');
    }
}

/// The hour-key range of the readings of the week starting on `monday`.
pub fn week_query_range(monday: &str) -> (r: (String, String))
    requires
        week_range_defined(monday@),
    ensures
        (r.0@, r.1@) == week_range_spec(
            monday@,
            chrono_parsed_date(monday@, iso_date_format()).unwrap(),
        ),
{
    let date = parse_date(monday, iso_format()).unwrap();
    let sunday = checked_add_days(date, 6).unwrap();
    proof {
        lemma_valid_date(sunday);
    }
    let mut start = monday.to_owned();
    push_hour_suffix(&mut start, false);
    let mut end = format_date(sunday, iso_format());
    push_hour_suffix(&mut end, true);
    (start, end)
}

/// The week range, or `None` where `week_query_range` cannot compute it.
pub fn try_week_query_range(monday: &str) -> (r: Option<(String, String)>)
    ensures
        r is Some <==> week_range_defined(monday@),
        r matches Some(p) ==> (p.0@, p.1@) == week_range_spec(
            monday@,
            chrono_parsed_date(monday@, iso_date_format()).unwrap(),
        ),
{
    match parse_date(monday, iso_format()) {
        None => None,
        Some(date) => match checked_add_days(date, 6) {
            None => None,
            Some(_) => Some(week_query_range(monday)),
        },
    }
}

/// The first and last hour keys of the semester starting on `start`: the
/// start key at hour 00 and the day before the 26th week after it, hour 23.
pub open spec fn semester_range_spec(start: Seq<char>, d: Date) -> (Seq<char>, Seq<char>) {
    (start + seq!['T', '0', '0'], date_text(date_at(d.day_number() + 181)) + seq!['T', '2', '3'])
}

/// chrono reads the start key, and 26 weeks after it is in range.
pub open spec fn semester_range_defined(start: Seq<char>) -> bool {
    &&& chrono_parsed_date(start, iso_date_format()) is Some
    &&& in_chrono_range(chrono_parsed_date(start, iso_date_format()).unwrap().day_number() + 182)
}

/// The hour-key range of the readings of the semester starting on `start_monday`.
pub fn semester_query_range(start_monday: &str) -> (r: (String, String))
    requires
        semester_range_defined(start_monday@),
    ensures
        (r.0@, r.1@) == semester_range_spec(
            start_monday@,
            chrono_parsed_date(start_monday@, iso_date_format()).unwrap(),
        ),
{
    let start = parse_date(start_monday, iso_format()).unwrap();
    proof {
        lemma_valid_date(start);
    }
    let after = checked_add_weeks(start, SEMESTER_WEEKS as i64).unwrap();
    proof {
        lemma_day_range(start);
    }
    let end = checked_sub_days(after, 1).unwrap();
    proof {
        lemma_valid_date(end);
    }
    let mut first = start_monday.to_owned();
    push_hour_suffix(&mut first, false);
    let mut last = format_date(end, iso_format());
    push_hour_suffix(&mut last, true);
    (first, last)
}

/// The semester range, or `None` where `semester_query_range` cannot compute it.
pub fn try_semester_query_range(start_monday: &str) -> (r: Option<(String, String)>)
    ensures
        r is Some <==> semester_range_defined(start_monday@),
        r matches Some(p) ==> (p.0@, p.1@) == semester_range_spec(
            start_monday@,
            chrono_parsed_date(start_monday@, iso_date_format()).unwrap(),
        ),
{
    match parse_date(start_monday, iso_format()) {
        None => None,
        Some(start) => {
            proof {
                lemma_valid_date(start);
            }
            match checked_add_weeks(start, SEMESTER_WEEKS as i64) {
                None => None,
                Some(_) => Some(semester_query_range(start_monday)),
            }
        },
    }
}

/// Months in a triennium.
pub const TRIENNIUM_MONTHS: usize = 36;

/// The month (year, month) before the one 36 months after month `mo` of
/// `year`: the last month of the triennium.
pub open spec fn triennium_last_month(year: int, mo: int) -> (int, int) {
    let total = mo - 1 + 36;
    let end_year = year + total / 12;
    let end_mo = total % 12 + 1;
    if end_mo == 1 {
        (end_year - 1, 12)
    } else {
        (end_year, end_mo - 1)
    }
}

/// The first and last hour keys of the triennium starting at `start`: the
/// key as given at hour 00, and the last day of its last month at hour 23.
pub open spec fn triennium_range_spec(start: Seq<char>, year: int, mo: int) -> (Seq<char>, Seq<char>) {
    let (ly, lm) = triennium_last_month(year, mo);
    (
        start + seq!['T', '0', '0'],
        int_text(ly) + seq!['-'] + crate::text::padded_decimal(lm as nat, 2) + seq!['-']
            + crate::text::padded_decimal(crate::calendar::month_length(ly, lm) as nat, 2)
            + seq!['T', '2', '3'],
    )
}

/// The first day of the month after month `m` (1 to 12) of year `y` is a
/// month length later.
pub(crate) proof fn lemma_next_month_first(y: int, m: int)
    requires
        1 <= m <= 12,
    ensures
        (if m == 12 {
            crate::calendar::epoch_day(y + 1, 1, 1)
        } else {
            crate::calendar::epoch_day(y, m + 1, 1)
        }) - crate::calendar::epoch_day(y, m, 1) == crate::calendar::month_length(y, m),
{
    crate::calendar::lemma_days_before_month_year(y);
    crate::calendar::lemma_days_before_month_year(y + 1);
    crate::calendar::lemma_days_before_year_step(y);
    assert(crate::calendar::days_before_month(y, m + 1) == crate::calendar::days_before_month(y, m)
        + crate::calendar::month_length(y, m));
}

/// The hour-key range of the readings of the triennium starting at `start`
/// ("YYYY-MM-01").
pub fn triennium_query_range(start: &str) -> (r: (String, String))
    requires
        has_year_month(start.spec_bytes()),
    ensures
        (r.0@, r.1@) == triennium_range_spec(
            start@,
            key_year_month(start.spec_bytes()).0.unwrap() as int,
            key_year_month(start.spec_bytes()).1.unwrap() as int,
        ),
{
    let (start_year, start_mo) = year_month(start.as_bytes());
    let total_months: i32 = start_mo as i32 - 1 + TRIENNIUM_MONTHS as i32;
    let end_year: i32 = start_year + total_months / 12;
    let end_mo: u32 = (total_months % 12 + 1) as u32;
    let (last_year, last_mo) = if end_mo == 1 {
        (end_year - 1, 12u32)
    } else {
        (end_year, end_mo - 1)
    };
    let end_date = date_from_ymd(last_year, last_mo, 1).unwrap();
    let next = date_from_ymd(end_year, end_mo, 1).unwrap();
    let days = crate::civil::days_between(next, end_date);
    proof {
        lemma_next_month_first(last_year as int, last_mo as int);
    }
    let mut first = start.to_owned();
    push_hour_suffix(&mut first, false);
    let mut last = String::new();
    push_int(&mut last, end_date.year as i64);
    push_char(&mut last, '-');
    push_padded(&mut last, end_date.month as u64, 2);
    push_char(&mut last, '-');
    push_padded(&mut last, days as u64, 2);
    push_hour_suffix(&mut last, true);
    (first, last)
}

/// The texts of a list of strings.
pub open spec fn texts(v: Seq<String>) -> Seq<Seq<char>> {
    v.map_values(|s: String| s@)
}

/// The date chrono reads from a whole key "YYYY-MM-DD".
pub open spec fn date_of_text(s: Seq<char>) -> Option<Date> {
    chrono_parsed_date(s, iso_date_format())
}

/// The Monday keys of the dates that chrono reads, in order.
pub open spec fn monday_keys(dates: Seq<Seq<char>>) -> Seq<Seq<char>>
    decreases dates.len(),
{
    if dates.len() == 0 {
        Seq::empty()
    } else {
        let rest = monday_keys(dates.drop_last());
        match date_of_text(dates.last()) {
            Some(d) => rest.push(monday_text(d)),
            None => rest,
        }
    }
}

/// A list without runs of equal neighbours (`Vec::dedup`).
pub open spec fn dedup(s: Seq<Seq<char>>) -> Seq<Seq<char>>
    decreases s.len(),
{
    if s.len() == 0 {
        s
    } else {
        let rest = dedup(s.drop_last());
        if rest.len() > 0 && rest.last() == s.last() {
            rest
        } else {
            rest.push(s.last())
        }
    }
}

/// The Monday of every date chrono reads lies in chrono's range.
pub open spec fn weeks_defined(dates: Seq<Seq<char>>) -> bool {
    forall|i: int|
        0 <= i < dates.len() ==> (#[trigger] date_of_text(dates[i]) matches Some(d) ==> in_chrono_range(
            monday_day(d),
        ))
}

/// The Monday keys of the weeks of the given dates ("YYYY-MM-DD"), without
/// repeating a week that the previous date already gave; dates chrono does
/// not read are skipped.
pub fn weeks_of_dates(dates: &Vec<String>) -> (r: Vec<String>)
    requires
        weeks_defined(texts(dates@)),
    ensures
        texts(r@) == dedup(monday_keys(texts(dates@))),
{
    let mut out: Vec<String> = Vec::new();
    let mut i: usize = 0;
    while i < dates.len()
        invariant
            0 <= i <= dates@.len(),
            weeks_defined(texts(dates@)),
            texts(out@) == dedup(monday_keys(texts(dates@).subrange(0, i as int))),
        decreases dates@.len() - i,
    {
        let ghost before = texts(dates@).subrange(0, i as int);
        let ghost after = texts(dates@).subrange(0, i + 1);
        assert(after.drop_last() =~= before);
        assert(after.last() == dates@[i as int]@);
        match parse_date(dates[i].as_str(), iso_format()) {
            None => {
                assert(monday_keys(after) == monday_keys(before));
            },
            Some(d) => {
                assert(date_of_text(texts(dates@)[i as int]) == Some(d));
                let monday = monday_date(d).unwrap();
                let key = format_date(monday, iso_format());
                assert(key@ == monday_text(d));
                assert(monday_keys(after) == monday_keys(before).push(key@));
                assert(monday_keys(before).push(key@).drop_last() =~= monday_keys(before));
                let ghost keys = monday_keys(after);
                assert(keys.last() == key@);
                assert(dedup(keys.drop_last()) == texts(out@));
                let n = out.len();
                if n > 0 && out[n - 1] == key {
                    assert(texts(out@).last() == key@);
                } else {
                    let ghost prev = texts(out@);
                    out.push(key);
                    assert(texts(out@) =~= prev.push(key@));
                }
            },
        }
        i = i + 1;
    }
    assert(texts(dates@).subrange(0, i as int) =~= texts(dates@));
    out
}

/// The weeks of the given dates, or `None` where `weeks_of_dates` cannot
/// compute them.
pub fn try_weeks_of_dates(dates: &Vec<String>) -> (r: Option<Vec<String>>)
    ensures
        r is Some <==> weeks_defined(texts(dates@)),
        r matches Some(v) ==> texts(v@) == dedup(monday_keys(texts(dates@))),
{
    let mut i: usize = 0;
    while i < dates.len()
        invariant
            0 <= i <= dates@.len(),
            forall|j: int|
                0 <= j < i ==> (#[trigger] date_of_text(texts(dates@)[j]) matches Some(d)
                    ==> in_chrono_range(monday_day(d))),
        decreases dates@.len() - i,
    {
        match parse_date(dates[i].as_str(), iso_format()) {
            None => {},
            Some(d) => {
                if monday_date(d).is_none() {
                    assert(date_of_text(texts(dates@)[i as int]) == Some(d));
                    return None;
                }
            },
        }
        i = i + 1;
    }
    Some(weeks_of_dates(dates))
}

/// How many semesters from the Monday `m0` on start no later than the day `last`.
pub open spec fn semester_count(m0: int, last: int) -> nat {
    if last < m0 {
        0
    } else {
        ((last - m0) / 182 + 1) as nat
    }
}

/// The keys of `count` consecutive semesters from the Monday `m0`.
pub open spec fn semester_keys(m0: int, count: nat) -> Seq<Seq<char>> {
    Seq::new(count, |k: int| date_text(date_at(m0 + 182 * k)))
}

/// The semesters of a date list: from the semester of the first date (its
/// 26-week block counted from 1970-01-05), every 26 weeks, while the start
/// is not after the last date.
pub open spec fn semesters_spec(dates: Seq<Seq<char>>) -> Seq<Seq<char>> {
    if dates.len() == 0 {
        Seq::empty()
    } else {
        let m0 = semester_start_day(date_of_text(dates[0]).unwrap());
        let last = date_of_text(dates.last()).unwrap().day_number();
        semester_keys(m0, semester_count(m0, last))
    }
}

/// chrono reads the first and last dates, and the start of the first
/// date's semester and the start after the last semester lie in its range.
pub open spec fn semesters_defined(dates: Seq<Seq<char>>) -> bool {
    dates.len() > 0 ==> {
        &&& date_of_text(dates[0]) is Some
        &&& date_of_text(dates.last()) is Some
        &&& in_chrono_range(semester_start_day(date_of_text(dates[0]).unwrap()))
        &&& in_chrono_range(
            semester_start_day(date_of_text(dates[0]).unwrap()) + 182 * semester_count(
                semester_start_day(date_of_text(dates[0]).unwrap()),
                date_of_text(dates.last()).unwrap().day_number(),
            ),
        )
    }
}

/// A valid date whose semester starts in chrono's range has its Monday in
/// that range too.
proof fn lemma_monday_in_range(d: Date)
    requires
        d.valid(),
        in_chrono_range(semester_start_day(d)),
    ensures
        in_chrono_range(monday_day(d)),
{
    lemma_valid_date(d);
    law_semester_contains_week(d);
}

/// The start keys of the 26-week semesters that cover the dates from the
/// first to the last of the list, starting at the semester of the first.
pub fn semesters_of_dates(dates: &Vec<String>) -> (r: Vec<String>)
    requires
        semesters_defined(texts(dates@)),
    ensures
        texts(r@) == semesters_spec(texts(dates@)),
{
    let mut out: Vec<String> = Vec::new();
    if dates.len() == 0 {
        assert(texts(out@) =~= Seq::<Seq<char>>::empty());
        return out;
    }
    let n = dates.len();
    assert(texts(dates@).last() == dates@[n - 1]@);
    let first = parse_date(dates[0].as_str(), iso_format()).unwrap();
    let last = parse_date(dates[n - 1].as_str(), iso_format()).unwrap();
    proof {
        lemma_monday_in_range(first);
    }
    let first_monday = monday_date(first).unwrap();
    let start = semester_start_date(first, first_monday).unwrap();
    let ghost m0 = semester_start_day(first);
    let ghost el = last.day_number();
    let ghost count = semester_count(m0, el);
    proof {
        lemma_valid_date(last);
        lemma_day_range(last);
        lemma_day_range(start);
        lemma_valid_date(start);
        lemma_date_at(semester_start_day(first));
    }
    let mut cursor = start;
    let ghost mut k: nat = 0;
    while crate::civil::date_le(cursor, last)
        invariant
            cursor.valid(),
            last.valid(),
            el == last.day_number(),
            cursor.day_number() == m0 + 182 * k,
            k <= count,
            count == semester_count(m0, el),
            in_chrono_range(m0),
            in_chrono_range(m0 + 182 * count),
            -100_000_000 < m0 < 100_000_000,
            -100_000_000 < el < 100_000_000,
            texts(out@) == semester_keys(m0, k),
        decreases (if cursor.day_number() <= el {
            el - cursor.day_number() + 1
        } else {
            0
        }),
    {
        proof {
            assert(k < count) by (nonlinear_arith)
                requires
                    m0 + 182 * k <= el,
                    count == (if el < m0 { 0 } else { (el - m0) / 182 + 1 }),
            ;
            lemma_valid_date(cursor);
        }
        let key = format_date(cursor, iso_format());
        let ghost prev = texts(out@);
        out.push(key);
        proof {
            assert(texts(out@) =~= prev.push(key@));
            assert(key@ == date_text(date_at(m0 + 182 * k)));
            assert(texts(out@) =~= semester_keys(m0, k + 1));
            assert(in_chrono_range(m0 + 182 * (k + 1))) by (nonlinear_arith)
                requires
                    k + 1 <= count,
                    in_chrono_range(m0),
                    in_chrono_range(m0 + 182 * count),
            ;
        }
        cursor = checked_add_weeks(cursor, SEMESTER_WEEKS as i64).unwrap();
        proof {
            k = k + 1;
        }
    }
    proof {
        assert(k == count) by (nonlinear_arith)
            requires
                m0 + 182 * k > el,
                k <= count,
                count == (if el < m0 { 0 } else { (el - m0) / 182 + 1 }),
        ;
    }
    out
}

/// The semesters of a date list, or `None` where `semesters_of_dates`
/// cannot compute them.
pub fn try_semesters_of_dates(dates: &Vec<String>) -> (r: Option<Vec<String>>)
    ensures
        r is Some <==> semesters_defined(texts(dates@)),
        r matches Some(v) ==> texts(v@) == semesters_spec(texts(dates@)),
{
    if dates.len() == 0 {
        return Some(semesters_of_dates(dates));
    }
    let n = dates.len();
    assert(texts(dates@).last() == dates@[n - 1]@);
    let first = match parse_date(dates[0].as_str(), iso_format()) {
        Some(d) => d,
        None => return None,
    };
    let last = match parse_date(dates[n - 1].as_str(), iso_format()) {
        Some(d) => d,
        None => return None,
    };
    let first_monday = match monday_date(first) {
        Some(m) => m,
        None => {
            proof {
                lemma_valid_date(first);
                if in_chrono_range(semester_start_day(first)) {
                    lemma_monday_in_range(first);
                }
            }
            return None;
        },
    };
    let start = match semester_start_date(first, first_monday) {
        Some(s) => s,
        None => return None,
    };
    proof {
        lemma_valid_date(last);
        lemma_day_range(last);
        lemma_day_range(start);
        lemma_valid_date(start);
        lemma_date_at(semester_start_day(first));
    }
    let span = crate::civil::days_between(last, start);
    let count: i64 = if span < 0 {
        0
    } else {
        span / 182 + 1
    };
    match checked_add_days(start, count * 182) {
        None => None,
        Some(_) => Some(semesters_of_dates(dates)),
    }
}

/// The triennium start keys from month `m` of year `y` on, every three
/// years, while the next start is not after the day `last`.
pub open spec fn triennium_keys(y: int, m: int, last: int) -> Seq<Seq<char>>
    decreases (if crate::calendar::epoch_day(y, m, 1) <= last {
        last - crate::calendar::epoch_day(y, m, 1) + 1
    } else {
        0
    }),
{
    let here = seq![date_text(Date { year: y as i32, month: m as u32, day: 1 })];
    if 1 <= m <= 12 && crate::calendar::epoch_day(y + 3, m, 1) <= last {
        proof {
            crate::calendar::lemma_three_years_later(y, m);
        }
        here + triennium_keys(y + 3, m, last)
    } else {
        here
    }
}

/// Every start year visited, and the one after the last start, is in
/// chrono's range.
pub open spec fn triennia_in_range(y: int, m: int, last: int) -> bool
    decreases (if crate::calendar::epoch_day(y, m, 1) <= last {
        last - crate::calendar::epoch_day(y, m, 1) + 1
    } else {
        0
    }),
{
    &&& y + 3 <= crate::civil::chrono_max_year()
    &&& (1 <= m <= 12 && crate::calendar::epoch_day(y + 3, m, 1) <= last) ==> {
        proof {
            crate::calendar::lemma_three_years_later(y, m);
        }
        triennia_in_range(y + 3, m, last)
    }
}

/// The first year of the triennium that month `month` of year `year` falls
/// in: 1970 plus a multiple of three.
pub open spec fn triennium_start_year(year: int, month: int) -> int {
    1970 + 3 * triennium_index(year, month)
}

/// The triennia of a date list: from the triennium of the first date
/// ("Y-01-01", Y - 1970 a multiple of three), every three years, while the
/// next start is not after the last date.
pub open spec fn triennia_spec(dates: Seq<Seq<char>>) -> Seq<Seq<char>> {
    if dates.len() == 0 {
        Seq::empty()
    } else {
        let first = date_of_text(dates[0]).unwrap();
        triennium_keys(
            triennium_start_year(first.year as int, first.month as int),
            1,
            date_of_text(dates.last()).unwrap().day_number(),
        )
    }
}

/// chrono reads the first and last dates, and the start years the list
/// goes through stay in its range.
pub open spec fn triennia_defined(dates: Seq<Seq<char>>) -> bool {
    dates.len() > 0 ==> {
        &&& date_of_text(dates[0]) is Some
        &&& date_of_text(dates.last()) is Some
        &&& crate::civil::chrono_min_year() <= triennium_start_year(
            date_of_text(dates[0]).unwrap().year as int,
            date_of_text(dates[0]).unwrap().month as int,
        )
        &&& triennia_in_range(
            triennium_start_year(
                date_of_text(dates[0]).unwrap().year as int,
                date_of_text(dates[0]).unwrap().month as int,
            ),
            1,
            date_of_text(dates.last()).unwrap().day_number(),
        )
    }
}

/// The first year of the triennium of a valid date.
fn triennium_start_year_of(d: Date) -> (r: i64)
    requires
        d.valid(),
    ensures
        r == triennium_start_year(d.year as int, d.month as int),
        d.year - 2 <= r <= d.year,
{
    let months: i64 = (d.year as i64 - 1970) * 12 + d.month as i64 - 1;
    let index = floor_div(months, 36);
    1970 + 3 * index
}

/// The start keys "Y-01-01" of the three-year triennia (counted from 1970)
/// that cover the dates from the first to the last of the list, starting at
/// the triennium of the first.
pub fn triennia_of_dates(dates: &Vec<String>) -> (r: Vec<String>)
    requires
        triennia_defined(texts(dates@)),
    ensures
        texts(r@) == triennia_spec(texts(dates@)),
{
    let mut out: Vec<String> = Vec::new();
    if dates.len() == 0 {
        assert(texts(out@) =~= Seq::<Seq<char>>::empty());
        return out;
    }
    let n = dates.len();
    assert(texts(dates@).last() == dates@[n - 1]@);
    let first = parse_date(dates[0].as_str(), iso_format()).unwrap();
    let last = parse_date(dates[n - 1].as_str(), iso_format()).unwrap();
    let ghost el = last.day_number();
    let start_year = triennium_start_year_of(first);
    let mut year: i32 = start_year as i32;
    let mut mo: u32 = 1;
    let ghost full = triennium_keys(year as int, 1, el);
    let mut done = false;
    while !done
        invariant
            last.valid(),
            el == last.day_number(),
            1 <= mo <= 12,
            crate::civil::chrono_min_year() <= year,
            !done ==> triennia_in_range(year as int, mo as int, el),
            !done ==> texts(out@) + triennium_keys(year as int, mo as int, el) == full,
            done ==> texts(out@) == full,
        decreases (if done {
            0
        } else if crate::calendar::epoch_day(year as int, mo as int, 1) <= el {
            el - crate::calendar::epoch_day(year as int, mo as int, 1) + 2
        } else {
            1
        }),
    {
        let ghost old_year = year;
        let start = date_from_ymd(year, mo, 1).unwrap();
        let key = format_date(start, iso_format());
        let ghost prev = texts(out@);
        out.push(key);
        assert(texts(out@) =~= prev.push(key@));
        let total: i32 = mo as i32 - 1 + TRIENNIUM_MONTHS as i32;
        year = year + total / 12;
        mo = (total % 12 + 1) as u32;
        assert(year == old_year + 3 && mo == start.month);
        let next = date_from_ymd(year, mo, 1).unwrap();
        proof {
            crate::calendar::lemma_three_years_later(old_year as int, mo as int);
            let rest = triennium_keys(old_year as int, mo as int, el);
            if next.day_number() <= el {
                assert(rest == seq![key@] + triennium_keys(year as int, mo as int, el));
                assert(prev + rest =~= texts(out@) + triennium_keys(year as int, mo as int, el));
            } else {
                assert(rest == seq![key@]);
                assert(prev + rest =~= texts(out@));
            }
        }
        if !crate::civil::date_le(next, last) {
            done = true;
        }
    }
    out
}

/// The triennia of a date list, or `None` where `triennia_of_dates`
/// cannot compute them.
pub fn try_triennia_of_dates(dates: &Vec<String>) -> (r: Option<Vec<String>>)
    ensures
        r is Some <==> triennia_defined(texts(dates@)),
        r matches Some(v) ==> texts(v@) == triennia_spec(texts(dates@)),
{
    if dates.len() == 0 {
        return Some(triennia_of_dates(dates));
    }
    let n = dates.len();
    assert(texts(dates@).last() == dates@[n - 1]@);
    let first = match parse_date(dates[0].as_str(), iso_format()) {
        Some(d) => d,
        None => return None,
    };
    let last = match parse_date(dates[n - 1].as_str(), iso_format()) {
        Some(d) => d,
        None => return None,
    };
    let ghost el = last.day_number();
    let start_year = triennium_start_year_of(first);
    if start_year < -262143 {
        return None;
    }
    let ghost y0 = start_year as int;
    let mut year: i32 = start_year as i32;
    let mo: u32 = 1;
    loop
        invariant
            last.valid(),
            first.valid(),
            el == last.day_number(),
            dates@.len() == n,
            n > 0,
            date_of_text(texts(dates@)[0]) == Some(first),
            date_of_text(texts(dates@).last()) == Some(last),
            mo == 1,
            y0 == triennium_start_year(first.year as int, first.month as int),
            crate::civil::chrono_min_year() <= y0,
            y0 <= year <= crate::civil::chrono_max_year(),
            triennia_in_range(year as int, mo as int, el) == triennia_in_range(y0, mo as int, el),
        decreases (if crate::calendar::epoch_day(year as int, mo as int, 1) <= el {
            el - crate::calendar::epoch_day(year as int, mo as int, 1) + 1
        } else {
            0
        }),
    {
        if year > 262142 - 3 {
            assert(!triennia_in_range(year as int, mo as int, el));
            return None;
        }
        let next = date_from_ymd(year + 3, mo, 1).unwrap();
        proof {
            crate::calendar::lemma_three_years_later(year as int, mo as int);
        }
        if !crate::civil::date_le(next, last) {
            assert(triennia_in_range(year as int, mo as int, el));
            return Some(triennia_of_dates(dates));
        }
        assert(triennia_in_range(year as int, mo as int, el) == triennia_in_range(
            year + 3,
            mo as int,
            el,
        ));
        year = year + 3;
    }
}

/// Law: the Monday key of a date names a Monday, no later than the date
/// and less than a week before it.
pub proof fn law_monday_of_week(d: Date)
    ensures
        weekday_of(monday_day(d)) == 0,
        monday_day(d) <= d.day_number() < monday_day(d) + 7,
{
}

/// Law: the semester of a date starts on a Monday (counted in whole
/// 26-week blocks from 1970-01-05) and the date's week lies inside it.
pub proof fn law_semester_contains_week(d: Date)
    ensures
        weekday_of(semester_start_day(d)) == 0,
        (semester_start_day(d) - epoch_monday_day()) % 182 == 0,
        semester_start_day(d) <= monday_day(d) < semester_start_day(d) + 182,
{
    let m = monday_day(d);
    lemma_monday_mod(d);
    let w = (m - 4) / 7;
    assert(m - 4 == 7 * w);
    let idx = w / 26;
    assert(w - 26 * idx >= 0 && w - 26 * idx < 26);
    assert(semester_start_day(d) == 4 + 182 * idx);
    assert(m == 4 + 182 * idx + 7 * (w - 26 * idx)) by (nonlinear_arith)
        requires
            m - 4 == 7 * w,
    ;
}

/// Law: the month (year, month) falls inside the triennium the key gives:
/// it is one of the 36 months from January of the start year.
pub proof fn law_triennium_contains_month(year: int, month: int)
    ensures
        0 <= ((year - 1970) * 12 + month - 1) - 36 * triennium_index(year, month) < 36,
{
}

/// Law: the semesters listed for a date range cover it: every day from the
/// start of the first date's semester to the last date is in exactly one
/// listed block of 182 days.
pub proof fn law_semesters_cover(m0: int, last: int, day: int)
    requires
        m0 <= day <= last,
    ensures
        ({
            let k = (day - m0) / 182;
            &&& 0 <= k < semester_count(m0, last)
            &&& m0 + 182 * k <= day < m0 + 182 * (k + 1)
        }),
{
}

/// Law: the semester of every date from the first to the last date of the
/// list is listed: its start key is one of the listed keys.
pub proof fn law_semesters_list_each_date(dates: Seq<Seq<char>>, d: Date)
    requires
        dates.len() > 0,
        semesters_defined(dates),
        date_of_text(dates[0]).unwrap().day_number() <= d.day_number() <= date_of_text(
            dates.last(),
        ).unwrap().day_number(),
    ensures
        semesters_spec(dates).contains(semester_start_text(d)),
{
    let f = date_of_text(dates[0]).unwrap();
    let last = date_of_text(dates.last()).unwrap().day_number();
    let m0 = semester_start_day(f);
    let count = semester_count(m0, last);
    law_semester_contains_week(f);
    law_semester_contains_week(d);
    law_monday_of_week(f);
    law_monday_of_week(d);
    let wf = (monday_day(f) - 4) / 7;
    let wd = (monday_day(d) - 4) / 7;
    assert(monday_day(f) <= monday_day(d));
    vstd::arithmetic::div_mod::lemma_div_is_ordered(monday_day(f) - 4, monday_day(d) - 4, 7);
    vstd::arithmetic::div_mod::lemma_div_is_ordered(wf, wd, 26);
    let k = wd / 26 - wf / 26;
    assert(semester_start_day(d) == m0 + 182 * k);
    assert(0 <= k);
    assert(m0 <= last);
    assert(k < count) by (nonlinear_arith)
        requires
            m0 + 182 * k <= last,
            count == (last - m0) / 182 + 1,
            m0 <= last,
    ;
    let keys = semesters_spec(dates);
    assert(keys == semester_keys(m0, count));
    assert(keys[k] == semester_start_text(d));
}

/// Law: for dates in calendar order (the server lists them sorted), the
/// semester of every date chrono reads is listed.
pub proof fn law_semesters_list_every_date(dates: Seq<Seq<char>>, i: int)
    requires
        semesters_defined(dates),
        in_calendar_order(dates),
        0 <= i < dates.len(),
        date_of_text(dates[i]) is Some,
    ensures
        semesters_spec(dates).contains(semester_start_text(date_of_text(dates[i]).unwrap())),
{
    let n = dates.len() as int;
    assert(dates.last() == dates[n - 1]);
    if 0 < i {
        assert(date_of_text(dates[0]) is Some);
    }
    if i < n - 1 {
        assert(date_of_text(dates[n - 1]) is Some);
    }
    law_semesters_list_each_date(dates, date_of_text(dates[i]).unwrap());
}

/// Law: for dates in calendar order, the triennium of every date chrono
/// reads is listed.
pub proof fn law_triennia_list_every_date(dates: Seq<Seq<char>>, i: int)
    requires
        triennia_defined(dates),
        in_calendar_order(dates),
        forall|j: int|
            0 <= j < dates.len() ==> (#[trigger] date_of_text(dates[j]) matches Some(d) ==> d.valid()),
        0 <= i < dates.len(),
        date_of_text(dates[i]) is Some,
    ensures
        ({
            let d = date_of_text(dates[i]).unwrap();
            triennia_spec(dates).contains(
                date_text(
                    Date {
                        year: triennium_start_year(d.year as int, d.month as int) as i32,
                        month: 1,
                        day: 1,
                    },
                ),
            )
        }),
{
    let n = dates.len() as int;
    assert(dates.last() == dates[n - 1]);
    assert(date_of_text(dates[0]) is Some);
    assert(date_of_text(dates[n - 1]) is Some);
    law_triennia_list_each_date(dates, date_of_text(dates[i]).unwrap());
}

/// Law: no two neighbouring weeks of the week list are the same.
pub proof fn law_weeks_no_repeats(s: Seq<Seq<char>>)
    ensures
        forall|i: int| 0 <= i < dedup(s).len() - 1 ==> #[trigger] dedup(s)[i] != dedup(s)[i + 1],
    decreases s.len(),
{
    if s.len() > 0 {
        law_weeks_no_repeats(s.drop_last());
        let rest = dedup(s.drop_last());
        if !(rest.len() > 0 && rest.last() == s.last()) {
            assert forall|i: int| 0 <= i < dedup(s).len() - 1 implies #[trigger] dedup(s)[i]
                != dedup(s)[i + 1] by {
                if i < rest.len() - 1 {
                    assert(dedup(s)[i] == rest[i] && dedup(s)[i + 1] == rest[i + 1]);
                }
            }
        }
    }
}

/// The dates chrono reads come in calendar order.
pub open spec fn in_calendar_order(dates: Seq<Seq<char>>) -> bool {
    forall|i: int, j: int|
        0 <= i < j < dates.len() ==> (#[trigger] date_of_text(dates[i]) matches Some(a) ==> (
        #[trigger] date_of_text(dates[j]) matches Some(b) ==> a.day_number() <= b.day_number()))
}

/// The epoch days of the Mondays of the dates that chrono reads, in order:
/// the days `monday_keys` writes.
pub open spec fn monday_days(dates: Seq<Seq<char>>) -> Seq<int>
    decreases dates.len(),
{
    if dates.len() == 0 {
        Seq::empty()
    } else {
        let rest = monday_days(dates.drop_last());
        match date_of_text(dates.last()) {
            Some(d) => rest.push(monday_day(d)),
            None => rest,
        }
    }
}

/// The Mondays of dates no later than the day `bound` are no later than
/// the Monday of `bound`.
proof fn lemma_monday_days_bounded(dates: Seq<Seq<char>>, bound: int)
    requires
        forall|i: int|
            0 <= i < dates.len() ==> (#[trigger] date_of_text(dates[i]) matches Some(a)
                ==> a.day_number() <= bound),
    ensures
        forall|k: int|
            0 <= k < monday_days(dates).len() ==> #[trigger] monday_days(dates)[k] <= bound
                - weekday_of(bound),
    decreases dates.len(),
{
    if dates.len() > 0 {
        let front = dates.drop_last();
        assert forall|i: int| 0 <= i < front.len() implies (#[trigger] date_of_text(front[i])
            matches Some(a) ==> a.day_number() <= bound) by {
            assert(front[i] == dates[i]);
        }
        lemma_monday_days_bounded(front, bound);
        let rest = monday_days(front);
        let ms = monday_days(dates);
        assert(date_of_text(dates[dates.len() - 1]) == date_of_text(dates.last()));
        assert forall|k: int| 0 <= k < ms.len() implies #[trigger] ms[k] <= bound - weekday_of(
            bound,
        ) by {
            if k < rest.len() {
                assert(ms[k] == rest[k]);
            }
        }
    }
}

/// Each Monday key writes its Monday day, and for dates in calendar order
/// the Monday days do not decrease.
proof fn lemma_monday_days(dates: Seq<Seq<char>>)
    requires
        weeks_defined(dates),
        in_calendar_order(dates),
    ensures
        monday_keys(dates).len() == monday_days(dates).len(),
        forall|k: int|
            0 <= k < monday_days(dates).len() ==> in_chrono_range(#[trigger] monday_days(dates)[k])
                && monday_keys(dates)[k] == date_text(date_at(monday_days(dates)[k])),
        forall|k: int, l: int|
            0 <= k < l < monday_days(dates).len() ==> #[trigger] monday_days(dates)[k]
                <= #[trigger] monday_days(dates)[l],
    decreases dates.len(),
{
    if dates.len() > 0 {
        let n = dates.len() as int;
        let front = dates.drop_last();
        assert forall|i: int| 0 <= i < front.len() implies (#[trigger] date_of_text(front[i])
            matches Some(d) ==> in_chrono_range(monday_day(d))) by {
            assert(front[i] == dates[i]);
            assert(date_of_text(dates[i]) == date_of_text(front[i]));
        }
        assert forall|i: int, j: int| 0 <= i < j < front.len() implies (#[trigger] date_of_text(
            front[i],
        ) matches Some(a) ==> (#[trigger] date_of_text(front[j]) matches Some(b)
            ==> a.day_number() <= b.day_number())) by {
            assert(front[i] == dates[i] && front[j] == dates[j]);
            assert(date_of_text(dates[i]) == date_of_text(front[i]));
            assert(date_of_text(dates[j]) == date_of_text(front[j]));
        }
        lemma_monday_days(front);
        let rest = monday_days(front);
        let keys = monday_keys(front);
        match date_of_text(dates.last()) {
            Some(d) => {
                let last = n - 1;
                assert(date_of_text(dates[last]) == Some(d));
                assert(in_chrono_range(monday_day(d)));
                assert forall|i: int| 0 <= i < front.len() implies (#[trigger] date_of_text(
                    front[i],
                ) matches Some(a) ==> a.day_number() <= d.day_number()) by {
                    assert(front[i] == dates[i]);
                    assert(date_of_text(dates[i]) == date_of_text(front[i]));
                }
                lemma_monday_days_bounded(front, d.day_number());
                let ms = monday_days(dates);
                assert(ms == rest.push(monday_day(d)));
                assert(monday_keys(dates) == keys.push(monday_text(d)));
                assert forall|k: int, l: int| 0 <= k < l < ms.len() implies #[trigger] ms[k]
                    <= #[trigger] ms[l] by {
                    assert(ms[k] == rest[k]);
                    if l < rest.len() {
                        assert(ms[l] == rest[l]);
                    }
                }
            },
            None => {
                assert(monday_days(dates) == rest);
                assert(monday_keys(dates) == keys);
            },
        }
    }
}

/// The last entry of a deduplicated list is the list's last entry.
proof fn lemma_dedup_last(s: Seq<Seq<char>>)
    requires
        s.len() > 0,
    ensures
        dedup(s).len() > 0,
        dedup(s).last() == s.last(),
    decreases s.len(),
{
}

/// Every entry of a deduplicated list is an entry of the list.
proof fn lemma_dedup_entries(s: Seq<Seq<char>>)
    ensures
        forall|i: int|
            0 <= i < dedup(s).len() ==> exists|k: int|
                0 <= k < s.len() && #[trigger] dedup(s)[i] == #[trigger] s[k],
    decreases s.len(),
{
    if s.len() > 0 {
        let front = s.drop_last();
        lemma_dedup_entries(front);
        let rest = dedup(front);
        assert forall|i: int| 0 <= i < dedup(s).len() implies exists|k: int|
            0 <= k < s.len() && #[trigger] dedup(s)[i] == #[trigger] s[k] by {
            if i < rest.len() {
                assert(dedup(s)[i] == rest[i]);
                let k = choose|k: int| 0 <= k < front.len() && #[trigger] rest[i] == #[trigger] front[k];
                assert(s[k] == front[k]);
            } else {
                assert(dedup(s)[i] == s[s.len() - 1]);
            }
        }
    }
}

/// Deduplicating a list whose entries follow non-decreasing numbers, equal
/// entries for equal numbers only, leaves no entry twice.
proof fn lemma_dedup_distinct(s: Seq<Seq<char>>, ms: Seq<int>)
    requires
        s.len() == ms.len(),
        forall|k: int, l: int| 0 <= k < l < ms.len() ==> #[trigger] ms[k] <= #[trigger] ms[l],
        forall|k: int, l: int|
            0 <= k < s.len() && 0 <= l < s.len() ==> (#[trigger] s[k] == #[trigger] s[l] <==> ms[k]
                == ms[l]),
    ensures
        forall|i: int, j: int|
            0 <= i < j < dedup(s).len() ==> #[trigger] dedup(s)[i] != #[trigger] dedup(s)[j],
    decreases s.len(),
{
    if s.len() > 0 {
        let n = s.len() as int;
        let front = s.drop_last();
        let mf = ms.drop_last();
        assert forall|k: int, l: int| 0 <= k < l < mf.len() implies #[trigger] mf[k]
            <= #[trigger] mf[l] by {
            assert(mf[k] == ms[k] && mf[l] == ms[l]);
        }
        assert forall|k: int, l: int| 0 <= k < front.len() && 0 <= l < front.len() implies (
        #[trigger] front[k] == #[trigger] front[l] <==> mf[k] == mf[l]) by {
            assert(front[k] == s[k] && front[l] == s[l]);
            assert(mf[k] == ms[k] && mf[l] == ms[l]);
        }
        lemma_dedup_distinct(front, mf);
        let rest = dedup(front);
        if !(rest.len() > 0 && rest.last() == s.last()) {
            lemma_dedup_entries(front);
            let out = dedup(s);
            assert(out == rest.push(s.last()));
            assert forall|i: int| 0 <= i < rest.len() implies #[trigger] rest[i] != s.last() by {
                let k = choose|k: int| 0 <= k < front.len() && #[trigger] rest[i] == #[trigger] front[k];
                if rest[i] == s.last() {
                    assert(front[k] == s[k]);
                    assert(s[k] == s[n - 1]);
                    assert(ms[k] == ms[n - 1]);
                    lemma_dedup_last(front);
                    assert(front.last() == s[n - 2]);
                    if k < n - 2 {
                        assert(ms[k] <= ms[n - 2]);
                    }
                    assert(ms[n - 2] <= ms[n - 1]);
                    assert(s[n - 2] == s[n - 1]);
                }
            }
            assert forall|i: int, j: int| 0 <= i < j < out.len() implies #[trigger] out[i]
                != #[trigger] out[j] by {
                if j < rest.len() {
                    assert(out[i] == rest[i] && out[j] == rest[j]);
                } else {
                    assert(out[i] == rest[i]);
                    assert(out[j] == s.last());
                }
            }
        }
    }
}

/// Law: for dates in calendar order (the server lists them sorted), every
/// week of the week list is a different week: no Monday is listed twice.
pub proof fn law_weeks_distinct(dates: Seq<Seq<char>>)
    requires
        weeks_defined(dates),
        in_calendar_order(dates),
    ensures
        forall|i: int, j: int|
            0 <= i < j < dedup(monday_keys(dates)).len() ==> #[trigger] dedup(monday_keys(dates))[i]
                != #[trigger] dedup(monday_keys(dates))[j],
{
    lemma_monday_days(dates);
    let s = monday_keys(dates);
    let ms = monday_days(dates);
    assert forall|k: int, l: int| 0 <= k < s.len() && 0 <= l < s.len() implies (#[trigger] s[k]
        == #[trigger] s[l] <==> ms[k] == ms[l]) by {
        assert(in_chrono_range(ms[k]) && in_chrono_range(ms[l]));
        lemma_date_at(ms[k]);
        lemma_date_at(ms[l]);
        if s[k] == s[l] {
            lemma_date_text_injective(date_at(ms[k]), date_at(ms[l]));
        }
    }
    lemma_dedup_distinct(s, ms);
}

/// The triennium keys from month `m` of year `y` go every three years.
proof fn lemma_triennium_keys_at(y: int, m: int, last: int, k: int)
    requires
        0 <= k < triennium_keys(y, m, last).len(),
    ensures
        triennium_keys(y, m, last)[k] == date_text(
            Date { year: (y + 3 * k) as i32, month: m as u32, day: 1 },
        ),
    decreases triennium_keys(y, m, last).len(),
{
    if k > 0 {
        assert(1 <= m <= 12 && crate::calendar::epoch_day(y + 3, m, 1) <= last);
        crate::calendar::lemma_three_years_later(y, m);
        lemma_triennium_keys_at(y + 3, m, last, k - 1);
    }
}

/// A start year `z`, three years apart from `y` and beginning no later than
/// the day `last`, is among the triennium keys from January of `y`.
proof fn lemma_triennium_keys_contain(y: int, z: int, last: int)
    requires
        y <= z,
        (z - y) % 3 == 0,
        crate::calendar::epoch_day(z, 1, 1) <= last,
    ensures
        triennium_keys(y, 1, last).contains(
            date_text(Date { year: z as i32, month: 1, day: 1 }),
        ),
    decreases z - y,
{
    let keys = triennium_keys(y, 1, last);
    if z == y {
        assert(keys[0] == date_text(Date { year: z as i32, month: 1, day: 1 }));
    } else {
        crate::calendar::lemma_days_before_year_mono(y + 3, z);
        assert(crate::calendar::epoch_day(y + 3, 1, 1) <= last);
        crate::calendar::lemma_three_years_later(y, 1);
        lemma_triennium_keys_contain(y + 3, z, last);
        let rest = triennium_keys(y + 3, 1, last);
        assert(keys == seq![date_text(Date { year: y as i32, month: 1, day: 1 })] + rest);
        let i = choose|i: int|
            0 <= i < rest.len() && rest[i] == date_text(Date { year: z as i32, month: 1, day: 1 });
        assert(keys[i + 1] == rest[i]);
    }
}

/// A later valid date does not lie in an earlier month.
proof fn lemma_month_order(a: Date, b: Date)
    requires
        a.valid(),
        b.valid(),
        a.day_number() <= b.day_number(),
    ensures
        a.year * 12 + a.month <= b.year * 12 + b.month,
{
    crate::calendar::lemma_epoch_day_bounds(a.year as int, a.month as int, a.day as int);
    crate::calendar::lemma_epoch_day_bounds(b.year as int, b.month as int, b.day as int);
    if b.year < a.year {
        crate::calendar::lemma_days_before_year_mono(b.year + 1, a.year as int);
    } else if b.year == a.year && b.month < a.month {
        crate::calendar::lemma_days_before_month_mono(a.year as int, b.month + 1, a.month as int);
    }
}

/// Law: the triennium of a month starts on January 1 of a year `S` with
/// `S - 1970` a multiple of three, and the month's year is one of `S`,
/// `S + 1`, `S + 2`; the triennium of that January is the same one.
pub proof fn law_triennium_start(year: int, month: int)
    requires
        1 <= month <= 12,
    ensures
        (triennium_start_year(year, month) - 1970) % 3 == 0,
        triennium_start_year(year, month) <= year < triennium_start_year(year, month) + 3,
        triennium_start_year(triennium_start_year(year, month), 1) == triennium_start_year(
            year,
            month,
        ),
{
    let s = triennium_start_year(year, month);
    let i = triennium_index(year, month);
    assert((s - 1970) * 12 == 36 * i);
}

/// Law: the start key of a triennium, read again as a key, gives the same
/// start key, for years 1970 to 9999: `triennium_start_of` applied twice
/// changes nothing.
pub proof fn law_triennium_start_of_idempotent(year: int, month: int)
    requires
        1970 <= year <= 9999,
        1 <= month <= 12,
    ensures
        ({
            let t = triennium_start_text(year, month);
            let ym = key_year_month(encode_utf8(t));
            &&& has_year_month(encode_utf8(t))
            &&& triennium_start_text(ym.0.unwrap() as int, ym.1.unwrap() as int) == t
        }),
{
    law_triennium_start(year, month);
    let y = triennium_start_year(year, month);
    assert(1970 <= y <= 9999);
    let dt = crate::text::decimal_text(y as nat);
    crate::text::lemma_decimal_text_len(y as nat);
    crate::text::lemma_decimal_text_digits(y as nat);
    let t = triennium_start_text(year, month);
    assert(int_text(y) == dt);
    assert(t == dt + seq!['-', '0', '1', '-', '0', '1']);
    assert(vstd::utf8::is_ascii_chars(t)) by {
        assert forall|i: int| 0 <= i < t.len() implies '\0' <= #[trigger] t[i] <= '\u{7f}' by {
            if i < 4 {
                assert(t[i] == dt[i]);
            }
        }
    }
    crate::text::lemma_ascii_encoding(t);
    let b = crate::text::ascii_bytes(t);
    assert(b.subrange(0, 4) =~= crate::text::ascii_bytes(dt));
    let mb = b.subrange(5, 7);
    assert(mb =~= seq![48u8, 49u8]);
    assert(mb.drop_last() =~= seq![48u8]);
    assert(mb.drop_last().drop_last() =~= Seq::<u8>::empty());
    assert(crate::text::digits_value(mb.drop_last().drop_last()) == 0);
    assert(mb.drop_last().last() == 48u8);
    assert(crate::text::digits_value(mb.drop_last()) == 0);
    assert(mb.last() == 49u8);
    assert(crate::text::digits_value(mb) == 1);
    assert(crate::text::is_digit_byte(b[0]));
    assert(key_year_month(b).0 == Some(y as i32));
    assert(key_year_month(b).1 == Some(1u32));
    law_triennium_start(y, 1);
}

/// Law: the triennium list of a date list starts at the triennium of the
/// first date and goes on every three years: its `k`-th key is
/// "Y-01-01" for `Y` the first start year plus `3 k`, and `Y - 1970` is a
/// multiple of three.
pub proof fn law_triennia_every_three_years(dates: Seq<Seq<char>>, k: int)
    requires
        dates.len() > 0,
        0 <= k < triennia_spec(dates).len(),
    ensures
        ({
            let first = date_of_text(dates[0]).unwrap();
            let y = triennium_start_year(first.year as int, first.month as int) + 3 * k;
            &&& triennia_spec(dates)[k] == date_text(Date { year: y as i32, month: 1, day: 1 })
            &&& (y - 1970) % 3 == 0
        }),
{
    let first = date_of_text(dates[0]).unwrap();
    let last = date_of_text(dates.last()).unwrap().day_number();
    let y0 = triennium_start_year(first.year as int, first.month as int);
    lemma_triennium_keys_at(y0, 1, last, k);
    assert((y0 - 1970) == 3 * triennium_index(first.year as int, first.month as int));
}

/// Law: the triennium of every date from the first to the last date of the
/// list is listed: its start key "S-01-01" is one of the listed keys.
pub proof fn law_triennia_list_each_date(dates: Seq<Seq<char>>, d: Date)
    requires
        dates.len() > 0,
        triennia_defined(dates),
        date_of_text(dates[0]).unwrap().valid(),
        d.valid(),
        date_of_text(dates[0]).unwrap().day_number() <= d.day_number() <= date_of_text(
            dates.last(),
        ).unwrap().day_number(),
    ensures
        triennia_spec(dates).contains(
            date_text(
                Date {
                    year: triennium_start_year(d.year as int, d.month as int) as i32,
                    month: 1,
                    day: 1,
                },
            ),
        ),
{
    let first = date_of_text(dates[0]).unwrap();
    let last = date_of_text(dates.last()).unwrap().day_number();
    let y0 = triennium_start_year(first.year as int, first.month as int);
    let z = triennium_start_year(d.year as int, d.month as int);
    lemma_month_order(first, d);
    let mf = (first.year - 1970) * 12 + first.month - 1;
    let md = (d.year - 1970) * 12 + d.month - 1;
    vstd::arithmetic::div_mod::lemma_div_is_ordered(mf, md, 36);
    law_triennium_start(d.year as int, d.month as int);
    assert(z - y0 == 3 * (md / 36 - mf / 36));
    crate::calendar::lemma_days_before_year_mono(z, d.year as int);
    crate::calendar::lemma_epoch_day_bounds(d.year as int, d.month as int, d.day as int);
    assert(crate::calendar::epoch_day(z, 1, 1) == crate::calendar::days_before_year(z));
    lemma_triennium_keys_contain(y0, z, last);
}

} // verus!
