//! Calendar dates as chrono handles them, held as plain (year, month, day)
//! values; every date computation is made by chrono's `NaiveDate`.
use chrono::Datelike;
use vstd::prelude::*;
use vstd::utf8::encode_utf8;

use crate::calendar::{
    date_of_epoch_day, days_before_year, epoch_day, lemma_date_of_epoch_day,
    lemma_days_before_year_mono, lemma_epoch_day_bounds, lemma_epoch_day_onto, valid_ymd,
};
use crate::text::{
    all_digit_bytes, digits_value, lemma_decimal_text_len, lemma_padded_decimal_value,
    padded_decimal,
};

verus! {

/// The earliest and latest years chrono's `NaiveDate` represents.
pub open spec fn chrono_min_year() -> int {
    -262143
}

pub open spec fn chrono_max_year() -> int {
    262142
}

/// A calendar date: year, month (1 to 12) and day of month.
#[derive(Debug, Clone, Copy, PartialEq, Eq, Structural)]
pub struct Date {
    pub year: i32,
    pub month: u32,
    pub day: u32,
}

impl Date {
    /// The date exists and lies within chrono's range.
    pub open spec fn valid(self) -> bool {
        &&& chrono_min_year() <= self.year <= chrono_max_year()
        &&& valid_ymd(self.year as int, self.month as int, self.day as int)
    }

    /// Days from 1970-01-01 to this date.
    pub open spec fn day_number(self) -> int {
        epoch_day(self.year as int, self.month as int, self.day as int)
    }
}

/// The epoch days chrono's dates cover.
pub open spec fn in_chrono_range(n: int) -> bool {
    days_before_year(chrono_min_year()) <= n < days_before_year(chrono_max_year() + 1)
}

/// The date of an epoch day, as a `Date`.
pub open spec fn date_at(n: int) -> Date {
    let (y, m, d) = date_of_epoch_day(n);
    Date { year: y as i32, month: m as u32, day: d as u32 }
}

/// A valid date lies in chrono's range, and is the date of its epoch day.
pub proof fn lemma_valid_date(d: Date)
    requires
        d.valid(),
    ensures
        in_chrono_range(d.day_number()),
        date_at(d.day_number()) == d,
{
    lemma_epoch_day_bounds(d.year as int, d.month as int, d.day as int);
    lemma_days_before_year_mono(chrono_min_year(), d.year as int);
    lemma_days_before_year_mono(d.year as int + 1, chrono_max_year() + 1);
    lemma_date_of_epoch_day(d.year as int, d.month as int, d.day as int);
}

/// Every epoch day in chrono's range is the day of a valid date.
pub proof fn lemma_date_at(n: int)
    requires
        in_chrono_range(n),
    ensures
        date_at(n).valid(),
        date_at(n).day_number() == n,
{
    lemma_epoch_day_onto(n);
    let (y, m, d) = date_of_epoch_day(n);
    assert(valid_ymd(y, m, d) && epoch_day(y, m, d) == n);
    lemma_epoch_day_bounds(y, m, d);
    if y < chrono_min_year() {
        lemma_days_before_year_mono(y + 1, chrono_min_year());
    }
    if y > chrono_max_year() {
        lemma_days_before_year_mono(chrono_max_year() + 1, y);
    }
}

/// Zero-padded numbers of the same width are equal only for equal values.
proof fn lemma_padded_decimal_injective(a: nat, b: nat, width: nat)
    requires
        padded_decimal(a, width) == padded_decimal(b, width),
    ensures
        a == b,
{
    lemma_padded_decimal_value(a, width);
    lemma_padded_decimal_value(b, width);
}

/// A month or a day of month takes two characters.
proof fn lemma_two_digits(n: nat)
    requires
        1 <= n <= 31,
    ensures
        padded_decimal(n, 2).len() == 2,
{
    lemma_decimal_text_len(n);
}

/// Different years are written differently.
proof fn lemma_year_text_injective(a: int, b: int)
    requires
        year_text(a) == year_text(b),
    ensures
        a == b,
{
    let ta = year_text(a);
    let tb = year_text(b);
    lemma_padded_decimal_value(if a < 0 { (-a) as nat } else { a as nat }, 4);
    lemma_padded_decimal_value(if b < 0 { (-b) as nat } else { b as nat }, 4);
    let pa = if a < 0 { padded_decimal((-a) as nat, 4) } else { padded_decimal(a as nat, 4) };
    let pb = if b < 0 { padded_decimal((-b) as nat, 4) } else { padded_decimal(b as nat, 4) };
    assert('0' <= pa[0] <= '9');
    assert('0' <= pb[0] <= '9');
    if 0 <= a <= 9999 {
        assert(ta == pa);
    } else {
        assert(ta.drop_first() =~= pa);
        assert(ta[0] == (if a > 9999 { '+' } else { '-' }));
    }
    if 0 <= b <= 9999 {
        assert(tb == pb);
    } else {
        assert(tb.drop_first() =~= pb);
        assert(tb[0] == (if b > 9999 { '+' } else { '-' }));
    }
    if 0 <= a <= 9999 && 0 <= b <= 9999 {
        lemma_padded_decimal_injective(a as nat, b as nat, 4);
    } else if a > 9999 && b > 9999 {
        lemma_padded_decimal_injective(a as nat, b as nat, 4);
    } else if a < 0 && b < 0 {
        lemma_padded_decimal_injective((-a) as nat, (-b) as nat, 4);
    } else {
        assert(ta[0] != tb[0]);
    }
}

/// Different valid dates are written differently.
pub proof fn lemma_date_text_injective(a: Date, b: Date)
    requires
        a.valid(),
        b.valid(),
        date_text(a) == date_text(b),
    ensures
        a == b,
{
    let ya = year_text(a.year as int);
    let yb = year_text(b.year as int);
    let ma = padded_decimal(a.month as nat, 2);
    let mb = padded_decimal(b.month as nat, 2);
    let da = padded_decimal(a.day as nat, 2);
    let db = padded_decimal(b.day as nat, 2);
    lemma_two_digits(a.month as nat);
    lemma_two_digits(b.month as nat);
    lemma_two_digits(a.day as nat);
    lemma_two_digits(b.day as nat);
    let t = date_text(a);
    assert(t == ya + seq!['-'] + ma + seq!['-'] + da);
    assert(t == yb + seq!['-'] + mb + seq!['-'] + db);
    let la = ya.len() as int;
    assert(t.len() == ya.len() + 6);
    assert(t.len() == yb.len() + 6);
    assert(t.subrange(0, la) =~= ya);
    assert(t.subrange(0, la) =~= yb);
    assert(t.subrange(la + 1, la + 3) =~= ma);
    assert(t.subrange(la + 1, la + 3) =~= mb);
    assert(t.subrange(la + 4, la + 6) =~= da);
    assert(t.subrange(la + 4, la + 6) =~= db);
    lemma_year_text_injective(a.year as int, b.year as int);
    lemma_padded_decimal_injective(a.month as nat, b.month as nat, 2);
    lemma_padded_decimal_injective(a.day as nat, b.day as nat, 2);
}

/// The format "%Y-%m-%d".
pub open spec fn iso_date_format() -> Seq<char> {
    seq!['%', 'Y', '-', '%', 'm', '-', '%', 'd']
}

/// How chrono writes a year with "%Y": four digits at least, with a sign
/// outside 0 to 9999.
pub open spec fn year_text(y: int) -> Seq<char> {
    if 0 <= y <= 9999 {
        padded_decimal(y as nat, 4)
    } else if y > 9999 {
        seq!['+'] + padded_decimal(y as nat, 4)
    } else {
        seq!['-'] + padded_decimal((-y) as nat, 4)
    }
}

/// A date written with "%Y-%m-%d".
pub open spec fn date_text(d: Date) -> Seq<char> {
    year_text(d.year as int) + seq!['-'] + padded_decimal(d.month as nat, 2) + seq!['-']
        + padded_decimal(d.day as nat, 2)
}

/// Ten bytes "DDDD-DD-DD" with ASCII digits D.
pub open spec fn canonical_date_bytes(b: Seq<u8>) -> bool {
    &&& b.len() == 10
    &&& b[4] == 45 && b[7] == 45
    &&& all_digit_bytes(b.subrange(0, 4))
    &&& all_digit_bytes(b.subrange(5, 7))
    &&& all_digit_bytes(b.subrange(8, 10))
}

/// The date the canonical text "YYYY-MM-DD" writes, when it exists.
pub open spec fn canonical_date(b: Seq<u8>) -> Option<Date> {
    let y = digits_value(b.subrange(0, 4));
    let m = digits_value(b.subrange(5, 7));
    let d = digits_value(b.subrange(8, 10));
    if valid_ymd(y as int, m as int, d as int) {
        Some(Date { year: y as i32, month: m as u32, day: d as u32 })
    } else {
        None
    }
}

/// What `NaiveDate::parse_from_str(s, fmt)` gives, as a date. chrono's
/// parser allows much (leading blanks, signs, short fields); it is named
/// here rather than written out.
pub uninterp spec fn chrono_parsed_date(s: Seq<char>, fmt: Seq<char>) -> Option<Date>;

/// `NaiveDate::parse_from_str(s, fmt)`, read back as year, month and day;
/// `None` for its error. chrono returns only existing dates in its range;
/// for the format "%Y-%m-%d" and a text "YYYY-MM-DD" of ASCII digits its
/// source reads the three numbers and checks that the date exists. Other
/// texts are left to the name `chrono_parsed_date`.
#[verifier::external_body]
pub(crate) fn parse_date(s: &str, fmt: &str) -> (r: Option<Date>)
    ensures
        r == chrono_parsed_date(s@, fmt@),
        r matches Some(d) ==> d.valid(),
        fmt@ == iso_date_format() && canonical_date_bytes(encode_utf8(s@)) ==> r == canonical_date(
            encode_utf8(s@),
        ),
{
    match chrono::NaiveDate::parse_from_str(s, fmt) {
        Ok(d) => Some(Date { year: d.year(), month: d.month(), day: d.day() }),
        Err(_) => None,
    }
}

/// `NaiveDate::from_ymd_opt`: the date when it exists in chrono's range.
#[verifier::external_body]
pub(crate) fn date_from_ymd(year: i32, month: u32, day: u32) -> (r: Option<Date>)
    ensures
        r == (if (Date { year, month, day }).valid() {
            Some(Date { year, month, day })
        } else {
            None
        }),
{
    match chrono::NaiveDate::from_ymd_opt(year, month, day) {
        Some(d) => Some(Date { year: d.year(), month: d.month(), day: d.day() }),
        None => None,
    }
}

/// `date.format(fmt).to_string()` for the format "%Y-%m-%d": the date as
/// chrono writes it.
#[verifier::external_body]
pub(crate) fn format_date(date: Date, fmt: &str) -> (r: String)
    requires
        date.valid(),
        fmt@ == iso_date_format(),
    ensures
        r@ == date_text(date),
{
    chrono::NaiveDate::from_ymd_opt(date.year, date.month, date.day).unwrap().format(
        fmt,
    ).to_string()
}

/// `date.weekday().num_days_from_monday()`: 0 for Monday to 6 for Sunday.
#[verifier::external_body]
pub(crate) fn weekday_from_monday(date: Date) -> (r: u32)
    requires
        date.valid(),
    ensures
        r == crate::calendar::weekday_of(date.day_number()),
{
    chrono::NaiveDate::from_ymd_opt(date.year, date.month, date.day).unwrap().weekday().num_days_from_monday()
}

/// `date.checked_sub_signed(TimeDelta::days(n))`, which `date - TimeDelta::days(n)`
/// unwraps: `n` days earlier, `None` outside chrono's range.
#[verifier::external_body]
pub(crate) fn checked_sub_days(date: Date, n: i64) -> (r: Option<Date>)
    requires
        date.valid(),
        -1_000_000_000 <= n <= 1_000_000_000,
    ensures
        r is Some <==> in_chrono_range(date.day_number() - n),
        r matches Some(x) ==> x.valid() && x.day_number() == date.day_number() - n,
{
    match chrono::NaiveDate::from_ymd_opt(date.year, date.month, date.day).unwrap().checked_sub_signed(
        chrono::TimeDelta::days(n),
    ) {
        Some(d) => Some(Date { year: d.year(), month: d.month(), day: d.day() }),
        None => None,
    }
}

/// `date.checked_add_signed(TimeDelta::days(n))`, which `date + TimeDelta::days(n)`
/// unwraps: `n` days later, `None` outside chrono's range.
#[verifier::external_body]
pub(crate) fn checked_add_days(date: Date, n: i64) -> (r: Option<Date>)
    requires
        date.valid(),
        -1_000_000_000 <= n <= 1_000_000_000,
    ensures
        r is Some <==> in_chrono_range(date.day_number() + n),
        r matches Some(x) ==> x.valid() && x.day_number() == date.day_number() + n,
{
    match chrono::NaiveDate::from_ymd_opt(date.year, date.month, date.day).unwrap().checked_add_signed(
        chrono::TimeDelta::days(n),
    ) {
        Some(d) => Some(Date { year: d.year(), month: d.month(), day: d.day() }),
        None => None,
    }
}

/// `date.checked_add_signed(TimeDelta::weeks(n))`, which `date + TimeDelta::weeks(n)`
/// unwraps: `n` weeks later, `None` outside chrono's range.
#[verifier::external_body]
pub(crate) fn checked_add_weeks(date: Date, n: i64) -> (r: Option<Date>)
    requires
        date.valid(),
        -100_000_000 <= n <= 100_000_000,
    ensures
        r is Some <==> in_chrono_range(date.day_number() + 7 * n),
        r matches Some(x) ==> x.valid() && x.day_number() == date.day_number() + 7 * n,
{
    match chrono::NaiveDate::from_ymd_opt(date.year, date.month, date.day).unwrap().checked_add_signed(
        chrono::TimeDelta::weeks(n),
    ) {
        Some(d) => Some(Date { year: d.year(), month: d.month(), day: d.day() }),
        None => None,
    }
}

/// `(a - b).num_days()`: the days from `b` to `a`.
#[verifier::external_body]
pub(crate) fn days_between(a: Date, b: Date) -> (r: i64)
    requires
        a.valid(),
        b.valid(),
    ensures
        r == a.day_number() - b.day_number(),
{
    let na = chrono::NaiveDate::from_ymd_opt(a.year, a.month, a.day).unwrap();
    let nb = chrono::NaiveDate::from_ymd_opt(b.year, b.month, b.day).unwrap();
    (na - nb).num_days()
}

/// `(a - b).num_weeks()`: the whole weeks from `b` to `a`, rounded toward zero.
#[verifier::external_body]
pub(crate) fn weeks_between(a: Date, b: Date) -> (r: i64)
    requires
        a.valid(),
        b.valid(),
    ensures
        r == (if a.day_number() >= b.day_number() {
            (a.day_number() - b.day_number()) / 7
        } else {
            -((b.day_number() - a.day_number()) / 7)
        }),
{
    let na = chrono::NaiveDate::from_ymd_opt(a.year, a.month, a.day).unwrap();
    let nb = chrono::NaiveDate::from_ymd_opt(b.year, b.month, b.day).unwrap();
    (na - nb).num_weeks()
}

/// `a <= b` on `NaiveDate`: whether `a` is not after `b`.
#[verifier::external_body]
pub(crate) fn date_le(a: Date, b: Date) -> (r: bool)
    requires
        a.valid(),
        b.valid(),
    ensures
        r == (a.day_number() <= b.day_number()),
{
    let na = chrono::NaiveDate::from_ymd_opt(a.year, a.month, a.day).unwrap();
    let nb = chrono::NaiveDate::from_ymd_opt(b.year, b.month, b.day).unwrap();
    na <= nb
}

} // verus!
