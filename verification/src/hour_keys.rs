//! Hour keys ("YYYY-MM-DDTHH"): the firmware names each hourly upload by
//! the UTC hour it belongs to, and reads the server's clock back from one.
use vstd::prelude::*;
use vstd::string::StringSliceAdditionalSpecFns;
use vstd::utf8::{encode_utf8, is_ascii_chars};

use crate::calendar::{
    days_before_month, days_before_year, days_in_month, epoch_day, is_leap,
    lemma_days_before_month_mono, lemma_days_before_month_year, lemma_days_before_year_mono,
    lemma_days_before_year_step, month_length, valid_ymd, year_length, date_of_epoch_day,
    lemma_date_of_epoch_day,
};
use crate::text::{
    all_digit_chars, ascii_bytes, lemma_ascii_encoding, lemma_decimal_text_len,
    lemma_padded_decimal_value, decimal_text, all_digit_bytes, digits_value, is_digit_byte, padded_decimal, parse_u64, parsed_u64,
    push_char, push_padded, unsigned_text_value, lemma_short_text_value,
};

verus! {

/// `format!("{year:04}-{month:02}-{day:02}T{hour:02}")`.
pub open spec fn hour_key_text(y: int, m: int, d: int, h: int) -> Seq<char> {
    padded_decimal(y as nat, 4) + seq!['-'] + padded_decimal(m as nat, 2) + seq!['-']
        + padded_decimal(d as nat, 2) + seq!['T'] + padded_decimal(h as nat, 2)
}

/// The hour key of the Unix time `t` (seconds, UTC).
pub open spec fn hour_key_of_unix(t: int) -> Seq<char> {
    let date = date_of_epoch_day(t / 86400);
    hour_key_text(date.0, date.1, date.2, (t % 86400) / 3600)
}

/// Days from 1970 to the start of year `y`, as the firmware counts them
/// (years before 1970 count as none).
pub open spec fn days_to_year_from_1970(y: int) -> int {
    if y > 1970 {
        days_before_year(y)
    } else {
        0
    }
}

/// Unix time of the start of hour `h` of day `d` of month `m` of year `y`,
/// as the firmware computes it.
pub open spec fn unix_of_fields(y: int, m: int, d: int, h: int) -> int {
    (days_to_year_from_1970(y) + days_before_month(y, m) + d - 1) * 86400 + h * 3600
}

/// The numeric fields of an hour key: `s[0..4]`, `s[5..7]`, `s[8..10]`, `s[11..13]`.
pub open spec fn key_year(b: Seq<u8>) -> Option<u64> {
    parsed_u64(b.subrange(0, 4))
}

pub open spec fn key_month(b: Seq<u8>) -> Option<u64> {
    parsed_u64(b.subrange(5, 7))
}

pub open spec fn key_day(b: Seq<u8>) -> Option<u64> {
    parsed_u64(b.subrange(8, 10))
}

pub open spec fn key_hour(b: Seq<u8>) -> Option<u64> {
    parsed_u64(b.subrange(11, 13))
}

/// The Unix time an hour key stands for, by the firmware's reading.
pub open spec fn unix_of_hour_key(b: Seq<u8>) -> int {
    unix_of_fields(
        key_year(b).unwrap() as int,
        key_month(b).unwrap() as int,
        key_day(b).unwrap() as int,
        key_hour(b).unwrap() as int,
    )
}

/// The text `b` can be read as an hour key without a failure: the four
/// fields are numbers, the month is at most 13 (only the months before it
/// are counted, none for month 0), the day is at least 1, and the result
/// fits in 64 bits.
pub open spec fn hour_key_readable(b: Seq<u8>) -> bool {
    &&& b.len() >= 13
    &&& key_year(b) is Some
    &&& key_month(b) is Some
    &&& key_day(b) is Some
    &&& key_hour(b) is Some
    &&& key_month(b).unwrap() <= 13
    &&& key_day(b).unwrap() >= 1
    &&& unix_of_hour_key(b) <= u64::MAX
}

/// Every epoch day from 1970 on has a date, in 1970 or later.
pub proof fn lemma_date_exists(n: int) -> (r: (int, int, int))
    requires
        n >= 0,
    ensures
        valid_ymd(r.0, r.1, r.2),
        epoch_day(r.0, r.1, r.2) == n,
        r.0 >= 1970,
{
    lemma_date_exists_from(1970, n)
}

proof fn lemma_date_exists_from(y: int, rem: int) -> (r: (int, int, int))
    requires
        y >= 1970,
        rem >= 0,
    ensures
        valid_ymd(r.0, r.1, r.2),
        epoch_day(r.0, r.1, r.2) == days_before_year(y) + rem,
        r.0 >= y,
    decreases rem,
{
    if rem < year_length(y) {
        lemma_days_before_month_year(y);
        let (m, d) = lemma_month_exists(y, 1, rem);
        (y, m, d)
    } else {
        lemma_days_before_year_step(y);
        lemma_date_exists_from(y + 1, rem - year_length(y))
    }
}

proof fn lemma_month_exists(y: int, m: int, rem: int) -> (r: (int, int))
    requires
        1 <= m <= 12,
        rem >= 0,
        days_before_month(y, m) + rem < days_before_month(y, 13),
    ensures
        valid_ymd(y, r.0, r.1),
        days_before_month(y, r.0) + r.1 - 1 == days_before_month(y, m) + rem,
    decreases 13 - m,
{
    if rem < month_length(y, m) {
        (m, rem + 1)
    } else {
        assert(days_before_month(y, m + 1) == days_before_month(y, m) + month_length(y, m));
        lemma_month_exists(y, m + 1, rem - month_length(y, m))
    }
}

fn year_days(y: u64) -> (r: u64)
    ensures
        r == year_length(y as int),
{
    if is_leap(y) {
        366
    } else {
        365
    }
}

/// The hour key of a Unix time in seconds: "YYYY-MM-DDTHH" (UTC, no minutes).
pub fn hour_key(unix_secs: u64) -> (res: String)
    ensures
        res@ == hour_key_of_unix(unix_secs as int),
{
    let secs_per_hour = 3600u64;
    let secs_per_day = 86_400u64;
    let hour = (unix_secs % secs_per_day) / secs_per_hour;
    let total = unix_secs / secs_per_day;
    let mut days = total;
    let mut year = 1970u64;
    while days >= year_days(year)
        invariant
            year >= 1970,
            days <= total,
            days_before_year(year as int) + days == total,
            year - 1970 <= total - days,
            total == unix_secs / 86400,
        decreases days,
    {
        proof {
            lemma_days_before_year_step(year as int);
        }
        days = days - year_days(year);
        year = year + 1;
    }
    proof {
        lemma_days_before_month_year(year as int);
    }
    let mut month = 1u64;
    while days >= days_in_month(month, year)
        invariant
            1 <= month <= 12,
            days_before_month(year as int, month as int) + days < days_before_month(
                year as int,
                13,
            ),
            days_before_year(year as int) + days_before_month(year as int, month as int) + days
                == total,
        decreases 13 - month,
    {
        assert(days_before_month(year as int, month as int + 1) == days_before_month(
            year as int,
            month as int,
        ) + month_length(year as int, month as int));
        days = days - days_in_month(month, year);
        month = month + 1;
    }
    let day = days + 1;
    proof {
        assert(valid_ymd(year as int, month as int, day as int));
        lemma_date_of_epoch_day(year as int, month as int, day as int);
    }
    let mut s = String::new();
    push_padded(&mut s, year, 4);
    push_char(&mut s, '-');
    push_padded(&mut s, month, 2);
    push_char(&mut s, '-');
    push_padded(&mut s, day, 2);
    push_char(&mut s, 'T');
    push_padded(&mut s, hour, 2);
    assert(s@ =~= hour_key_text(year as int, month as int, day as int, hour as int));
    s
}

/// Reads an hour key back into the Unix time of the start of that hour.
/// The key must be readable (see `hour_key_readable`); `read_hour_key`
/// checks that first.
pub fn hour_key_to_unix(s: &str) -> (r: u64)
    requires
        hour_key_readable(s.spec_bytes()),
    ensures
        r == unix_of_hour_key(s.spec_bytes()),
{
    let b = s.as_bytes();
    let year = parse_u64(b, 0, 4).unwrap();
    let month = parse_u64(b, 5, 7).unwrap();
    let day = parse_u64(b, 8, 10).unwrap();
    let hour = parse_u64(b, 11, 13).unwrap();
    let ghost total = days_to_year_from_1970(year as int) + days_before_month(
        year as int,
        month as int,
    ) + day - 1;
    proof {
        if month >= 1 {
            lemma_days_before_month_mono(year as int, 1, month as int);
        }
        if year > 1970 {
            lemma_days_before_year_mono(1970, year as int);
        }
        assert(total * 86400 <= u64::MAX);
    }
    let mut days: u64 = 0;
    let mut y: u64 = 1970;
    while y < year
        invariant
            1970 <= y,
            y <= year || year <= 1970,
            year <= 1970 ==> y == 1970,
            days == days_to_year_from_1970(y as int),
            year > 1970 ==> days_to_year_from_1970(y as int) <= days_to_year_from_1970(
                year as int,
            ),
            days_to_year_from_1970(year as int) <= total,
            total * 86400 <= u64::MAX,
        decreases year - y,
    {
        proof {
            lemma_days_before_year_step(y as int);
            if y + 1 < year {
                lemma_days_before_year_mono(y + 1, year as int);
            }
        }
        days = days + year_days(y);
        y = y + 1;
    }
    assert(days == days_to_year_from_1970(year as int));
    let mut m: u64 = 1;
    while m < month
        invariant
            1 <= m <= 13,
            m <= month || (m == 1 && month == 0),
            month <= 13,
            days == days_to_year_from_1970(year as int) + days_before_month(year as int, m as int),
            days_to_year_from_1970(year as int) + days_before_month(year as int, month as int)
                <= total,
            total * 86400 <= u64::MAX,
        decreases month - m,
    {
        proof {
            lemma_days_before_month_mono(year as int, m as int + 1, month as int);
        }
        days = days + days_in_month(m, year);
        m = m + 1;
    }
    days = days + (day - 1);
    days * 86_400 + hour * 3_600
}

/// Reads an hour key when it is readable, `None` otherwise.
pub fn read_hour_key(s: &str) -> (r: Option<u64>)
    ensures
        r is Some <==> hour_key_readable(s.spec_bytes()),
        r matches Some(t) ==> t == unix_of_hour_key(s.spec_bytes()),
{
    let b = s.as_bytes();
    if b.len() < 13 {
        return None;
    }
    let year = match parse_u64(b, 0, 4) {
        Some(v) => v,
        None => return None,
    };
    let month = match parse_u64(b, 5, 7) {
        Some(v) => v,
        None => return None,
    };
    let day = match parse_u64(b, 8, 10) {
        Some(v) => v,
        None => return None,
    };
    let hour = match parse_u64(b, 11, 13) {
        Some(v) => v,
        None => return None,
    };
    if month > 13 || day < 1 {
        return None;
    }
    // All fields have at most four digits, so the sum below fits easily.
    let ghost total = unix_of_fields(year as int, month as int, day as int, hour as int);
    proof {
        lemma_short_text_value(b@.subrange(0, 4));
        lemma_short_text_value(b@.subrange(5, 7));
        lemma_short_text_value(b@.subrange(8, 10));
        lemma_short_text_value(b@.subrange(11, 13));
        lemma_unix_of_fields_bound(year as int, month as int, day as int, hour as int);
    }
    Some(hour_key_to_unix(s))
}

proof fn lemma_unix_of_fields_bound(y: int, m: int, d: int, h: int)
    requires
        0 <= y < 10000,
        0 <= m <= 13,
        1 <= d < 10000,
        0 <= h < 10000,
    ensures
        0 <= unix_of_fields(y, m, d, h) <= u64::MAX,
{
    if m >= 1 {
        lemma_days_before_month_mono(y, 1, m);
        lemma_days_before_month_mono(y, m, 13);
    } else {
        lemma_days_before_month_mono(y, 1, 13);
    }
    lemma_days_before_month_year(y);
    if y > 1970 {
        lemma_days_before_year_mono(1970, y);
        lemma_days_before_year_upper(1970, y);
    }
}

proof fn lemma_days_before_year_upper(a: int, b: int)
    requires
        a <= b,
    ensures
        days_before_year(b) <= days_before_year(a) + 366 * (b - a),
    decreases b - a,
{
    if a < b {
        lemma_days_before_year_upper(a, b - 1);
        lemma_days_before_year_step(b - 1);
    }
}

/// An hour key with a four-digit year and two-digit fields is ASCII, 13
/// bytes long, and its fields read back as the numbers written.
proof fn lemma_key_fields(y: int, m: int, d: int, h: int)
    requires
        1000 <= y < 10000,
        0 <= m < 100,
        0 <= d < 100,
        0 <= h < 100,
    ensures
        ({
            let b = encode_utf8(hour_key_text(y, m, d, h));
            &&& b.len() == 13
            &&& key_year(b) == Some(y as u64)
            &&& key_month(b) == Some(m as u64)
            &&& key_day(b) == Some(d as u64)
            &&& key_hour(b) == Some(h as u64)
        }),
{
    let ys = padded_decimal(y as nat, 4);
    let ms = padded_decimal(m as nat, 2);
    let ds = padded_decimal(d as nat, 2);
    let hs = padded_decimal(h as nat, 2);
    lemma_padded_decimal_value(y as nat, 4);
    lemma_padded_decimal_value(m as nat, 2);
    lemma_padded_decimal_value(d as nat, 2);
    lemma_padded_decimal_value(h as nat, 2);
    lemma_decimal_text_len(y as nat);
    lemma_decimal_text_len(m as nat);
    lemma_decimal_text_len(d as nat);
    lemma_decimal_text_len(h as nat);
    let key = hour_key_text(y, m, d, h);
    assert(key =~= ys + seq!['-'] + ms + seq!['-'] + ds + seq!['T'] + hs);
    assert(key.len() == 13);
    assert(is_ascii_chars(key)) by {
        assert forall|i: int| 0 <= i < key.len() implies '\0' <= #[trigger] key[i] <= '\u{7f}' by {
            if i < 4 {
                assert(key[i] == ys[i]);
            } else if 5 <= i < 7 {
                assert(key[i] == ms[i - 5]);
            } else if 8 <= i < 10 {
                assert(key[i] == ds[i - 8]);
            } else if 11 <= i < 13 {
                assert(key[i] == hs[i - 11]);
            }
        }
    }
    lemma_ascii_encoding(key);
    let b = ascii_bytes(key);
    assert(b.subrange(0, 4) =~= ascii_bytes(ys));
    assert(b.subrange(5, 7) =~= ascii_bytes(ms));
    assert(b.subrange(8, 10) =~= ascii_bytes(ds));
    assert(b.subrange(11, 13) =~= ascii_bytes(hs));
    assert(is_digit_byte(ascii_bytes(ys)[0]));
    assert(is_digit_byte(ascii_bytes(ms)[0]));
    assert(is_digit_byte(ascii_bytes(ds)[0]));
    assert(is_digit_byte(ascii_bytes(hs)[0]));
}

/// Law: reading back the hour key of a Unix time gives the start of its
/// hour, for every time whose year has four digits.
pub proof fn law_hour_key_read_back(t: u64)
    requires
        (t as int) < days_before_year(10000) * 86400,
    ensures
        hour_key_readable(encode_utf8(hour_key_of_unix(t as int))),
        unix_of_hour_key(encode_utf8(hour_key_of_unix(t as int))) == t - t % 3600,
{
    let n = t / 86400;
    let h = (t % 86400) / 3600;
    let (y, m, d) = lemma_date_exists(n as int);
    lemma_date_of_epoch_day(y, m, d);
    crate::calendar::lemma_epoch_day_bounds(y, m, d);
    if y >= 10000 {
        lemma_days_before_year_mono(10000, y);
    }
    lemma_key_fields(y, m, d, h as int);
    assert(t == n * 86400 + (t % 86400));
    assert(t % 3600 == (t % 86400) % 3600);
    assert(t - t % 3600 == n * 86400 + h * 3600);
}

/// Law: turning a well-formed hour key into a Unix time and back gives the
/// same key, for years 1970 to 9999.
pub proof fn law_hour_key_from_read_key(y: int, m: int, d: int, h: int)
    requires
        1970 <= y <= 9999,
        valid_ymd(y, m, d),
        0 <= h < 24,
    ensures
        hour_key_readable(encode_utf8(hour_key_text(y, m, d, h))),
        hour_key_of_unix(unix_of_hour_key(encode_utf8(hour_key_text(y, m, d, h))))
            == hour_key_text(y, m, d, h),
{
    lemma_key_fields(y, m, d, h);
    lemma_unix_of_fields_bound(y, m, d, h);
    lemma_date_of_epoch_day(y, m, d);
    crate::calendar::lemma_epoch_day_bounds(y, m, d);
    let n = epoch_day(y, m, d);
    if y > 1970 {
        lemma_days_before_year_mono(1970, y);
    }
    let t = unix_of_fields(y, m, d, h);
    assert(t == n * 86400 + h * 3600);
    assert(t / 86400 == n);
    assert((t % 86400) / 3600 == h);
}

/// `a` is not after `b` in the order `String` compares texts in: the first
/// differing character decides (for UTF-8 text, byte order and character
/// order agree), and a text comes before the texts it starts.
pub open spec fn text_le(a: Seq<char>, b: Seq<char>) -> bool
    decreases a.len(),
{
    if a.len() == 0 {
        true
    } else if b.len() == 0 {
        false
    } else if a[0] != b[0] {
        a[0] < b[0]
    } else {
        text_le(a.drop_first(), b.drop_first())
    }
}

/// Two texts each not after the other are the same text.
pub proof fn lemma_text_le_antisymmetric(a: Seq<char>, b: Seq<char>)
    requires
        text_le(a, b),
        text_le(b, a),
    ensures
        a == b,
    decreases a.len(),
{
    if a.len() > 0 && b.len() > 0 {
        lemma_text_le_antisymmetric(a.drop_first(), b.drop_first());
        assert(a =~= seq![a[0]] + a.drop_first());
        assert(b =~= seq![b[0]] + b.drop_first());
    } else {
        assert(a =~= b);
    }
}

/// Texts with heads of one length compare by their heads, or by their
/// tails when the heads are equal.
proof fn lemma_text_le_concat(a1: Seq<char>, a2: Seq<char>, b1: Seq<char>, b2: Seq<char>)
    requires
        a1.len() == b1.len(),
    ensures
        text_le(a1 + a2, b1 + b2) == (if a1 == b1 {
            text_le(a2, b2)
        } else {
            text_le(a1, b1)
        }),
    decreases a1.len(),
{
    if a1.len() == 0 {
        assert(a1 + a2 =~= a2);
        assert(b1 + b2 =~= b2);
        assert(a1 =~= b1);
    } else {
        assert((a1 + a2)[0] == a1[0]);
        assert((b1 + b2)[0] == b1[0]);
        assert((a1 + a2).drop_first() =~= a1.drop_first() + a2);
        assert((b1 + b2).drop_first() =~= b1.drop_first() + b2);
        lemma_text_le_concat(a1.drop_first(), a2, b1.drop_first(), b2);
        if a1[0] == b1[0] {
            if a1.drop_first() == b1.drop_first() {
                assert forall|i: int| 0 <= i < a1.len() implies a1[i] == b1[i] by {
                    if i > 0 {
                        assert(a1.drop_first()[i - 1] == b1.drop_first()[i - 1]);
                    }
                }
                assert(a1 =~= b1);
            } else {
                assert(a1 != b1);
            }
        }
    }
}

/// Two-digit zero-padded numbers, digit by digit.
proof fn lemma_two_digits(x: nat)
    requires
        x < 100,
    ensures
        padded_decimal(x, 2) == seq![digit_char_of(x / 10), digit_char_of(x % 10)],
{
    reveal_with_fuel(decimal_text, 2);
    if x < 10 {
        assert(padded_decimal(x, 2) =~= seq![digit_char_of(x / 10), digit_char_of(x % 10)]);
    } else {
        assert(decimal_text(x) =~= seq![digit_char_of(x / 10), digit_char_of(x % 10)]);
    }
}

/// Four-digit numbers, digit by digit.
proof fn lemma_four_digits(x: nat)
    requires
        1000 <= x < 10000,
    ensures
        padded_decimal(x, 4) == seq![
            digit_char_of(x / 1000),
            digit_char_of((x / 100) % 10),
            digit_char_of((x / 10) % 10),
            digit_char_of(x % 10),
        ],
{
    reveal_with_fuel(decimal_text, 4);
    lemma_decimal_text_len(x);
    assert(x / 10 / 10 == x / 100);
    assert(x / 100 / 10 == x / 1000);
    assert(decimal_text(x) =~= seq![
        digit_char_of(x / 1000),
        digit_char_of((x / 100) % 10),
        digit_char_of((x / 10) % 10),
        digit_char_of(x % 10),
    ]);
}

/// The character of a decimal digit.
pub open spec fn digit_char_of(d: nat) -> char {
    crate::text::digit_char(d as int)
}

/// Digit characters are ordered as their digits.
proof fn lemma_digit_char_order(a: nat, b: nat)
    requires
        a < 10,
        b < 10,
    ensures
        (digit_char_of(a) < digit_char_of(b)) == (a < b),
        (digit_char_of(a) == digit_char_of(b)) == (a == b),
{
    assert(digit_char_of(a) as u32 == a + 48);
    assert(digit_char_of(b) as u32 == b + 48);
}

/// Zero-padded two-digit numbers compare as the numbers do.
proof fn lemma_two_digit_order(x: nat, y: nat)
    requires
        x < 100,
        y < 100,
    ensures
        (padded_decimal(x, 2) == padded_decimal(y, 2)) == (x == y),
        x <= y ==> text_le(padded_decimal(x, 2), padded_decimal(y, 2)),
{
    lemma_two_digits(x);
    lemma_two_digits(y);
    lemma_digit_char_order(x / 10, y / 10);
    lemma_digit_char_order(x % 10, y % 10);
    reveal_with_fuel(text_le, 3);
    let a = padded_decimal(x, 2);
    let b = padded_decimal(y, 2);
    assert(a[0] == digit_char_of(x / 10) && a[1] == digit_char_of(x % 10));
    assert(b[0] == digit_char_of(y / 10) && b[1] == digit_char_of(y % 10));
    if a == b {
        assert(x == y);
    }
    assert(a.drop_first() =~= seq![digit_char_of(x % 10)]);
    assert(b.drop_first() =~= seq![digit_char_of(y % 10)]);
    assert(a.drop_first().drop_first().len() == 0);
}

/// A four-digit number is written as its two high digits, then its two low
/// digits.
proof fn lemma_four_digits_split(x: nat)
    requires
        1000 <= x < 10000,
    ensures
        padded_decimal(x, 4) == padded_decimal(x / 100, 2) + padded_decimal(x % 100, 2),
{
    lemma_four_digits(x);
    lemma_two_digits(x / 100);
    lemma_two_digits(x % 100);
    assert(x / 100 / 10 == x / 1000);
    assert((x % 100) / 10 == (x / 10) % 10);
    assert((x % 100) % 10 == x % 10);
    assert(padded_decimal(x, 4) =~= padded_decimal(x / 100, 2) + padded_decimal(x % 100, 2));
}

/// Four-digit numbers compare as the numbers do.
proof fn lemma_four_digit_order(x: nat, y: nat)
    requires
        1000 <= x < 10000,
        1000 <= y < 10000,
    ensures
        (padded_decimal(x, 4) == padded_decimal(y, 4)) == (x == y),
        x <= y ==> text_le(padded_decimal(x, 4), padded_decimal(y, 4)),
{
    lemma_four_digits_split(x);
    lemma_four_digits_split(y);
    lemma_two_digits(x / 100);
    lemma_two_digits(y / 100);
    lemma_two_digits(x % 100);
    lemma_two_digits(y % 100);
    lemma_two_digit_order(x / 100, y / 100);
    lemma_two_digit_order(x % 100, y % 100);
    let hx = padded_decimal(x / 100, 2);
    let hy = padded_decimal(y / 100, 2);
    let lx = padded_decimal(x % 100, 2);
    let ly = padded_decimal(y % 100, 2);
    lemma_text_le_concat(hx, lx, hy, ly);
    if padded_decimal(x, 4) == padded_decimal(y, 4) {
        assert((hx + lx).subrange(0, 2) =~= hx);
        assert((hy + ly).subrange(0, 2) =~= hy);
        assert((hx + lx).subrange(2, 4) =~= lx);
        assert((hy + ly).subrange(2, 4) =~= ly);
    }
    if x <= y && hx != hy {
        assert(x / 100 <= y / 100);
    }
    if x <= y && hx == hy {
        assert(x / 100 == y / 100);
        assert(x % 100 <= y % 100);
    }
}

/// Of two valid dates, the one with the earlier epoch day comes first by
/// year, then by month, then by day.
proof fn lemma_date_order(y1: int, m1: int, d1: int, y2: int, m2: int, d2: int)
    requires
        valid_ymd(y1, m1, d1),
        valid_ymd(y2, m2, d2),
        epoch_day(y1, m1, d1) < epoch_day(y2, m2, d2),
    ensures
        y1 < y2 || (y1 == y2 && (m1 < m2 || (m1 == m2 && d1 < d2))),
{
    crate::calendar::lemma_epoch_day_bounds(y1, m1, d1);
    crate::calendar::lemma_epoch_day_bounds(y2, m2, d2);
    if y2 < y1 {
        lemma_days_before_year_mono(y2 + 1, y1);
    } else if y1 == y2 && m2 < m1 {
        lemma_days_before_month_mono(y1, m2 + 1, m1);
    }
}

/// An hour key written out field by field.
pub open spec fn key_fields(y: int, m: int, d: int, h: int) -> Seq<char> {
    padded_decimal(y as nat, 4) + (seq!['-'] + (padded_decimal(m as nat, 2) + (seq!['-'] + (
    padded_decimal(d as nat, 2) + (seq!['T'] + padded_decimal(h as nat, 2))))))
}

/// The date (year 1970 to 9999) and hour of a time before the year 10000,
/// with its hour key written out field by field.
proof fn lemma_key_of_time(t: u64) -> (r: (int, int, int, int))
    requires
        (t as int) < days_before_year(10000) * 86400,
    ensures
        valid_ymd(r.0, r.1, r.2),
        1970 <= r.0 <= 9999,
        epoch_day(r.0, r.1, r.2) == t / 86400,
        r.3 == (t % 86400) / 3600,
        0 <= r.3 < 24,
        hour_key_of_unix(t as int) == key_fields(r.0, r.1, r.2, r.3),
{
    let n = t / 86400;
    let (y, m, d) = lemma_date_exists(n as int);
    lemma_date_of_epoch_day(y, m, d);
    crate::calendar::lemma_epoch_day_bounds(y, m, d);
    if y >= 10000 {
        lemma_days_before_year_mono(10000, y);
    }
    let h = (t % 86400) / 3600;
    assert(hour_key_of_unix(t as int) =~= key_fields(y, m, d, h as int));
    (y, m, d, h as int)
}

/// Keys of fields in order (year, then month, then day, then hour) are in
/// text order.
proof fn lemma_key_fields_order(y1: int, m1: int, d1: int, h1: int, y2: int, m2: int, d2: int, h2: int)
    requires
        1970 <= y1 <= 9999,
        1970 <= y2 <= 9999,
        0 <= m1 < 100,
        0 <= m2 < 100,
        0 <= d1 < 100,
        0 <= d2 < 100,
        0 <= h1 < 100,
        0 <= h2 < 100,
        y1 < y2 || (y1 == y2 && (m1 < m2 || (m1 == m2 && (d1 < d2 || (d1 == d2 && h1 <= h2))))),
    ensures
        text_le(key_fields(y1, m1, d1, h1), key_fields(y2, m2, d2, h2)),
{
    let ph1 = padded_decimal(h1 as nat, 2);
    let ph2 = padded_decimal(h2 as nat, 2);
    let r1h = seq!['T'] + ph1;
    let r2h = seq!['T'] + ph2;
    let r1d = padded_decimal(d1 as nat, 2) + r1h;
    let r2d = padded_decimal(d2 as nat, 2) + r2h;
    let r1dd = seq!['-'] + r1d;
    let r2dd = seq!['-'] + r2d;
    let r1m = padded_decimal(m1 as nat, 2) + r1dd;
    let r2m = padded_decimal(m2 as nat, 2) + r2dd;
    let r1mm = seq!['-'] + r1m;
    let r2mm = seq!['-'] + r2m;
    lemma_four_digit_order(y1 as nat, y2 as nat);
    lemma_two_digit_order(m1 as nat, m2 as nat);
    lemma_two_digit_order(d1 as nat, d2 as nat);
    lemma_two_digit_order(h1 as nat, h2 as nat);
    lemma_four_digits(y1 as nat);
    lemma_four_digits(y2 as nat);
    lemma_two_digits(m1 as nat);
    lemma_two_digits(m2 as nat);
    lemma_two_digits(d1 as nat);
    lemma_two_digits(d2 as nat);
    let same_h = y1 == y2 && m1 == m2 && d1 == d2;
    assert(same_h ==> text_le(r1h, r2h)) by {
        lemma_text_le_concat(seq!['T'], ph1, seq!['T'], ph2);
    }
    assert(same_h ==> text_le(r1d, r2d)) by {
        lemma_text_le_concat(padded_decimal(d1 as nat, 2), r1h, padded_decimal(d2 as nat, 2), r2h);
    }
    assert(y1 == y2 && m1 == m2 && d1 < d2 ==> text_le(r1d, r2d)) by {
        lemma_text_le_concat(padded_decimal(d1 as nat, 2), r1h, padded_decimal(d2 as nat, 2), r2h);
    }
    assert(y1 == y2 && m1 == m2 ==> text_le(r1dd, r2dd)) by {
        lemma_text_le_concat(seq!['-'], r1d, seq!['-'], r2d);
    }
    assert(y1 == y2 && m1 <= m2 ==> text_le(r1m, r2m)) by {
        lemma_text_le_concat(padded_decimal(m1 as nat, 2), r1dd, padded_decimal(m2 as nat, 2), r2dd);
    }
    assert(y1 == y2 ==> text_le(r1mm, r2mm)) by {
        lemma_text_le_concat(seq!['-'], r1m, seq!['-'], r2m);
    }
    lemma_text_le_concat(padded_decimal(y1 as nat, 4), r1mm, padded_decimal(y2 as nat, 4), r2mm);
}

/// Law: hour keys follow time, for times before the year 10000: a later
/// time never has an earlier key (in the order `String` compares texts
/// in), and two times have the same key exactly when they fall in the same
/// hour.
pub proof fn law_hour_key_order(t1: u64, t2: u64)
    requires
        t1 <= t2,
        (t2 as int) < days_before_year(10000) * 86400,
    ensures
        text_le(hour_key_of_unix(t1 as int), hour_key_of_unix(t2 as int)),
        (hour_key_of_unix(t1 as int) == hour_key_of_unix(t2 as int)) == (t1 / 3600 == t2 / 3600),
{
    let (y1, m1, d1, h1) = lemma_key_of_time(t1);
    let (y2, m2, d2, h2) = lemma_key_of_time(t2);
    let n1 = t1 / 86400;
    let n2 = t2 / 86400;
    if n1 < n2 {
        lemma_date_order(y1, m1, d1, y2, m2, d2);
    } else {
        lemma_date_of_epoch_day(y1, m1, d1);
        lemma_date_of_epoch_day(y2, m2, d2);
    }
    lemma_key_fields_order(y1, m1, d1, h1, y2, m2, d2, h2);
    if t1 / 3600 == t2 / 3600 {
        assert(n1 == n2 && h1 == h2) by (nonlinear_arith)
            requires
                t1 / 3600 == t2 / 3600,
                n1 == t1 / 86400,
                n2 == t2 / 86400,
                h1 == (t1 % 86400) / 3600,
                h2 == (t2 % 86400) / 3600,
                t1 >= 0,
                t2 >= 0,
        ;
        lemma_date_of_epoch_day(y1, m1, d1);
        lemma_date_of_epoch_day(y2, m2, d2);
    }
    if hour_key_of_unix(t1 as int) == hour_key_of_unix(t2 as int) {
        law_hour_key_read_back(t1);
        law_hour_key_read_back(t2);
        assert(t1 / 3600 == t2 / 3600) by (nonlinear_arith)
            requires
                t1 - t1 % 3600 == t2 - t2 % 3600,
                t1 >= 0,
                t2 >= 0,
        ;
    }
}

} // verus!


