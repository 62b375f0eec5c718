//! Which chart bucket each hourly reading falls in, for the week (28
//! quarter days), month (one bucket per day), semester (26 weeks) and
//! triennium (36 months) charts, with the label of each bucket. The
//! statistics over the readings of a bucket are computed by the server.
use vstd::prelude::*;
use vstd::string::StringSliceAdditionalSpecFns;
use vstd::utf8::{encode_utf8, is_char_boundary};

use crate::civil::{
    checked_add_weeks, chrono_parsed_date, date_at, date_text, days_between, format_date,
    in_chrono_range, iso_date_format, lemma_valid_date, parse_date, Date,
};
use crate::periods::{
    date_of_key, date_slice, has_date_part, has_year_month, iso_format, key_year_month, texts,
    year_month,
};
use crate::text::{
    decimal_text, int_text, padded_decimal, parse_usize, parsed_usize, push_char, push_int, push_padded, push_str,
};

verus! {

/// One chart bucket: its label and the positions, in increasing order, of
/// the readings that fall in it.
pub struct BucketPlan {
    pub label: String,
    pub members: Vec<usize>,
}

/// The positions `j`, in increasing order, whose bucket is `b`.
pub open spec fn members_of(assign: Seq<Option<usize>>, b: usize) -> Seq<usize>
    decreases assign.len(),
{
    if assign.len() == 0 {
        Seq::empty()
    } else {
        let rest = members_of(assign.drop_last(), b);
        if assign.last() == Some(b) {
            rest.push((assign.len() - 1) as usize)
        } else {
            rest
        }
    }
}

/// The buckets with these labels, each holding the readings assigned to it.
pub open spec fn plans_match(
    plans: Seq<BucketPlan>,
    labels: Seq<Seq<char>>,
    assign: Seq<Option<usize>>,
) -> bool {
    &&& plans.len() == labels.len()
    &&& forall|i: int|
        0 <= i < plans.len() ==> (#[trigger] plans[i]).label@ == labels[i]
            && plans[i].members@ == members_of(assign, i as usize)
}

/// Law: a reading is in bucket `b` exactly when it is assigned to `b`, so
/// each reading is in one bucket at most, and in none when it falls
/// outside the period.
pub proof fn law_members_of(assign: Seq<Option<usize>>, b: usize, j: usize)
    requires
        assign.len() <= usize::MAX,
    ensures
        members_of(assign, b).contains(j) <==> (j < assign.len() && assign[j as int] == Some(b)),
    decreases assign.len(),
{
    if assign.len() > 0 {
        let n = assign.len();
        law_members_of(assign.drop_last(), b, j);
        lemma_members_below(assign.drop_last(), b);
        let rest = members_of(assign.drop_last(), b);
        let m = members_of(assign, b);
        if assign.last() == Some(b) {
            assert(m == rest.push((n - 1) as usize));
            if m.contains(j) {
                let k = choose|k: int| 0 <= k < m.len() && m[k] == j;
                if k < rest.len() {
                    assert(rest[k] == j);
                    assert(rest.contains(j));
                }
            }
            if j == n - 1 {
                assert(m[rest.len() as int] == j);
            } else if j < n - 1 && assign[j as int] == Some(b) {
                assert(assign.drop_last()[j as int] == assign[j as int]);
                let k = choose|k: int| 0 <= k < rest.len() && rest[k] == j;
                assert(m[k] == j);
            }
        } else {
            assert(m == rest);
            if j < n - 1 {
                assert(assign.drop_last()[j as int] == assign[j as int]);
            }
            if rest.contains(j) {
                let k = choose|k: int| 0 <= k < rest.len() && rest[k] == j;
                assert(rest[k] < n - 1);
            }
        }
    }
}

/// The members of a bucket are positions below the length.
pub proof fn lemma_members_below(assign: Seq<Option<usize>>, b: usize)
    requires
        assign.len() <= usize::MAX,
    ensures
        forall|k: int|
            0 <= k < members_of(assign, b).len() ==> #[trigger] members_of(assign, b)[k]
                < assign.len(),
    decreases assign.len(),
{
    if assign.len() > 0 {
        lemma_members_below(assign.drop_last(), b);
        let rest = members_of(assign.drop_last(), b);
        let m = members_of(assign, b);
        assert forall|k: int| 0 <= k < m.len() implies #[trigger] m[k] < assign.len() by {
            if k < rest.len() {
                assert(m[k] == rest[k]);
            }
        }
    }
}

/// Builds the buckets from their labels and the bucket of each reading.
fn plans_from(labels: &Vec<String>, assign: &Vec<Option<usize>>) -> (r: Vec<BucketPlan>)
    ensures
        plans_match(r@, texts(labels@), assign@),
{
    let mut out: Vec<BucketPlan> = Vec::new();
    let mut b: usize = 0;
    while b < labels.len()
        invariant
            0 <= b <= labels@.len(),
            out@.len() == b,
            forall|i: int|
                0 <= i < b ==> (#[trigger] out@[i]).label@ == labels@[i]@ && out@[i].members@
                    == members_of(assign@, i as usize),
        decreases labels@.len() - b,
    {
        let mut members: Vec<usize> = Vec::new();
        let mut j: usize = 0;
        while j < assign.len()
            invariant
                0 <= j <= assign@.len(),
                members@ == members_of(assign@.subrange(0, j as int), b),
            decreases assign@.len() - j,
        {
            assert(assign@.subrange(0, j + 1).drop_last() =~= assign@.subrange(0, j as int));
            if assign[j] == Some(b) {
                members.push(j);
            }
            j = j + 1;
        }
        assert(assign@.subrange(0, j as int) =~= assign@);
        out.push(BucketPlan { label: labels[b].clone(), members });
        b = b + 1;
    }
    out
}

/// Quarter days in a week.
pub const WEEK_BUCKETS: usize = 28;

/// "Mon" to "Sun" for the days 0 to 6 of the week.
pub open spec fn day_name(d: int) -> Seq<char> {
    if d == 0 {
        seq!['M', 'o', 'n']
    } else if d == 1 {
        seq!['T', 'u', 'e']
    } else if d == 2 {
        seq!['W', 'e', 'd']
    } else if d == 3 {
        seq!['T', 'h', 'u']
    } else if d == 4 {
        seq!['F', 'r', 'i']
    } else if d == 5 {
        seq!['S', 'a', 't']
    } else {
        seq!['S', 'u', 'n']
    }
}

/// "0-6", "6-12", "12-18", "18-24" for the quarters 0 to 3 of a day.
pub open spec fn quarter_label(q: int) -> Seq<char> {
    if q == 0 {
        seq!['0', '-', '6']
    } else if q == 1 {
        seq!['6', '-', '1', '2']
    } else if q == 2 {
        seq!['1', '2', '-', '1', '8']
    } else {
        seq!['1', '8', '-', '2', '4']
    }
}

/// The label of quarter-day bucket `i`, e.g. "Wed 6-12".
pub open spec fn week_label(i: int) -> Seq<char> {
    day_name(i / 4) + seq![' '] + quarter_label(i % 4)
}

fn week_label_string(i: usize) -> (r: String)
    requires
        i < 28,
    ensures
        r@ == week_label(i as int),
{
    let day = i / 4;
    let quarter = i % 4;
    let name = if day == 0 {
        "Mon"
    } else if day == 1 {
        "Tue"
    } else if day == 2 {
        "Wed"
    } else if day == 3 {
        "Thu"
    } else if day == 4 {
        "Fri"
    } else if day == 5 {
        "Sat"
    } else {
        "Sun"
    };
    let q = if quarter == 0 {
        "0-6"
    } else if quarter == 1 {
        "6-12"
    } else if quarter == 2 {
        "12-18"
    } else {
        "18-24"
    };
    proof {
        reveal_strlit("Mon");
        reveal_strlit("Tue");
        reveal_strlit("Wed");
        reveal_strlit("Thu");
        reveal_strlit("Fri");
        reveal_strlit("Sat");
        reveal_strlit("Sun");
        reveal_strlit("0-6");
        reveal_strlit("6-12");
        reveal_strlit("12-18");
        reveal_strlit("18-24");
        assert(name@ =~= day_name(day as int));
        assert(q@ =~= quarter_label(quarter as int));
    }
    let mut s = String::new();
    push_str(&mut s, name);
    push_char(&mut s, ' ');
    push_str(&mut s, q);
    assert(s@ =~= week_label(i as int));
    s
}

/// The hour `s[11..]` of a key, as `usize`.
pub open spec fn key_hour_of(hour: Seq<char>) -> Option<usize> {
    let b = encode_utf8(hour);
    parsed_usize(b.subrange(11, b.len() as int))
}

/// Day of the week of the key's date, counted from `monday` (may be outside 0 to 6).
pub open spec fn week_day_offset(monday: Date, d: Date) -> int {
    d.day_number() - monday.day_number()
}

/// The quarter-day bucket of a reading's hour key in the week starting on
/// `monday`: 4 per day from Monday, one per six hours; `None` when the date
/// cannot be read, is outside the week, or the hour cannot be read.
pub open spec fn week_bucket_of(monday: Date, hour: Seq<char>) -> Option<usize> {
    match date_of_key(hour) {
        None => None,
        Some(d) => if 0 <= week_day_offset(monday, d) < 7 {
            match key_hour_of(hour) {
                None => None,
                Some(h) => Some((week_day_offset(monday, d) * 4 + h / 6) as usize),
            }
        } else {
            None
        },
    }
}

/// The server can place the reading: the first ten bytes can be cut off,
/// and for a date within the week the hour can be cut off at byte 11 and,
/// when it reads, lands in one of the 28 buckets.
pub open spec fn week_hour_ok(monday: Date, hour: Seq<char>) -> bool {
    &&& has_date_part(hour)
    &&& match date_of_key(hour) {
        None => true,
        Some(d) => 0 <= week_day_offset(monday, d) < 7 ==> {
            &&& encode_utf8(hour).len() >= 11
            &&& is_char_boundary(encode_utf8(hour), 11)
            &&& key_hour_of(hour) matches Some(h) ==> week_day_offset(monday, d) * 4 + h / 6 < 28
        },
    }
}

/// The buckets of each reading of the week.
pub open spec fn week_assignment(monday: Date, hours: Seq<Seq<char>>) -> Seq<Option<usize>> {
    Seq::new(hours.len(), |j: int| week_bucket_of(monday, hours[j]))
}

/// The week labels.
pub open spec fn week_labels() -> Seq<Seq<char>> {
    Seq::new(28, |i: int| week_label(i))
}

/// The server can aggregate the week: chrono reads the Monday key and every
/// reading can be placed.
pub open spec fn week_defined(monday: Seq<char>, hours: Seq<Seq<char>>) -> bool {
    &&& chrono_parsed_date(monday, iso_date_format()) is Some
    &&& forall|j: int|
        0 <= j < hours.len() ==> week_hour_ok(
            chrono_parsed_date(monday, iso_date_format()).unwrap(),
            #[trigger] hours[j],
        )
}

fn week_bucket(monday: Date, hour: &str) -> (r: Option<usize>)
    requires
        monday.valid(),
        week_hour_ok(monday, hour@),
    ensures
        r == week_bucket_of(monday, hour@),
{
    let date = match parse_date(date_slice(hour), iso_format()) {
        Some(d) => d,
        None => return None,
    };
    let offset = days_between(date, monday);
    if !(0 <= offset && offset < 7) {
        return None;
    }
    let b = hour.as_bytes();
    let h = match parse_usize(b, 11, b.len()) {
        Some(h) => h,
        None => return None,
    };
    let quarter = h / 6;
    Some(offset as usize * 4 + quarter)
}

/// The 28 quarter-day buckets of the week starting on `monday`
/// ("YYYY-MM-DD"), labelled "Mon 0-6" to "Sun 18-24", with the readings
/// (given by their hour keys) that fall in each.
pub fn aggregate_week(monday: &str, hours: &[String]) -> (r: Vec<BucketPlan>)
    requires
        week_defined(monday@, texts(hours@)),
    ensures
        plans_match(
            r@,
            week_labels(),
            week_assignment(chrono_parsed_date(monday@, iso_date_format()).unwrap(), texts(hours@)),
        ),
{
    let monday_date = parse_date(monday, iso_format()).unwrap();
    let ghost md = monday_date;
    let mut assign: Vec<Option<usize>> = Vec::new();
    let mut j: usize = 0;
    while j < hours.len()
        invariant
            0 <= j <= hours@.len(),
            monday_date.valid(),
            md == monday_date,
            week_defined(monday@, texts(hours@)),
            md == chrono_parsed_date(monday@, iso_date_format()).unwrap(),
            assign@ == week_assignment(md, texts(hours@)).subrange(0, j as int),
        decreases hours@.len() - j,
    {
        assert(week_hour_ok(md, texts(hours@)[j as int]));
        let bucket = week_bucket(monday_date, hours[j].as_str());
        assign.push(bucket);
        assert(assign@ =~= week_assignment(md, texts(hours@)).subrange(0, j + 1));
        j = j + 1;
    }
    assert(assign@ =~= week_assignment(md, texts(hours@)));
    let mut labels: Vec<String> = Vec::new();
    let mut i: usize = 0;
    while i < WEEK_BUCKETS
        invariant
            0 <= i <= 28,
            texts(labels@) == week_labels().subrange(0, i as int),
        decreases 28 - i,
    {
        let l = week_label_string(i);
        let ghost prev = texts(labels@);
        labels.push(l);
        assert(texts(labels@) =~= prev.push(l@));
        assert(texts(labels@) =~= week_labels().subrange(0, i + 1));
        i = i + 1;
    }
    assert(week_labels().subrange(0, 28) =~= week_labels());
    plans_from(&labels, &assign)
}

/// The week buckets, or `None` where `aggregate_week` cannot compute them.
pub fn try_aggregate_week(monday: &str, hours: &[String]) -> (r: Option<Vec<BucketPlan>>)
    ensures
        r is Some <==> week_defined(monday@, texts(hours@)),
        r matches Some(v) ==> plans_match(
            v@,
            week_labels(),
            week_assignment(chrono_parsed_date(monday@, iso_date_format()).unwrap(), texts(hours@)),
        ),
{
    let monday_date = match parse_date(monday, iso_format()) {
        Some(d) => d,
        None => return None,
    };
    let mut j: usize = 0;
    while j < hours.len()
        invariant
            0 <= j <= hours@.len(),
            monday_date.valid(),
            monday_date == chrono_parsed_date(monday@, iso_date_format()).unwrap(),
            chrono_parsed_date(monday@, iso_date_format()) is Some,
            forall|k: int| 0 <= k < j ==> week_hour_ok(monday_date, #[trigger] texts(hours@)[k]),
        decreases hours@.len() - j,
    {
        let hour = hours[j].as_str();
        assert(hour@ == texts(hours@)[j as int]);
        let b = hour.as_bytes();
        if b.len() < 10 || !hour.is_char_boundary(10) {
            return None;
        }
        match parse_date(date_slice(hour), iso_format()) {
            None => {},
            Some(date) => {
                let offset = days_between(date, monday_date);
                if 0 <= offset && offset < 7 {
                    if b.len() < 11 || !hour.is_char_boundary(11) {
                        return None;
                    }
                    match parse_usize(b, 11, b.len()) {
                        None => {},
                        Some(h) => {
                            if h / 6 >= 28 - (offset as usize) * 4 {
                                return None;
                            }
                        },
                    }
                }
            },
        }
        j = j + 1;
    }
    Some(aggregate_week(monday, hours))
}

/// The day `s[8..10]` of a reading's hour key, 0 when it does not read.
pub open spec fn month_day_of(hour: Seq<char>) -> usize {
    match parsed_usize(encode_utf8(hour).subrange(8, 10)) {
        Some(v) => v,
        None => 0,
    }
}

/// The day bucket (day - 1) of a reading in a month of `days` days; `None`
/// when its day is not one of them.
pub open spec fn month_bucket_of(days: int, hour: Seq<char>) -> Option<usize> {
    if 1 <= month_day_of(hour) <= days {
        Some((month_day_of(hour) - 1) as usize)
    } else {
        None
    }
}

/// The server can place the reading: `s[..10]` and `s[8..10]` can be cut off.
pub open spec fn month_hour_ok(hour: Seq<char>) -> bool {
    &&& encode_utf8(hour).len() >= 10
    &&& is_char_boundary(encode_utf8(hour), 10)
    &&& is_char_boundary(encode_utf8(hour), 8)
}

/// The label of day bucket `i`: the month key, '-', the day in two digits.
pub open spec fn month_label(month: Seq<char>, i: int) -> Seq<char> {
    month + seq!['-'] + padded_decimal((i + 1) as nat, 2)
}

/// The number of days of the month a key "YYYY-MM" names.
pub open spec fn month_key_days(b: Seq<u8>) -> int {
    crate::calendar::month_length(
        key_year_month(b).0.unwrap() as int,
        key_year_month(b).1.unwrap() as int,
    )
}

/// The server can aggregate the month: it reads a year and a month 1 to 12
/// from the key, and every reading can be placed.
pub open spec fn month_defined(month: Seq<char>, hours: Seq<Seq<char>>) -> bool {
    &&& has_year_month(encode_utf8(month))
    &&& 1 <= key_year_month(encode_utf8(month)).1.unwrap() <= 12
    &&& forall|j: int| 0 <= j < hours.len() ==> month_hour_ok(#[trigger] hours[j])
}

/// The day buckets of each reading of the month.
pub open spec fn month_assignment(days: int, hours: Seq<Seq<char>>) -> Seq<Option<usize>> {
    Seq::new(hours.len(), |j: int| month_bucket_of(days, hours[j]))
}

/// The labels of a month of `days` days.
pub open spec fn month_labels(month: Seq<char>, days: int) -> Seq<Seq<char>> {
    Seq::new(days as nat, |i: int| month_label(month, i))
}

/// One bucket per day of the month `month` ("YYYY-MM"), labelled
/// "YYYY-MM-DD", with the readings whose day `s[8..10]` is that day.
pub fn aggregate_month(month: &str, hours: &[String]) -> (r: Vec<BucketPlan>)
    requires
        month_defined(month@, texts(hours@)),
    ensures
        plans_match(
            r@,
            month_labels(month@, month_key_days(encode_utf8(month@))),
            month_assignment(month_key_days(encode_utf8(month@)), texts(hours@)),
        ),
{
    let (year, mo) = year_month(month.as_bytes());
    let next = if mo == 12 {
        crate::civil::date_from_ymd(year + 1, 1, 1).unwrap()
    } else {
        crate::civil::date_from_ymd(year, mo + 1, 1).unwrap()
    };
    let first = crate::civil::date_from_ymd(year, mo, 1).unwrap();
    let days_in_month = days_between(next, first) as usize;
    proof {
        crate::periods::lemma_next_month_first(year as int, mo as int);
    }
    let ghost days = days_in_month as int;
    assert(days == month_key_days(encode_utf8(month@)));
    let mut assign: Vec<Option<usize>> = Vec::new();
    let mut j: usize = 0;
    while j < hours.len()
        invariant
            0 <= j <= hours@.len(),
            days == days_in_month,
            28 <= days_in_month <= 31,
            forall|k: int| 0 <= k < hours@.len() ==> month_hour_ok(#[trigger] texts(hours@)[k]),
            assign@ == month_assignment(days, texts(hours@)).subrange(0, j as int),
        decreases hours@.len() - j,
    {
        let hour = hours[j].as_str();
        assert(hour@ == texts(hours@)[j as int]);
        assert(month_hour_ok(texts(hours@)[j as int]));
        let b = hour.as_bytes();
        let day = match parse_usize(b, 8, 10) {
            Some(d) => d,
            None => 0,
        };
        if day >= 1 && day <= days_in_month {
            assign.push(Some(day - 1));
        } else {
            assign.push(None);
        }
        assert(assign@ =~= month_assignment(days, texts(hours@)).subrange(0, j + 1));
        j = j + 1;
    }
    assert(assign@ =~= month_assignment(days, texts(hours@)));
    let mut labels: Vec<String> = Vec::new();
    let mut i: usize = 0;
    while i < days_in_month
        invariant
            0 <= i <= days_in_month <= 31,
            days == days_in_month,
            texts(labels@) == month_labels(month@, days).subrange(0, i as int),
        decreases days_in_month - i,
    {
        let mut l = month.to_owned();
        push_char(&mut l, '-');
        push_padded(&mut l, (i + 1) as u64, 2);
        assert(l@ =~= month_label(month@, i as int));
        let ghost prev = texts(labels@);
        labels.push(l);
        assert(texts(labels@) =~= prev.push(l@));
        assert(texts(labels@) =~= month_labels(month@, days).subrange(0, i + 1));
        i = i + 1;
    }
    assert(month_labels(month@, days).subrange(0, days) =~= month_labels(month@, days));
    plans_from(&labels, &assign)
}

/// The day buckets, or `None` where `aggregate_month` cannot compute them.
pub fn try_aggregate_month(month: &str, hours: &[String]) -> (r: Option<Vec<BucketPlan>>)
    ensures
        r is Some <==> month_defined(month@, texts(hours@)),
        r matches Some(v) ==> plans_match(
            v@,
            month_labels(month@, month_key_days(encode_utf8(month@))),
            month_assignment(month_key_days(encode_utf8(month@)), texts(hours@)),
        ),
{
    if !crate::periods::reads_year_month(month) {
        return None;
    }
    let (_year, mo) = year_month(month.as_bytes());
    if mo < 1 || mo > 12 {
        return None;
    }
    let mut j: usize = 0;
    while j < hours.len()
        invariant
            0 <= j <= hours@.len(),
            forall|k: int| 0 <= k < j ==> month_hour_ok(#[trigger] texts(hours@)[k]),
        decreases hours@.len() - j,
    {
        let hour = hours[j].as_str();
        assert(hour@ == texts(hours@)[j as int]);
        if hour.as_bytes().len() < 10 || !hour.is_char_boundary(10) || !hour.is_char_boundary(8) {
            return None;
        }
        j = j + 1;
    }
    Some(aggregate_month(month, hours))
}

/// Weeks in a semester.
pub const SEMESTER_BUCKETS: usize = 26;

/// The week bucket of a reading in the semester starting at `start`: the
/// whole weeks from the start; `None` before the start or after 26 weeks.
pub open spec fn semester_bucket_of(start: Date, hour: Seq<char>) -> Option<usize> {
    let off = date_of_key(hour).unwrap().day_number() - start.day_number();
    if off < 0 {
        None
    } else if off / 7 < 26 {
        Some((off / 7) as usize)
    } else {
        None
    }
}

/// The server can place the reading: its first ten bytes can be cut off
/// and chrono reads them as a date.
pub open spec fn semester_hour_ok(hour: Seq<char>) -> bool {
    has_date_part(hour) && date_of_key(hour) is Some
}

/// The labels of the semester starting at `start`: the start of each week.
pub open spec fn semester_labels(start: Date) -> Seq<Seq<char>> {
    Seq::new(26, |i: int| date_text(date_at(start.day_number() + 7 * i)))
}

/// The semester buckets of each reading.
pub open spec fn semester_assignment(start: Date, hours: Seq<Seq<char>>) -> Seq<Option<usize>> {
    Seq::new(hours.len(), |j: int| semester_bucket_of(start, hours[j]))
}

/// The server can aggregate the semester: chrono reads the start key, its
/// 26th week starts in range, and every reading can be placed.
pub open spec fn semester_defined(start: Seq<char>, hours: Seq<Seq<char>>) -> bool {
    &&& chrono_parsed_date(start, iso_date_format()) is Some
    &&& in_chrono_range(chrono_parsed_date(start, iso_date_format()).unwrap().day_number() + 175)
    &&& forall|j: int| 0 <= j < hours.len() ==> semester_hour_ok(#[trigger] hours[j])
}

/// The 26 week buckets of the semester starting on `start_monday`,
/// labelled by the date each week starts, with the readings of each week.
pub fn aggregate_semester(start_monday: &str, hours: &[String]) -> (r: Vec<BucketPlan>)
    requires
        semester_defined(start_monday@, texts(hours@)),
    ensures
        plans_match(
            r@,
            semester_labels(chrono_parsed_date(start_monday@, iso_date_format()).unwrap()),
            semester_assignment(
                chrono_parsed_date(start_monday@, iso_date_format()).unwrap(),
                texts(hours@),
            ),
        ),
{
    let start = parse_date(start_monday, iso_format()).unwrap();
    proof {
        lemma_valid_date(start);
    }
    let mut assign: Vec<Option<usize>> = Vec::new();
    let mut j: usize = 0;
    while j < hours.len()
        invariant
            0 <= j <= hours@.len(),
            start.valid(),
            forall|k: int| 0 <= k < hours@.len() ==> semester_hour_ok(#[trigger] texts(hours@)[k]),
            assign@ == semester_assignment(start, texts(hours@)).subrange(0, j as int),
        decreases hours@.len() - j,
    {
        let hour = hours[j].as_str();
        assert(hour@ == texts(hours@)[j as int]);
        assert(semester_hour_ok(texts(hours@)[j as int]));
        let date = parse_date(date_slice(hour), iso_format()).unwrap();
        proof {
            crate::periods::lemma_day_range(date);
            crate::periods::lemma_day_range(start);
        }
        let offset = days_between(date, start);
        if offset < 0 {
            assign.push(None);
        } else {
            let week = offset / 7;
            if (week as usize) < SEMESTER_BUCKETS {
                assign.push(Some(week as usize));
            } else {
                assign.push(None);
            }
        }
        assert(assign@ =~= semester_assignment(start, texts(hours@)).subrange(0, j + 1));
        j = j + 1;
    }
    assert(assign@ =~= semester_assignment(start, texts(hours@)));
    let mut labels: Vec<String> = Vec::new();
    let mut i: usize = 0;
    while i < SEMESTER_BUCKETS
        invariant
            0 <= i <= 26,
            start.valid(),
            in_chrono_range(start.day_number()),
            in_chrono_range(start.day_number() + 175),
            texts(labels@) == semester_labels(start).subrange(0, i as int),
        decreases 26 - i,
    {
        let week_start = checked_add_weeks(start, i as i64).unwrap();
        proof {
            lemma_valid_date(week_start);
        }
        let l = format_date(week_start, iso_format());
        let ghost prev = texts(labels@);
        labels.push(l);
        assert(texts(labels@) =~= prev.push(l@));
        assert(texts(labels@) =~= semester_labels(start).subrange(0, i + 1));
        i = i + 1;
    }
    assert(semester_labels(start).subrange(0, 26) =~= semester_labels(start));
    plans_from(&labels, &assign)
}

/// The semester buckets, or `None` where `aggregate_semester` cannot
/// compute them.
pub fn try_aggregate_semester(start_monday: &str, hours: &[String]) -> (r: Option<Vec<BucketPlan>>)
    ensures
        r is Some <==> semester_defined(start_monday@, texts(hours@)),
        r matches Some(v) ==> plans_match(
            v@,
            semester_labels(chrono_parsed_date(start_monday@, iso_date_format()).unwrap()),
            semester_assignment(
                chrono_parsed_date(start_monday@, iso_date_format()).unwrap(),
                texts(hours@),
            ),
        ),
{
    let start = match parse_date(start_monday, iso_format()) {
        Some(d) => d,
        None => return None,
    };
    if checked_add_weeks(start, 25).is_none() {
        return None;
    }
    let mut j: usize = 0;
    while j < hours.len()
        invariant
            0 <= j <= hours@.len(),
            forall|k: int| 0 <= k < j ==> semester_hour_ok(#[trigger] texts(hours@)[k]),
        decreases hours@.len() - j,
    {
        let hour = hours[j].as_str();
        assert(hour@ == texts(hours@)[j as int]);
        if hour.as_bytes().len() < 10 || !hour.is_char_boundary(10) {
            return None;
        }
        if parse_date(date_slice(hour), iso_format()).is_none() {
            return None;
        }
        j = j + 1;
    }
    Some(aggregate_semester(start_monday, hours))
}

/// Months in a triennium.
pub const TRIENNIUM_BUCKETS: usize = 36;

/// The month bucket of a reading in the triennium starting at month `sm` of
/// year `sy`: the months from the start; `None` outside the 36 months.
pub open spec fn triennium_bucket_of(sy: int, sm: int, hour: Seq<char>) -> Option<usize> {
    let ym = key_year_month(encode_utf8(hour));
    let off = (ym.0.unwrap() - sy) * 12 + ym.1.unwrap() - sm;
    if 0 <= off < 36 {
        Some(off as usize)
    } else {
        None
    }
}

/// Division and remainder by 12 rounded toward zero, as Rust computes them.
pub open spec fn trunc_div12(t: int) -> int {
    if t >= 0 {
        t / 12
    } else {
        -((-t) / 12)
    }
}

pub open spec fn trunc_rem12(t: int) -> int {
    t - 12 * trunc_div12(t)
}

/// The label "Y-MM" of month bucket `i` of the triennium starting at month
/// `sm` of year `sy`, the year written as `{}`.
pub open spec fn triennium_label(sy: int, sm: int, i: int) -> Seq<char> {
    let t = sm - 1 + i;
    int_text(sy + trunc_div12(t)) + seq!['-'] + padded_decimal((trunc_rem12(t) + 1) as nat, 2)
}

pub open spec fn triennium_labels(sy: int, sm: int) -> Seq<Seq<char>> {
    Seq::new(36, |i: int| triennium_label(sy, sm, i))
}

pub open spec fn triennium_assignment(sy: int, sm: int, hours: Seq<Seq<char>>) -> Seq<Option<usize>> {
    Seq::new(hours.len(), |j: int| triennium_bucket_of(sy, sm, hours[j]))
}

/// The server can aggregate the triennium: it reads a year and a month
/// from the start key and from every reading's hour key.
pub open spec fn triennium_defined(start: Seq<char>, hours: Seq<Seq<char>>) -> bool {
    &&& has_year_month(encode_utf8(start))
    &&& forall|j: int| 0 <= j < hours.len() ==> has_year_month(encode_utf8(#[trigger] hours[j]))
}

/// The 36 month buckets of the triennium starting at `start` ("YYYY-MM-01"),
/// labelled "Y-MM", with the readings of each month.
pub fn aggregate_triennium(start: &str, hours: &[String]) -> (r: Vec<BucketPlan>)
    requires
        triennium_defined(start@, texts(hours@)),
    ensures
        ({
            let ym = key_year_month(encode_utf8(start@));
            plans_match(
                r@,
                triennium_labels(ym.0.unwrap() as int, ym.1.unwrap() as int),
                triennium_assignment(ym.0.unwrap() as int, ym.1.unwrap() as int, texts(hours@)),
            )
        }),
{
    let (start_year, start_mo) = year_month(start.as_bytes());
    let mut assign: Vec<Option<usize>> = Vec::new();
    let mut j: usize = 0;
    while j < hours.len()
        invariant
            0 <= j <= hours@.len(),
            -10000 < start_year < 10000,
            start_mo < 100,
            forall|k: int|
                0 <= k < hours@.len() ==> has_year_month(encode_utf8(#[trigger] texts(hours@)[k])),
            assign@ == triennium_assignment(start_year as int, start_mo as int, texts(hours@)).subrange(
                0,
                j as int,
            ),
        decreases hours@.len() - j,
    {
        let hour = hours[j].as_str();
        assert(hour@ == texts(hours@)[j as int]);
        assert(has_year_month(encode_utf8(texts(hours@)[j as int])));
        let (year, mo) = year_month(hour.as_bytes());
        let offset: i32 = (year - start_year) * 12 + mo as i32 - start_mo as i32;
        if offset >= 0 && (offset as usize) < TRIENNIUM_BUCKETS {
            assign.push(Some(offset as usize));
        } else {
            assign.push(None);
        }
        assert(assign@ =~= triennium_assignment(
            start_year as int,
            start_mo as int,
            texts(hours@),
        ).subrange(0, j + 1));
        j = j + 1;
    }
    assert(assign@ =~= triennium_assignment(start_year as int, start_mo as int, texts(hours@)));
    let mut labels: Vec<String> = Vec::new();
    let mut i: usize = 0;
    while i < TRIENNIUM_BUCKETS
        invariant
            0 <= i <= 36,
            -10000 < start_year < 10000,
            start_mo < 100,
            texts(labels@) == triennium_labels(start_year as int, start_mo as int).subrange(0, i as int),
        decreases 36 - i,
    {
        let total: i32 = start_mo as i32 - 1 + i as i32;
        let (q, rem) = if total >= 0 {
            (total / 12, total % 12)
        } else {
            (0 - ((0 - total) / 12), total + 12 * ((0 - total) / 12))
        };
        let mut l = String::new();
        push_int(&mut l, (start_year + q) as i64);
        push_char(&mut l, '-');
        push_padded(&mut l, (rem + 1) as u64, 2);
        assert(l@ =~= triennium_label(start_year as int, start_mo as int, i as int));
        let ghost prev = texts(labels@);
        labels.push(l);
        assert(texts(labels@) =~= prev.push(l@));
        assert(texts(labels@) =~= triennium_labels(start_year as int, start_mo as int).subrange(0, i + 1));
        i = i + 1;
    }
    assert(triennium_labels(start_year as int, start_mo as int).subrange(0, 36) =~= triennium_labels(
        start_year as int,
        start_mo as int,
    ));
    plans_from(&labels, &assign)
}

/// The month buckets, or `None` where `aggregate_triennium` cannot compute
/// them.
pub fn try_aggregate_triennium(start: &str, hours: &[String]) -> (r: Option<Vec<BucketPlan>>)
    ensures
        r is Some <==> triennium_defined(start@, texts(hours@)),
        r matches Some(v) ==> ({
            let ym = key_year_month(encode_utf8(start@));
            plans_match(
                v@,
                triennium_labels(ym.0.unwrap() as int, ym.1.unwrap() as int),
                triennium_assignment(ym.0.unwrap() as int, ym.1.unwrap() as int, texts(hours@)),
            )
        }),
{
    if !crate::periods::reads_year_month(start) {
        return None;
    }
    let mut j: usize = 0;
    while j < hours.len()
        invariant
            0 <= j <= hours@.len(),
            forall|k: int| 0 <= k < j ==> has_year_month(encode_utf8(#[trigger] texts(hours@)[k])),
        decreases hours@.len() - j,
    {
        let hour = hours[j].as_str();
        assert(hour@ == texts(hours@)[j as int]);
        if !crate::periods::reads_year_month(hour) {
            return None;
        }
        j = j + 1;
    }
    Some(aggregate_triennium(start, hours))
}

/// The quarter labels name their hours: quarter `q` is "a-b" with
/// `a = 6 q` and `b = a + 6`.
proof fn lemma_quarter_label(q: int)
    requires
        0 <= q < 4,
    ensures
        quarter_label(q) == decimal_text((6 * q) as nat) + seq!['-'] + decimal_text((6 * q + 6) as nat),
{
    reveal_with_fuel(decimal_text, 2);
    assert(quarter_label(q) =~= decimal_text((6 * q) as nat) + seq!['-'] + decimal_text(
        (6 * q + 6) as nat,
    ));
}

/// Law: a reading of the week, `k` days after the Monday (0 to 6) at hour
/// `h` (0 to 23) of its day, is charted in a bucket whose label names its
/// day and a quarter "a-b" of the day with `a <= h < b`; a reading dated
/// outside the week is in no bucket.
pub proof fn law_week_bucket_holds_hour(monday: Date, hour: Seq<char>, d: Date, h: usize)
    requires
        date_of_key(hour) == Some(d),
        key_hour_of(hour) == Some(h),
        h < 24,
    ensures
        0 <= d.day_number() - monday.day_number() < 7 ==> (week_bucket_of(monday, hour) matches Some(
            b,
        ) && b < 28 && exists|a: nat|
            a <= h < a + 6 && week_labels()[b as int] == day_name(
                d.day_number() - monday.day_number(),
            ) + seq![' '] + #[trigger] decimal_text(a) + seq!['-'] + decimal_text(a + 6)),
        !(0 <= d.day_number() - monday.day_number() < 7) ==> week_bucket_of(monday, hour) is None,
{
    let k = d.day_number() - monday.day_number();
    if 0 <= k < 7 {
        let q = (h / 6) as int;
        let b = 4 * k + q;
        assert(week_bucket_of(monday, hour) == Some(b as usize));
        assert(b / 4 == k && b % 4 == q);
        lemma_quarter_label(q);
        let a = (6 * q) as nat;
        assert(week_labels()[b] == week_label(b));
        assert(week_labels()[b] == day_name(k) + seq![' '] + decimal_text(a) + seq!['-']
            + decimal_text(a + 6));
        assert(a <= h < a + 6);
    }
}

/// Law: a reading whose day of month `s[8..10]` is one of the month's
/// `days` days is charted in the bucket labelled with the month key and
/// that day in two digits; a reading of another day is in no bucket.
pub proof fn law_month_bucket_is_its_day(month: Seq<char>, days: int, hour: Seq<char>)
    requires
        28 <= days <= 31,
    ensures
        1 <= month_day_of(hour) <= days ==> (month_bucket_of(days, hour) matches Some(b) && b
            < days && month_labels(month, days)[b as int] == month + seq!['-'] + padded_decimal(
            month_day_of(hour) as nat,
            2,
        )),
        !(1 <= month_day_of(hour) <= days) ==> month_bucket_of(days, hour) is None,
{
    if 1 <= month_day_of(hour) <= days {
        let b = month_day_of(hour) - 1;
        assert(month_labels(month, days)[b as int] == month_label(month, b as int));
    }
}

/// Law: a reading dated on or after the semester's start and less than 26
/// weeks after it is charted in the bucket of the week that holds its date:
/// the bucket's label is a date at most six days before the reading's;
/// any other reading is in no bucket.
pub proof fn law_semester_bucket_holds_date(start: Date, hour: Seq<char>, d: Date)
    requires
        date_of_key(hour) == Some(d),
    ensures
        start.day_number() <= d.day_number() < start.day_number() + 182 ==> (semester_bucket_of(
            start,
            hour,
        ) matches Some(b) && b < 26 && start.day_number() + 7 * b <= d.day_number()
            < start.day_number() + 7 * b + 7 && semester_labels(start)[b as int] == date_text(
            date_at(start.day_number() + 7 * b),
        )),
        !(start.day_number() <= d.day_number() < start.day_number() + 182) ==> semester_bucket_of(
            start,
            hour,
        ) is None,
{
    let off = d.day_number() - start.day_number();
    if 0 <= off < 182 {
        let b = off / 7;
        assert(semester_bucket_of(start, hour) == Some(b as usize));
        assert(semester_labels(start)[b] == date_text(date_at(start.day_number() + 7 * b)));
    } else if off >= 182 {
        assert(off / 7 >= 26);
    }
}

/// Law: a reading of a month (1 to 12) that is 0 to 35 months after the
/// triennium's start month is charted in the bucket labelled with its own
/// year and month, so a reading of the start month is in the first bucket;
/// any other reading is in no bucket.
pub proof fn law_triennium_bucket_is_its_month(sy: int, sm: int, hour: Seq<char>)
    requires
        1 <= sm <= 12,
        has_year_month(encode_utf8(hour)),
    ensures
        ({
            let y = key_year_month(encode_utf8(hour)).0.unwrap() as int;
            let m = key_year_month(encode_utf8(hour)).1.unwrap() as int;
            let off = (y - sy) * 12 + m - sm;
            &&& (1 <= m <= 12 && 0 <= off < 36) ==> (triennium_bucket_of(sy, sm, hour) matches Some(
                b,
            ) && b == off && triennium_labels(sy, sm)[b as int] == int_text(y) + seq!['-']
                + padded_decimal(m as nat, 2))
            &&& !(0 <= off < 36) ==> triennium_bucket_of(sy, sm, hour) is None
        }),
{
    let y = key_year_month(encode_utf8(hour)).0.unwrap() as int;
    let m = key_year_month(encode_utf8(hour)).1.unwrap() as int;
    let off = (y - sy) * 12 + m - sm;
    if 1 <= m <= 12 && 0 <= off < 36 {
        let t = sm - 1 + off;
        assert(t == (y - sy) * 12 + (m - 1));
        assert(t >= 0);
        assert(t / 12 == y - sy && t % 12 == m - 1) by (nonlinear_arith)
            requires
                t == (y - sy) * 12 + (m - 1),
                0 <= m - 1 < 12,
        ;
        assert(trunc_div12(t) == y - sy);
        assert(trunc_rem12(t) == m - 1);
        assert(triennium_labels(sy, sm)[off] == triennium_label(sy, sm, off));
    }
}

} // verus!

