use toro::{
    day_key_of, monday_of, month_of, prefix_pattern, semester_query_range, semester_start_of,
    semesters_of_dates, triennia_of_dates, triennium_query_range, triennium_start_of,
    try_monday_of, try_semester_start_of, try_semesters_of_dates, try_week_query_range,
    try_weeks_of_dates, week_query_range, weeks_of_dates,
};

fn strings(keys: &[&str]) -> Vec<String> {
    keys.iter().map(|k| k.to_string()).collect()
}

#[test]
fn month_of_takes_year_and_month() {
    assert_eq!(month_of("2025-01-15T14"), "2025-01");
    assert_eq!(month_of("1999-12"), "1999-12");
}

#[test]
fn triennium_start_of_counts_from_1970() {
    assert_eq!(triennium_start_of("2025-01-15T14"), "2024-01-01");
    assert_eq!(triennium_start_of("2026-12-31T23"), "2024-01-01");
    assert_eq!(triennium_start_of("2027-01-01T00"), "2027-01-01");
    assert_eq!(triennium_start_of("1970-01-01T00"), "1970-01-01");
    assert_eq!(triennium_start_of("1969-12-31T23"), "1967-01-01");
    assert_eq!(triennium_start_of(&triennium_start_of("2025-06-15T00")), "2024-01-01");
    assert_eq!(triennium_start_of(&triennium_start_of("2026-12-31T23")), "2024-01-01");
}

#[test]
fn monday_of_finds_the_monday() {
    assert_eq!(monday_of("2025-01-15T14"), "2025-01-13");
    assert_eq!(monday_of("2025-01-13T00"), "2025-01-13");
    assert_eq!(monday_of("2025-01-19T23"), "2025-01-13");
    assert_eq!(monday_of("2025-01-01T12"), "2024-12-30");
    assert_eq!(monday_of("2024-03-01T00"), "2024-02-26");
}

#[test]
fn try_monday_of_refuses_what_cannot_be_read() {
    assert_eq!(try_monday_of("2025-01-15T14"), Some("2025-01-13".to_string()));
    assert_eq!(try_monday_of("2025-01"), None);
    assert_eq!(try_monday_of("2025-02-30T00"), None);
    assert_eq!(try_monday_of("abcdefghijkl"), None);
}

#[test]
fn semester_start_of_is_a_26_week_block_from_1970_01_05() {
    assert_eq!(semester_start_of("2025-01-15T14"), "2024-10-28");
    assert_eq!(semester_start_of("1970-01-05T00"), "1970-01-05");
    assert_eq!(semester_start_of("1970-07-05T00"), "1970-01-05");
    assert_eq!(semester_start_of("1970-07-06T00"), "1970-07-06");
    assert_eq!(semester_start_of("1970-01-04T00"), "1969-07-07");
    assert_eq!(try_semester_start_of("1970-13-04T00"), None);
}

#[test]
fn query_ranges_of_the_periods() {
    assert_eq!(
        week_query_range("2025-01-13"),
        ("2025-01-13T00".to_string(), "2025-01-19T23".to_string())
    );
    assert_eq!(
        semester_query_range("2025-01-13"),
        ("2025-01-13T00".to_string(), "2025-07-13T23".to_string())
    );
    assert_eq!(
        triennium_query_range("2023-01-01"),
        ("2023-01-01T00".to_string(), "2025-12-31T23".to_string())
    );
    assert_eq!(
        triennium_query_range("2023-03-01"),
        ("2023-03-01T00".to_string(), "2026-02-28T23".to_string())
    );
    assert_eq!(try_week_query_range("2025-13-01"), None);
    assert_eq!(prefix_pattern("2026-03-15"), "2026-03-15%");
    assert_eq!(day_key_of("2026-03-15T14"), "2026-03-15");
    assert_eq!(day_key_of("2026-03"), "2026-03");
}

#[test]
fn weeks_of_dates_lists_each_week_once() {
    let dates = strings(&["2025-01-13", "2025-01-15", "2025-01-19", "2025-01-20", "bad", "2025-02-01"]);
    assert_eq!(weeks_of_dates(&dates), strings(&["2025-01-13", "2025-01-20", "2025-01-27"]));
    assert_eq!(try_weeks_of_dates(&strings(&[])), Some(vec![]));
}

#[test]
fn semesters_of_dates_cover_the_range() {
    let dates = strings(&["2025-01-15", "2025-03-01", "2025-07-20"]);
    assert_eq!(semesters_of_dates(&dates), strings(&["2024-10-28", "2025-04-28"]));
    let one = strings(&["2025-01-15"]);
    assert_eq!(semesters_of_dates(&one), strings(&["2024-10-28"]));
    assert_eq!(semester_start_of("2025-01-15T00"), "2024-10-28");
    assert_eq!(semester_start_of("2025-07-20T00"), "2025-04-28");
    assert_eq!(semesters_of_dates(&strings(&[])), Vec::<String>::new());
    assert_eq!(try_semesters_of_dates(&strings(&["nope", "2025-01-15"])), None);
}

#[test]
fn triennia_of_dates_step_three_years() {
    let dates = strings(&["2023-05-10", "2024-01-01", "2029-06-01"]);
    assert_eq!(triennia_of_dates(&dates), strings(&["2021-01-01", "2024-01-01", "2027-01-01"]));
    let dates = strings(&["2023-05-10", "2026-04-30"]);
    assert_eq!(triennia_of_dates(&dates), strings(&["2021-01-01", "2024-01-01"]));
    let one = strings(&["2025-06-15"]);
    assert_eq!(triennia_of_dates(&one), strings(&["2024-01-01"]));
    assert_eq!(triennium_start_of("2025-06-15T00"), "2024-01-01");
    assert_eq!(triennia_of_dates(&strings(&[])), Vec::<String>::new());
}
