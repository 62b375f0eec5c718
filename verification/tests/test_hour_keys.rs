use toro::{hour_key, hour_key_to_unix, read_hour_key};

#[test]
fn hour_key_of_the_epoch() {
    assert_eq!(hour_key(0), "1970-01-01T00");
    assert_eq!(hour_key(3599), "1970-01-01T00");
    assert_eq!(hour_key(3600), "1970-01-01T01");
    assert_eq!(hour_key(86_399), "1970-01-01T23");
    assert_eq!(hour_key(86_400), "1970-01-02T00");
}

#[test]
fn hour_key_of_server_time() {
    assert_eq!(hour_key(1_775_397_600), "2026-04-05T14");
    assert_eq!(hour_key(1_736_951_820), "2025-01-15T14");
    assert_eq!(hour_key(951_865_200), "2000-02-29T23");
}

#[test]
fn hour_key_to_unix_reads_the_start_of_the_hour() {
    assert_eq!(hour_key_to_unix("2026-04-05T14"), 1_775_397_600);
    assert_eq!(hour_key_to_unix("1970-01-01T00"), 0);
    assert_eq!(hour_key_to_unix("2000-02-29T23"), 951_865_200);
}

#[test]
fn hour_key_round_trips() {
    for t in [0u64, 59, 3_600, 86_400 * 365, 1_736_951_820, 4_102_444_799] {
        let key = hour_key(t);
        assert_eq!(hour_key_to_unix(&key), t - t % 3600);
    }
    for key in ["2024-02-29T00", "2025-12-31T23", "2100-03-01T12"] {
        assert_eq!(hour_key(hour_key_to_unix(key)), key);
    }
}

#[test]
fn read_hour_key_refuses_malformed_keys() {
    assert_eq!(read_hour_key("2026-04-05T14"), Some(1_775_397_600));
    assert_eq!(read_hour_key("2026-04-05"), None);
    assert_eq!(read_hour_key("2026-xx-05T14"), None);
    assert_eq!(read_hour_key("2026-04-00T14"), None);
    assert_eq!(read_hour_key("2026-14-01T00"), None);
    // Month 13 is read as the month after December, as the firmware does.
    assert_eq!(read_hour_key("2025-13-01T00"), Some(hour_key_to_unix("2026-01-01T00")));
    // Month 0 counts no month before it, like month 1.
    assert_eq!(read_hour_key("2026-00-05T14"), Some(hour_key_to_unix("2026-01-05T14")));
}

#[test]
fn hour_key_of_a_five_digit_year_is_not_read_back() {
    let key = hour_key(253_402_300_800);
    assert_eq!(key, "10000-01-01T00");
    assert_ne!(read_hour_key(&key), Some(253_402_300_800));
}

#[test]
fn hour_keys_follow_time() {
    let times = [0u64, 3_599, 3_600, 86_399, 951_865_200, 1_736_951_820, 1_775_397_600];
    for w in times.windows(2) {
        assert!(hour_key(w[0]) <= hour_key(w[1]));
    }
    assert_eq!(hour_key(7_200), hour_key(10_799));
    assert_ne!(hour_key(10_799), hour_key(10_800));
}
