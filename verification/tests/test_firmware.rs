use toro::firmware::{
    debounce_step, join_action, keep_latest, lcd_line, next_edge, sensor_pause_ms, should_count,
    simulated_unix_at, status_lines, wifi_retry_text, EdgeTrigger, JoinAction,
    RATE_LIMIT_BACKOFF_MS, SENSOR_READ_GAP_MS, TIME_SCALE_TEST,
};
use toro::{CountOn, PinState, UploadOutcome, Uplink};

#[test]
fn debounce_emits_only_changes() {
    assert_eq!(debounce_step(PinState::Low, PinState::High), (PinState::High, Some(PinState::High)));
    assert_eq!(debounce_step(PinState::High, PinState::High), (PinState::High, None));
    assert_eq!(next_edge(PinState::Low), EdgeTrigger::Positive);
    assert_eq!(next_edge(PinState::High), EdgeTrigger::Negative);
}

#[test]
fn counter_counts_the_chosen_transition() {
    assert!(should_count(PinState::High, CountOn::Rising));
    assert!(!should_count(PinState::Low, CountOn::Rising));
    assert!(should_count(PinState::Low, CountOn::Falling));
    assert!(!should_count(PinState::High, CountOn::Falling));
}

#[test]
fn upload_outcomes_from_status() {
    assert_eq!(UploadOutcome::from_status(Some(201)), UploadOutcome::Created);
    assert_eq!(UploadOutcome::from_status(Some(422)), UploadOutcome::Duplicate);
    assert_eq!(UploadOutcome::from_status(Some(429)), UploadOutcome::RateLimited);
    assert_eq!(UploadOutcome::from_status(Some(500)), UploadOutcome::Rejected(500));
    assert_eq!(UploadOutcome::from_status(None), UploadOutcome::Unreachable);
    assert_eq!(UploadOutcome::RateLimited.backoff_ms(), RATE_LIMIT_BACKOFF_MS);
    assert_eq!(UploadOutcome::Created.backoff_ms(), 0);
}

#[test]
fn an_hour_is_retried_until_the_server_answers() {
    let mut uplink = Uplink::new();
    let hour = "2026-04-05T14".to_string();
    assert!(uplink.is_due(&hour));
    assert_eq!(uplink.record(&hour, None), UploadOutcome::Unreachable);
    assert!(uplink.is_due(&hour));
    assert_eq!(uplink.record(&hour, Some(429)), UploadOutcome::RateLimited);
    assert!(uplink.is_due(&hour));
    assert_eq!(uplink.record(&hour, Some(201)), UploadOutcome::Created);
    assert!(!uplink.is_due(&hour));
    let next = "2026-04-05T15".to_string();
    assert!(uplink.is_due(&next));
    uplink.record(&next, Some(503));
    assert!(!uplink.is_due(&next));
}

#[test]
fn lcd_lines_are_sixteen_characters() {
    assert_eq!(lcd_line("POST"), "POST            ");
    assert_eq!(lcd_line("0123456789abcdefXYZ"), "0123456789abcdef");
    assert_eq!(lcd_line(""), "                ");
    assert_eq!(lcd_line("21.5°C"), "21.5°C          ");
    let accented = lcd_line("ééééééééé");
    assert_eq!(accented, "éééééééé        ");
    assert_eq!(accented.chars().count(), 16);
    let (a, b) = status_lines("Wi-Fi", "Retry 2/5...");
    assert_eq!(a, "Wi-Fi           ");
    assert_eq!(b, "Retry 2/5...    ");
}

#[test]
fn simulated_clock_scales_elapsed_time() {
    assert_eq!(simulated_unix_at(1_000, 10, TIME_SCALE_TEST), Some(4_600));
    assert_eq!(simulated_unix_at(1_000, 10, 1), Some(1_010));
    assert_eq!(simulated_unix_at(u64::MAX, 1, 1), None);
}

#[test]
fn sensor_keeps_the_last_successful_read() {
    let reads = [Some(1), None, Some(3), None, None];
    let mut last = None;
    for r in reads {
        last = keep_latest(last, r);
    }
    assert_eq!(last, Some(3));
    let mut none: Option<i32> = None;
    for _ in 0..5 {
        none = keep_latest(none, None);
    }
    assert_eq!(none, None);
    assert_eq!(sensor_pause_ms(1), SENSOR_READ_GAP_MS);
    assert_eq!(sensor_pause_ms(4), 2500);
    assert_eq!(sensor_pause_ms(5), 0);
}

#[test]
fn wifi_gives_up_after_five_failed_attempts() {
    assert_eq!(join_action(1, true), JoinAction::Proceed);
    assert_eq!(join_action(1, false), JoinAction::Pause { again: true });
    assert_eq!(join_action(4, false), JoinAction::Pause { again: true });
    assert_eq!(join_action(5, false), JoinAction::Pause { again: false });
    assert_eq!(join_action(5, true), JoinAction::Proceed);
    assert_eq!(wifi_retry_text(2), "Retry 2/5...");
}

#[test]
fn debounced_states_alternate_and_are_counted() {
    let reads = [
        PinState::Low,
        PinState::High,
        PinState::High,
        PinState::Low,
        PinState::Low,
        PinState::High,
    ];
    let mut state = PinState::Low;
    let mut emitted = Vec::new();
    for r in reads {
        let (next, out) = debounce_step(state, r);
        state = next;
        if let Some(x) = out {
            emitted.push(x);
        }
    }
    assert_eq!(emitted, vec![PinState::High, PinState::Low, PinState::High]);
    assert_eq!(state, PinState::High);
    let mut counter: u32 = 0;
    for x in &emitted {
        if should_count(*x, CountOn::Rising) {
            counter = counter.wrapping_add(1);
        }
    }
    assert_eq!(counter, 2);
}

#[test]
fn a_finished_hour_is_not_uploaded_again() {
    let mut uplink = Uplink::new();
    let polls = [
        ("2026-04-05T14", Some(429)),
        ("2026-04-05T14", None),
        ("2026-04-05T14", Some(201)),
        ("2026-04-05T14", Some(201)),
        ("2026-04-05T15", Some(500)),
        ("2026-04-05T15", Some(201)),
    ];
    let mut uploads = Vec::new();
    for (hour, answer) in polls {
        let hour = hour.to_string();
        if uplink.is_due(&hour) {
            uploads.push(hour.clone());
            uplink.record(&hour, answer);
        }
    }
    assert_eq!(
        uploads,
        vec!["2026-04-05T14", "2026-04-05T14", "2026-04-05T14", "2026-04-05T15"]
    );
}
