use std::time::Duration;

use toro::{ClientAddr, RateLimiter};

#[test]
fn allows_requests_under_limit() {
    let mut limiter = RateLimiter::new();
    let ip = ClientAddr::v4(127, 0, 0, 1);

    for _ in 0..5 {
        assert!(!limiter.too_many_attempts(ip, 5, Duration::from_secs(60).as_nanos()));
    }
}

#[test]
fn blocks_requests_over_limit() {
    let mut limiter = RateLimiter::new();
    let ip = ClientAddr::v4(127, 0, 0, 1);

    for _ in 0..5 {
        limiter.too_many_attempts(ip, 5, Duration::from_secs(60).as_nanos());
    }
    assert!(limiter.too_many_attempts(ip, 5, Duration::from_secs(60).as_nanos()));
}

#[test]
fn different_ips_are_tracked_independently() {
    let mut limiter = RateLimiter::new();
    let ip1 = ClientAddr::v4(1, 2, 3, 4);
    let ip2 = ClientAddr::v4(5, 6, 7, 8);

    for _ in 0..5 {
        limiter.too_many_attempts(ip1, 5, Duration::from_secs(60).as_nanos());
    }
    assert!(limiter.too_many_attempts(ip1, 5, Duration::from_secs(60).as_nanos()));

    assert!(!limiter.too_many_attempts(ip2, 5, Duration::from_secs(60).as_nanos()));
}

#[test]
fn attempts_older_than_the_window_are_forgotten() {
    let mut limiter = RateLimiter::new();
    let ip = ClientAddr::v4(10, 0, 0, 1);
    for t in 0..2u128 {
        assert!(!limiter.too_many_attempts_at(ip, 2, 100, t));
    }
    assert!(limiter.too_many_attempts_at(ip, 2, 100, 50));
    // At 200 every earlier attempt is at least 100 old.
    assert!(!limiter.too_many_attempts_at(ip, 2, 100, 200));
    assert!(!limiter.too_many_attempts_at(ip, 2, 100, 201));
    assert!(limiter.too_many_attempts_at(ip, 2, 100, 202));
}

#[test]
fn ipv4_and_ipv6_addresses_are_separate() {
    let mut limiter = RateLimiter::new();
    let v4 = ClientAddr::v4(0, 0, 0, 1);
    let v6 = ClientAddr::V6(1);
    assert_eq!(v4, ClientAddr::V4(1));
    assert!(!limiter.too_many_attempts_at(v4, 0 + 1, 1000, 5));
    assert!(limiter.too_many_attempts_at(v4, 1, 1000, 6));
    assert!(!limiter.too_many_attempts_at(v6, 1, 1000, 7));
}

#[test]
fn zero_window_remembers_only_the_current_attempt() {
    let mut limiter = RateLimiter::new();
    let ip = ClientAddr::v4(192, 168, 0, 1);
    assert!(!limiter.too_many_attempts_at(ip, 1, 0, 10));
    assert!(!limiter.too_many_attempts_at(ip, 1, 0, 10));
    assert!(limiter.too_many_attempts_at(ip, 0, 0, 10));
}
