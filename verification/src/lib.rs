//! Verified core of the Toro weather station: the calendar arithmetic, the
//! hour keys shared by firmware and server, the bucketing of hourly readings
//! into chart periods, request authentication, rate limiting, and the
//! decisions the firmware takes around each upload.
use vstd::prelude::*;

pub mod calendar;
pub mod text;
pub mod hour_keys;
pub mod firmware;
pub mod clock;
pub mod rate_limit;
pub mod auth;
pub mod migration;
pub mod civil;
pub mod periods;
pub mod buckets;
pub mod pages;

pub use auth::{bearer_token, check_token, issue_token, token_to_issue, AuthFailure, IssuedToken, TokenAuthenticated, TokenError};
pub use buckets::{
    aggregate_month, aggregate_semester, aggregate_triennium, aggregate_week, try_aggregate_month,
    try_aggregate_semester, try_aggregate_triennium, try_aggregate_week, BucketPlan,
};
pub use firmware::{CountOn, PinState, UploadOutcome, Uplink};
pub use hour_keys::{hour_key, hour_key_to_unix, read_hour_key};
pub use migration::{migration_step, MigrationStep, UnknownSchemaVersion};
pub use periods::{
    day_key_of, monday_of, month_of, prefix_pattern, reads_year_month, semester_query_range,
    semester_start_of,
    semesters_of_dates, triennia_of_dates, triennium_query_range, triennium_start_of,
    try_monday_of, try_semester_query_range, try_semester_start_of, try_semesters_of_dates,
    try_triennia_of_dates, try_week_query_range, try_weeks_of_dates, week_query_range,
    weeks_of_dates,
};
pub use pages::{day_chart_script, static_dir, static_json_path, Span};
pub use rate_limit::{ClientAddr, RateLimiter};
