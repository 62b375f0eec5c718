use toro::{aggregate_week, try_aggregate_week};

fn hours(keys: &[&str]) -> Vec<String> {
    keys.iter().map(|k| k.to_string()).collect()
}

/// An hourly reading as the server stores it.
#[allow(dead_code)]
struct Reading {
    hour: String,
    temperature: Option<f64>,
    humidity: Option<f64>,
    wind_speed: Option<f64>,
    wind_direction: Option<f64>,
    luminosity: Option<f64>,
    rainfall: Option<f64>,
}

fn reading(hour: &str, temp: f64) -> Reading {
    Reading {
        hour: hour.to_string(),
        temperature: Some(temp),
        humidity: Some(50.0),
        wind_speed: Some(5.0),
        wind_direction: Some(180.0),
        luminosity: Some(500.0),
        rainfall: Some(0.0),
    }
}

/// The figures of one chart bucket that these tests look at.
struct Bucket {
    label: String,
    temperature_mean: Option<f64>,
    temperature_std: Option<f64>,
    humidity_mean: Option<f64>,
}

fn round2(v: f64) -> f64 {
    (v * 100.0).round() / 100.0
}

fn mean_and_std(values: &[f64]) -> Option<(f64, f64)> {
    if values.is_empty() {
        return None;
    }
    let n = values.len() as f64;
    let mean = values.iter().sum::<f64>() / n;
    let variance = values.iter().map(|v| (v - mean).powi(2)).sum::<f64>() / n;
    Some((round2(mean), round2(variance.sqrt())))
}

/// The week's buckets as the server charts them: the library places the
/// readings, and each bucket's mean and deviation are taken over its members.
fn aggregate_week_stats(monday: &str, readings: &[Reading]) -> Vec<Bucket> {
    let keys: Vec<String> = readings.iter().map(|r| r.hour.clone()).collect();
    aggregate_week(monday, &keys)
        .into_iter()
        .map(|plan| {
            let temps: Vec<f64> =
                plan.members.iter().filter_map(|&j| readings[j].temperature).collect();
            let hums: Vec<f64> = plan.members.iter().filter_map(|&j| readings[j].humidity).collect();
            let temp = mean_and_std(&temps);
            let hum = mean_and_std(&hums);
            Bucket {
                label: plan.label,
                temperature_mean: temp.map(|t| t.0),
                temperature_std: temp.map(|t| t.1),
                humidity_mean: hum.map(|t| t.0),
            }
        })
        .collect()
}

#[test]
fn aggregate_week_produces_28_buckets() {
    let buckets = aggregate_week("2025-01-13", &[]);
    assert_eq!(buckets.len(), 28);
}

#[test]
fn aggregate_week_labels_are_correct() {
    let buckets = aggregate_week("2025-01-13", &[]);
    assert_eq!(buckets[0].label, "Mon 0-6");
    assert_eq!(buckets[1].label, "Mon 6-12");
    assert_eq!(buckets[2].label, "Mon 12-18");
    assert_eq!(buckets[3].label, "Mon 18-24");
    assert_eq!(buckets[4].label, "Tue 0-6");
    assert_eq!(buckets[27].label, "Sun 18-24");
}

#[test]
fn week_empty_buckets_have_no_members() {
    let buckets = aggregate_week("2025-01-13", &[]);
    assert!(buckets.iter().all(|b| b.members.is_empty()));
}

#[test]
fn week_readings_of_one_quarter_share_a_bucket() {
    let h = hours(&["2025-01-13T00", "2025-01-13T01", "2025-01-13T02"]);
    let buckets = aggregate_week("2025-01-13", &h);
    assert_eq!(buckets[0].members, vec![0, 1, 2]);
    assert!(buckets[1..].iter().all(|b| b.members.is_empty()));
}

#[test]
fn week_readings_land_in_their_quarter_day() {
    let h = hours(&["2025-01-13T03", "2025-01-13T14", "2025-01-15T10"]);
    let buckets = aggregate_week("2025-01-13", &h);
    assert_eq!(buckets[0].members, vec![0]);
    assert_eq!(buckets[2].members, vec![1]);
    assert_eq!(buckets[9].members, vec![2]);
    assert!(buckets[1].members.is_empty());
}

#[test]
fn week_ignores_readings_outside_week() {
    let h = hours(&["2025-01-12T10", "2025-01-13T10", "2025-01-20T10"]);
    let buckets = aggregate_week("2025-01-13", &h);
    assert_eq!(buckets[1].members, vec![1]);
    let total: usize = buckets.iter().map(|b| b.members.len()).sum();
    assert_eq!(total, 1);
}

#[test]
fn week_last_bucket_is_sunday_evening() {
    let h = hours(&["2025-01-19T23", "2025-01-19T18"]);
    let buckets = aggregate_week("2025-01-13", &h);
    assert_eq!(buckets[27].members, vec![0, 1]);
}

#[test]
fn week_unreadable_hour_is_skipped() {
    let h = hours(&["2025-01-14Txx", "2025-01-14"]);
    let buckets = aggregate_week("2025-01-13", &[h[0].clone()]);
    let total: usize = buckets.iter().map(|b| b.members.len()).sum();
    assert_eq!(total, 0);
    assert!(try_aggregate_week("2025-01-13", &h).is_none());
}

#[test]
fn week_rejects_unreadable_monday_or_hour_past_the_week() {
    assert!(try_aggregate_week("not a date", &[]).is_none());
    assert!(try_aggregate_week("2025-01-13", &hours(&["2025-01-19T24"])).is_none());
    assert!(try_aggregate_week("2025-01-13", &hours(&["2025-01-18T24"])).is_some());
    let buckets = try_aggregate_week("2025-01-13", &hours(&["2025-01-18T24"])).unwrap();
    assert_eq!(buckets[24].members, vec![0]);
}

#[test]
fn aggregate_week_empty_buckets_are_none() {
    let buckets = aggregate_week_stats("2025-01-13", &[]);
    assert!(buckets[0].temperature_mean.is_none());
    assert!(buckets[0].temperature_std.is_none());
}

#[test]
fn aggregate_week_single_reading_has_zero_std() {
    // 2025-01-13 is a Monday, hour 02 -> bucket "Mon 0-6" (index 0)
    let readings = vec![reading("2025-01-13T02", 25.0)];
    let buckets = aggregate_week_stats("2025-01-13", &readings);

    assert_eq!(buckets[0].temperature_mean, Some(25.0));
    assert_eq!(buckets[0].temperature_std, Some(0.0));
}

#[test]
fn aggregate_week_multiple_readings_in_same_bucket() {
    // Hours 00-05 all map to "Mon 0-6" (index 0)
    let readings = vec![
        reading("2025-01-13T00", 20.0),
        reading("2025-01-13T01", 22.0),
        reading("2025-01-13T02", 24.0),
    ];
    let buckets = aggregate_week_stats("2025-01-13", &readings);

    // mean = 22.0
    assert_eq!(buckets[0].temperature_mean, Some(22.0));
    // std = sqrt(((20-22)^2 + (22-22)^2 + (24-22)^2) / 3) = sqrt(8/3), about 1.63
    let std = buckets[0].temperature_std.unwrap();
    assert!((std - 1.63).abs() < 0.01, "std was {}", std);
}

#[test]
fn aggregate_week_readings_in_different_buckets() {
    let readings = vec![
        // Mon 0-6 (index 0)
        reading("2025-01-13T03", 20.0),
        // Mon 12-18 (index 2)
        reading("2025-01-13T14", 30.0),
        // Wed 6-12 (index 9): Wed is day offset 2, quarter 1 -> 2*4+1 = 9
        reading("2025-01-15T10", 25.0),
    ];
    let buckets = aggregate_week_stats("2025-01-13", &readings);

    assert_eq!(buckets[0].temperature_mean, Some(20.0));
    assert_eq!(buckets[2].temperature_mean, Some(30.0));
    assert_eq!(buckets[9].temperature_mean, Some(25.0));
    // Other buckets should be None
    assert!(buckets[1].temperature_mean.is_none());
}

#[test]
fn aggregate_week_handles_nulls() {
    let readings = vec![
        Reading {
            hour: "2025-01-13T02".to_string(),
            temperature: None,
            humidity: Some(60.0),
            wind_speed: None,
            wind_direction: None,
            luminosity: None,
            rainfall: None,
        },
        reading("2025-01-13T03", 25.0),
    ];
    let buckets = aggregate_week_stats("2025-01-13", &readings);

    // Temperature: only one non-null value (25.0)
    assert_eq!(buckets[0].temperature_mean, Some(25.0));
    // Humidity: two values (60.0 and 50.0 from helper)
    assert_eq!(buckets[0].humidity_mean, Some(55.0));
}

#[test]
fn aggregate_week_ignores_readings_outside_week() {
    let readings = vec![
        reading("2025-01-12T10", 99.0), // Sunday before
        reading("2025-01-13T10", 25.0), // Monday (in range)
        reading("2025-01-20T10", 99.0), // Next Monday (out of range)
    ];
    let buckets = aggregate_week_stats("2025-01-13", &readings);

    // Only the Monday reading should be counted (bucket index 1 = Mon 6-12)
    assert_eq!(buckets[1].temperature_mean, Some(25.0));
    assert_eq!(buckets[1].label, "Mon 6-12");
}
