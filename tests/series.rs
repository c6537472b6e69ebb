use web_uptime_monitor::aggregate::{bucket_rows, samples_sorted, uptime_series};
use web_uptime_monitor::bucket::{WebsiteStats, DAY_SECONDS, HOUR_SECONDS};
use web_uptime_monitor::error::ApiError;
use web_uptime_monitor::incident::Sample;

// 2024-03-10 14:37:05 UTC
const NOW: i64 = 1_710_081_425;
const HOUR_TOP: i64 = 1_710_079_200;
const DAY_TOP: i64 = 1_710_028_800;

fn sample(observed_at: i64, status: u16) -> Sample {
    Sample { observed_at, status }
}

#[test]
fn bucket_rows_groups_by_hour() {
    let samples = vec![
        sample(HOUR_TOP - 7200 + 5, 200),
        sample(HOUR_TOP - 7200 + 65, 500),
        sample(HOUR_TOP - 3600 + 1, 0),
        sample(HOUR_TOP + 10, 200),
        sample(HOUR_TOP + 70, 200),
        sample(HOUR_TOP + 130, 404),
    ];
    let rows = bucket_rows(&samples, HOUR_SECONDS, 24);
    assert_eq!(
        rows,
        vec![
            WebsiteStats { time: HOUR_TOP - 7200, uptime_pct: Some(50) },
            WebsiteStats { time: HOUR_TOP - 3600, uptime_pct: Some(0) },
            WebsiteStats { time: HOUR_TOP, uptime_pct: Some(66) },
        ]
    );
}

#[test]
fn bucket_rows_keeps_most_recent() {
    let samples = vec![sample(100, 200), sample(3700, 200), sample(7300, 500)];
    let rows = bucket_rows(&samples, HOUR_SECONDS, 2);
    assert_eq!(
        rows,
        vec![
            WebsiteStats { time: 3600, uptime_pct: Some(100) },
            WebsiteStats { time: 7200, uptime_pct: Some(0) },
        ]
    );
    assert!(bucket_rows(&samples, HOUR_SECONDS, 0).is_empty());
    assert!(bucket_rows(&vec![], HOUR_SECONDS, 5).is_empty());
}

#[test]
fn samples_sorted_checks_order() {
    assert!(samples_sorted(&vec![]));
    assert!(samples_sorted(&vec![sample(1, 200), sample(1, 500), sample(9, 200)]));
    assert!(!samples_sorted(&vec![sample(2, 200), sample(1, 200)]));
}

#[test]
fn hourly_series_from_three_sweeps() {
    let samples = vec![sample(HOUR_TOP + 60, 200), sample(HOUR_TOP + 120, 500), sample(HOUR_TOP + 180, 200)];
    let series = uptime_series(Ok(samples), HOUR_SECONDS, 24, NOW).unwrap();
    assert_eq!(series.len(), 24);
    assert_eq!(series[0], WebsiteStats { time: HOUR_TOP, uptime_pct: Some(66) });
    for (k, p) in series.iter().enumerate().skip(1) {
        assert_eq!(*p, WebsiteStats { time: HOUR_TOP - 3600 * k as i64, uptime_pct: None });
    }
}

#[test]
fn series_ignores_samples_outside_window() {
    let samples = vec![
        sample(HOUR_TOP - 24 * 3600, 500),
        sample(HOUR_TOP - 23 * 3600 + 1, 500),
        sample(HOUR_TOP + 3600, 200),
    ];
    let series = uptime_series(Ok(samples), HOUR_SECONDS, 24, NOW).unwrap();
    assert_eq!(series.len(), 24);
    assert_eq!(series[23], WebsiteStats { time: HOUR_TOP - 23 * 3600, uptime_pct: Some(0) });
    assert!(series[..23].iter().all(|p| p.uptime_pct.is_none()));
}

#[test]
fn daily_series_has_thirty_days() {
    let samples = vec![sample(DAY_TOP - 29 * 86400 + 5, 200), sample(DAY_TOP + 5, 503)];
    let series = uptime_series(Ok(samples), DAY_SECONDS, 30, NOW).unwrap();
    assert_eq!(series.len(), 30);
    assert_eq!(series[0], WebsiteStats { time: DAY_TOP, uptime_pct: Some(0) });
    assert_eq!(series[29], WebsiteStats { time: DAY_TOP - 29 * 86400, uptime_pct: Some(100) });
    assert_eq!(series.iter().filter(|p| p.uptime_pct.is_none()).count(), 28);
}

#[test]
fn series_without_samples_is_all_none() {
    let series = uptime_series(Ok(vec![]), HOUR_SECONDS, 24, NOW).unwrap();
    assert_eq!(series.len(), 24);
    assert!(series.iter().all(|p| p.uptime_pct.is_none()));
    assert!(uptime_series(Ok(vec![]), HOUR_SECONDS, 0, NOW).unwrap().is_empty());
}

#[test]
fn series_is_stable_within_a_bucket() {
    let samples = vec![sample(HOUR_TOP - 3600, 200), sample(HOUR_TOP + 1, 500)];
    let a = uptime_series(Ok(samples.clone()), HOUR_SECONDS, 24, HOUR_TOP + 2);
    let b = uptime_series(Ok(samples), HOUR_SECONDS, 24, HOUR_TOP + 3599);
    assert_eq!(a, b);
}

#[test]
fn series_read_failure() {
    let r = uptime_series(Err("timeout".to_string()), HOUR_SECONDS, 24, NOW);
    assert_eq!(r, Err(ApiError::StoreReadFailure("timeout".to_string())));
}
