use web_uptime_monitor::aggregate::{aggregate, get_daily_stats, get_monthly_stats, rows_in_order, uptime_pct};
use web_uptime_monitor::bucket::{bucket_of, fill_data_gaps, WebsiteStats, DAY_SECONDS, HOUR_SECONDS};
use web_uptime_monitor::error::ApiError;

// 2024-03-10 14:37:05 UTC
const NOW: i64 = 1_710_081_425;
const HOUR_TOP: i64 = 1_710_079_200;
const DAY_TOP: i64 = 1_710_028_800;

fn row(time: i64, pct: i16) -> WebsiteStats {
    WebsiteStats { time, uptime_pct: Some(pct) }
}

fn assert_window(series: &[WebsiteStats], top: i64, bs: i64, count: usize) {
    assert_eq!(series.len(), count);
    for (k, p) in series.iter().enumerate() {
        assert_eq!(p.time, top - (k as i64) * bs);
    }
    for w in series.windows(2) {
        assert!(w[0].time > w[1].time);
    }
}

#[test]
fn bucket_of_truncates_to_hour_and_day() {
    assert_eq!(bucket_of(NOW, HOUR_SECONDS), HOUR_TOP);
    assert_eq!(bucket_of(NOW, DAY_SECONDS), DAY_TOP);
    assert_eq!(bucket_of(HOUR_TOP, HOUR_SECONDS), HOUR_TOP);
    assert_eq!(bucket_of(-1, HOUR_SECONDS), -3600);
}

#[test]
fn uptime_pct_exact_division() {
    assert_eq!(uptime_pct(2, 5), 40);
}

#[test]
fn uptime_pct_truncates() {
    assert_eq!(uptime_pct(1, 3), 33);
    assert_eq!(uptime_pct(2, 3), 66);
}

#[test]
fn uptime_pct_bounds() {
    assert_eq!(uptime_pct(0, 5), 0);
    assert_eq!(uptime_pct(7, 7), 100);
    assert_eq!(uptime_pct(u64::MAX, u64::MAX), 100);
}

#[test]
fn hourly_series_has_exact_length_and_alignment() {
    let rows = vec![row(HOUR_TOP - 5 * 3600, 50), row(HOUR_TOP, 100)];
    let series = fill_data_gaps(rows, 24, HOUR_SECONDS, NOW);
    assert_window(&series, HOUR_TOP, HOUR_SECONDS, 24);
    assert_eq!(series[0].uptime_pct, Some(100));
    assert_eq!(series[5].uptime_pct, Some(50));
    assert_eq!(series.iter().filter(|p| p.uptime_pct.is_none()).count(), 22);
}

#[test]
fn daily_series_fills_all_thirty_buckets() {
    let rows = vec![row(DAY_TOP - 29 * 86400, 10)];
    let series = fill_data_gaps(rows, 30, DAY_SECONDS, NOW);
    assert_window(&series, DAY_TOP, DAY_SECONDS, 30);
    assert_eq!(series[29].uptime_pct, Some(10));
    assert!(series[..29].iter().all(|p| p.uptime_pct.is_none()));
}

#[test]
fn empty_store_gives_all_none() {
    let series = fill_data_gaps(Vec::new(), 24, HOUR_SECONDS, NOW);
    assert_window(&series, HOUR_TOP, HOUR_SECONDS, 24);
    assert!(series.iter().all(|p| p.uptime_pct.is_none()));
    let monthly = fill_data_gaps(Vec::new(), 30, DAY_SECONDS, NOW);
    assert_window(&monthly, DAY_TOP, DAY_SECONDS, 30);
    assert!(monthly.iter().all(|p| p.uptime_pct.is_none()));
}

#[test]
fn zero_successes_is_some_zero() {
    let rows = vec![row(HOUR_TOP, uptime_pct(0, 4))];
    let series = fill_data_gaps(rows, 24, HOUR_SECONDS, NOW);
    assert_eq!(series[0].uptime_pct, Some(0));
    assert_eq!(series[1].uptime_pct, None);
}

#[test]
fn same_bucket_gives_same_series() {
    let rows = vec![row(HOUR_TOP - 3600, 80), row(HOUR_TOP, 90)];
    let a = fill_data_gaps(rows.clone(), 24, HOUR_SECONDS, HOUR_TOP + 10);
    let b = fill_data_gaps(rows, 24, HOUR_SECONDS, HOUR_TOP + 3599);
    assert_eq!(a, b);
}

#[test]
fn full_store_answer_is_only_reversed() {
    let rows: Vec<WebsiteStats> = (0..3).map(|k| row(HOUR_TOP - 7200 * (3 - k), 10 * k as i16)).collect();
    let series = fill_data_gaps(rows.clone(), 3, HOUR_SECONDS, NOW);
    let mut expected = rows;
    expected.reverse();
    assert_eq!(series, expected);
}

#[test]
fn rows_outside_window_are_kept() {
    let old = row(HOUR_TOP - 100 * 3600, 70);
    let series = fill_data_gaps(vec![old], 3, HOUR_SECONDS, NOW);
    assert_eq!(series.len(), 4);
    assert_eq!(series[0], WebsiteStats { time: HOUR_TOP, uptime_pct: None });
    assert_eq!(series[1], WebsiteStats { time: HOUR_TOP - 3600, uptime_pct: None });
    assert_eq!(series[2], WebsiteStats { time: HOUR_TOP - 7200, uptime_pct: None });
    assert_eq!(series[3], old);
}

#[test]
fn store_read_failure_is_surfaced() {
    let r = aggregate(Err("connection refused".to_string()), HOUR_SECONDS, 24, NOW);
    assert_eq!(r, Err(ApiError::StoreReadFailure("connection refused".to_string())));
    let d = get_daily_stats(Err("gone".to_string()), NOW);
    assert_eq!(d, Err(ApiError::StoreReadFailure("gone".to_string())));
    let m = get_monthly_stats(Err("gone".to_string()), NOW);
    assert_eq!(m, Err(ApiError::StoreReadFailure("gone".to_string())));
}

#[test]
fn daily_and_monthly_stats_windows() {
    let d = get_daily_stats(Ok(vec![row(HOUR_TOP - 3600, 60)]), NOW).unwrap();
    assert_window(&d, HOUR_TOP, HOUR_SECONDS, 24);
    assert_eq!(d[1].uptime_pct, Some(60));
    let m = get_monthly_stats(Ok(vec![row(DAY_TOP, 99)]), NOW).unwrap();
    assert_window(&m, DAY_TOP, DAY_SECONDS, 30);
    assert_eq!(m[0].uptime_pct, Some(99));
}

#[test]
fn rows_in_order_checks_strict_ascent() {
    assert!(rows_in_order(&vec![]));
    assert!(rows_in_order(&vec![row(1, 0), row(2, 0), row(5, 0)]));
    assert!(!rows_in_order(&vec![row(1, 0), row(1, 0)]));
    assert!(!rows_in_order(&vec![row(3, 0), row(2, 0)]));
}

#[test]
fn error_kinds() {
    let e = ApiError::StoreReadFailure("x".to_string());
    assert!(e.is_read_path());
    assert_eq!(e.http_status(), 500);
    assert_eq!(e.description(), "x");
    assert!(!ApiError::StoreWriteFailure("y".to_string()).is_read_path());
    assert_eq!(ApiError::EndpointSourceFailure("z".to_string()).description(), "z");
}
