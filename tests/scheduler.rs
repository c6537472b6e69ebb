use web_uptime_monitor::aggregate::uptime_series;
use web_uptime_monitor::bucket::{bucket_of, WebsiteStats, HOUR_SECONDS};
use web_uptime_monitor::error::ApiError;
use web_uptime_monitor::incident::{incidents, Incident, Sample};
use web_uptime_monitor::scheduler::{Action, Event, Phase, Scheduler};
use web_uptime_monitor::website::Website;

fn site(url: &str, alias: &str) -> Website {
    Website { url: url.to_string(), alias: alias.to_string() }
}

fn probe(url: &str) -> Action {
    Action::Probe { url: url.to_string() }
}

fn record(alias: &str, status: u16) -> Action {
    Action::Record { alias: alias.to_string(), status }
}

/// Runs one sweep with the given probe outcomes, writing every sample
/// successfully, and returns the recorded (alias, status) pairs.
fn sweep(s: &mut Scheduler, sites: Vec<Website>, outcomes: Vec<Result<u16, String>>) -> Vec<Action> {
    assert_eq!(s.step(Event::Tick).action, Action::ListWebsites);
    let mut step = s.step(Event::Listed(Ok(sites)));
    let mut recorded = Vec::new();
    for o in outcomes {
        assert!(matches!(step.action, Action::Probe { .. }));
        let r = s.step(Event::Probed(o));
        recorded.push(r.action.clone());
        step = s.step(Event::Written(Ok(())));
    }
    assert_eq!(step.action, Action::WaitForTick);
    recorded
}

#[test]
fn unreachable_endpoint_does_not_stop_sweep() {
    let mut s = Scheduler::new();
    assert_eq!(s.step(Event::Tick).action, Action::ListWebsites);
    let st = s.step(Event::Listed(Ok(vec![site("https://b.test", "b"), site("https://a.test", "a")])));
    assert_eq!(st.action, probe("https://b.test"));
    let st = s.step(Event::Probed(Err("dns error".to_string())));
    assert_eq!(st.action, record("b", 0));
    assert_eq!(st.report, Some(ApiError::ProbeFailure("dns error".to_string())));
    let st = s.step(Event::Written(Ok(())));
    assert_eq!(st.action, probe("https://a.test"));
    assert_eq!(st.report, None);
    let st = s.step(Event::Probed(Ok(200)));
    assert_eq!(st.action, record("a", 200));
    assert_eq!(st.report, None);
    let st = s.step(Event::Written(Ok(())));
    assert_eq!(st.action, Action::WaitForTick);
    assert_eq!(s.phase, Phase::Idle);
    assert_eq!(s.step(Event::Tick).action, Action::ListWebsites);
}

#[test]
fn write_failure_is_reported_and_sweep_goes_on() {
    let mut s = Scheduler::new();
    s.step(Event::Tick);
    s.step(Event::Listed(Ok(vec![site("https://a.test", "a"), site("https://c.test", "c")])));
    s.step(Event::Probed(Ok(500)));
    let st = s.step(Event::Written(Err("disk full".to_string())));
    assert_eq!(st.action, probe("https://c.test"));
    assert_eq!(st.report, Some(ApiError::StoreWriteFailure("disk full".to_string())));
}

#[test]
fn endpoint_source_failure_skips_to_next_tick() {
    let mut s = Scheduler::new();
    s.step(Event::Tick);
    let st = s.step(Event::Listed(Err("no db".to_string())));
    assert_eq!(st.action, Action::WaitForTick);
    assert_eq!(st.report, Some(ApiError::EndpointSourceFailure("no db".to_string())));
    assert_eq!(s.step(Event::Tick).action, Action::ListWebsites);
}

#[test]
fn empty_endpoint_list_waits() {
    let mut s = Scheduler::new();
    s.step(Event::Tick);
    let st = s.step(Event::Listed(Ok(vec![])));
    assert_eq!(st.action, Action::WaitForTick);
    assert_eq!(s.phase, Phase::Idle);
}

#[test]
fn tick_during_sweep_is_deferred() {
    let mut s = Scheduler::new();
    s.step(Event::Tick);
    s.step(Event::Listed(Ok(vec![site("https://a.test", "a")])));
    let st = s.step(Event::Tick);
    assert_eq!(st.action, Action::Nothing);
    assert_eq!(s.phase, Phase::Probing);
    assert_eq!(s.next, 0);
}

#[test]
fn three_sweeps_then_incidents_and_hourly_series() {
    let mut s = Scheduler::new();
    let sites = vec![site("https://a.test", "a")];
    let mut statuses = Vec::new();
    for code in [200u16, 500, 200] {
        for a in sweep(&mut s, sites.clone(), vec![Ok(code)]) {
            match a {
                Action::Record { alias, status } => {
                    assert_eq!(alias, "a");
                    statuses.push(status);
                }
                other => panic!("unexpected action {:?}", other),
            }
        }
    }
    assert_eq!(statuses, vec![200, 500, 200]);

    // the three sweeps a minute apart, all within one hour
    let now: i64 = 1_710_081_425;
    let hour = bucket_of(now, HOUR_SECONDS);
    let samples: Vec<Sample> = statuses
        .iter()
        .enumerate()
        .map(|(k, st)| Sample { observed_at: hour + 60 * k as i64, status: *st })
        .collect();
    assert_eq!(incidents(&samples), vec![Incident { time: hour + 60, status: 500 }]);

    let series = uptime_series(Ok(samples), HOUR_SECONDS, 24, now).unwrap();
    assert_eq!(series.len(), 24);
    assert_eq!(series[0], WebsiteStats { time: hour, uptime_pct: Some(66) });
    assert_eq!(series.iter().filter(|p| p.uptime_pct.is_none()).count(), 23);
}
