use vigilon::engine::{make_finding, FindingDetails};
use vigilon::events::{ProcessRef, RiskLevel, RuleId, SecurityEvent};
use vigilon::metrics::DnsQuery;
use vigilon::notifier::Notifier;
use vigilon::runtime::{new_dns_queries, record_finding, startup_entry, ByteCounter, Cadence, RunClock};

#[test]
fn first_pass_runs_every_collector() {
    let t = 4_000_000;
    let mut clock = RunClock::new(t);
    let k = Cadence { metrics_secs: 2, sockets_secs: 4, processes_secs: 8, services_secs: 40 };
    let d = clock.pass(t, &k);
    assert!(d.device && d.metrics && d.interfaces && d.sockets && d.processes && d.services);
    assert!(!d.persist && !d.prune);
    let d = clock.pass(t + 1_000, &k);
    assert!(!d.metrics && !d.sockets && !d.device);
    let d = clock.pass(t + 2_000, &k);
    assert!(d.metrics && !d.interfaces && !d.sockets);
    let d = clock.pass(t + 60_000, &k);
    assert!(d.persist && d.metrics && d.interfaces && d.services);
}

#[test]
fn an_early_start_cannot_look_back() {
    let mut clock = RunClock::new(100_000);
    let k = Cadence { metrics_secs: 2, sockets_secs: 4, processes_secs: 8, services_secs: 40 };
    let d = clock.pass(100_000, &k);
    assert!(d.metrics && !d.device, "the device record waits when the clock cannot reach an hour back");
}

#[test]
fn cadences_have_floors() {
    let mut clock = RunClock::new(1_000_000);
    let k = Cadence { metrics_secs: 0, sockets_secs: 0, processes_secs: 0, services_secs: 0 };
    clock.pass(1_000_000, &k);
    let d = clock.pass(1_001_000, &k);
    assert!(d.metrics && d.sockets && !d.processes && !d.services);
    let d = clock.pass(1_002_000, &k);
    assert!(d.processes);
}

#[test]
fn bytes_advance_monthly_counts() {
    let mut b = ByteCounter::new();
    assert_eq!(b.advance(1_000, 500), None);
    assert_eq!(b.advance(1_500, 400), Some((500, 0)));
    assert_eq!(b.advance(100, 100), None, "a reset counter adds nothing");
    assert_eq!(b.advance(300, 150), Some((200, 50)));
}

fn q(name: &str) -> DnsQuery {
    DnsQuery { timestamp: 0, query_name: name.into(), record_type: "A".into(), response_code: 0, process_name: None }
}

#[test]
fn only_new_dns_names_are_kept() {
    let (fresh, names) = new_dns_queries(vec![q("a"), q("b"), q("a")], &vec![]);
    assert_eq!(fresh.len(), 3);
    assert_eq!(names, vec!["a", "b"]);
    let (fresh, names) = new_dns_queries(vec![q("a"), q("c")], &names);
    assert_eq!(fresh.len(), 1);
    assert_eq!(fresh[0].query_name, "c");
    assert_eq!(names, vec!["c"]);
}

#[test]
fn findings_become_events_and_timeline_lines() {
    let f = make_finding(
        RuleId::NewExternalConnection,
        vec!["first_external_destination".into()],
        Some(ProcessRef { name: "curl".into(), pid: 7, path: None }),
        Some("10.0.0.2:5000".into()),
        Some("8.8.8.8:443".into()),
        true,
        FindingDetails::Count { count: 1 },
        "New outbound connection".into(),
    );
    assert_eq!(f.risk, RiskLevel::Low);
    let (e, t) = record_finding(f, "ev-1".into(), "tl-1".into(), 5, "{}".into());
    assert_eq!(e.event_type, "SECURITY_EVENT");
    assert_eq!(e.assessment, format!("LOW — {}", RiskLevel::Low.language()));
    assert_eq!(t.kind, "NEW_EXTERNAL_CONNECTION");
    assert_eq!(t.event_id.as_deref(), Some("ev-1"));
    assert_eq!(t.summary, e.why_summary());
    let s = startup_entry("boot".into(), 9);
    assert_eq!(s.kind, "SYSTEM");
    assert_eq!(s.risk, RiskLevel::Info);
}

fn event(risk: RiskLevel) -> SecurityEvent {
    SecurityEvent {
        event_type: "SECURITY_EVENT".into(),
        id: "e".into(),
        rule: RuleId::BlocklistedConnection,
        risk,
        timestamp: 0,
        process: None,
        local: None,
        remote: None,
        indicators: vec![],
        first_seen: true,
        details: "{}".into(),
        assessment: String::new(),
    }
}

#[test]
fn notices_respect_minimum_and_rate() {
    let mut n = Notifier::new(true, "high".into());
    assert!(n.notify(&event(RiskLevel::Medium), 0).is_none());
    let (title, body) = n.notify(&event(RiskLevel::Critical), 1_000).unwrap();
    assert_eq!(title, "Vigilon Security Alert [CRITICAL]");
    assert!(body.starts_with("BLOCKLISTED_CONNECTION: Suspicious activity detected (heuristic)."));
    assert!(n.notify(&event(RiskLevel::Critical), 5_000).is_none(), "ten seconds between notices");
    assert!(n.notify(&event(RiskLevel::High), 11_000).is_some());
    let mut off = Notifier::new(false, "LOW".into());
    assert!(off.notify(&event(RiskLevel::Critical), 0).is_none());
    let mut all = Notifier::new(true, "anything".into());
    assert!(all.notify(&event(RiskLevel::Info), 0).is_some());
}
