use vigilon::blocklist::BlocklistManager;
use vigilon::engine::{unusual_path, DetectionEngine, Finding, PortKey};
use vigilon::events::{RiskLevel, RuleId};
use vigilon::metrics::{Connection, DnsQuery, ListeningPort, NetworkInterface, ProcessInfo, ServiceInfo};
use vigilon::netparse::is_external_addr;

const NOW: i64 = 1_700_000_000_000;

fn is_external(addr: &str) -> bool {
    is_external_addr(addr)
}

#[test]
fn loopback_is_not_external() {
    assert!(!is_external("127.0.0.1"));
    assert!(!is_external("192.168.0.2"));
    assert!(is_external("8.8.8.8"));
}

#[test]
fn temp_paths_are_unusual() {
    assert!(unusual_path(r"C:\Users\a\AppData\Local\Temp\x.exe"));
    assert!(!unusual_path(r"C:\Program Files\app\app.exe"));
}

fn test_conn(remote: &str) -> Connection {
    Connection {
        protocol: "TCP".into(),
        local_addr: "192.168.1.8".into(),
        local_port: 51234,
        remote_addr: remote.into(),
        remote_port: 443,
        state: "ESTABLISHED".into(),
        pid: Some(1234),
        process_name: Some("test-proc".into()),
        process_path: Some("/usr/bin/test-proc".into()),
        first_seen: None,
        last_seen: None,
        geo: None,
    }
}

fn rules(fs: &[Finding]) -> Vec<RuleId> {
    fs.iter().map(|f| f.rule).collect()
}

#[test]
fn first_seen_emits_once_then_dedupes() {
    let mut engine = DetectionEngine::new();
    let blocklist = BlocklistManager::new();
    let conns = vec![test_conn("93.184.216.34")];
    let first = engine.observe_connections(&conns, &Vec::new(), &blocklist, 1_000, NOW);
    assert_eq!(first.len(), 1, "first sighting should emit exactly one event");
    assert_eq!(first[0].rule, RuleId::NewExternalConnection);
    let second = engine.observe_connections(&conns, &Vec::new(), &blocklist, 5_000, NOW + 4_000);
    assert_eq!(second.len(), 0, "repeat sighting must not re-emit");
}

#[test]
fn blocklisted_connection_emits_once_per_cooldown() {
    let mut engine = DetectionEngine::new();
    let mut blocklist = BlocklistManager::new();
    blocklist.add("93.184.216.34", None, "t".into()).unwrap();
    let conns = vec![test_conn("93.184.216.34")];
    let mut blocked = 0;
    for k in 0..3u64 {
        let fs = engine.observe_connections(&conns, &Vec::new(), &blocklist, 1_000 + 4_000 * k, NOW);
        blocked += fs.iter().filter(|f| f.rule == RuleId::BlocklistedConnection).count();
    }
    assert_eq!(blocked, 1, "blocklist storm must cool down to one emission");
}

#[test]
fn quota_warning_emits_once_per_day() {
    let mut engine = DetectionEngine::new();
    let mut events = Vec::new();
    for k in 0..3u64 {
        events.extend(engine.observe_bandwidth_quota(Some(1_073_741_824), 80, 950_000_000, 1_000 + 2_000 * k));
    }
    assert_eq!(events.len(), 1);
    assert_eq!(events[0].rule, RuleId::BandwidthQuotaWarning);
    assert_eq!(events[0].title, "Monthly bandwidth quota warning (88.5%)");
}

fn dns_query(name: &str) -> DnsQuery {
    DnsQuery {
        timestamp: NOW,
        query_name: name.into(),
        record_type: "A".into(),
        response_code: 0,
        process_name: None,
    }
}

#[test]
fn suppressed_dns_name_does_not_emit() {
    let mut engine = DetectionEngine::new();
    let blocklist = BlocklistManager::new();
    assert!(engine.feedback_sync_due(1_000));
    engine.sync_feedback(1_000, Some(vec!["SUSPICIOUS_DNS_QUERY|evil.tk".to_string()]));
    let events = engine.observe_dns_queries(&vec![dns_query("evil.tk")], &blocklist, 1_000);
    assert!(events.is_empty(), "suppressed name must not emit");
}

fn stored(rows: &[(String, String)], key: &str) -> Option<String> {
    rows.iter().find(|(k, _)| k == key).map(|(_, v)| v.clone())
}

#[test]
fn baselines_survive_reload() {
    let blocklist = BlocklistManager::new();
    let mut engine = DetectionEngine::new();
    let fs = engine.observe_connections(&vec![test_conn("93.184.216.34")], &Vec::new(), &blocklist, 1_000, NOW);
    assert_eq!(fs.len(), 1);
    let rows = engine.persist_baselines(NOW);
    assert_eq!(rows.len(), 4);
    let mut engine2 = DetectionEngine::new();
    let d = stored(&rows, "seen_process_dest");
    let p = stored(&rows, "known_processes");
    let k = stored(&rows, "known_ports");
    let s = stored(&rows, "known_services");
    engine2.load_baselines(d.as_deref(), p.as_deref(), k.as_deref(), s.as_deref(), NOW + 1_000);
    let events = engine2.observe_connections(&vec![test_conn("93.184.216.34")], &Vec::new(), &blocklist, 2_000, NOW + 1_000);
    assert_eq!(events.len(), 0, "reloaded baseline must not re-fire");
}

#[test]
fn stale_baselines_decay_on_reload() {
    let blocklist = BlocklistManager::new();
    let mut engine = DetectionEngine::new();
    engine.observe_connections(&vec![test_conn("93.184.216.34")], &Vec::new(), &blocklist, 1_000, NOW);
    let rows = engine.persist_baselines(NOW);
    let d = stored(&rows, "seen_process_dest");
    let mut engine2 = DetectionEngine::new();
    let later = NOW + 31 * 24 * 3_600_000;
    engine2.load_baselines(d.as_deref(), None, None, None, later);
    let events = engine2.observe_connections(&vec![test_conn("93.184.216.34")], &Vec::new(), &blocklist, 2_000, later);
    assert_eq!(events.len(), 1, "a month-old sighting is forgotten");
}

#[test]
fn legacy_list_baseline_is_read() {
    let blocklist = BlocklistManager::new();
    let mut engine = DetectionEngine::new();
    let legacy = r#"["test-proc|93.184.216.34:443"]"#;
    engine.load_baselines(Some(legacy), None, None, None, NOW);
    let events = engine.observe_connections(&vec![test_conn("93.184.216.34")], &Vec::new(), &blocklist, 1_000, NOW);
    assert!(events.is_empty());
}

fn conn_on_port(remote: &str, remote_port: u16, local_port: u16, state: &str, proc: Option<&str>) -> Connection {
    Connection {
        protocol: "TCP".into(),
        local_addr: "192.168.1.8".into(),
        local_port,
        remote_addr: remote.into(),
        remote_port,
        state: state.into(),
        pid: Some(4242),
        process_name: proc.map(str::to_string),
        process_path: proc.map(|p| format!("/usr/bin/{p}")),
        first_seen: None,
        last_seen: None,
        geo: None,
    }
}

fn conn(remote: &str, remote_port: u16, state: &str, proc: Option<&str>) -> Connection {
    conn_on_port(remote, remote_port, 51234, state, proc)
}

fn proc_info(name: &str, path: Option<&str>) -> ProcessInfo {
    ProcessInfo {
        pid: 4242,
        name: name.into(),
        path: path.map(str::to_string),
        memory_bytes: 1024,
        status: "running".into(),
        start_time: None,
        connection_count: 0,
        parent_pid: None,
    }
}

fn rank(risk: RiskLevel) -> u8 {
    match risk {
        RiskLevel::Info => 0,
        RiskLevel::Low => 1,
        RiskLevel::Medium => 2,
        RiskLevel::High => 3,
        RiskLevel::Critical => 4,
    }
}

#[test]
fn detection_eval_suite() {
    let mut fails: Vec<&str> = Vec::new();

    // benign: a browser burst of 19 connections stays under the rate rule
    {
        let mut e = DetectionEngine::new();
        let bl = BlocklistManager::new();
        let conns: Vec<Connection> = (0..19).map(|_| conn("151.101.1.1", 443, "ESTABLISHED", Some("browser"))).collect();
        let got = e.observe_connections(&conns, &Vec::new(), &bl, 1_000, NOW);
        let pass = got.len() == 1
            && got[0].rule == RuleId::NewExternalConnection
            && !got.iter().any(|f| f.rule == RuleId::UnusualConnectionRate);
        if !pass {
            fails.push("benign_browser_burst_19");
        }
    }
    // benign: ordinary DNS stays silent
    {
        let mut e = DetectionEngine::new();
        let bl = BlocklistManager::new();
        let got = e.observe_dns_queries(&vec![dns_query("example.com"), dns_query("intranet.local")], &bl, 1_000);
        if !got.is_empty() {
            fails.push("benign_dns");
        }
    }
    // documented: an installer from Downloads fires, at most MEDIUM
    {
        let mut e = DetectionEngine::new();
        e.observe_processes(&vec![proc_info("app", Some("/usr/bin/app"))], NOW);
        let got = e.observe_processes(&vec![proc_info("setup", Some("C:\\Users\\a\\Downloads\\setup.exe"))], NOW);
        let pass = got.len() == 1
            && got[0].rule == RuleId::ProcessStartedUnusualPath
            && rank(got[0].risk) <= rank(RiskLevel::Medium);
        if !pass {
            fails.push("benign_installer_downloads");
        }
    }
    // malicious: 15 SYNs against distinct local ports
    {
        let mut e = DetectionEngine::new();
        let bl = BlocklistManager::new();
        let probed = [22, 80, 443, 3000, 3306, 5432, 6379, 8080, 8443, 9000, 27017, 11211, 5900, 21, 25];
        let conns: Vec<Connection> = probed
            .iter()
            .map(|p| conn_on_port("203.0.113.9", 51234, *p, "SYN_RECEIVED", None))
            .collect();
        let got = e.observe_connections(&conns, &Vec::new(), &bl, 1_000, NOW);
        let scans: Vec<&Finding> = got.iter().filter(|f| f.rule == RuleId::PortScanLikeInbound).collect();
        if !(scans.len() == 1 && scans[0].risk == RiskLevel::High) {
            fails.push("malicious_port_scan");
        }
    }
    // malicious: beaconing, 25 connections to one destination
    {
        let mut e = DetectionEngine::new();
        let bl = BlocklistManager::new();
        let conns: Vec<Connection> = (0..25).map(|_| conn("198.51.100.7", 443, "ESTABLISHED", Some("agent"))).collect();
        let got = e.observe_connections(&conns, &Vec::new(), &bl, 1_000, NOW);
        if got.iter().filter(|f| f.rule == RuleId::UnusualConnectionRate).count() != 1 {
            fails.push("malicious_beacon_25");
        }
    }
    // malicious: blocklisted IP sustained over ticks gives one CRITICAL
    {
        let mut e = DetectionEngine::new();
        let mut bl = BlocklistManager::new();
        bl.add("203.0.113.66", None, "t".into()).unwrap();
        let mut got = Vec::new();
        for k in 0..3u64 {
            got.extend(e.observe_connections(&vec![conn("203.0.113.66", 443, "ESTABLISHED", Some("agent"))], &Vec::new(), &bl, 1_000 + 4_000 * k, NOW));
        }
        let blocked: Vec<&Finding> = got.iter().filter(|f| f.rule == RuleId::BlocklistedConnection).collect();
        if !(blocked.len() == 1 && blocked[0].risk == RiskLevel::Critical) {
            fails.push("malicious_blocklisted_ip");
        }
    }
    // malicious: a shady TLD lookup
    {
        let mut e = DetectionEngine::new();
        let bl = BlocklistManager::new();
        let got = e.observe_dns_queries(&vec![dns_query("payload.tk")], &bl, 1_000);
        if !(got.len() == 1 && got[0].rule == RuleId::SuspiciousDnsQuery) {
            fails.push("malicious_dns_tk");
        }
    }
    // policy: quota exceeded, sustained, gives one finding
    {
        let mut e = DetectionEngine::new();
        let mut got = Vec::new();
        for k in 0..3u64 {
            got.extend(e.observe_bandwidth_quota(Some(1_073_741_824), 80, 1_200_000_000, 1_000 + 2_000 * k));
        }
        if !(got.len() == 1 && got[0].rule == RuleId::BandwidthQuotaExceeded) {
            fails.push("quota_exceeded");
        }
    }
    // malicious: six failed logins are HIGH
    {
        let e = DetectionEngine::new();
        let got = e.observe_auth_failures(6);
        if !(got.len() == 1 && got[0].rule == RuleId::MultipleFailedLogins && got[0].risk == RiskLevel::High) {
            fails.push("auth_failures_6");
        }
    }
    // robustness: persisted baselines do not re-fire
    {
        let bl = BlocklistManager::new();
        let mut e1 = DetectionEngine::new();
        e1.observe_connections(&vec![conn("93.184.216.34", 443, "ESTABLISHED", Some("svc"))], &Vec::new(), &bl, 1_000, NOW);
        let rows = e1.persist_baselines(NOW);
        let mut e2 = DetectionEngine::new();
        e2.load_baselines(
            stored(&rows, "seen_process_dest").as_deref(),
            stored(&rows, "known_processes").as_deref(),
            stored(&rows, "known_ports").as_deref(),
            stored(&rows, "known_services").as_deref(),
            NOW,
        );
        let got = e2.observe_connections(&vec![conn("93.184.216.34", 443, "ESTABLISHED", Some("svc"))], &Vec::new(), &bl, 2_000, NOW);
        if !got.is_empty() {
            fails.push("reboot_no_refire");
        }
    }
    assert_eq!(fails.len(), 0, "eval scenarios violated the detection contract: {fails:?}");
}

#[test]
fn first_sighting_indicators_and_rule() {
    let mut e = DetectionEngine::new();
    let bl = BlocklistManager::new();
    let mut c = test_conn("8.8.8.8");
    c.process_name = None;
    c.process_path = None;
    let got = e.observe_connections(&vec![c], &Vec::new(), &bl, 1_000, NOW);
    assert_eq!(rules(&got), vec![RuleId::UnknownProcessNetworkAccess]);
    assert_eq!(got[0].indicators, vec!["first_external_destination", "new_process", "executable_path_unknown"]);
    assert_eq!(got[0].risk, RiskLevel::High);
    assert_eq!(got[0].local.as_deref(), Some("192.168.1.8:51234"));
    assert_eq!(got[0].remote.as_deref(), Some("8.8.8.8:443"));
    assert_eq!(got[0].title, "New outbound connection");
}

#[test]
fn process_started_just_before_connection() {
    let mut e = DetectionEngine::new();
    let bl = BlocklistManager::new();
    let mut p = proc_info("dropper", Some("/tmp/dropper"));
    p.pid = 1234;
    p.start_time = Some(NOW - 5_000);
    let mut c = test_conn("8.8.4.4");
    c.process_name = Some("dropper".into());
    c.process_path = Some("/tmp/dropper".into());
    let got = e.observe_connections(&vec![c], &vec![p], &bl, 1_000, NOW);
    assert_eq!(got.len(), 1);
    assert_eq!(got[0].rule, RuleId::NewExternalConnection);
    assert_eq!(got[0].indicators, vec!["first_external_destination", "started_from_unusual_path", "connection_shortly_after_process_start"]);
    assert_eq!(got[0].risk, RiskLevel::Medium);
}

#[test]
fn inbound_syn_flood_from_the_lan() {
    let mut e = DetectionEngine::new();
    let bl = BlocklistManager::new();
    let conns: Vec<Connection> = (0..12)
        .map(|_| Connection { local_addr: "192.168.1.8".into(), remote_addr: "192.168.1.50".into(), ..conn("x", 1, "syn_received", None) })
        .collect();
    let got = e.observe_connections(&conns, &Vec::new(), &bl, 1_000, NOW);
    assert_eq!(rules(&got), vec![RuleId::PortScanLikeInbound]);
    assert_eq!(got[0].indicators[1], "hits_in_20s:12");
    let again = e.observe_connections(&conns, &Vec::new(), &bl, 2_000, NOW);
    assert!(again.is_empty(), "the cooldown holds for five minutes");
}

#[test]
fn rate_finding_counts_the_batch() {
    let mut e = DetectionEngine::new();
    let bl = BlocklistManager::new();
    let conns: Vec<Connection> = (0..60).map(|_| conn("198.51.100.7", 443, "ESTABLISHED", Some("agent"))).collect();
    let got = e.observe_connections(&conns, &Vec::new(), &bl, 1_000, NOW);
    let rate: Vec<&Finding> = got.iter().filter(|f| f.rule == RuleId::UnusualConnectionRate).collect();
    assert_eq!(rate.len(), 1);
    assert_eq!(rate[0].indicators, vec!["repeated_connection_attempts", "count:60"]);
    assert_eq!(rate[0].risk, RiskLevel::Critical);
    assert_eq!(rate[0].remote.as_deref(), Some("198.51.100.7:443"));
}

#[test]
fn remote_sightings_are_stamped() {
    let mut e = DetectionEngine::new();
    let bl = BlocklistManager::new();
    e.observe_connections(&vec![test_conn("93.184.216.34")], &Vec::new(), &bl, 1_000, NOW);
    let mut later = vec![test_conn("93.184.216.34"), test_conn("10.0.0.2")];
    e.stamp_remote_seen(&mut later, NOW + 60_000);
    assert_eq!(later[0].first_seen, Some(NOW));
    assert_eq!(later[0].last_seen, Some(NOW + 60_000));
    assert_eq!(later[1].first_seen, None);
}

fn port(proto: &str, addr: &str, p: u16, name: Option<&str>) -> ListeningPort {
    ListeningPort {
        protocol: proto.into(),
        address: addr.into(),
        port: p,
        pid: name.map(|_| 77),
        process_name: name.map(str::to_string),
        process_path: None,
    }
}

#[test]
fn ports_prime_then_report_changes() {
    let mut e = DetectionEngine::new();
    let (f0, t0) = e.observe_ports(&vec![port("TCP", "0.0.0.0", 22, Some("sshd"))]);
    assert!(f0.is_empty() && t0.is_empty(), "the first batch only primes");
    let (f1, t1) = e.observe_ports(&vec![port("TCP", "0.0.0.0", 22, Some("sshd")), port("TCP", "0.0.0.0", 3000, None)]);
    assert_eq!(rules(&f1), vec![RuleId::NewListeningPort]);
    assert_eq!(f1[0].indicators, vec!["listening_port_appeared", "no_owning_process_resolved"]);
    assert_eq!(f1[0].title, "New listening port 3000/TCP");
    assert_eq!(f1[0].risk, RiskLevel::Medium);
    assert_eq!(t1.len(), 1);
    assert_eq!(t1[0].kind(), "PORT_OPENED");
    let (f2, t2) = e.observe_ports(&vec![port("TCP", "0.0.0.0", 3000, None)]);
    assert_eq!(rules(&f2), vec![RuleId::PortStateChanged]);
    assert_eq!(f2[0].title, "Listening port 22 closed");
    assert_eq!(f2[0].risk, RiskLevel::Low);
    assert_eq!(t2[0].kind(), "PORT_CLOSED");
    let (f3, t3) = e.observe_ports(&vec![port("TCP", "0.0.0.0", 3000, None)]);
    assert!(f3.is_empty() && t3.is_empty());
}

fn service(name: &str, status: &str, pid: Option<u32>) -> ServiceInfo {
    ServiceInfo { name: name.into(), display_name: None, status: status.into(), pid }
}

#[test]
fn services_prime_then_report_starts() {
    let mut e = DetectionEngine::new();
    let (f0, ev0) = e.observe_services(&vec![service("cron", "running", None), service("cups", "stopped", None)]);
    assert!(f0.is_empty());
    assert_eq!(ev0.len(), 2);
    assert_eq!(ev0[0].kind(), "seen");
    let (f1, ev1) = e.observe_services(&vec![service("cron", "running", None), service("cups", "running", Some(9))]);
    assert_eq!(rules(&f1), vec![RuleId::NewServiceStarted]);
    assert_eq!(f1[0].title, "New service started: cups");
    assert_eq!(f1[0].process.as_ref().map(|p| p.pid), Some(9));
    assert_eq!(ev1.len(), 1);
    assert_eq!(ev1[0].kind(), "started");
}

#[test]
fn firewall_and_network_changes() {
    let mut e = DetectionEngine::new();
    assert!(e.observe_firewall("nft=true", true).is_empty());
    assert!(e.observe_firewall("nft=true", true).is_empty());
    let f = e.observe_firewall("nft=false", false);
    assert_eq!(rules(&f), vec![RuleId::FirewallConfigurationChanged]);
    let iface = |dns: &[&str], gw: Option<&str>| NetworkInterface {
        name: "eth0".into(),
        kind: "ethernet".into(),
        mac: None,
        ips: vec![],
        is_up: true,
        rx_total_bytes: 0,
        tx_total_bytes: 0,
        gateway: gw.map(str::to_string),
        dns: dns.iter().map(|s| s.to_string()).collect(),
    };
    assert!(e.observe_net_config(&vec![iface(&["1.1.1.1"], Some("192.168.1.1"))]).is_empty());
    let f = e.observe_net_config(&vec![iface(&["9.9.9.9"], Some("192.168.1.254"))]);
    assert_eq!(f.len(), 2);
    assert_eq!(f[0].title, "DNS configuration changed");
    assert_eq!(f[1].title, "Gateway configuration changed");
    assert!(e.observe_net_config(&vec![iface(&[], None)]).is_empty());
}

#[test]
fn auth_failures_below_four_are_quiet() {
    let e = DetectionEngine::new();
    assert!(e.observe_auth_failures(3).is_empty());
    let f = e.observe_auth_failures(4);
    assert_eq!(f[0].indicators, vec!["failed_login_events:4"]);
    assert_eq!(f[0].risk, RiskLevel::Medium);
}

#[test]
fn quota_exceeded_title_and_zero_quota() {
    let mut e = DetectionEngine::new();
    let f = e.observe_bandwidth_quota(Some(1_000), 80, 1_500, 1_000);
    assert_eq!(f[0].title, "Monthly bandwidth quota exceeded (150.0%)");
    assert_eq!(f[0].risk, RiskLevel::High);
    let mut e = DetectionEngine::new();
    let f = e.observe_bandwidth_quota(Some(0), 80, 5, 1_000);
    assert_eq!(f[0].title, "Monthly bandwidth quota exceeded (inf%)");
    let mut e = DetectionEngine::new();
    assert!(e.observe_bandwidth_quota(None, 80, 5, 1_000).is_empty());
    assert!(e.observe_bandwidth_quota(Some(1_000), 80, 799, 1_000).is_empty());
}

#[test]
fn port_keys_round_trip() {
    let k = PortKey { proto: "TCP".into(), port: 8080, addr: "0.0.0.0".into() };
    let s = k.encode();
    assert_eq!(s, "TCP|8080|0.0.0.0");
    let d = PortKey::decode(&s).unwrap();
    assert_eq!((d.proto.as_str(), d.port, d.addr.as_str()), ("TCP", 8080, "0.0.0.0"));
    assert!(PortKey::decode("TCP|99999|x").is_none());
    assert!(PortKey::decode("TCP|80").is_none());
    let d = PortKey::decode("UDP|+53|::|extra").unwrap();
    assert_eq!((d.proto.as_str(), d.port, d.addr.as_str()), ("UDP", 53, "::"));
}

#[test]
fn uppercase_states_are_matched_case_blind() {
    let mut e = DetectionEngine::new();
    let bl = BlocklistManager::new();
    let probed: Vec<Connection> = (1..=10u16).map(|p| conn_on_port("203.0.113.5", 4000, p, "syn_sent", None)).collect();
    let got = e.observe_connections(&probed, &Vec::new(), &bl, 1_000, NOW);
    assert!(got.iter().any(|f| f.rule == RuleId::PortScanLikeInbound));
}

#[test]
fn quota_share_ties_round_to_even() {
    let mut e = DetectionEngine::new();
    let f = e.observe_bandwidth_quota(Some(1_073_741_824), 80, 872_415_232, 1_000);
    assert_eq!(f[0].title, "Monthly bandwidth quota warning (81.2%)");
    let mut e = DetectionEngine::new();
    let f = e.observe_bandwidth_quota(Some(1_000), 80, 875, 1_000);
    assert_eq!(f[0].title, "Monthly bandwidth quota warning (87.5%)");
}

#[test]
fn cooldown_refuses_then_allows() {
    let mut e = DetectionEngine::new();
    assert!(e.allow("k", 1_000, 300_000));
    assert!(!e.allow("k", 200_000, 300_000));
    assert!(!e.allow("k", 300_999, 300_000));
    assert!(e.allow("k", 301_000, 300_000));
    assert!(e.allow("other", 301_000, 300_000));
}
