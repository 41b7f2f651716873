use vigilon::api::{
    build_topology, check_fleet_host, clamp_hours, default_hours, dns_query_limit, export_disposition,
    export_is_csv, history_address, history_stride, stored_bandwidth, top_domains_window,
    validate_feedback, Page,
};
use vigilon::metrics::{Connection, ListeningPort, NetworkInterface};

#[test]
fn page_limits_are_clamped() {
    assert_eq!(Page { limit: None }.limit(200), 200);
    assert_eq!(Page { limit: Some(5) }.limit(200), 5);
    assert_eq!(Page { limit: Some(0) }.limit(200), 1);
    assert_eq!(Page { limit: Some(5000) }.limit(200), 1000);
    assert_eq!(default_hours(), 24);
    assert_eq!(clamp_hours(0), 1);
    assert_eq!(clamp_hours(500), 168);
    assert_eq!(dns_query_limit(None), 100);
    assert_eq!(dns_query_limit(Some(-3)), 1);
    assert_eq!(top_domains_window(None, None), (24, 20));
    assert_eq!(top_domains_window(Some(0), Some(1000)), (1, 100));
    assert_eq!(stored_bandwidth(-5, 7), (0, 7));
}

#[test]
fn history_is_sampled_by_window() {
    assert_eq!(history_stride(6), 1);
    assert_eq!(history_stride(7), 4);
    assert_eq!(history_stride(24), 4);
    assert_eq!(history_stride(72), 12);
    assert_eq!(history_stride(168), 30);
}

#[test]
fn test_feedback_validation() {
    assert_eq!(validate_feedback("SUSPICIOUS_DNS_QUERY", "x.tk", "maybe").unwrap_err().status, 400);
    assert!(validate_feedback("SUSPICIOUS_DNS_QUERY", "x.tk", "false_positive").is_ok());
}

#[test]
fn feedback_validation() {
    let e = validate_feedback("SUSPICIOUS_DNS_QUERY", "x.tk", "maybe").unwrap_err();
    assert_eq!(e.status, 400);
    assert_eq!(e.message, "verdict must be false_positive, suppressed, or confirmed");
    let ok = validate_feedback(" SUSPICIOUS_DNS_QUERY ", " x.tk ", "false_positive").unwrap();
    assert_eq!(ok, ("SUSPICIOUS_DNS_QUERY".to_string(), "x.tk".to_string()));
    let e = validate_feedback("   ", "k", "confirmed").unwrap_err();
    assert_eq!(e.message, "invalid rule or key");
    let long_rule = "R".repeat(65);
    assert!(validate_feedback(&long_rule, "k", "suppressed").is_err());
    let wide_key = "é".repeat(257);
    assert!(validate_feedback("R", &wide_key, "suppressed").is_err(), "the key limit counts bytes");
    assert!(validate_feedback("R", &"é".repeat(256), "suppressed").is_ok());
}

#[test]
fn test_fleet_proxy_rejects_unlisted_host() {
    // With no remote agents configured, any proxied host is forbidden.
    let e = check_fleet_host(&Vec::new(), "169.254.169.254").unwrap_err();
    assert_eq!(e.status, 403);
    assert!(e.message.contains("not a configured remote agent"));
}

#[test]
fn test_list_endpoints_accept_limit() {
    for default in [200, 300, 100] {
        assert_eq!(Page { limit: Some(5) }.limit(default), 5);
    }
}

#[test]
fn fleet_proxy_rejects_unlisted_host() {
    let agents = vec!["10.0.0.5:8745".to_string()];
    let e = check_fleet_host(&agents, "169.254.169.254").unwrap_err();
    assert_eq!(e.status, 403);
    assert!(e.message.contains("not a configured remote agent"));
    assert!(check_fleet_host(&agents, "10.0.0.5:8745").is_ok());
    for bad in ["", "evil@10.0.0.5", "10.0.0.5/x", "a b", "x\u{7f}", "a?b", "a#b"] {
        assert_eq!(check_fleet_host(&agents, bad).unwrap_err().status, 400);
    }
    assert_eq!(check_fleet_host(&agents, &"h".repeat(254)).unwrap_err().status, 400);
}

#[test]
fn export_formats() {
    assert!(export_is_csv(Some("CSV")));
    assert!(!export_is_csv(Some("json")));
    assert!(!export_is_csv(None));
    assert_eq!(export_disposition("vigilon-connections", true), "attachment; filename=\"vigilon-connections.csv\"");
    assert_eq!(export_disposition("x", false), "attachment; filename=\"x.json\"");
}

#[test]
fn connection_history_needs_an_ip() {
    assert_eq!(history_address("8.8.8.8:443").as_deref(), Some("8.8.8.8"));
    assert_eq!(history_address("[2001:db8::1]:443").as_deref(), Some("2001:db8::1"));
    assert!(history_address("example.com").is_none());
}

fn iface(name: &str, kind: &str, ips: &[&str], gw: Option<&str>) -> NetworkInterface {
    NetworkInterface {
        name: name.into(),
        kind: kind.into(),
        mac: None,
        ips: ips.iter().map(|s| s.to_string()).collect(),
        is_up: true,
        rx_total_bytes: 0,
        tx_total_bytes: 0,
        gateway: gw.map(str::to_string),
        dns: vec![],
    }
}

#[test]
fn topology_view() {
    let ifaces = vec![iface("lo", "loopback", &["127.0.0.1"], None), iface("eth0", "ethernet", &["192.168.1.8"], Some("192.168.1.1"))];
    let ports: Vec<ListeningPort> = (0..25u16)
        .map(|i| ListeningPort {
            protocol: if i == 0 { "UDP".into() } else { "TCP".into() },
            address: "0.0.0.0".into(),
            port: 1000 + i,
            pid: None,
            process_name: Some("srv".into()),
            process_path: None,
        })
        .collect();
    let conns: Vec<Connection> = (0..15u16)
        .map(|i| Connection {
            protocol: "TCP".into(),
            local_addr: "192.168.1.8".into(),
            local_port: 40000 + i,
            remote_addr: if i == 0 { "10.0.0.9".into() } else { format!("8.8.8.{i}") },
            remote_port: 443,
            state: "ESTABLISHED".into(),
            pid: None,
            process_name: None,
            process_path: None,
            first_seen: None,
            last_seen: None,
            geo: None,
        })
        .collect();
    let g = build_topology(&ifaces, None, &ports, &conns);
    assert_eq!(g.nodes.len(), 3 + 18 + 12);
    assert_eq!(g.edges.len(), g.nodes.len() - 1);
    assert_eq!(g.nodes[1].subtitle.as_deref(), Some("192.168.1.1"));
    assert_eq!(g.nodes[2].label, "MY PC");
    assert_eq!(g.nodes[2].subtitle.as_deref(), Some("192.168.1.8"));
    assert_eq!(g.nodes[3].id, "port-TCP-1001");
    assert_eq!(g.nodes[3].label, ":1001");
    assert_eq!(g.nodes[21].id, "ext-0");
    assert_eq!(g.nodes[21].label, "8.8.8.1:443");
    assert_eq!(g.edges[20].id, "e-pc-ext-0");
    let empty = build_topology(&vec![], Some("box".into()), &vec![], &vec![]);
    assert_eq!(empty.nodes.len(), 3);
    assert_eq!(empty.nodes[2].label, "box");
    assert_eq!(empty.nodes[2].subtitle.as_deref(), Some("local"));
}
