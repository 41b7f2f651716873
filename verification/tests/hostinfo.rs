use vigilon::hostinfo::{
    attach_counts, cap_batch, classify_iface, connection_counts, dns_and_gateway, failed_logins_hint,
    firewall_from_pf, firewall_from_probes, firewall_from_profiles, geo_candidate, geo_location_of, is_gpu_card,
    name_gpu_processes, queries_from_cache, service_status_name, services_from_entries, smart_state_path,
    split_sockets, system_log_failed_logins, SocketRecord,
};
use vigilon::metrics::{Connection, DnsCacheEntry, DnsQuery, GpuProcess, ProcessInfo};

fn query(name: &str) -> DnsQuery {
    DnsQuery {
        timestamp: 0,
        query_name: name.into(),
        record_type: "A".into(),
        response_code: 0,
        process_name: None,
    }
}

#[test]
fn cap_batch_truncates() {
    let out = cap_batch(vec![query("a"), query("b"), query("c")], 2);
    assert_eq!(out.len(), 2);
}

#[test]
fn cap_batch_keeps_at_least_one() {
    assert_eq!(cap_batch(vec![query("a"), query("b")], 0).len(), 1);
    assert_eq!(cap_batch(vec![query("a")], 10).len(), 1);
}

#[test]
fn resolver_and_default_route() {
    let resolv = "# generated\nnameserver 1.1.1.1\r\nnameserver   9.9.9.9  \nsearch lan\n";
    let route = "Iface\tDestination\tGateway \tFlags\n\
                 eth0\t0000A8C0\t00000000\t0001\n\
                 eth0\t00000000\t0101A8C0\t0003\n";
    let (dns, gw) = dns_and_gateway(resolv, route);
    assert_eq!(dns, vec!["1.1.1.1", "9.9.9.9"]);
    assert_eq!(gw.as_deref(), Some("192.168.1.1"));
}

#[test]
fn unreadable_tables_give_nothing() {
    let (dns, gw) = dns_and_gateway("", "");
    assert!(dns.is_empty());
    assert!(gw.is_none());
    let (_, gw) = dns_and_gateway("", "header\neth0 00000000 zz 3\neth1 00000000 0101A8C0 3\n");
    assert!(gw.is_none(), "an unreadable default route ends the search");
}

#[test]
fn failed_logins_counts_recent_failures() {
    let log = "ok\nFailed password for root\nsudo: pam_unix(sudo:auth): authentication failure\nAccepted password\n";
    assert_eq!(failed_logins_hint(log), 2);
    let mut big = String::from("Failed password\n");
    for _ in 0..400 {
        big.push_str("quiet line\n");
    }
    assert_eq!(failed_logins_hint(&big), 0, "only the last 400 lines count");
}

#[test]
fn interface_kinds() {
    assert_eq!(classify_iface("lo"), "loopback");
    assert_eq!(classify_iface("Loopback Pseudo-Interface 1"), "loopback");
    assert_eq!(classify_iface("wlan0"), "wifi");
    assert_eq!(classify_iface("Wi-Fi"), "wifi");
    assert_eq!(classify_iface("tun0"), "vpn");
    assert_eq!(classify_iface("docker0"), "virtual");
    assert_eq!(classify_iface("eth0"), "ethernet");
    assert_eq!(classify_iface("enp3s0"), "ethernet");
    assert_eq!(classify_iface("xyz"), "other");
}

#[test]
fn service_states() {
    assert_eq!(service_status_name(1), "stopped");
    assert_eq!(service_status_name(4), "running");
    assert_eq!(service_status_name(2), "start_pending");
    assert_eq!(service_status_name(3), "stop_pending");
    assert_eq!(service_status_name(7), "other");
}

#[test]
fn cache_entries_become_queries() {
    let cache = vec![
        DnsCacheEntry { name: "a.example".into(), record_type: "28".into() },
        DnsCacheEntry { name: "b.example".into(), record_type: "x".into() },
        DnsCacheEntry { name: "c.example".into(), record_type: "5".into() },
    ];
    let q = queries_from_cache(&cache, 42);
    assert_eq!(q.len(), 3);
    assert_eq!(q[0].record_type, "AAAA");
    assert_eq!(q[1].record_type, "ANY");
    assert_eq!(q[2].record_type, "CNAME");
    assert_eq!(q[2].timestamp, 42);
    assert_eq!(q[0].query_name, "a.example");
}

fn c(pid: Option<u32>, name: Option<&str>) -> Connection {
    Connection {
        protocol: "TCP".into(),
        local_addr: "10.0.0.2".into(),
        local_port: 5000,
        remote_addr: "8.8.8.8".into(),
        remote_port: 53,
        state: "ESTABLISHED".into(),
        pid,
        process_name: name.map(str::to_string),
        process_path: None,
        first_seen: None,
        last_seen: None,
        geo: None,
    }
}

fn p(pid: u32, name: &str) -> ProcessInfo {
    ProcessInfo {
        pid,
        name: name.into(),
        path: None,
        memory_bytes: 0,
        status: "Run".into(),
        start_time: None,
        connection_count: 0,
        parent_pid: None,
    }
}

#[test]
fn connection_counts_per_process() {
    let mut procs = vec![p(1, "a"), p(2, "b")];
    let conns = vec![c(Some(1), Some("a")), c(Some(1), Some("a")), c(None, None), c(Some(3), None)];
    attach_counts(&mut procs, &conns);
    assert_eq!(procs[0].connection_count, 2);
    assert_eq!(procs[1].connection_count, 0);
    let (counts, total) = connection_counts(&conns);
    assert_eq!(total, 3);
    assert_eq!(counts.len(), 2);
    assert_eq!(counts[0], (1, "a".to_string(), 2));
    assert_eq!(counts[1], (3, "PID 3".to_string(), 1));
}

#[test]
fn sockets_are_sorted_into_ports_and_connections() {
    let rec = |tcp: bool, state: &str| SocketRecord {
        tcp,
        local_addr: "0.0.0.0".into(),
        local_port: 80,
        remote_addr: "1.2.3.4".into(),
        remote_port: 5555,
        state: state.into(),
        pid: Some(9),
        process_name: Some("srv".into()),
        process_path: None,
    };
    let (ports, conns) = split_sockets(&vec![rec(true, "Listen"), rec(true, "Established"), rec(false, "")]);
    assert_eq!(ports.len(), 2);
    assert_eq!(ports[0].protocol, "TCP");
    assert_eq!(ports[1].protocol, "UDP");
    assert_eq!(conns.len(), 1);
    assert_eq!(conns[0].state, "Established");
    assert_eq!(conns[0].remote_port, 5555);
}

#[test]
fn firewall_probes() {
    let f = firewall_from_probes(true, false, Some("ENABLED=yes\n"));
    assert!(f.enabled);
    assert_eq!(f.profile.as_deref(), Some("ufw"));
    assert_eq!(f.details, "nft=true iptables=false ufw=true");
    let f = firewall_from_probes(false, false, None);
    assert!(!f.enabled);
    assert_eq!(f.profile.as_deref(), Some("iptables"));
    let f = firewall_from_profiles(true, false, false);
    assert_eq!(f.profile.as_deref(), Some("domain"));
    assert_eq!(f.details, "domain=true private=false public=false");
    assert!(!firewall_from_profiles(false, false, false).enabled);
}

#[test]
fn disk_and_gpu_names() {
    assert_eq!(smart_state_path("/dev/sda"), "/sys/block/sda/device/state");
    assert_eq!(smart_state_path("/dev/mapper/root"), "/sys/block/root/device/state");
    assert_eq!(smart_state_path("nvme0n1"), "/sys/block/nvme0n1/device/state");
    assert!(is_gpu_card("card0"));
    assert!(!is_gpu_card("card0-DP-1"));
    assert!(!is_gpu_card("renderD128"));
}

#[test]
fn gpu_processes_are_named_from_the_list() {
    let mut g = vec![
        GpuProcess { pid: 2, name: None, memory_bytes: Some(5) },
        GpuProcess { pid: 8, name: None, memory_bytes: None },
        GpuProcess { pid: 1, name: Some("x".into()), memory_bytes: None },
    ];
    name_gpu_processes(&mut g, &vec![p(1, "a"), p(2, "b")]);
    assert_eq!(g[0].name.as_deref(), Some("b"));
    assert_eq!(g[0].memory_bytes, Some(5));
    assert_eq!(g[1].name, None);
    assert_eq!(g[2].name.as_deref(), Some("x"));
}

#[test]
fn only_public_addresses_are_located() {
    assert!(geo_candidate("8.8.8.8:53").is_some());
    assert!(geo_candidate("192.168.1.1").is_none());
    assert!(geo_candidate("169.254.3.3").is_none());
    assert!(geo_candidate("[::1]:80").is_none());
    assert!(geo_candidate("ff02::1").is_none());
    assert!(geo_candidate("not-an-ip").is_none());
    let g = geo_location_of(None, Some("Germany".into()), None);
    assert_eq!(g.country_code, "??");
    assert_eq!(g.country_name, "Germany");
}

#[test]
fn unit_directory_entries_become_services() {
    let names: Vec<String> = vec!["ssh.service".into(), "foo.socket".into(), "cron.service".into()];
    let s = services_from_entries(&names, ".service", "running");
    assert_eq!(s.len(), 2);
    assert_eq!(s[0].name, "ssh.service");
    assert_eq!(s[1].name, "cron.service");
    assert_eq!(s[1].status, "running");
    assert!(s[0].display_name.is_none() && s[0].pid.is_none());
    let many: Vec<String> = (0..250).map(|i| format!("d{i}.plist")).collect();
    let s = services_from_entries(&many, ".plist", "launchd");
    assert_eq!(s.len(), 200, "at most 200 units are listed");
    assert_eq!(s[199].name, "d199.plist");
    assert!(services_from_entries(&Vec::new(), ".service", "unit").is_empty());
}

#[test]
fn macos_system_log_failures() {
    let log = "a Failed to authenticate user\nb authentication failure\nc Failed password\n";
    assert_eq!(system_log_failed_logins(log), 2);
    assert_eq!(failed_logins_hint(log), 2);
    assert_eq!(system_log_failed_logins(""), 0);
}

#[test]
fn pf_firewall_status() {
    let f = firewall_from_pf(true);
    assert!(f.enabled);
    assert_eq!(f.profile.as_deref(), Some("pf"));
    assert_eq!(f.details, "pf.conf present (state not queried)");
    assert!(!firewall_from_pf(false).enabled);
}
