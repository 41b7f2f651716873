use vigilon::netparse::{is_external_addr, parse_block_target, strip_port};

#[test]
fn keeps_bare_ipv6_intact() {
    assert_eq!(strip_port("2001:db8::1"), "2001:db8::1");
    assert_eq!(strip_port("::1"), "::1");
    assert_eq!(strip_port("fe80::1"), "fe80::1");
}

#[test]
fn strips_ports() {
    assert_eq!(strip_port("8.8.8.8:443"), "8.8.8.8");
    assert_eq!(strip_port("[2001:db8::1]:443"), "2001:db8::1");
    assert_eq!(strip_port("example.com:8080"), "example.com");
}

#[test]
fn parses_block_targets() {
    assert_eq!(parse_block_target(" 8.8.8.8 ").as_deref(), Some("8.8.8.8"));
    assert_eq!(
        parse_block_target("2001:db8::1").as_deref(),
        Some("2001:db8::1")
    );
    assert_eq!(parse_block_target("not an ip"), None);
    assert_eq!(parse_block_target(""), None);
}

#[test]
fn classifies_external() {
    assert!(!is_external_addr("127.0.0.1"));
    assert!(!is_external_addr("192.168.0.2"));
    assert!(!is_external_addr("10.0.0.1"));
    assert!(!is_external_addr("172.16.5.4"));
    assert!(!is_external_addr("::1"));
    assert!(!is_external_addr("fe80::1"));
    assert!(!is_external_addr("fe80::1%eth0"));
    assert!(!is_external_addr("fc00::1"));
    assert!(is_external_addr("2001:db8::1"));
    assert!(is_external_addr("[2001:db8::1]:443"));
    assert!(is_external_addr("8.8.8.8"));
    assert!(is_external_addr("8.8.8.8:443"));
}

#[test]
fn block_targets_are_canonical() {
    assert_eq!(parse_block_target("[2001:0db8:0000::0001]:443").as_deref(), Some("2001:db8::1"));
    assert_eq!(parse_block_target("::ffff:1.2.3.4").as_deref(), Some("::ffff:1.2.3.4"));
    assert_eq!(parse_block_target("1.2.3.4:80").as_deref(), Some("1.2.3.4"));
    assert_eq!(parse_block_target("01.2.3.4"), None);
    assert_eq!(parse_block_target("256.1.1.1"), None);
}

#[test]
fn canonical_target_strips_to_itself() {
    for raw in ["8.8.8.8", "2001:db8::1", "[::1]:22", " 10.0.0.1:9 "] {
        let c = parse_block_target(raw).unwrap();
        assert_eq!(strip_port(&c), c);
    }
}

#[test]
fn ambiguous_endpoints_are_kept_whole() {
    assert_eq!(strip_port("host:port:x"), "host:port:x");
    assert_eq!(strip_port("host:"), "host:");
    assert_eq!(strip_port("[2001:db8::1"), "[2001:db8::1");
    assert_eq!(strip_port("  example.com  "), "example.com");
}

#[test]
fn special_ranges_are_not_external() {
    assert!(!is_external_addr("169.254.1.1"));
    assert!(!is_external_addr("0.0.0.0"));
    assert!(!is_external_addr("224.0.0.1"));
    assert!(!is_external_addr("255.255.255.255"));
    assert!(!is_external_addr("::"));
    assert!(!is_external_addr("ff02::1"));
    assert!(!is_external_addr("example.com"));
    assert!(is_external_addr("172.32.0.1"));
}
