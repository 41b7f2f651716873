use vigilon::detection::{phrasing, score};
use vigilon::events::{parse_risk, parse_rule, RiskLevel, RuleId};

#[test]
fn new_port_is_medium_when_first_seen() {
    assert_eq!(score(&RuleId::NewListeningPort, 1, true), RiskLevel::Medium);
}

#[test]
fn unknown_process_is_high() {
    assert_eq!(
        score(&RuleId::UnknownProcessNetworkAccess, 1, true),
        RiskLevel::High
    );
}

#[test]
fn rate_counts_drive_severity() {
    assert_eq!(
        score(&RuleId::UnusualConnectionRate, 60, true),
        RiskLevel::Critical
    );
    assert_eq!(
        score(&RuleId::UnusualConnectionRate, 20, true),
        RiskLevel::High
    );
    assert_eq!(
        score(&RuleId::MultipleFailedLogins, 6, true),
        RiskLevel::High
    );
    assert_eq!(
        score(&RuleId::MultipleFailedLogins, 2, true),
        RiskLevel::Medium
    );
}

#[test]
fn phrasing_never_says_attack() {
    for risk in [
        RiskLevel::Info,
        RiskLevel::Low,
        RiskLevel::Medium,
        RiskLevel::High,
        RiskLevel::Critical,
    ] {
        let t = phrasing(risk).to_lowercase();
        assert!(!t.contains("under attack"));
        assert!(!t.contains("you are compromised"));
    }
}

#[test]
fn new_port_is_low_when_seen_before() {
    assert_eq!(score(&RuleId::NewListeningPort, 1, false), RiskLevel::Low);
}

#[test]
fn new_connection_needs_three_indicators_for_medium() {
    assert_eq!(score(&RuleId::NewExternalConnection, 2, true), RiskLevel::Low);
    assert_eq!(score(&RuleId::NewExternalConnection, 3, true), RiskLevel::Medium);
}

#[test]
fn scan_volume_boundary_is_fifty() {
    assert_eq!(score(&RuleId::PortScanLikeInbound, 49, true), RiskLevel::High);
    assert_eq!(score(&RuleId::PortScanLikeInbound, 50, true), RiskLevel::Critical);
    assert_eq!(score(&RuleId::BlocklistedConnection, 0, false), RiskLevel::Critical);
}

#[test]
fn score_is_monotone_in_the_count() {
    for rule in [
        RuleId::NewExternalConnection,
        RuleId::MultipleFailedLogins,
        RuleId::UnusualConnectionRate,
        RuleId::PortScanLikeInbound,
    ] {
        let mut prev = score(&rule, 0, true).as_str().to_string();
        let order = ["INFO", "LOW", "MEDIUM", "HIGH", "CRITICAL"];
        for n in 1..80usize {
            let cur = score(&rule, n, true).as_str().to_string();
            let a = order.iter().position(|x| *x == prev).unwrap();
            let b = order.iter().position(|x| *x == cur).unwrap();
            assert!(a <= b);
            prev = cur;
        }
    }
}

#[test]
fn rule_and_risk_names_round_trip() {
    for r in [
        RuleId::NewListeningPort,
        RuleId::NewExternalConnection,
        RuleId::PortStateChanged,
        RuleId::UnknownProcessNetworkAccess,
        RuleId::MultipleFailedLogins,
        RuleId::UnusualConnectionRate,
        RuleId::NewServiceStarted,
        RuleId::FirewallConfigurationChanged,
        RuleId::ProcessStartedUnusualPath,
        RuleId::NetworkConfigChanged,
        RuleId::PortScanLikeInbound,
        RuleId::BlocklistedConnection,
        RuleId::BandwidthQuotaWarning,
        RuleId::BandwidthQuotaExceeded,
        RuleId::SuspiciousDnsQuery,
    ] {
        assert_eq!(parse_rule(r.as_str()), Some(r));
    }
    assert_eq!(parse_rule("NOT_A_RULE"), None);
    for k in [
        RiskLevel::Info,
        RiskLevel::Low,
        RiskLevel::Medium,
        RiskLevel::High,
        RiskLevel::Critical,
    ] {
        assert_eq!(parse_risk(k.as_str()), k);
    }
    assert_eq!(parse_risk("whatever"), RiskLevel::Info);
}
