use vigilon::settings::{notifications_on, remote_agents_from, setting_count};

#[test]
fn count_settings_parse_or_default() {
    assert_eq!(setting_count(Some("15"), 2), 15);
    assert_eq!(setting_count(Some("+7"), 2), 7);
    assert_eq!(setting_count(Some(" 7"), 2), 2);
    assert_eq!(setting_count(Some("-1"), 2), 2);
    assert_eq!(setting_count(Some(""), 4), 4);
    assert_eq!(setting_count(Some("18446744073709551615"), 1), u64::MAX);
    assert_eq!(setting_count(Some("18446744073709551616"), 1), 1);
    assert_eq!(setting_count(None, 40), 40);
}

#[test]
fn notification_switch() {
    assert!(notifications_on(None));
    assert!(notifications_on(Some("1")));
    assert!(notifications_on(Some("yes")));
    assert!(!notifications_on(Some("0")));
    assert!(!notifications_on(Some("FALSE")));
    assert!(!notifications_on(Some("false")));
}

#[test]
fn remote_agent_lists() {
    assert_eq!(remote_agents_from("a:8745, b:8745 ,,"), vec!["a:8745".to_string(), "b:8745".to_string()]);
    assert!(remote_agents_from("").is_empty());
    assert!(remote_agents_from(" , ").is_empty());
    assert_eq!(remote_agents_from("host"), vec!["host".to_string()]);
}

#[test]
fn defaults_match_spec_tiers() {
    let c = vigilon::settings::default_cadence();
    assert!(c.metrics_secs <= 2);
    assert!(c.processes_secs >= 5 && c.processes_secs <= 10);
    assert_eq!((c.metrics_secs, c.sockets_secs, c.processes_secs, c.services_secs), (2, 4, 8, 40));
    assert_eq!(vigilon::settings::default_bind(), "127.0.0.1:8745");
    assert_eq!(vigilon::settings::default_notification_risk(), "HIGH");
    assert_eq!(vigilon::settings::DEFAULT_RETENTION_DAYS, 7);
    assert_eq!(vigilon::settings::DEFAULT_QUOTA_WARN_PCT, 80);
}
