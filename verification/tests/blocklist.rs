use vigilon::blocklist::{BlocklistEntry, BlocklistError, BlocklistManager};

#[test]
fn ipv6_roundtrips_without_mangling() {
    let mut mgr = BlocklistManager::new();
    mgr.add("2001:db8::1", None, "2024-01-01T00:00:00Z".to_string()).unwrap();
    assert!(mgr.is_blocked("2001:db8::1"));
    assert!(mgr.is_blocked("[2001:db8::1]:443"));
    assert!(!mgr.is_blocked("2001:db8::2"));
    assert!(mgr.remove("2001:db8::1"));
    assert!(!mgr.is_blocked("2001:db8::1"));
}

#[test]
fn invalid_entries_rejected() {
    let mut mgr = BlocklistManager::new();
    assert!(matches!(
        mgr.add("not an ip", None, "t".to_string()),
        Err(BlocklistError::InvalidIp(_))
    ));
    assert!(matches!(
        mgr.add("", None, "t".to_string()),
        Err(BlocklistError::InvalidIp(_))
    ));
    assert!(mgr.list().is_empty());
}

#[test]
fn invalid_entry_reports_the_trimmed_input() {
    let mut mgr = BlocklistManager::new();
    match mgr.add("  bogus  ", None, "t".to_string()) {
        Err(BlocklistError::InvalidIp(s)) => assert_eq!(s, "bogus"),
        _ => panic!("expected an invalid-IP error"),
    }
}

#[test]
fn adding_twice_keeps_one_entry() {
    let mut mgr = BlocklistManager::new();
    mgr.add("8.8.8.8", Some("dns".to_string()), "t1".to_string()).unwrap();
    mgr.add("8.8.8.8:53", None, "t2".to_string()).unwrap();
    let l = mgr.list();
    assert_eq!(l.len(), 1);
    assert_eq!(l[0].ip, "8.8.8.8");
    assert_eq!(l[0].comment.as_deref(), Some("dns"));
    assert!(mgr.is_blocked("8.8.8.8:9999"));
}

#[test]
fn removing_unknown_reports_false() {
    let mut mgr = BlocklistManager::new();
    assert!(!mgr.remove("1.2.3.4"));
}

#[test]
fn loaded_entries_block_their_trimmed_ip() {
    let mut mgr = BlocklistManager::new();
    mgr.load(vec![BlocklistEntry {
        ip: " 9.9.9.9 ".to_string(),
        comment: None,
        added_at: "t".to_string(),
    }]);
    assert!(mgr.is_blocked("9.9.9.9"));
    assert_eq!(mgr.list().len(), 1);
}

#[test]
fn test_blocklist_rejects_garbage() {
    let mut mgr = BlocklistManager::new();
    assert!(matches!(
        mgr.add("not an ip", None, "t".to_string()),
        Err(BlocklistError::InvalidIp(_))
    ));
    assert!(mgr.add("2001:db8::1", None, "t".to_string()).is_ok());
    assert!(mgr.is_blocked("2001:db8::1"));
}
