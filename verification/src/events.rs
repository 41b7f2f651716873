//! Risk levels, rule identifiers, security events and their wording.
use vstd::prelude::*;
use crate::text::{append_str, str_eq};

verus! {

/// Assessment level of a finding, from routine to most urgent.
#[derive(Clone, Copy, Debug, PartialEq, Eq, Structural)]
pub enum RiskLevel {
    Info,
    Low,
    Medium,
    High,
    Critical,
}

/// Position of a level in `INFO < LOW < MEDIUM < HIGH < CRITICAL`.
pub open spec fn risk_rank(r: RiskLevel) -> int {
    match r {
        RiskLevel::Info => 0,
        RiskLevel::Low => 1,
        RiskLevel::Medium => 2,
        RiskLevel::High => 3,
        RiskLevel::Critical => 4,
    }
}

pub open spec fn risk_name(r: RiskLevel) -> Seq<char> {
    match r {
        RiskLevel::Info => "INFO"@,
        RiskLevel::Low => "LOW"@,
        RiskLevel::Medium => "MEDIUM"@,
        RiskLevel::High => "HIGH"@,
        RiskLevel::Critical => "CRITICAL"@,
    }
}

pub open spec fn risk_language(r: RiskLevel) -> Seq<char> {
    match r {
        RiskLevel::Info => "Normal activity, logged for the timeline."@,
        RiskLevel::Low | RiskLevel::Medium => "New or unusual activity — worth a look."@,
        RiskLevel::High | RiskLevel::Critical => "Multiple independent indicators align — investigate promptly."@,
    }
}

impl RiskLevel {
    /// Wire name of the level (`"MEDIUM"`, ...).
    pub fn as_str(self) -> (r: &'static str)
        ensures
            r@ == risk_name(self),
    {
        match self {
            RiskLevel::Info => "INFO",
            RiskLevel::Low => "LOW",
            RiskLevel::Medium => "MEDIUM",
            RiskLevel::High => "HIGH",
            RiskLevel::Critical => "CRITICAL",
        }
    }

    /// Human language for the level — never a certainty claim.
    pub fn language(self) -> (r: &'static str)
        ensures
            r@ == risk_language(self),
    {
        match self {
            RiskLevel::Info => "Normal activity, logged for the timeline.",
            RiskLevel::Low | RiskLevel::Medium => "New or unusual activity — worth a look.",
            RiskLevel::High | RiskLevel::Critical => "Multiple independent indicators align — investigate promptly.",
        }
    }
}

/// The detection rules a finding can come from.
#[derive(Clone, Copy, Debug, PartialEq, Eq, Structural)]
pub enum RuleId {
    NewListeningPort,
    NewExternalConnection,
    PortStateChanged,
    UnknownProcessNetworkAccess,
    MultipleFailedLogins,
    UnusualConnectionRate,
    NewServiceStarted,
    FirewallConfigurationChanged,
    ProcessStartedUnusualPath,
    NetworkConfigChanged,
    PortScanLikeInbound,
    BlocklistedConnection,
    BandwidthQuotaWarning,
    BandwidthQuotaExceeded,
    SuspiciousDnsQuery,
}

pub open spec fn rule_name(r: RuleId) -> Seq<char> {
    match r {
        RuleId::NewListeningPort => "NEW_LISTENING_PORT"@,
        RuleId::NewExternalConnection => "NEW_EXTERNAL_CONNECTION"@,
        RuleId::PortStateChanged => "PORT_STATE_CHANGED"@,
        RuleId::UnknownProcessNetworkAccess => "UNKNOWN_PROCESS_NETWORK_ACCESS"@,
        RuleId::MultipleFailedLogins => "MULTIPLE_FAILED_LOGINS"@,
        RuleId::UnusualConnectionRate => "UNUSUAL_CONNECTION_RATE"@,
        RuleId::NewServiceStarted => "NEW_SERVICE_STARTED"@,
        RuleId::FirewallConfigurationChanged => "FIREWALL_CONFIGURATION_CHANGED"@,
        RuleId::ProcessStartedUnusualPath => "PROCESS_STARTED_UNUSUAL_PATH"@,
        RuleId::NetworkConfigChanged => "NETWORK_CONFIG_CHANGED"@,
        RuleId::PortScanLikeInbound => "PORT_SCAN_LIKE_INBOUND"@,
        RuleId::BlocklistedConnection => "BLOCKLISTED_CONNECTION"@,
        RuleId::BandwidthQuotaWarning => "BANDWIDTH_QUOTA_WARNING"@,
        RuleId::BandwidthQuotaExceeded => "BANDWIDTH_QUOTA_EXCEEDED"@,
        RuleId::SuspiciousDnsQuery => "SUSPICIOUS_DNS_QUERY"@,
    }
}

impl RuleId {
    /// Wire name of the rule (`"NEW_LISTENING_PORT"`, ...).
    pub fn as_str(&self) -> (r: &'static str)
        ensures
            r@ == rule_name(*self),
    {
        match self {
            RuleId::NewListeningPort => "NEW_LISTENING_PORT",
            RuleId::NewExternalConnection => "NEW_EXTERNAL_CONNECTION",
            RuleId::PortStateChanged => "PORT_STATE_CHANGED",
            RuleId::UnknownProcessNetworkAccess => "UNKNOWN_PROCESS_NETWORK_ACCESS",
            RuleId::MultipleFailedLogins => "MULTIPLE_FAILED_LOGINS",
            RuleId::UnusualConnectionRate => "UNUSUAL_CONNECTION_RATE",
            RuleId::NewServiceStarted => "NEW_SERVICE_STARTED",
            RuleId::FirewallConfigurationChanged => "FIREWALL_CONFIGURATION_CHANGED",
            RuleId::ProcessStartedUnusualPath => "PROCESS_STARTED_UNUSUAL_PATH",
            RuleId::NetworkConfigChanged => "NETWORK_CONFIG_CHANGED",
            RuleId::PortScanLikeInbound => "PORT_SCAN_LIKE_INBOUND",
            RuleId::BlocklistedConnection => "BLOCKLISTED_CONNECTION",
            RuleId::BandwidthQuotaWarning => "BANDWIDTH_QUOTA_WARNING",
            RuleId::BandwidthQuotaExceeded => "BANDWIDTH_QUOTA_EXCEEDED",
            RuleId::SuspiciousDnsQuery => "SUSPICIOUS_DNS_QUERY",
        }
    }
}

/// Reading a stored risk name back: unknown names read as `Info`.
pub open spec fn spec_parse_risk(s: Seq<char>) -> RiskLevel {
    if s == "LOW"@ {
        RiskLevel::Low
    } else if s == "MEDIUM"@ {
        RiskLevel::Medium
    } else if s == "HIGH"@ {
        RiskLevel::High
    } else if s == "CRITICAL"@ {
        RiskLevel::Critical
    } else {
        RiskLevel::Info
    }
}

pub fn parse_risk(s: &str) -> (r: RiskLevel)
    ensures
        r == spec_parse_risk(s@),
{
    if str_eq(s, "LOW") {
        RiskLevel::Low
    } else if str_eq(s, "MEDIUM") {
        RiskLevel::Medium
    } else if str_eq(s, "HIGH") {
        RiskLevel::High
    } else if str_eq(s, "CRITICAL") {
        RiskLevel::Critical
    } else {
        RiskLevel::Info
    }
}

/// The rule whose wire name is `s`, if any.
pub open spec fn spec_parse_rule(s: Seq<char>) -> Option<RuleId> {
    if s == rule_name(RuleId::NewListeningPort) {
        Some(RuleId::NewListeningPort)
    } else if s == rule_name(RuleId::NewExternalConnection) {
        Some(RuleId::NewExternalConnection)
    } else if s == rule_name(RuleId::PortStateChanged) {
        Some(RuleId::PortStateChanged)
    } else if s == rule_name(RuleId::UnknownProcessNetworkAccess) {
        Some(RuleId::UnknownProcessNetworkAccess)
    } else if s == rule_name(RuleId::MultipleFailedLogins) {
        Some(RuleId::MultipleFailedLogins)
    } else if s == rule_name(RuleId::UnusualConnectionRate) {
        Some(RuleId::UnusualConnectionRate)
    } else if s == rule_name(RuleId::NewServiceStarted) {
        Some(RuleId::NewServiceStarted)
    } else if s == rule_name(RuleId::FirewallConfigurationChanged) {
        Some(RuleId::FirewallConfigurationChanged)
    } else if s == rule_name(RuleId::ProcessStartedUnusualPath) {
        Some(RuleId::ProcessStartedUnusualPath)
    } else if s == rule_name(RuleId::NetworkConfigChanged) {
        Some(RuleId::NetworkConfigChanged)
    } else if s == rule_name(RuleId::PortScanLikeInbound) {
        Some(RuleId::PortScanLikeInbound)
    } else if s == rule_name(RuleId::BlocklistedConnection) {
        Some(RuleId::BlocklistedConnection)
    } else if s == rule_name(RuleId::BandwidthQuotaWarning) {
        Some(RuleId::BandwidthQuotaWarning)
    } else if s == rule_name(RuleId::BandwidthQuotaExceeded) {
        Some(RuleId::BandwidthQuotaExceeded)
    } else if s == rule_name(RuleId::SuspiciousDnsQuery) {
        Some(RuleId::SuspiciousDnsQuery)
    } else {
        None
    }
}

/// Reading a stored rule name back; unknown names give `None` so history
/// is never mislabelled as another rule.
pub fn parse_rule(s: &str) -> (r: Option<RuleId>)
    ensures
        r == spec_parse_rule(s@),
{
    if str_eq(s, "NEW_LISTENING_PORT") {
        Some(RuleId::NewListeningPort)
    } else if str_eq(s, "NEW_EXTERNAL_CONNECTION") {
        Some(RuleId::NewExternalConnection)
    } else if str_eq(s, "PORT_STATE_CHANGED") {
        Some(RuleId::PortStateChanged)
    } else if str_eq(s, "UNKNOWN_PROCESS_NETWORK_ACCESS") {
        Some(RuleId::UnknownProcessNetworkAccess)
    } else if str_eq(s, "MULTIPLE_FAILED_LOGINS") {
        Some(RuleId::MultipleFailedLogins)
    } else if str_eq(s, "UNUSUAL_CONNECTION_RATE") {
        Some(RuleId::UnusualConnectionRate)
    } else if str_eq(s, "NEW_SERVICE_STARTED") {
        Some(RuleId::NewServiceStarted)
    } else if str_eq(s, "FIREWALL_CONFIGURATION_CHANGED") {
        Some(RuleId::FirewallConfigurationChanged)
    } else if str_eq(s, "PROCESS_STARTED_UNUSUAL_PATH") {
        Some(RuleId::ProcessStartedUnusualPath)
    } else if str_eq(s, "NETWORK_CONFIG_CHANGED") {
        Some(RuleId::NetworkConfigChanged)
    } else if str_eq(s, "PORT_SCAN_LIKE_INBOUND") {
        Some(RuleId::PortScanLikeInbound)
    } else if str_eq(s, "BLOCKLISTED_CONNECTION") {
        Some(RuleId::BlocklistedConnection)
    } else if str_eq(s, "BANDWIDTH_QUOTA_WARNING") {
        Some(RuleId::BandwidthQuotaWarning)
    } else if str_eq(s, "BANDWIDTH_QUOTA_EXCEEDED") {
        Some(RuleId::BandwidthQuotaExceeded)
    } else if str_eq(s, "SUSPICIOUS_DNS_QUERY") {
        Some(RuleId::SuspiciousDnsQuery)
    } else {
        None
    }
}

/// Reading back the stored name of a rule gives that rule.
pub proof fn law_rule_name_roundtrip(r: RuleId)
    ensures
        spec_parse_rule(rule_name(r)) == Some(r),
{
    reveal_strlit("NEW_LISTENING_PORT");
    assert("NEW_LISTENING_PORT"@.len() == 18 && "NEW_LISTENING_PORT"@[0] == 'N');
    reveal_strlit("NEW_EXTERNAL_CONNECTION");
    assert("NEW_EXTERNAL_CONNECTION"@.len() == 23 && "NEW_EXTERNAL_CONNECTION"@[0] == 'N');
    reveal_strlit("PORT_STATE_CHANGED");
    assert("PORT_STATE_CHANGED"@.len() == 18 && "PORT_STATE_CHANGED"@[0] == 'P');
    reveal_strlit("UNKNOWN_PROCESS_NETWORK_ACCESS");
    assert("UNKNOWN_PROCESS_NETWORK_ACCESS"@.len() == 30 && "UNKNOWN_PROCESS_NETWORK_ACCESS"@[0] == 'U');
    reveal_strlit("MULTIPLE_FAILED_LOGINS");
    assert("MULTIPLE_FAILED_LOGINS"@.len() == 22 && "MULTIPLE_FAILED_LOGINS"@[0] == 'M');
    reveal_strlit("UNUSUAL_CONNECTION_RATE");
    assert("UNUSUAL_CONNECTION_RATE"@.len() == 23 && "UNUSUAL_CONNECTION_RATE"@[0] == 'U');
    reveal_strlit("NEW_SERVICE_STARTED");
    assert("NEW_SERVICE_STARTED"@.len() == 19 && "NEW_SERVICE_STARTED"@[0] == 'N');
    reveal_strlit("FIREWALL_CONFIGURATION_CHANGED");
    assert("FIREWALL_CONFIGURATION_CHANGED"@.len() == 30 && "FIREWALL_CONFIGURATION_CHANGED"@[0] == 'F');
    reveal_strlit("PROCESS_STARTED_UNUSUAL_PATH");
    assert("PROCESS_STARTED_UNUSUAL_PATH"@.len() == 28 && "PROCESS_STARTED_UNUSUAL_PATH"@[0] == 'P');
    reveal_strlit("NETWORK_CONFIG_CHANGED");
    assert("NETWORK_CONFIG_CHANGED"@.len() == 22 && "NETWORK_CONFIG_CHANGED"@[0] == 'N');
    reveal_strlit("PORT_SCAN_LIKE_INBOUND");
    assert("PORT_SCAN_LIKE_INBOUND"@.len() == 22 && "PORT_SCAN_LIKE_INBOUND"@[0] == 'P');
    reveal_strlit("BLOCKLISTED_CONNECTION");
    assert("BLOCKLISTED_CONNECTION"@.len() == 22 && "BLOCKLISTED_CONNECTION"@[0] == 'B');
    reveal_strlit("BANDWIDTH_QUOTA_WARNING");
    assert("BANDWIDTH_QUOTA_WARNING"@.len() == 23 && "BANDWIDTH_QUOTA_WARNING"@[0] == 'B');
    reveal_strlit("BANDWIDTH_QUOTA_EXCEEDED");
    assert("BANDWIDTH_QUOTA_EXCEEDED"@.len() == 24 && "BANDWIDTH_QUOTA_EXCEEDED"@[0] == 'B');
    reveal_strlit("SUSPICIOUS_DNS_QUERY");
    assert("SUSPICIOUS_DNS_QUERY"@.len() == 20 && "SUSPICIOUS_DNS_QUERY"@[0] == 'S');
    match r {
        RuleId::NewListeningPort => {},
        RuleId::NewExternalConnection => {},
        RuleId::PortStateChanged => {},
        RuleId::UnknownProcessNetworkAccess => {},
        RuleId::MultipleFailedLogins => {},
        RuleId::UnusualConnectionRate => {},
        RuleId::NewServiceStarted => {},
        RuleId::FirewallConfigurationChanged => {},
        RuleId::ProcessStartedUnusualPath => {},
        RuleId::NetworkConfigChanged => {},
        RuleId::PortScanLikeInbound => {},
        RuleId::BlocklistedConnection => {},
        RuleId::BandwidthQuotaWarning => {},
        RuleId::BandwidthQuotaExceeded => {},
        RuleId::SuspiciousDnsQuery => {},
    }
}

/// Reading back the stored name of a level gives that level.
pub proof fn law_risk_name_roundtrip(r: RiskLevel)
    ensures
        spec_parse_risk(risk_name(r)) == r,
{
    reveal_strlit("INFO");
    assert("INFO"@.len() == 4 && "INFO"@[0] == 'I');
    reveal_strlit("LOW");
    assert("LOW"@.len() == 3 && "LOW"@[0] == 'L');
    reveal_strlit("MEDIUM");
    assert("MEDIUM"@.len() == 6 && "MEDIUM"@[0] == 'M');
    reveal_strlit("HIGH");
    assert("HIGH"@.len() == 4 && "HIGH"@[0] == 'H');
    reveal_strlit("CRITICAL");
    assert("CRITICAL"@.len() == 8 && "CRITICAL"@[0] == 'C');
}

/// The process a finding is attributed to.
#[derive(Clone, Debug)]
pub struct ProcessRef {
    pub name: String,
    pub pid: u32,
    pub path: Option<String>,
}

/// A stored security finding. Times are milliseconds since the Unix epoch;
/// `details` is the finding's JSON detail object, as text.
#[derive(Clone, Debug)]
pub struct SecurityEvent {
    pub event_type: String,
    pub id: String,
    pub rule: RuleId,
    pub risk: RiskLevel,
    pub timestamp: i64,
    pub process: Option<ProcessRef>,
    pub local: Option<String>,
    pub remote: Option<String>,
    pub indicators: Vec<String>,
    pub first_seen: bool,
    pub details: String,
    pub assessment: String,
}

/// The type tag of a security event when none is given.
pub fn default_event_type() -> (s: String)
    ensures
        s@ == "SECURITY_EVENT"@,
{
    String::from_str("SECURITY_EVENT")
}

/// `"<RISK> — <language>"`.
pub open spec fn assessment_text(r: RiskLevel) -> Seq<char> {
    risk_name(r) + " — "@ + risk_language(r)
}

/// The "Why?" summary line of a finding.
pub open spec fn why_text(r: RiskLevel) -> Seq<char> {
    "Suspicious activity detected (heuristic). Assessment: "@ + risk_name(r) + ". "@
        + risk_language(r)
}

pub fn assessment_string(r: RiskLevel) -> (s: String)
    ensures
        s@ == assessment_text(r),
{
    let mut s = String::new();
    append_str(&mut s, r.as_str());
    append_str(&mut s, " — ");
    append_str(&mut s, r.language());
    assert(s@ =~= assessment_text(r));
    s
}

impl SecurityEvent {
    /// Fill the defaults of a decoded event: the type tag when empty, and the
    /// assessment line when empty. Every other field is left as it was.
    pub fn fill_assessment(&mut self)
        ensures
            final(self).event_type@ == (if old(self).event_type@.len() == 0 {
                "SECURITY_EVENT"@
            } else {
                old(self).event_type@
            }),
            final(self).assessment@ == (if old(self).assessment@.len() == 0 {
                assessment_text(old(self).risk)
            } else {
                old(self).assessment@
            }),
            final(self).id == old(self).id,
            final(self).rule == old(self).rule,
            final(self).risk == old(self).risk,
            final(self).timestamp == old(self).timestamp,
            final(self).process == old(self).process,
            final(self).local == old(self).local,
            final(self).remote == old(self).remote,
            final(self).indicators == old(self).indicators,
            final(self).first_seen == old(self).first_seen,
            final(self).details == old(self).details,
    {
        if self.event_type.as_str().unicode_len() == 0 {
            self.event_type = default_event_type();
        }
        if self.assessment.as_str().unicode_len() == 0 {
            self.assessment = assessment_string(self.risk);
        }
    }

    /// "Suspicious activity detected (heuristic). Assessment: <RISK>. <language>"
    pub fn why_summary(&self) -> (s: String)
        ensures
            s@ == why_text(self.risk),
    {
        let mut s = String::new();
        append_str(&mut s, "Suspicious activity detected (heuristic). Assessment: ");
        append_str(&mut s, self.risk.as_str());
        append_str(&mut s, ". ");
        append_str(&mut s, self.risk.language());
        assert(s@ =~= why_text(self.risk));
        s
    }
}

/// One line of the timeline.
#[derive(Clone, Debug)]
pub struct TimelineEntry {
    pub id: String,
    pub timestamp: i64,
    pub kind: String,
    pub risk: RiskLevel,
    pub title: String,
    pub summary: String,
    pub event_id: Option<String>,
}

/// An alert raised for a stored security event.
#[derive(Clone, Debug)]
pub struct Alert {
    pub id: String,
    pub event_id: String,
    pub timestamp: i64,
    pub risk: RiskLevel,
    pub title: String,
    pub acknowledged: bool,
}

/// `"<RULE> (<RISK>)"`, the title of the alert for an event.
pub open spec fn alert_title_text(rule: RuleId, risk: RiskLevel) -> Seq<char> {
    rule_name(rule) + " ("@ + risk_name(risk) + ")"@
}

/// The alert that storing `e` raises; it starts unacknowledged.
pub fn alert_for(e: &SecurityEvent, alert_id: String) -> (a: Alert)
    ensures
        a.id == alert_id,
        a.event_id == e.id,
        a.timestamp == e.timestamp,
        a.risk == e.risk,
        a.title@ == alert_title_text(e.rule, e.risk),
        !a.acknowledged,
{
    let mut t = String::new();
    append_str(&mut t, e.rule.as_str());
    append_str(&mut t, " (");
    append_str(&mut t, e.risk.as_str());
    append_str(&mut t, ")");
    assert(t@ =~= alert_title_text(e.rule, e.risk));
    Alert {
        id: alert_id,
        event_id: e.id.clone(),
        timestamp: e.timestamp,
        risk: e.risk,
        title: t,
        acknowledged: false,
    }
}

/// `"RULE|key"`, the form in which feedback suppressions are keyed.
pub open spec fn suppression_key_text(rule: Seq<char>, key: Seq<char>) -> Seq<char> {
    rule + "|"@ + key
}

pub fn suppression_key(rule: &str, key: &str) -> (s: String)
    ensures
        s@ == suppression_key_text(rule@, key@),
{
    let mut s = String::new();
    append_str(&mut s, rule);
    append_str(&mut s, "|");
    append_str(&mut s, key);
    assert(s@ =~= suppression_key_text(rule@, key@));
    s
}

} // verus!
