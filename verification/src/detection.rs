//! Heuristic scoring — explain, never accuse.
use vstd::prelude::*;
use crate::events::{RiskLevel, RuleId};

verus! {

/// The risk level a rule carries, given how many indicators (or, for
/// counting rules, how many observations) back it and whether the pattern
/// is seen for the first time.
pub open spec fn spec_score(rule: RuleId, indicator_count: nat, first_seen: bool) -> RiskLevel {
    match rule {
        RuleId::NewListeningPort => if first_seen { RiskLevel::Medium } else { RiskLevel::Low },
        RuleId::NewExternalConnection => if indicator_count >= 3 {
            RiskLevel::Medium
        } else {
            RiskLevel::Low
        },
        RuleId::UnknownProcessNetworkAccess => RiskLevel::High,
        RuleId::MultipleFailedLogins => if indicator_count >= 5 {
            RiskLevel::High
        } else {
            RiskLevel::Medium
        },
        RuleId::UnusualConnectionRate | RuleId::PortScanLikeInbound => if indicator_count >= 50 {
            RiskLevel::Critical
        } else {
            RiskLevel::High
        },
        RuleId::FirewallConfigurationChanged | RuleId::NetworkConfigChanged => RiskLevel::Medium,
        RuleId::NewServiceStarted | RuleId::PortStateChanged => RiskLevel::Low,
        RuleId::ProcessStartedUnusualPath => RiskLevel::Medium,
        RuleId::BlocklistedConnection => RiskLevel::Critical,
        RuleId::BandwidthQuotaWarning | RuleId::SuspiciousDnsQuery => RiskLevel::Medium,
        RuleId::BandwidthQuotaExceeded => RiskLevel::High,
    }
}

pub fn score(rule: &RuleId, indicator_count: usize, first_seen: bool) -> (r: RiskLevel)
    ensures
        r == spec_score(*rule, indicator_count as nat, first_seen),
{
    match rule {
        RuleId::NewListeningPort => {
            if first_seen {
                RiskLevel::Medium
            } else {
                RiskLevel::Low
            }
        },
        RuleId::NewExternalConnection => {
            if indicator_count >= 3 {
                RiskLevel::Medium
            } else {
                RiskLevel::Low
            }
        },
        RuleId::UnknownProcessNetworkAccess => RiskLevel::High,
        RuleId::MultipleFailedLogins => {
            if indicator_count >= 5 {
                RiskLevel::High
            } else {
                RiskLevel::Medium
            }
        },
        RuleId::UnusualConnectionRate | RuleId::PortScanLikeInbound => {
            if indicator_count >= 50 {
                RiskLevel::Critical
            } else {
                RiskLevel::High
            }
        },
        RuleId::FirewallConfigurationChanged | RuleId::NetworkConfigChanged => RiskLevel::Medium,
        RuleId::NewServiceStarted | RuleId::PortStateChanged => RiskLevel::Low,
        RuleId::ProcessStartedUnusualPath => RiskLevel::Medium,
        RuleId::BlocklistedConnection => RiskLevel::Critical,
        RuleId::BandwidthQuotaWarning | RuleId::SuspiciousDnsQuery => RiskLevel::Medium,
        RuleId::BandwidthQuotaExceeded => RiskLevel::High,
    }
}

pub open spec fn phrasing_text(risk: RiskLevel) -> Seq<char> {
    match risk {
        RiskLevel::Info => "Observed and logged."@,
        RiskLevel::Low | RiskLevel::Medium => "Suspicious activity detected — worth a look."@,
        RiskLevel::High | RiskLevel::Critical => "Suspicious activity detected — investigate promptly. This is a heuristic, not a verdict."@,
    }
}

/// The sentence shown with a finding of the given level.
pub fn phrasing(risk: RiskLevel) -> (r: &'static str)
    ensures
        r@ == phrasing_text(risk),
{
    match risk {
        RiskLevel::Info => "Observed and logged.",
        RiskLevel::Low | RiskLevel::Medium => "Suspicious activity detected — worth a look.",
        RiskLevel::High | RiskLevel::Critical => "Suspicious activity detected — investigate promptly. This is a heuristic, not a verdict.",
    }
}

/// Severity never decreases as the counted evidence grows: for a fixed rule
/// and first-seen flag, more indicators never give a lower risk.
pub proof fn law_score_monotone(rule: RuleId, a: nat, b: nat, first_seen: bool)
    requires
        a <= b,
    ensures
        crate::events::risk_rank(spec_score(rule, a, first_seen))
            <= crate::events::risk_rank(spec_score(rule, b, first_seen)),
{
}

/// Only the counting rules reach `CRITICAL` by volume, and a blocklist
/// match is always `CRITICAL`; nothing else ever is.
pub proof fn law_critical_only_by_volume_or_blocklist(rule: RuleId, n: nat, first_seen: bool)
    ensures
        spec_score(rule, n, first_seen) == RiskLevel::Critical <==> (
            rule == RuleId::BlocklistedConnection
            || ((rule == RuleId::UnusualConnectionRate || rule == RuleId::PortScanLikeInbound) && n >= 50)),
{
}

} // verus!
