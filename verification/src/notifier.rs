//! Desktop notifications for security events: only at or above the
//! configured risk, and at most one per ten seconds.
use vstd::prelude::*;
use crate::events::{risk_name, rule_name, why_text, RiskLevel, SecurityEvent};
use crate::text::{append_str, to_uppercase, uppercase_of};

verus! {

/// Whether a finding of `risk` is notified under the configured minimum
/// (`CRITICAL`, `HIGH` or `MEDIUM`, in any case; anything else notifies all).
pub open spec fn spec_should_alert(min_risk: Seq<char>, risk: RiskLevel) -> bool {
    let m = uppercase_of(min_risk);
    if m == "CRITICAL"@ {
        risk == RiskLevel::Critical
    } else if m == "HIGH"@ {
        risk == RiskLevel::High || risk == RiskLevel::Critical
    } else if m == "MEDIUM"@ {
        risk != RiskLevel::Info && risk != RiskLevel::Low
    } else {
        true
    }
}

/// `"Vigilon Security Alert [<RISK>]"`.
pub open spec fn notice_title(risk: RiskLevel) -> Seq<char> {
    "Vigilon Security Alert ["@ + risk_name(risk) + "]"@
}

/// `"<RULE>: <why summary>"`.
pub open spec fn notice_body(e: SecurityEvent) -> Seq<char> {
    rule_name(e.rule) + ": "@ + why_text(e.risk)
}

pub struct Notifier {
    enabled: bool,
    min_risk: String,
    last_notify: Option<u64>,
}

impl Notifier {
    pub closed spec fn enabled(&self) -> bool {
        self.enabled
    }

    pub closed spec fn min_risk(&self) -> Seq<char> {
        self.min_risk@
    }

    /// Monotonic time (ms) of the last notice shown.
    pub closed spec fn last_notify(&self) -> Option<u64> {
        self.last_notify
    }

    pub fn new(enabled: bool, min_risk: String) -> (r: Self)
        ensures
            r.enabled() == enabled,
            r.min_risk() == min_risk@,
            r.last_notify() is None,
    {
        Notifier { enabled, min_risk, last_notify: None }
    }

    /// The notice to show for `event` at monotonic time `tick`, as
    /// (title, body): when enabled, when the risk reaches the minimum, and
    /// when no notice was shown in the last ten seconds. Showing one
    /// stamps `tick`.
    pub fn notify(&mut self, event: &SecurityEvent, tick: u64) -> (r: Option<(String, String)>)
        ensures
            final(self).enabled() == old(self).enabled(),
            final(self).min_risk() == old(self).min_risk(),
            ({
                let shown = old(self).enabled() && spec_should_alert(old(self).min_risk(), event.risk)
                    && match old(self).last_notify() {
                        Some(prev) => !(tick >= prev && tick - prev < 10000),
                        None => true,
                    };
                &&& shown ==> final(self).last_notify() == Some(tick) && r is Some
                    && r.unwrap().0@ == notice_title(event.risk) && r.unwrap().1@ == notice_body(*event)
                &&& !shown ==> final(self).last_notify() == old(self).last_notify() && r is None
            }),
    {
        if !self.enabled {
            return None;
        }
        let m = to_uppercase(self.min_risk.as_str());
        let should = if crate::text::str_eq(m.as_str(), "CRITICAL") {
            event.risk == RiskLevel::Critical
        } else if crate::text::str_eq(m.as_str(), "HIGH") {
            event.risk == RiskLevel::High || event.risk == RiskLevel::Critical
        } else if crate::text::str_eq(m.as_str(), "MEDIUM") {
            event.risk != RiskLevel::Info && event.risk != RiskLevel::Low
        } else {
            true
        };
        if !should {
            return None;
        }
        match self.last_notify {
            Some(prev) => {
                if tick >= prev && tick - prev < 10000 {
                    return None;
                }
            },
            None => {},
        }
        self.last_notify = Some(tick);
        let mut title = String::new();
        append_str(&mut title, "Vigilon Security Alert [");
        append_str(&mut title, event.risk.as_str());
        append_str(&mut title, "]");
        let mut body = String::new();
        append_str(&mut body, event.rule.as_str());
        append_str(&mut body, ": ");
        let why = event.why_summary();
        append_str(&mut body, why.as_str());
        assert(title@ =~= notice_title(event.risk));
        assert(body@ =~= notice_body(*event));
        Some((title, body))
    }
}


/// A minimum of `MEDIUM`, `HIGH` or `CRITICAL` (in any case) notifies
/// exactly the findings whose risk ranks at or above it; any other
/// minimum notifies every finding.
pub proof fn law_notify_at_or_above_minimum(min_risk: Seq<char>, risk: RiskLevel)
    ensures
        uppercase_of(min_risk) == "MEDIUM"@ ==> (spec_should_alert(min_risk, risk)
            <==> crate::events::risk_rank(risk) >= crate::events::risk_rank(RiskLevel::Medium)),
        uppercase_of(min_risk) == "HIGH"@ ==> (spec_should_alert(min_risk, risk)
            <==> crate::events::risk_rank(risk) >= crate::events::risk_rank(RiskLevel::High)),
        uppercase_of(min_risk) == "CRITICAL"@ ==> (spec_should_alert(min_risk, risk)
            <==> crate::events::risk_rank(risk) >= crate::events::risk_rank(RiskLevel::Critical)),
        uppercase_of(min_risk) != "MEDIUM"@ && uppercase_of(min_risk) != "HIGH"@
            && uppercase_of(min_risk) != "CRITICAL"@ ==> spec_should_alert(min_risk, risk),
{
    reveal_strlit("MEDIUM");
    reveal_strlit("HIGH");
    reveal_strlit("CRITICAL");
    assert("MEDIUM"@.len() == 6 && "HIGH"@.len() == 4 && "CRITICAL"@.len() == 8);
}

} // verus!
