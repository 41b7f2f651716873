//! The detection engine: baselines, cooldowns and the rules that turn
//! observations into findings.
//!
//! Each `observe_*` call takes one batch of observations and gives back the
//! findings it raises (and, for ports and services, the transitions to
//! record); storing and publishing them is the caller's. Monotonic time is
//! passed in as milliseconds (`tick`), wall-clock time as milliseconds since
//! the Unix epoch (`now`).
use vstd::prelude::*;
use crate::assoc::{assoc_find, assoc_get, assoc_set, StrMap};
use crate::detection::{score, spec_score};
use crate::events::{ProcessRef, RiskLevel, RuleId, rule_name, suppression_key, suppression_key_text};
use crate::blocklist::BlocklistManager;
use crate::metrics::{
    copy_opt, copy_strs, opt_view, strs_view, Connection, DnsQuery, GeoLocation, ListeningPort,
    NetworkInterface, ProcessInfo, ServiceInfo,
};
use crate::netparse::spec_strip_port;
use crate::netparse::{is_external_addr, spec_is_external};
use crate::text::{
    append_str, contains, dec_str, ends_with, lowercase_of, str_contains, str_ends_with, to_lowercase,
    to_uppercase, uppercase_of,
};

verus! {

/// Feedback suppresses `rule` for `key`: the exact `RULE|key` or the
/// wildcard `RULE|*` is among the suppression keys.
pub open spec fn suppressed_for(sup: Seq<Seq<char>>, rule: RuleId, key: Seq<char>) -> bool {
    sup.contains(suppression_key_text(rule_name(rule), key))
        || sup.contains(suppression_key_text(rule_name(rule), "*"@))
}

/// Baselines forget entries unseen for this long (30 days).
pub const BASELINE_TTL_MS: i64 = 2592000000;
/// Caps that keep the baseline tables bounded.
pub const MAX_DESTS: usize = 5000;
pub const MAX_PROCS: usize = 2000;
pub const MAX_PORTS: usize = 2000;
pub const MAX_SERVICES: usize = 1000;
/// The cooldown table is pruned of day-old stamps once it holds more than this.
pub const COOLDOWN_PRUNE_AT: usize = 4096;
pub const DAY_MS: u64 = 86400000;

/// What a finding carries besides its indicators: the detail object.
#[derive(Debug)]
pub enum FindingDetails {
    Path { path: String },
    Port { protocol: String, port: u16 },
    Count { count: u64 },
    ConnState { state: String, protocol: String },
    Blocked { remote_ip: String, remote_port: u16 },
    Service { service: String },
    Firewall { enabled: bool, details: String },
    Dns { dns: Vec<String> },
    Gateway { gateway: Option<String> },
    Query { query: String, record_type: String },
    QuotaExceeded { used_bytes: u64, quota_bytes: u64 },
    QuotaWarning { used_bytes: u64, quota_bytes: u64, warning_pct: u8 },
}

#[verifier::ext_equal]
pub enum DetailsView {
    Path { path: Seq<char> },
    Port { protocol: Seq<char>, port: u16 },
    Count { count: u64 },
    ConnState { state: Seq<char>, protocol: Seq<char> },
    Blocked { remote_ip: Seq<char>, remote_port: u16 },
    Service { service: Seq<char> },
    Firewall { enabled: bool, details: Seq<char> },
    Dns { dns: Seq<Seq<char>> },
    Gateway { gateway: Option<Seq<char>> },
    Query { query: Seq<char>, record_type: Seq<char> },
    QuotaExceeded { used_bytes: u64, quota_bytes: u64 },
    QuotaWarning { used_bytes: u64, quota_bytes: u64, warning_pct: u8 },
}

impl FindingDetails {
    pub open spec fn view(&self) -> DetailsView {
        match self {
            FindingDetails::Path { path } => DetailsView::Path { path: path@ },
            FindingDetails::Port { protocol, port } => DetailsView::Port { protocol: protocol@, port: *port },
            FindingDetails::Count { count } => DetailsView::Count { count: *count },
            FindingDetails::ConnState { state, protocol } => DetailsView::ConnState { state: state@, protocol: protocol@ },
            FindingDetails::Blocked { remote_ip, remote_port } => DetailsView::Blocked { remote_ip: remote_ip@, remote_port: *remote_port },
            FindingDetails::Service { service } => DetailsView::Service { service: service@ },
            FindingDetails::Firewall { enabled, details } => DetailsView::Firewall { enabled: *enabled, details: details@ },
            FindingDetails::Dns { dns } => DetailsView::Dns { dns: strs_view(dns@) },
            FindingDetails::Gateway { gateway } => DetailsView::Gateway { gateway: opt_view(*gateway) },
            FindingDetails::Query { query, record_type } => DetailsView::Query { query: query@, record_type: record_type@ },
            FindingDetails::QuotaExceeded { used_bytes, quota_bytes } => DetailsView::QuotaExceeded { used_bytes: *used_bytes, quota_bytes: *quota_bytes },
            FindingDetails::QuotaWarning { used_bytes, quota_bytes, warning_pct } => DetailsView::QuotaWarning { used_bytes: *used_bytes, quota_bytes: *quota_bytes, warning_pct: *warning_pct },
        }
    }
}

/// The count a finding is scored on: the real count for counting rules,
/// otherwise the number of indicators.
pub open spec fn score_count(d: DetailsView, n_indicators: nat) -> nat {
    match d {
        DetailsView::Count { count } => count as nat,
        _ => n_indicators,
    }
}

/// A finding the engine raises: the rule, its scored risk, the indicators
/// behind it, and the title shown on the timeline.
#[derive(Debug)]
pub struct Finding {
    pub rule: RuleId,
    pub risk: RiskLevel,
    pub indicators: Vec<String>,
    pub process: Option<ProcessRef>,
    pub local: Option<String>,
    pub remote: Option<String>,
    pub first_seen: bool,
    pub details: FindingDetails,
    pub title: String,
}

#[verifier::ext_equal]
pub struct ProcessRefView {
    pub name: Seq<char>,
    pub pid: u32,
    pub path: Option<Seq<char>>,
}

#[verifier::ext_equal]
pub struct FindingView {
    pub rule: RuleId,
    pub risk: RiskLevel,
    pub indicators: Seq<Seq<char>>,
    pub process: Option<ProcessRefView>,
    pub local: Option<Seq<char>>,
    pub remote: Option<Seq<char>>,
    pub first_seen: bool,
    pub details: DetailsView,
    pub title: Seq<char>,
}

pub open spec fn process_ref_view(p: Option<ProcessRef>) -> Option<ProcessRefView> {
    match p {
        Some(r) => Some(ProcessRefView { name: r.name@, pid: r.pid, path: opt_view(r.path) }),
        None => None,
    }
}

impl Finding {
    pub open spec fn view(&self) -> FindingView {
        FindingView {
            rule: self.rule,
            risk: self.risk,
            indicators: strs_view(self.indicators@),
            process: process_ref_view(self.process),
            local: opt_view(self.local),
            remote: opt_view(self.remote),
            first_seen: self.first_seen,
            details: self.details.view(),
            title: self.title@,
        }
    }
}

/// The finding with these parts, scored by `score`.
pub open spec fn finding(
    rule: RuleId,
    indicators: Seq<Seq<char>>,
    process: Option<ProcessRefView>,
    local: Option<Seq<char>>,
    remote: Option<Seq<char>>,
    first_seen: bool,
    details: DetailsView,
    title: Seq<char>,
) -> FindingView {
    FindingView {
        rule,
        risk: spec_score(rule, score_count(details, indicators.len()), first_seen),
        indicators,
        process,
        local,
        remote,
        first_seen,
        details,
        title,
    }
}

pub open spec fn findings_view(v: Seq<Finding>) -> Seq<FindingView> {
    v.map_values(|f: Finding| f.view())
}

/// Build a finding and score it.
pub fn make_finding(
    rule: RuleId,
    indicators: Vec<String>,
    process: Option<ProcessRef>,
    local: Option<String>,
    remote: Option<String>,
    first_seen: bool,
    details: FindingDetails,
    title: String,
) -> (f: Finding)
    ensures
        f.view() == finding(
            rule,
            strs_view(indicators@),
            process_ref_view(process),
            opt_view(local),
            opt_view(remote),
            first_seen,
            details.view(),
            title@,
        ),
{
    let count: usize = match &details {
        FindingDetails::Count { count } => {
            if *count > usize::MAX as u64 { usize::MAX } else { *count as usize }
        },
        _ => indicators.len(),
    };
    let risk = score(&rule, count, first_seen);
    proof {
        // every threshold is far below the saturation point
        assert(spec_score(rule, count as nat, first_seen) == spec_score(
            rule,
            score_count(details.view(), strs_view(indicators@).len()),
            first_seen,
        ));
    }
    Finding { rule, risk, indicators, process, local, remote, first_seen, details, title }
}

/// One-element list of a literal indicator.
pub fn one_indicator(s: &str) -> (v: Vec<String>)
    ensures
        strs_view(v@) == seq![s@],
{
    let mut v: Vec<String> = Vec::new();
    v.push(String::from_str(s));
    assert(strs_view(v@) =~= seq![s@]);
    v
}

pub fn push_indicator(v: &mut Vec<String>, s: &str)
    ensures
        strs_view(final(v)@) == strs_view(old(v)@).push(s@),
{
    v.push(String::from_str(s));
    assert(strs_view(v@) =~= strs_view(old(v)@).push(s@));
}

/// `text + decimal` (such as `"count:25"`).
pub fn labelled_count(label: &str, n: u64) -> (s: String)
    ensures
        s@ == label@ + dec_str(n as nat),
{
    let mut s = String::new();
    append_str(&mut s, label);
    crate::text::append_dec(&mut s, n);
    s
}

/// `host + ":" + port`.
pub open spec fn endpoint_text(host: Seq<char>, port: u16) -> Seq<char> {
    host + ":"@ + dec_str(port as nat)
}

pub fn endpoint(host: &str, port: u16) -> (s: String)
    ensures
        s@ == endpoint_text(host@, port),
{
    let mut s = String::new();
    append_str(&mut s, host);
    append_str(&mut s, ":");
    crate::text::append_dec(&mut s, port as u64);
    assert(s@ =~= endpoint_text(host@, port));
    s
}

/// `Instant::duration_since`: zero when `t` is later than `now`.
pub open spec fn elapsed(now: u64, t: u64) -> u64 {
    if now >= t { (now - t) as u64 } else { 0 }
}

/// Cooldown entries that survive pruning: stamped less than a day ago.
pub open spec fn fresh_cooldowns(s: Seq<(Seq<char>, u64)>, now: u64) -> Seq<(Seq<char>, u64)>
    decreases s.len(),
{
    if s.len() == 0 {
        s
    } else if elapsed(now, s.last().1) < DAY_MS {
        fresh_cooldowns(s.drop_last(), now).push(s.last())
    } else {
        fresh_cooldowns(s.drop_last(), now)
    }
}

/// The cooldown decision: a key may fire unless it fired less than
/// `window` ago; firing stamps it. The table is first pruned of day-old
/// stamps once it holds more than `COOLDOWN_PRUNE_AT` entries.
pub open spec fn spec_allow(cd: Seq<(Seq<char>, u64)>, key: Seq<char>, now: u64, window: u64) -> (Seq<(Seq<char>, u64)>, bool) {
    let pruned = if cd.len() > COOLDOWN_PRUNE_AT { fresh_cooldowns(cd, now) } else { cd };
    match assoc_get(pruned, key) {
        Some(t) => if elapsed(now, t) < window {
            (pruned, false)
        } else {
            (assoc_set(pruned, key, now), true)
        },
        None => (assoc_set(pruned, key, now), true),
    }
}

/// The engine's state, as a value.
#[verifier::ext_equal]
pub struct EngineView {
    pub known_ports: Seq<(Seq<char>, u16, Seq<char>)>,
    pub primed_ports: bool,
    pub seen_process_dest: Seq<(Seq<char>, i64)>,
    pub known_processes: Seq<(Seq<char>, i64)>,
    pub known_services: Seq<Seq<char>>,
    pub primed_services: bool,
    pub last_fw: Option<Seq<char>>,
    pub last_dns: Option<Seq<Seq<char>>>,
    pub last_gw: Option<Option<Seq<char>>>,
    pub inbound_hits: Seq<(Seq<char>, Seq<u64>)>,
    pub scan_targets: Seq<(Seq<char>, Seq<(u64, u16)>)>,
    pub remote_first_seen: Seq<(Seq<char>, i64)>,
    pub cooldowns: Seq<(Seq<char>, u64)>,
    pub suppressed: Seq<Seq<char>>,
    pub last_feedback_sync: Option<u64>,
}

/// A listening socket's identity: protocol, port, address.
#[derive(Debug)]
pub struct PortKey {
    pub proto: String,
    pub port: u16,
    pub addr: String,
}

impl PortKey {
    pub open spec fn view(&self) -> (Seq<char>, u16, Seq<char>) {
        (self.proto@, self.port, self.addr@)
    }

    /// The stored form `proto|port|addr`.
    pub fn encode(&self) -> (r: String)
        ensures
            r@ == port_key_text(self.view()),
    {
        let mut s = String::new();
        append_str(&mut s, self.proto.as_str());
        append_str(&mut s, "|");
        crate::text::append_dec(&mut s, self.port as u64);
        append_str(&mut s, "|");
        append_str(&mut s, self.addr.as_str());
        assert(s@ =~= port_key_text(self.view()));
        s
    }

    /// Read a stored key back: the first three `|`-separated fields, the
    /// second a port number.
    pub fn decode(s: &str) -> (r: Option<PortKey>)
        ensures
            match r {
                Some(k) => spec_decode_port_key(s@) == Some(k.view()),
                None => spec_decode_port_key(s@) is None,
            },
    {
        let v = crate::text::chars_of(s);
        let i1 = crate::text::find_from_exec(&v, '|', 0);
        if i1 >= v.len() {
            return None;
        }
        let i2 = crate::text::find_from_exec(&v, '|', i1 + 1);
        if i2 >= v.len() {
            return None;
        }
        proof {
            crate::text::lemma_find_bounds(v@, '|', i1 + 1);
        }
        let i3 = crate::text::find_from_exec(&v, '|', i2 + 1);
        proof {
            crate::text::lemma_find_bounds(v@, '|', i2 + 1);
        }
        let port_text = crate::text::subvec(&v, i1 + 1, i2);
        match crate::numtext::parse_unsigned_exec(&port_text, false, 65535) {
            Some(p) => {
                let proto = crate::text::string_of(&crate::text::subvec(&v, 0, i1));
                let addr = crate::text::string_of(&crate::text::subvec(&v, i2 + 1, i3));
                Some(PortKey { proto, port: p as u16, addr })
            },
            None => None,
        }
    }
}

/// The stored text of a socket key.
pub open spec fn port_key_text(k: (Seq<char>, u16, Seq<char>)) -> Seq<char> {
    k.0 + "|"@ + dec_str(k.1 as nat) + "|"@ + k.2
}

/// The first three `|`-separated fields of a stored key, the second read
/// as a port number.
pub open spec fn spec_decode_port_key(s: Seq<char>) -> Option<(Seq<char>, u16, Seq<char>)> {
    let i1 = crate::text::find_from(s, '|', 0);
    let i2 = crate::text::find_from(s, '|', i1 + 1);
    let i3 = crate::text::find_from(s, '|', i2 + 1);
    if i1 >= s.len() || i2 >= s.len() {
        None
    } else {
        match crate::numtext::parse_unsigned(s.subrange(i1 + 1, i2), false, 65535) {
            Some(p) => Some((s.subrange(0, i1), p as u16, s.subrange(i2 + 1, i3))),
            None => None,
        }
    }
}

proof fn lemma_find_at(s: Seq<char>, c: char, i: int, j: int)
    requires
        0 <= i <= j <= s.len(),
        j < s.len() ==> s[j] == c,
        forall|k: int| i <= k < j ==> s[k] != c,
    ensures
        crate::text::find_from(s, c, i) == j,
    decreases j - i,
{
    if i < j {
        lemma_find_at(s, c, i + 1, j);
    }
}

/// Stored socket keys read back as written, when neither the protocol nor
/// the address holds a `|`.
pub proof fn law_port_key_roundtrip(k: (Seq<char>, u16, Seq<char>))
    requires
        !k.0.contains('|'),
        !k.2.contains('|'),
    ensures
        spec_decode_port_key(port_key_text(k)) == Some(k),
{
    reveal_strlit("|");
    let s = port_key_text(k);
    let d = dec_str(k.1 as nat);
    crate::numtext::lemma_dec_str_parses(k.1 as nat);
    let a = k.0.len() as int;
    let b = a + 1 + d.len();
    assert forall|x: int| 0 <= x < a implies s[x] != '|' by {
        assert(s[x] == k.0[x]);
    }
    assert(s[a] == '|');
    lemma_find_at(s, '|', 0, a);
    assert forall|x: int| a + 1 <= x < b implies s[x] != '|' by {
        assert(s[x] == d[x - a - 1]);
        assert(crate::netparse::is_digit(d[x - a - 1], false));
    }
    assert(s[b] == '|');
    lemma_find_at(s, '|', a + 1, b);
    assert forall|x: int| b + 1 <= x < s.len() implies s[x] != '|' by {
        assert(s[x] == k.2[x - b - 1]);
    }
    lemma_find_at(s, '|', b + 1, s.len() as int);
    assert(s.subrange(0, a) =~= k.0);
    assert(s.subrange(a + 1, b) =~= d);
    assert(s.subrange(b + 1, s.len() as int) =~= k.2);
    assert(crate::numtext::unsigned_body(d) == d);
}

pub open spec fn port_keys_view(v: Seq<PortKey>) -> Seq<(Seq<char>, u16, Seq<char>)> {
    v.map_values(|k: PortKey| k.view())
}

/// Per-key queues of monotonic stamps.
pub open spec fn queues_view<T>(v: Seq<(String, Vec<T>)>) -> Seq<(Seq<char>, Seq<T>)> {
    v.map_values(|p: (String, Vec<T>)| (p.0@, p.1@))
}

/// The detection engine.
pub struct DetectionEngine {
    known_ports: Vec<PortKey>,
    primed_ports: bool,
    seen_process_dest: StrMap<i64>,
    known_processes: StrMap<i64>,
    known_services: Vec<String>,
    primed_services: bool,
    last_fw: Option<String>,
    last_dns: Option<Vec<String>>,
    last_gw: Option<Option<String>>,
    inbound_hits: Vec<(String, Vec<u64>)>,
    scan_targets: Vec<(String, Vec<(u64, u16)>)>,
    remote_first_seen: StrMap<i64>,
    cooldowns: StrMap<u64>,
    suppressed: Vec<String>,
    last_feedback_sync: Option<u64>,
}

pub open spec fn opt_strs_view(o: Option<Vec<String>>) -> Option<Seq<Seq<char>>> {
    match o {
        Some(v) => Some(strs_view(v@)),
        None => None,
    }
}

pub open spec fn opt_opt_view(o: Option<Option<String>>) -> Option<Option<Seq<char>>> {
    match o {
        Some(g) => Some(opt_view(g)),
        None => None,
    }
}

impl DetectionEngine {
    /// The socket and service inventories hold each item once.
    #[verifier::type_invariant]
    spec fn inventories_distinct(self) -> bool {
        port_keys_view(self.known_ports@).no_duplicates() && strs_view(self.known_services@).no_duplicates()
    }
}

impl DetectionEngine {
    pub closed spec fn view(&self) -> EngineView {
        EngineView {
            known_ports: port_keys_view(self.known_ports@),
            primed_ports: self.primed_ports,
            seen_process_dest: self.seen_process_dest.view(),
            known_processes: self.known_processes.view(),
            known_services: strs_view(self.known_services@),
            primed_services: self.primed_services,
            last_fw: opt_view(self.last_fw),
            last_dns: opt_strs_view(self.last_dns),
            last_gw: opt_opt_view(self.last_gw),
            inbound_hits: queues_view(self.inbound_hits@),
            scan_targets: queues_view(self.scan_targets@),
            remote_first_seen: self.remote_first_seen.view(),
            cooldowns: self.cooldowns.view(),
            suppressed: strs_view(self.suppressed@),
            last_feedback_sync: self.last_feedback_sync,
        }
    }

    /// A fresh engine: no baselines, nothing primed, nothing suppressed.
    pub fn new() -> (r: Self)
        ensures
            r.view() == (EngineView {
                known_ports: Seq::empty(),
                primed_ports: false,
                seen_process_dest: Seq::empty(),
                known_processes: Seq::empty(),
                known_services: Seq::empty(),
                primed_services: false,
                last_fw: None,
                last_dns: None,
                last_gw: None,
                inbound_hits: Seq::empty(),
                scan_targets: Seq::empty(),
                remote_first_seen: Seq::empty(),
                cooldowns: Seq::empty(),
                suppressed: Seq::empty(),
                last_feedback_sync: None,
            }),
    {
        let r = DetectionEngine {
            known_ports: Vec::new(),
            primed_ports: false,
            seen_process_dest: StrMap::new(),
            known_processes: StrMap::new(),
            known_services: Vec::new(),
            primed_services: false,
            last_fw: None,
            last_dns: None,
            last_gw: None,
            inbound_hits: Vec::new(),
            scan_targets: Vec::new(),
            remote_first_seen: StrMap::new(),
            cooldowns: StrMap::new(),
            suppressed: Vec::new(),
            last_feedback_sync: None,
        };
        assert(r.view() =~= EngineView {
            known_ports: Seq::empty(),
            primed_ports: false,
            seen_process_dest: Seq::empty(),
            known_processes: Seq::empty(),
            known_services: Seq::empty(),
            primed_services: false,
            last_fw: None,
            last_dns: None,
            last_gw: None,
            inbound_hits: Seq::empty(),
            scan_targets: Seq::empty(),
            remote_first_seen: Seq::empty(),
            cooldowns: Seq::empty(),
            suppressed: Seq::empty(),
            last_feedback_sync: None,
        });
        r
    }

    /// Whether emission under `key` is allowed now (and, if so, stamp it).
    /// The same key within `window` milliseconds is refused: this is what
    /// stops re-alert storms.
    ///
    /// For a window of at most a day (every window the engine uses): it
    /// refuses exactly when the key was stamped less than `window` before
    /// `now`, and then leaves that stamp as it was; otherwise it stamps the
    /// key `now`, so a second call with the same key less than `window`
    /// later is refused.
    pub fn allow(&mut self, key: &str, now: u64, window: u64) -> (r: bool)
        ensures
            (final(self).view().cooldowns, r) == spec_allow(old(self).view().cooldowns, key@, now, window),
            final(self).view() == (EngineView { cooldowns: final(self).view().cooldowns, ..old(self).view() }),
            window <= DAY_MS ==> (r <==> !cooling_down(old(self).view().cooldowns, key@, now, window)),
            r ==> assoc_get(final(self).view().cooldowns, key@) == Some(now),
            window <= DAY_MS && !r ==> assoc_get(final(self).view().cooldowns, key@)
                == assoc_get(old(self).view().cooldowns, key@),
            window <= DAY_MS && r ==> forall|later: u64| now <= later && later - now < window
                ==> !(#[trigger] spec_allow(final(self).view().cooldowns, key@, later, window)).1,
    {
        proof {
            use_type_invariant(&*self);
        }
        proof {
            use_type_invariant(&self.cooldowns);
            lemma_allow_rule(old(self).view().cooldowns, key@, now, window);
            if window <= DAY_MS && spec_allow(old(self).view().cooldowns, key@, now, window).1 {
                assert forall|later: u64| now <= later && later - now < window
                    implies !(#[trigger] spec_allow(spec_allow(old(self).view().cooldowns, key@, now, window).0,
                        key@, later, window)).1 by {
                    law_cooldown_refuses_repeat(old(self).view().cooldowns, key@, now, later, window);
                }
            }
        }
        if self.cooldowns.len() > COOLDOWN_PRUNE_AT {
            let mut tmp_cd = StrMap::new();
            proof {
                use_type_invariant(&*self);
            }
            std::mem::swap(&mut tmp_cd, &mut self.cooldowns);
            prune_cooldowns(&mut tmp_cd, now);
            self.cooldowns = tmp_cd;
        }
        let r = match self.cooldowns.get(key) {
            Some(t) => {
                if elapsed_exec(now, t) < window {
                    false
                } else {
                    let mut tmp_cooldowns = StrMap::new();
                    proof {
                        use_type_invariant(&*self);
                    }
                    std::mem::swap(&mut tmp_cooldowns, &mut self.cooldowns);
                    tmp_cooldowns.set(String::from_str(key), now);
                    self.cooldowns = tmp_cooldowns;
                    true
                }
            },
            None => {
                let mut tmp_cooldowns = StrMap::new();
                proof {
                    use_type_invariant(&*self);
                }
                std::mem::swap(&mut tmp_cooldowns, &mut self.cooldowns);
                tmp_cooldowns.set(String::from_str(key), now);
                self.cooldowns = tmp_cooldowns;
                true
            },
        };
        assert(self.view() =~= EngineView { cooldowns: self.view().cooldowns, ..old(self).view() });
        r
    }

    /// Whether feedback suppresses `rule` for `key` (exactly, or for every key via `*`).
    pub fn is_suppressed(&self, rule: &RuleId, key: &str) -> (r: bool)
        ensures
            r == suppressed_for(self.view().suppressed, *rule, key@),
    {
        let exact = suppression_key(rule.as_str(), key);
        let any = suppression_key(rule.as_str(), "*");
        contains_str(&self.suppressed, &exact) || contains_str(&self.suppressed, &any)
    }

    /// Whether the suppression set is due for a refresh (at most every 60 s).
    pub fn feedback_sync_due(&self, now: u64) -> (r: bool)
        ensures
            r == match self.view().last_feedback_sync {
                Some(t) => elapsed(now, t) >= 60000,
                None => true,
            },
    {
        match self.last_feedback_sync {
            Some(t) => elapsed_exec(now, t) >= 60000,
            None => true,
        }
    }

    /// Record a refresh attempt at `now`, and the suppression keys it read
    /// (`RULE|key` strings), when the read succeeded.
    pub fn sync_feedback(&mut self, now: u64, keys: Option<Vec<String>>)
        ensures
            final(self).view() == (EngineView {
                last_feedback_sync: Some(now),
                suppressed: match keys {
                    Some(k) => strs_view(k@),
                    None => old(self).view().suppressed,
                },
                ..old(self).view()
            }),
    {
        proof {
            use_type_invariant(&*self);
        }
        self.last_feedback_sync = Some(now);
        match keys {
            Some(k) => {
                self.suppressed = k;
            },
            None => {},
        }
        assert(self.view() =~= EngineView {
            last_feedback_sync: Some(now),
            suppressed: self.view().suppressed,
            ..old(self).view()
        });
    }

    /// Multiple failed logins: four or more in the recent window raise a
    /// finding scored on the real count.
    pub fn observe_auth_failures(&self, n: u32) -> (r: Vec<Finding>)
        ensures
            findings_view(r@) == (if n >= 4 {
                seq![finding(
                    RuleId::MultipleFailedLogins,
                    seq!["failed_login_events:"@ + dec_str(n as nat)],
                    None,
                    None,
                    None,
                    true,
                    DetailsView::Count { count: n as u64 },
                    "Multiple failed logins observed"@,
                )]
            } else {
                Seq::empty()
            }),
    {
        let mut out: Vec<Finding> = Vec::new();
        if n >= 4 {
            let mut ind: Vec<String> = Vec::new();
            ind.push(labelled_count("failed_login_events:", n as u64));
            assert(strs_view(ind@) =~= seq!["failed_login_events:"@ + dec_str(n as nat)]);
            let f = make_finding(
                RuleId::MultipleFailedLogins,
                ind,
                None,
                None,
                None,
                true,
                FindingDetails::Count { count: n as u64 },
                String::from_str("Multiple failed logins observed"),
            );
            out.push(f);
        }
        assert(findings_view(out@) =~= (if n >= 4 {
            seq![finding(
                RuleId::MultipleFailedLogins,
                seq!["failed_login_events:"@ + dec_str(n as nat)],
                None,
                None,
                None,
                true,
                DetailsView::Count { count: n as u64 },
                "Multiple failed logins observed"@,
            )]
        } else {
            Seq::empty()
        }));
        out
    }

    /// Firewall state or profile changed since the last observation.
    pub fn observe_firewall(&mut self, details: &str, enabled: bool) -> (r: Vec<Finding>)
        ensures
            final(self).view() == (EngineView {
                last_fw: Some(firewall_signature(enabled, details@)),
                ..old(self).view()
            }),
            findings_view(r@) == match old(self).view().last_fw {
                Some(prev) => if prev != firewall_signature(enabled, details@) {
                    seq![finding(
                        RuleId::FirewallConfigurationChanged,
                        seq!["firewall_state_or_profile_changed"@],
                        None,
                        None,
                        None,
                        true,
                        DetailsView::Firewall { enabled, details: details@ },
                        "Firewall configuration changed"@,
                    )]
                } else {
                    Seq::empty()
                },
                None => Seq::empty(),
            },
    {
        proof {
            use_type_invariant(&*self);
        }
        let mut sig = String::new();
        append_str(&mut sig, if enabled { "true" } else { "false" });
        append_str(&mut sig, "|");
        append_str(&mut sig, details);
        assert(sig@ =~= firewall_signature(enabled, details@));
        let mut out: Vec<Finding> = Vec::new();
        match &self.last_fw {
            Some(prev) => {
                if *prev != sig {
                    let f = make_finding(
                        RuleId::FirewallConfigurationChanged,
                        one_indicator("firewall_state_or_profile_changed"),
                        None,
                        None,
                        None,
                        true,
                        FindingDetails::Firewall { enabled, details: String::from_str(details) },
                        String::from_str("Firewall configuration changed"),
                    );
                    out.push(f);
                }
            },
            None => {},
        }
        self.last_fw = Some(sig);
        assert(self.view() =~= EngineView {
            last_fw: Some(firewall_signature(enabled, details@)),
            ..old(self).view()
        });
        assert(findings_view(out@) =~= match old(self).view().last_fw {
            Some(prev) => if prev != firewall_signature(enabled, details@) {
                seq![finding(
                    RuleId::FirewallConfigurationChanged,
                    seq!["firewall_state_or_profile_changed"@],
                    None,
                    None,
                    None,
                    true,
                    DetailsView::Firewall { enabled, details: details@ },
                    "Firewall configuration changed"@,
                )]
            } else {
                Seq::empty()
            },
            None => Seq::empty(),
        });
        out
    }

    /// DNS servers or the default gateway changed. The DNS list is every
    /// interface's servers in order; the gateway is the first interface's
    /// that has one. An empty DNS list is not remembered.
    pub fn observe_net_config(&mut self, ifaces: &Vec<NetworkInterface>) -> (r: Vec<Finding>)
        ensures
            ({
                let dns = all_dns(ifaces@);
                let gw = first_gateway(ifaces@);
                &&& final(self).view() == (EngineView {
                    last_dns: if dns.len() > 0 { Some(dns) } else { old(self).view().last_dns },
                    last_gw: Some(gw),
                    ..old(self).view()
                })
                &&& findings_view(r@) == dns_change_findings(old(self).view().last_dns, dns)
                    + gateway_change_findings(old(self).view().last_gw, gw)
            }),
    {
        proof {
            use_type_invariant(&*self);
        }
        let dns = collect_dns(ifaces);
        let gw = find_gateway(ifaces);
        let mut out: Vec<Finding> = Vec::new();
        let changed_dns = match &self.last_dns {
            Some(prev) => !strs_equal(prev, &dns) && dns.len() > 0,
            None => false,
        };
        if changed_dns {
            let f = make_finding(
                RuleId::NetworkConfigChanged,
                one_indicator("dns_servers_changed"),
                None,
                None,
                None,
                true,
                FindingDetails::Dns { dns: copy_strs(&dns) },
                String::from_str("DNS configuration changed"),
            );
            out.push(f);
        }
        let ghost mid = out@;
        let changed_gw = match &self.last_gw {
            Some(prev) => !opt_equal(prev, &gw) && gw.is_some(),
            None => false,
        };
        if changed_gw {
            let f = make_finding(
                RuleId::NetworkConfigChanged,
                one_indicator("default_gateway_changed"),
                None,
                None,
                None,
                true,
                FindingDetails::Gateway { gateway: copy_opt(&gw) },
                String::from_str("Gateway configuration changed"),
            );
            out.push(f);
        }
        assert(findings_view(out@) =~= dns_change_findings(old(self).view().last_dns, strs_view(dns@))
            + gateway_change_findings(old(self).view().last_gw, opt_view(gw)));
        if dns.len() > 0 {
            self.last_dns = Some(dns);
        }
        self.last_gw = Some(gw);
        assert(self.view() =~= EngineView {
            last_dns: if all_dns(ifaces@).len() > 0 { Some(all_dns(ifaces@)) } else { old(self).view().last_dns },
            last_gw: Some(first_gateway(ifaces@)),
            ..old(self).view()
        });
        out
    }
}

pub open spec fn firewall_signature(enabled: bool, details: Seq<char>) -> Seq<char> {
    (if enabled { "true"@ } else { "false"@ }) + "|"@ + details
}

pub open spec fn all_dns(ifaces: Seq<NetworkInterface>) -> Seq<Seq<char>>
    decreases ifaces.len(),
{
    if ifaces.len() == 0 {
        Seq::empty()
    } else {
        all_dns(ifaces.drop_last()) + strs_view(ifaces.last().dns@)
    }
}

pub open spec fn first_gateway_from(ifaces: Seq<NetworkInterface>, i: int) -> Option<Seq<char>>
    decreases ifaces.len() - i,
{
    if i < 0 || i >= ifaces.len() {
        None
    } else if ifaces[i].gateway is Some {
        opt_view(ifaces[i].gateway)
    } else {
        first_gateway_from(ifaces, i + 1)
    }
}

pub open spec fn first_gateway(ifaces: Seq<NetworkInterface>) -> Option<Seq<char>> {
    first_gateway_from(ifaces, 0)
}

pub open spec fn dns_change_findings(prev: Option<Seq<Seq<char>>>, dns: Seq<Seq<char>>) -> Seq<FindingView> {
    match prev {
        Some(p) => if p != dns && dns.len() > 0 {
            seq![finding(
                RuleId::NetworkConfigChanged,
                seq!["dns_servers_changed"@],
                None,
                None,
                None,
                true,
                DetailsView::Dns { dns },
                "DNS configuration changed"@,
            )]
        } else {
            Seq::empty()
        },
        None => Seq::empty(),
    }
}

pub open spec fn gateway_change_findings(prev: Option<Option<Seq<char>>>, gw: Option<Seq<char>>) -> Seq<FindingView> {
    match prev {
        Some(p) => if p != gw && gw is Some {
            seq![finding(
                RuleId::NetworkConfigChanged,
                seq!["default_gateway_changed"@],
                None,
                None,
                None,
                true,
                DetailsView::Gateway { gateway: gw },
                "Gateway configuration changed"@,
            )]
        } else {
            Seq::empty()
        },
        None => Seq::empty(),
    }
}

fn collect_dns(ifaces: &Vec<NetworkInterface>) -> (r: Vec<String>)
    ensures
        strs_view(r@) == all_dns(ifaces@),
{
    let mut out: Vec<String> = Vec::new();
    let mut i: usize = 0;
    while i < ifaces.len()
        invariant
            i <= ifaces.len(),
            strs_view(out@) == all_dns(ifaces@.subrange(0, i as int)),
        decreases ifaces.len() - i,
    {
        let ghost before = out@;
        let mut k: usize = 0;
        while k < ifaces[i].dns.len()
            invariant
                i < ifaces.len(),
                k <= ifaces[i as int].dns.len(),
                strs_view(out@) == strs_view(before) + strs_view(ifaces[i as int].dns@.subrange(0, k as int)),
            decreases ifaces[i as int].dns.len() - k,
        {
            let x = ifaces[i].dns[k].clone();
            let ghost prev = out@;
            out.push(x);
            proof {
                let d = ifaces[i as int].dns@;
                assert(d.subrange(0, k + 1) =~= d.subrange(0, k as int).push(d[k as int]));
                assert(strs_view(d.subrange(0, k + 1)) =~= strs_view(d.subrange(0, k as int)).push(d[k as int]@));
                assert(strs_view(out@) =~= strs_view(prev).push(d[k as int]@));
            }
            k = k + 1;
        }
        assert(ifaces[i as int].dns@.subrange(0, k as int) =~= ifaces[i as int].dns@);
        assert(ifaces@.subrange(0, i + 1).drop_last() =~= ifaces@.subrange(0, i as int));
        i = i + 1;
    }
    assert(ifaces@.subrange(0, ifaces.len() as int) =~= ifaces@);
    out
}

pub fn find_gateway(ifaces: &Vec<NetworkInterface>) -> (r: Option<String>)
    ensures
        opt_view(r) == first_gateway(ifaces@),
{
    let mut i: usize = 0;
    while i < ifaces.len()
        invariant
            i <= ifaces.len(),
            first_gateway_from(ifaces@, i as int) == first_gateway(ifaces@),
        decreases ifaces.len() - i,
    {
        if ifaces[i].gateway.is_some() {
            return copy_opt(&ifaces[i].gateway);
        }
        i = i + 1;
    }
    None
}

pub fn strs_equal(a: &Vec<String>, b: &Vec<String>) -> (r: bool)
    ensures
        r == (strs_view(a@) == strs_view(b@)),
{
    if a.len() != b.len() {
        assert(strs_view(a@).len() != strs_view(b@).len());
        return false;
    }
    let mut i: usize = 0;
    while i < a.len()
        invariant
            a.len() == b.len(),
            i <= a.len(),
            forall|j: int| 0 <= j < i ==> a@[j]@ == b@[j]@,
        decreases a.len() - i,
    {
        if a[i] != b[i] {
            assert(strs_view(a@)[i as int] != strs_view(b@)[i as int]);
            return false;
        }
        i = i + 1;
    }
    assert(strs_view(a@) =~= strs_view(b@));
    true
}

pub fn opt_equal(a: &Option<String>, b: &Option<String>) -> (r: bool)
    ensures
        r == (opt_view(*a) == opt_view(*b)),
{
    match (a, b) {
        (Some(x), Some(y)) => *x == *y,
        (None, None) => true,
        _ => false,
    }
}

fn elapsed_exec(now: u64, t: u64) -> (r: u64)
    ensures
        r == elapsed(now, t),
{
    if now >= t { now - t } else { 0 }
}

/// Keep the cooldown stamps younger than a day, in order.
fn prune_cooldowns(cd: &mut StrMap<u64>, now: u64)
    ensures
        final(cd).view() == fresh_cooldowns(old(cd).view(), now),
{
    proof {
        use_type_invariant(&*cd);
        lemma_fresh_unique(cd.view(), now);
    }
    let mut out: Vec<(String, u64)> = Vec::new();
    let mut i: usize = 0;
    while i < cd.items.len()
        invariant
            i <= cd.items.len(),
            cd.view() == old(cd).view(),
            crate::assoc::pairs_view(out@) == fresh_cooldowns(cd.view().subrange(0, i as int), now),
        decreases cd.items.len() - i,
    {
        assert(cd.view().subrange(0, i + 1).drop_last() =~= cd.view().subrange(0, i as int));
        if elapsed_exec(now, cd.items[i].1) < DAY_MS {
            let k = cd.items[i].0.clone();
            let t = cd.items[i].1;
            out.push((k, t));
            assert(crate::assoc::pairs_view(out@) =~= fresh_cooldowns(cd.view().subrange(0, i as int), now).push(cd.view()[i as int]));
        }
        i = i + 1;
    }
    assert(cd.view().subrange(0, cd.items.len() as int) =~= cd.view());
    *cd = StrMap::from_items(out);
}

/// Pruning keeps a subsequence: each kept entry is an entry of the table.
proof fn lemma_fresh_sub(s: Seq<(Seq<char>, u64)>, now: u64)
    ensures
        forall|i: int| 0 <= i < fresh_cooldowns(s, now).len() ==> s.contains(#[trigger] fresh_cooldowns(s, now)[i]),
    decreases s.len(),
{
    if s.len() > 0 {
        lemma_fresh_sub(s.drop_last(), now);
        let f = fresh_cooldowns(s.drop_last(), now);
        assert forall|i: int| 0 <= i < fresh_cooldowns(s, now).len() implies s.contains(#[trigger] fresh_cooldowns(s, now)[i]) by {
            if i < f.len() {
                assert(fresh_cooldowns(s, now)[i] == f[i]);
                assert(s.drop_last().contains(f[i]));
                let j = choose|j: int| 0 <= j < s.drop_last().len() && s.drop_last()[j] == f[i];
                assert(s[j] == f[i]);
            } else {
                assert(fresh_cooldowns(s, now)[i] == s[s.len() - 1]);
            }
        }
    }
}

/// Pruning keeps keys distinct.
proof fn lemma_fresh_unique(s: Seq<(Seq<char>, u64)>, now: u64)
    requires
        crate::assoc::unique_keys(s),
    ensures
        crate::assoc::unique_keys(fresh_cooldowns(s, now)),
    decreases s.len(),
{
    if s.len() > 0 {
        let q = s.drop_last();
        assert(crate::assoc::unique_keys(q)) by {
            assert forall|a: int, b: int| 0 <= a < b < q.len() implies q[a].0 != q[b].0 by {
                assert(q[a] == s[a] && q[b] == s[b]);
            }
        }
        lemma_fresh_unique(q, now);
        lemma_fresh_sub(q, now);
        let f = fresh_cooldowns(q, now);
        if elapsed(now, s.last().1) < DAY_MS {
            let g = f.push(s.last());
            assert forall|a: int, b: int| 0 <= a < b < g.len() implies g[a].0 != g[b].0 by {
                if b == f.len() {
                    assert(q.contains(f[a]));
                    let j = choose|j: int| 0 <= j < q.len() && q[j] == f[a];
                    assert(s[j].0 != s[s.len() - 1].0);
                } else {
                    assert(g[a] == f[a] && g[b] == f[b]);
                }
            }
        }
    }
}

/// Whether `v` holds a text equal to `s`.
pub fn contains_str(v: &Vec<String>, s: &String) -> (r: bool)
    ensures
        r == strs_view(v@).contains(s@),
{
    let mut i: usize = 0;
    while i < v.len()
        invariant
            i <= v.len(),
            forall|j: int| 0 <= j < i ==> v@[j]@ != s@,
        decreases v.len() - i,
    {
        if v[i] == *s {
            assert(strs_view(v@)[i as int] == s@);
            return true;
        }
        i = i + 1;
    }
    false
}

proof fn lemma_fresh_none(s: Seq<(Seq<char>, u64)>, k: Seq<char>, now: u64)
    requires
        assoc_get(s, k) is None,
    ensures
        assoc_get(fresh_cooldowns(s, now), k) is None,
    decreases s.len(),
{
    if s.len() > 0 {
        crate::assoc::lemma_assoc_drop_last(s, k);
        lemma_fresh_none(s.drop_last(), k, now);
        if elapsed(now, s.last().1) < DAY_MS {
            crate::assoc::lemma_assoc_push_other(fresh_cooldowns(s.drop_last(), now), s.last(), k);
        }
    }
}

/// Pruning keeps every stamp younger than a day, so lookups of such stamps
/// are unchanged.
proof fn lemma_fresh_keeps(s: Seq<(Seq<char>, u64)>, k: Seq<char>, now: u64)
    requires
        assoc_get(s, k) is Some,
        elapsed(now, assoc_get(s, k).unwrap()) < DAY_MS,
    ensures
        assoc_get(fresh_cooldowns(s, now), k) == assoc_get(s, k),
    decreases s.len(),
{
    crate::assoc::lemma_assoc_drop_last(s, k);
    let t = s.drop_last();
    let x = s.last();
    let ft = fresh_cooldowns(t, now);
    if assoc_get(t, k) is Some {
        lemma_fresh_keeps(t, k, now);
        if elapsed(now, x.1) < DAY_MS {
            crate::assoc::lemma_assoc_push_found(ft, x, k);
        }
    } else {
        lemma_fresh_none(t, k, now);
        crate::assoc::lemma_assoc_push_new(ft, x, k);
    }
}

/// Cooldown: once a key has fired at `t1`, the same key is refused at any
/// later `t2` less than `window` after it (for windows up to a day, which
/// covers every window the engine uses).
pub proof fn law_cooldown_refuses_repeat(
    cd: Seq<(Seq<char>, u64)>,
    key: Seq<char>,
    t1: u64,
    t2: u64,
    window: u64,
)
    requires
        spec_allow(cd, key, t1, window).1,
        t1 <= t2,
        t2 - t1 < window,
        window <= DAY_MS,
    ensures
        !spec_allow(spec_allow(cd, key, t1, window).0, key, t2, window).1,
{
    let pruned = if cd.len() > COOLDOWN_PRUNE_AT { fresh_cooldowns(cd, t1) } else { cd };
    let cd1 = assoc_set(pruned, key, t1);
    crate::assoc::lemma_assoc_set_get(pruned, key, t1);
    assert(spec_allow(cd, key, t1, window).0 == cd1);
    if cd1.len() > COOLDOWN_PRUNE_AT {
        lemma_fresh_keeps(cd1, key, t2);
    }
}

/// Appending an item not yet present keeps a sequence free of repeats.
proof fn lemma_push_distinct<A>(s: Seq<A>, x: A)
    requires
        s.no_duplicates(),
        !s.contains(x),
    ensures
        s.push(x).no_duplicates(),
{
    let t = s.push(x);
    assert forall|i: int, j: int| 0 <= i < t.len() && 0 <= j < t.len() && i != j implies t[i] != t[j] by {
        if i == s.len() as int {
            assert(s[j] == t[j]);
        } else if j == s.len() as int {
            assert(s[i] == t[i]);
        } else {
            assert(s[i] == t[i] && s[j] == t[j]);
        }
    }
}

/// The socket keys of a batch are listed once each.
proof fn lemma_keys_dedup_distinct(ports: Seq<ListeningPort>)
    ensures
        keys_dedup(ports).no_duplicates(),
    decreases ports.len(),
{
    if ports.len() > 0 {
        lemma_keys_dedup_distinct(ports.drop_last());
        let k = keys_dedup(ports.drop_last());
        if !k.contains(port_key_of(ports.last())) {
            lemma_push_distinct(k, port_key_of(ports.last()));
        }
    }
}

/// Running service names are listed once each.
proof fn lemma_running_names_distinct(svcs: Seq<ServiceInfo>)
    ensures
        running_names(svcs).no_duplicates(),
    decreases svcs.len(),
{
    if svcs.len() > 0 {
        lemma_running_names_distinct(svcs.drop_last());
        let prev = running_names(svcs.drop_last());
        let x = svcs.last();
        if x.status@ == "running"@ && !prev.contains(x.name@) {
            lemma_push_distinct(prev, x.name@);
        }
    }
}

/// Decoded socket keys are listed once each.
proof fn lemma_decoded_keys_distinct(entries: Seq<(Seq<char>, i64)>)
    ensures
        decoded_port_keys(entries).no_duplicates(),
    decreases entries.len(),
{
    if entries.len() > 0 {
        lemma_decoded_keys_distinct(entries.drop_last());
        let prev = decoded_port_keys(entries.drop_last());
        match spec_decode_port_key(entries.last().0) {
            Some(k) => if !prev.contains(k) {
                lemma_push_distinct(prev, k);
            },
            None => {},
        }
    }
}

/// The keys of a table with distinct keys are distinct.
proof fn lemma_map_keys_distinct(m: Seq<(Seq<char>, i64)>)
    requires
        crate::assoc::unique_keys(m),
    ensures
        map_keys(m).no_duplicates(),
{
    let k = map_keys(m);
    assert forall|i: int, j: int| 0 <= i < k.len() && 0 <= j < k.len() && i != j implies k[i] != k[j] by {
        if i < j {
            assert(m[i].0 != m[j].0);
        } else {
            assert(m[j].0 != m[i].0);
        }
    }
}

/// Firewall observations are told apart by both the enabled flag and the
/// details: two observations remember the same signature exactly when
/// they are the same, so any change of either is reported.
pub proof fn law_firewall_signature_distinguishes(e1: bool, d1: Seq<char>, e2: bool, d2: Seq<char>)
    ensures
        firewall_signature(e1, d1) == firewall_signature(e2, d2) <==> (e1 == e2 && d1 == d2),
{
    reveal_strlit("true");
    reveal_strlit("false");
    reveal_strlit("|");
    let a = firewall_signature(e1, d1);
    let b = firewall_signature(e2, d2);
    if e1 != e2 {
        assert(a[0] != b[0]);
    } else if d1 != d2 {
        let n: int = if e1 { 5 } else { 6 };
        assert(a.len() == n + d1.len() && b.len() == n + d2.len());
        if a == b {
            assert(d1 =~= a.subrange(n, a.len() as int));
            assert(d2 =~= b.subrange(n, b.len() as int));
        }
    }
}

/// A query whose lowercase name ends in `.tk`, `.xyz`, `.top`, `.cc`,
/// `.buzz` or `.work`, not suppressed by feedback and not reported for
/// that name within the last hour, raises one suspicious-query finding
/// naming it.
pub proof fn law_suspicious_suffix_reported(s: EngineView, q: DnsQuery, blocked: Set<Seq<char>>, tick: u64)
    requires
        ({
            let n = lowercase_of(q.query_name@);
            ends_with(n, ".tk"@) || ends_with(n, ".xyz"@) || ends_with(n, ".top"@) || ends_with(n, ".cc"@)
                || ends_with(n, ".buzz"@) || ends_with(n, ".work"@)
        }),
        !suppressed_for(s.suppressed, RuleId::SuspiciousDnsQuery, lowercase_of(q.query_name@)),
        !cooling_down(s.cooldowns, "dns|"@ + lowercase_of(q.query_name@), tick, 3600000),
        crate::assoc::unique_keys(s.cooldowns) || assoc_get(s.cooldowns, "dns|"@ + lowercase_of(q.query_name@)) is None,
    ensures
        dns_fold(s, seq![q], blocked, tick).1.len() == 1,
        dns_fold(s, seq![q], blocked, tick).1[0].rule == RuleId::SuspiciousDnsQuery,
        dns_fold(s, seq![q], blocked, tick).1[0].title == "Query to suspicious domain "@ + q.query_name@,
{
    let key = "dns|"@ + lowercase_of(q.query_name@);
    assert(seq![q].drop_last() =~= Seq::<DnsQuery>::empty());
    assert(seq![q].last() == q);
    if crate::assoc::unique_keys(s.cooldowns) {
        lemma_allow_rule(s.cooldowns, key, tick, 3600000);
    } else {
        let pruned = if s.cooldowns.len() > COOLDOWN_PRUNE_AT { fresh_cooldowns(s.cooldowns, tick) } else { s.cooldowns };
        if s.cooldowns.len() > COOLDOWN_PRUNE_AT {
            lemma_fresh_none(s.cooldowns, key, tick);
        }
        assert(assoc_get(pruned, key) is None);
    }
    assert(dns_fold(s, Seq::empty(), blocked, tick) == (s, Seq::<FindingView>::empty()));
    assert(dns_fold(s, seq![q], blocked, tick).1 =~= dns_step(s, q, blocked, tick).1);
}

/// `key` was stamped less than `window` before `now`.
pub open spec fn cooling_down(cd: Seq<(Seq<char>, u64)>, key: Seq<char>, now: u64, window: u64) -> bool {
    match assoc_get(cd, key) {
        Some(t) => elapsed(now, t) < window,
        None => false,
    }
}

/// The cooldown rule on a table with distinct keys.
proof fn lemma_allow_rule(cd: Seq<(Seq<char>, u64)>, key: Seq<char>, now: u64, window: u64)
    requires
        crate::assoc::unique_keys(cd),
    ensures
        window <= DAY_MS ==> (spec_allow(cd, key, now, window).1 <==> !cooling_down(cd, key, now, window)),
        spec_allow(cd, key, now, window).1 ==> assoc_get(spec_allow(cd, key, now, window).0, key) == Some(now),
        window <= DAY_MS && !spec_allow(cd, key, now, window).1
            ==> assoc_get(spec_allow(cd, key, now, window).0, key) == assoc_get(cd, key),
{
    let pruned = if cd.len() > COOLDOWN_PRUNE_AT { fresh_cooldowns(cd, now) } else { cd };
    crate::assoc::lemma_assoc_set_get(pruned, key, now);
    if window <= DAY_MS {
        if cooling_down(cd, key, now, window) {
            if cd.len() > COOLDOWN_PRUNE_AT {
                lemma_fresh_keeps(cd, key, now);
            }
        } else {
            law_cooldown_allows_after_window(cd, key, now, window);
        }
    }
}

/// Cooldown: a key that has not fired within `window` is allowed.
pub proof fn law_cooldown_allows_after_window(
    cd: Seq<(Seq<char>, u64)>,
    key: Seq<char>,
    now: u64,
    window: u64,
)
    requires
        match assoc_get(cd, key) {
            Some(t) => elapsed(now, t) >= window,
            None => true,
        },
        window <= DAY_MS,
        crate::assoc::unique_keys(cd),
    ensures
        spec_allow(cd, key, now, window).1,
{
    if cd.len() > COOLDOWN_PRUNE_AT {
        match assoc_get(cd, key) {
            Some(t) => {
                if elapsed(now, t) < DAY_MS {
                    lemma_fresh_keeps(cd, key, now);
                } else {
                    lemma_fresh_agrees(cd, key, now);
                }
            },
            None => {
                lemma_fresh_none(cd, key, now);
            },
        }
    }
}

/// With unique keys, whatever a lookup finds after pruning is what it
/// found before, and it is younger than a day.
proof fn lemma_fresh_agrees(s: Seq<(Seq<char>, u64)>, k: Seq<char>, now: u64)
    requires
        crate::assoc::unique_keys(s),
    ensures
        assoc_get(fresh_cooldowns(s, now), k) is Some ==> (
            assoc_get(fresh_cooldowns(s, now), k) == assoc_get(s, k)
            && elapsed(now, assoc_get(s, k).unwrap()) < DAY_MS),
    decreases s.len(),
{
    if s.len() > 0 {
        let t = s.drop_last();
        let x = s.last();
        assert(crate::assoc::unique_keys(t));
        lemma_fresh_agrees(t, k, now);
        crate::assoc::lemma_assoc_drop_last(s, k);
        let ft = fresh_cooldowns(t, now);
        if elapsed(now, x.1) < DAY_MS {
            if assoc_get(ft, k) is Some {
                crate::assoc::lemma_assoc_push_found(ft, x, k);
            } else if x.0 == k {
                crate::assoc::lemma_assoc_push_new(ft, x, k);
                crate::assoc::lemma_assoc_find_bounds(t, k, 0);
                if assoc_get(t, k) is Some {
                    let i = crate::assoc::assoc_find(t, k);
                    assert(s[i].0 == s[s.len() - 1].0);
                }
            } else {
                crate::assoc::lemma_assoc_push_other(ft, x, k);
            }
        }
    }
}

/// A path under a temp or downloads folder, compared in lowercase.
pub open spec fn spec_unusual_path(path: Seq<char>) -> bool {
    let p = lowercase_of(path);
    contains(p, "\\temp\\"@) || contains(p, "/tmp/"@) || contains(p, "downloads"@)
        || contains(p, "appdata\\local\\temp"@)
}

/// Whether an executable path lies somewhere unusual for software to run from.
pub fn unusual_path(path: &str) -> (r: bool)
    ensures
        r == spec_unusual_path(path@),
{
    let p = to_lowercase(path);
    str_contains(p.as_str(), "\\temp\\") || str_contains(p.as_str(), "/tmp/")
        || str_contains(p.as_str(), "downloads") || str_contains(p.as_str(), "appdata\\local\\temp")
}

/// `a` followed by `b`.
pub fn concat(a: &str, b: &str) -> (s: String)
    ensures
        s@ == a@ + b@,
{
    let mut s = String::new();
    append_str(&mut s, a);
    append_str(&mut s, b);
    assert(s@ =~= a@ + b@);
    s
}

/// The finding for a process newly seen running from an unusual path.
pub open spec fn unusual_process_finding(p: ProcessInfo) -> FindingView {
    finding(
        RuleId::ProcessStartedUnusualPath,
        seq!["new_process"@, "started_from_unusual_path"@],
        Some(ProcessRefView { name: p.name@, pid: p.pid, path: opt_view(p.path) }),
        None,
        None,
        true,
        DetailsView::Path { path: p.path.unwrap()@ },
        "Process started from unusual path: "@ + p.name@,
    )
}

/// The process inventory after a batch (each lowercase name stamped
/// `now`), and the findings: once the inventory was non-empty before the
/// batch, a name not yet in it whose path is unusual.
pub open spec fn procs_fold(
    kp: Seq<(Seq<char>, i64)>,
    procs: Seq<ProcessInfo>,
    primed: bool,
    now: i64,
) -> (Seq<(Seq<char>, i64)>, Seq<FindingView>)
    decreases procs.len(),
{
    if procs.len() == 0 {
        (kp, Seq::empty())
    } else {
        let prev = procs_fold(kp, procs.drop_last(), primed, now);
        let p = procs.last();
        let key = lowercase_of(p.name@);
        let raise = primed && assoc_get(prev.0, key) is None && p.path is Some
            && spec_unusual_path(p.path.unwrap()@);
        (
            assoc_set(prev.0, key, now),
            if raise { prev.1.push(unusual_process_finding(p)) } else { prev.1 },
        )
    }
}

pub open spec fn port_key_of(p: ListeningPort) -> (Seq<char>, u16, Seq<char>) {
    (p.protocol@, p.port, p.address@)
}

/// The distinct socket keys of a batch, in order of first appearance.
pub open spec fn keys_dedup(ports: Seq<ListeningPort>) -> Seq<(Seq<char>, u16, Seq<char>)>
    decreases ports.len(),
{
    if ports.len() == 0 {
        Seq::empty()
    } else {
        let k = keys_dedup(ports.drop_last());
        let x = port_key_of(ports.last());
        if k.contains(x) { k } else { k.push(x) }
    }
}

/// A port transition as plain values: opened or closed, protocol, address,
/// port, and the owning process when resolved (pid, name, path).
pub type TransitionView = (bool, Seq<char>, Seq<char>, u16, Option<u32>, Option<Seq<char>>, Option<Seq<char>>);

pub open spec fn opened_finding(p: ListeningPort) -> FindingView {
    finding(
        RuleId::NewListeningPort,
        if p.process_name is None {
            seq!["listening_port_appeared"@, "no_owning_process_resolved"@]
        } else {
            seq!["listening_port_appeared"@]
        },
        match p.process_name {
            Some(n) => Some(ProcessRefView {
                name: n@,
                pid: match p.pid { Some(x) => x, None => 0 },
                path: opt_view(p.process_path),
            }),
            None => None,
        },
        Some(endpoint_text(p.address@, p.port)),
        None,
        true,
        DetailsView::Port { protocol: p.protocol@, port: p.port },
        "New listening port "@ + dec_str(p.port as nat) + "/"@ + p.protocol@,
    )
}

pub open spec fn closed_finding(k: (Seq<char>, u16, Seq<char>)) -> FindingView {
    finding(
        RuleId::PortStateChanged,
        seq!["listening_port_closed"@],
        None,
        Some(endpoint_text(k.2, k.1)),
        None,
        false,
        DetailsView::Port { protocol: k.0, port: k.1 },
        "Listening port "@ + dec_str(k.1 as nat) + " closed"@,
    )
}

/// Sockets of the batch not in the known set, in batch order (repeats included).
pub open spec fn opened_ports(known: Seq<(Seq<char>, u16, Seq<char>)>, ports: Seq<ListeningPort>) -> Seq<ListeningPort>
    decreases ports.len(),
{
    if ports.len() == 0 {
        Seq::empty()
    } else {
        let prev = opened_ports(known, ports.drop_last());
        if known.contains(port_key_of(ports.last())) { prev } else { prev.push(ports.last()) }
    }
}

/// Known sockets missing from the current set, in known order.
pub open spec fn closed_keys(
    known: Seq<(Seq<char>, u16, Seq<char>)>,
    current: Seq<(Seq<char>, u16, Seq<char>)>,
) -> Seq<(Seq<char>, u16, Seq<char>)>
    decreases known.len(),
{
    if known.len() == 0 {
        Seq::empty()
    } else {
        let prev = closed_keys(known.drop_last(), current);
        if current.contains(known.last()) { prev } else { prev.push(known.last()) }
    }
}

pub open spec fn opened_transition(p: ListeningPort) -> TransitionView {
    (true, p.protocol@, p.address@, p.port, p.pid, opt_view(p.process_name), opt_view(p.process_path))
}

pub open spec fn closed_transition(k: (Seq<char>, u16, Seq<char>)) -> TransitionView {
    (false, k.0, k.2, k.1, None, None, None)
}

/// A socket that opened or closed between two observations.
#[derive(Debug)]
pub struct PortTransition {
    pub opened: bool,
    pub port: ListeningPort,
}

impl PortTransition {
    pub open spec fn view(&self) -> TransitionView {
        (
            self.opened,
            self.port.protocol@,
            self.port.address@,
            self.port.port,
            self.port.pid,
            opt_view(self.port.process_name),
            opt_view(self.port.process_path),
        )
    }

    /// The stored name of the transition.
    pub fn kind(&self) -> (r: &'static str)
        ensures
            r@ == (if self.opened { "PORT_OPENED"@ } else { "PORT_CLOSED"@ }),
    {
        if self.opened { "PORT_OPENED" } else { "PORT_CLOSED" }
    }
}

pub open spec fn transitions_view(v: Seq<PortTransition>) -> Seq<TransitionView> {
    v.map_values(|t: PortTransition| t.view())
}

fn copy_port(p: &ListeningPort) -> (r: ListeningPort)
    ensures
        port_key_of(r) == port_key_of(*p),
        r.pid == p.pid,
        opt_view(r.process_name) == opt_view(p.process_name),
        opt_view(r.process_path) == opt_view(p.process_path),
{
    ListeningPort {
        protocol: p.protocol.clone(),
        address: p.address.clone(),
        port: p.port,
        pid: p.pid,
        process_name: copy_opt(&p.process_name),
        process_path: copy_opt(&p.process_path),
    }
}

fn port_keys_contain(v: &Vec<PortKey>, proto: &str, port: u16, addr: &str) -> (r: bool)
    ensures
        r == port_keys_view(v@).contains((proto@, port, addr@)),
{
    let mut i: usize = 0;
    while i < v.len()
        invariant
            i <= v.len(),
            forall|j: int| 0 <= j < i ==> port_keys_view(v@)[j] != (proto@, port, addr@),
        decreases v.len() - i,
    {
        if v[i].port == port && crate::text::str_eq(v[i].proto.as_str(), proto)
            && crate::text::str_eq(v[i].addr.as_str(), addr) {
            assert(port_keys_view(v@)[i as int] == (proto@, port, addr@));
            return true;
        }
        i = i + 1;
    }
    false
}

fn make_opened_finding(p: &ListeningPort) -> (f: Finding)
    ensures
        f.view() == opened_finding(*p),
{
    let mut ind = one_indicator("listening_port_appeared");
    if p.process_name.is_none() {
        push_indicator(&mut ind, "no_owning_process_resolved");
        assert(strs_view(ind@) =~= seq!["listening_port_appeared"@, "no_owning_process_resolved"@]);
    }
    let process = match &p.process_name {
        Some(n) => Some(ProcessRef {
            name: n.clone(),
            pid: match p.pid { Some(x) => x, None => 0 },
            path: copy_opt(&p.process_path),
        }),
        None => None,
    };
    let mut title = String::new();
    append_str(&mut title, "New listening port ");
    crate::text::append_dec(&mut title, p.port as u64);
    append_str(&mut title, "/");
    append_str(&mut title, p.protocol.as_str());
    let f = make_finding(
        RuleId::NewListeningPort,
        ind,
        process,
        Some(endpoint(p.address.as_str(), p.port)),
        None,
        true,
        FindingDetails::Port { protocol: p.protocol.clone(), port: p.port },
        title,
    );
    assert(f.view() =~= opened_finding(*p));
    f
}

fn make_closed_finding(k: &PortKey) -> (f: Finding)
    ensures
        f.view() == closed_finding(k.view()),
{
    let mut title = String::new();
    append_str(&mut title, "Listening port ");
    crate::text::append_dec(&mut title, k.port as u64);
    append_str(&mut title, " closed");
    let f = make_finding(
        RuleId::PortStateChanged,
        one_indicator("listening_port_closed"),
        None,
        Some(endpoint(k.addr.as_str(), k.port)),
        None,
        false,
        FindingDetails::Port { protocol: k.proto.clone(), port: k.port },
        title,
    );
    assert(f.view() =~= closed_finding(k.view()));
    f
}

impl DetectionEngine {
    /// Note a batch of running processes. Each lowercase name is stamped
    /// `now` in the inventory; once the inventory is non-empty, a name new
    /// to it whose executable path is unusual raises a finding.
    pub fn observe_processes(&mut self, processes: &Vec<ProcessInfo>, now: i64) -> (r: Vec<Finding>)
        ensures
            ({
                let res = procs_fold(
                    old(self).view().known_processes,
                    processes@,
                    old(self).view().known_processes.len() > 0,
                    now,
                );
                &&& final(self).view() == (EngineView { known_processes: res.0, ..old(self).view() })
                &&& findings_view(r@) == res.1
            }),
    {
        proof {
            use_type_invariant(&*self);
        }
        let primed = self.known_processes.len() > 0;
        let ghost kp0 = old(self).view().known_processes;
        let mut out: Vec<Finding> = Vec::new();
        let mut i: usize = 0;
        while i < processes.len()
            invariant
                i <= processes.len(),
                primed == (kp0.len() > 0),
                kp0 == old(self).view().known_processes,
                self.view() == (EngineView {
                    known_processes: procs_fold(kp0, processes@.subrange(0, i as int), primed, now).0,
                    ..old(self).view()
                }),
                findings_view(out@) == procs_fold(kp0, processes@.subrange(0, i as int), primed, now).1,
            decreases processes.len() - i,
        {
            let p = &processes[i];
            assert(processes@.subrange(0, i + 1).drop_last() =~= processes@.subrange(0, i as int));
            let key = to_lowercase(p.name.as_str());
            let is_new = !self.known_processes.contains_key(key.as_str());
            let mut tmp_known_processes = StrMap::new();
            proof {
                use_type_invariant(&*self);
            }
            std::mem::swap(&mut tmp_known_processes, &mut self.known_processes);
            tmp_known_processes.set(key, now);
            self.known_processes = tmp_known_processes;
            if primed && is_new {
                match &p.path {
                    Some(path) => {
                        if unusual_path(path.as_str()) {
                            let mut ind = one_indicator("new_process");
                            push_indicator(&mut ind, "started_from_unusual_path");
                            let f = make_finding(
                                RuleId::ProcessStartedUnusualPath,
                                ind,
                                Some(ProcessRef { name: p.name.clone(), pid: p.pid, path: copy_opt(&p.path) }),
                                None,
                                None,
                                true,
                                FindingDetails::Path { path: path.clone() },
                                concat("Process started from unusual path: ", p.name.as_str()),
                            );
                            assert(f.view() =~= unusual_process_finding(*p));
                            out.push(f);
                            assert(findings_view(out@) =~= procs_fold(
                                kp0,
                                processes@.subrange(0, i as int),
                                primed,
                                now,
                            ).1.push(unusual_process_finding(*p)));
                        }
                    },
                    None => {},
                }
            }
            i = i + 1;
            assert(self.view() =~= EngineView {
                known_processes: procs_fold(kp0, processes@.subrange(0, i as int), primed, now).0,
                ..old(self).view()
            });
        }
        assert(processes@.subrange(0, processes.len() as int) =~= processes@);
        out
    }

    /// Note the listening sockets. The first batch only primes the known
    /// set. Later, each socket not known before raises a finding and an
    /// `opened` transition (in batch order), then each known socket absent
    /// now raises a finding and a `closed` transition; the known set becomes
    /// the current one.
    pub fn observe_ports(&mut self, ports: &Vec<ListeningPort>) -> (r: (Vec<Finding>, Vec<PortTransition>))
        ensures
            ({
                let cur = keys_dedup(ports@);
                let known = old(self).view().known_ports;
                &&& final(self).view() == (EngineView {
                    known_ports: cur,
                    primed_ports: true,
                    ..old(self).view()
                })
                &&& findings_view(r.0@) == (if old(self).view().primed_ports {
                    opened_ports(known, ports@).map_values(|p: ListeningPort| opened_finding(p))
                        + closed_keys(known, cur).map_values(|k: (Seq<char>, u16, Seq<char>)| closed_finding(k))
                } else {
                    Seq::empty()
                })
                &&& transitions_view(r.1@) == (if old(self).view().primed_ports {
                    opened_ports(known, ports@).map_values(|p: ListeningPort| opened_transition(p))
                        + closed_keys(known, cur).map_values(|k: (Seq<char>, u16, Seq<char>)| closed_transition(k))
                } else {
                    Seq::empty()
                })
            }),
    {
        proof {
            use_type_invariant(&*self);
        }
        let mut current: Vec<PortKey> = Vec::new();
        let mut i: usize = 0;
        while i < ports.len()
            invariant
                i <= ports.len(),
                port_keys_view(current@) == keys_dedup(ports@.subrange(0, i as int)),
            decreases ports.len() - i,
        {
            let p = &ports[i];
            assert(ports@.subrange(0, i + 1).drop_last() =~= ports@.subrange(0, i as int));
            if !port_keys_contain(&current, p.protocol.as_str(), p.port, p.address.as_str()) {
                current.push(PortKey { proto: p.protocol.clone(), port: p.port, addr: p.address.clone() });
                assert(port_keys_view(current@) =~= keys_dedup(ports@.subrange(0, i as int)).push(port_key_of(*p)));
            }
            i = i + 1;
        }
        assert(ports@.subrange(0, ports.len() as int) =~= ports@);
        let mut findings: Vec<Finding> = Vec::new();
        let mut trans: Vec<PortTransition> = Vec::new();
        if !self.primed_ports {
            proof {
                use_type_invariant(&*self);
                lemma_keys_dedup_distinct(ports@);
            }
            self.known_ports = current;
            self.primed_ports = true;
            assert(self.view() =~= EngineView {
                known_ports: keys_dedup(ports@),
                primed_ports: true,
                ..old(self).view()
            });
            assert(findings_view(findings@) =~= Seq::<FindingView>::empty());
            assert(transitions_view(trans@) =~= Seq::<TransitionView>::empty());
            return (findings, trans);
        }
        let ghost known = old(self).view().known_ports;
        let mut i: usize = 0;
        while i < ports.len()
            invariant
                i <= ports.len(),
                self.view() == old(self).view(),
                known == self.view().known_ports,
                findings_view(findings@) == opened_ports(known, ports@.subrange(0, i as int))
                    .map_values(|p: ListeningPort| opened_finding(p)),
                transitions_view(trans@) == opened_ports(known, ports@.subrange(0, i as int))
                    .map_values(|p: ListeningPort| opened_transition(p)),
            decreases ports.len() - i,
        {
            let p = &ports[i];
            assert(ports@.subrange(0, i + 1).drop_last() =~= ports@.subrange(0, i as int));
            let ghost op = opened_ports(known, ports@.subrange(0, i as int));
            let ghost f0 = findings@;
            let ghost t0 = trans@;
            if !port_keys_contain(&self.known_ports, p.protocol.as_str(), p.port, p.address.as_str()) {
                let f = make_opened_finding(p);
                let t = PortTransition { opened: true, port: copy_port(p) };
                findings.push(f);
                trans.push(t);
                assert(opened_ports(known, ports@.subrange(0, i + 1)) == op.push(*p));
                assert(op.push(*p).map_values(|p: ListeningPort| opened_finding(p))
                    =~= op.map_values(|p: ListeningPort| opened_finding(p)).push(opened_finding(*p)));
                assert(op.push(*p).map_values(|p: ListeningPort| opened_transition(p))
                    =~= op.map_values(|p: ListeningPort| opened_transition(p)).push(opened_transition(*p)));
                assert(findings_view(findings@) =~= findings_view(f0).push(f.view()));
                assert(transitions_view(trans@) =~= transitions_view(t0).push(t.view()));
            }
            i = i + 1;
        }
        assert(ports@.subrange(0, ports.len() as int) =~= ports@);
        let ghost opened_f = findings_view(findings@);
        let ghost opened_t = transitions_view(trans@);
        let ghost cur = port_keys_view(current@);
        let mut j: usize = 0;
        while j < self.known_ports.len()
            invariant
                j <= self.known_ports.len(),
                self.view() == old(self).view(),
                known == self.view().known_ports,
                cur == port_keys_view(current@),
                findings_view(findings@) == opened_f + closed_keys(known.subrange(0, j as int), cur)
                    .map_values(|k: (Seq<char>, u16, Seq<char>)| closed_finding(k)),
                transitions_view(trans@) == opened_t + closed_keys(known.subrange(0, j as int), cur)
                    .map_values(|k: (Seq<char>, u16, Seq<char>)| closed_transition(k)),
            decreases self.known_ports.len() - j,
        {
            let k = &self.known_ports[j];
            assert(known.subrange(0, j + 1).drop_last() =~= known.subrange(0, j as int));
            assert(known[j as int] == k.view());
            let ghost ck = closed_keys(known.subrange(0, j as int), cur);
            let ghost f0 = findings@;
            let ghost t0 = trans@;
            if !port_keys_contain(&current, k.proto.as_str(), k.port, k.addr.as_str()) {
                let f = make_closed_finding(k);
                findings.push(f);
                let stub = ListeningPort {
                    protocol: k.proto.clone(),
                    address: k.addr.clone(),
                    port: k.port,
                    pid: None,
                    process_name: None,
                    process_path: None,
                };
                let t = PortTransition { opened: false, port: stub };
                trans.push(t);
                let ghost kv = known[j as int];
                assert(closed_keys(known.subrange(0, j + 1), cur) == ck.push(kv));
                assert(ck.push(kv).map_values(|k: (Seq<char>, u16, Seq<char>)| closed_finding(k))
                    =~= ck.map_values(|k: (Seq<char>, u16, Seq<char>)| closed_finding(k)).push(closed_finding(kv)));
                assert(ck.push(kv).map_values(|k: (Seq<char>, u16, Seq<char>)| closed_transition(k))
                    =~= ck.map_values(|k: (Seq<char>, u16, Seq<char>)| closed_transition(k)).push(closed_transition(kv)));
                assert(findings_view(findings@) =~= findings_view(f0).push(f.view()));
                assert(transitions_view(trans@) =~= transitions_view(t0).push(t.view()));
                assert(t.view() == closed_transition(kv));
            } else {
                assert(closed_keys(known.subrange(0, j + 1), cur) == closed_keys(known.subrange(0, j as int), cur));
            }
            j = j + 1;
        }
        assert(known.subrange(0, known.len() as int) =~= known);
        proof {
            use_type_invariant(&*self);
            lemma_keys_dedup_distinct(ports@);
        }
        self.known_ports = current;
        assert(self.view() =~= EngineView {
            known_ports: keys_dedup(ports@),
            primed_ports: true,
            ..old(self).view()
        });
        (findings, trans)
    }
}

/// The names of running services, each once, in order of first appearance.
pub open spec fn running_names(svcs: Seq<ServiceInfo>) -> Seq<Seq<char>>
    decreases svcs.len(),
{
    if svcs.len() == 0 {
        Seq::empty()
    } else {
        let prev = running_names(svcs.drop_last());
        let x = svcs.last();
        if x.status@ == "running"@ && !prev.contains(x.name@) { prev.push(x.name@) } else { prev }
    }
}

/// Running services of the batch whose name is not known, in batch order.
pub open spec fn started_services(known: Seq<Seq<char>>, svcs: Seq<ServiceInfo>) -> Seq<ServiceInfo>
    decreases svcs.len(),
{
    if svcs.len() == 0 {
        Seq::empty()
    } else {
        let prev = started_services(known, svcs.drop_last());
        let x = svcs.last();
        if x.status@ == "running"@ && !known.contains(x.name@) { prev.push(x) } else { prev }
    }
}

pub open spec fn new_service_finding(s: ServiceInfo) -> FindingView {
    finding(
        RuleId::NewServiceStarted,
        seq!["service_entered_running_state"@],
        match s.pid {
            Some(pid) => Some(ProcessRefView { name: s.name@, pid, path: None }),
            None => None,
        },
        None,
        None,
        true,
        DetailsView::Service { service: s.name@ },
        "New service started: "@ + s.name@,
    )
}

/// A service event as plain values: started (else merely seen), name,
/// display name, status, pid.
pub type ServiceEventView = (bool, Seq<char>, Option<Seq<char>>, Seq<char>, Option<u32>);

pub open spec fn service_event_of(started: bool, s: ServiceInfo) -> ServiceEventView {
    (started, s.name@, opt_view(s.display_name), s.status@, s.pid)
}

/// A service seen on the first observation, or started since the last one.
#[derive(Debug)]
pub struct ServiceEvent {
    pub started: bool,
    pub service: ServiceInfo,
}

impl ServiceEvent {
    pub open spec fn view(&self) -> ServiceEventView {
        service_event_of(self.started, self.service)
    }

    /// The stored name of the event.
    pub fn kind(&self) -> (r: &'static str)
        ensures
            r@ == (if self.started { "started"@ } else { "seen"@ }),
    {
        if self.started { "started" } else { "seen" }
    }
}

pub open spec fn service_events_view(v: Seq<ServiceEvent>) -> Seq<ServiceEventView> {
    v.map_values(|e: ServiceEvent| e.view())
}

fn copy_service(s: &ServiceInfo) -> (r: ServiceInfo)
    ensures
        r.name@ == s.name@,
        opt_view(r.display_name) == opt_view(s.display_name),
        r.status@ == s.status@,
        r.pid == s.pid,
{
    ServiceInfo {
        name: s.name.clone(),
        display_name: copy_opt(&s.display_name),
        status: s.status.clone(),
        pid: s.pid,
    }
}

/// The DNS suffixes treated as suspicious.
pub open spec fn suspicious_tld(qn: Seq<char>) -> bool {
    ends_with(qn, ".tk"@) || ends_with(qn, ".xyz"@) || ends_with(qn, ".top"@) || ends_with(qn, ".cc"@)
        || ends_with(qn, ".buzz"@) || ends_with(qn, ".work"@)
}

pub open spec fn dns_finding(q: DnsQuery) -> FindingView {
    finding(
        RuleId::SuspiciousDnsQuery,
        seq!["suspicious_tld_or_blocklist"@],
        None,
        None,
        Some(q.query_name@),
        true,
        DetailsView::Query { query: q.query_name@, record_type: q.record_type@ },
        "Query to suspicious domain "@ + q.query_name@,
    )
}

/// One DNS query: a lowercase name under a suspicious suffix, or blocked,
/// and not suppressed by feedback, raises a finding at most once an hour
/// per name.
pub open spec fn dns_step(s: EngineView, q: DnsQuery, blocked: Set<Seq<char>>, tick: u64) -> (EngineView, Seq<FindingView>) {
    let qn = lowercase_of(q.query_name@);
    if (suspicious_tld(qn) || blocked.contains(spec_strip_port(qn)))
        && !suppressed_for(s.suppressed, RuleId::SuspiciousDnsQuery, qn) {
        let a = spec_allow(s.cooldowns, "dns|"@ + qn, tick, 3600000);
        (EngineView { cooldowns: a.0, ..s }, if a.1 { seq![dns_finding(q)] } else { Seq::empty() })
    } else {
        (s, Seq::empty())
    }
}

pub open spec fn dns_fold(s: EngineView, qs: Seq<DnsQuery>, blocked: Set<Seq<char>>, tick: u64) -> (EngineView, Seq<FindingView>)
    decreases qs.len(),
{
    if qs.len() == 0 {
        (s, Seq::empty())
    } else {
        let prev = dns_fold(s, qs.drop_last(), blocked, tick);
        let st = dns_step(prev.0, qs.last(), blocked, tick);
        (st.0, prev.1 + st.1)
    }
}

/// Used share of the quota in tenths of a percent, rounded to nearest
/// (an exact half to the even tenth, as `{:.1}` prints it).
pub open spec fn pct_tenths(used: u64, quota: u64) -> nat {
    let n = 1000 * used;
    let q = n / (quota as int);
    let r = n % (quota as int);
    if 2 * r > quota || (2 * r == quota && q % 2 == 1) { (q + 1) as nat } else { q as nat }
}

/// The share as printed with one decimal (`88.5`); `inf` for a zero quota.
pub open spec fn pct_text(used: u64, quota: u64) -> Seq<char> {
    if quota == 0 {
        "inf"@
    } else {
        dec_str(pct_tenths(used, quota) / 10) + "."@ + dec_str(pct_tenths(used, quota) % 10)
    }
}

/// The quota is used up: the share reaches 100% (any use of a zero quota).
pub open spec fn quota_exceeded(used: u64, quota: u64) -> bool {
    if quota == 0 { used > 0 } else { used >= quota }
}

/// The share reaches the warning percentage.
pub open spec fn quota_warning(used: u64, quota: u64, warning_pct: u8) -> bool {
    quota > 0 && used * 100 >= warning_pct * quota
}

pub open spec fn quota_exceeded_finding(used: u64, quota: u64) -> FindingView {
    finding(
        RuleId::BandwidthQuotaExceeded,
        seq!["quota_100_pct_exceeded"@],
        None,
        None,
        None,
        false,
        DetailsView::QuotaExceeded { used_bytes: used, quota_bytes: quota },
        "Monthly bandwidth quota exceeded ("@ + pct_text(used, quota) + "%)"@,
    )
}

pub open spec fn quota_warning_finding(used: u64, quota: u64, warning_pct: u8) -> FindingView {
    finding(
        RuleId::BandwidthQuotaWarning,
        seq!["quota_warning_threshold"@],
        None,
        None,
        None,
        false,
        DetailsView::QuotaWarning { used_bytes: used, quota_bytes: quota, warning_pct },
        "Monthly bandwidth quota warning ("@ + pct_text(used, quota) + "%)"@,
    )
}

/// The quota check: exceeded, else warning, each at most once per 23 hours.
pub open spec fn quota_step(s: EngineView, quota: Option<u64>, warning_pct: u8, used: u64, tick: u64) -> (EngineView, Seq<FindingView>) {
    match quota {
        None => (s, Seq::empty()),
        Some(q) => if quota_exceeded(used, q) {
            let a = spec_allow(s.cooldowns, "quota|exceeded"@, tick, 82800000);
            (EngineView { cooldowns: a.0, ..s }, if a.1 { seq![quota_exceeded_finding(used, q)] } else { Seq::empty() })
        } else if quota_warning(used, q, warning_pct) {
            let a = spec_allow(s.cooldowns, "quota|warning"@, tick, 82800000);
            (EngineView { cooldowns: a.0, ..s }, if a.1 { seq![quota_warning_finding(used, q, warning_pct)] } else { Seq::empty() })
        } else {
            (s, Seq::empty())
        },
    }
}

fn pct_string(used: u64, quota: u64) -> (s: String)
    ensures
        s@ == pct_text(used, quota),
{
    if quota == 0 {
        return String::from_str("inf");
    }
    let n: u128 = 1000 * (used as u128);
    let q: u128 = n / (quota as u128);
    let r: u128 = n % (quota as u128);
    assert(q <= n) by (nonlinear_arith)
        requires
            q == n / (quota as u128),
            quota >= 1;
    let t: u128 = if 2 * r > quota as u128 || (2 * r == quota as u128 && q % 2 == 1) { q + 1 } else { q };
    assert(t == pct_tenths(used, quota));
    let whole = crate::text::dec_chars_wide(t / 10);
    let frac = crate::text::dec_chars_wide(t % 10);
    let mut s = String::new();
    crate::text::append_chars(&mut s, &whole);
    append_str(&mut s, ".");
    crate::text::append_chars(&mut s, &frac);
    assert(s@ =~= pct_text(used, quota));
    s
}

impl DetectionEngine {
    /// Note the services. The first batch primes the running set and marks
    /// every service `seen`. Later, each running service not known before
    /// raises a finding and a `started` event; the known set becomes the
    /// running set.
    pub fn observe_services(&mut self, services: &Vec<ServiceInfo>) -> (r: (Vec<Finding>, Vec<ServiceEvent>))
        ensures
            ({
                let cur = running_names(services@);
                let known = old(self).view().known_services;
                &&& final(self).view() == (EngineView {
                    known_services: cur,
                    primed_services: true,
                    ..old(self).view()
                })
                &&& findings_view(r.0@) == (if old(self).view().primed_services {
                    started_services(known, services@).map_values(|x: ServiceInfo| new_service_finding(x))
                } else {
                    Seq::empty()
                })
                &&& service_events_view(r.1@) == (if old(self).view().primed_services {
                    started_services(known, services@).map_values(|x: ServiceInfo| service_event_of(true, x))
                } else {
                    services@.map_values(|x: ServiceInfo| service_event_of(false, x))
                })
            }),
    {
        proof {
            use_type_invariant(&*self);
        }
        let mut current: Vec<String> = Vec::new();
        let mut i: usize = 0;
        while i < services.len()
            invariant
                i <= services.len(),
                strs_view(current@) == running_names(services@.subrange(0, i as int)),
            decreases services.len() - i,
        {
            let x = &services[i];
            assert(services@.subrange(0, i + 1).drop_last() =~= services@.subrange(0, i as int));
            if crate::text::str_eq(x.status.as_str(), "running") && !contains_str(&current, &x.name) {
                current.push(x.name.clone());
                assert(strs_view(current@) =~= running_names(services@.subrange(0, i as int)).push(x.name@));
            }
            i = i + 1;
        }
        assert(services@.subrange(0, services.len() as int) =~= services@);
        let mut findings: Vec<Finding> = Vec::new();
        let mut events: Vec<ServiceEvent> = Vec::new();
        let primed = self.primed_services;
        let ghost known = old(self).view().known_services;
        let mut i: usize = 0;
        while i < services.len()
            invariant
                i <= services.len(),
                self.view() == old(self).view(),
                known == self.view().known_services,
                primed == self.view().primed_services,
                findings_view(findings@) == (if primed {
                    started_services(known, services@.subrange(0, i as int))
                        .map_values(|x: ServiceInfo| new_service_finding(x))
                } else {
                    Seq::empty()
                }),
                service_events_view(events@) == (if primed {
                    started_services(known, services@.subrange(0, i as int))
                        .map_values(|x: ServiceInfo| service_event_of(true, x))
                } else {
                    services@.subrange(0, i as int).map_values(|x: ServiceInfo| service_event_of(false, x))
                }),
            decreases services.len() - i,
        {
            let x = &services[i];
            assert(services@.subrange(0, i + 1).drop_last() =~= services@.subrange(0, i as int));
            let ghost ss = started_services(known, services@.subrange(0, i as int));
            let ghost f0 = findings@;
            let ghost e0 = events@;
            if !primed {
                let e = ServiceEvent { started: false, service: copy_service(x) };
                events.push(e);
                assert(service_events_view(events@) =~= service_events_view(e0).push(e.view()));
                assert(services@.subrange(0, i + 1).map_values(|x: ServiceInfo| service_event_of(false, x))
                    =~= services@.subrange(0, i as int).map_values(|x: ServiceInfo| service_event_of(false, x))
                        .push(service_event_of(false, *x)));
            } else if crate::text::str_eq(x.status.as_str(), "running") && !contains_str(&self.known_services, &x.name) {
                let mut title = concat("New service started: ", x.name.as_str());
                let process = match x.pid {
                    Some(pid) => Some(ProcessRef { name: x.name.clone(), pid, path: None }),
                    None => None,
                };
                let f = make_finding(
                    RuleId::NewServiceStarted,
                    one_indicator("service_entered_running_state"),
                    process,
                    None,
                    None,
                    true,
                    FindingDetails::Service { service: x.name.clone() },
                    title,
                );
                assert(f.view() =~= new_service_finding(*x));
                let e = ServiceEvent { started: true, service: copy_service(x) };
                findings.push(f);
                events.push(e);
                assert(started_services(known, services@.subrange(0, i + 1)) == ss.push(*x));
                assert(ss.push(*x).map_values(|x: ServiceInfo| new_service_finding(x))
                    =~= ss.map_values(|x: ServiceInfo| new_service_finding(x)).push(new_service_finding(*x)));
                assert(ss.push(*x).map_values(|x: ServiceInfo| service_event_of(true, x))
                    =~= ss.map_values(|x: ServiceInfo| service_event_of(true, x)).push(service_event_of(true, *x)));
                assert(findings_view(findings@) =~= findings_view(f0).push(f.view()));
                assert(service_events_view(events@) =~= service_events_view(e0).push(e.view()));
            }
            i = i + 1;
        }
        assert(services@.subrange(0, services.len() as int) =~= services@);
        proof {
            use_type_invariant(&*self);
            lemma_running_names_distinct(services@);
        }
        self.known_services = current;
        self.primed_services = true;
        assert(self.view() =~= EngineView {
            known_services: running_names(services@),
            primed_services: true,
            ..old(self).view()
        });
        (findings, events)
    }

    /// Check a batch of DNS queries against suspicious suffixes and the
    /// blocklist (see `dns_step`).
    pub fn observe_dns_queries(&mut self, queries: &Vec<DnsQuery>, blocklist: &BlocklistManager, tick: u64) -> (r: Vec<Finding>)
        ensures
            ({
                let res = dns_fold(old(self).view(), queries@, blocklist.blocked(), tick);
                &&& final(self).view() == res.0
                &&& findings_view(r@) == res.1
            }),
    {
        proof {
            use_type_invariant(&*self);
        }
        let mut out: Vec<Finding> = Vec::new();
        let mut i: usize = 0;
        while i < queries.len()
            invariant
                i <= queries.len(),
                self.view() == dns_fold(old(self).view(), queries@.subrange(0, i as int), blocklist.blocked(), tick).0,
                findings_view(out@) == dns_fold(old(self).view(), queries@.subrange(0, i as int), blocklist.blocked(), tick).1,
            decreases queries.len() - i,
        {
            let q = &queries[i];
            assert(queries@.subrange(0, i + 1).drop_last() =~= queries@.subrange(0, i as int));
            let ghost f0 = out@;
            let qn = to_lowercase(q.query_name.as_str());
            let tld = str_ends_with(qn.as_str(), ".tk") || str_ends_with(qn.as_str(), ".xyz")
                || str_ends_with(qn.as_str(), ".top") || str_ends_with(qn.as_str(), ".cc")
                || str_ends_with(qn.as_str(), ".buzz") || str_ends_with(qn.as_str(), ".work");
            if (tld || blocklist.is_blocked(qn.as_str()))
                && !self.is_suppressed(&RuleId::SuspiciousDnsQuery, qn.as_str()) {
                let key = concat("dns|", qn.as_str());
                if self.allow(key.as_str(), tick, 3600000) {
                    let f = make_finding(
                        RuleId::SuspiciousDnsQuery,
                        one_indicator("suspicious_tld_or_blocklist"),
                        None,
                        None,
                        Some(q.query_name.clone()),
                        true,
                        FindingDetails::Query { query: q.query_name.clone(), record_type: q.record_type.clone() },
                        concat("Query to suspicious domain ", q.query_name.as_str()),
                    );
                    assert(f.view() =~= dns_finding(*q));
                    out.push(f);
                    assert(findings_view(out@) =~= findings_view(f0).push(f.view()));
                }
            }
            i = i + 1;
        }
        assert(queries@.subrange(0, queries.len() as int) =~= queries@);
        out
    }

    /// Check the month's use against the quota (`quota_step`). The quota
    /// is in bytes; `None` when none is configured.
    pub fn observe_bandwidth_quota(&mut self, quota_bytes: Option<u64>, warning_pct: u8, total_used_bytes: u64, tick: u64) -> (r: Vec<Finding>)
        ensures
            ({
                let res = quota_step(old(self).view(), quota_bytes, warning_pct, total_used_bytes, tick);
                &&& final(self).view() == res.0
                &&& findings_view(r@) == res.1
            }),
    {
        proof {
            use_type_invariant(&*self);
        }
        let mut out: Vec<Finding> = Vec::new();
        let used = total_used_bytes;
        match quota_bytes {
            None => {},
            Some(q) => {
                let exceeded = if q == 0 { used > 0 } else { used >= q };
                assert((warning_pct as u128) * (q as u128) <= 255 * (u64::MAX as u128)) by (nonlinear_arith);
                let warn = q > 0 && (used as u128) * 100 >= (warning_pct as u128) * (q as u128);
                if exceeded {
                    if self.allow("quota|exceeded", tick, 82800000) {
                        let mut t = String::new();
                        append_str(&mut t, "Monthly bandwidth quota exceeded (");
                        let pt = pct_string(used, q);
                        append_str(&mut t, pt.as_str());
                        append_str(&mut t, "%)");
                        let f = make_finding(
                            RuleId::BandwidthQuotaExceeded,
                            one_indicator("quota_100_pct_exceeded"),
                            None,
                            None,
                            None,
                            false,
                            FindingDetails::QuotaExceeded { used_bytes: used, quota_bytes: q },
                            t,
                        );
                        assert(f.view() =~= quota_exceeded_finding(used, q));
                        out.push(f);
                    }
                } else if warn {
                    if self.allow("quota|warning", tick, 82800000) {
                        let mut t = String::new();
                        append_str(&mut t, "Monthly bandwidth quota warning (");
                        let pt = pct_string(used, q);
                        append_str(&mut t, pt.as_str());
                        append_str(&mut t, "%)");
                        let f = make_finding(
                            RuleId::BandwidthQuotaWarning,
                            one_indicator("quota_warning_threshold"),
                            None,
                            None,
                            None,
                            false,
                            FindingDetails::QuotaWarning { used_bytes: used, quota_bytes: q, warning_pct },
                            t,
                        );
                        assert(f.view() =~= quota_warning_finding(used, q, warning_pct));
                        out.push(f);
                    }
                }
            },
        }
        assert(findings_view(out@) =~= quota_step(old(self).view(), quota_bytes, warning_pct, total_used_bytes, tick).1);
        out
    }

    /// Mark each connection whose remote address was seen before with the
    /// time it was first seen, and `now` as last seen.
    pub fn stamp_remote_seen(&self, conns: &mut Vec<Connection>, now: i64)
        ensures
            final(conns)@.len() == old(conns)@.len(),
            forall|i: int| 0 <= i < old(conns)@.len() ==> #[trigger] final(conns)@[i] == (match assoc_get(
                self.view().remote_first_seen,
                old(conns)@[i].remote_addr@,
            ) {
                Some(fs) => Connection { first_seen: Some(fs), last_seen: Some(now), ..old(conns)@[i] },
                None => old(conns)@[i],
            }),
    {
        let mut i: usize = 0;
        while i < conns.len()
            invariant
                i <= conns.len(),
                conns@.len() == old(conns)@.len(),
                forall|j: int| i <= j < conns@.len() ==> conns@[j] == old(conns)@[j],
                forall|j: int| 0 <= j < i ==> #[trigger] conns@[j] == (match assoc_get(
                    self.view().remote_first_seen,
                    old(conns)@[j].remote_addr@,
                ) {
                    Some(fs) => Connection { first_seen: Some(fs), last_seen: Some(now), ..old(conns)@[j] },
                    None => old(conns)@[j],
                }),
            decreases conns.len() - i,
        {
            match self.remote_first_seen.get(conns[i].remote_addr.as_str()) {
                Some(fs) => {
                    let c = &conns[i];
                    let n = Connection {
                        protocol: c.protocol.clone(),
                        local_addr: c.local_addr.clone(),
                        local_port: c.local_port,
                        remote_addr: c.remote_addr.clone(),
                        remote_port: c.remote_port,
                        state: c.state.clone(),
                        pid: c.pid,
                        process_name: copy_opt(&c.process_name),
                        process_path: copy_opt(&c.process_path),
                        first_seen: Some(fs),
                        last_seen: Some(now),
                        geo: copy_geo(&c.geo),
                    };
                    conns.set(i, n);
                },
                None => {},
            }
            i = i + 1;
        }
    }
}

fn copy_geo(g: &Option<GeoLocation>) -> (r: Option<GeoLocation>)
    ensures
        r == *g,
{
    match g {
        Some(x) => Some(GeoLocation {
            country_code: x.country_code.clone(),
            country_name: x.country_name.clone(),
            city: copy_opt(&x.city),
        }),
        None => None,
    }
}

/// The state names a half-open (SYN) socket.
pub open spec fn is_syn(c: Connection) -> bool {
    contains(uppercase_of(c.state@), "SYN"@)
}

/// Probe queues keep the last 20 whole seconds: entries 21 s old or more
/// leave from the front.
pub open spec fn scan_recent(q: Seq<(u64, u16)>, tick: u64) -> Seq<(u64, u16)>
    decreases q.len(),
{
    if q.len() > 0 && elapsed(tick, q[0].0) >= 21000 { scan_recent(q.drop_first(), tick) } else { q }
}

pub open spec fn hits_recent(q: Seq<u64>, tick: u64) -> Seq<u64>
    decreases q.len(),
{
    if q.len() > 0 && elapsed(tick, q[0]) >= 21000 { hits_recent(q.drop_first(), tick) } else { q }
}

pub open spec fn has_port(q: Seq<(u64, u16)>, p: u16) -> bool {
    exists|i: int| 0 <= i < q.len() && (#[trigger] q[i]).1 == p
}

/// How many distinct local ports a probe queue touches.
pub open spec fn distinct_ports(q: Seq<(u64, u16)>) -> nat
    decreases q.len(),
{
    if q.len() == 0 {
        0
    } else {
        distinct_ports(q.drop_last()) + if has_port(q.drop_last(), q.last().1) { 0nat } else { 1nat }
    }
}

pub open spec fn conn_local(c: Connection) -> Seq<char> {
    endpoint_text(c.local_addr@, c.local_port)
}

pub open spec fn conn_dest(c: Connection) -> Seq<char> {
    endpoint_text(c.remote_addr@, c.remote_port)
}

pub open spec fn conn_process(c: Connection) -> Option<ProcessRefView> {
    match c.process_name {
        Some(n) => Some(ProcessRefView {
            name: n@,
            pid: match c.pid { Some(x) => x, None => 0 },
            path: opt_view(c.process_path),
        }),
        None => None,
    }
}

pub open spec fn probe_finding(c: Connection, label: Seq<char>, n: nat) -> FindingView {
    finding(
        RuleId::PortScanLikeInbound,
        seq!["rapid_distinct_or_repeated_inbound_attempts"@, label + dec_str(n)],
        None,
        Some(conn_local(c)),
        Some(c.remote_addr@),
        true,
        DetailsView::Count { count: n as u64 },
        "Unusual inbound connection pattern (heuristic)"@,
    )
}

/// A SYN from a remote: its probe queue gets `(tick, local port)`; ten or
/// more distinct ports within 20 s raise a finding (at most once per five
/// minutes per remote), after which its queue starts over.
pub open spec fn scan_step(s: EngineView, c: Connection, tick: u64) -> (EngineView, Seq<FindingView>) {
    let remote = c.remote_addr@;
    let q0 = match assoc_get(s.scan_targets, remote) { Some(q) => q, None => Seq::empty() };
    let q = scan_recent(q0.push((tick, c.local_port)), tick);
    let st = assoc_set(s.scan_targets, remote, q);
    let d = distinct_ports(q);
    if d >= 10 {
        let a = spec_allow(s.cooldowns, "portscan|"@ + remote, tick, 300000);
        if a.1 {
            (
                EngineView { scan_targets: assoc_set(st, remote, Seq::empty()), cooldowns: a.0, ..s },
                seq![probe_finding(c, "distinct_ports_in_20s:"@, d)],
            )
        } else {
            (EngineView { scan_targets: st, cooldowns: a.0, ..s }, Seq::empty())
        }
    } else {
        (EngineView { scan_targets: st, ..s }, Seq::empty())
    }
}

/// Inbound SYNs to a local address: twelve or more from one remote within
/// 20 s raise a finding (at most once per five minutes per remote), after
/// which its queue starts over.
pub open spec fn inbound_step(s: EngineView, c: Connection, tick: u64) -> (EngineView, Seq<FindingView>) {
    let remote = c.remote_addr@;
    let q0 = match assoc_get(s.inbound_hits, remote) { Some(q) => q, None => Seq::empty() };
    let q = hits_recent(q0.push(tick), tick);
    let ih = assoc_set(s.inbound_hits, remote, q);
    if q.len() >= 12 {
        let a = spec_allow(s.cooldowns, "portscan|"@ + remote, tick, 300000);
        if a.1 {
            (
                EngineView { inbound_hits: assoc_set(ih, remote, Seq::empty()), cooldowns: a.0, ..s },
                seq![probe_finding(c, "hits_in_20s:"@, q.len())],
            )
        } else {
            (EngineView { inbound_hits: ih, cooldowns: a.0, ..s }, Seq::empty())
        }
    } else {
        (EngineView { inbound_hits: ih, ..s }, Seq::empty())
    }
}

/// The first process of the list with this pid.
pub open spec fn proc_with_pid_from(procs: Seq<ProcessInfo>, pid: u32, i: int) -> Option<ProcessInfo>
    decreases procs.len() - i,
{
    if i < 0 || i >= procs.len() {
        None
    } else if procs[i].pid == pid {
        Some(procs[i])
    } else {
        proc_with_pid_from(procs, pid, i + 1)
    }
}

/// The connection's process (the first listed with its pid) started
/// less than 15 s before or after `now`.
pub open spec fn started_shortly_before(c: Connection, procs: Seq<ProcessInfo>, now: i64) -> bool {
    match c.pid {
        Some(pid) => match proc_with_pid_from(procs, pid, 0) {
            Some(p) => match p.start_time {
                Some(st) => -15000 < now - st < 15000,
                None => false,
            },
            None => false,
        },
        None => false,
    }
}

/// The process name a connection is baselined under.
pub open spec fn proc_key(c: Connection) -> Seq<char> {
    match c.process_name { Some(n) => n@, None => "unknown"@ }
}

pub open spec fn first_indicators(kp: Seq<(Seq<char>, i64)>, c: Connection, procs: Seq<ProcessInfo>, now: i64) -> Seq<Seq<char>> {
    let new_proc = c.process_name is None || assoc_get(kp, lowercase_of(proc_key(c))) is None;
    seq!["first_external_destination"@]
        + (if new_proc { seq!["new_process"@] } else { Seq::empty() })
        + (match c.process_path {
            Some(p) => if spec_unusual_path(p@) { seq!["started_from_unusual_path"@] } else { Seq::empty() },
            None => seq!["executable_path_unknown"@],
        })
        + (if started_shortly_before(c, procs, now) {
            seq!["connection_shortly_after_process_start"@]
        } else {
            Seq::empty()
        })
}

pub open spec fn first_finding(kp: Seq<(Seq<char>, i64)>, c: Connection, procs: Seq<ProcessInfo>, now: i64) -> FindingView {
    finding(
        if c.process_name is None { RuleId::UnknownProcessNetworkAccess } else { RuleId::NewExternalConnection },
        first_indicators(kp, c, procs, now),
        conn_process(c),
        Some(conn_local(c)),
        Some(conn_dest(c)),
        true,
        DetailsView::ConnState { state: c.state@, protocol: c.protocol@ },
        "New outbound connection"@,
    )
}

/// First sighting of a process talking to a destination: remembered, and
/// reported once.
pub open spec fn first_step(s: EngineView, c: Connection, procs: Seq<ProcessInfo>, now: i64) -> (EngineView, Seq<FindingView>) {
    let combo = proc_key(c) + "|"@ + conn_dest(c);
    if assoc_get(s.seen_process_dest, combo) is None {
        (
            EngineView { seen_process_dest: assoc_set(s.seen_process_dest, combo, now), ..s },
            seq![first_finding(s.known_processes, c, procs, now)],
        )
    } else {
        (s, Seq::empty())
    }
}

pub open spec fn block_finding(c: Connection) -> FindingView {
    finding(
        RuleId::BlocklistedConnection,
        seq!["blocklisted_ip"@, "threat_intelligence_match"@],
        conn_process(c),
        Some(conn_local(c)),
        Some(conn_dest(c)),
        true,
        DetailsView::Blocked { remote_ip: c.remote_addr@, remote_port: c.remote_port },
        "Connection to blocklisted IP "@ + c.remote_addr@,
    )
}

/// A blocked remote, unless feedback suppresses it, raises a finding at
/// most once per 15 minutes.
pub open spec fn block_step(s: EngineView, c: Connection, blocked: Set<Seq<char>>, tick: u64) -> (EngineView, Seq<FindingView>) {
    let remote = c.remote_addr@;
    if blocked.contains(spec_strip_port(remote)) && !suppressed_for(s.suppressed, RuleId::BlocklistedConnection, remote) {
        let a = spec_allow(s.cooldowns, "blocklisted|"@ + remote, tick, 900000);
        (EngineView { cooldowns: a.0, ..s }, if a.1 { seq![block_finding(c)] } else { Seq::empty() })
    } else {
        (s, Seq::empty())
    }
}

/// One more connection to `dest` in this batch.
pub open spec fn bump(rate: Seq<(Seq<char>, u64)>, dest: Seq<char>) -> Seq<(Seq<char>, u64)> {
    let n = match assoc_get(rate, dest) { Some(n) => n, None => 0 };
    assoc_set(rate, dest, (n + 1) as u64)
}

/// One connection of a batch: the state after it, the per-destination
/// counts, and its findings.
pub open spec fn conn_step(
    s: EngineView,
    rate: Seq<(Seq<char>, u64)>,
    c: Connection,
    procs: Seq<ProcessInfo>,
    blocked: Set<Seq<char>>,
    tick: u64,
    now: i64,
) -> (EngineView, Seq<(Seq<char>, u64)>, Seq<FindingView>) {
    let remote = c.remote_addr@;
    if spec_is_external(remote) {
        let s1 = EngineView {
            remote_first_seen: if assoc_get(s.remote_first_seen, remote) is None {
                assoc_set(s.remote_first_seen, remote, now)
            } else {
                s.remote_first_seen
            },
            ..s
        };
        let a = if is_syn(c) { scan_step(s1, c, tick) } else { (s1, Seq::empty()) };
        let b = first_step(a.0, c, procs, now);
        let d = block_step(b.0, c, blocked, tick);
        (d.0, bump(rate, conn_dest(c)), a.1 + b.1 + d.1)
    } else if is_syn(c) && !spec_is_external(c.local_addr@) {
        let a = inbound_step(s, c, tick);
        (a.0, rate, a.1)
    } else {
        (s, rate, Seq::empty())
    }
}

pub open spec fn conns_fold(
    s: EngineView,
    conns: Seq<Connection>,
    procs: Seq<ProcessInfo>,
    blocked: Set<Seq<char>>,
    tick: u64,
    now: i64,
) -> (EngineView, Seq<(Seq<char>, u64)>, Seq<FindingView>)
    decreases conns.len(),
{
    if conns.len() == 0 {
        (s, Seq::empty(), Seq::empty())
    } else {
        let prev = conns_fold(s, conns.drop_last(), procs, blocked, tick, now);
        let st = conn_step(prev.0, prev.1, conns.last(), procs, blocked, tick, now);
        (st.0, st.1, prev.2 + st.2)
    }
}

pub open spec fn rate_finding(dest: Seq<char>, n: u64) -> FindingView {
    finding(
        RuleId::UnusualConnectionRate,
        seq!["repeated_connection_attempts"@, "count:"@ + dec_str(n as nat)],
        None,
        None,
        Some(dest),
        true,
        DetailsView::Count { count: n },
        "Unusual connection rate"@,
    )
}

/// Twenty or more connections to one destination in a batch raise a
/// finding, at most once per five minutes per destination.
pub open spec fn rate_fold(s: EngineView, rate: Seq<(Seq<char>, u64)>, tick: u64) -> (EngineView, Seq<FindingView>)
    decreases rate.len(),
{
    if rate.len() == 0 {
        (s, Seq::empty())
    } else {
        let prev = rate_fold(s, rate.drop_last(), tick);
        let (dest, n) = rate.last();
        if n >= 20 {
            let a = spec_allow(prev.0.cooldowns, "rate|"@ + dest, tick, 300000);
            (
                EngineView { cooldowns: a.0, ..prev.0 },
                if a.1 { prev.1.push(rate_finding(dest, n)) } else { prev.1 },
            )
        } else {
            prev
        }
    }
}

/// A whole batch of connections: the processes are noted first, then
/// each connection in order, then the per-destination rates.
pub open spec fn connections_result(
    s: EngineView,
    conns: Seq<Connection>,
    procs: Seq<ProcessInfo>,
    blocked: Set<Seq<char>>,
    tick: u64,
    now: i64,
) -> (EngineView, Seq<FindingView>) {
    let s0 = EngineView { known_processes: procs_fold(s.known_processes, procs, false, now).0, ..s };
    let r = conns_fold(s0, conns, procs, blocked, tick, now);
    let rr = rate_fold(r.0, r.1, tick);
    (rr.0, r.2 + rr.1)
}

fn copy_vec<T: Copy>(v: &Vec<T>) -> (r: Vec<T>)
    ensures
        r@ == v@,
{
    let mut out: Vec<T> = Vec::new();
    let mut i: usize = 0;
    while i < v.len()
        invariant
            i <= v.len(),
            out@ == v@.subrange(0, i as int),
        decreases v.len() - i,
    {
        out.push(v[i]);
        i = i + 1;
    }
    assert(out@ =~= v@);
    out
}

fn queue_find<T>(v: &Vec<(String, Vec<T>)>, k: &str) -> (r: Option<usize>)
    ensures
        match r {
            Some(i) => assoc_find(queues_view(v@), k@) == i as int && i < v@.len(),
            None => assoc_find(queues_view(v@), k@) == -1,
        },
{
    let mut i: usize = 0;
    while i < v.len()
        invariant
            i <= v.len(),
            crate::assoc::assoc_find_from(queues_view(v@), k@, i as int) == assoc_find(queues_view(v@), k@),
        decreases v.len() - i,
    {
        if crate::text::str_eq(v[i].0.as_str(), k) {
            return Some(i);
        }
        i = i + 1;
    }
    None
}

/// The queue kept for `k` (empty when there is none).
fn queue_get<T: Copy>(v: &Vec<(String, Vec<T>)>, k: &str) -> (r: Vec<T>)
    ensures
        r@ == match assoc_get(queues_view(v@), k@) { Some(q) => q, None => Seq::empty() },
{
    match queue_find(v, k) {
        Some(i) => copy_vec(&v[i].1),
        None => Vec::new(),
    }
}

fn queue_set<T>(v: &mut Vec<(String, Vec<T>)>, k: String, q: Vec<T>)
    ensures
        queues_view(final(v)@) == assoc_set(queues_view(old(v)@), k@, q@),
{
    let ghost kv = k@;
    let ghost qv = q@;
    match queue_find(v, k.as_str()) {
        Some(i) => {
            v.set(i, (k, q));
            assert(queues_view(v@) =~= queues_view(old(v)@).update(i as int, (kv, qv)));
        },
        None => {
            v.push((k, q));
            assert(queues_view(v@) =~= queues_view(old(v)@).push((kv, qv)));
        },
    }
}

fn scan_recent_exec(q: &Vec<(u64, u16)>, tick: u64) -> (r: Vec<(u64, u16)>)
    ensures
        r@ == scan_recent(q@, tick),
{
    let mut j: usize = 0;
    assert(q@.subrange(0, q@.len() as int) =~= q@);
    while j < q.len() && elapsed_exec(tick, q[j].0) >= 21000
        invariant
            j <= q.len(),
            scan_recent(q@.subrange(j as int, q@.len() as int), tick) == scan_recent(q@, tick),
        decreases q.len() - j,
    {
        assert(q@.subrange(j as int, q@.len() as int).drop_first() =~= q@.subrange(j + 1, q@.len() as int));
        j = j + 1;
    }
    assert(q@.subrange(0, q@.len() as int) =~= q@);
    let mut out: Vec<(u64, u16)> = Vec::new();
    let mut i: usize = j;
    while i < q.len()
        invariant
            j <= i <= q.len(),
            out@ == q@.subrange(j as int, i as int),
        decreases q.len() - i,
    {
        out.push(q[i]);
        i = i + 1;
        assert(out@ =~= q@.subrange(j as int, i as int));
    }
    out
}

fn hits_recent_exec(q: &Vec<u64>, tick: u64) -> (r: Vec<u64>)
    ensures
        r@ == hits_recent(q@, tick),
{
    let mut j: usize = 0;
    assert(q@.subrange(0, q@.len() as int) =~= q@);
    while j < q.len() && elapsed_exec(tick, q[j]) >= 21000
        invariant
            j <= q.len(),
            hits_recent(q@.subrange(j as int, q@.len() as int), tick) == hits_recent(q@, tick),
        decreases q.len() - j,
    {
        assert(q@.subrange(j as int, q@.len() as int).drop_first() =~= q@.subrange(j + 1, q@.len() as int));
        j = j + 1;
    }
    assert(q@.subrange(0, q@.len() as int) =~= q@);
    let mut out: Vec<u64> = Vec::new();
    let mut i: usize = j;
    while i < q.len()
        invariant
            j <= i <= q.len(),
            out@ == q@.subrange(j as int, i as int),
        decreases q.len() - i,
    {
        out.push(q[i]);
        i = i + 1;
        assert(out@ =~= q@.subrange(j as int, i as int));
    }
    out
}

fn distinct_ports_exec(q: &Vec<(u64, u16)>) -> (r: usize)
    ensures
        r == distinct_ports(q@),
{
    let mut count: usize = 0;
    let mut i: usize = 0;
    while i < q.len()
        invariant
            i <= q.len(),
            count <= i,
            count == distinct_ports(q@.subrange(0, i as int)),
        decreases q.len() - i,
    {
        let p = q[i].1;
        let mut seen = false;
        let mut j: usize = 0;
        while j < i
            invariant
                i < q.len(),
                j <= i,
                seen == (exists|k: int| 0 <= k < j && (#[trigger] q@[k]).1 == p),
                p == q@[i as int].1,
            decreases i - j,
        {
            if q[j].1 == p {
                seen = true;
            }
            j = j + 1;
        }
        assert(has_port(q@.subrange(0, i as int), p) == seen) by {
            if seen {
                let k = choose|k: int| 0 <= k < i && (#[trigger] q@[k]).1 == p;
                assert(q@.subrange(0, i as int)[k] == q@[k]);
            }
            if has_port(q@.subrange(0, i as int), p) {
                let k = choose|k: int| 0 <= k < i && (#[trigger] q@.subrange(0, i as int)[k]).1 == p;
                assert(q@.subrange(0, i as int)[k] == q@[k]);
            }
        }
        assert(q@.subrange(0, i + 1).drop_last() =~= q@.subrange(0, i as int));
        if !seen {
            count = count + 1;
        }
        i = i + 1;
    }
    assert(q@.subrange(0, q@.len() as int) =~= q@);
    count
}

fn started_shortly_exec(c: &Connection, procs: &Vec<ProcessInfo>, now: i64) -> (r: bool)
    ensures
        r == started_shortly_before(*c, procs@, now),
{
    match c.pid {
        Some(pid) => {
            let mut i: usize = 0;
            while i < procs.len()
                invariant
                    i <= procs.len(),
                    proc_with_pid_from(procs@, pid, i as int) == proc_with_pid_from(procs@, pid, 0),
                    c.pid == Some(pid),
                decreases procs.len() - i,
            {
                if procs[i].pid == pid {
                    assert(proc_with_pid_from(procs@, pid, i as int) == Some(procs@[i as int]));
                    let r = match procs[i].start_time {
                        Some(st) => {
                            let d: i128 = now as i128 - st as i128;
                            assert(d == now - st);
                            -15000 < d && d < 15000
                        },
                        None => false,
                    };
                    assert(r == started_shortly_before(*c, procs@, now));
                    return r;
                }
                i = i + 1;
            }
            false
        },
        None => false,
    }
}

fn make_probe_finding(c: &Connection, label: &str, n: u64) -> (f: Finding)
    ensures
        f.view() == probe_finding(*c, label@, n as nat),
{
    let mut ind = one_indicator("rapid_distinct_or_repeated_inbound_attempts");
    let ghost i0 = ind@;
    let l = labelled_count(label, n);
    ind.push(l);
    assert(strs_view(ind@) =~= strs_view(i0).push(l@));
    assert(strs_view(ind@) =~= seq!["rapid_distinct_or_repeated_inbound_attempts"@, label@ + dec_str(n as nat)]);
    let f = make_finding(
        RuleId::PortScanLikeInbound,
        ind,
        None,
        Some(endpoint(c.local_addr.as_str(), c.local_port)),
        Some(c.remote_addr.clone()),
        true,
        FindingDetails::Count { count: n },
        String::from_str("Unusual inbound connection pattern (heuristic)"),
    );
    assert(f.view() =~= probe_finding(*c, label@, n as nat));
    f
}

fn conn_process_exec(c: &Connection) -> (r: Option<ProcessRef>)
    ensures
        process_ref_view(r) == conn_process(*c),
{
    match &c.process_name {
        Some(n) => Some(ProcessRef {
            name: n.clone(),
            pid: match c.pid { Some(x) => x, None => 0 },
            path: copy_opt(&c.process_path),
        }),
        None => None,
    }
}

impl DetectionEngine {
    fn scan_probe(&mut self, c: &Connection, tick: u64) -> (r: Vec<Finding>)
        ensures
            (final(self).view(), findings_view(r@)) == scan_step(old(self).view(), *c, tick),
    {
        proof {
            use_type_invariant(&*self);
        }
        let mut q = queue_get(&self.scan_targets, c.remote_addr.as_str());
        q.push((tick, c.local_port));
        let q = scan_recent_exec(&q, tick);
        let d = distinct_ports_exec(&q);
        let mut tmp_scan_targets = Vec::new();
        proof {
            use_type_invariant(&*self);
        }
        std::mem::swap(&mut tmp_scan_targets, &mut self.scan_targets);
        queue_set(&mut tmp_scan_targets, c.remote_addr.clone(), q);
        self.scan_targets = tmp_scan_targets;
        let mut out: Vec<Finding> = Vec::new();
        let ghost mid = self.view();
        assert(mid == (EngineView {
            scan_targets: mid.scan_targets,
            ..old(self).view()
        }));
        if d >= 10 {
            let key = concat("portscan|", c.remote_addr.as_str());
            if self.allow(key.as_str(), tick, 300000) {
                let f = make_probe_finding(c, "distinct_ports_in_20s:", d as u64);
                out.push(f);
                let mut tmp_scan_targets = Vec::new();
                proof {
                    use_type_invariant(&*self);
                }
                std::mem::swap(&mut tmp_scan_targets, &mut self.scan_targets);
                queue_set(&mut tmp_scan_targets, c.remote_addr.clone(), Vec::new());
                self.scan_targets = tmp_scan_targets;
                assert(findings_view(out@) =~= seq![f.view()]);
            }
        }
        assert(self.view() =~= scan_step(old(self).view(), *c, tick).0);
        assert(findings_view(out@) =~= scan_step(old(self).view(), *c, tick).1);
        out
    }

    fn inbound_probe(&mut self, c: &Connection, tick: u64) -> (r: Vec<Finding>)
        ensures
            (final(self).view(), findings_view(r@)) == inbound_step(old(self).view(), *c, tick),
    {
        proof {
            use_type_invariant(&*self);
        }
        let mut q = queue_get(&self.inbound_hits, c.remote_addr.as_str());
        q.push(tick);
        let q = hits_recent_exec(&q, tick);
        let hits = q.len();
        let mut tmp_inbound_hits = Vec::new();
        proof {
            use_type_invariant(&*self);
        }
        std::mem::swap(&mut tmp_inbound_hits, &mut self.inbound_hits);
        queue_set(&mut tmp_inbound_hits, c.remote_addr.clone(), q);
        self.inbound_hits = tmp_inbound_hits;
        let mut out: Vec<Finding> = Vec::new();
        if hits >= 12 {
            let key = concat("portscan|", c.remote_addr.as_str());
            if self.allow(key.as_str(), tick, 300000) {
                let f = make_probe_finding(c, "hits_in_20s:", hits as u64);
                out.push(f);
                let mut tmp_inbound_hits = Vec::new();
                proof {
                    use_type_invariant(&*self);
                }
                std::mem::swap(&mut tmp_inbound_hits, &mut self.inbound_hits);
                queue_set(&mut tmp_inbound_hits, c.remote_addr.clone(), Vec::new());
                self.inbound_hits = tmp_inbound_hits;
                assert(findings_view(out@) =~= seq![f.view()]);
            }
        }
        assert(self.view() =~= inbound_step(old(self).view(), *c, tick).0);
        assert(findings_view(out@) =~= inbound_step(old(self).view(), *c, tick).1);
        out
    }

    fn first_sighting(&mut self, c: &Connection, procs: &Vec<ProcessInfo>, now: i64) -> (r: Vec<Finding>)
        ensures
            (final(self).view(), findings_view(r@)) == first_step(old(self).view(), *c, procs@, now),
    {
        proof {
            use_type_invariant(&*self);
        }
        let dest = endpoint(c.remote_addr.as_str(), c.remote_port);
        let pk = match &c.process_name {
            Some(n) => n.clone(),
            None => String::from_str("unknown"),
        };
        let mut combo = String::new();
        append_str(&mut combo, pk.as_str());
        append_str(&mut combo, "|");
        append_str(&mut combo, dest.as_str());
        assert(combo@ =~= proc_key(*c) + "|"@ + conn_dest(*c));
        let mut out: Vec<Finding> = Vec::new();
        if !self.seen_process_dest.contains_key(combo.as_str()) {
            let known_proc = self.known_processes.contains_key(to_lowercase(pk.as_str()).as_str());
            let mut tmp_seen_process_dest = StrMap::new();
            proof {
                use_type_invariant(&*self);
            }
            std::mem::swap(&mut tmp_seen_process_dest, &mut self.seen_process_dest);
            tmp_seen_process_dest.set(combo, now);
            self.seen_process_dest = tmp_seen_process_dest;
            let mut ind = one_indicator("first_external_destination");
            if !known_proc || c.process_name.is_none() {
                push_indicator(&mut ind, "new_process");
            }
            let ghost i1 = strs_view(ind@);
            match &c.process_path {
                Some(p) => {
                    if unusual_path(p.as_str()) {
                        push_indicator(&mut ind, "started_from_unusual_path");
                    }
                },
                None => {
                    push_indicator(&mut ind, "executable_path_unknown");
                },
            }
            let ghost i2 = strs_view(ind@);
            if started_shortly_exec(c, procs, now) {
                push_indicator(&mut ind, "connection_shortly_after_process_start");
            }
            assert(strs_view(ind@) =~= first_indicators(old(self).view().known_processes, *c, procs@, now));
            let rule = if c.process_name.is_none() {
                RuleId::UnknownProcessNetworkAccess
            } else {
                RuleId::NewExternalConnection
            };
            let f = make_finding(
                rule,
                ind,
                conn_process_exec(c),
                Some(endpoint(c.local_addr.as_str(), c.local_port)),
                Some(dest),
                true,
                FindingDetails::ConnState { state: c.state.clone(), protocol: c.protocol.clone() },
                String::from_str("New outbound connection"),
            );
            assert(f.view() =~= first_finding(old(self).view().known_processes, *c, procs@, now));
            out.push(f);
            assert(findings_view(out@) =~= seq![f.view()]);
        }
        assert(self.view() =~= first_step(old(self).view(), *c, procs@, now).0);
        assert(findings_view(out@) =~= first_step(old(self).view(), *c, procs@, now).1);
        out
    }

    fn blocklist_check(&mut self, c: &Connection, blocklist: &BlocklistManager, tick: u64) -> (r: Vec<Finding>)
        ensures
            (final(self).view(), findings_view(r@)) == block_step(old(self).view(), *c, blocklist.blocked(), tick),
    {
        proof {
            use_type_invariant(&*self);
        }
        let mut out: Vec<Finding> = Vec::new();
        if blocklist.is_blocked(c.remote_addr.as_str())
            && !self.is_suppressed(&RuleId::BlocklistedConnection, c.remote_addr.as_str()) {
            let key = concat("blocklisted|", c.remote_addr.as_str());
            if self.allow(key.as_str(), tick, 900000) {
                let mut ind = one_indicator("blocklisted_ip");
                push_indicator(&mut ind, "threat_intelligence_match");
                let f = make_finding(
                    RuleId::BlocklistedConnection,
                    ind,
                    conn_process_exec(c),
                    Some(endpoint(c.local_addr.as_str(), c.local_port)),
                    Some(endpoint(c.remote_addr.as_str(), c.remote_port)),
                    true,
                    FindingDetails::Blocked { remote_ip: c.remote_addr.clone(), remote_port: c.remote_port },
                    concat("Connection to blocklisted IP ", c.remote_addr.as_str()),
                );
                assert(f.view() =~= block_finding(*c));
                out.push(f);
                assert(findings_view(out@) =~= seq![f.view()]);
            }
        }
        assert(findings_view(out@) =~= block_step(old(self).view(), *c, blocklist.blocked(), tick).1);
        out
    }
}

fn append_findings(out: &mut Vec<Finding>, more: Vec<Finding>)
    ensures
        findings_view(final(out)@) == findings_view(old(out)@) + findings_view(more@),
{
    let mut m = more;
    let ghost mv = m@;
    out.append(&mut m);
    assert(findings_view(out@) =~= findings_view(old(out)@) + findings_view(mv));
}

/// Every per-destination count is at most `b`.
pub open spec fn counts_at_most(rate: Seq<(Seq<char>, u64)>, b: int) -> bool {
    forall|j: int| 0 <= j < rate.len() ==> (#[trigger] rate[j]).1 <= b
}

proof fn lemma_bump_bounded(rate: Seq<(Seq<char>, u64)>, dest: Seq<char>, b: int)
    requires
        counts_at_most(rate, b),
        0 <= b,
        b + 1 <= u64::MAX,
    ensures
        counts_at_most(bump(rate, dest), b + 1),
{
    crate::assoc::lemma_assoc_find_bounds(rate, dest, 0);
    let i = assoc_find(rate, dest);
    let n: u64 = match assoc_get(rate, dest) { Some(n) => n, None => 0 };
    assert(n <= b) by {
        if i >= 0 {
            assert(rate[i].1 <= b);
        }
    }
    let r = bump(rate, dest);
    assert forall|j: int| 0 <= j < r.len() implies (#[trigger] r[j]).1 <= b + 1 by {
        if j < rate.len() && j != i {
            assert(r[j] == rate[j]);
        }
    }
}

impl DetectionEngine {
    fn connection_step(
        &mut self,
        c: &Connection,
        procs: &Vec<ProcessInfo>,
        blocklist: &BlocklistManager,
        rate: &mut StrMap<u64>,
        tick: u64,
        now: i64,
    ) -> (r: Vec<Finding>)
        requires
            counts_at_most(old(rate).view(), u64::MAX - 1),
        ensures
            (final(self).view(), final(rate).view(), findings_view(r@)) == conn_step(
                old(self).view(),
                old(rate).view(),
                *c,
                procs@,
                blocklist.blocked(),
                tick,
                now,
            ),
    {
        let mut out: Vec<Finding> = Vec::new();
        let up = to_uppercase(c.state.as_str());
        let syn = str_contains(up.as_str(), "SYN");
        assert(syn == is_syn(*c));
        if is_external_addr(c.remote_addr.as_str()) {
            if !self.remote_first_seen.contains_key(c.remote_addr.as_str()) {
                let mut tmp_remote_first_seen = StrMap::new();
                proof {
                    use_type_invariant(&*self);
                }
                std::mem::swap(&mut tmp_remote_first_seen, &mut self.remote_first_seen);
                tmp_remote_first_seen.set(c.remote_addr.clone(), now);
                self.remote_first_seen = tmp_remote_first_seen;
            }
            let ghost s1 = self.view();
            assert(s1 =~= EngineView {
                remote_first_seen: if assoc_get(old(self).view().remote_first_seen, c.remote_addr@) is None {
                    assoc_set(old(self).view().remote_first_seen, c.remote_addr@, now)
                } else {
                    old(self).view().remote_first_seen
                },
                ..old(self).view()
            });
            let dest = endpoint(c.remote_addr.as_str(), c.remote_port);
            let n: u64 = match rate.get(dest.as_str()) {
                Some(n) => n,
                None => 0,
            };
            proof {
                crate::assoc::lemma_assoc_find_bounds(rate.view(), dest@, 0);
            }
            rate.set(dest, n + 1);
            if syn {
                let f = self.scan_probe(c, tick);
                append_findings(&mut out, f);
            }
            let ghost fa = findings_view(out@);
            let f = self.first_sighting(c, procs, now);
            append_findings(&mut out, f);
            let f = self.blocklist_check(c, blocklist, tick);
            append_findings(&mut out, f);
            assert(findings_view(out@) =~= conn_step(
                old(self).view(),
                old(rate).view(),
                *c,
                procs@,
                blocklist.blocked(),
                tick,
                now,
            ).2);
        } else if syn && !is_external_addr(c.local_addr.as_str()) {
            let f = self.inbound_probe(c, tick);
            append_findings(&mut out, f);
            assert(findings_view(out@) =~= conn_step(
                old(self).view(),
                old(rate).view(),
                *c,
                procs@,
                blocklist.blocked(),
                tick,
                now,
            ).2);
        } else {
            assert(findings_view(out@) =~= Seq::<FindingView>::empty());
        }
        out
    }
}

impl DetectionEngine {
    fn note_processes(&mut self, procs: &Vec<ProcessInfo>, now: i64)
        ensures
            final(self).view() == (EngineView {
                known_processes: procs_fold(old(self).view().known_processes, procs@, false, now).0,
                ..old(self).view()
            }),
    {
        proof {
            use_type_invariant(&*self);
        }
        let ghost kp0 = old(self).view().known_processes;
        let mut i: usize = 0;
        while i < procs.len()
            invariant
                i <= procs.len(),
                kp0 == old(self).view().known_processes,
                self.view() == (EngineView {
                    known_processes: procs_fold(kp0, procs@.subrange(0, i as int), false, now).0,
                    ..old(self).view()
                }),
            decreases procs.len() - i,
        {
            assert(procs@.subrange(0, i + 1).drop_last() =~= procs@.subrange(0, i as int));
            let key = to_lowercase(procs[i].name.as_str());
            let mut tmp_known_processes = StrMap::new();
            proof {
                use_type_invariant(&*self);
            }
            std::mem::swap(&mut tmp_known_processes, &mut self.known_processes);
            tmp_known_processes.set(key, now);
            self.known_processes = tmp_known_processes;
            i = i + 1;
            assert(self.view() =~= EngineView {
                known_processes: procs_fold(kp0, procs@.subrange(0, i as int), false, now).0,
                ..old(self).view()
            });
        }
        assert(procs@.subrange(0, procs.len() as int) =~= procs@);
    }

    fn rate_check(&mut self, rate: &StrMap<u64>, tick: u64) -> (r: Vec<Finding>)
        ensures
            (final(self).view(), findings_view(r@)) == rate_fold(old(self).view(), rate.view(), tick),
    {
        proof {
            use_type_invariant(&*self);
        }
        let mut out: Vec<Finding> = Vec::new();
        let mut i: usize = 0;
        while i < rate.items.len()
            invariant
                i <= rate.items.len(),
                (self.view(), findings_view(out@)) == rate_fold(old(self).view(), rate.view().subrange(0, i as int), tick),
            decreases rate.items.len() - i,
        {
            assert(rate.view().subrange(0, i + 1).drop_last() =~= rate.view().subrange(0, i as int));
            let n = rate.items[i].1;
            let ghost f0 = out@;
            if n >= 20 {
                let key = concat("rate|", rate.items[i].0.as_str());
                if self.allow(key.as_str(), tick, 300000) {
                    let mut ind = one_indicator("repeated_connection_attempts");
                    let ghost i0 = ind@;
                    let l = labelled_count("count:", n);
                    ind.push(l);
                    assert(strs_view(ind@) =~= strs_view(i0).push(l@));
                    let f = make_finding(
                        RuleId::UnusualConnectionRate,
                        ind,
                        None,
                        None,
                        Some(rate.items[i].0.clone()),
                        true,
                        FindingDetails::Count { count: n },
                        String::from_str("Unusual connection rate"),
                    );
                    assert(f.view() =~= rate_finding(rate.view()[i as int].0, n));
                    out.push(f);
                    assert(findings_view(out@) =~= findings_view(f0).push(f.view()));
                }
            }
            i = i + 1;
        }
        assert(rate.view().subrange(0, rate.items.len() as int) =~= rate.view());
        out
    }

    /// Note a batch of connections (see `connections_result`): first seen
    /// destinations per process, blocklisted remotes, probing patterns and
    /// connection rates. `tick` is monotonic time, `now` wall-clock time.
    pub fn observe_connections(
        &mut self,
        conns: &Vec<Connection>,
        processes: &Vec<ProcessInfo>,
        blocklist: &BlocklistManager,
        tick: u64,
        now: i64,
    ) -> (r: Vec<Finding>)
        ensures
            (final(self).view(), findings_view(r@)) == connections_result(
                old(self).view(),
                conns@,
                processes@,
                blocklist.blocked(),
                tick,
                now,
            ),
    {
        self.note_processes(processes, now);
        let ghost s0 = self.view();
        let mut rate: StrMap<u64> = StrMap::new();
        let mut out: Vec<Finding> = Vec::new();
        let mut i: usize = 0;
        assert(rate.view() =~= Seq::<(Seq<char>, u64)>::empty());
        while i < conns.len()
            invariant
                i <= conns.len(),
                ({
                    let res = conns_fold(s0, conns@.subrange(0, i as int), processes@, blocklist.blocked(), tick, now);
                    &&& self.view() == res.0
                    &&& rate.view() == res.1
                    &&& findings_view(out@) == res.2
                }),
                counts_at_most(rate.view(), i as int),
            decreases conns.len() - i,
        {
            assert(conns@.subrange(0, i + 1).drop_last() =~= conns@.subrange(0, i as int));
            let ghost r0 = rate.view();
            let ghost f0 = findings_view(out@);
            assert(counts_at_most(r0, u64::MAX - 1));
            let f = self.connection_step(&conns[i], processes, blocklist, &mut rate, tick, now);
            append_findings(&mut out, f);
            proof {
                if rate.view() == bump(r0, conn_dest(conns@[i as int])) {
                    lemma_bump_bounded(r0, conn_dest(conns@[i as int]), i as int);
                } else {
                    assert(rate.view() == r0);
                }
            }
            i = i + 1;
        }
        assert(conns@.subrange(0, conns.len() as int) =~= conns@);
        let ghost after = findings_view(out@);
        let f = self.rate_check(&rate, tick);
        append_findings(&mut out, f);
        out
    }
}

/// The key a connection's first sighting is remembered under.
pub open spec fn combo_of(c: Connection) -> Seq<char> {
    proc_key(c) + "|"@ + conn_dest(c)
}

/// The rules of a first-sighting finding.
pub open spec fn is_first_rule(r: RuleId) -> bool {
    r == RuleId::NewExternalConnection || r == RuleId::UnknownProcessNetworkAccess
}

pub open spec fn no_first_findings(fs: Seq<FindingView>) -> bool {
    forall|i: int| 0 <= i < fs.len() ==> !is_first_rule(#[trigger] fs[i].rule)
}

/// Every external connection of `cs` has its first sighting remembered.
pub open spec fn sightings_known(spd: Seq<(Seq<char>, i64)>, cs: Seq<Connection>) -> bool {
    forall|i: int| 0 <= i < cs.len() && spec_is_external(#[trigger] cs[i].remote_addr@)
        ==> assoc_get(spd, combo_of(cs[i])) is Some
}

pub open spec fn keys_kept(a: Seq<(Seq<char>, i64)>, b: Seq<(Seq<char>, i64)>) -> bool {
    forall|k: Seq<char>| #[trigger] assoc_get(a, k) is Some ==> assoc_get(b, k) is Some
}

proof fn lemma_set_keeps(a: Seq<(Seq<char>, i64)>, k: Seq<char>, v: i64)
    ensures
        keys_kept(a, assoc_set(a, k, v)),
        assoc_get(assoc_set(a, k, v), k) is Some,
{
    crate::assoc::lemma_assoc_set_get(a, k, v);
    assert forall|k2: Seq<char>| #[trigger] assoc_get(a, k2) is Some implies assoc_get(assoc_set(a, k, v), k2) is Some by {
        if k2 != k {
            crate::assoc::lemma_assoc_set_other(a, k, v, k2);
        }
    }
}

proof fn lemma_step_sightings(
    s: EngineView,
    rate: Seq<(Seq<char>, u64)>,
    c: Connection,
    procs: Seq<ProcessInfo>,
    blocked: Set<Seq<char>>,
    tick: u64,
    now: i64,
)
    ensures
        ({
            let r = conn_step(s, rate, c, procs, blocked, tick, now);
            &&& keys_kept(s.seen_process_dest, r.0.seen_process_dest)
            &&& spec_is_external(c.remote_addr@) ==> assoc_get(r.0.seen_process_dest, combo_of(c)) is Some
            &&& assoc_get(s.seen_process_dest, combo_of(c)) is Some ==> no_first_findings(r.2)
        }),
{
    let r = conn_step(s, rate, c, procs, blocked, tick, now);
    if spec_is_external(c.remote_addr@) {
        let s1 = EngineView {
            remote_first_seen: if assoc_get(s.remote_first_seen, c.remote_addr@) is None {
                assoc_set(s.remote_first_seen, c.remote_addr@, now)
            } else {
                s.remote_first_seen
            },
            ..s
        };
        let a = if is_syn(c) { scan_step(s1, c, tick) } else { (s1, Seq::empty()) };
        assert(a.0.seen_process_dest == s.seen_process_dest);
        let b = first_step(a.0, c, procs, now);
        if assoc_get(a.0.seen_process_dest, combo_of(c)) is None {
            lemma_set_keeps(a.0.seen_process_dest, combo_of(c), now);
        }
        let d = block_step(b.0, c, blocked, tick);
        assert(d.0.seen_process_dest == b.0.seen_process_dest);
        assert forall|i: int| 0 <= i < r.2.len() && assoc_get(s.seen_process_dest, combo_of(c)) is Some
            implies !is_first_rule(#[trigger] r.2[i].rule) by {
            assert(r.2 == a.1 + b.1 + d.1);
            assert(b.1.len() == 0);
            if i < a.1.len() {
                assert(r.2[i] == a.1[i]);
            } else {
                assert(r.2[i] == d.1[i - a.1.len()]);
            }
        }
    } else if is_syn(c) && !spec_is_external(c.local_addr@) {
        assert(r.0.seen_process_dest == s.seen_process_dest);
    }
}

proof fn lemma_rate_fold_plain(s: EngineView, rate: Seq<(Seq<char>, u64)>, tick: u64)
    ensures
        rate_fold(s, rate, tick).0.seen_process_dest == s.seen_process_dest,
        no_first_findings(rate_fold(s, rate, tick).1),
    decreases rate.len(),
{
    if rate.len() > 0 {
        lemma_rate_fold_plain(s, rate.drop_last(), tick);
    }
}

proof fn lemma_fold_sightings(
    s: EngineView,
    cs: Seq<Connection>,
    procs: Seq<ProcessInfo>,
    blocked: Set<Seq<char>>,
    tick: u64,
    now: i64,
)
    ensures
        ({
            let r = conns_fold(s, cs, procs, blocked, tick, now);
            &&& keys_kept(s.seen_process_dest, r.0.seen_process_dest)
            &&& sightings_known(r.0.seen_process_dest, cs)
        }),
    decreases cs.len(),
{
    if cs.len() > 0 {
        let prev = conns_fold(s, cs.drop_last(), procs, blocked, tick, now);
        lemma_fold_sightings(s, cs.drop_last(), procs, blocked, tick, now);
        lemma_step_sightings(prev.0, prev.1, cs.last(), procs, blocked, tick, now);
        let r = conns_fold(s, cs, procs, blocked, tick, now);
        assert forall|i: int| 0 <= i < cs.len() && spec_is_external(#[trigger] cs[i].remote_addr@)
            implies assoc_get(r.0.seen_process_dest, combo_of(cs[i])) is Some by {
            if i < cs.len() - 1 {
                assert(cs.drop_last()[i] == cs[i]);
                assert(assoc_get(prev.0.seen_process_dest, combo_of(cs[i])) is Some);
            }
        }
    }
}

proof fn lemma_fold_repeat_quiet(
    s: EngineView,
    all: Seq<Connection>,
    cs: Seq<Connection>,
    procs: Seq<ProcessInfo>,
    blocked: Set<Seq<char>>,
    tick: u64,
    now: i64,
)
    requires
        sightings_known(s.seen_process_dest, all),
        forall|i: int| 0 <= i < cs.len() ==> all.contains(#[trigger] cs[i]),
    ensures
        no_first_findings(conns_fold(s, cs, procs, blocked, tick, now).2),
        sightings_known(conns_fold(s, cs, procs, blocked, tick, now).0.seen_process_dest, all),
    decreases cs.len(),
{
    if cs.len() > 0 {
        let prev = conns_fold(s, cs.drop_last(), procs, blocked, tick, now);
        assert forall|i: int| 0 <= i < cs.drop_last().len() implies all.contains(#[trigger] cs.drop_last()[i]) by {
            assert(cs.drop_last()[i] == cs[i]);
        }
        lemma_fold_repeat_quiet(s, all, cs.drop_last(), procs, blocked, tick, now);
        let c = cs.last();
        assert(all.contains(cs[cs.len() - 1]));
        let j = choose|j: int| 0 <= j < all.len() && all[j] == c;
        lemma_step_sightings(prev.0, prev.1, c, procs, blocked, tick, now);
        let r = conns_fold(s, cs, procs, blocked, tick, now);
        let st = conn_step(prev.0, prev.1, c, procs, blocked, tick, now);
        if spec_is_external(c.remote_addr@) {
            assert(spec_is_external(all[j].remote_addr@));
        }
        assert(no_first_findings(st.2)) by {
            if !spec_is_external(c.remote_addr@) {
                if is_syn(c) && !spec_is_external(c.local_addr@) {
                    let a = inbound_step(prev.0, c, tick);
                    assert(st.2 == a.1);
                }
            }
        }
        assert forall|i: int| 0 <= i < r.2.len() implies !is_first_rule(#[trigger] r.2[i].rule) by {
            if i < prev.2.len() {
                assert(r.2[i] == prev.2[i]);
            } else {
                assert(r.2[i] == st.2[i - prev.2.len()]);
            }
        }
        assert forall|i: int| 0 <= i < all.len() && spec_is_external(#[trigger] all[i].remote_addr@)
            implies assoc_get(r.0.seen_process_dest, combo_of(all[i])) is Some by {
            assert(assoc_get(prev.0.seen_process_dest, combo_of(all[i])) is Some);
        }
    }
}

/// First sightings are reported once: observing a batch of connections
/// again, at any later time, raises no new-connection finding for it.
pub proof fn law_first_sighting_reported_once(
    s: EngineView,
    conns: Seq<Connection>,
    procs: Seq<ProcessInfo>,
    blocked: Set<Seq<char>>,
    tick1: u64,
    now1: i64,
    tick2: u64,
    now2: i64,
)
    ensures
        no_first_findings(
            connections_result(
                connections_result(s, conns, procs, blocked, tick1, now1).0,
                conns,
                procs,
                blocked,
                tick2,
                now2,
            ).1,
        ),
{
    let s0 = EngineView { known_processes: procs_fold(s.known_processes, procs, false, now1).0, ..s };
    let r = conns_fold(s0, conns, procs, blocked, tick1, now1);
    lemma_fold_sightings(s0, conns, procs, blocked, tick1, now1);
    lemma_rate_fold_plain(r.0, r.1, tick1);
    let s1 = connections_result(s, conns, procs, blocked, tick1, now1).0;
    assert(s1.seen_process_dest == r.0.seen_process_dest);
    let t0 = EngineView { known_processes: procs_fold(s1.known_processes, procs, false, now2).0, ..s1 };
    assert forall|i: int| 0 <= i < conns.len() implies conns.contains(#[trigger] conns[i]) by {}
    lemma_fold_repeat_quiet(t0, conns, conns, procs, blocked, tick2, now2);
    let r2 = conns_fold(t0, conns, procs, blocked, tick2, now2);
    lemma_rate_fold_plain(r2.0, r2.1, tick2);
    let all2 = connections_result(s1, conns, procs, blocked, tick2, now2).1;
    assert forall|i: int| 0 <= i < all2.len() implies !is_first_rule(#[trigger] all2[i].rule) by {
        if i < r2.2.len() {
            assert(all2[i] == r2.2[i]);
        } else {
            assert(all2[i] == rate_fold(r2.0, r2.1, tick2).1[i - r2.2.len()]);
        }
    }
}

/// Cooldown: firing (or pruning) under one key leaves another key's
/// stamp as it was, as long as that stamp is younger than a day.
pub proof fn law_cooldown_unaffected_by_other_keys(
    cd: Seq<(Seq<char>, u64)>,
    key: Seq<char>,
    other: Seq<char>,
    now: u64,
    window: u64,
)
    requires
        key != other,
        assoc_get(cd, key) is Some,
        elapsed(now, assoc_get(cd, key).unwrap()) < DAY_MS,
    ensures
        assoc_get(spec_allow(cd, other, now, window).0, key) == assoc_get(cd, key),
{
    let pruned = if cd.len() > COOLDOWN_PRUNE_AT { fresh_cooldowns(cd, now) } else { cd };
    if cd.len() > COOLDOWN_PRUNE_AT {
        lemma_fresh_keeps(cd, key, now);
    }
    crate::assoc::lemma_assoc_set_other(pruned, other, now, key);
}

/// A DNS name suppressed by feedback is never reported: a batch whose
/// every (lowercase) name is suppressed raises nothing.
pub proof fn law_suppressed_dns_not_reported(s: EngineView, qs: Seq<DnsQuery>, blocked: Set<Seq<char>>, tick: u64)
    requires
        forall|i: int| 0 <= i < qs.len() ==> suppressed_for(
            s.suppressed,
            RuleId::SuspiciousDnsQuery,
            lowercase_of(#[trigger] qs[i].query_name@),
        ),
    ensures
        dns_fold(s, qs, blocked, tick).1.len() == 0,
        dns_fold(s, qs, blocked, tick).0.suppressed == s.suppressed,
    decreases qs.len(),
{
    if qs.len() > 0 {
        assert forall|i: int| 0 <= i < qs.drop_last().len() implies suppressed_for(
            s.suppressed,
            RuleId::SuspiciousDnsQuery,
            lowercase_of(#[trigger] qs.drop_last()[i].query_name@),
        ) by {
            assert(qs.drop_last()[i] == qs[i]);
        }
        law_suppressed_dns_not_reported(s, qs.drop_last(), blocked, tick);
        assert(suppressed_for(s.suppressed, RuleId::SuspiciousDnsQuery, lowercase_of(qs[qs.len() - 1].query_name@)));
    }
}

/// A blocklisted connection is reported at most once per 15 minutes.
pub proof fn law_blocklisted_alert_cools_down(
    s: EngineView,
    c: Connection,
    blocked: Set<Seq<char>>,
    t1: u64,
    t2: u64,
)
    requires
        block_step(s, c, blocked, t1).1.len() > 0,
        t1 <= t2,
        t2 - t1 < 900000,
    ensures
        block_step(block_step(s, c, blocked, t1).0, c, blocked, t2).1.len() == 0,
{
    law_cooldown_refuses_repeat(s.cooldowns, "blocklisted|"@ + c.remote_addr@, t1, t2, 900000);
}

/// A bandwidth-quota alert is raised at most once per 23 hours for the
/// same reading.
pub proof fn law_quota_alert_once_per_window(
    s: EngineView,
    quota: Option<u64>,
    warning_pct: u8,
    used: u64,
    t1: u64,
    t2: u64,
)
    requires
        quota_step(s, quota, warning_pct, used, t1).1.len() > 0,
        t1 <= t2,
        t2 - t1 < 82800000,
    ensures
        quota_step(quota_step(s, quota, warning_pct, used, t1).0, quota, warning_pct, used, t2).1.len() == 0,
{
    let q = quota.unwrap();
    if quota_exceeded(used, q) {
        law_cooldown_refuses_repeat(s.cooldowns, "quota|exceeded"@, t1, t2, 82800000);
    } else {
        law_cooldown_refuses_repeat(s.cooldowns, "quota|warning"@, t1, t2, 82800000);
    }
}

/// Socket keys read back from stored baseline keys: those that decode,
/// each once, in order.
pub open spec fn decoded_port_keys(entries: Seq<(Seq<char>, i64)>) -> Seq<(Seq<char>, u16, Seq<char>)>
    decreases entries.len(),
{
    if entries.len() == 0 {
        Seq::empty()
    } else {
        let prev = decoded_port_keys(entries.drop_last());
        match spec_decode_port_key(entries.last().0) {
            Some(k) => if prev.contains(k) { prev } else { prev.push(k) },
            None => prev,
        }
    }
}

pub open spec fn map_keys(entries: Seq<(Seq<char>, i64)>) -> Seq<Seq<char>> {
    entries.map_values(|e: (Seq<char>, i64)| e.0)
}

/// The engine after restoring stored baselines; each table given replaces
/// the current one, and non-empty socket and service tables count as
/// primed.
pub open spec fn restored(
    s: EngineView,
    dest: Option<Seq<(Seq<char>, i64)>>,
    procs: Option<Seq<(Seq<char>, i64)>>,
    ports: Option<Seq<(Seq<char>, i64)>>,
    services: Option<Seq<(Seq<char>, i64)>>,
) -> EngineView {
    let s1 = match dest { Some(d) => EngineView { seen_process_dest: d, ..s }, None => s };
    let s2 = match procs { Some(p) => EngineView { known_processes: p, ..s1 }, None => s1 };
    let s3 = match ports {
        Some(p) => if decoded_port_keys(p).len() > 0 {
            EngineView { known_ports: decoded_port_keys(p), primed_ports: true, ..s2 }
        } else {
            s2
        },
        None => s2,
    };
    match services {
        Some(m) => if m.len() > 0 {
            EngineView { known_services: map_keys(m), primed_services: true, ..s3 }
        } else {
            s3
        },
        None => s3,
    }
}

pub open spec fn opt_map_view(o: Option<StrMap<i64>>) -> Option<Seq<(Seq<char>, i64)>> {
    match o {
        Some(m) => Some(m.view()),
        None => None,
    }
}

/// What a stored value reads back as, when there is one.
pub open spec fn stored_entries(raw: Option<Seq<char>>, cap: nat, now: i64) -> Option<Seq<(Seq<char>, i64)>> {
    match raw {
        Some(r) => Some(crate::baseline::baseline_entries(
            crate::baseline::stamped_map_of(r),
            crate::baseline::key_list_of(r),
            now,
            cap,
        )),
        None => None,
    }
}

pub open spec fn opt_str_view(o: Option<&str>) -> Option<Seq<char>> {
    match o {
        Some(s) => Some(s@),
        None => None,
    }
}

/// The first `cap` keys, each stamped `now`.
pub open spec fn stamp_keys(keys: Seq<Seq<char>>, now: i64, cap: nat) -> Seq<(Seq<char>, i64)> {
    keys.subrange(0, if keys.len() < cap { keys.len() as int } else { cap as int })
        .map_values(|k: Seq<char>| (k, now))
}

/// The four baseline tables to store.
pub struct BaselineRows {
    pub dest: Vec<(String, i64)>,
    pub procs: Vec<(String, i64)>,
    pub ports: Vec<(String, i64)>,
    pub services: Vec<(String, i64)>,
}

pub type RowsView = (Seq<(Seq<char>, i64)>, Seq<(Seq<char>, i64)>, Seq<(Seq<char>, i64)>, Seq<(Seq<char>, i64)>);

impl BaselineRows {
    pub open spec fn view(&self) -> RowsView {
        (
            crate::assoc::pairs_view(self.dest@),
            crate::assoc::pairs_view(self.procs@),
            crate::assoc::pairs_view(self.ports@),
            crate::assoc::pairs_view(self.services@),
        )
    }
}

/// The tables as stored: fresh and capped process/destination stamps,
/// and the first sockets (encoded) and services stamped `now`.
pub open spec fn baseline_rows_of(s: EngineView, now: i64) -> RowsView {
    (
        crate::baseline::fresh_capped(s.seen_process_dest, now, MAX_DESTS as nat).0,
        crate::baseline::fresh_capped(s.known_processes, now, MAX_PROCS as nat).0,
        stamp_keys(s.known_ports.map_values(|k: (Seq<char>, u16, Seq<char>)| port_key_text(k)), now, MAX_PORTS as nat),
        stamp_keys(s.known_services, now, MAX_SERVICES as nat),
    )
}

/// The (key, JSON) rows to write: each table whose JSON could be written.
pub open spec fn persisted_rows(r: RowsView) -> Seq<(Seq<char>, Seq<char>)> {
    let one = |name: Seq<char>, t: Seq<(Seq<char>, i64)>| match crate::baseline::stamped_map_json(t) {
        Some(j) => seq![(name, j)],
        None => Seq::<(Seq<char>, Seq<char>)>::empty(),
    };
    one("seen_process_dest"@, r.0) + one("known_processes"@, r.1) + one("known_ports"@, r.2)
        + one("known_services"@, r.3)
}

fn fresh_table(m: &StrMap<i64>, now: i64, cap: usize) -> (r: Vec<(String, i64)>)
    ensures
        crate::assoc::pairs_view(r@) == crate::baseline::fresh_capped(m.view(), now, cap as nat).0,
{
    let mut out: StrMap<i64> = StrMap::new();
    let mut n: usize = 0;
    let mut i: usize = 0;
    assert(out.view() =~= Seq::<(Seq<char>, i64)>::empty());
    while i < m.items.len()
        invariant
            i <= m.items.len(),
            (out.view(), n as nat) == crate::baseline::fresh_capped(m.view().subrange(0, i as int), now, cap as nat),
            n <= i,
        decreases m.items.len() - i,
    {
        assert(m.view().subrange(0, i + 1).drop_last() =~= m.view().subrange(0, i as int));
        let ts = m.items[i].1;
        if n < cap && (now as i128) - (ts as i128) < BASELINE_TTL_MS as i128 {
            out.set(m.items[i].0.clone(), ts);
            n = n + 1;
        }
        i = i + 1;
    }
    assert(m.view().subrange(0, m.items.len() as int) =~= m.view());
    out.into_items()
}

fn stamp_strings(keys: &Vec<String>, now: i64, cap: usize) -> (r: Vec<(String, i64)>)
    ensures
        crate::assoc::pairs_view(r@) == stamp_keys(strs_view(keys@), now, cap as nat),
{
    let mut out: Vec<(String, i64)> = Vec::new();
    let mut i: usize = 0;
    while i < keys.len() && i < cap
        invariant
            i <= keys.len(),
            i <= cap,
            crate::assoc::pairs_view(out@) == strs_view(keys@).subrange(0, i as int)
                .map_values(|k: Seq<char>| (k, now)),
        decreases keys.len() - i,
    {
        let ghost o0 = out@;
        let k = keys[i].clone();
        out.push((k, now));
        assert(crate::assoc::pairs_view(out@) =~= crate::assoc::pairs_view(o0).push((keys@[i as int]@, now)));
        assert(strs_view(keys@).subrange(0, i + 1).map_values(|k: Seq<char>| (k, now))
            =~= strs_view(keys@).subrange(0, i as int).map_values(|k: Seq<char>| (k, now)).push((keys@[i as int]@, now)));
        i = i + 1;
    }
    assert(crate::assoc::pairs_view(out@) =~= stamp_keys(strs_view(keys@), now, cap as nat));
    out
}

impl DetectionEngine {
    /// Replace baseline tables with stored ones (see `restored`).
    pub fn restore_baselines(
        &mut self,
        dest: Option<StrMap<i64>>,
        procs: Option<StrMap<i64>>,
        ports: Option<StrMap<i64>>,
        services: Option<StrMap<i64>>,
    )
        ensures
            final(self).view() == restored(
                old(self).view(),
                opt_map_view(dest),
                opt_map_view(procs),
                opt_map_view(ports),
                opt_map_view(services),
            ),
    {
        match dest {
            Some(d) => {
                proof {
                    use_type_invariant(&*self);
                }
                self.seen_process_dest = d;
            },
            None => {},
        }
        match procs {
            Some(p) => {
                proof {
                    use_type_invariant(&*self);
                }
                self.known_processes = p;
            },
            None => {},
        }
        let ghost s2 = self.view();
        match ports {
            Some(p) => {
                let mut keys: Vec<PortKey> = Vec::new();
                let mut i: usize = 0;
                while i < p.items.len()
                    invariant
                        i <= p.items.len(),
                        port_keys_view(keys@) == decoded_port_keys(p.view().subrange(0, i as int)),
                    decreases p.items.len() - i,
                {
                    assert(p.view().subrange(0, i + 1).drop_last() =~= p.view().subrange(0, i as int));
                    match PortKey::decode(p.items[i].0.as_str()) {
                        Some(k) => {
                            if !port_keys_contain(&keys, k.proto.as_str(), k.port, k.addr.as_str()) {
                                let ghost kv = k.view();
                                keys.push(k);
                                assert(port_keys_view(keys@) =~= decoded_port_keys(p.view().subrange(0, i as int)).push(kv));
                            }
                        },
                        None => {},
                    }
                    i = i + 1;
                }
                assert(p.view().subrange(0, p.items.len() as int) =~= p.view());
                if keys.len() > 0 {
                    proof {
                        use_type_invariant(&*self);
                        lemma_decoded_keys_distinct(p.view());
                    }
                    self.known_ports = keys;
                    self.primed_ports = true;
                }
            },
            None => {},
        }
        let ghost s3 = self.view();
        match services {
            Some(m) => {
                if m.items.len() > 0 {
                    let mut names: Vec<String> = Vec::new();
                    let mut i: usize = 0;
                    while i < m.items.len()
                        invariant
                            i <= m.items.len(),
                            strs_view(names@) == map_keys(m.view()).subrange(0, i as int),
                        decreases m.items.len() - i,
                    {
                        let ghost n0 = names@;
                        let k = m.items[i].0.clone();
                        names.push(k);
                        assert(strs_view(names@) =~= strs_view(n0).push(m.view()[i as int].0));
                        assert(map_keys(m.view()).subrange(0, i + 1) =~= map_keys(m.view()).subrange(0, i as int).push(m.view()[i as int].0));
                        i = i + 1;
                    }
                    assert(map_keys(m.view()).subrange(0, m.items.len() as int) =~= map_keys(m.view()));
                    proof {
                        use_type_invariant(&*self);
                        use_type_invariant(&m);
                        lemma_map_keys_distinct(m.view());
                    }
                    self.known_services = names;
                    self.primed_services = true;
                }
            },
            None => {},
        }
        assert(self.view() =~= restored(
            old(self).view(),
            opt_map_view(dest),
            opt_map_view(procs),
            opt_map_view(ports),
            opt_map_view(services),
        ));
    }

    /// Restore baselines from stored JSON values (`None` where no value is
    /// stored): each decays and is capped as it is read.
    pub fn load_baselines(
        &mut self,
        dest: Option<&str>,
        procs: Option<&str>,
        ports: Option<&str>,
        services: Option<&str>,
        now: i64,
    )
        ensures
            final(self).view() == restored(
                old(self).view(),
                stored_entries(opt_str_view(dest), MAX_DESTS as nat, now),
                stored_entries(opt_str_view(procs), MAX_PROCS as nat, now),
                stored_entries(opt_str_view(ports), MAX_PORTS as nat, now),
                stored_entries(opt_str_view(services), MAX_SERVICES as nat, now),
            ),
    {
        let d = match dest { Some(r) => Some(crate::baseline::decode_baseline(r, MAX_DESTS, now)), None => None };
        let p = match procs { Some(r) => Some(crate::baseline::decode_baseline(r, MAX_PROCS, now)), None => None };
        let k = match ports { Some(r) => Some(crate::baseline::decode_baseline(r, MAX_PORTS, now)), None => None };
        let v = match services {
            Some(r) => Some(crate::baseline::decode_baseline(r, MAX_SERVICES, now)),
            None => None,
        };
        self.restore_baselines(d, p, k, v);
    }

    /// The baseline tables to store at `now` (see `baseline_rows_of`).
    pub fn baseline_rows(&self, now: i64) -> (r: BaselineRows)
        ensures
            r.view() == baseline_rows_of(self.view(), now),
    {
        let dest = fresh_table(&self.seen_process_dest, now, MAX_DESTS);
        let procs = fresh_table(&self.known_processes, now, MAX_PROCS);
        let mut port_texts: Vec<String> = Vec::new();
        let mut i: usize = 0;
        while i < self.known_ports.len()
            invariant
                i <= self.known_ports.len(),
                strs_view(port_texts@) == port_keys_view(self.known_ports@).subrange(0, i as int)
                    .map_values(|k: (Seq<char>, u16, Seq<char>)| port_key_text(k)),
            decreases self.known_ports.len() - i,
        {
            let ghost p0 = port_texts@;
            let t = self.known_ports[i].encode();
            port_texts.push(t);
            let ghost kv = port_keys_view(self.known_ports@)[i as int];
            assert(strs_view(port_texts@) =~= strs_view(p0).push(port_key_text(kv)));
            assert(port_keys_view(self.known_ports@).subrange(0, i + 1).map_values(|k: (Seq<char>, u16, Seq<char>)| port_key_text(k))
                =~= port_keys_view(self.known_ports@).subrange(0, i as int)
                    .map_values(|k: (Seq<char>, u16, Seq<char>)| port_key_text(k)).push(port_key_text(kv)));
            i = i + 1;
        }
        assert(port_keys_view(self.known_ports@).subrange(0, self.known_ports.len() as int) =~= port_keys_view(self.known_ports@));
        let ports = stamp_strings(&port_texts, now, MAX_PORTS);
        let services = stamp_strings(&self.known_services, now, MAX_SERVICES);
        BaselineRows { dest, procs, ports, services }
    }

    /// The (key, JSON) rows to store at `now` (see `persisted_rows`).
    ///
    /// With every stamp in the years 0000 to 9999 all four tables are
    /// written, and a table whose keys are distinct reads back as what was
    /// written (see `law_written_table_reads_back`). The engine's tables
    /// always hold each key once (the premises of
    /// `law_baselines_survive_reload`).
    pub fn persist_baselines(&self, now: i64) -> (r: Vec<(String, String)>)
        ensures
            r@.map_values(|p: (String, String)| (p.0@, p.1@)) == persisted_rows(baseline_rows_of(self.view(), now)),
            all_stamps_in_range(baseline_rows_of(self.view(), now)) ==> r@.len() == 4,
            forall|i: int| 0 <= i < r@.len() ==> #[trigger] row_reads_back(r@[i].0@, r@[i].1@, baseline_rows_of(self.view(), now)),
            crate::assoc::unique_keys(self.view().seen_process_dest),
            crate::assoc::unique_keys(self.view().known_processes),
            self.view().known_ports.no_duplicates(),
            self.view().known_services.no_duplicates(),
    {
        proof {
            use_type_invariant(self);
            use_type_invariant(&self.seen_process_dest);
            use_type_invariant(&self.known_processes);
        }
        let rows = self.baseline_rows(now);
        let ghost rv = baseline_rows_of(self.view(), now);
        proof {
            reveal_strlit("seen_process_dest");
            reveal_strlit("known_processes");
            reveal_strlit("known_ports");
            reveal_strlit("known_services");
            assert("seen_process_dest"@.len() == 17 && "known_processes"@.len() == 15);
            assert("known_ports"@.len() == 11 && "known_services"@.len() == 14);
            assert(table_named(rv, "seen_process_dest"@) == rv.0);
            assert(table_named(rv, "known_processes"@) == rv.1);
            assert("known_ports"@ != "known_processes"@);
            assert(table_named(rv, "known_ports"@) == rv.2);
            assert("known_services"@ != "known_processes"@);
            assert(table_named(rv, "known_services"@) == rv.3);
        }
        let mut out: Vec<(String, String)> = Vec::new();
        let j0 = crate::baseline::render_stamped_map(&rows.dest);
        match j0 {
            Some(j) => out.push((String::from_str("seen_process_dest"), j)),
            None => {},
        }
        assert(forall|i: int| 0 <= i < out@.len() ==> #[trigger] row_reads_back(out@[i].0@, out@[i].1@, rv));
        let j1 = crate::baseline::render_stamped_map(&rows.procs);
        match j1 {
            Some(j) => out.push((String::from_str("known_processes"), j)),
            None => {},
        }
        assert(forall|i: int| 0 <= i < out@.len() ==> #[trigger] row_reads_back(out@[i].0@, out@[i].1@, rv));
        let j2 = crate::baseline::render_stamped_map(&rows.ports);
        match j2 {
            Some(j) => out.push((String::from_str("known_ports"), j)),
            None => {},
        }
        assert(forall|i: int| 0 <= i < out@.len() ==> #[trigger] row_reads_back(out@[i].0@, out@[i].1@, rv));
        let j3 = crate::baseline::render_stamped_map(&rows.services);
        match j3 {
            Some(j) => out.push((String::from_str("known_services"), j)),
            None => {},
        }
        assert(forall|i: int| 0 <= i < out@.len() ==> #[trigger] row_reads_back(out@[i].0@, out@[i].1@, rv));
        assert(out@.map_values(|p: (String, String)| (p.0@, p.1@)) =~= persisted_rows(baseline_rows_of(self.view(), now)));
        out
    }
}

/// The table stored under `name`.
pub open spec fn table_named(r: RowsView, name: Seq<char>) -> Seq<(Seq<char>, i64)> {
    if name == "seen_process_dest"@ {
        r.0
    } else if name == "known_processes"@ {
        r.1
    } else if name == "known_ports"@ {
        r.2
    } else {
        r.3
    }
}

pub open spec fn all_stamps_in_range(r: RowsView) -> bool {
    crate::baseline::stamps_in_range(r.0) && crate::baseline::stamps_in_range(r.1)
        && crate::baseline::stamps_in_range(r.2) && crate::baseline::stamps_in_range(r.3)
}

/// A stored row reads back as its table, when that table's keys are
/// distinct and its stamps in range.
pub open spec fn row_reads_back(name: Seq<char>, json: Seq<char>, r: RowsView) -> bool {
    let t = table_named(r, name);
    crate::assoc::unique_keys(t) && crate::baseline::stamps_in_range(t) ==> crate::baseline::reads_back_as(json, t)
}

/// A stored text that decodes to a key whose text it is.
pub open spec fn is_key_text(t: Seq<char>) -> bool {
    match spec_decode_port_key(t) {
        Some(k) => port_key_text(k) == t,
        None => false,
    }
}

/// Decoding stored socket keys whose texts are distinct and each the text
/// of a key: one key per entry, none repeated.
proof fn lemma_decoded_distinct(p: Seq<(Seq<char>, i64)>)
    requires
        crate::assoc::unique_keys(p),
        forall|i: int| 0 <= i < p.len() ==> is_key_text(#[trigger] p[i].0),
    ensures
        decoded_port_keys(p).len() == p.len(),
        decoded_port_keys(p).no_duplicates(),
        forall|k: (Seq<char>, u16, Seq<char>)| decoded_port_keys(p).contains(k)
            <==> exists|i: int| 0 <= i < p.len() && spec_decode_port_key(p[i].0) == Some(k),
    decreases p.len(),
{
    if p.len() > 0 {
        let q = p.drop_last();
        assert forall|i: int| 0 <= i < q.len() implies is_key_text(#[trigger] q[i].0) by {
            assert(q[i] == p[i]);
        }
        lemma_decoded_distinct(q);
        let prev = decoded_port_keys(q);
        let last = p.len() - 1;
        assert(is_key_text(p[last].0));
        let k = spec_decode_port_key(p.last().0)->0;
        if prev.contains(k) {
            let i = choose|i: int| 0 <= i < q.len() && spec_decode_port_key(q[i].0) == Some(k);
            assert(q[i] == p[i]);
            assert(is_key_text(p[i].0));
            assert(p[i].0 == port_key_text(k));
            assert(false);
        }
        assert forall|k2: (Seq<char>, u16, Seq<char>)| decoded_port_keys(p).contains(k2)
            implies exists|i: int| 0 <= i < p.len() && spec_decode_port_key(p[i].0) == Some(k2) by {
            if k2 == k {
                assert(spec_decode_port_key(p[last].0) == Some(k2));
            } else {
                assert(prev.contains(k2));
                let i = choose|i: int| 0 <= i < q.len() && spec_decode_port_key(q[i].0) == Some(k2);
                assert(q[i] == p[i]);
            }
        }
        assert forall|k2: (Seq<char>, u16, Seq<char>)| (exists|i: int| 0 <= i < p.len() && spec_decode_port_key(p[i].0) == Some(k2))
            implies decoded_port_keys(p).contains(k2) by {
            let i = choose|i: int| 0 <= i < p.len() && spec_decode_port_key(p[i].0) == Some(k2);
            if i == last {
                assert(prev.push(k)[prev.len() as int] == k2);
            } else {
                assert(q[i] == p[i]);
                assert(prev.contains(k2));
                let w = choose|w: int| 0 <= w < prev.len() && prev[w] == k2;
                assert(prev.push(k)[w] == k2);
            }
        }
    }
}

/// Baselines written at `t0` and loaded back at `t1`, with every stored
/// table reading back as written, every entry still fresh and each table
/// within its cap, hold what the engine held: the destination and process
/// tables the same (key, time) pairs, the socket and service inventories
/// the same items (in the stored key order), and a non-empty inventory
/// counts as primed again.
pub proof fn law_baselines_survive_reload(
    s: EngineView,
    base: EngineView,
    t0: i64,
    t1: i64,
    dest_json: Seq<char>,
    procs_json: Seq<char>,
    ports_json: Seq<char>,
    services_json: Seq<char>,
)
    requires
        crate::baseline::reads_back_as(dest_json, baseline_rows_of(s, t0).0),
        crate::baseline::reads_back_as(procs_json, baseline_rows_of(s, t0).1),
        crate::baseline::reads_back_as(ports_json, baseline_rows_of(s, t0).2),
        crate::baseline::reads_back_as(services_json, baseline_rows_of(s, t0).3),
        crate::assoc::unique_keys(s.seen_process_dest),
        crate::assoc::unique_keys(s.known_processes),
        s.known_ports.no_duplicates(),
        s.known_services.no_duplicates(),
        forall|i: int| 0 <= i < s.known_ports.len() ==> !(#[trigger] s.known_ports[i]).0.contains('|')
            && !s.known_ports[i].2.contains('|'),
        s.seen_process_dest.len() <= MAX_DESTS,
        s.known_processes.len() <= MAX_PROCS,
        s.known_ports.len() <= MAX_PORTS,
        s.known_services.len() <= MAX_SERVICES,
        forall|i: int| 0 <= i < s.seen_process_dest.len() ==> crate::baseline::is_fresh(t0, #[trigger] s.seen_process_dest[i].1)
            && crate::baseline::is_fresh(t1, s.seen_process_dest[i].1),
        forall|i: int| 0 <= i < s.known_processes.len() ==> crate::baseline::is_fresh(t0, #[trigger] s.known_processes[i].1)
            && crate::baseline::is_fresh(t1, s.known_processes[i].1),
        crate::baseline::is_fresh(t1, t0),
    ensures
        ({
            let r = restored(
                base,
                stored_entries(Some(dest_json), MAX_DESTS as nat, t1),
                stored_entries(Some(procs_json), MAX_PROCS as nat, t1),
                stored_entries(Some(ports_json), MAX_PORTS as nat, t1),
                stored_entries(Some(services_json), MAX_SERVICES as nat, t1),
            );
            &&& r.seen_process_dest.to_multiset() == s.seen_process_dest.to_multiset()
            &&& r.known_processes.to_multiset() == s.known_processes.to_multiset()
            &&& s.known_ports.len() > 0 ==> {
                &&& r.primed_ports
                &&& r.known_ports.no_duplicates()
                &&& forall|k: (Seq<char>, u16, Seq<char>)| r.known_ports.contains(k) <==> s.known_ports.contains(k)
            }
            &&& s.known_services.len() > 0 ==> {
                &&& r.primed_services
                &&& r.known_services.no_duplicates()
                &&& forall|k: Seq<char>| r.known_services.contains(k) <==> s.known_services.contains(k)
            }
        }),
{
    broadcast use vstd::seq_lib::group_to_multiset_ensures;
    let rows = baseline_rows_of(s, t0);
    // The destination and process tables are written as they are.
    crate::baseline::lemma_fresh_table_kept(s.seen_process_dest, t0, MAX_DESTS as nat);
    crate::baseline::lemma_fresh_table_kept(s.known_processes, t0, MAX_PROCS as nat);
    crate::baseline::law_written_table_reads_back(rows.0, dest_json, t1, MAX_DESTS as nat);
    crate::baseline::law_written_table_reads_back(rows.1, procs_json, t1, MAX_PROCS as nat);
    // The socket inventory: each key written as its text, stamped `t0`.
    let texts = s.known_ports.map_values(|k: (Seq<char>, u16, Seq<char>)| port_key_text(k));
    assert(rows.2 =~= texts.map_values(|t: Seq<char>| (t, t0)));
    assert forall|i: int| 0 <= i < rows.2.len() implies crate::baseline::is_fresh(t1, #[trigger] rows.2[i].1) by {}
    crate::baseline::law_written_table_reads_back(rows.2, ports_json, t1, MAX_PORTS as nat);
    let p2 = crate::baseline::stamped_map_of(ports_json)->0;
    assert forall|i: int| #![trigger p2[i]] 0 <= i < p2.len() implies exists|j: int|
        #![trigger s.known_ports[j]] 0 <= j < s.known_ports.len() && p2[i] == (port_key_text(s.known_ports[j]), t0) by {
        assert(p2.contains(p2[i]));
        assert(p2.to_multiset().count(p2[i]) > 0);
        assert(rows.2.to_multiset().count(p2[i]) > 0);
        assert(rows.2.contains(p2[i]));
        let j = choose|j: int| 0 <= j < rows.2.len() && rows.2[j] == p2[i];
        assert(rows.2[j] == (port_key_text(s.known_ports[j]), t0));
    }
    assert forall|i: int| 0 <= i < p2.len() implies is_key_text(#[trigger] p2[i].0) by {
        let j = choose|j: int| 0 <= j < s.known_ports.len() && p2[i] == (port_key_text(s.known_ports[j]), t0);
        law_port_key_roundtrip(s.known_ports[j]);
    }
    lemma_decoded_distinct(p2);
    assert(p2.len() == s.known_ports.len()) by {
        assert(p2.to_multiset().len() == rows.2.to_multiset().len());
    }
    assert forall|k: (Seq<char>, u16, Seq<char>)| decoded_port_keys(p2).contains(k) implies s.known_ports.contains(k) by {
        let i = choose|i: int| 0 <= i < p2.len() && spec_decode_port_key(p2[i].0) == Some(k);
        let j = choose|j: int| 0 <= j < s.known_ports.len() && p2[i] == (port_key_text(s.known_ports[j]), t0);
        law_port_key_roundtrip(s.known_ports[j]);
        assert(s.known_ports[j] == k);
    }
    assert forall|k: (Seq<char>, u16, Seq<char>)| s.known_ports.contains(k) implies decoded_port_keys(p2).contains(k) by {
        let j = choose|j: int| 0 <= j < s.known_ports.len() && s.known_ports[j] == k;
        assert(rows.2[j] == (port_key_text(k), t0));
        assert(rows.2.contains(rows.2[j]));
        assert(rows.2.to_multiset().count(rows.2[j]) > 0);
        assert(p2.contains(rows.2[j]));
        let i = choose|i: int| 0 <= i < p2.len() && p2[i] == rows.2[j];
        law_port_key_roundtrip(k);
        assert(spec_decode_port_key(p2[i].0) == Some(k));
    }
    // The service inventory: each name stamped `t0`.
    assert(rows.3 =~= s.known_services.map_values(|k: Seq<char>| (k, t0)));
    assert forall|i: int| 0 <= i < rows.3.len() implies crate::baseline::is_fresh(t1, #[trigger] rows.3[i].1) by {}
    crate::baseline::law_written_table_reads_back(rows.3, services_json, t1, MAX_SERVICES as nat);
    let p3 = crate::baseline::stamped_map_of(services_json)->0;
    assert(p3.len() == s.known_services.len()) by {
        assert(p3.to_multiset().len() == rows.3.to_multiset().len());
    }
    let names = map_keys(p3);
    assert forall|k: Seq<char>| names.contains(k) implies s.known_services.contains(k) by {
        let i = choose|i: int| 0 <= i < names.len() && names[i] == k;
        assert(p3.contains(p3[i]));
        assert(p3.to_multiset().count(p3[i]) > 0);
        assert(rows.3.to_multiset().count(p3[i]) > 0);
        assert(rows.3.contains(p3[i]));
        let j = choose|j: int| 0 <= j < rows.3.len() && rows.3[j] == p3[i];
        assert(s.known_services[j] == k);
    }
    assert forall|k: Seq<char>| s.known_services.contains(k) implies names.contains(k) by {
        let j = choose|j: int| 0 <= j < s.known_services.len() && s.known_services[j] == k;
        assert(rows.3.contains(rows.3[j]));
        assert(rows.3.to_multiset().count(rows.3[j]) > 0);
        assert(p3.contains(rows.3[j]));
        let i = choose|i: int| 0 <= i < p3.len() && p3[i] == rows.3[j];
        assert(names[i] == k);
    }
    assert(names.no_duplicates()) by {
        assert forall|i: int, j: int| 0 <= i < names.len() && 0 <= j < names.len() && i != j
            implies names[i] != names[j] by {
            if i < j {
                assert(p3[i].0 != p3[j].0);
            } else {
                assert(p3[j].0 != p3[i].0);
            }
        }
    }
}

proof fn lemma_keys_dedup_covers(ports: Seq<ListeningPort>)
    ensures
        forall|i: int| 0 <= i < ports.len() ==> keys_dedup(ports).contains(port_key_of(#[trigger] ports[i])),
    decreases ports.len(),
{
    if ports.len() > 0 {
        lemma_keys_dedup_covers(ports.drop_last());
        let k = keys_dedup(ports.drop_last());
        assert forall|i: int| 0 <= i < ports.len() implies keys_dedup(ports).contains(port_key_of(#[trigger] ports[i])) by {
            if i < ports.len() - 1 {
                assert(ports.drop_last()[i] == ports[i]);
                assert(k.contains(port_key_of(ports[i])));
                if !k.contains(port_key_of(ports.last())) {
                    let w = choose|w: int| 0 <= w < k.len() && k[w] == port_key_of(ports[i]);
                    assert(k.push(port_key_of(ports.last()))[w] == port_key_of(ports[i]));
                }
            } else {
                if !k.contains(port_key_of(ports.last())) {
                    assert(k.push(port_key_of(ports.last()))[k.len() as int] == port_key_of(ports.last()));
                }
            }
        }
    }
}

proof fn lemma_opened_none(known: Seq<(Seq<char>, u16, Seq<char>)>, ports: Seq<ListeningPort>)
    requires
        forall|i: int| 0 <= i < ports.len() ==> known.contains(port_key_of(#[trigger] ports[i])),
    ensures
        opened_ports(known, ports).len() == 0,
    decreases ports.len(),
{
    if ports.len() > 0 {
        assert forall|i: int| 0 <= i < ports.drop_last().len() implies known.contains(port_key_of(#[trigger] ports.drop_last()[i])) by {
            assert(ports.drop_last()[i] == ports[i]);
        }
        lemma_opened_none(known, ports.drop_last());
        assert(known.contains(port_key_of(ports[ports.len() - 1])));
    }
}

proof fn lemma_closed_none(known: Seq<(Seq<char>, u16, Seq<char>)>, cur: Seq<(Seq<char>, u16, Seq<char>)>)
    requires
        forall|i: int| 0 <= i < known.len() ==> cur.contains(#[trigger] known[i]),
    ensures
        closed_keys(known, cur).len() == 0,
    decreases known.len(),
{
    if known.len() > 0 {
        assert forall|i: int| 0 <= i < known.drop_last().len() implies cur.contains(#[trigger] known.drop_last()[i]) by {
            assert(known.drop_last()[i] == known[i]);
        }
        lemma_closed_none(known.drop_last(), cur);
        assert(cur.contains(known[known.len() - 1]));
    }
}

/// A socket set that does not change raises nothing: observing the same
/// listening sockets again reports no opened and no closed port.
pub proof fn law_stable_ports_are_quiet(ports: Seq<ListeningPort>)
    ensures
        opened_ports(keys_dedup(ports), ports).len() == 0,
        closed_keys(keys_dedup(ports), keys_dedup(ports)).len() == 0,
{
    lemma_keys_dedup_covers(ports);
    lemma_opened_none(keys_dedup(ports), ports);
    assert forall|i: int| 0 <= i < keys_dedup(ports).len() implies keys_dedup(ports).contains(#[trigger] keys_dedup(ports)[i]) by {}
    lemma_closed_none(keys_dedup(ports), keys_dedup(ports));
}

proof fn lemma_running_names_cover(svcs: Seq<ServiceInfo>)
    ensures
        forall|i: int| 0 <= i < svcs.len() && (#[trigger] svcs[i]).status@ == "running"@
            ==> running_names(svcs).contains(svcs[i].name@),
    decreases svcs.len(),
{
    if svcs.len() > 0 {
        lemma_running_names_cover(svcs.drop_last());
        let k = running_names(svcs.drop_last());
        let x = svcs.last();
        assert forall|i: int| 0 <= i < svcs.len() && (#[trigger] svcs[i]).status@ == "running"@
            implies running_names(svcs).contains(svcs[i].name@) by {
            if i < svcs.len() - 1 {
                assert(svcs.drop_last()[i] == svcs[i]);
                assert(k.contains(svcs[i].name@));
                if x.status@ == "running"@ && !k.contains(x.name@) {
                    let w = choose|w: int| 0 <= w < k.len() && k[w] == svcs[i].name@;
                    assert(k.push(x.name@)[w] == svcs[i].name@);
                }
            } else {
                if !k.contains(x.name@) {
                    assert(k.push(x.name@)[k.len() as int] == x.name@);
                }
            }
        }
    }
}

proof fn lemma_started_none(known: Seq<Seq<char>>, svcs: Seq<ServiceInfo>)
    requires
        forall|i: int| 0 <= i < svcs.len() && (#[trigger] svcs[i]).status@ == "running"@ ==> known.contains(svcs[i].name@),
    ensures
        started_services(known, svcs).len() == 0,
    decreases svcs.len(),
{
    if svcs.len() > 0 {
        assert forall|i: int| 0 <= i < svcs.drop_last().len() && (#[trigger] svcs.drop_last()[i]).status@ == "running"@
            implies known.contains(svcs.drop_last()[i].name@) by {
            assert(svcs.drop_last()[i] == svcs[i]);
        }
        lemma_started_none(known, svcs.drop_last());
        let x = svcs[svcs.len() - 1];
        if x.status@ == "running"@ {
            assert(known.contains(x.name@));
        }
    }
}

/// Services that keep running raise nothing: observing the same services
/// again reports no newly started one.
pub proof fn law_running_services_are_quiet(svcs: Seq<ServiceInfo>)
    ensures
        started_services(running_names(svcs), svcs).len() == 0,
{
    lemma_running_names_cover(svcs);
    lemma_started_none(running_names(svcs), svcs);
}

} // verus!
