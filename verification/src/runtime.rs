//! The agent loop's decisions: which collection tiers are due on a pass,
//! how monthly byte counts advance, which DNS names are new, and how a
//! finding becomes a stored event and a timeline line. The loop itself
//! (sleeping, collecting, storing, publishing) runs outside.
use vstd::prelude::*;
use crate::detection::spec_score;
use crate::engine::{elapsed, Finding, FindingView};
use crate::events::{
    assessment_text, rule_name, why_text, ProcessRef, RiskLevel, SecurityEvent, TimelineEntry,
};
use crate::hostinfo::{cap_batch, dns_query_view, DnsQueryView};
use crate::metrics::{strs_view, DnsQuery, NetworkInterface};

verus! {

/// The configured cadences, in seconds.
pub struct Cadence {
    pub metrics_secs: u64,
    pub sockets_secs: u64,
    pub processes_secs: u64,
    pub services_secs: u64,
}

pub open spec fn at_least(v: u64, m: u64) -> int {
    if v < m { m as int } else { v as int }
}

/// A tier is due once its interval (in whole seconds) has passed.
pub open spec fn is_due(last: u64, now: u64, secs: int) -> bool {
    elapsed(now, last) >= secs * 1000
}

/// What a pass of the loop runs.
#[derive(Debug)]
pub struct Due {
    pub device: bool,
    pub metrics: bool,
    pub interfaces: bool,
    pub sockets: bool,
    pub processes: bool,
    pub services: bool,
    pub persist: bool,
    pub prune: bool,
}

/// When each tier last ran (monotonic milliseconds).
pub struct RunClock {
    pub last_device: u64,
    pub last_metrics: u64,
    pub last_interfaces: u64,
    pub last_sockets: u64,
    pub last_processes: u64,
    pub last_services: u64,
    pub last_persist: u64,
    pub last_prune: u64,
}

/// `t` moved back by `d`, or `t` itself when that would go below zero.
pub open spec fn back_off(t: u64, d: u64) -> u64 {
    if t >= d { (t - d) as u64 } else { t }
}

/// The clock's state after a pass at `now`: each tier that ran is stamped.
pub open spec fn clock_after(c: RunClock, now: u64, d: Due) -> RunClock {
    RunClock {
        last_device: if d.device { now } else { c.last_device },
        last_metrics: if d.metrics { now } else { c.last_metrics },
        last_interfaces: if d.interfaces { now } else { c.last_interfaces },
        last_sockets: if d.sockets { now } else { c.last_sockets },
        last_processes: if d.processes { now } else { c.last_processes },
        last_services: if d.services { now } else { c.last_services },
        last_persist: if d.persist { now } else { c.last_persist },
        last_prune: if d.prune { now } else { c.last_prune },
    }
}

/// Which tiers run on a pass at `now`: the device record every ten
/// minutes; metrics, sockets, processes and services at their cadences
/// (at least 1, 1, 2 and 5 s); the interface table with metrics, at most
/// every 30 s; baselines every minute; retention every ten minutes.
pub open spec fn due_at(c: RunClock, now: u64, k: Cadence) -> Due {
    let metrics = is_due(c.last_metrics, now, at_least(k.metrics_secs, 1));
    Due {
        device: is_due(c.last_device, now, 600),
        metrics,
        interfaces: metrics && is_due(c.last_interfaces, now, 30),
        sockets: is_due(c.last_sockets, now, at_least(k.sockets_secs, 1)),
        processes: is_due(c.last_processes, now, at_least(k.processes_secs, 2)),
        services: is_due(c.last_services, now, at_least(k.services_secs, 5)),
        persist: is_due(c.last_persist, now, 60),
        prune: is_due(c.last_prune, now, 600),
    }
}

fn due_exec(last: u64, now: u64, secs: u64) -> (r: bool)
    ensures
        r == is_due(last, now, secs as int),
{
    let e: u64 = if now >= last { now - last } else { 0 };
    (e as u128) >= (secs as u128) * 1000
}

impl RunClock {
    /// The clock when the loop starts at `start`: the collection tiers
    /// (and the interface table) a minute in the past, so they run at
    /// once; the device record an hour in the past; baselines and
    /// retention just done.
    pub fn new(start: u64) -> (r: Self)
        ensures
            r.last_metrics == back_off(start, 60000),
            r.last_interfaces == back_off(start, 60000),
            r.last_sockets == back_off(start, 60000),
            r.last_processes == back_off(start, 60000),
            r.last_services == back_off(start, 60000),
            r.last_device == back_off(start, 3600000),
            r.last_persist == start,
            r.last_prune == start,
    {
        let early = if start >= 60000 { start - 60000 } else { start };
        RunClock {
            last_device: if start >= 3600000 { start - 3600000 } else { start },
            last_metrics: early,
            last_interfaces: early,
            last_sockets: early,
            last_processes: early,
            last_services: early,
            last_persist: start,
            last_prune: start,
        }
    }

    /// Decide a pass at `now` (see `due_at`) and stamp what runs.
    pub fn pass(&mut self, now: u64, k: &Cadence) -> (d: Due)
        ensures
            d == due_at(*old(self), now, *k),
            *final(self) == clock_after(*old(self), now, d),
    {
        let ms = if k.metrics_secs < 1 { 1 } else { k.metrics_secs };
        let ss = if k.sockets_secs < 1 { 1 } else { k.sockets_secs };
        let ps = if k.processes_secs < 2 { 2 } else { k.processes_secs };
        let vs = if k.services_secs < 5 { 5 } else { k.services_secs };
        let metrics = due_exec(self.last_metrics, now, ms);
        let d = Due {
            device: due_exec(self.last_device, now, 600),
            metrics,
            interfaces: metrics && due_exec(self.last_interfaces, now, 30),
            sockets: due_exec(self.last_sockets, now, ss),
            processes: due_exec(self.last_processes, now, ps),
            services: due_exec(self.last_services, now, vs),
            persist: due_exec(self.last_persist, now, 60),
            prune: due_exec(self.last_prune, now, 600),
        };
        if d.device {
            self.last_device = now;
        }
        if d.metrics {
            self.last_metrics = now;
        }
        if d.interfaces {
            self.last_interfaces = now;
        }
        if d.sockets {
            self.last_sockets = now;
        }
        if d.processes {
            self.last_processes = now;
        }
        if d.services {
            self.last_services = now;
        }
        if d.persist {
            self.last_persist = now;
        }
        if d.prune {
            self.last_prune = now;
        }
        d
    }
}

// ------------------------------------------------------------ bandwidth

/// Total bytes received and sent over all interfaces.
pub open spec fn total_rx(ifaces: Seq<NetworkInterface>) -> nat
    decreases ifaces.len(),
{
    if ifaces.len() == 0 { 0 } else { total_rx(ifaces.drop_last()) + ifaces.last().rx_total_bytes as nat }
}

pub open spec fn total_tx(ifaces: Seq<NetworkInterface>) -> nat
    decreases ifaces.len(),
{
    if ifaces.len() == 0 { 0 } else { total_tx(ifaces.drop_last()) + ifaces.last().tx_total_bytes as nat }
}

proof fn lemma_totals_grow(ifaces: Seq<NetworkInterface>, i: int)
    requires
        0 <= i <= ifaces.len(),
    ensures
        total_rx(ifaces.subrange(0, i)) <= total_rx(ifaces),
        total_tx(ifaces.subrange(0, i)) <= total_tx(ifaces),
    decreases ifaces.len() - i,
{
    if i < ifaces.len() {
        lemma_totals_grow(ifaces, i + 1);
        assert(ifaces.subrange(0, i + 1).drop_last() =~= ifaces.subrange(0, i));
    } else {
        assert(ifaces.subrange(0, i) =~= ifaces);
    }
}

/// The byte totals of all interfaces (which must fit 64 bits).
pub fn interface_totals(ifaces: &Vec<NetworkInterface>) -> (r: (u64, u64))
    requires
        total_rx(ifaces@) <= u64::MAX,
        total_tx(ifaces@) <= u64::MAX,
    ensures
        r.0 == total_rx(ifaces@),
        r.1 == total_tx(ifaces@),
{
    let mut rx: u64 = 0;
    let mut tx: u64 = 0;
    let mut i: usize = 0;
    while i < ifaces.len()
        invariant
            i <= ifaces.len(),
            total_rx(ifaces@) <= u64::MAX,
            total_tx(ifaces@) <= u64::MAX,
            rx == total_rx(ifaces@.subrange(0, i as int)),
            tx == total_tx(ifaces@.subrange(0, i as int)),
        decreases ifaces.len() - i,
    {
        assert(ifaces@.subrange(0, i + 1).drop_last() =~= ifaces@.subrange(0, i as int));
        proof {
            lemma_totals_grow(ifaces@, i + 1);
        }
        rx = rx + ifaces[i].rx_total_bytes;
        tx = tx + ifaces[i].tx_total_bytes;
        i = i + 1;
    }
    assert(ifaces@.subrange(0, ifaces.len() as int) =~= ifaces@);
    (rx, tx)
}

/// The last byte totals seen, to turn totals into monthly increments.
pub struct ByteCounter {
    pub last_rx: u64,
    pub last_tx: u64,
}

impl ByteCounter {
    pub fn new() -> (r: Self)
        ensures
            r.last_rx == 0,
            r.last_tx == 0,
    {
        ByteCounter { last_rx: 0, last_tx: 0 }
    }

    /// The bytes received and sent since the last totals, once there were
    /// totals and the received count did not go back (a reset counter
    /// adds nothing); the sent increment never goes below zero. The new
    /// totals are remembered either way.
    pub fn advance(&mut self, total_rx: u64, total_tx: u64) -> (r: Option<(u64, u64)>)
        ensures
            final(self).last_rx == total_rx,
            final(self).last_tx == total_tx,
            r == (if old(self).last_rx > 0 && total_rx >= old(self).last_rx {
                Some(((total_rx - old(self).last_rx) as u64, (if total_tx >= old(self).last_tx {
                    (total_tx - old(self).last_tx) as u64
                } else {
                    0u64
                })))
            } else {
                None
            }),
    {
        let r = if self.last_rx > 0 && total_rx >= self.last_rx {
            Some((total_rx - self.last_rx, if total_tx >= self.last_tx { total_tx - self.last_tx } else { 0 }))
        } else {
            None
        };
        self.last_rx = total_rx;
        self.last_tx = total_tx;
        r
    }
}

// ------------------------------------------------------------ DNS

/// The queries of a batch (capped at 500) whose names were not in the
/// previous batch, in order.
pub open spec fn fresh_queries(qs: Seq<DnsQuery>, prev: Seq<Seq<char>>) -> Seq<DnsQuery>
    decreases qs.len(),
{
    if qs.len() == 0 {
        Seq::empty()
    } else if prev.contains(qs.last().query_name@) {
        fresh_queries(qs.drop_last(), prev)
    } else {
        fresh_queries(qs.drop_last(), prev).push(qs.last())
    }
}

/// The names of a batch, each once, in order.
pub open spec fn distinct_names(qs: Seq<DnsQuery>) -> Seq<Seq<char>>
    decreases qs.len(),
{
    if qs.len() == 0 {
        Seq::empty()
    } else if distinct_names(qs.drop_last()).contains(qs.last().query_name@) {
        distinct_names(qs.drop_last())
    } else {
        distinct_names(qs.drop_last()).push(qs.last().query_name@)
    }
}

pub open spec fn capped_batch(qs: Seq<DnsQuery>) -> Seq<DnsQuery> {
    if 500 < qs.len() { qs.subrange(0, 500) } else { qs }
}

/// A DNS batch against the names of the previous one: the new queries,
/// and the names to remember next (forgotten when more than 2000).
pub fn new_dns_queries(queries: Vec<DnsQuery>, prev: &Vec<String>) -> (r: (Vec<DnsQuery>, Vec<String>))
    ensures
        r.0@.map_values(|q: DnsQuery| dns_query_view(q))
            == fresh_queries(capped_batch(queries@), strs_view(prev@)).map_values(|q: DnsQuery| dns_query_view(q)),
        strs_view(r.1@) == (if distinct_names(fresh_queries(capped_batch(queries@), strs_view(prev@))).len() > 2000 {
            Seq::empty()
        } else {
            distinct_names(fresh_queries(capped_batch(queries@), strs_view(prev@)))
        }),
{
    let batch = cap_batch(queries, 500);
    let ghost b = batch@;
    assert(b == capped_batch(queries@));
    let mut fresh: Vec<DnsQuery> = Vec::new();
    let mut names: Vec<String> = Vec::new();
    let mut i: usize = 0;
    while i < batch.len()
        invariant
            i <= batch.len(),
            b == batch@,
            fresh@.map_values(|q: DnsQuery| dns_query_view(q))
                == fresh_queries(b.subrange(0, i as int), strs_view(prev@)).map_values(|q: DnsQuery| dns_query_view(q)),
            strs_view(names@) == distinct_names(fresh_queries(b.subrange(0, i as int), strs_view(prev@))),
        decreases batch.len() - i,
    {
        let q = &batch[i];
        assert(b.subrange(0, i + 1).drop_last() =~= b.subrange(0, i as int));
        let ghost fq = fresh_queries(b.subrange(0, i as int), strs_view(prev@));
        if !crate::engine::contains_str(prev, &q.query_name) {
            let nq = DnsQuery {
                timestamp: q.timestamp,
                query_name: q.query_name.clone(),
                record_type: q.record_type.clone(),
                response_code: q.response_code,
                process_name: crate::metrics::copy_opt(&q.process_name),
            };
            let ghost f0 = fresh@;
            fresh.push(nq);
            assert(fresh_queries(b.subrange(0, i + 1), strs_view(prev@)) == fq.push(*q));
            assert(fresh@.map_values(|q: DnsQuery| dns_query_view(q))
                =~= f0.map_values(|q: DnsQuery| dns_query_view(q)).push(dns_query_view(nq)));
            assert(fq.push(*q).map_values(|q: DnsQuery| dns_query_view(q))
                =~= fq.map_values(|q: DnsQuery| dns_query_view(q)).push(dns_query_view(*q)));
            assert(fq.push(*q).drop_last() =~= fq);
            if !crate::engine::contains_str(&names, &q.query_name) {
                let ghost n0 = names@;
                names.push(q.query_name.clone());
                assert(strs_view(names@) =~= strs_view(n0).push(q.query_name@));
            }
        }
        i = i + 1;
    }
    assert(b.subrange(0, batch.len() as int) =~= b);
    if names.len() > 2000 {
        names = Vec::new();
        assert(strs_view(names@) =~= Seq::<Seq<char>>::empty());
    }
    (fresh, names)
}

// ------------------------------------------------------------ events

/// The event stored and published for a finding raised at `now`.
pub open spec fn event_matches(e: SecurityEvent, f: FindingView, id: Seq<char>, now: i64, details: Seq<char>) -> bool {
    &&& e.event_type@ == "SECURITY_EVENT"@
    &&& e.id@ == id
    &&& e.rule == f.rule
    &&& e.risk == f.risk
    &&& e.timestamp == now
    &&& crate::engine::process_ref_view(e.process) == f.process
    &&& crate::metrics::opt_view(e.local) == f.local
    &&& crate::metrics::opt_view(e.remote) == f.remote
    &&& strs_view(e.indicators@) == f.indicators
    &&& e.first_seen == f.first_seen
    &&& e.details@ == details
    &&& e.assessment@ == assessment_text(f.risk)
}

/// Its timeline line: kind is the rule, the finding's title, the "Why?"
/// summary, linked to the event.
pub open spec fn timeline_matches(t: TimelineEntry, f: FindingView, event_id: Seq<char>, id: Seq<char>, now: i64) -> bool {
    &&& t.id@ == id
    &&& t.timestamp == now
    &&& t.kind@ == rule_name(f.rule)
    &&& t.risk == f.risk
    &&& t.title@ == f.title
    &&& t.summary@ == why_text(f.risk)
    &&& crate::metrics::opt_view(t.event_id) == Some(event_id)
}

/// A finding as a security event (with `details` as its JSON text) and
/// the timeline line that announces it.
pub fn record_finding(f: Finding, event_id: String, timeline_id: String, now: i64, details: String) -> (r: (SecurityEvent, TimelineEntry))
    ensures
        event_matches(r.0, f.view(), event_id@, now, details@),
        timeline_matches(r.1, f.view(), event_id@, timeline_id@, now),
{
    let ghost fv = f.view();
    let mut e = SecurityEvent {
        event_type: crate::events::default_event_type(),
        id: event_id,
        rule: f.rule,
        risk: f.risk,
        timestamp: now,
        process: f.process,
        local: f.local,
        remote: f.remote,
        indicators: f.indicators,
        first_seen: f.first_seen,
        details,
        assessment: String::new(),
    };
    e.fill_assessment();
    let t = TimelineEntry {
        id: timeline_id,
        timestamp: now,
        kind: String::from_str(e.rule.as_str()),
        risk: e.risk,
        title: f.title,
        summary: e.why_summary(),
        event_id: Some(e.id.clone()),
    };
    (e, t)
}

/// The timeline line written when the agent starts.
pub fn startup_entry(id: String, now: i64) -> (t: TimelineEntry)
    ensures
        t.id == id,
        t.timestamp == now,
        t.kind@ == "SYSTEM"@,
        t.risk == RiskLevel::Info,
        t.title@ == "System monitor started"@,
        t.summary@ == "Vigilon collectors are running locally. No data leaves this machine."@,
        t.event_id is None,
{
    TimelineEntry {
        id,
        timestamp: now,
        kind: String::from_str("SYSTEM"),
        risk: RiskLevel::Info,
        title: String::from_str("System monitor started"),
        summary: String::from_str("Vigilon collectors are running locally. No data leaves this machine."),
        event_id: None,
    }
}

/// A tier that ran at `t1` does not run again on a pass at `t2` before
/// its interval has passed.
pub proof fn law_tier_waits_its_interval(c: RunClock, k: Cadence, t1: u64, t2: u64)
    requires
        t1 <= t2,
    ensures
        ({
            let d = due_at(c, t1, k);
            let e = due_at(clock_after(c, t1, d), t2, k);
            &&& d.metrics && t2 - t1 < at_least(k.metrics_secs, 1) * 1000 ==> !e.metrics && !e.interfaces
            &&& d.interfaces && t2 - t1 < 30000 ==> !e.interfaces
            &&& d.sockets && t2 - t1 < at_least(k.sockets_secs, 1) * 1000 ==> !e.sockets
            &&& d.processes && t2 - t1 < at_least(k.processes_secs, 2) * 1000 ==> !e.processes
            &&& d.services && t2 - t1 < at_least(k.services_secs, 5) * 1000 ==> !e.services
            &&& d.device && t2 - t1 < 600000 ==> !e.device
            &&& d.persist && t2 - t1 < 60000 ==> !e.persist
            &&& d.prune && t2 - t1 < 600000 ==> !e.prune
        }),
{
}

/// Every pass at or after a tier's interval runs it (the interface table
/// with the metrics).
pub proof fn law_tier_runs_when_due(c: RunClock, k: Cadence, now: u64)
    ensures
        is_due(c.last_metrics, now, at_least(k.metrics_secs, 1)) ==> due_at(c, now, k).metrics,
        is_due(c.last_metrics, now, at_least(k.metrics_secs, 1)) && is_due(c.last_interfaces, now, 30)
            ==> due_at(c, now, k).interfaces,
        is_due(c.last_sockets, now, at_least(k.sockets_secs, 1)) ==> due_at(c, now, k).sockets,
        is_due(c.last_processes, now, at_least(k.processes_secs, 2)) ==> due_at(c, now, k).processes,
        is_due(c.last_services, now, at_least(k.services_secs, 5)) ==> due_at(c, now, k).services,
        is_due(c.last_device, now, 600) ==> due_at(c, now, k).device,
        is_due(c.last_persist, now, 60) ==> due_at(c, now, k).persist,
        is_due(c.last_prune, now, 600) ==> due_at(c, now, k).prune,
{
}

} // verus!
