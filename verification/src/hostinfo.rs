//! What the collectors make of raw system data: resolver and routing
//! tables, authentication logs, interface names, service states, DNS
//! cache records, sockets and firewall probes. Reading the data is the
//! caller's; these functions only interpret it.
use vstd::prelude::*;
use crate::metrics::{
    copy_opt, opt_view, strs_view, Connection, DnsCacheEntry, DnsQuery, FirewallStatus, GeoLocation,
    GpuProcess, ListeningPort, ProcessInfo, ServiceInfo,
};
use crate::netparse::{spec_parse_ip, spec_strip_port, IpAddr, IpSpec};
use crate::numtext::parse_unsigned;
use crate::text::{
    append_str, chars_of, contains, dec_str, ends_with, lowercase_of, starts_with, str_contains, str_eq,
    string_of, to_lowercase, trimmed, uppercase_of,
};
use crate::textlines::{chars_view, lines_of, split_lines, split_words, words_of};

verus! {

// ------------------------------------------------------------ resolver

/// The name servers of a `resolv.conf` text: the rest of each line that
/// starts with `nameserver `, trimmed.
pub open spec fn resolv_dns(lines: Seq<Seq<char>>) -> Seq<Seq<char>>
    decreases lines.len(),
{
    if lines.len() == 0 {
        Seq::empty()
    } else {
        let prev = resolv_dns(lines.drop_last());
        let l = lines.last();
        if starts_with(l, "nameserver "@) {
            prev.push(trimmed(l.subrange(11, l.len() as int)))
        } else {
            prev
        }
    }
}

/// A gateway address stored as a little-endian hexadecimal word, dotted.
pub open spec fn gateway_text(g: nat) -> Seq<char> {
    dec_str(g % 256) + "."@ + dec_str((g / 256) % 256) + "."@ + dec_str((g / 65536) % 256) + "."@
        + dec_str((g / 16777216) % 256)
}

/// The default route of a `/proc/net/route` text, from line `i` on: the
/// first line whose second column is `00000000`; its third column is the
/// gateway (when it does not read as hexadecimal, there is none).
pub open spec fn gateway_from(lines: Seq<Seq<char>>, i: int) -> Option<Seq<char>>
    decreases lines.len() - i,
{
    if i < 0 || i >= lines.len() {
        None
    } else {
        let cols = words_of(lines[i]);
        if cols.len() >= 3 && cols[1] == "00000000"@ {
            match parse_unsigned(cols[2], true, 0xffff_ffff) {
                Some(g) => Some(gateway_text(g)),
                None => None,
            }
        } else {
            gateway_from(lines, i + 1)
        }
    }
}

/// The resolver's name servers and the default gateway, from the texts of
/// `/etc/resolv.conf` and `/proc/net/route` (empty when unreadable). The
/// route table's first line is its header.
pub fn dns_and_gateway(resolv_conf: &str, route_table: &str) -> (r: (Vec<String>, Option<String>))
    ensures
        strs_view(r.0@) == resolv_dns(lines_of(resolv_conf@)),
        opt_view(r.1) == gateway_from(lines_of(route_table@), 1),
{
    let rc = chars_of(resolv_conf);
    let lines = split_lines(&rc);
    let prefix = chars_of("nameserver ");
    proof {
        reveal_strlit("nameserver ");
    }
    let mut dns: Vec<String> = Vec::new();
    let mut i: usize = 0;
    while i < lines.len()
        invariant
            i <= lines.len(),
            prefix@ == "nameserver "@,
            prefix@.len() == 11,
            strs_view(dns@) == resolv_dns(chars_view(lines@).subrange(0, i as int)),
        decreases lines.len() - i,
    {
        assert(chars_view(lines@).subrange(0, i + 1).drop_last() =~= chars_view(lines@).subrange(0, i as int));
        let l = &lines[i];
        if crate::text::starts_with_exec(l, &prefix) {
            let rest = crate::text::subvec(l, 11, l.len());
            let t = crate::text::trim_chars(&rest);
            let ghost d0 = dns@;
            dns.push(string_of(&t));
            assert(strs_view(dns@) =~= strs_view(d0).push(t@));
        }
        i = i + 1;
    }
    assert(chars_view(lines@).subrange(0, lines.len() as int) =~= chars_view(lines@));
    let rt = chars_of(route_table);
    let rlines = split_lines(&rt);
    let zeros = chars_of("00000000");
    let mut gw: Option<String> = None;
    let mut j: usize = 1;
    while j < rlines.len()
        invariant
            1 <= j,
            zeros@ == "00000000"@,
            gateway_from(chars_view(rlines@), j as int) == gateway_from(chars_view(rlines@), 1),
            gw is None,
            strs_view(dns@) == resolv_dns(lines_of(resolv_conf@)),
            chars_view(rlines@) == lines_of(route_table@),
        decreases rlines.len() - j,
    {
        let cols = split_words(&rlines[j]);
        if cols.len() >= 3 && crate::text::seq_eq(&cols[1], &zeros) {
            assert(chars_view(cols@)[1] == cols@[1]@);
            assert(chars_view(cols@)[2] == cols@[2]@);
            match crate::numtext::parse_unsigned_exec(&cols[2], true, 0xffff_ffff) {
                Some(g) => {
                    let mut s = String::new();
                    crate::text::append_dec(&mut s, g % 256);
                    append_str(&mut s, ".");
                    crate::text::append_dec(&mut s, (g / 256) % 256);
                    append_str(&mut s, ".");
                    crate::text::append_dec(&mut s, (g / 65536) % 256);
                    append_str(&mut s, ".");
                    crate::text::append_dec(&mut s, (g / 16777216) % 256);
                    assert(s@ =~= gateway_text(g as nat));
                    return (dns, Some(s));
                },
                None => {
                    return (dns, None);
                },
            }
        }
        j = j + 1;
    }
    (dns, gw)
}

// ------------------------------------------------------------ auth log

/// A log line that reports a failed authentication: it holds the system's
/// own failure phrase (`lead`) or `authentication failure`.
pub open spec fn is_auth_failure(l: Seq<char>, lead: Seq<char>) -> bool {
    contains(l, lead) || contains(l, "authentication failure"@)
}

pub open spec fn count_auth_failures(ls: Seq<Seq<char>>, lead: Seq<char>) -> nat
    decreases ls.len(),
{
    if ls.len() == 0 {
        0
    } else {
        count_auth_failures(ls.drop_last(), lead) + if is_auth_failure(ls.last(), lead) { 1nat } else { 0nat }
    }
}

/// The last 400 lines of a log.
pub open spec fn last_lines(ls: Seq<Seq<char>>) -> Seq<Seq<char>> {
    ls.subrange(if ls.len() > 400 { ls.len() - 400 } else { 0 }, ls.len() as int)
}

fn count_failures(log: &str, lead: &str) -> (r: u32)
    ensures
        r == count_auth_failures(last_lines(lines_of(log@)), lead@),
{
    let lv = chars_of(log);
    let lines = split_lines(&lv);
    let start: usize = if lines.len() > 400 { lines.len() - 400 } else { 0 };
    let ghost tail = last_lines(chars_view(lines@));
    let mut n: u32 = 0;
    let mut i: usize = start;
    while i < lines.len()
        invariant
            start <= i <= lines.len(),
            start == (if lines.len() > 400 { lines.len() - 400 } else { 0 }),
            tail == chars_view(lines@).subrange(start as int, lines.len() as int),
            n == count_auth_failures(chars_view(lines@).subrange(start as int, i as int), lead@),
            n <= i - start,
        decreases lines.len() - i,
    {
        assert(chars_view(lines@).subrange(start as int, i + 1).drop_last()
            =~= chars_view(lines@).subrange(start as int, i as int));
        let l = string_of(&lines[i]);
        if str_contains(l.as_str(), lead) || str_contains(l.as_str(), "authentication failure") {
            n = n + 1;
        }
        i = i + 1;
    }
    n
}

/// How many of the last 400 lines of a Linux authentication log report a
/// failed login (`Failed password` or `authentication failure`).
pub fn failed_logins_hint(log: &str) -> (r: u32)
    ensures
        r == count_auth_failures(last_lines(lines_of(log@)), "Failed password"@),
{
    count_failures(log, "Failed password")
}

/// How many of the last 400 lines of the macOS system log report a failed
/// login (`Failed to authenticate` or `authentication failure`).
pub fn system_log_failed_logins(log: &str) -> (r: u32)
    ensures
        r == count_auth_failures(last_lines(lines_of(log@)), "Failed to authenticate"@),
{
    count_failures(log, "Failed to authenticate")
}

// ------------------------------------------------------------ interfaces

/// The kind of a network interface, judged by its lowercase name.
pub open spec fn iface_kind(name: Seq<char>) -> Seq<char> {
    let n = lowercase_of(name);
    if contains(n, "loopback"@) || n == "lo"@ || starts_with(n, "lo"@) {
        "loopback"@
    } else if contains(n, "wi-fi"@) || contains(n, "wifi"@) || contains(n, "wlan"@) || contains(n, "airport"@) {
        "wifi"@
    } else if contains(n, "vpn"@) || contains(n, "tun"@) || contains(n, "tap"@) || contains(n, "wg"@) {
        "vpn"@
    } else if contains(n, "vethernet"@) || contains(n, "docker"@) || contains(n, "veth"@) || contains(n, "br-"@) {
        "virtual"@
    } else if contains(n, "ethernet"@) || contains(n, "eth"@) || contains(n, "en"@) {
        "ethernet"@
    } else {
        "other"@
    }
}

pub fn classify_iface(name: &str) -> (r: String)
    ensures
        r@ == iface_kind(name@),
{
    let l = to_lowercase(name);
    let n = l.as_str();
    let k = if str_contains(n, "loopback") || str_eq(n, "lo") || crate::text::str_starts_with(n, "lo") {
        "loopback"
    } else if str_contains(n, "wi-fi") || str_contains(n, "wifi") || str_contains(n, "wlan") || str_contains(n, "airport") {
        "wifi"
    } else if str_contains(n, "vpn") || str_contains(n, "tun") || str_contains(n, "tap") || str_contains(n, "wg") {
        "vpn"
    } else if str_contains(n, "vethernet") || str_contains(n, "docker") || str_contains(n, "veth") || str_contains(n, "br-") {
        "virtual"
    } else if str_contains(n, "ethernet") || str_contains(n, "eth") || str_contains(n, "en") {
        "ethernet"
    } else {
        "other"
    };
    String::from_str(k)
}

// ------------------------------------------------------------ services

/// The state name of a Windows service status code.
pub open spec fn status_name(code: u32) -> Seq<char> {
    if code == 1 {
        "stopped"@
    } else if code == 4 {
        "running"@
    } else if code == 2 {
        "start_pending"@
    } else if code == 3 {
        "stop_pending"@
    } else {
        "other"@
    }
}

pub fn service_status_name(code: u32) -> (r: &'static str)
    ensures
        r@ == status_name(code),
{
    if code == 1 {
        "stopped"
    } else if code == 4 {
        "running"
    } else if code == 2 {
        "start_pending"
    } else if code == 3 {
        "stop_pending"
    } else {
        "other"
    }
}

/// The entries of a unit directory that name units: those whose name ends
/// with the unit suffix, in listing order.
pub open spec fn unit_names(names: Seq<Seq<char>>, suffix: Seq<char>) -> Seq<Seq<char>>
    decreases names.len(),
{
    if names.len() == 0 {
        Seq::empty()
    } else {
        let prev = unit_names(names.drop_last(), suffix);
        if ends_with(names.last(), suffix) { prev.push(names.last()) } else { prev }
    }
}

/// At most the first `n` items.
pub open spec fn first_n<A>(s: Seq<A>, n: nat) -> Seq<A> {
    if s.len() <= n { s } else { s.subrange(0, n as int) }
}

pub type ServiceView = (Seq<char>, Option<Seq<char>>, Seq<char>, Option<u32>);

pub open spec fn service_view(s: ServiceInfo) -> ServiceView {
    (s.name@, opt_view(s.display_name), s.status@, s.pid)
}

/// Services from the entry names of a unit directory (`.service` units of
/// systemd, `.plist` daemons of launchd): the first 200 entries that end
/// with `suffix`, each reported in `status`, with no display name or pid.
pub fn services_from_entries(names: &Vec<String>, suffix: &str, status: &str) -> (r: Vec<ServiceInfo>)
    ensures
        r@.len() == first_n(unit_names(strs_view(names@), suffix@), 200).len(),
        forall|k: int| 0 <= k < r@.len() ==> service_view(#[trigger] r@[k])
            == (first_n(unit_names(strs_view(names@), suffix@), 200)[k], None::<Seq<char>>, status@, None::<u32>),
{
    let mut out: Vec<ServiceInfo> = Vec::new();
    let mut i: usize = 0;
    while i < names.len()
        invariant
            i <= names.len(),
            out@.len() == first_n(unit_names(strs_view(names@.subrange(0, i as int)), suffix@), 200).len(),
            forall|k: int| 0 <= k < out@.len() ==> service_view(#[trigger] out@[k])
                == (first_n(unit_names(strs_view(names@.subrange(0, i as int)), suffix@), 200)[k],
                    None::<Seq<char>>, status@, None::<u32>),
        decreases names.len() - i,
    {
        let ghost pre = strs_view(names@.subrange(0, i as int));
        let ghost nxt = strs_view(names@.subrange(0, i + 1));
        assert(nxt.drop_last() =~= pre);
        assert(nxt.last() == names@[i as int]@);
        let ghost u = unit_names(pre, suffix@);
        if out.len() < 200 && crate::text::str_ends_with(names[i].as_str(), suffix) {
            let si = ServiceInfo {
                name: names[i].clone(),
                display_name: None,
                status: String::from_str(status),
                pid: None,
            };
            out.push(si);
            proof {
                assert(unit_names(nxt, suffix@) == u.push(names@[i as int]@));
                assert(first_n(u.push(names@[i as int]@), 200) =~= first_n(u, 200).push(names@[i as int]@));
            }
        } else {
            proof {
                if ends_with(names@[i as int]@, suffix@) {
                    assert(unit_names(nxt, suffix@) == u.push(names@[i as int]@));
                    assert(first_n(u.push(names@[i as int]@), 200) =~= first_n(u, 200));
                } else {
                    assert(unit_names(nxt, suffix@) == u);
                }
            }
        }
        i = i + 1;
    }
    assert(names@.subrange(0, names@.len() as int) =~= names@);
    out
}

// ------------------------------------------------------------ DNS cache

/// The label of a DNS record type number.
pub open spec fn type_label(n: nat) -> Seq<char> {
    if n == 1 {
        "A"@
    } else if n == 28 {
        "AAAA"@
    } else if n == 5 {
        "CNAME"@
    } else if n == 12 {
        "PTR"@
    } else if n == 15 {
        "MX"@
    } else if n == 16 {
        "TXT"@
    } else if n == 33 {
        "SRV"@
    } else {
        "ANY"@
    }
}

/// The record type number written in a cache entry (0 when unreadable).
pub open spec fn record_type_number(t: Seq<char>) -> nat {
    match parse_unsigned(t, false, 65535) {
        Some(n) => n,
        None => 0,
    }
}

pub type DnsQueryView = (i64, Seq<char>, Seq<char>, u16, Option<Seq<char>>);

pub open spec fn dns_query_view(q: DnsQuery) -> DnsQueryView {
    (q.timestamp, q.query_name@, q.record_type@, q.response_code, opt_view(q.process_name))
}

/// The query a cache entry stands for, observed at `now`.
pub open spec fn query_of(e: DnsCacheEntry, now: i64) -> DnsQueryView {
    (now, e.name@, type_label(record_type_number(e.record_type@)), 0, None)
}

/// DNS cache entries as observed queries (the record type number becomes
/// its label).
pub fn queries_from_cache(cache: &Vec<DnsCacheEntry>, now: i64) -> (r: Vec<DnsQuery>)
    ensures
        r@.map_values(|q: DnsQuery| dns_query_view(q)) == cache@.map_values(|e: DnsCacheEntry| query_of(e, now)),
{
    let mut out: Vec<DnsQuery> = Vec::new();
    let mut i: usize = 0;
    while i < cache.len()
        invariant
            i <= cache.len(),
            out@.map_values(|q: DnsQuery| dns_query_view(q))
                == cache@.subrange(0, i as int).map_values(|e: DnsCacheEntry| query_of(e, now)),
        decreases cache.len() - i,
    {
        let e = &cache[i];
        let tv = chars_of(e.record_type.as_str());
        let n: u64 = match crate::numtext::parse_unsigned_exec(&tv, false, 65535) {
            Some(n) => n,
            None => 0,
        };
        let label = if n == 1 {
            "A"
        } else if n == 28 {
            "AAAA"
        } else if n == 5 {
            "CNAME"
        } else if n == 12 {
            "PTR"
        } else if n == 15 {
            "MX"
        } else if n == 16 {
            "TXT"
        } else if n == 33 {
            "SRV"
        } else {
            "ANY"
        };
        let q = DnsQuery {
            timestamp: now,
            query_name: e.name.clone(),
            record_type: String::from_str(label),
            response_code: 0,
            process_name: None,
        };
        let ghost o0 = out@;
        out.push(q);
        assert(out@.map_values(|q: DnsQuery| dns_query_view(q))
            =~= o0.map_values(|q: DnsQuery| dns_query_view(q)).push(dns_query_view(q)));
        assert(cache@.subrange(0, i + 1).map_values(|e: DnsCacheEntry| query_of(e, now))
            =~= cache@.subrange(0, i as int).map_values(|e: DnsCacheEntry| query_of(e, now)).push(query_of(*e, now)));
        i = i + 1;
    }
    assert(cache@.subrange(0, cache.len() as int) =~= cache@);
    out
}

/// Keep at most `limit` queries of a batch (at least one).
pub fn cap_batch(queries: Vec<DnsQuery>, limit: usize) -> (r: Vec<DnsQuery>)
    ensures
        ({
            let n = if limit < 1 { 1 } else { limit };
            r@ == if n < queries@.len() { queries@.subrange(0, n as int) } else { queries@ }
        }),
{
    let mut q = queries;
    let n = if limit < 1 { 1 } else { limit };
    q.truncate(n);
    q
}

// ------------------------------------------------------------ processes and sockets

pub open spec fn conns_with_pid(conns: Seq<Connection>, pid: u32) -> nat
    decreases conns.len(),
{
    if conns.len() == 0 {
        0
    } else {
        conns_with_pid(conns.drop_last(), pid) + if conns.last().pid == Some(pid) { 1nat } else { 0nat }
    }
}

fn count_conns_with_pid(conns: &Vec<Connection>, pid: u32) -> (r: usize)
    ensures
        r == conns_with_pid(conns@, pid),
{
    let mut n: usize = 0;
    let mut i: usize = 0;
    while i < conns.len()
        invariant
            i <= conns.len(),
            n <= i,
            n == conns_with_pid(conns@.subrange(0, i as int), pid),
        decreases conns.len() - i,
    {
        assert(conns@.subrange(0, i + 1).drop_last() =~= conns@.subrange(0, i as int));
        if conns[i].pid == Some(pid) {
            n = n + 1;
        }
        i = i + 1;
    }
    assert(conns@.subrange(0, conns.len() as int) =~= conns@);
    n
}

/// Set each process's connection count: the connections that carry its
/// pid (as a 32-bit count). Nothing else changes.
pub fn attach_counts(processes: &mut Vec<ProcessInfo>, conns: &Vec<Connection>)
    ensures
        final(processes)@.len() == old(processes)@.len(),
        forall|i: int| 0 <= i < old(processes)@.len() ==> #[trigger] final(processes)@[i] == (ProcessInfo {
            connection_count: conns_with_pid(conns@, old(processes)@[i].pid) as u32,
            ..old(processes)@[i]
        }),
{
    let mut i: usize = 0;
    while i < processes.len()
        invariant
            i <= processes.len(),
            processes@.len() == old(processes)@.len(),
            forall|j: int| i <= j < processes@.len() ==> processes@[j] == old(processes)@[j],
            forall|j: int| 0 <= j < i ==> #[trigger] processes@[j] == (ProcessInfo {
                connection_count: conns_with_pid(conns@, old(processes)@[j].pid) as u32,
                ..old(processes)@[j]
            }),
        decreases processes.len() - i,
    {
        let p = &processes[i];
        let n = count_conns_with_pid(conns, p.pid);
        let np = ProcessInfo {
            pid: p.pid,
            name: p.name.clone(),
            path: copy_opt(&p.path),
            memory_bytes: p.memory_bytes,
            status: p.status.clone(),
            start_time: p.start_time,
            connection_count: n as u32,
            parent_pid: p.parent_pid,
        };
        processes.set(i, np);
        i = i + 1;
    }
}

/// One socket as the operating system lists it: TCP (with its state
/// name) or UDP, and the owning process when resolved.
#[derive(Debug)]
pub struct SocketRecord {
    pub tcp: bool,
    pub local_addr: String,
    pub local_port: u16,
    pub remote_addr: String,
    pub remote_port: u16,
    pub state: String,
    pub pid: Option<u32>,
    pub process_name: Option<String>,
    pub process_path: Option<String>,
}

/// A socket is listening: UDP, or TCP in a state whose name holds `LISTEN`.
pub open spec fn is_listening(r: SocketRecord) -> bool {
    !r.tcp || contains(uppercase_of(r.state@), "LISTEN"@)
}

pub open spec fn port_of_record(r: SocketRecord) -> (Seq<char>, Seq<char>, u16, Option<u32>, Option<Seq<char>>, Option<Seq<char>>) {
    (if r.tcp { "TCP"@ } else { "UDP"@ }, r.local_addr@, r.local_port, r.pid, opt_view(r.process_name), opt_view(r.process_path))
}

pub open spec fn port_view(p: ListeningPort) -> (Seq<char>, Seq<char>, u16, Option<u32>, Option<Seq<char>>, Option<Seq<char>>) {
    (p.protocol@, p.address@, p.port, p.pid, opt_view(p.process_name), opt_view(p.process_path))
}

pub type ConnRecordView = (Seq<char>, Seq<char>, u16, Seq<char>, u16, Seq<char>, Option<u32>, Option<Seq<char>>, Option<Seq<char>>);

pub open spec fn conn_view(c: Connection) -> ConnRecordView {
    (c.protocol@, c.local_addr@, c.local_port, c.remote_addr@, c.remote_port, c.state@, c.pid, opt_view(c.process_name), opt_view(c.process_path))
}

pub open spec fn record_conn_view(r: SocketRecord) -> ConnRecordView {
    ("TCP"@, r.local_addr@, r.local_port, r.remote_addr@, r.remote_port, r.state@, r.pid, opt_view(r.process_name), opt_view(r.process_path))
}

pub open spec fn listening_records(rs: Seq<SocketRecord>) -> Seq<SocketRecord>
    decreases rs.len(),
{
    if rs.len() == 0 {
        Seq::empty()
    } else if is_listening(rs.last()) {
        listening_records(rs.drop_last()).push(rs.last())
    } else {
        listening_records(rs.drop_last())
    }
}

pub open spec fn connected_records(rs: Seq<SocketRecord>) -> Seq<SocketRecord>
    decreases rs.len(),
{
    if rs.len() == 0 {
        Seq::empty()
    } else if !is_listening(rs.last()) {
        connected_records(rs.drop_last()).push(rs.last())
    } else {
        connected_records(rs.drop_last())
    }
}

/// Sort sockets into listening ports and connections, in order. A new
/// connection carries no sighting times and no location yet.
pub fn split_sockets(records: &Vec<SocketRecord>) -> (r: (Vec<ListeningPort>, Vec<Connection>))
    ensures
        r.0@.map_values(|p: ListeningPort| port_view(p))
            == listening_records(records@).map_values(|x: SocketRecord| port_of_record(x)),
        r.1@.map_values(|c: Connection| conn_view(c))
            == connected_records(records@).map_values(|x: SocketRecord| record_conn_view(x)),
        forall|i: int| 0 <= i < r.1@.len() ==> (#[trigger] r.1@[i]).first_seen is None
            && r.1@[i].last_seen is None && r.1@[i].geo is None,
{
    let mut ports: Vec<ListeningPort> = Vec::new();
    let mut conns: Vec<Connection> = Vec::new();
    let mut i: usize = 0;
    while i < records.len()
        invariant
            i <= records.len(),
            ports@.map_values(|p: ListeningPort| port_view(p))
                == listening_records(records@.subrange(0, i as int)).map_values(|x: SocketRecord| port_of_record(x)),
            conns@.map_values(|c: Connection| conn_view(c))
                == connected_records(records@.subrange(0, i as int)).map_values(|x: SocketRecord| record_conn_view(x)),
            forall|j: int| 0 <= j < conns@.len() ==> (#[trigger] conns@[j]).first_seen is None
                && conns@[j].last_seen is None && conns@[j].geo is None,
        decreases records.len() - i,
    {
        let x = &records[i];
        assert(records@.subrange(0, i + 1).drop_last() =~= records@.subrange(0, i as int));
        let ghost lr = listening_records(records@.subrange(0, i as int));
        let ghost cr = connected_records(records@.subrange(0, i as int));
        let up = crate::text::to_uppercase(x.state.as_str());
        let listening = !x.tcp || str_contains(up.as_str(), "LISTEN");
        if listening {
            let p = ListeningPort {
                protocol: String::from_str(if x.tcp { "TCP" } else { "UDP" }),
                address: x.local_addr.clone(),
                port: x.local_port,
                pid: x.pid,
                process_name: copy_opt(&x.process_name),
                process_path: copy_opt(&x.process_path),
            };
            let ghost p0 = ports@;
            ports.push(p);
            assert(ports@.map_values(|p: ListeningPort| port_view(p))
                =~= p0.map_values(|p: ListeningPort| port_view(p)).push(port_view(p)));
            assert(lr.push(*x).map_values(|x: SocketRecord| port_of_record(x))
                =~= lr.map_values(|x: SocketRecord| port_of_record(x)).push(port_of_record(*x)));
        } else {
            let c = Connection {
                protocol: String::from_str("TCP"),
                local_addr: x.local_addr.clone(),
                local_port: x.local_port,
                remote_addr: x.remote_addr.clone(),
                remote_port: x.remote_port,
                state: x.state.clone(),
                pid: x.pid,
                process_name: copy_opt(&x.process_name),
                process_path: copy_opt(&x.process_path),
                first_seen: None,
                last_seen: None,
                geo: None,
            };
            let ghost c0 = conns@;
            conns.push(c);
            assert(conns@.map_values(|c: Connection| conn_view(c))
                =~= c0.map_values(|c: Connection| conn_view(c)).push(conn_view(c)));
            assert(cr.push(*x).map_values(|x: SocketRecord| record_conn_view(x))
                =~= cr.map_values(|x: SocketRecord| record_conn_view(x)).push(record_conn_view(*x)));
        }
        i = i + 1;
    }
    assert(records@.subrange(0, records.len() as int) =~= records@);
    (ports, conns)
}

/// The owning pids of a batch of connections, each once, in order of
/// first sighting.
pub open spec fn first_pids(conns: Seq<Connection>) -> Seq<u32>
    decreases conns.len(),
{
    if conns.len() == 0 {
        Seq::empty()
    } else {
        let prev = first_pids(conns.drop_last());
        match conns.last().pid {
            Some(p) => if prev.contains(p) { prev } else { prev.push(p) },
            None => prev,
        }
    }
}

/// The first connection of the batch owned by `pid`.
pub open spec fn first_with_pid_from(conns: Seq<Connection>, pid: u32, i: int) -> Option<Connection>
    decreases conns.len() - i,
{
    if i < 0 || i >= conns.len() {
        None
    } else if conns[i].pid == Some(pid) {
        Some(conns[i])
    } else {
        first_with_pid_from(conns, pid, i + 1)
    }
}

/// A process is named after its first connection's process name, or
/// `PID <pid>` when that is unknown.
pub open spec fn owner_name(conns: Seq<Connection>, pid: u32) -> Seq<char> {
    match first_with_pid_from(conns, pid, 0) {
        Some(c) => match c.process_name {
            Some(n) => n@,
            None => "PID "@ + dec_str(pid as nat),
        },
        None => "PID "@ + dec_str(pid as nat),
    }
}

pub open spec fn owned_count(conns: Seq<Connection>) -> nat
    decreases conns.len(),
{
    if conns.len() == 0 {
        0
    } else {
        owned_count(conns.drop_last()) + if conns.last().pid is Some { 1nat } else { 0nat }
    }
}

/// Connections per owning process: (pid, name, count) for each owner in
/// order of first sighting, and how many connections have an owner.
/// Bandwidth is shared out in these proportions.
pub fn connection_counts(conns: &Vec<Connection>) -> (r: (Vec<(u32, String, u32)>, u32))
    requires
        conns@.len() <= u32::MAX,
    ensures
        r.0@.map_values(|e: (u32, String, u32)| (e.0, e.1@, e.2 as nat))
            == first_pids(conns@).map_values(|p: u32| (p, owner_name(conns@, p), conns_with_pid(conns@, p))),
        r.1 == owned_count(conns@),
{
    let mut pids: Vec<u32> = Vec::new();
    let mut total: u32 = 0;
    let mut i: usize = 0;
    while i < conns.len()
        invariant
            i <= conns.len(),
            conns@.len() <= u32::MAX,
            pids@ == first_pids(conns@.subrange(0, i as int)),
            total == owned_count(conns@.subrange(0, i as int)),
            total <= i,
        decreases conns.len() - i,
    {
        assert(conns@.subrange(0, i + 1).drop_last() =~= conns@.subrange(0, i as int));
        match conns[i].pid {
            Some(p) => {
                let mut found = false;
                let mut k: usize = 0;
                while k < pids.len()
                    invariant
                        k <= pids.len(),
                        found == pids@.subrange(0, k as int).contains(p),
                    decreases pids.len() - k,
                {
                    if pids[k] == p {
                        assert(pids@.subrange(0, k + 1)[k as int] == p);
                        found = true;
                    } else {
                        assert(pids@.subrange(0, k + 1) =~= pids@.subrange(0, k as int).push(pids@[k as int]));
                    }
                    if found {
                        assert(pids@.subrange(0, k + 1).contains(p)) by {
                            if !pids@.subrange(0, k as int).contains(p) {
                                assert(pids@.subrange(0, k + 1)[k as int] == p);
                            } else {
                                let w = choose|w: int| 0 <= w < k && pids@.subrange(0, k as int)[w] == p;
                                assert(pids@.subrange(0, k + 1)[w] == p);
                            }
                        }
                    }
                    k = k + 1;
                }
                assert(pids@.subrange(0, pids.len() as int) =~= pids@);
                if !found {
                    pids.push(p);
                }
                total = total + 1;
            },
            None => {},
        }
        i = i + 1;
    }
    assert(conns@.subrange(0, conns.len() as int) =~= conns@);
    let mut out: Vec<(u32, String, u32)> = Vec::new();
    let mut j: usize = 0;
    while j < pids.len()
        invariant
            j <= pids.len(),
            conns@.len() <= u32::MAX,
            out@.map_values(|e: (u32, String, u32)| (e.0, e.1@, e.2 as nat))
                == pids@.subrange(0, j as int).map_values(|p: u32| (p, owner_name(conns@, p), conns_with_pid(conns@, p))),
        decreases pids.len() - j,
    {
        let p = pids[j];
        let n = count_conns_with_pid(conns, p);
        proof {
            lemma_with_pid_bounded(conns@, p);
        }
        let name = owner_name_exec(conns, p);
        let ghost o0 = out@;
        out.push((p, name, n as u32));
        assert(out@.map_values(|e: (u32, String, u32)| (e.0, e.1@, e.2 as nat))
            =~= o0.map_values(|e: (u32, String, u32)| (e.0, e.1@, e.2 as nat)).push((p, owner_name(conns@, p), conns_with_pid(conns@, p))));
        assert(pids@.subrange(0, j + 1).map_values(|p: u32| (p, owner_name(conns@, p), conns_with_pid(conns@, p)))
            =~= pids@.subrange(0, j as int).map_values(|p: u32| (p, owner_name(conns@, p), conns_with_pid(conns@, p)))
                .push((p, owner_name(conns@, p), conns_with_pid(conns@, p))));
        j = j + 1;
    }
    assert(pids@.subrange(0, pids.len() as int) =~= pids@);
    (out, total)
}

proof fn lemma_with_pid_bounded(conns: Seq<Connection>, pid: u32)
    ensures
        conns_with_pid(conns, pid) <= conns.len(),
    decreases conns.len(),
{
    if conns.len() > 0 {
        lemma_with_pid_bounded(conns.drop_last(), pid);
    }
}

fn owner_name_exec(conns: &Vec<Connection>, pid: u32) -> (r: String)
    ensures
        r@ == owner_name(conns@, pid),
{
    let mut i: usize = 0;
    while i < conns.len()
        invariant
            i <= conns.len(),
            first_with_pid_from(conns@, pid, i as int) == first_with_pid_from(conns@, pid, 0),
        decreases conns.len() - i,
    {
        if conns[i].pid == Some(pid) {
            match &conns[i].process_name {
                Some(n) => {
                    return n.clone();
                },
                None => {
                    return pid_label(pid);
                },
            }
        }
        i = i + 1;
    }
    pid_label(pid)
}

fn pid_label(pid: u32) -> (s: String)
    ensures
        s@ == "PID "@ + dec_str(pid as nat),
{
    let mut s = String::new();
    append_str(&mut s, "PID ");
    crate::text::append_dec(&mut s, pid as u64);
    assert(s@ =~= "PID "@ + dec_str(pid as nat));
    s
}

// ------------------------------------------------------------ firewall

pub open spec fn bool_text(b: bool) -> Seq<char> {
    if b { "true"@ } else { "false"@ }
}

fn bool_str(b: bool) -> (r: &'static str)
    ensures
        r@ == bool_text(b),
{
    if b { "true" } else { "false" }
}

pub type FirewallView = (bool, Option<Seq<char>>, Seq<char>);

pub open spec fn firewall_view(f: FirewallStatus) -> FirewallView {
    (f.enabled, opt_view(f.profile), f.details@)
}

/// The firewall as Linux probes show it: nftables present, iptables
/// tables present, and the text of `ufw.conf` when readable.
pub open spec fn linux_firewall(nft: bool, ipt: bool, ufw_conf: Option<Seq<char>>) -> FirewallView {
    let ufw = match ufw_conf { Some(t) => contains(t, "ENABLED=yes"@), None => false };
    (
        nft || ipt || ufw,
        Some(if ufw { "ufw"@ } else if nft { "nftables"@ } else { "iptables"@ }),
        "nft="@ + bool_text(nft) + " iptables="@ + bool_text(ipt) + " ufw="@ + bool_text(ufw),
    )
}

pub fn firewall_from_probes(nft: bool, ipt: bool, ufw_conf: Option<&str>) -> (r: FirewallStatus)
    ensures
        firewall_view(r) == linux_firewall(nft, ipt, match ufw_conf { Some(t) => Some(t@), None => None }),
{
    let ufw = match ufw_conf {
        Some(t) => str_contains(t, "ENABLED=yes"),
        None => false,
    };
    let profile = if ufw { "ufw" } else if nft { "nftables" } else { "iptables" };
    let mut d = String::new();
    append_str(&mut d, "nft=");
    append_str(&mut d, bool_str(nft));
    append_str(&mut d, " iptables=");
    append_str(&mut d, bool_str(ipt));
    append_str(&mut d, " ufw=");
    append_str(&mut d, bool_str(ufw));
    let r = FirewallStatus { enabled: nft || ipt || ufw, profile: Some(String::from_str(profile)), details: d };
    assert(firewall_view(r) =~= linux_firewall(nft, ipt, match ufw_conf { Some(t) => Some(t@), None => None }));
    r
}

/// The firewall as the three Windows profiles report it.
pub open spec fn profiles_firewall(domain: bool, private: bool, public: bool) -> FirewallView {
    (
        domain || private || public,
        Some(if public { "public"@ } else if private { "private"@ } else if domain { "domain"@ } else { "disabled"@ }),
        "domain="@ + bool_text(domain) + " private="@ + bool_text(private) + " public="@ + bool_text(public),
    )
}

pub fn firewall_from_profiles(domain: bool, private: bool, public: bool) -> (r: FirewallStatus)
    ensures
        firewall_view(r) == profiles_firewall(domain, private, public),
{
    let profile = if public { "public" } else if private { "private" } else if domain { "domain" } else { "disabled" };
    let mut d = String::new();
    append_str(&mut d, "domain=");
    append_str(&mut d, bool_str(domain));
    append_str(&mut d, " private=");
    append_str(&mut d, bool_str(private));
    append_str(&mut d, " public=");
    append_str(&mut d, bool_str(public));
    let r = FirewallStatus {
        enabled: domain || private || public,
        profile: Some(String::from_str(profile)),
        details: d,
    };
    assert(firewall_view(r) =~= profiles_firewall(domain, private, public));
    r
}

/// The firewall on macOS: pf, on when its configuration file is present
/// (its running state is not queried).
pub fn firewall_from_pf(conf_present: bool) -> (r: FirewallStatus)
    ensures
        firewall_view(r) == (conf_present, Some("pf"@), "pf.conf present (state not queried)"@),
{
    FirewallStatus {
        enabled: conf_present,
        profile: Some(String::from_str("pf")),
        details: String::from_str("pf.conf present (state not queried)"),
    }
}

// ------------------------------------------------------------ disks and GPUs

/// `str::trim_start_matches`: every leading copy of `p` removed.
pub open spec fn strip_all_prefix(s: Seq<char>, p: Seq<char>) -> Seq<char>
    decreases s.len(),
{
    if p.len() > 0 && starts_with(s, p) {
        strip_all_prefix(s.subrange(p.len() as int, s.len() as int), p)
    } else {
        s
    }
}

/// The text after the last `/`.
pub open spec fn last_segment(s: Seq<char>) -> Seq<char> {
    s.subrange(crate::text::rfind_before(s, '/', s.len() as int) + 1, s.len() as int)
}

/// The sysfs file that holds a disk's device state.
pub open spec fn smart_state_path_text(name: Seq<char>) -> Seq<char> {
    "/sys/block/"@ + last_segment(strip_all_prefix(name, "/dev/"@)) + "/device/state"@
}

pub fn smart_state_path(name: &str) -> (r: String)
    ensures
        r@ == smart_state_path_text(name@),
{
    let v = chars_of(name);
    let p = chars_of("/dev/");
    proof {
        reveal_strlit("/dev/");
    }
    let mut cur = v;
    while crate::text::starts_with_exec(&cur, &p)
        invariant
            p@ == "/dev/"@,
            p@.len() == 5,
            strip_all_prefix(cur@, p@) == strip_all_prefix(v@, p@),
        decreases cur@.len(),
    {
        cur = crate::text::subvec(&cur, 5, cur.len());
    }
    proof {
        crate::text::lemma_rfind_bounds(cur@, '/', cur@.len() as int);
    }
    let start: usize = match crate::text::rfind_exec(&cur, '/') {
        Some(k) => {
            assert(k < cur.len());
            k + 1
        },
        None => 0,
    };
    let seg = crate::text::subvec(&cur, start, cur.len());
    let mut s = String::new();
    append_str(&mut s, "/sys/block/");
    crate::text::append_chars(&mut s, &seg);
    append_str(&mut s, "/device/state");
    assert(s@ =~= smart_state_path_text(name@));
    s
}

/// A DRM entry that names a whole card (`card0`, not `card0-DP-1`).
pub open spec fn spec_is_gpu_card(n: Seq<char>) -> bool {
    starts_with(n, "card"@) && !contains(n, "-"@)
}

pub fn is_gpu_card(n: &str) -> (r: bool)
    ensures
        r == spec_is_gpu_card(n@),
{
    crate::text::str_starts_with(n, "card") && !str_contains(n, "-")
}

/// The process a GPU process entry names: its own name, else the name of
/// the first listed process with its pid.
pub open spec fn gpu_process_name(g: GpuProcess, procs: Seq<ProcessInfo>) -> Option<Seq<char>> {
    match g.name {
        Some(n) => Some(n@),
        None => match crate::engine::proc_with_pid_from(procs, g.pid, 0) {
            Some(p) => Some(p.name@),
            None => None,
        },
    }
}

fn first_proc_name(procs: &Vec<ProcessInfo>, pid: u32) -> (r: Option<String>)
    ensures
        opt_view(r) == match crate::engine::proc_with_pid_from(procs@, pid, 0) {
            Some(p) => Some(p.name@),
            None => None,
        },
{
    let mut k: usize = 0;
    while k < procs.len()
        invariant
            k <= procs.len(),
            crate::engine::proc_with_pid_from(procs@, pid, k as int)
                == crate::engine::proc_with_pid_from(procs@, pid, 0),
        decreases procs.len() - k,
    {
        if procs[k].pid == pid {
            assert(crate::engine::proc_with_pid_from(procs@, pid, k as int) == Some(procs@[k as int]));
            return Some(procs[k].name.clone());
        }
        k = k + 1;
    }
    None
}

/// Fill in unnamed GPU process entries from the process list.
pub fn name_gpu_processes(gpus: &mut Vec<GpuProcess>, procs: &Vec<ProcessInfo>)
    ensures
        final(gpus)@.len() == old(gpus)@.len(),
        forall|i: int| 0 <= i < old(gpus)@.len() ==> {
            &&& (#[trigger] final(gpus)@[i]).pid == old(gpus)@[i].pid
            &&& final(gpus)@[i].memory_bytes == old(gpus)@[i].memory_bytes
            &&& opt_view(final(gpus)@[i].name) == gpu_process_name(old(gpus)@[i], procs@)
        },
{
    let mut i: usize = 0;
    while i < gpus.len()
        invariant
            i <= gpus.len(),
            gpus@.len() == old(gpus)@.len(),
            forall|j: int| i <= j < gpus@.len() ==> gpus@[j] == old(gpus)@[j],
            forall|j: int| 0 <= j < i ==> {
                &&& (#[trigger] gpus@[j]).pid == old(gpus)@[j].pid
                &&& gpus@[j].memory_bytes == old(gpus)@[j].memory_bytes
                &&& opt_view(gpus@[j].name) == gpu_process_name(old(gpus)@[j], procs@)
            },
        decreases gpus.len() - i,
    {
        if gpus[i].name.is_none() {
            let pid = gpus[i].pid;
            let name = first_proc_name(procs, pid);
            let g = GpuProcess { pid, name, memory_bytes: gpus[i].memory_bytes };
            gpus.set(i, g);
        }
        i = i + 1;
    }
}

// ------------------------------------------------------------ geolocation

/// Addresses that are never looked up: loopback, private, multicast,
/// broadcast and IPv4 link-local; IPv6 loopback and multicast.
pub open spec fn private_or_local(ip: IpSpec) -> bool {
    match ip {
        IpSpec::V4(o) => o[0] == 127 || o[0] == 10 || (o[0] == 172 && 16 <= o[1] <= 31)
            || (o[0] == 192 && o[1] == 168) || (224 <= o[0] <= 239)
            || (o[0] == 255 && o[1] == 255 && o[2] == 255 && o[3] == 255)
            || (o[0] == 169 && o[1] == 254),
        IpSpec::V6(g) => (g[0] == 0 && g[1] == 0 && g[2] == 0 && g[3] == 0 && g[4] == 0 && g[5] == 0
            && g[6] == 0 && g[7] == 1) || g[0] >= 0xff00,
    }
}

pub fn is_private_or_local(ip: &IpAddr) -> (r: bool)
    requires
        crate::netparse::ip_wf(ip@),
    ensures
        r == private_or_local(ip@),
{
    match ip {
        IpAddr::V4(o) => o[0] == 127 || o[0] == 10 || (o[0] == 172 && 16 <= o[1] && o[1] <= 31)
            || (o[0] == 192 && o[1] == 168) || (224 <= o[0] && o[0] <= 239)
            || (o[0] == 255 && o[1] == 255 && o[2] == 255 && o[3] == 255)
            || (o[0] == 169 && o[1] == 254),
        IpAddr::V6(g) => (g[0] == 0 && g[1] == 0 && g[2] == 0 && g[3] == 0 && g[4] == 0 && g[5] == 0
            && g[6] == 0 && g[7] == 1) || g[0] >= 0xff00,
    }
}

/// The address of an endpoint worth a location lookup: its host part
/// reads as an IP that is not private or local.
pub open spec fn geo_target(s: Seq<char>) -> Option<IpSpec> {
    match spec_parse_ip(spec_strip_port(s)) {
        Some(ip) => if private_or_local(ip) { None } else { Some(ip) },
        None => None,
    }
}

pub fn geo_candidate(addr: &str) -> (r: Option<IpAddr>)
    ensures
        match r {
            Some(ip) => geo_target(addr@) == Some(ip@) && crate::netparse::ip_wf(ip@),
            None => geo_target(addr@) is None,
        },
{
    let clean = crate::netparse::strip_port(addr);
    match crate::netparse::parse_ip(clean.as_str()) {
        Some(ip) => {
            if is_private_or_local(&ip) {
                None
            } else {
                Some(ip)
            }
        },
        None => None,
    }
}

/// A location from what the database gave: unknown country code `??`,
/// unknown country name `Unknown`.
pub fn geo_location_of(country_code: Option<String>, country_name: Option<String>, city: Option<String>) -> (r: GeoLocation)
    ensures
        r.country_code@ == match country_code { Some(c) => c@, None => "??"@ },
        r.country_name@ == match country_name { Some(c) => c@, None => "Unknown"@ },
        r.city == city,
{
    GeoLocation {
        country_code: match country_code { Some(c) => c, None => String::from_str("??") },
        country_name: match country_name { Some(c) => c, None => String::from_str("Unknown") },
        city,
    }
}

} // verus!
