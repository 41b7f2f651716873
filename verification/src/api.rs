//! The decisions behind the local HTTP API: paging and window limits,
//! request validation, the fleet-proxy guard, export formats and the
//! network topology view.
use vstd::prelude::*;
use crate::engine::first_gateway;
use crate::metrics::{
    opt_view, Connection, ListeningPort, NetworkInterface, TopologyEdge, TopologyGraph, TopologyNode,
};
use crate::netparse::{spec_is_external, spec_parse_ip, spec_strip_port};
use crate::text::{append_str, chars_of, dec_str, lowercase_of, str_eq, to_lowercase, trimmed};

verus! {

pub open spec fn clamp(v: int, lo: int, hi: int) -> int {
    if v < lo { lo } else if v > hi { hi } else { v }
}

fn clamp_i64(v: i64, lo: i64, hi: i64) -> (r: i64)
    requires
        lo <= hi,
    ensures
        r == clamp(v as int, lo as int, hi as int),
{
    if v < lo { lo } else if v > hi { hi } else { v }
}

/// The `?limit=` of a listing.
pub struct Page {
    pub limit: Option<i64>,
}

impl Page {
    /// The limit asked for, or `default`, kept within 1..=1000.
    pub fn limit(&self, default: i64) -> (r: i64)
        ensures
            r == clamp(match self.limit { Some(l) => l as int, None => default as int }, 1, 1000),
    {
        let v = match self.limit {
            Some(l) => l,
            None => default,
        };
        clamp_i64(v, 1, 1000)
    }
}

/// The history window when none is asked for.
pub fn default_hours() -> (r: i64)
    ensures
        r == 24,
{
    24
}

/// History windows are kept within one hour and one week.
pub fn clamp_hours(hours: i64) -> (r: i64)
    ensures
        r == clamp(hours as int, 1, 168),
{
    clamp_i64(hours, 1, 168)
}

/// Rows are sampled at this stride so that a window never materialises
/// more than a few thousand points.
pub open spec fn spec_history_stride(hours: int) -> int {
    if hours <= 6 { 1 } else if hours <= 24 { 4 } else if hours <= 72 { 12 } else { 30 }
}

pub fn history_stride(hours: i64) -> (r: i64)
    ensures
        r == spec_history_stride(hours as int),
{
    if hours <= 6 { 1 } else if hours <= 24 { 4 } else if hours <= 72 { 12 } else { 30 }
}

/// How many recent DNS queries a listing returns (default 100, within 1..=1000).
pub fn dns_query_limit(limit: Option<i64>) -> (r: i64)
    ensures
        r == clamp(match limit { Some(l) => l as int, None => 100 }, 1, 1000),
{
    clamp_i64(match limit { Some(l) => l, None => 100 }, 1, 1000)
}

/// The window (default 24 h, at least 1) and length (default 20, within
/// 1..=100) of the top-domains listing.
pub fn top_domains_window(hours: Option<i64>, limit: Option<i64>) -> (r: (i64, i64))
    ensures
        r.0 == (match hours { Some(h) => if h < 1 { 1 } else { h as int }, None => 24 }),
        r.1 == clamp(match limit { Some(l) => l as int, None => 20 }, 1, 100),
{
    let h = match hours {
        Some(h) => if h < 1 { 1 } else { h },
        None => 24,
    };
    (h, clamp_i64(match limit { Some(l) => l, None => 20 }, 1, 100))
}

/// Stored monthly byte counts, read back (negative counts read as zero).
pub fn stored_bandwidth(rx: i64, tx: i64) -> (r: (u64, u64))
    ensures
        r.0 == (if rx < 0 { 0 } else { rx as int }),
        r.1 == (if tx < 0 { 0 } else { tx as int }),
{
    (if rx < 0 { 0 } else { rx as u64 }, if tx < 0 { 0 } else { tx as u64 })
}

// ------------------------------------------------------------ text sizes

/// Bytes a character takes in UTF-8.
pub open spec fn utf8_width(c: char) -> nat {
    if (c as u32) < 0x80 { 1 } else if (c as u32) < 0x800 { 2 } else if (c as u32) < 0x10000 { 3 } else { 4 }
}

/// `str::len`: the UTF-8 length in bytes.
pub open spec fn utf8_len(s: Seq<char>) -> nat
    decreases s.len(),
{
    if s.len() == 0 { 0 } else { utf8_len(s.drop_last()) + utf8_width(s.last()) }
}

proof fn lemma_utf8_len_prefix(s: Seq<char>, i: int)
    requires
        0 <= i <= s.len(),
    ensures
        utf8_len(s.subrange(0, i)) <= utf8_len(s),
    decreases s.len() - i,
{
    if i < s.len() {
        lemma_utf8_len_prefix(s, i + 1);
        assert(s.subrange(0, i + 1).drop_last() =~= s.subrange(0, i));
    } else {
        assert(s.subrange(0, i) =~= s);
    }
}

/// Whether `s` takes more than `k` bytes in UTF-8.
pub fn byte_len_exceeds(s: &str, k: usize) -> (r: bool)
    requires
        k <= 1_000_000,
    ensures
        r == (utf8_len(s@) > k),
{
    let v = chars_of(s);
    let mut n: usize = 0;
    let mut i: usize = 0;
    while i < v.len()
        invariant
            i <= v.len(),
            v@ == s@,
            k <= 1_000_000,
            n == utf8_len(v@.subrange(0, i as int)),
            n <= k,
        decreases v.len() - i,
    {
        assert(v@.subrange(0, i + 1).drop_last() =~= v@.subrange(0, i as int));
        let c = v[i];
        let w: usize = if (c as u32) < 0x80 { 1 } else if (c as u32) < 0x800 { 2 } else if (c as u32) < 0x10000 { 3 } else { 4 };
        assert(w == utf8_width(c));
        n = n + w;
        i = i + 1;
        assert(n == utf8_len(v@.subrange(0, i as int)));
        if n > k {
            proof {
                lemma_utf8_len_prefix(v@, i as int);
            }
            return true;
        }
    }
    assert(v@.subrange(0, v.len() as int) =~= v@);
    false
}

// ------------------------------------------------------------ feedback

/// Why a request was refused: the status code and the message shown.
#[derive(Debug)]
pub struct Rejection {
    pub status: u16,
    pub message: String,
}

pub open spec fn is_verdict(v: Seq<char>) -> bool {
    v == "false_positive"@ || v == "suppressed"@ || v == "confirmed"@
}

/// Feedback on a finding is accepted with a known verdict, a rule that is
/// not blank and at most 64 bytes, and a key of at most 512 bytes; rule
/// and key are stored trimmed.
pub fn validate_feedback(rule: &str, key: &str, verdict: &str) -> (r: Result<(String, String), Rejection>)
    ensures
        !is_verdict(verdict@) ==> (r matches Err(e) && e.status == 400
            && e.message@ == "verdict must be false_positive, suppressed, or confirmed"@),
        is_verdict(verdict@) && (trimmed(rule@).len() == 0 || utf8_len(rule@) > 64 || utf8_len(key@) > 512)
            ==> (r matches Err(e) && e.status == 400 && e.message@ == "invalid rule or key"@),
        is_verdict(verdict@) && !(trimmed(rule@).len() == 0 || utf8_len(rule@) > 64 || utf8_len(key@) > 512)
            ==> (r matches Ok(t) && t.0@ == trimmed(rule@) && t.1@ == trimmed(key@)),
{
    if !(str_eq(verdict, "false_positive") || str_eq(verdict, "suppressed") || str_eq(verdict, "confirmed")) {
        return Err(Rejection {
            status: 400,
            message: String::from_str("verdict must be false_positive, suppressed, or confirmed"),
        });
    }
    let r = crate::text::trim_str(rule);
    if r.len() == 0 || byte_len_exceeds(rule, 64) || byte_len_exceeds(key, 512) {
        return Err(Rejection { status: 400, message: String::from_str("invalid rule or key") });
    }
    let k = crate::text::trim_str(key);
    Ok((crate::text::string_of(&r), crate::text::string_of(&k)))
}

// ------------------------------------------------------------ fleet proxy

/// `char::is_control`: the C0 and C1 control characters.
pub open spec fn is_control(c: char) -> bool {
    (c as u32) <= 0x1f || (0x7f <= (c as u32) && (c as u32) <= 0x9f)
}

/// Characters that could smuggle credentials, a path or a query into a URL.
pub open spec fn forbidden_host_char(c: char) -> bool {
    c == '@' || c == '/' || c == '?' || c == '#' || c == '\\' || c == ' ' || c == '\t' || c == '\n'
        || c == '\r' || is_control(c)
}

pub open spec fn bad_host(host: Seq<char>) -> bool {
    host.len() == 0 || utf8_len(host) > 253 || exists|i: int| 0 <= i < host.len() && forbidden_host_char(#[trigger] host[i])
}

/// Only configured remote agents are proxied to, and only by a plain
/// `host[:port]`: a malformed address is refused (400), an unlisted one
/// forbidden (403).
pub fn check_fleet_host(remote_agents: &Vec<String>, host: &str) -> (r: Result<(), Rejection>)
    ensures
        bad_host(host@) ==> (r matches Err(e) && e.status == 400 && e.message@ == "invalid remote agent address"@),
        !bad_host(host@) && !crate::metrics::strs_view(remote_agents@).contains(host@)
            ==> (r matches Err(e) && e.status == 403 && e.message@ == "host is not a configured remote agent"@),
        !bad_host(host@) && crate::metrics::strs_view(remote_agents@).contains(host@) ==> r is Ok,
{
    let v = chars_of(host);
    let mut bad = v.len() == 0 || byte_len_exceeds(host, 253);
    let mut i: usize = 0;
    while i < v.len() && !bad
        invariant
            i <= v.len(),
            v@ == host@,
            !bad ==> forall|j: int| 0 <= j < i ==> !forbidden_host_char(#[trigger] v@[j]),
            !bad ==> v@.len() > 0 && utf8_len(host@) <= 253,
            bad ==> bad_host(host@),
        decreases v.len() - i,
    {
        let c = v[i];
        let u = c as u32;
        if c == '@' || c == '/' || c == '?' || c == '#' || c == '\\' || c == ' ' || c == '\t' || c == '\n'
            || c == '\r' || u <= 0x1f || (0x7f <= u && u <= 0x9f) {
            assert(forbidden_host_char(v@[i as int]));
            bad = true;
        }
        i = i + 1;
    }
    if bad {
        return Err(Rejection { status: 400, message: String::from_str("invalid remote agent address") });
    }
    let hs = String::from_str(host);
    if !crate::engine::contains_str(remote_agents, &hs) {
        return Err(Rejection { status: 403, message: String::from_str("host is not a configured remote agent") });
    }
    Ok(())
}

// ------------------------------------------------------------ exports

/// Exports are CSV when asked for `csv` (in any case), JSON otherwise.
pub open spec fn wants_csv(format: Option<Seq<char>>) -> bool {
    lowercase_of(match format { Some(f) => f, None => "json"@ }) == "csv"@
}

pub fn export_is_csv(format: Option<&str>) -> (r: bool)
    ensures
        r == wants_csv(match format { Some(f) => Some(f@), None => None }),
{
    let f = match format {
        Some(f) => to_lowercase(f),
        None => to_lowercase("json"),
    };
    str_eq(f.as_str(), "csv")
}

/// The `Content-Disposition` of an export download.
pub fn export_disposition(filename: &str, csv: bool) -> (r: String)
    ensures
        r@ == "attachment; filename=\""@ + filename@ + (if csv { ".csv"@ } else { ".json"@ }) + "\""@,
{
    let mut s = String::new();
    append_str(&mut s, "attachment; filename=\"");
    append_str(&mut s, filename);
    append_str(&mut s, if csv { ".csv" } else { ".json" });
    append_str(&mut s, "\"");
    s
}

/// The address a connection-history request names: its host part, when
/// that reads as an IP address.
pub fn history_address(remote_addr: &str) -> (r: Option<String>)
    ensures
        match r {
            Some(a) => a@ == spec_strip_port(remote_addr@) && spec_parse_ip(a@) is Some,
            None => spec_parse_ip(spec_strip_port(remote_addr@)) is None,
        },
{
    let clean = crate::netparse::strip_port(remote_addr);
    match crate::netparse::parse_ip(clean.as_str()) {
        Some(_) => Some(clean),
        None => None,
    }
}

// ------------------------------------------------------------ topology

pub type NodeView = (Seq<char>, Seq<char>, Seq<char>, Option<Seq<char>>);
pub type EdgeView = (Seq<char>, Seq<char>, Seq<char>, bool, Option<Seq<char>>);

pub open spec fn node_view(n: TopologyNode) -> NodeView {
    (n.id@, n.kind@, n.label@, opt_view(n.subtitle))
}

pub open spec fn edge_view(e: TopologyEdge) -> EdgeView {
    (e.id@, e.source@, e.target@, e.animated, opt_view(e.label))
}

/// The host's own address: the first address of the first interface that
/// is not a loopback and has one; `local` otherwise.
pub open spec fn host_ip_from(ifaces: Seq<NetworkInterface>, i: int) -> Seq<char>
    decreases ifaces.len() - i,
{
    if i < 0 || i >= ifaces.len() {
        "local"@
    } else if ifaces[i].kind@ != "loopback"@ && ifaces[i].ips@.len() > 0 {
        ifaces[i].ips@[0]@
    } else {
        host_ip_from(ifaces, i + 1)
    }
}

pub open spec fn tcp_ports(ports: Seq<ListeningPort>) -> Seq<ListeningPort>
    decreases ports.len(),
{
    if ports.len() == 0 {
        Seq::empty()
    } else if ports.last().protocol@ == "TCP"@ {
        tcp_ports(ports.drop_last()).push(ports.last())
    } else {
        tcp_ports(ports.drop_last())
    }
}

pub open spec fn external_conns(conns: Seq<Connection>) -> Seq<Connection>
    decreases conns.len(),
{
    if conns.len() == 0 {
        Seq::empty()
    } else if spec_is_external(conns.last().remote_addr@) {
        external_conns(conns.drop_last()).push(conns.last())
    } else {
        external_conns(conns.drop_last())
    }
}

pub open spec fn first_n<A>(s: Seq<A>, n: nat) -> Seq<A> {
    if s.len() <= n { s } else { s.subrange(0, n as int) }
}

pub open spec fn port_node_id(p: ListeningPort) -> Seq<char> {
    "port-"@ + p.protocol@ + "-"@ + dec_str(p.port as nat)
}

pub open spec fn port_node(p: ListeningPort) -> NodeView {
    (port_node_id(p), "port"@, ":"@ + dec_str(p.port as nat), opt_view(p.process_name))
}

pub open spec fn port_edge(p: ListeningPort) -> EdgeView {
    ("e-pc-"@ + port_node_id(p), "pc"@, port_node_id(p), false, Some(p.protocol@))
}

pub open spec fn remote_node(i: int, c: Connection) -> NodeView {
    ("ext-"@ + dec_str(i as nat), "remote"@, c.remote_addr@ + ":"@ + dec_str(c.remote_port as nat), opt_view(c.process_name))
}

pub open spec fn remote_edge(i: int, c: Connection) -> EdgeView {
    ("e-pc-ext-"@ + dec_str(i as nat), "pc"@, "ext-"@ + dec_str(i as nat), true, opt_view(c.process_name))
}

/// The topology view: internet, router (subtitled with the gateway), this
/// host (named by its hostname, `MY PC` when unknown, subtitled with its
/// address); then up to 18 TCP listening ports and up to 12 external
/// remotes, each linked to the host.
pub open spec fn topology_nodes(
    ifaces: Seq<NetworkInterface>,
    hostname: Option<Seq<char>>,
    ports: Seq<ListeningPort>,
    conns: Seq<Connection>,
) -> Seq<NodeView> {
    seq![
        ("internet"@, "internet"@, "INTERNET"@, None),
        ("router"@, "router"@, "Router"@, first_gateway(ifaces)),
        ("pc"@, "host"@, match hostname { Some(h) => h, None => "MY PC"@ }, Some(host_ip_from(ifaces, 0))),
    ] + first_n(tcp_ports(ports), 18).map_values(|p: ListeningPort| port_node(p))
        + first_n(external_conns(conns), 12).map(|i: int, c: Connection| remote_node(i, c))
}

pub open spec fn topology_edges(ports: Seq<ListeningPort>, conns: Seq<Connection>) -> Seq<EdgeView> {
    seq![
        ("e-int-r"@, "internet"@, "router"@, true, None),
        ("e-r-pc"@, "router"@, "pc"@, true, None),
    ] + first_n(tcp_ports(ports), 18).map_values(|p: ListeningPort| port_edge(p))
        + first_n(external_conns(conns), 12).map(|i: int, c: Connection| remote_edge(i, c))
}

fn node(id: String, kind: &str, label: String, subtitle: Option<String>) -> (n: TopologyNode)
    ensures
        node_view(n) == (id@, kind@, label@, opt_view(subtitle)),
{
    TopologyNode { id, kind: String::from_str(kind), label, subtitle }
}

fn edge(id: String, source: &str, target: String, animated: bool, label: Option<String>) -> (e: TopologyEdge)
    ensures
        edge_view(e) == (id@, source@, target@, animated, opt_view(label)),
{
    TopologyEdge { id, source: String::from_str(source), target, animated, label }
}

fn host_ip(ifaces: &Vec<NetworkInterface>) -> (r: String)
    ensures
        r@ == host_ip_from(ifaces@, 0),
{
    let mut i: usize = 0;
    while i < ifaces.len()
        invariant
            i <= ifaces.len(),
            host_ip_from(ifaces@, i as int) == host_ip_from(ifaces@, 0),
        decreases ifaces.len() - i,
    {
        if !str_eq(ifaces[i].kind.as_str(), "loopback") && ifaces[i].ips.len() > 0 {
            return ifaces[i].ips[0].clone();
        }
        i = i + 1;
    }
    String::from_str("local")
}

fn cat3(a: &str, b: &str, c: &str) -> (s: String)
    ensures
        s@ == a@ + b@ + c@,
{
    let mut s = String::new();
    append_str(&mut s, a);
    append_str(&mut s, b);
    append_str(&mut s, c);
    assert(s@ =~= a@ + b@ + c@);
    s
}

fn dec_string(n: u64) -> (s: String)
    ensures
        s@ == dec_str(n as nat),
{
    let mut s = String::new();
    crate::text::append_dec(&mut s, n);
    assert(s@ =~= dec_str(n as nat));
    s
}

/// The network topology view (see `topology_nodes`, `topology_edges`).
pub fn build_topology(
    ifaces: &Vec<NetworkInterface>,
    hostname: Option<String>,
    ports: &Vec<ListeningPort>,
    conns: &Vec<Connection>,
) -> (g: TopologyGraph)
    ensures
        g.nodes@.map_values(|n: TopologyNode| node_view(n)) == topology_nodes(ifaces@, opt_view(hostname), ports@, conns@),
        g.edges@.map_values(|e: TopologyEdge| edge_view(e)) == topology_edges(ports@, conns@),
{
    let ghost hv = opt_view(hostname);
    let mut nodes: Vec<TopologyNode> = Vec::new();
    let mut edges: Vec<TopologyEdge> = Vec::new();
    nodes.push(node(String::from_str("internet"), "internet", String::from_str("INTERNET"), None));
    let gw = crate::engine::find_gateway(ifaces);
    nodes.push(node(String::from_str("router"), "router", String::from_str("Router"), gw));
    let host = match hostname {
        Some(h) => h,
        None => String::from_str("MY PC"),
    };
    nodes.push(node(String::from_str("pc"), "host", host, Some(host_ip(ifaces))));
    edges.push(edge(String::from_str("e-int-r"), "internet", String::from_str("router"), true, None));
    edges.push(edge(String::from_str("e-r-pc"), "router", String::from_str("pc"), true, None));
    let ghost base_n = nodes@.map_values(|n: TopologyNode| node_view(n));
    let ghost base_e = edges@.map_values(|e: TopologyEdge| edge_view(e));
    assert(base_n =~= seq![
        ("internet"@, "internet"@, "INTERNET"@, None),
        ("router"@, "router"@, "Router"@, first_gateway(ifaces@)),
        ("pc"@, "host"@, match hv { Some(h) => h, None => "MY PC"@ }, Some(host_ip_from(ifaces@, 0))),
    ]);
    assert(base_e =~= seq![
        ("e-int-r"@, "internet"@, "router"@, true, None),
        ("e-r-pc"@, "router"@, "pc"@, true, None),
    ]);
    // listening TCP ports
    let mut taken: usize = 0;
    let mut i: usize = 0;
    while i < ports.len() && taken < 18
        invariant
            i <= ports.len(),
            taken <= 18,
            taken == first_n(tcp_ports(ports@.subrange(0, i as int)), 18).len(),
            taken < 18 ==> tcp_ports(ports@.subrange(0, i as int)).len() == taken,
            nodes@.map_values(|n: TopologyNode| node_view(n))
                == base_n + tcp_ports(ports@.subrange(0, i as int)).subrange(0, taken as int).map_values(|p: ListeningPort| port_node(p)),
            edges@.map_values(|e: TopologyEdge| edge_view(e))
                == base_e + tcp_ports(ports@.subrange(0, i as int)).subrange(0, taken as int).map_values(|p: ListeningPort| port_edge(p)),
        decreases ports.len() - i,
    {
        let p = &ports[i];
        assert(ports@.subrange(0, i + 1).drop_last() =~= ports@.subrange(0, i as int));
        let ghost tp = tcp_ports(ports@.subrange(0, i as int));
        if str_eq(p.protocol.as_str(), "TCP") {
            let ds = dec_string(p.port as u64);
            let mut id = cat3("port-", p.protocol.as_str(), "-");
            append_str(&mut id, ds.as_str());
            assert(id@ =~= port_node_id(*p));
            let label = crate::engine::concat(":", ds.as_str());
            assert(label@ =~= ":"@ + dec_str(p.port as nat));
            let eid = crate::engine::concat("e-pc-", id.as_str());
            assert(eid@ =~= "e-pc-"@ + port_node_id(*p));
            let ghost n0 = nodes@;
            let ghost e0 = edges@;
            let nd = node(id.clone(), "port", label, copy_opt_str(&p.process_name));
            nodes.push(nd);
            let ed = edge(eid, "pc", id, false, Some(p.protocol.clone()));
            edges.push(ed);
            assert(tcp_ports(ports@.subrange(0, i + 1)) == tp.push(*p));
            assert(tp.push(*p).subrange(0, taken + 1) =~= tp.subrange(0, taken as int).push(*p));
            assert(nodes@.map_values(|n: TopologyNode| node_view(n)) =~= n0.map_values(|n: TopologyNode| node_view(n)).push(node_view(nd)));
            assert(edges@.map_values(|e: TopologyEdge| edge_view(e)) =~= e0.map_values(|e: TopologyEdge| edge_view(e)).push(edge_view(ed)));
            assert(tp.subrange(0, taken as int).push(*p).map_values(|p: ListeningPort| port_node(p))
                =~= tp.subrange(0, taken as int).map_values(|p: ListeningPort| port_node(p)).push(port_node(*p)));
            assert(tp.subrange(0, taken as int).push(*p).map_values(|p: ListeningPort| port_edge(p))
                =~= tp.subrange(0, taken as int).map_values(|p: ListeningPort| port_edge(p)).push(port_edge(*p)));
            taken = taken + 1;
        }
        i = i + 1;
    }
    proof {
        lemma_first_n_ports_stable(ports@, i as int);
    }
    assert(tcp_ports(ports@.subrange(0, i as int)).subrange(0, taken as int) =~= first_n(tcp_ports(ports@), 18));
    let ghost port_n = nodes@.map_values(|n: TopologyNode| node_view(n));
    let ghost port_e = edges@.map_values(|e: TopologyEdge| edge_view(e));
    // external remotes
    let mut k: usize = 0;
    let mut j: usize = 0;
    while j < conns.len() && k < 12
        invariant
            j <= conns.len(),
            k <= 12,
            k == first_n(external_conns(conns@.subrange(0, j as int)), 12).len(),
            k < 12 ==> external_conns(conns@.subrange(0, j as int)).len() == k,
            nodes@.map_values(|n: TopologyNode| node_view(n))
                == port_n + external_conns(conns@.subrange(0, j as int)).subrange(0, k as int).map(|i: int, c: Connection| remote_node(i, c)),
            edges@.map_values(|e: TopologyEdge| edge_view(e))
                == port_e + external_conns(conns@.subrange(0, j as int)).subrange(0, k as int).map(|i: int, c: Connection| remote_edge(i, c)),
        decreases conns.len() - j,
    {
        let c = &conns[j];
        assert(conns@.subrange(0, j + 1).drop_last() =~= conns@.subrange(0, j as int));
        let ghost ec = external_conns(conns@.subrange(0, j as int));
        if crate::netparse::is_external_addr(c.remote_addr.as_str()) {
            let ks = dec_string(k as u64);
            let id = crate::engine::concat("ext-", ks.as_str());
            let rp = dec_string(c.remote_port as u64);
            let label = cat3(c.remote_addr.as_str(), ":", rp.as_str());
            let eid = crate::engine::concat("e-pc-ext-", ks.as_str());
            let ghost n0 = nodes@;
            let ghost e0 = edges@;
            let nd = node(id.clone(), "remote", label, copy_opt_str(&c.process_name));
            nodes.push(nd);
            let ed = edge(eid, "pc", id, true, copy_opt_str(&c.process_name));
            edges.push(ed);
            assert(external_conns(conns@.subrange(0, j + 1)) == ec.push(*c));
            assert(ec.push(*c).subrange(0, k + 1) =~= ec.subrange(0, k as int).push(*c));
            assert(node_view(nd) == remote_node(k as int, *c));
            assert(edge_view(ed) == remote_edge(k as int, *c));
            assert(nodes@.map_values(|n: TopologyNode| node_view(n)) =~= n0.map_values(|n: TopologyNode| node_view(n)).push(node_view(nd)));
            assert(edges@.map_values(|e: TopologyEdge| edge_view(e)) =~= e0.map_values(|e: TopologyEdge| edge_view(e)).push(edge_view(ed)));
            assert(ec.subrange(0, k as int).push(*c).map(|i: int, c: Connection| remote_node(i, c))
                =~= ec.subrange(0, k as int).map(|i: int, c: Connection| remote_node(i, c)).push(remote_node(k as int, *c)));
            assert(ec.subrange(0, k as int).push(*c).map(|i: int, c: Connection| remote_edge(i, c))
                =~= ec.subrange(0, k as int).map(|i: int, c: Connection| remote_edge(i, c)).push(remote_edge(k as int, *c)));
            k = k + 1;
        }
        j = j + 1;
    }
    proof {
        lemma_first_n_conns_stable(conns@, j as int);
    }
    assert(external_conns(conns@.subrange(0, j as int)).subrange(0, k as int) =~= first_n(external_conns(conns@), 12));
    assert(nodes@.map_values(|n: TopologyNode| node_view(n)) =~= topology_nodes(ifaces@, hv, ports@, conns@));
    assert(edges@.map_values(|e: TopologyEdge| edge_view(e)) =~= topology_edges(ports@, conns@));
    TopologyGraph { nodes, edges }
}

fn copy_opt_str(o: &Option<String>) -> (r: Option<String>)
    ensures
        opt_view(r) == opt_view(*o),
{
    match o {
        Some(s) => Some(s.clone()),
        None => None,
    }
}

/// The filtered prefix only grows with more input.
proof fn lemma_tcp_prefix(ports: Seq<ListeningPort>, i: int, j: int)
    requires
        0 <= i <= j <= ports.len(),
    ensures
        tcp_ports(ports.subrange(0, i)).len() <= tcp_ports(ports.subrange(0, j)).len(),
        forall|k: int| 0 <= k < tcp_ports(ports.subrange(0, i)).len()
            ==> tcp_ports(ports.subrange(0, j))[k] == tcp_ports(ports.subrange(0, i))[k],
    decreases j - i,
{
    if i < j {
        lemma_tcp_prefix(ports, i, j - 1);
        assert(ports.subrange(0, j).drop_last() =~= ports.subrange(0, j - 1));
    }
}

proof fn lemma_first_n_ports_stable(ports: Seq<ListeningPort>, i: int)
    requires
        0 <= i <= ports.len(),
        i == ports.len() || first_n(tcp_ports(ports.subrange(0, i)), 18).len() == 18,
        tcp_ports(ports.subrange(0, i)).len() < 18 ==> i == ports.len(),
    ensures
        first_n(tcp_ports(ports.subrange(0, i)), 18) == first_n(tcp_ports(ports), 18),
{
    lemma_tcp_prefix(ports, i, ports.len() as int);
    assert(ports.subrange(0, ports.len() as int) =~= ports);
    let a = tcp_ports(ports.subrange(0, i));
    let b = tcp_ports(ports);
    if i < ports.len() {
        assert(first_n(a, 18) =~= first_n(b, 18));
    }
}

proof fn lemma_ext_prefix(conns: Seq<Connection>, i: int, j: int)
    requires
        0 <= i <= j <= conns.len(),
    ensures
        external_conns(conns.subrange(0, i)).len() <= external_conns(conns.subrange(0, j)).len(),
        forall|k: int| 0 <= k < external_conns(conns.subrange(0, i)).len()
            ==> external_conns(conns.subrange(0, j))[k] == external_conns(conns.subrange(0, i))[k],
    decreases j - i,
{
    if i < j {
        lemma_ext_prefix(conns, i, j - 1);
        assert(conns.subrange(0, j).drop_last() =~= conns.subrange(0, j - 1));
    }
}

proof fn lemma_first_n_conns_stable(conns: Seq<Connection>, j: int)
    requires
        0 <= j <= conns.len(),
        j == conns.len() || first_n(external_conns(conns.subrange(0, j)), 12).len() == 12,
        external_conns(conns.subrange(0, j)).len() < 12 ==> j == conns.len(),
    ensures
        first_n(external_conns(conns.subrange(0, j)), 12) == first_n(external_conns(conns), 12),
{
    lemma_ext_prefix(conns, j, conns.len() as int);
    assert(conns.subrange(0, conns.len() as int) =~= conns);
    let a = external_conns(conns.subrange(0, j));
    let b = external_conns(conns);
    if j < conns.len() {
        assert(first_n(a, 12) =~= first_n(b, 12));
    }
}

/// The topology stays small: at most 18 port and 12 remote nodes beside
/// the internet, router and host, and one edge per node but the internet.
pub proof fn law_topology_is_bounded(
    ifaces: Seq<NetworkInterface>,
    hostname: Option<Seq<char>>,
    ports: Seq<ListeningPort>,
    conns: Seq<Connection>,
)
    ensures
        topology_nodes(ifaces, hostname, ports, conns).len() <= 33,
        topology_edges(ports, conns).len() + 1 == topology_nodes(ifaces, hostname, ports, conns).len(),
{
}

} // verus!
