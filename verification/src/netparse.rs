//! IP address text: parsing (the grammar `IpAddr::from_str` accepts),
//! canonical rendering, endpoint port stripping and address classification.
//!
//! IPv6 handling is exact: `2001:db8::1` is never cut at its first colon.
use vstd::prelude::*;
use crate::text::{
    all_dec_digits, all_dec_digits_exec, count_char, count_char_exec, dec_chars, dec_str,
    find_from, find_from_exec, lemma_find_bounds, rfind_before, rfind_exec, string_of, subvec,
    trim_chars, trimmed, chars_of, append_chars,
};

verus! {

// ---------------------------------------------------------------- digits

pub open spec fn is_dec(c: char) -> bool {
    '0' <= c && c <= '9'
}

pub open spec fn is_hex(c: char) -> bool {
    ('0' <= c && c <= '9') || ('a' <= c && c <= 'f') || ('A' <= c && c <= 'F')
}

pub open spec fn is_digit(c: char, hex: bool) -> bool {
    if hex { is_hex(c) } else { is_dec(c) }
}

pub open spec fn digit_val(c: char) -> nat {
    if '0' <= c && c <= '9' {
        (c as int - '0' as int) as nat
    } else if 'a' <= c && c <= 'f' {
        (c as int - 'a' as int + 10) as nat
    } else if 'A' <= c && c <= 'F' {
        (c as int - 'A' as int + 10) as nat
    } else {
        0
    }
}

/// End of the run of digits that starts at `j`.
pub open spec fn run_end(s: Seq<char>, j: int, hex: bool) -> int
    decreases s.len() - j,
{
    if 0 <= j < s.len() && is_digit(s[j], hex) {
        run_end(s, j + 1, hex)
    } else {
        j
    }
}

/// Value of the `k` decimal digits at `i`.
pub open spec fn dec_value(s: Seq<char>, i: int, k: int) -> nat
    decreases k,
{
    if k <= 0 {
        0
    } else {
        dec_value(s, i, k - 1) * 10 + digit_val(s[i + k - 1])
    }
}

/// Value of the `k` hexadecimal digits at `i`.
pub open spec fn hex_value(s: Seq<char>, i: int, k: int) -> nat
    decreases k,
{
    if k <= 0 {
        0
    } else {
        hex_value(s, i, k - 1) * 16 + digit_val(s[i + k - 1])
    }
}

/// One IPv4 octet at `i`: one to three decimal digits, no leading zero
/// unless the octet is just `0`, value at most 255. Gives the octet and
/// the position after it.
pub open spec fn octet_at(s: Seq<char>, i: int) -> Option<(u8, int)> {
    let k = run_end(s, i, false) - i;
    if k <= 0 || k > 3 {
        None
    } else if s[i] == '0' && k > 1 {
        None
    } else if dec_value(s, i, k) > 255 {
        None
    } else {
        Some((dec_value(s, i, k) as u8, i + k))
    }
}

/// One IPv6 group at `i`: one to four hexadecimal digits (either case).
pub open spec fn hex_group_at(s: Seq<char>, i: int) -> Option<(u16, int)> {
    let k = run_end(s, i, true) - i;
    if k <= 0 || k > 4 {
        None
    } else {
        Some((hex_value(s, i, k) as u16, i + k))
    }
}

/// Position after the separator `c` that must precede every item but the first.
pub open spec fn after_sep(s: Seq<char>, i: int, first: bool, c: char) -> Option<int> {
    if first {
        Some(i)
    } else if 0 <= i < s.len() && s[i] == c {
        Some(i + 1)
    } else {
        None
    }
}

/// Octets `idx..4` of a dotted quad starting at `i`.
pub open spec fn v4_from(s: Seq<char>, i: int, idx: int) -> Option<(Seq<u8>, int)>
    decreases 4 - idx,
{
    if idx >= 4 {
        Some((Seq::empty(), i))
    } else {
        match after_sep(s, i, idx == 0, '.') {
            None => None,
            Some(p) => match octet_at(s, p) {
                None => None,
                Some((o, e)) => match v4_from(s, e, idx + 1) {
                    None => None,
                    Some((r, e2)) => Some((seq![o] + r, e2)),
                },
            },
        }
    }
}

/// A dotted quad starting at `i`.
pub open spec fn ipv4_at(s: Seq<char>, i: int) -> Option<(Seq<u8>, int)> {
    v4_from(s, i, 0)
}

pub open spec fn v4_pair_groups(o: Seq<u8>) -> Seq<u16> {
    seq![(o[0] as int * 256 + o[1] as int) as u16, (o[2] as int * 256 + o[3] as int) as u16]
}

/// Groups `idx..limit` of an IPv6 run starting at `i`: the groups read, the
/// position after them, and whether the run ended in an embedded IPv4
/// address (allowed only where two groups remain).
pub open spec fn v6_groups(s: Seq<char>, i: int, idx: int, limit: int) -> (Seq<u16>, int, bool)
    decreases limit - idx,
{
    if idx >= limit {
        (Seq::empty(), i, false)
    } else {
        match after_sep(s, i, idx == 0, ':') {
            None => (Seq::empty(), i, false),
            Some(p) => if idx + 1 < limit && ipv4_at(s, p) is Some {
                let (o, e) = ipv4_at(s, p).unwrap();
                (v4_pair_groups(o), e, true)
            } else {
                match hex_group_at(s, p) {
                    None => (Seq::empty(), i, false),
                    Some((g, e)) => {
                        let rest = v6_groups(s, e, idx + 1, limit);
                        (seq![g] + rest.0, rest.1, rest.2)
                    },
                }
            },
        }
    }
}

/// An IPv6 address starting at the beginning of `s`: eight groups, or fewer
/// groups around a single `::` that stands for one or more zero groups.
pub open spec fn ipv6_at_start(s: Seq<char>) -> Option<(Seq<u16>, int)> {
    let head = v6_groups(s, 0, 0, 8);
    if head.0.len() == 8 {
        Some((head.0, head.1))
    } else if head.2 {
        None
    } else if 0 <= head.1 && head.1 + 1 < s.len() && s[head.1] == ':' && s[head.1 + 1] == ':' {
        let tail = v6_groups(s, head.1 + 2, 0, 7 - head.0.len());
        Some((
            head.0 + Seq::new((8 - head.0.len() - tail.0.len()) as nat, |k: int| 0u16) + tail.0,
            tail.1,
        ))
    } else {
        None
    }
}

// ---------------------------------------------------------------- addresses

/// An IP address: four octets or eight 16-bit groups.
#[derive(Clone, Debug)]
pub enum IpAddr {
    V4(Vec<u8>),
    V6(Vec<u16>),
}

pub enum IpSpec {
    V4(Seq<u8>),
    V6(Seq<u16>),
}

impl View for IpAddr {
    type V = IpSpec;

    open spec fn view(&self) -> IpSpec {
        match self {
            IpAddr::V4(o) => IpSpec::V4(o@),
            IpAddr::V6(g) => IpSpec::V6(g@),
        }
    }
}

pub open spec fn ip_wf(ip: IpSpec) -> bool {
    match ip {
        IpSpec::V4(o) => o.len() == 4,
        IpSpec::V6(g) => g.len() == 8,
    }
}

/// The address `s` spells, with nothing left over: a dotted quad if one
/// starts the text, else an IPv6 address.
pub open spec fn spec_parse_ip(s: Seq<char>) -> Option<IpSpec> {
    match ipv4_at(s, 0) {
        Some((o, e)) => if e == s.len() { Some(IpSpec::V4(o)) } else { None },
        None => match ipv6_at_start(s) {
            Some((g, e)) => if e == s.len() { Some(IpSpec::V6(g)) } else { None },
            None => None,
        },
    }
}

// ---------------------------------------------------------------- rendering

pub open spec fn hex_digit_char(d: nat) -> char {
    if d < 10 {
        ('0' as int + d) as char
    } else {
        ('a' as int + d - 10) as char
    }
}

/// Lowercase hexadecimal without leading zeros.
pub open spec fn hex_str(n: nat) -> Seq<char>
    decreases n,
{
    if n < 16 {
        seq![hex_digit_char(n)]
    } else {
        hex_str(n / 16).push(hex_digit_char(n % 16))
    }
}

pub open spec fn v4_text(o: Seq<u8>) -> Seq<char> {
    dec_str(o[0] as nat) + "."@ + dec_str(o[1] as nat) + "."@ + dec_str(o[2] as nat) + "."@
        + dec_str(o[3] as nat)
}

/// Groups in hexadecimal, joined by `:`.
pub open spec fn groups_text(g: Seq<u16>) -> Seq<char>
    decreases g.len(),
{
    if g.len() == 0 {
        Seq::empty()
    } else if g.len() == 1 {
        hex_str(g[0] as nat)
    } else {
        groups_text(g.drop_last()) + ":"@ + hex_str(g.last() as nat)
    }
}

/// Scan for the longest run of zero groups (the first one among equals).
/// `(bs, bl)` is the best run so far, `(cs, cl)` the run being extended.
pub open spec fn zero_run_from(g: Seq<u16>, i: int, bs: int, bl: int, cs: int, cl: int) -> (int, int)
    decreases g.len() - i,
{
    if i < 0 || i >= g.len() {
        (bs, bl)
    } else if g[i] == 0 {
        let ns = if cl == 0 { i } else { cs };
        if cl + 1 > bl {
            zero_run_from(g, i + 1, ns, cl + 1, ns, cl + 1)
        } else {
            zero_run_from(g, i + 1, bs, bl, ns, cl + 1)
        }
    } else {
        zero_run_from(g, i + 1, bs, bl, 0, 0)
    }
}

pub open spec fn is_v4_mapped(g: Seq<u16>) -> bool {
    g[0] == 0 && g[1] == 0 && g[2] == 0 && g[3] == 0 && g[4] == 0 && g[5] == 0xffff
}

/// Canonical IPv6 text (RFC 5952): IPv4-mapped addresses as
/// `::ffff:a.b.c.d`; otherwise the longest run of two or more zero groups
/// (the first among equals) becomes `::`.
pub open spec fn v6_text(g: Seq<u16>) -> Seq<char> {
    if is_v4_mapped(g) {
        "::ffff:"@ + v4_text(
            seq![(g[6] / 256) as u8, (g[6] % 256) as u8, (g[7] / 256) as u8, (g[7] % 256) as u8],
        )
    } else {
        let z = zero_run_from(g, 0, 0, 0, 0, 0);
        if z.1 > 1 {
            groups_text(g.subrange(0, z.0)) + "::"@ + groups_text(g.subrange(z.0 + z.1, 8))
        } else {
            groups_text(g)
        }
    }
}

pub open spec fn ip_text(ip: IpSpec) -> Seq<char> {
    match ip {
        IpSpec::V4(o) => v4_text(o),
        IpSpec::V6(g) => v6_text(g),
    }
}

// ---------------------------------------------------------------- classification

/// Not loopback, private, link-local, unspecified, multicast or broadcast.
pub open spec fn v4_is_global(o: Seq<u8>) -> bool {
    !(o[0] == 127
        || o[0] == 10
        || (o[0] == 172 && 16 <= o[1] <= 31)
        || (o[0] == 192 && o[1] == 168)
        || (o[0] == 169 && o[1] == 254)
        || (o[0] == 0 && o[1] == 0 && o[2] == 0 && o[3] == 0)
        || (224 <= o[0] <= 239)
        || (o[0] == 255 && o[1] == 255 && o[2] == 255 && o[3] == 255))
}

/// Not loopback (`::1`), unspecified (`::`), multicast (`ff00::/8`), unique
/// local (`fc00::/7`) or link-local (`fe80::/10`).
pub open spec fn v6_is_global(g: Seq<u16>) -> bool {
    let zero_prefix = g[0] == 0 && g[1] == 0 && g[2] == 0 && g[3] == 0 && g[4] == 0 && g[5] == 0
        && g[6] == 0;
    !((zero_prefix && (g[7] == 1 || g[7] == 0))
        || g[0] >= 0xff00
        || (0xfc00 <= g[0] <= 0xfdff)
        || (0xfe80 <= g[0] <= 0xfebf))
}

// ---------------------------------------------------------------- endpoints

/// Host part of an endpoint: `[v6]:port` gives the bracketed address,
/// a bare IP is kept whole, and `host:port` with exactly one colon and a
/// numeric port gives `host`. Everything else is returned (trimmed) as is.
pub open spec fn spec_strip_port(raw: Seq<char>) -> Seq<char> {
    let s = trimmed(raw);
    if s.len() > 0 && s[0] == '[' {
        let rest = s.subrange(1, s.len() as int);
        let e = find_from(rest, ']', 0);
        if e < rest.len() {
            trimmed(rest.subrange(0, e))
        } else {
            s
        }
    } else if spec_parse_ip(s) is Some {
        s
    } else if count_char(s, ':', s.len() as int) == 1 {
        let k = rfind_before(s, ':', s.len() as int);
        let host = s.subrange(0, k);
        let port = s.subrange(k + 1, s.len() as int);
        if host.len() > 0 && port.len() > 0 && all_dec_digits(port) {
            host
        } else {
            s
        }
    } else {
        s
    }
}

/// A block-list entry in canonical form, when the text names an IP.
pub open spec fn spec_parse_block_target(raw: Seq<char>) -> Option<Seq<char>> {
    match spec_parse_ip(spec_strip_port(raw)) {
        Some(ip) => Some(ip_text(ip)),
        None => None,
    }
}

/// Whether an endpoint names a globally routable address. Zone ids
/// (`%eth0`) are dropped; text that is not an IP counts as not external.
pub open spec fn spec_is_external(addr: Seq<char>) -> bool {
    let clean = spec_strip_port(addr);
    let host = clean.subrange(0, find_from(clean, '%', 0));
    match spec_parse_ip(host) {
        Some(IpSpec::V4(o)) => v4_is_global(o),
        Some(IpSpec::V6(g)) => v6_is_global(g),
        None => false,
    }
}

// ================================================================ exec

fn is_digit_exec(c: char, hex: bool) -> (r: bool)
    ensures
        r == is_digit(c, hex),
{
    if hex {
        ('0' <= c && c <= '9') || ('a' <= c && c <= 'f') || ('A' <= c && c <= 'F')
    } else {
        '0' <= c && c <= '9'
    }
}

fn digit_val_exec(c: char) -> (r: u32)
    ensures
        r == digit_val(c),
        r < 16,
{
    if '0' <= c && c <= '9' {
        (c as u32) - ('0' as u32)
    } else if 'a' <= c && c <= 'f' {
        (c as u32) - ('a' as u32) + 10
    } else if 'A' <= c && c <= 'F' {
        (c as u32) - ('A' as u32) + 10
    } else {
        0
    }
}

proof fn lemma_run_end_ge(s: Seq<char>, j: int, hex: bool)
    ensures
        run_end(s, j, hex) >= j,
        0 <= j ==> run_end(s, j, hex) <= s.len() || run_end(s, j, hex) == j,
    decreases s.len() - j,
{
    if 0 <= j < s.len() && is_digit(s[j], hex) {
        lemma_run_end_ge(s, j + 1, hex);
    }
}

fn octet_at_exec(s: &[char], i: usize) -> (r: Option<(u8, usize)>)
    requires
        i <= s.len(),
    ensures
        match r {
            Some((o, e)) => octet_at(s@, i as int) == Some((o, e as int)),
            None => octet_at(s@, i as int) is None,
        },
{
    let n = s.len();
    let mut j: usize = i;
    let mut v: u32 = 0;
    while j < n && is_digit_exec(s[j], false) && j - i < 3
        invariant
            i <= j <= n,
            n == s.len(),
            j - i <= 3,
            run_end(s@, j as int, false) == run_end(s@, i as int, false),
            v == dec_value(s@, i as int, j - i),
            v < 1000,
            j - i <= 2 ==> v < 100,
            j - i <= 1 ==> v < 10,
            j - i == 0 ==> v == 0,
        decreases n - j,
    {
        let d = digit_val_exec(s[j]);
        assert(d < 10);
        v = v * 10 + d;
        j = j + 1;
        assert(dec_value(s@, i as int, j - i) == dec_value(s@, i as int, j - i - 1) * 10
            + digit_val(s@[i + (j - i) - 1]));
    }
    proof {
        lemma_run_end_ge(s@, j as int, false);
    }
    if j < n && is_digit_exec(s[j], false) {
        // a fourth digit follows: too long
        proof {
            lemma_run_end_ge(s@, j + 1, false);
        }
        return None;
    }
    let k = j - i;
    if k == 0 {
        return None;
    }
    if s[i] == '0' && k > 1 {
        return None;
    }
    if v > 255 {
        return None;
    }
    Some((v as u8, j))
}

fn hex_group_at_exec(s: &[char], i: usize) -> (r: Option<(u16, usize)>)
    requires
        i <= s.len(),
    ensures
        match r {
            Some((g, e)) => hex_group_at(s@, i as int) == Some((g, e as int)),
            None => hex_group_at(s@, i as int) is None,
        },
{
    let n = s.len();
    let mut j: usize = i;
    let mut v: u32 = 0;
    while j < n && is_digit_exec(s[j], true) && j - i < 4
        invariant
            i <= j <= n,
            n == s.len(),
            j - i <= 4,
            run_end(s@, j as int, true) == run_end(s@, i as int, true),
            v == hex_value(s@, i as int, j - i),
            v < 65536,
            j - i <= 3 ==> v < 4096,
            j - i <= 2 ==> v < 256,
            j - i <= 1 ==> v < 16,
            j - i == 0 ==> v == 0,
        decreases n - j,
    {
        let d = digit_val_exec(s[j]);
        v = v * 16 + d;
        j = j + 1;
        assert(hex_value(s@, i as int, j - i) == hex_value(s@, i as int, j - i - 1) * 16
            + digit_val(s@[i + (j - i) - 1]));
    }
    proof {
        lemma_run_end_ge(s@, j as int, true);
    }
    if j < n && is_digit_exec(s[j], true) {
        proof {
            lemma_run_end_ge(s@, j + 1, true);
        }
        return None;
    }
    if j == i {
        return None;
    }
    Some((v as u16, j))
}

fn after_sep_exec(s: &[char], i: usize, first: bool, c: char) -> (r: Option<usize>)
    requires
        i <= s.len(),
    ensures
        match r {
            Some(p) => after_sep(s@, i as int, first, c) == Some(p as int) && p <= s.len(),
            None => after_sep(s@, i as int, first, c) is None,
        },
{
    if first {
        Some(i)
    } else if i < s.len() && s[i] == c {
        Some(i + 1)
    } else {
        None
    }
}

fn v4_from_exec(s: &[char], i: usize, idx: usize) -> (r: Option<(Vec<u8>, usize)>)
    requires
        i <= s.len(),
        idx <= 4,
    ensures
        match r {
            Some((o, e)) => v4_from(s@, i as int, idx as int) == Some((o@, e as int)) && e
                <= s.len() && o@.len() == 4 - idx,
            None => v4_from(s@, i as int, idx as int) is None,
        },
    decreases 4 - idx,
{
    if idx >= 4 {
        return Some((Vec::new(), i));
    }
    let p = match after_sep_exec(s, i, idx == 0, '.') {
        None => return None,
        Some(p) => p,
    };
    let (o, e) = match octet_at_exec(s, p) {
        None => return None,
        Some(x) => x,
    };
    proof {
        lemma_run_end_ge(s@, p as int, false);
    }
    match v4_from_exec(s, e, idx + 1) {
        None => None,
        Some((rest, e2)) => {
            let mut out: Vec<u8> = Vec::new();
            out.push(o);
            let mut k: usize = 0;
            while k < rest.len()
                invariant
                    k <= rest.len(),
                    out@ == seq![o] + rest@.subrange(0, k as int),
                decreases rest.len() - k,
            {
                out.push(rest[k]);
                k = k + 1;
                assert(seq![o] + rest@.subrange(0, k as int) =~= (seq![o] + rest@.subrange(
                    0,
                    k - 1,
                )).push(rest@[k - 1]));
            }
            assert(rest@.subrange(0, rest@.len() as int) =~= rest@);
            Some((out, e2))
        },
    }
}

fn ipv4_at_exec(s: &[char], i: usize) -> (r: Option<(Vec<u8>, usize)>)
    requires
        i <= s.len(),
    ensures
        match r {
            Some((o, e)) => ipv4_at(s@, i as int) == Some((o@, e as int)) && e <= s.len()
                && o@.len() == 4,
            None => ipv4_at(s@, i as int) is None,
        },
{
    v4_from_exec(s, i, 0)
}

fn prepend_u16(g: u16, rest: &Vec<u16>) -> (out: Vec<u16>)
    ensures
        out@ == seq![g] + rest@,
{
    let mut out: Vec<u16> = Vec::new();
    out.push(g);
    let mut k: usize = 0;
    while k < rest.len()
        invariant
            k <= rest.len(),
            out@ == seq![g] + rest@.subrange(0, k as int),
        decreases rest.len() - k,
    {
        out.push(rest[k]);
        k = k + 1;
        assert(seq![g] + rest@.subrange(0, k as int) =~= (seq![g] + rest@.subrange(0, k - 1)).push(
            rest@[k - 1],
        ));
    }
    assert(rest@.subrange(0, rest@.len() as int) =~= rest@);
    out
}

fn v6_groups_exec(s: &[char], i: usize, idx: usize, limit: usize) -> (r: (Vec<u16>, usize, bool))
    requires
        i <= s.len(),
        limit <= 8,
    ensures
        v6_groups(s@, i as int, idx as int, limit as int) == (r.0@, r.1 as int, r.2),
        r.1 <= s.len(),
        r.0@.len() <= (if idx <= limit { limit - idx } else { 0 }),
    decreases limit - idx,
{
    if idx >= limit {
        return (Vec::new(), i, false);
    }
    let p = match after_sep_exec(s, i, idx == 0, ':') {
        None => return (Vec::new(), i, false),
        Some(p) => p,
    };
    if idx + 1 < limit {
        match ipv4_at_exec(s, p) {
            Some((o, e)) => {
                let mut out: Vec<u16> = Vec::new();
                out.push((o[0] as u16) * 256 + (o[1] as u16));
                out.push((o[2] as u16) * 256 + (o[3] as u16));
                assert(out@ =~= v4_pair_groups(o@));
                return (out, e, true);
            },
            None => {},
        }
    }
    match hex_group_at_exec(s, p) {
        None => (Vec::new(), i, false),
        Some((g, e)) => {
            proof {
                lemma_run_end_ge(s@, p as int, true);
            }
            let (rest, e2, b) = v6_groups_exec(s, e, idx + 1, limit);
            let out = prepend_u16(g, &rest);
            (out, e2, b)
        },
    }
}

fn ipv6_at_start_exec(s: &[char]) -> (r: Option<(Vec<u16>, usize)>)
    ensures
        match r {
            Some((g, e)) => ipv6_at_start(s@) == Some((g@, e as int)) && g@.len() == 8,
            None => ipv6_at_start(s@) is None,
        },
{
    let (head, e1, h4) = v6_groups_exec(s, 0, 0, 8);
    if head.len() == 8 {
        return Some((head, e1));
    }
    if h4 {
        return None;
    }
    if e1 < s.len() && e1 + 1 < s.len() && s[e1] == ':' && s[e1 + 1] == ':' {
        let (tail, e2, _) = v6_groups_exec(s, e1 + 2, 0, 7 - head.len());
        let zeros: usize = 8 - head.len() - tail.len();
        let mut out: Vec<u16> = Vec::new();
        let mut k: usize = 0;
        while k < head.len()
            invariant
                k <= head.len(),
                out@ == head@.subrange(0, k as int),
            decreases head.len() - k,
        {
            out.push(head[k]);
            k = k + 1;
        }
        let mut z: usize = 0;
        while z < zeros
            invariant
                z <= zeros,
                out@ == head@ + Seq::new(z as nat, |q: int| 0u16),
            decreases zeros - z,
        {
            out.push(0u16);
            z = z + 1;
            assert(head@ + Seq::new(z as nat, |q: int| 0u16) =~= (head@ + Seq::new(
                (z - 1) as nat,
                |q: int| 0u16,
            )).push(0u16));
        }
        let ghost mid = out@;
        let mut t: usize = 0;
        while t < tail.len()
            invariant
                t <= tail.len(),
                out@ == mid + tail@.subrange(0, t as int),
            decreases tail.len() - t,
        {
            out.push(tail[t]);
            t = t + 1;
            assert(mid + tail@.subrange(0, t as int) =~= (mid + tail@.subrange(0, t - 1)).push(
                tail@[t - 1],
            ));
        }
        assert(tail@.subrange(0, tail@.len() as int) =~= tail@);
        assert(head@.subrange(0, head@.len() as int) =~= head@);
        Some((out, e2))
    } else {
        None
    }
}

/// Parse an IP address from characters, as `IpAddr::from_str` does.
pub fn parse_ip_chars(s: &[char]) -> (r: Option<IpAddr>)
    ensures
        match r {
            Some(ip) => spec_parse_ip(s@) == Some(ip@) && ip_wf(ip@),
            None => spec_parse_ip(s@) is None,
        },
{
    match ipv4_at_exec(s, 0) {
        Some((o, e)) => {
            if e == s.len() {
                Some(IpAddr::V4(o))
            } else {
                None
            }
        },
        None => match ipv6_at_start_exec(s) {
            Some((g, e)) => {
                if e == s.len() {
                    Some(IpAddr::V6(g))
                } else {
                    None
                }
            },
            None => None,
        },
    }
}

/// Parse an IP address from text (`"192.168.0.2"`, `"2001:db8::1"`).
pub fn parse_ip(s: &str) -> (r: Option<IpAddr>)
    ensures
        match r {
            Some(ip) => spec_parse_ip(s@) == Some(ip@) && ip_wf(ip@),
            None => spec_parse_ip(s@) is None,
        },
{
    let v = chars_of(s);
    parse_ip_chars(&v)
}

// ---------------------------------------------------------------- exec rendering

fn hex_digit_exec(d: u16) -> (c: char)
    requires
        d < 16,
    ensures
        c == hex_digit_char(d as nat),
{
    if d < 10 {
        ((('0' as u32) + (d as u32)) as u8) as char
    } else {
        ((('a' as u32) + (d as u32) - 10) as u8) as char
    }
}

fn hex_chars(n: u16) -> (r: Vec<char>)
    ensures
        r@ == hex_str(n as nat),
    decreases n,
{
    if n < 16 {
        let mut v: Vec<char> = Vec::new();
        v.push(hex_digit_exec(n));
        assert(v@ =~= seq![hex_digit_char(n as nat)]);
        v
    } else {
        let mut v = hex_chars(n / 16);
        v.push(hex_digit_exec(n % 16));
        v
    }
}

fn v4_chars(o: &[u8]) -> (r: Vec<char>)
    requires
        o@.len() == 4,
    ensures
        r@ == v4_text(o@),
{
    let mut r = dec_chars(o[0] as u64);
    r.push('.');
    let d1 = dec_chars(o[1] as u64);
    append_vec(&mut r, &d1);
    r.push('.');
    let d2 = dec_chars(o[2] as u64);
    append_vec(&mut r, &d2);
    r.push('.');
    let d3 = dec_chars(o[3] as u64);
    append_vec(&mut r, &d3);
    proof {
        reveal_strlit(".");
    }
    assert(r@ =~= v4_text(o@));
    r
}

fn append_vec(r: &mut Vec<char>, v: &[char])
    ensures
        final(r)@ == old(r)@ + v@,
{
    let ghost start = r@;
    let mut k: usize = 0;
    while k < v.len()
        invariant
            k <= v.len(),
            r@ == start + v@.subrange(0, k as int),
        decreases v.len() - k,
    {
        r.push(v[k]);
        k = k + 1;
        assert(start + v@.subrange(0, k as int) =~= (start + v@.subrange(0, k - 1)).push(v@[k - 1]));
    }
    assert(v@.subrange(0, v@.len() as int) =~= v@);
}

fn groups_chars(g: &[u16], lo: usize, hi: usize) -> (r: Vec<char>)
    requires
        lo <= hi <= g.len(),
    ensures
        r@ == groups_text(g@.subrange(lo as int, hi as int)),
{
    let mut r: Vec<char> = Vec::new();
    let mut k: usize = lo;
    assert(g@.subrange(lo as int, lo as int) =~= Seq::<u16>::empty());
    while k < hi
        invariant
            lo <= k <= hi <= g.len(),
            r@ == groups_text(g@.subrange(lo as int, k as int)),
        decreases hi - k,
    {
        let h = hex_chars(g[k]);
        let ghost prev = g@.subrange(lo as int, k as int);
        let ghost next = g@.subrange(lo as int, k + 1);
        assert(next.drop_last() =~= prev);
        assert(next.last() == g@[k as int]);
        if k > lo {
            r.push(':');
            proof {
                reveal_strlit(":");
                assert(groups_text(next) == groups_text(prev) + ":"@ + hex_str(g@[k as int] as nat));
            }
        } else {
            assert(next =~= seq![g@[k as int]]);
        }
        let ghost before = r@;
        append_vec(&mut r, &h);
        proof {
            if k > lo {
                assert(r@ =~= groups_text(prev) + ":"@ + hex_str(g@[k as int] as nat));
            } else {
                assert(r@ =~= hex_str(g@[k as int] as nat));
            }
        }
        k = k + 1;
    }
    r
}

fn v6_chars(g: &[u16]) -> (r: Vec<char>)
    requires
        g@.len() == 8,
    ensures
        r@ == v6_text(g@),
{
    if g[0] == 0 && g[1] == 0 && g[2] == 0 && g[3] == 0 && g[4] == 0 && g[5] == 0xffff {
        let mut o: Vec<u8> = Vec::new();
        o.push((g[6] / 256) as u8);
        o.push((g[6] % 256) as u8);
        o.push((g[7] / 256) as u8);
        o.push((g[7] % 256) as u8);
        let mut r: Vec<char> = Vec::new();
        r.push(':');
        r.push(':');
        r.push('f');
        r.push('f');
        r.push('f');
        r.push('f');
        r.push(':');
        let t = v4_chars(&o);
        let ghost pre = r@;
        append_vec(&mut r, &t);
        proof {
            reveal_strlit("::ffff:");
            assert(pre =~= "::ffff:"@);
            assert(o@ =~= seq![(g@[6] / 256) as u8, (g@[6] % 256) as u8, (g@[7] / 256) as u8, (g@[7] % 256) as u8]);
        }
        return r;
    }
    let mut bs: usize = 0;
    let mut bl: usize = 0;
    let mut cs: usize = 0;
    let mut cl: usize = 0;
    let mut i: usize = 0;
    while i < 8
        invariant
            i <= 8,
            g@.len() == 8,
            bs + bl <= 8,
            cs + cl <= i,
            bl <= i,
            zero_run_from(g@, i as int, bs as int, bl as int, cs as int, cl as int)
                == zero_run_from(g@, 0, 0, 0, 0, 0),
        decreases 8 - i,
    {
        if g[i] == 0 {
            let ns = if cl == 0 { i } else { cs };
            if cl + 1 > bl {
                bs = ns;
                bl = cl + 1;
            }
            cs = ns;
            cl = cl + 1;
        } else {
            cs = 0;
            cl = 0;
        }
        i = i + 1;
    }
    if bl > 1 {
        let mut r = groups_chars(g, 0, bs);
        r.push(':');
        r.push(':');
        let t = groups_chars(g, bs + bl, 8);
        let ghost pre = r@;
        append_vec(&mut r, &t);
        proof {
            reveal_strlit("::");
            assert(pre =~= groups_text(g@.subrange(0, bs as int)) + "::"@);
        }
        r
    } else {
        let r = groups_chars(g, 0, 8);
        assert(g@.subrange(0, 8) =~= g@);
        r
    }
}

/// Canonical text of an address (as `Display` writes it).
pub fn ip_to_chars(ip: &IpAddr) -> (r: Vec<char>)
    requires
        ip_wf(ip@),
    ensures
        r@ == ip_text(ip@),
{
    match ip {
        IpAddr::V4(o) => v4_chars(o),
        IpAddr::V6(g) => v6_chars(g),
    }
}

pub fn ip_to_string(ip: &IpAddr) -> (r: String)
    requires
        ip_wf(ip@),
    ensures
        r@ == ip_text(ip@),
{
    let v = ip_to_chars(ip);
    string_of(&v)
}

// ---------------------------------------------------------------- exec endpoints

fn strip_port_chars(raw: &[char]) -> (r: Vec<char>)
    ensures
        r@ == spec_strip_port(raw@),
{
    let s = trim_chars(raw);
    if s.len() > 0 && s[0] == '[' {
        let rest = subvec(&s, 1, s.len());
        let e = find_from_exec(&rest, ']', 0);
        proof {
            lemma_find_bounds(rest@, ']', 0);
        }
        if e < rest.len() {
            let h = subvec(&rest, 0, e);
            return trim_chars(&h);
        }
        return s;
    }
    if parse_ip_chars(&s).is_some() {
        return s;
    }
    if count_char_exec(&s, ':') == 1 {
        match rfind_exec(&s, ':') {
            Some(k) => {
                proof {
                    lemma_rfind_bounds(s@, ':', s@.len() as int);
                }
                let host = subvec(&s, 0, k);
                let port = subvec(&s, k + 1, s.len());
                if host.len() > 0 && port.len() > 0 && all_dec_digits_exec(&port) {
                    return host;
                }
                return s;
            },
            None => {
                proof {
                    lemma_count_rfind(s@, ':', s@.len() as int);
                }
                return s;
            },
        }
    }
    s
}

proof fn lemma_count_rfind(s: Seq<char>, c: char, n: int)
    requires
        0 <= n <= s.len(),
        rfind_before(s, c, n) == -1,
    ensures
        count_char(s, c, n) == 0,
    decreases n,
{
    if n > 0 {
        lemma_count_rfind(s, c, n - 1);
    }
}

proof fn lemma_rfind_bounds(s: Seq<char>, c: char, n: int)
    requires
        0 <= n <= s.len(),
    ensures
        -1 <= rfind_before(s, c, n) < n,
    decreases n,
{
    if n > 0 && s[n - 1] != c {
        lemma_rfind_bounds(s, c, n - 1);
    }
}

/// Strip a trailing `:port` (or `[v6]:port`) from an endpoint, giving the
/// host part. Bare IPs — v4 or v6 — are returned unchanged (but trimmed).
pub fn strip_port(raw: &str) -> (r: String)
    ensures
        r@ == spec_strip_port(raw@),
{
    let v = chars_of(raw);
    let r = strip_port_chars(&v);
    string_of(&r)
}

/// Parse a user-supplied block-list entry: an IP (v4/v6), optionally with
/// a trailing `:port` or in brackets, given back in canonical form.
pub fn parse_block_target(raw: &str) -> (r: Option<String>)
    ensures
        match r {
            Some(t) => spec_parse_block_target(raw@) == Some(t@),
            None => spec_parse_block_target(raw@) is None,
        },
{
    let v = chars_of(raw);
    let host = strip_port_chars(&v);
    match parse_ip_chars(&host) {
        Some(ip) => Some(ip_to_string(&ip)),
        None => None,
    }
}

fn v4_global_exec(o: &[u8]) -> (r: bool)
    requires
        o@.len() == 4,
    ensures
        r == v4_is_global(o@),
{
    !(o[0] == 127 || o[0] == 10 || (o[0] == 172 && 16 <= o[1] && o[1] <= 31) || (o[0] == 192
        && o[1] == 168) || (o[0] == 169 && o[1] == 254) || (o[0] == 0 && o[1] == 0 && o[2] == 0
        && o[3] == 0) || (224 <= o[0] && o[0] <= 239) || (o[0] == 255 && o[1] == 255 && o[2]
        == 255 && o[3] == 255))
}

fn v6_global_exec(g: &[u16]) -> (r: bool)
    requires
        g@.len() == 8,
    ensures
        r == v6_is_global(g@),
{
    let zero_prefix = g[0] == 0 && g[1] == 0 && g[2] == 0 && g[3] == 0 && g[4] == 0 && g[5] == 0
        && g[6] == 0;
    !((zero_prefix && (g[7] == 1 || g[7] == 0)) || g[0] >= 0xff00 || (0xfc00 <= g[0] && g[0]
        <= 0xfdff) || (0xfe80 <= g[0] && g[0] <= 0xfebf))
}

/// True when `addr` is a globally routable (external) address. Handles
/// zone ids (`fe80::1%eth0`), ports and brackets; hostnames are not external.
pub fn is_external_addr(addr: &str) -> (r: bool)
    ensures
        r == spec_is_external(addr@),
{
    let v = chars_of(addr);
    let clean = strip_port_chars(&v);
    let cut = find_from_exec(&clean, '%', 0);
    proof {
        lemma_find_bounds(clean@, '%', 0);
    }
    let host = subvec(&clean, 0, cut);
    match parse_ip_chars(&host) {
        Some(IpAddr::V4(o)) => v4_global_exec(&o),
        Some(IpAddr::V6(g)) => v6_global_exec(&g),
        None => false,
    }
}


// ================================================================ laws

pub open spec fn ip_char(c: char) -> bool {
    ('0' <= c && c <= '9') || ('a' <= c && c <= 'f') || c == ':' || c == '.'
}

pub open spec fn all_ip_chars(s: Seq<char>) -> bool {
    forall|i: int| 0 <= i < s.len() ==> ip_char(#[trigger] s[i])
}

proof fn lemma_all_ip_chars_concat(a: Seq<char>, b: Seq<char>)
    requires
        all_ip_chars(a),
        all_ip_chars(b),
    ensures
        all_ip_chars(a + b),
{
    assert forall|i: int| 0 <= i < (a + b).len() implies ip_char(#[trigger] (a + b)[i]) by {
        if i < a.len() {
            assert((a + b)[i] == a[i]);
        } else {
            assert((a + b)[i] == b[i - a.len()]);
        }
    }
}

proof fn lemma_count_concat(a: Seq<char>, b: Seq<char>, c: char, n: int)
    requires
        0 <= n <= b.len(),
    ensures
        count_char(a + b, c, a.len() + n) == count_char(a, c, a.len() as int) + count_char(b, c, n),
    decreases n,
{
    if n == 0 {
        lemma_count_prefix(a, b, c, a.len() as int);
    } else {
        lemma_count_concat(a, b, c, n - 1);
        assert((a + b)[a.len() + n - 1] == b[n - 1]);
    }
}

proof fn lemma_count_prefix(a: Seq<char>, b: Seq<char>, c: char, n: int)
    requires
        0 <= n <= a.len(),
    ensures
        count_char(a + b, c, n) == count_char(a, c, n),
    decreases n,
{
    if n > 0 {
        lemma_count_prefix(a, b, c, n - 1);
        assert((a + b)[n - 1] == a[n - 1]);
    }
}

proof fn lemma_count_none(s: Seq<char>, c: char, n: int)
    requires
        0 <= n <= s.len(),
        forall|i: int| 0 <= i < s.len() ==> s[i] != c,
    ensures
        count_char(s, c, n) == 0,
    decreases n,
{
    if n > 0 {
        lemma_count_none(s, c, n - 1);
    }
}

proof fn lemma_dec_str_chars(n: nat)
    ensures
        dec_str(n).len() >= 1,
        forall|i: int| 0 <= i < dec_str(n).len() ==> '0' <= #[trigger] dec_str(n)[i] <= '9',
    decreases n,
{
    if n >= 10 {
        lemma_dec_str_chars(n / 10);
    }
}

proof fn lemma_hex_str_chars(n: nat)
    ensures
        hex_str(n).len() >= 1,
        all_ip_chars(hex_str(n)),
        forall|i: int| 0 <= i < hex_str(n).len() ==> #[trigger] hex_str(n)[i] != ':',
    decreases n,
{
    if n >= 16 {
        lemma_hex_str_chars(n / 16);
    }
}

proof fn lemma_v4_text_chars(o: Seq<u8>)
    ensures
        v4_text(o).len() >= 1,
        all_ip_chars(v4_text(o)),
        forall|i: int| 0 <= i < v4_text(o).len() ==> #[trigger] v4_text(o)[i] != ':',
{
    reveal_strlit(".");
    lemma_dec_str_chars(o[0] as nat);
    lemma_dec_str_chars(o[1] as nat);
    lemma_dec_str_chars(o[2] as nat);
    lemma_dec_str_chars(o[3] as nat);
    let t = v4_text(o);
    assert forall|i: int| 0 <= i < t.len() implies ip_char(#[trigger] t[i]) && t[i] != ':' by {
        let d0 = dec_str(o[0] as nat);
        let d1 = dec_str(o[1] as nat);
        let d2 = dec_str(o[2] as nat);
        let d3 = dec_str(o[3] as nat);
        let l0 = d0.len() as int;
        let l1 = l0 + 1 + d1.len();
        let l2 = l1 + 1 + d2.len();
        if i < l0 {
            assert(t[i] == d0[i]);
        } else if i == l0 {
            assert(t[i] == '.');
        } else if i < l0 + 1 + d1.len() {
            assert(t[i] == d1[i - l0 - 1]);
        } else if i == l1 {
            assert(t[i] == '.');
        } else if i < l1 + 1 + d2.len() {
            assert(t[i] == d2[i - l1 - 1]);
        } else if i == l2 {
            assert(t[i] == '.');
        } else {
            assert(t[i] == d3[i - l2 - 1]);
        }
    }
}

proof fn lemma_groups_text(g: Seq<u16>)
    ensures
        all_ip_chars(groups_text(g)),
        g.len() >= 1 ==> groups_text(g).len() >= 1,
        g.len() >= 1 ==> count_char(groups_text(g), ':', groups_text(g).len() as int) == g.len() - 1,
        g.len() == 0 ==> groups_text(g).len() == 0,
    decreases g.len(),
{
    reveal_strlit(":");
    if g.len() == 1 {
        lemma_hex_str_chars(g[0] as nat);
        lemma_count_none(hex_str(g[0] as nat), ':', hex_str(g[0] as nat).len() as int);
    } else if g.len() > 1 {
        let p = groups_text(g.drop_last());
        let h = hex_str(g.last() as nat);
        lemma_groups_text(g.drop_last());
        lemma_hex_str_chars(g.last() as nat);
        assert(all_ip_chars(":"@));
        lemma_all_ip_chars_concat(p, ":"@);
        lemma_all_ip_chars_concat(p + ":"@, h);
        lemma_count_concat(p, ":"@, ':', 1);
        assert(count_char(":"@, ':', 1) == 1) by {
            assert(count_char(":"@, ':', 0) == 0);
        }
        lemma_count_none(h, ':', h.len() as int);
        lemma_count_concat(p + ":"@, h, ':', h.len() as int);
    }
}

proof fn lemma_ip_text_shape(ip: IpSpec)
    requires
        ip_wf(ip),
    ensures
        ip_text(ip).len() >= 1,
        all_ip_chars(ip_text(ip)),
        count_char(ip_text(ip), ':', ip_text(ip).len() as int) != 1,
{
    reveal_strlit(":");
    reveal_strlit("::");
    reveal_strlit("::ffff:");
    match ip {
        IpSpec::V4(o) => {
            lemma_v4_text_chars(o);
            lemma_count_none(v4_text(o), ':', v4_text(o).len() as int);
        },
        IpSpec::V6(g) => {
            if is_v4_mapped(g) {
                let o = seq![(g[6] / 256) as u8, (g[6] % 256) as u8, (g[7] / 256) as u8, (g[7] % 256) as u8];
                lemma_v4_text_chars(o);
                let pre = "::ffff:"@;
                assert(all_ip_chars(pre));
                lemma_all_ip_chars_concat(pre, v4_text(o));
                lemma_count_none(v4_text(o), ':', v4_text(o).len() as int);
                lemma_count_concat(pre, v4_text(o), ':', v4_text(o).len() as int);
                assert(count_char(pre, ':', 7) >= 2) by {
                    assert(count_char(pre, ':', 1) == 1) by {
                        assert(count_char(pre, ':', 0) == 0);
                    }
                    assert(count_char(pre, ':', 2) == 2);
                    assert(count_char(pre, ':', 3) >= 2);
                    assert(count_char(pre, ':', 4) >= 2);
                    assert(count_char(pre, ':', 5) >= 2);
                    assert(count_char(pre, ':', 6) >= 2);
                }
            } else {
                let z = zero_run_from(g, 0, 0, 0, 0, 0);
                lemma_zero_run_bounds(g, 0, 0, 0, 0, 0);
                if z.1 > 1 {
                    let a = groups_text(g.subrange(0, z.0));
                    let b = groups_text(g.subrange(z.0 + z.1, 8));
                    let m = "::"@;
                    lemma_groups_text(g.subrange(0, z.0));
                    lemma_groups_text(g.subrange(z.0 + z.1, 8));
                    assert(all_ip_chars(m));
                    lemma_all_ip_chars_concat(a, m);
                    lemma_all_ip_chars_concat(a + m, b);
                    lemma_count_concat(a, m, ':', 2);
                    assert(count_char(m, ':', 2) == 2) by {
                        assert(count_char(m, ':', 0) == 0);
                        assert(count_char(m, ':', 1) == 1);
                    }
                    lemma_count_concat(a + m, b, ':', b.len() as int);
                } else {
                    lemma_groups_text(g);
                }
            }
        },
    }
}

proof fn lemma_zero_run_bounds(g: Seq<u16>, i: int, bs: int, bl: int, cs: int, cl: int)
    requires
        g.len() == 8,
        0 <= i <= 8,
        0 <= bs,
        0 <= bl,
        bs + bl <= i,
        0 <= cs,
        0 <= cl,
        cs + cl <= i,
    ensures
        0 <= zero_run_from(g, i, bs, bl, cs, cl).0,
        0 <= zero_run_from(g, i, bs, bl, cs, cl).1,
        zero_run_from(g, i, bs, bl, cs, cl).0 + zero_run_from(g, i, bs, bl, cs, cl).1 <= 8,
    decreases 8 - i,
{
    if i < 8 {
        if g[i] == 0 {
            let ns = if cl == 0 { i } else { cs };
            if cl + 1 > bl {
                lemma_zero_run_bounds(g, i + 1, ns, cl + 1, ns, cl + 1);
            } else {
                lemma_zero_run_bounds(g, i + 1, bs, bl, ns, cl + 1);
            }
        } else {
            lemma_zero_run_bounds(g, i + 1, bs, bl, 0, 0);
        }
    }
}

/// The canonical form of a block-list entry is its own host part: looking
/// it up strips nothing from it.
pub proof fn law_canonical_target_is_own_host(raw: Seq<char>)
    requires
        spec_parse_block_target(raw) is Some,
    ensures
        spec_strip_port(spec_parse_block_target(raw).unwrap()) == spec_parse_block_target(raw).unwrap(),
{
    let ip = spec_parse_ip(spec_strip_port(raw)).unwrap();
    let c = ip_text(ip);
    lemma_parse_wf(spec_strip_port(raw));
    lemma_ip_text_shape(ip);
    assert(!crate::text::is_ws(c[0]));
    assert(!crate::text::is_ws(c[c.len() - 1]));
    crate::text::lemma_trim_noop(c);
}

proof fn lemma_v4_from_len(s: Seq<char>, i: int, idx: int)
    requires
        0 <= idx <= 4,
        v4_from(s, i, idx) is Some,
    ensures
        v4_from(s, i, idx).unwrap().0.len() == 4 - idx,
    decreases 4 - idx,
{
    if idx < 4 {
        let p = after_sep(s, i, idx == 0, '.').unwrap();
        let (o, e) = octet_at(s, p).unwrap();
        lemma_v4_from_len(s, e, idx + 1);
    }
}

proof fn lemma_v6_groups_len(s: Seq<char>, i: int, idx: int, limit: int)
    requires
        0 <= idx,
    ensures
        v6_groups(s, i, idx, limit).0.len() <= (if idx <= limit { limit - idx } else { 0 }),
    decreases limit - idx,
{
    if idx < limit {
        match after_sep(s, i, idx == 0, ':') {
            None => {},
            Some(p) => {
                if idx + 1 < limit && ipv4_at(s, p) is Some {
                } else {
                    match hex_group_at(s, p) {
                        None => {},
                        Some((g, e)) => {
                            lemma_v6_groups_len(s, e, idx + 1, limit);
                        },
                    }
                }
            },
        }
    }
}

proof fn lemma_parse_wf(s: Seq<char>)
    requires
        spec_parse_ip(s) is Some,
    ensures
        ip_wf(spec_parse_ip(s).unwrap()),
{
    if ipv4_at(s, 0) is Some {
        lemma_v4_from_len(s, 0, 0);
    } else {
        let head = v6_groups(s, 0, 0, 8);
        lemma_v6_groups_len(s, 0, 0, 8);
        if head.0.len() != 8 && !head.2 {
            lemma_v6_groups_len(s, head.1 + 2, 0, 7 - head.0.len());
        }
    }
}


/// The host an endpoint names: its address without port, brackets or
/// zone (`%...`).
pub open spec fn endpoint_host(addr: Seq<char>) -> Seq<char> {
    spec_strip_port(addr).subrange(0, find_from(spec_strip_port(addr), '%', 0))
}

/// Unique-local IPv6 addresses (`fc00::/7`: the first seven bits are
/// `1111110`, so `fcxx::` and `fdxx::` alike) are never external.
pub proof fn law_unique_local_v6_not_external(addr: Seq<char>, g: Seq<u16>)
    requires
        spec_parse_ip(endpoint_host(addr)) == Some(IpSpec::V6(g)),
        g.len() == 8,
        g[0] / 512 == 126,
    ensures
        !spec_is_external(addr),
{
    assert(0xfc00 <= g[0] <= 0xfdff);
}

/// Only global addresses are external: loopback, private, link-local,
/// unspecified, multicast and broadcast IPv4 addresses are not.
pub proof fn law_local_v4_not_external(addr: Seq<char>, o: Seq<u8>)
    requires
        spec_parse_ip(endpoint_host(addr)) == Some(IpSpec::V4(o)),
        o.len() == 4,
        o[0] == 127 || o[0] == 10 || (o[0] == 172 && 16 <= o[1] < 32) || (o[0] == 192 && o[1] == 168)
            || (o[0] == 169 && o[1] == 254) || o[0] / 16 == 14,
    ensures
        !spec_is_external(addr),
{
}

} // verus!
