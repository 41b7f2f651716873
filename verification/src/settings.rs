//! Agent settings as the environment gives them, read from text: counts,
//! the notification switch and the list of remote agents. Reading the
//! environment is the caller's.
use vstd::prelude::*;
use crate::metrics::strs_view;
use crate::runtime::Cadence;
use crate::numtext::parse_unsigned;
use crate::text::{chars_of, find_from, lowercase_of, str_eq, string_of, to_lowercase, trim_chars, trimmed};

verus! {

/// The sampling tiers when none are configured: metrics every 2 s,
/// sockets every 4 s, processes every 8 s, services every 40 s.
pub fn default_cadence() -> (c: Cadence)
    ensures
        c.metrics_secs == 2,
        c.sockets_secs == 4,
        c.processes_secs == 8,
        c.services_secs == 40,
{
    Cadence { metrics_secs: 2, sockets_secs: 4, processes_secs: 8, services_secs: 40 }
}

/// Days of history kept when none is configured.
pub const DEFAULT_RETENTION_DAYS: u64 = 7;

/// The quota share, in percent, that warns when none is configured.
pub const DEFAULT_QUOTA_WARN_PCT: u64 = 80;

/// The API listens on the loopback address only, unless configured.
pub fn default_bind() -> (r: String)
    ensures
        r@ == "127.0.0.1:8745"@,
{
    String::from_str("127.0.0.1:8745")
}

/// Desktop notifications start at this risk level unless configured.
pub fn default_notification_risk() -> (r: String)
    ensures
        r@ == "HIGH"@,
{
    String::from_str("HIGH")
}

/// A count setting: the text read as an unsigned 64-bit number (an
/// optional `+`, then decimal digits), else the default; unset, the
/// default.
pub open spec fn count_setting(v: Option<Seq<char>>, default: u64) -> nat {
    match v {
        Some(s) => match parse_unsigned(s, false, u64::MAX as nat) {
            Some(n) => n,
            None => default as nat,
        },
        None => default as nat,
    }
}

pub fn setting_count(v: Option<&str>, default: u64) -> (r: u64)
    ensures
        r == count_setting(match v { Some(s) => Some(s@), None => None }, default),
{
    match v {
        Some(s) => {
            let t = chars_of(s);
            match crate::numtext::parse_unsigned_exec(&t, false, u64::MAX) {
                Some(n) => n,
                None => default,
            }
        },
        None => default,
    }
}

/// Notifications are on unless the setting reads `0` or `false` (in any
/// case); unset, they are on.
pub open spec fn notifications_setting(v: Option<Seq<char>>) -> bool {
    match v {
        Some(s) => s != "0"@ && lowercase_of(s) != "false"@,
        None => true,
    }
}

pub fn notifications_on(v: Option<&str>) -> (r: bool)
    ensures
        r == notifications_setting(match v { Some(s) => Some(s@), None => None }),
{
    match v {
        Some(s) => {
            let l = to_lowercase(s);
            !str_eq(s, "0") && !str_eq(l.as_str(), "false")
        },
        None => true,
    }
}

/// The pieces of `s` between commas, from index `i` on (`str::split`).
pub open spec fn comma_pieces_from(s: Seq<char>, i: int) -> Seq<Seq<char>>
    decreases s.len() - i,
{
    if i < 0 || i > s.len() {
        Seq::empty()
    } else {
        let j = find_from(s, ',', i);
        if j >= s.len() {
            seq![s.subrange(i, s.len() as int)]
        } else {
            proof {
                crate::text::lemma_find_bounds(s, ',', i);
            }
            seq![s.subrange(i, j)] + comma_pieces_from(s, j + 1)
        }
    }
}

/// The pieces, trimmed, without the blank ones.
pub open spec fn named_pieces(ps: Seq<Seq<char>>) -> Seq<Seq<char>>
    decreases ps.len(),
{
    if ps.len() == 0 {
        Seq::empty()
    } else {
        let first = if trimmed(ps[0]).len() > 0 { seq![trimmed(ps[0])] } else { Seq::empty() };
        first + named_pieces(ps.drop_first())
    }
}

/// The remote agents of a comma-separated list: each entry trimmed, blank
/// entries left out, in order.
pub fn remote_agents_from(v: &str) -> (r: Vec<String>)
    ensures
        strs_view(r@) == named_pieces(comma_pieces_from(v@, 0)),
{
    let s = chars_of(v);
    let mut out: Vec<String> = Vec::new();
    let mut i: usize = 0;
    loop
        invariant
            s@ == v@,
            i <= s.len(),
            strs_view(out@) + named_pieces(comma_pieces_from(s@, i as int))
                == named_pieces(comma_pieces_from(s@, 0)),
        decreases s.len() - i,
    {
        let j = crate::text::find_from_exec(&s, ',', i);
        proof {
            crate::text::lemma_find_bounds(s@, ',', i as int);
        }
        let piece = crate::text::subvec(&s, i, j);
        let t = trim_chars(&piece);
        let ghost ps = comma_pieces_from(s@, i as int);
        let ghost before = strs_view(out@);
        if j >= s.len() {
            assert(ps == seq![piece@]);
        } else {
            assert(ps == seq![piece@] + comma_pieces_from(s@, j + 1));
        }
        assert(ps.len() > 0 && ps[0] == piece@);
        let ghost rest = ps.drop_first();
        assert(named_pieces(ps) == (if trimmed(piece@).len() > 0 { seq![trimmed(piece@)] } else { Seq::empty() })
            + named_pieces(rest));
        if t.len() > 0 {
            out.push(string_of(&t));
            assert(strs_view(out@) =~= before.push(t@));
        }
        if j >= s.len() {
            assert(rest =~= Seq::<Seq<char>>::empty());
            assert(strs_view(out@) =~= named_pieces(comma_pieces_from(s@, 0)));
            return out;
        }
        assert(rest =~= comma_pieces_from(s@, j + 1));
        assert(strs_view(out@) + named_pieces(comma_pieces_from(s@, j + 1))
            =~= before + named_pieces(ps));
        i = j + 1;
    }
}

} // verus!
