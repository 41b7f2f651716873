//! Persisted baselines: a JSON object from key to the RFC 3339 time it was
//! last seen (or, in the legacy shape, a JSON list of keys). Entries older
//! than the baseline TTL are dropped on reading, and each table is capped.
use vstd::prelude::*;
use crate::assoc::{assoc_find, assoc_set, pairs_view, unique_keys, StrMap};
use crate::engine::BASELINE_TTL_MS;
use crate::metrics::strs_view;

verus! {

/// What `serde_json` reads from `raw` as an object of RFC 3339 times
/// (`BTreeMap<String, DateTime<Utc>>`), as (key, milliseconds) pairs in
/// key order; `None` when it is not such an object.
pub uninterp spec fn stamped_map_of(raw: Seq<char>) -> Option<Seq<(Seq<char>, i64)>>;

/// What `serde_json` reads from `raw` as a list of strings; `None` when it
/// is not one.
pub uninterp spec fn key_list_of(raw: Seq<char>) -> Option<Seq<Seq<char>>>;

/// The JSON text `serde_json` writes for these (key, milliseconds) pairs
/// as an object of RFC 3339 times; `None` when a time is out of range.
pub uninterp spec fn stamped_map_json(entries: Seq<(Seq<char>, i64)>) -> Option<Seq<char>>;

pub open spec fn opt_pairs_view(o: Option<Vec<(String, i64)>>) -> Option<Seq<(Seq<char>, i64)>> {
    match o {
        Some(v) => Some(pairs_view(v@)),
        None => None,
    }
}

pub open spec fn opt_strs_seq(o: Option<Vec<String>>) -> Option<Seq<Seq<char>>> {
    match o {
        Some(v) => Some(strs_view(v@)),
        None => None,
    }
}

/// `serde_json::from_str` into a `BTreeMap<String, DateTime<Utc>>`, each
/// time taken as milliseconds (`DateTime::timestamp_millis`). The result
/// depends on the text alone; it is named `stamped_map_of`.
#[verifier::external_body]
fn parse_stamped_map(raw: &str) -> (r: Option<Vec<(String, i64)>>)
    ensures
        opt_pairs_view(r) == stamped_map_of(raw@),
{
    match serde_json::from_str::<std::collections::BTreeMap<String, chrono::DateTime<chrono::Utc>>>(raw) {
        Ok(m) => {
            let mut out = Vec::new();
            for (k, t) in m {
                out.push((k, t.timestamp_millis()));
            }
            Some(out)
        },
        Err(_) => None,
    }
}

/// `serde_json::from_str` into a `Vec<String>`. The result depends on the
/// text alone; it is named `key_list_of`.
#[verifier::external_body]
fn parse_key_list(raw: &str) -> (r: Option<Vec<String>>)
    ensures
        opt_strs_seq(r) == key_list_of(raw@),
{
    serde_json::from_str::<Vec<String>>(raw).ok()
}

/// Milliseconds within the years 0000 to 9999, the span RFC 3339 writes.
pub open spec fn rfc3339_ms(ms: i64) -> bool {
    -62167219200000 <= ms <= 253402300799999
}

pub open spec fn stamps_in_range(t: Seq<(Seq<char>, i64)>) -> bool {
    forall|i: int| 0 <= i < t.len() ==> rfc3339_ms(#[trigger] t[i].1)
}

/// `raw` reads back as an object holding exactly the entries of `t`, each
/// key once (in the object's key order).
pub open spec fn reads_back_as(raw: Seq<char>, t: Seq<(Seq<char>, i64)>) -> bool {
    match stamped_map_of(raw) {
        Some(p) => unique_keys(p) && p.to_multiset() == t.to_multiset(),
        None => false,
    }
}

/// `serde_json::to_string` of a `BTreeMap<String, DateTime<Utc>>` built
/// from the pairs with `DateTime::from_timestamp_millis`; `None` when a
/// time is out of range or writing fails. The result depends on the pairs
/// alone; it is named `stamped_map_json`. With times in the years 0000 to
/// 9999 it is written, and with distinct keys it reads back (through
/// `parse_stamped_map`) as the same pairs: chrono writes RFC 3339 to the
/// nanosecond and reads it back to the same instant, and serde_json keeps
/// string keys exactly. Nothing is said of its text otherwise.
#[verifier::external_body]
pub(crate) fn render_stamped_map(entries: &Vec<(String, i64)>) -> (r: Option<String>)
    ensures
        match r {
            Some(s) => {
                &&& stamped_map_json(pairs_view(entries@)) == Some(s@)
                &&& unique_keys(pairs_view(entries@)) && stamps_in_range(pairs_view(entries@))
                    ==> reads_back_as(s@, pairs_view(entries@))
            },
            None => stamped_map_json(pairs_view(entries@)) is None,
        },
        stamps_in_range(pairs_view(entries@)) ==> r is Some,
{
    let mut m = std::collections::BTreeMap::new();
    for (k, ms) in entries.iter() {
        match chrono::DateTime::from_timestamp_millis(*ms) {
            Some(t) => {
                m.insert(k.clone(), t);
            },
            None => return None,
        }
    }
    serde_json::to_string(&m).ok()
}

/// Entry stamped `ts` is still fresh at `now`.
pub open spec fn is_fresh(now: i64, ts: i64) -> bool {
    now - ts < BASELINE_TTL_MS
}

/// The first `cap` fresh entries, as a map (a repeated key keeps its first
/// place and its last stamp).
pub open spec fn fresh_capped(m: Seq<(Seq<char>, i64)>, now: i64, cap: nat) -> (Seq<(Seq<char>, i64)>, nat)
    decreases m.len(),
{
    if m.len() == 0 {
        (Seq::empty(), 0)
    } else {
        let prev = fresh_capped(m.drop_last(), now, cap);
        let x = m.last();
        if prev.1 < cap && is_fresh(now, x.1) {
            (assoc_set(prev.0, x.0, x.1), prev.1 + 1)
        } else {
            prev
        }
    }
}

/// The first `cap` keys of a legacy list, each stamped `now`.
pub open spec fn list_capped(l: Seq<Seq<char>>, now: i64, cap: nat) -> Seq<(Seq<char>, i64)>
    decreases l.len(),
{
    if l.len() == 0 {
        Seq::empty()
    } else if l.len() > cap {
        list_capped(l.drop_last(), now, cap)
    } else {
        assoc_set(list_capped(l.drop_last(), now, cap), l.last(), now)
    }
}

/// A stored baseline value read back: the object shape with decay and
/// cap, else the legacy list shape stamped `now`, else nothing.
pub open spec fn baseline_entries(
    map: Option<Seq<(Seq<char>, i64)>>,
    list: Option<Seq<Seq<char>>>,
    now: i64,
    cap: nat,
) -> Seq<(Seq<char>, i64)> {
    match map {
        Some(m) => fresh_capped(m, now, cap).0,
        None => match list {
            Some(l) => list_capped(l, now, cap),
            None => Seq::empty(),
        },
    }
}

/// The decay and cap applied to what was read (see `baseline_entries`).
pub fn baseline_from_parsed(
    map: Option<Vec<(String, i64)>>,
    list: Option<Vec<String>>,
    now: i64,
    cap: usize,
) -> (r: StrMap<i64>)
    ensures
        r.view() == baseline_entries(opt_pairs_view(map), opt_strs_seq(list), now, cap as nat),
{
    let mut out: StrMap<i64> = StrMap::new();
    match map {
        Some(m) => {
            let mut n: usize = 0;
            let mut i: usize = 0;
            assert(out.view() =~= Seq::<(Seq<char>, i64)>::empty());
            while i < m.len()
                invariant
                    i <= m.len(),
                    (out.view(), n as nat) == fresh_capped(pairs_view(m@).subrange(0, i as int), now, cap as nat),
                    n <= i,
                decreases m.len() - i,
            {
                assert(pairs_view(m@).subrange(0, i + 1).drop_last() =~= pairs_view(m@).subrange(0, i as int));
                let ts = m[i].1;
                let fresh = (now as i128) - (ts as i128) < BASELINE_TTL_MS as i128;
                if n < cap && fresh {
                    out.set(m[i].0.clone(), ts);
                    n = n + 1;
                }
                i = i + 1;
            }
            assert(pairs_view(m@).subrange(0, m.len() as int) =~= pairs_view(m@));
        },
        None => {
            match list {
                Some(l) => {
                    let mut i: usize = 0;
                    assert(out.view() =~= Seq::<(Seq<char>, i64)>::empty());
                    while i < l.len() && i < cap
                        invariant
                            i <= l.len(),
                            i <= cap,
                            out.view() == list_capped(strs_view(l@).subrange(0, i as int), now, cap as nat),
                        decreases l.len() - i,
                    {
                        assert(strs_view(l@).subrange(0, i + 1).drop_last() =~= strs_view(l@).subrange(0, i as int));
                        out.set(l[i].clone(), now);
                        i = i + 1;
                    }
                    proof {
                        lemma_list_capped_past(strs_view(l@), now, cap as nat, i as nat);
                    }
                },
                None => {
                    assert(out.view() =~= Seq::<(Seq<char>, i64)>::empty());
                },
            }
        },
    }
    out
}

/// Keys past the cap do not count.
proof fn lemma_list_capped_past(l: Seq<Seq<char>>, now: i64, cap: nat, i: nat)
    requires
        i <= l.len(),
        i == l.len() || i >= cap,
    ensures
        list_capped(l.subrange(0, i as int), now, cap) == list_capped(l, now, cap),
    decreases l.len() - i,
{
    if i < l.len() {
        lemma_list_capped_past(l, now, cap, i + 1);
        let t = l.subrange(0, i + 1 as int);
        assert(t.drop_last() =~= l.subrange(0, i as int));
    } else {
        assert(l.subrange(0, i as int) =~= l);
    }
}

/// Read a stored baseline value (see `baseline_entries`).
pub fn decode_baseline(raw: &str, cap: usize, now: i64) -> (r: StrMap<i64>)
    ensures
        r.view() == baseline_entries(stamped_map_of(raw@), key_list_of(raw@), now, cap as nat),
{
    let map = parse_stamped_map(raw);
    let list = match map {
        Some(_) => None,
        None => parse_key_list(raw),
    };
    let r = baseline_from_parsed(map, list, now, cap);
    assert(baseline_entries(opt_pairs_view(map), opt_strs_seq(list), now, cap as nat)
        == baseline_entries(stamped_map_of(raw@), key_list_of(raw@), now, cap as nat));
    r
}

proof fn lemma_set_len_bound(m: Seq<(Seq<char>, i64)>, k: Seq<char>, v: i64)
    ensures
        assoc_set(m, k, v).len() <= m.len() + 1,
        forall|i: int| 0 <= i < assoc_set(m, k, v).len() ==> (#[trigger] assoc_set(m, k, v)[i] == (k, v)
            || (i < m.len() && assoc_set(m, k, v)[i] == m[i])),
{
    crate::assoc::lemma_assoc_find_bounds(m, k, 0);
}

/// Baselines read back are bounded and fresh: at most `cap` entries, each
/// stamped less than the TTL before `now`.
pub proof fn law_restored_baseline_bounded_and_fresh(m: Seq<(Seq<char>, i64)>, now: i64, cap: nat)
    ensures
        fresh_capped(m, now, cap).0.len() <= fresh_capped(m, now, cap).1,
        fresh_capped(m, now, cap).1 <= cap,
        forall|i: int| 0 <= i < fresh_capped(m, now, cap).0.len() ==> is_fresh(now, #[trigger] fresh_capped(m, now, cap).0[i].1),
    decreases m.len(),
{
    if m.len() > 0 {
        law_restored_baseline_bounded_and_fresh(m.drop_last(), now, cap);
        let prev = fresh_capped(m.drop_last(), now, cap);
        let x = m.last();
        if prev.1 < cap && is_fresh(now, x.1) {
            lemma_set_len_bound(prev.0, x.0, x.1);
            let r = assoc_set(prev.0, x.0, x.1);
            assert forall|i: int| 0 <= i < r.len() implies is_fresh(now, #[trigger] r[i].1) by {
                if r[i] != (x.0, x.1) {
                    assert(r[i] == prev.0[i]);
                }
            }
        }
    }
}


/// Entries with distinct keys, all fresh and within the cap, are read back
/// exactly as they are.
pub proof fn lemma_fresh_table_kept(p: Seq<(Seq<char>, i64)>, now: i64, cap: nat)
    requires
        unique_keys(p),
        p.len() <= cap,
        forall|i: int| 0 <= i < p.len() ==> is_fresh(now, #[trigger] p[i].1),
    ensures
        fresh_capped(p, now, cap) == (p, p.len()),
    decreases p.len(),
{
    if p.len() > 0 {
        let q = p.drop_last();
        assert forall|i: int| 0 <= i < q.len() implies is_fresh(now, #[trigger] q[i].1) by {
            assert(q[i] == p[i]);
        }
        lemma_fresh_table_kept(q, now, cap);
        crate::assoc::lemma_assoc_find_bounds(q, p.last().0, 0);
        if assoc_find(q, p.last().0) >= 0 {
            let j = assoc_find(q, p.last().0);
            assert(p[j].0 == p[p.len() - 1].0);
        }
        assert(p.len() - 1 < p.len());
        assert(is_fresh(now, p[p.len() - 1].1));
        assert(q.push(p.last()) =~= p);
    }
}

/// A baseline table read back while every entry is fresh and the table is
/// within the cap gives back exactly what was written: `p`, the pairs the
/// stored object holds, are the written entries `t` (in the object's key
/// order).
pub proof fn law_written_table_reads_back(t: Seq<(Seq<char>, i64)>, raw: Seq<char>, now: i64, cap: nat)
    requires
        reads_back_as(raw, t),
        t.len() <= cap,
        forall|i: int| 0 <= i < t.len() ==> is_fresh(now, #[trigger] t[i].1),
    ensures
        stamped_map_of(raw) matches Some(p) && p.to_multiset() == t.to_multiset()
            && baseline_entries(stamped_map_of(raw), key_list_of(raw), now, cap) == p,
{
    broadcast use vstd::seq_lib::group_to_multiset_ensures;
    let p = stamped_map_of(raw)->0;
    assert(p.len() == t.len()) by {
        assert(p.to_multiset().len() == t.to_multiset().len());
    }
    assert forall|i: int| 0 <= i < p.len() implies is_fresh(now, #[trigger] p[i].1) by {
        assert(p.contains(p[i]));
        assert(p.to_multiset().count(p[i]) > 0);
        assert(t.contains(p[i]));
        let j = choose|j: int| 0 <= j < t.len() && t[j] == p[i];
        assert(is_fresh(now, t[j].1));
    }
    lemma_fresh_table_kept(p, now, cap);
}

} // verus!
