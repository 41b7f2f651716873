//! The IP block list: canonical entries and the set that lookups consult.
//!
//! Persistence (the JSON file) is the caller's; this type holds the state
//! and decides every change.
use vstd::prelude::*;
use crate::netparse::{parse_block_target, spec_parse_block_target, spec_strip_port, strip_port};
use crate::text::{trim_str, trimmed, string_of};

verus! {

/// One block-list entry as stored.
#[derive(Debug)]
pub struct BlocklistEntry {
    pub ip: String,
    pub comment: Option<String>,
    pub added_at: String,
}

pub fn copy_opt_string(s: &Option<String>) -> (r: Option<String>)
    ensures
        r == *s,
{
    match s {
        Some(x) => Some(x.clone()),
        None => None,
    }
}

impl BlocklistEntry {
    /// A field-by-field copy.
    pub fn duplicate(&self) -> (r: BlocklistEntry)
        ensures
            r == *self,
    {
        BlocklistEntry {
            ip: self.ip.clone(),
            comment: copy_opt_string(&self.comment),
            added_at: self.added_at.clone(),
        }
    }
}

/// Why an entry was refused or could not be kept.
#[derive(Debug)]
pub enum BlocklistError {
    /// The text does not name an IP address (the trimmed input is kept).
    InvalidIp(String),
    /// Writing the list to disk failed (the message of the I/O error).
    Io(String),
}

/// The block list: entries in insertion order, and the set of blocked
/// addresses that `is_blocked` consults.
pub struct BlocklistManager {
    entries: Vec<BlocklistEntry>,
    ip_set: Vec<String>,
}

/// The IPs of the entries, in order.
pub open spec fn entry_ips(es: Seq<BlocklistEntry>) -> Seq<Seq<char>> {
    es.map_values(|e: BlocklistEntry| e.ip@)
}

/// The entries whose IP is not `key`, in order.
pub open spec fn entries_without(es: Seq<BlocklistEntry>, key: Seq<char>) -> Seq<BlocklistEntry>
    decreases es.len(),
{
    if es.len() == 0 {
        es
    } else if es.last().ip@ == key {
        entries_without(es.drop_last(), key)
    } else {
        entries_without(es.drop_last(), key).push(es.last())
    }
}

pub open spec fn string_set(v: Seq<String>) -> Set<Seq<char>> {
    Set::new(|k: Seq<char>| exists|i: int| 0 <= i < v.len() && v[i]@ == k)
}

/// Each text occurs at most once.
pub open spec fn no_dup_strings(v: Seq<String>) -> bool {
    forall|i: int, j: int| 0 <= i < v.len() && 0 <= j < v.len() && i != j ==> v[i]@ != v[j]@
}

impl BlocklistManager {
    /// Entries in insertion order.
    pub closed spec fn entries_view(&self) -> Seq<BlocklistEntry> {
        self.entries@
    }

    /// The addresses that count as blocked.
    pub closed spec fn blocked(&self) -> Set<Seq<char>> {
        string_set(self.ip_set@)
    }

    pub closed spec fn wf(&self) -> bool {
        no_dup_strings(self.ip_set@)
    }

    /// An empty list.
    pub fn new() -> (r: Self)
        ensures
            r.wf(),
            r.entries_view().len() == 0,
            r.blocked() == Set::<Seq<char>>::empty(),
    {
        let r = BlocklistManager { entries: Vec::new(), ip_set: Vec::new() };
        assert(string_set(r.ip_set@) =~= Set::<Seq<char>>::empty());
        r
    }

    /// Replace the state with entries read back from storage: the entries
    /// as given, and as blocked set the trimmed IPs of the entries.
    pub fn load(&mut self, items: Vec<BlocklistEntry>)
        ensures
            final(self).wf(),
            final(self).entries_view() == items@,
            final(self).blocked() == Set::new(
                |k: Seq<char>| exists|i: int| 0 <= i < items@.len() && trimmed(items@[i].ip@) == k,
            ),
    {
        let mut set: Vec<String> = Vec::new();
        let mut i: usize = 0;
        while i < items.len()
            invariant
                i <= items.len(),
                no_dup_strings(set@),
                string_set(set@) == Set::new(
                    |k: Seq<char>| exists|j: int| 0 <= j < i && trimmed(items@[j].ip@) == k,
                ),
            decreases items.len() - i,
        {
            let t = trim_str(items[i].ip.as_str());
            let ts = string_of(&t);
            let ghost old_set = set@;
            insert_unique(&mut set, ts);
            proof {
                assert(string_set(set@) =~= Set::new(
                    |k: Seq<char>| exists|j: int| 0 <= j < i + 1 && trimmed(items@[j].ip@) == k,
                )) by {
                    assert forall|k: Seq<char>| string_set(set@).contains(k) implies (exists|j: int|
                        0 <= j < i + 1 && trimmed(items@[j].ip@) == k) by {
                        if k != t@ {
                            assert(string_set(old_set).contains(k));
                        } else {
                            assert(trimmed(items@[i as int].ip@) == k);
                        }
                    }
                    assert forall|k: Seq<char>| (exists|j: int| 0 <= j < i + 1 && trimmed(
                        items@[j].ip@,
                    ) == k) implies string_set(set@).contains(k) by {
                        let j = choose|j: int| 0 <= j < i + 1 && trimmed(items@[j].ip@) == k;
                        if j < i {
                            assert(string_set(old_set).contains(k));
                        }
                    }
                }
            }
            i = i + 1;
        }
        self.entries = items;
        self.ip_set = set;
    }

    /// Whether the host part of `ip` (see `strip_port`) is blocked.
    pub fn is_blocked(&self, ip: &str) -> (r: bool)
        ensures
            r == self.blocked().contains(spec_strip_port(ip@)),
    {
        let clean = strip_port(ip);
        contains_string(&self.ip_set, &clean)
    }

    /// The entries, in insertion order.
    pub fn list(&self) -> (r: Vec<BlocklistEntry>)
        ensures
            r@ == self.entries_view(),
    {
        let mut out: Vec<BlocklistEntry> = Vec::new();
        let mut i: usize = 0;
        while i < self.entries.len()
            invariant
                i <= self.entries.len(),
                out@ == self.entries@.subrange(0, i as int),
            decreases self.entries.len() - i,
        {
            out.push(self.entries[i].duplicate());
            i = i + 1;
        }
        out
    }

    /// Add an entry. The text must name an IP (with or without port or
    /// brackets); it is stored in canonical form, once, and becomes blocked.
    /// Otherwise nothing changes and the trimmed input comes back as the error.
    pub fn add(&mut self, ip: &str, comment: Option<String>, added_at: String) -> (r: Result<(), BlocklistError>)
        requires
            old(self).wf(),
        ensures
            final(self).wf(),
            match spec_parse_block_target(ip@) {
                None => {
                    &&& r matches Err(BlocklistError::InvalidIp(t)) && t@ == trimmed(ip@)
                    &&& final(self).entries_view() == old(self).entries_view()
                    &&& final(self).blocked() == old(self).blocked()
                },
                Some(c) => {
                    &&& r is Ok
                    &&& final(self).blocked() == old(self).blocked().insert(c)
                    &&& if entry_ips(old(self).entries_view()).contains(c) {
                        final(self).entries_view() == old(self).entries_view()
                    } else {
                        &&& final(self).entries_view().len() == old(self).entries_view().len() + 1
                        &&& final(self).entries_view().drop_last() == old(self).entries_view()
                        &&& final(self).entries_view().last().ip@ == c
                        &&& final(self).entries_view().last().comment == comment
                        &&& final(self).entries_view().last().added_at == added_at
                    }
                },
            },
    {
        let clean = match parse_block_target(ip) {
            Some(c) => c,
            None => {
                let t = trim_str(ip);
                return Err(BlocklistError::InvalidIp(string_of(&t)));
            },
        };
        let mut present = false;
        let mut i: usize = 0;
        while i < self.entries.len()
            invariant
                i <= self.entries.len(),
                present <==> exists|j: int| 0 <= j < i && self.entries@[j].ip@ == clean@,
            decreases self.entries.len() - i,
        {
            if self.entries[i].ip == clean {
                present = true;
            }
            i = i + 1;
        }
        proof {
            assert(entry_ips(self.entries@).contains(clean@) <==> exists|j: int|
                0 <= j < self.entries@.len() && self.entries@[j].ip@ == clean@) by {
                if entry_ips(self.entries@).contains(clean@) {
                    let j = choose|j: int| 0 <= j < entry_ips(self.entries@).len() && entry_ips(self.entries@)[j] == clean@;
                    assert(self.entries@[j].ip@ == clean@);
                }
                if exists|j: int| 0 <= j < self.entries@.len() && self.entries@[j].ip@ == clean@ {
                    let j = choose|j: int| 0 <= j < self.entries@.len() && self.entries@[j].ip@ == clean@;
                    assert(entry_ips(self.entries@)[j] == clean@);
                }
            }
        }
        if !present {
            let entry = BlocklistEntry { ip: clean.clone(), comment, added_at };
            self.entries.push(entry);
            assert(self.entries@.drop_last() =~= old(self).entries@);
        }
        let ghost before = self.ip_set@;
        insert_unique(&mut self.ip_set, clean);
        assert(string_set(self.ip_set@) =~= string_set(before).insert(clean@));
        Ok(())
    }

    /// Remove every entry whose IP equals the host part of `ip`, and unblock
    /// it. Reports whether an entry was removed.
    pub fn remove(&mut self, ip: &str) -> (r: bool)
        requires
            old(self).wf(),
        ensures
            final(self).wf(),
            final(self).entries_view() == entries_without(old(self).entries_view(), spec_strip_port(ip@)),
            final(self).entries_view() == old(self).entries_view().filter(|e: BlocklistEntry| e.ip@ != spec_strip_port(ip@)),
            final(self).blocked() == old(self).blocked().remove(spec_strip_port(ip@)),
            r == (final(self).entries_view().len() < old(self).entries_view().len()),
    {
        proof {
            law_remove_keeps_other_entries(old(self).entries_view(), spec_strip_port(ip@));
        }
        let clean = strip_port(ip);
        let mut kept: Vec<BlocklistEntry> = Vec::new();
        let old_len = self.entries.len();
        let mut i: usize = 0;
        while i < self.entries.len()
            invariant
                i <= self.entries.len(),
                old_len == self.entries.len(),
                kept@ == entries_without(self.entries@.subrange(0, i as int), clean@),
                kept@.len() <= i,
            decreases self.entries.len() - i,
        {
            let ghost pre = self.entries@.subrange(0, i as int);
            assert(self.entries@.subrange(0, i + 1).drop_last() =~= pre);
            if self.entries[i].ip != clean {
                kept.push(self.entries[i].duplicate());
            }
            i = i + 1;
        }
        assert(self.entries@.subrange(0, old_len as int) =~= self.entries@);
        self.entries = kept;
        let ghost before = self.ip_set@;
        remove_string(&mut self.ip_set, &clean);
        self.entries.len() < old_len
    }
}

/// Whether `v` holds a text equal to `s`.
pub fn contains_string(v: &Vec<String>, s: &String) -> (r: bool)
    ensures
        r == string_set(v@).contains(s@),
{
    let mut i: usize = 0;
    while i < v.len()
        invariant
            i <= v.len(),
            forall|j: int| 0 <= j < i ==> v@[j]@ != s@,
        decreases v.len() - i,
    {
        if v[i] == *s {
            return true;
        }
        i = i + 1;
    }
    false
}

/// Insert `s` unless a text equal to it is already there.
pub fn insert_unique(v: &mut Vec<String>, s: String)
    requires
        no_dup_strings(old(v)@),
    ensures
        no_dup_strings(final(v)@),
        string_set(final(v)@) == string_set(old(v)@).insert(s@),
{
    let ghost before = v@;
    if !contains_string(v, &s) {
        let ghost sv = s@;
        v.push(s);
        assert(string_set(v@) =~= string_set(before).insert(sv)) by {
            assert forall|k: Seq<char>| string_set(v@).contains(k) implies string_set(before).insert(sv).contains(k) by {
                let i = choose|i: int| 0 <= i < v@.len() && v@[i]@ == k;
                if i < before.len() {
                    assert(string_set(before).contains(k));
                }
            }
            assert forall|k: Seq<char>| string_set(before).insert(sv).contains(k) implies string_set(v@).contains(k) by {
                if k == sv {
                    assert(v@[before.len() as int]@ == k);
                } else {
                    let i = choose|i: int| 0 <= i < before.len() && before[i]@ == k;
                    assert(v@[i]@ == k);
                }
            }
        }
    } else {
        assert(string_set(v@) =~= string_set(before).insert(s@));
    }
}

/// Remove the text equal to `s`, if present.
pub fn remove_string(v: &mut Vec<String>, s: &String)
    requires
        no_dup_strings(old(v)@),
    ensures
        no_dup_strings(final(v)@),
        string_set(final(v)@) == string_set(old(v)@).remove(s@),
{
    let ghost before = v@;
    let mut out: Vec<String> = Vec::new();
    let mut i: usize = 0;
    while i < v.len()
        invariant
            i <= v.len(),
            v@ == before,
            no_dup_strings(before),
            no_dup_strings(out@),
            forall|k: Seq<char>| string_set(out@).contains(k) <==> (k != s@ && exists|j: int| 0 <= j < i && before[j]@ == k),
        decreases v.len() - i,
    {
        if v[i] != *s {
            let ghost x = v@[i as int]@;
            let ghost prev = out@;
            out.push(v[i].clone());
            proof {
                assert forall|a: int, b: int| 0 <= a < out@.len() && 0 <= b < out@.len() && a != b implies out@[a]@ != out@[b]@ by {
                    if a == prev.len() as int && b < prev.len() {
                        assert(string_set(prev).contains(prev[b]@));
                    } else if b == prev.len() as int && a < prev.len() {
                        assert(string_set(prev).contains(prev[a]@));
                    }
                }
                assert forall|k: Seq<char>| string_set(out@).contains(k) <==> (k != s@ && exists|j: int| 0 <= j < i + 1 && before[j]@ == k) by {
                    if string_set(out@).contains(k) {
                        let q = choose|q: int| 0 <= q < out@.len() && out@[q]@ == k;
                        if q < prev.len() {
                            assert(string_set(prev).contains(k));
                        }
                    }
                    if k != s@ && exists|j: int| 0 <= j < i + 1 && before[j]@ == k {
                        let j = choose|j: int| 0 <= j < i + 1 && before[j]@ == k;
                        if j < i {
                            assert(string_set(prev).contains(k));
                            let q = choose|q: int| 0 <= q < prev.len() && prev[q]@ == k;
                            assert(out@[q]@ == k);
                        } else {
                            assert(out@[prev.len() as int]@ == k);
                        }
                    }
                }
            }
        }
        i = i + 1;
    }
    assert(string_set(out@) =~= string_set(before).remove(s@));
    *v = out;
}

/// An address added to the list is blocked: looking up its canonical text,
/// or any endpoint whose host part that text is (such as `[v6]:port`),
/// finds it.
pub proof fn law_added_address_is_blocked(blocked_before: Set<Seq<char>>, raw: Seq<char>, endpoint: Seq<char>)
    requires
        spec_parse_block_target(raw) is Some,
    ensures
        blocked_before.insert(spec_parse_block_target(raw).unwrap()).contains(
            spec_strip_port(spec_parse_block_target(raw).unwrap()),
        ),
        spec_strip_port(endpoint) == spec_parse_block_target(raw).unwrap() ==> blocked_before.insert(
            spec_parse_block_target(raw).unwrap(),
        ).contains(spec_strip_port(endpoint)),
{
    crate::netparse::law_canonical_target_is_own_host(raw);
}

/// After removing an address, it is no longer blocked.
pub proof fn law_removed_address_is_unblocked(blocked_before: Set<Seq<char>>, raw: Seq<char>)
    ensures
        !blocked_before.remove(spec_strip_port(raw)).contains(spec_strip_port(raw)),
{
}

/// Adding the same address twice keeps a single entry: once an entry with
/// the canonical text is present, a second add finds it.
pub proof fn law_add_is_idempotent(es: Seq<BlocklistEntry>, e: BlocklistEntry)
    ensures
        entry_ips(es.push(e)).contains(e.ip@),
{
    assert(entry_ips(es.push(e))[es.len() as int] == e.ip@);
}


/// Removing a key keeps, in order, exactly the entries whose IP differs
/// from it: the list filtered by `ip != key`.
pub proof fn law_remove_keeps_other_entries(es: Seq<BlocklistEntry>, key: Seq<char>)
    ensures
        entries_without(es, key) == es.filter(|e: BlocklistEntry| e.ip@ != key),
        entries_without(es, key).len() + es.filter(|e: BlocklistEntry| e.ip@ == key).len() == es.len(),
    decreases es.len(),
{
    reveal(Seq::filter);
    if es.len() > 0 {
        law_remove_keeps_other_entries(es.drop_last(), key);
    }
}

} // verus!
