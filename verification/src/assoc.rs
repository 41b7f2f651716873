//! Association lists keyed by text: the maps the detection engine keeps.
//! A lookup finds the first entry with the key; setting a key replaces that
//! entry in place or appends a new one, so keys stay unique.
use vstd::prelude::*;

verus! {

/// Index of the first entry with key `k` at or after `i`, or -1.
pub open spec fn assoc_find_from<V>(s: Seq<(Seq<char>, V)>, k: Seq<char>, i: int) -> int
    decreases s.len() - i,
{
    if i < 0 || i >= s.len() {
        -1
    } else if s[i].0 == k {
        i
    } else {
        assoc_find_from(s, k, i + 1)
    }
}

pub open spec fn assoc_find<V>(s: Seq<(Seq<char>, V)>, k: Seq<char>) -> int {
    assoc_find_from(s, k, 0)
}

pub open spec fn assoc_get<V>(s: Seq<(Seq<char>, V)>, k: Seq<char>) -> Option<V> {
    let i = assoc_find(s, k);
    if i >= 0 {
        Some(s[i].1)
    } else {
        None
    }
}

/// No key occurs twice.
pub open spec fn unique_keys<V>(s: Seq<(Seq<char>, V)>) -> bool {
    forall|i: int, j: int| 0 <= i < j < s.len() ==> s[i].0 != s[j].0
}

pub open spec fn assoc_set<V>(s: Seq<(Seq<char>, V)>, k: Seq<char>, v: V) -> Seq<(Seq<char>, V)> {
    let i = assoc_find(s, k);
    if i >= 0 {
        s.update(i, (k, v))
    } else {
        s.push((k, v))
    }
}

pub proof fn lemma_assoc_find_bounds<V>(s: Seq<(Seq<char>, V)>, k: Seq<char>, i: int)
    requires
        0 <= i,
    ensures
        assoc_find_from(s, k, i) == -1 || (i <= assoc_find_from(s, k, i) < s.len()
            && s[assoc_find_from(s, k, i)].0 == k),
        assoc_find_from(s, k, i) == -1 ==> forall|j: int| i <= j < s.len() ==> s[j].0 != k,
        assoc_find_from(s, k, i) >= 0 ==> forall|j: int| i <= j < assoc_find_from(s, k, i) ==> s[j].0 != k,
    decreases s.len() - i,
{
    if i < s.len() && s[i].0 != k {
        lemma_assoc_find_bounds(s, k, i + 1);
    }
}

proof fn lemma_find_is<V>(t: Seq<(Seq<char>, V)>, k: Seq<char>, from: int, m: int)
    requires
        0 <= from <= m < t.len(),
        t[m].0 == k,
        forall|j: int| from <= j < m ==> t[j].0 != k,
    ensures
        assoc_find_from(t, k, from) == m,
    decreases m - from,
{
    if from < m {
        lemma_find_is(t, k, from + 1, m);
    }
}

proof fn lemma_find_same<V>(s: Seq<(Seq<char>, V)>, t: Seq<(Seq<char>, V)>, k: Seq<char>, from: int)
    requires
        0 <= from,
        s.len() <= t.len(),
        forall|j: int| from <= j < s.len() ==> ((s[j].0 == k) <==> (t[j].0 == k)),
        forall|j: int| s.len() <= j < t.len() ==> t[j].0 != k,
    ensures
        assoc_find_from(s, k, from) == assoc_find_from(t, k, from),
    decreases t.len() - from,
{
    if from < t.len() {
        lemma_find_same(s, t, k, from + 1);
    }
}

/// After setting `k`, looking it up gives the value set.
pub proof fn lemma_assoc_set_get<V>(s: Seq<(Seq<char>, V)>, k: Seq<char>, v: V)
    ensures
        assoc_get(assoc_set(s, k, v), k) == Some(v),
{
    lemma_assoc_find_bounds(s, k, 0);
    let t = assoc_set(s, k, v);
    let i = assoc_find(s, k);
    if i >= 0 {
        lemma_find_is(t, k, 0, i);
    } else {
        lemma_find_is(t, k, 0, s.len() as int);
    }
}

/// Setting one key leaves every other key's lookup as it was.
pub proof fn lemma_assoc_set_other<V>(s: Seq<(Seq<char>, V)>, k: Seq<char>, v: V, k2: Seq<char>)
    requires
        k2 != k,
    ensures
        assoc_get(assoc_set(s, k, v), k2) == assoc_get(s, k2),
{
    lemma_assoc_find_bounds(s, k, 0);
    let t = assoc_set(s, k, v);
    lemma_find_same(s, t, k2, 0);
    lemma_assoc_find_bounds(s, k2, 0);
}

/// Appending an entry does not change a lookup that already succeeds.
pub proof fn lemma_assoc_push_found<V>(t: Seq<(Seq<char>, V)>, x: (Seq<char>, V), k: Seq<char>)
    requires
        assoc_get(t, k) is Some,
    ensures
        assoc_get(t.push(x), k) == assoc_get(t, k),
{
    lemma_assoc_find_bounds(t, k, 0);
    let m = assoc_find(t, k);
    lemma_find_is(t.push(x), k, 0, m);
}

/// Appending an entry with the key to a list without it makes the lookup find it.
pub proof fn lemma_assoc_push_new<V>(t: Seq<(Seq<char>, V)>, x: (Seq<char>, V), k: Seq<char>)
    requires
        assoc_get(t, k) is None,
        x.0 == k,
    ensures
        assoc_get(t.push(x), k) == Some(x.1),
{
    lemma_assoc_find_bounds(t, k, 0);
    lemma_find_is(t.push(x), k, 0, t.len() as int);
}

/// Appending an entry with another key does not change a lookup.
pub proof fn lemma_assoc_push_other<V>(t: Seq<(Seq<char>, V)>, x: (Seq<char>, V), k: Seq<char>)
    requires
        x.0 != k,
    ensures
        assoc_get(t.push(x), k) == assoc_get(t, k),
{
    lemma_find_same(t, t.push(x), k, 0);
    lemma_assoc_find_bounds(t, k, 0);
}

/// A lookup in a list with its last entry dropped.
pub proof fn lemma_assoc_drop_last<V>(s: Seq<(Seq<char>, V)>, k: Seq<char>)
    requires
        s.len() > 0,
    ensures
        assoc_get(s, k) == (if assoc_get(s.drop_last(), k) is Some {
            assoc_get(s.drop_last(), k)
        } else if s.last().0 == k {
            Some(s.last().1)
        } else {
            None::<V>
        }),
{
    assert(s == s.drop_last().push(s.last()));
    if assoc_get(s.drop_last(), k) is Some {
        lemma_assoc_push_found(s.drop_last(), s.last(), k);
    } else if s.last().0 == k {
        lemma_assoc_push_new(s.drop_last(), s.last(), k);
    } else {
        lemma_assoc_push_other(s.drop_last(), s.last(), k);
    }
}

/// A text-keyed map with values of a `Copy` type.
#[derive(Debug)]
pub struct StrMap<V> {
    pub(crate) items: Vec<(String, V)>,
}

impl<V> StrMap<V> {
    /// No key occurs twice.
    #[verifier::type_invariant]
    pub(crate) open spec fn keys_distinct(self) -> bool {
        unique_keys(pairs_view(self.items@))
    }
}

pub open spec fn pairs_view<V>(v: Seq<(String, V)>) -> Seq<(Seq<char>, V)> {
    v.map_values(|p: (String, V)| (p.0@, p.1))
}

impl<V: Copy> StrMap<V> {
    pub open(crate) spec fn view(&self) -> Seq<(Seq<char>, V)> {
        pairs_view(self.items@)
    }

    pub fn new() -> (r: Self)
        ensures
            r.view().len() == 0,
    {
        let r = StrMap { items: Vec::new() };
        r
    }


    /// A map of entries whose keys are distinct.
    pub fn from_items(items: Vec<(String, V)>) -> (r: Self)
        requires
            unique_keys(pairs_view(items@)),
        ensures
            r.view() == pairs_view(items@),
    {
        StrMap { items }
    }

    /// The entries, in order.
    pub fn into_items(self) -> (r: Vec<(String, V)>)
        ensures
            pairs_view(r@) == self.view(),
            unique_keys(pairs_view(r@)),
    {
        proof {
            use_type_invariant(&self);
        }
        let StrMap { items } = self;
        items
    }

    pub fn len(&self) -> (r: usize)
        ensures
            r == self.view().len(),
    {
        self.items.len()
    }

    pub fn find(&self, k: &str) -> (r: Option<usize>)
        ensures
            match r {
                Some(i) => assoc_find(self.view(), k@) == i as int && i < self.view().len(),
                None => assoc_find(self.view(), k@) == -1,
            },
    {
        let mut i: usize = 0;
        while i < self.items.len()
            invariant
                i <= self.items.len(),
                assoc_find_from(self.view(), k@, i as int) == assoc_find(self.view(), k@),
            decreases self.items.len() - i,
        {
            if crate::text::str_eq(self.items[i].0.as_str(), k) {
                return Some(i);
            }
            i = i + 1;
        }
        None
    }

    pub fn get(&self, k: &str) -> (r: Option<V>)
        ensures
            r == assoc_get(self.view(), k@),
    {
        match self.find(k) {
            Some(i) => Some(self.items[i].1),
            None => None,
        }
    }

    pub fn contains_key(&self, k: &str) -> (r: bool)
        ensures
            r == (assoc_get(self.view(), k@) is Some),
    {
        self.find(k).is_some()
    }

    pub fn set(&mut self, k: String, v: V)
        ensures
            final(self).view() == assoc_set(old(self).view(), k@, v),
    {
        proof {
            use_type_invariant(&*self);
        }
        let ghost before = self.view();
        match self.find(k.as_str()) {
            Some(i) => {
                let ghost kv = k@;
                proof {
                    lemma_assoc_find_bounds(before, kv, 0);
                }
                let mut items: Vec<(String, V)> = Vec::new();
                std::mem::swap(&mut items, &mut self.items);
                items.set(i, (k, v));
                proof {
                    assert(pairs_view(items@) =~= before.update(i as int, (kv, v)));
                    assert forall|a: int, b: int| 0 <= a < b < pairs_view(items@).len()
                        implies pairs_view(items@)[a].0 != pairs_view(items@)[b].0 by {
                        assert(before[i as int].0 == kv);
                    }
                }
                self.items = items;
                assert(self.view() =~= old(self).view().update(i as int, (kv, v)));
            },
            None => {
                let ghost kv = k@;
                proof {
                    lemma_assoc_find_bounds(before, kv, 0);
                }
                let mut items: Vec<(String, V)> = Vec::new();
                std::mem::swap(&mut items, &mut self.items);
                items.push((k, v));
                proof {
                    assert(pairs_view(items@) =~= before.push((kv, v)));
                }
                self.items = items;
                assert(self.view() =~= old(self).view().push((kv, v)));
            },
        }
    }
}

} // verus!
