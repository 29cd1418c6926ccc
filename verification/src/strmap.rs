//! A small map keyed by strings that remembers the order in which keys were
//! first inserted.
use vstd::prelude::*;
use crate::text::str_eq;

verus! {

/// Whether no key occurs twice in `p`.
pub open spec fn keys_distinct<T>(p: Seq<(Seq<char>, T)>) -> bool {
    forall|i: int, j: int|
        0 <= i < p.len() && 0 <= j < p.len() && i != j ==> #[trigger] p[i].0 != #[trigger] p[j].0
}

/// Whether `k` is one of the keys of `p`.
pub open spec fn has_key<T>(p: Seq<(Seq<char>, T)>, k: Seq<char>) -> bool {
    exists|i: int| 0 <= i < p.len() && #[trigger] p[i].0 == k
}

/// The position of key `k` in `p` (meaningful when `has_key(p, k)`).
pub open spec fn key_index<T>(p: Seq<(Seq<char>, T)>, k: Seq<char>) -> int {
    choose|i: int| 0 <= i < p.len() && #[trigger] p[i].0 == k
}

/// The map that a list of entries with distinct keys denotes.
pub open spec fn pairs_map<T>(p: Seq<(Seq<char>, T)>) -> Map<Seq<char>, T> {
    Map::new(|k: Seq<char>| has_key(p, k), |k: Seq<char>| p[key_index(p, k)].1)
}

/// With distinct keys, an entry's key finds that very entry.
pub proof fn lemma_key_index<T>(p: Seq<(Seq<char>, T)>, i: int)
    requires
        keys_distinct(p),
        0 <= i < p.len(),
    ensures
        has_key(p, p[i].0),
        key_index(p, p[i].0) == i,
{
    assert(has_key(p, p[i].0));
    let j = key_index(p, p[i].0);
    if j != i {
        assert(p[i].0 != p[j].0);
    }
}

/// The position of the first entry with key `k`, if any.
pub open spec fn first_key_index<T>(p: Seq<(Seq<char>, T)>, k: Seq<char>) -> Option<int> {
    if has_key(p, k) {
        Some(
            choose|i: int|
                0 <= i < p.len() && #[trigger] p[i].0 == k && forall|j: int| 0 <= j < i ==> p[j].0 != k,
        )
    } else {
        None
    }
}

/// The first entry with a key has it, and no earlier entry does.
pub proof fn lemma_first_key_index<T>(p: Seq<(Seq<char>, T)>, k: Seq<char>)
    ensures
        first_key_index(p, k) matches Some(i) ==> 0 <= i < p.len() && p[i].0 == k && forall|j: int|
            0 <= j < i ==> p[j].0 != k,
        first_key_index(p, k) is None ==> forall|j: int| 0 <= j < p.len() ==> p[j].0 != k,
{
    if has_key(p, k) {
        let i = choose|i: int| 0 <= i < p.len() && #[trigger] p[i].0 == k;
        lemma_minimal_key_index(p, k, i);
    }
}

proof fn lemma_minimal_key_index<T>(p: Seq<(Seq<char>, T)>, k: Seq<char>, i: int)
    requires
        0 <= i < p.len(),
        p[i].0 == k,
    ensures
        exists|m: int| 0 <= m < p.len() && #[trigger] p[m].0 == k && forall|j: int| 0 <= j < m ==> p[j].0 != k,
    decreases i,
{
    if exists|j: int| 0 <= j < i && #[trigger] p[j].0 == k {
        let j = choose|j: int| 0 <= j < i && #[trigger] p[j].0 == k;
        lemma_minimal_key_index(p, k, j);
    } else {
        assert(forall|j: int| 0 <= j < i ==> p[j].0 != k);
    }
}

/// Inserting into an insertion-ordered map: an entry with the same key
/// keeps its place and takes the new value; otherwise the entry goes last.
pub open spec fn pairs_insert<T>(p: Seq<(Seq<char>, T)>, k: Seq<char>, v: T) -> Seq<
    (Seq<char>, T),
> {
    match first_key_index(p, k) {
        Some(i) => p.update(i, (k, v)),
        None => p.push((k, v)),
    }
}

/// Removing a key from an insertion-ordered map: the entry with that key
/// goes, the others keep their order; its value is returned.
pub open spec fn pairs_remove<T>(p: Seq<(Seq<char>, T)>, k: Seq<char>) -> (
    Seq<(Seq<char>, T)>,
    Option<T>,
) {
    match first_key_index(p, k) {
        Some(i) => (p.remove(i), Some(p[i].1)),
        None => (p, None),
    }
}

/// Setting `k` to `v` in entries with distinct keys: in place when present,
/// else as a new last entry.
pub open spec fn pairs_set<T>(p: Seq<(Seq<char>, T)>, k: Seq<char>, v: T) -> Seq<(Seq<char>, T)> {
    if has_key(p, k) {
        p.update(key_index(p, k), (k, v))
    } else {
        p.push((k, v))
    }
}

/// After inserting `k`, the keys present are the old ones and `k`.
pub proof fn lemma_insert_has_key<T>(p: Seq<(Seq<char>, T)>, k: Seq<char>, v: T, q: Seq<char>)
    ensures
        has_key(pairs_insert(p, k, v), q) <==> (has_key(p, q) || q == k),
{
    lemma_first_key_index(p, k);
    let r = pairs_insert(p, k, v);
    match first_key_index(p, k) {
        Some(i) => {
            if has_key(p, q) {
                let w = choose|w: int| 0 <= w < p.len() && #[trigger] p[w].0 == q;
                assert(r[w].0 == q);
            }
            if q == k {
                assert(r[i].0 == q);
            }
            if has_key(r, q) {
                let w = choose|w: int| 0 <= w < r.len() && #[trigger] r[w].0 == q;
                if w != i {
                    assert(p[w].0 == q);
                }
            }
        },
        None => {
            if has_key(p, q) {
                let w = choose|w: int| 0 <= w < p.len() && #[trigger] p[w].0 == q;
                assert(r[w].0 == q);
            }
            if q == k {
                assert(r[p.len() as int].0 == q);
            }
            if has_key(r, q) {
                let w = choose|w: int| 0 <= w < r.len() && #[trigger] r[w].0 == q;
                if w < p.len() {
                    assert(p[w].0 == q);
                }
            }
        },
    }
}

/// Removing `k` keeps every other key, and hands a value back whenever `k`
/// was present.
pub proof fn lemma_remove_has_key<T>(p: Seq<(Seq<char>, T)>, k: Seq<char>, q: Seq<char>)
    ensures
        has_key(p, q) && q != k ==> has_key(pairs_remove(p, k).0, q),
        has_key(p, k) ==> pairs_remove(p, k).1 is Some,
{
    lemma_first_key_index(p, k);
    if has_key(p, q) && q != k {
        let w = choose|w: int| 0 <= w < p.len() && #[trigger] p[w].0 == q;
        match first_key_index(p, k) {
            Some(i) => {
                let r = p.remove(i);
                assert(w != i);
                if w < i {
                    assert(r[w].0 == q);
                } else {
                    assert(r[w - 1].0 == q);
                }
            },
            None => {},
        }
    }
}

/// Setting a key in entries with distinct keys keeps the keys distinct,
/// and the map they denote is the old one with that key set.
pub proof fn lemma_pairs_set<T>(p: Seq<(Seq<char>, T)>, k: Seq<char>, v: T)
    requires
        keys_distinct(p),
    ensures
        keys_distinct(pairs_set(p, k, v)),
        pairs_map(pairs_set(p, k, v)) == pairs_map(p).insert(k, v),
{
    let q = pairs_set(p, k, v);
    let n = p.len() as int;
    if has_key(p, k) {
        let i = key_index(p, k);
        assert(forall|a: int| 0 <= a < n ==> #[trigger] q[a].0 == p[a].0);
        assert forall|a: int, b: int|
            0 <= a < q.len() && 0 <= b < q.len() && a != b implies #[trigger] q[a].0
            != #[trigger] q[b].0 by {
            assert(p[a].0 != p[b].0);
        }
    } else {
        assert forall|a: int, b: int|
            0 <= a < q.len() && 0 <= b < q.len() && a != b implies #[trigger] q[a].0
            != #[trigger] q[b].0 by {
            if a < n && b < n {
                assert(p[a].0 != p[b].0);
            } else if a == n {
                assert(p[b].0 != k);
            } else {
                assert(p[a].0 != k);
            }
        }
    }
    assert forall|key: Seq<char>| #[trigger] pairs_map(q).contains_key(key) implies pairs_map(
        p,
    ).insert(k, v).contains_key(key) && pairs_map(q)[key] == pairs_map(p).insert(k, v)[key] by {
        let j = key_index(q, key);
        lemma_key_index(q, j);
        if key != k {
            assert(q[j] == p[j]);
            lemma_key_index(p, j);
        }
    }
    assert forall|key: Seq<char>| #[trigger] pairs_map(p).insert(k, v).contains_key(key) implies pairs_map(
        q,
    ).contains_key(key) by {
        if key != k {
            let j = key_index(p, key);
            assert(q[j].0 == key);
        } else if has_key(p, k) {
            assert(q[key_index(p, k)].0 == k);
        } else {
            assert(q[n].0 == k);
        }
    }
    assert(pairs_map(q) =~= pairs_map(p).insert(k, v));
}

/// A map keyed by strings, iterated in first-insertion order.
pub struct StrMap<T> {
    entries: Vec<(String, T)>,
}

impl<T> StrMap<T> {
    /// The entries, keys by their characters, in first-insertion order.
    pub closed spec fn pairs(&self) -> Seq<(Seq<char>, T)> {
        self.entries@.map_values(|e: (String, T)| (e.0@, e.1))
    }

    #[verifier::type_invariant]
    spec fn inv(&self) -> bool {
        keys_distinct(self.pairs())
    }

    /// An empty map.
    pub fn new() -> (m: Self)
        ensures
            m.pairs() == Seq::<(Seq<char>, T)>::empty(),
            m@ == Map::<Seq<char>, T>::empty(),
    {
        let m = StrMap { entries: Vec::new() };
        assert(m.pairs() =~= Seq::<(Seq<char>, T)>::empty());
        assert(m@ =~= Map::<Seq<char>, T>::empty());
        m
    }

    /// Number of keys.
    pub fn len(&self) -> (n: usize)
        ensures
            n == self.pairs().len(),
            keys_distinct(self.pairs()),
    {
        proof {
            use_type_invariant(self);
        }
        self.entries.len()
    }

    /// The key and value at position `i` in insertion order.
    pub fn entry_at(&self, i: usize) -> (r: (&String, &T))
        requires
            i < self.pairs().len(),
        ensures
            (r.0@, *r.1) == self.pairs()[i as int],
    {
        let e = &self.entries[i];
        (&e.0, &e.1)
    }

    /// Position of `key`, if present.
    pub fn find(&self, key: &str) -> (r: Option<usize>)
        ensures
            r is None <==> !has_key(self.pairs(), key@),
            r matches Some(i) ==> i < self.pairs().len() && self.pairs()[i as int].0 == key@
                && key_index(self.pairs(), key@) == i,
    {
        proof {
            use_type_invariant(self);
        }
        let mut i: usize = 0;
        while i < self.entries.len()
            invariant
                i <= self.entries@.len(),
                self.pairs().len() == self.entries@.len(),
                keys_distinct(self.pairs()),
                forall|j: int| 0 <= j < i ==> #[trigger] self.pairs()[j].0 != key@,
            decreases self.entries.len() - i,
        {
            assert(self.pairs()[i as int] == (self.entries@[i as int].0@, self.entries@[i as int].1));
            if str_eq(self.entries[i].0.as_str(), key) {
                proof {
                    lemma_key_index(self.pairs(), i as int);
                }
                return Some(i);
            }
            i = i + 1;
        }
        None
    }

    /// The value of `key`, if present.
    pub fn get(&self, key: &str) -> (r: Option<&T>)
        ensures
            r is Some <==> self@.contains_key(key@),
            r matches Some(v) ==> *v == self@[key@],
    {
        match self.find(key) {
            Some(i) => Some(&self.entries[i].1),
            None => None,
        }
    }

    /// Sets the value of `key`: in place when present, else as a new last
    /// entry.
    pub fn insert(&mut self, key: String, value: T)
        ensures
            final(self)@ == old(self)@.insert(key@, value),
            final(self).pairs() == pairs_set(old(self).pairs(), key@, value),
    {
        proof {
            use_type_invariant(&*self);
        }
        let ghost old_pairs = self.pairs();
        match self.find(key.as_str()) {
            Some(i) => {
                let ghost kv = key@;
                let mut entries: Vec<(String, T)> = Vec::new();
                std::mem::swap(&mut entries, &mut self.entries);
                entries.set(i, (key, value));
                proof {
                    assert(entries@.map_values(|e: (String, T)| (e.0@, e.1)) =~= old_pairs.update(
                        i as int,
                        (kv, value),
                    ));
                    let p = old_pairs.update(i as int, (kv, value));
                    assert forall|a: int, b: int|
                        0 <= a < p.len() && 0 <= b < p.len() && a != b implies #[trigger] p[a].0
                        != #[trigger] p[b].0 by {
                        assert(old_pairs[a].0 != old_pairs[b].0);
                    }
                }
                self.entries = entries;
                proof {
                    assert(self.pairs() =~= old_pairs.update(i as int, (kv, value)));
                    assert forall|a: int, b: int|
                        0 <= a < self.pairs().len() && 0 <= b < self.pairs().len() && a != b
                            implies #[trigger] self.pairs()[a].0 != #[trigger] self.pairs()[b].0 by {
                        assert(old_pairs[a].0 != old_pairs[b].0);
                    }
                    assert(self@ =~= old(self)@.insert(kv, value)) by {
                        assert forall|k: Seq<char>| #[trigger]
                            self@.contains_key(k) implies self@[k] == old(self)@.insert(
                            kv,
                            value,
                        )[k] by {
                            let j = key_index(self.pairs(), k);
                            lemma_key_index(self.pairs(), j);
                            if k != kv {
                                lemma_key_index(old_pairs, j);
                            }
                        }
                        assert forall|k: Seq<char>| #[trigger]
                            old(self)@.insert(kv, value).contains_key(k) implies self@.contains_key(
                            k,
                        ) by {
                            if k != kv {
                                let j = key_index(old_pairs, k);
                                assert(self.pairs()[j].0 == k);
                            } else {
                                assert(self.pairs()[i as int].0 == k);
                            }
                        }
                    }
                }
            },
            None => {
                let ghost kv = key@;
                let mut entries: Vec<(String, T)> = Vec::new();
                std::mem::swap(&mut entries, &mut self.entries);
                entries.push((key, value));
                proof {
                    let p = old_pairs.push((kv, value));
                    assert(entries@.map_values(|e: (String, T)| (e.0@, e.1)) =~= p);
                    let n = old_pairs.len() as int;
                    assert forall|a: int, b: int|
                        0 <= a < p.len() && 0 <= b < p.len() && a != b implies #[trigger] p[a].0
                        != #[trigger] p[b].0 by {
                        if a < n && b < n {
                            assert(old_pairs[a].0 != old_pairs[b].0);
                        } else if a == n {
                            assert(old_pairs[b].0 != kv);
                        } else {
                            assert(old_pairs[a].0 != kv);
                        }
                    }
                }
                self.entries = entries;
                proof {
                    assert(self.pairs() =~= old_pairs.push((kv, value)));
                    let n = old_pairs.len() as int;
                    assert forall|a: int, b: int|
                        0 <= a < self.pairs().len() && 0 <= b < self.pairs().len() && a != b
                            implies #[trigger] self.pairs()[a].0 != #[trigger] self.pairs()[b].0 by {
                        if a < n && b < n {
                            assert(old_pairs[a].0 != old_pairs[b].0);
                        } else if a == n {
                            assert(old_pairs[b].0 != kv);
                        } else {
                            assert(old_pairs[a].0 != kv);
                        }
                    }
                    assert(self@ =~= old(self)@.insert(kv, value)) by {
                        assert forall|k: Seq<char>| #[trigger]
                            self@.contains_key(k) implies self@[k] == old(self)@.insert(
                            kv,
                            value,
                        )[k] by {
                            let j = key_index(self.pairs(), k);
                            lemma_key_index(self.pairs(), j);
                            if k != kv {
                                lemma_key_index(old_pairs, j);
                            }
                        }
                        assert forall|k: Seq<char>| #[trigger]
                            old(self)@.insert(kv, value).contains_key(k) implies self@.contains_key(
                            k,
                        ) by {
                            if k != kv {
                                let j = key_index(old_pairs, k);
                                assert(self.pairs()[j].0 == k);
                            } else {
                                assert(self.pairs()[n].0 == k);
                            }
                        }
                    }
                }
            },
        }
    }
}

impl<T> View for StrMap<T> {
    type V = Map<Seq<char>, T>;

    open spec fn view(&self) -> Map<Seq<char>, T> {
        pairs_map(self.pairs())
    }
}

impl StrMap<bool> {
    /// Whether this map and `other` hold the same keys with the same
    /// values (whatever their order).
    pub fn same_as(&self, other: &StrMap<bool>) -> (r: bool)
        ensures
            r == (self@ == other@),
    {
        proof {
            use_type_invariant(self);
            use_type_invariant(other);
        }
        let mut i: usize = 0;
        while i < self.entries.len()
            invariant
                i <= self.entries@.len(),
                self.pairs().len() == self.entries@.len(),
                keys_distinct(self.pairs()),
                keys_distinct(other.pairs()),
                forall|j: int|
                    0 <= j < i ==> other@.contains_key(#[trigger] self.pairs()[j].0) && other@[self.pairs()[j].0]
                        == self.pairs()[j].1,
            decreases self.entries.len() - i,
        {
            assert(self.pairs()[i as int] == (self.entries@[i as int].0@, self.entries@[i as int].1));
            let e = &self.entries[i];
            match other.get(e.0.as_str()) {
                Some(v) => {
                    if *v != e.1 {
                        proof {
                            lemma_key_index(self.pairs(), i as int);
                        }
                        return false;
                    }
                },
                None => {
                    proof {
                        lemma_key_index(self.pairs(), i as int);
                    }
                    return false;
                },
            }
            i = i + 1;
        }
        let mut j: usize = 0;
        while j < other.entries.len()
            invariant
                j <= other.entries@.len(),
                other.pairs().len() == other.entries@.len(),
                keys_distinct(other.pairs()),
                forall|m: int| 0 <= m < j ==> self@.contains_key(#[trigger] other.pairs()[m].0),
            decreases other.entries.len() - j,
        {
            assert(other.pairs()[j as int] == (other.entries@[j as int].0@, other.entries@[j as int].1));
            let e = &other.entries[j];
            match self.get(e.0.as_str()) {
                Some(_) => {},
                None => {
                    proof {
                        lemma_key_index(other.pairs(), j as int);
                    }
                    return false;
                },
            }
            j = j + 1;
        }
        proof {
            assert forall|k: Seq<char>| #[trigger] self@.contains_key(k) implies other@.contains_key(k)
                && other@[k] == self@[k] by {
                let a = key_index(self.pairs(), k);
                lemma_key_index(self.pairs(), a);
            }
            assert forall|k: Seq<char>| #[trigger] other@.contains_key(k) implies self@.contains_key(k) by {
                let a = key_index(other.pairs(), k);
                lemma_key_index(other.pairs(), a);
            }
            assert(self@ =~= other@);
        }
        true
    }

    /// A copy of this map, entries in the same order.
    pub fn copy(&self) -> (m: Self)
        ensures
            m.pairs() == self.pairs(),
            m@ == self@,
    {
        proof {
            use_type_invariant(self);
        }
        let mut entries: Vec<(String, bool)> = Vec::new();
        let mut i: usize = 0;
        while i < self.entries.len()
            invariant
                i <= self.entries@.len(),
                entries@.len() == i,
                forall|j: int|
                    0 <= j < i ==> (#[trigger] entries@[j]).0@ == self.entries@[j].0@
                        && entries@[j].1 == self.entries@[j].1,
            decreases self.entries.len() - i,
        {
            let e = &self.entries[i];
            entries.push((e.0.clone(), e.1));
            i = i + 1;
        }
        assert(entries@.map_values(|e: (String, bool)| (e.0@, e.1)) =~= self.pairs());
        let m = StrMap { entries };
        m
    }
}

} // verus!
