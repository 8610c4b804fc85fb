//! A map from hash keys to values, kept as a vector sorted by key.
//!
//! Entries are visited in increasing key order, which is the order in which
//! listings of the protocol state are produced: the order of the stable
//! B-tree maps the canister saves the state in across upgrades.
//!
//! Those stable maps cannot be held here.  The verifier does not accept the
//! declaration of `ic_stable_structures::StableBTreeMap` or of its memory
//! type `VirtualMemory` (their `Storable` and `Memory` bounds are outside
//! traits), so a map hidden behind an opaque struct could not be handed the
//! canister's memory; and storing `BlobInfo` there would need a `Storable`
//! impl built on Candid's derive.  The canister writes this map into its
//! stable maps before an upgrade and reads it back after one.
use crate::keys::{
    compare_keys, key_lt, lemma_key_lt_asymmetric, lemma_key_lt_irreflexive, lemma_key_lt_transitive,
    HashKey, KeyOrder,
};
use vstd::prelude::*;

verus! {

/// Keys strictly increasing along the sequence.
pub open spec fn keys_sorted<V>(s: Seq<(Seq<char>, V)>) -> bool {
    forall|i: int, j: int| 0 <= i < j < s.len() ==> key_lt(#[trigger] s[i].0, #[trigger] s[j].0)
}

/// Whether some entry of the sequence carries the key.
pub open spec fn has_key<V>(s: Seq<(Seq<char>, V)>, k: Seq<char>) -> bool {
    exists|i: int| 0 <= i < s.len() && (#[trigger] s[i]).0 == k
}

/// The position of an entry that carries the key.
pub open spec fn position_of_key<V>(s: Seq<(Seq<char>, V)>, k: Seq<char>) -> int {
    choose|i: int| 0 <= i < s.len() && (#[trigger] s[i]).0 == k
}

/// The map that a sequence of entries describes.
pub open spec fn map_of<V>(s: Seq<(Seq<char>, V)>) -> Map<Seq<char>, V> {
    Map::new(|k: Seq<char>| has_key(s, k), |k: Seq<char>| s[position_of_key(s, k)].1)
}

/// The keys of a sequence of entries, in order.
pub open spec fn keys_of<V>(s: Seq<(Seq<char>, V)>) -> Seq<Seq<char>> {
    s.map_values(|e: (Seq<char>, V)| e.0)
}

/// In a sorted sequence, each entry is what the map holds for its key.
pub proof fn lemma_map_of_index<V>(s: Seq<(Seq<char>, V)>, i: int)
    requires
        keys_sorted(s),
        0 <= i < s.len(),
    ensures
        map_of(s).contains_key(s[i].0),
        map_of(s)[s[i].0] == s[i].1,
{
    assert(has_key(s, s[i].0));
    let j = position_of_key(s, s[i].0);
    if j < i {
        assert(key_lt(s[j].0, s[i].0));
        lemma_key_lt_irreflexive(s[i].0);
    } else if i < j {
        assert(key_lt(s[i].0, s[j].0));
        lemma_key_lt_irreflexive(s[i].0);
    }
}

/// Dropping the first entry of a sorted sequence drops its key from the map.
pub proof fn lemma_map_of_drop_first<V>(s: Seq<(Seq<char>, V)>)
    requires
        keys_sorted(s),
        s.len() > 0,
    ensures
        map_of(s.drop_first()) == map_of(s).remove(s[0].0),
{
    let d = s.drop_first();
    let m = map_of(s).remove(s[0].0);
    assert(keys_sorted(d)) by {
        assert forall|i: int, j: int| 0 <= i < j < d.len() implies key_lt(
            #[trigger] d[i].0,
            #[trigger] d[j].0,
        ) by {
            assert(d[i] == s[i + 1] && d[j] == s[j + 1]);
        }
    }
    assert forall|x: Seq<char>| #[trigger] map_of(d).contains_key(x) <==> m.contains_key(x) by {
        if has_key(d, x) {
            let j = position_of_key(d, x);
            assert(d[j] == s[j + 1]);
            assert(key_lt(s[0].0, s[j + 1].0));
            lemma_key_lt_irreflexive(x);
            assert(has_key(s, x));
        }
        if has_key(s, x) && x != s[0].0 {
            let j = position_of_key(s, x);
            assert(j != 0);
            assert(d[j - 1] == s[j]);
            assert(has_key(d, x));
        }
    }
    assert forall|x: Seq<char>| map_of(d).contains_key(x) implies #[trigger] map_of(d)[x] == m[x] by {
        let j = position_of_key(d, x);
        lemma_map_of_index(d, j);
        assert(d[j] == s[j + 1]);
        lemma_map_of_index(s, j + 1);
    }
    assert(map_of(d) =~= m);
}

/// Two sorted sequences that describe the same map are the same sequence.
pub proof fn lemma_sorted_entries_determined<V>(s: Seq<(Seq<char>, V)>, t: Seq<(Seq<char>, V)>)
    requires
        keys_sorted(s),
        keys_sorted(t),
        map_of(s) == map_of(t),
    ensures
        s == t,
    decreases s.len(),
{
    if s.len() == 0 || t.len() == 0 {
        if t.len() > 0 {
            lemma_map_of_index(t, 0);
            assert(map_of(s).contains_key(t[0].0));
        }
        if s.len() > 0 {
            lemma_map_of_index(s, 0);
            assert(map_of(t).contains_key(s[0].0));
        }
        assert(s =~= t);
    } else {
        let a = s[0].0;
        let b = t[0].0;
        lemma_map_of_index(s, 0);
        lemma_map_of_index(t, 0);
        if a != b {
            assert(map_of(t).contains_key(a));
            let j = position_of_key(t, a);
            assert(j != 0);
            assert(key_lt(t[0].0, t[j].0));
            assert(map_of(s).contains_key(b));
            let i = position_of_key(s, b);
            assert(i != 0);
            assert(key_lt(s[0].0, s[i].0));
            lemma_key_lt_asymmetric(a, b);
        }
        assert(s[0] == t[0]);
        lemma_map_of_drop_first(s);
        lemma_map_of_drop_first(t);
        assert(keys_sorted(s.drop_first())) by {
            assert forall|i: int, j: int| 0 <= i < j < s.drop_first().len() implies key_lt(
                #[trigger] s.drop_first()[i].0,
                #[trigger] s.drop_first()[j].0,
            ) by {
                assert(s.drop_first()[i] == s[i + 1] && s.drop_first()[j] == s[j + 1]);
            }
        }
        assert(keys_sorted(t.drop_first())) by {
            assert forall|i: int, j: int| 0 <= i < j < t.drop_first().len() implies key_lt(
                #[trigger] t.drop_first()[i].0,
                #[trigger] t.drop_first()[j].0,
            ) by {
                assert(t.drop_first()[i] == t[i + 1] && t.drop_first()[j] == t[j + 1]);
            }
        }
        lemma_sorted_entries_determined(s.drop_first(), t.drop_first());
        assert(s =~= seq![s[0]] + s.drop_first());
        assert(t =~= seq![t[0]] + t.drop_first());
    }
}

/// A map from hash keys to values, sorted by key.
pub struct KeyedMap<V> {
    entries: Vec<(HashKey, V)>,
}

impl<V> KeyedMap<V> {
    /// The entries, keys taken as character sequences, in stored order.
    pub closed spec fn entries(&self) -> Seq<(Seq<char>, V)> {
        self.entries@.map_values(|e: (HashKey, V)| (e.0@, e.1))
    }

    /// Well-formedness: keys strictly increasing.
    pub open spec fn wf(&self) -> bool {
        keys_sorted(self.entries())
    }

    pub open spec fn spec_len(&self) -> nat {
        self.entries().len()
    }

    /// An empty map.
    pub fn new() -> (r: Self)
        ensures
            r.wf(),
            r.entries() == Seq::<(Seq<char>, V)>::empty(),
            r@ == Map::<Seq<char>, V>::empty(),
    {
        let r = KeyedMap { entries: Vec::new() };
        assert(r.entries() =~= Seq::<(Seq<char>, V)>::empty());
        assert(r@ =~= Map::<Seq<char>, V>::empty());
        r
    }

    /// Number of entries.
    pub fn len(&self) -> (r: usize)
        ensures
            r == self.entries().len(),
    {
        self.entries.len()
    }

    /// The key of the entry at position `i`.
    pub fn key_at(&self, i: usize) -> (r: &HashKey)
        requires
            i < self.entries().len(),
        ensures
            r@ == self.entries()[i as int].0,
    {
        &self.entries[i].0
    }

    /// The value of the entry at position `i`.
    pub fn value_at(&self, i: usize) -> (r: &V)
        requires
            i < self.entries().len(),
        ensures
            *r == self.entries()[i as int].1,
    {
        &self.entries[i].1
    }

    /// Binary search: `Ok(i)` if entry `i` carries the key, else `Err(i)`
    /// with `i` the position where the key would go.
    pub fn search(&self, key: &str) -> (r: Result<usize, usize>)
        requires
            self.wf(),
        ensures
            match r {
                Ok(i) => i < self.entries().len() && self.entries()[i as int].0 == key@,
                Err(i) => {
                    &&& i <= self.entries().len()
                    &&& forall|j: int| 0 <= j < i ==> key_lt(#[trigger] self.entries()[j].0, key@)
                    &&& forall|j: int|
                        i <= j < self.entries().len() ==> key_lt(
                            key@,
                            #[trigger] self.entries()[j].0,
                        )
                },
            },
    {
        let ghost s = self.entries();
        let mut lo: usize = 0;
        let mut hi: usize = self.entries.len();
        while lo < hi
            invariant
                s == self.entries(),
                keys_sorted(s),
                lo <= hi <= s.len(),
                hi == s.len() ==> hi == self.entries@.len(),
                s.len() == self.entries@.len(),
                forall|j: int| 0 <= j < lo ==> key_lt(#[trigger] s[j].0, key@),
                forall|j: int| hi <= j < s.len() ==> key_lt(key@, #[trigger] s[j].0),
            decreases hi - lo,
        {
            let mid = lo + (hi - lo) / 2;
            let c = compare_keys(self.entries[mid].0.as_str(), key);
            assert(s[mid as int].0 == self.entries@[mid as int].0@);
            match c {
                KeyOrder::Less => {
                    assert forall|j: int| 0 <= j < mid + 1 implies key_lt(#[trigger] s[j].0, key@) by {
                        if j < mid {
                            lemma_key_lt_transitive(s[j].0, s[mid as int].0, key@);
                        }
                    }
                    lo = mid + 1;
                },
                KeyOrder::Greater => {
                    assert forall|j: int| mid <= j < s.len() implies key_lt(key@, #[trigger] s[j].0) by {
                        if mid < j {
                            lemma_key_lt_transitive(key@, s[mid as int].0, s[j].0);
                        }
                    }
                    hi = mid;
                },
                KeyOrder::Equal => {
                    return Ok(mid);
                },
            }
        }
        Err(lo)
    }

    /// Whether the map holds the key.
    pub fn contains_key(&self, key: &str) -> (r: bool)
        requires
            self.wf(),
        ensures
            r == self@.contains_key(key@),
    {
        match self.search(key) {
            Ok(i) => {
                proof {
                    lemma_map_of_index(self.entries(), i as int);
                }
                true
            },
            Err(i) => {
                proof {
                    self.lemma_absent(key@, i as int);
                }
                false
            },
        }
    }

    /// The value held for the key, if any.
    pub fn get(&self, key: &str) -> (r: Option<&V>)
        requires
            self.wf(),
        ensures
            match r {
                Some(v) => self@.contains_key(key@) && self@[key@] == *v,
                None => !self@.contains_key(key@),
            },
    {
        match self.search(key) {
            Ok(i) => {
                proof {
                    lemma_map_of_index(self.entries(), i as int);
                }
                Some(&self.entries[i].1)
            },
            Err(i) => {
                proof {
                    self.lemma_absent(key@, i as int);
                }
                None
            },
        }
    }

    proof fn lemma_absent(&self, k: Seq<char>, i: int)
        requires
            self.wf(),
            0 <= i <= self.entries().len(),
            forall|j: int| 0 <= j < i ==> key_lt(#[trigger] self.entries()[j].0, k),
            forall|j: int| i <= j < self.entries().len() ==> key_lt(k, #[trigger] self.entries()[j].0),
        ensures
            !self@.contains_key(k),
    {
        if has_key(self.entries(), k) {
            let j = position_of_key(self.entries(), k);
            lemma_key_lt_irreflexive(k);
        }
    }

    /// Records `value` under `key`, replacing what was held for it.
    pub fn insert(&mut self, key: HashKey, value: V)
        requires
            old(self).wf(),
        ensures
            final(self).wf(),
            final(self)@ == old(self)@.insert(key@, value),
    {
        let ghost s = self.entries();
        let ghost k = key@;
        match self.search(key.as_str()) {
            Ok(i) => {
                self.entries.set(i, (key, value));
                proof {
                    let t = self.entries();
                    assert(t =~= s.update(i as int, (k, value)));
                    assert forall|a: int, b: int| 0 <= a < b < t.len() implies key_lt(
                        #[trigger] t[a].0,
                        #[trigger] t[b].0,
                    ) by {
                        assert(t[a].0 == s[a].0);
                        assert(t[b].0 == s[b].0);
                    }
                    self.lemma_map_after_update(s, i as int, k, value);
                }
            },
            Err(i) => {
                self.entries.insert(i, (key, value));
                proof {
                    let t = self.entries();
                    assert(t =~= s.insert(i as int, (k, value)));
                    assert forall|a: int, b: int| 0 <= a < b < t.len() implies key_lt(
                        #[trigger] t[a].0,
                        #[trigger] t[b].0,
                    ) by {
                        if b < i {
                            assert(t[a] == s[a] && t[b] == s[b]);
                        } else if b == i {
                            assert(t[a] == s[a]);
                        } else if a < i {
                            assert(t[a] == s[a] && t[b] == s[b - 1]);
                            lemma_key_lt_transitive(s[a].0, k, s[b - 1].0);
                        } else if a == i {
                            assert(t[b] == s[b - 1]);
                        } else {
                            assert(t[a] == s[a - 1] && t[b] == s[b - 1]);
                        }
                    }
                    self.lemma_map_after_insert(s, i as int, k, value);
                }
            },
        }
    }

    proof fn lemma_map_after_update(&self, s: Seq<(Seq<char>, V)>, i: int, k: Seq<char>, value: V)
        requires
            keys_sorted(s),
            0 <= i < s.len(),
            s[i].0 == k,
            self.entries() == s.update(i, (k, value)),
            self.wf(),
        ensures
            self@ == map_of(s).insert(k, value),
    {
        let t = self.entries();
        let m = map_of(s).insert(k, value);
        lemma_map_of_index(s, i);
        assert forall|x: Seq<char>| #[trigger] self@.contains_key(x) <==> m.contains_key(x) by {
            if has_key(t, x) {
                let j = position_of_key(t, x);
                assert(s[j].0 == x);
                assert(has_key(s, x));
            }
            if has_key(s, x) {
                let j = position_of_key(s, x);
                assert(t[j].0 == x);
                assert(has_key(t, x));
            }
        }
        assert forall|x: Seq<char>| self@.contains_key(x) implies #[trigger] self@[x] == m[x] by {
            assert(has_key(t, x));
            let j = position_of_key(t, x);
            assert(t[j].0 == x);
            lemma_map_of_index(t, j);
            if j != i {
                assert(t[j] == s[j]);
                lemma_map_of_index(s, j);
                if j < i {
                    assert(key_lt(s[j].0, s[i].0));
                } else {
                    assert(key_lt(s[i].0, s[j].0));
                }
                lemma_key_lt_irreflexive(k);
                assert(x != k);
            } else {
                assert(t[i] == (k, value));
            }
        }
        assert(self@ =~= m);
    }

    proof fn lemma_map_after_insert(&self, s: Seq<(Seq<char>, V)>, i: int, k: Seq<char>, value: V)
        requires
            keys_sorted(s),
            0 <= i <= s.len(),
            self.entries() == s.insert(i, (k, value)),
            self.wf(),
        ensures
            self@ == map_of(s).insert(k, value),
    {
        let t = self.entries();
        let m = map_of(s).insert(k, value);
        assert forall|x: Seq<char>| #[trigger] self@.contains_key(x) <==> m.contains_key(x) by {
            if has_key(t, x) {
                let j = position_of_key(t, x);
                if j < i {
                    assert(t[j] == s[j]);
                    assert(has_key(s, x));
                } else if j > i {
                    assert(t[j] == s[j - 1]);
                    assert(has_key(s, x));
                }
            }
            if has_key(s, x) {
                let j = position_of_key(s, x);
                if j < i {
                    assert(t[j] == s[j]);
                } else {
                    assert(t[j + 1] == s[j]);
                }
                assert(has_key(t, x));
            }
            if x == k {
                assert(t[i].0 == k);
                assert(has_key(t, x));
            }
        }
        assert forall|x: Seq<char>| self@.contains_key(x) implies #[trigger] self@[x] == m[x] by {
            assert(has_key(t, x));
            let j = position_of_key(t, x);
            assert(t[j].0 == x);
            lemma_map_of_index(t, j);
            assert(self@[x] == t[j].1);
            if j < i {
                assert(t[j] == s[j]);
                lemma_map_of_index(s, j);
                assert(t[i].0 == k);
                assert(key_lt(t[j].0, t[i].0));
                lemma_key_lt_irreflexive(k);
                assert(x != k);
                assert(m[x] == map_of(s)[x]);
                assert(self@[x] == m[x]);
            } else if j > i {
                assert(t[j] == s[j - 1]);
                lemma_map_of_index(s, j - 1);
                assert(t[i].0 == k);
                assert(key_lt(t[i].0, t[j].0));
                lemma_key_lt_irreflexive(k);
                assert(x != k);
                assert(m[x] == map_of(s)[x]);
                assert(self@[x] == m[x]);
            } else {
                assert(t[i] == (k, value));
                assert(x == k);
                assert(m[x] == value);
                assert(self@[x] == m[x]);
            }
        }
        assert(self@ =~= m);
    }

    /// Drops the key and what is held for it; returns that value.
    pub fn remove(&mut self, key: &str) -> (r: Option<V>)
        requires
            old(self).wf(),
        ensures
            final(self).wf(),
            final(self)@ == old(self)@.remove(key@),
            match r {
                Some(v) => old(self)@.contains_key(key@) && old(self)@[key@] == v,
                None => !old(self)@.contains_key(key@),
            },
    {
        let ghost s = self.entries();
        match self.search(key) {
            Ok(i) => {
                proof {
                    lemma_map_of_index(s, i as int);
                }
                let e = self.entries.remove(i);
                proof {
                    let t = self.entries();
                    assert(t =~= s.remove(i as int));
                    assert forall|a: int, b: int| 0 <= a < b < t.len() implies key_lt(
                        #[trigger] t[a].0,
                        #[trigger] t[b].0,
                    ) by {
                        if b < i {
                            assert(t[a] == s[a] && t[b] == s[b]);
                        } else if a < i {
                            assert(t[a] == s[a] && t[b] == s[b + 1]);
                        } else {
                            assert(t[a] == s[a + 1] && t[b] == s[b + 1]);
                        }
                    }
                    self.lemma_map_after_remove(s, i as int);
                }
                Some(e.1)
            },
            Err(i) => {
                proof {
                    self.lemma_absent(key@, i as int);
                    assert(self@ =~= self@.remove(key@));
                }
                None
            },
        }
    }

    proof fn lemma_map_after_remove(&self, s: Seq<(Seq<char>, V)>, i: int)
        requires
            keys_sorted(s),
            0 <= i < s.len(),
            self.entries() == s.remove(i),
            self.wf(),
        ensures
            self@ == map_of(s).remove(s[i].0),
    {
        let t = self.entries();
        let k = s[i].0;
        let m = map_of(s).remove(k);
        assert forall|x: Seq<char>| #[trigger] self@.contains_key(x) <==> m.contains_key(x) by {
            if has_key(t, x) {
                let j = position_of_key(t, x);
                if j < i {
                    assert(t[j] == s[j]);
                    assert(key_lt(s[j].0, s[i].0));
                } else {
                    assert(t[j] == s[j + 1]);
                    assert(key_lt(s[i].0, s[j + 1].0));
                }
                lemma_key_lt_irreflexive(x);
            }
            if has_key(s, x) && x != k {
                let j = position_of_key(s, x);
                if j < i {
                    assert(t[j] == s[j]);
                } else {
                    assert(j != i);
                    assert(t[j - 1] == s[j]);
                }
                assert(has_key(t, x));
            }
        }
        assert forall|x: Seq<char>| self@.contains_key(x) implies #[trigger] self@[x] == m[x] by {
            let j = position_of_key(t, x);
            lemma_map_of_index(t, j);
            if j < i {
                assert(t[j] == s[j]);
                lemma_map_of_index(s, j);
            } else {
                assert(t[j] == s[j + 1]);
                lemma_map_of_index(s, j + 1);
            }
        }
        assert(self@ =~= m);
    }

    /// The map is the one the entries describe.
    pub proof fn lemma_view_is_map_of_entries(&self)
        ensures
            self@ == map_of(self.entries()),
    {
    }

    /// The entries are sorted, and each is what the map holds for its key;
    /// the map holds no other key.
    pub proof fn lemma_entries_view(&self)
        requires
            self.wf(),
        ensures
            keys_sorted(self.entries()),
            forall|k: Seq<char>| #[trigger]
                self@.contains_key(k) <==> keys_of(self.entries()).contains(k),
            forall|i: int|
                0 <= i < self.entries().len() ==> #[trigger] self@[self.entries()[i].0]
                    == self.entries()[i].1,
    {
        let s = self.entries();
        assert forall|k: Seq<char>| #[trigger]
            self@.contains_key(k) <==> keys_of(s).contains(k) by {
            if has_key(s, k) {
                let j = position_of_key(s, k);
                assert(keys_of(s)[j] == k);
            }
            if keys_of(s).contains(k) {
                let j = choose|j: int| 0 <= j < keys_of(s).len() && keys_of(s)[j] == k;
                assert(s[j].0 == k);
            }
        }
        assert forall|i: int| 0 <= i < s.len() implies #[trigger] self@[s[i].0] == s[i].1 by {
            lemma_map_of_index(s, i);
        }
    }
}

impl<V> View for KeyedMap<V> {
    type V = Map<Seq<char>, V>;

    closed spec fn view(&self) -> Map<Seq<char>, V> {
        map_of(self.entries())
    }
}

} // verus!
