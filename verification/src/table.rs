//! A small map kept as a vector of entries with distinct keys: the shape
//! of the agent's read cache and of its writes awaiting approval.

use vstd::prelude::*;
use crate::text::str_eq;

verus! {

/// A key that can be compared by what it holds.
pub trait TableKey: Sized {
    type KeyView;

    spec fn key_view(&self) -> Self::KeyView;

    fn same_key(&self, other: &Self) -> (r: bool)
        ensures
            r == (self.key_view() == other.key_view()),
    ;
}

impl TableKey for String {
    type KeyView = Seq<char>;

    open spec fn key_view(&self) -> Seq<char> {
        self@
    }

    fn same_key(&self, other: &Self) -> (r: bool) {
        str_eq(self.as_str(), other.as_str())
    }
}

impl TableKey for (String, String) {
    type KeyView = (Seq<char>, Seq<char>);

    open spec fn key_view(&self) -> (Seq<char>, Seq<char>) {
        (self.0@, self.1@)
    }

    fn same_key(&self, other: &Self) -> (r: bool) {
        str_eq(self.0.as_str(), other.0.as_str()) && str_eq(self.1.as_str(), other.1.as_str())
    }
}

impl TableKey for (String, Option<String>) {
    type KeyView = (Seq<char>, Option<Seq<char>>);

    open spec fn key_view(&self) -> (Seq<char>, Option<Seq<char>>) {
        (
            self.0@,
            match self.1 {
                Some(s) => Some(s@),
                None => None,
            },
        )
    }

    fn same_key(&self, other: &Self) -> (r: bool) {
        if !str_eq(self.0.as_str(), other.0.as_str()) {
            return false;
        }
        match (&self.1, &other.1) {
            (Some(a), Some(b)) => str_eq(a.as_str(), b.as_str()),
            (None, None) => true,
            _ => false,
        }
    }
}

/// Entries with pairwise distinct keys.
pub struct Table<K: TableKey, V> {
    entries: Vec<(K, V)>,
}

/// The map that entries with distinct keys describe.
pub open spec fn entries_map<K: TableKey, V>(es: Seq<(K, V)>) -> Map<K::KeyView, V> {
    Map::new(
        |k: K::KeyView| exists|i: int| 0 <= i < es.len() && es[i].0.key_view() == k,
        |k: K::KeyView| es[choose|i: int| 0 <= i < es.len() && es[i].0.key_view() == k].1,
    )
}

pub open spec fn keys_distinct<K: TableKey, V>(es: Seq<(K, V)>) -> bool {
    forall|a: int, b: int| 0 <= a < b < es.len() ==> es[a].0.key_view() != es[b].0.key_view()
}

proof fn lemma_entry_in_map<K: TableKey, V>(es: Seq<(K, V)>, i: int)
    requires
        keys_distinct(es),
        0 <= i < es.len(),
    ensures
        entries_map(es).contains_key(es[i].0.key_view()),
        entries_map(es)[es[i].0.key_view()] == es[i].1,
{
    let k = es[i].0.key_view();
    assert(entries_map(es).contains_key(k));
    let c = choose|j: int| 0 <= j < es.len() && es[j].0.key_view() == k;
    assert(c == i);
}

impl<K: TableKey, V> Table<K, V> {
    #[verifier::type_invariant]
    spec fn distinct(self) -> bool {
        keys_distinct(self.entries@)
    }

    /// The entries by key.
    pub closed spec fn view(self) -> Map<K::KeyView, V> {
        entries_map(self.entries@)
    }

    /// An empty table.
    pub fn new() -> (t: Table<K, V>)
        ensures
            t.view() == Map::<K::KeyView, V>::empty(),
    {
        let t = Table { entries: Vec::new() };
        assert(t.view() =~= Map::<K::KeyView, V>::empty());
        t
    }

    fn find(entries: &Vec<(K, V)>, key: &K) -> (r: Option<usize>)
        ensures
            match r {
                Some(i) => i < entries@.len() && entries@[i as int].0.key_view() == key.key_view(),
                None => forall|i: int|
                    0 <= i < entries@.len() ==> entries@[i].0.key_view() != key.key_view(),
            },
    {
        let mut i: usize = 0;
        while i < entries.len()
            invariant
                i <= entries@.len(),
                forall|j: int| 0 <= j < i ==> entries@[j].0.key_view() != key.key_view(),
            decreases entries@.len() - i,
        {
            if entries[i].0.same_key(key) {
                return Some(i);
            }
            i = i + 1;
        }
        None
    }

    /// The value stored under a key.
    pub fn get(&self, key: &K) -> (r: Option<&V>)
        ensures
            match r {
                Some(v) => self.view().contains_key(key.key_view()) && self.view()[key.key_view()]
                    == *v,
                None => !self.view().contains_key(key.key_view()),
            },
    {
        proof {
            use_type_invariant(self);
        }
        match Self::find(&self.entries, key) {
            Some(i) => {
                proof {
                    lemma_entry_in_map(self.entries@, i as int);
                }
                Some(&self.entries[i].1)
            },
            None => None,
        }
    }

    /// Whether a key has a value.
    pub fn contains_key(&self, key: &K) -> (b: bool)
        ensures
            b == self.view().contains_key(key.key_view()),
    {
        match self.get(key) {
            Some(_) => true,
            None => false,
        }
    }

    /// Stores a value under a key, replacing the one stored there.
    pub fn insert(&mut self, key: K, value: V)
        ensures
            final(self).view() == old(self).view().insert(key.key_view(), value),
    {
        proof {
            use_type_invariant(&*self);
        }
        let ghost kv = key.key_view();
        let ghost old_es = self.entries@;
        let mut entries: Vec<(K, V)> = Vec::new();
        std::mem::swap(&mut entries, &mut self.entries);
        let pos = Self::find(&entries, &key);
        let ghost idx: int = match pos {
            Some(i) => i as int,
            None => old_es.len() as int,
        };
        match pos {
            Some(i) => {
                entries.set(i, (key, value));
            },
            None => {
                entries.push((key, value));
            },
        }
        let ghost ne = entries@;
        proof {
            assert(ne[idx].0.key_view() == kv && ne[idx].1 == value);
            assert(forall|j: int| 0 <= j < ne.len() && j != idx ==> ne[j] == old_es[j]);
            assert(ne.len() == if pos is Some {
                old_es.len()
            } else {
                old_es.len() + 1
            });
            assert forall|a: int, b: int| 0 <= a < b < ne.len() implies ne[a].0.key_view()
                != ne[b].0.key_view() by {
                if a != idx && b != idx {
                    assert(ne[a] == old_es[a] && ne[b] == old_es[b]);
                } else if a == idx {
                    assert(ne[b] == old_es[b]);
                } else {
                    assert(ne[a] == old_es[a]);
                }
            }
            let m = entries_map(ne);
            let o = entries_map(old_es).insert(kv, value);
            assert forall|k: K::KeyView| #[trigger] m.contains_key(k) == o.contains_key(k) by {
                if k != kv {
                    if entries_map(old_es).contains_key(k) {
                        let j = choose|j: int| 0 <= j < old_es.len() && old_es[j].0.key_view() == k;
                        assert(j != idx);
                        assert(ne[j] == old_es[j]);
                    }
                    if m.contains_key(k) {
                        let j = choose|j: int| 0 <= j < ne.len() && ne[j].0.key_view() == k;
                        assert(j != idx);
                        assert(ne[j] == old_es[j]);
                    }
                }
            }
            assert forall|k: K::KeyView| m.contains_key(k) implies #[trigger] m[k] == o[k] by {
                let j = choose|j: int| 0 <= j < ne.len() && ne[j].0.key_view() == k;
                lemma_entry_in_map(ne, j);
                if k != kv {
                    assert(j != idx);
                    assert(ne[j] == old_es[j]);
                    lemma_entry_in_map(old_es, j);
                }
            }
            assert(m =~= o);
        }
        self.entries = entries;
    }

    /// Takes out the value stored under a key.
    pub fn remove(&mut self, key: &K) -> (r: Option<V>)
        ensures
            final(self).view() == old(self).view().remove(key.key_view()),
            match r {
                Some(v) => old(self).view().contains_key(key.key_view()) && old(self).view()[key.key_view()]
                    == v,
                None => !old(self).view().contains_key(key.key_view()),
            },
    {
        proof {
            use_type_invariant(&*self);
        }
        let ghost kv = key.key_view();
        let ghost old_es = self.entries@;
        let mut entries: Vec<(K, V)> = Vec::new();
        std::mem::swap(&mut entries, &mut self.entries);
        let pos = Self::find(&entries, key);
        match pos {
            Some(i) => {
                proof {
                    lemma_entry_in_map(old_es, i as int);
                }
                let (_, v) = entries.remove(i);
                let ghost ne = entries@;
                proof {
                    assert(forall|j: int| 0 <= j < i ==> ne[j] == old_es[j]);
                    assert(forall|j: int| i <= j < ne.len() ==> ne[j] == old_es[j + 1]);
                    assert forall|a: int, b: int| 0 <= a < b < ne.len() implies ne[a].0.key_view()
                        != ne[b].0.key_view() by {
                        let oa = if a < i {
                            a
                        } else {
                            a + 1
                        };
                        let ob = if b < i {
                            b
                        } else {
                            b + 1
                        };
                        assert(ne[a] == old_es[oa] && ne[b] == old_es[ob]);
                    }
                    let m = entries_map(ne);
                    let o = entries_map(old_es).remove(kv);
                    assert forall|k: K::KeyView| #[trigger] m.contains_key(k) == o.contains_key(k) by {
                        if m.contains_key(k) {
                            let j = choose|j: int| 0 <= j < ne.len() && ne[j].0.key_view() == k;
                            let oj = if j < i {
                                j
                            } else {
                                j + 1
                            };
                            assert(ne[j] == old_es[oj]);
                            assert(oj != i as int);
                        }
                        if o.contains_key(k) {
                            let j = choose|j: int|
                                0 <= j < old_es.len() && old_es[j].0.key_view() == k;
                            assert(j != i as int);
                            if j < i {
                                assert(ne[j] == old_es[j]);
                            } else {
                                assert(ne[j - 1] == old_es[j]);
                            }
                        }
                    }
                    assert forall|k: K::KeyView| m.contains_key(k) implies #[trigger] m[k] == o[k] by {
                        let j = choose|j: int| 0 <= j < ne.len() && ne[j].0.key_view() == k;
                        let oj = if j < i {
                            j
                        } else {
                            j + 1
                        };
                        assert(ne[j] == old_es[oj]);
                        lemma_entry_in_map(ne, j);
                        lemma_entry_in_map(old_es, oj);
                    }
                    assert(m =~= o);
                }
                self.entries = entries;
                Some(v)
            },
            None => {
                proof {
                    assert(entries_map(old_es).remove(kv) =~= entries_map(old_es));
                }
                self.entries = entries;
                None
            },
        }
    }
}

/// What a table gives back for a key right after a value was stored
/// under it is that value, and every other key keeps its value.
pub proof fn lemma_get_after_insert<K: TableKey, V>(
    before: Map<K::KeyView, V>,
    after: Map<K::KeyView, V>,
    key: K::KeyView,
    value: V,
    other: K::KeyView,
)
    requires
        after == before.insert(key, value),
    ensures
        after.contains_key(key) && after[key] == value,
        other != key ==> (after.contains_key(other) == before.contains_key(other)),
        other != key && before.contains_key(other) ==> after[other] == before[other],
{
}

/// Taking out a key right after a value was stored under it gives that
/// value back and leaves the table as it was without the key.
pub proof fn lemma_remove_after_insert<K: TableKey, V>(
    before: Map<K::KeyView, V>,
    stored: Map<K::KeyView, V>,
    after: Map<K::KeyView, V>,
    key: K::KeyView,
    value: V,
)
    requires
        stored == before.insert(key, value),
        after == stored.remove(key),
    ensures
        stored.contains_key(key) && stored[key] == value,
        after == before.remove(key),
{
    assert(after =~= before.remove(key));
}

} // verus!
