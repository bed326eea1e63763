//! A map from strings to values that remembers the order in which keys
//! were first inserted. Lookups go through a hash index; iteration follows
//! insertion order.
use vstd::hash_map::StringHashMap;
use vstd::prelude::*;

verus! {

/// The entries of a map: key and value, in insertion order.
pub type Entries<V> = Seq<(Seq<char>, V)>;

/// No key occurs twice.
pub open spec fn keys_distinct<V>(s: Entries<V>) -> bool {
    forall|i: int, j: int| 0 <= i < s.len() && 0 <= j < s.len() && i != j ==> s[i].0 != s[j].0
}

/// The position of the last entry with key `k`, or -1.
pub open spec fn key_index<V>(s: Entries<V>, k: Seq<char>) -> int
    decreases s.len(),
{
    if s.len() == 0 {
        -1
    } else if s.last().0 == k {
        s.len() - 1
    } else {
        key_index(s.drop_last(), k)
    }
}

/// The value stored under `k`.
pub open spec fn map_get<V>(s: Entries<V>, k: Seq<char>) -> Option<V> {
    let i = key_index(s, k);
    if i >= 0 {
        Some(s[i].1)
    } else {
        None
    }
}

/// The entries after storing `v` under `k`: an existing entry keeps its
/// place and takes the new value, a new key is appended.
pub open spec fn map_insert<V>(s: Entries<V>, k: Seq<char>, v: V) -> Entries<V> {
    let i = key_index(s, k);
    if i >= 0 {
        s.update(i, (k, v))
    } else {
        s.push((k, v))
    }
}

/// The set of keys.
pub open spec fn key_set<V>(s: Entries<V>) -> Set<Seq<char>> {
    Set::new(|k: Seq<char>| key_index(s, k) >= 0)
}

/// `key_index` finds the last entry with the key, or reports that none has it.
pub proof fn lemma_key_index<V>(s: Entries<V>, k: Seq<char>)
    ensures
        -1 <= key_index(s, k) < s.len(),
        key_index(s, k) >= 0 ==> s[key_index(s, k)].0 == k,
        key_index(s, k) == -1 <==> (forall|i: int| 0 <= i < s.len() ==> s[i].0 != k),
        forall|i: int| key_index(s, k) < i < s.len() ==> s[i].0 != k,
    decreases s.len(),
{
    if s.len() > 0 && s.last().0 != k {
        lemma_key_index(s.drop_last(), k);
        assert forall|i: int| key_index(s, k) < i < s.len() implies s[i].0 != k by {
            if i < s.len() - 1 {
                assert(s[i] == s.drop_last()[i]);
            }
        }
        if key_index(s, k) == -1 {
            assert forall|i: int| 0 <= i < s.len() implies s[i].0 != k by {
                if i < s.len() - 1 {
                    assert(s[i] == s.drop_last()[i]);
                }
            }
        }
    }
}

/// With distinct keys, an entry's key leads back to that entry.
pub proof fn lemma_key_index_of_entry<V>(s: Entries<V>, i: int)
    requires
        keys_distinct(s),
        0 <= i < s.len(),
    ensures
        key_index(s, s[i].0) == i,
{
    lemma_key_index(s, s[i].0);
}

/// Storing a value keeps keys distinct; a read of the key gives back the
/// value written, reads of other keys are unchanged, and the key joins the
/// key set.
pub proof fn lemma_map_insert<V>(s: Entries<V>, k: Seq<char>, v: V)
    requires
        keys_distinct(s),
    ensures
        keys_distinct(map_insert(s, k, v)),
        map_get(map_insert(s, k, v), k) == Some(v),
        forall|k2: Seq<char>| k2 != k ==> map_get(map_insert(s, k, v), k2) == map_get(s, k2),
        key_set(map_insert(s, k, v)) == key_set(s).insert(k),
{
    let t = map_insert(s, k, v);
    lemma_key_index(s, k);
    assert(keys_distinct(t));
    lemma_key_index(t, k);
    if key_index(s, k) >= 0 {
        lemma_key_index_of_entry(t, key_index(s, k));
    } else {
        lemma_key_index_of_entry(t, s.len() as int);
    }
    assert forall|k2: Seq<char>| k2 != k implies map_get(t, k2) == map_get(s, k2) by {
        lemma_key_index(s, k2);
        lemma_key_index(t, k2);
        if key_index(s, k2) >= 0 {
            lemma_key_index_of_entry(t, key_index(s, k2));
        }
    }
    assert forall|k2: Seq<char>| key_set(t).contains(k2) == key_set(s).insert(k).contains(k2) by {
        if k2 != k {
            assert(map_get(t, k2) == map_get(s, k2));
        } else {
            assert(map_get(t, k) == Some(v));
        }
    }
    assert(key_set(t) =~= key_set(s).insert(k));
}

/// A string-keyed map that iterates in insertion order.
pub struct StrMap<V> {
    entries: Vec<(String, V)>,
    index: StringHashMap<usize>,
}

impl<V> View for StrMap<V> {
    type V = Entries<V>;

    closed spec fn view(&self) -> Entries<V> {
        self.entries@.map_values(|e: (String, V)| (e.0@, e.1))
    }
}

impl<V> StrMap<V> {
    /// The map is consistent: keys are distinct and the hash index points
    /// at the entry of each key.
    pub closed spec fn wf(&self) -> bool {
        &&& keys_distinct(self@)
        &&& self.index@.dom() == key_set(self@)
        &&& forall|k: Seq<char>| #[trigger]
            self.index@.contains_key(k) ==> self.index@[k] as int == key_index(self@, k)
    }

    /// A consistent map has distinct keys.
    pub proof fn lemma_wf(&self)
        requires
            self.wf(),
        ensures
            keys_distinct(self@),
    {
    }

    /// An empty map.
    pub fn new() -> (m: Self)
        ensures
            m.wf(),
            m@ == Seq::<(Seq<char>, V)>::empty(),
    {
        let m = StrMap { entries: Vec::new(), index: StringHashMap::new() };
        assert(m@ =~= Seq::<(Seq<char>, V)>::empty());
        assert(m.index@.dom() =~= key_set(m@));
        m
    }

    /// The number of entries.
    pub fn len(&self) -> (n: usize)
        ensures
            n == self@.len(),
    {
        self.entries.len()
    }

    /// The key of the `i`-th entry.
    pub fn key_at(&self, i: usize) -> (k: &String)
        requires
            i < self@.len(),
        ensures
            k@ == self@[i as int].0,
    {
        &self.entries[i].0
    }

    /// The value of the `i`-th entry.
    pub fn value_at(&self, i: usize) -> (v: &V)
        requires
            i < self@.len(),
        ensures
            *v == self@[i as int].1,
    {
        &self.entries[i].1
    }

    /// The value stored under `k`, if any.
    pub fn get(&self, k: &str) -> (r: Option<&V>)
        requires
            self.wf(),
        ensures
            match r {
                Some(v) => map_get(self@, k@) == Some(*v),
                None => map_get(self@, k@) is None,
            },
    {
        proof {
            lemma_key_index(self@, k@);
        }
        match self.index.get(k) {
            Some(i) => Some(&self.entries[*i].1),
            None => None,
        }
    }

    /// Whether `k` has an entry.
    pub fn contains_key(&self, k: &str) -> (b: bool)
        requires
            self.wf(),
        ensures
            b == (map_get(self@, k@) is Some),
    {
        self.index.contains_key(k)
    }

    /// Stores `v` under `k`; returns whether `k` was new.
    pub fn insert(&mut self, k: String, v: V) -> (was_new: bool)
        requires
            old(self).wf(),
        ensures
            final(self).wf(),
            final(self)@ == map_insert(old(self)@, k@, v),
            was_new == (map_get(old(self)@, k@) is None),
    {
        proof {
            lemma_key_index(self@, k@);
            lemma_map_insert(self@, k@, v);
        }
        let ghost old_view = self@;
        let ks = k.as_str();
        match self.index.get(ks) {
            Some(i) => {
                let i = *i;
                self.entries.set(i, (k, v));
                assert(self@ =~= map_insert(old_view, k@, v));
                assert(self.index@.dom() =~= key_set(self@));
                proof {
                    assert forall|k2: Seq<char>| #[trigger]
                        self.index@.contains_key(k2) implies self.index@[k2] as int == key_index(
                        self@,
                        k2,
                    ) by {
                        lemma_key_index(old_view, k2);
                        if key_index(old_view, k2) >= 0 {
                            lemma_key_index_of_entry(self@, key_index(old_view, k2));
                        }
                    }
                }
                false
            },
            None => {
                let n = self.entries.len();
                let kc = k.clone();
                self.index.insert(kc, n);
                self.entries.push((k, v));
                assert(self@ =~= map_insert(old_view, k@, v));
                assert(self.index@.dom() =~= key_set(self@));
                proof {
                    assert forall|k2: Seq<char>| #[trigger]
                        self.index@.contains_key(k2) implies self.index@[k2] as int == key_index(
                        self@,
                        k2,
                    ) by {
                        lemma_key_index(old_view, k2);
                        if k2 == k@ {
                            lemma_key_index_of_entry(self@, n as int);
                        } else {
                            lemma_key_index_of_entry(self@, key_index(old_view, k2));
                        }
                    }
                }
                true
            },
        }
    }
}

} // verus!
