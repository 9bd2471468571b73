//! A map from Java fully-qualified names (classes and packages) to source paths.
use vstd::prelude::*;

verus! {

/// The map that a list of `(key, value)` entries with distinct keys stands for.
pub open spec fn entries_map(s: Seq<(Seq<char>, Seq<char>)>) -> Map<Seq<char>, Seq<char>> {
    Map::new(
        |k: Seq<char>| exists|i: int| 0 <= i < s.len() && #[trigger] s[i].0 == k,
        |k: Seq<char>| s[choose|i: int| 0 <= i < s.len() && #[trigger] s[i].0 == k].1,
    )
}

/// No key occurs twice.
pub open spec fn distinct_keys(s: Seq<(Seq<char>, Seq<char>)>) -> bool {
    forall|i: int, j: int| 0 <= i < s.len() && 0 <= j < s.len() && i != j ==> s[i].0 != s[j].0
}

pub open spec fn entry_views(v: Seq<(String, String)>) -> Seq<(Seq<char>, Seq<char>)> {
    v.map_values(|p: (String, String)| (p.0@, p.1@))
}

proof fn lemma_entries_map_at(s: Seq<(Seq<char>, Seq<char>)>, i: int)
    requires
        distinct_keys(s),
        0 <= i < s.len(),
    ensures
        entries_map(s).contains_key(s[i].0),
        entries_map(s)[s[i].0] == s[i].1,
{
    let k = s[i].0;
    assert(exists|j: int| 0 <= j < s.len() && #[trigger] s[j].0 == k);
    let j = choose|j: int| 0 <= j < s.len() && #[trigger] s[j].0 == k;
    assert(j == i);
}

/// Fully-qualified name → source file path.
pub struct FqnIndex {
    entries: Vec<(String, String)>,
}

impl View for FqnIndex {
    type V = Map<Seq<char>, Seq<char>>;

    closed spec fn view(&self) -> Map<Seq<char>, Seq<char>> {
        entries_map(entry_views(self.entries@))
    }
}

impl FqnIndex {
    #[verifier::type_invariant]
    closed spec fn keys_distinct(&self) -> bool {
        distinct_keys(entry_views(self.entries@))
    }

    /// An empty index.
    pub fn new() -> (r: FqnIndex)
        ensures
            r@ == Map::<Seq<char>, Seq<char>>::empty(),
    {
        let r = FqnIndex { entries: Vec::new() };
        assert(r@ =~= Map::<Seq<char>, Seq<char>>::empty());
        r
    }

    /// Whether the index holds no name.
    pub fn is_empty(&self) -> (b: bool)
        ensures
            b == (self@ == Map::<Seq<char>, Seq<char>>::empty()),
    {
        proof {
            use_type_invariant(self);
        }
        let b = self.entries.len() == 0;
        if b {
            assert(self@ =~= Map::<Seq<char>, Seq<char>>::empty());
        } else {
            proof {
                lemma_entries_map_at(entry_views(self.entries@), 0);
            }
            assert(self@.contains_key(entry_views(self.entries@)[0].0));
        }
        b
    }

    /// Position of `key` among the entries.
    fn position(&self, key: &String) -> (r: Option<usize>)
        ensures
            r matches Some(i) ==> i < self.entries.len() && self.entries@[i as int].0@ == key@
                && self@.contains_key(key@) && self@[key@] == self.entries@[i as int].1@,
            r is None ==> !self@.contains_key(key@),
    {
        proof {
            use_type_invariant(self);
        }
        let ghost s = entry_views(self.entries@);
        let mut i: usize = 0;
        while i < self.entries.len()
            invariant
                s == entry_views(self.entries@),
                distinct_keys(s),
                0 <= i <= self.entries.len(),
                forall|j: int| 0 <= j < i ==> s[j].0 != key@,
            decreases self.entries.len() - i,
        {
            if self.entries[i].0 == *key {
                proof {
                    lemma_entries_map_at(s, i as int);
                }
                return Some(i);
            }
            i += 1;
        }
        None
    }

    /// The path stored under `key`.
    pub fn get(&self, key: &String) -> (r: Option<String>)
        ensures
            r matches Some(v) ==> self@.contains_key(key@) && self@[key@] == v@,
            r is None ==> !self@.contains_key(key@),
    {
        match self.position(key) {
            Some(i) => Some(self.entries[i].1.clone()),
            None => None,
        }
    }

    /// Whether `key` is in the index.
    pub fn contains_key(&self, key: &str) -> (b: bool)
        ensures
            b == self@.contains_key(key@),
    {
        let k = key.to_owned();
        self.position(&k).is_some()
    }

    /// Stores `value` under `key`, replacing what was there.
    pub fn insert(&mut self, key: String, value: String)
        ensures
            final(self)@ == old(self)@.insert(key@, value@),
    {
        proof {
            use_type_invariant(&*self);
        }
        let ghost old_s = entry_views(self.entries@);
        let ghost old_map = self@;
        let found = self.position(&key);
        let mut entries: Vec<(String, String)> = Vec::new();
        std::mem::swap(&mut entries, &mut self.entries);
        assert(entry_views(entries@) == old_s);
        let ghost kv = (key@, value@);
        match found {
            Some(i) => {
                entries.set(i, (key, value));
                assert(entry_views(entries@) =~= old_s.update(i as int, kv));
            },
            None => {
                entries.push((key, value));
                assert(entry_views(entries@) =~= old_s.push(kv));
            },
        }
        let ghost s = entry_views(entries@);
        let ghost at: int = match found {
            Some(i) => i as int,
            None => old_s.len() as int,
        };
        assert(0 <= at < s.len() && s[at] == kv);
        assert(forall|j: int| 0 <= j < s.len() && j != at ==> s[j] == old_s[j]);
        assert forall|a: int, b: int|
            0 <= a < s.len() && 0 <= b < s.len() && a != b implies s[a].0 != s[b].0 by {
            if a != at && b != at {
                assert(old_s[a].0 != old_s[b].0);
            } else if a != at {
                if found is None {
                    lemma_entries_map_at(old_s, a);
                } else {
                    assert(old_s[a].0 != old_s[at].0);
                }
            } else {
                if found is None {
                    lemma_entries_map_at(old_s, b);
                } else {
                    assert(old_s[b].0 != old_s[at].0);
                }
            }
        }
        assert forall|k: Seq<char>| #[trigger] entries_map(s).contains_key(k) == old_map.insert(
            key@,
            value@,
        ).contains_key(k) by {
            if entries_map(s).contains_key(k) {
                let j = choose|j: int| 0 <= j < s.len() && #[trigger] s[j].0 == k;
                if j != at {
                    lemma_entries_map_at(old_s, j);
                }
            }
            if old_map.contains_key(k) {
                let j = choose|j: int| 0 <= j < old_s.len() && #[trigger] old_s[j].0 == k;
                if j != at {
                    lemma_entries_map_at(s, j);
                } else {
                    lemma_entries_map_at(s, at);
                }
            }
            if k == key@ {
                lemma_entries_map_at(s, at);
            }
        }
        assert forall|k: Seq<char>| #[trigger] entries_map(s).contains_key(k) implies entries_map(
            s,
        )[k] == old_map.insert(key@, value@)[k] by {
            let j = choose|j: int| 0 <= j < s.len() && #[trigger] s[j].0 == k;
            lemma_entries_map_at(s, j);
            if j != at {
                lemma_entries_map_at(old_s, j);
            }
        }
        assert(entries_map(s) =~= old_map.insert(key@, value@));
        self.entries = entries;
    }

    /// Stores `value` under `key` unless `key` is already there.
    pub fn insert_if_absent(&mut self, key: String, value: String)
        ensures
            final(self)@ == if old(self)@.contains_key(key@) {
                old(self)@
            } else {
                old(self)@.insert(key@, value@)
            },
    {
        if self.position(&key).is_none() {
            self.insert(key, value);
        }
    }
}

} // verus!
