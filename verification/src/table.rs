//! A map keyed by strings, kept as a list of entries. Its view is the map in
//! which a later entry for a key overrides an earlier one; the operations keep
//! at most one entry per key.

use vstd::prelude::*;
use crate::text::str_eq;

verus! {

/// The map that a list of entries stands for: later entries override earlier ones.
pub open spec fn table_map<V: View>(s: Seq<(String, V)>) -> Map<Seq<char>, V::V>
    decreases s.len(),
{
    if s.len() == 0 {
        Map::empty()
    } else {
        table_map(s.drop_last()).insert(s.last().0@, s.last().1@)
    }
}

/// Index `i` holds the last entry for key `k`.
pub open spec fn last_entry_for<V>(s: Seq<(String, V)>, k: Seq<char>, i: int) -> bool {
    &&& 0 <= i < s.len()
    &&& s[i].0@ == k
    &&& forall|j: int| i < j < s.len() ==> s[j].0@ != k
}

/// No two entries have the same key.
pub open spec fn distinct_keys<V>(s: Seq<(String, V)>) -> bool {
    forall|i: int, j: int| 0 <= i < j < s.len() ==> s[i].0@ != s[j].0@
}

/// The keys of the entries, in order.
pub open spec fn entry_keys<V>(s: Seq<(String, V)>) -> Seq<Seq<char>> {
    s.map_values(|e: (String, V)| e.0@)
}

/// The keys of the map are those of the entries.
pub proof fn lemma_table_dom<V: View>(s: Seq<(String, V)>)
    ensures
        table_map(s).dom() == entry_keys(s).to_set(),
    decreases s.len(),
{
    if s.len() > 0 {
        lemma_table_dom(s.drop_last());
        assert(entry_keys(s.drop_last()) =~= entry_keys(s).drop_last());
        assert forall|k: Seq<char>| table_map(s).dom().contains(k) == entry_keys(s).to_set().contains(k) by {
            if k == s.last().0@ {
                assert(entry_keys(s)[s.len() - 1] == k);
            } else if entry_keys(s).to_set().contains(k) {
                let i = choose|i: int| 0 <= i < entry_keys(s).len() && entry_keys(s)[i] == k;
                assert(i < s.len() - 1);
                assert(entry_keys(s.drop_last())[i] == k);
            } else if entry_keys(s.drop_last()).to_set().contains(k) {
                let i = choose|i: int| 0 <= i < entry_keys(s.drop_last()).len() && entry_keys(s.drop_last())[i] == k;
                assert(entry_keys(s)[i] == k);
            }
        }
        assert(table_map(s).dom() =~= entry_keys(s).to_set());
    } else {
        assert(entry_keys(s).to_set() =~= Set::<Seq<char>>::empty());
    }
}

pub proof fn lemma_table_push<V: View>(s: Seq<(String, V)>, e: (String, V))
    ensures
        table_map(s.push(e)) == table_map(s).insert(e.0@, e.1@),
{
    assert(s.push(e).drop_last() =~= s);
}

pub proof fn lemma_table_absent<V: View>(s: Seq<(String, V)>, k: Seq<char>)
    requires
        forall|j: int| 0 <= j < s.len() ==> s[j].0@ != k,
    ensures
        !table_map(s).dom().contains(k),
    decreases s.len(),
{
    if s.len() > 0 {
        lemma_table_absent(s.drop_last(), k);
    }
}

pub proof fn lemma_table_lookup<V: View>(s: Seq<(String, V)>, k: Seq<char>, i: int)
    requires
        last_entry_for(s, k, i),
    ensures
        table_map(s).dom().contains(k),
        table_map(s)[k] == s[i].1@,
    decreases s.len(),
{
    if i < s.len() - 1 {
        lemma_table_lookup(s.drop_last(), k, i);
    }
}

pub proof fn lemma_table_update<V: View>(s: Seq<(String, V)>, k: Seq<char>, i: int, e: (String, V))
    requires
        last_entry_for(s, k, i),
        e.0@ == k,
    ensures
        table_map(s.update(i, e)) == table_map(s).insert(k, e.1@),
    decreases s.len(),
{
    if i == s.len() - 1 {
        assert(s.update(i, e).drop_last() =~= s.drop_last());
        assert(table_map(s.update(i, e)) =~= table_map(s).insert(k, e.1@));
    } else {
        lemma_table_update(s.drop_last(), k, i, e);
        assert(s.update(i, e).drop_last() =~= s.drop_last().update(i, e));
        assert(table_map(s.update(i, e)) =~= table_map(s).insert(k, e.1@));
    }
}

/// A string-keyed map.
pub struct Table<V> {
    entries: Vec<(String, V)>,
}

impl<V: View> View for Table<V> {
    type V = Map<Seq<char>, V::V>;

    closed spec fn view(&self) -> Map<Seq<char>, V::V> {
        table_map(self.entries@)
    }
}

impl<V: View> Table<V> {
    /// At most one entry per key.
    pub closed spec fn wf(&self) -> bool {
        distinct_keys(self.entries@)
    }

    /// The keys in the order in which they were first set.
    pub closed spec fn key_order(&self) -> Seq<Seq<char>> {
        entry_keys(self.entries@)
    }

    /// The key order holds each key of the map once.
    pub proof fn lemma_key_order(&self)
        requires
            self.wf(),
        ensures
            self.key_order().no_duplicates(),
            self.key_order().to_set() == self@.dom(),
    {
        lemma_table_dom(self.entries@);
        let ks = entry_keys(self.entries@);
        assert forall|i: int, j: int| 0 <= i < ks.len() && 0 <= j < ks.len() && i != j implies ks[i] != ks[j] by {
            if i < j {
                assert(self.entries@[i].0@ != self.entries@[j].0@);
            } else {
                assert(self.entries@[j].0@ != self.entries@[i].0@);
            }
        }
    }

    /// The empty map.
    pub fn new() -> (t: Table<V>)
        ensures
            t@ == Map::<Seq<char>, V::V>::empty(),
            t.wf(),
    {
        Table { entries: Vec::new() }
    }

    /// The index of the last entry for `key`.
    fn find(&self, key: &str) -> (r: Option<usize>)
        ensures
            r matches Some(i) ==> last_entry_for(self.entries@, key@, i as int),
            r is None ==> forall|j: int|
                0 <= j < self.entries@.len() ==> self.entries@[j].0@ != key@,
    {
        let mut i = self.entries.len();
        while i > 0
            invariant
                i <= self.entries.len(),
                forall|j: int| i <= j < self.entries@.len() ==> self.entries@[j].0@ != key@,
            decreases i,
        {
            i = i - 1;
            if str_eq(self.entries[i].0.as_str(), key) {
                return Some(i);
            }
        }
        None
    }

    /// Whether `key` has a value.
    pub fn contains(&self, key: &str) -> (r: bool)
        ensures
            r == self@.dom().contains(key@),
    {
        match self.find(key) {
            Some(i) => {
                proof {
                    lemma_table_lookup(self.entries@, key@, i as int);
                }
                true
            },
            None => {
                proof {
                    lemma_table_absent(self.entries@, key@);
                }
                false
            },
        }
    }

    /// The value for `key`, if any.
    pub fn get(&self, key: &str) -> (r: Option<&V>)
        ensures
            r is Some == self@.dom().contains(key@),
            r matches Some(v) ==> v@ == self@[key@],
    {
        match self.find(key) {
            Some(i) => {
                proof {
                    lemma_table_lookup(self.entries@, key@, i as int);
                }
                Some(&self.entries[i].1)
            },
            None => {
                proof {
                    lemma_table_absent(self.entries@, key@);
                }
                None
            },
        }
    }

    /// Sets the value for `key`.
    pub fn insert(&mut self, key: String, value: V)
        ensures
            final(self)@ == old(self)@.insert(key@, value@),
            old(self).wf() ==> final(self).wf(),
    {
        match self.find(key.as_str()) {
            Some(i) => {
                let ghost e = (key, value);
                proof {
                    lemma_table_update(self.entries@, key@, i as int, e);
                }
                self.entries.set(i, (key, value));
            },
            None => {
                proof {
                    lemma_table_push(self.entries@, (key, value));
                }
                self.entries.push((key, value));
            },
        }
    }

    /// Removes every entry for `key`.
    pub fn remove(&mut self, key: &str)
        ensures
            final(self)@ == old(self)@.remove(key@),
            old(self).wf() ==> final(self).wf(),
    {
        let mut kept: Vec<(String, V)> = Vec::new();
        let ghost old_entries = self.entries@;
        let mut old_vec: Vec<(String, V)> = Vec::new();
        std::mem::swap(&mut old_vec, &mut self.entries);
        let mut i: usize = 0;
        let n = old_vec.len();
        proof {
            assert(old_entries.take(0) =~= Seq::<(String, V)>::empty());
            assert(table_map(Seq::<(String, V)>::empty()) =~= table_map(Seq::<(String, V)>::empty()).remove(key@));
        }
        while old_vec.len() > 0
            invariant
                n == old_entries.len(),
                i + old_vec@.len() == n,
                old_vec@ == old_entries.skip(i as int),
                table_map(kept@) == table_map(old_entries.take(i as int)).remove(key@),
                distinct_keys(old_entries) ==> distinct_keys(kept@),
                forall|m: int| 0 <= m < kept@.len() ==> exists|j: int| 0 <= j < i && #[trigger] kept@[m].0@ == old_entries[j].0@,
            decreases old_vec.len(),
        {
            let e = old_vec.remove(0);
            let ghost prefix = old_entries.take(i as int);
            proof {
                assert(old_entries.take(i + 1) =~= prefix.push(e));
                lemma_table_push(prefix, e);
            }
            assert(e == old_entries[i as int]);
            if !str_eq(e.0.as_str(), key) {
                proof {
                    if distinct_keys(old_entries) {
                        assert forall|m: int| 0 <= m < kept@.len() implies #[trigger] kept@[m].0@ != e.0@ by {
                            let j = choose|j: int| 0 <= j < i && #[trigger] kept@[m].0@ == old_entries[j].0@;
                            assert(old_entries[j].0@ != old_entries[i as int].0@);
                        }
                        assert(distinct_keys(kept@.push(e)));
                    }
                    assert forall|m: int| 0 <= m < kept@.push(e).len() implies exists|j: int| 0 <= j < i + 1 && #[trigger] kept@.push(e)[m].0@ == old_entries[j].0@ by {
                        if m < kept@.len() {
                            let j = choose|j: int| 0 <= j < i && #[trigger] kept@[m].0@ == old_entries[j].0@;
                            assert(kept@.push(e)[m].0@ == old_entries[j].0@);
                        } else {
                            assert(kept@.push(e)[m].0@ == old_entries[i as int].0@);
                        }
                    }
                    lemma_table_push(kept@, e);
                    assert(table_map(kept@.push(e)) =~= table_map(prefix.push(e)).remove(key@));
                }
                kept.push(e);
            } else {
                assert(table_map(kept@) =~= table_map(prefix.push(e)).remove(key@));
            }
            i = i + 1;
            assert(old_vec@ =~= old_entries.skip(i as int));
        }
        assert(old_entries.take(n as int) =~= old_entries);
        self.entries = kept;
    }

    /// The keys, in the order in which they were first set, each once.
    pub fn keys(&self) -> (r: Vec<String>)
        requires
            self.wf(),
        ensures
            r@.map_values(|k: String| k@) == self.key_order(),
            r@.map_values(|k: String| k@).to_set() == self@.dom(),
            r@.map_values(|k: String| k@).no_duplicates(),
    {
        let mut r: Vec<String> = Vec::new();
        let mut i: usize = 0;
        while i < self.entries.len()
            invariant
                i <= self.entries.len(),
                r@.len() == i,
                forall|k: int| 0 <= k < i ==> r@[k]@ == self.entries@[k].0@,
            decreases self.entries.len() - i,
        {
            r.push(self.entries[i].0.clone());
            i = i + 1;
        }
        proof {
            lemma_table_dom(self.entries@);
            assert(r@.map_values(|k: String| k@) =~= entry_keys(self.entries@));
        }
        r
    }
}

} // verus!
