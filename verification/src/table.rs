//! A table from text keys to values, where a later insert under a key
//! replaces the earlier value.
use vstd::prelude::*;

verus! {

/// `true` when no two entries of `s` have equal keys.
pub open spec fn keys_distinct<V>(s: Seq<(String, V)>) -> bool {
    forall|i: int, j: int| 0 <= i < j < s.len() ==> s[i].0@ != s[j].0@
}

/// The map that the entries `s` make when inserted in order, a later entry
/// replacing an earlier one with an equal key.
pub open spec fn entries_map<V>(s: Seq<(String, V)>) -> Map<Seq<char>, V>
    decreases s.len(),
{
    if s.len() == 0 {
        Map::empty()
    } else {
        entries_map(s.drop_last()).insert(s.last().0@, s.last().1)
    }
}

pub proof fn lemma_entries_map_dom<V>(s: Seq<(String, V)>, q: Seq<char>)
    ensures
        entries_map(s).dom().contains(q) <==> exists|j: int| 0 <= j < s.len() && #[trigger] s[j].0@ == q,
    decreases s.len(),
{
    if s.len() > 0 {
        lemma_entries_map_dom(s.drop_last(), q);
        if entries_map(s.drop_last()).dom().contains(q) {
            let j = choose|j: int| 0 <= j < s.drop_last().len() && #[trigger] s.drop_last()[j].0@ == q;
            assert(s[j].0@ == q);
        }
        if exists|j: int| 0 <= j < s.len() && #[trigger] s[j].0@ == q {
            let j = choose|j: int| 0 <= j < s.len() && #[trigger] s[j].0@ == q;
            if j < s.len() - 1 {
                assert(s.drop_last()[j].0@ == q);
            }
        }
    }
}

pub proof fn lemma_entries_map_value<V>(s: Seq<(String, V)>, j: int)
    requires
        keys_distinct(s),
        0 <= j < s.len(),
    ensures
        entries_map(s).dom().contains(s[j].0@),
        entries_map(s)[s[j].0@] == s[j].1,
    decreases s.len(),
{
    if j < s.len() - 1 {
        assert(s.drop_last()[j] == s[j]);
        assert(keys_distinct(s.drop_last()));
        lemma_entries_map_value(s.drop_last(), j);
        assert(s[j].0@ != s.last().0@);
    }
}

pub proof fn lemma_entries_map_len<V>(s: Seq<(String, V)>)
    requires
        keys_distinct(s),
    ensures
        entries_map(s).dom().finite(),
        entries_map(s).dom().len() == s.len(),
    decreases s.len(),
{
    if s.len() > 0 {
        let p = s.drop_last();
        assert(keys_distinct(p));
        lemma_entries_map_len(p);
        lemma_entries_map_dom(p, s.last().0@);
        if entries_map(p).dom().contains(s.last().0@) {
            let j = choose|j: int| 0 <= j < p.len() && #[trigger] p[j].0@ == s.last().0@;
            assert(s[j].0@ == s[s.len() - 1].0@);
        }
    }
}

/// A table from text keys to values of type `V`.
pub struct KeyedTable<V> {
    entries: Vec<(String, V)>,
}

impl<V> View for KeyedTable<V> {
    type V = Map<Seq<char>, V>;

    closed spec fn view(&self) -> Map<Seq<char>, V> {
        entries_map(self.entries@)
    }
}

impl<V> KeyedTable<V> {
    #[verifier::type_invariant]
    spec fn keys_are_distinct(self) -> bool {
        keys_distinct(self.entries@)
    }

    /// An empty table.
    pub fn new() -> (r: Self)
        ensures
            r@ == Map::<Seq<char>, V>::empty(),
    {
        KeyedTable { entries: Vec::new() }
    }

    /// The number of keys.
    pub fn len(&self) -> (r: usize)
        ensures
            self@.dom().finite(),
            r == self@.dom().len(),
    {
        proof {
            use_type_invariant(self);
            lemma_entries_map_len(self.entries@);
        }
        self.entries.len()
    }

    fn position(&self, key: &String) -> (r: Option<usize>)
        ensures
            match r {
                Some(i) => i < self.entries@.len() && self.entries@[i as int].0@ == key@,
                None => forall|j: int|
                    0 <= j < self.entries@.len() ==> #[trigger] self.entries@[j].0@ != key@,
            },
    {
        let mut i: usize = 0;
        while i < self.entries.len()
            invariant
                i <= self.entries@.len(),
                forall|j: int| 0 <= j < i ==> #[trigger] self.entries@[j].0@ != key@,
            decreases self.entries@.len() - i,
        {
            if self.entries[i].0 == *key {
                return Some(i);
            }
            i = i + 1;
        }
        None
    }

    /// The value under `key`, where there is one.
    pub fn get(&self, key: &str) -> (r: Option<&V>)
        ensures
            match r {
                Some(v) => self@.dom().contains(key@) && *v == self@[key@],
                None => !self@.dom().contains(key@),
            },
    {
        proof {
            use_type_invariant(self);
            lemma_entries_map_dom(self.entries@, key@);
        }
        let k = String::from_str(key);
        match self.position(&k) {
            Some(i) => {
                proof {
                    lemma_entries_map_value(self.entries@, i as int);
                }
                Some(&self.entries[i].1)
            },
            None => None,
        }
    }

    /// Whether the table holds a value under `key`.
    pub fn contains_key(&self, key: &str) -> (r: bool)
        ensures
            r == self@.dom().contains(key@),
    {
        self.get(key).is_some()
    }

    /// Puts `value` under `key`, replacing and handing back the value that was there.
    pub fn insert(&mut self, key: String, value: V) -> (r: Option<V>)
        ensures
            final(self)@ == old(self)@.insert(key@, value),
            match r {
                Some(v) => old(self)@.dom().contains(key@) && v == old(self)@[key@],
                None => !old(self)@.dom().contains(key@),
            },
    {
        proof {
            use_type_invariant(&*self);
            lemma_entries_map_dom(self.entries@, key@);
        }
        let ghost old_entries = self.entries@;
        let ghost k = key@;
        match self.position(&key) {
            Some(i) => {
                proof {
                    lemma_entries_map_value(old_entries, i as int);
                }
                let ghost removed = old_entries.remove(i as int);
                assert(keys_distinct(removed));
                let mut entries: Vec<(String, V)> = Vec::new();
                std::mem::swap(&mut entries, &mut self.entries);
                let old = entries.remove(i);
                assert(entries@ == removed);
                assert forall|j: int| 0 <= j < removed.len() implies #[trigger] removed[j].0@ != k by {
                    if j < i {
                        assert(removed[j] == old_entries[j]);
                    } else {
                        assert(removed[j] == old_entries[j + 1]);
                    }
                }
                entries.push((key, value));
                let ghost new_entries = entries@;
                assert(keys_distinct(new_entries));
                proof {
                    self.lemma_replace_map(old_entries, i as int, new_entries);
                }
                self.entries = entries;
                Some(old.1)
            },
            None => {
                let mut entries: Vec<(String, V)> = Vec::new();
                std::mem::swap(&mut entries, &mut self.entries);
                entries.push((key, value));
                assert(entries@.drop_last() == old_entries);
                assert(keys_distinct(entries@));
                self.entries = entries;
                None
            },
        }
    }

    proof fn lemma_replace_map(
        &self,
        old_entries: Seq<(String, V)>,
        i: int,
        new_entries: Seq<(String, V)>,
    )
        requires
            keys_distinct(old_entries),
            keys_distinct(new_entries),
            0 <= i < old_entries.len(),
            new_entries == old_entries.remove(i).push(new_entries.last()),
            old_entries[i].0@ == new_entries.last().0@,
        ensures
            entries_map(new_entries) == entries_map(old_entries).insert(
                new_entries.last().0@,
                new_entries.last().1,
            ),
    {
        let k = new_entries.last().0@;
        let m_new = entries_map(new_entries);
        let m_old = entries_map(old_entries).insert(k, new_entries.last().1);
        assert forall|q: Seq<char>| m_new.dom().contains(q) <==> m_old.dom().contains(q) by {
            lemma_entries_map_dom(new_entries, q);
            lemma_entries_map_dom(old_entries, q);
            if q != k {
                if exists|j: int| 0 <= j < old_entries.len() && #[trigger] old_entries[j].0@ == q {
                    let j = choose|j: int|
                        0 <= j < old_entries.len() && #[trigger] old_entries[j].0@ == q;
                    assert(j != i);
                    if j < i {
                        assert(new_entries[j] == old_entries[j]);
                    } else {
                        assert(new_entries[j - 1] == old_entries[j]);
                    }
                }
                if exists|j: int| 0 <= j < new_entries.len() && #[trigger] new_entries[j].0@ == q {
                    let j = choose|j: int|
                        0 <= j < new_entries.len() && #[trigger] new_entries[j].0@ == q;
                    assert(j != new_entries.len() - 1);
                    if j < i {
                        assert(new_entries[j] == old_entries[j]);
                    } else {
                        assert(new_entries[j] == old_entries[j + 1]);
                    }
                }
            } else {
                assert(new_entries[new_entries.len() - 1].0@ == q);
            }
        }
        assert forall|q: Seq<char>| m_new.dom().contains(q) implies m_new[q] == m_old[q] by {
            lemma_entries_map_dom(new_entries, q);
            let j = choose|j: int| 0 <= j < new_entries.len() && #[trigger] new_entries[j].0@ == q;
            lemma_entries_map_value(new_entries, j);
            if j == new_entries.len() - 1 {
            } else if j < i {
                assert(new_entries[j] == old_entries[j]);
                lemma_entries_map_value(old_entries, j);
            } else {
                assert(new_entries[j] == old_entries[j + 1]);
                lemma_entries_map_value(old_entries, j + 1);
            }
        }
        assert(m_new =~= m_old);
    }
}

/// Inserting under a key and then reading that key gives the inserted value,
/// and every other key keeps its value.
pub proof fn law_insert_then_get<V>(m: Map<Seq<char>, V>, k: Seq<char>, v: V, other: Seq<char>)
    requires
        other != k,
    ensures
        m.insert(k, v).dom().contains(k),
        m.insert(k, v)[k] == v,
        m.insert(k, v).dom().contains(other) == m.dom().contains(other),
        m.dom().contains(other) ==> m.insert(k, v)[other] == m[other],
{
}

/// Inserting under a key that the table already holds keeps the number of
/// keys; inserting under a new key adds one.
pub proof fn law_insert_len<V>(m: Map<Seq<char>, V>, k: Seq<char>, v: V)
    requires
        m.dom().finite(),
    ensures
        m.dom().contains(k) ==> m.insert(k, v).dom().len() == m.dom().len(),
        !m.dom().contains(k) ==> m.insert(k, v).dom().len() == m.dom().len() + 1,
{
    if m.dom().contains(k) {
        assert(m.insert(k, v).dom() =~= m.dom());
    }
}

} // verus!
