use vstd::prelude::*;

verus! {

/// The map denoted by a list of `(key, value)` entries: a later entry for a
/// key overrides an earlier one.
pub open spec fn entries_map<V>(s: Seq<(String, V)>) -> Map<Seq<char>, V>
    decreases s.len(),
{
    if s.len() == 0 {
        Map::empty()
    } else {
        entries_map(s.drop_last()).insert(s.last().0@, s.last().1)
    }
}

/// No key occurs twice in the list of entries.
pub open spec fn keys_distinct<V>(s: Seq<(String, V)>) -> bool {
    forall|i: int, j: int| 0 <= i < j < s.len() ==> s[i].0@ != s[j].0@
}

/// A finite map from names to values, kept as a list of entries in the
/// order in which the keys were first inserted.
#[derive(Debug)]
pub struct NameMap<V> {
    entries: Vec<(String, V)>,
}

impl<V> View for NameMap<V> {
    type V = Map<Seq<char>, V>;

    open spec fn view(&self) -> Map<Seq<char>, V> {
        entries_map(self.spec_entries())
    }
}

proof fn lemma_entries_map_dom<V>(s: Seq<(String, V)>)
    ensures
        entries_map(s).dom().finite(),
        forall|k: Seq<char>| #[trigger]
            entries_map(s).contains_key(k) <==> exists|i: int| 0 <= i < s.len() && s[i].0@ == k,
    decreases s.len(),
{
    if s.len() > 0 {
        lemma_entries_map_dom(s.drop_last());
        assert forall|k: Seq<char>| #[trigger]
            entries_map(s).contains_key(k) implies exists|i: int| 0 <= i < s.len() && s[i].0@ == k by {
            if k == s.last().0@ {
                assert(s[s.len() - 1].0@ == k);
            } else {
                let i = choose|i: int| 0 <= i < s.drop_last().len() && s.drop_last()[i].0@ == k;
                assert(s[i].0@ == k);
            }
        }
        assert forall|k: Seq<char>|
            (exists|i: int| 0 <= i < s.len() && s[i].0@ == k) implies #[trigger] entries_map(s).contains_key(k) by {
            let i = choose|i: int| 0 <= i < s.len() && s[i].0@ == k;
            if i < s.len() - 1 {
                assert(s.drop_last()[i].0@ == k);
            }
        }
    }
}

proof fn lemma_entries_map_at<V>(s: Seq<(String, V)>, i: int)
    requires
        keys_distinct(s),
        0 <= i < s.len(),
    ensures
        entries_map(s).contains_key(s[i].0@),
        entries_map(s)[s[i].0@] == s[i].1,
    decreases s.len(),
{
    if i < s.len() - 1 {
        lemma_entries_map_at(s.drop_last(), i);
    }
}

proof fn lemma_entries_map_len<V>(s: Seq<(String, V)>)
    requires
        keys_distinct(s),
    ensures
        entries_map(s).dom().finite(),
        entries_map(s).len() == s.len(),
    decreases s.len(),
{
    lemma_entries_map_dom(s);
    if s.len() > 0 {
        lemma_entries_map_len(s.drop_last());
        lemma_entries_map_dom(s.drop_last());
        assert(!entries_map(s.drop_last()).contains_key(s.last().0@));
    }
}

impl<V> NameMap<V> {
    /// The entries in insertion order.
    pub closed spec fn spec_entries(&self) -> Seq<(String, V)> {
        self.entries@
    }

    #[verifier::type_invariant]
    closed spec fn inv(&self) -> bool {
        keys_distinct(self.entries@)
    }

    /// The empty map.
    pub fn new() -> (m: Self)
        ensures
            m@ == Map::<Seq<char>, V>::empty(),
            m.spec_entries().len() == 0,
    {
        NameMap { entries: Vec::new() }
    }

    /// Number of keys; also states that the keys are those of the entries,
    /// each entry giving the value of its key.
    pub fn len(&self) -> (n: usize)
        ensures
            n == self@.len(),
            n == self.spec_entries().len(),
            self@.dom().finite(),
            keys_distinct(self.spec_entries()),
            forall|k: Seq<char>| #[trigger]
                self@.contains_key(k) <==> exists|i: int|
                    0 <= i < self.spec_entries().len() && self.spec_entries()[i].0@ == k,
            forall|i: int|
                0 <= i < self.spec_entries().len() ==> #[trigger] self@[self.spec_entries()[i].0@]
                    == self.spec_entries()[i].1,
    {
        proof {
            use_type_invariant(self);
            lemma_entries_map_dom(self.entries@);
            lemma_entries_map_len(self.entries@);
            assert forall|i: int| 0 <= i < self.spec_entries().len() implies #[trigger] self@[self.spec_entries()[i].0@]
                == self.spec_entries()[i].1 by {
                lemma_entries_map_at(self.entries@, i);
            }
        }
        self.entries.len()
    }

    /// Whether the map has no keys.
    pub fn is_empty(&self) -> (b: bool)
        ensures
            b == (self@.len() == 0),
    {
        self.len() == 0
    }

    /// The key of the entry at `i` (in insertion order).
    pub fn key_at(&self, i: usize) -> (k: &String)
        requires
            i < self.spec_entries().len(),
        ensures
            *k == self.spec_entries()[i as int].0,
    {
        &self.entries[i].0
    }

    /// The value of the entry at `i` (in insertion order).
    pub fn value_at(&self, i: usize) -> (v: &V)
        requires
            i < self.spec_entries().len(),
        ensures
            *v == self.spec_entries()[i as int].1,
    {
        &self.entries[i].1
    }

    fn find(&self, key: &String) -> (r: Option<usize>)
        ensures
            match r {
                Some(i) => i < self.entries@.len() && self.entries@[i as int].0@ == key@,
                None => forall|i: int| 0 <= i < self.entries@.len() ==> self.entries@[i].0@ != key@,
            },
    {
        let mut i: usize = 0;
        while i < self.entries.len()
            invariant
                i <= self.entries@.len(),
                forall|j: int| 0 <= j < i ==> self.entries@[j].0@ != key@,
            decreases self.entries@.len() - i,
        {
            if self.entries[i].0 == *key {
                return Some(i);
            }
            i = i + 1;
        }
        None
    }

    /// Look up the value of `key`.
    pub fn get(&self, key: &String) -> (r: Option<&V>)
        ensures
            match r {
                Some(v) => self@.contains_key(key@) && self@[key@] == *v,
                None => !self@.contains_key(key@),
            },
    {
        proof {
            use_type_invariant(self);
            lemma_entries_map_dom(self.entries@);
        }
        match self.find(key) {
            Some(i) => {
                proof {
                    lemma_entries_map_at(self.entries@, i as int);
                }
                Some(&self.entries[i].1)
            },
            None => None,
        }
    }

    /// Whether `key` has a value.
    pub fn contains_key(&self, key: &String) -> (b: bool)
        ensures
            b == self@.contains_key(key@),
    {
        self.get(key).is_some()
    }

    /// Set the value of `key`; a new key goes after the existing ones, an
    /// existing key keeps its place.
    pub fn insert(&mut self, key: String, value: V)
        ensures
            final(self)@ == old(self)@.insert(key@, value),
    {
        proof {
            use_type_invariant(&*self);
        }
        let mut entries: Vec<(String, V)> = Vec::new();
        std::mem::swap(&mut entries, &mut self.entries);
        let ghost old_entries = entries@;
        let ghost kv = key@;
        let ghost key_g = key;
        match self.find_in(&entries, &key) {
            Some(i) => {
                entries.set(i, (key, value));
                proof {
                    lemma_set_entry(old_entries, i as int, key_g, value);
                }
            },
            None => {
                entries.push((key, value));
                proof {
                    assert(entries@.drop_last() =~= old_entries);
                    assert(entries_map(entries@) == entries_map(old_entries).insert(kv, value));
                }
            },
        }
        self.entries = entries;
    }

    fn find_in(&self, entries: &Vec<(String, V)>, key: &String) -> (r: Option<usize>)
        ensures
            match r {
                Some(i) => i < entries@.len() && entries@[i as int].0@ == key@,
                None => forall|i: int| 0 <= i < entries@.len() ==> entries@[i].0@ != key@,
            },
    {
        let mut i: usize = 0;
        while i < entries.len()
            invariant
                i <= entries@.len(),
                forall|j: int| 0 <= j < i ==> entries@[j].0@ != key@,
            decreases entries@.len() - i,
        {
            if entries[i].0 == *key {
                return Some(i);
            }
            i = i + 1;
        }
        None
    }

    /// The value of `key`, to be changed in place.
    pub fn get_mut(&mut self, key: &String) -> (r: &mut V)
        requires
            old(self)@.contains_key(key@),
        ensures
            *r == old(self)@[key@],
            final(self)@ == old(self)@.insert(key@, *final(r)),
    {
        proof {
            use_type_invariant(&*self);
            lemma_entries_map_dom(self.entries@);
        }
        let i = self.find(key).unwrap();
        proof {
            let s = self.entries@;
            lemma_entries_map_at(s, i as int);
            assert forall|v: V| #[trigger] entries_map(s.update(i as int, (s[i as int].0, v))) == entries_map(
                s,
            ).insert(key@, v) by {
                lemma_set_entry(s, i as int, s[i as int].0, v);
            }
        }
        value_mut(&mut self.entries, i)
    }

    /// Remove `key` and its value, if present; the other entries keep their order.
    pub fn remove(&mut self, key: &String)
        ensures
            final(self)@ == old(self)@.remove(key@),
    {
        proof {
            use_type_invariant(&*self);
        }
        let mut entries: Vec<(String, V)> = Vec::new();
        std::mem::swap(&mut entries, &mut self.entries);
        let ghost old_entries = entries@;
        match self.find_in(&entries, key) {
            Some(i) => {
                entries.remove(i);
                proof {
                    lemma_remove_entry(old_entries, i as int);
                }
            },
            None => {
                proof {
                    lemma_entries_map_dom(old_entries);
                    assert(entries_map(old_entries).remove(key@) =~= entries_map(old_entries));
                }
            },
        }
        self.entries = entries;
    }

}

/// The value of the entry at `i`, to be changed in place; its key stays.
fn value_mut<V>(entries: &mut Vec<(String, V)>, i: usize) -> (r: &mut V)
    requires
        i < old(entries)@.len(),
    ensures
        *r == old(entries)@[i as int].1,
        final(entries)@ == old(entries)@.update(i as int, (old(entries)@[i as int].0, *final(r))),
    no_unwind
{
    &mut entries[i].1
}

proof fn lemma_set_entry<V>(s: Seq<(String, V)>, i: int, k: String, v: V)
    requires
        keys_distinct(s),
        0 <= i < s.len(),
        s[i].0@ == k@,
    ensures
        keys_distinct(s.update(i, (k, v))),
        entries_map(s.update(i, (k, v))) == entries_map(s).insert(k@, v),
    decreases s.len(),
{
    let t = s.update(i, (k, v));
    if i == s.len() - 1 {
        assert(t.drop_last() =~= s.drop_last());
        lemma_entries_map_dom(s.drop_last());
        assert(entries_map(s).insert(k@, v) =~= entries_map(s.drop_last()).insert(k@, v));
    } else {
        lemma_set_entry(s.drop_last(), i, k, v);
        assert(t.drop_last() =~= s.drop_last().update(i, (k, v)));
        assert(s.last().0@ != k@);
        assert(entries_map(t) =~= entries_map(s).insert(k@, v));
    }
}

proof fn lemma_remove_entry<V>(s: Seq<(String, V)>, i: int)
    requires
        keys_distinct(s),
        0 <= i < s.len(),
    ensures
        keys_distinct(s.remove(i)),
        entries_map(s.remove(i)) == entries_map(s).remove(s[i].0@),
    decreases s.len(),
{
    let t = s.remove(i);
    let k = s[i].0@;
    if i == s.len() - 1 {
        assert(t =~= s.drop_last());
        lemma_entries_map_dom(s.drop_last());
        assert(entries_map(s.drop_last()).remove(k) =~= entries_map(s.drop_last()));
        assert(entries_map(s).remove(k) =~= entries_map(s.drop_last()).remove(k));
    } else {
        lemma_remove_entry(s.drop_last(), i);
        assert(t.drop_last() =~= s.drop_last().remove(i));
        assert(t.last() == s.last());
        assert(s.last().0@ != k);
        assert(entries_map(t) =~= entries_map(s).remove(k));
    }
}

} // verus!
