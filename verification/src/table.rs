//! Tables keyed by name, the library's form of a string-keyed hash map.

use vstd::prelude::*;

verus! {

/// No name occurs twice among the entries.
pub open spec fn keys_distinct<V>(s: Seq<(String, V)>) -> bool {
    forall|i: int, j: int| 0 <= i < j < s.len() ==> s[i].0@ != s[j].0@
}

/// The map that inserting the entries of `s` in order produces.
pub open spec fn map_of<V: View>(s: Seq<(String, V)>) -> Map<Seq<char>, V::V>
    decreases s.len(),
{
    if s.len() == 0 {
        Map::empty()
    } else {
        map_of(s.drop_last()).insert(s.last().0@, s.last().1@)
    }
}

pub proof fn lemma_map_of_contains<V: View>(s: Seq<(String, V)>, k: Seq<char>)
    ensures
        map_of(s).contains_key(k) <==> exists|i: int| 0 <= i < s.len() && #[trigger] s[i].0@ == k,
    decreases s.len(),
{
    if s.len() > 0 {
        lemma_map_of_contains(s.drop_last(), k);
        if map_of(s.drop_last()).contains_key(k) {
            let i = choose|i: int| 0 <= i < s.drop_last().len() && #[trigger] s.drop_last()[i].0@ == k;
            assert(s[i].0@ == k);
        }
        if exists|i: int| 0 <= i < s.len() && #[trigger] s[i].0@ == k {
            let i = choose|i: int| 0 <= i < s.len() && #[trigger] s[i].0@ == k;
            if i < s.len() - 1 {
                assert(s.drop_last()[i].0@ == k);
            }
        }
    }
}

pub proof fn lemma_map_of_index<V: View>(s: Seq<(String, V)>, i: int)
    requires
        keys_distinct(s),
        0 <= i < s.len(),
    ensures
        map_of(s).contains_key(s[i].0@),
        map_of(s)[s[i].0@] == s[i].1@,
    decreases s.len(),
{
    if i < s.len() - 1 {
        let t = s.drop_last();
        assert(t[i] == s[i]);
        lemma_map_of_index(t, i);
    }
}

pub proof fn lemma_map_of_len<V: View>(s: Seq<(String, V)>)
    requires
        keys_distinct(s),
    ensures
        map_of(s).dom().finite(),
        map_of(s).len() == s.len(),
    decreases s.len(),
{
    if s.len() > 0 {
        let t = s.drop_last();
        lemma_map_of_len(t);
        lemma_map_of_contains(t, s.last().0@);
        if map_of(t).contains_key(s.last().0@) {
            let i = choose|i: int| 0 <= i < t.len() && #[trigger] t[i].0@ == s.last().0@;
            assert(s[i].0@ == s[s.len() - 1].0@);
        }
    }
}

pub proof fn lemma_map_of_update<V: View>(s: Seq<(String, V)>, i: int, e: (String, V))
    requires
        keys_distinct(s),
        0 <= i < s.len(),
        e.0@ == s[i].0@,
    ensures
        map_of(s.update(i, e)) == map_of(s).insert(e.0@, e.1@),
    decreases s.len(),
{
    let u = s.update(i, e);
    if i == s.len() - 1 {
        assert(u.drop_last() == s.drop_last());
        assert(map_of(u) =~= map_of(s).insert(e.0@, e.1@));
    } else {
        let t = s.drop_last();
        assert(u.drop_last() == t.update(i, e));
        lemma_map_of_update(t, i, e);
        assert(s.last().0@ != e.0@);
        assert(map_of(u) =~= map_of(s).insert(e.0@, e.1@));
    }
}

/// A table from names to values; no name occurs twice.
pub struct NameMap<V> {
    entries: Vec<(String, V)>,
}

impl<V: View> View for NameMap<V> {
    type V = Map<Seq<char>, V::V>;

    closed spec fn view(&self) -> Map<Seq<char>, V::V> {
        map_of(self.entries@)
    }
}

impl<V> NameMap<V> {
    #[verifier::type_invariant]
    closed spec fn wf(self) -> bool {
        keys_distinct(self.entries@)
    }
}

impl<V: View> NameMap<V> {
    /// An empty table.
    pub fn new() -> (r: Self)
        ensures
            r@ == Map::<Seq<char>, V::V>::empty(),
    {
        NameMap { entries: Vec::new() }
    }

    /// The number of names in the table.
    pub fn len(&self) -> (r: usize)
        ensures
            r == self@.len(),
            self@.dom().finite(),
    {
        proof {
            use_type_invariant(self);
            lemma_map_of_len(self.entries@);
        }
        self.entries.len()
    }

    /// Whether the table holds no name.
    pub fn is_empty(&self) -> (r: bool)
        ensures
            r == (self@.len() == 0),
    {
        self.len() == 0
    }

    fn position(&self, key: &String) -> (r: Option<usize>)
        ensures
            match r {
                Some(i) => i < self.entries@.len() && self.entries@[i as int].0@ == key@,
                None => forall|j: int| 0 <= j < self.entries@.len() ==> #[trigger] self.entries@[j].0@ != key@,
            },
    {
        let n = self.entries.len();
        let mut i: usize = 0;
        while i < n
            invariant
                n == self.entries@.len(),
                i <= n,
                forall|j: int| 0 <= j < i ==> #[trigger] self.entries@[j].0@ != key@,
            decreases n - i,
        {
            if self.entries[i].0 == *key {
                return Some(i);
            }
            i += 1;
        }
        None
    }

    /// The value stored under `key`, if any.
    pub fn get(&self, key: &str) -> (r: Option<&V>)
        ensures
            match r {
                Some(v) => self@.contains_key(key@) && self@[key@] == v@,
                None => !self@.contains_key(key@),
            },
    {
        proof {
            use_type_invariant(self);
        }
        let k = String::from_str(key);
        match self.position(&k) {
            Some(i) => {
                proof {
                    lemma_map_of_index(self.entries@, i as int);
                }
                Some(&self.entries[i].1)
            },
            None => {
                proof {
                    lemma_map_of_contains(self.entries@, key@);
                }
                None
            },
        }
    }

    /// Whether `key` is in the table.
    pub fn contains_key(&self, key: &str) -> (r: bool)
        ensures
            r == self@.contains_key(key@),
    {
        self.get(key).is_some()
    }

    /// Stores `value` under `key`, replacing what was stored there.
    pub fn insert(&mut self, key: String, value: V)
        ensures
            final(self)@ == old(self)@.insert(key@, value@),
    {
        proof {
            use_type_invariant(&*self);
        }
        let found = self.position(&key);
        let mut entries: Vec<(String, V)> = Vec::new();
        std::mem::swap(&mut entries, &mut self.entries);
        let ghost before = entries@;
        match found {
            Some(i) => {
                proof {
                    lemma_map_of_update(before, i as int, (key, value));
                }
                entries.set(i, (key, value));
            },
            None => {
                entries.push((key, value));
                proof {
                    assert(entries@.drop_last() == before);
                }
            },
        }
        self.entries = entries;
    }

    /// Stores every entry of `other`, replacing what was stored under the
    /// same names.
    pub fn extend(&mut self, other: NameMap<V>)
        ensures
            final(self)@ == old(self)@.union_prefer_right(other@),
    {
        proof {
            use_type_invariant(&other);
        }
        let ghost start = self@;
        let ghost all = other.entries@;
        let entries = other.entries;
        for e in it: entries.into_iter()
            invariant
                it.seq() == all,
                self@ == start.union_prefer_right(map_of(all.take(it.index()))),
        {
            let ghost k = it.index();
            let (key, value) = e;
            proof {
                assert(all.take(k + 1).drop_last() == all.take(k));
                assert(all.take(k + 1).last() == all[k]);
            }
            self.insert(key, value);
            assert(self@ =~= start.union_prefer_right(map_of(all.take(k + 1))));
        }
        assert(all.take(all.len() as int) == all);
    }

    /// The entries of the table, each name once.
    pub fn entries(&self) -> (r: &Vec<(String, V)>)
        ensures
            keys_distinct(r@),
            map_of(r@) == self@,
    {
        proof {
            use_type_invariant(self);
        }
        &self.entries
    }
}

} // verus!
