//! The result of loading: a mapping from property name to property value.
use vstd::prelude::*;

verus! {

/// `str`'s `PartialEq::eq`, which `==` on string slices calls: two string
/// slices are equal exactly when they hold the same characters in the same
/// order.
pub assume_specification[ <str as PartialEq>::eq ](a: &str, b: &str) -> (r: bool)
    ensures
        r == (a@ == b@),
;

/// One property: a name and its value.
#[derive(Debug, PartialEq, Eq)]
pub struct Entry {
    pub key: String,
    pub value: String,
}

/// The mapping that a sequence of entries stands for when it is read from
/// first to last and a later entry replaces an earlier one of the same name.
pub open spec fn entries_map(s: Seq<Entry>) -> Map<Seq<char>, Seq<char>>
    decreases s.len(),
{
    if s.len() == 0 {
        Map::empty()
    } else {
        entries_map(s.drop_last()).insert(s.last().key@, s.last().value@)
    }
}

/// Whether no two entries of `s` have the same name.
pub open spec fn distinct_keys(s: Seq<Entry>) -> bool {
    forall|i: int, j: int| 0 <= i < j < s.len() ==> (#[trigger] s[i]).key@ != (#[trigger] s[j]).key@
}

/// The names in `entries_map(s)` are the names of the entries of `s`.
pub proof fn lemma_entries_map_dom(s: Seq<Entry>)
    ensures
        forall|k: Seq<char>| #[trigger]
            entries_map(s).contains_key(k) <==> exists|i: int|
                0 <= i < s.len() && (#[trigger] s[i]).key@ == k,
        entries_map(s).dom().finite(),
    decreases s.len(),
{
    if s.len() > 0 {
        let t = s.drop_last();
        lemma_entries_map_dom(t);
        assert forall|k: Seq<char>| #[trigger]
            entries_map(s).contains_key(k) implies exists|i: int|
            0 <= i < s.len() && (#[trigger] s[i]).key@ == k by {
            if k == s.last().key@ {
                assert(s[s.len() - 1].key@ == k);
            } else {
                let i = choose|i: int| 0 <= i < t.len() && (#[trigger] t[i]).key@ == k;
                assert(s[i].key@ == k);
            }
        }
        assert forall|k: Seq<char>|
            (exists|i: int|
                0 <= i < s.len() && (#[trigger] s[i]).key@ == k) implies #[trigger] entries_map(
            s,
        ).contains_key(k) by {
            let i = choose|i: int| 0 <= i < s.len() && (#[trigger] s[i]).key@ == k;
            if i < s.len() - 1 {
                assert(t[i].key@ == k);
            }
        }
    }
}

/// Where names are distinct, each entry's name is mapped to its value.
pub proof fn lemma_entries_map_value(s: Seq<Entry>, i: int)
    requires
        distinct_keys(s),
        0 <= i < s.len(),
    ensures
        entries_map(s).contains_key(s[i].key@),
        entries_map(s)[s[i].key@] == s[i].value@,
    decreases s.len(),
{
    if i < s.len() - 1 {
        let t = s.drop_last();
        assert(distinct_keys(t)) by {
            assert forall|a: int, b: int| 0 <= a < b < t.len() implies (#[trigger] t[a]).key@ != (
            #[trigger] t[b]).key@ by {
                assert(s[a].key@ != s[b].key@);
            }
        }
        lemma_entries_map_value(t, i);
        assert(s[i].key@ != s[s.len() - 1].key@);
    }
}

/// Where names are distinct, the mapping has as many names as there are
/// entries.
pub proof fn lemma_entries_map_len(s: Seq<Entry>)
    requires
        distinct_keys(s),
    ensures
        entries_map(s).dom().finite(),
        entries_map(s).dom().len() == s.len(),
    decreases s.len(),
{
    lemma_entries_map_dom(s);
    if s.len() > 0 {
        let t = s.drop_last();
        assert(distinct_keys(t)) by {
            assert forall|a: int, b: int| 0 <= a < b < t.len() implies (#[trigger] t[a]).key@ != (
            #[trigger] t[b]).key@ by {
                assert(s[a].key@ != s[b].key@);
            }
        }
        lemma_entries_map_len(t);
        lemma_entries_map_dom(t);
        if entries_map(t).contains_key(s.last().key@) {
            let i = choose|i: int| 0 <= i < t.len() && (#[trigger] t[i]).key@ == s.last().key@;
            assert(s[i].key@ != s[s.len() - 1].key@);
        }
    }
}

/// Replacing the value of entry `i` maps its name to the new value and
/// leaves every other name as it was.
pub proof fn lemma_entries_map_update(s: Seq<Entry>, i: int, e: Entry)
    requires
        distinct_keys(s),
        0 <= i < s.len(),
        e.key@ == s[i].key@,
    ensures
        distinct_keys(s.update(i, e)),
        entries_map(s.update(i, e)) == entries_map(s).insert(e.key@, e.value@),
    decreases s.len(),
{
    let u = s.update(i, e);
    assert(distinct_keys(u)) by {
        assert forall|a: int, b: int| 0 <= a < b < u.len() implies (#[trigger] u[a]).key@ != (
        #[trigger] u[b]).key@ by {
            assert(s[a].key@ != s[b].key@);
        }
    }
    let t = s.drop_last();
    if i == s.len() - 1 {
        assert(u.drop_last() == t);
        assert(entries_map(u) == entries_map(s).insert(e.key@, e.value@));
    } else {
        assert(distinct_keys(t)) by {
            assert forall|a: int, b: int| 0 <= a < b < t.len() implies (#[trigger] t[a]).key@ != (
            #[trigger] t[b]).key@ by {
                assert(s[a].key@ != s[b].key@);
            }
        }
        lemma_entries_map_update(t, i, e);
        assert(u.drop_last() == t.update(i, e));
        assert(s[i].key@ != s[s.len() - 1].key@);
        assert(u.last() == s.last());
        assert(entries_map(u) == entries_map(s).insert(e.key@, e.value@));
    }
}

/// A mapping from property name to property value. Each name occurs once; a
/// value may be empty.
#[derive(Debug)]
pub struct ConfigMap {
    entries: Vec<Entry>,
}

impl View for ConfigMap {
    type V = Map<Seq<char>, Seq<char>>;

    closed spec fn view(&self) -> Map<Seq<char>, Seq<char>> {
        entries_map(self.entries@)
    }
}

impl ConfigMap {
    #[verifier::type_invariant]
    spec fn well_formed(&self) -> bool {
        distinct_keys(self.entries@)
    }

    /// An empty mapping.
    pub fn new() -> (out: ConfigMap)
        ensures
            out@ == Map::<Seq<char>, Seq<char>>::empty(),
    {
        ConfigMap { entries: Vec::new() }
    }

    /// The number of properties.
    pub fn len(&self) -> (n: usize)
        ensures
            self@.dom().finite(),
            n == self@.dom().len(),
    {
        proof {
            use_type_invariant(self);
            lemma_entries_map_len(self.entries@);
        }
        self.entries.len()
    }

    /// Whether there is no property.
    pub fn is_empty(&self) -> (b: bool)
        ensures
            b == (self@ == Map::<Seq<char>, Seq<char>>::empty()),
    {
        proof {
            if self.entries@.len() == 0 {
                assert(self@ == Map::<Seq<char>, Seq<char>>::empty());
            } else {
                assert(self@.contains_key(self.entries@.last().key@));
            }
        }
        self.entries.len() == 0
    }

    /// The place of the entry named `key`, if there is one.
    fn find(&self, key: &str) -> (out: Option<usize>)
        ensures
            match out {
                Some(i) => i < self.entries@.len() && self.entries@[i as int].key@ == key@,
                None => !self@.contains_key(key@),
            },
    {
        let mut i: usize = 0;
        while i < self.entries.len()
            invariant
                i <= self.entries@.len(),
                forall|j: int| 0 <= j < i ==> (#[trigger] self.entries@[j]).key@ != key@,
            decreases self.entries@.len() - i,
        {
            if self.entries[i].key.as_str().eq(key) {
                return Some(i);
            }
            i += 1;
        }
        proof {
            lemma_entries_map_dom(self.entries@);
        }
        None
    }

    /// Whether `key` names a property.
    pub fn contains_key(&self, key: &str) -> (b: bool)
        ensures
            b == self@.contains_key(key@),
    {
        match self.find(key) {
            Some(i) => {
                proof {
                    use_type_invariant(self);
                    lemma_entries_map_value(self.entries@, i as int);
                }
                true
            },
            None => false,
        }
    }

    /// The value of the property named `key`, if there is one.
    pub fn get(&self, key: &str) -> (out: Option<&String>)
        ensures
            match out {
                Some(v) => self@.contains_key(key@) && v@ == self@[key@],
                None => !self@.contains_key(key@),
            },
    {
        match self.find(key) {
            Some(i) => {
                proof {
                    use_type_invariant(self);
                    lemma_entries_map_value(self.entries@, i as int);
                }
                Some(&self.entries[i].value)
            },
            None => None,
        }
    }

    /// Sets the property named `key` to `value`, whether or not it had a
    /// value before.
    pub fn insert(&mut self, key: String, value: String)
        ensures
            final(self)@ == old(self)@.insert(key@, value@),
    {
        proof {
            use_type_invariant(&*self);
        }
        match self.find(key.as_str()) {
            Some(i) => {
                let e = Entry { key, value };
                proof {
                    lemma_entries_map_update(self.entries@, i as int, e);
                }
                let mut entries: Vec<Entry> = Vec::new();
                core::mem::swap(&mut self.entries, &mut entries);
                entries.set(i, e);
                core::mem::swap(&mut self.entries, &mut entries);
            },
            None => {
                let e = Entry { key, value };
                proof {
                    lemma_entries_map_dom(self.entries@);
                    let s = self.entries@.push(e);
                    assert(s.drop_last() == self.entries@);
                    assert(distinct_keys(s)) by {
                        assert forall|a: int, b: int| 0 <= a < b < s.len() implies (
                        #[trigger] s[a]).key@ != (#[trigger] s[b]).key@ by {
                            if b < s.len() - 1 {
                                assert(self.entries@[a].key@ != self.entries@[b].key@);
                            } else {
                                assert(self.entries@[a].key@ == s[a].key@);
                            }
                        }
                    }
                }
                let mut entries: Vec<Entry> = Vec::new();
                core::mem::swap(&mut self.entries, &mut entries);
                entries.push(e);
                core::mem::swap(&mut self.entries, &mut entries);
            },
        }
    }

    /// Takes over every property of `other`; where both have a value for a
    /// name, that of `other` stays.
    pub fn merge(&mut self, other: &ConfigMap)
        ensures
            final(self)@ == old(self)@.union_prefer_right(other@),
    {
        let mut i: usize = 0;
        assert(other.entries@.subrange(0, 0) == Seq::<Entry>::empty());
        assert(self@ == old(self)@.union_prefer_right(Map::empty()));
        while i < other.entries.len()
            invariant
                i <= other.entries@.len(),
                self@ == old(self)@.union_prefer_right(
                    entries_map(other.entries@.subrange(0, i as int)),
                ),
            decreases other.entries@.len() - i,
        {
            let key = other.entries[i].key.clone();
            let value = other.entries[i].value.clone();
            proof {
                let s = other.entries@.subrange(0, i + 1);
                assert(s.drop_last() == other.entries@.subrange(0, i as int));
                assert(s.last() == other.entries@[i as int]);
                let m = entries_map(s.drop_last());
                assert(old(self)@.union_prefer_right(m).insert(key@, value@) == old(
                    self,
                )@.union_prefer_right(m.insert(key@, value@)));
            }
            self.insert(key, value);
            i += 1;
        }
        assert(other.entries@.subrange(0, i as int) == other.entries@);
    }

    /// The properties one by one, each name once.
    pub fn entries(&self) -> (out: &Vec<Entry>)
        ensures
            distinct_keys(out@),
            entries_map(out@) == self@,
    {
        proof {
            use_type_invariant(self);
        }
        &self.entries
    }
}

impl Clone for ConfigMap {
    /// A mapping with the same properties.
    fn clone(&self) -> (out: ConfigMap)
        ensures
            out@ == self@,
    {
        let mut out = ConfigMap::new();
        out.merge(self);
        assert(out@ == self@) by {
            assert(Map::<Seq<char>, Seq<char>>::empty().union_prefer_right(self@) == self@);
        }
        out
    }
}

} // verus!
