use vstd::prelude::*;

verus! {

/// Whether the list of entries has `key`.
pub open spec fn entries_have(e: Seq<(String, String)>, key: Seq<char>) -> bool {
    exists|i: int| 0 <= i < e.len() && (#[trigger] e[i]).0@ == key
}

/// Position of `key` in the list of entries.
pub open spec fn entry_index(e: Seq<(String, String)>, key: Seq<char>) -> int {
    choose|i: int| 0 <= i < e.len() && (#[trigger] e[i]).0@ == key
}

/// No key occurs twice in the list of entries.
pub open spec fn entries_distinct(e: Seq<(String, String)>) -> bool {
    forall|i: int, j: int|
        0 <= i < e.len() && 0 <= j < e.len() && i != j ==> (#[trigger] e[i]).0@ != (#[trigger] e[j]).0@
}

/// The map from keys to values that the list of entries describes.
pub open spec fn entries_map(e: Seq<(String, String)>) -> Map<Seq<char>, Seq<char>> {
    Map::new(|k: Seq<char>| entries_have(e, k), |k: Seq<char>| e[entry_index(e, k)].1@)
}

proof fn lemma_entry_index(e: Seq<(String, String)>, i: int)
    requires
        entries_distinct(e),
        0 <= i < e.len(),
    ensures
        entries_have(e, e[i].0@),
        entry_index(e, e[i].0@) == i,
{
    assert(entries_have(e, e[i].0@));
}

/// The keys of the list of entries, in order.
pub open spec fn entries_keys(e: Seq<(String, String)>) -> Seq<Seq<char>> {
    e.map_values(|p: (String, String)| p.0@)
}

proof fn lemma_entries_dom(e: Seq<(String, String)>)
    requires
        entries_distinct(e),
    ensures
        entries_map(e).dom() == entries_keys(e).to_set(),
        entries_map(e).dom().finite(),
        entries_map(e).dom().len() == e.len(),
{
    broadcast use vstd::seq_lib::seq_to_set_is_finite;

    let keys = entries_keys(e);
    assert forall|k: Seq<char>| #[trigger] entries_map(e).dom().contains(k) == keys.to_set().contains(k) by {
        if entries_have(e, k) {
            let j = choose|j: int| 0 <= j < e.len() && (#[trigger] e[j]).0@ == k;
            assert(keys[j] == k);
        }
        if keys.to_set().contains(k) {
            let j = choose|j: int| 0 <= j < keys.len() && keys[j] == k;
            assert(e[j].0@ == k);
        }
    }
    assert(entries_map(e).dom() =~= keys.to_set());
    assert(keys.no_duplicates()) by {
        assert forall|a: int, b: int| 0 <= a < keys.len() && 0 <= b < keys.len() && a != b implies keys[a]
            != keys[b] by {
            assert(e[a].0@ != e[b].0@);
        }
    }
    keys.unique_seq_to_set();
}

/// Tags of a map object: a finite map from tag keys to tag values.
#[derive(Debug)]
pub struct Tags {
    entries: Vec<(String, String)>,
}

impl View for Tags {
    type V = Map<Seq<char>, Seq<char>>;

    closed spec fn view(&self) -> Map<Seq<char>, Seq<char>> {
        entries_map(self.entries@)
    }
}

impl Tags {
    #[verifier::type_invariant]
    closed spec fn inv(self) -> bool {
        entries_distinct(self.entries@)
    }

    pub fn new() -> (r: Tags)
        ensures
            r@ == Map::<Seq<char>, Seq<char>>::empty(),
    {
        let r = Tags { entries: Vec::new() };
        assert(r@ =~= Map::<Seq<char>, Seq<char>>::empty());
        r
    }

    fn find(&self, key: &str) -> (r: Option<usize>)
        ensures
            match r {
                Some(i) => i < self.entries@.len() && self.entries@[i as int].0@ == key@,
                None => !entries_have(self.entries@, key@),
            },
    {
        let key_string = String::from_str(key);
        let mut i: usize = 0;
        while i < self.entries.len()
            invariant
                i <= self.entries@.len(),
                key_string@ == key@,
                forall|j: int| 0 <= j < i ==> (#[trigger] self.entries@[j]).0@ != key@,
            decreases self.entries@.len() - i,
        {
            if self.entries[i].0 == key_string {
                return Some(i);
            }
            i = i + 1;
        }
        None
    }

    pub fn contains_key(&self, key: &str) -> (r: bool)
        ensures
            r == self@.contains_key(key@),
    {
        self.find(key).is_some()
    }

    pub fn get(&self, key: &str) -> (r: Option<&str>)
        ensures
            match r {
                Some(v) => self@.contains_key(key@) && v@ == self@[key@],
                None => !self@.contains_key(key@),
            },
    {
        proof {
            use_type_invariant(self);
        }
        match self.find(key) {
            Some(i) => {
                proof {
                    lemma_entry_index(self.entries@, i as int);
                }
                Some(self.entries[i].1.as_str())
            },
            None => None,
        }
    }

    pub fn insert(&mut self, key: String, value: String)
        ensures
            final(self)@ == old(self)@.insert(key@, value@),
    {
        proof {
            use_type_invariant(&*self);
        }
        let ghost old_e = self.entries@;
        match self.find(key.as_str()) {
            Some(i) => {
                let mut entries: Vec<(String, String)> = Vec::new();
                std::mem::swap(&mut entries, &mut self.entries);
                entries.set(i, (key, value));
                proof {
                    let e = entries@;
                    assert(e == old_e.update(i as int, e[i as int]));
                    assert(entries_distinct(e)) by {
                        assert forall|a: int, b: int|
                            0 <= a < e.len() && 0 <= b < e.len() && a != b implies (#[trigger] e[a]).0@
                            != (#[trigger] e[b]).0@ by {
                            assert(old_e[a].0@ != old_e[b].0@);
                        }
                    }
                    assert forall|k: Seq<char>| #[trigger] entries_have(e, k) == entries_have(old_e, k) by {
                        if entries_have(e, k) {
                            let j = choose|j: int| 0 <= j < e.len() && (#[trigger] e[j]).0@ == k;
                            assert(old_e[j].0@ == k);
                        }
                        if entries_have(old_e, k) {
                            let j = choose|j: int| 0 <= j < old_e.len() && (#[trigger] old_e[j]).0@ == k;
                            assert(e[j].0@ == k);
                        }
                    }
                    assert forall|k: Seq<char>| entries_have(e, k) implies #[trigger] e[entry_index(e, k)].1@
                        == entries_map(old_e).insert(key@, value@)[k] by {
                        let j = choose|j: int| 0 <= j < e.len() && (#[trigger] e[j]).0@ == k;
                        lemma_entry_index(e, j);
                        lemma_entry_index(old_e, j);
                    }
                    assert(entries_map(e) =~= entries_map(old_e).insert(key@, value@));
                }
                self.entries = entries;
            },
            None => {
                let mut entries: Vec<(String, String)> = Vec::new();
                std::mem::swap(&mut entries, &mut self.entries);
                entries.push((key, value));
                proof {
                    let e = entries@;
                    assert(e == old_e.push(e[old_e.len() as int]));
                    assert forall|k: Seq<char>| #[trigger] entries_have(e, k) == (entries_have(old_e, k) || k == key@) by {
                        if entries_have(e, k) {
                            let j = choose|j: int| 0 <= j < e.len() && (#[trigger] e[j]).0@ == k;
                            if j < old_e.len() {
                                assert(old_e[j].0@ == k);
                            }
                        }
                        if entries_have(old_e, k) {
                            let j = choose|j: int| 0 <= j < old_e.len() && (#[trigger] old_e[j]).0@ == k;
                            assert(e[j].0@ == k);
                        }
                        if k == key@ {
                            assert(e[old_e.len() as int].0@ == k);
                        }
                    }
                    assert(entries_distinct(e));
                    assert forall|k: Seq<char>| entries_have(e, k) implies #[trigger] e[entry_index(e, k)].1@
                        == entries_map(old_e).insert(key@, value@)[k] by {
                        let j = choose|j: int| 0 <= j < e.len() && (#[trigger] e[j]).0@ == k;
                        lemma_entry_index(e, j);
                        if j < old_e.len() {
                            lemma_entry_index(old_e, j);
                        }
                    }
                    assert(entries_map(e) =~= entries_map(old_e).insert(key@, value@));
                }
                self.entries = entries;
            },
        }
    }

    pub fn remove(&mut self, key: &str)
        ensures
            final(self)@ == old(self)@.remove(key@),
    {
        proof {
            use_type_invariant(&*self);
        }
        let ghost old_e = self.entries@;
        match self.find(key) {
            Some(i) => {
                let mut entries: Vec<(String, String)> = Vec::new();
                std::mem::swap(&mut entries, &mut self.entries);
                entries.remove(i);
                proof {
                    let e = entries@;
                    assert(e == old_e.remove(i as int));
                    assert forall|a: int| 0 <= a < e.len() implies #[trigger] e[a] == old_e[if a < i { a } else { a + 1 }] by {
                    }
                    assert(entries_distinct(e)) by {
                        assert forall|a: int, b: int|
                            0 <= a < e.len() && 0 <= b < e.len() && a != b implies (#[trigger] e[a]).0@
                            != (#[trigger] e[b]).0@ by {
                            let a2 = if a < i { a } else { a + 1 };
                            let b2 = if b < i { b } else { b + 1 };
                            assert(old_e[a2].0@ != old_e[b2].0@);
                        }
                    }
                    assert forall|k: Seq<char>| #[trigger] entries_have(e, k) == (entries_have(old_e, k) && k != key@) by {
                        if entries_have(e, k) {
                            let j = choose|j: int| 0 <= j < e.len() && (#[trigger] e[j]).0@ == k;
                            let j2 = if j < i { j } else { j + 1 };
                            assert(old_e[j2].0@ == k);
                            assert(j2 != i);
                        }
                        if entries_have(old_e, k) && k != key@ {
                            let j = choose|j: int| 0 <= j < old_e.len() && (#[trigger] old_e[j]).0@ == k;
                            assert(j != i);
                            let j2 = if j < i { j } else { j - 1 };
                            assert(e[j2].0@ == k);
                        }
                    }
                    assert forall|k: Seq<char>| entries_have(e, k) implies #[trigger] e[entry_index(e, k)].1@
                        == entries_map(old_e).remove(key@)[k] by {
                        let j = choose|j: int| 0 <= j < e.len() && (#[trigger] e[j]).0@ == k;
                        lemma_entry_index(e, j);
                        let j2 = if j < i { j } else { j + 1 };
                        lemma_entry_index(old_e, j2);
                    }
                    assert(entries_map(e) =~= entries_map(old_e).remove(key@));
                }
                self.entries = entries;
            },
            None => {
                assert(entries_map(old_e) =~= entries_map(old_e).remove(key@));
            },
        }
    }
}

impl PartialEq for Tags {
    fn eq(&self, other: &Tags) -> (r: bool) {
        proof {
            use_type_invariant(self);
            use_type_invariant(other);
            lemma_entries_dom(self.entries@);
            lemma_entries_dom(other.entries@);
        }
        if self.entries.len() != other.entries.len() {
            return false;
        }
        let mut i: usize = 0;
        while i < self.entries.len()
            invariant
                i <= self.entries@.len(),
                entries_distinct(self.entries@),
                forall|j: int|
                    0 <= j < i ==> other@.contains_key((#[trigger] self.entries@[j]).0@) && other@[self.entries@[j].0@]
                        == self.entries@[j].1@,
            decreases self.entries@.len() - i,
        {
            let key = self.entries[i].0.as_str();
            proof {
                lemma_entry_index(self.entries@, i as int);
            }
            match other.get(key) {
                Some(v) => {
                    let value = String::from_str(v);
                    if value != self.entries[i].1 {
                        return false;
                    }
                },
                None => {
                    return false;
                },
            }
            i = i + 1;
        }
        proof {
            assert forall|k: Seq<char>| #[trigger] self@.contains_key(k) implies other@.contains_key(k) && other@[k] == self@[k] by {
                let j = choose|j: int| 0 <= j < self.entries@.len() && (#[trigger] self.entries@[j]).0@ == k;
                lemma_entry_index(self.entries@, j);
            }
            vstd::set_lib::lemma_subset_equality(self@.dom(), other@.dom());
            assert(self@ =~= other@);
        }
        true
    }
}

impl vstd::std_specs::cmp::PartialEqSpecImpl for Tags {
    open spec fn obeys_eq_spec() -> bool {
        true
    }

    open spec fn eq_spec(&self, other: &Tags) -> bool {
        self@ == other@
    }
}

impl Clone for Tags {
    fn clone(&self) -> (r: Tags)
        ensures
            r@ == self@,
    {
        proof {
            use_type_invariant(self);
        }
        let mut entries: Vec<(String, String)> = Vec::new();
        let mut i: usize = 0;
        while i < self.entries.len()
            invariant
                i <= self.entries@.len(),
                entries@.len() == i,
                forall|j: int| 0 <= j < i ==> #[trigger] entries@[j] == self.entries@[j],
            decreases self.entries@.len() - i,
        {
            let (k, v) = &self.entries[i];
            entries.push((k.clone(), v.clone()));
            i = i + 1;
        }
        assert(entries@ =~= self.entries@);
        Tags { entries }
    }
}

} // verus!
