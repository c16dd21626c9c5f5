use vstd::prelude::*;
use crate::datalog::types::{SourceLocation, copy_string};
use crate::text::str_eq;

verus! {

/// Whether no key occurs twice in an association list.
pub open spec fn keys_distinct<V>(s: Seq<(Seq<char>, V)>) -> bool {
    forall|i: int, j: int| 0 <= i < s.len() && 0 <= j < s.len() && i != j ==> s[i].0 != s[j].0
}

/// Whether `k` is a key of an association list.
pub open spec fn has_key<V>(s: Seq<(Seq<char>, V)>, k: Seq<char>) -> bool {
    exists|i: int| 0 <= i < s.len() && s[i].0 == k
}

/// The map that an association list with distinct keys stands for.
pub open spec fn assoc_map<V>(s: Seq<(Seq<char>, V)>) -> Map<Seq<char>, V> {
    Map::new(
        |k: Seq<char>| has_key(s, k),
        |k: Seq<char>| s[choose|i: int| 0 <= i < s.len() && s[i].0 == k].1,
    )
}

pub proof fn lemma_assoc_index<V>(s: Seq<(Seq<char>, V)>, i: int)
    requires
        keys_distinct(s),
        0 <= i < s.len(),
    ensures
        assoc_map(s).contains_key(s[i].0),
        assoc_map(s)[s[i].0] == s[i].1,
{
    let k = s[i].0;
    assert(has_key(s, k));
    let c = choose|j: int| 0 <= j < s.len() && s[j].0 == k;
    assert(c == i);
}

pub proof fn lemma_assoc_push<V>(s: Seq<(Seq<char>, V)>, k: Seq<char>, v: V)
    requires
        keys_distinct(s),
        !has_key(s, k),
    ensures
        keys_distinct(s.push((k, v))),
        assoc_map(s.push((k, v))) == assoc_map(s).insert(k, v),
{
    let t = s.push((k, v));
    assert(keys_distinct(t));
    assert forall|key: Seq<char>| #[trigger] assoc_map(t).contains_key(key) == assoc_map(s).insert(k, v).contains_key(key) by {
        if has_key(t, key) && key != k {
            let j = choose|j: int| 0 <= j < t.len() && t[j].0 == key;
            assert(j < s.len());
            assert(has_key(s, key));
        }
        if has_key(s, key) {
            let j = choose|j: int| 0 <= j < s.len() && s[j].0 == key;
            assert(t[j].0 == key);
        }
        if key == k {
            assert(t[s.len() as int].0 == key);
        }
    }
    assert forall|key: Seq<char>| assoc_map(t).contains_key(key) implies #[trigger] assoc_map(t)[key] == assoc_map(s).insert(k, v)[key] by {
        let j = choose|j: int| 0 <= j < t.len() && t[j].0 == key;
        lemma_assoc_index(t, j);
        if j < s.len() {
            lemma_assoc_index(s, j);
        }
    }
    assert(assoc_map(t) =~= assoc_map(s).insert(k, v));
}

pub proof fn lemma_assoc_update<V>(s: Seq<(Seq<char>, V)>, i: int, v: V)
    requires
        keys_distinct(s),
        0 <= i < s.len(),
    ensures
        keys_distinct(s.update(i, (s[i].0, v))),
        assoc_map(s.update(i, (s[i].0, v))) == assoc_map(s).insert(s[i].0, v),
{
    let k = s[i].0;
    let t = s.update(i, (k, v));
    assert(keys_distinct(t));
    assert forall|key: Seq<char>| #[trigger] assoc_map(t).contains_key(key) == assoc_map(s).insert(k, v).contains_key(key) by {
        if has_key(t, key) {
            let j = choose|j: int| 0 <= j < t.len() && t[j].0 == key;
            assert(s[j].0 == key);
        }
        if has_key(s, key) {
            let j = choose|j: int| 0 <= j < s.len() && s[j].0 == key;
            assert(t[j].0 == key);
        }
        if key == k {
            assert(t[i].0 == key);
        }
    }
    assert forall|key: Seq<char>| assoc_map(t).contains_key(key) implies #[trigger] assoc_map(t)[key] == assoc_map(s).insert(k, v)[key] by {
        let j = choose|j: int| 0 <= j < t.len() && t[j].0 == key;
        lemma_assoc_index(t, j);
        lemma_assoc_index(s, j);
    }
    assert(assoc_map(t) =~= assoc_map(s).insert(k, v));
}

/// Source locations by name: a map from names to the place that declares them.
pub struct Locations {
    entries: Vec<(String, SourceLocation)>,
}

pub open spec fn entry_view(e: (String, SourceLocation)) -> (Seq<char>, (Seq<char>, nat)) {
    (e.0@, e.1@)
}

impl Locations {
    /// The entries, in the order in which their names were first recorded.
    pub closed spec fn entries_view(&self) -> Seq<(Seq<char>, (Seq<char>, nat))> {
        self.entries@.map_values(|e: (String, SourceLocation)| entry_view(e))
    }

    #[verifier::type_invariant]
    closed spec fn inv(&self) -> bool {
        keys_distinct(self.entries_view())
    }

    /// The map from names to `(file, line)`.
    pub closed spec fn view(&self) -> Map<Seq<char>, (Seq<char>, nat)> {
        assoc_map(self.entries_view())
    }

    /// An empty map.
    pub fn new() -> (r: Self)
        ensures
            r@ == Map::<Seq<char>, (Seq<char>, nat)>::empty(),
    {
        let r = Locations { entries: Vec::new() };
        assert(r.entries_view() =~= Seq::<(Seq<char>, (Seq<char>, nat))>::empty());
        assert(r@ =~= Map::<Seq<char>, (Seq<char>, nat)>::empty());
        r
    }

    fn index_of(&self, key: &str) -> (r: Option<usize>)
        ensures
            match r {
                Some(i) => i < self.entries_view().len() && self.entries_view()[i as int].0 == key@,
                None => !has_key(self.entries_view(), key@),
            },
    {
        let mut i: usize = 0;
        while i < self.entries.len()
            invariant
                i <= self.entries@.len(),
                forall|j: int| 0 <= j < i ==> self.entries_view()[j].0 != key@,
            decreases self.entries@.len() - i,
        {
            if str_eq(self.entries[i].0.as_str(), key) {
                return Some(i);
            }
            i = i + 1;
        }
        None
    }

    /// The location recorded for `key`.
    pub fn get(&self, key: &str) -> (r: Option<&SourceLocation>)
        ensures
            match r {
                Some(l) => self@.contains_key(key@) && self@[key@] == l@,
                None => !self@.contains_key(key@),
            },
    {
        proof { use_type_invariant(self); }
        match self.index_of(key) {
            Some(i) => {
                proof { lemma_assoc_index(self.entries_view(), i as int); }
                Some(&self.entries[i].1)
            },
            None => None,
        }
    }

    /// Whether a location is recorded for `key`.
    pub fn contains_key(&self, key: &str) -> (r: bool)
        ensures
            r == self@.contains_key(key@),
    {
        proof { use_type_invariant(self); }
        match self.index_of(key) {
            Some(i) => {
                proof { lemma_assoc_index(self.entries_view(), i as int); }
                true
            },
            None => false,
        }
    }

    /// Records `loc` for `key`, replacing what was recorded before.
    pub fn insert(&mut self, key: String, loc: SourceLocation)
        ensures
            final(self)@ == old(self)@.insert(key@, loc@),
    {
        proof { use_type_invariant(&*self); }
        let ghost old_view = self.entries_view();
        let pos = self.index_of(key.as_str());
        let mut entries: Vec<(String, SourceLocation)> = Vec::new();
        std::mem::swap(&mut entries, &mut self.entries);
        let ghost kv = key@;
        let ghost lv = loc@;
        match pos {
            Some(i) => {
                proof { lemma_assoc_update(old_view, i as int, lv); }
                entries.set(i, (key, loc));
                assert(entries@.map_values(|e: (String, SourceLocation)| entry_view(e)) =~= old_view.update(i as int, (kv, lv)));
            },
            None => {
                proof { lemma_assoc_push(old_view, kv, lv); }
                entries.push((key, loc));
                assert(entries@.map_values(|e: (String, SourceLocation)| entry_view(e)) =~= old_view.push((kv, lv)));
            },
        }
        self.entries = entries;
    }

    /// Whether nothing is recorded.
    pub fn is_empty(&self) -> (r: bool)
        ensures
            r == (self@.dom() == Set::<Seq<char>>::empty()),
    {
        proof { use_type_invariant(self); }
        let r = self.entries.len() == 0;
        proof {
            if r {
                assert(self@.dom() =~= Set::<Seq<char>>::empty());
            } else {
                lemma_assoc_index(self.entries_view(), 0);
                assert(self@.dom().contains(self.entries_view()[0].0));
            }
        }
        r
    }

    /// The number of names recorded.
    pub fn len(&self) -> (r: usize)
        ensures
            r == self.entries_view().len(),
    {
        self.entries.len()
    }

    /// The recorded pairs, in the order in which their names were first recorded.
    pub fn pairs(&self) -> (r: Vec<(String, SourceLocation)>)
        ensures
            r@.map_values(|e: (String, SourceLocation)| entry_view(e)) == self.entries_view(),
            keys_distinct(self.entries_view()),
            assoc_map(self.entries_view()) == self@,
    {
        proof { use_type_invariant(self); }
        let mut r: Vec<(String, SourceLocation)> = Vec::new();
        let mut i: usize = 0;
        while i < self.entries.len()
            invariant
                i <= self.entries@.len(),
                r@.map_values(|e: (String, SourceLocation)| entry_view(e)) == self.entries_view().take(i as int),
            decreases self.entries@.len() - i,
        {
            let e = &self.entries[i];
            let item = (copy_string(&e.0), SourceLocation { file: copy_string(&e.1.file), line: e.1.line });
            assert(entry_view(item) == self.entries_view()[i as int]);
            let ghost before = r@;
            r.push(item);
            assert(r@.map_values(|e: (String, SourceLocation)| entry_view(e)) =~= before.map_values(|e: (String, SourceLocation)| entry_view(e)).push(entry_view(item)));
            i = i + 1;
            assert(r@.map_values(|e: (String, SourceLocation)| entry_view(e)) =~= self.entries_view().take(i as int));
        }
        assert(self.entries_view().take(i as int) =~= self.entries_view());
        r
    }
}

} // verus!
