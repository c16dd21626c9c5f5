use vstd::prelude::*;
use crate::text::str_eq;
use crate::datalog::types::{Value, SpecValue, Fact, SpecFact, SpecRule, values_view, facts_view, copy_string, copy_value, value_eq};

verus! {

/// The first position of key `k` in an association list.
pub open spec fn key_index<V>(s: Seq<(Seq<char>, V)>, k: Seq<char>) -> Option<int>
    decreases s.len(),
{
    if s.len() == 0 {
        None
    } else {
        match key_index(s.drop_last(), k) {
            Some(i) => Some(i),
            None => if s.last().0 == k { Some(s.len() - 1) } else { None },
        }
    }
}

/// The value of the first entry with key `k`.
pub open spec fn lookup<V>(s: Seq<(Seq<char>, V)>, k: Seq<char>) -> Option<V> {
    match key_index(s, k) {
        Some(i) => Some(s[i].1),
        None => None,
    }
}

/// `s` with the first entry of key `k` given the value `v`, or the entry added at the end.
pub open spec fn assoc_put<V>(s: Seq<(Seq<char>, V)>, k: Seq<char>, v: V) -> Seq<(Seq<char>, V)> {
    match key_index(s, k) {
        Some(i) => s.update(i, (k, v)),
        None => s.push((k, v)),
    }
}

pub proof fn lemma_key_index_take<V>(s: Seq<(Seq<char>, V)>, k: Seq<char>, i: int)
    requires
        0 <= i < s.len(),
    ensures
        key_index(s.take(i + 1), k) == match key_index(s.take(i), k) {
            Some(j) => Some(j),
            None => if s[i].0 == k { Some(i) } else { None },
        },
{
    assert(s.take(i + 1).drop_last() =~= s.take(i));
}

pub proof fn lemma_key_index_bounds<V>(s: Seq<(Seq<char>, V)>, k: Seq<char>)
    ensures
        key_index(s, k) matches Some(i) ==> 0 <= i < s.len() && s[i].0 == k,
        key_index(s, k) is None ==> forall|j: int| 0 <= j < s.len() ==> s[j].0 != k,
    decreases s.len(),
{
    if s.len() > 0 {
        lemma_key_index_bounds(s.drop_last(), k);
        if key_index(s, k) is None {
            assert forall|j: int| 0 <= j < s.len() implies s[j].0 != k by {
                if j < s.len() - 1 {
                    assert(s.drop_last()[j] == s[j]);
                }
            }
        }
    }
}

/// The facts stored for one predicate, in the order in which they were added.
pub struct FactGroup {
    pub predicate: String,
    pub facts: Vec<Fact>,
}

pub open spec fn group_view(g: FactGroup) -> (Seq<char>, Seq<SpecFact>) {
    (g.predicate@, facts_view(g.facts@))
}

pub open spec fn groups_view(gs: Seq<FactGroup>) -> Seq<(Seq<char>, Seq<SpecFact>)> {
    gs.map_values(|g: FactGroup| group_view(g))
}

pub open spec fn strings_view(ss: Seq<String>) -> Seq<Seq<char>> {
    ss.map_values(|s: String| s@)
}

pub open spec fn table_view(t: Seq<(String, Vec<String>)>) -> Seq<(Seq<char>, Seq<Seq<char>>)> {
    t.map_values(|e: (String, Vec<String>)| (e.0@, strings_view(e.1@)))
}

/// The model of the engine.
pub struct SpecEngine {
    /// The base facts by predicate, each group in the order of insertion.
    pub groups: Seq<(Seq<char>, Seq<SpecFact>)>,
    /// The rules, in the order in which they were compiled.
    pub rules: Seq<SpecRule>,
    /// The recorded source locations, in the order in which their names were first recorded.
    pub locations: Seq<(Seq<char>, (Seq<char>, nat))>,
    /// Whether `resolve` may ask for tools to be run.
    pub resolve_enabled: bool,
    /// The output lines recorded for resolved targets.
    pub resolutions: Seq<(Seq<char>, Seq<Seq<char>>)>,
    /// The files found on disk for the glob patterns that were scanned.
    pub globbed: Seq<(Seq<char>, Seq<Seq<char>>)>,
}

/// The base facts of a predicate, in insertion order.
pub open spec fn base_facts(e: SpecEngine, p: Seq<char>) -> Seq<SpecFact> {
    match lookup(e.groups, p) {
        Some(fs) => fs,
        None => Seq::empty(),
    }
}

/// The rules whose head is `p`, in compile order.
pub open spec fn rules_for(rules: Seq<SpecRule>, p: Seq<char>) -> Seq<SpecRule>
    decreases rules.len(),
{
    if rules.len() == 0 {
        Seq::empty()
    } else {
        let prev = rules_for(rules.drop_last(), p);
        if rules.last().head.name == p { prev.push(rules.last()) } else { prev }
    }
}

pub open spec fn has_rules(rules: Seq<SpecRule>, p: Seq<char>) -> bool {
    rules_for(rules, p).len() > 0
}

/// The groups after the facts `fs` were added, each to the group of its predicate.
pub open spec fn groups_after_insert(gs: Seq<(Seq<char>, Seq<SpecFact>)>, fs: Seq<SpecFact>) -> Seq<(Seq<char>, Seq<SpecFact>)>
    decreases fs.len(),
{
    if fs.len() == 0 {
        gs
    } else {
        let prev = groups_after_insert(gs, fs.drop_last());
        let f = fs.last();
        match lookup(prev, f.predicate) {
            Some(old) => assoc_put(prev, f.predicate, old.push(f)),
            None => assoc_put(prev, f.predicate, seq![f]),
        }
    }
}

/// The position of the last occurrence of `f` in `s`.
pub open spec fn last_index(s: Seq<SpecFact>, f: SpecFact) -> Option<int>
    decreases s.len(),
{
    if s.len() == 0 {
        None
    } else if s.last() == f {
        Some(s.len() - 1)
    } else {
        last_index(s.drop_last(), f)
    }
}

/// `s` without the element at `i`, the last element moved into its place.
pub open spec fn swap_removed(s: Seq<SpecFact>, i: int) -> Seq<SpecFact> {
    if i == s.len() - 1 { s.drop_last() } else { s.update(i, s.last()).drop_last() }
}

/// `s` without the last occurrence of `f`, if any (the last element takes its place).
pub open spec fn retract_one(s: Seq<SpecFact>, f: SpecFact) -> Seq<SpecFact> {
    match last_index(s, f) {
        Some(i) => swap_removed(s, i),
        None => s,
    }
}

/// The groups after the facts `fs` were retracted in order.
pub open spec fn groups_after_retract(gs: Seq<(Seq<char>, Seq<SpecFact>)>, fs: Seq<SpecFact>) -> Seq<(Seq<char>, Seq<SpecFact>)>
    decreases fs.len(),
{
    if fs.len() == 0 {
        gs
    } else {
        let prev = groups_after_retract(gs, fs.drop_last());
        let f = fs.last();
        match lookup(prev, f.predicate) {
            Some(old) => assoc_put(prev, f.predicate, retract_one(old, f)),
            None => prev,
        }
    }
}

/// The `source_location` facts that the recorded locations stand for.
pub open spec fn location_fact(e: (Seq<char>, (Seq<char>, nat))) -> SpecFact {
    SpecFact {
        predicate: "source_location"@,
        args: seq![SpecValue::Str(e.0), SpecValue::Str(e.1.0), SpecValue::Int(e.1.1 as i64)],
    }
}

pub open spec fn materialized(locs: Seq<(Seq<char>, (Seq<char>, nat))>) -> Seq<SpecFact> {
    locs.map_values(|e: (Seq<char>, (Seq<char>, nat))| location_fact(e))
}

/// A deep copy of a fact.
pub fn copy_fact(f: &Fact) -> (r: Fact)
    ensures
        r@ == f@,
{
    let mut args: Vec<Value> = Vec::new();
    let mut i: usize = 0;
    while i < f.args.len()
        invariant
            i <= f.args@.len(),
            values_view(args@) == values_view(f.args@.take(i as int)),
        decreases f.args@.len() - i,
    {
        let v = copy_value(&f.args[i]);
        let ghost prev = args@;
        args.push(v);
        i = i + 1;
        assert(values_view(args@) =~= values_view(prev).push(v@));
        assert(values_view(f.args@.take(i as int)) =~= values_view(f.args@.take(i - 1)).push(f.args@[i - 1]@));
    }
    assert(f.args@.take(i as int) =~= f.args@);
    Fact { predicate: copy_string(&f.predicate), args }
}

/// Whether two facts are equal.
pub fn fact_eq(a: &Fact, b: &Fact) -> (r: bool)
    ensures
        r == (a@ == b@),
{
    if !crate::datalog::types::string_eq(&a.predicate, &b.predicate) || a.args.len() != b.args.len() {
        proof {
            if a.args@.len() != b.args@.len() {
                assert(a@.args.len() != b@.args.len());
            }
        }
        return false;
    }
    let mut i: usize = 0;
    while i < a.args.len()
        invariant
            i <= a.args@.len(),
            a.args@.len() == b.args@.len(),
            forall|j: int| 0 <= j < i ==> a.args@[j]@ == b.args@[j]@,
        decreases a.args@.len() - i,
    {
        if !value_eq(&a.args[i], &b.args[i]) {
            assert(a@.args[i as int] != b@.args[i as int]);
            return false;
        }
        i = i + 1;
    }
    assert(a@.args =~= b@.args);
    true
}

/// A copy of a list of strings.
pub fn copy_strings(ss: &Vec<String>) -> (r: Vec<String>)
    ensures
        strings_view(r@) == strings_view(ss@),
{
    let mut out: Vec<String> = Vec::new();
    let mut i: usize = 0;
    while i < ss.len()
        invariant
            i <= ss@.len(),
            strings_view(out@) == strings_view(ss@.take(i as int)),
        decreases ss@.len() - i,
    {
        let s = copy_string(&ss[i]);
        let ghost prev = out@;
        out.push(s);
        i = i + 1;
        assert(strings_view(out@) =~= strings_view(prev).push(s@));
        assert(strings_view(ss@.take(i as int)) =~= strings_view(ss@.take(i - 1)).push(ss@[i - 1]@));
    }
    assert(ss@.take(i as int) =~= ss@);
    out
}

/// The position of the first group of predicate `p`.
pub fn group_index(gs: &Vec<FactGroup>, p: &str) -> (r: Option<usize>)
    ensures
        match r {
            Some(i) => key_index(groups_view(gs@), p@) == Some(i as int),
            None => key_index(groups_view(gs@), p@) is None,
        },
{
    let ghost v = groups_view(gs@);
    let mut i: usize = 0;
    assert(v.take(0) =~= Seq::<(Seq<char>, Seq<SpecFact>)>::empty());
    while i < gs.len()
        invariant
            i <= gs@.len(),
            v == groups_view(gs@),
            key_index(v.take(i as int), p@) is None,
        decreases gs@.len() - i,
    {
        proof { lemma_key_index_take(v, p@, i as int); }
        assert(v[i as int].0 == gs@[i as int].predicate@);
        if str_eq(gs[i].predicate.as_str(), p) {
            proof { lemma_key_index_full(v, p@, i as int); }
            return Some(i);
        }
        i = i + 1;
    }
    assert(v.take(i as int) =~= v);
    None
}

/// Once a prefix holds key `k`, the whole list finds it at the same place.
pub proof fn lemma_key_index_full<V>(s: Seq<(Seq<char>, V)>, k: Seq<char>, i: int)
    requires
        0 <= i < s.len(),
        key_index(s.take(i + 1), k) == Some(i),
    ensures
        key_index(s, k) == Some(i),
    decreases s.len() - i,
{
    if i + 1 < s.len() {
        let n = s.len() - 1;
        lemma_key_index_prefix(s, k, i + 1);
    } else {
        assert(s.take(i + 1) =~= s);
    }
}

/// The position found in a prefix stays the position in the whole list.
pub proof fn lemma_key_index_prefix<V>(s: Seq<(Seq<char>, V)>, k: Seq<char>, n: int)
    requires
        0 <= n <= s.len(),
        key_index(s.take(n), k) is Some,
    ensures
        key_index(s, k) == key_index(s.take(n), k),
    decreases s.len() - n,
{
    if n < s.len() {
        lemma_key_index_take(s, k, n);
        lemma_key_index_prefix(s, k, n + 1);
    } else {
        assert(s.take(n) =~= s);
    }
}

/// The position of the first entry of key `k` in a table of string lists.
pub fn table_index(t: &Vec<(String, Vec<String>)>, k: &str) -> (r: Option<usize>)
    ensures
        match r {
            Some(i) => key_index(table_view(t@), k@) == Some(i as int),
            None => key_index(table_view(t@), k@) is None,
        },
{
    let ghost v = table_view(t@);
    let mut i: usize = 0;
    assert(v.take(0) =~= Seq::<(Seq<char>, Seq<Seq<char>>)>::empty());
    while i < t.len()
        invariant
            i <= t@.len(),
            v == table_view(t@),
            key_index(v.take(i as int), k@) is None,
        decreases t@.len() - i,
    {
        proof { lemma_key_index_take(v, k@, i as int); }
        assert(v[i as int].0 == t@[i as int].0@);
        if str_eq(t[i].0.as_str(), k) {
            proof { lemma_key_index_full(v, k@, i as int); }
            return Some(i);
        }
        i = i + 1;
    }
    assert(v.take(i as int) =~= v);
    None
}

} // verus!
