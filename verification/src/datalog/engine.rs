use vstd::prelude::*;
use crate::text::{str_eq, str_to_string};
use crate::datalog::types::{Value, SpecValue, Fact, SpecFact, Rule, SpecRule, SourceLocation, facts_view, rules_view, copy_string};
use crate::datalog::store::{SpecEngine, FactGroup, groups_view, group_view, table_view, strings_view, key_index, lookup, assoc_put, groups_after_insert, groups_after_retract, last_index, swap_removed, retract_one, materialized, location_fact, copy_fact, fact_eq, group_index, table_index, lemma_key_index_bounds, lemma_key_index_take, lemma_key_index_full};

use crate::datalog::validate::{rule_valid, rule_error, validate_rule};

verus! {

/// A Datalog database: base facts, rules, and the source locations of what they declare.
pub struct Engine {
    groups: Vec<FactGroup>,
    rules: Vec<Rule>,
    locations: Vec<(String, SourceLocation)>,
    resolve_enabled: bool,
    resolutions: Vec<(String, Vec<String>)>,
    globbed: Vec<(String, Vec<String>)>,
}

pub open spec fn location_entry_view(e: (String, SourceLocation)) -> (Seq<char>, (Seq<char>, nat)) {
    (e.0@, e.1@)
}

pub open spec fn locations_view(ls: Seq<(String, SourceLocation)>) -> Seq<(Seq<char>, (Seq<char>, nat))> {
    ls.map_values(|e: (String, SourceLocation)| location_entry_view(e))
}

impl View for Engine {
    type V = SpecEngine;

    closed spec fn view(&self) -> SpecEngine {
        SpecEngine {
            groups: groups_view(self.groups@),
            rules: rules_view(self.rules@),
            locations: locations_view(self.locations@),
            resolve_enabled: self.resolve_enabled,
            resolutions: table_view(self.resolutions@),
            globbed: table_view(self.globbed@),
        }
    }
}

/// The engine with other base facts.
pub open spec fn with_groups(e: SpecEngine, gs: Seq<(Seq<char>, Seq<SpecFact>)>) -> SpecEngine {
    SpecEngine { groups: gs, ..e }
}

/// The engine after the facts `fs` were added, each to the facts of its predicate.
pub open spec fn inserted(e: SpecEngine, fs: Seq<SpecFact>) -> SpecEngine {
    with_groups(e, groups_after_insert(e.groups, fs))
}

/// The engine after the facts `fs` were retracted in order.
pub open spec fn retracted(e: SpecEngine, fs: Seq<SpecFact>) -> SpecEngine {
    with_groups(e, groups_after_retract(e.groups, fs))
}

/// The engine with one fact added to the facts of its predicate.
pub open spec fn added(e: SpecEngine, f: SpecFact) -> SpecEngine {
    with_groups(e, match lookup(e.groups, f.predicate) {
        Some(old_fs) => assoc_put(e.groups, f.predicate, old_fs.push(f)),
        None => assoc_put(e.groups, f.predicate, seq![f]),
    })
}

/// The engine with the last occurrence of one fact retracted.
pub open spec fn removed(e: SpecEngine, f: SpecFact) -> SpecEngine {
    with_groups(e, match lookup(e.groups, f.predicate) {
        Some(old_fs) => assoc_put(e.groups, f.predicate, retract_one(old_fs, f)),
        None => e.groups,
    })
}

/// The engine with a location recorded for `name`.
pub open spec fn located_at(e: SpecEngine, name: Seq<char>, loc: (Seq<char>, nat)) -> SpecEngine {
    SpecEngine { locations: assoc_put(e.locations, name, loc), ..e }
}

/// The engine that lets `resolve` ask for tools to be run.
pub open spec fn resolving(e: SpecEngine) -> SpecEngine {
    SpecEngine { resolve_enabled: true, ..e }
}

/// The lines recorded for a tool run: the output's lines, or none for a failed run.
pub open spec fn run_lines(output: Result<Vec<u8>, String>) -> Seq<Seq<char>> {
    match output {
        Ok(bytes) => crate::datalog::resolve_output::output_lines(bytes@),
        Err(_) => Seq::empty(),
    }
}

/// The engine with the output lines of `target`'s tool recorded.
pub open spec fn resolution_recorded(e: SpecEngine, target: Seq<char>, lines: Seq<Seq<char>>) -> SpecEngine {
    SpecEngine { resolutions: assoc_put(e.resolutions, target, lines), ..e }
}

/// The engine with the files of a glob pattern recorded and a `file_exists` fact for each.
pub open spec fn glob_recorded(e: SpecEngine, pattern: Seq<char>, paths: Seq<Seq<char>>) -> SpecEngine {
    SpecEngine {
        globbed: assoc_put(e.globbed, pattern, paths),
        groups: groups_after_insert(e.groups, file_facts(paths)),
        ..e
    }
}

/// The engine with one more rule.
pub open spec fn with_rule(e: SpecEngine, r: SpecRule) -> SpecEngine {
    SpecEngine { rules: e.rules.push(r), ..e }
}

impl Engine {
    /// An empty database.
    pub fn new() -> (r: Self)
        ensures
            r@.groups == Seq::<(Seq<char>, Seq<SpecFact>)>::empty(),
            r@.rules == Seq::<SpecRule>::empty(),
            r@.locations == Seq::<(Seq<char>, (Seq<char>, nat))>::empty(),
            !r@.resolve_enabled,
            r@.resolutions == Seq::<(Seq<char>, Seq<Seq<char>>)>::empty(),
            r@.globbed == Seq::<(Seq<char>, Seq<Seq<char>>)>::empty(),
    {
        let r = Engine {
            groups: Vec::new(),
            rules: Vec::new(),
            locations: Vec::new(),
            resolve_enabled: false,
            resolutions: Vec::new(),
            globbed: Vec::new(),
        };
        assert(groups_view(r.groups@) =~= Seq::<(Seq<char>, Seq<SpecFact>)>::empty());
        assert(rules_view(r.rules@) =~= Seq::<SpecRule>::empty());
        assert(locations_view(r.locations@) =~= Seq::<(Seq<char>, (Seq<char>, nat))>::empty());
        assert(table_view(r.resolutions@) =~= Seq::<(Seq<char>, Seq<Seq<char>>)>::empty());
        r
    }

    pub(crate) fn fact_groups(&self) -> (r: &Vec<FactGroup>)
        ensures
            groups_view(r@) == self@.groups,
    {
        &self.groups
    }

    pub(crate) fn rule_list(&self) -> (r: &Vec<Rule>)
        ensures
            rules_view(r@) == self@.rules,
    {
        &self.rules
    }

    pub(crate) fn resolution_table(&self) -> (r: &Vec<(String, Vec<String>)>)
        ensures
            table_view(r@) == self@.resolutions,
    {
        &self.resolutions
    }

    pub(crate) fn glob_table(&self) -> (r: &Vec<(String, Vec<String>)>)
        ensures
            table_view(r@) == self@.globbed,
    {
        &self.globbed
    }

    pub(crate) fn resolution_allowed(&self) -> (r: bool)
        ensures
            r == self@.resolve_enabled,
    {
        self.resolve_enabled
    }

    fn add_fact(&mut self, f: Fact)
        ensures
            final(self)@ == added(old(self)@, f@),
    {
        let ghost gv = groups_view(self.groups@);
        let ghost fv = f@;
        match group_index(&self.groups, f.predicate.as_str()) {
            Some(i) => {
                proof { lemma_key_index_bounds(gv, fv.predicate); }
                let mut g = self.groups.remove(i);
                let ghost gfs = facts_view(g.facts@);
                g.facts.push(f);
                assert(facts_view(g.facts@) =~= gfs.push(fv));
                assert(group_view(g) == (fv.predicate, gfs.push(fv)));
                self.groups.insert(i, g);
                assert(groups_view(self.groups@) =~= gv.update(i as int, (fv.predicate, gfs.push(fv))));
            },
            None => {
                let name = copy_string(&f.predicate);
                let mut facts: Vec<Fact> = Vec::new();
                facts.push(f);
                let g = FactGroup { predicate: name, facts };
                assert(facts_view(g.facts@) =~= seq![fv]);
                self.groups.push(g);
                assert(groups_view(self.groups@) =~= gv.push((fv.predicate, seq![fv])));
            },
        }
    }

    /// Adds base facts, each to the facts of its predicate, in order.
    pub fn insert_facts(&mut self, facts: Vec<Fact>)
        ensures
            final(self)@ == inserted(old(self)@, facts_view(facts@)),
    {
        let ghost fsv = facts_view(facts@);
        let ghost start = self@;
        let mut i: usize = 0;
        assert(fsv.take(0) =~= Seq::<SpecFact>::empty());
        assert(start == inserted(start, fsv.take(0)));
        while i < facts.len()
            invariant
                i <= facts@.len(),
                fsv == facts_view(facts@),
                self@ == inserted(start, fsv.take(i as int)),
            decreases facts@.len() - i,
        {
            let f = copy_fact(&facts[i]);
            assert(fsv.take(i + 1).drop_last() =~= fsv.take(i as int));
            self.add_fact(f);
            i = i + 1;
        }
        assert(fsv.take(i as int) =~= fsv);
    }

    fn remove_fact(&mut self, f: &Fact)
        ensures
            final(self)@ == removed(old(self)@, f@),
    {
        let ghost gv = groups_view(self.groups@);
        let ghost fv = f@;
        match group_index(&self.groups, f.predicate.as_str()) {
            Some(i) => {
                proof { lemma_key_index_bounds(gv, fv.predicate); }
                let g0 = self.groups.remove(i);
                let ghost gfs = facts_view(g0.facts@);
                let pos = last_position(&g0.facts, f);
                let mut g = g0;
                match pos {
                    Some(k) => {
                        assert(k < g.facts@.len());
                        let ghost before = g.facts@;
                        let _removed = g.facts.swap_remove(k);
                        assert(facts_view(g.facts@) =~= swap_removed(gfs, k as int));
                    },
                    None => {},
                }
                assert(facts_view(g.facts@) == retract_one(gfs, fv));
                assert(group_view(g) == (fv.predicate, retract_one(gfs, fv)));
                self.groups.insert(i, g);
                assert(groups_view(self.groups@) =~= gv.update(i as int, (fv.predicate, retract_one(gfs, fv))));
            },
            None => {},
        }
    }

    /// Removes base facts: for each fact in order, its last occurrence among the facts of its
    /// predicate, whose last fact takes its place.
    pub fn retract_facts(&mut self, facts: Vec<Fact>)
        ensures
            final(self)@ == retracted(old(self)@, facts_view(facts@)),
    {
        let ghost fsv = facts_view(facts@);
        let ghost start = self@;
        let mut i: usize = 0;
        assert(fsv.take(0) =~= Seq::<SpecFact>::empty());
        while i < facts.len()
            invariant
                i <= facts@.len(),
                fsv == facts_view(facts@),
                self@ == retracted(start, fsv.take(i as int)),
            decreases facts@.len() - i,
        {
            assert(fsv.take(i + 1).drop_last() =~= fsv.take(i as int));
            self.remove_fact(&facts[i]);
            i = i + 1;
        }
        assert(fsv.take(i as int) =~= fsv);
    }

    /// Records where `predicate` (a target or a rule's name) was declared.
    pub fn record_source_location(&mut self, predicate: &str, location: SourceLocation)
        ensures
            final(self)@ == located_at(old(self)@, predicate@, location@),
    {
        let ghost lv = locations_view(self.locations@);
        let mut i: usize = 0;
        assert(lv.take(0) =~= Seq::<(Seq<char>, (Seq<char>, nat))>::empty());
        while i < self.locations.len()
            invariant
                i <= self.locations@.len(),
                lv == locations_view(self.locations@),
                self@ == old(self)@,
                key_index(lv.take(i as int), predicate@) is None,
            decreases self.locations@.len() - i,
        {
            proof { lemma_key_index_take(lv, predicate@, i as int); }
            if str_eq(self.locations[i].0.as_str(), predicate) {
                proof { lemma_key_index_full(lv, predicate@, i as int); }
                let ghost locv = location@;
                let mut ls: Vec<(String, SourceLocation)> = Vec::new();
                std::mem::swap(&mut ls, &mut self.locations);
                ls.set(i, (str_to_string(predicate), location));
                assert(locations_view(ls@) =~= lv.update(i as int, (predicate@, locv)));
                self.locations = ls;
                assert(self@.locations == assoc_put(old(self)@.locations, predicate@, locv));
                assert(self@.groups == old(self)@.groups);
                assert(self@ =~= located_at(old(self)@, predicate@, locv));
                return;
            }
            i = i + 1;
        }
        assert(lv.take(i as int) =~= lv);
        let ghost locv = location@;
        self.locations.push((str_to_string(predicate), location));
        assert(locations_view(self.locations@) =~= lv.push((predicate@, locv)));
        assert(self@ =~= located_at(old(self)@, predicate@, locv));
    }

    /// Where `predicate` was declared, if that was recorded.
    pub fn get_source_location(&self, predicate: &str) -> (r: Option<&SourceLocation>)
        ensures
            match lookup(self@.locations, predicate@) {
                Some(l) => r matches Some(x) && x@ == l,
                None => r is None,
            },
    {
        let ghost lv = locations_view(self.locations@);
        let mut i: usize = 0;
        assert(lv.take(0) =~= Seq::<(Seq<char>, (Seq<char>, nat))>::empty());
        while i < self.locations.len()
            invariant
                i <= self.locations@.len(),
                lv == locations_view(self.locations@),
                key_index(lv.take(i as int), predicate@) is None,
            decreases self.locations@.len() - i,
        {
            proof { lemma_key_index_take(lv, predicate@, i as int); }
            if str_eq(self.locations[i].0.as_str(), predicate) {
                proof { lemma_key_index_full(lv, predicate@, i as int); }
                return Some(&self.locations[i].1);
            }
            i = i + 1;
        }
        assert(lv.take(i as int) =~= lv);
        None
    }

    /// The `source_location` facts that the recorded locations stand for.
    pub fn location_facts(&self) -> (r: Vec<Fact>)
        ensures
            facts_view(r@) == materialized(self@.locations),
    {
        let ghost lv = locations_view(self.locations@);
        let mut out: Vec<Fact> = Vec::new();
        let mut i: usize = 0;
        while i < self.locations.len()
            invariant
                i <= self.locations@.len(),
                lv == locations_view(self.locations@),
                facts_view(out@) == materialized(lv.take(i as int)),
            decreases self.locations@.len() - i,
        {
            let e = &self.locations[i];
            let mut args: Vec<Value> = Vec::new();
            args.push(Value::String(copy_string(&e.0)));
            args.push(Value::String(copy_string(&e.1.file)));
            args.push(Value::Integer(#[verifier::truncate] (e.1.line as i64)));
            let f = Fact { predicate: str_to_string("source_location"), args };
            assert(f@ == location_fact(lv[i as int])) by {
                assert(f@.args =~= location_fact(lv[i as int]).args);
            }
            let ghost prev = out@;
            out.push(f);
            i = i + 1;
            assert(facts_view(out@) =~= facts_view(prev).push(f@));
            assert(materialized(lv.take(i as int)) =~= materialized(lv.take(i - 1)).push(location_fact(lv[i - 1])));
        }
        assert(lv.take(i as int) =~= lv);
        out
    }

    /// Adds the `source_location(name, file, line)` facts of the recorded locations.
    pub fn materialize_source_locations(&mut self)
        ensures
            final(self)@ == inserted(old(self)@, materialized(old(self)@.locations)),
    {
        let fs = self.location_facts();
        self.insert_facts(fs);
    }

    /// Lets `resolve` ask for tools to be run: a query then stops with a request where it
    /// needs the output of a tool that was not recorded yet.
    pub fn set_resolve_callback(&mut self)
        ensures
            final(self)@ == resolving(old(self)@),
    {
        self.resolve_enabled = true;
    }

    /// Records the output of the tool run for `target`; a failed run is recorded as no output.
    pub fn record_resolution(&mut self, target: &str, output: Result<Vec<u8>, String>)
        ensures
            final(self)@ == resolution_recorded(old(self)@, target@, run_lines(output)),
    {
        let lines = match output {
            Ok(bytes) => crate::datalog::resolve_output::lines_of_output(&bytes),
            Err(_) => Vec::new(),
        };
        proof {
            if output is Err {
                assert(strings_view(lines@) =~= Seq::<Seq<char>>::empty());
            }
        }
        put_table(&mut self.resolutions, target, lines);
    }

    /// Records the files found on disk for a glob pattern, and adds a `file_exists` fact for each.
    pub fn record_glob(&mut self, pattern: &str, paths: Vec<String>)
        ensures
            final(self)@ == glob_recorded(old(self)@, pattern@, strings_view(paths@)),
    {
        let mut facts: Vec<Fact> = Vec::new();
        let mut i: usize = 0;
        while i < paths.len()
            invariant
                i <= paths@.len(),
                facts_view(facts@) == file_facts(strings_view(paths@.take(i as int))),
            decreases paths@.len() - i,
        {
            let mut args: Vec<Value> = Vec::new();
            args.push(Value::String(copy_string(&paths[i])));
            let f = Fact { predicate: str_to_string("file_exists"), args };
            let ghost prev = facts@;
            facts.push(f);
            i = i + 1;
            assert(f@.args =~= seq![SpecValue::Str(paths@[i - 1]@)]);
            assert(facts_view(facts@) =~= facts_view(prev).push(f@));
            assert(strings_view(paths@.take(i as int)) =~= strings_view(paths@.take(i - 1)).push(paths@[i - 1]@));
            assert(file_facts(strings_view(paths@.take(i as int))) =~= file_facts(strings_view(paths@.take(i - 1))).push(f@));
        }
        assert(paths@.take(i as int) =~= paths@);
        self.insert_facts(facts);
        put_table(&mut self.globbed, pattern, paths);
    }

    /// Adds a rule, if it is valid: every named head variable occurs in a body predicate that
    /// is not negated, no rule comes to negate a predicate that depends on its own head, and
    /// the head has as many arguments as the rules of the same name. An invalid rule is refused
    /// with a message and changes nothing.
    pub fn compile_rule(&mut self, rule: Rule) -> (r: Result<(), String>)
        ensures
            r is Ok <==> rule_valid(old(self)@.rules, rule@),
            r matches Err(m) ==> m@ == rule_error(old(self)@.rules, rule@),
            r is Ok ==> final(self)@ == with_rule(old(self)@, rule@),
            r is Err ==> final(self)@ == old(self)@,
    {
        match validate_rule(&self.rules, &rule) {
            Ok(()) => {
                self.push_rule(rule);
                Ok(())
            },
            Err(e) => Err(e),
        }
    }

    pub(crate) fn push_rule(&mut self, rule: Rule)
        ensures
            final(self)@ == with_rule(old(self)@, rule@),
    {
        let ghost rv = rules_view(self.rules@);
        let ghost r = rule@;
        self.rules.push(rule);
        assert(rules_view(self.rules@) =~= rv.push(r));
    }
}

/// A `file_exists` fact for each path.
pub open spec fn file_facts(paths: Seq<Seq<char>>) -> Seq<SpecFact> {
    paths.map_values(|p: Seq<char>| SpecFact { predicate: "file_exists"@, args: seq![SpecValue::Str(p)] })
}

fn put_table(t: &mut Vec<(String, Vec<String>)>, k: &str, v: Vec<String>)
    ensures
        table_view(final(t)@) == assoc_put(table_view(old(t)@), k@, strings_view(v@)),
{
    let ghost tv = table_view(t@);
    let ghost vv = strings_view(v@);
    match table_index(t, k) {
        Some(i) => {
            proof { lemma_key_index_bounds(tv, k@); }
            t.set(i, (str_to_string(k), v));
            assert(table_view(t@) =~= tv.update(i as int, (k@, vv)));
        },
        None => {
            t.push((str_to_string(k), v));
            assert(table_view(t@) =~= tv.push((k@, vv)));
        },
    }
}

/// The position of the last occurrence of `f` in `fs`.
fn last_position(fs: &Vec<Fact>, f: &Fact) -> (r: Option<usize>)
    ensures
        match r {
            Some(k) => k < fs@.len() && last_index(facts_view(fs@), f@) == Some(k as int),
            None => last_index(facts_view(fs@), f@) is None,
        },
{
    let ghost fv = facts_view(fs@);
    let mut i: usize = fs.len();
    assert(fv.take(i as int) =~= fv);
    while i > 0
        invariant
            i <= fs@.len(),
            fv == facts_view(fs@),
            last_index(fv, f@) == last_index(fv.take(i as int), f@),
        decreases i,
    {
        assert(fv.take(i as int).last() == fs@[i - 1]@);
        assert(fv.take(i as int).drop_last() =~= fv.take(i - 1));
        if fact_eq(&fs[i - 1], f) {
            return Some(i - 1);
        }
        i = i - 1;
    }
    None
}

} // verus!
