use vstd::prelude::*;
use crate::text::{str_eq, str_to_string};
use crate::datalog::types::TargetLabel;
use crate::datalog::store::SpecEngine;
use crate::datalog::engine::Engine;
use crate::datalog::locations::{keys_distinct, has_key, assoc_map, lemma_assoc_index, lemma_assoc_push, lemma_assoc_update};
use crate::build::plan::{BuildPlan, PlanError, SpecPlanned, BuildKind};
use crate::build::system_tool::SystemTool;
use crate::build::graph_generator::GraphGenerator;
use crate::build::external_dependency::ExternalDependency;

verus! {

/// One of the build kinds of this library.
pub enum KnownKind {
    SystemTool(SystemTool),
    GraphGenerator(GraphGenerator),
    ExternalDependency(ExternalDependency),
}

impl BuildKind for KnownKind {
    open spec fn kind_name(&self) -> Seq<char> {
        match self {
            KnownKind::SystemTool(k) => k.kind_name(),
            KnownKind::GraphGenerator(k) => k.kind_name(),
            KnownKind::ExternalDependency(k) => k.kind_name(),
        }
    }

    open spec fn planned(&self, e: SpecEngine, target: (Seq<char>, Seq<char>), working_dir: Seq<char>) -> (SpecEngine, SpecPlanned) {
        match self {
            KnownKind::SystemTool(k) => k.planned(e, target, working_dir),
            KnownKind::GraphGenerator(k) => k.planned(e, target, working_dir),
            KnownKind::ExternalDependency(k) => k.planned(e, target, working_dir),
        }
    }

    fn name(&self) -> (r: &str) {
        match self {
            KnownKind::SystemTool(k) => k.name(),
            KnownKind::GraphGenerator(k) => k.name(),
            KnownKind::ExternalDependency(k) => k.name(),
        }
    }

    fn plan(&self, target: &TargetLabel, db: &mut Engine, working_dir: &str) -> (r: Result<BuildPlan, PlanError>) {
        match self {
            KnownKind::SystemTool(k) => k.plan(target, db, working_dir),
            KnownKind::GraphGenerator(k) => k.plan(target, db, working_dir),
            KnownKind::ExternalDependency(k) => k.plan(target, db, working_dir),
        }
    }
}

/// The build kinds by name.
pub struct BuildKindRegistry {
    kinds: Vec<(String, KnownKind)>,
}

pub open spec fn kind_entry_view(e: (String, KnownKind)) -> (Seq<char>, KnownKind) {
    (e.0@, e.1)
}

impl BuildKindRegistry {
    pub closed spec fn entries_view(&self) -> Seq<(Seq<char>, KnownKind)> {
        self.kinds@.map_values(|e: (String, KnownKind)| kind_entry_view(e))
    }

    #[verifier::type_invariant]
    closed spec fn inv(&self) -> bool {
        keys_distinct(self.entries_view())
    }

    /// The kinds by their names.
    pub closed spec fn view(&self) -> Map<Seq<char>, KnownKind> {
        assoc_map(self.entries_view())
    }

    /// A registry of no kind.
    pub fn new() -> (r: Self)
        ensures
            r@ == Map::<Seq<char>, KnownKind>::empty(),
    {
        let r = BuildKindRegistry { kinds: Vec::new() };
        assert(r.entries_view() =~= Seq::<(Seq<char>, KnownKind)>::empty());
        assert(r@ =~= Map::<Seq<char>, KnownKind>::empty());
        r
    }

    fn index_of(&self, name: &str) -> (r: Option<usize>)
        ensures
            match r {
                Some(i) => i < self.entries_view().len() && self.entries_view()[i as int].0 == name@,
                None => !has_key(self.entries_view(), name@),
            },
    {
        let mut i: usize = 0;
        while i < self.kinds.len()
            invariant
                i <= self.kinds@.len(),
                forall|j: int| 0 <= j < i ==> self.entries_view()[j].0 != name@,
            decreases self.kinds@.len() - i,
        {
            if str_eq(self.kinds[i].0.as_str(), name) {
                return Some(i);
            }
            i = i + 1;
        }
        None
    }

    /// Registers `kind` under its name, replacing a kind registered under that name before.
    pub fn register(&mut self, kind: KnownKind)
        ensures
            final(self)@ == old(self)@.insert(kind.kind_name(), kind),
    {
        proof { use_type_invariant(&*self); }
        let ghost old_view = self.entries_view();
        let ghost kn = kind.kind_name();
        let name = str_to_string(kind.name());
        let pos = self.index_of(name.as_str());
        let mut kinds: Vec<(String, KnownKind)> = Vec::new();
        std::mem::swap(&mut kinds, &mut self.kinds);
        match pos {
            Some(i) => {
                proof { lemma_assoc_update(old_view, i as int, kind); }
                kinds.set(i, (name, kind));
                assert(kinds@.map_values(|e: (String, KnownKind)| kind_entry_view(e)) =~= old_view.update(i as int, (kn, kind)));
            },
            None => {
                proof { lemma_assoc_push(old_view, kn, kind); }
                kinds.push((name, kind));
                assert(kinds@.map_values(|e: (String, KnownKind)| kind_entry_view(e)) =~= old_view.push((kn, kind)));
            },
        }
        self.kinds = kinds;
    }

    /// The kind registered under `name`.
    pub fn get(&self, name: &str) -> (r: Option<&KnownKind>)
        ensures
            match r {
                Some(k) => self@.contains_key(name@) && self@[name@] == *k,
                None => !self@.contains_key(name@),
            },
    {
        proof { use_type_invariant(self); }
        match self.index_of(name) {
            Some(i) => {
                proof { lemma_assoc_index(self.entries_view(), i as int); }
                Some(&self.kinds[i].1)
            },
            None => None,
        }
    }
}

/// After a kind is registered, looking up its name finds that kind, and looking up any other
/// name finds what it found before.
pub proof fn law_get_after_register(reg: &BuildKindRegistry, kind: KnownKind, name: Seq<char>)
    ensures
        reg@.insert(kind.kind_name(), kind).contains_key(kind.kind_name()),
        reg@.insert(kind.kind_name(), kind)[kind.kind_name()] == kind,
        name != kind.kind_name() ==> reg@.insert(kind.kind_name(), kind).contains_key(name) == reg@.contains_key(name),
        name != kind.kind_name() && reg@.contains_key(name) ==> reg@.insert(kind.kind_name(), kind)[name] == reg@[name],
{
}

} // verus!
