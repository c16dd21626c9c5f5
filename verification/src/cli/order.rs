use vstd::prelude::*;
use crate::text::{str_to_string, push_all, push_string};
use crate::datalog::types::{SpecFact, TargetLabel, facts_view, copy_string, string_eq};
use crate::datalog::builtins::{EvalError, SpecEvalError};
use crate::datalog::store::{SpecEngine, strings_view, key_index, lookup, assoc_put, lemma_key_index_bounds};
use crate::datalog::semantics::string_at;
use crate::datalog::eval::{string_at_exec, seq_contains_string};
use crate::datalog::engine::Engine;
use crate::datalog::query::{query_result, filters_view};
use crate::build::system_tool::query_all;
use crate::build::plan::BuildPlan;
use crate::datalog::locations::keys_distinct;
use crate::build::args::label_text;

verus! {

/// A table from each target to its direct dependencies, in the order they were found.
pub type DepTable = Seq<(Seq<char>, Seq<Seq<char>>)>;

/// The dependencies recorded for `t`.
pub open spec fn deps_of(deps: DepTable, t: Seq<char>) -> Seq<Seq<char>> {
    match lookup(deps, t) {
        Some(ds) => ds,
        None => Seq::empty(),
    }
}

/// The table with `b` added to the dependencies of `a`.
pub open spec fn deps_push(deps: DepTable, a: Seq<char>, b: Seq<char>) -> DepTable {
    assoc_put(deps, a, deps_of(deps, a).push(b))
}

/// The table with the dependency that each fact of two string arguments states, in order.
pub open spec fn deps_from(deps: DepTable, fs: Seq<SpecFact>) -> DepTable
    decreases fs.len(),
{
    if fs.len() == 0 {
        deps
    } else {
        let prev = deps_from(deps, fs.drop_last());
        match (string_at(fs.last(), 0), string_at(fs.last(), 1)) {
            (Some(a), Some(b)) => deps_push(prev, a, b),
            _ => prev,
        }
    }
}

pub open spec fn deps_table_view(t: Seq<(String, Vec<String>)>) -> DepTable {
    t.map_values(|e: (String, Vec<String>)| (e.0@, strings_view(e.1@)))
}

/// Records that `a` depends on `b`.
fn push_dep(deps: &mut Vec<(String, Vec<String>)>, a: &String, b: &String)
    requires
        keys_distinct(deps_table_view(old(deps)@)),
    ensures
        keys_distinct(deps_table_view(final(deps)@)),
        deps_table_view(final(deps)@) == deps_push(deps_table_view(old(deps)@), a@, b@),
{
    let ghost dv = deps_table_view(deps@);
    proof { lemma_key_index_bounds(dv, a@); }
    let mut i: usize = 0;
    while i < deps.len()
        invariant
            i <= deps@.len(),
            dv == deps_table_view(deps@),
            dv == deps_table_view(old(deps)@),
            keys_distinct(dv),
            key_index(dv, a@) matches Some(j) ==> 0 <= j < dv.len() && dv[j].0 == a@,
            key_index(dv, a@) is None ==> forall|j: int| 0 <= j < dv.len() ==> dv[j].0 != a@,
            forall|j: int| 0 <= j < i ==> dv[j].0 != a@,
        decreases deps@.len() - i,
    {
        if string_eq(&deps[i].0, a) {
            assert(key_index(dv, a@) == Some(i as int));
            let mut ds = crate::datalog::store::copy_strings(&deps[i].1);
            let ghost dsv = strings_view(ds@);
            ds.push(copy_string(b));
            assert(strings_view(ds@) =~= dsv.push(b@));
            deps.set(i, (copy_string(a), ds));
            assert(deps_table_view(deps@) =~= dv.update(i as int, (a@, dv[i as int].1.push(b@))));
            return;
        }
        i = i + 1;
    }
    assert(key_index(dv, a@) is None);
    let mut ds: Vec<String> = Vec::new();
    ds.push(copy_string(b));
    assert(strings_view(ds@) =~= seq![b@]);
    assert(deps_of(dv, a@).push(b@) =~= seq![b@]);
    deps.push((copy_string(a), ds));
    assert(deps_table_view(deps@) =~= dv.push((a@, seq![b@])));
}

/// The state of the walk over the dependencies of the requested targets: the targets still to
/// visit (a stack), those visited, and the dependencies found so far.
pub struct DepWalk {
    to_visit: Vec<String>,
    visited: Vec<String>,
    deps: Vec<(String, Vec<String>)>,
}

pub struct SpecWalk {
    pub to_visit: Seq<Seq<char>>,
    pub visited: Seq<Seq<char>>,
    pub deps: DepTable,
}

impl DepWalk {
    #[verifier::type_invariant]
    closed spec fn inv(&self) -> bool {
        keys_distinct(deps_table_view(self.deps@))
    }

    pub closed spec fn view(&self) -> SpecWalk {
        SpecWalk {
            to_visit: strings_view(self.to_visit@),
            visited: strings_view(self.visited@),
            deps: deps_table_view(self.deps@),
        }
    }
}

/// The walk that starts from the requested targets.
pub open spec fn walk_start(targets: Seq<(Seq<char>, Seq<char>)>) -> SpecWalk {
    SpecWalk {
        to_visit: targets.map_values(|t: (Seq<char>, Seq<char>)| label_text(t)),
        visited: Seq::empty(),
        deps: Seq::empty(),
    }
}

/// Taking the next target to visit: targets are taken from the top of the stack, those
/// visited already are dropped, and the one taken is marked visited.
pub open spec fn popped(w: SpecWalk) -> (SpecWalk, Option<Seq<char>>)
    decreases w.to_visit.len(),
{
    if w.to_visit.len() == 0 {
        (w, None)
    } else {
        let t = w.to_visit.last();
        let rest = SpecWalk { to_visit: w.to_visit.drop_last(), ..w };
        if w.visited.contains(t) {
            popped(rest)
        } else {
            (SpecWalk { visited: w.visited.push(t), ..rest }, Some(t))
        }
    }
}

/// The walk after one dependency fact: a fact of two string arguments records the dependency
/// of the first on the second, which becomes a target to visit unless it was visited.
pub open spec fn walk_fact(w: SpecWalk, f: SpecFact) -> SpecWalk {
    match (string_at(f, 0), string_at(f, 1)) {
        (Some(a), Some(b)) => SpecWalk {
            deps: deps_push(w.deps, a, b),
            to_visit: if w.visited.contains(b) { w.to_visit } else { w.to_visit.push(b) },
            ..w
        },
        _ => w,
    }
}

pub open spec fn walk_facts(w: SpecWalk, fs: Seq<SpecFact>) -> SpecWalk
    decreases fs.len(),
{
    if fs.len() == 0 {
        w
    } else {
        walk_fact(walk_facts(w, fs.drop_last()), fs.last())
    }
}

/// The walk after the dependencies of `t` were read: its `deps` facts.
pub open spec fn walk_after(e: SpecEngine, w: SpecWalk, t: Seq<char>) -> Result<SpecWalk, SpecEvalError> {
    match query_result(e, "deps"@, seq![Some(t)]) {
        Err(x) => Err(x),
        Ok(fs) => Ok(walk_facts(w, fs)),
    }
}

impl DepWalk {
    /// A walk from the requested targets.
    pub fn new(targets: &Vec<TargetLabel>) -> (r: Self)
        ensures
            r@ == walk_start(targets@.map_values(|t: TargetLabel| t@)),
    {
        let ghost tv = targets@.map_values(|t: TargetLabel| t@);
        let mut to_visit: Vec<String> = Vec::new();
        let mut i: usize = 0;
        while i < targets.len()
            invariant
                i <= targets@.len(),
                tv == targets@.map_values(|t: TargetLabel| t@),
                strings_view(to_visit@) == tv.take(i as int).map_values(|t: (Seq<char>, Seq<char>)| label_text(t)),
            decreases targets@.len() - i,
        {
            let s = targets[i].to_string();
            let ghost prev = strings_view(to_visit@);
            to_visit.push(s);
            i = i + 1;
            assert(strings_view(to_visit@) =~= prev.push(label_text(tv[i - 1])));
            assert(tv.take(i as int).map_values(|t: (Seq<char>, Seq<char>)| label_text(t))
                =~= tv.take(i - 1).map_values(|t: (Seq<char>, Seq<char>)| label_text(t)).push(label_text(tv[i - 1])));
        }
        assert(tv.take(i as int) =~= tv);
        let w = DepWalk { to_visit, visited: Vec::new(), deps: Vec::new() };
        assert(deps_table_view(w.deps@) =~= Seq::<(Seq<char>, Seq<Seq<char>>)>::empty());
        assert(w@.visited =~= Seq::<Seq<char>>::empty());
        w
    }

    /// The next target to visit, marked visited (see `popped`).
    pub fn next_target(&mut self) -> (r: Option<String>)
        ensures
            (final(self)@, match r { Some(t) => Some(t@), None => None }) == popped(old(self)@),
    {
        loop
            invariant
                popped(self@) == popped(old(self)@),
            decreases self@.to_visit.len(),
        {
            let ghost before = self@;
            proof { use_type_invariant(&*self); }
            let mut stack: Vec<String> = Vec::new();
            std::mem::swap(&mut stack, &mut self.to_visit);
            let top = stack.pop();
            self.to_visit = stack;
            match top {
                None => {
                    assert(self@ == before);
                    return None;
                },
                Some(t) => {
                    assert(strings_view(self.to_visit@) =~= before.to_visit.drop_last());
                    if !seq_contains_string(&self.visited, &t) {
                        let ghost vprev = strings_view(self.visited@);
                        proof { use_type_invariant(&*self); }
                        let mut seen: Vec<String> = Vec::new();
                        std::mem::swap(&mut seen, &mut self.visited);
                        seen.push(copy_string(&t));
                        self.visited = seen;
                        assert(strings_view(self.visited@) =~= vprev.push(t@));
                        return Some(t);
                    }
                },
            }
        }
    }

    /// Reads the dependencies of `target` and records them (see `walk_after`).
    pub fn record_deps(&mut self, db: &mut Engine, target: &str) -> (r: Result<(), EvalError>)
        ensures
            final(db)@ == old(db)@,
            match (r, walk_after(old(db)@, old(self)@, target@)) {
                (Ok(_), Ok(w)) => final(self)@ == w,
                (Err(x), Err(sx)) => x@ == sx,
                _ => false,
            },
    {
        proof {
            reveal_strlit("source_location");
            reveal_strlit("deps");
            assert("deps"@.len() != "source_location"@.len());
        }
        let filters: Vec<Option<&str>> = vec![Some(target)];
        assert(filters_view(filters@) =~= seq![Some(target@)]);
        let fs = match db.query("deps", filters.as_slice()) {
            Ok(fs) => fs,
            Err(x) => {
                return Err(x);
            },
        };
        let ghost fv = facts_view(fs@);
        let ghost w0 = self@;
        let mut k: usize = 0;
        assert(fv.take(0) =~= Seq::<SpecFact>::empty());
        while k < fs.len()
            invariant
                k <= fs@.len(),
                fv == facts_view(fs@),
                self@ == walk_facts(w0, fv.take(k as int)),
            decreases fs@.len() - k,
        {
            assert(fv.take(k + 1).drop_last() =~= fv.take(k as int));
            assert(fv.take(k + 1).last() == fs@[k as int]@);
            match (string_at_exec(&fs[k], 0), string_at_exec(&fs[k], 1)) {
                (Some(a), Some(b)) => {
                    proof { use_type_invariant(&*self); }
                    let mut deps: Vec<(String, Vec<String>)> = Vec::new();
                    std::mem::swap(&mut deps, &mut self.deps);
                    push_dep(&mut deps, a, b);
                    self.deps = deps;
                    if !seq_contains_string(&self.visited, b) {
                        let ghost tprev = strings_view(self.to_visit@);
                        proof { use_type_invariant(&*self); }
                        let mut stack: Vec<String> = Vec::new();
                        std::mem::swap(&mut stack, &mut self.to_visit);
                        stack.push(copy_string(b));
                        self.to_visit = stack;
                        assert(strings_view(self.to_visit@) =~= tprev.push(b@));
                    }
                },
                _ => {},
            }
            k = k + 1;
        }
        assert(fv.take(k as int) =~= fv);
        Ok(())
    }
}

/// The texts of the labels.
pub open spec fn label_texts(ts: Seq<TargetLabel>) -> Seq<Seq<char>> {
    ts.map_values(|t: TargetLabel| label_text(t@))
}

/// The targets visited and the order produced so far.
pub type VisitState = (Seq<Seq<char>>, Seq<Seq<char>>);

/// Depth-first visit of `t` below the targets `path`: a visited target gives nothing; a
/// target on the path (a cycle) stops the visit with that target; otherwise its dependencies
/// are visited in order, then it is marked visited and added to the order. `fuel` bounds the
/// depth; it is never short when it exceeds the number of targets and dependencies.
pub open spec fn visit(deps: DepTable, t: Seq<char>, path: Seq<Seq<char>>, st: VisitState, fuel: nat) -> Result<VisitState, Seq<char>>
    decreases fuel, 1int, 0int,
{
    if st.0.contains(t) {
        Ok(st)
    } else if path.contains(t) || fuel == 0 {
        Err(t)
    } else {
        let ds = deps_of(deps, t);
        match visit_all(deps, ds, ds.len() as int, path.push(t), st, (fuel - 1) as nat) {
            Err(x) => Err(x),
            Ok(s1) => Ok((s1.0.push(t), s1.1.push(t))),
        }
    }
}

/// Visiting the targets `ds[..k]` in order.
pub open spec fn visit_all(deps: DepTable, ds: Seq<Seq<char>>, k: int, path: Seq<Seq<char>>, st: VisitState, fuel: nat) -> Result<VisitState, Seq<char>>
    decreases fuel, 2int, k,
{
    if k <= 0 {
        Ok(st)
    } else {
        match visit_all(deps, ds, k - 1, path, st, fuel) {
            Err(x) => Err(x),
            Ok(s1) => visit(deps, ds[k - 1], path, s1, fuel),
        }
    }
}

pub open spec fn capped_add(a: nat, b: nat) -> nat {
    if a + b > usize::MAX { usize::MAX as nat } else { a + b }
}

/// The number of recorded dependencies of the first `k` targets of the table, added to `n`
/// (at most `usize::MAX`).
pub open spec fn dep_count(n: nat, deps: DepTable, k: int) -> nat
    decreases k,
{
    if k <= 0 {
        n
    } else {
        capped_add(dep_count(n, deps, k - 1), deps[k - 1].1.len())
    }
}

/// The depth available to the visit: more than the number of targets and dependencies.
pub open spec fn order_fuel(n: nat, deps: DepTable) -> nat {
    capped_add(dep_count(n, deps, deps.len() as int), 1)
}

/// The requested targets' build order: each requested target visited in turn.
pub open spec fn build_order(deps: DepTable, targets: Seq<Seq<char>>) -> Result<VisitState, Seq<char>> {
    visit_all(deps, targets, targets.len() as int, Seq::empty(), (Seq::empty(), Seq::empty()),
        order_fuel(targets.len(), deps))
}

proof fn lemma_visit_all_err(deps: DepTable, ds: Seq<Seq<char>>, k: int, n: int, path: Seq<Seq<char>>, st: VisitState, fuel: nat)
    requires
        0 <= k <= n,
        visit_all(deps, ds, k, path, st, fuel) is Err,
    ensures
        visit_all(deps, ds, n, path, st, fuel) == visit_all(deps, ds, k, path, st, fuel),
    decreases n - k,
{
    if n > k {
        lemma_visit_all_err(deps, ds, k, n - 1, path, st, fuel);
    }
}

/// The dependencies recorded for `t`.
fn deps_of_exec(deps: &Vec<(String, Vec<String>)>, t: &String) -> (r: Vec<String>)
    requires
        keys_distinct(deps_table_view(deps@)),
    ensures
        strings_view(r@) == deps_of(deps_table_view(deps@), t@),
{
    let ghost dv = deps_table_view(deps@);
    proof { lemma_key_index_bounds(dv, t@); }
    let mut i: usize = 0;
    while i < deps.len()
        invariant
            i <= deps@.len(),
            dv == deps_table_view(deps@),
            keys_distinct(dv),
            key_index(dv, t@) matches Some(j) ==> 0 <= j < dv.len() && dv[j].0 == t@,
            key_index(dv, t@) is None ==> forall|j: int| 0 <= j < dv.len() ==> dv[j].0 != t@,
            forall|j: int| 0 <= j < i ==> dv[j].0 != t@,
        decreases deps@.len() - i,
    {
        assert(dv[i as int] == (deps@[i as int].0@, strings_view(deps@[i as int].1@)));
        if string_eq(&deps[i].0, t) {
            assert(key_index(dv, t@) == Some(i as int));
            return crate::datalog::store::copy_strings(&deps[i].1);
        }
        i = i + 1;
    }
    let r: Vec<String> = Vec::new();
    assert(strings_view(r@) =~= Seq::<Seq<char>>::empty());
    r
}

/// Visits `t` (see `visit`); on a cycle, the target found on the path.
fn visit_exec(
    deps: &Vec<(String, Vec<String>)>,
    t: &String,
    path: &Vec<String>,
    visited: &mut Vec<String>,
    order: &mut Vec<String>,
    fuel: usize,
) -> (r: Result<(), String>)
    requires
        keys_distinct(deps_table_view(deps@)),
    ensures
        match (r, visit(deps_table_view(deps@), t@, strings_view(path@),
            (strings_view(old(visited)@), strings_view(old(order)@)), fuel as nat)) {
            (Ok(_), Ok(s)) => strings_view(final(visited)@) == s.0 && strings_view(final(order)@) == s.1,
            (Err(x), Err(sx)) => x@ == sx,
            _ => false,
        },
    decreases fuel,
{
    let ghost dv = deps_table_view(deps@);
    if seq_contains_string(visited, t) {
        return Ok(());
    }
    if seq_contains_string(path, t) || fuel == 0 {
        return Err(copy_string(t));
    }
    let ds = deps_of_exec(deps, t);
    let ghost dsv = strings_view(ds@);
    let mut inner = crate::datalog::store::copy_strings(path);
    inner.push(copy_string(t));
    let ghost pv = strings_view(inner@);
    assert(pv =~= strings_view(path@).push(t@));
    let ghost st0 = (strings_view(visited@), strings_view(order@));
    let mut k: usize = 0;
    while k < ds.len()
        invariant
            k <= ds@.len(),
            fuel > 0,
            dv == deps_table_view(deps@),
            keys_distinct(dv),
            dsv == strings_view(ds@),
            dsv == deps_of(dv, t@),
            pv == strings_view(inner@),
            pv == strings_view(path@).push(t@),
            !st0.0.contains(t@),
            st0 == (strings_view(old(visited)@), strings_view(old(order)@)),
            !strings_view(path@).contains(t@),
            visit_all(dv, dsv, k as int, pv, st0, (fuel - 1) as nat)
                == Ok::<VisitState, Seq<char>>((strings_view(visited@), strings_view(order@))),
        decreases ds@.len() - k,
    {
        assert(dsv[k as int] == ds@[k as int]@);
        match visit_exec(deps, &ds[k], &inner, visited, order, fuel - 1) {
            Ok(_) => {},
            Err(x) => {
                proof { lemma_visit_all_err(dv, dsv, (k + 1) as int, dsv.len() as int, pv, st0, (fuel - 1) as nat); }
                return Err(x);
            },
        }
        k = k + 1;
    }
    let ghost vprev = strings_view(visited@);
    let ghost oprev = strings_view(order@);
    visited.push(copy_string(t));
    order.push(copy_string(t));
    assert(strings_view(visited@) =~= vprev.push(t@));
    assert(strings_view(order@) =~= oprev.push(t@));
    Ok(())
}

fn capped_add_exec(a: usize, b: usize) -> (r: usize)
    ensures
        r as nat == capped_add(a as nat, b as nat),
{
    a.saturating_add(b)
}

impl DepWalk {
    /// The build order of the requested targets (see `build_order`): dependencies before the
    /// targets that need them; a cycle gives the message naming the target found twice.
    pub fn order(&self, targets: &Vec<TargetLabel>) -> (r: Result<Vec<String>, String>)
        ensures
            match build_order(self@.deps, label_texts(targets@)) {
                Ok(st) => r matches Ok(o) && strings_view(o@) == st.1,
                Err(x) => r matches Err(m) && m@ == "Circular dependency detected involving "@ + x,
            },
    {
        proof { use_type_invariant(self); }
        let ghost dv = self@.deps;
        let ghost tv = label_texts(targets@);
        let mut names: Vec<String> = Vec::new();
        let mut i: usize = 0;
        while i < targets.len()
            invariant
                i <= targets@.len(),
                tv == label_texts(targets@),
                strings_view(names@) == tv.take(i as int),
            decreases targets@.len() - i,
        {
            let ghost prev = strings_view(names@);
            names.push(targets[i].to_string());
            i = i + 1;
            assert(strings_view(names@) =~= prev.push(tv[i - 1]));
            assert(tv.take(i as int) =~= tv.take(i - 1).push(tv[i - 1]));
        }
        assert(tv.take(i as int) =~= tv);
        let mut count: usize = targets.len();
        let mut j: usize = 0;
        assert(dep_count(targets@.len() as nat, dv, 0) == targets@.len());
        while j < self.deps.len()
            invariant
                j <= self.deps@.len(),
                dv == deps_table_view(self.deps@),
                count as nat == dep_count(targets@.len() as nat, dv, j as int),
            decreases self.deps@.len() - j,
        {
            count = capped_add_exec(count, self.deps[j].1.len());
            j = j + 1;
        }
        let fuel = capped_add_exec(count, 1);
        let mut visited: Vec<String> = Vec::new();
        let mut order: Vec<String> = Vec::new();
        let empty: Vec<String> = Vec::new();
        assert(strings_view(empty@) =~= Seq::<Seq<char>>::empty());
        assert(strings_view(visited@) =~= Seq::<Seq<char>>::empty());
        assert(strings_view(order@) =~= Seq::<Seq<char>>::empty());
        let ghost st0 = (strings_view(visited@), strings_view(order@));
        let mut k: usize = 0;
        while k < names.len()
            invariant
                k <= names@.len(),
                keys_distinct(deps_table_view(self.deps@)),
                dv == deps_table_view(self.deps@),
                strings_view(names@) == tv,
                tv == label_texts(targets@),
                strings_view(empty@) == Seq::<Seq<char>>::empty(),
                fuel as nat == order_fuel(tv.len(), dv),
                st0 == (Seq::<Seq<char>>::empty(), Seq::<Seq<char>>::empty()),
                visit_all(dv, tv, k as int, Seq::empty(), st0, fuel as nat)
                    == Ok::<VisitState, Seq<char>>((strings_view(visited@), strings_view(order@))),
            decreases names@.len() - k,
        {
            assert(tv[k as int] == names@[k as int]@);
            match visit_exec(&self.deps, &names[k], &empty, &mut visited, &mut order, fuel) {
                Ok(_) => {},
                Err(x) => {
                    assert(visit_all(dv, tv, (k + 1) as int, Seq::empty(), st0, fuel as nat) == Err::<VisitState, Seq<char>>(x@));
                    proof { lemma_visit_all_err(dv, tv, (k + 1) as int, tv.len() as int, Seq::empty(), st0, fuel as nat); }
                    assert(build_order(dv, tv) == Err::<VisitState, Seq<char>>(x@));

                    let mut m = str_to_string("Circular dependency detected involving ");
                    push_string(&mut m, &x);
                    return Err(m);
                },
            }
            k = k + 1;
        }
        Ok(order)
    }
}

/// The level of a target with the dependencies `ds`: one more than the highest level among
/// those already placed in `table`, or 0.
pub open spec fn dep_level(ds: Seq<Seq<char>>, table: Seq<(Seq<char>, nat)>) -> nat
    decreases ds.len(),
{
    if ds.len() == 0 {
        0
    } else {
        let prev = dep_level(ds.drop_last(), table);
        match lookup(table, ds.last()) {
            Some(l) => if l + 1 > prev { (l + 1) as nat } else { prev },
            None => prev,
        }
    }
}

/// The level of each of the targets `ts`, placed in order.
pub open spec fn level_table(deps: DepTable, ts: Seq<Seq<char>>) -> Seq<(Seq<char>, nat)>
    decreases ts.len(),
{
    if ts.len() == 0 {
        Seq::empty()
    } else {
        let prev = level_table(deps, ts.drop_last());
        assoc_put(prev, ts.last(), dep_level(deps_of(deps, ts.last()), prev))
    }
}

/// The highest level of the table, or 0.
pub open spec fn max_level(table: Seq<(Seq<char>, nat)>) -> nat
    decreases table.len(),
{
    if table.len() == 0 {
        0
    } else {
        let prev = max_level(table.drop_last());
        if table.last().1 > prev { table.last().1 } else { prev }
    }
}

/// The targets of `ts` at level `l`, in order.
pub open spec fn at_level(ts: Seq<(Seq<char>, Seq<char>)>, table: Seq<(Seq<char>, nat)>, l: nat) -> Seq<(Seq<char>, Seq<char>)>
    decreases ts.len(),
{
    if ts.len() == 0 {
        Seq::empty()
    } else {
        let prev = at_level(ts.drop_last(), table, l);
        if lookup(table, label_text(ts.last())) == Some(l) { prev.push(ts.last()) } else { prev }
    }
}

/// The targets in build order grouped by level, each level in build order: a target's level
/// is above those of its dependencies that come before it, so each level can be built once
/// the levels below it are.
pub open spec fn build_levels(deps: DepTable, ts: Seq<(Seq<char>, Seq<char>)>) -> Seq<Seq<(Seq<char>, Seq<char>)>> {
    let table = level_table(deps, ts.map_values(|t: (Seq<char>, Seq<char>)| label_text(t)));
    Seq::new(max_level(table) + 1, |l: int| at_level(ts, table, l as nat))
}

/// What computing the levels gives: the dependencies are all `deps` facts.
pub open spec fn levels_of(e: SpecEngine, ts: Seq<(Seq<char>, Seq<char>)>) -> Result<Seq<Seq<(Seq<char>, Seq<char>)>>, SpecEvalError> {
    match query_result(e, "deps"@, Seq::empty()) {
        Err(x) => Err(x),
        Ok(dfs) => Ok(build_levels(deps_from(Seq::empty(), dfs), ts)),
    }
}

pub open spec fn level_view(t: Seq<(String, usize)>) -> Seq<(Seq<char>, nat)> {
    t.map_values(|e: (String, usize)| (e.0@, e.1 as nat))
}

pub open spec fn labels_view(ts: Seq<TargetLabel>) -> Seq<(Seq<char>, Seq<char>)> {
    ts.map_values(|t: TargetLabel| t@)
}

fn level_lookup(table: &Vec<(String, usize)>, t: &String) -> (r: Option<usize>)
    requires
        keys_distinct(level_view(table@)),
    ensures
        match lookup(level_view(table@), t@) {
            Some(l) => r == Some(l as usize) && l <= usize::MAX,
            None => r is None,
        },
{
    let ghost tv = level_view(table@);
    proof { lemma_key_index_bounds(tv, t@); }
    let mut i: usize = 0;
    while i < table.len()
        invariant
            i <= table@.len(),
            tv == level_view(table@),
            keys_distinct(tv),
            key_index(tv, t@) matches Some(j) ==> 0 <= j < tv.len() && tv[j].0 == t@,
            key_index(tv, t@) is None ==> forall|j: int| 0 <= j < tv.len() ==> tv[j].0 != t@,
            forall|j: int| 0 <= j < i ==> tv[j].0 != t@,
        decreases table@.len() - i,
    {
        assert(tv[i as int] == (table@[i as int].0@, table@[i as int].1 as nat));
        if string_eq(&table[i].0, t) {
            assert(key_index(tv, t@) == Some(i as int));
            return Some(table[i].1);
        }
        i = i + 1;
    }
    None
}

fn level_record(table: &mut Vec<(String, usize)>, t: &String, l: usize)
    requires
        keys_distinct(level_view(old(table)@)),
    ensures
        keys_distinct(level_view(final(table)@)),
        level_view(final(table)@) == assoc_put(level_view(old(table)@), t@, l as nat),
{
    let ghost tv = level_view(table@);
    proof { lemma_key_index_bounds(tv, t@); }
    let mut i: usize = 0;
    while i < table.len()
        invariant
            i <= table@.len(),
            tv == level_view(table@),
            tv == level_view(old(table)@),
            keys_distinct(tv),
            key_index(tv, t@) matches Some(j) ==> 0 <= j < tv.len() && tv[j].0 == t@,
            key_index(tv, t@) is None ==> forall|j: int| 0 <= j < tv.len() ==> tv[j].0 != t@,
            forall|j: int| 0 <= j < i ==> tv[j].0 != t@,
        decreases table@.len() - i,
    {
        assert(tv[i as int] == (table@[i as int].0@, table@[i as int].1 as nat));
        if string_eq(&table[i].0, t) {
            assert(key_index(tv, t@) == Some(i as int));
            table.set(i, (copy_string(t), l));
            assert(level_view(table@) =~= tv.update(i as int, (t@, l as nat)));
            return;
        }
        i = i + 1;
    }
    assert(key_index(tv, t@) is None);
    table.push((copy_string(t), l));
    assert(level_view(table@) =~= tv.push((t@, l as nat)));
}

/// Every level in the table is below `n`.
pub open spec fn levels_below(table: Seq<(Seq<char>, nat)>, n: nat) -> bool {
    forall|j: int| 0 <= j < table.len() ==> #[trigger] table[j].1 < n
}

proof fn lemma_lookup_below(table: Seq<(Seq<char>, nat)>, n: nat, t: Seq<char>)
    requires
        levels_below(table, n),
    ensures
        lookup(table, t) matches Some(l) ==> l < n,
{
    lemma_key_index_bounds(table, t);
}

proof fn lemma_dep_level_bound(ds: Seq<Seq<char>>, table: Seq<(Seq<char>, nat)>, n: nat)
    requires
        levels_below(table, n),
    ensures
        dep_level(ds, table) <= n,
    decreases ds.len(),
{
    if ds.len() > 0 {
        lemma_dep_level_bound(ds.drop_last(), table, n);
        lemma_lookup_below(table, n, ds.last());
    }
}

proof fn lemma_put_below(table: Seq<(Seq<char>, nat)>, n: nat, t: Seq<char>, l: nat)
    requires
        levels_below(table, n),
        l < n,
    ensures
        levels_below(assoc_put(table, t, l), n),
{
    lemma_key_index_bounds(table, t);
    let r = assoc_put(table, t, l);
    assert forall|j: int| 0 <= j < r.len() implies #[trigger] r[j].1 < n by {
        match key_index(table, t) {
            Some(i) => {
                if j != i {
                    assert(r[j] == table[j]);
                }
            },
            None => {
                if j < table.len() {
                    assert(r[j] == table[j]);
                }
            },
        }
    }
}

proof fn lemma_max_level(table: Seq<(Seq<char>, nat)>, n: nat)
    requires
        levels_below(table, n),
    ensures
        table.len() > 0 ==> max_level(table) < n,
        max_level(table) <= n,
    decreases table.len(),
{
    if table.len() > 0 {
        assert(levels_below(table.drop_last(), n)) by {
            assert forall|j: int| 0 <= j < table.drop_last().len() implies #[trigger] table.drop_last()[j].1 < n by {
                assert(table.drop_last()[j] == table[j]);
            }
        }
        lemma_max_level(table.drop_last(), n);
        assert(table.last().1 < n);
    }
}

/// Groups the targets in build order by level (see `levels_of`).
pub fn compute_build_levels(ordered: &Vec<TargetLabel>, db: &mut Engine) -> (r: Result<Vec<Vec<TargetLabel>>, EvalError>)
    ensures
        final(db)@ == old(db)@,
        match (r, levels_of(old(db)@, labels_view(ordered@))) {
            (Ok(ls), Ok(sls)) => ls@.len() == sls.len() && forall|l: int| 0 <= l < ls@.len() ==> labels_view(#[trigger] ls@[l]@) == sls[l],
            (Err(x), Err(sx)) => x@ == sx,
            _ => false,
        },
{
    proof {
        reveal_strlit("source_location");
        reveal_strlit("deps");
        assert("deps"@.len() != "source_location"@.len());
    }
    let dfs = match query_all(db, "deps") {
        Ok(fs) => fs,
        Err(x) => {
            return Err(x);
        },
    };
    let ghost fv = facts_view(dfs@);
    let mut deps: Vec<(String, Vec<String>)> = Vec::new();
    let mut k: usize = 0;
    assert(fv.take(0) =~= Seq::<SpecFact>::empty());
    assert(deps_table_view(deps@) =~= Seq::<(Seq<char>, Seq<Seq<char>>)>::empty());
    while k < dfs.len()
        invariant
            k <= dfs@.len(),
            fv == facts_view(dfs@),
            keys_distinct(deps_table_view(deps@)),
            deps_table_view(deps@) == deps_from(Seq::empty(), fv.take(k as int)),
        decreases dfs@.len() - k,
    {
        assert(fv.take(k + 1).drop_last() =~= fv.take(k as int));
        assert(fv.take(k + 1).last() == dfs@[k as int]@);
        match (string_at_exec(&dfs[k], 0), string_at_exec(&dfs[k], 1)) {
            (Some(a), Some(b)) => {
                push_dep(&mut deps, a, b);
            },
            _ => {},
        }
        k = k + 1;
    }
    assert(fv.take(k as int) =~= fv);
    let ghost dv = deps_table_view(deps@);
    let ghost ov = labels_view(ordered@);
    let ghost names = ov.map_values(|t: (Seq<char>, Seq<char>)| label_text(t));
    let mut table: Vec<(String, usize)> = Vec::new();
    let n = ordered.len();
    let mut i: usize = 0;
    assert(names.take(0) =~= Seq::<Seq<char>>::empty());
    assert(level_view(table@) =~= Seq::<(Seq<char>, nat)>::empty());
    while i < ordered.len()
        invariant
            i <= ordered@.len(),
            dv == deps_table_view(deps@),
            keys_distinct(dv),
            ov == labels_view(ordered@),
            n == ordered@.len(),
            names == ov.map_values(|t: (Seq<char>, Seq<char>)| label_text(t)),
            keys_distinct(level_view(table@)),
            levels_below(level_view(table@), (i + 1) as nat),
            level_view(table@) == level_table(dv, names.take(i as int)),
        decreases ordered@.len() - i,
    {
        assert(names.take(i + 1).drop_last() =~= names.take(i as int));
        let t = ordered[i].to_string();
        assert(names.take(i + 1).last() == t@);
        let ds = deps_of_exec(&deps, &t);
        let ghost dsv = strings_view(ds@);
        let ghost tb = level_view(table@);
        let mut lvl: usize = 0;
        let mut j: usize = 0;
        assert(dsv.take(0) =~= Seq::<Seq<char>>::empty());
        while j < ds.len()
            invariant
                j <= ds@.len(),
                dsv == strings_view(ds@),
                tb == level_view(table@),
                keys_distinct(tb),
                levels_below(tb, (i + 1) as nat),
                lvl as nat == dep_level(dsv.take(j as int), tb),
                lvl <= i + 1,
                i < ordered@.len(),
                n == ordered@.len(),
            decreases ds@.len() - j,
        {
            assert(dsv.take(j + 1).drop_last() =~= dsv.take(j as int));
            assert(dsv.take(j + 1).last() == ds@[j as int]@);
            proof { lemma_lookup_below(tb, (i + 1) as nat, ds@[j as int]@); }
            match level_lookup(&table, &ds[j]) {
                Some(l) => {
                    assert(l < i + 1);
                    if l + 1 > lvl {
                        lvl = l + 1;
                    }
                },
                None => {},
            }
            j = j + 1;
        }
        assert(dsv.take(j as int) =~= dsv);
        proof {
            lemma_dep_level_bound(dsv, tb, (i + 1) as nat);
            lemma_put_below(tb, (i + 2) as nat, t@, lvl as nat);
            assert(levels_below(tb, (i + 2) as nat)) by {
                assert forall|q: int| 0 <= q < tb.len() implies #[trigger] tb[q].1 < (i + 2) as nat by {
                    assert(tb[q].1 < (i + 1) as nat);
                }
            }
            lemma_put_below(tb, (i + 2) as nat, t@, lvl as nat);
        }
        level_record(&mut table, &t, lvl);
        i = i + 1;
    }
    assert(names.take(i as int) =~= names);
    let ghost tv = level_view(table@);
    let mut max: usize = 0;
    let mut m: usize = 0;
    assert(tv.take(0) =~= Seq::<(Seq<char>, nat)>::empty());
    proof { lemma_max_level(tv, (ordered@.len() + 1) as nat); }
    while m < table.len()
        invariant
            m <= table@.len(),
            tv == level_view(table@),
            levels_below(tv, (ordered@.len() + 1) as nat),
            max as nat == max_level(tv.take(m as int)),
            max <= ordered@.len(),
        decreases table@.len() - m,
    {
        assert(tv.take(m + 1).drop_last() =~= tv.take(m as int));
        assert(tv.take(m + 1).last() == tv[m as int]);
        assert(tv[m as int].1 < (ordered@.len() + 1) as nat);
        if table[m].1 > max {
            max = table[m].1;
        }
        m = m + 1;
    }
    assert(tv.take(m as int) =~= tv);
    let mut levels: Vec<Vec<TargetLabel>> = Vec::new();
    let mut l: usize = 0;
    loop
        invariant_except_break
            l <= max,
            levels@.len() == l,
        invariant
            max <= ordered@.len(),
            max as nat == max_level(tv),
            tv == level_view(table@),
            keys_distinct(tv),
            ov == labels_view(ordered@),
            forall|q: int| 0 <= q < levels@.len() ==> labels_view(#[trigger] levels@[q]@) == at_level(ov, tv, q as nat),
        ensures
            levels@.len() == max + 1,
            forall|q: int| 0 <= q < levels@.len() ==> labels_view(#[trigger] levels@[q]@) == at_level(ov, tv, q as nat),
        decreases max - l,
    {
        let mut at: Vec<TargetLabel> = Vec::new();
        let mut q: usize = 0;
        assert(ov.take(0) =~= Seq::<(Seq<char>, Seq<char>)>::empty());
        assert(labels_view(at@) =~= Seq::<(Seq<char>, Seq<char>)>::empty());
        while q < ordered.len()
            invariant
                q <= ordered@.len(),
                tv == level_view(table@),
                keys_distinct(tv),
                ov == labels_view(ordered@),
                labels_view(at@) == at_level(ov.take(q as int), tv, l as nat),
            decreases ordered@.len() - q,
        {
            assert(ov.take(q + 1).drop_last() =~= ov.take(q as int));
            assert(ov.take(q + 1).last() == ordered@[q as int]@);
            let t = ordered[q].to_string();
            match level_lookup(&table, &t) {
                Some(x) => {
                    if x == l {
                        let ghost prev = labels_view(at@);
                        at.push(TargetLabel { package: copy_string(&ordered[q].package), target: copy_string(&ordered[q].target) });
                        assert(labels_view(at@) =~= prev.push(ordered@[q as int]@));
                    }
                },
                None => {},
            }
            q = q + 1;
        }
        assert(ov.take(q as int) =~= ov);
        levels.push(at);
        if l == max {
            break;
        }
        l = l + 1;
    }
    proof {
        let sls = build_levels(dv, ov);
        assert(dv == deps_from(Seq::empty(), fv));
        assert(tv == level_table(dv, ov.map_values(|t: (Seq<char>, Seq<char>)| label_text(t))));
        assert(sls.len() == levels@.len());
        assert forall|q: int| 0 <= q < levels@.len() implies labels_view(#[trigger] levels@[q]@) == sls[q] by {}
    }
    Ok(levels)
}

/// Each output with the target that declares it.
pub open spec fn tagged(outs: Seq<Seq<char>>, t: Seq<char>) -> Seq<(Seq<char>, Seq<char>)>
    decreases outs.len(),
{
    if outs.len() == 0 {
        Seq::empty()
    } else {
        tagged(outs.drop_last(), t).push((outs.last(), t))
    }
}

/// The outputs of the planned targets, each with its target, in order.
pub open spec fn declared(ps: Seq<((Seq<char>, Seq<char>), Seq<Seq<char>>)>) -> Seq<(Seq<char>, Seq<char>)>
    decreases ps.len(),
{
    if ps.len() == 0 {
        Seq::empty()
    } else {
        declared(ps.drop_last()) + tagged(ps.last().1, label_text(ps.last().0))
    }
}

/// The targets that declare the output `o`, in order.
pub open spec fn owners(ds: Seq<(Seq<char>, Seq<char>)>, o: Seq<char>) -> Seq<Seq<char>>
    decreases ds.len(),
{
    if ds.len() == 0 {
        Seq::empty()
    } else {
        let prev = owners(ds.drop_last(), o);
        if ds.last().0 == o { prev.push(ds.last().1) } else { prev }
    }
}

/// The outputs, each once, in the order in which they first occur.
pub open spec fn first_paths(ds: Seq<(Seq<char>, Seq<char>)>) -> Seq<Seq<char>>
    decreases ds.len(),
{
    if ds.len() == 0 {
        Seq::empty()
    } else {
        let prev = first_paths(ds.drop_last());
        if prev.contains(ds.last().0) { prev } else { prev.push(ds.last().0) }
    }
}

/// The outputs of `paths` that more than one declaration names.
pub open spec fn conflicted(paths: Seq<Seq<char>>, ds: Seq<(Seq<char>, Seq<char>)>) -> Seq<Seq<char>>
    decreases paths.len(),
{
    if paths.len() == 0 {
        Seq::empty()
    } else {
        let prev = conflicted(paths.drop_last(), ds);
        if owners(ds, paths.last()).len() > 1 { prev.push(paths.last()) } else { prev }
    }
}

pub open spec fn owner_lines(ts: Seq<Seq<char>>) -> Seq<char>
    decreases ts.len(),
{
    if ts.len() == 0 {
        Seq::empty()
    } else {
        owner_lines(ts.drop_last()) + "    "@ + ts.last() + "\n"@
    }
}

pub open spec fn conflict_lines(cs: Seq<Seq<char>>, ds: Seq<(Seq<char>, Seq<char>)>) -> Seq<char>
    decreases cs.len(),
{
    if cs.len() == 0 {
        Seq::empty()
    } else {
        conflict_lines(cs.drop_last(), ds) + "  "@ + cs.last() + " declared by:\n"@ + owner_lines(owners(ds, cs.last()))
    }
}

/// What checking the outputs gives: `Ok` when no output is declared twice; else the report of
/// each output declared more than once, with the targets that declare it.
pub open spec fn outputs_check(ps: Seq<((Seq<char>, Seq<char>), Seq<Seq<char>>)>) -> Result<(), Seq<char>> {
    let ds = declared(ps);
    let cs = conflicted(first_paths(ds), ds);
    if cs.len() == 0 {
        Ok(())
    } else {
        Err("Output conflicts detected:\n"@ + conflict_lines(cs, ds) + "\nEach output file must be produced by exactly one target."@)
    }
}

pub open spec fn planned_view(ps: Seq<(TargetLabel, BuildPlan)>) -> Seq<((Seq<char>, Seq<char>), Seq<Seq<char>>)> {
    ps.map_values(|p: (TargetLabel, BuildPlan)| (p.0@, strings_view(p.1.outputs@)))
}

pub open spec fn pair_view(s: Seq<(String, String)>) -> Seq<(Seq<char>, Seq<char>)> {
    s.map_values(|p: (String, String)| (p.0@, p.1@))
}

fn owners_exec(ds: &Vec<(String, String)>, o: &String) -> (r: Vec<String>)
    ensures
        strings_view(r@) == owners(pair_view(ds@), o@),
{
    let ghost dv = pair_view(ds@);
    let mut out: Vec<String> = Vec::new();
    let mut k: usize = 0;
    assert(dv.take(0) =~= Seq::<(Seq<char>, Seq<char>)>::empty());
    assert(strings_view(out@) =~= Seq::<Seq<char>>::empty());
    while k < ds.len()
        invariant
            k <= ds@.len(),
            dv == pair_view(ds@),
            strings_view(out@) == owners(dv.take(k as int), o@),
        decreases ds@.len() - k,
    {
        assert(dv.take(k + 1).drop_last() =~= dv.take(k as int));
        assert(dv.take(k + 1).last() == (ds@[k as int].0@, ds@[k as int].1@));
        if string_eq(&ds[k].0, o) {
            let ghost prev = strings_view(out@);
            out.push(copy_string(&ds[k].1));
            assert(strings_view(out@) =~= prev.push(ds@[k as int].1@));
        }
        k = k + 1;
    }
    assert(dv.take(k as int) =~= dv);
    out
}

/// Checks that no output is declared by two plans, or twice (see `outputs_check`).
pub fn check_output_conflicts(targets: &Vec<(TargetLabel, BuildPlan)>) -> (r: Result<(), String>)
    ensures
        match (r, outputs_check(planned_view(targets@))) {
            (Ok(_), Ok(_)) => true,
            (Err(m), Err(sm)) => m@ == sm,
            _ => false,
        },
{
    let ghost pv = planned_view(targets@);
    let mut ds: Vec<(String, String)> = Vec::new();
    let mut i: usize = 0;
    assert(pv.take(0) =~= Seq::<((Seq<char>, Seq<char>), Seq<Seq<char>>)>::empty());
    assert(pair_view(ds@) =~= Seq::<(Seq<char>, Seq<char>)>::empty());
    while i < targets.len()
        invariant
            i <= targets@.len(),
            pv == planned_view(targets@),
            pair_view(ds@) == declared(pv.take(i as int)),
        decreases targets@.len() - i,
    {
        assert(pv.take(i + 1).drop_last() =~= pv.take(i as int));
        let t = targets[i].0.to_string();
        let outs = &targets[i].1.outputs;
        let ghost ov = strings_view(outs@);
        assert(pv.take(i + 1).last() == (targets@[i as int].0@, ov));
        let ghost base = pair_view(ds@);
        let mut j: usize = 0;
        assert(ov.take(0) =~= Seq::<Seq<char>>::empty());
        assert(base + tagged(ov.take(0), t@) =~= base);
        while j < outs.len()
            invariant
                j <= outs@.len(),
                ov == strings_view(outs@),
                pair_view(ds@) == base + tagged(ov.take(j as int), t@),
            decreases outs@.len() - j,
        {
            assert(ov.take(j + 1).drop_last() =~= ov.take(j as int));
            assert(ov.take(j + 1).last() == outs@[j as int]@);
            let ghost prev = pair_view(ds@);
            ds.push((copy_string(&outs[j]), copy_string(&t)));
            j = j + 1;
            assert(pair_view(ds@) =~= prev.push((outs@[j - 1]@, t@)));
            assert(base + tagged(ov.take(j as int), t@) =~= (base + tagged(ov.take(j - 1), t@)).push((outs@[j - 1]@, t@)));
        }
        assert(ov.take(j as int) =~= ov);
        i = i + 1;
    }
    assert(pv.take(i as int) =~= pv);
    let ghost dv = pair_view(ds@);
    let mut paths: Vec<String> = Vec::new();
    let mut k: usize = 0;
    assert(dv.take(0) =~= Seq::<(Seq<char>, Seq<char>)>::empty());
    assert(strings_view(paths@) =~= Seq::<Seq<char>>::empty());
    while k < ds.len()
        invariant
            k <= ds@.len(),
            dv == pair_view(ds@),
            strings_view(paths@) == first_paths(dv.take(k as int)),
        decreases ds@.len() - k,
    {
        assert(dv.take(k + 1).drop_last() =~= dv.take(k as int));
        assert(dv.take(k + 1).last() == (ds@[k as int].0@, ds@[k as int].1@));
        if !seq_contains_string(&paths, &ds[k].0) {
            let ghost prev = strings_view(paths@);
            paths.push(copy_string(&ds[k].0));
            assert(strings_view(paths@) =~= prev.push(ds@[k as int].0@));
        }
        k = k + 1;
    }
    assert(dv.take(k as int) =~= dv);
    let ghost fp = strings_view(paths@);
    let mut lines = String::new();
    let mut any = false;
    let mut c: usize = 0;
    assert(fp.take(0) =~= Seq::<Seq<char>>::empty());
    while c < paths.len()
        invariant
            c <= paths@.len(),
            fp == strings_view(paths@),
            dv == pair_view(ds@),
            lines@ == conflict_lines(conflicted(fp.take(c as int), dv), dv),
            any == (conflicted(fp.take(c as int), dv).len() > 0),
        decreases paths@.len() - c,
    {
        assert(fp.take(c + 1).drop_last() =~= fp.take(c as int));
        assert(fp.take(c + 1).last() == paths@[c as int]@);
        let os = owners_exec(&ds, &paths[c]);
        let ghost prevc = conflicted(fp.take(c as int), dv);
        let ghost x = paths@[c as int]@;
        if os.len() > 1 {
            let ghost before = lines@;
            push_all(&mut lines, "  ");
            push_string(&mut lines, &paths[c]);
            push_all(&mut lines, " declared by:\n");
            let ghost ov = strings_view(os@);
            let ghost mid = lines@;
            let mut q: usize = 0;
            assert(ov.take(0) =~= Seq::<Seq<char>>::empty());
            assert(mid + owner_lines(ov.take(0)) =~= mid);
            while q < os.len()
                invariant
                    q <= os@.len(),
                    ov == strings_view(os@),
                    lines@ == mid + owner_lines(ov.take(q as int)),
                decreases os@.len() - q,
            {
                assert(ov.take(q + 1).drop_last() =~= ov.take(q as int));
                assert(ov.take(q + 1).last() == os@[q as int]@);
                push_all(&mut lines, "    ");
                push_string(&mut lines, &os[q]);
                push_all(&mut lines, "\n");
                q = q + 1;
            }
            assert(ov.take(q as int) =~= ov);
            assert(conflicted(fp.take(c + 1), dv) == prevc.push(x));
            assert(prevc.push(x).drop_last() =~= prevc);
            assert(lines@ =~= conflict_lines(prevc, dv) + "  "@ + x + " declared by:\n"@ + owner_lines(owners(dv, x)));
            any = true;
        }
        c = c + 1;
    }
    assert(fp.take(c as int) =~= fp);
    if !any {
        return Ok(());
    }
    let mut m = str_to_string("Output conflicts detected:\n");
    push_string(&mut m, &lines);
    push_all(&mut m, "\nEach output file must be produced by exactly one target.");
    Err(m)
}

} // verus!
