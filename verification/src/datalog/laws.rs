use vstd::prelude::*;
use crate::datalog::types::SpecFact;
use vstd::multiset::Multiset;
use crate::datalog::store::{rules_for, SpecEngine, key_index, lookup, assoc_put, base_facts, has_rules, groups_after_insert, groups_after_retract, last_index, retract_one, swap_removed};
use crate::datalog::engine::{inserted, retracted};
use crate::datalog::query::{query_result, query_state, filtered, passes, all_none, keep_passing, indexed_base, rule_results, tc_facts};
use crate::datalog::semantics::{uses_group, add_fresh, head_fact, name_index, any_facts, add_new, group_of, group_rules, rules_using, with_first, string_at, Lower, glob_one, glob_step, resolve_one, resolve_step, resolved, location_facts, eval_atom, eval_body, eval_rule, first_phase, round, rounds, max_rounds, derived_facts, lower_at, full_facts, query_fuel};
use crate::datalog::types::{SpecPredicate, SpecRule, SpecTerm};
use crate::datalog::binding::SBind;
use crate::datalog::builtins::{SpecEvalError, SpecBinds};

verus! {

/// The facts of `fs` whose predicate is `p`, in order.
pub open spec fn of_predicate(fs: Seq<SpecFact>, p: Seq<char>) -> Seq<SpecFact>
    decreases fs.len(),
{
    if fs.len() == 0 {
        Seq::empty()
    } else {
        let prev = of_predicate(fs.drop_last(), p);
        if fs.last().predicate == p { prev.push(fs.last()) } else { prev }
    }
}

proof fn lemma_key_index_update<V>(s: Seq<(Seq<char>, V)>, i: int, v: V, q: Seq<char>)
    requires
        0 <= i < s.len(),
    ensures
        key_index(s.update(i, (s[i].0, v)), q) == key_index(s, q),
    decreases s.len(),
{
    let t = s.update(i, (s[i].0, v));
    if i < s.len() - 1 {
        assert(t.drop_last() =~= s.drop_last().update(i, (s[i].0, v)));
        lemma_key_index_update(s.drop_last(), i, v, q);
    } else {
        assert(t.drop_last() =~= s.drop_last());
    }
}

proof fn lemma_lookup_put<V>(s: Seq<(Seq<char>, V)>, k: Seq<char>, v: V, q: Seq<char>)
    ensures
        lookup(assoc_put(s, k, v), q) == if q == k { Some(v) } else { lookup(s, q) },
{
    crate::datalog::store::lemma_key_index_bounds(s, k);
    crate::datalog::store::lemma_key_index_bounds(s, q);
    match key_index(s, k) {
        Some(i) => {
            lemma_key_index_update(s, i, v, q);
            crate::datalog::store::lemma_key_index_bounds(s.update(i, (k, v)), q);
        },
        None => {
            assert(s.push((k, v)).drop_last() =~= s);
        },
    }
}

proof fn lemma_lookup_after_insert(gs: Seq<(Seq<char>, Seq<SpecFact>)>, fs: Seq<SpecFact>, p: Seq<char>)
    ensures
        lookup(groups_after_insert(gs, fs), p) == if of_predicate(fs, p).len() > 0 {
            Some(match lookup(gs, p) { Some(old) => old, None => Seq::empty() } + of_predicate(fs, p))
        } else {
            lookup(gs, p)
        },
    decreases fs.len(),
{
    if fs.len() > 0 {
        let prev = groups_after_insert(gs, fs.drop_last());
        let f = fs.last();
        lemma_lookup_after_insert(gs, fs.drop_last(), p);
        lemma_lookup_after_insert(gs, fs.drop_last(), f.predicate);
        match lookup(prev, f.predicate) {
            Some(old) => lemma_lookup_put(prev, f.predicate, old.push(f), p),
            None => lemma_lookup_put(prev, f.predicate, seq![f], p),
        }
        let base: Seq<SpecFact> = match lookup(gs, p) { Some(old) => old, None => Seq::empty() };
        if f.predicate == p {
            assert(base + of_predicate(fs, p) =~= (base + of_predicate(fs.drop_last(), p)).push(f));
            if of_predicate(fs.drop_last(), p).len() == 0 {
                assert(base + of_predicate(fs.drop_last(), p) =~= base);
            }
        }
    }
}

/// A read after a write: querying, without filters, a predicate that no rule defines gives
/// its facts stored before, followed by the facts of that predicate that were just inserted,
/// and leaves the engine as it is. (The one exception is `source_location` while no fact of
/// it is stored: a query of it stores the facts of the recorded locations first.)
pub proof fn law_query_after_insert(e: SpecEngine, fs: Seq<SpecFact>, p: Seq<char>)
    requires
        !has_rules(e.rules, p),
        !(p == "source_location"@ && key_index(e.groups, p) is None && of_predicate(fs, p).len() == 0),
    ensures
        query_state(inserted(e, fs), p) == inserted(e, fs),
        query_result(inserted(e, fs), p, Seq::empty()) == Ok::<Seq<SpecFact>, crate::datalog::builtins::SpecEvalError>(
            base_facts(e, p) + of_predicate(fs, p)),
{
    let e1 = inserted(e, fs);
    lemma_lookup_after_insert(e.groups, fs, p);
    assert(e1.rules == e.rules);
    if of_predicate(fs, p).len() == 0 {
        assert(base_facts(e, p) + of_predicate(fs, p) =~= base_facts(e, p));
    }
    if p == "source_location"@ {
        if key_index(e.groups, p) is Some {
            assert(lookup(e.groups, p) is Some);
        }
        assert(lookup(e1.groups, p) is Some);
    }
    assert(all_none(Seq::<Option<Seq<char>>>::empty()));
    assert(indexed_base(e1, p, Seq::empty()) == base_facts(e1, p));
}

/// Retracting a fact right after inserting it gives back the facts stored before, for every
/// predicate; the rules and the rest of the engine do not change.
pub proof fn law_retract_undoes_insert(e: SpecEngine, f: SpecFact, q: Seq<char>)
    ensures
        base_facts(retracted(inserted(e, seq![f]), seq![f]), q) == base_facts(e, q),
        retracted(inserted(e, seq![f]), seq![f]).rules == e.rules,
        retracted(inserted(e, seq![f]), seq![f]).locations == e.locations,
{
    let g1 = groups_after_insert(e.groups, seq![f]);
    assert(seq![f].drop_last() =~= Seq::<SpecFact>::empty());
    assert(seq![f].last() == f);
    assert(groups_after_insert(e.groups, Seq::<SpecFact>::empty()) == e.groups);
    assert(g1 == match lookup(e.groups, f.predicate) {
        Some(o) => assoc_put(e.groups, f.predicate, o.push(f)),
        None => assoc_put(e.groups, f.predicate, seq![f]),
    });
    let old: Seq<SpecFact> = match lookup(e.groups, f.predicate) { Some(o) => o, None => Seq::empty() };
    match lookup(e.groups, f.predicate) {
        Some(o) => lemma_lookup_put(e.groups, f.predicate, o.push(f), f.predicate),
        None => lemma_lookup_put(e.groups, f.predicate, seq![f], f.predicate),
    }
    assert(lookup(g1, f.predicate) == Some(old.push(f))) by {
        if lookup(e.groups, f.predicate) is None {
            assert(seq![f] =~= Seq::<SpecFact>::empty().push(f));
        }
    }
    assert(last_index(old.push(f), f) == Some(old.len() as int));
    assert(retract_one(old.push(f), f) =~= old);
    let g2 = groups_after_retract(g1, seq![f]);
    assert(groups_after_retract(g1, Seq::<SpecFact>::empty()) == g1);
    assert(g2 == assoc_put(g1, f.predicate, retract_one(old.push(f), f)));
    assert(g2 == assoc_put(g1, f.predicate, old));
    lemma_lookup_put(g1, f.predicate, old, q);
    match lookup(e.groups, f.predicate) {
        Some(o) => lemma_lookup_put(e.groups, f.predicate, o.push(f), q),
        None => lemma_lookup_put(e.groups, f.predicate, seq![f], q),
    }
}

proof fn lemma_keep_passing(fs: Seq<SpecFact>, filters: Seq<Option<Seq<char>>>, i: int)
    requires
        0 <= i < keep_passing(fs, filters).len(),
    ensures
        passes(keep_passing(fs, filters)[i], filters),
        fs.contains(keep_passing(fs, filters)[i]),
    decreases fs.len(),
{
    let prev = keep_passing(fs.drop_last(), filters);
    if i < prev.len() {
        lemma_keep_passing(fs.drop_last(), filters, i);
        let j = choose|j: int| 0 <= j < fs.drop_last().len() && fs.drop_last()[j] == prev[i];
        assert(fs[j] == prev[i]);
    } else {
        assert(fs[fs.len() - 1] == fs.last());
    }
}

/// What the filters let through passes them: when a filter is set, every fact kept passes
/// every filter, and comes from the facts filtered.
pub proof fn law_filtered_facts_pass(fs: Seq<SpecFact>, filters: Seq<Option<Seq<char>>>, i: int)
    requires
        !all_none(filters),
        0 <= i < filtered(fs, filters).len(),
    ensures
        passes(filtered(fs, filters)[i], filters),
        fs.contains(filtered(fs, filters)[i]),
{
    lemma_keep_passing(fs, filters, i);
}

/// Whether the engine stores a group of facts for `p` (possibly an empty one).
pub open spec fn has_group(e: SpecEngine, p: Seq<char>) -> bool {
    key_index(e.groups, p) is Some
}

/// Two engines that hold the same data: the same base facts for every predicate, the same
/// rules, recorded locations, resolutions and globs, and a stored `source_location` group in
/// both or in neither. They differ at most in how their groups are laid out.
pub open spec fn same_data(e1: SpecEngine, e2: SpecEngine) -> bool {
    &&& e1.rules == e2.rules
    &&& e1.locations == e2.locations
    &&& e1.resolve_enabled == e2.resolve_enabled
    &&& e1.resolutions == e2.resolutions
    &&& e1.globbed == e2.globbed
    &&& has_group(e1, "source_location"@) == has_group(e2, "source_location"@)
    &&& forall|q: Seq<char>| #[trigger] base_facts(e1, q) == base_facts(e2, q)
}

proof fn lemma_steps_same(e1: SpecEngine, e2: SpecEngine, args: Seq<SpecTerm>, lower: Lower)
    requires
        same_data(e1, e2),
    ensures
        glob_step(e1, args, lower) == glob_step(e2, args, lower),
        resolve_step(e1, args) == resolve_step(e2, args),
        location_facts(e1) == location_facts(e2),
{
    assert(base_facts(e1, "attr"@) == base_facts(e2, "attr"@));
    assert(base_facts(e1, "source_location"@) == base_facts(e2, "source_location"@));
    assert forall|t: Seq<char>| resolved(e1, t) == resolved(e2, t) by {}
    assert forall|b: SBind| #[trigger] glob_one(e1, args, b, lower) == glob_one(e2, args, b, lower) by {}
    assert forall|b: SBind| #[trigger] resolve_one(e1, args, b) == resolve_one(e2, args, b) by {
        match crate::datalog::semantics::agg_name(args[0], b) {
            Some(t) => { assert(resolved(e1, t) == resolved(e2, t)); },
            None => {},
        }
    }
    assert(glob_step(e1, args, lower) =~= glob_step(e2, args, lower));
    assert(resolve_step(e1, args) =~= resolve_step(e2, args));
}

proof fn lemma_body_same(
    e1: SpecEngine, e2: SpecEngine, scc: Seq<Seq<char>>, db: Seq<Seq<SpecFact>>, lower: Lower,
    expand: bool, body: Seq<SpecPredicate>, i: int, bs: Seq<SBind>,
)
    requires
        same_data(e1, e2),
    ensures
        eval_body(e1, scc, db, lower, expand, body, i, bs) == eval_body(e2, scc, db, lower, expand, body, i, bs),
    decreases body.len() - i,
{
    if !(i < 0 || i >= body.len() || bs.len() == 0) {
        reveal(eval_atom);
        lemma_steps_same(e1, e2, body[i].args, lower);
        assert(eval_atom(e1, scc, db, lower, expand, body[i], bs) == eval_atom(e2, scc, db, lower, expand, body[i], bs));
        match eval_atom(e1, scc, db, lower, expand, body[i], bs) {
            Ok(next) => lemma_body_same(e1, e2, scc, db, lower, expand, body, i + 1, next),
            Err(_) => {},
        }
    }
}

proof fn lemma_rule_same(e1: SpecEngine, e2: SpecEngine, scc: Seq<Seq<char>>, db: Seq<Seq<SpecFact>>, lower: Lower, expand: bool, r: SpecRule, init: SBind)
    requires
        same_data(e1, e2),
    ensures
        eval_rule(e1, scc, db, lower, expand, r, init) == eval_rule(e2, scc, db, lower, expand, r, init),
{
    reveal(eval_rule);
    lemma_body_same(e1, e2, scc, db, lower, expand, r.body, 0, seq![init]);
}

proof fn lemma_phases_same(e1: SpecEngine, e2: SpecEngine, scc: Seq<Seq<char>>, lower: Lower, db: Seq<Seq<SpecFact>>, rs: Seq<SpecRule>, n: int)
    requires
        same_data(e1, e2),
    ensures
        first_phase(e1, scc, lower, db, rs, n) == first_phase(e2, scc, lower, db, rs, n),
        round(e1, scc, lower, db, rs, n) == round(e2, scc, lower, db, rs, n),
    decreases n,
{
    if n > 0 {
        lemma_phases_same(e1, e2, scc, lower, db, rs, n - 1);
        lemma_rule_same(e1, e2, Seq::empty(), Seq::empty(), lower, true, rs[n - 1], Map::empty());
        lemma_rule_same(e1, e2, scc, db, lower, false, rs[n - 1], Map::empty());
    }
}

proof fn lemma_rounds_same(e1: SpecEngine, e2: SpecEngine, scc: Seq<Seq<char>>, lower: Lower, rs: Seq<SpecRule>, db: Seq<Seq<SpecFact>>, changed: bool, k: nat, max: nat)
    requires
        same_data(e1, e2),
    ensures
        rounds(e1, scc, lower, rs, db, changed, k, max) == rounds(e2, scc, lower, rs, db, changed, k, max),
    decreases max - k,
{
    if !(k >= max || !changed || rs.len() == 0) {
        lemma_phases_same(e1, e2, scc, lower, db, rs, rs.len() as int);
        match round(e1, scc, lower, db, rs, rs.len() as int) {
            Ok(new) => {
                if k + 1 != max {
                    let next = Seq::new(db.len(), |j: int| db[j] + new[j]);
                    lemma_rounds_same(e1, e2, scc, lower, rs, next, crate::datalog::semantics::any_facts(new), k + 1, max);
                }
            },
            Err(_) => {},
        }
    }
}

proof fn lemma_derived_same(e1: SpecEngine, e2: SpecEngine, p: Seq<char>, fuel: nat)
    requires
        same_data(e1, e2),
    ensures
        derived_facts(e1, p, fuel) == derived_facts(e2, p, fuel),
        lower_at(e1, fuel) == lower_at(e2, fuel),
    decreases fuel, 1nat,
{
    assert forall|q: Seq<char>| #[trigger] lower_at(e1, fuel)(q) == lower_at(e2, fuel)(q) by {
        lemma_derived_one(e1, e2, q, fuel);
        crate::datalog::semantics::lemma_lower_at(e1, fuel, q);
        crate::datalog::semantics::lemma_lower_at(e2, fuel, q);
    }
    assert(lower_at(e1, fuel) =~= lower_at(e2, fuel));
    lemma_derived_one(e1, e2, p, fuel);
}

proof fn lemma_derived_one(e1: SpecEngine, e2: SpecEngine, p: Seq<char>, fuel: nat)
    requires
        same_data(e1, e2),
    ensures
        derived_facts(e1, p, fuel) == derived_facts(e2, p, fuel),
    decreases fuel, 0nat,
{
    assert(base_facts(e1, p) == base_facts(e2, p));
    if has_rules(e1.rules, p) && fuel > 0 {
        lemma_derived_same(e1, e2, p, (fuel - 1) as nat);
        let lower = lower_at(e1, (fuel - 1) as nat);
        let scc = crate::datalog::semantics::group_of(e1.rules, p);
        let db0 = scc.map_values(|q: Seq<char>| base_facts(e1, q));
        assert(db0 =~= scc.map_values(|q: Seq<char>| base_facts(e2, q)));
        let rs = crate::datalog::semantics::group_rules(e1.rules, scc, scc.len() as int);
        let first = crate::datalog::semantics::rules_using(rs, scc, false);
        let rest = crate::datalog::semantics::rules_using(rs, scc, true);
        lemma_phases_same(e1, e2, scc, lower, db0, first, first.len() as int);
        assert(base_facts(e1, "max_iterations"@) == base_facts(e2, "max_iterations"@));
        assert(max_rounds(e1) == max_rounds(e2));
        match first_phase(e1, scc, lower, db0, first, first.len() as int) {
            Ok(db1) => lemma_rounds_same(e1, e2, scc, lower, rest, db1, crate::datalog::semantics::any_facts(db1), 0, max_rounds(e1)),
            Err(_) => {},
        }
    }
}

proof fn lemma_rule_results_same(e1: SpecEngine, e2: SpecEngine, rs: Seq<SpecRule>, init: SBind, n: int)
    requires
        same_data(e1, e2),
        full_facts(e1) == full_facts(e2),
    ensures
        rule_results(e1, rs, init, n) == rule_results(e2, rs, init, n),
    decreases n,
{
    if n > 0 {
        lemma_rule_results_same(e1, e2, rs, init, n - 1);
        lemma_rule_same(e1, e2, Seq::empty(), Seq::empty(), full_facts(e1), true, rs[n - 1], init);
    }
}

/// A query's answer depends only on the data the engine holds: two engines with the same base
/// facts for every predicate, the same rules and the same recorded data answer every query
/// alike, however their stored groups are laid out.
pub proof fn law_query_depends_on_data(e1: SpecEngine, e2: SpecEngine, p: Seq<char>, filters: Seq<Option<Seq<char>>>)
    requires
        same_data(e1, e2),
    ensures
        query_result(e1, p, filters) == query_result(e2, p, filters),
{
    lemma_derived_same(e1, e2, p, query_fuel(e1));
    assert(full_facts(e1) == full_facts(e2));
    assert forall|q: Seq<char>| #[trigger] base_facts(e1, q) == base_facts(e2, q) by {}
    assert(indexed_base(e1, p, filters) == indexed_base(e2, p, filters));
    let ep = crate::datalog::query::edge_pred(crate::datalog::store::rules_for(e1.rules, p));
    assert(base_facts(e1, ep) == base_facts(e2, ep));
    if filters.len() > 0 && filters[0] is Some {
        assert(tc_facts(e1, p, filters[0]->0) == tc_facts(e2, p, filters[0]->0));
    }
    let rs = crate::datalog::store::rules_for(e1.rules, p);
    if rs.len() > 0 {
        let init = crate::datalog::query::filter_binding(rs[0].head.args, filters, filters.len() as int);
        lemma_rule_results_same(e1, e2, rs, init, rs.len() as int);
    }
}

/// `s` with each of `rs` retracted in order (the last occurrence of each, as `retract_one`).
pub open spec fn retract_all(s: Seq<SpecFact>, rs: Seq<SpecFact>) -> Seq<SpecFact>
    decreases rs.len(),
{
    if rs.len() == 0 { s } else { retract_one(retract_all(s, rs.drop_last()), rs.last()) }
}

proof fn lemma_retract_all_empty(rs: Seq<SpecFact>)
    ensures
        retract_all(Seq::empty(), rs) == Seq::<SpecFact>::empty(),
    decreases rs.len(),
{
    if rs.len() > 0 {
        lemma_retract_all_empty(rs.drop_last());
    }
}

proof fn lemma_lookup_after_retract(gs: Seq<(Seq<char>, Seq<SpecFact>)>, fs: Seq<SpecFact>, p: Seq<char>)
    ensures
        lookup(groups_after_retract(gs, fs), p) == match lookup(gs, p) {
            Some(old) => Some(retract_all(old, of_predicate(fs, p))),
            None => None::<Seq<SpecFact>>,
        },
    decreases fs.len(),
{
    if fs.len() > 0 {
        let prev = groups_after_retract(gs, fs.drop_last());
        let f = fs.last();
        lemma_lookup_after_retract(gs, fs.drop_last(), p);
        lemma_lookup_after_retract(gs, fs.drop_last(), f.predicate);
        match lookup(prev, f.predicate) {
            Some(old) => lemma_lookup_put(prev, f.predicate, retract_one(old, f), p),
            None => {},
        }
        if f.predicate == p {
            assert(of_predicate(fs, p).drop_last() =~= of_predicate(fs.drop_last(), p));
        }
    }
}

proof fn lemma_last_index_found(r: Seq<SpecFact>, y: SpecFact)
    requires
        r.contains(y),
    ensures
        last_index(r, y) matches Some(i) && 0 <= i < r.len() && r[i] == y,
    decreases r.len(),
{
    if r.last() != y {
        let j = choose|j: int| 0 <= j < r.len() && r[j] == y;
        assert(r.drop_last()[j] == y);
        lemma_last_index_found(r.drop_last(), y);
    }
}

proof fn lemma_last_index_after(s: Seq<SpecFact>, r: Seq<SpecFact>, y: SpecFact, i: int)
    requires
        last_index(r, y) == Some(i),
    ensures
        last_index(s + r, y) == Some(s.len() + i),
    decreases r.len(),
{
    assert((s + r).last() == r.last());
    if r.last() != y {
        assert((s + r).drop_last() =~= s + r.drop_last());
        lemma_last_index_after(s, r.drop_last(), y, i);
    }
}

proof fn lemma_swap_removed_ms(r: Seq<SpecFact>, i: int)
    requires
        0 <= i < r.len(),
    ensures
        swap_removed(r, i).len() == r.len() - 1,
        swap_removed(r, i).to_multiset() =~= r.to_multiset().remove(r[i]),
{
    broadcast use vstd::seq_lib::group_to_multiset_ensures;
    broadcast use vstd::multiset::group_multiset_axioms;
    if i == r.len() - 1 {
        assert(r.drop_last() =~= r.remove(i));
    } else {
        let u = r.update(i, r.last());
        assert(u.drop_last() =~= u.remove(r.len() - 1));
        assert(u[r.len() - 1] == r.last());
        assert(u.to_multiset() == r.to_multiset().insert(r.last()).remove(r[i]));
        assert(u.drop_last().to_multiset() == u.to_multiset().remove(r.last()));
        assert(r.to_multiset().insert(r.last()).remove(r[i]).remove(r.last()) =~= r.to_multiset().remove(r[i]));
    }
}

proof fn lemma_retract_tail(s: Seq<SpecFact>, t: Seq<SpecFact>, ys: Seq<SpecFact>)
    requires
        ys.to_multiset().subset_of(t.to_multiset()),
    ensures
        retract_all(s + t, ys) == s + retract_all(t, ys),
        retract_all(t, ys).to_multiset() =~= t.to_multiset().sub(ys.to_multiset()),
    decreases ys.len(),
{
    broadcast use vstd::seq_lib::group_to_multiset_ensures;
    broadcast use vstd::multiset::group_multiset_axioms;
    if ys.len() == 0 {
        assert(ys.to_multiset() =~= Multiset::<SpecFact>::empty());
        assert(t.to_multiset().sub(Multiset::empty()) =~= t.to_multiset());
    } else {
        let y = ys.last();
        let ys1 = ys.drop_last();
        assert(ys1.push(y) =~= ys);
        assert(ys.to_multiset() =~= ys1.to_multiset().insert(y));
        assert(ys1.to_multiset().subset_of(t.to_multiset()));
        lemma_retract_tail(s, t, ys1);
        let r1 = retract_all(t, ys1);
        assert(r1.to_multiset().count(y) > 0);
        assert(r1.contains(y));
        lemma_last_index_found(r1, y);
        let i = last_index(r1, y)->0;
        lemma_last_index_after(s, r1, y, i);
        assert(swap_removed(s + r1, s.len() + i) =~= s + swap_removed(r1, i));
        lemma_swap_removed_ms(r1, i);
        assert(r1.to_multiset().remove(y) =~= t.to_multiset().sub(ys.to_multiset()));
    }
}

/// The stored facts of every predicate after retracting `fs`: each group loses, in order, the
/// last occurrence of each retracted fact of its predicate; no group appears or disappears.
pub proof fn law_retract_base_facts(e: SpecEngine, fs: Seq<SpecFact>, q: Seq<char>)
    ensures
        base_facts(retracted(e, fs), q) == retract_all(base_facts(e, q), of_predicate(fs, q)),
        has_group(retracted(e, fs), q) == has_group(e, q),
{
    lemma_lookup_after_retract(e.groups, fs, q);
    lemma_retract_all_empty(of_predicate(fs, q));
}

/// The stored facts of every predicate after inserting `fs`: those stored before, then the
/// inserted facts of that predicate; a group appears for each predicate of `fs`.
pub proof fn law_insert_base_facts(e: SpecEngine, fs: Seq<SpecFact>, q: Seq<char>)
    ensures
        base_facts(inserted(e, fs), q) == base_facts(e, q) + of_predicate(fs, q),
        has_group(inserted(e, fs), q) == (has_group(e, q) || of_predicate(fs, q).len() > 0),
{
    lemma_lookup_after_insert(e.groups, fs, q);
    if of_predicate(fs, q).len() == 0 {
        assert(base_facts(e, q) + of_predicate(fs, q) =~= base_facts(e, q));
    }
}

/// Read after insert: after inserting `fs`, every query (of every predicate, derived or not,
/// with any filters) answers as it does on any engine whose base facts are those of `e`
/// followed by those of `fs`, with the same rules and recorded data.
pub proof fn law_query_reads_inserted_facts(e: SpecEngine, fs: Seq<SpecFact>, e2: SpecEngine, p: Seq<char>, filters: Seq<Option<Seq<char>>>)
    requires
        e2.rules == e.rules,
        e2.locations == e.locations,
        e2.resolve_enabled == e.resolve_enabled,
        e2.resolutions == e.resolutions,
        e2.globbed == e.globbed,
        has_group(e2, "source_location"@) == (has_group(e, "source_location"@) || of_predicate(fs, "source_location"@).len() > 0),
        forall|q: Seq<char>| #[trigger] base_facts(e2, q) == base_facts(e, q) + of_predicate(fs, q),
    ensures
        query_result(inserted(e, fs), p, filters) == query_result(e2, p, filters),
{
    assert forall|q: Seq<char>| #[trigger] base_facts(inserted(e, fs), q) == base_facts(e2, q) by {
        law_insert_base_facts(e, fs, q);
    }
    law_insert_base_facts(e, fs, "source_location"@);
    law_query_depends_on_data(inserted(e, fs), e2, p, filters);
}

/// Read after retract: after retracting `fs`, every query answers as it does on any engine
/// whose base facts are those of `e` with the facts of `fs` retracted, with the same rules and
/// recorded data.
pub proof fn law_query_reads_retracted_facts(e: SpecEngine, fs: Seq<SpecFact>, e2: SpecEngine, p: Seq<char>, filters: Seq<Option<Seq<char>>>)
    requires
        e2.rules == e.rules,
        e2.locations == e.locations,
        e2.resolve_enabled == e.resolve_enabled,
        e2.resolutions == e.resolutions,
        e2.globbed == e.globbed,
        has_group(e2, "source_location"@) == has_group(e, "source_location"@),
        forall|q: Seq<char>| #[trigger] base_facts(e2, q) == retract_all(base_facts(e, q), of_predicate(fs, q)),
    ensures
        query_result(retracted(e, fs), p, filters) == query_result(e2, p, filters),
{
    assert forall|q: Seq<char>| #[trigger] base_facts(retracted(e, fs), q) == base_facts(e2, q) by {
        law_retract_base_facts(e, fs, q);
    }
    law_retract_base_facts(e, fs, "source_location"@);
    law_query_depends_on_data(retracted(e, fs), e2, p, filters);
}

/// Inserting facts and then retracting the same facts gives back the original answer of every
/// query. (Left out: facts of `source_location` inserted while none were stored, since their
/// group then stays, empty, in place of the recorded locations.)
pub proof fn law_insert_then_retract_restores_answers(e: SpecEngine, fs: Seq<SpecFact>, p: Seq<char>, filters: Seq<Option<Seq<char>>>)
    requires
        !(of_predicate(fs, "source_location"@).len() > 0 && !has_group(e, "source_location"@)),
    ensures
        query_result(retracted(inserted(e, fs), fs), p, filters) == query_result(e, p, filters),
{
    broadcast use vstd::seq_lib::group_to_multiset_ensures;
    broadcast use vstd::multiset::group_multiset_axioms;
    let e1 = retracted(inserted(e, fs), fs);
    assert forall|q: Seq<char>| #[trigger] base_facts(e1, q) == base_facts(e, q) by {
        law_insert_base_facts(e, fs, q);
        law_retract_base_facts(inserted(e, fs), fs, q);
        let t = of_predicate(fs, q);
        lemma_retract_tail(base_facts(e, q), t, t);
        let r = retract_all(t, t);
        assert(r.to_multiset() =~= Multiset::<SpecFact>::empty());
        assert(r.to_multiset().len() == 0);
        assert(r.len() == r.to_multiset().len());
        assert(r.len() == 0);
        assert(base_facts(e, q) + r =~= base_facts(e, q));
    }
    law_insert_base_facts(e, fs, "source_location"@);
    law_retract_base_facts(inserted(e, fs), fs, "source_location"@);
    assert(same_data(e1, e));
    law_query_depends_on_data(e1, e, p, filters);
}

/// Looking facts up by their first argument keeps exactly those that the first filter lets
/// through, when every fact has a string there.
proof fn lemma_lookup_keeps_passing(fs: Seq<SpecFact>, filters: Seq<Option<Seq<char>>>)
    requires
        filters.len() > 0,
        filters[0] is Some,
        forall|i: int| 0 <= i < fs.len() ==> (#[trigger] string_at(fs[i], 0)) is Some,
    ensures
        keep_passing(with_first(fs, filters[0]->0), filters) == keep_passing(fs, filters),
    decreases fs.len(),
{
    if fs.len() > 0 {
        let f = fs.last();
        assert(string_at(fs[fs.len() - 1], 0) is Some);
        assert forall|i: int| 0 <= i < fs.drop_last().len() implies (#[trigger] string_at(fs.drop_last()[i], 0)) is Some by {
            assert(fs.drop_last()[i] == fs[i]);
        }
        lemma_lookup_keeps_passing(fs.drop_last(), filters);
        let v = filters[0]->0;
        let prev = with_first(fs.drop_last(), v);
        if string_at(f, 0) == Some(v) {
            assert(with_first(fs, v) == prev.push(f));
            assert(prev.push(f).drop_last() =~= prev);
            assert(prev.push(f).last() == f);
        } else {
            assert(with_first(fs, v) == prev);
            assert(!crate::datalog::query::passes_one(f, 0, v));
            assert(!passes(f, filters));
        }
    }
}

/// A filtered query of a predicate that no rule defines gives what filtering the unfiltered
/// answer gives, when each of its stored facts has a string as its first argument.
pub proof fn law_filtered_base_query(e: SpecEngine, p: Seq<char>, filters: Seq<Option<Seq<char>>>)
    requires
        !has_rules(e.rules, p),
        forall|i: int| 0 <= i < base_facts(e, p).len() ==> (#[trigger] string_at(base_facts(e, p)[i], 0)) is Some,
    ensures
        query_result(e, p, Seq::empty()) == Ok::<Seq<SpecFact>, SpecEvalError>(base_facts(e, p)),
        query_result(e, p, filters) == Ok::<Seq<SpecFact>, SpecEvalError>(filtered(base_facts(e, p), filters)),
{
    assert(all_none(Seq::<Option<Seq<char>>>::empty()));
    assert(indexed_base(e, p, Seq::empty()) == base_facts(e, p));
    if filters.len() > 0 && filters[0] is Some && !all_none(filters) {
        lemma_lookup_keeps_passing(base_facts(e, p), filters);
    }
}

/// `x` begins with `d`.
pub open spec fn extends(x: Seq<SpecFact>, d: Seq<SpecFact>) -> bool {
    x.len() >= d.len() && x.take(d.len() as int) == d
}

proof fn lemma_extends_trans(x: Seq<SpecFact>, c: Seq<SpecFact>, d: Seq<SpecFact>)
    requires
        extends(x, c),
        extends(c, d),
    ensures
        extends(x, d),
{
    assert(x.take(d.len() as int) =~= x.take(c.len() as int).take(d.len() as int));
}

proof fn lemma_add_new_extends(old: Seq<SpecFact>, fs: Seq<SpecFact>)
    ensures
        extends(add_new(old, fs), old),
    decreases fs.len(),
{
    if fs.len() > 0 {
        lemma_add_new_extends(old, fs.drop_last());
        let prev = add_new(old, fs.drop_last());
        if !prev.contains(fs.last()) {
            assert(prev.push(fs.last()).take(old.len() as int) =~= prev.take(old.len() as int));
        }
    } else {
        assert(old.take(old.len() as int) =~= old);
    }
}

proof fn lemma_first_phase_extends(e: SpecEngine, scc: Seq<Seq<char>>, lower: Lower, db: Seq<Seq<SpecFact>>, rs: Seq<SpecRule>, n: int)
    requires
        db.len() == scc.len(),
    ensures
        first_phase(e, scc, lower, db, rs, n) matches Ok(cur) ==> cur.len() == db.len()
            && forall|j: int| 0 <= j < db.len() ==> extends(#[trigger] cur[j], db[j]),
    decreases n,
{
    if n <= 0 {
        assert forall|j: int| 0 <= j < db.len() implies extends(#[trigger] db[j], db[j]) by {
            assert(db[j].take(db[j].len() as int) =~= db[j]);
        }
    } else {
        lemma_first_phase_extends(e, scc, lower, db, rs, n - 1);
        match first_phase(e, scc, lower, db, rs, n - 1) {
            Err(_) => {},
            Ok(cur) => match eval_rule(e, Seq::empty(), Seq::empty(), lower, true, rs[n - 1], Map::empty()) {
                Err(_) => {},
                Ok(fs) => {
                    crate::datalog::eval::lemma_name_index_bounds(scc, rs[n - 1].head.name);
                    match crate::datalog::semantics::name_index(scc, rs[n - 1].head.name) {
                        Some(i) => {
                            let next = cur.update(i, add_new(cur[i], fs));
                            lemma_add_new_extends(cur[i], fs);
                            assert forall|j: int| 0 <= j < db.len() implies extends(#[trigger] next[j], db[j]) by {
                                if j == i {
                                    lemma_extends_trans(next[j], cur[j], db[j]);
                                }
                            }
                        },
                        None => {},
                    }
                },
            },
        }
    }
}

proof fn lemma_rounds_extends(e: SpecEngine, scc: Seq<Seq<char>>, lower: Lower, rs: Seq<SpecRule>, db: Seq<Seq<SpecFact>>, changed: bool, k: nat, max: nat)
    ensures
        rounds(e, scc, lower, rs, db, changed, k, max) matches Ok(out) ==> out.len() == db.len()
            && forall|j: int| 0 <= j < db.len() ==> extends(#[trigger] out[j], db[j]),
    decreases max - k,
{
    if k >= max || !changed || rs.len() == 0 {
        assert forall|j: int| 0 <= j < db.len() implies extends(#[trigger] db[j], db[j]) by {
            assert(db[j].take(db[j].len() as int) =~= db[j]);
        }
    } else {
        match round(e, scc, lower, db, rs, rs.len() as int) {
            Err(_) => {},
            Ok(new) => {
                if k + 1 != max {
                    let next = Seq::new(db.len(), |j: int| db[j] + new[j]);
                    lemma_rounds_extends(e, scc, lower, rs, next, crate::datalog::semantics::any_facts(new), k + 1, max);
                    match rounds(e, scc, lower, rs, next, crate::datalog::semantics::any_facts(new), k + 1, max) {
                        Err(_) => {},
                        Ok(out) => {
                            assert forall|j: int| 0 <= j < db.len() implies extends(#[trigger] out[j], db[j]) by {
                                assert(next[j].take(db[j].len() as int) =~= db[j]);
                                lemma_extends_trans(out[j], next[j], db[j]);
                            }
                        },
                    }
                }
            },
        }
    }
}

/// The facts stored for a predicate come first in the answer to a query of it: rules only add
/// to them, whether or not rules define it.
pub proof fn law_answer_begins_with_stored_facts(e: SpecEngine, p: Seq<char>)
    ensures
        query_result(e, p, Seq::empty()) matches Ok(fs) ==> extends(fs, base_facts(e, p)),
{
    let b = base_facts(e, p);
    assert(all_none(Seq::<Option<Seq<char>>>::empty()));
    assert(b.take(b.len() as int) =~= b);
    if has_rules(e.rules, p) {
        if e.rules.len() == 0 {
            assert(rules_for(e.rules, p) =~= Seq::<SpecRule>::empty());
        }
        let fuel = query_fuel(e);
        let lower = lower_at(e, (fuel - 1) as nat);
        let scc = group_of(e.rules, p);
        crate::datalog::eval::lemma_closure_grows(e.rules, seq![p], (e.rules.len() + 1) as nat);
        assert(scc.take(1)[0] == p);
        let db0 = scc.map_values(|q: Seq<char>| base_facts(e, q));
        let rs = group_rules(e.rules, scc, scc.len() as int);
        let first = rules_using(rs, scc, false);
        let rest = rules_using(rs, scc, true);
        lemma_first_phase_extends(e, scc, lower, db0, first, first.len() as int);
        match first_phase(e, scc, lower, db0, first, first.len() as int) {
            Err(_) => {},
            Ok(db1) => {
                lemma_rounds_extends(e, scc, lower, rest, db1, crate::datalog::semantics::any_facts(db1), 0, max_rounds(e));
                match rounds(e, scc, lower, rest, db1, crate::datalog::semantics::any_facts(db1), 0, max_rounds(e)) {
                    Err(_) => {},
                    Ok(db2) => {
                        assert(db0[0] == b);
                        assert(extends(db1[0], db0[0]));
                        assert(extends(db2[0], db1[0]));
                        lemma_extends_trans(db2[0], db1[0], db0[0]);
                    },
                }
            },
        }
    }
}

/// Whether `f` is what the head of one of the rules for `p` gives for some binding.
pub open spec fn rule_instance(rules: Seq<SpecRule>, p: Seq<char>, f: SpecFact) -> bool {
    exists|r: SpecRule, b: SBind| #[trigger] rules.contains(r) && r.head.name == p && f == #[trigger] head_fact(r, b)
}

/// Whether every fact of `db[j]` is stored for `scc[j]` or comes from a rule for it.
pub open spec fn grounded_db(e: SpecEngine, scc: Seq<Seq<char>>, db: Seq<Seq<SpecFact>>) -> bool {
    &&& db.len() == scc.len()
    &&& forall|j: int, x: SpecFact| 0 <= j < db.len() && #[trigger] db[j].contains(x)
        ==> base_facts(e, scc[j]).contains(x) || rule_instance(e.rules, scc[j], x)
}

proof fn lemma_rules_for_in(rules: Seq<SpecRule>, p: Seq<char>)
    ensures
        forall|i: int| 0 <= i < rules_for(rules, p).len() ==> rules.contains(#[trigger] rules_for(rules, p)[i]),
    decreases rules.len(),
{
    if rules.len() > 0 {
        lemma_rules_for_in(rules.drop_last(), p);
        let prev = rules_for(rules.drop_last(), p);
        assert forall|i: int| 0 <= i < rules_for(rules, p).len() implies rules.contains(#[trigger] rules_for(rules, p)[i]) by {
            if i < prev.len() {
                assert(rules.drop_last().contains(prev[i]));
                let k = choose|k: int| 0 <= k < rules.drop_last().len() && rules.drop_last()[k] == prev[i];
                assert(rules[k] == prev[i]);
            } else {
                assert(rules[rules.len() - 1] == rules.last());
            }
        }
    }
}

proof fn lemma_group_rules_in(rules: Seq<SpecRule>, scc: Seq<Seq<char>>, n: int)
    ensures
        forall|i: int| 0 <= i < group_rules(rules, scc, n).len() ==> rules.contains(#[trigger] group_rules(rules, scc, n)[i]),
    decreases n,
{
    if n > 0 {
        lemma_group_rules_in(rules, scc, n - 1);
        lemma_rules_for_in(rules, scc[n - 1]);
        let a = group_rules(rules, scc, n - 1);
        let b = rules_for(rules, scc[n - 1]);
        assert(group_rules(rules, scc, n) == a + b);
        assert forall|i: int| 0 <= i < (a + b).len() implies rules.contains(#[trigger] (a + b)[i]) by {
            if i < a.len() {
                assert((a + b)[i] == a[i]);
            } else {
                assert((a + b)[i] == b[i - a.len()]);
            }
        }
    }
}

proof fn lemma_rules_using_in(rules: Seq<SpecRule>, rs: Seq<SpecRule>, scc: Seq<Seq<char>>, using: bool)
    requires
        forall|i: int| 0 <= i < rs.len() ==> rules.contains(#[trigger] rs[i]),
    ensures
        forall|i: int| 0 <= i < rules_using(rs, scc, using).len() ==> rules.contains(#[trigger] rules_using(rs, scc, using)[i]),
    decreases rs.len(),
{
    if rs.len() > 0 {
        assert forall|i: int| 0 <= i < rs.drop_last().len() implies rules.contains(#[trigger] rs.drop_last()[i]) by {
            assert(rs.drop_last()[i] == rs[i]);
        }
        lemma_rules_using_in(rules, rs.drop_last(), scc, using);
        assert(rs[rs.len() - 1] == rs.last());
        let prev = rules_using(rs.drop_last(), scc, using);
        if uses_group(rs.last(), scc) == using {
            assert forall|i: int| 0 <= i < prev.push(rs.last()).len() implies rules.contains(#[trigger] prev.push(rs.last())[i]) by {
                if i < prev.len() {
                    assert(prev.push(rs.last())[i] == prev[i]);
                }
            }
        }
    }
}

proof fn lemma_rule_output_instances(e: SpecEngine, scc: Seq<Seq<char>>, db: Seq<Seq<SpecFact>>, lower: Lower, expand: bool, r: SpecRule, init: SBind, fs: Seq<SpecFact>)
    requires
        e.rules.contains(r),
        eval_rule(e, scc, db, lower, expand, r, init) == Ok::<Seq<SpecFact>, SpecEvalError>(fs),
    ensures
        forall|x: SpecFact| #[trigger] fs.contains(x) ==> rule_instance(e.rules, r.head.name, x),
{
    reveal(eval_rule);
    match eval_body(e, scc, db, lower, expand, r.body, 0, seq![init]) {
        Err(_) => {},
        Ok(bs) => {
            assert forall|x: SpecFact| #[trigger] fs.contains(x) implies rule_instance(e.rules, r.head.name, x) by {
                let k = choose|k: int| 0 <= k < fs.len() && fs[k] == x;
                assert(x == head_fact(r, bs[k]));
            }
        },
    }
}

proof fn lemma_add_new_in(old: Seq<SpecFact>, fs: Seq<SpecFact>, x: SpecFact)
    requires
        add_new(old, fs).contains(x),
    ensures
        old.contains(x) || fs.contains(x),
    decreases fs.len(),
{
    if fs.len() > 0 {
        let prev = add_new(old, fs.drop_last());
        if prev.contains(x) {
            lemma_add_new_in(old, fs.drop_last(), x);
            if fs.drop_last().contains(x) {
                let k = choose|k: int| 0 <= k < fs.drop_last().len() && fs.drop_last()[k] == x;
                assert(fs[k] == x);
            }
        } else {
            assert(prev.push(fs.last()).contains(x));
            let k = choose|k: int| 0 <= k < prev.push(fs.last()).len() && prev.push(fs.last())[k] == x;
            assert(k == prev.len());
            assert(fs[fs.len() - 1] == x);
        }
    }
}

proof fn lemma_add_fresh_in(old: Seq<SpecFact>, new: Seq<SpecFact>, fs: Seq<SpecFact>, x: SpecFact)
    requires
        add_fresh(old, new, fs).contains(x),
    ensures
        new.contains(x) || fs.contains(x),
    decreases fs.len(),
{
    if fs.len() > 0 {
        let prev = add_fresh(old, new, fs.drop_last());
        if prev.contains(x) {
            lemma_add_fresh_in(old, new, fs.drop_last(), x);
            if fs.drop_last().contains(x) {
                let k = choose|k: int| 0 <= k < fs.drop_last().len() && fs.drop_last()[k] == x;
                assert(fs[k] == x);
            }
        } else {
            assert(prev.push(fs.last()).contains(x));
            let k = choose|k: int| 0 <= k < prev.push(fs.last()).len() && prev.push(fs.last())[k] == x;
            assert(k == prev.len());
            assert(fs[fs.len() - 1] == x);
        }
    }
}

proof fn lemma_first_phase_grounded(e: SpecEngine, scc: Seq<Seq<char>>, lower: Lower, db: Seq<Seq<SpecFact>>, rs: Seq<SpecRule>, n: int)
    requires
        grounded_db(e, scc, db),
        n <= rs.len(),
        forall|i: int| 0 <= i < rs.len() ==> e.rules.contains(#[trigger] rs[i]),
    ensures
        first_phase(e, scc, lower, db, rs, n) matches Ok(cur) ==> grounded_db(e, scc, cur),
    decreases n,
{
    if n > 0 {
        lemma_first_phase_grounded(e, scc, lower, db, rs, n - 1);
        match first_phase(e, scc, lower, db, rs, n - 1) {
            Err(_) => {},
            Ok(cur) => match eval_rule(e, Seq::empty(), Seq::empty(), lower, true, rs[n - 1], Map::empty()) {
                Err(_) => {},
                Ok(fs) => {
                    let r = rs[n - 1];
                    lemma_rule_output_instances(e, Seq::empty(), Seq::empty(), lower, true, r, Map::empty(), fs);
                    crate::datalog::eval::lemma_name_index_bounds(scc, r.head.name);
                    match name_index(scc, r.head.name) {
                        Some(k) => {
                            let next = cur.update(k, add_new(cur[k], fs));
                            assert forall|j: int, x: SpecFact| 0 <= j < next.len() && #[trigger] next[j].contains(x)
                                implies base_facts(e, scc[j]).contains(x) || rule_instance(e.rules, scc[j], x) by {
                                if j == k {
                                    lemma_add_new_in(cur[k], fs, x);
                                }
                            }
                        },
                        None => {},
                    }
                },
            },
        }
    }
}

proof fn lemma_round_grounded(e: SpecEngine, scc: Seq<Seq<char>>, lower: Lower, db: Seq<Seq<SpecFact>>, rs: Seq<SpecRule>, n: int)
    requires
        n <= rs.len(),
        forall|i: int| 0 <= i < rs.len() ==> e.rules.contains(#[trigger] rs[i]),
    ensures
        round(e, scc, lower, db, rs, n) matches Ok(new) ==> new.len() == scc.len()
            && forall|j: int, x: SpecFact| 0 <= j < new.len() && #[trigger] new[j].contains(x) ==> rule_instance(e.rules, scc[j], x),
    decreases n,
{
    if n > 0 {
        lemma_round_grounded(e, scc, lower, db, rs, n - 1);
        match round(e, scc, lower, db, rs, n - 1) {
            Err(_) => {},
            Ok(new) => match eval_rule(e, scc, db, lower, false, rs[n - 1], Map::empty()) {
                Err(_) => {},
                Ok(fs) => {
                    let r = rs[n - 1];
                    lemma_rule_output_instances(e, scc, db, lower, false, r, Map::empty(), fs);
                    crate::datalog::eval::lemma_name_index_bounds(scc, r.head.name);
                    match name_index(scc, r.head.name) {
                        Some(k) => {
                            let next = new.update(k, add_fresh(db[k], new[k], fs));
                            assert forall|j: int, x: SpecFact| 0 <= j < next.len() && #[trigger] next[j].contains(x)
                                implies rule_instance(e.rules, scc[j], x) by {
                                if j == k {
                                    lemma_add_fresh_in(db[k], new[k], fs, x);
                                }
                            }
                        },
                        None => {},
                    }
                },
            },
        }
    }
}

proof fn lemma_rounds_grounded(e: SpecEngine, scc: Seq<Seq<char>>, lower: Lower, rs: Seq<SpecRule>, db: Seq<Seq<SpecFact>>, changed: bool, k: nat, max: nat)
    requires
        grounded_db(e, scc, db),
        forall|i: int| 0 <= i < rs.len() ==> e.rules.contains(#[trigger] rs[i]),
    ensures
        rounds(e, scc, lower, rs, db, changed, k, max) matches Ok(out) ==> grounded_db(e, scc, out),
    decreases max - k,
{
    if !(k >= max || !changed || rs.len() == 0) {
        lemma_round_grounded(e, scc, lower, db, rs, rs.len() as int);
        match round(e, scc, lower, db, rs, rs.len() as int) {
            Err(_) => {},
            Ok(new) => {
                if k + 1 != max {
                    let next = Seq::new(db.len(), |j: int| db[j] + new[j]);
                    assert forall|j: int, x: SpecFact| 0 <= j < next.len() && #[trigger] next[j].contains(x)
                        implies base_facts(e, scc[j]).contains(x) || rule_instance(e.rules, scc[j], x) by {
                        let t = choose|t: int| 0 <= t < next[j].len() && next[j][t] == x;
                        if t < db[j].len() {
                            assert(db[j][t] == x);
                            assert(db[j].contains(x));
                        } else {
                            assert(new[j][t - db[j].len()] == x);
                            assert(new[j].contains(x));
                        }
                    }
                    lemma_rounds_grounded(e, scc, lower, rs, next, any_facts(new), k + 1, max);
                }
            },
        }
    }
}

/// Soundness of answers: every fact that a query of `p` gives is stored for `p` or is what the
/// head of one of the rules for `p` gives for some binding.
pub proof fn law_answer_facts_come_from_rules(e: SpecEngine, p: Seq<char>, x: SpecFact)
    requires
        query_result(e, p, Seq::empty()) matches Ok(fs) && fs.contains(x),
    ensures
        base_facts(e, p).contains(x) || rule_instance(e.rules, p, x),
{
    assert(all_none(Seq::<Option<Seq<char>>>::empty()));
    if has_rules(e.rules, p) {
        if e.rules.len() == 0 {
            assert(rules_for(e.rules, p) =~= Seq::<SpecRule>::empty());
        }
        let fuel = query_fuel(e);
        let lower = lower_at(e, (fuel - 1) as nat);
        let scc = group_of(e.rules, p);
        crate::datalog::eval::lemma_closure_grows(e.rules, seq![p], (e.rules.len() + 1) as nat);
        assert(scc.take(1)[0] == p);
        let db0 = scc.map_values(|q: Seq<char>| base_facts(e, q));
        let rs = group_rules(e.rules, scc, scc.len() as int);
        let first = rules_using(rs, scc, false);
        let rest = rules_using(rs, scc, true);
        lemma_group_rules_in(e.rules, scc, scc.len() as int);
        lemma_rules_using_in(e.rules, rs, scc, false);
        lemma_rules_using_in(e.rules, rs, scc, true);
        assert(grounded_db(e, scc, db0));
        lemma_first_phase_grounded(e, scc, lower, db0, first, first.len() as int);
        match first_phase(e, scc, lower, db0, first, first.len() as int) {
            Err(_) => {},
            Ok(db1) => {
                lemma_rounds_grounded(e, scc, lower, rest, db1, any_facts(db1), 0, max_rounds(e));
                match rounds(e, scc, lower, rest, db1, any_facts(db1), 0, max_rounds(e)) {
                    Err(_) => {},
                    Ok(db2) => {
                        assert(db2[0].contains(x));
                    },
                }
            },
        }
    }
}

proof fn lemma_groups_insert_append(gs: Seq<(Seq<char>, Seq<SpecFact>)>, a: Seq<SpecFact>, b: Seq<SpecFact>)
    ensures
        groups_after_insert(groups_after_insert(gs, a), b) == groups_after_insert(gs, a + b),
    decreases b.len(),
{
    if b.len() == 0 {
        assert(a + b =~= a);
    } else {
        lemma_groups_insert_append(gs, a, b.drop_last());
        assert((a + b).drop_last() =~= a + b.drop_last());
        assert((a + b).last() == b.last());
    }
}

proof fn lemma_of_predicate_append(a: Seq<SpecFact>, b: Seq<SpecFact>, q: Seq<char>)
    ensures
        of_predicate(a + b, q) == of_predicate(a, q) + of_predicate(b, q),
    decreases b.len(),
{
    if b.len() == 0 {
        assert(a + b =~= a);
        assert(of_predicate(a, q) + of_predicate(b, q) =~= of_predicate(a, q));
    } else {
        lemma_of_predicate_append(a, b.drop_last(), q);
        assert((a + b).drop_last() =~= a + b.drop_last());
        assert((a + b).last() == b.last());
        if b.last().predicate == q {
            assert(of_predicate(a, q) + of_predicate(b.drop_last(), q).push(b.last())
                =~= (of_predicate(a, q) + of_predicate(b.drop_last(), q)).push(b.last()));
        }
    }
}

proof fn lemma_of_predicate_in(fs: Seq<SpecFact>, q: Seq<char>, x: SpecFact)
    requires
        of_predicate(fs, q).contains(x),
    ensures
        fs.contains(x),
        x.predicate == q,
    decreases fs.len(),
{
    let prev = of_predicate(fs.drop_last(), q);
    if prev.contains(x) {
        lemma_of_predicate_in(fs.drop_last(), q, x);
        let k = choose|k: int| 0 <= k < fs.drop_last().len() && fs.drop_last()[k] == x;
        assert(fs[k] == x);
    } else {
        assert(fs.last().predicate == q && x == fs.last()) by {
            if fs.last().predicate == q {
                let k = choose|k: int| 0 <= k < prev.push(fs.last()).len() && prev.push(fs.last())[k] == x;
                assert(k == prev.len());
            }
        }
        assert(fs[fs.len() - 1] == x);
    }
}

proof fn lemma_of_predicate_has(fs: Seq<SpecFact>, x: SpecFact)
    requires
        fs.contains(x),
    ensures
        of_predicate(fs, x.predicate).contains(x),
    decreases fs.len(),
{
    let q = x.predicate;
    if fs.last() == x {
        assert(of_predicate(fs, q) == of_predicate(fs.drop_last(), q).push(x));
        assert(of_predicate(fs, q)[of_predicate(fs, q).len() - 1] == x);
    } else {
        let k = choose|k: int| 0 <= k < fs.len() && fs[k] == x;
        assert(fs.drop_last()[k] == x);
        lemma_of_predicate_has(fs.drop_last(), x);
        let prev = of_predicate(fs.drop_last(), q);
        let j = choose|j: int| 0 <= j < prev.len() && prev[j] == x;
        if fs.last().predicate == q {
            assert(prev.push(fs.last())[j] == x);
        }
    }
}

proof fn lemma_last_index_absent(s: Seq<SpecFact>, f: SpecFact)
    requires
        !s.contains(f),
    ensures
        last_index(s, f) is None,
    decreases s.len(),
{
    if s.len() > 0 {
        assert(s[s.len() - 1] == s.last());
        assert forall|k: int| 0 <= k < s.drop_last().len() implies s.drop_last()[k] != f by {
            assert(s.drop_last()[k] == s[k]);
        }
        lemma_last_index_absent(s.drop_last(), f);
    }
}

proof fn lemma_retract_all_absent(s: Seq<SpecFact>, rs: Seq<SpecFact>)
    requires
        forall|k: int| 0 <= k < rs.len() ==> !s.contains(#[trigger] rs[k]),
    ensures
        retract_all(s, rs) == s,
    decreases rs.len(),
{
    if rs.len() > 0 {
        assert forall|k: int| 0 <= k < rs.drop_last().len() implies !s.contains(#[trigger] rs.drop_last()[k]) by {
            assert(rs.drop_last()[k] == rs[k]);
        }
        lemma_retract_all_absent(s, rs.drop_last());
        assert(rs[rs.len() - 1] == rs.last());
        lemma_last_index_absent(s, rs.last());
    }
}

proof fn lemma_retract_all_append(s: Seq<SpecFact>, x: Seq<SpecFact>, y: Seq<SpecFact>)
    ensures
        retract_all(s, x + y) == retract_all(retract_all(s, x), y),
    decreases y.len(),
{
    if y.len() == 0 {
        assert(x + y =~= x);
    } else {
        lemma_retract_all_append(s, x, y.drop_last());
        assert((x + y).drop_last() =~= x + y.drop_last());
        assert((x + y).last() == y.last());
    }
}

/// Inserting facts in two calls stores what inserting them in one call stores.
pub proof fn law_inserts_compose(e: SpecEngine, a: Seq<SpecFact>, b: Seq<SpecFact>)
    ensures
        inserted(inserted(e, a), b) == inserted(e, a + b),
{
    lemma_groups_insert_append(e.groups, a, b);
}

/// Answers after an insert are those of a fresh engine: an engine that held the facts `s`
/// and then gets `fs` answers every query as one with the same rules given `s` followed by
/// `fs` at once (a query of anything but `source_location` leaves an engine as it is, so
/// queries in between do not count); and each inserted fact is among the answers of its
/// predicate.
pub proof fn law_insert_answers_as_fresh(e: SpecEngine, s: Seq<SpecFact>, fs: Seq<SpecFact>, p: Seq<char>, filters: Seq<Option<Seq<char>>>, f: SpecFact)
    ensures
        query_result(inserted(inserted(e, s), fs), p, filters) == query_result(inserted(e, s + fs), p, filters),
        p != "source_location"@ ==> query_state(inserted(e, s), p) == inserted(e, s),
        fs.contains(f) ==> (query_result(inserted(e, fs), f.predicate, Seq::empty()) matches Ok(ans) ==> ans.contains(f)),
{
    law_inserts_compose(e, s, fs);
    if fs.contains(f) {
        let q = f.predicate;
        law_insert_base_facts(e, fs, q);
        law_answer_begins_with_stored_facts(inserted(e, fs), q);
        lemma_of_predicate_has(fs, f);
        let b = base_facts(inserted(e, fs), q);
        let j = choose|j: int| 0 <= j < of_predicate(fs, q).len() && of_predicate(fs, q)[j] == f;
        assert(b[base_facts(e, q).len() + j] == f);
        match query_result(inserted(e, fs), q, Seq::empty()) {
            Ok(ans) => {
                assert(ans.take(b.len() as int)[base_facts(e, q).len() + j] == f);
                assert(ans[base_facts(e, q).len() + j] == f);
            },
            Err(_) => {},
        }
    }
}

/// Retracting undoes inserting: an engine with no stored facts that gets `a` followed by `b`,
/// and then has `b` followed by `m` retracted, where no fact of `m` is among `a`, answers every
/// query as the same engine given only `a`; facts of `m` that were never stored are ignored.
/// (Left out: `source_location` facts in `b` when `a` has none, since their group then stays,
/// empty, in place of the recorded locations.)
pub proof fn law_retract_undoes_insert_of_batch(
    e: SpecEngine, a: Seq<SpecFact>, b: Seq<SpecFact>, m: Seq<SpecFact>, p: Seq<char>, filters: Seq<Option<Seq<char>>>,
)
    requires
        e.groups.len() == 0,
        forall|k: int| 0 <= k < m.len() ==> !a.contains(#[trigger] m[k]),
        of_predicate(b, "source_location"@).len() > 0 ==> of_predicate(a, "source_location"@).len() > 0,
    ensures
        query_result(retracted(inserted(e, a + b), b + m), p, filters) == query_result(inserted(e, a), p, filters),
{
    broadcast use vstd::seq_lib::group_to_multiset_ensures;
    broadcast use vstd::multiset::group_multiset_axioms;
    let e1 = retracted(inserted(e, a + b), b + m);
    let e2 = inserted(e, a);
    assert forall|q: Seq<char>| #[trigger] base_facts(e1, q) == base_facts(e2, q) by {
        assert(base_facts(e, q) == Seq::<SpecFact>::empty());
        law_insert_base_facts(e, a + b, q);
        law_insert_base_facts(e, a, q);
        law_retract_base_facts(inserted(e, a + b), b + m, q);
        lemma_of_predicate_append(a, b, q);
        lemma_of_predicate_append(b, m, q);
        let aq = of_predicate(a, q);
        let bq = of_predicate(b, q);
        let mq = of_predicate(m, q);
        assert(Seq::<SpecFact>::empty() + (aq + bq) =~= aq + bq);
        assert(Seq::<SpecFact>::empty() + aq =~= aq);
        lemma_retract_all_append(aq + bq, bq, mq);
        lemma_retract_tail(aq, bq, bq);
        let rest = retract_all(bq, bq);
        assert(rest.to_multiset().len() == 0);
        assert(rest =~= Seq::<SpecFact>::empty());
        assert(aq + rest =~= aq);
        assert forall|k: int| 0 <= k < mq.len() implies !aq.contains(#[trigger] mq[k]) by {
            assert(mq.contains(mq[k]));
            lemma_of_predicate_in(m, q, mq[k]);
            let t = choose|t: int| 0 <= t < m.len() && m[t] == mq[k];
            if aq.contains(mq[k]) {
                lemma_of_predicate_in(a, q, mq[k]);
                assert(!a.contains(m[t]));
            }
        }
        lemma_retract_all_absent(aq, mq);
    }
    law_retract_base_facts(inserted(e, a + b), b + m, "source_location"@);
    law_insert_base_facts(e, a + b, "source_location"@);
    law_insert_base_facts(e, a, "source_location"@);
    lemma_of_predicate_append(a, b, "source_location"@);
    assert(!has_group(e, "source_location"@));
    assert(same_data(e1, e2));
    law_query_depends_on_data(e1, e2, p, filters);
}

proof fn lemma_rule_results_instances(e: SpecEngine, rs: Seq<SpecRule>, init: SBind, n: int, p: Seq<char>)
    requires
        n <= rs.len(),
        forall|i: int| 0 <= i < rs.len() ==> e.rules.contains(#[trigger] rs[i]) && rs[i].head.name == p,
    ensures
        rule_results(e, rs, init, n) matches Ok(found) ==> forall|x: SpecFact| #[trigger] found.contains(x) ==> rule_instance(e.rules, p, x),
    decreases n,
{
    if n > 0 {
        lemma_rule_results_instances(e, rs, init, n - 1, p);
        match rule_results(e, rs, init, n - 1) {
            Err(_) => {},
            Ok(prev) => match eval_rule(e, Seq::empty(), Seq::empty(), full_facts(e), true, rs[n - 1], init) {
                Err(_) => {},
                Ok(fs) => {
                    lemma_rule_output_instances(e, Seq::empty(), Seq::empty(), full_facts(e), true, rs[n - 1], init, fs);
                    assert forall|x: SpecFact| #[trigger] (prev + fs).contains(x) implies rule_instance(e.rules, p, x) by {
                        let k = choose|k: int| 0 <= k < (prev + fs).len() && (prev + fs)[k] == x;
                        if k < prev.len() {
                            assert(prev.contains(prev[k]));
                        } else {
                            assert(fs.contains(fs[k - prev.len()]));
                        }
                    }
                },
            },
        }
    }
}

proof fn lemma_dedupe_in(s: Seq<SpecFact>, x: SpecFact)
    requires
        crate::datalog::query::dedupe(s).contains(x),
    ensures
        s.contains(x),
    decreases s.len(),
{
    let prev = crate::datalog::query::dedupe(s.drop_last());
    if prev.contains(x) {
        lemma_dedupe_in(s.drop_last(), x);
        let k = choose|k: int| 0 <= k < s.drop_last().len() && s.drop_last()[k] == x;
        assert(s[k] == x);
    } else {
        let k = choose|k: int| 0 <= k < prev.push(s.last()).len() && prev.push(s.last())[k] == x;
        assert(k == prev.len());
        assert(s[s.len() - 1] == x);
    }
}

proof fn lemma_with_first_in(fs: Seq<SpecFact>, v: Seq<char>, x: SpecFact)
    requires
        with_first(fs, v).contains(x),
    ensures
        fs.contains(x),
    decreases fs.len(),
{
    let prev = with_first(fs.drop_last(), v);
    if prev.contains(x) {
        lemma_with_first_in(fs.drop_last(), v, x);
        let k = choose|k: int| 0 <= k < fs.drop_last().len() && fs.drop_last()[k] == x;
        assert(fs[k] == x);
    } else {
        let k = choose|k: int| 0 <= k < prev.push(fs.last()).len() && prev.push(fs.last())[k] == x;
        assert(k == prev.len());
        assert(fs[fs.len() - 1] == x);
    }
}

proof fn lemma_filtered_in(fs: Seq<SpecFact>, filters: Seq<Option<Seq<char>>>, x: SpecFact)
    requires
        filtered(fs, filters).contains(x),
    ensures
        fs.contains(x),
{
    if !all_none(filters) {
        let k = choose|k: int| 0 <= k < keep_passing(fs, filters).len() && keep_passing(fs, filters)[k] == x;
        lemma_keep_passing(fs, filters, k);
    }
}

/// Soundness of filtered answers: every fact that a query of `p` with filters gives (other
/// than the walk of a transitive closure from a start node) is stored for `p` or is what the
/// head of one of the rules for `p` gives for some binding.
pub proof fn law_filtered_answer_facts_come_from_rules(e: SpecEngine, p: Seq<char>, filters: Seq<Option<Seq<char>>>, x: SpecFact)
    requires
        !(crate::datalog::query::is_tc(e.rules, p) && filters.len() > 0 && filters[0] is Some),
        query_result(e, p, filters) matches Ok(fs) && fs.contains(x),
    ensures
        base_facts(e, p).contains(x) || rule_instance(e.rules, p, x),
{
    if !has_rules(e.rules, p) {
        lemma_filtered_in(indexed_base(e, p, filters), filters, x);
        if filters.len() > 0 && filters[0] is Some {
            lemma_with_first_in(base_facts(e, p), filters[0]->0, x);
        }
    } else if all_none(filters) {
        assert(all_none(Seq::<Option<Seq<char>>>::empty()));
        law_answer_facts_come_from_rules(e, p, x);
    } else {
        let rs = rules_for(e.rules, p);
        let init = crate::datalog::query::filter_binding(rs[0].head.args, filters, filters.len() as int);
        lemma_rules_for_in(e.rules, p);
        lemma_rules_for_heads(e.rules, p);
        lemma_rule_results_instances(e, rs, init, rs.len() as int, p);
        match rule_results(e, rs, init, rs.len() as int) {
            Err(_) => {},
            Ok(found) => {
                let all = found + indexed_base(e, p, filters);
                lemma_filtered_in(crate::datalog::query::dedupe(all), filters, x);
                lemma_dedupe_in(all, x);
                let k = choose|k: int| 0 <= k < all.len() && all[k] == x;
                if k < found.len() {
                    assert(found.contains(found[k]));
                } else {
                    let ib = indexed_base(e, p, filters);
                    assert(ib.contains(ib[k - found.len()]));
                    if filters.len() > 0 && filters[0] is Some {
                        lemma_with_first_in(base_facts(e, p), filters[0]->0, x);
                    }
                }
            },
        }
    }
}

proof fn lemma_rules_for_heads(rules: Seq<SpecRule>, p: Seq<char>)
    ensures
        forall|i: int| 0 <= i < rules_for(rules, p).len() ==> (#[trigger] rules_for(rules, p)[i]).head.name == p,
    decreases rules.len(),
{
    if rules.len() > 0 {
        lemma_rules_for_heads(rules.drop_last(), p);
        let prev = rules_for(rules.drop_last(), p);
        assert forall|i: int| 0 <= i < rules_for(rules, p).len() implies (#[trigger] rules_for(rules, p)[i]).head.name == p by {
            if i < prev.len() {
                assert(rules_for(rules, p)[i] == prev[i]);
            }
        }
    }
}

} // verus!
