use vstd::prelude::*;
use crate::text::{push_all, str_eq, str_starts_with, str_to_string};
use crate::datalog::types::{push_term_debug, Value, SpecValue, Fact, SpecFact, Term, SpecTerm, Predicate, Rule, SpecRule, facts_view, rules_view, preds_view, terms_view, copy_string};
use crate::datalog::builtins::{arity_error, special_name, is_special_predicate, SpecEvalError, EvalError, SpecBinds, over_binds, binds_res, lemma_over_binds_push, lemma_over_binds_err};
use crate::datalog::binding::{Binding, SBind, binds_view, try_extend_binding, extend};
use crate::datalog::store::{strings_view, table_view, rules_for, has_rules, copy_fact, copy_strings, base_facts, table_index, lemma_key_index_bounds, SpecEngine, groups_view, group_index};
use crate::datalog::engine::Engine;
use crate::datalog::semantics::{derived_names, add_names, dep_pass, dep_closure, group_of, uses_group, group_rules, rules_using, name_index, add_new, add_fresh, any_facts, join_one, join, join_step, any_match, negate, negate_step, string_at, strings_at, usize_value, put_sorted, command_of, with_first, resolved, resolve_one, resolve_step, bind_each, location_facts, agg_name, agg_index, agg_out, agg_arg_msg, agg_label, ints_at, extreme, patterns_matching, files_matching, all_glob_matches, SpecFacts, Lower, lower_at, derived_facts, eval_atom, eval_body, eval_rule, head_fact, first_phase, round, rounds, max_rounds, glob_one, glob_step, glob_arg, count_one, count_step, minmax_one, minmax_step, padded, anon_var};
use crate::datalog::builtins::{eval_pure_builtin, is_pure_builtin};
use crate::datalog::binding::project_to_head;
use crate::datalog::types::copy_value;

verus! {

/// The rules at the given positions.
pub open spec fn picked(rules: Seq<SpecRule>, idx: Seq<usize>) -> Seq<SpecRule> {
    idx.map_values(|i: usize| rules[i as int])
}

pub open spec fn indices_ok(idx: Seq<usize>, n: nat) -> bool {
    forall|k: int| 0 <= k < idx.len() ==> #[trigger] idx[k] < n
}

/// The views of facts grouped per predicate.
pub open spec fn dbs_view(db: Seq<Vec<Fact>>) -> Seq<Seq<SpecFact>> {
    db.map_values(|v: Vec<Fact>| facts_view(v@))
}

/// The positions of the rules whose head is `p`, in order.
pub fn rules_for_exec(rules: &Vec<Rule>, p: &str) -> (r: Vec<usize>)
    ensures
        picked(rules_view(rules@), r@) == rules_for(rules_view(rules@), p@),
        indices_ok(r@, rules@.len()),
{
    let ghost rv = rules_view(rules@);
    let mut out: Vec<usize> = Vec::new();
    let mut i: usize = 0;
    assert(rv.take(0) =~= Seq::<SpecRule>::empty());
    while i < rules.len()
        invariant
            i <= rules@.len(),
            rv == rules_view(rules@),
            picked(rv, out@) == rules_for(rv.take(i as int), p@),
            indices_ok(out@, rules@.len()),
        decreases rules@.len() - i,
    {
        assert(rv.take(i + 1).drop_last() =~= rv.take(i as int));
        assert(rv.take(i + 1).last() == rules@[i as int]@);
        let ghost prev = out@;
        if str_eq(rules[i].head.name.as_str(), p) {
            out.push(i);
            assert(picked(rv, out@) =~= picked(rv, prev).push(rv[i as int]));
        }
        i = i + 1;
    }
    assert(rv.take(i as int) =~= rv);
    out
}

/// Whether `p` has rules.
pub fn has_rules_exec(rules: &Vec<Rule>, p: &str) -> (r: bool)
    ensures
        r == has_rules(rules_view(rules@), p@),
{
    let idx = rules_for_exec(rules, p);
    idx.len() > 0
}

pub(crate) fn seq_contains_string(s: &Vec<String>, q: &String) -> (r: bool)
    ensures
        r == strings_view(s@).contains(q@),
{
    let mut i: usize = 0;
    while i < s.len()
        invariant
            i <= s@.len(),
            forall|j: int| 0 <= j < i ==> s@[j]@ != q@,
        decreases s@.len() - i,
    {
        if crate::datalog::types::string_eq(&s[i], q) {
            assert(strings_view(s@)[i as int] == q@);
            return true;
        }
        i = i + 1;
    }
    proof {
        if strings_view(s@).contains(q@) {
            let j = choose|j: int| 0 <= j < strings_view(s@).len() && strings_view(s@)[j] == q@;
            assert(s@[j]@ == q@);
        }
    }
    false
}

/// The position of `q` among the names.
pub fn name_position(s: &Vec<String>, q: &str) -> (r: Option<usize>)
    ensures
        match r {
            Some(j) => name_index(strings_view(s@), q@) == Some(j as int) && j < s@.len(),
            None => name_index(strings_view(s@), q@) is None,
        },
{
    let ghost sv = strings_view(s@);
    let mut i: usize = 0;
    assert(sv.take(0) =~= Seq::<Seq<char>>::empty());
    while i < s.len()
        invariant
            i <= s@.len(),
            sv == strings_view(s@),
            name_index(sv.take(i as int), q@) is None,
        decreases s@.len() - i,
    {
        assert(sv.take(i + 1).drop_last() =~= sv.take(i as int));
        if str_eq(s[i].as_str(), q) {
            proof { lemma_name_index_prefix(sv, q@, i + 1); }
            return Some(i);
        }
        i = i + 1;
    }
    assert(sv.take(i as int) =~= sv);
    None
}

pub proof fn lemma_name_index_prefix(s: Seq<Seq<char>>, q: Seq<char>, n: int)
    requires
        0 <= n <= s.len(),
        name_index(s.take(n), q) is Some,
    ensures
        name_index(s, q) == name_index(s.take(n), q),
    decreases s.len() - n,
{
    if n < s.len() {
        assert(s.take(n + 1).drop_last() =~= s.take(n));
        lemma_name_index_prefix(s, q, n + 1);
    } else {
        assert(s.take(n) =~= s);
    }
}

pub proof fn lemma_name_index_bounds(s: Seq<Seq<char>>, q: Seq<char>)
    ensures
        name_index(s, q) matches Some(j) ==> 0 <= j < s.len() && s[j] == q,
    decreases s.len(),
{
    if s.len() > 0 {
        lemma_name_index_bounds(s.drop_last(), q);
    }
}

/// The body predicates of a rule that are looked up and have rules.
fn derived_names_exec(rules: &Vec<Rule>, body: &Vec<Predicate>) -> (r: Vec<String>)
    ensures
        strings_view(r@) == derived_names(rules_view(rules@), preds_view(body@), body@.len() as int),
{
    let ghost bv = preds_view(body@);
    let mut out: Vec<String> = Vec::new();
    let mut i: usize = 0;
    assert(strings_view(out@) =~= Seq::<Seq<char>>::empty());
    while i < body.len()
        invariant
            i <= body@.len(),
            bv == preds_view(body@),
            strings_view(out@) == derived_names(rules_view(rules@), bv, i as int),
        decreases body@.len() - i,
    {
        assert(bv[i as int].name == body@[i as int].name@);
        let q = &body[i].name;
        if !is_special_predicate(q.as_str()) && has_rules_exec(rules, q.as_str()) {
            let ghost prev = out@;
            out.push(copy_string(q));
            assert(strings_view(out@) =~= strings_view(prev).push(q@));
        }
        i = i + 1;
    }
    out
}

/// `acc` with each of `names` that it lacks added, in order.
fn add_names_exec(acc: &mut Vec<String>, names: &Vec<String>)
    ensures
        strings_view(final(acc)@) == add_names(strings_view(old(acc)@), strings_view(names@)),
{
    let ghost start = strings_view(acc@);
    let ghost nv = strings_view(names@);
    let mut i: usize = 0;
    assert(nv.take(0) =~= Seq::<Seq<char>>::empty());
    while i < names.len()
        invariant
            i <= names@.len(),
            nv == strings_view(names@),
            strings_view(acc@) == add_names(start, nv.take(i as int)),
        decreases names@.len() - i,
    {
        assert(nv.take(i + 1).drop_last() =~= nv.take(i as int));
        assert(nv.take(i + 1).last() == names@[i as int]@);
        if !seq_contains_string(acc, &names[i]) {
            let ghost prev = acc@;
            acc.push(copy_string(&names[i]));
            assert(strings_view(acc@) =~= strings_view(prev).push(names@[i as int]@));
        }
        i = i + 1;
    }
    assert(nv.take(i as int) =~= nv);
}

/// One pass over the rules, adding the derived predicates used by rules of predicates in `acc`.
fn dep_pass_exec(rules: &Vec<Rule>, acc: &mut Vec<String>)
    ensures
        strings_view(final(acc)@) == dep_pass(rules_view(rules@), strings_view(old(acc)@), rules@.len() as int),
{
    let ghost rv = rules_view(rules@);
    let ghost start = strings_view(acc@);
    let mut i: usize = 0;
    while i < rules.len()
        invariant
            i <= rules@.len(),
            rv == rules_view(rules@),
            strings_view(acc@) == dep_pass(rv, start, i as int),
        decreases rules@.len() - i,
    {
        assert(rv[i as int] == rules@[i as int]@);
        if seq_contains_string(acc, &rules[i].head.name) {
            let names = derived_names_exec(rules, &rules[i].body);
            add_names_exec(acc, &names);
        }
        i = i + 1;
    }
}

proof fn lemma_add_names_grows(acc: Seq<Seq<char>>, names: Seq<Seq<char>>)
    ensures
        add_names(acc, names).len() >= acc.len(),
        add_names(acc, names).take(acc.len() as int) == acc,
    decreases names.len(),
{
    if names.len() > 0 {
        lemma_add_names_grows(acc, names.drop_last());
        let prev = add_names(acc, names.drop_last());
        assert(prev.push(names.last()).take(acc.len() as int) =~= prev.take(acc.len() as int));
    }
}

proof fn lemma_dep_pass_grows(rules: Seq<SpecRule>, acc: Seq<Seq<char>>, n: int)
    ensures
        dep_pass(rules, acc, n).len() >= acc.len(),
        dep_pass(rules, acc, n).take(acc.len() as int) == acc,
    decreases n,
{
    if n > 0 {
        lemma_dep_pass_grows(rules, acc, n - 1);
        let prev = dep_pass(rules, acc, n - 1);
        let r = rules[n - 1];
        if prev.contains(r.head.name) {
            let names = derived_names(rules, r.body, r.body.len() as int);
            lemma_add_names_grows(prev, names);
            assert(add_names(prev, names).take(acc.len() as int) =~= add_names(prev, names).take(prev.len() as int).take(acc.len() as int));
        }
    }
}

pub proof fn lemma_closure_grows(rules: Seq<SpecRule>, s: Seq<Seq<char>>, fuel: nat)
    ensures
        dep_closure(rules, s, fuel).len() >= s.len(),
        dep_closure(rules, s, fuel).take(s.len() as int) == s,
    decreases fuel,
{
    if fuel > 0 {
        let next = dep_pass(rules, s, rules.len() as int);
        lemma_dep_pass_grows(rules, s, rules.len() as int);
        if next.len() != s.len() {
            lemma_closure_grows(rules, next, (fuel - 1) as nat);
            let c = dep_closure(rules, next, (fuel - 1) as nat);
            assert(c.take(s.len() as int) =~= c.take(next.len() as int).take(s.len() as int));
        }
    } else {
        assert(s.take(s.len() as int) =~= s);
    }
}

/// The predicates evaluated together with `p`.
pub fn group_of_exec(rules: &Vec<Rule>, p: &str) -> (r: Vec<String>)
    ensures
        strings_view(r@) == group_of(rules_view(rules@), p@),
        r@.len() >= 1,
        r@[0]@ == p@,
{
    let ghost rv = rules_view(rules@);
    let mut s: Vec<String> = Vec::new();
    s.push(str_to_string(p));
    let ghost init = strings_view(s@);
    assert(init =~= seq![p@]);
    let mut remaining: usize = rules.len();
    let ghost total: nat = (rules@.len() + 1) as nat;
    proof { lemma_closure_grows(rv, init, total); }
    loop
        invariant
            rv == rules_view(rules@),
            remaining <= rules@.len(),
            init == seq![p@],
            total == (rules@.len() + 1) as nat,
            dep_closure(rv, init, total) == dep_closure(rv, strings_view(s@), (remaining + 1) as nat),
            s@.len() >= 1,
            strings_view(s@)[0] == p@,
        decreases remaining,
    {
        let before = s.len();
        let ghost sv = strings_view(s@);
        dep_pass_exec(rules, &mut s);
        proof { lemma_dep_pass_grows(rv, sv, rv.len() as int); }
        assert(strings_view(s@)[0] == strings_view(s@).take(sv.len() as int)[0]);
        if s.len() == before {
            assert(dep_closure(rv, sv, (remaining + 1) as nat) == sv);
            let ghost s2 = strings_view(s@);
            assert(s2.len() == sv.len());
            assert(s2 =~= s2.take(sv.len() as int));
            return s;
        }
        if remaining == 0 {
            assert(dep_closure(rv, sv, 1) == dep_closure(rv, strings_view(s@), 0));
            return s;
        }
        remaining = remaining - 1;
    }
}

/// The positions of the rules of the predicates evaluated together, predicate by predicate.
pub fn group_rules_exec(rules: &Vec<Rule>, scc: &Vec<String>) -> (r: Vec<usize>)
    ensures
        picked(rules_view(rules@), r@) == group_rules(rules_view(rules@), strings_view(scc@), scc@.len() as int),
        indices_ok(r@, rules@.len()),
{
    let ghost rv = rules_view(rules@);
    let ghost sv = strings_view(scc@);
    let mut out: Vec<usize> = Vec::new();
    let mut k: usize = 0;
    assert(picked(rv, out@) =~= Seq::<SpecRule>::empty());
    while k < scc.len()
        invariant
            k <= scc@.len(),
            rv == rules_view(rules@),
            sv == strings_view(scc@),
            picked(rv, out@) == group_rules(rv, sv, k as int),
            indices_ok(out@, rules@.len()),
        decreases scc@.len() - k,
    {
        let mut more = rules_for_exec(rules, scc[k].as_str());
        let ghost prev = out@;
        let ghost add = more@;
        out.append(&mut more);
        assert(out@ =~= prev + add);
        assert(picked(rv, out@) =~= picked(rv, prev) + picked(rv, add));
        k = k + 1;
    }
    out
}

/// Whether a rule uses one of the predicates evaluated together.
fn uses_group_exec(rule: &Rule, scc: &Vec<String>) -> (r: bool)
    ensures
        r == uses_group(rule@, strings_view(scc@)),
{
    let ghost rv = rule@;
    let ghost sv = strings_view(scc@);
    let mut j: usize = 0;
    while j < rule.body.len()
        invariant
            j <= rule.body@.len(),
            rv == rule@,
            sv == strings_view(scc@),
            forall|k: int| 0 <= k < j ==> !(!special_name(rv.body[k].name) && sv.contains(rv.body[k].name)),
        decreases rule.body@.len() - j,
    {
        assert(rv.body[j as int].name == rule.body@[j as int].name@);
        let q = &rule.body[j].name;
        if !is_special_predicate(q.as_str()) && seq_contains_string(scc, q) {
            return true;
        }
        j = j + 1;
    }
    false
}

/// The positions among `rs` of the rules that use (`using`) or do not use the group.
pub fn rules_using_exec(rules: &Vec<Rule>, rs: &Vec<usize>, scc: &Vec<String>, using: bool) -> (r: Vec<usize>)
    requires
        indices_ok(rs@, rules@.len()),
    ensures
        picked(rules_view(rules@), r@) == rules_using(picked(rules_view(rules@), rs@), strings_view(scc@), using),
        indices_ok(r@, rules@.len()),
{
    let ghost rv = rules_view(rules@);
    let ghost all = picked(rv, rs@);
    let mut out: Vec<usize> = Vec::new();
    let mut i: usize = 0;
    assert(all.take(0) =~= Seq::<SpecRule>::empty());
    assert(picked(rv, out@) =~= Seq::<SpecRule>::empty());
    while i < rs.len()
        invariant
            i <= rs@.len(),
            rv == rules_view(rules@),
            all == picked(rv, rs@),
            indices_ok(rs@, rules@.len()),
            picked(rv, out@) == rules_using(all.take(i as int), strings_view(scc@), using),
            indices_ok(out@, rules@.len()),
        decreases rs@.len() - i,
    {
        let k = rs[i];
        assert(all.take(i + 1).drop_last() =~= all.take(i as int));
        assert(all.take(i + 1).last() == rv[k as int]);
        assert(rv[k as int] == rules@[k as int]@);
        if uses_group_exec(&rules[k], scc) == using {
            let ghost prev = out@;
            out.push(k);
            assert(picked(rv, out@) =~= picked(rv, prev).push(rv[k as int]));
        }
        i = i + 1;
    }
    assert(all.take(i as int) =~= all);
    out
}

pub(crate) fn facts_contain(fs: &Vec<Fact>, f: &Fact) -> (r: bool)
    ensures
        r == facts_view(fs@).contains(f@),
{
    let mut i: usize = 0;
    while i < fs.len()
        invariant
            i <= fs@.len(),
            forall|j: int| 0 <= j < i ==> fs@[j]@ != f@,
        decreases fs@.len() - i,
    {
        if crate::datalog::store::fact_eq(&fs[i], f) {
            assert(facts_view(fs@)[i as int] == f@);
            return true;
        }
        i = i + 1;
    }
    proof {
        if facts_view(fs@).contains(f@) {
            let j = choose|j: int| 0 <= j < facts_view(fs@).len() && facts_view(fs@)[j] == f@;
            assert(fs@[j]@ == f@);
        }
    }
    false
}

/// `old` with each of `fs` added that it does not hold yet.
pub fn add_new_exec(cur: &mut Vec<Fact>, fs: &Vec<Fact>)
    ensures
        facts_view(final(cur)@) == add_new(facts_view(old(cur)@), facts_view(fs@)),
{
    let ghost start = facts_view(cur@);
    let ghost fv = facts_view(fs@);
    let mut i: usize = 0;
    assert(fv.take(0) =~= Seq::<SpecFact>::empty());
    while i < fs.len()
        invariant
            i <= fs@.len(),
            fv == facts_view(fs@),
            facts_view(cur@) == add_new(start, fv.take(i as int)),
        decreases fs@.len() - i,
    {
        assert(fv.take(i + 1).drop_last() =~= fv.take(i as int));
        assert(fv.take(i + 1).last() == fs@[i as int]@);
        if !facts_contain(cur, &fs[i]) {
            let ghost prev = cur@;
            cur.push(copy_fact(&fs[i]));
            assert(facts_view(cur@) =~= facts_view(prev).push(fs@[i as int]@));
        }
        i = i + 1;
    }
    assert(fv.take(i as int) =~= fv);
}

/// `new` with each of `fs` added that neither `old` nor `new` holds yet.
pub fn add_fresh_exec(seen: &Vec<Fact>, new: &mut Vec<Fact>, fs: &Vec<Fact>)
    ensures
        facts_view(final(new)@) == add_fresh(facts_view(seen@), facts_view(old(new)@), facts_view(fs@)),
{
    let ghost start = facts_view(new@);
    let ghost fv = facts_view(fs@);
    let mut i: usize = 0;
    assert(fv.take(0) =~= Seq::<SpecFact>::empty());
    while i < fs.len()
        invariant
            i <= fs@.len(),
            fv == facts_view(fs@),
            facts_view(new@) == add_fresh(facts_view(seen@), start, fv.take(i as int)),
        decreases fs@.len() - i,
    {
        assert(fv.take(i + 1).drop_last() =~= fv.take(i as int));
        assert(fv.take(i + 1).last() == fs@[i as int]@);
        if !facts_contain(seen, &fs[i]) && !facts_contain(new, &fs[i]) {
            let ghost prev = new@;
            new.push(copy_fact(&fs[i]));
            assert(facts_view(new@) =~= facts_view(prev).push(fs@[i as int]@));
        }
        i = i + 1;
    }
    assert(fv.take(i as int) =~= fv);
}

/// Whether some predicate of the group has a fact.
pub fn any_facts_exec(db: &Vec<Vec<Fact>>) -> (r: bool)
    ensures
        r == any_facts(dbs_view(db@)),
{
    let mut j: usize = 0;
    while j < db.len()
        invariant
            j <= db@.len(),
            forall|k: int| 0 <= k < j ==> db@[k]@.len() == 0,
        decreases db@.len() - j,
    {
        if db[j].len() > 0 {
            assert(dbs_view(db@)[j as int].len() > 0);
            return true;
        }
        j = j + 1;
    }
    proof {
        if any_facts(dbs_view(db@)) {
            let k = choose|k: int| 0 <= k < dbs_view(db@).len() && #[trigger] dbs_view(db@)[k].len() > 0;
            assert(db@[k]@.len() == dbs_view(db@)[k].len());
        }
    }
    false
}

/// A copy of a list of facts.
pub fn copy_facts(fs: &Vec<Fact>) -> (r: Vec<Fact>)
    ensures
        facts_view(r@) == facts_view(fs@),
{
    let mut out: Vec<Fact> = Vec::new();
    let mut i: usize = 0;
    while i < fs.len()
        invariant
            i <= fs@.len(),
            facts_view(out@) == facts_view(fs@.take(i as int)),
        decreases fs@.len() - i,
    {
        let f = copy_fact(&fs[i]);
        let ghost prev = out@;
        out.push(f);
        i = i + 1;
        assert(facts_view(out@) =~= facts_view(prev).push(f@));
        assert(facts_view(fs@.take(i as int)) =~= facts_view(fs@.take(i - 1)).push(fs@[i - 1]@));
    }
    assert(fs@.take(i as int) =~= fs@);
    out
}

/// The facts stored for `p`, copied.
pub fn base_copy(eng: &Engine, p: &str) -> (r: Vec<Fact>)
    ensures
        facts_view(r@) == base_facts(eng@, p@),
{
    let gs = eng.fact_groups();
    match group_index(gs, p) {
        Some(i) => {
            proof { lemma_key_index_bounds(groups_view(gs@), p@); }
            copy_facts(&gs[i].facts)
        },
        None => {
            let r: Vec<Fact> = Vec::new();
            assert(facts_view(r@) =~= Seq::<SpecFact>::empty());
            r
        },
    }
}

/// Matches a pattern against facts for each binding in order.
pub fn join_exec(bs: &Vec<Binding>, pattern: &Vec<Term>, facts: &Vec<Fact>) -> (r: Vec<Binding>)
    ensures
        join(binds_view(bs@), terms_view(pattern@), facts_view(facts@)) == Ok::<Seq<SBind>, SpecEvalError>(binds_view(r@)),
{
    let ghost pv = terms_view(pattern@);
    let ghost fv = facts_view(facts@);
    let ghost f = join_step(pv, fv);
    let ghost all = binds_view(bs@);
    let mut out: Vec<Binding> = Vec::new();
    let mut i: usize = 0;
    assert(all.take(0) =~= Seq::<SBind>::empty());
    assert(binds_view(out@) =~= Seq::<SBind>::empty());
    while i < bs.len()
        invariant
            i <= bs@.len(),
            all == binds_view(bs@),
            pv == terms_view(pattern@),
            fv == facts_view(facts@),
            f == join_step(pv, fv),
            over_binds(f, all.take(i as int)) == Ok::<Seq<SBind>, SpecEvalError>(binds_view(out@)),
        decreases bs@.len() - i,
    {
        let b = &bs[i];
        proof { lemma_over_binds_push(f, all.take(i as int), b@); }
        assert(all.take(i + 1) =~= all.take(i as int).push(b@));
        let ghost prev = binds_view(out@);
        let mut k: usize = 0;
        while k < facts.len()
            invariant
                k <= facts@.len(),
                fv == facts_view(facts@),
                pv == terms_view(pattern@),
                binds_view(out@) == prev + join_one(b@, pv, fv, k as int),
            decreases facts@.len() - k,
        {
            assert(fv[k as int] == facts@[k as int]@);
            match try_extend_binding(b, pattern, &facts[k].args) {
                Some(nb) => {
                    let ghost before = out@;
                    out.push(nb);
                    assert(binds_view(out@) =~= binds_view(before).push(nb@));
                },
                None => {},
            }
            k = k + 1;
        }
        assert(f(b@) == Ok::<Seq<SBind>, SpecEvalError>(join_one(b@, pv, fv, fv.len() as int)));
        assert(binds_view(out@) =~= prev + join_one(b@, pv, fv, fv.len() as int));
        i = i + 1;
    }
    assert(all.take(i as int) =~= all);
    out
}

/// The bindings under which no fact matches the pattern.
pub fn negate_exec(bs: &Vec<Binding>, pattern: &Vec<Term>, facts: &Vec<Fact>) -> (r: Vec<Binding>)
    ensures
        negate(binds_view(bs@), terms_view(pattern@), facts_view(facts@)) == Ok::<Seq<SBind>, SpecEvalError>(binds_view(r@)),
{
    let ghost pv = terms_view(pattern@);
    let ghost fv = facts_view(facts@);
    let ghost f = negate_step(pv, fv);
    let ghost all = binds_view(bs@);
    let mut out: Vec<Binding> = Vec::new();
    let mut i: usize = 0;
    assert(all.take(0) =~= Seq::<SBind>::empty());
    assert(binds_view(out@) =~= Seq::<SBind>::empty());
    while i < bs.len()
        invariant
            i <= bs@.len(),
            all == binds_view(bs@),
            pv == terms_view(pattern@),
            fv == facts_view(facts@),
            f == negate_step(pv, fv),
            over_binds(f, all.take(i as int)) == Ok::<Seq<SBind>, SpecEvalError>(binds_view(out@)),
        decreases bs@.len() - i,
    {
        let b = &bs[i];
        proof { lemma_over_binds_push(f, all.take(i as int), b@); }
        assert(all.take(i + 1) =~= all.take(i as int).push(b@));
        let mut found = false;
        let mut k: usize = 0;
        while k < facts.len() && !found
            invariant
                k <= facts@.len(),
                fv == facts_view(facts@),
                pv == terms_view(pattern@),
                found ==> any_match(b@, pv, fv),
                !found ==> forall|j: int| 0 <= j < k ==> extend(b@, pv, #[trigger] fv[j].args) is None,
            decreases facts@.len() - k,
        {
            assert(fv[k as int] == facts@[k as int]@);
            match try_extend_binding(b, pattern, &facts[k].args) {
                Some(_) => {
                    assert(extend(b@, pv, fv[k as int].args) is Some);
                    found = true;
                },
                None => {
                    assert(extend(b@, pv, fv[k as int].args) is None);
                },
            }
            k = k + 1;
        }
        let ghost prev = binds_view(out@);
        if !found {
            let ghost before = out@;
            out.push(b.copy());
            assert(!any_match(b@, pv, fv));
            assert(binds_view(out@) =~= binds_view(before).push(b@));
            assert(f(b@) == Ok::<Seq<SBind>, SpecEvalError>(seq![b@]));
            assert(binds_view(out@) =~= prev + seq![b@]);
        } else {
            assert(f(b@) == Ok::<Seq<SBind>, SpecEvalError>(Seq::<SBind>::empty()));
            assert(binds_view(out@) =~= prev + Seq::<SBind>::empty());
        }
        i = i + 1;
    }
    assert(all.take(i as int) =~= all);
    out
}

/// The string at position `i` of a fact.
pub fn string_at_exec(f: &Fact, i: usize) -> (r: Option<&String>)
    ensures
        match r {
            Some(s) => string_at(f@, i as int) == Some(s@),
            None => string_at(f@, i as int) is None,
        },
{
    if i < f.args.len() {
        match &f.args[i] {
            Value::String(s) => Some(s),
            _ => None,
        }
    } else {
        None
    }
}

/// The strings at position `i` of the facts that have one there, in order.
pub fn strings_at_exec(fs: &Vec<Fact>, i: usize) -> (r: Vec<String>)
    ensures
        strings_view(r@) == strings_at(facts_view(fs@), i as int),
{
    let ghost fv = facts_view(fs@);
    let mut out: Vec<String> = Vec::new();
    let mut k: usize = 0;
    assert(fv.take(0) =~= Seq::<SpecFact>::empty());
    assert(strings_view(out@) =~= Seq::<Seq<char>>::empty());
    while k < fs.len()
        invariant
            k <= fs@.len(),
            fv == facts_view(fs@),
            strings_view(out@) == strings_at(fv.take(k as int), i as int),
        decreases fs@.len() - k,
    {
        assert(fv.take(k + 1).drop_last() =~= fv.take(k as int));
        assert(fv.take(k + 1).last() == fs@[k as int]@);
        match string_at_exec(&fs[k], i) {
            Some(s) => {
                let ghost prev = out@;
                out.push(copy_string(s));
                assert(strings_view(out@) =~= strings_view(prev).push(s@));
            },
            None => {},
        }
        k = k + 1;
    }
    assert(fv.take(k as int) =~= fv);
    out
}

/// A binding of `v` to each of the strings.
pub fn bind_each_exec(b: &Binding, v: &String, ss: &Vec<String>) -> (r: Vec<Binding>)
    ensures
        binds_view(r@) == bind_each(b@, v@, strings_view(ss@)),
{
    let mut out: Vec<Binding> = Vec::new();
    let mut k: usize = 0;
    while k < ss.len()
        invariant
            k <= ss@.len(),
            binds_view(out@) == bind_each(b@, v@, strings_view(ss@.take(k as int))),
        decreases ss@.len() - k,
    {
        let mut nb = b.copy();
        nb.set(copy_string(v), Value::String(copy_string(&ss[k])));
        let ghost prev = out@;
        out.push(nb);
        k = k + 1;
        assert(binds_view(out@) =~= binds_view(prev).push(nb@));
        assert(strings_view(ss@.take(k as int)) =~= strings_view(ss@.take(k - 1)).push(ss@[k - 1]@));
        assert(bind_each(b@, v@, strings_view(ss@.take(k as int))) =~= bind_each(b@, v@, strings_view(ss@.take(k - 1))).push(nb@));
    }
    assert(ss@.take(k as int) =~= ss@);
    out
}

/// What `str::parse::<usize>` gives.
fn parse_usize(s: &String) -> (r: Option<usize>)
    ensures
        match r {
            Some(v) => usize_value(s@) == Some(v as nat),
            None => usize_value(s@) is None,
        },
{
    let cs = crate::text::string_chars(s);
    if cs.len() > 0 && cs[0] == '-' {
        return None;
    }
    match crate::text::int_value_bounded(cs.as_slice()) {
        Some(v) => {
            if v >= 0 && v <= 18446744073709551615i128 && v <= usize::MAX as i128 {
                Some(v as usize)
            } else {
                None
            }
        },
        None => None,
    }
}

/// `list` (sorted by key) with `k` given the value `v`.
fn put_sorted_exec(list: &Vec<(usize, String)>, k: usize, v: String) -> (r: Vec<(usize, String)>)
    ensures
        keyed_view(r@) == put_sorted(keyed_view(list@), k as nat, v@),
{
    let ghost lv = keyed_view(list@);
    let mut out: Vec<(usize, String)> = Vec::new();
    let mut i: usize = 0;
    assert(lv.skip(0) =~= lv);
    assert(lv.take(0) + put_sorted(lv.skip(0), k as nat, v@) =~= put_sorted(lv, k as nat, v@));
    assert(keyed_view(out@) =~= lv.take(0));
    while i < list.len() && list[i].0 < k
        invariant
            i <= list@.len(),
            lv == keyed_view(list@),
            keyed_view(out@) == lv.take(i as int),
            put_sorted(lv, k as nat, v@) == lv.take(i as int) + put_sorted(lv.skip(i as int), k as nat, v@),
        decreases list@.len() - i,
    {
        let ghost rest = lv.skip(i as int);
        assert(rest.skip(1) =~= lv.skip(i + 1));
        assert(rest[0] == lv[i as int]);
        assert(put_sorted(rest, k as nat, v@) == seq![rest[0]] + put_sorted(lv.skip(i + 1), k as nat, v@));
        let e = (list[i].0, copy_string(&list[i].1));
        let ghost prev = out@;
        out.push(e);
        assert(keyed_view(out@) =~= keyed_view(prev).push(lv[i as int]));
        i = i + 1;
        assert(lv.take(i as int) =~= lv.take(i - 1).push(lv[i - 1]));
        assert(lv.take(i as int) + put_sorted(lv.skip(i as int), k as nat, v@) =~= lv.take(i - 1) + (seq![lv[i - 1]] + put_sorted(lv.skip(i as int), k as nat, v@)));
    }
    let ghost rest = lv.skip(i as int);
    let j0: usize = if i < list.len() && list[i].0 == k { i + 1 } else { i };
    proof {
        if i < list.len() {
            assert(rest[0] == lv[i as int]);
            assert(rest.skip(1) =~= lv.skip(i + 1));
        } else {
            assert(rest.len() == 0);
        }
    }
    assert(put_sorted(rest, k as nat, v@) == seq![(k as nat, v@)] + lv.skip(j0 as int));
    let ghost prev = out@;
    out.push((k, v));
    let ghost mid = keyed_view(out@);
    assert(mid =~= lv.take(i as int).push((k as nat, v@)));
    let mut j: usize = j0;
    assert(lv.subrange(j0 as int, j0 as int) =~= Seq::<(nat, Seq<char>)>::empty());
    while j < list.len()
        invariant
            j0 <= j <= list@.len(),
            lv == keyed_view(list@),
            keyed_view(out@) == mid + lv.subrange(j0 as int, j as int),
        decreases list@.len() - j,
    {
        let e = (list[j].0, copy_string(&list[j].1));
        let ghost before = out@;
        out.push(e);
        j = j + 1;
        assert(keyed_view(out@) =~= keyed_view(before).push(lv[j - 1]));
        assert(lv.subrange(j0 as int, j as int) =~= lv.subrange(j0 as int, j - 1).push(lv[j - 1]));
    }
    assert(lv.subrange(j0 as int, lv.len() as int) =~= lv.skip(j0 as int));
    assert(keyed_view(out@) =~= put_sorted(lv, k as nat, v@));
    out
}

pub open spec fn keyed_view(l: Seq<(usize, String)>) -> Seq<(nat, Seq<char>)> {
    l.map_values(|e: (usize, String)| (e.0 as nat, e.1@))
}

/// The base facts whose first argument is the string `first`.
pub(crate) fn with_first_exec(fs: &Vec<Fact>, first: &String) -> (r: Vec<Fact>)
    ensures
        facts_view(r@) == with_first(facts_view(fs@), first@),
{
    let ghost fv = facts_view(fs@);
    let mut out: Vec<Fact> = Vec::new();
    let mut k: usize = 0;
    assert(fv.take(0) =~= Seq::<SpecFact>::empty());
    assert(facts_view(out@) =~= Seq::<SpecFact>::empty());
    while k < fs.len()
        invariant
            k <= fs@.len(),
            fv == facts_view(fs@),
            facts_view(out@) == with_first(fv.take(k as int), first@),
        decreases fs@.len() - k,
    {
        assert(fv.take(k + 1).drop_last() =~= fv.take(k as int));
        assert(fv.take(k + 1).last() == fs@[k as int]@);
        let keep = match string_at_exec(&fs[k], 0) {
            Some(s) => crate::datalog::types::string_eq(s, first),
            None => false,
        };
        if keep {
            let ghost prev = out@;
            out.push(copy_fact(&fs[k]));
            assert(facts_view(out@) =~= facts_view(prev).push(fs@[k as int]@));
        }
        k = k + 1;
    }
    assert(fv.take(k as int) =~= fv);
    out
}

/// The tool and the positional arguments that `attr` facts give for `target`.
fn command_exec(attrs: &Vec<Fact>, target: &String) -> (r: (Option<String>, Vec<(usize, String)>))
    ensures
        (match r.0 { Some(t) => Some(t@), None => None::<Seq<char>> }, keyed_view(r.1@))
            == command_of(facts_view(attrs@), target@, attrs@.len() as int),
{
    let ghost fv = facts_view(attrs@);
    let mut tool: Option<String> = None;
    let mut args: Vec<(usize, String)> = Vec::new();
    let mut k: usize = 0;
    assert(keyed_view(args@) =~= Seq::<(nat, Seq<char>)>::empty());
    while k < attrs.len()
        invariant
            k <= attrs@.len(),
            fv == facts_view(attrs@),
            (match tool { Some(t) => Some(t@), None => None::<Seq<char>> }, keyed_view(args@))
                == command_of(fv, target@, k as int),
        decreases attrs@.len() - k,
    {
        assert(fv[k as int] == attrs@[k as int]@);
        let f = &attrs[k];
        match (string_at_exec(f, 0), string_at_exec(f, 1), string_at_exec(f, 2)) {
            (Some(t), Some(key), Some(value)) => {
                if crate::datalog::types::string_eq(t, target) {
                    if str_eq(key.as_str(), "tool") {
                        tool = Some(copy_string(value));
                    } else {
                        match parse_usize(key) {
                            Some(idx) => {
                                args = put_sorted_exec(&args, idx, copy_string(value));
                            },
                            None => {},
                        }
                    }
                }
            },
            _ => {},
        }
        k = k + 1;
    }
    (tool, args)
}

/// The output lines of `resolve` for a target, or the request to run its tool.
pub fn resolved_exec(eng: &Engine, target: &String) -> (r: Result<Vec<String>, EvalError>)
    ensures
        match (r, resolved(eng@, target@)) {
            (Ok(ls), Ok(sls)) => strings_view(ls@) == sls,
            (Err(e), Err(se)) => e@ == se,
            _ => false,
        },
{
    let t = eng.resolution_table();
    match table_index(t, target.as_str()) {
        Some(i) => {
            proof { lemma_key_index_bounds(table_view(t@), target@); }
            return Ok(copy_strings(&t[i].1));
        },
        None => {},
    }
    if !eng.resolution_allowed() {
        let r: Vec<String> = Vec::new();
        assert(strings_view(r@) =~= Seq::<Seq<char>>::empty());
        return Ok(r);
    }
    let attrs_all = base_copy(eng, "attr");
    let attrs = with_first_exec(&attrs_all, target);
    let (tool, args) = command_exec(&attrs, target);
    match tool {
        None => {
            let r: Vec<String> = Vec::new();
            assert(strings_view(r@) =~= Seq::<Seq<char>>::empty());
            Ok(r)
        },
        Some(tn) => {
            let mut vals: Vec<String> = Vec::new();
            let mut k: usize = 0;
            while k < args.len()
                invariant
                    k <= args@.len(),
                    strings_view(vals@) == keyed_view(args@).take(k as int).map_values(|a: (nat, Seq<char>)| a.1),
                decreases args@.len() - k,
            {
                let ghost prev = vals@;
                vals.push(copy_string(&args[k].1));
                k = k + 1;
                assert(strings_view(vals@) =~= strings_view(prev).push(args@[k - 1].1@));
                assert(keyed_view(args@).take(k as int).map_values(|a: (nat, Seq<char>)| a.1)
                    =~= keyed_view(args@).take(k - 1).map_values(|a: (nat, Seq<char>)| a.1).push(args@[k - 1].1@));
            }
            assert(keyed_view(args@).take(k as int) =~= keyed_view(args@));
            let e = EvalError::NeedsResolution(copy_string(target), tn, vals);
            Err(e)
        },
    }
}

/// What `resolve(T, L)` gives for one binding.
fn resolve_binding(eng: &Engine, args: &Vec<Term>, b: &Binding) -> (r: Result<Vec<Binding>, EvalError>)
    requires
        args@.len() == 2,
    ensures
        binds_res(r, resolve_one(eng@, terms_view(args@), b@)),
{
    let ghost av = terms_view(args@);
    assert(av[0] == args@[0]@ && av[1] == args@[1]@);
    let target = match agg_name_exec(&args[0], b) {
        Some(t) => t,
        None => {
            let r: Vec<Binding> = Vec::new();
            assert(binds_view(r@) =~= Seq::<SBind>::empty());
            return Ok(r);
        },
    };
    let lines = match resolved_exec(eng, &target) {
        Ok(ls) => ls,
        Err(e) => {
            return Err(e);
        },
    };
    match &args[1] {
        Term::Variable(v) => Ok(bind_each_exec(b, v, &lines)),
        Term::Constant(Value::String(x)) => {
            let mut found = false;
            let mut k: usize = 0;
            while k < lines.len() && !found
                invariant
                    k <= lines@.len(),
                    found ==> strings_view(lines@).contains(x@),
                    !found ==> forall|j: int| 0 <= j < k ==> lines@[j]@ != x@,
                decreases lines@.len() - k,
            {
                if crate::datalog::types::string_eq(&lines[k], x) {
                    assert(strings_view(lines@)[k as int] == x@);
                    found = true;
                }
                k = k + 1;
            }
            proof {
                if !found && strings_view(lines@).contains(x@) {
                    let j = choose|j: int| 0 <= j < strings_view(lines@).len() && strings_view(lines@)[j] == x@;
                    assert(lines@[j]@ == x@);
                }
            }
            let mut r: Vec<Binding> = Vec::new();
            if found {
                r.push(b.copy());
                assert(binds_view(r@) =~= seq![b@]);
            } else {
                assert(binds_view(r@) =~= Seq::<SBind>::empty());
            }
            Ok(r)
        },
        _ => {
            let r: Vec<Binding> = Vec::new();
            assert(binds_view(r@) =~= Seq::<SBind>::empty());
            Ok(r)
        },
    }
}

/// What `resolve(T, L)` gives for the bindings.
pub fn resolve_all(eng: &Engine, args: &Vec<Term>, bs: &Vec<Binding>) -> (r: Result<Vec<Binding>, EvalError>)
    requires
        args@.len() == 2,
    ensures
        binds_res(r, over_binds(resolve_step(eng@, terms_view(args@)), binds_view(bs@))),
{
    let ghost f = resolve_step(eng@, terms_view(args@));
    let ghost all = binds_view(bs@);
    let mut out: Vec<Binding> = Vec::new();
    let mut i: usize = 0;
    assert(all.take(0) =~= Seq::<SBind>::empty());
    assert(binds_view(out@) =~= Seq::<SBind>::empty());
    while i < bs.len()
        invariant
            i <= bs@.len(),
            all == binds_view(bs@),
            args@.len() == 2,
            f == resolve_step(eng@, terms_view(args@)),
            over_binds(f, all.take(i as int)) == Ok::<Seq<SBind>, SpecEvalError>(binds_view(out@)),
        decreases bs@.len() - i,
    {
        let b = &bs[i];
        proof { lemma_over_binds_push(f, all.take(i as int), b@); }
        assert(all.take(i + 1) =~= all.take(i as int).push(b@));
        match resolve_binding(eng, args, b) {
            Ok(mut more) => {
                let ghost prev = binds_view(out@);
                let ghost add = binds_view(more@);
                out.append(&mut more);
                assert(binds_view(out@) =~= prev + add);
            },
            Err(e) => {
                proof { lemma_over_binds_err(f, all, i + 1); }
                return Err(e);
            },
        }
        i = i + 1;
    }
    assert(all.take(i as int) =~= all);
    Ok(out)
}

/// The predicate name that an aggregate's first argument names.
pub fn agg_name_exec(t: &Term, b: &Binding) -> (r: Option<String>)
    ensures
        match r {
            Some(s) => agg_name(t@, b@) == Some(s@),
            None => agg_name(t@, b@) is None,
        },
{
    match t {
        Term::Constant(Value::String(s)) => Some(copy_string(s)),
        Term::Variable(v) => match b.get(v.as_str()) {
            Some(Value::String(s)) => Some(copy_string(s)),
            _ => None,
        },
        _ => None,
    }
}

/// The argument position that `min` and `max` read.
pub fn agg_index_exec(t: &Term, b: &Binding) -> (r: Option<usize>)
    ensures
        match r {
            Some(i) => agg_index(t@, b@) == Some(i as nat),
            None => agg_index(t@, b@) is None,
        },
{
    match t {
        Term::Constant(Value::Integer(i)) => Some(#[verifier::truncate] (*i as usize)),
        Term::Variable(v) => match b.get(v.as_str()) {
            Some(Value::Integer(i)) => Some(#[verifier::truncate] (*i as usize)),
            _ => None,
        },
        _ => None,
    }
}

/// The error for an aggregate argument that is not of the kind it must be.
fn agg_arg_error(what: &str, t: &Term) -> (r: String)
    ensures
        r@ == agg_arg_msg(what@, t@),
{
    let mut m = str_to_string("Type error: ");
    push_all(&mut m, what);
    match t {
        Term::Constant(_) => {
            push_all(&mut m, ", got ");
            push_term_debug(&mut m, t);
        },
        Term::Variable(_) => {},
    }
    m
}

fn agg_label_exec(is_min: bool) -> (r: &'static str)
    ensures
        r@ == agg_label(is_min),
{
    if is_min { "min" } else { "max" }
}

/// The aggregate's result given to its last argument.
pub fn agg_out_exec(b: &Binding, t: &Term, v: i64, what: &str) -> (r: Result<Vec<Binding>, EvalError>)
    ensures
        binds_res(r, agg_out(b@, t@, v, what@)),
{
    match t {
        Term::Variable(x) => {
            let mut nb = b.copy();
            nb.set(copy_string(x), Value::Integer(v));
            let mut r: Vec<Binding> = Vec::new();
            r.push(nb);
            assert(binds_view(r@) =~= seq![nb@]);
            Ok(r)
        },
        Term::Constant(Value::Integer(e)) => {
            let mut r: Vec<Binding> = Vec::new();
            if *e == v {
                r.push(b.copy());
                assert(binds_view(r@) =~= seq![b@]);
            } else {
                assert(binds_view(r@) =~= Seq::<SBind>::empty());
            }
            Ok(r)
        },
        _ => {
            let mut m = str_to_string("Type error: ");
            push_all(&mut m, what);
            push_all(&mut m, " must be an integer or variable, got ");
            push_term_debug(&mut m, t);
            Err(EvalError::Invalid(m))
        },
    }
}

/// The least (`is_min`) or greatest integer at position `idx` of the facts.
pub fn extreme_at(fs: &Vec<Fact>, idx: usize, is_min: bool) -> (r: Option<i64>)
    ensures
        r == extreme(ints_at(facts_view(fs@), idx as nat), is_min),
{
    let ghost fv = facts_view(fs@);
    let mut best: Option<i64> = None;
    let ghost mut seen: Seq<i64> = Seq::empty();
    let mut k: usize = 0;
    assert(fv.take(0) =~= Seq::<SpecFact>::empty());
    while k < fs.len()
        invariant
            k <= fs@.len(),
            fv == facts_view(fs@),
            seen == ints_at(fv.take(k as int), idx as nat),
            best == extreme(seen, is_min),
        decreases fs@.len() - k,
    {
        assert(fv.take(k + 1).drop_last() =~= fv.take(k as int));
        assert(fv.take(k + 1).last() == fs@[k as int]@);
        let f = &fs[k];
        if idx < f.args.len() {
            assert(fs@[k as int]@.args[idx as int] == f.args@[idx as int]@);
            match &f.args[idx] {
                Value::Integer(i) => {
                    let x = *i;
                    let ghost before = seen;
                    proof { seen = seen.push(x); }
                    assert(seen.drop_last() =~= before);
                    best = match best {
                        None => Some(x),
                        Some(m) => Some(if (is_min && x < m) || (!is_min && x > m) { x } else { m }),
                    };
                },
                _ => {},
            }
        }
        k = k + 1;
    }
    assert(fv.take(k as int) =~= fv);
    best
}

/// The `source_location` facts: the stored ones, or those the recorded locations stand for.
pub fn location_facts_exec(eng: &Engine) -> (r: Vec<Fact>)
    ensures
        facts_view(r@) == location_facts(eng@),
{
    let gs = eng.fact_groups();
    match group_index(gs, "source_location") {
        Some(_) => base_copy(eng, "source_location"),
        None => eng.location_facts(),
    }
}

/// The patterns among `pats` that are valid and match `file`, in order.
fn patterns_matching_exec(pats: &Vec<String>, file: &String) -> (r: Vec<String>)
    ensures
        strings_view(r@) == patterns_matching(strings_view(pats@), file@),
{
    let ghost pv = strings_view(pats@);
    let mut out: Vec<String> = Vec::new();
    let mut k: usize = 0;
    assert(pv.take(0) =~= Seq::<Seq<char>>::empty());
    assert(strings_view(out@) =~= Seq::<Seq<char>>::empty());
    while k < pats.len()
        invariant
            k <= pats@.len(),
            pv == strings_view(pats@),
            strings_view(out@) == patterns_matching(pv.take(k as int), file@),
        decreases pats@.len() - k,
    {
        assert(pv.take(k + 1).drop_last() =~= pv.take(k as int));
        assert(pv.take(k + 1).last() == pats@[k as int]@);
        let keep = match crate::datalog::globs::compile_glob(pats[k].as_str()) {
            Some(g) => crate::datalog::globs::glob_pattern_matches(&g, file.as_str()),
            None => false,
        };
        if keep {
            let ghost prev = out@;
            out.push(copy_string(&pats[k]));
            assert(strings_view(out@) =~= strings_view(prev).push(pats@[k as int]@));
        }
        k = k + 1;
    }
    assert(pv.take(k as int) =~= pv);
    out
}

/// The files among `files` that the compiled pattern matches, in order.
fn files_matching_exec(files: &Vec<String>, g: &crate::datalog::globs::GlobPattern) -> (r: Vec<String>)
    ensures
        strings_view(r@) == files_matching(strings_view(files@), g.text()),
{
    let ghost fv = strings_view(files@);
    let mut out: Vec<String> = Vec::new();
    let mut k: usize = 0;
    assert(fv.take(0) =~= Seq::<Seq<char>>::empty());
    assert(strings_view(out@) =~= Seq::<Seq<char>>::empty());
    while k < files.len()
        invariant
            k <= files@.len(),
            fv == strings_view(files@),
            strings_view(out@) == files_matching(fv.take(k as int), g.text()),
        decreases files@.len() - k,
    {
        assert(fv.take(k + 1).drop_last() =~= fv.take(k as int));
        assert(fv.take(k + 1).last() == files@[k as int]@);
        if crate::datalog::globs::glob_pattern_matches(g, files[k].as_str()) {
            let ghost prev = out@;
            out.push(copy_string(&files[k]));
            assert(strings_view(out@) =~= strings_view(prev).push(files@[k as int]@));
        }
        k = k + 1;
    }
    assert(fv.take(k as int) =~= fv);
    out
}

/// For each valid pattern in order, a binding of each file it matches and of the pattern.
fn all_glob_matches_exec(files: &Vec<String>, pats: &Vec<String>, b: &Binding, fvar: &String, pvar: &String) -> (r: Vec<Binding>)
    ensures
        binds_view(r@) == all_glob_matches(strings_view(files@), strings_view(pats@), b@, fvar@, pvar@),
{
    let ghost pv = strings_view(pats@);
    let ghost filev = strings_view(files@);
    let mut out: Vec<Binding> = Vec::new();
    let mut k: usize = 0;
    assert(pv.take(0) =~= Seq::<Seq<char>>::empty());
    assert(binds_view(out@) =~= Seq::<SBind>::empty());
    while k < pats.len()
        invariant
            k <= pats@.len(),
            pv == strings_view(pats@),
            filev == strings_view(files@),
            binds_view(out@) == all_glob_matches(filev, pv.take(k as int), b@, fvar@, pvar@),
        decreases pats@.len() - k,
    {
        assert(pv.take(k + 1).drop_last() =~= pv.take(k as int));
        assert(pv.take(k + 1).last() == pats@[k as int]@);
        match crate::datalog::globs::compile_glob(pats[k].as_str()) {
            Some(g) => {
                let found = files_matching_exec(files, &g);
                let ghost prev = binds_view(out@);
                let mut m: usize = 0;
                while m < found.len()
                    invariant
                        m <= found@.len(),
                        k < pats@.len(),
                        binds_view(out@) == prev + strings_view(found@).take(m as int).map_values(
                            |f: Seq<char>| b@.insert(fvar@, SpecValue::Str(f)).insert(pvar@, SpecValue::Str(pats@[k as int]@))),
                    decreases found@.len() - m,
                {
                    let mut nb = b.copy();
                    nb.set(copy_string(fvar), Value::String(copy_string(&found[m])));
                    nb.set(copy_string(pvar), Value::String(copy_string(&pats[k])));
                    let ghost before = out@;
                    out.push(nb);
                    m = m + 1;
                    assert(binds_view(out@) =~= binds_view(before).push(nb@));
                    assert(strings_view(found@).take(m as int) =~= strings_view(found@).take(m - 1).push(found@[m - 1]@));
                    assert(prev + strings_view(found@).take(m as int).map_values(
                            |f: Seq<char>| b@.insert(fvar@, SpecValue::Str(f)).insert(pvar@, SpecValue::Str(pats@[k as int]@)))
                        =~= (prev + strings_view(found@).take(m - 1).map_values(
                            |f: Seq<char>| b@.insert(fvar@, SpecValue::Str(f)).insert(pvar@, SpecValue::Str(pats@[k as int]@)))).push(nb@));
                }
                assert(strings_view(found@).take(m as int) =~= strings_view(found@));
            },
            None => {},
        }
        k = k + 1;
    }
    assert(pv.take(k as int) =~= pv);
    out
}

/// Whether an exec result of facts agrees with a spec result.
pub open spec fn facts_res(r: Result<Vec<Fact>, EvalError>, s: SpecFacts) -> bool {
    match (r, s) {
        (Ok(fs), Ok(sfs)) => facts_view(fs@) == sfs,
        (Err(e), Err(se)) => e@ == se,
        _ => false,
    }
}

/// Whether each remembered result is the complete facts of its predicate at fuel `lf`.
pub open spec fn memo_ok(memo: Seq<(String, Vec<Fact>)>, e: SpecEngine, lf: nat) -> bool {
    forall|i: int| 0 <= i < memo.len() ==> derived_facts(e, #[trigger] memo[i].0@, lf) == Ok::<Seq<SpecFact>, SpecEvalError>(facts_view(memo[i].1@))
}

/// Whether an exec result of grouped facts agrees with a spec result.
pub open spec fn db_res(r: Result<Vec<Vec<Fact>>, EvalError>, s: Result<Seq<Seq<SpecFact>>, SpecEvalError>) -> bool {
    match (r, s) {
        (Ok(db), Ok(sdb)) => dbs_view(db@) == sdb,
        (Err(e), Err(se)) => e@ == se,
        _ => false,
    }
}

fn copy_term(t: &Term) -> (r: Term)
    ensures
        r@ == t@,
{
    match t {
        Term::Variable(v) => Term::Variable(copy_string(v)),
        Term::Constant(c) => Term::Constant(copy_value(c)),
    }
}

/// The arguments padded with anonymous variables up to `arity`.
fn padded_exec(args: &Vec<Term>, arity: usize) -> (r: Vec<Term>)
    ensures
        terms_view(r@) == padded(terms_view(args@), arity as nat),
{
    let mut out: Vec<Term> = Vec::new();
    let mut i: usize = 0;
    while i < args.len()
        invariant
            i <= args@.len(),
            terms_view(out@) == terms_view(args@.take(i as int)),
        decreases args@.len() - i,
    {
        let t = copy_term(&args[i]);
        let ghost prev = out@;
        out.push(t);
        i = i + 1;
        assert(terms_view(out@) =~= terms_view(prev).push(t@));
        assert(terms_view(args@.take(i as int)) =~= terms_view(args@.take(i - 1)).push(args@[i - 1]@));
    }
    assert(args@.take(i as int) =~= args@);
    if args.len() >= arity {
        return out;
    }
    let n = args.len();
    let mut k: usize = n;
    while k < arity
        invariant
            n == args@.len(),
            n <= k <= arity,
            terms_view(out@) == terms_view(args@) + Seq::new((k - n) as nat, |j: int| SpecTerm::Var(anon_var((n + j) as nat))),
        decreases arity - k,
    {
        let mut name = str_to_string("_anon_");
        let ds = crate::text::u64_digits(k as u64);
        let dstr = crate::text::string_from_chars(ds.as_slice());
        crate::text::push_string(&mut name, &dstr);
        let t = Term::Variable(name);
        assert(t@ == SpecTerm::Var(anon_var(k as nat)));
        let ghost prev = out@;
        out.push(t);
        k = k + 1;
        assert(terms_view(out@) =~= terms_view(prev).push(t@));
        assert(terms_view(args@) + Seq::new((k - n) as nat, |j: int| SpecTerm::Var(anon_var((n + j) as nat)))
            =~= (terms_view(args@) + Seq::new((k - 1 - n) as nat, |j: int| SpecTerm::Var(anon_var((n + j) as nat)))).push(t@));
    }
    out
}

/// The complete facts of `q` at fuel `lf`, remembered once computed.
fn lower_exec(eng: &Engine, lf: usize, memo: &mut Vec<(String, Vec<Fact>)>, q: &str) -> (r: Result<Vec<Fact>, EvalError>)
    requires
        memo_ok(old(memo)@, eng@, lf as nat),
    ensures
        memo_ok(final(memo)@, eng@, lf as nat),
        facts_res(r, lower_at(eng@, lf as nat)(q@)),
    decreases lf + 1, 5nat,
{
    proof { crate::datalog::semantics::lemma_lower_at(eng@, lf as nat, q@); }
    let mut i: usize = 0;
    while i < memo.len()
        invariant
            i <= memo@.len(),
            memo_ok(memo@, eng@, lf as nat),
        decreases memo@.len() - i,
    {
        if str_eq(memo[i].0.as_str(), q) {
            proof { crate::datalog::semantics::lemma_lower_at(eng@, lf as nat, q@); }
            assert(derived_facts(eng@, memo@[i as int].0@, lf as nat) == Ok::<Seq<SpecFact>, SpecEvalError>(facts_view(memo@[i as int].1@)));
            return Ok(copy_facts(&memo[i].1));
        }
        i = i + 1;
    }
    let r = derive_exec(eng, q, lf);
    match r {
        Ok(fs) => {
            let ghost prev = memo@;
            memo.push((str_to_string(q), copy_facts(&fs)));
            assert forall|k: int| 0 <= k < memo@.len() implies derived_facts(eng@, #[trigger] memo@[k].0@, lf as nat)
                == Ok::<Seq<SpecFact>, SpecEvalError>(facts_view(memo@[k].1@)) by {
                if k < prev.len() {
                    assert(memo@[k] == prev[k]);
                }
            }
            Ok(fs)
        },
        Err(e) => Err(e),
    }
}

/// What `count(P, N)` gives for one binding.
fn count_binding(eng: &Engine, lf: usize, memo: &mut Vec<(String, Vec<Fact>)>, args: &Vec<Term>, b: &Binding) -> (r: Result<Vec<Binding>, EvalError>)
    requires
        memo_ok(old(memo)@, eng@, lf as nat),
        args@.len() == 2,
    ensures
        memo_ok(final(memo)@, eng@, lf as nat),
        binds_res(r, count_one(terms_view(args@), b@, lower_at(eng@, lf as nat))),
    decreases lf + 1, 6nat,
{
    let ghost av = terms_view(args@);
    assert(av[0] == args@[0]@ && av[1] == args@[1]@);
    let name = match agg_name_exec(&args[0], b) {
        Some(n) => n,
        None => {
            return Err(EvalError::Invalid(agg_arg_error("count first argument must be a string predicate name", &args[0])));
        },
    };
    let fs = match lower_exec(eng, lf, memo, name.as_str()) {
        Ok(fs) => fs,
        Err(e) => {
            return Err(e);
        },
    };
    agg_out_exec(b, &args[1], #[verifier::truncate] (fs.len() as i64), "count second argument")
}

/// What `min(P, I, M)` or `max(P, I, M)` gives for one binding.
fn minmax_binding(eng: &Engine, lf: usize, memo: &mut Vec<(String, Vec<Fact>)>, is_min: bool, args: &Vec<Term>, b: &Binding) -> (r: Result<Vec<Binding>, EvalError>)
    requires
        memo_ok(old(memo)@, eng@, lf as nat),
        args@.len() == 3,
    ensures
        memo_ok(final(memo)@, eng@, lf as nat),
        binds_res(r, minmax_one(is_min, terms_view(args@), b@, lower_at(eng@, lf as nat))),
    decreases lf + 1, 6nat,
{
    let ghost av = terms_view(args@);
    assert(av[0] == args@[0]@ && av[1] == args@[1]@ && av[2] == args@[2]@);
    let name = match agg_name_exec(&args[0], b) {
        Some(n) => n,
        None => {
            let mut w = str_to_string(agg_label_exec(is_min));
            push_all(&mut w, " first argument must be a string predicate name");
            return Err(EvalError::Invalid(agg_arg_error(w.as_str(), &args[0])));
        },
    };
    let idx = match agg_index_exec(&args[1], b) {
        Some(i) => i,
        None => {
            let mut w = str_to_string(agg_label_exec(is_min));
            push_all(&mut w, " second argument must be an integer index");
            return Err(EvalError::Invalid(agg_arg_error(w.as_str(), &args[1])));
        },
    };
    let fs = match lower_exec(eng, lf, memo, name.as_str()) {
        Ok(fs) => fs,
        Err(e) => {
            return Err(e);
        },
    };
    match extreme_at(&fs, idx, is_min) {
        None => {
            let r: Vec<Binding> = Vec::new();
            assert(binds_view(r@) =~= Seq::<SBind>::empty());
            Ok(r)
        },
        Some(m) => {
            let mut w = str_to_string(agg_label_exec(is_min));
            push_all(&mut w, " third argument");
            agg_out_exec(b, &args[2], m, w.as_str())
        },
    }
}

fn glob_arg_exec(t: &Term, b: &Binding) -> (r: Option<Option<String>>)
    ensures
        match r {
            None => glob_arg(t@, b@) is None,
            Some(None) => glob_arg(t@, b@) == Some(None::<Seq<char>>),
            Some(Some(s)) => glob_arg(t@, b@) == Some(Some(s@)),
        },
{
    match t {
        Term::Constant(Value::String(s)) => Some(Some(copy_string(s))),
        Term::Constant(_) => None,
        Term::Variable(v) => match b.get(v.as_str()) {
            Some(Value::String(s)) => Some(Some(copy_string(s))),
            _ => Some(None),
        },
    }
}

fn no_bindings() -> (r: Vec<Binding>)
    ensures
        binds_view(r@) == Seq::<SBind>::empty(),
{
    let r: Vec<Binding> = Vec::new();
    assert(binds_view(r@) =~= Seq::<SBind>::empty());
    r
}

/// What `matches_glob(F, P)` gives for one binding.
fn glob_binding(eng: &Engine, lf: usize, memo: &mut Vec<(String, Vec<Fact>)>, args: &Vec<Term>, b: &Binding) -> (r: Result<Vec<Binding>, EvalError>)
    requires
        memo_ok(old(memo)@, eng@, lf as nat),
        args@.len() == 2,
    ensures
        memo_ok(final(memo)@, eng@, lf as nat),
        binds_res(r, glob_one(eng@, terms_view(args@), b@, lower_at(eng@, lf as nat))),
    decreases lf + 1, 6nat,
{
    let ghost av = terms_view(args@);
    assert(av[0] == args@[0]@ && av[1] == args@[1]@);
    let fo = match glob_arg_exec(&args[0], b) {
        None => {
            return Ok(no_bindings());
        },
        Some(x) => x,
    };
    let po = match glob_arg_exec(&args[1], b) {
        None => {
            return Ok(no_bindings());
        },
        Some(x) => x,
    };
    match (fo, po) {
        (Some(f), Some(p)) => {
            let ok = match crate::datalog::globs::compile_glob(p.as_str()) {
                Some(g) => crate::datalog::globs::glob_pattern_matches(&g, f.as_str()),
                None => false,
            };
            if ok {
                let mut r: Vec<Binding> = Vec::new();
                r.push(b.copy());
                assert(binds_view(r@) =~= seq![b@]);
                Ok(r)
            } else {
                Ok(no_bindings())
            }
        },
        (Some(f), None) => match &args[1] {
            Term::Variable(pv) => {
                let fs = match lower_exec(eng, lf, memo, "source_glob") {
                    Ok(fs) => fs,
                    Err(e) => {
                        return Err(e);
                    },
                };
                let pats = strings_at_exec(&fs, 1);
                let hits = patterns_matching_exec(&pats, &f);
                Ok(bind_each_exec(b, pv, &hits))
            },
            _ => Ok(no_bindings()),
        },
        (None, Some(p)) => match &args[0] {
            Term::Variable(fv) => {
                let g = match crate::datalog::globs::compile_glob(p.as_str()) {
                    Some(g) => g,
                    None => {
                        return Ok(no_bindings());
                    },
                };
                let fs = match lower_exec(eng, lf, memo, "file_exists") {
                    Ok(fs) => fs,
                    Err(e) => {
                        return Err(e);
                    },
                };
                let files = strings_at_exec(&fs, 0);
                let found = files_matching_exec(&files, &g);
                if found.len() > 0 {
                    Ok(bind_each_exec(b, fv, &found))
                } else {
                    let t = eng.glob_table();
                    match table_index(t, p.as_str()) {
                        Some(i) => {
                            proof { lemma_key_index_bounds(table_view(t@), p@); }
                            Ok(bind_each_exec(b, fv, &t[i].1))
                        },
                        None => Err(EvalError::NeedsGlob(p)),
                    }
                }
            },
            _ => Ok(no_bindings()),
        },
        (None, None) => match (&args[0], &args[1]) {
            (Term::Variable(fv), Term::Variable(pv)) => {
                let ffs = match lower_exec(eng, lf, memo, "file_exists") {
                    Ok(fs) => fs,
                    Err(e) => {
                        return Err(e);
                    },
                };
                let gfs = match lower_exec(eng, lf, memo, "source_glob") {
                    Ok(fs) => fs,
                    Err(e) => {
                        return Err(e);
                    },
                };
                let files = strings_at_exec(&ffs, 0);
                let pats = strings_at_exec(&gfs, 1);
                Ok(all_glob_matches_exec(&files, &pats, b, fv, pv))
            },
            _ => Ok(no_bindings()),
        },
    }
}

/// The per-binding step of an aggregate or of `matches_glob`: 0 `count`, 1 `min`, 2 `max`, 3 `matches_glob`.
pub open spec fn lookup_step(e: SpecEngine, kind: u8, args: Seq<SpecTerm>, lower: Lower) -> spec_fn(SBind) -> SpecBinds {
    if kind == 0 {
        count_step(args, lower)
    } else if kind == 1 {
        minmax_step(true, args, lower)
    } else if kind == 2 {
        minmax_step(false, args, lower)
    } else {
        glob_step(e, args, lower)
    }
}

fn lookup_binding(eng: &Engine, lf: usize, memo: &mut Vec<(String, Vec<Fact>)>, kind: u8, args: &Vec<Term>, b: &Binding) -> (r: Result<Vec<Binding>, EvalError>)
    requires
        memo_ok(old(memo)@, eng@, lf as nat),
        kind <= 3,
        kind == 1 || kind == 2 ==> args@.len() == 3,
        kind == 0 || kind == 3 ==> args@.len() == 2,
    ensures
        memo_ok(final(memo)@, eng@, lf as nat),
        binds_res(r, lookup_step(eng@, kind, terms_view(args@), lower_at(eng@, lf as nat))(b@)),
    decreases lf + 1, 7nat,
{
    if kind == 0 {
        count_binding(eng, lf, memo, args, b)
    } else if kind == 1 {
        minmax_binding(eng, lf, memo, true, args, b)
    } else if kind == 2 {
        minmax_binding(eng, lf, memo, false, args, b)
    } else {
        glob_binding(eng, lf, memo, args, b)
    }
}

fn lookup_all(eng: &Engine, lf: usize, memo: &mut Vec<(String, Vec<Fact>)>, kind: u8, args: &Vec<Term>, bs: &Vec<Binding>) -> (r: Result<Vec<Binding>, EvalError>)
    requires
        memo_ok(old(memo)@, eng@, lf as nat),
        kind <= 3,
        kind == 1 || kind == 2 ==> args@.len() == 3,
        kind == 0 || kind == 3 ==> args@.len() == 2,
    ensures
        memo_ok(final(memo)@, eng@, lf as nat),
        binds_res(r, over_binds(lookup_step(eng@, kind, terms_view(args@), lower_at(eng@, lf as nat)), binds_view(bs@))),
    decreases lf + 1, 8nat,
{
    let ghost f = lookup_step(eng@, kind, terms_view(args@), lower_at(eng@, lf as nat));
    let ghost all = binds_view(bs@);
    let mut out: Vec<Binding> = Vec::new();
    let mut i: usize = 0;
    assert(all.take(0) =~= Seq::<SBind>::empty());
    assert(binds_view(out@) =~= Seq::<SBind>::empty());
    while i < bs.len()
        invariant
            i <= bs@.len(),
            all == binds_view(bs@),
            kind <= 3,
            kind == 1 || kind == 2 ==> args@.len() == 3,
            kind == 0 || kind == 3 ==> args@.len() == 2,
            memo_ok(memo@, eng@, lf as nat),
            f == lookup_step(eng@, kind, terms_view(args@), lower_at(eng@, lf as nat)),
            over_binds(f, all.take(i as int)) == Ok::<Seq<SBind>, SpecEvalError>(binds_view(out@)),
        decreases bs@.len() - i,
    {
        let b = &bs[i];
        proof { lemma_over_binds_push(f, all.take(i as int), b@); }
        assert(all.take(i + 1) =~= all.take(i as int).push(b@));
        match lookup_binding(eng, lf, memo, kind, args, b) {
            Ok(mut more) => {
                let ghost prev = binds_view(out@);
                let ghost add = binds_view(more@);
                out.append(&mut more);
                assert(binds_view(out@) =~= prev + add);
            },
            Err(e) => {
                proof { lemma_over_binds_err(f, all, i + 1); }
                return Err(e);
            },
        }
        i = i + 1;
    }
    assert(all.take(i as int) =~= all);
    Ok(out)
}

fn invalid_error(msg: &str) -> (r: EvalError)
    ensures
        r@ == SpecEvalError::Invalid(msg@),
{
    EvalError::Invalid(str_to_string(msg))
}

/// What one body predicate gives for the bindings.
fn eval_atom_exec(
    eng: &Engine,
    lf: usize,
    memo: &mut Vec<(String, Vec<Fact>)>,
    scc: &Vec<String>,
    db: &Vec<Vec<Fact>>,
    expand: bool,
    atom: &Predicate,
    bs: Vec<Binding>,
) -> (r: Result<Vec<Binding>, EvalError>)
    requires
        memo_ok(old(memo)@, eng@, lf as nat),
        db@.len() == scc@.len(),
    ensures
        memo_ok(final(memo)@, eng@, lf as nat),
        binds_res(r, eval_atom(eng@, strings_view(scc@), dbs_view(db@), lower_at(eng@, lf as nat), expand, atom@, binds_view(bs@))),
    decreases lf + 1, 9nat,
{
    proof { reveal(eval_atom); }
    let name = atom.name.as_str();
    if str_starts_with(name, "not:") {
        proof { reveal_strlit("not:"); }
        let cs = crate::text::str_chars(name);
        let inner = crate::text::string_from_range(cs.as_slice(), 4, cs.len());
        assert(cs@.subrange(4, cs@.len() as int) =~= atom@.name.skip(4));
        let fs = match lower_exec(eng, lf, memo, inner.as_str()) {
            Ok(fs) => fs,
            Err(e) => {
                return Err(e);
            },
        };
        return Ok(negate_exec(&bs, &atom.args, &fs));
    }
    if is_pure_builtin(name) {
        return eval_pure_builtin(atom, bs);
    }
    if str_eq(name, "matches_glob") {
        if atom.args.len() != 2 {
            return Err(EvalError::Invalid(arity_error(name, 2, atom.args.len())));
        }
        return lookup_all(eng, lf, memo, 3, &atom.args, &bs);
    }
    if str_eq(name, "resolve") {
        if atom.args.len() != 2 {
            return Err(EvalError::Invalid(arity_error(name, 2, atom.args.len())));
        }
        return resolve_all(eng, &atom.args, &bs);
    }
    if str_eq(name, "count") {
        if atom.args.len() != 2 {
            return Err(EvalError::Invalid(arity_error(name, 2, atom.args.len())));
        }
        return lookup_all(eng, lf, memo, 0, &atom.args, &bs);
    }
    if str_eq(name, "min") || str_eq(name, "max") {
        if atom.args.len() != 3 {
            return Err(EvalError::Invalid(arity_error(name, 3, atom.args.len())));
        }
        let kind: u8 = if str_eq(name, "min") { 1 } else { 2 };
        return lookup_all(eng, lf, memo, kind, &atom.args, &bs);
    }
    if str_eq(name, "source_location") {
        if atom.args.len() != 3 {
            return Err(EvalError::Invalid(arity_error(name, 3, atom.args.len())));
        }
        let fs = location_facts_exec(eng);
        return Ok(join_exec(&bs, &atom.args, &fs));
    }
    let rules = eng.rule_list();
    let rs = rules_for_exec(rules, name);
    let pattern = if expand && rs.len() > 0 {
        let first = rs[0];
        padded_exec(&atom.args, rules[first].head.args.len())
    } else {
        let mut out: Vec<Term> = Vec::new();
        let mut i: usize = 0;
        while i < atom.args.len()
            invariant
                i <= atom.args@.len(),
                terms_view(out@) == terms_view(atom.args@.take(i as int)),
            decreases atom.args@.len() - i,
        {
            let t = copy_term(&atom.args[i]);
            let ghost prev = out@;
            out.push(t);
            i = i + 1;
            assert(terms_view(out@) =~= terms_view(prev).push(t@));
            assert(terms_view(atom.args@.take(i as int)) =~= terms_view(atom.args@.take(i - 1)).push(atom.args@[i - 1]@));
        }
        assert(atom.args@.take(i as int) =~= atom.args@);
        out
    };
    match name_position(scc, name) {
        Some(j) => Ok(join_exec(&bs, &pattern, &db[j])),
        None => {
            let fs = match lower_exec(eng, lf, memo, name) {
                Ok(fs) => fs,
                Err(e) => {
                    return Err(e);
                },
            };
            Ok(join_exec(&bs, &pattern, &fs))
        },
    }
}

/// The bindings that the body predicates `body[i..]` give, starting from `bs`.
fn eval_body_exec(
    eng: &Engine,
    lf: usize,
    memo: &mut Vec<(String, Vec<Fact>)>,
    scc: &Vec<String>,
    db: &Vec<Vec<Fact>>,
    expand: bool,
    body: &Vec<Predicate>,
    bs: Vec<Binding>,
) -> (r: Result<Vec<Binding>, EvalError>)
    requires
        memo_ok(old(memo)@, eng@, lf as nat),
        db@.len() == scc@.len(),
    ensures
        memo_ok(final(memo)@, eng@, lf as nat),
        binds_res(r, eval_body(eng@, strings_view(scc@), dbs_view(db@), lower_at(eng@, lf as nat), expand, preds_view(body@), 0, binds_view(bs@))),
    decreases lf + 1, 10nat,
{
    let ghost bv = preds_view(body@);
    let ghost start = binds_view(bs@);
    let ghost lower = lower_at(eng@, lf as nat);
    let mut cur = bs;
    let mut i: usize = 0;
    while i < body.len() && cur.len() > 0
        invariant
            i <= body@.len(),
            bv == preds_view(body@),
            db@.len() == scc@.len(),
            memo_ok(memo@, eng@, lf as nat),
            lower == lower_at(eng@, lf as nat),
            start == binds_view(bs@),
            eval_body(eng@, strings_view(scc@), dbs_view(db@), lower, expand, bv, 0, start)
                == eval_body(eng@, strings_view(scc@), dbs_view(db@), lower, expand, bv, i as int, binds_view(cur@)),
        decreases body@.len() - i,
    {
        assert(bv[i as int] == body@[i as int]@);
        let ghost cv = binds_view(cur@);
        match eval_atom_exec(eng, lf, memo, scc, db, expand, &body[i], cur) {
            Ok(next) => {
                cur = next;
            },
            Err(e) => {
                assert(eval_body(eng@, strings_view(scc@), dbs_view(db@), lower, expand, bv, i as int, cv) == Err::<Seq<SBind>, SpecEvalError>(e@));
                return Err(e);
            },
        }
        i = i + 1;
    }
    Ok(cur)
}

/// The facts that a rule derives from the binding `init`.
pub(crate) fn eval_rule_exec(
    eng: &Engine,
    lf: usize,
    memo: &mut Vec<(String, Vec<Fact>)>,
    scc: &Vec<String>,
    db: &Vec<Vec<Fact>>,
    expand: bool,
    rule: &Rule,
    init: Binding,
) -> (r: Result<Vec<Fact>, EvalError>)
    requires
        memo_ok(old(memo)@, eng@, lf as nat),
        db@.len() == scc@.len(),
    ensures
        memo_ok(final(memo)@, eng@, lf as nat),
        facts_res(r, eval_rule(eng@, strings_view(scc@), dbs_view(db@), lower_at(eng@, lf as nat), expand, rule@, init@)),
    decreases lf + 1, 11nat,
{
    proof { reveal(eval_rule); }
    let mut start: Vec<Binding> = Vec::new();
    let ghost iv = init@;
    start.push(init);
    assert(binds_view(start@) =~= seq![iv]);
    let bs = match eval_body_exec(eng, lf, memo, scc, db, expand, &rule.body, start) {
        Ok(bs) => bs,
        Err(e) => {
            return Err(e);
        },
    };
    let ghost bsv = binds_view(bs@);
    let mut out: Vec<Fact> = Vec::new();
    let mut k: usize = 0;
    while k < bs.len()
        invariant
            k <= bs@.len(),
            bsv == binds_view(bs@),
            facts_view(out@) == bsv.take(k as int).map_values(|b: SBind| head_fact(rule@, b)),
        decreases bs@.len() - k,
    {
        let args = project_to_head(&rule.head.args, &bs[k]);
        let f = Fact { predicate: copy_string(&rule.head.name), args };
        assert(f@ == head_fact(rule@, bsv[k as int]));
        let ghost prev = out@;
        out.push(f);
        k = k + 1;
        assert(facts_view(out@) =~= facts_view(prev).push(f@));
        assert(bsv.take(k as int).map_values(|b: SBind| head_fact(rule@, b))
            =~= bsv.take(k - 1).map_values(|b: SBind| head_fact(rule@, b)).push(head_fact(rule@, bsv[k - 1])));
    }
    assert(bsv.take(k as int) =~= bsv);
    Ok(out)
}

/// The facts of the group after each rule at the positions `first` was applied once.
fn first_phase_exec(
    eng: &Engine,
    lf: usize,
    memo: &mut Vec<(String, Vec<Fact>)>,
    scc: &Vec<String>,
    db: Vec<Vec<Fact>>,
    first: &Vec<usize>,
) -> (r: Result<Vec<Vec<Fact>>, EvalError>)
    requires
        memo_ok(old(memo)@, eng@, lf as nat),
        db@.len() == scc@.len(),
        indices_ok(first@, eng@.rules.len()),
    ensures
        memo_ok(final(memo)@, eng@, lf as nat),
        db_res(r, first_phase(eng@, strings_view(scc@), lower_at(eng@, lf as nat), dbs_view(db@), picked(eng@.rules, first@), first@.len() as int)),
        r matches Ok(d) ==> d@.len() == scc@.len(),
    decreases lf + 1, 12nat,
{
    let rules = eng.rule_list();
    let ghost rs = picked(eng@.rules, first@);
    let ghost lower = lower_at(eng@, lf as nat);
    let ghost db0 = dbs_view(db@);
    let empty_names: Vec<String> = Vec::new();
    let empty_db: Vec<Vec<Fact>> = Vec::new();
    assert(strings_view(empty_names@) =~= Seq::<Seq<char>>::empty());
    assert(dbs_view(empty_db@) =~= Seq::<Seq<SpecFact>>::empty());
    let mut cur = db;
    let mut k: usize = 0;
    while k < first.len()
        invariant
            k <= first@.len(),
            rs == picked(eng@.rules, first@),
            rules_view(rules@) == eng@.rules,
            indices_ok(first@, eng@.rules.len()),
            lower == lower_at(eng@, lf as nat),
            cur@.len() == scc@.len(),
            strings_view(empty_names@) == Seq::<Seq<char>>::empty(),
            dbs_view(empty_db@) == Seq::<Seq<SpecFact>>::empty(),
            empty_db@.len() == empty_names@.len(),
            memo_ok(memo@, eng@, lf as nat),
            db0 == dbs_view(db@),
            first_phase(eng@, strings_view(scc@), lower, db0, rs, k as int) == Ok::<Seq<Seq<SpecFact>>, SpecEvalError>(dbs_view(cur@)),
        decreases first@.len() - k,
    {
        let ri = first[k];
        assert(rs[k as int] == rules@[ri as int]@);
        let init = Binding::new();
        let fs = match eval_rule_exec(eng, lf, memo, &empty_names, &empty_db, true, &rules[ri], init) {
            Ok(fs) => fs,
            Err(e) => {
                assert(first_phase(eng@, strings_view(scc@), lower, db0, rs, k as int + 1) == Err::<Seq<Seq<SpecFact>>, SpecEvalError>(e@));
                proof { lemma_first_phase_err(eng@, strings_view(scc@), lower, db0, rs, k as int + 1, first@.len() as int); }
                return Err(e);
            },
        };
        match name_position(scc, rules[ri].head.name.as_str()) {
            Some(j) => {
                let ghost before = dbs_view(cur@);
                let mut g = cur.remove(j);
                add_new_exec(&mut g, &fs);
                let ghost gv = facts_view(g@);
                cur.insert(j, g);
                assert(dbs_view(cur@) =~= before.update(j as int, gv));
            },
            None => {},
        }
        k = k + 1;
    }
    Ok(cur)
}

proof fn lemma_first_phase_err(e: SpecEngine, scc: Seq<Seq<char>>, lower: Lower, db: Seq<Seq<SpecFact>>, rs: Seq<SpecRule>, n: int, m: int)
    requires
        0 <= n <= m,
        first_phase(e, scc, lower, db, rs, n) is Err,
    ensures
        first_phase(e, scc, lower, db, rs, m) == first_phase(e, scc, lower, db, rs, n),
    decreases m - n,
{
    if n < m {
        lemma_first_phase_err(e, scc, lower, db, rs, n, m - 1);
    }
}

proof fn lemma_round_err(e: SpecEngine, scc: Seq<Seq<char>>, lower: Lower, db: Seq<Seq<SpecFact>>, rs: Seq<SpecRule>, n: int, m: int)
    requires
        0 <= n <= m,
        round(e, scc, lower, db, rs, n) is Err,
    ensures
        round(e, scc, lower, db, rs, m) == round(e, scc, lower, db, rs, n),
    decreases m - n,
{
    if n < m {
        lemma_round_err(e, scc, lower, db, rs, n, m - 1);
    }
}

/// The facts new in one round of the rules at the positions `rest`.
fn round_exec(
    eng: &Engine,
    lf: usize,
    memo: &mut Vec<(String, Vec<Fact>)>,
    scc: &Vec<String>,
    db: &Vec<Vec<Fact>>,
    rest: &Vec<usize>,
) -> (r: Result<Vec<Vec<Fact>>, EvalError>)
    requires
        memo_ok(old(memo)@, eng@, lf as nat),
        db@.len() == scc@.len(),
        indices_ok(rest@, eng@.rules.len()),
    ensures
        memo_ok(final(memo)@, eng@, lf as nat),
        db_res(r, round(eng@, strings_view(scc@), lower_at(eng@, lf as nat), dbs_view(db@), picked(eng@.rules, rest@), rest@.len() as int)),
        r matches Ok(d) ==> d@.len() == scc@.len(),
    decreases lf + 1, 12nat,
{
    let rules = eng.rule_list();
    let ghost rs = picked(eng@.rules, rest@);
    let ghost lower = lower_at(eng@, lf as nat);
    let mut new: Vec<Vec<Fact>> = Vec::new();
    let mut j: usize = 0;
    while j < scc.len()
        invariant
            j <= scc@.len(),
            dbs_view(new@) == Seq::new(j as nat, |i: int| Seq::<SpecFact>::empty()),
        decreases scc@.len() - j,
    {
        let ghost prev = new@;
        let e: Vec<Fact> = Vec::new();
        assert(facts_view(e@) =~= Seq::<SpecFact>::empty());
        new.push(e);
        j = j + 1;
        assert(dbs_view(new@) =~= dbs_view(prev).push(Seq::<SpecFact>::empty()));
        assert(dbs_view(new@) =~= Seq::new(j as nat, |i: int| Seq::<SpecFact>::empty()));
    }
    let mut k: usize = 0;
    while k < rest.len()
        invariant
            k <= rest@.len(),
            rs == picked(eng@.rules, rest@),
            rules_view(rules@) == eng@.rules,
            indices_ok(rest@, eng@.rules.len()),
            lower == lower_at(eng@, lf as nat),
            new@.len() == scc@.len(),
            db@.len() == scc@.len(),
            memo_ok(memo@, eng@, lf as nat),
            round(eng@, strings_view(scc@), lower, dbs_view(db@), rs, k as int) == Ok::<Seq<Seq<SpecFact>>, SpecEvalError>(dbs_view(new@)),
        decreases rest@.len() - k,
    {
        let ri = rest[k];
        assert(rs[k as int] == rules@[ri as int]@);
        let init = Binding::new();
        let fs = match eval_rule_exec(eng, lf, memo, scc, db, false, &rules[ri], init) {
            Ok(fs) => fs,
            Err(e) => {
                proof { lemma_round_err(eng@, strings_view(scc@), lower, dbs_view(db@), rs, k as int + 1, rest@.len() as int); }
                return Err(e);
            },
        };
        match name_position(scc, rules[ri].head.name.as_str()) {
            Some(j) => {
                let ghost before = dbs_view(new@);
                let mut g = new.remove(j);
                add_fresh_exec(&db[j], &mut g, &fs);
                let ghost gv = facts_view(g@);
                new.insert(j, g);
                assert(dbs_view(new@) =~= before.update(j as int, gv));
            },
            None => {},
        }
        k = k + 1;
    }
    Ok(new)
}

/// The limit on rounds: the first argument of the first `max_iterations` fact, or 1000.
fn max_rounds_exec(eng: &Engine) -> (r: usize)
    ensures
        r as nat == max_rounds(eng@),
{
    let fs = base_copy(eng, "max_iterations");
    if fs.len() > 0 && fs[0].args.len() > 0 {
        assert(facts_view(fs@)[0].args[0] == fs@[0].args@[0]@);
        match &fs[0].args[0] {
            Value::Integer(n) => #[verifier::truncate] (*n as usize),
            _ => 1000,
        }
    } else {
        1000
    }
}

/// The rounds of evaluation until no new fact appears.
fn rounds_exec(
    eng: &Engine,
    lf: usize,
    memo: &mut Vec<(String, Vec<Fact>)>,
    scc: &Vec<String>,
    rest: &Vec<usize>,
    db: Vec<Vec<Fact>>,
    changed: bool,
    max: usize,
) -> (r: Result<Vec<Vec<Fact>>, EvalError>)
    requires
        memo_ok(old(memo)@, eng@, lf as nat),
        db@.len() == scc@.len(),
        indices_ok(rest@, eng@.rules.len()),
    ensures
        memo_ok(final(memo)@, eng@, lf as nat),
        db_res(r, rounds(eng@, strings_view(scc@), lower_at(eng@, lf as nat), picked(eng@.rules, rest@), dbs_view(db@), changed, 0, max as nat)),
        r matches Ok(d) ==> d@.len() == scc@.len(),
    decreases lf + 1, 13nat,
{
    let ghost rs = picked(eng@.rules, rest@);
    let ghost lower = lower_at(eng@, lf as nat);
    let ghost goal = rounds(eng@, strings_view(scc@), lower, rs, dbs_view(db@), changed, 0, max as nat);
    let mut cur = db;
    let mut ch = changed;
    let mut k: usize = 0;
    loop
        invariant
            k <= max,
            rs == picked(eng@.rules, rest@),
            lower == lower_at(eng@, lf as nat),
            indices_ok(rest@, eng@.rules.len()),
            cur@.len() == scc@.len(),
            memo_ok(memo@, eng@, lf as nat),
            goal == rounds(eng@, strings_view(scc@), lower, rs, dbs_view(db@), changed, 0, max as nat),
            goal == rounds(eng@, strings_view(scc@), lower, rs, dbs_view(cur@), ch, k as nat, max as nat),
        decreases max - k,
    {
        assert(rs.len() == rest@.len());
        if k >= max || !ch || rest.len() == 0 {
            return Ok(cur);
        }
        let new = match round_exec(eng, lf, memo, scc, &cur, rest) {
            Ok(n) => n,
            Err(e) => {
                assert(rounds(eng@, strings_view(scc@), lower, rs, dbs_view(cur@), ch, k as nat, max as nat) == Err::<Seq<Seq<SpecFact>>, SpecEvalError>(e@));
                return Err(e);
            },
        };
        if k + 1 == max {
            return Err(invalid_error("Error: fixpoint evaluation exceeded its iteration limit"));
        }
        let ghost cv = dbs_view(cur@);
        let ghost nv = dbs_view(new@);
        let mut next: Vec<Vec<Fact>> = Vec::new();
        let mut j: usize = 0;
        while j < cur.len()
            invariant
                j <= cur@.len(),
                cur@.len() == new@.len(),
                cv == dbs_view(cur@),
                nv == dbs_view(new@),
                dbs_view(next@) == Seq::new(j as nat, |i: int| cv[i] + nv[i]),
            decreases cur@.len() - j,
        {
            let mut g = copy_facts(&cur[j]);
            let mut extra = copy_facts(&new[j]);
            let ghost gv = facts_view(g@);
            let ghost ev = facts_view(extra@);
            g.append(&mut extra);
            assert(facts_view(g@) =~= gv + ev);
            let ghost prev = next@;
            let ghost gv2 = facts_view(g@);
            next.push(g);
            j = j + 1;
            assert(dbs_view(next@) =~= dbs_view(prev).push(gv2));
            assert(gv2 == cv[j - 1] + nv[j - 1]);
            assert(dbs_view(next@) =~= Seq::new(j as nat, |i: int| cv[i] + nv[i]));
        }
        assert(dbs_view(next@) =~= Seq::new(cv.len(), |i: int| cv[i] + nv[i]));
        let any = any_facts_exec(&new);
        cur = next;
        ch = any;
        k = k + 1;
    }
}

/// All facts of `p`, computed with `fuel` units of fuel (see `derived_facts`).
pub fn derive_exec(eng: &Engine, p: &str, fuel: usize) -> (r: Result<Vec<Fact>, EvalError>)
    ensures
        facts_res(r, derived_facts(eng@, p@, fuel as nat)),
    decreases fuel, 20nat,
{
    let rules = eng.rule_list();
    if !has_rules_exec(rules, p) || fuel == 0 {
        return Ok(base_copy(eng, p));
    }
    let lf = fuel - 1;
    let ghost lower = lower_at(eng@, lf as nat);
    let mut memo: Vec<(String, Vec<Fact>)> = Vec::new();
    let scc = group_of_exec(rules, p);
    let ghost sv = strings_view(scc@);
    let mut db: Vec<Vec<Fact>> = Vec::new();
    let mut j: usize = 0;
    while j < scc.len()
        invariant
            j <= scc@.len(),
            sv == strings_view(scc@),
            dbs_view(db@) == sv.take(j as int).map_values(|q: Seq<char>| base_facts(eng@, q)),
        decreases scc@.len() - j,
    {
        let g = base_copy(eng, scc[j].as_str());
        let ghost prev = db@;
        db.push(g);
        j = j + 1;
        assert(dbs_view(db@) =~= dbs_view(prev).push(facts_view(g@)));
        assert(sv.take(j as int).map_values(|q: Seq<char>| base_facts(eng@, q))
            =~= sv.take(j - 1).map_values(|q: Seq<char>| base_facts(eng@, q)).push(base_facts(eng@, sv[j - 1])));
    }
    assert(sv.take(j as int) =~= sv);
    let ghost e = eng@;
    let ghost db0 = sv.map_values(|q: Seq<char>| base_facts(e, q));
    assert(dbs_view(db@) == db0);
    let rs = group_rules_exec(rules, &scc);
    let first = rules_using_exec(rules, &rs, &scc, false);
    let rest = rules_using_exec(rules, &rs, &scc, true);
    let ghost grs = group_rules(e.rules, sv, sv.len() as int);
    let ghost fr = rules_using(grs, sv, false);
    let ghost rr = rules_using(grs, sv, true);
    assert(picked(e.rules, first@) == fr);
    assert(picked(e.rules, rest@) == rr);
    let db1 = match first_phase_exec(eng, lf, &mut memo, &scc, db, &first) {
        Ok(d) => d,
        Err(e) => {
            assert(first_phase(eng@, sv, lower, db0, fr, fr.len() as int) == Err::<Seq<Seq<SpecFact>>, SpecEvalError>(e@));
            return Err(e);
        },
    };
    assert(first_phase(e, sv, lower, db0, fr, fr.len() as int) == Ok::<Seq<Seq<SpecFact>>, SpecEvalError>(dbs_view(db1@)));
    let changed = any_facts_exec(&db1);
    let max = max_rounds_exec(eng);
    let ghost d1 = dbs_view(db1@);
    assert(changed == any_facts(d1));
    assert(max as nat == max_rounds(e));
    let db2 = match rounds_exec(eng, lf, &mut memo, &scc, &rest, db1, changed, max) {
        Ok(d) => d,
        Err(err) => {
            assert(rounds(e, sv, lower, rr, d1, any_facts(d1), 0, max_rounds(e)) == Err::<Seq<Seq<SpecFact>>, SpecEvalError>(err@));
            return Err(err);
        },
    };
    assert(rounds(e, sv, lower, rr, d1, any_facts(d1), 0, max_rounds(e)) == Ok::<Seq<Seq<SpecFact>>, SpecEvalError>(dbs_view(db2@)));
    assert(db2@.len() >= 1);
    assert(dbs_view(db2@)[0] == facts_view(db2@[0]@));
    Ok(copy_facts(&db2[0]))
}

} // verus!
