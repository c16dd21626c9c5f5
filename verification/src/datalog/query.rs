use vstd::prelude::*;
use crate::text::{str_eq, str_to_string, i64_value, parse_i64};
use crate::datalog::types::{Value, SpecValue, Fact, SpecFact, Term, SpecTerm, SpecRule, Rule, facts_view, rules_view, terms_view, values_view, copy_string, copy_value, value_eq};
use crate::datalog::binding::{Binding, SBind};
use crate::datalog::builtins::{SpecEvalError, EvalError};
use crate::datalog::store::{SpecEngine, strings_view, key_index, base_facts, rules_for, has_rules, materialized, copy_fact, group_index};
use crate::datalog::semantics::{SpecFacts, derived_facts, eval_rule, full_facts, query_fuel, with_first, string_at, strings_at};
use crate::datalog::eval::{dbs_view, facts_res, memo_ok, base_copy, derive_exec, eval_rule_exec, rules_for_exec, picked, indices_ok, string_at_exec, strings_at_exec, seq_contains_string, facts_contain, with_first_exec};
use crate::datalog::engine::{Engine, inserted};

verus! {

/// The filters of a query: per argument position, the text it must have, if any.
pub open spec fn filters_view(fs: Seq<Option<&str>>) -> Seq<Option<Seq<char>>> {
    fs.map_values(|o: Option<&str>| match o {
        Some(s) => Some(s@),
        None => None,
    })
}

/// Whether every filter is empty.
pub open spec fn all_none(filters: Seq<Option<Seq<char>>>) -> bool {
    forall|i: int| 0 <= i < filters.len() ==> #[trigger] filters[i] is None
}

/// Whether a fact passes one filter: a string argument must equal it, an integer argument
/// must be the number it writes, and other arguments pass.
pub open spec fn passes_one(f: SpecFact, i: int, fv: Seq<char>) -> bool {
    i < f.args.len() && match f.args[i] {
        SpecValue::Str(s) => s == fv,
        SpecValue::Int(n) => i64_value(fv) == Some(n),
        _ => true,
    }
}

/// Whether a fact passes all the filters.
pub open spec fn passes(f: SpecFact, filters: Seq<Option<Seq<char>>>) -> bool {
    forall|i: int| 0 <= i < filters.len() ==> match #[trigger] filters[i] {
        Some(fv) => passes_one(f, i, fv),
        None => true,
    }
}

/// The facts that pass the filters, in order.
pub open spec fn keep_passing(fs: Seq<SpecFact>, filters: Seq<Option<Seq<char>>>) -> Seq<SpecFact>
    decreases fs.len(),
{
    if fs.len() == 0 {
        Seq::empty()
    } else {
        let prev = keep_passing(fs.drop_last(), filters);
        if passes(fs.last(), filters) { prev.push(fs.last()) } else { prev }
    }
}

/// The facts that the filters let through (all of them when no filter is set).
pub open spec fn filtered(fs: Seq<SpecFact>, filters: Seq<Option<Seq<char>>>) -> Seq<SpecFact> {
    if all_none(filters) { fs } else { keep_passing(fs, filters) }
}

/// The base facts of `p` that a lookup by the first filter finds: those whose first argument
/// is that string, or all of them when the first filter is not set.
pub open spec fn indexed_base(e: SpecEngine, p: Seq<char>, filters: Seq<Option<Seq<char>>>) -> Seq<SpecFact> {
    if filters.len() > 0 && filters[0] is Some {
        with_first(base_facts(e, p), filters[0]->0)
    } else {
        base_facts(e, p)
    }
}

/// `s` with each element kept only at its first occurrence.
pub open spec fn dedupe(s: Seq<SpecFact>) -> Seq<SpecFact>
    decreases s.len(),
{
    if s.len() == 0 {
        Seq::empty()
    } else {
        let prev = dedupe(s.drop_last());
        if prev.contains(s.last()) { prev } else { prev.push(s.last()) }
    }
}

/// The binding of the head variables of the first rule to the filters at their positions.
pub open spec fn filter_binding(head: Seq<SpecTerm>, filters: Seq<Option<Seq<char>>>, n: int) -> SBind
    decreases n,
{
    if n <= 0 {
        Map::empty()
    } else {
        let prev = filter_binding(head, filters, n - 1);
        let i = n - 1;
        match filters[i] {
            Some(fv) => if i < head.len() {
                match head[i] {
                    SpecTerm::Var(v) => prev.insert(v, SpecValue::Str(fv)),
                    _ => prev,
                }
            } else {
                prev
            },
            None => prev,
        }
    }
}

/// The facts that the rules `rs[..n]` derive from the binding `init`, rule after rule.
pub open spec fn rule_results(e: SpecEngine, rs: Seq<SpecRule>, init: SBind, n: int) -> SpecFacts
    decreases n,
{
    if n <= 0 {
        Ok(Seq::empty())
    } else {
        match rule_results(e, rs, init, n - 1) {
            Err(err) => Err(err),
            Ok(prev) => match eval_rule(e, Seq::empty(), Seq::empty(), full_facts(e), true, rs[n - 1], init) {
                Err(err) => Err(err),
                Ok(fs) => Ok(prev + fs),
            },
        }
    }
}

/// Whether a rule is the base case of a transitive closure: one body predicate of two arguments.
pub open spec fn base_shape(r: SpecRule) -> bool {
    r.body.len() == 1 && r.body[0].name != r.head.name && r.body[0].args.len() == 2
}

/// Whether a rule is the recursive case of a transitive closure: two body predicates, one of
/// them the head's.
pub open spec fn rec_shape(r: SpecRule) -> bool {
    r.body.len() == 2 && (r.body[0].name == r.head.name || r.body[1].name == r.head.name)
}

/// Whether `p` is defined as a transitive closure: two rules, a base case and a recursive case.
pub open spec fn is_tc(rules: Seq<SpecRule>, p: Seq<char>) -> bool {
    let rs = rules_for(rules, p);
    rs.len() == 2 && (base_shape(rs[0]) || base_shape(rs[1])) && (rec_shape(rs[0]) || rec_shape(rs[1]))
}

/// The predicate of the body of the first rule with one body predicate, or the empty name.
pub open spec fn edge_pred(rs: Seq<SpecRule>) -> Seq<char>
    decreases rs.len(),
{
    if rs.len() == 0 {
        Seq::empty()
    } else if rs[0].body.len() == 1 {
        rs[0].body[0].name
    } else {
        edge_pred(rs.skip(1))
    }
}

/// The edges that facts of two string arguments (or more) stand for, in order.
pub open spec fn tc_edges(fs: Seq<SpecFact>) -> Seq<(Seq<char>, Seq<char>)>
    decreases fs.len(),
{
    if fs.len() == 0 {
        Seq::empty()
    } else {
        let prev = tc_edges(fs.drop_last());
        let f = fs.last();
        match (string_at(f, 0), string_at(f, 1)) {
            (Some(a), Some(b)) => prev.push((a, b)),
            _ => prev,
        }
    }
}

/// Whether `n` is an end of some edge.
pub open spec fn has_node(es: Seq<(Seq<char>, Seq<char>)>, n: Seq<char>) -> bool {
    exists|i: int| #![trigger es[i]] 0 <= i < es.len() && (es[i].0 == n || es[i].1 == n)
}

/// Visiting `node`: each edge of `es[..k]` from it to a node not yet visited marks that node
/// visited, and adds it to the output and to the queue.
pub open spec fn visit(
    es: Seq<(Seq<char>, Seq<char>)>,
    node: Seq<char>,
    k: int,
    st: (Seq<Seq<char>>, Seq<Seq<char>>, Seq<Seq<char>>),
) -> (Seq<Seq<char>>, Seq<Seq<char>>, Seq<Seq<char>>)
    decreases k,
{
    if k <= 0 {
        st
    } else {
        let (v, o, q) = visit(es, node, k - 1, st);
        let (a, b) = es[k - 1];
        if a == node && !v.contains(b) { (v.push(b), o.push(b), q.push(b)) } else { (v, o, q) }
    }
}

/// Breadth-first search: the nodes reached, in the order in which they are first reached.
pub open spec fn bfs(
    es: Seq<(Seq<char>, Seq<char>)>,
    queue: Seq<Seq<char>>,
    visited: Seq<Seq<char>>,
    out: Seq<Seq<char>>,
    fuel: nat,
) -> Seq<Seq<char>>
    decreases fuel,
{
    if fuel == 0 || queue.len() == 0 {
        out
    } else {
        let (v, o, q) = visit(es, queue[0], es.len() as int, (visited, out, queue.skip(1)));
        bfs(es, q, v, o, (fuel - 1) as nat)
    }
}

pub open spec fn tc_fact(p: Seq<char>, start: Seq<char>, n: Seq<char>) -> SpecFact {
    SpecFact { predicate: p, args: seq![SpecValue::Str(start), SpecValue::Str(n)] }
}

/// The facts `p(start, n)` for each node `n` that the edges reach from `start` in one or more
/// steps (`start` itself when it lies on a cycle), in the order in which they are first reached.
pub open spec fn tc_facts(e: SpecEngine, p: Seq<char>, start: Seq<char>) -> Seq<SpecFact> {
    let es = tc_edges(base_facts(e, edge_pred(rules_for(e.rules, p))));
    if !has_node(es, start) {
        Seq::empty()
    } else {
        bfs(es, seq![start], Seq::empty(), Seq::empty(), (es.len() + 1) as nat).map_values(|n: Seq<char>| tc_fact(p, start, n))
    }
}

/// The fact `p(start, n)` for a node `n` of any kind.
pub open spec fn reach_fact(p: Seq<char>, start: Seq<char>, n: SpecValue) -> SpecFact {
    SpecFact { predicate: p, args: seq![SpecValue::Str(start), n] }
}

/// Stepping through the facts `fs[..k]` from the string node `node`: each fact of two
/// arguments whose first is `node` and whose second was not visited marks that value visited,
/// adds `p(start, value)` to the batch, and queues the value.
pub open spec fn iter_visit(
    fs: Seq<SpecFact>,
    p: Seq<char>,
    start: Seq<char>,
    node: Seq<char>,
    k: int,
    st: (Seq<SpecValue>, Seq<SpecFact>, Seq<SpecValue>),
) -> (Seq<SpecValue>, Seq<SpecFact>, Seq<SpecValue>)
    decreases k,
{
    if k <= 0 {
        st
    } else {
        let (v, b, q) = iter_visit(fs, p, start, node, k - 1, st);
        let f = fs[k - 1];
        if f.args.len() == 2 && string_at(f, 0) == Some(node) && !v.contains(f.args[1]) {
            (v.push(f.args[1]), b.push(reach_fact(p, start, f.args[1])), q.push(f.args[1]))
        } else {
            (v, b, q)
        }
    }
}

/// The order in which the closure iterator hands out its facts: nodes are taken from the
/// queue in turn, only string nodes are followed, and the batch that a node gives comes out
/// last found first.
pub open spec fn iter_bfs(
    fs: Seq<SpecFact>,
    p: Seq<char>,
    start: Seq<char>,
    queue: Seq<SpecValue>,
    visited: Seq<SpecValue>,
    out: Seq<SpecFact>,
    fuel: nat,
) -> Seq<SpecFact>
    decreases fuel,
{
    if fuel == 0 || queue.len() == 0 {
        out
    } else {
        match queue[0] {
            SpecValue::Str(node) => {
                let (v, b, q) = iter_visit(fs, p, start, node, fs.len() as int, (visited, Seq::empty(), queue.skip(1)));
                iter_bfs(fs, p, start, q, v, out + b.reverse(), (fuel - 1) as nat)
            },
            _ => iter_bfs(fs, p, start, queue.skip(1), visited, out, (fuel - 1) as nat),
        }
    }
}

/// What the closure iterator of `p` from `start` hands out, in order.
pub open spec fn tc_iter_facts(e: SpecEngine, p: Seq<char>, start: Seq<char>) -> Seq<SpecFact> {
    let fs = base_facts(e, edge_pred(rules_for(e.rules, p)));
    iter_bfs(fs, p, start, seq![SpecValue::Str(start)], Seq::empty(), Seq::empty(), (fs.len() + 1) as nat)
}

/// The first fact's string argument at position `i`, if any.
pub open spec fn first_string_at(fs: Seq<SpecFact>, i: int) -> Option<Seq<char>> {
    if fs.len() > 0 { string_at(fs[0], i) } else { None }
}

/// The engine as a query of `p` leaves it: a query of `source_location` first stores the
/// facts of the recorded locations when none are stored.
pub open spec fn query_state(e: SpecEngine, p: Seq<char>) -> SpecEngine {
    if p == "source_location"@ && key_index(e.groups, "source_location"@) is None {
        inserted(e, materialized(e.locations))
    } else {
        e
    }
}

/// What a query of `p` with the filters gives.
pub open spec fn query_result(e: SpecEngine, p: Seq<char>, filters: Seq<Option<Seq<char>>>) -> SpecFacts {
    if is_tc(e.rules, p) && filters.len() > 0 && filters[0] is Some {
        Ok(filtered(tc_facts(e, p, filters[0]->0), filters))
    } else if !has_rules(e.rules, p) {
        Ok(filtered(indexed_base(e, p, filters), filters))
    } else if all_none(filters) {
        derived_facts(e, p, query_fuel(e))
    } else {
        match derived_facts(e, p, query_fuel(e)) {
            Err(err) => Err(err),
            Ok(_) => {
                let rs = rules_for(e.rules, p);
                match rule_results(e, rs, filter_binding(rs[0].head.args, filters, filters.len() as int), rs.len() as int) {
                    Err(err) => Err(err),
                    Ok(found) => Ok(filtered(dedupe(found + indexed_base(e, p, filters)), filters)),
                }
            },
        }
    }
}

/// Whether a fact passes the filter `fv` at position `i`.
fn passes_one_exec(f: &Fact, i: usize, fv: &str) -> (r: bool)
    ensures
        r == passes_one(f@, i as int, fv@),
{
    if i >= f.args.len() {
        return false;
    }
    match &f.args[i] {
        Value::String(s) => str_eq(s.as_str(), fv),
        Value::Integer(n) => match parse_i64(fv) {
            Some(k) => k == *n,
            None => false,
        },
        _ => true,
    }
}

/// Whether a fact passes all the filters.
fn passes_exec(f: &Fact, filters: &[Option<&str>]) -> (r: bool)
    ensures
        r == passes(f@, filters_view(filters@)),
{
    let ghost fl = filters_view(filters@);
    let mut i: usize = 0;
    while i < filters.len()
        invariant
            i <= filters@.len(),
            fl == filters_view(filters@),
            forall|j: int| 0 <= j < i ==> match #[trigger] fl[j] {
                Some(fv) => passes_one(f@, j, fv),
                None => true,
            },
        decreases filters@.len() - i,
    {
        match filters[i] {
            Some(fv) => {
                if !passes_one_exec(f, i, fv) {
                    assert(fl[i as int] == Some(fv@));
                    return false;
                }
            },
            None => {},
        }
        i = i + 1;
    }
    true
}

/// Whether no filter is set.
fn all_none_exec(filters: &[Option<&str>]) -> (r: bool)
    ensures
        r == all_none(filters_view(filters@)),
{
    let ghost fl = filters_view(filters@);
    let mut i: usize = 0;
    while i < filters.len()
        invariant
            i <= filters@.len(),
            fl == filters_view(filters@),
            forall|j: int| 0 <= j < i ==> #[trigger] fl[j] is None,
        decreases filters@.len() - i,
    {
        if filters[i].is_some() {
            assert(!(fl[i as int] is None));
            return false;
        }
        i = i + 1;
    }
    true
}

/// The facts that the filters let through, in order.
fn apply_filters(fs: Vec<Fact>, filters: &[Option<&str>]) -> (r: Vec<Fact>)
    ensures
        facts_view(r@) == filtered(facts_view(fs@), filters_view(filters@)),
{
    if all_none_exec(filters) {
        return fs;
    }
    let ghost fl = filters_view(filters@);
    let ghost fv = facts_view(fs@);
    let mut out: Vec<Fact> = Vec::new();
    let mut k: usize = 0;
    assert(fv.take(0) =~= Seq::<SpecFact>::empty());
    assert(facts_view(out@) =~= Seq::<SpecFact>::empty());
    while k < fs.len()
        invariant
            k <= fs@.len(),
            fv == facts_view(fs@),
            fl == filters_view(filters@),
            facts_view(out@) == keep_passing(fv.take(k as int), fl),
        decreases fs@.len() - k,
    {
        assert(fv.take(k + 1).drop_last() =~= fv.take(k as int));
        assert(fv.take(k + 1).last() == fs@[k as int]@);
        if passes_exec(&fs[k], filters) {
            let ghost prev = out@;
            out.push(copy_fact(&fs[k]));
            assert(facts_view(out@) =~= facts_view(prev).push(fs@[k as int]@));
        }
        k = k + 1;
    }
    assert(fv.take(k as int) =~= fv);
    out
}

/// `fs` with each fact kept only at its first occurrence.
fn dedupe_exec(fs: &Vec<Fact>) -> (r: Vec<Fact>)
    ensures
        facts_view(r@) == dedupe(facts_view(fs@)),
{
    let ghost fv = facts_view(fs@);
    let mut out: Vec<Fact> = Vec::new();
    let mut k: usize = 0;
    assert(fv.take(0) =~= Seq::<SpecFact>::empty());
    assert(facts_view(out@) =~= Seq::<SpecFact>::empty());
    while k < fs.len()
        invariant
            k <= fs@.len(),
            fv == facts_view(fs@),
            facts_view(out@) == dedupe(fv.take(k as int)),
        decreases fs@.len() - k,
    {
        assert(fv.take(k + 1).drop_last() =~= fv.take(k as int));
        assert(fv.take(k + 1).last() == fs@[k as int]@);
        if !facts_contain(&out, &fs[k]) {
            let ghost prev = out@;
            out.push(copy_fact(&fs[k]));
            assert(facts_view(out@) =~= facts_view(prev).push(fs@[k as int]@));
        }
        k = k + 1;
    }
    assert(fv.take(k as int) =~= fv);
    out
}

/// The binding of the head variables of `head` to the filters at their positions.
fn filter_binding_exec(head: &Vec<Term>, filters: &[Option<&str>]) -> (r: Binding)
    ensures
        r@ == filter_binding(terms_view(head@), filters_view(filters@), filters@.len() as int),
{
    let ghost hv = terms_view(head@);
    let ghost fl = filters_view(filters@);
    let mut b = Binding::new();
    let mut i: usize = 0;
    while i < filters.len()
        invariant
            i <= filters@.len(),
            hv == terms_view(head@),
            fl == filters_view(filters@),
            b@ == filter_binding(hv, fl, i as int),
        decreases filters@.len() - i,
    {
        match filters[i] {
            Some(fv) => {
                assert(fl[i as int] == Some(fv@));
                if i < head.len() {
                    match &head[i] {
                        Term::Variable(v) => {
                            b.set(copy_string(v), Value::String(str_to_string(fv)));
                        },
                        _ => {},
                    }
                }
            },
            None => {
                assert(fl[i as int] is None);
            },
        }
        i = i + 1;
    }
    b
}

proof fn lemma_rule_results_err(e: SpecEngine, rs: Seq<SpecRule>, init: SBind, k: int, n: int)
    requires
        0 <= k <= n,
        rule_results(e, rs, init, k) is Err,
    ensures
        rule_results(e, rs, init, n) == rule_results(e, rs, init, k),
    decreases n - k,
{
    if n > k {
        lemma_rule_results_err(e, rs, init, k, n - 1);
    }
}

/// The facts that the rules at the positions `idx` derive from `init`, rule after rule.
fn rule_results_exec(
    eng: &Engine,
    memo: &mut Vec<(String, Vec<Fact>)>,
    idx: &Vec<usize>,
    init: &Binding,
) -> (r: Result<Vec<Fact>, EvalError>)
    requires
        memo_ok(old(memo)@, eng@, query_fuel(eng@)),
        indices_ok(idx@, eng@.rules.len()),
    ensures
        memo_ok(final(memo)@, eng@, query_fuel(eng@)),
        facts_res(r, rule_results(eng@, picked(eng@.rules, idx@), init@, idx@.len() as int)),
{
    let rules = eng.rule_list();
    let lf = rules.len();
    assert(lf == eng@.rules.len());
    let scc: Vec<String> = Vec::new();
    let db: Vec<Vec<Fact>> = Vec::new();
    assert(strings_view(scc@) =~= Seq::<Seq<char>>::empty());
    assert(dbs_view(db@) =~= Seq::<Seq<SpecFact>>::empty());
    let ghost rs = picked(eng@.rules, idx@);
    let ghost iv = init@;
    let mut out: Vec<Fact> = Vec::new();
    assert(facts_view(out@) =~= Seq::<SpecFact>::empty());
    let mut k: usize = 0;
    while k < idx.len()
        invariant
            k <= idx@.len(),
            lf == eng@.rules.len(),
            rules_view(rules@) == eng@.rules,
            scc@.len() == 0,
            db@.len() == 0,
            strings_view(scc@) == Seq::<Seq<char>>::empty(),
            dbs_view(db@) == Seq::<Seq<SpecFact>>::empty(),
            memo_ok(memo@, eng@, lf as nat),
            indices_ok(idx@, eng@.rules.len()),
            rs == picked(eng@.rules, idx@),
            iv == init@,
            rule_results(eng@, rs, iv, k as int) == Ok::<Seq<SpecFact>, SpecEvalError>(facts_view(out@)),
        decreases idx@.len() - k,
    {
        let j = idx[k];
        assert(j < rules@.len());
        assert(rules@[j as int]@ == rs[k as int]);
        let b = init.copy();
        match eval_rule_exec(eng, lf, memo, &scc, &db, true, &rules[j], b) {
            Ok(fs) => {
                let mut more = fs;
                let ghost ov = facts_view(out@);
                let ghost mv = facts_view(more@);
                out.append(&mut more);
                assert(facts_view(out@) =~= ov + mv);
            },
            Err(e) => {
                proof { lemma_rule_results_err(eng@, rs, iv, (k + 1) as int, idx@.len() as int); }
                return Err(e);
            },
        }
        k = k + 1;
    }
    Ok(out)
}

/// The base facts of `p` that a lookup by the first filter finds.
fn indexed_base_exec(eng: &Engine, p: &str, filters: &[Option<&str>]) -> (r: Vec<Fact>)
    ensures
        facts_view(r@) == indexed_base(eng@, p@, filters_view(filters@)),
{
    let all = base_copy(eng, p);
    if filters.len() > 0 {
        match filters[0] {
            Some(fv) => {
                let first = str_to_string(fv);
                return with_first_exec(&all, &first);
            },
            None => {},
        }
    }
    all
}

pub open spec fn edges_view(es: Seq<(String, String)>) -> Seq<(Seq<char>, Seq<char>)> {
    es.map_values(|e: (String, String)| (e.0@, e.1@))
}

/// The edges of the facts whose first two arguments are strings.
fn tc_edges_exec(fs: &Vec<Fact>) -> (r: Vec<(String, String)>)
    ensures
        edges_view(r@) == tc_edges(facts_view(fs@)),
{
    let ghost fv = facts_view(fs@);
    let mut out: Vec<(String, String)> = Vec::new();
    let mut k: usize = 0;
    assert(fv.take(0) =~= Seq::<SpecFact>::empty());
    assert(edges_view(out@) =~= Seq::<(Seq<char>, Seq<char>)>::empty());
    while k < fs.len()
        invariant
            k <= fs@.len(),
            fv == facts_view(fs@),
            edges_view(out@) == tc_edges(fv.take(k as int)),
        decreases fs@.len() - k,
    {
        assert(fv.take(k + 1).drop_last() =~= fv.take(k as int));
        assert(fv.take(k + 1).last() == fs@[k as int]@);
        match (string_at_exec(&fs[k], 0), string_at_exec(&fs[k], 1)) {
            (Some(a), Some(b)) => {
                let ghost prev = out@;
                out.push((copy_string(a), copy_string(b)));
                assert(edges_view(out@) =~= edges_view(prev).push((a@, b@)));
            },
            _ => {},
        }
        k = k + 1;
    }
    assert(fv.take(k as int) =~= fv);
    out
}

/// Whether `n` is an end of some edge.
fn has_node_exec(es: &Vec<(String, String)>, n: &String) -> (r: bool)
    ensures
        r == has_node(edges_view(es@), n@),
{
    let ghost ev = edges_view(es@);
    let mut i: usize = 0;
    while i < es.len()
        invariant
            i <= es@.len(),
            ev == edges_view(es@),
            forall|j: int| 0 <= j < i ==> ev[j].0 != n@ && ev[j].1 != n@,
        decreases es@.len() - i,
    {
        if crate::datalog::types::string_eq(&es[i].0, n) || crate::datalog::types::string_eq(&es[i].1, n) {
            assert(ev[i as int].0 == n@ || ev[i as int].1 == n@);
            return true;
        }
        i = i + 1;
    }
    false
}

/// Visits `node`: marks, outputs and queues each node that an edge from it reaches first.
fn visit_exec(
    es: &Vec<(String, String)>,
    node: &String,
    visited: &mut Vec<String>,
    out: &mut Vec<String>,
    queue: &mut Vec<String>,
    qi: usize,
)
    requires
        qi <= old(queue)@.len(),
    ensures
        final(queue)@.len() >= old(queue)@.len(),
        (strings_view(final(visited)@), strings_view(final(out)@), strings_view(final(queue)@).skip(qi as int))
            == visit(edges_view(es@), node@, es@.len() as int,
                (strings_view(old(visited)@), strings_view(old(out)@), strings_view(old(queue)@).skip(qi as int))),
{
    let ghost ev = edges_view(es@);
    let ghost st = (strings_view(visited@), strings_view(out@), strings_view(queue@).skip(qi as int));
    let ghost q0 = queue@.len();
    let mut k: usize = 0;
    while k < es.len()
        invariant
            k <= es@.len(),
            ev == edges_view(es@),
            qi <= q0 <= queue@.len(),
            (strings_view(visited@), strings_view(out@), strings_view(queue@).skip(qi as int)) == visit(ev, node@, k as int, st),
        decreases es@.len() - k,
    {
        let a = &es[k].0;
        let b = &es[k].1;
        assert(ev[k as int] == (a@, b@));
        if crate::datalog::types::string_eq(a, node) && !seq_contains_string(visited, b) {
            let ghost (v0, o0, qq0) = (visited@, out@, queue@);
            visited.push(copy_string(b));
            out.push(copy_string(b));
            queue.push(copy_string(b));
            assert(strings_view(visited@) =~= strings_view(v0).push(b@));
            assert(strings_view(out@) =~= strings_view(o0).push(b@));
            assert(strings_view(queue@).skip(qi as int) =~= strings_view(qq0).skip(qi as int).push(b@));
        }
        k = k + 1;
    }
}

/// Breadth-first search from `start` over the edges: the nodes reached, in the order in
/// which they are first reached.
fn bfs_exec(es: &Vec<(String, String)>, start: &String) -> (r: Vec<String>)
    ensures
        strings_view(r@) == bfs(edges_view(es@), seq![start@], Seq::empty(), Seq::empty(), (es@.len() + 1) as nat),
{
    let ghost ev = edges_view(es@);
    let mut visited: Vec<String> = Vec::new();
    let mut out: Vec<String> = Vec::new();
    let mut queue: Vec<String> = Vec::new();
    queue.push(copy_string(start));
    assert(strings_view(visited@) =~= Seq::<Seq<char>>::empty());
    assert(strings_view(queue@).skip(0) =~= seq![start@]);
    assert(strings_view(out@) =~= Seq::<Seq<char>>::empty());
    let mut qi: usize = 0;
    // Steps left after this one, and whether even this one is spent.
    let mut left: usize = es.len();
    let mut spent = false;
    let ghost goal = bfs(ev, seq![start@], Seq::empty(), Seq::empty(), (es@.len() + 1) as nat);
    while !spent && qi < queue.len()
        invariant
            ev == edges_view(es@),
            qi <= queue@.len(),
            bfs(ev, strings_view(queue@).skip(qi as int), strings_view(visited@), strings_view(out@),
                if spent { 0nat } else { (left + 1) as nat }) == goal,
        decreases left + if spent { 0int } else { 1int },
    {
        let ghost q = strings_view(queue@).skip(qi as int);
        let node = copy_string(&queue[qi]);
        assert(q[0] == node@);
        assert(strings_view(queue@).skip(qi + 1) =~= q.skip(1));
        visit_exec(es, &node, &mut visited, &mut out, &mut queue, qi + 1);
        qi = qi + 1;
        if left == 0 {
            spent = true;
        } else {
            left = left - 1;
        }
    }
    out
}

fn base_shape_exec(r: &Rule) -> (b: bool)
    ensures
        b == base_shape(r@),
{
    r.body.len() == 1 && !crate::datalog::types::string_eq(&r.body[0].name, &r.head.name) && r.body[0].args.len() == 2
}

fn rec_shape_exec(r: &Rule) -> (b: bool)
    ensures
        b == rec_shape(r@),
{
    r.body.len() == 2 && (crate::datalog::types::string_eq(&r.body[0].name, &r.head.name)
        || crate::datalog::types::string_eq(&r.body[1].name, &r.head.name))
}

/// Whether the rules at the positions `idx` define a transitive closure.
fn is_tc_exec(rules: &Vec<Rule>, idx: &Vec<usize>) -> (b: bool)
    requires
        indices_ok(idx@, rules@.len()),
    ensures
        ({
            let rs = picked(rules_view(rules@), idx@);
            b == (rs.len() == 2 && (base_shape(rs[0]) || base_shape(rs[1])) && (rec_shape(rs[0]) || rec_shape(rs[1])))
        }),
{
    if idx.len() != 2 {
        return false;
    }
    let r0 = &rules[idx[0]];
    let r1 = &rules[idx[1]];
    (base_shape_exec(r0) || base_shape_exec(r1)) && (rec_shape_exec(r0) || rec_shape_exec(r1))
}

/// The body predicate of the first rule with one body predicate, or the empty name.
fn edge_pred_exec(rules: &Vec<Rule>, idx: &Vec<usize>) -> (r: String)
    requires
        indices_ok(idx@, rules@.len()),
    ensures
        r@ == edge_pred(picked(rules_view(rules@), idx@)),
{
    let ghost rs = picked(rules_view(rules@), idx@);
    assert(rs.skip(0) =~= rs);
    let mut k: usize = 0;
    while k < idx.len()
        invariant
            k <= idx@.len(),
            rs == picked(rules_view(rules@), idx@),
            indices_ok(idx@, rules@.len()),
            edge_pred(rs) == edge_pred(rs.skip(k as int)),
        decreases idx@.len() - k,
    {
        let r = &rules[idx[k]];
        assert(rs.skip(k as int)[0] == r@);
        if r.body.len() == 1 {
            return copy_string(&r.body[0].name);
        }
        assert(rs.skip(k as int).skip(1) =~= rs.skip(k + 1));
        k = k + 1;
    }
    assert(rs.skip(k as int).len() == 0);
    proof { reveal_strlit(""); }
    str_to_string("")
}

/// The facts `p(start, n)` for each node `n` that the edges of `p`'s transitive closure reach from `start`.
fn tc_facts_exec(eng: &Engine, p: &str, start: &str) -> (r: Vec<Fact>)
    ensures
        facts_view(r@) == tc_facts(eng@, p@, start@),
{
    let rules = eng.rule_list();
    let idx = rules_for_exec(rules, p);
    let edge = edge_pred_exec(rules, &idx);
    let efs = base_copy(eng, edge.as_str());
    let es = tc_edges_exec(&efs);
    let st = str_to_string(start);
    if !has_node_exec(&es, &st) {
        let r: Vec<Fact> = Vec::new();
        assert(facts_view(r@) =~= Seq::<SpecFact>::empty());
        return r;
    }
    let nodes = bfs_exec(&es, &st);
    let ghost nv = strings_view(nodes@);
    let mut out: Vec<Fact> = Vec::new();
    let mut k: usize = 0;
    while k < nodes.len()
        invariant
            k <= nodes@.len(),
            nv == strings_view(nodes@),
            st@ == start@,
            facts_view(out@) == nv.take(k as int).map_values(|n: Seq<char>| tc_fact(p@, start@, n)),
        decreases nodes@.len() - k,
    {
        let mut args: Vec<Value> = Vec::new();
        args.push(Value::String(copy_string(&st)));
        args.push(Value::String(copy_string(&nodes[k])));
        let f = Fact { predicate: str_to_string(p), args };
        assert(f@.args =~= seq![SpecValue::Str(start@), SpecValue::Str(nv[k as int])]);
        assert(f@ == tc_fact(p@, start@, nv[k as int]));
        let ghost prev = out@;
        out.push(f);
        k = k + 1;
        assert(facts_view(out@) =~= facts_view(prev).push(f@));
        assert(nv.take(k as int).map_values(|n: Seq<char>| tc_fact(p@, start@, n))
            =~= nv.take(k - 1).map_values(|n: Seq<char>| tc_fact(p@, start@, n)).push(tc_fact(p@, start@, nv[k - 1])));
    }
    assert(nv.take(k as int) =~= nv);
    out
}

impl Engine {
    /// The facts of `predicate` that pass the filters: per argument position, the text the
    /// argument must have (a string equal to it, or an integer that it writes), if any.
    pub fn query(&mut self, predicate: &str, filters: &[Option<&str>]) -> (r: Result<Vec<Fact>, EvalError>)
        ensures
            final(self)@ == query_state(old(self)@, predicate@),
            facts_res(r, query_result(final(self)@, predicate@, filters_view(filters@))),
    {
        if str_eq(predicate, "source_location") && group_index(self.fact_groups(), "source_location").is_none() {
            self.materialize_source_locations();
        }
        let eng: &Engine = self;
        let ghost e = eng@;
        let ghost fl = filters_view(filters@);
        let rules = eng.rule_list();
        let idx = rules_for_exec(rules, predicate);
        if filters.len() > 0 && is_tc_exec(rules, &idx) {
            match filters[0] {
                Some(start) => {
                    assert(fl[0] == Some(start@));
                    let fs = tc_facts_exec(eng, predicate, start);
                    return Ok(apply_filters(fs, filters));
                },
                None => {},
            }
        }
        if idx.len() == 0 {
            let fs = indexed_base_exec(eng, predicate, filters);
            return Ok(apply_filters(fs, filters));
        }
        let all = match derive_exec(eng, predicate, rules.len()) {
            Ok(fs) => fs,
            Err(err) => {
                return Err(err);
            },
        };
        if all_none_exec(filters) {
            return Ok(all);
        }
        let ghost rs = rules_for(e.rules, predicate@);
        assert(rs[0] == rules@[idx@[0] as int]@);
        let init = filter_binding_exec(&rules[idx[0]].head.args, filters);
        let mut memo: Vec<(String, Vec<Fact>)> = Vec::new();
        assert(memo_ok(memo@, e, query_fuel(e)));
        let found = match rule_results_exec(eng, &mut memo, &idx, &init) {
            Ok(fs) => fs,
            Err(err) => {
                return Err(err);
            },
        };
        let mut both = found;
        let mut base = indexed_base_exec(eng, predicate, filters);
        let ghost (fv, bv) = (facts_view(both@), facts_view(base@));
        both.append(&mut base);
        assert(facts_view(both@) =~= fv + bv);
        let d = dedupe_exec(&both);
        Ok(apply_filters(d, filters))
    }
}

fn values_contain(vs: &Vec<Value>, v: &Value) -> (r: bool)
    ensures
        r == values_view(vs@).contains(v@),
{
    let mut i: usize = 0;
    while i < vs.len()
        invariant
            i <= vs@.len(),
            forall|j: int| 0 <= j < i ==> vs@[j]@ != v@,
        decreases vs@.len() - i,
    {
        if value_eq(&vs[i], v) {
            assert(values_view(vs@)[i as int] == v@);
            return true;
        }
        i = i + 1;
    }
    proof {
        if values_view(vs@).contains(v@) {
            let j = choose|j: int| 0 <= j < values_view(vs@).len() && values_view(vs@)[j] == v@;
            assert(vs@[j]@ == v@);
        }
    }
    false
}

/// Steps through the facts from the string node `node` (see `iter_visit`).
fn iter_visit_exec(
    fs: &Vec<Fact>,
    p: &str,
    start: &str,
    node: &String,
    visited: &mut Vec<Value>,
    batch: &mut Vec<Fact>,
    queue: &mut Vec<Value>,
    qi: usize,
)
    requires
        qi <= old(queue)@.len(),
    ensures
        final(queue)@.len() >= old(queue)@.len(),
        (values_view(final(visited)@), facts_view(final(batch)@), values_view(final(queue)@).skip(qi as int))
            == iter_visit(facts_view(fs@), p@, start@, node@, fs@.len() as int,
                (values_view(old(visited)@), facts_view(old(batch)@), values_view(old(queue)@).skip(qi as int))),
{
    let ghost fv = facts_view(fs@);
    let ghost st = (values_view(visited@), facts_view(batch@), values_view(queue@).skip(qi as int));
    let ghost q0 = queue@.len();
    let mut k: usize = 0;
    while k < fs.len()
        invariant
            k <= fs@.len(),
            fv == facts_view(fs@),
            qi <= q0 <= queue@.len(),
            (values_view(visited@), facts_view(batch@), values_view(queue@).skip(qi as int))
                == iter_visit(fv, p@, start@, node@, k as int, st),
        decreases fs@.len() - k,
    {
        let f = &fs[k];
        assert(fv[k as int] == f@);
        if f.args.len() == 2 {
            let first_is_node = match string_at_exec(f, 0) {
                Some(a) => crate::datalog::types::string_eq(a, node),
                None => false,
            };
            if first_is_node && !values_contain(visited, &f.args[1]) {
                let ghost (v0, b0, qq0) = (visited@, batch@, queue@);
                let n = &f.args[1];
                visited.push(copy_value(n));
                let mut args: Vec<Value> = Vec::new();
                args.push(Value::String(str_to_string(start)));
                args.push(copy_value(n));
                let nf = Fact { predicate: str_to_string(p), args };
                assert(nf@.args =~= seq![SpecValue::Str(start@), n@]);
                batch.push(nf);
                queue.push(copy_value(n));
                assert(values_view(visited@) =~= values_view(v0).push(n@));
                assert(facts_view(batch@) =~= facts_view(b0).push(reach_fact(p@, start@, n@)));
                assert(values_view(queue@).skip(qi as int) =~= values_view(qq0).skip(qi as int).push(n@));
            }
        }
        k = k + 1;
    }
}

/// The facts that the closure iterator of `p` from `start` hands out, in order.
fn tc_iter_exec(eng: &Engine, p: &str, start: &str) -> (r: Vec<Fact>)
    ensures
        facts_view(r@) == tc_iter_facts(eng@, p@, start@),
{
    let rules = eng.rule_list();
    let idx = rules_for_exec(rules, p);
    let edge = edge_pred_exec(rules, &idx);
    let fs = base_copy(eng, edge.as_str());
    let ghost fv = facts_view(fs@);
    let mut visited: Vec<Value> = Vec::new();
    let mut queue: Vec<Value> = Vec::new();
    let mut out: Vec<Fact> = Vec::new();
    queue.push(Value::String(str_to_string(start)));
    assert(values_view(visited@) =~= Seq::<SpecValue>::empty());
    assert(values_view(queue@).skip(0) =~= seq![SpecValue::Str(start@)]);
    assert(facts_view(out@) =~= Seq::<SpecFact>::empty());
    let mut qi: usize = 0;
    let mut left: usize = fs.len();
    let mut spent = false;
    let ghost goal = tc_iter_facts(eng@, p@, start@);
    while !spent && qi < queue.len()
        invariant
            fv == facts_view(fs@),
            qi <= queue@.len(),
            iter_bfs(fv, p@, start@, values_view(queue@).skip(qi as int), values_view(visited@), facts_view(out@),
                if spent { 0nat } else { (left + 1) as nat }) == goal,
        decreases left + if spent { 0int } else { 1int },
    {
        let ghost q = values_view(queue@).skip(qi as int);
        let node = copy_value(&queue[qi]);
        assert(q[0] == node@);
        assert(values_view(queue@).skip(qi + 1) =~= q.skip(1));
        match &node {
            Value::String(ns) => {
                let mut batch: Vec<Fact> = Vec::new();
                assert(facts_view(batch@) =~= Seq::<SpecFact>::empty());
                iter_visit_exec(&fs, p, start, ns, &mut visited, &mut batch, &mut queue, qi + 1);
                let ghost bv = facts_view(batch@);
                let ghost ov = facts_view(out@);
                let mut j: usize = batch.len();
                while j > 0
                    invariant
                        j <= batch@.len(),
                        bv == facts_view(batch@),
                        facts_view(out@) == ov + bv.reverse().take((bv.len() - j) as int),
                    decreases j,
                {
                    j = j - 1;
                    let ghost prev = out@;
                    out.push(copy_fact(&batch[j]));
                    assert(facts_view(out@) =~= facts_view(prev).push(bv[j as int]));
                    assert(bv.reverse().take((bv.len() - j) as int)
                        =~= bv.reverse().take((bv.len() - j - 1) as int).push(bv[j as int]));
                }
                assert(bv.reverse().take(bv.len() as int) =~= bv.reverse());
            },
            _ => {},
        }
        qi = qi + 1;
        if left == 0 {
            spent = true;
        } else {
            left = left - 1;
        }
    }
    out
}

/// The facts of a transitive closure from one start node, handed out one at a time.
pub struct TcIterator {
    results: Vec<Fact>,
    pos: usize,
}

impl TcIterator {
    #[verifier::type_invariant]
    closed spec fn inv(&self) -> bool {
        self.pos <= self.results@.len()
    }

    /// The facts still to come, in order.
    pub closed spec fn view(&self) -> Seq<SpecFact> {
        facts_view(self.results@).skip(self.pos as int)
    }

    /// The next fact, if any.
    pub fn next(&mut self) -> (r: Option<Fact>)
        ensures
            match r {
                Some(f) => old(self)@.len() > 0 && f@ == old(self)@[0] && final(self)@ == old(self)@.skip(1),
                None => old(self)@.len() == 0 && final(self)@ == old(self)@,
            },
    {
        proof { use_type_invariant(&*self); }
        if self.pos < self.results.len() {
            let f = copy_fact(&self.results[self.pos]);
            let ghost before = self@;
            self.pos = self.pos + 1;
            assert(self@ =~= before.skip(1));
            Some(f)
        } else {
            None
        }
    }

    /// All the facts still to come.
    pub fn collect(self) -> (r: Vec<Fact>)
        ensures
            facts_view(r@) == self@,
    {
        proof { use_type_invariant(&self); }
        let ghost rest = self@;
        let mut out: Vec<Fact> = Vec::new();
        let mut i: usize = self.pos;
        assert(facts_view(out@) =~= rest.take(0));
        while i < self.results.len()
            invariant
                self.pos <= i <= self.results@.len(),
                rest == facts_view(self.results@).skip(self.pos as int),
                facts_view(out@) == rest.take(i - self.pos),
            decreases self.results@.len() - i,
        {
            let ghost prev = out@;
            out.push(copy_fact(&self.results[i]));
            i = i + 1;
            assert(facts_view(out@) =~= facts_view(prev).push(self.results@[i - 1]@));
            assert(rest.take(i - self.pos) =~= rest.take(i - 1 - self.pos).push(self.results@[i - 1]@));
        }
        assert(rest.take(i - self.pos) =~= rest);
        out
    }

    /// How many facts are still to come.
    pub fn count(self) -> (r: usize)
        ensures
            r == self@.len(),
    {
        proof { use_type_invariant(&self); }
        self.results.len() - self.pos
    }
}

impl Engine {
    /// The facts of `predicate` whose first argument is `target`.
    pub fn query_for_target(&mut self, predicate: &str, target: &str) -> (r: Result<Vec<Fact>, EvalError>)
        ensures
            final(self)@ == query_state(old(self)@, predicate@),
            facts_res(r, query_result(final(self)@, predicate@, seq![Some(target@)])),
    {
        let filters = [Some(target)];
        let r = self.query(predicate, &filters);
        assert(filters_view(filters@) =~= seq![Some(target@)]);
        r
    }

    /// The value of the attribute `key` of `target`: the third argument of the first
    /// `attr(target, key, value)` fact, when it is a string.
    pub fn query_attr(&mut self, target: &str, key: &str) -> (r: Result<Option<String>, EvalError>)
        ensures
            final(self)@ == old(self)@,
            match query_result(old(self)@, "attr"@, seq![Some(target@), Some(key@)]) {
                Ok(fs) => r matches Ok(v) && match first_string_at(fs, 2) {
                    Some(s) => v matches Some(t) && t@ == s,
                    None => v is None,
                },
                Err(err) => r matches Err(e) && e@ == err,
            },
    {
        let filters = [Some(target), Some(key)];
        let ghost before = self@;
        proof {
            reveal_strlit("attr");
            reveal_strlit("source_location");
            assert("attr"@.len() != "source_location"@.len());
        }
        let res = self.query("attr", &filters);
        assert(filters_view(filters@) =~= seq![Some(target@), Some(key@)]);
        match res {
            Ok(fs) => {
                if fs.len() > 0 {
                    match string_at_exec(&fs[0], 2) {
                        Some(s) => Ok(Some(copy_string(s))),
                        None => Ok(None),
                    }
                } else {
                    Ok(None)
                }
            },
            Err(e) => Err(e),
        }
    }

    /// The sources of `target`: the string second arguments of its `sources` facts, in order.
    pub fn query_sources(&mut self, target: &str) -> (r: Result<Vec<String>, EvalError>)
        ensures
            final(self)@ == old(self)@,
            match query_result(old(self)@, "sources"@, seq![Some(target@)]) {
                Ok(fs) => r matches Ok(v) && strings_view(v@) == strings_at(fs, 1),
                Err(err) => r matches Err(e) && e@ == err,
            },
    {
        let filters = [Some(target)];
        proof {
            reveal_strlit("sources");
            reveal_strlit("source_location");
            assert("sources"@.len() != "source_location"@.len());
        }
        let res = self.query("sources", &filters);
        assert(filters_view(filters@) =~= seq![Some(target@)]);
        match res {
            Ok(fs) => Ok(strings_at_exec(&fs, 1)),
            Err(e) => Err(e),
        }
    }

    /// An iterator over the transitive closure `predicate` from `start_node` (see `tc_iter_facts`).
    pub fn query_tc_iter(&mut self, predicate: &str, start_node: &str) -> (r: TcIterator)
        ensures
            final(self)@ == old(self)@,
            r@ == tc_iter_facts(old(self)@, predicate@, start_node@),
    {
        let results = tc_iter_exec(self, predicate, start_node);
        let it = TcIterator { results, pos: 0 };
        assert(it@ =~= facts_view(it.results@));
        it
    }
}

} // verus!
