use vstd::prelude::*;
use crate::text::{has_prefix, nat_digits};
use crate::datalog::types::{term_debug, SpecValue, SpecFact, SpecTerm, SpecPredicate, SpecRule};
use crate::datalog::binding::{SBind, extend, project};
use crate::datalog::builtins::{arity_msg, SpecEvalError, SpecBinds, over_binds, pure_name, pure_builtin, special_name};
use crate::datalog::globs::{glob_valid, glob_matches};
use crate::datalog::store::{SpecEngine, key_index, lookup, base_facts, rules_for, has_rules, materialized};

verus! {

/// Facts, or why they could not be computed.
pub type SpecFacts = Result<Seq<SpecFact>, SpecEvalError>;

/// The complete facts of each predicate of a lower stratum.
pub type Lower = spec_fn(Seq<char>) -> SpecFacts;

/// The bindings that matching `pattern` against `facts[..n]` gives under `b`, in fact order.
pub open spec fn join_one(b: SBind, pattern: Seq<SpecTerm>, facts: Seq<SpecFact>, n: int) -> Seq<SBind>
    decreases n,
{
    if n <= 0 {
        Seq::empty()
    } else {
        let prev = join_one(b, pattern, facts, n - 1);
        match extend(b, pattern, facts[n - 1].args) {
            Some(nb) => prev.push(nb),
            None => prev,
        }
    }
}

/// Matching a pattern against facts, for each binding in order.
pub open spec fn join(bs: Seq<SBind>, pattern: Seq<SpecTerm>, facts: Seq<SpecFact>) -> SpecBinds {
    over_binds(join_step(pattern, facts), bs)
}

pub open spec fn join_step(pattern: Seq<SpecTerm>, facts: Seq<SpecFact>) -> spec_fn(SBind) -> SpecBinds {
    |b: SBind| Ok(join_one(b, pattern, facts, facts.len() as int))
}

/// Whether some fact matches the pattern under `b`.
pub open spec fn any_match(b: SBind, pattern: Seq<SpecTerm>, facts: Seq<SpecFact>) -> bool {
    exists|i: int| 0 <= i < facts.len() && extend(b, pattern, #[trigger] facts[i].args) is Some
}

/// The bindings under which no fact matches the negated pattern.
pub open spec fn negate(bs: Seq<SBind>, pattern: Seq<SpecTerm>, facts: Seq<SpecFact>) -> SpecBinds {
    over_binds(negate_step(pattern, facts), bs)
}

pub open spec fn negate_step(pattern: Seq<SpecTerm>, facts: Seq<SpecFact>) -> spec_fn(SBind) -> SpecBinds {
    |b: SBind| Ok(if any_match(b, pattern, facts) { Seq::empty() } else { seq![b] })
}

/// The predicate name that an aggregate's first argument names.
pub open spec fn agg_name(t: SpecTerm, b: SBind) -> Option<Seq<char>> {
    match t {
        SpecTerm::Const(SpecValue::Str(s)) => Some(s),
        SpecTerm::Var(v) => if b.contains_key(v) {
            match b[v] {
                SpecValue::Str(s) => Some(s),
                _ => None,
            }
        } else {
            None
        },
        _ => None,
    }
}

/// The argument position that `min` and `max` read.
pub open spec fn agg_index(t: SpecTerm, b: SBind) -> Option<nat> {
    match t {
        SpecTerm::Const(SpecValue::Int(i)) => Some((i as usize) as nat),
        SpecTerm::Var(v) => if b.contains_key(v) {
            match b[v] {
                SpecValue::Int(i) => Some((i as usize) as nat),
                _ => None,
            }
        } else {
            None
        },
        _ => None,
    }
}

/// The aggregate's result given to its last argument, which the errors call `what`.
pub open spec fn agg_out(b: SBind, t: SpecTerm, v: i64, what: Seq<char>) -> SpecBinds {
    match t {
        SpecTerm::Var(x) => Ok(seq![b.insert(x, SpecValue::Int(v))]),
        SpecTerm::Const(SpecValue::Int(e)) => Ok(if e == v { seq![b] } else { Seq::empty() }),
        _ => Err(SpecEvalError::Invalid(
            "Type error: "@ + what + " must be an integer or variable, got "@ + term_debug(t),
        )),
    }
}

/// The error for an argument `t` of an aggregate that is not of the kind it must be: a
/// constant is shown as `{:?}` writes it, a variable is not.
pub open spec fn agg_arg_msg(what: Seq<char>, t: SpecTerm) -> Seq<char> {
    match t {
        SpecTerm::Const(_) => "Type error: "@ + what + ", got "@ + term_debug(t),
        SpecTerm::Var(_) => "Type error: "@ + what,
    }
}

/// What `count(P, N)` gives for one binding.
pub open spec fn count_one(args: Seq<SpecTerm>, b: SBind, lower: Lower) -> SpecBinds {
    match agg_name(args[0], b) {
        None => Err(SpecEvalError::Invalid(agg_arg_msg("count first argument must be a string predicate name"@, args[0]))),
        Some(n) => match lower(n) {
            Err(e) => Err(e),
            Ok(fs) => agg_out(b, args[1], fs.len() as i64, "count second argument"@),
        },
    }
}

/// The integers at position `idx` of the facts, in order.
pub open spec fn ints_at(fs: Seq<SpecFact>, idx: nat) -> Seq<i64>
    decreases fs.len(),
{
    if fs.len() == 0 {
        Seq::empty()
    } else {
        let prev = ints_at(fs.drop_last(), idx);
        let f = fs.last();
        if idx < f.args.len() {
            match f.args[idx as int] {
                SpecValue::Int(i) => prev.push(i),
                _ => prev,
            }
        } else {
            prev
        }
    }
}

/// The least (`is_min`) or greatest element of a sequence of integers.
pub open spec fn extreme(s: Seq<i64>, is_min: bool) -> Option<i64>
    decreases s.len(),
{
    if s.len() == 0 {
        None
    } else {
        match extreme(s.drop_last(), is_min) {
            None => Some(s.last()),
            Some(m) => Some(if (is_min && s.last() < m) || (!is_min && s.last() > m) { s.last() } else { m }),
        }
    }
}

/// The name of `min` (`is_min`) or `max`.
pub open spec fn agg_label(is_min: bool) -> Seq<char> {
    if is_min { "min"@ } else { "max"@ }
}

/// What `min(P, I, M)` or `max(P, I, M)` gives for one binding.
pub open spec fn minmax_one(is_min: bool, args: Seq<SpecTerm>, b: SBind, lower: Lower) -> SpecBinds {
    match agg_name(args[0], b) {
        None => Err(SpecEvalError::Invalid(
            agg_arg_msg(agg_label(is_min) + " first argument must be a string predicate name"@, args[0]),
        )),
        Some(n) => match agg_index(args[1], b) {
            None => Err(SpecEvalError::Invalid(
                agg_arg_msg(agg_label(is_min) + " second argument must be an integer index"@, args[1]),
            )),
            Some(idx) => match lower(n) {
                Err(e) => Err(e),
                Ok(fs) => match extreme(ints_at(fs, idx), is_min) {
                    None => Ok(Seq::empty()),
                    Some(m) => agg_out(b, args[2], m, agg_label(is_min) + " third argument"@),
                },
            },
        },
    }
}

/// A string argument of `matches_glob`: `None` where the argument is a non-string constant
/// (the binding gives nothing), `Some(None)` where it is a variable without a string value.
pub open spec fn glob_arg(t: SpecTerm, b: SBind) -> Option<Option<Seq<char>>> {
    match t {
        SpecTerm::Const(SpecValue::Str(s)) => Some(Some(s)),
        SpecTerm::Const(_) => None,
        SpecTerm::Var(v) => if b.contains_key(v) {
            match b[v] {
                SpecValue::Str(s) => Some(Some(s)),
                _ => Some(None),
            }
        } else {
            Some(None)
        },
    }
}

/// The string at position `i` of a fact.
pub open spec fn string_at(f: SpecFact, i: int) -> Option<Seq<char>> {
    if 0 <= i < f.args.len() {
        match f.args[i] {
            SpecValue::Str(s) => Some(s),
            _ => None,
        }
    } else {
        None
    }
}

/// A binding of `v` to each of the strings.
pub open spec fn bind_each(b: SBind, v: Seq<char>, ss: Seq<Seq<char>>) -> Seq<SBind> {
    ss.map_values(|s: Seq<char>| b.insert(v, SpecValue::Str(s)))
}

/// The strings at position `i` of the facts that have one there, in order.
pub open spec fn strings_at(fs: Seq<SpecFact>, i: int) -> Seq<Seq<char>>
    decreases fs.len(),
{
    if fs.len() == 0 {
        Seq::empty()
    } else {
        let prev = strings_at(fs.drop_last(), i);
        match string_at(fs.last(), i) {
            Some(s) => prev.push(s),
            None => prev,
        }
    }
}

/// The patterns among `pats` that are valid and match `file`, in order.
pub open spec fn patterns_matching(pats: Seq<Seq<char>>, file: Seq<char>) -> Seq<Seq<char>>
    decreases pats.len(),
{
    if pats.len() == 0 {
        Seq::empty()
    } else {
        let prev = patterns_matching(pats.drop_last(), file);
        if glob_valid(pats.last()) && glob_matches(pats.last(), file) { prev.push(pats.last()) } else { prev }
    }
}

/// The files among `files` that the pattern matches, in order.
pub open spec fn files_matching(files: Seq<Seq<char>>, pat: Seq<char>) -> Seq<Seq<char>>
    decreases files.len(),
{
    if files.len() == 0 {
        Seq::empty()
    } else {
        let prev = files_matching(files.drop_last(), pat);
        if glob_matches(pat, files.last()) { prev.push(files.last()) } else { prev }
    }
}

/// For each valid pattern in order, a binding of each file it matches and of the pattern.
pub open spec fn all_glob_matches(files: Seq<Seq<char>>, pats: Seq<Seq<char>>, b: SBind, fv: Seq<char>, pv: Seq<char>) -> Seq<SBind>
    decreases pats.len(),
{
    if pats.len() == 0 {
        Seq::empty()
    } else {
        let prev = all_glob_matches(files, pats.drop_last(), b, fv, pv);
        let p = pats.last();
        if glob_valid(p) {
            prev + files_matching(files, p).map_values(|f: Seq<char>| b.insert(fv, SpecValue::Str(f)).insert(pv, SpecValue::Str(p)))
        } else {
            prev
        }
    }
}

/// What `matches_glob(F, P)` gives for one binding.
pub open spec fn glob_one(e: SpecEngine, args: Seq<SpecTerm>, b: SBind, lower: Lower) -> SpecBinds {
    match glob_arg(args[0], b) {
        None => Ok(Seq::empty()),
        Some(fo) => match glob_arg(args[1], b) {
            None => Ok(Seq::empty()),
            Some(po) => match (fo, po) {
                (Some(f), Some(p)) => Ok(if glob_valid(p) && glob_matches(p, f) { seq![b] } else { Seq::empty() }),
                (Some(f), None) => match args[1] {
                    SpecTerm::Var(pv) => match lower("source_glob"@) {
                        Err(err) => Err(err),
                        Ok(fs) => Ok(bind_each(b, pv, patterns_matching(strings_at(fs, 1), f))),
                    },
                    _ => Ok(Seq::empty()),
                },
                (None, Some(p)) => match args[0] {
                    SpecTerm::Var(fv) => if !glob_valid(p) {
                        Ok(Seq::empty())
                    } else {
                        match lower("file_exists"@) {
                            Err(err) => Err(err),
                            Ok(fs) => {
                                let found = files_matching(strings_at(fs, 0), p);
                                if found.len() > 0 {
                                    Ok(bind_each(b, fv, found))
                                } else {
                                    match lookup(e.globbed, p) {
                                        Some(paths) => Ok(bind_each(b, fv, paths)),
                                        None => Err(SpecEvalError::NeedsGlob(p)),
                                    }
                                }
                            },
                        }
                    },
                    _ => Ok(Seq::empty()),
                },
                (None, None) => match (args[0], args[1]) {
                    (SpecTerm::Var(fv), SpecTerm::Var(pv)) => match lower("file_exists"@) {
                        Err(err) => Err(err),
                        Ok(ffs) => match lower("source_glob"@) {
                            Err(err) => Err(err),
                            Ok(gfs) => Ok(all_glob_matches(strings_at(ffs, 0), strings_at(gfs, 1), b, fv, pv)),
                        },
                    },
                    _ => Ok(Seq::empty()),
                },
            },
        },
    }
}

/// What `str::parse::<usize>` gives: digits with an optional `+`, within the `usize` range.
pub open spec fn usize_value(s: Seq<char>) -> Option<nat> {
    if s.len() > 0 && s[0] == '-' {
        None
    } else {
        match crate::text::int_value(s) {
            Some(v) => if 0 <= v <= usize::MAX { Some(v as nat) } else { None },
            None => None,
        }
    }
}

/// `list` (sorted by key) with `k` given the value `v`.
pub open spec fn put_sorted(list: Seq<(nat, Seq<char>)>, k: nat, v: Seq<char>) -> Seq<(nat, Seq<char>)>
    decreases list.len(),
{
    if list.len() == 0 {
        seq![(k, v)]
    } else if list[0].0 == k {
        seq![(k, v)] + list.skip(1)
    } else if list[0].0 > k {
        seq![(k, v)] + list
    } else {
        seq![list[0]] + put_sorted(list.skip(1), k, v)
    }
}

/// The tool and the positional arguments that the `attr` facts of `target` give, read in order:
/// the last `tool` wins, and each numbered argument keeps the last value given to it.
pub open spec fn command_of(attrs: Seq<SpecFact>, target: Seq<char>, n: int) -> (Option<Seq<char>>, Seq<(nat, Seq<char>)>)
    decreases n,
{
    if n <= 0 {
        (None, Seq::empty())
    } else {
        let (tool, args) = command_of(attrs, target, n - 1);
        let f = attrs[n - 1];
        match (string_at(f, 0), string_at(f, 1), string_at(f, 2)) {
            (Some(t), Some(key), Some(value)) => if t == target {
                if key == "tool"@ {
                    (Some(value), args)
                } else {
                    match usize_value(key) {
                        Some(idx) => (tool, put_sorted(args, idx, value)),
                        None => (tool, args),
                    }
                }
            } else {
                (tool, args)
            },
            _ => (tool, args),
        }
    }
}

/// The base facts of `p` whose first argument is the string `first`.
pub open spec fn with_first(fs: Seq<SpecFact>, first: Seq<char>) -> Seq<SpecFact>
    decreases fs.len(),
{
    if fs.len() == 0 {
        Seq::empty()
    } else {
        let prev = with_first(fs.drop_last(), first);
        if string_at(fs.last(), 0) == Some(first) { prev.push(fs.last()) } else { prev }
    }
}

/// The output lines of `resolve` for a target, or the request to run its tool.
pub open spec fn resolved(e: SpecEngine, target: Seq<char>) -> Result<Seq<Seq<char>>, SpecEvalError> {
    match lookup(e.resolutions, target) {
        Some(lines) => Ok(lines),
        None => if !e.resolve_enabled {
            Ok(Seq::empty())
        } else {
            let attrs = with_first(base_facts(e, "attr"@), target);
            let (tool, args) = command_of(attrs, target, attrs.len() as int);
            match tool {
                None => Ok(Seq::empty()),
                Some(t) => Err(SpecEvalError::NeedsResolution(target, t, args.map_values(|a: (nat, Seq<char>)| a.1))),
            }
        },
    }
}

/// What `resolve(T, L)` gives for one binding.
pub open spec fn resolve_one(e: SpecEngine, args: Seq<SpecTerm>, b: SBind) -> SpecBinds {
    match agg_name(args[0], b) {
        None => Ok(Seq::empty()),
        Some(t) => match resolved(e, t) {
            Err(err) => Err(err),
            Ok(lines) => match args[1] {
                SpecTerm::Var(v) => Ok(bind_each(b, v, lines)),
                SpecTerm::Const(SpecValue::Str(x)) => Ok(if lines.contains(x) { seq![b] } else { Seq::empty() }),
                _ => Ok(Seq::empty()),
            },
        },
    }
}

/// The `source_location` facts: the stored ones, or those the recorded locations stand for.
pub open spec fn location_facts(e: SpecEngine) -> Seq<SpecFact> {
    if key_index(e.groups, "source_location"@) is Some {
        base_facts(e, "source_location"@)
    } else {
        materialized(e.locations)
    }
}

pub open spec fn glob_step(e: SpecEngine, args: Seq<SpecTerm>, lower: Lower) -> spec_fn(SBind) -> SpecBinds {
    |b: SBind| glob_one(e, args, b, lower)
}

pub open spec fn resolve_step(e: SpecEngine, args: Seq<SpecTerm>) -> spec_fn(SBind) -> SpecBinds {
    |b: SBind| resolve_one(e, args, b)
}

pub open spec fn count_step(args: Seq<SpecTerm>, lower: Lower) -> spec_fn(SBind) -> SpecBinds {
    |b: SBind| count_one(args, b, lower)
}

pub open spec fn minmax_step(is_min: bool, args: Seq<SpecTerm>, lower: Lower) -> spec_fn(SBind) -> SpecBinds {
    |b: SBind| minmax_one(is_min, args, b, lower)
}

/// The name of the `i`-th anonymous variable.
pub open spec fn anon_var(i: nat) -> Seq<char> {
    "_anon_"@ + nat_digits(i)
}

/// The arguments padded with anonymous variables up to `arity`.
pub open spec fn padded(args: Seq<SpecTerm>, arity: nat) -> Seq<SpecTerm> {
    if args.len() < arity {
        args + Seq::new((arity - args.len()) as nat, |i: int| SpecTerm::Var(anon_var((args.len() + i) as nat)))
    } else {
        args
    }
}

/// The position of `q` among the predicates evaluated together.
pub open spec fn name_index(s: Seq<Seq<char>>, q: Seq<char>) -> Option<int>
    decreases s.len(),
{
    if s.len() == 0 {
        None
    } else {
        match name_index(s.drop_last(), q) {
            Some(i) => Some(i),
            None => if s.last() == q { Some(s.len() - 1) } else { None },
        }
    }
}

/// What one body predicate gives for the bindings. `scc` are the predicates evaluated
/// together, with their current facts `db`; `lower` gives the complete facts of the others;
/// `expand` pads short predicates with anonymous variables up to their rules' arity.
#[verifier::opaque]
pub open spec fn eval_atom(
    e: SpecEngine,
    scc: Seq<Seq<char>>,
    db: Seq<Seq<SpecFact>>,
    lower: Lower,
    expand: bool,
    atom: SpecPredicate,
    bs: Seq<SBind>,
) -> SpecBinds {
    let name = atom.name;
    if has_prefix(name, "not:"@) {
        match lower(name.skip(4)) {
            Err(err) => Err(err),
            Ok(fs) => negate(bs, atom.args, fs),
        }
    } else if pure_name(name) {
        pure_builtin(atom, bs)
    } else if name == "matches_glob"@ {
        if atom.args.len() != 2 { Err(SpecEvalError::Invalid(arity_msg(name, 2, atom.args.len()))) } else { over_binds(glob_step(e, atom.args, lower), bs) }
    } else if name == "resolve"@ {
        if atom.args.len() != 2 { Err(SpecEvalError::Invalid(arity_msg(name, 2, atom.args.len()))) } else { over_binds(resolve_step(e, atom.args), bs) }
    } else if name == "count"@ {
        if atom.args.len() != 2 { Err(SpecEvalError::Invalid(arity_msg(name, 2, atom.args.len()))) } else { over_binds(count_step(atom.args, lower), bs) }
    } else if name == "min"@ || name == "max"@ {
        if atom.args.len() != 3 { Err(SpecEvalError::Invalid(arity_msg(name, 3, atom.args.len()))) } else { over_binds(minmax_step(name == "min"@, atom.args, lower), bs) }
    } else if name == "source_location"@ {
        if atom.args.len() != 3 { Err(SpecEvalError::Invalid(arity_msg(name, 3, atom.args.len()))) } else { join(bs, atom.args, location_facts(e)) }
    } else {
        let rs = rules_for(e.rules, name);
        let pattern = if expand && rs.len() > 0 { padded(atom.args, rs[0].head.args.len()) } else { atom.args };
        match name_index(scc, name) {
            Some(j) => join(bs, pattern, db[j]),
            None => match lower(name) {
                Err(err) => Err(err),
                Ok(fs) => join(bs, pattern, fs),
            },
        }
    }
}

/// The bindings that the body predicates `body[i..]` give, starting from `bs`; evaluation
/// stops as soon as no binding is left.
pub open spec fn eval_body(
    e: SpecEngine,
    scc: Seq<Seq<char>>,
    db: Seq<Seq<SpecFact>>,
    lower: Lower,
    expand: bool,
    body: Seq<SpecPredicate>,
    i: int,
    bs: Seq<SBind>,
) -> SpecBinds
    decreases body.len() - i,
{
    if i < 0 || i >= body.len() || bs.len() == 0 {
        Ok(bs)
    } else {
        match eval_atom(e, scc, db, lower, expand, body[i], bs) {
            Err(err) => Err(err),
            Ok(next) => eval_body(e, scc, db, lower, expand, body, i + 1, next),
        }
    }
}

pub open spec fn head_fact(r: SpecRule, b: SBind) -> SpecFact {
    SpecFact { predicate: r.head.name, args: project(r.head.args, b) }
}

/// The facts that a rule derives from the binding `init`, one per binding of its body.
#[verifier::opaque]
pub open spec fn eval_rule(
    e: SpecEngine,
    scc: Seq<Seq<char>>,
    db: Seq<Seq<SpecFact>>,
    lower: Lower,
    expand: bool,
    r: SpecRule,
    init: SBind,
) -> SpecFacts {
    match eval_body(e, scc, db, lower, expand, r.body, 0, seq![init]) {
        Err(err) => Err(err),
        Ok(bs) => Ok(bs.map_values(|b: SBind| head_fact(r, b))),
    }
}

/// The body predicates of a rule that are looked up (not built-ins) and have rules.
pub open spec fn derived_names(rules: Seq<SpecRule>, body: Seq<SpecPredicate>, n: int) -> Seq<Seq<char>>
    decreases n,
{
    if n <= 0 {
        Seq::empty()
    } else {
        let prev = derived_names(rules, body, n - 1);
        let q = body[n - 1].name;
        if !special_name(q) && has_rules(rules, q) { prev.push(q) } else { prev }
    }
}

/// `acc` with each of `names` that it lacks added, in order.
pub open spec fn add_names(acc: Seq<Seq<char>>, names: Seq<Seq<char>>) -> Seq<Seq<char>>
    decreases names.len(),
{
    if names.len() == 0 {
        acc
    } else {
        let prev = add_names(acc, names.drop_last());
        if prev.contains(names.last()) { prev } else { prev.push(names.last()) }
    }
}

/// One pass over `rules[..n]`: the derived predicates used by the rules of predicates in `acc`.
pub open spec fn dep_pass(rules: Seq<SpecRule>, acc: Seq<Seq<char>>, n: int) -> Seq<Seq<char>>
    decreases n,
{
    if n <= 0 {
        acc
    } else {
        let prev = dep_pass(rules, acc, n - 1);
        let r = rules[n - 1];
        if prev.contains(r.head.name) {
            add_names(prev, derived_names(rules, r.body, r.body.len() as int))
        } else {
            prev
        }
    }
}

/// The predicates that `s` depends on positively through rules, found by at most `fuel` passes.
pub open spec fn dep_closure(rules: Seq<SpecRule>, s: Seq<Seq<char>>, fuel: nat) -> Seq<Seq<char>>
    decreases fuel,
{
    if fuel == 0 {
        s
    } else {
        let next = dep_pass(rules, s, rules.len() as int);
        if next.len() == s.len() { s } else { dep_closure(rules, next, (fuel - 1) as nat) }
    }
}

/// The predicates evaluated together with `p`: `p` and the derived predicates it depends on.
pub open spec fn group_of(rules: Seq<SpecRule>, p: Seq<char>) -> Seq<Seq<char>> {
    dep_closure(rules, seq![p], (rules.len() + 1) as nat)
}

/// Whether a rule uses one of the predicates evaluated together.
pub open spec fn uses_group(r: SpecRule, scc: Seq<Seq<char>>) -> bool {
    exists|j: int| 0 <= j < r.body.len() && !special_name(r.body[j].name) && #[trigger] scc.contains(r.body[j].name)
}

/// The rules of the predicates `scc[..n]`, predicate by predicate.
pub open spec fn group_rules(rules: Seq<SpecRule>, scc: Seq<Seq<char>>, n: int) -> Seq<SpecRule>
    decreases n,
{
    if n <= 0 {
        Seq::empty()
    } else {
        group_rules(rules, scc, n - 1) + rules_for(rules, scc[n - 1])
    }
}

/// The rules among `rs` that use (`using`) or do not use the group.
pub open spec fn rules_using(rs: Seq<SpecRule>, scc: Seq<Seq<char>>, using: bool) -> Seq<SpecRule>
    decreases rs.len(),
{
    if rs.len() == 0 {
        Seq::empty()
    } else {
        let prev = rules_using(rs.drop_last(), scc, using);
        if uses_group(rs.last(), scc) == using { prev.push(rs.last()) } else { prev }
    }
}

/// `old` with each of `fs` added that neither `old` nor an earlier one of `fs` holds.
pub open spec fn add_new(old: Seq<SpecFact>, fs: Seq<SpecFact>) -> Seq<SpecFact>
    decreases fs.len(),
{
    if fs.len() == 0 {
        old
    } else {
        let prev = add_new(old, fs.drop_last());
        if prev.contains(fs.last()) { prev } else { prev.push(fs.last()) }
    }
}

/// The facts of the group after the rules `rs[..n]` that do not use it were applied once each.
pub open spec fn first_phase(
    e: SpecEngine,
    scc: Seq<Seq<char>>,
    lower: Lower,
    db: Seq<Seq<SpecFact>>,
    rs: Seq<SpecRule>,
    n: int,
) -> Result<Seq<Seq<SpecFact>>, SpecEvalError>
    decreases n,
{
    if n <= 0 {
        Ok(db)
    } else {
        match first_phase(e, scc, lower, db, rs, n - 1) {
            Err(err) => Err(err),
            Ok(cur) => match eval_rule(e, Seq::empty(), Seq::empty(), lower, true, rs[n - 1], Map::empty()) {
                Err(err) => Err(err),
                Ok(fs) => match name_index(scc, rs[n - 1].head.name) {
                    Some(j) => Ok(cur.update(j, add_new(cur[j], fs))),
                    None => Ok(cur),
                },
            },
        }
    }
}

/// The facts new in one round: those that the rules `rs[..n]` derive from `db` and that `db`
/// does not hold, per predicate of the group, without repeats.
pub open spec fn round(
    e: SpecEngine,
    scc: Seq<Seq<char>>,
    lower: Lower,
    db: Seq<Seq<SpecFact>>,
    rs: Seq<SpecRule>,
    n: int,
) -> Result<Seq<Seq<SpecFact>>, SpecEvalError>
    decreases n,
{
    if n <= 0 {
        Ok(Seq::new(scc.len(), |j: int| Seq::<SpecFact>::empty()))
    } else {
        match round(e, scc, lower, db, rs, n - 1) {
            Err(err) => Err(err),
            Ok(new) => match eval_rule(e, scc, db, lower, false, rs[n - 1], Map::empty()) {
                Err(err) => Err(err),
                Ok(fs) => match name_index(scc, rs[n - 1].head.name) {
                    Some(j) => Ok(new.update(j, add_fresh(db[j], new[j], fs))),
                    None => Ok(new),
                },
            },
        }
    }
}

/// `new` with each of `fs` added that neither `old` nor `new` holds yet.
pub open spec fn add_fresh(old: Seq<SpecFact>, new: Seq<SpecFact>, fs: Seq<SpecFact>) -> Seq<SpecFact>
    decreases fs.len(),
{
    if fs.len() == 0 {
        new
    } else {
        let prev = add_fresh(old, new, fs.drop_last());
        if old.contains(fs.last()) || prev.contains(fs.last()) { prev } else { prev.push(fs.last()) }
    }
}

/// Whether some predicate of the group has a fact.
pub open spec fn any_facts(db: Seq<Seq<SpecFact>>) -> bool {
    exists|j: int| 0 <= j < db.len() && #[trigger] db[j].len() > 0
}

/// The rounds of evaluation from round `k` on: stop when the last round found nothing new;
/// reaching round `max - 1` with new facts is an error.
pub open spec fn rounds(
    e: SpecEngine,
    scc: Seq<Seq<char>>,
    lower: Lower,
    rs: Seq<SpecRule>,
    db: Seq<Seq<SpecFact>>,
    changed: bool,
    k: nat,
    max: nat,
) -> Result<Seq<Seq<SpecFact>>, SpecEvalError>
    decreases max - k,
{
    if k >= max || !changed || rs.len() == 0 {
        Ok(db)
    } else {
        match round(e, scc, lower, db, rs, rs.len() as int) {
            Err(err) => Err(err),
            Ok(new) => {
                if k + 1 == max {
                    Err(SpecEvalError::Invalid("Error: fixpoint evaluation exceeded its iteration limit"@))
                } else {
                    let next = Seq::new(db.len(), |j: int| db[j] + new[j]);
                    rounds(e, scc, lower, rs, next, any_facts(new), k + 1, max)
                }
            },
        }
    }
}

/// The limit on rounds: the first argument of the first `max_iterations` fact, or 1000.
pub open spec fn max_rounds(e: SpecEngine) -> nat {
    let fs = base_facts(e, "max_iterations"@);
    if fs.len() > 0 && fs[0].args.len() > 0 {
        match fs[0].args[0] {
            SpecValue::Int(n) => (n as usize) as nat,
            _ => 1000,
        }
    } else {
        1000
    }
}

/// All facts of `p`: its base facts and what its rules derive, evaluated together with the
/// derived predicates it depends on; negations and aggregates read the complete facts of
/// their predicates, computed with one unit of `fuel` less.
pub open spec fn derived_facts(e: SpecEngine, p: Seq<char>, fuel: nat) -> SpecFacts
    decreases fuel, 1nat,
{
    if !has_rules(e.rules, p) || fuel == 0 {
        Ok(base_facts(e, p))
    } else {
        let lower = lower_at(e, (fuel - 1) as nat);
        let scc = group_of(e.rules, p);
        let db0 = scc.map_values(|q: Seq<char>| base_facts(e, q));
        let rs = group_rules(e.rules, scc, scc.len() as int);
        let first = rules_using(rs, scc, false);
        let rest = rules_using(rs, scc, true);
        match first_phase(e, scc, lower, db0, first, first.len() as int) {
            Err(err) => Err(err),
            Ok(db1) => match rounds(e, scc, lower, rest, db1, any_facts(db1), 0, max_rounds(e)) {
                Err(err) => Err(err),
                Ok(db2) => Ok(db2[0]),
            },
        }
    }
}

/// The complete facts of each predicate computed with `lf` units of fuel.
pub open spec fn lower_at(e: SpecEngine, lf: nat) -> Lower
    decreases lf + 1, 0nat,
{
    |q: Seq<char>| derived_facts(e, q, lf)
}

pub proof fn lemma_lower_at(e: SpecEngine, lf: nat, q: Seq<char>)
    ensures
        lower_at(e, lf)(q) == derived_facts(e, q, lf),
{
}

/// The fuel a query starts with: one unit per rule.
pub open spec fn query_fuel(e: SpecEngine) -> nat {
    e.rules.len()
}

/// The complete facts of each predicate, as a query computes them.
pub open spec fn full_facts(e: SpecEngine) -> Lower {
    lower_at(e, query_fuel(e))
}

} // verus!
