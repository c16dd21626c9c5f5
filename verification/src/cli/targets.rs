use vstd::prelude::*;
use crate::text::{str_eq, str_chars, str_to_string, push_all, push_string, string_from_range, matches_at, i64_to_string, int_text, join, join_strings};
use crate::datalog::types::{Fact, SpecFact, Value, SpecValue, Rule, SpecRule, TargetLabel, facts_view, rules_view, copy_string};
use crate::datalog::builtins::{EvalError, SpecEvalError};
use crate::datalog::store::{SpecEngine, strings_view};
use crate::datalog::semantics::{string_at, strings_at};
use crate::datalog::eval::{string_at_exec, strings_at_exec};
use crate::datalog::engine::Engine;
use crate::datalog::query::{query_result, filters_view};
use crate::build::args::label_text;
use crate::build::plan::{BuildPlan, SpecBuildPlan, PlanError, SpecPlanError, BuildKind};
use crate::build::registry::{BuildKindRegistry, KnownKind};
use crate::cli::order::pair_view;
use crate::build::system_tool::{second_where, second_where_exec, query_all};

verus! {

/// The pieces of `s` between the occurrences of `pat`, taken from left to right without
/// overlap; `cur` is the piece begun so far (what `str::split` gives, for a pattern that is
/// not empty).
pub open spec fn pieces_from(s: Seq<char>, pat: Seq<char>, cur: Seq<char>) -> Seq<Seq<char>>
    decreases s.len(),
{
    if pat.len() == 0 || s.len() < pat.len() {
        seq![cur + s]
    } else if s.take(pat.len() as int) == pat {
        seq![cur] + pieces_from(s.skip(pat.len() as int), pat, Seq::empty())
    } else {
        pieces_from(s.skip(1), pat, cur.push(s[0]))
    }
}

pub open spec fn pieces(s: Seq<char>, pat: Seq<char>) -> Seq<Seq<char>> {
    pieces_from(s, pat, Seq::empty())
}

/// The namespace of a label: `//` and the text between its first two `//`, when it has more
/// than one; else the root namespace `//`.
pub open spec fn namespace_of(label: Seq<char>) -> Seq<char> {
    let ps = pieces(label, "//"@);
    if ps.len() > 2 { "//"@ + ps[1] } else { "//"@ }
}

/// The pieces of `s` between the occurrences of `pat` (see `pieces`).
pub fn split_text(s: &str, pat: &str) -> (r: Vec<String>)
    requires
        pat@.len() > 0,
    ensures
        strings_view(r@) == pieces(s@, pat@),
{
    let cs = str_chars(s);
    let ps = str_chars(pat);
    let n = cs.len();
    let plen = ps.len();
    let mut out: Vec<String> = Vec::new();
    let mut start: usize = 0;
    let mut i: usize = 0;
    assert(cs@.skip(0) =~= cs@);
    assert(cs@.subrange(0, 0) =~= Seq::<char>::empty());
    assert(strings_view(out@) + pieces_from(cs@, ps@, Seq::empty()) =~= pieces(s@, pat@));
    while i < n && plen <= n - i
        invariant
            n == cs@.len(),
            plen == ps@.len(),
            plen > 0,
            start <= i <= n,
            strings_view(out@) + pieces_from(cs@.skip(i as int), ps@, cs@.subrange(start as int, i as int)) == pieces(s@, pat@),
        decreases n - i,
    {
        let ghost rest = cs@.skip(i as int);
        let ghost cur = cs@.subrange(start as int, i as int);
        if matches_at(cs.as_slice(), ps.as_slice(), i) {
            assert(rest.take(plen as int) =~= cs@.subrange(i as int, i + plen));
            assert(rest.skip(plen as int) =~= cs@.skip(i + plen));
            let piece = string_from_range(cs.as_slice(), start, i);
            let ghost before = strings_view(out@);
            out.push(piece);
            assert(strings_view(out@) =~= before.push(cur));
            assert(cs@.subrange((i + plen) as int, (i + plen) as int) =~= Seq::<char>::empty());
            assert(before.push(cur) + pieces_from(cs@.skip(i + plen), ps@, Seq::empty())
                =~= before + (seq![cur] + pieces_from(rest.skip(plen as int), ps@, Seq::empty())));
            i = i + plen;
            start = i;
        } else {
            assert(rest.take(plen as int) =~= cs@.subrange(i as int, i + plen));
            assert(rest.skip(1) =~= cs@.skip(i + 1));
            assert(cur.push(rest[0]) =~= cs@.subrange(start as int, i + 1));
            i = i + 1;
        }
    }
    let ghost rest = cs@.skip(i as int);
    let ghost cur = cs@.subrange(start as int, i as int);
    assert(pieces_from(rest, ps@, cur) == seq![cur + rest]);
    assert(cur + rest =~= cs@.subrange(start as int, n as int));
    let last = string_from_range(cs.as_slice(), start, n);
    let ghost before = strings_view(out@);
    out.push(last);
    assert(strings_view(out@) =~= before + seq![cur + rest]);
    out
}

/// The namespace of a label (see `namespace_of`).
pub fn extract_namespace(target_label: &str) -> (r: String)
    ensures
        r@ == namespace_of(target_label@),
{
    proof { reveal_strlit("//"); }
    let ps = split_text(target_label, "//");
    let mut r = str_to_string("//");
    if ps.len() > 2 {
        push_string(&mut r, &ps[1]);
    }
    r
}

/// Whether some fact's first argument is the string `t`.
pub open spec fn names_first(fs: Seq<SpecFact>, t: Seq<char>) -> bool
    decreases fs.len(),
{
    fs.len() > 0 && (string_at(fs.last(), 0) == Some(t) || names_first(fs.drop_last(), t))
}

/// Planning one target of a build: nothing when no `needs_rebuild` fact names it; else the
/// plan of the kind that its first `kind` fact names, which must be registered.
pub open spec fn target_plan(
    e: SpecEngine,
    reg: Map<Seq<char>, KnownKind>,
    t: (Seq<char>, Seq<char>),
    wd: Seq<char>,
) -> (SpecEngine, Result<Option<SpecBuildPlan>, SpecPlanError>) {
    let ts = label_text(t);
    match query_result(e, "needs_rebuild"@, Seq::empty()) {
        Err(x) => (e, Err(SpecPlanError::Query(x))),
        Ok(nfs) => if !names_first(nfs, ts) {
            (e, Ok(None))
        } else {
            match query_result(e, "kind"@, Seq::empty()) {
                Err(x) => (e, Err(SpecPlanError::Query(x))),
                Ok(kfs) => {
                    let ks = second_where(kfs, ts);
                    if ks.len() == 0 {
                        (e, Err(SpecPlanError::Refused("No kind defined for target "@ + ts)))
                    } else if !reg.contains_key(ks[0]) {
                        (e, Err(SpecPlanError::Refused("Unknown build kind: "@ + ks[0])))
                    } else {
                        let (e2, p) = reg[ks[0]].planned(e, t, wd);
                        (e2, match p {
                            Ok(pl) => Ok(Some(pl)),
                            Err(x) => Err(x),
                        })
                    }
                },
            }
        },
    }
}

pub open spec fn maybe_plan_view(r: Result<Option<BuildPlan>, PlanError>) -> Result<Option<SpecBuildPlan>, SpecPlanError> {
    match r {
        Ok(Some(p)) => Ok(Some(p@)),
        Ok(None) => Ok(None),
        Err(e) => Err(e@),
    }
}

fn names_first_exec(fs: &Vec<Fact>, t: &str) -> (r: bool)
    ensures
        r == names_first(facts_view(fs@), t@),
{
    let ghost fv = facts_view(fs@);
    let mut found = false;
    let mut k: usize = 0;
    assert(fv.take(0) =~= Seq::<SpecFact>::empty());
    while k < fs.len()
        invariant
            k <= fs@.len(),
            fv == facts_view(fs@),
            found == names_first(fv.take(k as int), t@),
        decreases fs@.len() - k,
    {
        assert(fv.take(k + 1).drop_last() =~= fv.take(k as int));
        assert(fv.take(k + 1).last() == fs@[k as int]@);
        match string_at_exec(&fs[k], 0) {
            Some(a) => {
                if crate::text::str_eq(a.as_str(), t) {
                    found = true;
                }
            },
            None => {},
        }
        k = k + 1;
    }
    assert(fv.take(k as int) =~= fv);
    found
}

/// Plans one target of a build (see `target_plan`); `None` when it is up to date.
pub fn plan_target(db: &mut Engine, registry: &BuildKindRegistry, target: &TargetLabel, working_dir: &str)
    -> (r: Result<Option<BuildPlan>, PlanError>)
    ensures
        target_plan(old(db)@, registry@, target@, working_dir@) == (final(db)@, maybe_plan_view(r)),
{
    proof {
        reveal_strlit("source_location");
        reveal_strlit("needs_rebuild");
        reveal_strlit("kind");
        assert("needs_rebuild"@.len() != "source_location"@.len());
        assert("kind"@.len() != "source_location"@.len());
    }
    let ts = target.to_string();
    let nfs = match query_all(db, "needs_rebuild") {
        Ok(fs) => fs,
        Err(x) => {
            return Err(PlanError::Query(x));
        },
    };
    if !names_first_exec(&nfs, ts.as_str()) {
        return Ok(None);
    }
    let kfs = match query_all(db, "kind") {
        Ok(fs) => fs,
        Err(x) => {
            return Err(PlanError::Query(x));
        },
    };
    let ks = second_where_exec(&kfs, ts.as_str());
    if ks.len() == 0 {
        let mut m = str_to_string("No kind defined for target ");
        push_string(&mut m, &ts);
        return Err(PlanError::Refused(m));
    }
    match registry.get(ks[0].as_str()) {
        None => {
            let mut m = str_to_string("Unknown build kind: ");
            push_string(&mut m, &ks[0]);
            Err(PlanError::Refused(m))
        },
        Some(kind) => match kind.plan(target, db, working_dir) {
            Ok(p) => Ok(Some(p)),
            Err(x) => Err(x),
        },
    }
}

/// The string second arguments of the facts of `p` whose first argument is `target`, when
/// queried with that filter.
pub open spec fn target_paths_of(e: SpecEngine, p: Seq<char>, target: Seq<char>) -> Result<Seq<Seq<char>>, SpecEvalError> {
    match query_result(e, p, seq![Some(target)]) {
        Err(x) => Err(x),
        Ok(fs) => Ok(strings_at(fs, 1)),
    }
}

/// The paths that the facts of `predicate` give `target` (see `target_paths_of`).
pub fn target_paths(db: &mut Engine, predicate: &str, target: &str) -> (r: Result<Vec<String>, EvalError>)
    requires
        predicate@ != "source_location"@,
    ensures
        final(db)@ == old(db)@,
        match (r, target_paths_of(old(db)@, predicate@, target@)) {
            (Ok(ps), Ok(sps)) => strings_view(ps@) == sps,
            (Err(x), Err(sx)) => x@ == sx,
            _ => false,
        },
{
    let filters: Vec<Option<&str>> = vec![Some(target)];
    assert(filters_view(filters@) =~= seq![Some(target@)]);
    match db.query(predicate, filters.as_slice()) {
        Ok(fs) => Ok(strings_at_exec(&fs, 1)),
        Err(x) => Err(x),
    }
}

/// What a dry run shows for a planned target.
pub open spec fn dry_run_text(t: Seq<char>, p: SpecBuildPlan) -> Seq<char> {
    "[DRY RUN] Would build: "@ + t + "\n  Command: "@ + p.command + "\n"@
        + (if p.args.len() > 0 { "  Args: "@ + join(p.args, " "@) + "\n"@ } else { Seq::empty() })
        + (if p.inputs.len() > 0 { "  Inputs: "@ + join(p.inputs, ", "@) + "\n"@ } else { Seq::empty() })
        + (if p.outputs.len() > 0 { "  Outputs: "@ + join(p.outputs, ", "@) + "\n"@ } else { Seq::empty() })
}

/// What a dry run shows for a planned target (see `dry_run_text`).
pub fn dry_run_report(target: &TargetLabel, plan: &BuildPlan) -> (r: String)
    ensures
        r@ == dry_run_text(label_text(target@), plan@),
{
    let mut m = str_to_string("[DRY RUN] Would build: ");
    let t = target.to_string();
    push_string(&mut m, &t);
    push_all(&mut m, "\n  Command: ");
    push_string(&mut m, &plan.command);
    push_all(&mut m, "\n");
    let ghost a = m@;
    if plan.args.len() > 0 {
        push_all(&mut m, "  Args: ");
        let j = join_strings(&plan.args, " ");
        push_string(&mut m, &j);
        push_all(&mut m, "\n");
    }
    let ghost b = m@;
    if plan.inputs.len() > 0 {
        push_all(&mut m, "  Inputs: ");
        let j = join_strings(&plan.inputs, ", ");
        push_string(&mut m, &j);
        push_all(&mut m, "\n");
    }
    if plan.outputs.len() > 0 {
        push_all(&mut m, "  Outputs: ");
        let j = join_strings(&plan.outputs, ", ");
        push_string(&mut m, &j);
        push_all(&mut m, "\n");
    }
    assert(m@ =~= dry_run_text(label_text(target@), plan@));
    m
}

/// The message of a build that failed.
pub open spec fn build_failure_text(t: Seq<char>, code: Option<i32>) -> Seq<char> {
    "Target '"@ + t + "': Build failed with "@ + (match code {
        Some(c) => "exit code "@ + int_text(c as int),
        None => "terminated by signal"@,
    }) + "\nSuggestion: Check the error output above for details"@
}

/// The message of a build that failed (see `build_failure_text`).
pub fn build_failure_message(target: &TargetLabel, exit_code: Option<i32>) -> (r: String)
    ensures
        r@ == build_failure_text(label_text(target@), exit_code),
{
    let mut m = str_to_string("Target '");
    let t = target.to_string();
    push_string(&mut m, &t);
    push_all(&mut m, "': Build failed with ");
    match exit_code {
        Some(c) => {
            push_all(&mut m, "exit code ");
            let s = i64_to_string(c as i64);
            push_string(&mut m, &s);
        },
        None => {
            push_all(&mut m, "terminated by signal");
        },
    }
    push_all(&mut m, "\nSuggestion: Check the error output above for details");
    m
}

/// The predicate a query asks for: the head of its last rule, else the predicate of its last
/// fact.
pub open spec fn asked_predicate(fs: Seq<SpecFact>, rs: Seq<SpecRule>) -> Option<Seq<char>> {
    if rs.len() > 0 {
        Some(rs.last().head.name)
    } else if fs.len() > 0 {
        Some(fs.last().predicate)
    } else {
        None
    }
}

/// The predicate a query asks for (see `asked_predicate`).
pub fn query_predicate(facts: &Vec<Fact>, rules: &Vec<Rule>) -> (r: Result<String, String>)
    ensures
        match asked_predicate(facts_view(facts@), rules_view(rules@)) {
            Some(p) => r matches Ok(x) && x@ == p,
            None => r matches Err(m) && m@ == "No predicate found in query"@,
        },
{
    if rules.len() > 0 {
        Ok(copy_string(&rules[rules.len() - 1].head.name))
    } else if facts.len() > 0 {
        Ok(copy_string(&facts[facts.len() - 1].predicate))
    } else {
        Err(str_to_string("No predicate found in query"))
    }
}

/// The `(namespace, path)` of each `root(namespace, path)` fact whose two arguments are
/// strings, in the order of the facts.
pub open spec fn root_entries(fs: Seq<SpecFact>) -> Seq<(Seq<char>, Seq<char>)>
    decreases fs.len(),
{
    if fs.len() == 0 {
        Seq::empty()
    } else {
        let prev = root_entries(fs.drop_last());
        let f = fs.last();
        if f.predicate == "root"@ && f.args.len() == 2 {
            match (f.args[0], f.args[1]) {
                (SpecValue::Str(ns), SpecValue::Str(path)) => prev.push((ns, path)),
                _ => prev,
            }
        } else {
            prev
        }
    }
}

/// The workspace roots that the `root` facts of a file declare (see `root_entries`).
pub fn root_namespaces(facts: &Vec<Fact>) -> (r: Vec<(String, String)>)
    ensures
        pair_view(r@) == root_entries(facts_view(facts@)),
{
    let ghost fv = facts_view(facts@);
    let mut out: Vec<(String, String)> = Vec::new();
    let mut k: usize = 0;
    assert(fv.take(0) =~= Seq::<SpecFact>::empty());
    assert(pair_view(out@) =~= Seq::<(Seq<char>, Seq<char>)>::empty());
    while k < facts.len()
        invariant
            k <= facts@.len(),
            fv == facts_view(facts@),
            pair_view(out@) == root_entries(fv.take(k as int)),
        decreases facts@.len() - k,
    {
        assert(fv.take(k + 1).drop_last() =~= fv.take(k as int));
        assert(fv.take(k + 1).last() == facts@[k as int]@);
        let f = &facts[k];
        if str_eq(f.predicate.as_str(), "root") && f.args.len() == 2 {
            match (&f.args[0], &f.args[1]) {
                (Value::String(ns), Value::String(path)) => {
                    let ghost prev = out@;
                    out.push((copy_string(ns), copy_string(path)));
                    assert(pair_view(out@) =~= pair_view(prev).push((ns@, path@)));
                },
                _ => {},
            }
        }
        k = k + 1;
    }
    assert(fv.take(k as int) =~= fv);
    out
}

/// The prefix of a target pattern `prefix/...`, which stands for every target under it; a
/// label without the `/...` ending names one target and has none.
pub open spec fn pattern_prefix_of(p: Seq<char>) -> Option<Seq<char>> {
    if crate::text::has_suffix(p, "/..."@) { Some(p.take(p.len() - 4)) } else { None }
}

/// The prefix of a target pattern (see `pattern_prefix_of`).
pub fn pattern_prefix(pattern: &str) -> (r: Option<String>)
    ensures
        match pattern_prefix_of(pattern@) {
            Some(x) => r matches Some(y) && y@ == x,
            None => r is None,
        },
{
    proof { reveal_strlit("/..."); }
    let cs = str_chars(pattern);
    let tail = str_chars("/...");
    if crate::text::ends_with_seq(cs.as_slice(), tail.as_slice()) {
        let r = string_from_range(cs.as_slice(), 0, cs.len() - 4);
        assert(cs@.subrange(0, cs@.len() - 4) =~= pattern@.take(pattern@.len() - 4));
        Some(r)
    } else {
        None
    }
}

} // verus!
