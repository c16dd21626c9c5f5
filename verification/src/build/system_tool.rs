use vstd::prelude::*;
use crate::text::{str_eq, str_to_string, push_all, push_string, string_chars};
use crate::datalog::types::{Value, SpecValue, Fact, SpecFact, TargetLabel, facts_view, copy_string, string_eq};
use crate::datalog::builtins::EvalError;
use crate::datalog::store::{SpecEngine, strings_view};
use crate::datalog::semantics::string_at;
use crate::datalog::eval::{facts_res, string_at_exec};
use crate::datalog::engine::{Engine, inserted};
use crate::datalog::query::{query_result, filters_view};
use crate::build::args::{label_text, replace_all, replace_text, pairs_view, command_args, build_args};
use crate::build::checks::{tool_name_check, argument_check, validate_tool_name, validate_argument};
use crate::build::plan::{BuildPlan, SpecBuildPlan, PlanError, SpecPlanError, SpecPlanned, BuildKind, plan_view};

verus! {

/// The third argument of the first fact whose first three arguments are strings, the first
/// two of them `a` and `b`.
pub open spec fn third_where(fs: Seq<SpecFact>, a: Seq<char>, b: Seq<char>) -> Option<Seq<char>>
    decreases fs.len(),
{
    if fs.len() == 0 {
        None
    } else if string_at(fs[0], 0) == Some(a) && string_at(fs[0], 1) == Some(b) && string_at(fs[0], 2) is Some {
        string_at(fs[0], 2)
    } else {
        third_where(fs.skip(1), a, b)
    }
}

/// The second arguments of the facts whose first two arguments are strings, the first `a`.
pub open spec fn second_where(fs: Seq<SpecFact>, a: Seq<char>) -> Seq<Seq<char>>
    decreases fs.len(),
{
    if fs.len() == 0 {
        Seq::empty()
    } else {
        let prev = second_where(fs.drop_last(), a);
        if string_at(fs.last(), 0) == Some(a) && string_at(fs.last(), 1) is Some {
            prev.push(string_at(fs.last(), 1)->0)
        } else {
            prev
        }
    }
}

/// The attribute keys that do not become arguments.
pub open spec fn reserved_key(k: Seq<char>) -> bool {
    k == "tool"@ || k == "output_dir"@ || k == "no_sandbox"@
}

/// Whether an `attr` fact for `owner` applies to target `t` built with `tool`: set on the
/// target, on the tool, or on the pair `t:tool`.
pub open spec fn applies_to(owner: Seq<char>, t: Seq<char>, tool: Seq<char>) -> bool {
    owner == t || owner == tool || owner == t + ":"@ + tool
}

/// The priority of the scope an attribute is set at: on the pair `t:tool` (3), on the tool
/// (2), or on the target (1).
pub open spec fn scope_rank(owner: Seq<char>, t: Seq<char>, tool: Seq<char>) -> nat {
    if owner == t + ":"@ + tool { 3 } else if owner == tool { 2 } else { 1 }
}

/// The `(key, value, scope priority)` of the string `attr` facts that give arguments to `t`
/// built with `tool`, in order.
pub open spec fn scoped_attrs(fs: Seq<SpecFact>, t: Seq<char>, tool: Seq<char>) -> Seq<(Seq<char>, Seq<char>, nat)>
    decreases fs.len(),
{
    if fs.len() == 0 {
        Seq::empty()
    } else {
        let prev = scoped_attrs(fs.drop_last(), t, tool);
        let f = fs.last();
        match (string_at(f, 0), string_at(f, 1), string_at(f, 2)) {
            (Some(o), Some(k), Some(v)) => if !reserved_key(k) && applies_to(o, t, tool) {
                prev.push((k, v, scope_rank(o, t, tool)))
            } else {
                prev
            },
            _ => prev,
        }
    }
}

/// The highest scope priority at which `c[..n]` sets the key `k` (0 when it does not).
pub open spec fn best_rank(c: Seq<(Seq<char>, Seq<char>, nat)>, k: Seq<char>, n: int) -> nat
    decreases n,
{
    if n <= 0 {
        0
    } else {
        let prev = best_rank(c, k, n - 1);
        if c[n - 1].0 == k && c[n - 1].2 > prev { c[n - 1].2 } else { prev }
    }
}

/// The pairs of `c[..n]` set at the highest scope that sets their key in all of `c`.
pub open spec fn top_pairs(c: Seq<(Seq<char>, Seq<char>, nat)>, n: int) -> Seq<(Seq<char>, Seq<char>)>
    decreases n,
{
    if n <= 0 {
        Seq::empty()
    } else {
        let prev = top_pairs(c, n - 1);
        let e = c[n - 1];
        if e.2 == best_rank(c, e.0, c.len() as int) { prev.push((e.0, e.1)) } else { prev }
    }
}

/// The `(key, value)` pairs of the string `attr` facts that give arguments to `t` built with
/// `tool`, in order: of the scopes that set a key, only the one of highest priority counts
/// (the pair `t:tool`, then the tool, then the target).
pub open spec fn arg_attrs_of(fs: Seq<SpecFact>, t: Seq<char>, tool: Seq<char>) -> Seq<(Seq<char>, Seq<char>)> {
    let c = scoped_attrs(fs, t, tool);
    top_pairs(c, c.len() as int)
}

/// `name` joined to the directory `dir` as a path: an absolute name replaces the directory,
/// and a separator goes between them unless the directory is empty or ends with one.
pub open spec fn path_join(dir: Seq<char>, name: Seq<char>) -> Seq<char> {
    if name.len() > 0 && name[0] == '/' {
        name
    } else if dir.len() == 0 || dir.last() == '/' {
        dir + name
    } else {
        dir + "/"@ + name
    }
}

/// The message of the first argument refused, if any.
pub open spec fn first_refused(args: Seq<Seq<char>>) -> Option<Seq<char>>
    decreases args.len(),
{
    if args.len() == 0 {
        None
    } else {
        match argument_check(args[0]) {
            Err(m) => Some(m),
            Ok(_) => first_refused(args.skip(1)),
        }
    }
}

pub open spec fn requires_tool_fact(t: Seq<char>, tool: Seq<char>) -> SpecFact {
    SpecFact { predicate: "requires_tool"@, args: seq![SpecValue::Str(t), SpecValue::Str(tool)] }
}

/// Where a target's output goes when none is declared: in the `output_dir` attribute's
/// directory (by default `target/<tool>`), named after the target with `:` made `_`.
pub open spec fn default_output(t: (Seq<char>, Seq<char>), tool: Seq<char>, attrs: Seq<SpecFact>) -> Seq<char> {
    let dir = match third_where(attrs, label_text(t), "output_dir"@) {
        Some(d) => d,
        None => "target/"@ + tool,
    };
    path_join(dir, replace_all(t.1, ":"@, "_"@))
}

/// The plan once the sources, the output and the attributes are known.
pub open spec fn tool_plan_args(
    e: SpecEngine,
    t: (Seq<char>, Seq<char>),
    tool: Seq<char>,
    wd: Seq<char>,
    sources: Seq<Seq<char>>,
    declared: Seq<Seq<char>>,
    attrs: Seq<SpecFact>,
) -> SpecPlanned {
    let ts = label_text(t);
    let output = if declared.len() > 0 { declared[0] } else { default_output(t, tool, attrs) };
    let args = command_args(arg_attrs_of(attrs, ts, tool), sources, output, ts);
    match first_refused(args) {
        Some(m) => Err(SpecPlanError::Refused(m)),
        None => match query_result(e, "toolchain"@, Seq::empty()) {
            Err(x) => Err(SpecPlanError::Query(x)),
            Ok(tfs) => match third_where(tfs, ts, tool) {
                None => Err(SpecPlanError::Refused(tool + " not found for target "@ + ts)),
                Some(path) => match argument_check(path) {
                    Err(m) => Err(SpecPlanError::Refused(m)),
                    Ok(_) => Ok(SpecBuildPlan {
                        target: t,
                        command: path,
                        args: args,
                        env: Seq::empty(),
                        inputs: sources,
                        outputs: seq![output],
                        working_dir: wd,
                        no_sandbox: third_where(attrs, ts, "no_sandbox"@) == Some("true"@),
                    }),
                },
            },
        },
    }
}

/// The plan once the tool is known: the sources, then a failed constraint of the target
/// refuses it, then the declared outputs and the attributes.
pub open spec fn tool_plan_rest(e: SpecEngine, t: (Seq<char>, Seq<char>), tool: Seq<char>, wd: Seq<char>) -> SpecPlanned {
    let ts = label_text(t);
    match query_result(e, "sources"@, Seq::empty()) {
        Err(x) => Err(SpecPlanError::Query(x)),
        Ok(sfs) => match query_result(e, "constraint_failed"@, Seq::empty()) {
            Err(x) => Err(SpecPlanError::Query(x)),
            Ok(cfs) => if second_where(cfs, ts).len() > 0 {
                Err(SpecPlanError::Refused("Target "@ + ts + " "@ + second_where(cfs, ts)[0]))
            } else {
                match query_result(e, "outputs"@, Seq::empty()) {
                    Err(x) => Err(SpecPlanError::Query(x)),
                    Ok(ofs) => match query_result(e, "attr"@, Seq::empty()) {
                        Err(x) => Err(SpecPlanError::Query(x)),
                        Ok(afs) => tool_plan_args(e, t, tool, wd, second_where(sfs, ts), second_where(ofs, ts), afs),
                    },
                }
            },
        },
    }
}

/// Planning a target with the system tool its `tool` attribute names: the engine afterwards
/// (which records `requires_tool(target, tool)` once the tool is accepted) and the outcome.
pub open spec fn tool_planned(e: SpecEngine, t: (Seq<char>, Seq<char>), wd: Seq<char>) -> (SpecEngine, SpecPlanned) {
    let ts = label_text(t);
    match query_result(e, "attr"@, Seq::empty()) {
        Err(x) => (e, Err(SpecPlanError::Query(x))),
        Ok(afs) => match third_where(afs, ts, "tool"@) {
            None => (e, Err(SpecPlanError::Refused("system_tool requires 'tool' attribute for target "@ + ts))),
            Some(tool) => match tool_name_check(tool) {
                Err(m) => (e, Err(SpecPlanError::Refused(m))),
                Ok(_) => {
                    let e1 = inserted(e, seq![requires_tool_fact(ts, tool)]);
                    (e1, tool_plan_rest(e1, t, tool, wd))
                },
            },
        },
    }
}

/// All facts of `p`, queried without filters.
pub(crate) fn query_all(db: &mut Engine, p: &str) -> (r: Result<Vec<Fact>, EvalError>)
    requires
        p@ != "source_location"@,
    ensures
        final(db)@ == old(db)@,
        facts_res(r, query_result(old(db)@, p@, Seq::empty())),
{
    let none: Vec<Option<&str>> = Vec::new();
    assert(filters_view(none@) =~= Seq::<Option<Seq<char>>>::empty());
    db.query(p, none.as_slice())
}

/// The third argument of the first fact that matches (see `third_where`).
pub(crate) fn third_where_exec(fs: &Vec<Fact>, a: &str, b: &str) -> (r: Option<String>)
    ensures
        match third_where(facts_view(fs@), a@, b@) {
            Some(s) => r matches Some(x) && x@ == s,
            None => r is None,
        },
{
    let ghost fv = facts_view(fs@);
    let mut i: usize = 0;
    assert(fv.skip(0) =~= fv);
    while i < fs.len()
        invariant
            i <= fs@.len(),
            fv == facts_view(fs@),
            third_where(fv, a@, b@) == third_where(fv.skip(i as int), a@, b@),
        decreases fs@.len() - i,
    {
        assert(fv.skip(i as int)[0] == fs@[i as int]@);
        assert(fv.skip(i as int).skip(1) =~= fv.skip(i + 1));
        let f = &fs[i];
        match (string_at_exec(f, 0), string_at_exec(f, 1), string_at_exec(f, 2)) {
            (Some(x), Some(y), Some(z)) => {
                if str_eq(x.as_str(), a) && str_eq(y.as_str(), b) {
                    return Some(copy_string(z));
                }
            },
            _ => {},
        }
        i = i + 1;
    }
    None
}

/// The second arguments of the facts whose first argument is `a` (see `second_where`).
pub(crate) fn second_where_exec(fs: &Vec<Fact>, a: &str) -> (r: Vec<String>)
    ensures
        strings_view(r@) == second_where(facts_view(fs@), a@),
{
    let ghost fv = facts_view(fs@);
    let mut out: Vec<String> = Vec::new();
    let mut k: usize = 0;
    assert(fv.take(0) =~= Seq::<SpecFact>::empty());
    assert(strings_view(out@) =~= Seq::<Seq<char>>::empty());
    while k < fs.len()
        invariant
            k <= fs@.len(),
            fv == facts_view(fs@),
            strings_view(out@) == second_where(fv.take(k as int), a@),
        decreases fs@.len() - k,
    {
        assert(fv.take(k + 1).drop_last() =~= fv.take(k as int));
        assert(fv.take(k + 1).last() == fs@[k as int]@);
        match (string_at_exec(&fs[k], 0), string_at_exec(&fs[k], 1)) {
            (Some(x), Some(y)) => {
                if str_eq(x.as_str(), a) {
                    let ghost prev = strings_view(out@);
                    out.push(copy_string(y));
                    assert(strings_view(out@) =~= prev.push(y@));
                }
            },
            _ => {},
        }
        k = k + 1;
    }
    assert(fv.take(k as int) =~= fv);
    out
}

fn reserved_key_exec(k: &String) -> (r: bool)
    ensures
        r == reserved_key(k@),
{
    str_eq(k.as_str(), "tool") || str_eq(k.as_str(), "output_dir") || str_eq(k.as_str(), "no_sandbox")
}

pub open spec fn triples_view(s: Seq<(String, String, u8)>) -> Seq<(Seq<char>, Seq<char>, nat)> {
    s.map_values(|p: (String, String, u8)| (p.0@, p.1@, p.2 as nat))
}

/// The scoped attributes of `t` built with `tool` (see `scoped_attrs`).
fn scoped_attrs_exec(fs: &Vec<Fact>, t: &String, tool: &String) -> (r: Vec<(String, String, u8)>)
    ensures
        triples_view(r@) == scoped_attrs(facts_view(fs@), t@, tool@),
{
    let ghost fv = facts_view(fs@);
    let mut pair = copy_string(t);
    push_all(&mut pair, ":");
    push_string(&mut pair, tool);
    let mut out: Vec<(String, String, u8)> = Vec::new();
    let mut k: usize = 0;
    assert(fv.take(0) =~= Seq::<SpecFact>::empty());
    assert(triples_view(out@) =~= Seq::<(Seq<char>, Seq<char>, nat)>::empty());
    while k < fs.len()
        invariant
            k <= fs@.len(),
            fv == facts_view(fs@),
            pair@ == t@ + ":"@ + tool@,
            triples_view(out@) == scoped_attrs(fv.take(k as int), t@, tool@),
        decreases fs@.len() - k,
    {
        assert(fv.take(k + 1).drop_last() =~= fv.take(k as int));
        assert(fv.take(k + 1).last() == fs@[k as int]@);
        let f = &fs[k];
        match (string_at_exec(f, 0), string_at_exec(f, 1), string_at_exec(f, 2)) {
            (Some(o), Some(key), Some(v)) => {
                let on_pair = string_eq(o, &pair);
                let on_tool = string_eq(o, tool);
                let applies = string_eq(o, t) || on_tool || on_pair;
                if !reserved_key_exec(key) && applies {
                    let rank: u8 = if on_pair { 3 } else if on_tool { 2 } else { 1 };
                    let ghost prev = triples_view(out@);
                    out.push((copy_string(key), copy_string(v), rank));
                    assert(triples_view(out@) =~= prev.push((key@, v@, scope_rank(o@, t@, tool@))));
                }
            },
            _ => {},
        }
        k = k + 1;
    }
    assert(fv.take(k as int) =~= fv);
    out
}

/// The highest scope priority at which `c` sets `k` (see `best_rank`).
fn best_rank_exec(c: &Vec<(String, String, u8)>, k: &String) -> (r: u8)
    requires
        forall|i: int| 0 <= i < c@.len() ==> #[trigger] c@[i].2 <= 3,
    ensures
        r as nat == best_rank(triples_view(c@), k@, c@.len() as int),
        r <= 3,
{
    let ghost cv = triples_view(c@);
    let mut best: u8 = 0;
    let mut i: usize = 0;
    while i < c.len()
        invariant
            i <= c@.len(),
            cv == triples_view(c@),
            forall|j: int| 0 <= j < c@.len() ==> #[trigger] c@[j].2 <= 3,
            best as nat == best_rank(cv, k@, i as int),
            best <= 3,
        decreases c@.len() - i,
    {
        assert(cv[i as int] == (c@[i as int].0@, c@[i as int].1@, c@[i as int].2 as nat));
        if string_eq(&c[i].0, k) && c[i].2 > best {
            best = c[i].2;
        }
        i = i + 1;
    }
    best
}

/// The argument attributes of `t` built with `tool` (see `arg_attrs_of`).
fn arg_attrs_exec(fs: &Vec<Fact>, t: &String, tool: &String) -> (r: Vec<(String, String)>)
    ensures
        pairs_view(r@) == arg_attrs_of(facts_view(fs@), t@, tool@),
{
    let c = scoped_attrs_exec(fs, t, tool);
    let ghost cv = triples_view(c@);
    proof { lemma_ranks_small(facts_view(fs@), t@, tool@); }
    assert forall|i: int| 0 <= i < c@.len() implies #[trigger] c@[i].2 <= 3 by {
        assert(cv[i].2 == c@[i].2 as nat);
    }
    let mut out: Vec<(String, String)> = Vec::new();
    let mut i: usize = 0;
    assert(pairs_view(out@) =~= Seq::<(Seq<char>, Seq<char>)>::empty());
    while i < c.len()
        invariant
            i <= c@.len(),
            cv == triples_view(c@),
            forall|j: int| 0 <= j < c@.len() ==> #[trigger] c@[j].2 <= 3,
            pairs_view(out@) == top_pairs(cv, i as int),
        decreases c@.len() - i,
    {
        assert(cv[i as int] == (c@[i as int].0@, c@[i as int].1@, c@[i as int].2 as nat));
        let best = best_rank_exec(&c, &c[i].0);
        if c[i].2 == best {
            let ghost prev = pairs_view(out@);
            out.push((copy_string(&c[i].0), copy_string(&c[i].1)));
            assert(pairs_view(out@) =~= prev.push((cv[i as int].0, cv[i as int].1)));
        }
        i = i + 1;
    }
    out
}

proof fn lemma_ranks_small(fs: Seq<SpecFact>, t: Seq<char>, tool: Seq<char>)
    ensures
        forall|i: int| 0 <= i < scoped_attrs(fs, t, tool).len() ==> #[trigger] scoped_attrs(fs, t, tool)[i].2 <= 3,
    decreases fs.len(),
{
    if fs.len() > 0 {
        lemma_ranks_small(fs.drop_last(), t, tool);
        let prev = scoped_attrs(fs.drop_last(), t, tool);
        assert forall|i: int| 0 <= i < scoped_attrs(fs, t, tool).len() implies #[trigger] scoped_attrs(fs, t, tool)[i].2 <= 3 by {
            if i < prev.len() {
                assert(prev[i].2 <= 3);
            }
        }
    }
}

/// `name` joined to the directory `dir` (see `path_join`).
fn path_join_exec(dir: &String, name: &String) -> (r: String)
    ensures
        r@ == path_join(dir@, name@),
{
    let ncs = string_chars(name);
    if ncs.len() > 0 && ncs[0] == '/' {
        return copy_string(name);
    }
    let dcs = string_chars(dir);
    let mut r = copy_string(dir);
    if dcs.len() > 0 && dcs[dcs.len() - 1] != '/' {
        push_all(&mut r, "/");
    }
    push_string(&mut r, name);
    r
}

/// The message of the first argument refused, if any (see `first_refused`).
fn check_args(args: &Vec<String>) -> (r: Result<(), String>)
    ensures
        match first_refused(strings_view(args@)) {
            Some(m) => r matches Err(x) && x@ == m,
            None => r is Ok,
        },
{
    let ghost av = strings_view(args@);
    let mut i: usize = 0;
    assert(av.skip(0) =~= av);
    while i < args.len()
        invariant
            i <= args@.len(),
            av == strings_view(args@),
            first_refused(av) == first_refused(av.skip(i as int)),
        decreases args@.len() - i,
    {
        assert(av.skip(i as int)[0] == args@[i as int]@);
        assert(av.skip(i as int).skip(1) =~= av.skip(i + 1));
        match validate_argument(args[i].as_str()) {
            Err(m) => {
                return Err(m);
            },
            Ok(_) => {},
        }
        i = i + 1;
    }
    Ok(())
}

/// The build kind that runs a system tool, configured by the target's attributes.
pub struct SystemTool;

impl SystemTool {
    pub fn new() -> (r: Self) {
        SystemTool
    }

    /// The plan once the tool is known (see `tool_plan_rest`).
    fn plan_rest(&self, target: &TargetLabel, db: &mut Engine, tool: &String, working_dir: &str) -> (r: Result<BuildPlan, PlanError>)
        ensures
            final(db)@ == old(db)@,
            plan_view(r) == tool_plan_rest(old(db)@, target@, tool@, working_dir@),
    {
        proof {
            reveal_strlit("source_location");
            reveal_strlit("sources");
            reveal_strlit("constraint_failed");
            reveal_strlit("outputs");
            reveal_strlit("attr");
        }
        let ghost e = db@;
        let ts = target.to_string();
        assert("sources"@.len() != "source_location"@.len());
        let sfs = match query_all(db, "sources") {
            Ok(fs) => fs,
            Err(x) => {
                return Err(PlanError::Query(x));
            },
        };
        let sources = second_where_exec(&sfs, ts.as_str());
        assert("constraint_failed"@.len() != "source_location"@.len());
        let cfs = match query_all(db, "constraint_failed") {
            Ok(fs) => fs,
            Err(x) => {
                return Err(PlanError::Query(x));
            },
        };
        let failed = second_where_exec(&cfs, ts.as_str());
        if failed.len() > 0 {
            let mut m = str_to_string("Target ");
            push_string(&mut m, &ts);
            push_all(&mut m, " ");
            push_string(&mut m, &failed[0]);
            return Err(PlanError::Refused(m));
        }
        assert("outputs"@.len() != "source_location"@.len());
        let ofs = match query_all(db, "outputs") {
            Ok(fs) => fs,
            Err(x) => {
                return Err(PlanError::Query(x));
            },
        };
        assert("attr"@.len() != "source_location"@.len());
        let afs = match query_all(db, "attr") {
            Ok(fs) => fs,
            Err(x) => {
                return Err(PlanError::Query(x));
            },
        };
        let declared = second_where_exec(&ofs, ts.as_str());
        self.plan_args(target, db, tool, working_dir, sources, declared, &afs)
    }

    /// The plan once the sources, the declared outputs and the attributes are known (see
    /// `tool_plan_args`).
    fn plan_args(
        &self,
        target: &TargetLabel,
        db: &mut Engine,
        tool: &String,
        working_dir: &str,
        sources: Vec<String>,
        declared: Vec<String>,
        afs: &Vec<Fact>,
    ) -> (r: Result<BuildPlan, PlanError>)
        ensures
            final(db)@ == old(db)@,
            plan_view(r) == tool_plan_args(old(db)@, target@, tool@, working_dir@, strings_view(sources@), strings_view(declared@), facts_view(afs@)),
    {
        proof {
            reveal_strlit("source_location");
            reveal_strlit("toolchain");
            reveal_strlit("target/");
            reveal_strlit("true");
        }
        let ghost e = db@;
        let ts = target.to_string();
        let output = if declared.len() > 0 {
            copy_string(&declared[0])
        } else {
            let dir = match third_where_exec(afs, ts.as_str(), "output_dir") {
                Some(d) => d,
                None => {
                    let mut d = str_to_string("target/");
                    push_string(&mut d, tool);
                    d
                },
            };
            proof { reveal_strlit(":"); }
            let name = replace_text(&target.target, ":", &str_to_string("_"));
            path_join_exec(&dir, &name)
        };
        let arg_attrs = arg_attrs_exec(afs, &ts, tool);
        let args = build_args(arg_attrs, &sources, &output, target);
        match check_args(&args) {
            Err(m) => {
                return Err(PlanError::Refused(m));
            },
            Ok(_) => {},
        }
        assert("toolchain"@.len() != "source_location"@.len());
        let tfs = match query_all(db, "toolchain") {
            Ok(fs) => fs,
            Err(x) => {
                return Err(PlanError::Query(x));
            },
        };
        let path = match third_where_exec(&tfs, ts.as_str(), tool.as_str()) {
            Some(p) => p,
            None => {
                let mut m = copy_string(tool);
                push_all(&mut m, " not found for target ");
                push_string(&mut m, &ts);
                return Err(PlanError::Refused(m));
            },
        };
        match validate_argument(path.as_str()) {
            Err(m) => {
                return Err(PlanError::Refused(m));
            },
            Ok(_) => {},
        }
        let no_sandbox = match third_where_exec(afs, ts.as_str(), "no_sandbox") {
            Some(v) => str_eq(v.as_str(), "true"),
            None => false,
        };
        let mut outputs: Vec<String> = Vec::new();
        outputs.push(output);
        let plan = BuildPlan {
            target: TargetLabel { package: copy_string(&target.package), target: copy_string(&target.target) },
            command: path,
            args,
            env: Vec::new(),
            inputs: sources,
            outputs,
            working_dir: str_to_string(working_dir),
            no_sandbox,
        };
        assert(plan@.env =~= Seq::<(Seq<char>, Seq<char>)>::empty());
        assert(plan@.outputs =~= seq![plan@.outputs[0]]);
        Ok(plan)
    }
}

impl BuildKind for SystemTool {
    open spec fn kind_name(&self) -> Seq<char> {
        "system_tool"@
    }

    open spec fn planned(&self, e: SpecEngine, target: (Seq<char>, Seq<char>), working_dir: Seq<char>) -> (SpecEngine, SpecPlanned) {
        tool_planned(e, target, working_dir)
    }

    fn name(&self) -> (r: &str) {
        "system_tool"
    }

    fn plan(&self, target: &TargetLabel, db: &mut Engine, working_dir: &str) -> (r: Result<BuildPlan, PlanError>) {
        proof {
            reveal_strlit("source_location");
            reveal_strlit("attr");
            reveal_strlit("tool");
            reveal_strlit("requires_tool");
        }
        let ts = target.to_string();
        assert("attr"@.len() != "source_location"@.len());
        let afs = match query_all(db, "attr") {
            Ok(fs) => fs,
            Err(x) => {
                return Err(PlanError::Query(x));
            },
        };
        let tool = match third_where_exec(&afs, ts.as_str(), "tool") {
            Some(t) => t,
            None => {
                let mut m = str_to_string("system_tool requires 'tool' attribute for target ");
                push_string(&mut m, &ts);
                return Err(PlanError::Refused(m));
            },
        };
        match validate_tool_name(tool.as_str()) {
            Err(m) => {
                return Err(PlanError::Refused(m));
            },
            Ok(_) => {},
        }
        let mut args: Vec<Value> = Vec::new();
        args.push(Value::String(copy_string(&ts)));
        args.push(Value::String(copy_string(&tool)));
        let f = Fact { predicate: str_to_string("requires_tool"), args };
        assert(f@ == requires_tool_fact(ts@, tool@)) by {
            assert(f@.args =~= seq![SpecValue::Str(ts@), SpecValue::Str(tool@)]);
        }
        let mut fs: Vec<Fact> = Vec::new();
        fs.push(f);
        assert(facts_view(fs@) =~= seq![requires_tool_fact(ts@, tool@)]);
        db.insert_facts(fs);
        self.plan_rest(target, db, &tool, working_dir)
    }
}

} // verus!
