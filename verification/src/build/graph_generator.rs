use vstd::prelude::*;
use crate::text::{str_eq, str_to_string, push_all, push_string};
use crate::datalog::types::{Fact, SpecFact, TargetLabel, facts_view, copy_string};
use crate::datalog::store::{SpecEngine, strings_view};
use crate::datalog::semantics::string_at;
use crate::datalog::eval::string_at_exec;
use crate::datalog::engine::Engine;
use crate::datalog::query::{query_result, filters_view};
use crate::build::args::label_text;
use crate::build::plan::{BuildPlan, SpecBuildPlan, PlanError, SpecPlanError, SpecPlanned, BuildKind};
use crate::build::system_tool::{third_where, second_where, query_all, third_where_exec, second_where_exec};

verus! {

/// The queries a graph can be drawn from.
pub open spec fn known_query(q: Seq<char>) -> bool {
    q == "transitive_deps"@ || q == "all_rdeps"@ || q == "deps"@ || q == "rdeps"@
}

/// The DOT lines of the edges that facts with two string arguments stand for, in order.
pub open spec fn edge_lines(fs: Seq<SpecFact>) -> Seq<char>
    decreases fs.len(),
{
    if fs.len() == 0 {
        Seq::empty()
    } else {
        let prev = edge_lines(fs.drop_last());
        match (string_at(fs.last(), 0), string_at(fs.last(), 1)) {
            (Some(a), Some(b)) => prev + "  \""@ + a + "\" -> \""@ + b + "\";\n"@,
            _ => prev,
        }
    }
}

/// The shell script that writes the DOT graph of the facts to `out`.
pub open spec fn graph_script(out: Seq<char>, fs: Seq<SpecFact>) -> Seq<char> {
    "cat > "@ + out + " << 'GRAPHEOF'\n"@ + "digraph deps {\n"@ + edge_lines(fs) + "}\n"@ + "\nGRAPHEOF\n"@
}

/// Planning a graph target: the `root` and `query` attributes name the query (by default
/// `transitive_deps`) whose facts from the root are drawn into the first declared output.
pub open spec fn graph_plan(e: SpecEngine, t: (Seq<char>, Seq<char>)) -> SpecPlanned {
    let ts = label_text(t);
    match query_result(e, "attr"@, Seq::empty()) {
        Err(x) => Err(SpecPlanError::Query(x)),
        Ok(afs) => match third_where(afs, ts, "root"@) {
            None => Err(SpecPlanError::Refused("graph_generator target "@ + ts + " missing 'root' attribute"@)),
            Some(root) => {
                let q = match third_where(afs, ts, "query"@) {
                    Some(q) => q,
                    None => "transitive_deps"@,
                };
                match query_result(e, "outputs"@, Seq::empty()) {
                    Err(x) => Err(SpecPlanError::Query(x)),
                    Ok(ofs) => {
                        let outs = second_where(ofs, ts);
                        if outs.len() == 0 {
                            Err(SpecPlanError::Refused("graph_generator target "@ + ts + " has no outputs"@))
                        } else if !known_query(q) {
                            Err(SpecPlanError::Refused("Unknown query type: "@ + q))
                        } else {
                            match query_result(e, q, seq![Some(root), None]) {
                                Err(x) => Err(SpecPlanError::Query(x)),
                                Ok(rfs) => Ok(SpecBuildPlan {
                                    target: t,
                                    command: "/bin/sh"@,
                                    args: seq!["-c"@, graph_script(outs[0], rfs)],
                                    env: Seq::empty(),
                                    inputs: Seq::empty(),
                                    outputs: seq![outs[0]],
                                    working_dir: "."@,
                                    no_sandbox: false,
                                }),
                            }
                        }
                    },
                }
            },
        },
    }
}

/// The build kind that writes a dependency graph in DOT.
pub struct GraphGenerator;

fn edge_lines_exec(fs: &Vec<Fact>) -> (r: String)
    ensures
        r@ == edge_lines(facts_view(fs@)),
{
    let ghost fv = facts_view(fs@);
    let mut out = String::new();
    let mut k: usize = 0;
    assert(fv.take(0) =~= Seq::<SpecFact>::empty());
    while k < fs.len()
        invariant
            k <= fs@.len(),
            fv == facts_view(fs@),
            out@ == edge_lines(fv.take(k as int)),
        decreases fs@.len() - k,
    {
        assert(fv.take(k + 1).drop_last() =~= fv.take(k as int));
        assert(fv.take(k + 1).last() == fs@[k as int]@);
        match (string_at_exec(&fs[k], 0), string_at_exec(&fs[k], 1)) {
            (Some(a), Some(b)) => {
                let ghost prev = out@;
                push_all(&mut out, "  \"");
                push_string(&mut out, a);
                push_all(&mut out, "\" -> \"");
                push_string(&mut out, b);
                push_all(&mut out, "\";\n");
                assert(out@ =~= prev + "  \""@ + a@ + "\" -> \""@ + b@ + "\";\n"@);
            },
            _ => {},
        }
        k = k + 1;
    }
    assert(fv.take(k as int) =~= fv);
    out
}

impl BuildKind for GraphGenerator {
    open spec fn kind_name(&self) -> Seq<char> {
        "graph_generator"@
    }

    open spec fn planned(&self, e: SpecEngine, target: (Seq<char>, Seq<char>), working_dir: Seq<char>) -> (SpecEngine, SpecPlanned) {
        (e, graph_plan(e, target))
    }

    fn name(&self) -> (r: &str) {
        "graph_generator"
    }

    fn plan(&self, target: &TargetLabel, db: &mut Engine, working_dir: &str) -> (r: Result<BuildPlan, PlanError>) {
        proof {
            reveal_strlit("source_location");
            reveal_strlit("attr");
            reveal_strlit("outputs");
            reveal_strlit("transitive_deps");
            reveal_strlit("all_rdeps");
            reveal_strlit("deps");
            reveal_strlit("rdeps");
            assert("attr"@.len() != "source_location"@.len());
            assert("outputs"@.len() != "source_location"@.len());
        }
        let ts = target.to_string();
        let afs = match query_all(db, "attr") {
            Ok(fs) => fs,
            Err(x) => {
                return Err(PlanError::Query(x));
            },
        };
        let root = match third_where_exec(&afs, ts.as_str(), "root") {
            Some(r) => r,
            None => {
                let mut m = str_to_string("graph_generator target ");
                push_string(&mut m, &ts);
                push_all(&mut m, " missing 'root' attribute");
                return Err(PlanError::Refused(m));
            },
        };
        let q = match third_where_exec(&afs, ts.as_str(), "query") {
            Some(q) => q,
            None => str_to_string("transitive_deps"),
        };
        let ofs = match query_all(db, "outputs") {
            Ok(fs) => fs,
            Err(x) => {
                return Err(PlanError::Query(x));
            },
        };
        let outs = second_where_exec(&ofs, ts.as_str());
        if outs.len() == 0 {
            let mut m = str_to_string("graph_generator target ");
            push_string(&mut m, &ts);
            push_all(&mut m, " has no outputs");
            return Err(PlanError::Refused(m));
        }
        let known = str_eq(q.as_str(), "transitive_deps") || str_eq(q.as_str(), "all_rdeps")
            || str_eq(q.as_str(), "deps") || str_eq(q.as_str(), "rdeps");
        if !known {
            let mut m = str_to_string("Unknown query type: ");
            push_string(&mut m, &q);
            return Err(PlanError::Refused(m));
        }
        assert(q@ != "source_location"@) by {
            assert("transitive_deps"@[0] != "source_location"@[0]);
            assert("all_rdeps"@.len() != "source_location"@.len());
            assert("deps"@.len() != "source_location"@.len());
            assert("rdeps"@.len() != "source_location"@.len());
        }
        let filters: Vec<Option<&str>> = vec![Some(root.as_str()), None];
        assert(filters_view(filters@) =~= seq![Some(root@), None]);
        let rfs = match db.query(q.as_str(), filters.as_slice()) {
            Ok(fs) => fs,
            Err(x) => {
                return Err(PlanError::Query(x));
            },
        };
        let lines = edge_lines_exec(&rfs);
        let mut script = str_to_string("cat > ");
        push_string(&mut script, &outs[0]);
        push_all(&mut script, " << 'GRAPHEOF'\n");
        push_all(&mut script, "digraph deps {\n");
        push_string(&mut script, &lines);
        push_all(&mut script, "}\n");
        push_all(&mut script, "\nGRAPHEOF\n");
        let mut args: Vec<String> = Vec::new();
        args.push(str_to_string("-c"));
        args.push(script);
        let mut outputs: Vec<String> = Vec::new();
        outputs.push(copy_string(&outs[0]));
        let plan = BuildPlan {
            target: TargetLabel { package: copy_string(&target.package), target: copy_string(&target.target) },
            command: str_to_string("/bin/sh"),
            args,
            env: Vec::new(),
            inputs: Vec::new(),
            outputs,
            working_dir: str_to_string("."),
            no_sandbox: false,
        };
        assert(plan@.env =~= Seq::<(Seq<char>, Seq<char>)>::empty());
        assert(plan@.inputs =~= Seq::<Seq<char>>::empty());
        assert(plan@.outputs =~= seq![strings_view(outs@)[0]]);
        assert(plan@.args =~= seq!["-c"@, graph_script(strings_view(outs@)[0], facts_view(rfs@))]);
        Ok(plan)
    }
}

} // verus!
