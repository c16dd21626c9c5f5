use vstd::prelude::*;
use crate::text::{str_to_string, push_all, push_string};
use crate::datalog::types::{TargetLabel, copy_string};
use crate::datalog::store::SpecEngine;
use crate::datalog::semantics::strings_at;
use crate::datalog::eval::strings_at_exec;
use crate::datalog::engine::Engine;
use crate::datalog::query::{query_result, filters_view};
use crate::build::args::label_text;
use crate::build::plan::{BuildPlan, SpecBuildPlan, PlanError, SpecPlanError, SpecPlanned, BuildKind};

verus! {

/// Planning a dependency built elsewhere: nothing runs; the target's declared outputs (the
/// string second arguments of its `outputs` facts) are what it provides, and without any the
/// target is refused.
pub open spec fn external_plan(e: SpecEngine, t: (Seq<char>, Seq<char>)) -> SpecPlanned {
    let ts = label_text(t);
    match query_result(e, "outputs"@, seq![Some(ts)]) {
        Err(x) => Err(SpecPlanError::Query(x)),
        Ok(ofs) => {
            let outs = strings_at(ofs, 1);
            if outs.len() == 0 {
                Err(SpecPlanError::Refused("External dependency "@ + ts
                    + " has no outputs. Run 'cargo build --release' to build dependencies."@))
            } else {
                Ok(SpecBuildPlan {
                    target: t,
                    command: "true"@,
                    args: Seq::empty(),
                    env: Seq::empty(),
                    inputs: Seq::empty(),
                    outputs: outs,
                    working_dir: "."@,
                    no_sandbox: true,
                })
            }
        },
    }
}

/// The build kind of a dependency that another tool builds.
pub struct ExternalDependency;

impl ExternalDependency {
    pub fn new() -> (r: Self) {
        ExternalDependency
    }
}

impl BuildKind for ExternalDependency {
    open spec fn kind_name(&self) -> Seq<char> {
        "external_dependency"@
    }

    open spec fn planned(&self, e: SpecEngine, target: (Seq<char>, Seq<char>), working_dir: Seq<char>) -> (SpecEngine, SpecPlanned) {
        (e, external_plan(e, target))
    }

    fn name(&self) -> (r: &str) {
        "external_dependency"
    }

    fn plan(&self, target: &TargetLabel, db: &mut Engine, working_dir: &str) -> (r: Result<BuildPlan, PlanError>) {
        proof {
            reveal_strlit("source_location");
            reveal_strlit("outputs");
            assert("outputs"@.len() != "source_location"@.len());
        }
        let ts = target.to_string();
        let filters: Vec<Option<&str>> = vec![Some(ts.as_str())];
        assert(filters_view(filters@) =~= seq![Some(ts@)]);
        let ofs = match db.query("outputs", filters.as_slice()) {
            Ok(fs) => fs,
            Err(x) => {
                return Err(PlanError::Query(x));
            },
        };
        let outputs = strings_at_exec(&ofs, 1);
        if outputs.len() == 0 {
            let mut m = str_to_string("External dependency ");
            push_string(&mut m, &ts);
            push_all(&mut m, " has no outputs. Run 'cargo build --release' to build dependencies.");
            return Err(PlanError::Refused(m));
        }
        let plan = BuildPlan {
            target: TargetLabel { package: copy_string(&target.package), target: copy_string(&target.target) },
            command: str_to_string("true"),
            args: Vec::new(),
            env: Vec::new(),
            inputs: Vec::new(),
            outputs,
            working_dir: str_to_string("."),
            no_sandbox: true,
        };
        assert(plan@.args =~= Seq::<Seq<char>>::empty());
        assert(plan@.env =~= Seq::<(Seq<char>, Seq<char>)>::empty());
        assert(plan@.inputs =~= Seq::<Seq<char>>::empty());
        Ok(plan)
    }
}

} // verus!
