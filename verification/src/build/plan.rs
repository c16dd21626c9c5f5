use vstd::prelude::*;
use crate::text::{int_text, i64_to_string, push_all, push_string, join, join_strings};
use crate::datalog::types::TargetLabel;
use crate::datalog::builtins::{EvalError, SpecEvalError};
use crate::datalog::store::{SpecEngine, strings_view};
use crate::datalog::engine::Engine;
use crate::build::args::label_text;

verus! {

/// What running a target's build takes: the command, its arguments and environment, the
/// files it reads and writes, and where it runs.
#[derive(Debug, Clone)]
pub struct BuildPlan {
    pub target: TargetLabel,
    pub command: String,
    pub args: Vec<String>,
    pub env: Vec<(String, String)>,
    pub inputs: Vec<String>,
    pub outputs: Vec<String>,
    pub working_dir: String,
    pub no_sandbox: bool,
}

pub struct SpecBuildPlan {
    pub target: (Seq<char>, Seq<char>),
    pub command: Seq<char>,
    pub args: Seq<Seq<char>>,
    pub env: Seq<(Seq<char>, Seq<char>)>,
    pub inputs: Seq<Seq<char>>,
    pub outputs: Seq<Seq<char>>,
    pub working_dir: Seq<char>,
    pub no_sandbox: bool,
}

impl View for BuildPlan {
    type V = SpecBuildPlan;

    open spec fn view(&self) -> SpecBuildPlan {
        SpecBuildPlan {
            target: self.target@,
            command: self.command@,
            args: strings_view(self.args@),
            env: self.env@.map_values(|e: (String, String)| (e.0@, e.1@)),
            inputs: strings_view(self.inputs@),
            outputs: strings_view(self.outputs@),
            working_dir: self.working_dir@,
            no_sandbox: self.no_sandbox,
        }
    }
}

/// Why a build could not be planned.
#[derive(Debug)]
pub enum PlanError {
    /// A query of the facts stopped (see `EvalError`).
    Query(EvalError),
    /// The target's facts do not give a plan that can run; the message says why.
    Refused(String),
}

pub enum SpecPlanError {
    Query(SpecEvalError),
    Refused(Seq<char>),
}

impl View for PlanError {
    type V = SpecPlanError;

    open spec fn view(&self) -> SpecPlanError {
        match self {
            PlanError::Query(e) => SpecPlanError::Query(e@),
            PlanError::Refused(m) => SpecPlanError::Refused(m@),
        }
    }
}

pub type SpecPlanned = Result<SpecBuildPlan, SpecPlanError>;

pub open spec fn plan_view(r: Result<BuildPlan, PlanError>) -> SpecPlanned {
    match r {
        Ok(p) => Ok(p@),
        Err(e) => Err(e@),
    }
}

/// A kind of build: how the facts of a target turn into a plan.
pub trait BuildKind {
    /// The name by which targets ask for this kind.
    spec fn kind_name(&self) -> Seq<char>;

    /// The engine after planning `target`, and the plan or the reason there is none.
    spec fn planned(&self, e: SpecEngine, target: (Seq<char>, Seq<char>), working_dir: Seq<char>) -> (SpecEngine, SpecPlanned);

    fn name(&self) -> (r: &str)
        ensures
            r@ == self.kind_name(),
    ;

    /// Plans the build of `target` from the facts of `db`, to run in `working_dir`.
    fn plan(&self, target: &TargetLabel, db: &mut Engine, working_dir: &str) -> (r: Result<BuildPlan, PlanError>)
        ensures
            self.planned(old(db)@, target@, working_dir@) == (final(db)@, plan_view(r)),
    ;
}

/// What running a build gave.
pub struct BuildResult {
    pub success: bool,
    pub stdout: String,
    pub stderr: String,
    pub exit_code: Option<i32>,
}

/// Runs build plans.
pub struct Executor;

/// How a failed run ended.
pub open spec fn exit_info(code: Option<i32>) -> Seq<char> {
    match code {
        Some(c) => "Exit code: "@ + int_text(c as int),
        None => "Process terminated by signal"@,
    }
}

/// The command line and directory of a plan, as reports show them.
pub open spec fn command_lines(p: SpecBuildPlan) -> Seq<char> {
    "Command: "@ + p.command + " "@ + join(p.args, " "@) + "\nWorking directory: "@ + p.working_dir
}

/// The report of a run that failed.
pub open spec fn failure_text(p: SpecBuildPlan, code: Option<i32>, stdout: Seq<char>, stderr: Seq<char>, sandboxed: bool) -> Seq<char> {
    "Target '"@ + label_text(p.target) + "': Build execution failed"@
        + (if sandboxed { " (sandboxed)"@ } else { Seq::empty() }) + "\n"@
        + command_lines(p) + "\n"@ + exit_info(code) + "\n\nstdout:\n"@ + stdout + "\nstderr:\n"@ + stderr
}

/// The report of a command that could not be started.
pub open spec fn launch_text(p: SpecBuildPlan, error: Seq<char>) -> Seq<char> {
    "Target '"@ + label_text(p.target) + "': Failed to execute command\n"@ + command_lines(p) + "\nError: "@ + error
}

fn push_command_lines(m: &mut String, plan: &BuildPlan)
    ensures
        final(m)@ == old(m)@ + command_lines(plan@),
{
    push_all(m, "Command: ");
    push_string(m, &plan.command);
    push_all(m, " ");
    let joined = join_strings(&plan.args, " ");
    push_string(m, &joined);
    push_all(m, "\nWorking directory: ");
    push_string(m, &plan.working_dir);
}

impl Executor {
    pub fn new() -> (r: Self) {
        Executor
    }

    /// The report of a failed run of `plan` (see `failure_text`).
    pub fn failure_report(&self, plan: &BuildPlan, result: &BuildResult, sandboxed: bool) -> (r: String)
        ensures
            r@ == failure_text(plan@, result.exit_code, result.stdout@, result.stderr@, sandboxed),
    {
        let mut m = crate::text::str_to_string("Target '");
        let label = plan.target.to_string();
        push_string(&mut m, &label);
        push_all(&mut m, "': Build execution failed");
        if sandboxed {
            push_all(&mut m, " (sandboxed)");
        }
        push_all(&mut m, "\n");
        push_command_lines(&mut m, plan);
        push_all(&mut m, "\n");
        match result.exit_code {
            Some(c) => {
                push_all(&mut m, "Exit code: ");
                let t = i64_to_string(c as i64);
                push_string(&mut m, &t);
            },
            None => {
                push_all(&mut m, "Process terminated by signal");
            },
        }
        push_all(&mut m, "\n\nstdout:\n");
        push_string(&mut m, &result.stdout);
        push_all(&mut m, "\nstderr:\n");
        push_string(&mut m, &result.stderr);
        proof {
            reveal_strlit(" (sandboxed)");
        }
        assert(m@ =~= failure_text(plan@, result.exit_code, result.stdout@, result.stderr@, sandboxed));
        m
    }

    /// The report of a command of `plan` that could not be started (see `launch_text`).
    pub fn launch_report(&self, plan: &BuildPlan, error: &str) -> (r: String)
        ensures
            r@ == launch_text(plan@, error@),
    {
        let mut m = crate::text::str_to_string("Target '");
        let label = plan.target.to_string();
        push_string(&mut m, &label);
        push_all(&mut m, "': Failed to execute command\n");
        push_command_lines(&mut m, plan);
        push_all(&mut m, "\nError: ");
        push_all(&mut m, error);
        assert(m@ =~= launch_text(plan@, error@));
        m
    }
}

} // verus!
