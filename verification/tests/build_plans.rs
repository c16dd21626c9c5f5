use redwood::build::args::{build_args, expand_template};
use redwood::build::checks::validate_env_variables;
use redwood::build::external_dependency::ExternalDependency;
use redwood::build::graph_generator::GraphGenerator;
use redwood::build::plan::{BuildKind, BuildPlan, BuildResult, Executor, PlanError};
use redwood::build::registry::{BuildKindRegistry, KnownKind};
use redwood::build::system_tool::SystemTool;
use redwood::datalog::engine::Engine;
use redwood::datalog::parser::parse_program;
use redwood::datalog::types::{Fact, TargetLabel, Value};

fn engine_with(program: &str) -> Engine {
    let mut db = Engine::new();
    let (facts, rules) = parse_program(program).unwrap();
    db.insert_facts(facts);
    for r in rules {
        db.compile_rule(r).unwrap();
    }
    db
}

fn refused(r: Result<BuildPlan, PlanError>) -> String {
    match r {
        Err(PlanError::Refused(m)) => m,
        other => panic!("expected a refusal, got {:?}", other),
    }
}

#[test]
fn expand_template_fills_placeholders() {
    let t = TargetLabel::new("//app", "cli");
    let sources = vec!["a.c".to_string(), "b.c".to_string()];
    let r = expand_template("{output}|{target}|{sources}", &sources, &"out/bin".to_string(), &t);
    assert_eq!(r, "out/bin|//app:cli|a.c b.c");
    let r = expand_template("plain", &sources, &"out/bin".to_string(), &t);
    assert_eq!(r, "plain");
}

#[test]
fn build_args_orders_positional_first_and_places_sources() {
    let t = TargetLabel::new("//app", "cli");
    let attrs = vec![
        ("-o".to_string(), "{output}".to_string()),
        ("1".to_string(), "--release".to_string()),
        ("0".to_string(), "build".to_string()),
        ("-O3".to_string(), "".to_string()),
        ("-isystem /usr/include".to_string(), "".to_string()),
    ];
    let args = build_args(attrs, &vec!["main.c".to_string()], &"bin/cli".to_string(), &t);
    assert_eq!(
        args,
        vec!["build", "--release", "-o", "bin/cli", "-O3", "-isystem", "/usr/include", "main.c"]
    );
}

#[test]
fn build_args_sources_template_with_c_flag() {
    let t = TargetLabel::new("//app", "lib");
    let attrs = vec![("-c".to_string(), "{sources}".to_string()), ("-I".to_string(), "inc".to_string())];
    let srcs = vec!["a.c".to_string(), "b.c".to_string(), "a.c".to_string()];
    let args = build_args(attrs, &srcs, &"o".to_string(), &t);
    assert_eq!(args, vec!["-c", "a.c", "b.c", "a.c", "-I", "inc"]);
    let args = build_args(vec![("-I".to_string(), "inc".to_string())], &srcs, &"o".to_string(), &t);
    assert_eq!(args, vec!["-I", "inc", "a.c", "b.c"]);
}

#[test]
fn env_variables_are_checked_in_order() {
    assert!(validate_env_variables(&vec![("PATH".to_string(), "/bin".to_string())]).is_ok());
    assert_eq!(
        validate_env_variables(&vec![("A\0".to_string(), "x".to_string())]).unwrap_err(),
        "Environment key contains null byte: A\0"
    );
    assert_eq!(
        validate_env_variables(&vec![("A".to_string(), "x\0".to_string())]).unwrap_err(),
        "Environment value contains null byte: x\0"
    );
    assert_eq!(
        validate_env_variables(&vec![("OK".to_string(), "1".to_string()), ("A".to_string(), "x;y".to_string())]).unwrap_err(),
        "Environment value for 'A' contains dangerous shell metacharacter or pattern: ;"
    );
}

const TOOL_FACTS: &str = r#"
attr("//app:cli", "tool", "gcc").
attr("//app:cli", "-O3", "").
attr("//app:cli", "-o", "{output}").
sources("//app:cli", "main.c").
outputs("//app:cli", "bin/cli").
toolchain("//app:cli", "gcc", "/usr/bin/gcc").
"#;

#[test]
fn system_tool_plans_from_attributes() {
    let mut db = engine_with(TOOL_FACTS);
    let t = TargetLabel::new("//app", "cli");
    let plan = SystemTool::new().plan(&t, &mut db, "/work").unwrap();
    assert_eq!(plan.command, "/usr/bin/gcc");
    assert_eq!(plan.args, vec!["-O3", "-o", "bin/cli", "main.c"]);
    assert_eq!(plan.inputs, vec!["main.c"]);
    assert_eq!(plan.outputs, vec!["bin/cli"]);
    assert_eq!(plan.working_dir, "/work");
    assert!(!plan.no_sandbox);
    assert!(plan.env.is_empty());
    let rt = db.query("requires_tool", &[]).unwrap();
    assert_eq!(rt, vec![Fact::new("requires_tool", vec![Value::String("//app:cli".into()), Value::String("gcc".into())])]);
}

#[test]
fn system_tool_default_output_path() {
    let mut db = engine_with(
        r#"
attr("//app:cli", "tool", "gcc").
toolchain("//app:cli", "gcc", "/usr/bin/gcc").
attr("//app:cli", "no_sandbox", "true").
"#,
    );
    let t = TargetLabel::new("//app", "cli");
    let plan = SystemTool::new().plan(&t, &mut db, ".").unwrap();
    assert_eq!(plan.outputs, vec!["target/gcc/cli"]);
    assert!(plan.no_sandbox);
}

#[test]
fn system_tool_refusals() {
    let t = TargetLabel::new("//app", "cli");
    let mut db = engine_with(r#"sources("//app:cli", "main.c")."#);
    assert_eq!(
        refused(SystemTool::new().plan(&t, &mut db, ".")),
        "system_tool requires 'tool' attribute for target //app:cli"
    );
    let mut db = engine_with(r#"attr("//app:cli", "tool", "gcc;x")."#);
    assert!(refused(SystemTool::new().plan(&t, &mut db, ".")).contains("dangerous shell metacharacter"));
    let mut db = engine_with(&format!("{}{}", TOOL_FACTS, r#"constraint_failed("//app:cli", "needs a license")."#));
    assert_eq!(refused(SystemTool::new().plan(&t, &mut db, ".")), "Target //app:cli needs a license");
    let mut db = engine_with(r#"attr("//app:cli", "tool", "gcc")."#);
    assert_eq!(refused(SystemTool::new().plan(&t, &mut db, ".")), "gcc not found for target //app:cli");
    let mut db = engine_with(&format!("{}{}", TOOL_FACTS, r#"attr("//app:cli", "-D", "$(evil)")."#));
    assert!(refused(SystemTool::new().plan(&t, &mut db, ".")).contains("dangerous shell metacharacter or pattern"));
}

#[test]
fn graph_generator_writes_dot_script() {
    let mut db = engine_with(
        r#"
attr("//g:graph", "root", "//a:x").
attr("//g:graph", "query", "deps").
outputs("//g:graph", "g.dot").
deps("//a:x", "//b:y").
deps("//c:z", "//b:y").
"#,
    );
    let t = TargetLabel::new("//g", "graph");
    let plan = GraphGenerator.plan(&t, &mut db, ".").unwrap();
    assert_eq!(plan.command, "/bin/sh");
    assert_eq!(
        plan.args,
        vec![
            "-c".to_string(),
            "cat > g.dot << 'GRAPHEOF'\ndigraph deps {\n  \"//a:x\" -> \"//b:y\";\n}\n\nGRAPHEOF\n".to_string()
        ]
    );
    assert_eq!(plan.outputs, vec!["g.dot"]);
    assert_eq!(plan.working_dir, ".");
}

#[test]
fn graph_generator_refusals() {
    let t = TargetLabel::new("//g", "graph");
    let mut db = engine_with(r#"outputs("//g:graph", "g.dot")."#);
    assert_eq!(refused(GraphGenerator.plan(&t, &mut db, ".")), "graph_generator target //g:graph missing 'root' attribute");
    let mut db = engine_with(r#"attr("//g:graph", "root", "//a:x")."#);
    assert_eq!(refused(GraphGenerator.plan(&t, &mut db, ".")), "graph_generator target //g:graph has no outputs");
    let mut db = engine_with(r#"attr("//g:graph", "root", "//a:x"). attr("//g:graph", "query", "bogus"). outputs("//g:graph", "g.dot")."#);
    assert_eq!(refused(GraphGenerator.plan(&t, &mut db, ".")), "Unknown query type: bogus");
}

#[test]
fn external_dependency_plans_nothing_to_run() {
    let t = TargetLabel::new("//ext", "serde");
    let mut db = engine_with(r#"outputs("//ext:serde", "libserde.rlib")."#);
    let plan = ExternalDependency::new().plan(&t, &mut db, ".").unwrap();
    assert_eq!(plan.command, "true");
    assert!(plan.args.is_empty());
    assert_eq!(plan.outputs, vec!["libserde.rlib"]);
    assert!(plan.no_sandbox);
    let mut db = engine_with(r#"outputs("//other:x", "x")."#);
    assert_eq!(
        refused(ExternalDependency::new().plan(&t, &mut db, ".")),
        "External dependency //ext:serde has no outputs. Run 'cargo build --release' to build dependencies."
    );
}

#[test]
fn registry_finds_kinds_by_name() {
    let mut reg = BuildKindRegistry::new();
    assert!(reg.get("system_tool").is_none());
    reg.register(KnownKind::SystemTool(SystemTool::new()));
    reg.register(KnownKind::GraphGenerator(GraphGenerator));
    reg.register(KnownKind::ExternalDependency(ExternalDependency::new()));
    assert_eq!(reg.get("system_tool").unwrap().name(), "system_tool");
    assert_eq!(reg.get("graph_generator").unwrap().name(), "graph_generator");
    assert_eq!(reg.get("external_dependency").unwrap().name(), "external_dependency");
    assert!(reg.get("nope").is_none());
}

#[test]
fn executor_reports() {
    let plan = BuildPlan {
        target: TargetLabel::new("//app", "cli"),
        command: "gcc".to_string(),
        args: vec!["-o".to_string(), "x".to_string()],
        env: vec![],
        inputs: vec![],
        outputs: vec![],
        working_dir: "/w".to_string(),
        no_sandbox: true,
    };
    let result = BuildResult { success: false, stdout: "out".to_string(), stderr: "err".to_string(), exit_code: Some(2) };
    let ex = Executor::new();
    assert_eq!(
        ex.failure_report(&plan, &result, true),
        "Target '//app:cli': Build execution failed (sandboxed)\nCommand: gcc -o x\nWorking directory: /w\nExit code: 2\n\nstdout:\nout\nstderr:\nerr"
    );
    let result = BuildResult { success: false, stdout: String::new(), stderr: String::new(), exit_code: None };
    assert_eq!(
        ex.failure_report(&plan, &result, false),
        "Target '//app:cli': Build execution failed\nCommand: gcc -o x\nWorking directory: /w\nProcess terminated by signal\n\nstdout:\n\nstderr:\n"
    );
    assert_eq!(
        ex.launch_report(&plan, "not found"),
        "Target '//app:cli': Failed to execute command\nCommand: gcc -o x\nWorking directory: /w\nError: not found"
    );
}

#[test]
fn registering_a_name_again_replaces_its_kind() {
    let mut reg = BuildKindRegistry::new();
    reg.register(KnownKind::GraphGenerator(GraphGenerator));
    reg.register(KnownKind::SystemTool(SystemTool::new()));
    reg.register(KnownKind::GraphGenerator(GraphGenerator));
    assert!(matches!(reg.get("graph_generator"), Some(KnownKind::GraphGenerator(_))));
    assert!(matches!(reg.get("system_tool"), Some(KnownKind::SystemTool(_))));
}

#[test]
fn attribute_scopes_keep_the_highest_priority_value() {
    let mut db = engine_with(
        r#"
attr("//app:server", "tool", "gcc").
toolchain("//app:server", "gcc", "/usr/bin/gcc").
outputs("//app:server", "bin/server").
attr("//app:server", "-march", "generic").
attr("gcc", "-march", "x86-64").
attr("//app:server:gcc", "-march", "native").
attr("gcc", "-fPIC").
"#,
    );
    let t = TargetLabel::new("//app", "server");
    let plan = SystemTool::new().plan(&t, &mut db, ".").unwrap();
    assert_eq!(plan.args, vec!["-march", "native"]);
}
