use redwood::build::plan::{BuildPlan, PlanError};
use redwood::build::registry::{BuildKindRegistry, KnownKind};
use redwood::build::system_tool::SystemTool;
use redwood::cli::hashes::{collect_source_hashes, file_hash_fact, hex16_exec, setting_hash_facts};
use redwood::cli::order::{check_output_conflicts, compute_build_levels, DepWalk};
use redwood::cli::query::{has_variables, is_pattern_fact, parse_query_with_repl_syntax, query_report, variable_fact_warning};
use redwood::cli::targets::{
    build_failure_message, dry_run_report, extract_namespace, plan_target, query_predicate, split_text, target_paths,
};
use redwood::datalog::engine::Engine;
use redwood::datalog::parser::parse_program;
use redwood::datalog::types::{Fact, Predicate, Rule, Term, TargetLabel, Value};

fn engine_with(program: &str) -> Engine {
    let mut db = Engine::new();
    let (facts, rules) = parse_program(program).unwrap();
    db.insert_facts(facts);
    for r in rules {
        db.compile_rule(r).unwrap();
    }
    db
}

fn hex(v: u64) -> String {
    format!("{:016x}", v)
}

#[test]
fn hex16_pads_to_sixteen_digits() {
    assert_eq!(hex16_exec(0x1234), "0000000000001234");
    assert_eq!(hex16_exec(u64::MAX), "ffffffffffffffff");
    assert_eq!(hex16_exec(0), "0000000000000000");
}

#[test]
fn file_hash_fact_hashes_contents() {
    let f = file_hash_fact("src/a.rs", b"abc");
    assert_eq!(f.predicate, "file_hash");
    assert_eq!(f.args[0], Value::String("src/a.rs".to_string()));
    assert_eq!(f.args[1], Value::String(hex(xxhash_rust::xxh3::xxh3_64(b"abc"))));
    assert_ne!(f.args[1], Value::String(hex(xxhash_rust::xxh3::xxh3_64(b"abd"))));
}

#[test]
fn collect_source_hashes_records_each_input() {
    let mut db = engine_with(
        r#"
sources("//app:cli", "a.c").
file_hash("a.c", "h1").
file_hash("d.o", "h2").
attr("//app:cli", "k", "v").
attr("//app:cli", "a", "b").
toolchain("//app:cli", "gcc", "/usr/bin/gcc").
deps("//app:cli", "//d:x").
outputs("//d:x", "d.o").
"#,
    );
    let t = TargetLabel::new("//app", "cli");
    let hs = collect_source_hashes(&t, &mut db).unwrap();
    assert_eq!(
        hs,
        vec![
            ("a.c".to_string(), "h1".to_string()),
            ("__attrs__".to_string(), hex(xxhash_rust::xxh3::xxh3_64(b"a=b;k=v;"))),
            ("__tool_gcc__".to_string(), hex(xxhash_rust::xxh3::xxh3_64(b"/usr/bin/gcc"))),
            ("d.o".to_string(), "h2".to_string()),
        ]
    );
}

#[test]
fn setting_hash_facts_cover_attributes_and_tools() {
    let mut db = engine_with(
        r#"
attr("//app:cli", "k", "v").
toolchain("//app:cli", "gcc", "/usr/bin/gcc").
toolchain("//other:x", "gcc", "/opt/gcc").
"#,
    );
    let fs = setting_hash_facts(&mut db, "//app:cli").unwrap();
    assert_eq!(
        fs,
        vec![
            Fact::new("file_hash", vec![Value::String("__attrs__".into()), Value::String(hex(xxhash_rust::xxh3::xxh3_64(b"k=v;")))]),
            Fact::new(
                "file_hash",
                vec![Value::String("__tool_gcc__".into()), Value::String(hex(xxhash_rust::xxh3::xxh3_64(b"/usr/bin/gcc")))]
            ),
        ]
    );
}

#[test]
fn dependency_walk_and_build_order() {
    let mut db = engine_with(r#"deps("//a:x", "//b:y"). deps("//b:y", "//c:z")."#);
    let targets = vec![TargetLabel::new("//a", "x")];
    let mut walk = DepWalk::new(&targets);
    let mut seen = Vec::new();
    while let Some(t) = walk.next_target() {
        walk.record_deps(&mut db, &t).unwrap();
        seen.push(t);
    }
    assert_eq!(seen, vec!["//a:x", "//b:y", "//c:z"]);
    assert_eq!(walk.order(&targets).unwrap(), vec!["//c:z", "//b:y", "//a:x"]);
}

#[test]
fn dependency_cycle_is_reported() {
    let mut db = engine_with(r#"deps("//a:x", "//b:y"). deps("//b:y", "//a:x")."#);
    let targets = vec![TargetLabel::new("//a", "x")];
    let mut walk = DepWalk::new(&targets);
    while let Some(t) = walk.next_target() {
        walk.record_deps(&mut db, &t).unwrap();
    }
    assert_eq!(walk.order(&targets).unwrap_err(), "Circular dependency detected involving //a:x");
}

#[test]
fn build_levels_put_dependencies_first() {
    let mut db = engine_with(r#"deps("//a:x", "//b:y"). deps("//b:y", "//c:z"). deps("//d:w", "//c:z")."#);
    let ordered = vec![
        TargetLabel::new("//c", "z"),
        TargetLabel::new("//b", "y"),
        TargetLabel::new("//d", "w"),
        TargetLabel::new("//a", "x"),
    ];
    let levels = compute_build_levels(&ordered, &mut db).unwrap();
    assert_eq!(
        levels,
        vec![
            vec![TargetLabel::new("//c", "z")],
            vec![TargetLabel::new("//b", "y"), TargetLabel::new("//d", "w")],
            vec![TargetLabel::new("//a", "x")],
        ]
    );
}

fn plan_with_outputs(t: TargetLabel, outs: &[&str]) -> BuildPlan {
    BuildPlan {
        target: t,
        command: "true".to_string(),
        args: vec![],
        env: vec![],
        inputs: vec![],
        outputs: outs.iter().map(|s| s.to_string()).collect(),
        working_dir: ".".to_string(),
        no_sandbox: true,
    }
}

#[test]
fn output_conflicts_are_reported() {
    let a = TargetLabel::new("//a", "x");
    let b = TargetLabel::new("//b", "y");
    let ok = vec![(a.clone(), plan_with_outputs(a.clone(), &["x.o"])), (b.clone(), plan_with_outputs(b.clone(), &["y.o"]))];
    assert!(check_output_conflicts(&ok).is_ok());
    let bad = vec![(a.clone(), plan_with_outputs(a.clone(), &["x.o", "out"])), (b.clone(), plan_with_outputs(b.clone(), &["out"]))];
    assert_eq!(
        check_output_conflicts(&bad).unwrap_err(),
        "Output conflicts detected:\n  out declared by:\n    //a:x\n    //b:y\n\nEach output file must be produced by exactly one target."
    );
}

#[test]
fn repl_queries_with_variables_become_rules() {
    let (facts, rules) = parse_query_with_repl_syntax("target(X)").unwrap();
    assert!(facts.is_empty());
    assert_eq!(rules.len(), 1);
    assert_eq!(rules[0].head.name, "query");
    assert_eq!(rules[0].head.args, vec![Term::Variable("X".to_string())]);
    assert_eq!(rules[0].body[0].name, "target");
    let (facts, rules) = parse_query_with_repl_syntax("target(\"//a:b\")").unwrap();
    assert_eq!(facts, vec![Fact::new("target", vec![Value::String("//a:b".into())])]);
    assert!(rules.is_empty());
    assert_eq!(parse_query_with_repl_syntax("foo(").unwrap_err(), "Failed to parse query");
    assert_eq!(query_predicate(&facts, &rules).unwrap(), "target");
    assert_eq!(query_predicate(&vec![], &vec![]).unwrap_err(), "No predicate found in query");
}

#[test]
fn query_report_lines() {
    let fs = vec![
        Fact::new("p", vec![Value::String("a".into()), Value::Integer(1), Value::Bool(true)]),
        Fact::new("p", vec![Value::Label(TargetLabel::new("//x", "y")), Value::Path("src".into())]),
    ];
    assert_eq!(query_report("p", &fs), "p(\"a\", 1, true).\np(\"//x:y\", \"src\").\n");
    let locs = vec![
        Fact::new("source_location", vec![Value::String("t".into()), Value::String("BUILD.datalog".into()), Value::Integer(3)]),
        Fact::new("source_location", vec![Value::String("t".into())]),
    ];
    assert_eq!(query_report("source_location", &locs), "BUILD.datalog:3 - t\n");
}

#[test]
fn variables_in_given_facts() {
    let f = Fact::new("deps", vec![Value::String("X".into())]);
    assert!(has_variables(&f));
    assert!(is_pattern_fact(&f));
    assert!(has_variables(&Fact::new("deps", vec![Value::String("_".into())])));
    assert!(!is_pattern_fact(&Fact::new("deps", vec![Value::String("_".into())])));
    assert!(!has_variables(&Fact::new("deps", vec![Value::String("x".into()), Value::Integer(1)])));
    assert_eq!(
        variable_fact_warning(&f),
        "Warning: Facts cannot contain variables: deps(\"X\").\n         Did you mean: deps(X) :- target(X). ?\n         (Use a rule to quantify over all targets)\n"
    );
}

#[test]
fn namespaces_of_labels() {
    assert_eq!(extract_namespace("//ns//pkg:t"), "//ns");
    assert_eq!(extract_namespace("//pkg:t"), "//");
    assert_eq!(extract_namespace("a//b//c"), "//b");
    assert_eq!(split_text("a//b//c", "//"), vec!["a", "b", "c"]);
    assert_eq!(split_text("///", "//"), vec!["", "/"]);
}

#[test]
fn plan_target_decisions() {
    let mut reg = BuildKindRegistry::new();
    reg.register(KnownKind::SystemTool(SystemTool::new()));
    let t = TargetLabel::new("//app", "cli");
    let mut db = engine_with(r#"kind("//app:cli", "system_tool")."#);
    assert!(plan_target(&mut db, &reg, &t, ".").unwrap().is_none());
    let mut db = engine_with(r#"needs_rebuild("//app:cli")."#);
    match plan_target(&mut db, &reg, &t, ".") {
        Err(PlanError::Refused(m)) => assert_eq!(m, "No kind defined for target //app:cli"),
        other => panic!("unexpected {:?}", other),
    }
    let mut db = engine_with(r#"needs_rebuild("//app:cli"). kind("//app:cli", "mystery")."#);
    match plan_target(&mut db, &reg, &t, ".") {
        Err(PlanError::Refused(m)) => assert_eq!(m, "Unknown build kind: mystery"),
        other => panic!("unexpected {:?}", other),
    }
    let mut db = engine_with(
        r#"
needs_rebuild("//app:cli").
kind("//app:cli", "system_tool").
attr("//app:cli", "tool", "gcc").
toolchain("//app:cli", "gcc", "/usr/bin/gcc").
outputs("//app:cli", "cli").
"#,
    );
    let plan = plan_target(&mut db, &reg, &t, ".").unwrap().unwrap();
    assert_eq!(plan.command, "/usr/bin/gcc");
    assert_eq!(plan.outputs, vec!["cli"]);
}

#[test]
fn target_paths_read_second_arguments() {
    let mut db = engine_with(r#"sources("//a:x", "x.c"). sources("//a:x", "y.c"). sources("//b:y", "z.c")."#);
    assert_eq!(target_paths(&mut db, "sources", "//a:x").unwrap(), vec!["x.c", "y.c"]);
}

#[test]
fn dry_run_and_failure_messages() {
    let t = TargetLabel::new("//app", "cli");
    let mut plan = plan_with_outputs(t.clone(), &["bin/cli"]);
    plan.command = "gcc".to_string();
    plan.args = vec!["-o".to_string(), "bin/cli".to_string()];
    plan.inputs = vec!["a.c".to_string(), "b.c".to_string()];
    assert_eq!(
        dry_run_report(&t, &plan),
        "[DRY RUN] Would build: //app:cli\n  Command: gcc\n  Args: -o bin/cli\n  Inputs: a.c, b.c\n  Outputs: bin/cli\n"
    );
    assert_eq!(
        build_failure_message(&t, Some(1)),
        "Target '//app:cli': Build failed with exit code 1\nSuggestion: Check the error output above for details"
    );
    assert_eq!(
        build_failure_message(&t, None),
        "Target '//app:cli': Build failed with terminated by signal\nSuggestion: Check the error output above for details"
    );
}

#[test]
fn rule_built_by_hand_is_accepted() {
    let mut db = Engine::new();
    let r = Rule::new(
        Predicate { name: "t".to_string(), args: vec![Term::Variable("X".to_string())] },
        vec![Predicate { name: "u".to_string(), args: vec![Term::Variable("X".to_string())] }],
    );
    assert!(db.compile_rule(r).is_ok());
}

#[test]
fn one_target_declaring_an_output_twice_is_a_conflict() {
    let a = TargetLabel::new("//a", "x");
    let twice = vec![(a.clone(), plan_with_outputs(a.clone(), &["out", "out"]))];
    assert_eq!(
        check_output_conflicts(&twice).unwrap_err(),
        "Output conflicts detected:\n  out declared by:\n    //a:x\n    //a:x\n\nEach output file must be produced by exactly one target."
    );
    assert!(check_output_conflicts(&vec![]).is_ok());
}

#[test]
fn pattern_prefix_strips_the_recursive_ending() {
    assert_eq!(redwood::cli::targets::pattern_prefix("//app/..."), Some("//app".to_string()));
    assert_eq!(redwood::cli::targets::pattern_prefix("//..."), Some("/".to_string()));
    assert_eq!(redwood::cli::targets::pattern_prefix("//a:b"), None);
}

#[test]
fn disk_state_lists_what_exists_and_hashes_what_was_read() {
    let outputs = vec![("out/a".to_string(), true), ("out/b".to_string(), false)];
    let sources = vec!["src/a.rs".to_string(), "src/gone.rs".to_string()];
    let inputs = vec![
        ("src/a.rs".to_string(), true, Some(b"abc".to_vec())),
        ("src/gone.rs".to_string(), false, None),
        ("build.cfg".to_string(), true, Some(b"x".to_vec())),
        ("locked.cfg".to_string(), true, None),
    ];
    let facts = redwood::cli::hashes::disk_state_facts(&outputs, &sources, &inputs);
    let exists = |p: &str| Fact::new("file_exists", vec![Value::String(p.to_string())]);
    assert_eq!(
        facts,
        vec![
            exists("out/a"),
            exists("src/a.rs"),
            file_hash_fact("src/a.rs", b"abc"),
            file_hash_fact("build.cfg", b"x"),
        ]
    );
    assert_eq!(facts[2].args[1], Value::String(hex16_exec(xxhash_rust::xxh3::xxh3_64(b"abc"))));
}
