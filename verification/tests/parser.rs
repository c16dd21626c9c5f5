use redwood::datalog::labels::{parse_program_with_file, parse_program_with_namespace};
use redwood::datalog::parser::{parse, parse_program, parse_query_body};
use redwood::datalog::types::{Term, Value};

#[test]
fn parse_simple_fact() {
    let input = r#"target("//app:cli")."#;
    let facts = parse(input).unwrap();
    assert_eq!(facts.len(), 1);
    assert_eq!(facts[0].predicate, "target");
}

#[test]
fn parse_fact_with_multiple_args() {
    let input = r#"kind("//app:cli", rust_binary)."#;
    let facts = parse(input).unwrap();
    assert_eq!(facts.len(), 1);
    assert_eq!(facts[0].predicate, "kind");
    assert_eq!(facts[0].args.len(), 2);
}

#[test]
fn parse_multiple_facts() {
    let input = r#"
            target("//app:cli").
            kind("//app:cli", rust_binary).
        "#;
    let facts = parse(input).unwrap();
    assert_eq!(facts.len(), 2);
}

#[test]
fn parse_ignores_comments() {
    let input = r#"
            # This is a comment
            target("//app:cli").  # inline comment
        "#;
    let facts = parse(input).unwrap();
    assert_eq!(facts.len(), 1);
}

#[test]
fn parse_handles_whitespace() {
    let input = "target(  \"//app:cli\"  )  .";
    let facts = parse(input).unwrap();
    assert_eq!(facts.len(), 1);
}

#[test]
fn parse_rejects_invalid_syntax() {
    assert!(parse("target(").is_err());
    assert!(parse("target().").is_ok());
    let result = parse("target");
    assert!(result.is_ok() && result.unwrap().is_empty());
}

#[test]
fn parse_simple_rule() {
    let input = r#"target(X) :- kind(X, rust_binary)."#;
    let (_facts, rules) = parse_program(input).unwrap();
    assert_eq!(rules.len(), 1);
    assert_eq!(rules[0].head.name, "target");
    assert_eq!(rules[0].body.len(), 1);
}

#[test]
fn parse_rule_with_multiple_body_clauses() {
    let input = r#"
            target(X) :-
                kind(X, rust_binary),
                sources(X, Path),
                file_exists(Path).
        "#;
    let (_facts, rules) = parse_program(input).unwrap();
    assert_eq!(rules[0].body.len(), 3);
}

#[test]
fn parse_rule_distinguishes_variables_and_constants() {
    let input = r#"target(X) :- kind(X, rust_binary)."#;
    let (_facts, rules) = parse_program(input).unwrap();

    match &rules[0].head.args[0] {
        Term::Variable(v) => assert_eq!(v, "X"),
        _ => panic!("Expected Variable"),
    }

    match &rules[0].body[0].args[1] {
        Term::Constant(Value::String(s)) => assert_eq!(s, "rust_binary"),
        _ => panic!("Expected Constant"),
    }
}

#[test]
fn parse_mixed_facts_and_rules() {
    let input = r#"
            target("//app:cli").
            target(X) :- kind(X, rust_binary).
        "#;
    let (facts, rules) = parse_program(input).unwrap();
    assert_eq!(facts.len(), 1);
    assert_eq!(rules.len(), 1);
}

#[test]
fn parse_program_with_file_handles_multiline_rules() {
    let input = r#"
# Comment line
target("//a").

# Multi-line rule that should NOT create spurious facts
needs_rebuild(Target) :-
    deps(Target, Dep),
    needs_rebuild(Dep).

another_fact("//b").
"#;

    let (facts, rules, locations) = parse_program_with_file(input, "test.datalog").unwrap();

    assert_eq!(facts.len(), 2, "Should have exactly 2 facts");
    assert_eq!(facts[0].predicate, "target");
    assert_eq!(facts[1].predicate, "another_fact");

    for fact in &facts {
        for arg in &fact.args {
            if let Value::String(s) = arg {
                assert_ne!(
                    s, "Dep",
                    "Should not create fact with 'Dep' string from variable name"
                );
            }
        }
    }

    assert_eq!(rules.len(), 1, "Should have exactly 1 rule");
    assert_eq!(rules[0].head.name, "needs_rebuild");
    assert_eq!(
        rules[0].body.len(),
        2,
        "Multi-line rule should have 2 body predicates"
    );
    assert_eq!(rules[0].body[0].name, "deps");
    assert_eq!(rules[0].body[1].name, "needs_rebuild");

    assert!(!locations.is_empty(), "Should track source locations");
}

#[test]
fn parse_program_with_file_handles_multiple_multiline_rules() {
    let input = r#"
# First rule
foo(X) :-
    bar(X),
    baz(X).

# Second rule
qux(Y) :-
    quux(Y),
    corge(Y),
    grault(Y).

# A fact
fact("test").
"#;

    let (facts, rules, _) = parse_program_with_file(input, "test.datalog").unwrap();

    assert_eq!(facts.len(), 1);
    assert_eq!(facts[0].predicate, "fact");

    assert_eq!(rules.len(), 2);
    assert_eq!(rules[0].body.len(), 2);
    assert_eq!(rules[1].body.len(), 3);
}

#[test]
fn parse_program_with_file_tracks_correct_line_numbers() {
    let input = r#"# Comment on line 1
target("//first").
target("//second").

# Rule on line 5
my_rule(X) :- target(X).
"#;

    let (facts, rules, locations) = parse_program_with_file(input, "test.datalog").unwrap();

    assert_eq!(facts.len(), 2);
    assert_eq!(rules.len(), 1);

    assert_eq!(locations.get("//first").unwrap().line, 2);
    assert_eq!(locations.get("//second").unwrap().line, 3);

    assert_eq!(locations.get("my_rule").unwrap().line, 6);
}

#[test]
fn parse_program_with_file_line_numbers_comprehensive() {
    let input = r#"# Build configuration file
# Line 2 comment

cargo_binary("//redwood:redwood").
cargo_binary("//redwood:fake_tool").
cargo_binary("//redwood:another").

# Dependencies section starts on line 8
deps("//redwood:redwood", "//lib:core").
deps("//redwood:fake_tool", "//lib:utils").

# Multi-line rule on line 12
transitive_deps(Target, Dep) :-
    deps(Target, Dep).

transitive_deps(Target, Dep) :-
    deps(Target, X),
    transitive_deps(X, Dep).

# More facts
target("//app:main").
"#;

    let (facts, rules, locations) = parse_program_with_file(input, "BUILD.datalog").unwrap();

    assert_eq!(facts.len(), 6);
    assert_eq!(rules.len(), 2);

    assert_eq!(locations.get("//redwood:redwood").unwrap().line, 4);
    assert_eq!(locations.get("//redwood:fake_tool").unwrap().line, 5);
    assert_eq!(locations.get("//redwood:another").unwrap().line, 6);
    assert_eq!(locations.get("transitive_deps").unwrap().line, 13);
    assert_eq!(locations.get("//app:main").unwrap().line, 21);

    for (_, loc) in locations.pairs().iter() {
        assert_eq!(loc.file, "BUILD.datalog");
    }
}

#[test]
fn parse_program_with_file_alias_handles_target_references_correctly() {
    let input = r#"# Test file
alias("//bootstrap:redwood", "//bootstrap:bin").
system_rustc("//bootstrap:bin").
crate_name("//bootstrap:bin", "redwood").
"#;

    let (_facts, _rules, locations) = parse_program_with_file(input, "BUILD.datalog").unwrap();

    assert_eq!(locations.get("//bootstrap:redwood").unwrap().line, 2);

    assert_eq!(locations.get("//bootstrap:bin").unwrap().line, 3);
}

#[test]
fn parse_errors_say_what_was_expected() {
    assert_eq!(parse_program("foo(").unwrap_err(), "Expected '.' after predicate");
    assert_eq!(parse_program("foo(a, :- .").unwrap_err(), "Unexpected token in predicate: Rule");
    assert_eq!(parse_program("foo(a, (.").unwrap_err(), "Unexpected token: LParen");
    assert_eq!(parse_program("p(X) :- q(X) r(X).").unwrap_err(), "Expected '.' or ',' after body predicate");
    assert_eq!(parse_program("p(X) :- not(q(X).").unwrap_err(), "Expected ')' after not() predicate");
    assert_eq!(parse_program("p(X) :- q(X), X = .").unwrap_err(), "Expected variable or constant after '='");
    assert_eq!(parse_query_body("").unwrap_err(), "Unexpected end of input");
    assert_eq!(parse_query_body("p(X) q(X).").unwrap_err(), "Expected '.' or ',' after predicate");
}

#[test]
fn comparison_errors_name_the_operator() {
    assert_eq!(parse_program("p(X) :- q(X), t = \"x\".").unwrap_err(), "Expected variable before '='");
    assert_eq!(parse_program("p(X) :- q(X), t != \"x\".").unwrap_err(), "Expected variable before '!='");
}

#[test]
fn each_wildcard_is_its_own_variable() {
    let (_, rules) = parse_program("r(X) :- a(X, _), b(X, _).").unwrap();
    let r = &rules[0];
    assert_eq!(r.body[0].args[1], Term::Variable("_anon_0".into()));
    assert_eq!(r.body[1].args[1], Term::Variable("_anon_1".into()));
    let (_, rules) = parse_program("s(X) :- a(X, _).\nt(X) :- b(X, _).").unwrap();
    assert_eq!(rules[1].body[0].args[1], Term::Variable("_anon_0".into()));
}

#[test]
fn package_labels_are_qualified_by_the_package() {
    let (facts, _, _) = parse_program_with_namespace("t(\"//pkg:target\").\nu(\"//:local\").", "BUILD.datalog", "//sub").unwrap();
    assert_eq!(facts[0].args[0], Value::String("//sub/pkg:target".into()));
    assert_eq!(facts[1].args[0], Value::String("//sub:local".into()));
}

#[test]
fn parsing_with_a_file_name_agrees_with_plain_parsing() {
    let inputs = [
        "target(\"//a:b\").\nsources(\"//a:b\", \"a.rs\").\np(X) :- target(X).\n",
        "q(X) :- r(X, _), s(X, _).\n",
        "p(X :- q(X).",
        "t(\"x\") :- .",
    ];
    for input in inputs {
        let plain = parse_program(input);
        let with_file = parse_program_with_file(input, "BUILD.datalog");
        match (plain, with_file) {
            (Ok((f1, r1)), Ok((f2, r2, locs))) => {
                assert_eq!(f1, f2);
                assert_eq!(r1.len(), r2.len());
                for (a, b) in r1.iter().zip(r2.iter()) {
                    assert_eq!(format!("{:?}", a), format!("{:?}", b));
                }
                for (key, loc) in locs.pairs() {
                    assert_eq!(loc.file, "BUILD.datalog");
                    let from_rule = r2.iter().any(|r| r.head.name == key);
                    let from_fact = f2.iter().any(|f| f.args.first() == Some(&Value::String(key.clone())));
                    assert!(from_rule || from_fact);
                }
            }
            (Err(e1), Err(e2)) => assert_eq!(e1, e2),
            (a, b) => panic!("parsers disagree: {:?} / {:?}", a.is_ok(), b.is_ok()),
        }
    }
}

#[test]
fn escaped_strings_keep_their_characters() {
    let (facts, _) = parse_program("t(\"é\\\"x\").").unwrap();
    assert_eq!(facts[0].args[0], Value::String("é\"x".to_string()));
    let (facts, _) = parse_program("t(\"a\\\\ü\").").unwrap();
    assert_eq!(facts[0].args[0], Value::String("a\\ü".to_string()));
}
