use redwood::datalog::parser;
use redwood::format::format_program;

#[test]
fn format_simple_fact() {
    let content = r#"target("//app:cli")."#;
    let (facts, rules) = parser::parse_program(content).unwrap();
    let formatted = format_program(&facts, &rules);
    assert_eq!(formatted, "target(\"//app:cli\").\n");
}

#[test]
fn format_simple_rule() {
    let content = r#"target(X):-kind(X,rust_binary)."#;
    let (facts, rules) = parser::parse_program(content).unwrap();
    let formatted = format_program(&facts, &rules);
    assert_eq!(formatted, "target(X) :-\n    kind(X, rust_binary).\n");
}

#[test]
fn format_multiline_rule() {
    let content = r#"target(X):-kind(X,rust_binary),sources(X,F),file_exists(F)."#;
    let (facts, rules) = parser::parse_program(content).unwrap();
    let formatted = format_program(&facts, &rules);
    assert_eq!(
        formatted,
        "target(X) :-\n    kind(X, rust_binary),\n    sources(X, F),\n    file_exists(F).\n"
    );
}

#[test]
fn format_negation() {
    let content = r#"missing(X):-target(X),not(file_exists(X))."#;
    let (facts, rules) = parser::parse_program(content).unwrap();
    let formatted = format_program(&facts, &rules);
    assert_eq!(
        formatted,
        "missing(X) :-\n    target(X),\n    not(file_exists(X)).\n"
    );
}

#[test]
fn format_inequality() {
    let content = r#"changed(X):-old_hash(X,O),new_hash(X,N),N!=O."#;
    let (facts, rules) = parser::parse_program(content).unwrap();
    let formatted = format_program(&facts, &rules);
    assert_eq!(
        formatted,
        "changed(X) :-\n    old_hash(X, O),\n    new_hash(X, N),\n    N != O.\n"
    );
}

#[test]
fn format_mixed_facts_and_rules() {
    let content = r#"
            target("//app:cli").
            kind("//app:cli",rust_binary).
            target(X):-kind(X,rust_binary).
        "#;
    let (facts, rules) = parser::parse_program(content).unwrap();
    let formatted = format_program(&facts, &rules);
    assert!(formatted.contains("target(\"//app:cli\").\n"));
    assert!(formatted.contains("kind(\"//app:cli\", rust_binary).\n"));
    assert!(formatted.contains("target(X) :-\n    kind(X, rust_binary).\n"));
}

#[test]
fn formatted_programs_parse_back_to_the_same_facts_and_rules() {
    let src = "f(\"q\\\"x\", a, \"b c\").\np(X) :- q(X, _), r(_, Y), X = \"a\\\"b\", Y != c, not(s(X)).\n";
    let (f, r) = parser::parse_program(src).unwrap();
    let out = format_program(&f, &r);
    let (f2, r2) = parser::parse_program(&out).unwrap();
    assert_eq!(f2, f);
    assert_eq!(r2.len(), r.len());
    for (a, b) in r.iter().zip(r2.iter()) {
        assert_eq!(a.head, b.head);
        assert_eq!(a.body, b.body);
    }
}

#[test]
fn formatted_rules_with_wildcards_and_numbers_read_back() {
    let src = "t(\"a\\\\b\", -5, foo, \"Upper\").\nh(X, _) :- q(X, _, \"_x\"), not(s(_, X)), X != -7, w(_).\ng(Y) :- t(Y, _, _, _).\n";
    let (f, r) = parser::parse_program(src).unwrap();
    let out = format_program(&f, &r);
    let (f2, r2) = parser::parse_program(&out).unwrap();
    assert_eq!(f2, f);
    assert_eq!(r2.len(), r.len());
    for (a, b) in r.iter().zip(r2.iter()) {
        assert_eq!(a.head, b.head);
        assert_eq!(a.body, b.body);
    }
    assert_eq!(format_program(&f2, &r2), out);
}
