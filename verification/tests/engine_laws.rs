use redwood::datalog::builtins::EvalError;
use redwood::datalog::engine::Engine;
use redwood::datalog::parser::parse_program;
use redwood::datalog::types::{Fact, Predicate, Rule, Term, Value};

fn s(x: &str) -> Value {
    Value::String(x.to_string())
}

fn load(db: &mut Engine, program: &str) {
    let (facts, rules) = parse_program(program).unwrap();
    db.insert_facts(facts);
    for r in rules {
        db.compile_rule(r).unwrap();
    }
}

#[test]
fn read_after_write_gives_old_then_new_facts() {
    let mut db = Engine::new();
    db.insert_facts(vec![Fact::new("p", vec![s("a")]), Fact::new("q", vec![s("x")])]);
    db.insert_facts(vec![Fact::new("p", vec![s("b")]), Fact::new("r", vec![s("y")])]);
    let ps = db.query("p", &[]).unwrap();
    assert_eq!(ps, vec![Fact::new("p", vec![s("a")]), Fact::new("p", vec![s("b")])]);
    let qs = db.query("q", &[]).unwrap();
    assert_eq!(qs, vec![Fact::new("q", vec![s("x")])]);
}

#[test]
fn retract_right_after_insert_restores_facts() {
    let mut db = Engine::new();
    db.insert_facts(vec![Fact::new("edge", vec![s("a"), s("b")]), Fact::new("edge", vec![s("b"), s("c")])]);
    let before = db.query("edge", &[]).unwrap();
    let f = Fact::new("edge", vec![s("a"), s("b")]);
    db.insert_facts(vec![f.clone()]);
    db.retract_facts(vec![f]);
    assert_eq!(db.query("edge", &[]).unwrap(), before);
}

#[test]
fn filtered_results_pass_the_filters() {
    let mut db = Engine::new();
    db.insert_facts(vec![
        Fact::new("n", vec![s("a"), Value::Integer(1)]),
        Fact::new("n", vec![s("a"), Value::Integer(2)]),
        Fact::new("n", vec![s("b"), Value::Integer(1)]),
    ]);
    let r = db.query("n", &[None, Some("1")]).unwrap();
    assert_eq!(r, vec![Fact::new("n", vec![s("a"), Value::Integer(1)]), Fact::new("n", vec![s("b"), Value::Integer(1)])]);
    let r = db.query("n", &[Some("a"), Some("2")]).unwrap();
    assert_eq!(r, vec![Fact::new("n", vec![s("a"), Value::Integer(2)])]);
    let r = db.query("n", &[None, Some("x")]).unwrap();
    assert!(r.is_empty());
}

#[test]
fn query_for_target_filters_first_argument() {
    let mut db = Engine::new();
    db.insert_facts(vec![Fact::new("sources", vec![s("//a:b"), s("x.c")]), Fact::new("sources", vec![s("//c:d"), s("y.c")])]);
    let r = db.query_for_target("sources", "//c:d").unwrap();
    assert_eq!(r, vec![Fact::new("sources", vec![s("//c:d"), s("y.c")])]);
}

#[test]
fn query_attr_and_sources() {
    let mut db = Engine::new();
    load(&mut db, r#"attr("//a:b", "tool", "gcc"). sources("//a:b", "x.c"). sources("//a:b", "y.c")."#);
    assert_eq!(db.query_attr("//a:b", "tool").unwrap(), Some("gcc".to_string()));
    assert_eq!(db.query_attr("//a:b", "other").unwrap(), None);
    assert_eq!(db.query_sources("//a:b").unwrap(), vec!["x.c".to_string(), "y.c".to_string()]);
}

#[test]
fn rules_derive_joins_and_negation() {
    let mut db = Engine::new();
    load(
        &mut db,
        r#"
        target("//a:x"). target("//a:y").
        outputs("//a:x", "x.o").
        missing(T) :- target(T), not(outputs(T, _)).
        "#,
    );
    let r = db.query("missing", &[]).unwrap();
    assert_eq!(r, vec![Fact::new("missing", vec![s("//a:y")])]);
}

#[test]
fn transitive_closure_query_follows_edges_breadth_first() {
    let mut db = Engine::new();
    load(
        &mut db,
        r#"
        dep("a", "b"). dep("a", "c"). dep("b", "d"). dep("d", "a").
        reach(X, Y) :- dep(X, Y).
        reach(X, Z) :- dep(X, Y), reach(Y, Z).
        "#,
    );
    let r = db.query("reach", &[Some("a")]).unwrap();
    assert_eq!(
        r,
        vec![
            Fact::new("reach", vec![s("a"), s("b")]),
            Fact::new("reach", vec![s("a"), s("c")]),
            Fact::new("reach", vec![s("a"), s("d")]),
            Fact::new("reach", vec![s("a"), s("a")]),
        ]
    );
    let none = db.query("reach", &[Some("zzz")]).unwrap();
    assert!(none.is_empty());
}

#[test]
fn compile_rule_refuses_unsafe_rule() {
    let mut db = Engine::new();
    let rule = Rule::new(
        Predicate { name: "r".to_string(), args: vec![Term::Variable("X".to_string())] },
        vec![Predicate { name: "p".to_string(), args: vec![Term::Variable("Y".to_string())] }],
    );
    assert!(db.compile_rule(rule).is_err());
}

#[test]
fn compile_rule_refuses_negation_through_recursion() {
    let mut db = Engine::new();
    let (_, rules) = parse_program("a(X) :- b(X), not(c(X)). c(X) :- b(X), a(X).").unwrap();
    let mut results = Vec::new();
    for r in rules {
        results.push(db.compile_rule(r).is_ok());
    }
    assert_eq!(results, vec![true, false]);
}

#[test]
fn arithmetic_on_text_gives_nothing() {
    let mut db = Engine::new();
    load(&mut db, r#"v("a"). w(Z) :- v(X), add(X, 1, Z)."#);
    assert!(db.query("w", &[]).unwrap().is_empty());
}

#[test]
fn arithmetic_on_unbound_variable_is_invalid() {
    let mut db = Engine::new();
    load(&mut db, r#"v("a"). w(Z) :- v(X), add(Y, 1, Z)."#);
    match db.query("w", &[]) {
        Err(EvalError::Invalid(_)) => {}
        other => panic!("unexpected {:?}", other),
    }
}

#[test]
fn arithmetic_builtins_compute() {
    let mut db = Engine::new();
    load(&mut db, r#"v(7). w(Z) :- v(X), mul(X, 6, Z). d(Q) :- v(X), div(X, 2, Q)."#);
    assert_eq!(db.query("w", &[]).unwrap(), vec![Fact::new("w", vec![Value::Integer(42)])]);
    assert_eq!(db.query("d", &[]).unwrap(), vec![Fact::new("d", vec![Value::Integer(3)])]);
}

#[test]
fn resolve_asks_for_the_tool_then_reads_its_output() {
    let mut db = Engine::new();
    db.set_resolve_callback();
    load(&mut db, r#"attr("//r:t", "tool", "echo"). attr("//r:t", "0", "hi"). out(L) :- resolve("//r:t", L)."#);
    match db.query("out", &[]) {
        Err(EvalError::NeedsResolution(target, tool, args)) => {
            assert_eq!(target, "//r:t");
            assert_eq!(tool, "echo");
            assert_eq!(args, vec!["hi".to_string()]);
        }
        other => panic!("unexpected {:?}", other),
    }
    db.record_resolution("//r:t", Ok(b"hi\nthere\n".to_vec()));
    let r = db.query("out", &[]).unwrap();
    assert_eq!(r, vec![Fact::new("out", vec![s("hi")]), Fact::new("out", vec![s("there")])]);
}

#[test]
fn resolve_without_callback_gives_nothing() {
    let mut db = Engine::new();
    load(&mut db, r#"attr("//r:t", "tool", "echo"). out(L) :- resolve("//r:t", L)."#);
    assert!(db.query("out", &[]).unwrap().is_empty());
}

#[test]
fn source_location_materializes_recorded_locations() {
    let mut db = Engine::new();
    db.record_source_location("p", redwood::datalog::types::SourceLocation { file: "f".to_string(), line: 2 });
    assert_eq!(db.get_source_location("p").unwrap().line, 2);
    let r = db.query("source_location", &[]).unwrap();
    assert_eq!(r, vec![Fact::new("source_location", vec![s("p"), s("f"), Value::Integer(2)])]);
}

#[test]
fn refused_rules_say_why_and_change_nothing() {
    let mut db = Engine::new();
    load(&mut db, "p(\"a\").\nq(X) :- p(X).\n");
    let (_, unsafe_rules) = parse_program("r(X, Y) :- p(X).").unwrap();
    let err = db.compile_rule(unsafe_rules[0].clone()).unwrap_err();
    assert_eq!(err, "Variable 'Y' appears in head but not in positive body literal (safety violation)");
    let (_, arity_rules) = parse_program("q(X, Y) :- p(X), p(Y).").unwrap();
    let err = db.compile_rule(arity_rules[0].clone()).unwrap_err();
    assert_eq!(err, "Arity mismatch: predicate 'q' used with 1 and 2 arguments");
    let (_, cyclic) = parse_program("s(X) :- p(X), not(s(X)).").unwrap();
    let err = db.compile_rule(cyclic[0].clone()).unwrap_err();
    assert_eq!(err, "Non-stratified negation: s depends on not(s) but s recursively depends on s");
    assert_eq!(db.query("q", &[]).unwrap(), vec![Fact::new("q", vec![s("a")])]);
    assert!(db.query("r", &[]).unwrap().is_empty());
}

fn invalid_message(r: Result<Vec<Fact>, EvalError>) -> String {
    match r {
        Err(EvalError::Invalid(m)) => m,
        other => panic!("expected an invalid-program error, got {:?}", other),
    }
}

#[test]
fn invalid_programs_say_why() {
    let mut db = Engine::new();
    load(
        &mut db,
        "p(\"a\").\nq(X) :- p(X), gt(X, 1).\nr(Z) :- p(X), add(Y, 1, Z).\ns(N) :- p(X), count(\"p\", N, 3).\n",
    );
    assert_eq!(invalid_message(db.query("q", &[])), "Type error: gt requires integer arguments, got String(\"a\") and Integer(1)");
    assert_eq!(invalid_message(db.query("r", &[])), "Error: add requires first argument to be bound");
    assert_eq!(invalid_message(db.query("s", &[])), "Syntax error: count requires exactly 2 arguments, got 3");
}

#[test]
fn refusals_name_the_rules_at_fault() {
    let mut db = Engine::new();
    let (_, first) = parse_program("p(X) :- q(X).").unwrap();
    db.compile_rule(first[0].clone()).unwrap();
    let (_, cyclic) = parse_program("q(X) :- base(X), not(p(X)).").unwrap();
    assert_eq!(
        db.compile_rule(cyclic[0].clone()).unwrap_err(),
        "Non-stratified negation: q depends on not(p) but p recursively depends on q"
    );
    let mut db = Engine::new();
    let (_, foo) = parse_program("foo(X) :- bar(X).\nt(X) :- bar(X), gt(X, Y).").unwrap();
    db.compile_rule(foo[0].clone()).unwrap();
    let (_, foo2) = parse_program("foo(X, Y) :- baz(X, Y).").unwrap();
    assert_eq!(
        db.compile_rule(foo2[0].clone()).unwrap_err(),
        "Arity mismatch: predicate 'foo' used with 1 and 2 arguments"
    );
    load(&mut db, "bar(3).\ng(X) :- bar(X), lt(X, Y).\n");
    assert_eq!(invalid_message(db.query("g", &[])), "Error: lt requires second argument to be bound");
}

#[test]
fn wildcards_in_a_rule_are_independent() {
    let mut db = Engine::new();
    load(&mut db, "a(\"x\", \"p\").\nb(\"x\", \"q\").\nr(X) :- a(X, _), b(X, _).\n");
    assert_eq!(db.query("r", &[]).unwrap(), vec![Fact::new("r", vec![s("x")])]);
}

#[test]
fn closure_from_a_node_on_a_cycle_reaches_itself() {
    let mut db = Engine::new();
    load(
        &mut db,
        "e(\"a\", \"b\").\ne(\"b\", \"a\").\np(X, Y) :- e(X, Y).\np(X, Z) :- e(X, Y), p(Y, Z).\n",
    );
    let got = db.query_tc_iter("p", "a").collect();
    assert_eq!(got, vec![Fact::new("p", vec![s("a"), s("b")]), Fact::new("p", vec![s("a"), s("a")])]);
    let q = db.query("p", &[Some("a")]).unwrap();
    assert_eq!(q, vec![Fact::new("p", vec![s("a"), s("b")]), Fact::new("p", vec![s("a"), s("a")])]);
}

#[test]
fn derived_answers_follow_later_inserts_and_retracts() {
    let mut db = Engine::new();
    load(&mut db, "edge(\"a\", \"b\"). reach(X, Y) :- edge(X, Y). reach(X, Z) :- edge(X, Y), reach(Y, Z).");
    assert_eq!(db.query("reach", &[]).unwrap(), vec![Fact::new("reach", vec![s("a"), s("b")])]);
    let added = vec![Fact::new("edge", vec![s("b"), s("c")])];
    db.insert_facts(added.clone());
    let mut after_insert = db.query("reach", &[]).unwrap();
    after_insert.sort_by(|x, y| format!("{:?}", x).cmp(&format!("{:?}", y)));
    assert_eq!(
        after_insert,
        vec![
            Fact::new("reach", vec![s("a"), s("b")]),
            Fact::new("reach", vec![s("a"), s("c")]),
            Fact::new("reach", vec![s("b"), s("c")]),
        ]
    );
    db.retract_facts(added);
    assert_eq!(db.query("reach", &[]).unwrap(), vec![Fact::new("reach", vec![s("a"), s("b")])]);
}

#[test]
fn filtered_derived_answers_follow_inserts() {
    let mut db = Engine::new();
    load(&mut db, "up(X) :- on(X), not(off(X)).");
    db.insert_facts(vec![Fact::new("on", vec![s("a")]), Fact::new("on", vec![s("b")])]);
    assert_eq!(db.query("up", &[Some("b")]).unwrap(), vec![Fact::new("up", vec![s("b")])]);
    db.insert_facts(vec![Fact::new("off", vec![s("b")])]);
    assert_eq!(db.query("up", &[Some("b")]).unwrap(), Vec::<Fact>::new());
    db.retract_facts(vec![Fact::new("off", vec![s("b")])]);
    assert_eq!(db.query("up", &[Some("b")]).unwrap(), vec![Fact::new("up", vec![s("b")])]);
}

#[test]
fn stored_facts_of_a_derived_predicate_come_first() {
    let mut db = Engine::new();
    load(&mut db, "edge(\"a\", \"b\"). reach(X, Y) :- edge(X, Y).");
    db.insert_facts(vec![Fact::new("reach", vec![s("z"), s("z")])]);
    let answer = db.query("reach", &[]).unwrap();
    assert_eq!(
        answer,
        vec![Fact::new("reach", vec![s("z"), s("z")]), Fact::new("reach", vec![s("a"), s("b")])]
    );
}

#[test]
fn built_in_errors_show_the_offending_values() {
    let mut db = Engine::new();
    load(
        &mut db,
        "p(\"a\").\nn(5).\nne(X) :- p(X), X != 2.\ncc(Z) :- p(X), concat(X, 7, Z).\nar(X) :- p(X), substring(X, 1).\nsx(X) :- p(X), strip_suffix(X).\neq(X) :- p(Z), X = Y.\nc1(N) :- p(X), count(5, N).\nc2(X) :- p(X), count(X, \"n\").\nm1(M) :- p(X), min(\"p\", \"i\", M).\nm2(M) :- n(X), max(X, 0, M).\nmm(X) :- p(X), min(\"p\", 0).\n",
    );
    assert_eq!(invalid_message(db.query("ne", &[])), "Type error: != requires matching types, got String(\"a\") and Integer(2)");
    assert_eq!(invalid_message(db.query("cc", &[])), "Type error: concat requires string arguments, got String(\"a\") and Integer(7)");
    assert_eq!(invalid_message(db.query("ar", &[])), "Syntax error: substring requires exactly 4 arguments, got 2");
    assert_eq!(invalid_message(db.query("sx", &[])), "Syntax error: suffix requires exactly 2 arguments, got 1");
    assert_eq!(invalid_message(db.query("eq", &[])), "Error: equality (=) with two unbound variables (X, Y) is not supported");
    assert_eq!(invalid_message(db.query("c1", &[])), "Type error: count first argument must be a string predicate name, got Constant(Integer(5))");
    assert_eq!(invalid_message(db.query("c2", &[])), "Type error: count second argument must be an integer or variable, got Constant(String(\"n\"))");
    assert_eq!(invalid_message(db.query("m1", &[])), "Type error: min second argument must be an integer index, got Constant(String(\"i\"))");
    assert_eq!(invalid_message(db.query("m2", &[])), "Type error: max first argument must be a string predicate name");
    assert_eq!(invalid_message(db.query("mm", &[])), "Syntax error: min requires exactly 3 arguments, got 2");
}

#[test]
fn retracting_a_batch_and_unknown_facts_leaves_the_first_batch() {
    let program = "up(X) :- node(X), not(off(X)).";
    let a = vec![Fact::new("node", vec![s("a")]), Fact::new("node", vec![s("b")])];
    let b = vec![Fact::new("node", vec![s("c")]), Fact::new("off", vec![s("a")]), Fact::new("node", vec![s("d")])];
    let m = vec![Fact::new("node", vec![s("zz")])];
    let mut e1 = Engine::new();
    load(&mut e1, program);
    let mut both = a.clone();
    both.extend(b.clone());
    e1.insert_facts(both);
    assert_eq!(e1.query("up", &[]).unwrap().len(), 3);
    let mut gone = b.clone();
    gone.extend(m);
    e1.retract_facts(gone);
    let mut e2 = Engine::new();
    load(&mut e2, program);
    e2.insert_facts(a);
    assert_eq!(e1.query("up", &[]).unwrap(), e2.query("up", &[]).unwrap());
    assert_eq!(e1.query("node", &[]).unwrap(), e2.query("node", &[]).unwrap());
    assert_eq!(e1.query("up", &[]).unwrap(), vec![Fact::new("up", vec![s("a")]), Fact::new("up", vec![s("b")])]);
}

#[test]
fn inserting_in_two_calls_answers_as_a_fresh_engine() {
    let program = "reach(X, Y) :- edge(X, Y). reach(X, Z) :- edge(X, Y), reach(Y, Z).";
    let first = vec![Fact::new("edge", vec![s("a"), s("b")])];
    let later = vec![Fact::new("edge", vec![s("b"), s("c")])];
    let mut db = Engine::new();
    load(&mut db, program);
    db.insert_facts(first.clone());
    let _ = db.query("reach", &[]).unwrap();
    db.insert_facts(later.clone());
    let mut fresh = Engine::new();
    load(&mut fresh, program);
    let mut all = first;
    all.extend(later.clone());
    fresh.insert_facts(all);
    assert_eq!(db.query("reach", &[]).unwrap(), fresh.query("reach", &[]).unwrap());
    assert_eq!(db.query("reach", &[Some("a")]).unwrap(), fresh.query("reach", &[Some("a")]).unwrap());
    assert!(db.query("edge", &[]).unwrap().contains(&later[0]));
}
