use redwood::datalog::engine::Engine;
use redwood::datalog::labels::parse_program_with_file;
use redwood::datalog::types::{Fact, Predicate, Rule, SourceLocation, Term, Value};

#[test]
fn basic_insert_and_query() {
    let mut db = Engine::new();

    db.insert_facts(vec![Fact {
        predicate: "test".to_string(),
        args: vec![Value::String("value".to_string())],
    }]);

    let results = db.query("test", &[]).unwrap();
    assert_eq!(results.len(), 1);
    assert_eq!(results[0].predicate, "test");
}

#[test]
fn simple_rule() {
    let mut db = Engine::new();

    db.insert_facts(vec![Fact {
        predicate: "kind".to_string(),
        args: vec![
            Value::String("//app:cli".to_string()),
            Value::String("rust_binary".to_string()),
        ],
    }]);

    db.compile_rule(Rule {
        head: Predicate {
            name: "rust_target".to_string(),
            args: vec![Term::Variable("X".to_string())],
        },
        body: vec![Predicate {
            name: "kind".to_string(),
            args: vec![
                Term::Variable("X".to_string()),
                Term::Constant(Value::String("rust_binary".to_string())),
            ],
        }],
    })
    .unwrap();

    let results = db.query("rust_target", &[]).unwrap();
    assert_eq!(results.len(), 1);
    assert_eq!(results[0].args[0], Value::String("//app:cli".to_string()));
}

#[test]
fn self_join_rule() {
    let mut db = Engine::new();

    db.insert_facts(vec![
        Fact {
            predicate: "edge".to_string(),
            args: vec![
                Value::String("a".to_string()),
                Value::String("b".to_string()),
            ],
        },
        Fact {
            predicate: "edge".to_string(),
            args: vec![
                Value::String("c".to_string()),
                Value::String("c".to_string()),
            ],
        },
    ]);

    db.compile_rule(Rule {
        head: Predicate {
            name: "self_loop".to_string(),
            args: vec![Term::Variable("X".to_string())],
        },
        body: vec![Predicate {
            name: "edge".to_string(),
            args: vec![
                Term::Variable("X".to_string()),
                Term::Variable("X".to_string()),
            ],
        }],
    })
    .unwrap();

    let results = db.query("self_loop", &[]).unwrap();
    assert_eq!(results.len(), 1);
    assert_eq!(results[0].args[0], Value::String("c".to_string()));
}

#[test]
fn source_location_tracking() {
    let input = r#"
system_cc("//app:main").
sources("//app:main", "main.c").
deps(X, Y) :- depends_on(X, Y).
"#;

    let (facts, rules, locations) = parse_program_with_file(input, "BUILD.datalog").unwrap();

    let mut db = Engine::new();
    for (key, loc) in locations.pairs() {
        db.record_source_location(&key, loc);
    }
    db.insert_facts(facts);
    for rule in rules {
        db.compile_rule(rule).unwrap();
    }

    let results = db.query("source_location", &[]).unwrap();
    assert!(!results.is_empty(), "Should have source location entries");

    let app_main_locs: Vec<_> = results
        .iter()
        .filter(|f| {
            if let Some(Value::String(target)) = f.args.first() {
                target == "//app:main"
            } else {
                false
            }
        })
        .collect();

    assert!(
        !app_main_locs.is_empty(),
        "Should find source location for //app:main target"
    );

    if let Some(loc) = app_main_locs.first() {
        assert_eq!(loc.args[1], Value::String("BUILD.datalog".to_string()));
        if let Value::Integer(line) = loc.args[2] {
            assert!((1..=4).contains(&line), "Line number should be reasonable");
        } else {
            panic!("Expected line number to be an integer");
        }
    }
}

#[test]
fn source_location_query_with_filters() {
    let mut db = Engine::new();
    db.record_source_location(
        "system_cc",
        SourceLocation {
            file: "BUILD.datalog".to_string(),
            line: 5,
        },
    );
    db.record_source_location(
        "sources",
        SourceLocation {
            file: "BUILD.datalog".to_string(),
            line: 10,
        },
    );
    db.record_source_location(
        "deps",
        SourceLocation {
            file: "other.datalog".to_string(),
            line: 3,
        },
    );

    let all = db.query("source_location", &[]).unwrap();
    assert_eq!(all.len(), 3);

    let system_cc_only = db.query("source_location", &[Some("system_cc")]).unwrap();
    assert_eq!(system_cc_only.len(), 1);
    assert_eq!(system_cc_only[0].args[2], Value::Integer(5));

    let build_file_only = db
        .query("source_location", &[None, Some("BUILD.datalog")])
        .unwrap();
    assert_eq!(build_file_only.len(), 2);
}

#[test]
fn detect_scc_returns_correct_component() {
    let mut db = Engine::new();

    db.insert_facts(vec![Fact::new(
        "target",
        vec![Value::String("//app:main".to_string())],
    )]);

    db.compile_rule(Rule::new(
        Predicate {
            name: "alias".to_string(),
            args: vec![
                Term::Variable("A".to_string()),
                Term::Variable("FinalTarget".to_string()),
            ],
        },
        vec![
            Predicate {
                name: "alias".to_string(),
                args: vec![
                    Term::Variable("A".to_string()),
                    Term::Variable("B".to_string()),
                ],
            },
            Predicate {
                name: "alias".to_string(),
                args: vec![
                    Term::Variable("B".to_string()),
                    Term::Variable("FinalTarget".to_string()),
                ],
            },
        ],
    ))
    .unwrap();

    db.compile_rule(Rule::new(
        Predicate {
            name: "target".to_string(),
            args: vec![Term::Variable("Alias".to_string())],
        },
        vec![
            Predicate {
                name: "alias".to_string(),
                args: vec![
                    Term::Variable("Alias".to_string()),
                    Term::Variable("Target".to_string()),
                ],
            },
            Predicate {
                name: "target".to_string(),
                args: vec![Term::Variable("Target".to_string())],
            },
        ],
    ))
    .unwrap();

    let results = db.query("target", &[]).unwrap();

    assert_eq!(results.len(), 1, "Should preserve base target fact");
    assert_eq!(results[0].args[0], Value::String("//app:main".to_string()));
}

#[test]
fn test_semi_naive_multi_predicate_scc() {
    let mut engine = Engine::new();

    engine.insert_facts(vec![
        Fact::new(
            "edge",
            vec![Value::String("a".into()), Value::String("b".into())],
        ),
        Fact::new(
            "edge",
            vec![Value::String("b".into()), Value::String("c".into())],
        ),
    ]);

    engine
        .compile_rule(Rule::new(
            Predicate {
                name: "path".to_string(),
                args: vec![
                    Term::Variable("X".to_string()),
                    Term::Variable("Y".to_string()),
                ],
            },
            vec![Predicate {
                name: "edge".to_string(),
                args: vec![
                    Term::Variable("X".to_string()),
                    Term::Variable("Y".to_string()),
                ],
            }],
        ))
        .unwrap();

    engine
        .compile_rule(Rule::new(
            Predicate {
                name: "path".to_string(),
                args: vec![
                    Term::Variable("X".to_string()),
                    Term::Variable("Z".to_string()),
                ],
            },
            vec![
                Predicate {
                    name: "path".to_string(),
                    args: vec![
                        Term::Variable("X".to_string()),
                        Term::Variable("Y".to_string()),
                    ],
                },
                Predicate {
                    name: "path".to_string(),
                    args: vec![
                        Term::Variable("Y".to_string()),
                        Term::Variable("Z".to_string()),
                    ],
                },
            ],
        ))
        .unwrap();

    let results = engine.query("path", &[Some("a")]).unwrap();

    assert!(
        results.len() >= 2,
        "Expected at least 2 path facts, got {}",
        results.len()
    );
    assert!(results
        .iter()
        .any(|f| f.args == vec![Value::String("a".into()), Value::String("b".into())]));
    assert!(results
        .iter()
        .any(|f| f.args == vec![Value::String("a".into()), Value::String("c".into())]));
}

#[test]
fn test_index_consistency_after_insert_retract() {
    let mut db = Engine::new();

    let fact1 = Fact {
        predicate: "edge".to_string(),
        args: vec![
            Value::String("a".to_string()),
            Value::String("b".to_string()),
        ],
    };
    let fact2 = Fact {
        predicate: "edge".to_string(),
        args: vec![
            Value::String("b".to_string()),
            Value::String("c".to_string()),
        ],
    };
    db.insert_facts(vec![fact1.clone(), fact2.clone()]);

    db.compile_rule(Rule {
        head: Predicate {
            name: "path".to_string(),
            args: vec![
                Term::Variable("X".to_string()),
                Term::Variable("Y".to_string()),
            ],
        },
        body: vec![Predicate {
            name: "edge".to_string(),
            args: vec![
                Term::Variable("X".to_string()),
                Term::Variable("Y".to_string()),
            ],
        }],
    })
    .unwrap();

    let results_before = db.query("path", &[]).unwrap();
    assert_eq!(
        results_before.len(),
        2,
        "Should have 2 path facts initially"
    );

    let fact3 = Fact {
        predicate: "edge".to_string(),
        args: vec![
            Value::String("c".to_string()),
            Value::String("d".to_string()),
        ],
    };
    db.insert_facts(vec![fact3.clone()]);

    let results_after_insert = db.query("path", &[]).unwrap();
    assert_eq!(
        results_after_insert.len(),
        3,
        "Should have 3 path facts after insert"
    );

    db.retract_facts(vec![fact2]);

    let results_after_retract = db.query("path", &[]).unwrap();
    assert_eq!(
        results_after_retract.len(),
        2,
        "Should have 2 path facts after retract"
    );

    let has_a_b = results_after_retract
        .iter()
        .any(|f| f.args == vec![Value::String("a".into()), Value::String("b".into())]);
    let has_c_d = results_after_retract
        .iter()
        .any(|f| f.args == vec![Value::String("c".into()), Value::String("d".into())]);
    let has_b_c = results_after_retract
        .iter()
        .any(|f| f.args == vec![Value::String("b".into()), Value::String("c".into())]);

    assert!(has_a_b, "Should still have edge(a,b)");
    assert!(has_c_d, "Should still have edge(c,d)");
    assert!(!has_b_c, "Should not have edge(b,c) after retraction");
}

#[test]
fn test_lazy_tc_iterator() {
    let mut db = Engine::new();

    db.insert_facts(vec![
        Fact {
            predicate: "edge".to_string(),
            args: vec![Value::String("a".into()), Value::String("b".into())],
        },
        Fact {
            predicate: "edge".to_string(),
            args: vec![Value::String("b".into()), Value::String("c".into())],
        },
        Fact {
            predicate: "edge".to_string(),
            args: vec![Value::String("c".into()), Value::String("d".into())],
        },
    ]);

    db.compile_rule(Rule {
        head: Predicate {
            name: "path".to_string(),
            args: vec![Term::Variable("X".into()), Term::Variable("Y".into())],
        },
        body: vec![Predicate {
            name: "edge".to_string(),
            args: vec![Term::Variable("X".into()), Term::Variable("Y".into())],
        }],
    })
    .unwrap();

    db.compile_rule(Rule {
        head: Predicate {
            name: "path".to_string(),
            args: vec![Term::Variable("X".into()), Term::Variable("Z".into())],
        },
        body: vec![
            Predicate {
                name: "edge".to_string(),
                args: vec![Term::Variable("X".into()), Term::Variable("Y".into())],
            },
            Predicate {
                name: "path".to_string(),
                args: vec![Term::Variable("Y".into()), Term::Variable("Z".into())],
            },
        ],
    })
    .unwrap();

    let iter = db.query_tc_iter("path", "a");
    let results: Vec<_> = iter.collect();

    assert_eq!(results.len(), 3, "Should have 3 reachable nodes from 'a'");

    let result_set: std::collections::HashSet<_> = results
        .iter()
        .map(|f| {
            assert_eq!(f.predicate, "path");
            assert_eq!(f.args[0], Value::String("a".into()));
            f.args[1].clone()
        })
        .collect();

    assert!(result_set.contains(&Value::String("b".into())));
    assert!(result_set.contains(&Value::String("c".into())));
    assert!(result_set.contains(&Value::String("d".into())));

    let mut iter = db.query_tc_iter("path", "a");
    let first = iter.next();
    assert!(first.is_some(), "Should have at least one result");

    let remaining_count = iter.count();
    assert_eq!(remaining_count, 2, "Should have 2 remaining results");
}
