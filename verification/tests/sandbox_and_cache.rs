use redwood::cache::cached_hash_facts;
use redwood::cli::targets::root_namespaces;
use redwood::datalog::types::{Fact, TargetLabel, Value};
use redwood::sandbox::{mirrored_path, parent_reference_error, unique_inputs};

fn s(x: &str) -> String {
    x.to_string()
}

#[test]
fn unique_inputs_keep_first_occurrences_in_order() {
    let inputs = vec![s("b.c"), s("a.c"), s("b.c"), s("c.c"), s("a.c")];
    assert_eq!(unique_inputs(&inputs), vec![s("b.c"), s("a.c"), s("c.c")]);
    assert_eq!(unique_inputs(&Vec::new()), Vec::<String>::new());
}

#[test]
fn parent_references_are_refused_with_report() {
    let target = TargetLabel::new("//test", "target");
    let m = parent_reference_error(&target, "../secret.txt", "/work").unwrap();
    assert_eq!(
        m,
        "Target '//test:target': Security error - Path contains '..' segments\n\
         Path: ../secret.txt\n\
         Workspace root: /work\n\
         Reason: Relative parent references not allowed\n\
         Suggestion: Use workspace-relative paths in sources() predicate"
    );
    assert!(parent_reference_error(&target, "src/a..b/x", "/work").is_some());
    assert!(parent_reference_error(&target, "src/main.c", "/work").is_none());
    assert!(parent_reference_error(&target, "./src/.hidden", "/work").is_none());
}

#[test]
fn mirrored_path_drops_leading_slashes() {
    assert_eq!(mirrored_path("/home/user/src/file.c"), "home/user/src/file.c");
    assert_eq!(mirrored_path("//a/b"), "a/b");
    assert_eq!(mirrored_path("rel/x"), "rel/x");
    assert_eq!(mirrored_path("/"), "");
}

#[test]
fn cached_rows_become_cached_hash_facts() {
    let target = TargetLabel::parse("//app:cli").unwrap();
    let rows = vec![(s("src/main.rs"), s("abc123")), (s("src/lib.rs"), s("def456"))];
    let facts = cached_hash_facts(&target, &rows);
    assert_eq!(
        facts,
        vec![
            Fact::new(
                "cached_hash",
                vec![Value::String(s("//app:cli")), Value::String(s("src/main.rs")), Value::String(s("abc123"))]
            ),
            Fact::new(
                "cached_hash",
                vec![Value::String(s("//app:cli")), Value::String(s("src/lib.rs")), Value::String(s("def456"))]
            ),
        ]
    );
    assert!(cached_hash_facts(&target, &Vec::new()).is_empty());
}

#[test]
fn root_facts_name_namespaces() {
    let facts = vec![
        Fact::new("root", vec![Value::String(s("//vendor")), Value::String(s("third_party/vendor"))]),
        Fact::new("target", vec![Value::String(s("//app:cli"))]),
        Fact::new("root", vec![Value::String(s("//x"))]),
        Fact::new("root", vec![Value::String(s("//y")), Value::Integer(3)]),
        Fact::new("root", vec![Value::String(s("//lib")), Value::String(s("lib"))]),
    ];
    assert_eq!(
        root_namespaces(&facts),
        vec![(s("//vendor"), s("third_party/vendor")), (s("//lib"), s("lib"))]
    );
}

#[test]
fn parent_reference_report_names_path_root_reason_and_target() {
    let target = TargetLabel::new("//test", "target");
    let m = parent_reference_error(&target, "../../etc/shadow", "/tmp/ws").unwrap();
    assert!(m.contains("../../etc/shadow"));
    assert!(m.contains("Workspace root:"));
    assert!(m.contains("Reason:"));
    assert!(m.contains("//test:target"));
    let m = parent_reference_error(&target, "../../../etc/passwd", "/tmp/ws").unwrap();
    assert!(m.contains("Security error"));
    assert!(m.contains(".."));
}
