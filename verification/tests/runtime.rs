use redwood::datalog::types::{Fact, Value};
use redwood::format::format_source;
use redwood::runtime::{generate_glob_facts, get_prelude_with_locations, prelude_files, scan_file_facts, tool_fact, ToolchainScanner};

#[test]
fn glob_facts_for_matching_files() {
    let files = vec![
        Fact::new("file_exists", vec![Value::String("src/a.rs".into())]),
        Fact::new("file_exists", vec![Value::String("README.md".into())]),
        Fact::new("other", vec![Value::String("src/b.rs".into())]),
    ];
    let gs = generate_glob_facts(&files, "src/*.rs");
    assert_eq!(gs, vec![Fact::new("glob", vec![Value::String("src/*.rs".into()), Value::String("src/a.rs".into())])]);
    assert!(generate_glob_facts(&files, "[").is_empty());
}

#[test]
fn scanner_knows_the_usual_tools() {
    let s = ToolchainScanner::new();
    assert_eq!(s.tools().len(), 14);
    assert_eq!(s.tools()[0], "cargo");
    assert_eq!(s.tools()[13], "mkdir");
    let f = tool_fact("gcc", "/usr/bin/gcc", "13.1");
    assert_eq!(f.predicate, "tool_available");
    assert_eq!(f.args.len(), 3);
}

#[test]
fn prelude_combines_files_that_parse() {
    let files = vec![
        ("a.datalog".to_string(), "x(\"//a:b\").\nr(X) :- x(X).\n".to_string()),
        ("bad.datalog".to_string(), "foo(".to_string()),
        ("c.datalog".to_string(), "target(\"//c:d\").\n".to_string()),
    ];
    let (facts, rules, locations, failed) = get_prelude_with_locations(&files);
    assert_eq!(facts.len(), 2);
    assert_eq!(rules.len(), 1);
    assert_eq!(failed, vec![("bad.datalog".to_string(), "Expected '.' after predicate".to_string())]);
    assert_eq!(locations.get("//c:d").unwrap().file, "prelude");
    assert_eq!(locations.get("r").unwrap().line, 2);
    assert_eq!(prelude_files().len(), 14);
}

#[test]
fn format_source_keeps_comments() {
    let out = format_source("# top\ntarget(\"//a:b\").\nt(X):-target(X).\n").unwrap();
    assert_eq!(out, "# top\ntarget(\"//a:b\").\nt(X) :-\n    target(X).\n");
}

#[test]
fn scanned_file_gives_exists_modified_and_hash_facts() {
    let facts = scan_file_facts("src/a.rs", Some(1700000000), Some(b"fn main() {}"));
    assert_eq!(facts.len(), 3);
    assert_eq!(facts[0], Fact::new("file_exists", vec![Value::String("src/a.rs".into())]));
    assert_eq!(
        facts[1],
        Fact::new("file_modified", vec![Value::String("src/a.rs".into()), Value::Integer(1700000000)])
    );
    let expected = format!("{:016x}", xxhash_rust::xxh3::xxh3_64(b"fn main() {}"));
    assert_eq!(facts[2], Fact::new("file_hash", vec![Value::String("src/a.rs".into()), Value::String(expected)]));
    let other = scan_file_facts("src/a.rs", None, Some(b"fn main() { }"));
    assert_eq!(other.len(), 2);
    assert_ne!(other[1], facts[2]);
    assert_eq!(scan_file_facts("b", None, None), vec![Fact::new("file_exists", vec![Value::String("b".into())])]);
}
