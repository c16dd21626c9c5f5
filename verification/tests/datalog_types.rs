use redwood::datalog::types::{Fact, TargetLabel, Value};

#[test]
fn create_target_label() {
    let label = TargetLabel::new("//app", "cli");
    assert_eq!(label.package, "//app");
    assert_eq!(label.target, "cli");
}

#[test]
fn create_fact_with_string_value() {
    let fact = Fact::new("target", vec![Value::String("//app:cli".to_string())]);
    assert_eq!(fact.predicate, "target");
    assert_eq!(fact.args.len(), 1);
}

#[test]
fn target_label_display() {
    let label = TargetLabel::new("//app", "cli");
    assert_eq!(label.to_string(), "//app:cli");
}

#[test]
fn parse_target_label_from_string() {
    let label = TargetLabel::parse("//app:cli").unwrap();
    assert_eq!(label.package, "//app");
    assert_eq!(label.target, "cli");
}

#[test]
fn parse_target_label_invalid() {
    assert!(TargetLabel::parse("invalid").is_err());
    assert!(TargetLabel::parse("//app").is_err());
    assert!(TargetLabel::parse("app:cli").is_err());
}

#[test]
fn label_text_and_parse_are_inverse() {
    let l = TargetLabel::new("//pkg/sub", "bin");
    assert_eq!(TargetLabel::parse(&l.to_string()).unwrap(), l);
    let text = "//app:server";
    assert_eq!(TargetLabel::parse(text).unwrap().to_string(), text);
}

#[test]
fn label_errors_say_why() {
    assert_eq!(TargetLabel::parse("invalid").unwrap_err(), "Invalid target label: invalid");
    assert_eq!(TargetLabel::parse("//a:b:c").unwrap_err(), "Invalid target label: //a:b:c");
    assert_eq!(TargetLabel::parse("app:cli").unwrap_err(), "Target label must start with //: app:cli");
}
