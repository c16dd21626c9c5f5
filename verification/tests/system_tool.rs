use redwood::build::checks::{validate_argument, validate_tool_name};

#[test]
fn test_validate_tool_name_valid() {
    assert!(validate_tool_name("gcc").is_ok());
    assert!(validate_tool_name("rustc").is_ok());
    assert!(validate_tool_name("clang++").is_ok());
    assert!(validate_tool_name("/usr/bin/gcc").is_ok());
    assert!(validate_tool_name("gcc-13").is_ok());
    assert!(validate_tool_name("gcc_wrapper").is_ok());
    assert!(validate_tool_name("tool.sh").is_ok());
}

#[test]
fn test_validate_tool_name_with_semicolon() {
    let result = validate_tool_name("gcc; rm -rf /");
    assert!(result.is_err());
    assert!(result.unwrap_err().contains("dangerous shell metacharacter"));
}

#[test]
fn test_validate_tool_name_with_pipe() {
    let result = validate_tool_name("gcc | cat");
    assert!(result.is_err());
    assert!(result.unwrap_err().contains("dangerous shell metacharacter"));
}

#[test]
fn test_validate_tool_name_with_ampersand() {
    let result = validate_tool_name("gcc &");
    assert!(result.is_err());
    assert!(result.unwrap_err().contains("dangerous shell metacharacter"));
}

#[test]
fn test_validate_tool_name_with_backtick() {
    let result = validate_tool_name("gcc`whoami`");
    assert!(result.is_err());
    assert!(result.unwrap_err().contains("dangerous shell metacharacter"));
}

#[test]
fn test_validate_tool_name_with_null_byte() {
    let result = validate_tool_name("gcc\0");
    assert!(result.is_err());
    assert!(result.unwrap_err().contains("null byte"));
}

#[test]
fn test_validate_tool_name_empty() {
    let result = validate_tool_name("");
    assert!(result.is_err());
    assert!(result.unwrap_err().contains("cannot be empty"));
}

#[test]
fn test_validate_tool_name_with_invalid_chars() {
    let result = validate_tool_name("gcc<test");
    assert!(result.is_err());
    assert!(result.unwrap_err().contains("invalid character"));
}

#[test]
fn test_validate_argument_valid() {
    assert!(validate_argument("-o").is_ok());
    assert!(validate_argument("output.o").is_ok());
    assert!(validate_argument("/path/to/file.c").is_ok());
    assert!(validate_argument("-I/usr/include").is_ok());
    assert!(validate_argument("--flag=value").is_ok());
}

#[test]
fn test_validate_argument_with_command_substitution() {
    let result = validate_argument("$(rm -rf /)");
    assert!(result.is_err());
    assert!(result.unwrap_err().contains("dangerous"));
}

#[test]
fn test_validate_argument_with_variable_expansion() {
    let result = validate_argument("${HOME}");
    assert!(result.is_err());
    assert!(result.unwrap_err().contains("dangerous"));
}

#[test]
fn test_validate_argument_with_pipe() {
    let result = validate_argument("foo | rm -rf /");
    assert!(result.is_err());
    assert!(result.unwrap_err().contains("dangerous"));
}

#[test]
fn test_validate_argument_with_semicolon() {
    let result = validate_argument("foo; rm -rf /");
    assert!(result.is_err());
    assert!(result.unwrap_err().contains("dangerous"));
}

#[test]
fn test_validate_argument_with_backtick() {
    let result = validate_argument("`whoami`");
    assert!(result.is_err());
    assert!(result.unwrap_err().contains("dangerous"));
}

#[test]
fn test_validate_argument_with_null_byte() {
    let result = validate_argument("test\0");
    assert!(result.is_err());
    assert!(result.unwrap_err().contains("null byte"));
}
