use sayit::utils::runtime_format_single_value;

#[test]
fn runtime_format_formats() {
    assert_eq!(runtime_format_single_value("{}", "1").unwrap(), "1");
    assert_eq!(runtime_format_single_value(" {}", "2").unwrap(), " 2");
    assert_eq!(runtime_format_single_value("{} ", "3").unwrap(), "3 ");
}

#[test]
fn runtime_format_escapes() {
    assert_eq!(
        runtime_format_single_value("}} {{{}}}", "1").unwrap(),
        "} {1}"
    );
}

#[test]
fn runtime_format_requires_replacement() {
    assert!(runtime_format_single_value("hello {{", "world").is_err());
}

#[test]
fn runtime_format_one_replacement() {
    assert!(runtime_format_single_value("hello {} {}", "world").is_err());
}

#[test]
fn runtime_format_unmatched() {
    assert!(runtime_format_single_value("}0", "world").is_err());
    assert!(runtime_format_single_value("{0", "world").is_err());
}

#[test]
fn runtime_format_messages() {
    assert_eq!(
        runtime_format_single_value("hello {{", "world").unwrap_err(),
        "string did not contain {} template"
    );
    assert_eq!(
        runtime_format_single_value("hello {} {}", "world").unwrap_err(),
        "unmatched '{' at position 10"
    );
    assert_eq!(
        runtime_format_single_value("}0", "world").unwrap_err(),
        "unmatched '}' at position 1"
    );
    assert_eq!(
        runtime_format_single_value("{0", "world").unwrap_err(),
        "unmatched '{' at position 1"
    );
    assert_eq!(
        runtime_format_single_value("0123456789ab{c", "world").unwrap_err(),
        "unmatched '{' at position 13"
    );
}

#[test]
fn runtime_format_brace_after_closing_brace() {
    // a single closing brace is dropped when an opening brace follows it
    assert_eq!(runtime_format_single_value("a}{}", "v").unwrap(), "av");
    // a brace that still waits at the end is dropped
    assert_eq!(runtime_format_single_value("{}{", "v").unwrap(), "v");
}

#[test]
fn runtime_format_word_boundaries() {
    assert_eq!(
        runtime_format_single_value(r"\b{}\b", "test").unwrap(),
        r"\btest\b"
    );
    assert_eq!(runtime_format_single_value("{}", "").unwrap(), "");
}
