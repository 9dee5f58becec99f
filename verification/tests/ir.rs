use bfkit::ir::ir_to_string;
use bfkit::ir::is_balanced;
use bfkit::optimizer;
use bfkit::parser;

#[test]
fn ir_to_string_works() {
    let code = optimizer::optimize(parser::parse_str(String::from("++-[-],.[>++<-][<][>]")), 10);

    let result = ir_to_string(code);

    let expected = vec![
        "add 2",
        "sub 1",
        "set 0",
        "read",
        "write",
        "open",
        "    right 1",
        "    add 2",
        "    left 1",
        "    sub 1",
        "close",
        "scan_left",
        "scan_right",
    ]
    .iter()
    .fold(String::new(), |a, b| format!("{}\n{}", a, b));

    assert_eq!(result.trim(), expected.trim());
}

#[test]
fn ir_to_string_of_empty_program_is_empty() {
    assert_eq!(ir_to_string(vec![]), String::new());
}

#[test]
fn is_balanced_accepts_matched_brackets() {
    assert!(is_balanced(&parser::parse_str("++[>[-]<]".to_string())));
    assert!(is_balanced(&parser::parse_str("no brackets at all".to_string())));
}

#[test]
fn is_balanced_rejects_unmatched_brackets() {
    assert!(!is_balanced(&parser::parse_str("[[".to_string())));
    assert!(!is_balanced(&parser::parse_str("][".to_string())));
    assert!(!is_balanced(&parser::parse_str("++]".to_string())));
}
