use bfkit::compiler::compile;
use bfkit::optimizer;
use bfkit::parser;

#[test]
fn compile_works() {
    let input = optimizer::optimize(
        parser::parse_str(String::from("+++[>+++<-],.[>][<][-]")),
        10,
    );

    let result = compile(input);

    let start = result.find("u8 *dp = tape;\n").unwrap() + 16;
    let end = result.find("__free(tape, tape_size);\n").unwrap() - 6;
    let substring = &result[start..end];
    println!("{}", substring);

    let mut expected = String::new();
    for x in vec![
        "ADJUST(0, 3)",
        "OPEN()",
        "    SELECT(1)",
        "    ADJUST(0, 3)",
        "    SELECT(-1)",
        "    ADJUST(0, -1)",
        "CLOSE()",
        "READ(0)",
        "WRITE(0)",
        "SCAN_RIGHT()",
        "SCAN_LEFT()",
        "SET(0, 0)",
    ] {
        expected.push_str(x);
        expected.push_str("\n    ");
    }

    assert_eq!(substring.trim(), expected.trim_end());
}

#[test]
fn compile_of_empty_program_is_just_the_template() {
    let result = compile(vec![]);

    assert!(result.contains("int main(void) {"));
    assert!(result.contains("tape_size = 30000"));
    assert!(result.contains("u8 *dp = tape;"));
    assert!(result.contains("__free(tape, tape_size);"));
}

#[test]
fn compile_defines_every_macro_the_body_may_use() {
    let result = compile(parser::parse_str("+".to_string()));

    for macro_name in vec![
        "#define ADJUST",
        "#define SELECT",
        "#define READ",
        "#define WRITE",
        "#define OPEN",
        "#define CLOSE",
        "#define SET",
        "#define SCAN_LEFT",
        "#define SCAN_RIGHT",
    ] {
        assert!(result.contains(macro_name));
    }
}
