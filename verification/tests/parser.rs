use bfkit::ir::BrainfuckInstruction;
use bfkit::parser::parse;
use bfkit::parser::parse_str;

#[test]
fn parse_str_parses_brainfuck_instructions() {
    let code = "++--,.[]<<>> [-]";

    let result = parse_str(code.to_string());

    assert_eq!(
        result,
        vec![
            BrainfuckInstruction::Add(1),
            BrainfuckInstruction::Add(1),
            BrainfuckInstruction::Sub(1),
            BrainfuckInstruction::Sub(1),
            BrainfuckInstruction::Read,
            BrainfuckInstruction::Write,
            BrainfuckInstruction::Open,
            BrainfuckInstruction::Close,
            BrainfuckInstruction::Left(1),
            BrainfuckInstruction::Left(1),
            BrainfuckInstruction::Right(1),
            BrainfuckInstruction::Right(1),
            BrainfuckInstruction::Open,
            BrainfuckInstruction::Sub(1),
            BrainfuckInstruction::Close
        ]
    );
}

#[test]
fn parse_parses_brainfuck_instructions() {
    let code = "++--,.[]<<>> [-]";

    let result = parse(&code.chars().collect::<Vec<char>>());

    assert_eq!(
        result,
        vec![
            BrainfuckInstruction::Add(1),
            BrainfuckInstruction::Add(1),
            BrainfuckInstruction::Sub(1),
            BrainfuckInstruction::Sub(1),
            BrainfuckInstruction::Read,
            BrainfuckInstruction::Write,
            BrainfuckInstruction::Open,
            BrainfuckInstruction::Close,
            BrainfuckInstruction::Left(1),
            BrainfuckInstruction::Left(1),
            BrainfuckInstruction::Right(1),
            BrainfuckInstruction::Right(1),
            BrainfuckInstruction::Open,
            BrainfuckInstruction::Sub(1),
            BrainfuckInstruction::Close
        ]
    );
}

#[test]
fn parse_ignores_comment_text_entirely() {
    let plain = parse_str("+>[-]<.".to_string());
    let commented = parse_str("a + b > see [ minus - ] < stop .".to_string());

    assert_eq!(plain, commented);
}

#[test]
fn parse_of_comment_only_text_is_empty() {
    let result = parse_str("hello world! no instructions here".to_string());

    assert_eq!(result, vec![]);
}
