use bfkit::ir::BrainfuckInstruction;
use bfkit::optimizer::clear_loop_removal;
use bfkit::optimizer::contraction;
use bfkit::optimizer::dead_code_removal;
use bfkit::optimizer::optimize;
use bfkit::optimizer::scan_loop_removal;
use bfkit::parser::parse_str;

#[test]
fn optimize_works() {
    let input = parse_str(String::from("[lol]+++[>+++<-][-][>]+[<]"));
    let len = input.len();

    let result = optimize(input, 10);

    assert_eq!(
        result,
        vec![
            BrainfuckInstruction::Add(3),
            BrainfuckInstruction::Open,
            BrainfuckInstruction::Right(1),
            BrainfuckInstruction::Add(3),
            BrainfuckInstruction::Left(1),
            BrainfuckInstruction::Sub(1),
            BrainfuckInstruction::Close,
            BrainfuckInstruction::Store(0),
            BrainfuckInstruction::ScanRight,
            BrainfuckInstruction::Add(1),
            BrainfuckInstruction::ScanLeft
        ]
    );
    assert!(result.len() < len);
}

#[test]
fn dead_code_removal_works() {
    let input = parse_str(String::from("[++[>+<-]]++-"));
    let len = input.len();

    let result = dead_code_removal(input);

    assert_eq!(result, parse_str(String::from("++-")));
    assert!(result.len() < len);
}

#[test]
fn clear_loop_removal_works() {
    let input = parse_str(String::from("[-]"));
    let len = input.len();

    let result = clear_loop_removal(input);

    assert_eq!(result, vec![BrainfuckInstruction::Store(0)]);
    assert!(result.len() < len);
}

#[test]
fn contraction_works() {
    let input = parse_str(String::from("++--->>>><<<<<"));
    let len = input.len();

    let result = contraction(input);

    assert_eq!(
        result,
        vec![
            BrainfuckInstruction::Add(2),
            BrainfuckInstruction::Sub(3),
            BrainfuckInstruction::Right(4),
            BrainfuckInstruction::Left(5)
        ]
    );
    assert!(result.len() < len);
}

#[test]
fn scan_loop_removal_works() {
    let input = parse_str(String::from("[>][<]"));
    let len = input.len();

    let result = scan_loop_removal(input);

    assert_eq!(
        result,
        vec![
            BrainfuckInstruction::ScanRight,
            BrainfuckInstruction::ScanLeft
        ]
    );
    assert!(result.len() < len);
}

#[test]
fn contraction_wraps_at_the_cell_width() {
    let mut source = String::new();
    for _ in 0..256 {
        source.push('+');
    }
    let input = parse_str(source);

    let result = contraction(input);

    assert_eq!(result, vec![BrainfuckInstruction::Add(0)]);
}

#[test]
fn clear_loop_removal_leaves_wider_loops_alone() {
    let input = parse_str(String::from("[--]"));

    let result = clear_loop_removal(contraction(input.clone()));

    assert_eq!(
        result,
        vec![
            BrainfuckInstruction::Open,
            BrainfuckInstruction::Sub(2),
            BrainfuckInstruction::Close
        ]
    );
}

#[test]
fn optimize_of_empty_program_is_empty() {
    let result = optimize(vec![], 10);

    assert_eq!(result, vec![]);
}

#[test]
fn optimize_never_grows_and_stops_early() {
    let input = parse_str(String::from("[lol]+++[>+++<-][-][>]+[<]"));
    let len = input.len();

    let one_pass = optimize(input.clone(), 1);
    let two_passes = optimize(input.clone(), 2);
    let many_passes = optimize(input, 10);

    assert!(one_pass.len() <= len);
    assert!(two_passes.len() <= one_pass.len());
    assert!(many_passes.len() <= two_passes.len());
}

#[test]
fn optimize_with_zero_passes_returns_the_input() {
    let input = parse_str(String::from("[lol]+++[-]"));

    let result = optimize(input.clone(), 0);

    assert_eq!(result, input);
}
