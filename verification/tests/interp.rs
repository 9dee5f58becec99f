use bfkit::interp::Interpreter;
use bfkit::interp::StopReason;
use bfkit::ir::BrainfuckInstruction;
use bfkit::parser;

#[test]
fn set_breakpoint_works() {
    let code = parser::parse_str(String::from("++[>++<-]"));
    let mut subject = Interpreter::new(code);

    subject.set_breakpoint(3).unwrap();

    assert!(subject.breakpoints.contains(&3))
}

#[test]
fn delete_breakpoint_works() {
    let code = parser::parse_str(String::from("++[>++<-]"));
    let mut subject = Interpreter::new(code);
    subject.breakpoints.insert(3);

    subject.delete_breakpoint(3);

    assert!(!subject.breakpoints.contains(&3));
}

#[test]
fn run_works() {
    let code = parser::parse_str(String::from("++[>++<-]"));
    let mut subject = Interpreter::new(code);

    assert_eq!(subject.run(), StopReason::Done);

    assert_eq!(subject.tape[0], 0);
    assert_eq!(subject.tape[1], 4);
    assert_eq!(subject.instruction_pointer, 9);
    assert_eq!(subject.data_pointer, 0);
}

#[test]
fn run_stops_for_breakpoints() {
    let code = parser::parse_str(String::from("++[>++<-]"));
    let mut subject = Interpreter::new(code);

    subject.set_breakpoint(1).unwrap();

    assert_eq!(subject.run(), StopReason::Breakpoint(1));
    assert_eq!(subject.run(), StopReason::Done);

    assert_eq!(subject.tape[0], 0);
    assert_eq!(subject.tape[1], 4);
    assert_eq!(subject.instruction_pointer, 9);
    assert_eq!(subject.data_pointer, 0);
}

#[test]
fn step_works() {
    let code = parser::parse_str(String::from("+++"));
    let mut subject = Interpreter::new(code);

    assert_eq!(subject.tape[0], 0);
    subject.step();
    assert_eq!(subject.tape[0], 1);
    subject.step();
    assert_eq!(subject.tape[0], 2);
    subject.step();
    assert_eq!(subject.tape[0], 3);
}

#[test]
fn get_works() {
    let code = parser::parse_str(String::from("+++"));
    let mut subject = Interpreter::new(code);

    subject.tape[42] = 42;

    assert_eq!(subject.get(42), Ok(42));
}

#[test]
fn get_returns_error_when_address_out_of_bounds() {
    let code = parser::parse_str(String::from("+++"));
    let subject = Interpreter::new(code);

    assert_eq!(
        subject.get(100000000),
        Err(String::from("Address out of bounds: 100000000"))
    );
}

#[test]
fn set_works() {
    let code = parser::parse_str(String::from("+++"));
    let mut subject = Interpreter::new(code);

    subject.tape[42] = 12;

    assert_eq!(subject.set(42, 42), Ok(12));
}

#[test]
fn set_returns_error_when_address_out_of_bounds() {
    let code = parser::parse_str(String::from("+++"));
    let mut subject = Interpreter::new(code);

    assert_eq!(
        subject.set(100000000, 42),
        Err(String::from("Address out of bounds: 100000000"))
    );
}

#[test]
fn jump_works() {
    let code = parser::parse_str(String::from("+++"));
    let mut subject = Interpreter::new(code);

    assert_eq!(subject.jump(2), Ok(()));
    assert_eq!(subject.instruction_pointer, 2);
}

#[test]
fn jump_returns_error_when_address_out_of_bounds() {
    let code = parser::parse_str(String::from("+++"));
    let mut subject = Interpreter::new(code);

    assert_eq!(
        subject.jump(100000000),
        Err(String::from("Address out of bounds: 100000000"))
    );
    assert_eq!(subject.instruction_pointer, 0);
}

#[test]
fn select_works() {
    let code = parser::parse_str(String::from("+++"));
    let mut subject = Interpreter::new(code);

    assert_eq!(subject.select(2), Ok(()));
    assert_eq!(subject.data_pointer, 2);
}

#[test]
fn select_returns_error_when_address_out_of_bounds() {
    let code = parser::parse_str(String::from("+++"));
    let mut subject = Interpreter::new(code);

    assert_eq!(
        subject.select(100000000),
        Err(String::from("Address out of bounds: 100000000"))
    );
    assert_eq!(subject.data_pointer, 0);
}

#[test]
fn set_breakpoint_rejects_the_program_length() {
    let code = parser::parse_str(String::from("+++"));
    let mut subject = Interpreter::new(code);

    assert_eq!(
        subject.set_breakpoint(3),
        Err(String::from("Address out of bounds: 3"))
    );
}

#[test]
fn set_breakpoint_reports_whether_the_set_changed() {
    let code = parser::parse_str(String::from("++[>++<-]"));
    let mut subject = Interpreter::new(code);

    assert_eq!(subject.set_breakpoint(4), Ok(true));
    assert_eq!(subject.set_breakpoint(4), Ok(false));
    assert!(subject.delete_breakpoint(4));
    assert!(!subject.delete_breakpoint(4));
}

#[test]
fn run_of_empty_program_is_done_immediately() {
    let mut subject = Interpreter::new(vec![]);

    assert_eq!(subject.run(), StopReason::Done);
    assert_eq!(subject.instruction_pointer, 0);
}

#[test]
fn store_writes_the_cell_directly() {
    let mut subject = Interpreter::new(vec![BrainfuckInstruction::Store(7)]);

    assert_eq!(subject.run(), StopReason::Done);
    assert_eq!(subject.tape[0], 7);
}

#[test]
fn scan_right_seeks_the_next_zero_cell() {
    let mut subject = Interpreter::new(vec![BrainfuckInstruction::ScanRight]);
    subject.set(0, 1).unwrap();
    subject.set(1, 2).unwrap();
    subject.set(2, 3).unwrap();

    assert_eq!(subject.run(), StopReason::Done);
    assert_eq!(subject.data_pointer, 3);
}

#[test]
fn scan_left_seeks_the_next_zero_cell() {
    let mut subject = Interpreter::new(vec![BrainfuckInstruction::ScanLeft]);
    subject.set(3, 1).unwrap();
    subject.set(4, 1).unwrap();
    subject.select(4).unwrap();

    assert_eq!(subject.run(), StopReason::Done);
    assert_eq!(subject.data_pointer, 2);
}

#[test]
fn sub_wraps_below_zero() {
    let code = parser::parse_str(String::from("-"));
    let mut subject = Interpreter::new(code);

    assert_eq!(subject.run(), StopReason::Done);
    assert_eq!(subject.tape[0], 255);
}

#[test]
fn optimized_and_plain_programs_agree() {
    let source = String::from("++>++<[>]+[-]");
    let plain_code = parser::parse_str(source.clone());
    let optimized_code = bfkit::optimizer::optimize(parser::parse_str(source), 10);
    let mut plain = Interpreter::new(plain_code);
    let mut optimized = Interpreter::new(optimized_code);

    assert_eq!(plain.run(), StopReason::Done);
    assert_eq!(optimized.run(), StopReason::Done);

    assert_eq!(plain.tape, optimized.tape);
    assert_eq!(plain.data_pointer, optimized.data_pointer);
}
