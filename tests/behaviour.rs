use interpreter::{interpret, parse_source, InputSource, InterpreterError, Operation};

fn empty() -> InputSource {
    InputSource::new(Vec::new())
}

fn parse_message(r: Result<Vec<Operation>, InterpreterError>) -> String {
    match r {
        Err(InterpreterError::ParseError(m)) => m,
        other => panic!("expected a parse error, got {:?}", other),
    }
}

#[test]
fn runs_fold_into_one_node() {
    let ops = parse_source(">>>><<+++--").unwrap();
    assert_eq!(
        ops,
        vec![
            Operation::MoveRight(4),
            Operation::MoveLeft(2),
            Operation::Increment(3),
            Operation::Decrement(2),
        ]
    );
}

#[test]
fn comments_are_skipped_and_do_not_split_runs() {
    let ops = parse_source("+ a + b\n+ .").unwrap();
    assert_eq!(ops, vec![Operation::Increment(3), Operation::Output]);
}

#[test]
fn runs_do_not_fold_across_other_operations_or_loops() {
    let ops = parse_source("+.+[+]+").unwrap();
    assert_eq!(
        ops,
        vec![
            Operation::Increment(1),
            Operation::Output,
            Operation::Increment(1),
            Operation::Loop(vec![Operation::Increment(1)]),
            Operation::Increment(1),
        ]
    );
}

#[test]
fn input_and_output_never_fold() {
    let ops = parse_source(",,..").unwrap();
    assert_eq!(
        ops,
        vec![Operation::Input, Operation::Input, Operation::Output, Operation::Output]
    );
}

#[test]
fn long_run_is_one_node() {
    let source = "+".repeat(300);
    assert_eq!(parse_source(&source).unwrap(), vec![Operation::Increment(300)]);
}

#[test]
fn nested_loops_compile() {
    let ops = parse_source("[[-]>]").unwrap();
    assert_eq!(
        ops,
        vec![Operation::Loop(vec![
            Operation::Loop(vec![Operation::Decrement(1)]),
            Operation::MoveRight(1),
        ])]
    );
}

#[test]
fn empty_source_compiles_to_nothing() {
    assert_eq!(parse_source("no commands here").unwrap(), Vec::<Operation>::new());
    assert_eq!(interpret("", empty()).unwrap(), String::new());
}

#[test]
fn parse_error_messages() {
    assert_eq!(parse_message(parse_source("]")), "Unexpected end of loop");
    assert_eq!(parse_message(parse_source("][")), "Unexpected end of loop");
    assert_eq!(parse_message(parse_source("[[]")), "Expected end of loop");
}

#[test]
fn balanced_sources_compile() {
    assert!(parse_source(",[.,]").is_ok());
    assert!(parse_source("[][[]]").is_ok());
    assert!(parse_source("[]]").is_err());
}

#[test]
fn interpret_reports_parse_errors() {
    let r = interpret(",[.,", empty());
    assert!(matches!(r, Err(InterpreterError::ParseError(_))));
}

#[test]
fn zero_iteration_loop_has_no_effect() {
    assert_eq!(interpret("[.+++>]+++.", empty()).unwrap(), "\u{3}");
    assert_eq!(interpret("[<<<---]", empty()).unwrap(), "");
}

#[test]
fn pointer_reaches_last_cell_but_not_beyond() {
    let last = ">".repeat(29_999) + "+.";
    assert_eq!(interpret(&last, empty()).unwrap(), "\u{1}");
    let beyond = ">".repeat(30_000);
    assert!(matches!(interpret(&beyond, empty()), Err(InterpreterError::PointerOverflow)));
}

#[test]
fn cell_reaches_255_but_not_256() {
    let top = "+".repeat(255) + ".";
    assert_eq!(interpret(&top, empty()).unwrap(), "\u{ff}");
    let over = "+".repeat(256);
    assert!(matches!(interpret(&over, empty()), Err(InterpreterError::MemoryOverflow)));
}

#[test]
fn output_is_the_cell_value_as_a_character() {
    let source = "+".repeat(65) + "." + "+" + "." + &"+".repeat(133) + ".";
    assert_eq!(interpret(&source, empty()).unwrap(), "AB\u{c7}");
}

#[test]
fn input_after_end_of_stream_reads_zero() {
    let input = InputSource::new(vec![7]);
    assert_eq!(interpret(",.,.", input).unwrap(), "\u{7}\u{0}");
}

#[test]
fn input_fault_is_a_stdin_error() {
    let input = InputSource::failing(vec![b'x'], String::from("broken pipe"));
    let r = interpret(",.,.", input);
    match r {
        Err(InterpreterError::StdinError(cause)) => assert_eq!(cause, "broken pipe"),
        other => panic!("expected a stdin error, got {:?}", other),
    }
}

#[test]
fn input_fault_is_not_reached_without_a_read_past_the_end() {
    let input = InputSource::failing(vec![b'o', b'k'], String::from("broken pipe"));
    assert_eq!(interpret(",.,.", input).unwrap(), "ok");
}

#[test]
fn decrement_below_zero_inside_loop_fails() {
    assert!(matches!(interpret("+[--]", empty()), Err(InterpreterError::MemoryOverflow)));
}
