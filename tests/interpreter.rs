use interpreter::{interpret, parse_source, InputSource, InterpreterError, Operation};

fn bytes(s: &str) -> InputSource {
    InputSource::new(s.as_bytes().to_vec())
}

#[test]
fn parse_cat() {
    let source = ",[.,]";
    let expected = vec![
        Operation::Input,
        Operation::Loop(vec![Operation::Output, Operation::Input]),
    ];

    let actual = parse_source(source).expect("It works");
    assert_eq!(expected, actual);
}

#[test]
fn parse_cat_missing_end_of_loop() {
    let source = ",[.,";

    let actual = parse_source(source);
    assert!(matches!(actual, Err(InterpreterError::ParseError(_))))
}

#[test]
fn parse_cat_redundat_end_of_loop() {
    let source = ",[.,]]";

    let actual = parse_source(source);
    assert!(matches!(actual, Err(InterpreterError::ParseError(_))));
}

#[test]
fn hello_world() {
    let source = "++++++++[>++++[>++>+++>+++>+<<<<-]>+>+>->>+[<]<-]>>.>---.+++++++..+++.>>.<-.<.+++.------.--------.>>+.>++.";
    let input = bytes("");
    let expected = String::from("Hello World!\n");

    let actual = interpret(source, input).expect("It works");
    assert_eq!(expected, actual);
}

#[test]
fn cat() {
    let source = ",[.,]";
    let input = bytes("I love programming!");
    let expected = String::from("I love programming!");

    let actual = interpret(source, input).expect("It works");
    assert_eq!(expected, actual);
}

#[test]
fn fibonacci() {
    let source = "+++++++++++
        >+>>>>++++++++++++++++++++++++++++++++++++++++++++
        >++++++++++++++++++++++++++++++++<<<<<<[>[>>>>>>+>
        +<<<<<<<-]>>>>>>>[<<<<<<<+>>>>>>>-]<[>++++++++++[-
        <-[>>+>+<<<-]>>>[<<<+>>>-]+<[>[-]<[-]]>[<<[>>>+<<<
        -]>>[-]]<<]>>>[>>+>+<<<-]>>>[<<<+>>>-]+<[>[-]<[-]]
        >[<<+>>[-]]<<<<<<<]>>>>>[+++++++++++++++++++++++++
        +++++++++++++++++++++++.[-]]++++++++++<[->-<]>++++
        ++++++++++++++++++++++++++++++++++++++++++++.[-]<<
        <<<<<<<<<<[>>>+>+<<<<-]>>>>[<<<<+>>>>-]<-[>>.>.<<<
        [-]]<<[>>+>+<<<-]>>>[<<<+>>>-]<<[<+>-]>[<+>-]<<<-]";
    let input = bytes("");
    let expected = String::from("1, 1, 2, 3, 5, 8, 13, 21, 34, 55, 89");

    let actual = interpret(source, input).expect("It works");
    assert_eq!(expected, actual);
}

#[test]
fn catch_pointer_overflow_left() {
    let source = ">><<<";
    let input = bytes("");

    let actual = interpret(source, input);
    assert!(matches!(actual, Err(InterpreterError::PointerOverflow)));
}

#[test]
fn catch_pointer_overflow_right() {
    let source = "+[>+]";
    let input = bytes("");

    let actual = interpret(source, input);
    assert!(matches!(actual, Err(InterpreterError::PointerOverflow)));
}

#[test]
fn catch_memory_overflow_left() {
    let source = "+--";
    let input = bytes("");

    let actual = interpret(source, input);
    assert!(matches!(actual, Err(InterpreterError::MemoryOverflow)));
}

#[test]
fn catch_memory_overflow_right() {
    let source = "+[+]";
    let input = bytes("");

    let actual = interpret(source, input);
    assert!(matches!(actual, Err(InterpreterError::MemoryOverflow)));
}
