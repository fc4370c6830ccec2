use braincluck_interpreter::parser::{parse, ParseFailure};
use braincluck_interpreter::lexer::Lexer;
use braincluck_interpreter::{bf_parse, BraincluckError, Command};

#[test]
fn simple() {
    let input = "><+-.,[><]";
    assert_eq!(
        vec![
            Command::Right,
            Command::Left,
            Command::Increment,
            Command::Decrement,
            Command::Output,
            Command::Input,
            Command::Jump(vec![Command::Right, Command::Left,]),
        ],
        bf_parse(input).expect("simple parsing returned an error"),
        "simple parsing failed"
    );
}

#[test]
fn parser_hello_world() {
    let input = ">++++++++[-<+++++++++>]<.>>+>-[+]++>++>+++[>[->+++<<+++>]<<]>-----.>->
        +++..+++.>-.<<+[>[+>+]>>]<--------------.>>.+++.------.--------.>+.>+.";

    bf_parse(input).expect("hello world parsing returned an error");
}

#[test]
fn newlines() {
    let input = ">++++++++[-<++++++\n+++>]<.>>+>-[+]++>++>+++[>[->+++<<+++>]<<]>-----.>->\n\n
        +++..+++.>-.<<+[>[+>+]>>]<--------------.>>.+++.------.--------.>+.>+.\n";

    bf_parse(input).expect("newline parsing returned an error");
}

#[test]
fn empty_program_parses_to_nothing() {
    assert_eq!(Vec::<Command>::new(), bf_parse("").expect("the empty program is a program"));
    assert_eq!(
        Vec::<Command>::new(),
        bf_parse("no commands here").expect("a comment is a program")
    );
}

#[test]
fn nested_loops_nest() {
    assert_eq!(
        vec![
            Command::Jump(vec![
                Command::Increment,
                Command::Jump(vec![Command::Jump(vec![]), Command::Decrement]),
            ]),
            Command::Output,
        ],
        bf_parse("[+[[]-]].").expect("nested loops are a program")
    );
}

#[test]
fn comments_do_not_change_the_parse() {
    let bare = bf_parse("+[->+<]").expect("the bare program parses");
    let spaced = bf_parse("add + loop [ - > + < ] done\n").expect("the spaced program parses");
    let unicode = bf_parse("é+[→->+<]✓").expect("the program with other letters parses");
    assert_eq!(bare, spaced);
    assert_eq!(bare, unicode);
}

#[test]
fn unmatched_open_bracket_fails() {
    match bf_parse("[[]") {
        Err(BraincluckError::ParseError(text)) => {
            assert_eq!("unmatched `[` at end of input, byte 3", text)
        }
        other => panic!("expected a parse error, got {:?}", other),
    }
}

#[test]
fn unmatched_close_bracket_fails() {
    match bf_parse("[]]") {
        Err(BraincluckError::ParseError(text)) => assert_eq!("unmatched `]` at byte 2", text),
        other => panic!("expected a parse error, got {:?}", other),
    }
}

#[test]
fn parse_failures_carry_positions() {
    assert_eq!(
        Err(ParseFailure::UnmatchedClose { start: 2, end: 3 }),
        parse(Lexer::new("[]]"))
    );
    assert_eq!(
        Err(ParseFailure::UnmatchedClose { start: 0, end: 1 }),
        parse(Lexer::new("]["))
    );
    assert_eq!(
        Err(ParseFailure::UnmatchedClose { start: 13, end: 14 }),
        parse(Lexer::new("+ comment [ ]] [")),
    );
    assert_eq!(
        Err(ParseFailure::UnmatchedOpen { location: 3 }),
        parse(Lexer::new("[[] trailing comment"))
    );
    assert_eq!(Err(ParseFailure::UnmatchedOpen { location: 1 }), parse(Lexer::new("[")));
}

#[test]
fn failure_messages_write_the_offset_in_decimal() {
    assert_eq!(
        "unmatched `]` at byte 0",
        ParseFailure::UnmatchedClose { start: 0, end: 1 }.message()
    );
    assert_eq!(
        "unmatched `]` at byte 1205",
        ParseFailure::UnmatchedClose { start: 1205, end: 1206 }.message()
    );
    assert_eq!(
        "unmatched `[` at end of input, byte 90",
        ParseFailure::UnmatchedOpen { location: 90 }.message()
    );
}

#[test]
fn a_prefix_with_an_open_loop_fails() {
    let program = "+[>[-]<-]";
    assert!(bf_parse(program).is_ok());
    assert!(bf_parse(&program[..8]).is_err());
    assert!(bf_parse(&program[..5]).is_err());
    assert!(bf_parse(&program[..1]).is_ok());
}
