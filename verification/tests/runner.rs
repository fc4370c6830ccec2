use std::collections::VecDeque;

use braincluck_interpreter::error::IoFault;
use braincluck_interpreter::runner::{Action, Event, Runner};
use braincluck_interpreter::{bf_parse, BraincluckError, Cells, Command};

/// Steps through `program`, reading from `input` and collecting the output.
fn drive(program: &str, input: &[u8]) -> (Result<(), BraincluckError>, Vec<u8>, Cells) {
    let commands = bf_parse(program).expect("the program parses");
    let mut input = VecDeque::from(input.to_vec());
    let mut output = Vec::new();
    let mut runner = Runner::new(&commands, Cells::default());
    let mut event = Event::Resume;
    let result = loop {
        event = match runner.advance(event) {
            Ok(Action::Continue) => Event::Resume,
            Ok(Action::Write(byte)) => {
                output.push(byte);
                Event::Resume
            }
            Ok(Action::Read) => match input.pop_front() {
                Some(byte) => Event::Byte(byte),
                None => Event::EndOfInput,
            },
            Ok(Action::Done) => break Ok(()),
            Err(error) => break Err(error),
        };
    };
    (result, output, runner.into_cells())
}

#[test]
fn stepping_writes_hello_world() {
    let program = "++++++++[>++++[>++>+++>+++>+<<<<-]>+>+>->>+[<]<-]>>.>---.+++++++..+++.>>.<-.<.+++.------.--------.>>+.>++.";
    let (result, output, _) = drive(program, &[]);
    result.expect("the run should end");
    assert_eq!(b"Hello World!\n".to_vec(), output);
}

#[test]
fn stepping_copies_input_up_to_a_zero() {
    let (result, output, _) = drive(",[.,]", b"Hello!\0");
    result.expect("the run should end");
    assert_eq!(b"Hello!".to_vec(), output);
}

#[test]
fn stepping_fails_when_the_input_runs_out() {
    let (result, output, cells) = drive(",.", &[]);
    assert!(matches!(
        result,
        Err(BraincluckError::IOError(IoFault::UnexpectedEof))
    ));
    assert!(output.is_empty());
    assert_eq!(&VecDeque::from(vec![0i8]), cells.cells());
}

#[test]
fn stepping_fails_on_a_negative_output() {
    let (result, output, cells) = drive("+.-.-.+.", &[]);
    assert!(matches!(result, Err(BraincluckError::ConversionError)));
    assert_eq!(vec![1u8, 0], output);
    assert_eq!(-1, cells.current());
}

#[test]
fn stepping_agrees_with_interpret() {
    let programs = [
        "",
        "+++[>++<-]>.",
        ",[.-]",
        "-[+>+<]>.",
        "+[-->-[>>+>-----<<]<--<---]>-.>>>+.>>..+++[.>]<<<<.+++.------.<<-.>>>>+.",
        ",>,>,.<.<.",
        "[[[]]]+[[-]]",
        "<<+>>-.",
    ];
    for program in programs {
        let commands = bf_parse(program).expect("the program parses");
        let mut cells = Cells::default();
        let mut expected = Vec::new();
        let mut input = VecDeque::from(vec![5u8, 6]);
        let outcome = cells.interpret(&commands, &mut expected, &mut input);
        let (result, output, stepped) = drive(program, &[5, 6]);
        assert_eq!(outcome.is_ok(), result.is_ok(), "{}", program);
        assert_eq!(expected, output, "{}", program);
        assert_eq!(cells.cells(), stepped.cells(), "{}", program);
        assert_eq!(cells.current(), stepped.current(), "{}", program);
    }
}

#[test]
fn each_step_runs_one_instruction() {
    let commands = vec![
        Command::Increment,
        Command::Jump(vec![Command::Output, Command::Decrement]),
        Command::Input,
    ];
    let mut runner = Runner::new(&commands, Cells::default());
    // `+`
    assert_eq!(Action::Continue, runner.advance(Event::Resume).unwrap());
    assert_eq!(1, runner.cells().current());
    // `[` on a cell that is not zero: into the body
    assert_eq!(Action::Continue, runner.advance(Event::Resume).unwrap());
    // `.`
    assert_eq!(Action::Write(1), runner.advance(Event::Resume).unwrap());
    // `-`
    assert_eq!(Action::Continue, runner.advance(Event::Resume).unwrap());
    assert_eq!(0, runner.cells().current());
    // the test of the loop, now on a zero cell: past the loop
    assert_eq!(Action::Continue, runner.advance(Event::Resume).unwrap());
    // `,` asks for a byte and waits for it
    assert_eq!(Action::Read, runner.advance(Event::Resume).unwrap());
    assert_eq!(Action::Read, runner.advance(Event::Resume).unwrap());
    assert_eq!(Action::Continue, runner.advance(Event::Byte(200)).unwrap());
    assert_eq!(-56, runner.cells().current());
    // the end, as often as it is asked for
    assert_eq!(Action::Done, runner.advance(Event::Resume).unwrap());
    assert_eq!(Action::Done, runner.advance(Event::Byte(1)).unwrap());
    assert_eq!(-56, runner.into_cells().current());
}

#[test]
fn a_byte_that_was_not_asked_for_is_passed_over() {
    let commands = vec![Command::Increment, Command::Input];
    let mut runner = Runner::new(&commands, Cells::default());
    assert_eq!(Action::Continue, runner.advance(Event::Byte(9)).unwrap());
    assert_eq!(1, runner.cells().current());
    assert_eq!(Action::Continue, runner.advance(Event::Byte(9)).unwrap());
    assert_eq!(9, runner.cells().current());
}

#[test]
fn a_failed_step_changes_nothing() {
    let commands = vec![Command::Decrement, Command::Output, Command::Increment];
    let mut runner = Runner::new(&commands, Cells::default());
    assert_eq!(Action::Continue, runner.advance(Event::Resume).unwrap());
    assert!(matches!(
        runner.advance(Event::Resume),
        Err(BraincluckError::ConversionError)
    ));
    assert!(matches!(
        runner.advance(Event::Resume),
        Err(BraincluckError::ConversionError)
    ));
    assert_eq!(-1, runner.cells().current());
    let commands = vec![Command::Input];
    let mut runner = Runner::new(&commands, Cells::default());
    assert!(matches!(
        runner.advance(Event::EndOfInput),
        Err(BraincluckError::IOError(IoFault::UnexpectedEof))
    ));
    assert_eq!(Action::Continue, runner.advance(Event::Byte(3)).unwrap());
    assert_eq!(3, runner.cells().current());
}

#[test]
fn a_loop_that_never_ends_keeps_stepping() {
    let commands = bf_parse("+[]").expect("the program parses");
    let mut runner = Runner::new(&commands, Cells::default());
    for _ in 0..1000 {
        assert_eq!(Action::Continue, runner.advance(Event::Resume).unwrap());
    }
    assert_eq!(1, runner.cells().current());
}
