use std::collections::VecDeque;
use std::io::BufWriter;

use braincluck_interpreter::error::IoFault;
use braincluck_interpreter::{bf_parse, BraincluckError, Cells, Command};

/// Straightforward hello world.
#[test]
fn cells_hello_world() {
    let mut cells = Cells::default();
    let program = "++++++++[>++++[>++>+++>+++>+<<<<-]>+>+>->>+[<]<-]>>.>---.+++++++..+++.>>.<-.<.+++.------.--------.>>+.>++.";
    let commands = bf_parse(program).expect("hello world parsing returned an error");

    let out = vec![];
    let mut buf_out = BufWriter::new(out);
    let input = vec![];
    let mut cursor = VecDeque::from(input);

    cells
        .interpret(&commands, buf_out.get_mut(), &mut cursor)
        .expect("interpret should succeed");

    assert_eq!(
        "Hello World!\n".to_string(),
        String::from_utf8(
            buf_out
                .into_inner()
                .expect("getting inner buffer should work")
        )
        .expect("string should be valid utf8"),
        "outputs should match"
    );
}

/// This test can fail if cell values cannot be set below zero.
#[test]
fn cells_tricky_hello_world() {
    let mut cells = Cells::default();
    let program = ">++++++++[-<+++++++++>]<.>>+>-[+]++>++>+++[>[->+++<<+++>]<<]>-----.>->
        +++..+++.>-.<<+[>[+>+]>>]<--------------.>>.+++.------.--------.>+.>+.";
    let commands = bf_parse(program).expect("tricky hello world parsing returned an error");

    let out = vec![];
    let mut buf_out = BufWriter::new(out);
    let input = vec![];
    let mut cursor = VecDeque::from(input);

    cells
        .interpret(&commands, buf_out.get_mut(), &mut cursor)
        .expect("interpret should succeed");

    assert_eq!(
        "Hello World!\n".to_string(),
        String::from_utf8(
            buf_out
                .into_inner()
                .expect("getting inner buffer should work")
        )
        .expect("string should be valid utf8"),
        "outputs should match"
    );
}

/// A program to write hello world but requires wrapping cells.
#[test]
fn cells_wrapping_hello_world() {
    let mut cells = Cells::default();
    let program =
        "--<-<<+[+[<+>--->->->-<<<]>]<<--.<++++++.<<-..<<.<+.>>.>>.<<<.+++.>>.>>-.<<<+.";
    let commands = bf_parse(program).expect("wrapping hello world parsing returned an error");

    let out = vec![];
    let mut buf_out = BufWriter::new(out);
    let input = vec![];
    let mut cursor = VecDeque::from(input);

    cells
        .interpret(&commands, buf_out.get_mut(), &mut cursor)
        .expect("interpret should succeed");

    assert_eq!(
        "Hello, World!".to_string(),
        String::from_utf8(
            buf_out
                .into_inner()
                .expect("getting inner buffer should work")
        )
        .expect("string should be valid utf8"),
        "outputs should match"
    );
}

/// A program to write hello world using the shortest code golf example. Requires wrapping cells.
#[test]
fn cells_short_hello_world() {
    let mut cells = Cells::default();
    let program = "+[-->-[>>+>-----<<]<--<---]>-.>>>+.>>..+++[.>]<<<<.+++.------.<<-.>>>>+.";
    let commands = bf_parse(program).expect("short hello world parsing returned an error");

    let out = vec![];
    let mut buf_out = BufWriter::new(out);
    let input = vec![];
    let mut cursor = VecDeque::from(input);

    cells
        .interpret(&commands, buf_out.get_mut(), &mut cursor)
        .expect("interpret should succeed");

    assert_eq!(
        "Hello, World!".to_string(),
        String::from_utf8(
            buf_out
                .into_inner()
                .expect("getting inner buffer should work")
        )
        .expect("string should be valid utf8"),
        "outputs should match"
    );
}

/// Tests obtaining the cell size.
#[test]
fn cells_cell_size() {
    let mut cells = Cells::default();
    let program = r##"
        Calculate the value 256 and test if it's zero
        If the interpreter errors on overflow this is where it'll happen
        ++++++++[>++++++++<-]>[<++++>-]
        +<[>-<
            Not zero so multiply by 256 again to get 65536
            [>++++<-]>[<++++++++>-]<[>++++++++<-]
            +>[>
                # Print "32"
                ++++++++++[>+++++<-]>+.-.[-]<
            <[-]<->] <[>>
                # Print "16"
                +++++++[>+++++++<-]>.+++++.[-]<
        <<-]] >[>
            # Print "8"
            ++++++++[>+++++++<-]>.[-]<
        <-]<
        # Print " bit cells\n"
        +++++++++++[>+++>+++++++++>+++++++++>+<<<<-]>-.>-.+++++++.+++++++++++.<.
        >>.++.+++++++..<-.>>-
        Clean up used cells.
        [[-]<]
        "##;
    let commands = bf_parse(program).expect("cell size parsing returned an error");

    let out = vec![];
    let mut buf_out = BufWriter::new(out);
    let input = vec![];
    let mut cursor = VecDeque::from(input);

    cells
        .interpret(&commands, buf_out.get_mut(), &mut cursor)
        .expect("interpret should succeed");

    assert_eq!(
        "8 bit cells\n".to_string(),
        String::from_utf8(
            buf_out
                .into_inner()
                .expect("getting inner buffer should work")
        )
        .expect("string should be valid utf8"),
        "outputs should match"
    );
}

/// A cat program where EOF returns 0.
#[test]
fn cells_cat_zero() {
    let mut cells = Cells::default();
    let program = ",[.,]";
    let commands = bf_parse(program).expect("cat zero parsing returned an error");

    let out = vec![];
    let mut buf_out = BufWriter::new(out);
    let input = vec![
        'H' as u8, 'e' as u8, 'l' as u8, 'l' as u8, 'o' as u8, '!' as u8, 0,
    ];
    let mut cursor = VecDeque::from(input);

    cells
        .interpret(&commands, buf_out.get_mut(), &mut cursor)
        .expect("interpret should succeed");

    assert_eq!(
        "Hello!".to_string(),
        String::from_utf8(
            buf_out
                .into_inner()
                .expect("getting inner buffer should work")
        )
        .expect("string should be valid utf8"),
        "outputs should match"
    );
    assert!(cursor.is_empty(), "the closing zero should be read");
}

/// A cat program where EOF returns -1.
#[test]
fn cells_cat_negative_one() {
    let mut cells = Cells::default();
    let program = ",+[-.,+]";
    let commands = bf_parse(program).expect("cat negative one parsing returned an error");

    let out = vec![];
    let mut buf_out = BufWriter::new(out);
    let input = vec![
        'H' as u8,
        'e' as u8,
        'l' as u8,
        'l' as u8,
        'o' as u8,
        '!' as u8,
        (-1 as i8) as u8,
    ];
    let mut cursor = VecDeque::from(input);

    cells
        .interpret(&commands, buf_out.get_mut(), &mut cursor)
        .expect("interpret should succeed");

    assert_eq!(
        "Hello!".to_string(),
        String::from_utf8(
            buf_out
                .into_inner()
                .expect("getting inner buffer should work")
        )
        .expect("string should be valid utf8"),
        "outputs should match"
    );
}

#[test]
fn a_fresh_tape_is_one_zero_cell() {
    let cells = Cells::with_capacity(4);
    assert_eq!(0, cells.current());
    assert!(cells.is_current_cell_zero());
    assert_eq!(&VecDeque::from(vec![0i8]), cells.cells());
    assert_eq!(&VecDeque::from(vec![0i8]), Cells::default().cells());
    assert_eq!(&VecDeque::from(vec![0i8]), Cells::with_capacity(0).cells());
}

#[test]
fn increment_wraps_from_127_to_minus_128() {
    let mut cells = Cells::default();
    cells.input(127);
    cells.increment();
    assert_eq!(-128, cells.current());
    cells.increment();
    assert_eq!(-127, cells.current());
}

#[test]
fn decrement_wraps_from_minus_128_to_127() {
    let mut cells = Cells::default();
    cells.input(-128);
    cells.decrement();
    assert_eq!(127, cells.current());
    cells.decrement();
    assert_eq!(126, cells.current());
}

#[test]
fn two_hundred_fifty_six_increments_come_back_to_zero() {
    let mut cells = Cells::default();
    for _ in 0..256 {
        cells.increment();
    }
    assert!(cells.is_current_cell_zero());
    cells.decrement();
    assert_eq!(-1, cells.current());
}

#[test]
fn left_then_right_comes_back_to_the_same_cell() {
    let mut cells = Cells::default();
    cells.input(42);
    cells.left();
    assert_eq!(0, cells.current());
    assert_eq!(&VecDeque::from(vec![0i8, 42]), cells.cells());
    cells.right();
    assert_eq!(42, cells.current());
    assert_eq!(&VecDeque::from(vec![0i8, 42]), cells.cells());
}

#[test]
fn the_tape_grows_on_both_sides() {
    let mut cells = Cells::default();
    cells.input(1);
    cells.right();
    cells.input(2);
    cells.right();
    assert_eq!(&VecDeque::from(vec![1i8, 2, 0]), cells.cells());
    cells.left();
    cells.left();
    cells.left();
    cells.input(-3);
    assert_eq!(&VecDeque::from(vec![-3i8, 1, 2, 0]), cells.cells());
    cells.right();
    assert_eq!(1, cells.current());
    assert_eq!(&VecDeque::from(vec![-3i8, 1, 2, 0]), cells.cells());
}

#[test]
fn output_gives_the_character_of_the_cell() {
    let mut cells = Cells::default();
    cells.input(65);
    assert_eq!('A', cells.output().expect("65 is a character"));
    cells.input(0);
    assert_eq!('\0', cells.output().expect("0 is a character"));
    cells.input(127);
    assert_eq!('\u{7f}', cells.output().expect("127 is a character"));
}

#[test]
fn output_of_a_negative_cell_is_a_conversion_error() {
    let mut cells = Cells::default();
    cells.input(-1);
    assert!(matches!(cells.output(), Err(BraincluckError::ConversionError)));
    cells.input(-128);
    assert!(matches!(cells.output(), Err(BraincluckError::ConversionError)));
}

#[test]
fn a_loop_on_a_zero_cell_runs_its_body_zero_times() {
    let mut cells = Cells::default();
    let commands = bf_parse("[+.>,]").expect("the program parses");
    let mut out = vec![];
    let mut input = VecDeque::from(vec![7u8]);
    cells
        .interpret(&commands, &mut out, &mut input)
        .expect("the loop should be passed over");
    assert!(out.is_empty());
    assert_eq!(VecDeque::from(vec![7u8]), input);
    assert_eq!(&VecDeque::from(vec![0i8]), cells.cells());
}

#[test]
fn a_loop_runs_until_the_cell_is_zero() {
    let mut cells = Cells::default();
    let commands = bf_parse("+++++[->+.<]").expect("the program parses");
    let mut out = vec![];
    let mut input = VecDeque::new();
    cells
        .interpret(&commands, &mut out, &mut input)
        .expect("the loop should end");
    assert_eq!(vec![1u8, 2, 3, 4, 5], out);
    assert_eq!(&VecDeque::from(vec![0i8, 5]), cells.cells());
    assert!(cells.is_current_cell_zero());
}

#[test]
fn a_loop_counts_up_through_the_wraparound() {
    let mut cells = Cells::default();
    let commands = bf_parse("-[+>+<]").expect("the program parses");
    let mut out = vec![];
    let mut input = VecDeque::new();
    cells
        .interpret(&commands, &mut out, &mut input)
        .expect("the loop should end");
    assert_eq!(&VecDeque::from(vec![0i8, 1]), cells.cells());
}

#[test]
fn input_from_an_empty_source_fails_before_any_output() {
    let mut cells = Cells::default();
    let commands = bf_parse(",.").expect("the program parses");
    let mut out = vec![];
    let mut input = VecDeque::new();
    let result = cells.interpret(&commands, &mut out, &mut input);
    assert!(matches!(
        result,
        Err(BraincluckError::IOError(IoFault::UnexpectedEof))
    ));
    assert!(out.is_empty());
    assert_eq!(&VecDeque::from(vec![0i8]), cells.cells());
}

#[test]
fn what_ran_before_an_error_stays_done() {
    let mut cells = Cells::default();
    let commands = bf_parse("+++.>-.+.").expect("the program parses");
    let mut out = vec![];
    let mut input = VecDeque::new();
    let result = cells.interpret(&commands, &mut out, &mut input);
    assert!(matches!(result, Err(BraincluckError::ConversionError)));
    assert_eq!(vec![3u8], out);
    assert_eq!(&VecDeque::from(vec![3i8, -1]), cells.cells());
    assert_eq!(-1, cells.current());
}

#[test]
fn input_bytes_above_127_become_negative_cells() {
    let mut cells = Cells::default();
    let commands = bf_parse(",>,>,").expect("the program parses");
    let mut out = vec![];
    let mut input = VecDeque::from(vec![128u8, 255, 127, 9]);
    cells
        .interpret(&commands, &mut out, &mut input)
        .expect("three bytes are there to read");
    assert_eq!(&VecDeque::from(vec![-128i8, -1, 127]), cells.cells());
    assert_eq!(VecDeque::from(vec![9u8]), input);
}

#[test]
fn execute_runs_one_command() {
    let mut cells = Cells::default();
    let mut out = vec![];
    let mut input = VecDeque::from(vec![3u8]);
    cells
        .execute(&Command::Input, &mut out, &mut input)
        .expect("a byte is there to read");
    assert_eq!(3, cells.current());
    let body = vec![Command::Output, Command::Decrement];
    cells
        .execute(&Command::Jump(body), &mut out, &mut input)
        .expect("the loop should end");
    assert_eq!(vec![3u8, 2, 1], out);
    assert!(cells.is_current_cell_zero());
    cells
        .execute(&Command::Left, &mut out, &mut input)
        .expect("moving cannot fail");
    cells
        .execute(&Command::Right, &mut out, &mut input)
        .expect("moving cannot fail");
    cells
        .execute(&Command::Right, &mut out, &mut input)
        .expect("moving cannot fail");
    cells
        .execute(&Command::Increment, &mut out, &mut input)
        .expect("counting cannot fail");
    assert_eq!(&VecDeque::from(vec![0i8, 0, 1]), cells.cells());
    assert!(matches!(
        cells.execute(&Command::Input, &mut out, &mut input),
        Err(BraincluckError::IOError(IoFault::UnexpectedEof))
    ));
}

#[test]
fn comments_do_not_change_the_run() {
    let bare = bf_parse(",[.-]").expect("the bare program parses");
    let spaced = bf_parse("read , then [ print . and count down - ]").expect("the spaced program parses");
    let mut out_bare = vec![];
    let mut out_spaced = vec![];
    Cells::default()
        .interpret(&bare, &mut out_bare, &mut VecDeque::from(vec![4u8]))
        .expect("the run should end");
    Cells::default()
        .interpret(&spaced, &mut out_spaced, &mut VecDeque::from(vec![4u8]))
        .expect("the run should end");
    assert_eq!(vec![4u8, 3, 2, 1], out_bare);
    assert_eq!(out_bare, out_spaced);
}

#[test]
fn debug_leaves_the_tape_alone() {
    let mut cells = Cells::default();
    cells.input(5);
    cells.debug();
    assert_eq!(5, cells.current());
}

#[test]
fn errors_report_themselves() {
    assert_eq!(
        "parsing error: `unmatched `]` at byte 2`",
        bf_parse("[]]").expect_err("the brackets do not match").message()
    );
    assert_eq!(
        "failed to fill whole buffer",
        BraincluckError::IOError(IoFault::UnexpectedEof).message()
    );
    assert_eq!(
        "failed to write whole buffer",
        BraincluckError::IOError(IoFault::WriteFailed).message()
    );
    assert_eq!(
        "out of range integral type conversion attempted",
        BraincluckError::ConversionError.message()
    );
    assert_eq!(
        "an error occurred when formatting an argument",
        BraincluckError::StringFormatError.message()
    );
}

#[test]
fn a_cloned_tape_goes_its_own_way() {
    let mut cells = Cells::default();
    cells.input(9);
    let mut copy = cells.clone();
    copy.increment();
    copy.right();
    assert_eq!(9, cells.current());
    assert_eq!(&VecDeque::from(vec![9i8]), cells.cells());
    assert_eq!(&VecDeque::from(vec![10i8, 0]), copy.cells());
}

#[test]
fn a_cloned_command_is_equal() {
    let commands = bf_parse("+[>[-]<,.]").expect("the program parses");
    let copies: Vec<Command> = commands.iter().map(|command| command.clone()).collect();
    assert_eq!(commands, copies);
}
