use braincluck_interpreter::lexer::{Lexer, Tok};

#[test]
fn skip_comments() {
    let input = r##"
    Code:   Pseudo code:
    >>      Move the pointer to cell2
    [-]     Set cell2 to 0 
    <<      Move the pointer back to cell0
    [       While cell0 is not 0
    -       Subtract 1 from cell0
    >>      Move the pointer to cell2
    +       Add 1 to cell2
    <<      Move the pointer back to cell0
    ]       End while
    "##;

    assert_eq!(Lexer::new(input).count(), 15);
}

#[test]
fn tokens_carry_byte_spans() {
    let mut lexer = Lexer::new("a>é<\n+-.,[]");
    let mut seen = Vec::new();
    while let Some(item) = lexer.next() {
        seen.push(item.expect("the scanner has no errors"));
    }
    assert_eq!(
        vec![
            (1, Tok::GreaterThan, 2),
            (4, Tok::LessThan, 5),
            (6, Tok::Plus, 7),
            (7, Tok::Minus, 8),
            (8, Tok::Period, 9),
            (9, Tok::Comma, 10),
            (10, Tok::LeftBracket, 11),
            (11, Tok::RightBracket, 12),
        ],
        seen
    );
    assert!(lexer.next().is_none());
}

#[test]
fn a_text_without_symbols_has_no_tokens() {
    assert_eq!(Lexer::new("").count(), 0);
    assert_eq!(Lexer::new("hello world!\n\t").count(), 0);
    assert!(Lexer::new("(){}*/").next().is_none());
}

#[test]
fn count_starts_where_the_scanner_stands() {
    let mut lexer = Lexer::new("+ + +");
    assert!(lexer.next().is_some());
    assert_eq!(lexer.count(), 2);
}
