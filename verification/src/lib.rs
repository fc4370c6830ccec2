//! An interpreter for Brainfuck, the tape language of eight instructions.
//!
//! [`bf_parse`] turns a source text into commands, and [`Cells::interpret`]
//! runs them on a tape that grows on demand in both directions, reading its
//! input from a buffer and writing its output to one. A [`runner::Runner`]
//! takes the same run one instruction at a time and leaves the reading and
//! writing to its caller.
use vstd::prelude::*;
use vstd::string::StringSliceAdditionalSpecFns;

pub mod cells;
pub mod commands;
pub mod error;
pub mod lexer;
pub mod parser;
pub mod runner;
pub mod semantics;

pub use cells::Cells;
pub use commands::Command;
pub use error::BraincluckError;

use commands::{program, Instruction};
use lexer::{
    lemma_comment_text_is_inert, lemma_tokens_of_text, symbol_of_char, text_tokens, Lexer,
};
use parser::{balanced, lemma_unparse_injective, mismatch, parse, unparse, ParseFailure};
use semantics::{run, terminates, Machine};

verus! {

/// Parses a source text.
///
/// Every character that is none of the eight command symbols is a comment.
/// The parse succeeds exactly when the brackets of the text are balanced,
/// and then gives the commands that the text's tokens spell. Otherwise the
/// error is a `ParseError` whose text says at which byte of the source the
/// brackets stop matching.
pub fn bf_parse(input: &str) -> (res: Result<Vec<Command>, BraincluckError>)
    ensures
        res is Ok <==> balanced(text_tokens(input@)),
        match res {
            Ok(commands) => unparse(program(commands@)) == text_tokens(input@),
            Err(error) => exists|failure: ParseFailure|
                {
                    &&& #[trigger] mismatch(input.spec_bytes(), 0, failure)
                    &&& error matches BraincluckError::ParseError(text)
                    &&& text@ == failure.describe()
                },
        },
{
    let lexer = Lexer::new(input);
    proof {
        assert(lexer.rest() == input.spec_bytes());
        lemma_tokens_of_text(input@);
    }
    match parse(lexer) {
        Ok(commands) => Ok(commands),
        Err(failure) => Err(BraincluckError::ParseError(failure.message())),
    }
}

/// Comments change neither the parse nor the run. Take a text and the same
/// text with characters that are no command symbols put in at any one
/// place. Then the brackets of both are balanced or those of neither are;
/// and instruction sequences that are written with the tokens of the one
/// and of the other are the same sequence, so from every state they run
/// alike.
pub proof fn lemma_comments_change_nothing(
    before: Seq<char>,
    comment: Seq<char>,
    after: Seq<char>,
    plain: Seq<Instruction>,
    commented: Seq<Instruction>,
    machine: Machine,
)
    requires
        forall|i: int| 0 <= i < comment.len() ==> (#[trigger] symbol_of_char(comment[i])) is None,
        unparse(plain) == text_tokens(before + after),
        unparse(commented) == text_tokens(before + comment + after),
    ensures
        balanced(text_tokens(before + comment + after)) == balanced(text_tokens(before + after)),
        commented == plain,
        terminates(commented, machine) == terminates(plain, machine),
        run(commented, machine) == run(plain, machine),
{
    lemma_comment_text_is_inert(before, comment, after);
    lemma_unparse_injective(plain, commented);
}

} // verus!
