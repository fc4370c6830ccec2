//! The errors that parsing or running a program can end in.
use vstd::prelude::*;
use vstd::string::*;

verus! {

/// Why an input or output operation failed.
#[derive(Debug, Clone, Copy, PartialEq, Eq, Structural)]
pub enum IoFault {
    /// An `Input` command ran when the input had no byte left.
    UnexpectedEof,
    /// The output sink did not accept a write.
    WriteFailed,
}

/// The errors that can result while trying to interpret a program. Each one
/// ends the run; nothing is retried.
#[derive(Debug)]
pub enum BraincluckError {
    /// The brackets of the source do not match. The text says which bracket
    /// and where.
    ParseError(String),
    /// Reading input or writing output failed.
    IOError(IoFault),
    /// The current cell is negative and so stands for no character.
    ConversionError,
    /// A text sink could not take the formatted character.
    StringFormatError,
}

impl BraincluckError {
    /// The text that reports this error.
    pub open spec fn describe(self) -> Seq<char> {
        match self {
            BraincluckError::ParseError(text) => "parsing error: `"@ + text@ + "`"@,
            BraincluckError::IOError(IoFault::UnexpectedEof) => "failed to fill whole buffer"@,
            BraincluckError::IOError(IoFault::WriteFailed) => "failed to write whole buffer"@,
            BraincluckError::ConversionError => "out of range integral type conversion attempted"@,
            BraincluckError::StringFormatError => "an error occurred when formatting an argument"@,
        }
    }

    /// The text that reports this error.
    pub fn message(&self) -> (text: String)
        ensures
            text@ == self.describe(),
    {
        match self {
            BraincluckError::ParseError(detail) => {
                let mut text = String::from_str("parsing error: `");
                text.append(detail.as_str());
                text.append("`");
                text
            },
            BraincluckError::IOError(IoFault::UnexpectedEof) => String::from_str(
                "failed to fill whole buffer",
            ),
            BraincluckError::IOError(IoFault::WriteFailed) => String::from_str(
                "failed to write whole buffer",
            ),
            BraincluckError::ConversionError => String::from_str(
                "out of range integral type conversion attempted",
            ),
            BraincluckError::StringFormatError => String::from_str(
                "an error occurred when formatting an argument",
            ),
        }
    }
}

} // verus!
