//! From source text to a program that is ready to run.

pub mod lexical;
pub mod report;
pub mod syntactic;

use crate::parser::lexical::{parse_semantics, program_is_sound, program_read, spans};
use crate::program::Program;
use vstd::prelude::*;
use vstd::utf8::encode_utf8;

verus! {

/// What is wrong with a source text.
#[derive(Debug, Clone, Copy, PartialEq, Eq)]
pub enum ParseErrorKind {
    /// A character that begins no instruction.
    UnrecognizedInstruction,
    /// A subroutine definition inside a block or a subroutine.
    NestedSubroutineDef,
    /// An `if` or `else` without its `endif`.
    UnmatchedIf,
    /// An `else` or `endif` without its `if`.
    UnmatchedElseOrEndIf,
    /// A `loop` without its `endloop`.
    UnmatchedLoop,
    /// An `endloop` without its `loop`.
    UnmatchedEndLoop,
    /// A subroutine definition without a name or without a body.
    MalformedSubroutineDef,
    /// A block that the text does not close.
    UnclosedBlock,
}

/// An error in a source text, with the span of text that it is about: the
/// byte offset at which the span begins and its length in bytes, which is
/// at least one.
#[derive(Debug, Clone, Copy, PartialEq, Eq)]
pub struct ParseError {
    pub kind: ParseErrorKind,
    pub offset: usize,
    pub length: usize,
}

/// The error of that kind about the one byte at `offset`.
pub open spec fn error_at(kind: ParseErrorKind, offset: nat) -> ParseError {
    ParseError { kind, offset: offset as usize, length: 1 }
}

/// What is to be said of an error of that kind.
pub open spec fn kind_message(kind: ParseErrorKind) -> Seq<char> {
    match kind {
        ParseErrorKind::UnrecognizedInstruction => "Unrecognized instruction"@,
        ParseErrorKind::NestedSubroutineDef =>
            "Subroutines cannot be defined inside a subroutine or block"@,
        ParseErrorKind::UnmatchedIf => "No matching 'endif' instruction"@,
        ParseErrorKind::UnmatchedElseOrEndIf => "No matching 'if' instruction"@,
        ParseErrorKind::UnmatchedLoop => "No matching 'endloop' instruction"@,
        ParseErrorKind::UnmatchedEndLoop => "No matching 'loop' instruction"@,
        ParseErrorKind::MalformedSubroutineDef => "Subroutine definition needs a name and a body"@,
        ParseErrorKind::UnclosedBlock => "No matching '}' for this block"@,
    }
}

impl ParseError {
    /// What is wrong, in words.
    pub fn message(&self) -> (r: String)
        ensures
            r@ == kind_message(self.kind),
    {
        match self.kind {
            ParseErrorKind::UnrecognizedInstruction => "Unrecognized instruction".to_owned(),
            ParseErrorKind::NestedSubroutineDef =>
                "Subroutines cannot be defined inside a subroutine or block".to_owned(),
            ParseErrorKind::UnmatchedIf => "No matching 'endif' instruction".to_owned(),
            ParseErrorKind::UnmatchedElseOrEndIf => "No matching 'if' instruction".to_owned(),
            ParseErrorKind::UnmatchedLoop => "No matching 'endloop' instruction".to_owned(),
            ParseErrorKind::UnmatchedEndLoop => "No matching 'loop' instruction".to_owned(),
            ParseErrorKind::MalformedSubroutineDef =>
                "Subroutine definition needs a name and a body".to_owned(),
            ParseErrorKind::UnclosedBlock => "No matching '}' for this block".to_owned(),
        }
    }
}

/// Reads a source text: the program that it stands for, with every jump
/// resolved, or the first error in it, with its span in the text.
pub fn parse(source_string: String) -> (r: Result<Program, ParseError>)
    ensures
        program_read(source_string@, r),
        match r {
            Ok(program) => program@.linked(),
            Err(e) => spans(encode_utf8(source_string@), e),
        },
{
    let r = parse_semantics(source_string);
    proof {
        program_is_sound(encode_utf8(source_string@));
    }
    match &r {
        Ok(program) => {
            let _ = program.instructions();
        },
        Err(_) => {},
    }
    r
}

} // verus!
