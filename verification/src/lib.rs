//! Metatape: an interpreter for a language whose memory is a tape of cells,
//! each of which is empty or holds a tape of its own.
//!
//! A source text is read by [`parser::parse`] into a [`program::Program`],
//! which a [`runtime::Runtime`] executes step by step on a
//! [`tape::Head`].

pub mod parser;
pub mod program;
pub mod runtime;
pub mod tape;
pub mod text;

use crate::parser::lexical::program_of;
use crate::parser::report::shown;
use crate::parser::{kind_message, parse, ParseError};
use crate::program::{Program, ProgramView};
use crate::runtime::{Runtime, RuntimeView};
use vstd::prelude::*;
use vstd::utf8::encode_utf8;

verus! {

/// What is told of an error in `source`: the error shown in its line, or,
/// where it cannot be shown, what is wrong in words.
pub open spec fn told_of(error: ParseError, source: Seq<char>) -> Seq<char> {
    match shown(error, source) {
        Some(text) => text,
        None => kind_message(error.kind),
    }
}

/// Whether `r` is the program that the text stands for, or what is told of
/// the first error in the text.
pub open spec fn program_or_told(text: Seq<char>, r: Result<Program, String>) -> bool {
    match program_of(encode_utf8(text)) {
        Ok((main, subroutines)) => r is Ok && r->Ok_0@ == (ProgramView {
            source: text,
            subroutines,
            instructions: main,
        }),
        Err(e) => r is Err && r->Err_0@ == told_of(e, text),
    }
}

/// The program that a source text stands for, or the first error in the
/// text, shown in its line.
pub fn program_from_source(source: String) -> (r: Result<Program, String>)
    ensures
        program_or_told(source@, r),
{
    let text = source.clone();
    match parse(source) {
        Ok(program) => Ok(program),
        Err(error) => Err(
            match error.report(text.as_str()) {
                Some(shown) => shown,
                None => error.message(),
            },
        ),
    }
}

/// A machine at the start of the program that a source text stands for, or
/// the first error in the text, shown in its line.
pub fn runtime_from_source(source: String) -> (r: Result<Runtime, String>)
    ensures
        match program_of(encode_utf8(source@)) {
            Ok((main, subroutines)) => r is Ok && r->Ok_0@.sound() && r->Ok_0@
                == RuntimeView::start(
                ProgramView { source: source@, subroutines, instructions: main },
            ),
            Err(e) => r is Err && r->Err_0@ == told_of(e, source@),
        },
{
    match program_from_source(source) {
        Ok(program) => Ok(Runtime::new(program)),
        Err(told) => Err(told),
    }
}

} // verus!
