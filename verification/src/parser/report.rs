//! Places in a source text as a reader counts them, and errors shown in the
//! line they are about. Both are left to `pest`, so that they read as the
//! reports of other parsers do.

use crate::parser::{kind_message, ParseError};
use vstd::prelude::*;

verus! {

/// The one rule under which `pest` is told of an error.
#[derive(Clone, Copy, Debug, PartialEq, Eq, PartialOrd, Ord, Hash)]
pub enum Rule {
    Program,
}

/// The line and the column, both counted from one, that `pest` gives for the
/// byte offset in the text; nothing where the offset is outside the text or
/// inside a character.
pub uninterp spec fn pest_line_col(source: Seq<char>, offset: nat) -> Option<(nat, nat)>;

/// What `pest` prints for an error with that message about the span of the
/// text from the byte offset `start` to the byte offset `end`; nothing where
/// the two do not bound a stretch of the text.
pub uninterp spec fn pest_report(source: Seq<char>, start: nat, end: nat, message: Seq<char>)
    -> Option<Seq<char>>;

/// `pest::Position::new` and, on the position it gives, `line_col`: the line
/// and column of a byte offset. The result depends on the text and the
/// offset alone; what it is, is not stated.
#[verifier::external_body]
pub(crate) fn position_line_col(source: &str, offset: usize) -> (r: Option<(usize, usize)>)
    ensures
        match r {
            Some((line, col)) => pest_line_col(source@, offset as nat) == Some(
                (line as nat, col as nat),
            ),
            None => pest_line_col(source@, offset as nat) is None,
        },
{
    match pest::Position::new(source, offset) {
        Some(position) => Some(position.line_col()),
        None => None,
    }
}

/// `pest::Span::new`, `pest::error::Error::new_from_span` with a custom
/// message on the span it gives, and the text that the error prints as. The
/// result depends on the text, the two offsets and the message alone; what
/// it is, is not stated.
#[verifier::external_body]
fn span_report(source: &str, start: usize, end: usize, message: String) -> (r: Option<String>)
    ensures
        match r {
            Some(text) => pest_report(source@, start as nat, end as nat, message@) == Some(text@),
            None => pest_report(source@, start as nat, end as nat, message@) is None,
        },
{
    match pest::Span::new(source, start, end) {
        Some(span) => Some(
            pest::error::Error::<Rule>::new_from_span(
                pest::error::ErrorVariant::CustomError { message },
                span,
            ).to_string(),
        ),
        None => None,
    }
}

/// What is shown for an error in `source`, if the error has a span in it.
pub open spec fn shown(error: ParseError, source: Seq<char>) -> Option<Seq<char>> {
    if error.offset + error.length <= usize::MAX {
        pest_report(
            source,
            error.offset as nat,
            (error.offset + error.length) as nat,
            kind_message(error.kind),
        )
    } else {
        None
    }
}

impl ParseError {
    /// The error shown in the line of `source` that it is about, with what
    /// is wrong in words. Nothing where the span of the error is no stretch
    /// of `source`, as with an error from another text.
    pub fn report(&self, source: &str) -> (r: Option<String>)
        ensures
            match r {
                Some(text) => shown(*self, source@) == Some(text@),
                None => shown(*self, source@) is None,
            },
    {
        if self.length > usize::MAX - self.offset {
            None
        } else {
            span_report(source, self.offset, self.offset + self.length, self.message())
        }
    }
}

} // verus!
