//! Syntax errors.
use crate::modules::expand::ImportError;
use crate::token::Span;
use vstd::prelude::*;

verus! {

/// What is wrong with a source, and where.
#[derive(Debug)]
pub struct ParseError {
    pub message: String,
    pub span: Span,
}

impl From<ImportError> for ParseError {
    /// A failed import as an error of the file that holds it.
    fn from(e: ImportError) -> (r: ParseError)
    {
        ParseError { message: e.message, span: e.span }
    }
}

impl vstd::std_specs::convert::FromSpecImpl<ImportError> for ParseError {
    open spec fn obeys_from_spec() -> bool {
        true
    }

    open spec fn from_spec(e: ImportError) -> ParseError {
        ParseError { message: e.message, span: e.span }
    }
}

} // verus!
