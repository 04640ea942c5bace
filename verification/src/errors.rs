//! What a failed parse reports.

use crate::tokens::{Keyword, Location, Separator, TokenType};
use vstd::prelude::*;

verus! {

/// The result of one grammar rule.
pub type ParseResult<T> = Result<T, ParseError>;

/// Why a parse stopped.
#[derive(Debug, Clone, Copy, PartialEq, Eq)]
pub enum ParseError {
    /// A token of the given category had to follow.
    ExpectedType(TokenType),
    /// The given reserved word had to follow.
    ExpectedKeyword(Keyword),
    /// The given punctuation mark had to follow.
    ExpectedSeparator(Separator),
    /// An argument of a call had to follow.
    ExpectedArgument,
    /// The meta block holds no call.
    EmptyMeta,
    /// The input has ended, or what stands there is no token.
    Unknown,
}

/// A failure together with the place of the last token that was read before
/// the one that did not fit.
pub type ParseFinalError = (ParseError, Location);

/// The result of a whole parse.
pub type ParseFinalResult<T> = Result<T, ParseFinalError>;

} // verus!
