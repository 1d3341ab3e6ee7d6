//! The one failure kind of this library: a recoverable grammar mismatch.

use vstd::prelude::*;

verus! {

/// The input text does not match the expected grammar at the current
/// position. Carries the unconsumed remainder so that a caller can report
/// the position or backtrack to a different grammar alternative.
#[derive(Debug)]
pub struct ParseError<'a>(pub &'a str);

/// The result of one parsing step: the unconsumed remainder together with
/// the parsed value, or the failure with the text it could not match.
pub type IResult<'a, T> = Result<(&'a str, T), ParseError<'a>>;

} // verus!
