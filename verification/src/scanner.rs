//! The errors that scanning source text can raise, each with its line.

use vstd::prelude::*;

verus! {

/// An error found while scanning source text: an unexpected character, a
/// string without its closing quote, an indentation deeper by more than one
/// level (and by how many), or a number with a point and no digits after
/// it.
#[derive(Debug, Clone, Copy, PartialEq, Eq, Structural)]
pub enum ScannerError {
    UnexpectedCharacter(usize, char),
    UnterminatedString(usize),
    TooManyIndentations(usize, usize),
    MalformedNumberLiteral(usize),
}

} // verus!
