//! Helpers of the interactive loop.

use vstd::prelude::*;

use crate::lexer::chars_of;
use crate::text::{decimal, push_decimal};

verus! {

/// Whether the character before the last one of `s` is `target` (for a
/// line read with its newline: whether the line ends with `target`).
pub fn next_to_last_equals(s: &str, target: char) -> (r: bool)
    ensures
        r == (s@.len() >= 2 && s@[s@.len() - 2] == target),
{
    let chars = chars_of(s);
    let n = chars.len();
    n >= 2 && chars[n - 2] == target
}

/// The report of an error at `line`: `[line N] Error: message`.
pub fn _error(line: u32, message: &str) -> (r: String)
    ensures
        r@ == "[line "@ + decimal(line as nat) + "] Error"@ + ""@ + ": "@ + message@,
{
    _report(line, "", message)
}

/// The report of an error at `line`, with `donde` saying where on it:
/// `[line N] Error<donde>: message`.
pub fn _report(line: u32, donde: &str, message: &str) -> (r: String)
    ensures
        r@ == "[line "@ + decimal(line as nat) + "] Error"@ + donde@ + ": "@ + message@,
{
    let mut s = String::from_str("[line ");
    push_decimal(&mut s, line as u64);
    s.append("] Error");
    s.append(donde);
    s.append(": ");
    s.append(message);
    s
}

} // verus!
