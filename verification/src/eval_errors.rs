//! The errors that running a program raises, with their exact messages.

use vstd::prelude::*;

use crate::error::RuntimeError;
use crate::text::{concat3, decimal, push_decimal};
use crate::token::SourceLocation;

verus! {

/// The message of a name that no scope binds.
pub open spec fn name_error_text(name: Seq<char>) -> Seq<char> {
    "name '"@ + name + "' is not defined"@
}

/// The error of reading the unbound name `name` on line `line`.
pub fn name_error(name: &str, line: usize) -> (r: RuntimeError)
    ensures
        r matches RuntimeError::NameError(l, m) && l.line == line && m@ == name_error_text(name@),
{
    RuntimeError::NameError(SourceLocation { line }, concat3("name '", name, "' is not defined"))
}

/// The message of a call of the function `name`, which takes `expected`
/// arguments, with `got` arguments.
pub open spec fn call_arity_text(name: Seq<char>, expected: nat, got: nat) -> Seq<char> {
    "Function "@ + name + " expects "@ + decimal(expected) + " arguments but got "@ + decimal(got)
}

/// Checks that a call of the function `name`, which takes `expected`
/// arguments, passes as many; the error stands on the line of the call.
pub fn check_call_arity(name: &str, expected: usize, got: usize, line: usize) -> (r: Result<
    (),
    RuntimeError,
>)
    ensures
        expected == got <==> r is Ok,
        r matches Err(e) ==> (e matches RuntimeError::RuntimeError(l, m) && l.line == line && m@
            == call_arity_text(name@, expected as nat, got as nat)),
{
    if expected == got {
        return Ok(());
    }
    let mut m = concat3("Function ", name, " expects ");
    push_decimal(&mut m, expected as u64);
    m.append(" arguments but got ");
    push_decimal(&mut m, got as u64);
    Err(RuntimeError::RuntimeError(SourceLocation { line }, m))
}

/// The message of a `return` outside any function.
pub open spec fn return_outside_text() -> Seq<char> {
    "got return statement outside of function call"@
}

/// The error of a `return` on line `line` outside any function.
pub fn return_outside_function(line: usize) -> (r: RuntimeError)
    ensures
        r matches RuntimeError::RuntimeError(l, m) && l.line == line && m@ == return_outside_text(),
{
    RuntimeError::RuntimeError(
        SourceLocation { line },
        String::from_str("got return statement outside of function call"),
    )
}

/// The message of reading the attribute `name` of a value.
pub open spec fn no_attribute_text(name: Seq<char>) -> Seq<char> {
    "object has no attribute '"@ + name + "'"@
}

/// The error of reading the attribute `name` on line `line`: no value has
/// attributes.
pub fn no_attribute(name: &str, line: usize) -> (r: RuntimeError)
    ensures
        r matches RuntimeError::AttributeError(l, m) && l.line == line && m@ == no_attribute_text(
            name@,
        ),
{
    RuntimeError::AttributeError(SourceLocation { line }, concat3("object has no attribute '", name, "'"))
}

/// The message of setting the attribute `name` of a value.
pub open spec fn cannot_set_text(name: Seq<char>) -> Seq<char> {
    "cannot set attribute '"@ + name + "'"@
}

/// The error of setting the attribute `name` on line `line`.
pub fn cannot_set_attribute(name: &str, line: usize) -> (r: RuntimeError)
    ensures
        r matches RuntimeError::AttributeError(l, m) && l.line == line && m@ == cannot_set_text(
            name@,
        ),
{
    RuntimeError::AttributeError(SourceLocation { line }, concat3("cannot set attribute '", name, "'"))
}

/// The message of calling a value of the type `kind`, which is no
/// function.
pub open spec fn not_callable_text(kind: Seq<char>) -> Seq<char> {
    "'"@ + kind + "' object is not callable"@
}

/// The error of calling a value of the type `kind` on line `line`.
pub fn not_callable(kind: &str, line: usize) -> (r: RuntimeError)
    ensures
        r matches RuntimeError::TypeError(l, m) && l.line == line && m@ == not_callable_text(
            kind@,
        ),
{
    RuntimeError::TypeError(SourceLocation { line }, concat3("'", kind, "' object is not callable"))
}

} // verus!
