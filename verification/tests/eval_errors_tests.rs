use whipsnake::error::RuntimeError;
use whipsnake::eval_errors::{
    cannot_set_attribute, check_call_arity, name_error, no_attribute, not_callable,
    return_outside_function,
};
use whipsnake::token::SourceLocation;

#[test]
fn unbound_name_message() {
    assert_eq!(
        name_error("x", 3),
        RuntimeError::NameError(SourceLocation { line: 3 }, "name 'x' is not defined".to_string())
    );
}

#[test]
fn call_arity_is_checked() {
    assert_eq!(check_call_arity("f", 2, 2, 1), Ok(()));
    assert_eq!(
        check_call_arity("greet", 1, 3, 7),
        Err(RuntimeError::RuntimeError(
            SourceLocation { line: 7 },
            "Function greet expects 1 arguments but got 3".to_string()
        ))
    );
}

#[test]
fn return_outside_a_function_message() {
    assert_eq!(
        return_outside_function(2),
        RuntimeError::RuntimeError(
            SourceLocation { line: 2 },
            "got return statement outside of function call".to_string()
        )
    );
}

#[test]
fn attribute_and_call_messages() {
    assert_eq!(
        no_attribute("size", 4),
        RuntimeError::AttributeError(SourceLocation { line: 4 }, "object has no attribute 'size'".to_string())
    );
    assert_eq!(
        cannot_set_attribute("size", 5),
        RuntimeError::AttributeError(SourceLocation { line: 5 }, "cannot set attribute 'size'".to_string())
    );
    assert_eq!(
        not_callable("int", 6),
        RuntimeError::TypeError(SourceLocation { line: 6 }, "'int' object is not callable".to_string())
    );
}
