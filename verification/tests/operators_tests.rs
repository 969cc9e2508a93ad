use whipsnake::error::RuntimeError;
use whipsnake::operators::{
    binary_expr, check_arity, constant_identity, unary_expr, Arity, BinaryOutcome, FloatOp, Operand,
    UnaryOutcome,
};
use whipsnake::token::{SourceLocation, Token, TokenKind};

fn op(kind: TokenKind, lexeme: &str) -> Token {
    Token::new(kind, lexeme, 7)
}

fn int_value(outcome: BinaryOutcome) -> i64 {
    match outcome {
        BinaryOutcome::Value(Operand::Int(i)) => i,
        _ => panic!("expected an integer"),
    }
}

fn bool_value(outcome: BinaryOutcome) -> bool {
    match outcome {
        BinaryOutcome::Value(Operand::Bool(b)) => b,
        _ => panic!("expected a truth value"),
    }
}

fn str_value(outcome: BinaryOutcome) -> String {
    match outcome {
        BinaryOutcome::Value(Operand::Str(s)) => s,
        _ => panic!("expected a string"),
    }
}

fn type_error(outcome: BinaryOutcome) -> RuntimeError {
    match outcome {
        BinaryOutcome::Error(e) => e,
        _ => panic!("expected an error"),
    }
}

#[test]
fn integer_arithmetic() {
    let plus = op(TokenKind::Plus, "+");
    let minus = op(TokenKind::Minus, "-");
    let star = op(TokenKind::Star, "*");
    assert_eq!(int_value(binary_expr(&Operand::Int(1), &plus, &Operand::Int(2))), 3);
    assert_eq!(int_value(binary_expr(&Operand::Int(1), &minus, &Operand::Int(5))), -4);
    assert_eq!(int_value(binary_expr(&Operand::Int(-3), &star, &Operand::Int(4))), -12);
}

#[test]
fn integer_comparisons() {
    let less = op(TokenKind::Less, "<");
    let ge = op(TokenKind::GreaterEqual, ">=");
    assert!(bool_value(binary_expr(&Operand::Int(1), &less, &Operand::Int(2))));
    assert!(!bool_value(binary_expr(&Operand::Int(2), &less, &Operand::Int(2))));
    assert!(bool_value(binary_expr(&Operand::Int(2), &ge, &Operand::Int(2))));
}

#[test]
fn floats_are_left_to_the_caller() {
    let slash = op(TokenKind::Slash, "/");
    let plus = op(TokenKind::Plus, "+");
    let greater = op(TokenKind::Greater, ">");
    let f = Operand::Float { nonzero: true };
    assert!(matches!(binary_expr(&Operand::Int(1), &slash, &Operand::Int(2)), BinaryOutcome::Float(FloatOp::Div)));
    assert!(matches!(binary_expr(&Operand::Int(1), &plus, &f), BinaryOutcome::Float(FloatOp::Add)));
    assert!(matches!(binary_expr(&f, &greater, &Operand::Int(1)), BinaryOutcome::Float(FloatOp::Greater)));
}

#[test]
fn string_concatenation_and_repetition() {
    let plus = op(TokenKind::Plus, "+");
    let star = op(TokenKind::Star, "*");
    let ab = Operand::Str("ab".to_string());
    assert_eq!(str_value(binary_expr(&ab, &plus, &Operand::Str("cd".to_string()))), "abcd");
    assert_eq!(str_value(binary_expr(&ab, &star, &Operand::Int(3))), "ababab");
    assert_eq!(str_value(binary_expr(&ab, &star, &Operand::Int(-1))), "");
}

#[test]
fn type_errors_name_both_types() {
    let plus = op(TokenKind::Plus, "+");
    let e = type_error(binary_expr(&Operand::Str("a".to_string()), &plus, &Operand::Int(1)));
    assert_eq!(
        e,
        RuntimeError::TypeError(
            SourceLocation { line: 7 },
            String::from("unsupported operand type(s) for +: 'str' and 'int'")
        )
    );
    assert_eq!(e.message(), "TypeError at line 7: unsupported operand type(s) for +: 'str' and 'int'");
    let star = op(TokenKind::Star, "*");
    let e = type_error(binary_expr(&Operand::Int(2), &star, &Operand::Str("a".to_string())));
    assert_eq!(
        e,
        RuntimeError::TypeError(
            SourceLocation { line: 7 },
            String::from("unsupported operand type(s) for *: 'int' and 'str'")
        )
    );
    let le = op(TokenKind::LessEqual, "<=");
    let e = type_error(binary_expr(&Operand::NoneValue, &le, &Operand::Float { nonzero: false }));
    assert_eq!(
        e,
        RuntimeError::TypeError(
            SourceLocation { line: 7 },
            String::from("unsupported operand type(s) for <=: 'NoneType' and 'float'")
        )
    );
}

#[test]
fn equality_of_operands() {
    let eq = op(TokenKind::EqualEqual, "==");
    let ne = op(TokenKind::BangEqual, "!=");
    assert!(bool_value(binary_expr(&Operand::Int(1), &eq, &Operand::Int(1))));
    assert!(!bool_value(binary_expr(&Operand::Int(1), &eq, &Operand::Bool(true))));
    assert!(bool_value(binary_expr(&Operand::Int(1), &ne, &Operand::Str("1".to_string()))));
    assert!(bool_value(binary_expr(&Operand::NoneValue, &eq, &Operand::NoneValue)));
    let f = Operand::Float { nonzero: true };
    assert!(matches!(binary_expr(&f, &eq, &f), BinaryOutcome::Equality { negate: false }));
    assert!(matches!(
        binary_expr(&Operand::Function, &ne, &Operand::Function),
        BinaryOutcome::Equality { negate: true }
    ));
}

#[test]
fn identity_of_operands() {
    let is = op(TokenKind::Is, "is");
    assert!(bool_value(binary_expr(&Operand::Int(5), &is, &Operand::Int(5))));
    assert!(!bool_value(binary_expr(&Operand::Int(5), &is, &Operand::Int(6))));
    assert!(bool_value(binary_expr(&Operand::NoneValue, &is, &Operand::NoneValue)));
    assert!(matches!(binary_expr(&Operand::Int(1000), &is, &Operand::Int(1000)), BinaryOutcome::Identity));
    assert_eq!(constant_identity(&Operand::Int(-5)), Some(999995));
    assert_eq!(constant_identity(&Operand::Int(257)), None);
    assert_eq!(constant_identity(&Operand::Bool(true)), Some(140735165470832));
}

#[test]
fn other_operators_are_not_binary() {
    let dot = op(TokenKind::Dot, ".");
    assert!(matches!(binary_expr(&Operand::Int(1), &dot, &Operand::Int(2)), BinaryOutcome::InvalidOperator));
}

#[test]
fn unary_operators() {
    let minus = op(TokenKind::Minus, "-");
    let tilde = op(TokenKind::Tilde, "~");
    let not = op(TokenKind::Not, "not");
    let plus = op(TokenKind::Plus, "+");
    assert!(matches!(unary_expr(&minus, &Operand::Int(4)), UnaryOutcome::Value(Operand::Int(-4))));
    assert!(matches!(unary_expr(&tilde, &Operand::Int(4)), UnaryOutcome::Value(Operand::Int(-5))));
    assert!(matches!(unary_expr(&not, &Operand::Str(String::new())), UnaryOutcome::Value(Operand::Bool(true))));
    assert!(matches!(unary_expr(&plus, &Operand::Int(4)), UnaryOutcome::Unchanged));
    assert!(matches!(unary_expr(&minus, &Operand::Float { nonzero: true }), UnaryOutcome::FloatNegate));
    match unary_expr(&minus, &Operand::Str("x".to_string())) {
        UnaryOutcome::Error(e) => assert_eq!(
            e,
            RuntimeError::TypeError(SourceLocation { line: 7 }, String::from("bad operand type for unary -: 'str'"))
        ),
        _ => panic!("expected an error"),
    }
    match unary_expr(&op(TokenKind::Star, "*"), &Operand::Int(1)) {
        UnaryOutcome::Error(e) => assert_eq!(
            e,
            RuntimeError::TypeError(SourceLocation { line: 7 }, String::from("invalid unary operator: '*'"))
        ),
        _ => panic!("expected an error"),
    }
}

#[test]
fn truthiness_and_type_names() {
    assert!(!Operand::Int(0).is_truthy());
    assert!(Operand::Int(-1).is_truthy());
    assert!(!Operand::Float { nonzero: false }.is_truthy());
    assert!(!Operand::Str(String::new()).is_truthy());
    assert!(Operand::Str("a".to_string()).is_truthy());
    assert!(!Operand::NoneValue.is_truthy());
    assert!(Operand::Function.is_truthy());
    assert_eq!(Operand::Int(10).py_type(), "int");
    assert_eq!(Operand::Str("test".to_string()).py_type(), "str");
    assert_eq!(Operand::NoneValue.py_type(), "NoneType");
    assert_eq!(Operand::NativeFunction.py_type(), "builtin_function_or_method");
}

#[test]
fn arity_checks() {
    assert_eq!(check_arity(1, Arity::Exact(1), "len", 3), Ok(()));
    assert_eq!(
        check_arity(2, Arity::Exact(1), "len", 3),
        Err(RuntimeError::TypeError(SourceLocation { line: 3 }, String::from("len() expected 1 arguments but got 2")))
    );
    assert_eq!(check_arity(0, Arity::Minimum(0), "print", 3), Ok(()));
    assert_eq!(
        check_arity(0, Arity::Minimum(2), "max", 9),
        Err(RuntimeError::TypeError(SourceLocation { line: 9 }, String::from("max() expected at least 2 arguments but got 0")))
    );
}

#[test]
fn comparisons_mirror_each_other() {
    let less = op(TokenKind::Less, "<");
    let greater = op(TokenKind::Greater, ">");
    let le = op(TokenKind::LessEqual, "<=");
    let ge = op(TokenKind::GreaterEqual, ">=");
    for (a, b) in [(1, 2), (2, 1), (3, 3), (-7, 4)] {
        let (x, y) = (Operand::Int(a), Operand::Int(b));
        assert_eq!(bool_value(binary_expr(&x, &less, &y)), bool_value(binary_expr(&y, &greater, &x)));
        assert_eq!(bool_value(binary_expr(&x, &le, &y)), bool_value(binary_expr(&y, &ge, &x)));
    }
    let s = Operand::Str("a".to_string());
    assert!(matches!(binary_expr(&s, &less, &Operand::Int(1)), BinaryOutcome::Error(_)));
    assert!(matches!(binary_expr(&Operand::Int(1), &greater, &s), BinaryOutcome::Error(_)));
}
