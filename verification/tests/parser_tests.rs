use whipsnake::ast::{Expr, Stmt};
use whipsnake::error::{CompilerError, ErrorReporter, ParseError};
use whipsnake::lexer::Lexer;
use whipsnake::parser::Parser;
use whipsnake::token::{Literal, SourceLocation, Token, TokenKind};

fn tok(kind: TokenKind, lexeme: &str, line: usize) -> Token {
    Token::new(kind, lexeme, line)
}

fn tok_float(text: &str, line: usize) -> Token {
    Token::with_literal(TokenKind::Float, text, Literal::Float(text.to_string()), line)
}

fn tok_int(value: i64, line: usize) -> Token {
    Token::with_literal(TokenKind::Int, &value.to_string(), Literal::Int(value), line)
}

fn tok_string(value: &str, line: usize) -> Token {
    Token::with_literal(
        TokenKind::String,
        &format!("\"{value}\""),
        Literal::String(value.to_string()),
        line,
    )
}

fn eof() -> Token {
    tok(TokenKind::Eof, "", 1)
}

fn float_box(text: &str) -> Box<Expr> {
    Box::new(Expr::Literal(Literal::Float(text.to_string())))
}

fn int_expr(value: i64) -> Expr {
    Expr::Literal(Literal::Int(value))
}

fn var(name: &str, line: usize) -> Expr {
    Expr::Variable(tok(TokenKind::Identifier, name, line))
}

fn parse_tokens(tokens: Vec<Token>) -> (Vec<Stmt>, ErrorReporter) {
    let mut reporter = ErrorReporter::new();
    let mut parser = Parser::new();
    let stmts = parser.parse(&tokens, &mut reporter);
    (stmts, reporter)
}

fn parse_source(source: &str) -> (Vec<Stmt>, ErrorReporter) {
    let mut reporter = ErrorReporter::new();
    let mut lexer = Lexer::new();
    let tokens = lexer.lex(source, &mut reporter);
    let mut parser = Parser::new();
    let stmts = parser.parse(&tokens, &mut reporter);
    (stmts, reporter)
}

fn parse_ok(tokens: Vec<Token>) -> Vec<Stmt> {
    let (stmts, reporter) = parse_tokens(tokens);
    assert!(!reporter.has_errors());
    stmts
}

#[test]
fn parse_string_literal() {
    assert_eq!(
        parse_ok(vec![tok_string("hi", 1), eof()]),
        vec![Stmt::Expression(Expr::Literal(Literal::String("hi".to_string())))]
    );
}

#[test]
fn parse_float_literal() {
    assert_eq!(
        parse_ok(vec![tok_float("1.234", 1), eof()]),
        vec![Stmt::Expression(Expr::Literal(Literal::Float("1.234".to_string())))]
    );
}

#[test]
fn parse_true_and_false_literals() {
    assert_eq!(
        parse_ok(vec![tok(TokenKind::True, "True", 1), eof()]),
        vec![Stmt::Expression(Expr::Literal(Literal::Bool(true)))]
    );
    assert_eq!(
        parse_ok(vec![tok(TokenKind::False, "False", 1), eof()]),
        vec![Stmt::Expression(Expr::Literal(Literal::Bool(false)))]
    );
}

#[test]
fn parse_none_literal() {
    assert_eq!(
        parse_ok(vec![tok(TokenKind::NoneKeyword, "None", 1), eof()]),
        vec![Stmt::Expression(Expr::Literal(Literal::NoneValue))]
    );
}

#[test]
fn parse_simple_grouping() {
    assert_eq!(
        parse_ok(vec![
            tok(TokenKind::LeftParen, "(", 1),
            tok(TokenKind::NoneKeyword, "None", 1),
            tok(TokenKind::RightParen, ")", 1),
            eof(),
        ]),
        vec![Stmt::Expression(Expr::Grouping(Box::new(Expr::Literal(Literal::NoneValue))))]
    );
}

#[test]
fn parse_not_unary() {
    assert_eq!(
        parse_ok(vec![tok(TokenKind::Not, "not", 1), tok(TokenKind::True, "True", 1), eof()]),
        vec![Stmt::Expression(Expr::Unary {
            operator: tok(TokenKind::Not, "not", 1),
            right: Box::new(Expr::Literal(Literal::Bool(true))),
        })]
    );
}

#[test]
fn parse_minus_unary() {
    assert_eq!(
        parse_ok(vec![tok(TokenKind::Minus, "-", 1), tok_float("1.234", 1), eof()]),
        vec![Stmt::Expression(Expr::Unary {
            operator: tok(TokenKind::Minus, "-", 1),
            right: float_box("1.234"),
        })]
    );
}

#[test]
fn parse_binary_operators() {
    let operators = [
        (TokenKind::Star, "*"),
        (TokenKind::Slash, "/"),
        (TokenKind::Plus, "+"),
        (TokenKind::Minus, "-"),
        (TokenKind::Greater, ">"),
        (TokenKind::GreaterEqual, ">="),
        (TokenKind::Less, "<"),
        (TokenKind::LessEqual, "<="),
        (TokenKind::BangEqual, "!="),
        (TokenKind::EqualEqual, "=="),
    ];
    for (kind, lexeme) in operators {
        assert_eq!(
            parse_ok(vec![tok_float("1.234", 1), tok(kind, lexeme, 1), tok_float("9.876", 1), eof()]),
            vec![Stmt::Expression(Expr::Binary {
                left: float_box("1.234"),
                operator: tok(kind, lexeme, 1),
                right: float_box("9.876"),
            })]
        );
    }
}

#[test]
fn parse_precedence_0() {
    assert_eq!(
        parse_ok(vec![
            tok_float("1.2", 1),
            tok(TokenKind::Star, "*", 1),
            tok_float("2.3", 1),
            tok(TokenKind::Plus, "+", 1),
            tok_float("3.4", 1),
            eof(),
        ]),
        vec![Stmt::Expression(Expr::Binary {
            left: Box::new(Expr::Binary {
                left: float_box("1.2"),
                operator: tok(TokenKind::Star, "*", 1),
                right: float_box("2.3"),
            }),
            operator: tok(TokenKind::Plus, "+", 1),
            right: float_box("3.4"),
        })]
    );
}

#[test]
fn parse_precedence_1() {
    assert_eq!(
        parse_ok(vec![
            tok_float("1.2", 1),
            tok(TokenKind::Plus, "+", 1),
            tok_float("2.3", 1),
            tok(TokenKind::Star, "*", 1),
            tok_float("3.4", 1),
            eof(),
        ]),
        vec![Stmt::Expression(Expr::Binary {
            left: float_box("1.2"),
            operator: tok(TokenKind::Plus, "+", 1),
            right: Box::new(Expr::Binary {
                left: float_box("2.3"),
                operator: tok(TokenKind::Star, "*", 1),
                right: float_box("3.4"),
            }),
        })]
    );
}

#[test]
fn parse_left_associative_chain() {
    let stmts = parse_ok(vec![
        tok_int(1, 1),
        tok(TokenKind::Minus, "-", 1),
        tok_int(2, 1),
        tok(TokenKind::Minus, "-", 1),
        tok_int(3, 1),
        eof(),
    ]);
    assert_eq!(
        stmts,
        vec![Stmt::Expression(Expr::Binary {
            left: Box::new(Expr::Binary {
                left: Box::new(int_expr(1)),
                operator: tok(TokenKind::Minus, "-", 1),
                right: Box::new(int_expr(2)),
            }),
            operator: tok(TokenKind::Minus, "-", 1),
            right: Box::new(int_expr(3)),
        })]
    );
}

#[test]
fn parse_assignment_from_source() {
    let (stmts, reporter) = parse_source("x = 1 + 2");
    assert!(!reporter.has_errors());
    assert_eq!(
        stmts,
        vec![Stmt::Assignment {
            name: tok(TokenKind::Identifier, "x", 1),
            initializer: Expr::Binary {
                left: Box::new(int_expr(1)),
                operator: tok(TokenKind::Plus, "+", 1),
                right: Box::new(int_expr(2)),
            },
        }]
    );
}

#[test]
fn parse_compound_assignment_desugars() {
    let (stmts, reporter) = parse_source("x += 2");
    assert!(!reporter.has_errors());
    assert_eq!(
        stmts,
        vec![Stmt::Assignment {
            name: tok(TokenKind::Identifier, "x", 1),
            initializer: Expr::Binary {
                left: Box::new(var("x", 1)),
                operator: tok(TokenKind::Plus, "+", 1),
                right: Box::new(int_expr(2)),
            },
        }]
    );
}

#[test]
fn parse_property_assignment() {
    let (stmts, reporter) = parse_source("a.b = 3");
    assert!(!reporter.has_errors());
    assert_eq!(
        stmts,
        vec![Stmt::SetProperty {
            object: var("a", 1),
            name: tok(TokenKind::Identifier, "b", 1),
            value: int_expr(3),
        }]
    );
}

#[test]
fn parse_if_statement_with_block() {
    let (stmts, reporter) = parse_source("if True:\n    x = 1");
    assert!(!reporter.has_errors());
    assert_eq!(stmts.len(), 1);
    match &stmts[0] {
        Stmt::If { condition, then_body, else_body } => {
            assert_eq!(*condition, Expr::Literal(Literal::Bool(true)));
            match &**then_body {
                Stmt::Block(body) => assert_eq!(body.len(), 1),
                _ => panic!("expected a block"),
            }
            assert!(else_body.is_none());
        },
        _ => panic!("expected an if statement"),
    }
}

#[test]
fn parse_if_elif_else() {
    let (stmts, reporter) = parse_source("if a:\n    x\nelif b:\n    y\nelse:\n    z");
    assert!(!reporter.has_errors());
    assert_eq!(stmts.len(), 1);
    match &stmts[0] {
        Stmt::If { else_body: Some(elif), .. } => match &**elif {
            Stmt::If { condition, else_body: Some(_), .. } => assert_eq!(*condition, var("b", 3)),
            _ => panic!("expected an elif"),
        },
        _ => panic!("expected an if statement with an else branch"),
    }
}

#[test]
fn parse_while_loop() {
    let (stmts, reporter) = parse_source("while x < 3:\n    x += 1");
    assert!(!reporter.has_errors());
    assert_eq!(stmts.len(), 1);
    assert!(matches!(&stmts[0], Stmt::While { .. }));
}

#[test]
fn parse_function_definition() {
    let (stmts, reporter) = parse_source("def f(a, b):\n    return a + b");
    assert!(!reporter.has_errors());
    match &stmts[0] {
        Stmt::Function { name, params, body } => {
            assert_eq!(name.lexeme, "f");
            assert_eq!(params.len(), 2);
            assert_eq!(params[1].lexeme, "b");
            assert_eq!(body.len(), 1);
            assert!(matches!(&body[0], Stmt::Return { value: Some(_), .. }));
        },
        _ => panic!("expected a function definition"),
    }
}

#[test]
fn parse_class_declaration() {
    let (stmts, reporter) = parse_source("class A:\n    pass");
    assert!(!reporter.has_errors());
    assert_eq!(
        stmts,
        vec![Stmt::Class { name: tok(TokenKind::Identifier, "A", 1), body: vec![Stmt::Pass] }]
    );
}

#[test]
fn parse_call_and_property_access() {
    let (stmts, reporter) = parse_source("a.b(1, 2)");
    assert!(!reporter.has_errors());
    match &stmts[0] {
        Stmt::Expression(Expr::Call { callee, arguments, .. }) => {
            assert!(matches!(&**callee, Expr::Get { .. }));
            assert_eq!(arguments.len(), 2);
        },
        _ => panic!("expected a call"),
    }
}

#[test]
fn parse_is_not() {
    let (stmts, reporter) = parse_source("a is not b");
    assert!(!reporter.has_errors());
    match &stmts[0] {
        Stmt::Expression(Expr::Unary { operator, right }) => {
            assert_eq!(operator.kind, TokenKind::Not);
            assert!(matches!(&**right, Expr::Binary { .. }));
        },
        _ => panic!("expected a negated identity test"),
    }
}

#[test]
fn parse_error_is_reported_with_its_line() {
    let (stmts, reporter) = parse_source("x = 1\ny = (2");
    assert_eq!(stmts.len(), 1);
    assert_eq!(reporter.errors.len(), 1);
    assert_eq!(
        reporter.errors[0],
        CompilerError::Parse(ParseError::ParseError(
            SourceLocation { line: 2 },
            String::from("'(' was never closed")
        ))
    );
}

#[test]
fn parse_recovers_at_next_statement() {
    let (stmts, reporter) = parse_source("x = )\nif True:\n    y = 1");
    assert_eq!(reporter.errors.len(), 1);
    assert_eq!(stmts.len(), 1);
    assert!(matches!(&stmts[0], Stmt::If { .. }));
}

#[test]
fn parse_unknown_token_message() {
    let (_, reporter) = parse_tokens(vec![tok(TokenKind::Colon, ":", 4), eof()]);
    assert_eq!(
        reporter.errors,
        vec![CompilerError::Parse(ParseError::ParseError(
            SourceLocation { line: 4 },
            String::from("don't know how to parse token Colon here")
        ))]
    );
}

#[test]
fn parse_assignment_to_call_is_an_error() {
    let (stmts, reporter) = parse_source("f() = 1");
    assert!(stmts.is_empty());
    assert_eq!(reporter.errors.len(), 1);
}

#[test]
fn parse_empty_input() {
    assert_eq!(parse_ok(vec![eof()]), vec![]);
}

#[test]
fn parse_straight_line_program_without_errors() {
    let (stmts, reporter) = parse_source("x = 1\ny += x * 2\nprint(x, y)\nnot x is not None\n");
    assert!(!reporter.has_errors());
    assert_eq!(stmts.len(), 4);
    assert!(matches!(stmts[0], Stmt::Assignment { .. }));
    assert!(matches!(stmts[1], Stmt::Assignment { .. }));
    assert!(matches!(stmts[2], Stmt::Expression(Expr::Call { .. })));
    assert!(matches!(stmts[3], Stmt::Expression(Expr::Unary { .. })));
}

#[test]
fn parse_call_with_255_arguments() {
    let args = vec!["1"; 255].join(", ");
    let (stmts, reporter) = parse_source(&format!("f({args})\n"));
    assert!(!reporter.has_errors());
    match &stmts[0] {
        Stmt::Expression(Expr::Call { arguments, .. }) => assert_eq!(arguments.len(), 255),
        _ => panic!("expected a call"),
    }
}

#[test]
fn parse_call_with_256_arguments_is_an_error() {
    let args = vec!["1"; 256].join(", ");
    let (_, reporter) = parse_source(&format!("f({args})\n"));
    assert_eq!(
        reporter.errors,
        vec![CompilerError::Parse(ParseError::ParseError(
            SourceLocation { line: 1 },
            String::from("can't have more than 255 arguments"),
        ))]
    );
}

#[test]
fn parse_program_with_blocks_without_errors() {
    let source = "def greet(name):\n    return \"Hello, \" + name + \"!\"\n\ngreet(\"World\")\n\
                  x = 10\nwhile x > 0:\n    if x is 3:\n        pass\n    elif x == 2:\n        x -= 1\n    else:\n        x = x - 1\n\
                  class Point:\n    def norm(p, q):\n        return p * p + q * q\n";
    let (stmts, reporter) = parse_source(source);
    assert!(!reporter.has_errors());
    assert_eq!(stmts.len(), 5);
    assert!(matches!(stmts[0], Stmt::Function { .. }));
    assert!(matches!(stmts[1], Stmt::Expression(Expr::Call { .. })));
    assert!(matches!(stmts[2], Stmt::Assignment { .. }));
    assert!(matches!(stmts[3], Stmt::While { .. }));
    assert!(matches!(stmts[4], Stmt::Class { .. }));
}

#[test]
fn parse_two_expressions_on_a_line_is_an_error() {
    let (_, reporter) = parse_tokens(vec![tok_float("1.0", 1), tok_float("2.0", 1), eof()]);
    assert_eq!(
        reporter.errors,
        vec![CompilerError::Parse(ParseError::ParseError(
            SourceLocation { line: 1 },
            "expected newline or EOF after expression statement.".to_string(),
        ))]
    );
}

#[test]
fn parse_compound_assignment_at_the_end_marker() {
    let stmts = parse_ok(vec![
        tok(TokenKind::Identifier, "x", 1),
        tok(TokenKind::PlusEqual, "+=", 1),
        tok_int(1, 1),
        eof(),
    ]);
    assert_eq!(
        stmts,
        vec![Stmt::Assignment {
            name: tok(TokenKind::Identifier, "x", 1),
            initializer: Expr::Binary {
                left: Box::new(var("x", 1)),
                operator: tok(TokenKind::Plus, "+", 1),
                right: Box::new(int_expr(1)),
            },
        }]
    );
}

#[test]
fn parse_second_else_replaces_a_closed_elif_chain() {
    let (stmts, reporter) =
        parse_source("if a:\n    x\nelif b:\n    y\nelse:\n    z\nelse:\n    w");
    assert!(!reporter.has_errors());
    assert_eq!(stmts.len(), 1);
    match &stmts[0] {
        Stmt::If { else_body: Some(other), .. } => {
            assert_eq!(**other, Stmt::Block(vec![Stmt::Expression(var("w", 8))]));
        }
        _ => panic!("expected an if statement with an else branch"),
    }
}
