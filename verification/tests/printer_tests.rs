use whipsnake::ast::{Expr, Stmt};
use whipsnake::error::ErrorReporter;
use whipsnake::lexer::Lexer;
use whipsnake::parser::Parser;
use whipsnake::printer::{atom, convert_expr, format_flat, format_sexpr, measure_single_line, print_ast, SExpr};
use whipsnake::token::{Literal, Token, TokenKind};

fn print_source(source: &str) -> String {
    let mut reporter = ErrorReporter::new();
    let mut lexer = Lexer::new();
    let tokens = lexer.lex(source, &mut reporter);
    let mut parser = Parser::new();
    let stmts = parser.parse(&tokens, &mut reporter);
    assert!(!reporter.has_errors());
    print_ast(&stmts)
}

#[test]
fn test_pprint_unary_expr() {
    let unary = Expr::Unary {
        operator: Token::new(TokenKind::Minus, "-", 1),
        right: Box::new(Expr::Literal(Literal::Float("3.14".to_string()))),
    };

    assert_eq!(format_sexpr(&convert_expr(&unary), 0), String::from("(- 3.14)"));
}

#[test]
fn measure_counts_parentheses_spaces_and_atoms() {
    let e = SExpr::List(vec![atom("+"), atom("12"), atom("3")]);
    assert_eq!(measure_single_line(&e), 8);
    assert_eq!(format_flat(&e), "(+ 12 3)");
    assert_eq!(measure_single_line(&e), format_flat(&e).len());
}

#[test]
fn measure_counts_bytes() {
    let e = SExpr::List(vec![atom("é")]);
    assert_eq!(measure_single_line(&e), format_flat(&e).len());
    assert_eq!(measure_single_line(&e), 4);
}

#[test]
fn empty_list_is_two_parentheses() {
    let e = SExpr::List(vec![]);
    assert_eq!(measure_single_line(&e), 2);
    assert_eq!(format_flat(&e), "()");
    assert_eq!(format_sexpr(&e, 5), "()");
}

#[test]
fn long_lists_break_after_the_second_element() {
    let e = SExpr::List(vec![atom("block"), atom("alpha"), atom("beta"), atom("gamma")]);
    assert_eq!(format_sexpr(&e, 0), "(block alpha\n       beta\n       gamma)");
}

#[test]
fn nested_layout_is_indented_by_column() {
    let inner = SExpr::List(vec![atom("call"), atom("function_name"), atom("argument")]);
    let e = SExpr::List(vec![atom("stmt"), inner]);
    assert_eq!(
        format_sexpr(&e, 0),
        "(stmt (call function_name\n            argument))"
    );
}

#[test]
fn print_simple_statements() {
    assert_eq!(print_source("x = 1 + 2"), "(= x\n   (+ 1 2))");
    assert_eq!(print_source("x = 1"), "(= x 1)");
    assert_eq!(print_source("f(1)\n\"hi\""), "(stmt (call f 1))\n(stmt \"hi\")");
    assert_eq!(print_source("-5"), "(stmt (- 5))");
}

#[test]
fn print_if_statement() {
    assert_eq!(
        print_source("if a:\n    b = 1"),
        "(if a\n    (block (= b 1)))"
    );
}

#[test]
fn print_other_statements() {
    assert_eq!(print_source("pass"), "pass");
    assert_eq!(print_source("def f():\n    return"), "(def f\n     ()\n     (return))");
    assert_eq!(print_source("class A:\n    pass"), "(class A\n       pass)");
    assert_eq!(print_source("a.b = c.d"), "(set a\n     b\n     (get c d))");
}

#[test]
fn print_empty_program() {
    let stmts: Vec<Stmt> = vec![];
    assert_eq!(print_ast(&stmts), "");
}

#[test]
fn float_literals_print_as_the_numbers_they_are() {
    let show = |text: &str| format_flat(&convert_expr(&Expr::Literal(Literal::Float(text.to_string()))));
    assert_eq!(show("2.0"), "2");
    assert_eq!(show("2.50"), "2.5");
    assert_eq!(show("007.125"), "7.125");
    assert_eq!(show("0.0"), "0");
    assert_eq!(show("0.5"), "0.5");
    assert_eq!(show("100.000"), "100");
    assert_eq!(show("3.14"), format!("{}", 3.14f64));
}

#[test]
fn layout_collapses_to_the_one_line_text() {
    let e = SExpr::List(vec![
        atom("define"),
        SExpr::List(vec![atom("square"), atom("x")]),
        SExpr::List(vec![atom("*"), atom("x"), atom("x"), atom("x-long-name")]),
        atom("done"),
    ]);
    let laid_out = format_sexpr(&e, 3);
    assert!(laid_out.contains('\n'));
    let mut collapsed = String::new();
    let mut skipping = false;
    for c in laid_out.chars() {
        if c == '\n' {
            collapsed.push(' ');
            skipping = true;
        } else if c == ' ' && skipping {
        } else {
            collapsed.push(c);
            skipping = false;
        }
    }
    assert_eq!(collapsed, format_flat(&e));
}
