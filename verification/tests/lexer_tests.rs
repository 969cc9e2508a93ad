use whipsnake::error::ErrorReporter;
use whipsnake::lexer::Lexer;
use whipsnake::token::{Literal, Token, TokenKind};

fn tok(kind: TokenKind, lexeme: &str, line: usize) -> Token {
    Token::new(kind, lexeme, line)
}

fn tok_int(value: i64, line: usize) -> Token {
    Token::with_literal(TokenKind::Int, &value.to_string(), Literal::Int(value), line)
}

fn tok_float(text: &str, line: usize) -> Token {
    Token::with_literal(TokenKind::Float, text, Literal::Float(text.to_string()), line)
}

fn tok_string(value: &str, line: usize) -> Token {
    Token::with_literal(
        TokenKind::String,
        &format!("\"{value}\""),
        Literal::String(value.to_string()),
        line,
    )
}

fn tok_sq_string(value: &str, line: usize) -> Token {
    Token::with_literal(
        TokenKind::String,
        &format!("'{value}'"),
        Literal::String(value.to_string()),
        line,
    )
}

fn lex_ok(source: &str) -> Vec<Token> {
    let mut reporter = ErrorReporter::new();
    let mut lexer = Lexer::new();
    let tokens = lexer.lex(source, &mut reporter);
    assert!(!reporter.has_errors());
    tokens
}

fn single(kind: TokenKind, text: &str) -> Vec<Token> {
    vec![tok(kind, text, 1), tok(TokenKind::NewLine, "\n", 1), tok(TokenKind::Eof, "", 2)]
}

#[test]
fn lex_string() {
    assert_eq!(
        lex_ok("\"hello!\""),
        vec![tok_string("hello!", 1), tok(TokenKind::NewLine, "\n", 1), tok(TokenKind::Eof, "", 2)]
    );
}

#[test]
fn lex_empty_string() {
    assert_eq!(
        lex_ok("\"\""),
        vec![tok_string("", 1), tok(TokenKind::NewLine, "\n", 1), tok(TokenKind::Eof, "", 2)]
    );
}

#[test]
fn lex_single_quotedstring() {
    assert_eq!(
        lex_ok("'hello!'"),
        vec![tok_sq_string("hello!", 1), tok(TokenKind::NewLine, "\n", 1), tok(TokenKind::Eof, "", 2)]
    );
}

#[test]
fn lex_empty_single_quoted_string() {
    assert_eq!(
        lex_ok("''"),
        vec![tok_sq_string("", 1), tok(TokenKind::NewLine, "\n", 1), tok(TokenKind::Eof, "", 2)]
    );
}

#[test]
fn lex_float() {
    assert_eq!(
        lex_ok("1.2345"),
        vec![tok_float("1.2345", 1), tok(TokenKind::NewLine, "\n", 1), tok(TokenKind::Eof, "", 2)]
    );
}

#[test]
fn lex_big_float() {
    assert_eq!(
        lex_ok("39401.1"),
        vec![tok_float("39401.1", 1), tok(TokenKind::NewLine, "\n", 1), tok(TokenKind::Eof, "", 2)]
    );
}

#[test]
fn lex_integer() {
    assert_eq!(
        lex_ok("3"),
        vec![tok_int(3, 1), tok(TokenKind::NewLine, "\n", 1), tok(TokenKind::Eof, "", 2)]
    );
}

#[test]
fn lex_single_characters() {
    assert_eq!(lex_ok("("), single(TokenKind::LeftParen, "("));
    assert_eq!(lex_ok(")"), single(TokenKind::RightParen, ")"));
    assert_eq!(lex_ok(":"), single(TokenKind::Colon, ":"));
    assert_eq!(lex_ok(","), single(TokenKind::Comma, ","));
    assert_eq!(lex_ok("."), single(TokenKind::Dot, "."));
    assert_eq!(lex_ok("-"), single(TokenKind::Minus, "-"));
    assert_eq!(lex_ok("+"), single(TokenKind::Plus, "+"));
    assert_eq!(lex_ok("/"), single(TokenKind::Slash, "/"));
    assert_eq!(lex_ok("*"), single(TokenKind::Star, "*"));
    assert_eq!(lex_ok("~"), single(TokenKind::Tilde, "~"));
}

#[test]
fn lex_multiple_chars() {
    assert_eq!(
        lex_ok("()!==+-"),
        vec![
            tok(TokenKind::LeftParen, "(", 1),
            tok(TokenKind::RightParen, ")", 1),
            tok(TokenKind::BangEqual, "!=", 1),
            tok(TokenKind::Equal, "=", 1),
            tok(TokenKind::Plus, "+", 1),
            tok(TokenKind::Minus, "-", 1),
            tok(TokenKind::NewLine, "\n", 1),
            tok(TokenKind::Eof, "", 2),
        ]
    );
}

#[test]
fn lex_compound_assignments() {
    assert_eq!(lex_ok("+="), single(TokenKind::PlusEqual, "+="));
    assert_eq!(lex_ok("-="), single(TokenKind::MinusEqual, "-="));
    assert_eq!(lex_ok("*="), single(TokenKind::StarEqual, "*="));
    assert_eq!(lex_ok("/="), single(TokenKind::SlashEqual, "/="));
}

#[test]
fn lex_multiple_lines() {
    assert_eq!(
        lex_ok("+*<>=\n.!="),
        vec![
            tok(TokenKind::Plus, "+", 1),
            tok(TokenKind::Star, "*", 1),
            tok(TokenKind::Less, "<", 1),
            tok(TokenKind::GreaterEqual, ">=", 1),
            tok(TokenKind::NewLine, "\n", 1),
            tok(TokenKind::Dot, ".", 2),
            tok(TokenKind::BangEqual, "!=", 2),
            tok(TokenKind::NewLine, "\n", 2),
            tok(TokenKind::Eof, "", 3),
        ]
    );
}

#[test]
fn lex_internal_whitespace() {
    assert_eq!(
        lex_ok("+ *\t<\r>   =\n.!="),
        vec![
            tok(TokenKind::Plus, "+", 1),
            tok(TokenKind::Star, "*", 1),
            tok(TokenKind::Less, "<", 1),
            tok(TokenKind::Greater, ">", 1),
            tok(TokenKind::Equal, "=", 1),
            tok(TokenKind::NewLine, "\n", 1),
            tok(TokenKind::Dot, ".", 2),
            tok(TokenKind::BangEqual, "!=", 2),
            tok(TokenKind::NewLine, "\n", 2),
            tok(TokenKind::Eof, "", 3),
        ]
    );
}

#[test]
fn lex_comments() {
    assert_eq!(
        lex_ok("+*<>=# blah blah blah"),
        vec![
            tok(TokenKind::Plus, "+", 1),
            tok(TokenKind::Star, "*", 1),
            tok(TokenKind::Less, "<", 1),
            tok(TokenKind::GreaterEqual, ">=", 1),
            tok(TokenKind::NewLine, "\n", 1),
            tok(TokenKind::Eof, "", 2),
        ]
    );
}

fn colon_lines() -> Vec<Token> {
    vec![
        tok(TokenKind::Colon, ":", 1),
        tok(TokenKind::NewLine, "\n", 1),
        tok(TokenKind::Indent, "", 2),
        tok(TokenKind::Colon, ":", 2),
        tok(TokenKind::NewLine, "\n", 2),
        tok(TokenKind::Indent, "", 3),
        tok(TokenKind::Colon, ":", 3),
        tok(TokenKind::NewLine, "\n", 3),
        tok(TokenKind::Dedent, "", 4),
        tok(TokenKind::Colon, ":", 4),
        tok(TokenKind::NewLine, "\n", 4),
        tok(TokenKind::Indent, "", 5),
        tok(TokenKind::Colon, ":", 5),
        tok(TokenKind::NewLine, "\n", 5),
        tok(TokenKind::Dedent, "", 6),
        tok(TokenKind::Dedent, "", 6),
        tok(TokenKind::Colon, ":", 6),
        tok(TokenKind::NewLine, "\n", 6),
        tok(TokenKind::Colon, ":", 7),
        tok(TokenKind::NewLine, "\n", 7),
        tok(TokenKind::Eof, "", 8),
    ]
}

#[test]
fn lex_4_space_indentation() {
    assert_eq!(lex_ok(":\n    :\n        :\n    :\n        :\n:\n:"), colon_lines());
}

#[test]
fn lex_variable_space_indentation_0() {
    assert_eq!(lex_ok(":\n  :\n         :\n  :\n         :\n:\n:"), colon_lines());
}

#[test]
fn lex_tab_indentation() {
    assert_eq!(lex_ok(":\n\t:\n\t\t:\n\t:\n\t\t:\n:\n:"), colon_lines());
}

#[test]
fn lex_implicit_ending_dedents() {
    assert_eq!(
        lex_ok(":\n    :\n        :\n            :"),
        vec![
            tok(TokenKind::Colon, ":", 1),
            tok(TokenKind::NewLine, "\n", 1),
            tok(TokenKind::Indent, "", 2),
            tok(TokenKind::Colon, ":", 2),
            tok(TokenKind::NewLine, "\n", 2),
            tok(TokenKind::Indent, "", 3),
            tok(TokenKind::Colon, ":", 3),
            tok(TokenKind::NewLine, "\n", 3),
            tok(TokenKind::Indent, "", 4),
            tok(TokenKind::Colon, ":", 4),
            tok(TokenKind::NewLine, "\n", 4),
            tok(TokenKind::Dedent, "", 5),
            tok(TokenKind::Dedent, "", 5),
            tok(TokenKind::Dedent, "", 5),
            tok(TokenKind::Eof, "", 5),
        ]
    );
}

#[test]
fn lex_variable_space_indentation_1() {
    let source = "if 1 < 2:\n  if False:\n       print(1)\n  elif True:\n       print(2)\n  else:\n       print(3)\nelse:\n     print(4)";
    let print_call = |n: i64, line: usize| {
        vec![
            tok(TokenKind::Identifier, "print", line),
            tok(TokenKind::LeftParen, "(", line),
            tok_int(n, line),
            tok(TokenKind::RightParen, ")", line),
            tok(TokenKind::NewLine, "\n", line),
        ]
    };
    let mut expected = vec![
        tok(TokenKind::If, "if", 1),
        tok_int(1, 1),
        tok(TokenKind::Less, "<", 1),
        tok_int(2, 1),
        tok(TokenKind::Colon, ":", 1),
        tok(TokenKind::NewLine, "\n", 1),
        tok(TokenKind::Indent, "", 2),
        tok(TokenKind::If, "if", 2),
        tok(TokenKind::False, "False", 2),
        tok(TokenKind::Colon, ":", 2),
        tok(TokenKind::NewLine, "\n", 2),
        tok(TokenKind::Indent, "", 3),
    ];
    expected.extend(print_call(1, 3));
    expected.extend(vec![
        tok(TokenKind::Dedent, "", 4),
        tok(TokenKind::Elif, "elif", 4),
        tok(TokenKind::True, "True", 4),
        tok(TokenKind::Colon, ":", 4),
        tok(TokenKind::NewLine, "\n", 4),
        tok(TokenKind::Indent, "", 5),
    ]);
    expected.extend(print_call(2, 5));
    expected.extend(vec![
        tok(TokenKind::Dedent, "", 6),
        tok(TokenKind::Else, "else", 6),
        tok(TokenKind::Colon, ":", 6),
        tok(TokenKind::NewLine, "\n", 6),
        tok(TokenKind::Indent, "", 7),
    ]);
    expected.extend(print_call(3, 7));
    expected.extend(vec![
        tok(TokenKind::Dedent, "", 8),
        tok(TokenKind::Dedent, "", 8),
        tok(TokenKind::Else, "else", 8),
        tok(TokenKind::Colon, ":", 8),
        tok(TokenKind::NewLine, "\n", 8),
        tok(TokenKind::Indent, "", 9),
    ]);
    expected.extend(print_call(4, 9));
    expected.extend(vec![tok(TokenKind::Dedent, "", 10), tok(TokenKind::Eof, "", 10)]);
    assert_eq!(lex_ok(source), expected);
}

#[test]
fn lex_identifiers() {
    assert_eq!(lex_ok("x"), single(TokenKind::Identifier, "x"));
    assert_eq!(lex_ok("PascalCase"), single(TokenKind::Identifier, "PascalCase"));
    assert_eq!(lex_ok("snake_case"), single(TokenKind::Identifier, "snake_case"));
    assert_eq!(lex_ok("a1_B2_c3_D4"), single(TokenKind::Identifier, "a1_B2_c3_D4"));
    assert_eq!(lex_ok("print"), single(TokenKind::Identifier, "print"));
}

#[test]
fn lex_keywords() {
    assert_eq!(lex_ok("and"), single(TokenKind::And, "and"));
    assert_eq!(lex_ok("class"), single(TokenKind::Class, "class"));
    assert_eq!(lex_ok("def"), single(TokenKind::Def, "def"));
    assert_eq!(lex_ok("elif"), single(TokenKind::Elif, "elif"));
    assert_eq!(lex_ok("else"), single(TokenKind::Else, "else"));
    assert_eq!(lex_ok("False"), single(TokenKind::False, "False"));
    assert_eq!(lex_ok("if"), single(TokenKind::If, "if"));
    assert_eq!(lex_ok("None"), single(TokenKind::NoneKeyword, "None"));
    assert_eq!(lex_ok("not"), single(TokenKind::Not, "not"));
    assert_eq!(lex_ok("or"), single(TokenKind::Or, "or"));
    assert_eq!(lex_ok("pass"), single(TokenKind::Pass, "pass"));
    assert_eq!(lex_ok("return"), single(TokenKind::Return, "return"));
    assert_eq!(lex_ok("True"), single(TokenKind::True, "True"));
    assert_eq!(lex_ok("while"), single(TokenKind::While, "while"));
    assert_eq!(lex_ok("is"), single(TokenKind::Is, "is"));
    assert_eq!(lex_ok("in"), single(TokenKind::In, "in"));
    assert_eq!(lex_ok("for"), single(TokenKind::For, "for"));
    assert_eq!(lex_ok("super"), single(TokenKind::Super, "super"));
    assert_eq!(lex_ok("self"), single(TokenKind::This, "self"));
}

#[test]
fn lex_empty_source_is_only_the_end_marker() {
    assert_eq!(lex_ok(""), vec![tok(TokenKind::Eof, "", 1)]);
}

#[test]
fn lex_ends_with_one_end_marker_and_balanced_blocks() {
    let mut reporter = ErrorReporter::new();
    let mut lexer = Lexer::new();
    let tokens = lexer.lex("if x:\n    if y:\n        z", &mut reporter);
    assert!(!reporter.has_errors());
    assert_eq!(tokens.last().unwrap().kind, TokenKind::Eof);
    assert_eq!(tokens.iter().filter(|t| t.kind == TokenKind::Eof).count(), 1);
    let indents = tokens.iter().filter(|t| t.kind == TokenKind::Indent).count();
    let dedents = tokens.iter().filter(|t| t.kind == TokenKind::Dedent).count();
    assert_eq!(indents, 2);
    assert_eq!(indents, dedents);
    let lines: Vec<usize> = tokens.iter().map(|t| t.line).collect();
    assert!(lines.windows(2).all(|w| w[0] <= w[1]));
}

#[test]
fn lex_integer_too_large_is_an_error() {
    let mut reporter = ErrorReporter::new();
    let mut lexer = Lexer::new();
    lexer.lex("99999999999999999999", &mut reporter);
    assert_eq!(reporter.errors.len(), 1);
}

#[test]
fn lex_text_tokens_are_the_source_text_in_order() {
    let source = "def f(x):  # add one\n    return x + 1\nprint(f(41))";
    let tokens = lex_ok(source);
    let mut rest = source;
    for t in tokens.iter() {
        match t.kind {
            TokenKind::NewLine | TokenKind::Indent | TokenKind::Dedent | TokenKind::Eof => {}
            _ => {
                let at = rest.find(t.lexeme.as_str()).unwrap();
                assert!(rest[..at].chars().all(|c| c == ' ' || c == '\n') || rest[..at].contains('#'));
                rest = &rest[at + t.lexeme.len()..];
            }
        }
    }
    assert!(rest.is_empty());
}

#[test]
fn lex_indentation_tokens_follow_line_ends() {
    let mut reporter = ErrorReporter::new();
    let mut lexer = Lexer::new();
    let source = "if a:\n    if b:\n        c\n    d\ne\nwhile f:\n  g\n";
    let tokens = lexer.lex(source, &mut reporter);
    assert!(!reporter.has_errors());
    let kinds: Vec<TokenKind> = tokens.iter().map(|t| t.kind).collect();
    assert!(kinds.contains(&TokenKind::Indent));
    assert!(kinds.contains(&TokenKind::Dedent));
    for i in 0..kinds.len() {
        if kinds[i] == TokenKind::Indent {
            assert!(i > 0 && kinds[i - 1] == TokenKind::NewLine);
        }
        if kinds[i] == TokenKind::Dedent {
            assert!(i > 0 && (kinds[i - 1] == TokenKind::NewLine || kinds[i - 1] == TokenKind::Dedent));
        }
    }
}

#[test]
fn lex_text_tokens_carry_the_line_they_stand_on() {
    let source = "a = 1\n\n# note\nb = \"x\"  # tail\nif a:\n    c = b\n";
    let tokens = lex_ok(source);
    let words: Vec<(&str, usize)> = tokens
        .iter()
        .filter(|t| matches!(t.kind, TokenKind::Identifier | TokenKind::Int | TokenKind::String))
        .map(|t| (t.lexeme.as_str(), t.line))
        .collect();
    assert_eq!(
        words,
        vec![("a", 1), ("1", 1), ("b", 4), ("\"x\"", 4), ("a", 5), ("c", 6), ("b", 6)]
    );
}
