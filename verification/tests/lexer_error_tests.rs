use whipsnake::error::{CompilerError, ErrorReporter, LexError};
use whipsnake::lexer::Lexer;
use whipsnake::token::SourceLocation;

#[test]
fn lex_unexpected_character_error() {
    let mut reporter = ErrorReporter::new();
    let mut lexer = Lexer::new();
    lexer.lex("(1 + 2)&", &mut reporter);

    assert_eq!(reporter.errors.len(), 1);
    assert!(matches!(
        reporter.errors.pop().unwrap(),
        CompilerError::Lex(LexError::UnexpectedCharacter(SourceLocation { line: 1 }, '&'))
    ));
}

#[test]
fn lex_unterminated_string_error() {
    let mut reporter = ErrorReporter::new();
    let mut lexer = Lexer::new();
    lexer.lex("x = 1\ny = \"hello, world!", &mut reporter);

    assert_eq!(reporter.errors.len(), 1);
    assert!(matches!(
        reporter.errors.pop().unwrap(),
        CompilerError::Lex(LexError::UnterminatedString(SourceLocation { line: 2 }))
    ));
}

#[test]
fn lex_mismatched_indentation_error() {
    let mut reporter = ErrorReporter::new();
    let mut lexer = Lexer::new();
    lexer.lex("w\n    x\n        y\n      z", &mut reporter);

    assert_eq!(reporter.errors.len(), 1);
    assert_eq!(
        reporter.errors.pop().unwrap(),
        CompilerError::Lex(LexError::IndentationError(
            SourceLocation { line: 4 },
            String::from("unindent does not match any outer indentation level.")
        ))
    );
}

#[test]
fn lex_tab_error_0() {
    let mut reporter = ErrorReporter::new();
    let mut lexer = Lexer::new();
    lexer.lex("w\n\tx\n        y\n\t\tz", &mut reporter);

    assert_eq!(reporter.errors.len(), 1);
    assert_eq!(
        reporter.errors.pop().unwrap(),
        CompilerError::Lex(LexError::TabError(
            SourceLocation { line: 3 },
            String::from("mixed spaces and tabs for indentation.")
        ))
    );
}

#[test]
fn lex_tab_error_1() {
    let mut reporter = ErrorReporter::new();
    let mut lexer = Lexer::new();
    lexer.lex("w\n    x\n\t\ty\n        z", &mut reporter);

    assert_eq!(reporter.errors.len(), 1);
    assert_eq!(
        reporter.errors.pop().unwrap(),
        CompilerError::Lex(LexError::TabError(
            SourceLocation { line: 3 },
            String::from("mixed spaces and tabs for indentation.")
        ))
    );
}

#[test]
fn lex_tab_error_2() {
    let mut reporter = ErrorReporter::new();
    let mut lexer = Lexer::new();
    lexer.lex("w\n\t    ", &mut reporter);

    assert_eq!(reporter.errors.len(), 1);
    assert_eq!(
        reporter.errors.pop().unwrap(),
        CompilerError::Lex(LexError::TabError(
            SourceLocation { line: 2 },
            String::from("mixed spaces and tabs for indentation.")
        ))
    );
}

#[test]
fn lex_malformed_number_literal_error() {
    let mut reporter = ErrorReporter::new();
    let mut lexer = Lexer::new();
    lexer.lex("let x = 123.", &mut reporter);

    assert_eq!(reporter.errors.len(), 1);
    assert!(matches!(
        reporter.errors.pop().unwrap(),
        CompilerError::Lex(LexError::MalformedNumberLiteral(SourceLocation { line: 1 }))
    ));
}

#[test]
fn lex_error_messages_name_their_line() {
    let mut reporter = ErrorReporter::new();
    let mut lexer = Lexer::new();
    lexer.lex("x = 1\ny = $", &mut reporter);
    assert!(reporter.has_errors());
    let messages = reporter.messages();
    assert_eq!(messages.len(), 1);
    assert!(messages[0].contains("line 2"));
}

#[test]
fn lex_errors_keep_earlier_errors() {
    let mut reporter = ErrorReporter::new();
    let mut lexer = Lexer::new();
    lexer.lex("&", &mut reporter);
    lexer.lex("$", &mut reporter);
    assert_eq!(reporter.errors.len(), 2);
    reporter.clear();
    assert!(!reporter.has_errors());
}

#[test]
fn lex_lone_bang_is_one_unexpected_character() {
    let mut reporter = ErrorReporter::new();
    let mut lexer = Lexer::new();
    let tokens = lexer.lex("a ! b", &mut reporter);
    assert_eq!(
        reporter.errors,
        vec![CompilerError::Lex(LexError::UnexpectedCharacter(SourceLocation { line: 1 }, '!'))]
    );
    let words: Vec<&str> = tokens.iter().map(|t| t.lexeme.as_str()).collect();
    assert_eq!(words, vec!["a", "b", "\n", ""]);
}

#[test]
fn lex_reports_each_fault_in_order_with_its_line() {
    let mut reporter = ErrorReporter::new();
    let mut lexer = Lexer::new();
    lexer.lex("x = 1.\ny = 'open\nz = 99999999999999999999 $", &mut reporter);
    assert_eq!(
        reporter.errors,
        vec![
            CompilerError::Lex(LexError::MalformedNumberLiteral(SourceLocation { line: 1 })),
            CompilerError::Lex(LexError::UnterminatedString(SourceLocation { line: 2 })),
            CompilerError::Lex(LexError::MalformedNumberLiteral(SourceLocation { line: 3 })),
            CompilerError::Lex(LexError::UnexpectedCharacter(SourceLocation { line: 3 }, '$')),
        ]
    );
}

#[test]
fn lex_clean_source_records_no_error() {
    let mut reporter = ErrorReporter::new();
    let mut lexer = Lexer::new();
    lexer.lex("if x != 1:\n    y = 'a' # note\nz = 2.5\n", &mut reporter);
    assert!(reporter.errors.is_empty());
}
