use whipsnake::bytecode::chunk::{Chunk, OpCode};
use whipsnake::bytecode::disassemble::disassemble_chunk;
use whipsnake::error::{CompilerError, ErrorReporter, LexError, ParseError, RuntimeError};
use whipsnake::repl::{_error, _report, next_to_last_equals};
use whipsnake::token::{Literal, SourceLocation, Token, TokenKind};
use whipsnake::wasm::runtime::Runtime;
use whipsnake::wasm::store::Store;
use whipsnake::wasm::{FuncType, Function, Instruction, Module};

fn tok_int(value: i64, line: usize) -> Token {
    Token::with_literal(TokenKind::Int, &value.to_string(), Literal::Int(value), line)
}

fn tok_float(text: &str, line: usize) -> Token {
    Token::with_literal(TokenKind::Float, text, Literal::Float(text.to_string()), line)
}

fn tok_string(value: &str, line: usize) -> Token {
    Token::with_literal(
        TokenKind::String,
        &format!("\"{value}\""),
        Literal::String(value.to_string()),
        line,
    )
}

fn tok_true(line: usize) -> Token {
    Token::new(TokenKind::True, "True", line)
}

fn tok_false(line: usize) -> Token {
    Token::new(TokenKind::False, "False", line)
}

#[test]
fn tok_macro() {
    assert_eq!(Token::new(TokenKind::And, "and", 42), Token::new(TokenKind::And, "and", 42))
}

#[test]
fn tok_int_fn() {
    assert_eq!(tok_int(12, 1), Token::with_literal(TokenKind::Int, "12", Literal::Int(12), 1))
}

#[test]
fn tok_float_fn() {
    assert_eq!(
        tok_float("1.234", 1),
        Token::with_literal(TokenKind::Float, "1.234", Literal::Float("1.234".to_string()), 1)
    )
}

#[test]
fn tok_string_fn() {
    assert_eq!(
        tok_string("hello", 1),
        Token::with_literal(TokenKind::String, "\"hello\"", Literal::String("hello".to_string()), 1)
    )
}

#[test]
fn tok_true_fn() {
    assert_eq!(tok_true(9), Token::new(TokenKind::True, "True", 9))
}

#[test]
fn tok_false_fn() {
    assert_eq!(tok_false(12), Token::new(TokenKind::False, "False", 12))
}

#[test]
fn token_kind_names() {
    assert_eq!(TokenKind::NoneKeyword.name(), "None");
    assert_eq!(TokenKind::LeftParen.name(), "LeftParen");
    assert_eq!(Token::new(TokenKind::Eof, "", 3).duplicate(), Token::new(TokenKind::Eof, "", 3));
}

#[test]
fn chunk_write_and_disassemble() {
    let mut chunk = Chunk::new();
    assert!(chunk.write_chunk(0).is_ok());
    assert!(chunk.write_chunk(0).is_ok());
    assert_eq!(chunk.code, vec![OpCode::Return, OpCode::Return]);
    assert_eq!(disassemble_chunk(&chunk, "test chunk"), "== test chunk ==\n0000 Return\n0001 Return\n");
}

#[test]
fn chunk_rejects_unknown_bytes() {
    let mut chunk = Chunk::new();
    let result = chunk.write_chunk(7);
    assert!(result.is_err());
    assert_eq!(result.unwrap_err().message(), "invalid byte provided");
    assert!(chunk.code.is_empty());
    assert!(OpCode::try_from(1).is_err());
    assert_eq!(OpCode::try_from(0).unwrap(), OpCode::Return);
}

#[test]
fn disassemble_empty_chunk() {
    assert_eq!(disassemble_chunk(&Chunk::new(), "empty"), "== empty ==\n");
}

#[test]
fn repl_line_endings() {
    assert!(next_to_last_equals("if x:\n", ':'));
    assert!(!next_to_last_equals("x = 1\n", ':'));
    assert!(!next_to_last_equals(":", ':'));
    assert!(next_to_last_equals("é:\n", ':'));
}

#[test]
fn repl_reports() {
    assert_eq!(_error(3, "oops"), "[line 3] Error: oops");
    assert_eq!(_report(12, " at 'x'", "bad"), "[line 12] Error at 'x': bad");
}

#[test]
fn error_messages() {
    assert_eq!(
        LexError::UnexpectedCharacter(SourceLocation { line: 2 }, '&').message(),
        "unexpected character '&' at line 2"
    );
    assert_eq!(
        LexError::MalformedNumberLiteral(SourceLocation { line: 4 }).message(),
        "malformed number literal at line 4"
    );
    assert_eq!(
        ParseError::ParseError(SourceLocation { line: 5 }, String::from("bad")).message(),
        "ParseError at line 5: bad"
    );
    assert_eq!(
        RuntimeError::NameError(SourceLocation { line: 1 }, String::from("name 'x' is not defined")).message(),
        "NameError at line 1: name 'x' is not defined"
    );
}

#[test]
fn reporter_collects_in_order() {
    let mut reporter = ErrorReporter::new();
    assert!(!reporter.has_errors());
    reporter.register_lex_error(LexError::UnterminatedString(SourceLocation { line: 1 }));
    reporter.register_parse_error(ParseError::ParseError(SourceLocation { line: 2 }, String::from("p")));
    reporter.register_runtime_error(RuntimeError::TypeError(SourceLocation { line: 3 }, String::from("t")));
    assert_eq!(reporter.errors.len(), 3);
    assert!(matches!(reporter.errors[0], CompilerError::Lex(_)));
    assert!(matches!(reporter.errors[1], CompilerError::Parse(_)));
    assert!(matches!(reporter.errors[2], CompilerError::Runtime(_)));
    let messages = reporter.messages();
    assert_eq!(messages[1], "ParseError at line 2: p");
    assert_eq!(messages[2], "TypeError at line 3: t");
    reporter.clear();
    assert!(reporter.errors.is_empty());
}

#[test]
fn store_of_empty_module() {
    let store = Store::new(Module::new()).unwrap();
    assert_eq!(store.len(), 0);
}

#[test]
fn store_pairs_bodies_with_types() {
    let mut module = Module::new();
    module.type_section = Some(vec![FuncType { params: vec![], results: vec![] }]);
    module.function_section = Some(vec![0, 0]);
    module.code_section = Some(vec![
        Function { locals: vec![], code: vec![Instruction::End] },
        Function { locals: vec![], code: vec![Instruction::I32Add] },
    ]);
    let store = Store::new(module).unwrap();
    assert_eq!(store.len(), 2);
}

#[test]
fn store_needs_a_type_section_for_code() {
    let mut module = Module::new();
    module.code_section = Some(vec![Function { locals: vec![], code: vec![Instruction::End] }]);
    assert_eq!(Store::new(module).err(), Some(String::from("type section expected but not found")));
}

#[test]
fn store_rejects_a_missing_type_index() {
    let mut module = Module::new();
    module.type_section = Some(vec![FuncType { params: vec![], results: vec![] }]);
    module.function_section = Some(vec![3]);
    module.code_section = Some(vec![Function { locals: vec![], code: vec![Instruction::End] }]);
    assert_eq!(Store::new(module).err(), Some(String::from("type index 3 not found in type section")));
}

#[test]
fn store_pairs_only_as_many_as_both_lists_hold() {
    let mut module = Module::new();
    module.type_section = Some(vec![FuncType { params: vec![], results: vec![] }]);
    module.function_section = Some(vec![0]);
    module.code_section = Some(vec![
        Function { locals: vec![], code: vec![Instruction::End] },
        Function { locals: vec![], code: vec![Instruction::End] },
    ]);
    assert_eq!(Store::new(module).unwrap().len(), 1);
}

#[test]
fn runtime_instantiates_a_module() {
    let wasm = wat::parse_str("(module (func) (func))").expect("unit test input WAT invalid");
    let runtime = Runtime::instantiate(&wasm).unwrap();
    assert_eq!(runtime.function_count(), 2);
    assert!(Runtime::instantiate(&[0, 1, 2]).is_err());
}
