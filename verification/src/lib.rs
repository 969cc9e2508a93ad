//! Whipsnake: a small interpreter front end for a Python subset (lexer,
//! recursive-descent parser, AST printer) together with a tiny bytecode chunk
//! and a WebAssembly binary decoder.

pub mod text;
pub mod wasm;
pub mod bytecode;
pub mod token;
pub mod error;
pub mod lexer;
pub mod spelling;
pub mod lex_faults;
pub mod repl;
pub mod ast;
pub mod grammar;
pub mod environment;
pub mod derivation;
pub mod parser;
pub mod printer;
pub mod layout_laws;
pub mod operators;
pub mod eval_errors;
pub mod scanner;
