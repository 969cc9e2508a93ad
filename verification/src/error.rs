//! The errors of each stage, and the reporter that collects them.

use vstd::prelude::*;

use crate::text::{decimal, message_with_number, push_char, push_decimal};
use crate::token::SourceLocation;

verus! {

/// An error found while reading characters into tokens.
#[derive(Debug, PartialEq)]
pub enum LexError {
    UnexpectedCharacter(SourceLocation, char),
    UnterminatedString(SourceLocation),
    IndentationError(SourceLocation, String),
    TabError(SourceLocation, String),
    MalformedNumberLiteral(SourceLocation),
}

/// `prefix`, the line number, `": "` and `message`.
pub open spec fn located(prefix: Seq<char>, line: usize, message: Seq<char>) -> Seq<char> {
    prefix + " at line "@ + decimal(line as nat) + ": "@ + message
}

impl LexError {
    /// The line the error was found on.
    pub open spec fn spec_line(&self) -> usize {
        match self {
            LexError::UnexpectedCharacter(l, _) => l.line,
            LexError::UnterminatedString(l) => l.line,
            LexError::IndentationError(l, _) => l.line,
            LexError::TabError(l, _) => l.line,
            LexError::MalformedNumberLiteral(l) => l.line,
        }
    }

    /// The description of the error.
    pub open spec fn spec_message(&self) -> Seq<char> {
        match self {
            LexError::UnexpectedCharacter(l, c) => "unexpected character '"@ + seq![*c]
                + "' at line "@ + decimal(l.line as nat),
            LexError::IndentationError(l, m) => located("IndentationError"@, l.line, m@),
            LexError::TabError(l, m) => located("TabError"@, l.line, m@),
            LexError::UnterminatedString(l) => "unterminated string at line "@ + decimal(
                l.line as nat,
            ) + ""@,
            LexError::MalformedNumberLiteral(l) => "malformed number literal at line "@ + decimal(
                l.line as nat,
            ) + ""@,
        }
    }

    /// The description of the error.
    pub fn message(&self) -> (r: String)
        ensures
            r@ == self.spec_message(),
    {
        match self {
            LexError::UnexpectedCharacter(l, c) => {
                let mut s = String::from_str("unexpected character '");
                push_char(&mut s, *c);
                s.append("' at line ");
                push_decimal(&mut s, l.line as u64);
                s
            },
            LexError::IndentationError(l, m) => located_message("IndentationError", l.line, m),
            LexError::TabError(l, m) => located_message("TabError", l.line, m),
            LexError::UnterminatedString(l) => message_with_number(
                "unterminated string at line ",
                l.line as u64,
                "",
            ),
            LexError::MalformedNumberLiteral(l) => message_with_number(
                "malformed number literal at line ",
                l.line as u64,
                "",
            ),
        }
    }
}

/// `prefix`, the line number, `": "` and `message`.
fn located_message(prefix: &str, line: usize, message: &String) -> (r: String)
    ensures
        r@ == located(prefix@, line, message@),
{
    let mut s = String::from_str(prefix);
    s.append(" at line ");
    push_decimal(&mut s, line as u64);
    s.append(": ");
    s.append(message.as_str());
    s
}

/// An error found while building the syntax tree.
#[derive(Debug, PartialEq)]
pub enum ParseError {
    ParseError(SourceLocation, String),
}

impl ParseError {
    /// The description of the error.
    pub open spec fn spec_message(&self) -> Seq<char> {
        match self {
            ParseError::ParseError(l, m) => located("ParseError"@, l.line, m@),
        }
    }

    /// The description of the error.
    pub fn message(&self) -> (r: String)
        ensures
            r@ == self.spec_message(),
    {
        match self {
            ParseError::ParseError(l, m) => located_message("ParseError", l.line, m),
        }
    }
}

/// An error raised while running a program.
#[derive(Debug, PartialEq)]
pub enum RuntimeError {
    TypeError(SourceLocation, String),
    NameError(SourceLocation, String),
    RuntimeError(SourceLocation, String),
    AttributeError(SourceLocation, String),
    IndexError(SourceLocation, String),
}

impl RuntimeError {
    /// The description of the error.
    pub open spec fn spec_message(&self) -> Seq<char> {
        match self {
            RuntimeError::TypeError(l, m) => located("TypeError"@, l.line, m@),
            RuntimeError::NameError(l, m) => located("NameError"@, l.line, m@),
            RuntimeError::RuntimeError(l, m) => located("RuntimeError"@, l.line, m@),
            RuntimeError::AttributeError(l, m) => located("AttributeError"@, l.line, m@),
            RuntimeError::IndexError(l, m) => located("IndexError"@, l.line, m@),
        }
    }

    /// The description of the error.
    pub fn message(&self) -> (r: String)
        ensures
            r@ == self.spec_message(),
    {
        match self {
            RuntimeError::TypeError(l, m) => located_message("TypeError", l.line, m),
            RuntimeError::NameError(l, m) => located_message("NameError", l.line, m),
            RuntimeError::RuntimeError(l, m) => located_message("RuntimeError", l.line, m),
            RuntimeError::AttributeError(l, m) => located_message("AttributeError", l.line, m),
            RuntimeError::IndexError(l, m) => located_message("IndexError", l.line, m),
        }
    }
}

/// An error of any stage.
#[derive(Debug, PartialEq)]
pub enum CompilerError {
    Lex(LexError),
    Parse(ParseError),
    Runtime(RuntimeError),
}

impl CompilerError {
    /// The description of the error.
    pub open spec fn spec_message(&self) -> Seq<char> {
        match self {
            CompilerError::Lex(e) => e.spec_message(),
            CompilerError::Parse(e) => e.spec_message(),
            CompilerError::Runtime(e) => e.spec_message(),
        }
    }
}

/// Collects the errors of every stage, in the order they were found.
pub struct ErrorReporter {
    pub errors: Vec<CompilerError>,
}

impl ErrorReporter {
    /// A reporter without errors.
    pub fn new() -> (r: Self)
        ensures
            r.errors@ == Seq::<CompilerError>::empty(),
    {
        ErrorReporter { errors: Vec::new() }
    }

    fn register_error(&mut self, error: CompilerError)
        ensures
            final(self).errors@ == old(self).errors@.push(error),
    {
        self.errors.push(error);
    }

    /// Records an error of the lexer.
    pub fn register_lex_error(&mut self, error: LexError)
        ensures
            final(self).errors@ == old(self).errors@.push(CompilerError::Lex(error)),
    {
        self.register_error(CompilerError::Lex(error));
    }

    /// Records an error of the parser.
    pub fn register_parse_error(&mut self, error: ParseError)
        ensures
            final(self).errors@ == old(self).errors@.push(CompilerError::Parse(error)),
    {
        self.register_error(CompilerError::Parse(error));
    }

    /// Records an error raised while running.
    pub fn register_runtime_error(&mut self, error: RuntimeError)
        ensures
            final(self).errors@ == old(self).errors@.push(CompilerError::Runtime(error)),
    {
        self.register_error(CompilerError::Runtime(error));
    }

    /// Whether any error was recorded.
    pub fn has_errors(&self) -> (r: bool)
        ensures
            r == (self.errors@.len() > 0),
    {
        self.errors.len() != 0
    }

    /// The descriptions of the recorded errors, in order, one per error.
    pub fn messages(&self) -> (r: Vec<String>)
        ensures
            r@.len() == self.errors@.len(),
            forall|i: int| 0 <= i < r@.len() ==> #[trigger] r@[i]@ == self.errors@[i].spec_message(),
    {
        let mut r: Vec<String> = Vec::new();
        let mut i: usize = 0;
        while i < self.errors.len()
            invariant
                i <= self.errors@.len(),
                r@.len() == i,
                forall|j: int| 0 <= j < i ==> #[trigger] r@[j]@ == self.errors@[j].spec_message(),
            decreases self.errors@.len() - i,
        {
            let m = match &self.errors[i] {
                CompilerError::Lex(e) => e.message(),
                CompilerError::Parse(e) => e.message(),
                CompilerError::Runtime(e) => e.message(),
            };
            r.push(m);
            i += 1;
        }
        r
    }

    /// Forgets every recorded error.
    pub fn clear(&mut self)
        ensures
            final(self).errors@ == Seq::<CompilerError>::empty(),
    {
        self.errors.clear();
    }
}

} // verus!
