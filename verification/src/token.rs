//! Tokens: the lexical units of the language.

use vstd::prelude::*;

verus! {

/// Where something stands in the source: its line, counted from 1.
#[derive(Debug, Clone, Copy, PartialEq, Eq, Structural)]
pub struct SourceLocation {
    pub line: usize,
}

/// The kinds of tokens.
#[derive(Debug, Clone, Copy, PartialEq, Eq, Structural)]
pub enum TokenKind {
    // single-character tokens
    LeftParen,
    RightParen,
    Colon,
    Comma,
    Dot,
    Minus,
    Plus,
    Slash,
    Star,
    Tilde,
    // one or two character tokens
    BangEqual,
    Equal,
    EqualEqual,
    Greater,
    GreaterEqual,
    Less,
    LessEqual,
    PlusEqual,
    MinusEqual,
    StarEqual,
    SlashEqual,
    // literals
    Identifier,
    String,
    Int,
    Float,
    // keywords
    And,
    Class,
    Def,
    Elif,
    Else,
    False,
    For,
    If,
    In,
    Is,
    IsNot,
    NoneKeyword,
    Not,
    Or,
    Pass,
    Return,
    Super,
    This,
    True,
    While,
    // significant whitespace
    Indent,
    Dedent,
    NewLine,
    // the end of the input
    Eof,
}

/// The value that a literal token denotes.
///
/// A floating-point literal is kept as its source text (digits, a point,
/// digits); turning it into a number is left to whoever evaluates it.
#[derive(Debug, PartialEq, Clone)]
pub enum Literal {
    NoneValue,
    String(String),
    Int(i64),
    Float(String),
    Bool(bool),
}

impl Literal {
    /// A copy of this literal.
    pub fn duplicate(&self) -> (r: Literal)
        ensures
            r == *self,
    {
        match self {
            Literal::NoneValue => Literal::NoneValue,
            Literal::String(s) => Literal::String(s.clone()),
            Literal::Int(i) => Literal::Int(*i),
            Literal::Float(s) => Literal::Float(s.clone()),
            Literal::Bool(b) => Literal::Bool(*b),
        }
    }
}

/// A token: its kind, the source text it was read from, the value of a
/// literal, and its line.
#[derive(Debug, PartialEq, Clone)]
pub struct Token {
    pub kind: TokenKind,
    pub lexeme: String,
    pub literal: Option<Literal>,
    pub line: usize,
}

impl Token {
    /// A token without a literal value.
    pub fn new(kind: TokenKind, lexeme: &str, line: usize) -> (r: Token)
        ensures
            r.kind == kind,
            r.lexeme@ == lexeme@,
            r.literal is None,
            r.line == line,
    {
        Self { kind, lexeme: String::from_str(lexeme), literal: None, line }
    }

    /// A token with a literal value.
    pub fn with_literal(kind: TokenKind, lexeme: &str, literal: Literal, line: usize) -> (r: Token)
        ensures
            r.kind == kind,
            r.lexeme@ == lexeme@,
            r.literal == Some(literal),
            r.line == line,
    {
        Self { kind, lexeme: String::from_str(lexeme), literal: Some(literal), line }
    }

    /// A copy of this token.
    pub fn duplicate(&self) -> (r: Token)
        ensures
            r == *self,
    {
        Token {
            kind: self.kind,
            lexeme: self.lexeme.clone(),
            literal: match &self.literal {
                Some(l) => Some(l.duplicate()),
                None => None,
            },
            line: self.line,
        }
    }
}

impl TokenKind {
    /// The name of the kind, as the source of this enum spells it (the
    /// `None` keyword is named `None`).
    pub open spec fn spec_name(self) -> Seq<char> {
        match self {
            TokenKind::LeftParen => "LeftParen"@,
            TokenKind::RightParen => "RightParen"@,
            TokenKind::Colon => "Colon"@,
            TokenKind::Comma => "Comma"@,
            TokenKind::Dot => "Dot"@,
            TokenKind::Minus => "Minus"@,
            TokenKind::Plus => "Plus"@,
            TokenKind::Slash => "Slash"@,
            TokenKind::Star => "Star"@,
            TokenKind::Tilde => "Tilde"@,
            TokenKind::BangEqual => "BangEqual"@,
            TokenKind::Equal => "Equal"@,
            TokenKind::EqualEqual => "EqualEqual"@,
            TokenKind::Greater => "Greater"@,
            TokenKind::GreaterEqual => "GreaterEqual"@,
            TokenKind::Less => "Less"@,
            TokenKind::LessEqual => "LessEqual"@,
            TokenKind::PlusEqual => "PlusEqual"@,
            TokenKind::MinusEqual => "MinusEqual"@,
            TokenKind::StarEqual => "StarEqual"@,
            TokenKind::SlashEqual => "SlashEqual"@,
            TokenKind::Identifier => "Identifier"@,
            TokenKind::String => "String"@,
            TokenKind::Int => "Int"@,
            TokenKind::Float => "Float"@,
            TokenKind::And => "And"@,
            TokenKind::Class => "Class"@,
            TokenKind::Def => "Def"@,
            TokenKind::Elif => "Elif"@,
            TokenKind::Else => "Else"@,
            TokenKind::False => "False"@,
            TokenKind::For => "For"@,
            TokenKind::If => "If"@,
            TokenKind::In => "In"@,
            TokenKind::Is => "Is"@,
            TokenKind::IsNot => "IsNot"@,
            TokenKind::NoneKeyword => "None"@,
            TokenKind::Not => "Not"@,
            TokenKind::Or => "Or"@,
            TokenKind::Pass => "Pass"@,
            TokenKind::Return => "Return"@,
            TokenKind::Super => "Super"@,
            TokenKind::This => "This"@,
            TokenKind::True => "True"@,
            TokenKind::While => "While"@,
            TokenKind::Indent => "Indent"@,
            TokenKind::Dedent => "Dedent"@,
            TokenKind::NewLine => "NewLine"@,
            TokenKind::Eof => "Eof"@,
        }
    }

    /// The name of the kind.
    pub fn name(&self) -> (r: &'static str)
        ensures
            r@ == self.spec_name(),
    {
        match self {
            TokenKind::LeftParen => "LeftParen",
            TokenKind::RightParen => "RightParen",
            TokenKind::Colon => "Colon",
            TokenKind::Comma => "Comma",
            TokenKind::Dot => "Dot",
            TokenKind::Minus => "Minus",
            TokenKind::Plus => "Plus",
            TokenKind::Slash => "Slash",
            TokenKind::Star => "Star",
            TokenKind::Tilde => "Tilde",
            TokenKind::BangEqual => "BangEqual",
            TokenKind::Equal => "Equal",
            TokenKind::EqualEqual => "EqualEqual",
            TokenKind::Greater => "Greater",
            TokenKind::GreaterEqual => "GreaterEqual",
            TokenKind::Less => "Less",
            TokenKind::LessEqual => "LessEqual",
            TokenKind::PlusEqual => "PlusEqual",
            TokenKind::MinusEqual => "MinusEqual",
            TokenKind::StarEqual => "StarEqual",
            TokenKind::SlashEqual => "SlashEqual",
            TokenKind::Identifier => "Identifier",
            TokenKind::String => "String",
            TokenKind::Int => "Int",
            TokenKind::Float => "Float",
            TokenKind::And => "And",
            TokenKind::Class => "Class",
            TokenKind::Def => "Def",
            TokenKind::Elif => "Elif",
            TokenKind::Else => "Else",
            TokenKind::False => "False",
            TokenKind::For => "For",
            TokenKind::If => "If",
            TokenKind::In => "In",
            TokenKind::Is => "Is",
            TokenKind::IsNot => "IsNot",
            TokenKind::NoneKeyword => "None",
            TokenKind::Not => "Not",
            TokenKind::Or => "Or",
            TokenKind::Pass => "Pass",
            TokenKind::Return => "Return",
            TokenKind::Super => "Super",
            TokenKind::This => "This",
            TokenKind::True => "True",
            TokenKind::While => "While",
            TokenKind::Indent => "Indent",
            TokenKind::Dedent => "Dedent",
            TokenKind::NewLine => "NewLine",
            TokenKind::Eof => "Eof",
        }
    }
}

} // verus!
