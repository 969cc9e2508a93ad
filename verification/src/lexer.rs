//! The lexer: source text to tokens.
//!
//! Indentation is significant: after each newline the lexer measures the
//! indentation of the next line and emits `Indent` and `Dedent` tokens as the
//! level rises above, or falls back to, the levels of the enclosing lines.
//! Every line is indented with spaces or with tabs, one or the other for the
//! whole input.

use vstd::prelude::*;

use crate::error::{CompilerError, ErrorReporter, LexError};
use crate::lex_faults::{
    class_end, errors_report, group_step, indentation_step, lemma_class_end,
    lemma_clean_iff_no_errors, lemma_faults_at_end, lemma_faults_step, lemma_report_push,
    lex_error_is, lex_faults, lexes_cleanly, number_step, scan_faults, CharClass, LexFault,
    closing_body, closing_shapes, dedent_shapes, end_line, lemma_close_and_end, group_shapes, last_kind, lemma_run_step, lex_shapes, shapes,
    token_run,
};
use crate::text::string_from_chars;
use crate::token::{Literal, SourceLocation, Token, TokenKind};

verus! {

/// The characters of `source`, in order.
pub fn chars_of(source: &str) -> (r: Vec<char>)
    ensures
        r@ == source@,
{
    let mut v: Vec<char> = Vec::new();
    for c in it: source.chars()
        invariant
            v@ == it.seq().take(it.index() as int),
            it.seq() == source@,
    {
        v.push(c);
    }
    v
}

/// A letter or an underscore.
pub open spec fn spec_is_alpha(c: char) -> bool {
    ('a' <= c && c <= 'z') || ('A' <= c && c <= 'Z') || c == '_'
}

/// A decimal digit.
pub open spec fn spec_is_digit(c: char) -> bool {
    '0' <= c && c <= '9'
}

/// A letter, a digit or an underscore.
pub open spec fn spec_is_alpha_numeric(c: char) -> bool {
    spec_is_alpha(c) || spec_is_digit(c)
}

/// The keyword that `s` spells, if any.
pub open spec fn spec_keyword(s: Seq<char>) -> Option<TokenKind> {
    if s == "and"@ {
        Some(TokenKind::And)
    } else if s == "class"@ {
        Some(TokenKind::Class)
    } else if s == "def"@ {
        Some(TokenKind::Def)
    } else if s == "elif"@ {
        Some(TokenKind::Elif)
    } else if s == "else"@ {
        Some(TokenKind::Else)
    } else if s == "False"@ {
        Some(TokenKind::False)
    } else if s == "for"@ {
        Some(TokenKind::For)
    } else if s == "if"@ {
        Some(TokenKind::If)
    } else if s == "in"@ {
        Some(TokenKind::In)
    } else if s == "is"@ {
        Some(TokenKind::Is)
    } else if s == "None"@ {
        Some(TokenKind::NoneKeyword)
    } else if s == "not"@ {
        Some(TokenKind::Not)
    } else if s == "or"@ {
        Some(TokenKind::Or)
    } else if s == "pass"@ {
        Some(TokenKind::Pass)
    } else if s == "return"@ {
        Some(TokenKind::Return)
    } else if s == "super"@ {
        Some(TokenKind::Super)
    } else if s == "self"@ {
        Some(TokenKind::This)
    } else if s == "True"@ {
        Some(TokenKind::True)
    } else if s == "while"@ {
        Some(TokenKind::While)
    } else {
        None
    }
}

/// The operator that starts with `c` when `next` follows it (`None` at the
/// end of the input): its kind and its length, one or two characters.
pub open spec fn spec_operator(c: char, next: Option<char>) -> Option<(TokenKind, nat)> {
    let eq = next == Some('=');
    if c == '(' {
        Some((TokenKind::LeftParen, 1))
    } else if c == ')' {
        Some((TokenKind::RightParen, 1))
    } else if c == ':' {
        Some((TokenKind::Colon, 1))
    } else if c == ',' {
        Some((TokenKind::Comma, 1))
    } else if c == '.' {
        Some((TokenKind::Dot, 1))
    } else if c == '~' {
        Some((TokenKind::Tilde, 1))
    } else if c == '-' {
        if eq { Some((TokenKind::MinusEqual, 2)) } else { Some((TokenKind::Minus, 1)) }
    } else if c == '+' {
        if eq { Some((TokenKind::PlusEqual, 2)) } else { Some((TokenKind::Plus, 1)) }
    } else if c == '/' {
        if eq { Some((TokenKind::SlashEqual, 2)) } else { Some((TokenKind::Slash, 1)) }
    } else if c == '*' {
        if eq { Some((TokenKind::StarEqual, 2)) } else { Some((TokenKind::Star, 1)) }
    } else if c == '!' {
        if eq { Some((TokenKind::BangEqual, 2)) } else { None }
    } else if c == '=' {
        if eq { Some((TokenKind::EqualEqual, 2)) } else { Some((TokenKind::Equal, 1)) }
    } else if c == '<' {
        if eq { Some((TokenKind::LessEqual, 2)) } else { Some((TokenKind::Less, 1)) }
    } else if c == '>' {
        if eq { Some((TokenKind::GreaterEqual, 2)) } else { Some((TokenKind::Greater, 1)) }
    } else {
        None
    }
}

/// The number of tokens of kind `k` in `ts`.
pub open spec fn count_kind(ts: Seq<Token>, k: TokenKind) -> nat
    decreases ts.len(),
{
    if ts.len() == 0 {
        0
    } else {
        count_kind(ts.drop_last(), k) + if ts.last().kind == k { 1nat } else { 0nat }
    }
}

/// Counting over a concatenation adds up.
pub proof fn lemma_count_kind_append(a: Seq<Token>, b: Seq<Token>, k: TokenKind)
    ensures
        count_kind(a + b, k) == count_kind(a, k) + count_kind(b, k),
    decreases b.len(),
{
    if b.len() > 0 {
        lemma_count_kind_append(a, b.drop_last(), k);
        assert((a + b).drop_last() =~= a + b.drop_last());
    } else {
        assert(a + b =~= a);
    }
}

/// The number of occurrences of `c` in `s`.
pub open spec fn count_char(s: Seq<char>, c: char) -> nat
    decreases s.len(),
{
    if s.len() == 0 {
        0
    } else {
        count_char(s.drop_last(), c) + if s.last() == c { 1nat } else { 0nat }
    }
}

/// The lines of the tokens never decrease.
pub open spec fn lines_nondecreasing(ts: Seq<Token>) -> bool {
    forall|i: int, j: int| 0 <= i <= j < ts.len() ==> ts[i].line <= ts[j].line
}

/// No token marks the end of the input.
pub open spec fn no_eof(ts: Seq<Token>) -> bool {
    forall|i: int| 0 <= i < ts.len() ==> ts[i].kind != TokenKind::Eof
}

/// A level stack: strictly increasing positive indentation widths.
pub open spec fn levels_ok(levels: Seq<usize>) -> bool {
    &&& forall|i: int| 0 <= i < levels.len() ==> levels[i] > 0
    &&& forall|i: int, j: int| 0 <= i < j < levels.len() ==> levels[i] < levels[j]
}

/// The number of levels of `levels` above `level`.
pub open spec fn levels_above(levels: Seq<usize>, level: usize) -> nat
    decreases levels.len(),
{
    if levels.len() == 0 {
        0
    } else if levels.last() > level {
        levels_above(levels.drop_last(), level) + 1
    } else {
        0
    }
}

/// The reader of characters into tokens.
pub struct Lexer {
    source: Vec<char>,
    start: usize,
    current: usize,
    line: usize,
    indent_levels: Vec<usize>,
    using_tabs: Option<bool>,
}

impl Lexer {
    /// The characters of the input being read.
    pub closed spec fn chars(&self) -> Seq<char> {
        self.source@
    }

    /// The index of the next character to read.
    pub closed spec fn pos(&self) -> nat {
        self.current as nat
    }

    /// The line being read, counted from 1.
    pub closed spec fn line_number(&self) -> usize {
        self.line
    }

    /// The indentation widths of the enclosing blocks, innermost last.
    pub closed spec fn levels(&self) -> Seq<usize> {
        self.indent_levels@
    }

    /// Whether the input is indented with tabs (`Some(true)`), with spaces
    /// (`Some(false)`), or not indented yet (`None`).
    pub closed spec fn tabs(&self) -> Option<bool> {
        self.using_tabs
    }

    /// The state is consistent.
    pub closed spec fn inv(&self) -> bool {
        &&& self.start <= self.current <= self.source@.len()
        &&& levels_ok(self.indent_levels@)
        &&& self.line >= 1
    }

    /// The state between two inputs: consistent, and outside any block.
    pub closed spec fn wf(&self) -> bool {
        &&& self.inv()
        &&& self.indent_levels@.len() == 0
    }

    /// A lexer at line 1, before any input.
    pub fn new() -> (r: Lexer)
        ensures
            r.wf(),
            r.line_number() == 1,
            r.tabs() is None,
    {
        Lexer {
            source: Vec::new(),
            start: 0,
            current: 0,
            line: 1,
            indent_levels: Vec::new(),
            using_tabs: None,
        }
    }

    fn is_at_end(&self) -> (r: bool)
        ensures
            r == (self.current >= self.source@.len()),
    {
        self.current >= self.source.len()
    }

    fn peek(&self) -> (r: Option<char>)
        requires
            self.current <= self.source@.len(),
        ensures
            r == (if self.current < self.source@.len() {
                Some(self.source@[self.current as int])
            } else {
                None::<char>
            }),
    {
        if self.current < self.source.len() {
            Some(self.source[self.current])
        } else {
            None
        }
    }

    fn advance(&mut self) -> (r: Option<char>)
        requires
            old(self).inv(),
        ensures
            final(self).inv(),
            final(self).source == old(self).source,
            final(self).start == old(self).start,
            final(self).line == old(self).line,
            final(self).indent_levels == old(self).indent_levels,
            final(self).using_tabs == old(self).using_tabs,
            old(self).current < old(self).source@.len() ==> {
                &&& r == Some(old(self).source@[old(self).current as int])
                &&& final(self).current == old(self).current + 1
            },
            old(self).current >= old(self).source@.len() ==> {
                &&& r is None
                &&& final(self).current == old(self).current
            },
    {
        if self.current < self.source.len() {
            let c = self.source[self.current];
            self.current = self.current + 1;
            Some(c)
        } else {
            None
        }
    }

    fn advance_if_match(&mut self, expected: char) -> (r: bool)
        requires
            old(self).inv(),
        ensures
            final(self).inv(),
            final(self).source == old(self).source,
            final(self).start == old(self).start,
            final(self).line == old(self).line,
            final(self).indent_levels == old(self).indent_levels,
            final(self).using_tabs == old(self).using_tabs,
            r == (old(self).current < old(self).source@.len() && old(self).source@[old(self).current as int] == expected),
            final(self).current == old(self).current + if r { 1nat } else { 0nat },
    {
        if self.current < self.source.len() && self.source[self.current] == expected {
            self.current = self.current + 1;
            true
        } else {
            false
        }
    }

    fn current_lexeme(&self) -> (r: String)
        requires
            self.inv(),
        ensures
            r@ == self.source@.subrange(self.start as int, self.current as int),
    {
        string_from_chars(&self.source, self.start, self.current)
    }

    fn is_alpha(&self, c: char) -> (r: bool)
        ensures
            r == spec_is_alpha(c),
    {
        ('a' <= c && c <= 'z') || ('A' <= c && c <= 'Z') || c == '_'
    }

    fn is_digit(&self, c: char) -> (r: bool)
        ensures
            r == spec_is_digit(c),
    {
        '0' <= c && c <= '9'
    }

    fn is_alpha_numeric(&self, c: char) -> (r: bool)
        ensures
            r == spec_is_alpha_numeric(c),
    {
        self.is_alpha(c) || self.is_digit(c)
    }
}

/// The value of a string of decimal digits.
pub open spec fn decimal_value(s: Seq<char>) -> nat
    decreases s.len(),
{
    if s.len() == 0 {
        0
    } else {
        (decimal_value(s.drop_last()) * 10 + (s.last() as int - '0' as int)) as nat
    }
}

/// Every character of `s` satisfies `p`.
pub open spec fn all_chars(s: Seq<char>, p: spec_fn(char) -> bool) -> bool {
    forall|i: int| 0 <= i < s.len() ==> p(#[trigger] s[i])
}

/// The message of a dedent to a width that no enclosing line has.
pub open spec fn unindent_message() -> Seq<char> {
    "unindent does not match any outer indentation level."@
}

/// The message of indentation that mixes spaces and tabs.
pub open spec fn mixed_indentation_message() -> Seq<char> {
    "mixed spaces and tabs for indentation."@
}

/// The tokens of `ts` from index `from` on are all `Dedent` tokens at line
/// `line`, with an empty lexeme and no literal.
pub open spec fn all_dedents(ts: Seq<Token>, from: int, line: usize) -> bool {
    forall|i: int|
        from <= i < ts.len() ==> {
            &&& (#[trigger] ts[i]).kind == TokenKind::Dedent
            &&& ts[i].lexeme@ == Seq::<char>::empty()
            &&& ts[i].literal is None
            &&& ts[i].line == line
        }
}

impl Lexer {
    /// Everything but the position is unchanged.
    pub closed spec fn same_but_position(&self, other: &Lexer) -> bool {
        &&& self.source == other.source
        &&& self.start == other.start
        &&& self.line == other.line
        &&& self.indent_levels == other.indent_levels
        &&& self.using_tabs == other.using_tabs
    }

    /// The keyword that `identifier` spells, if any.
    fn lookup_keyword(&self, identifier: &String) -> (r: Option<TokenKind>)
        ensures
            r == spec_keyword(identifier@),
    {
        if *identifier == String::from_str("and") {
            Some(TokenKind::And)
        } else if *identifier == String::from_str("class") {
            Some(TokenKind::Class)
        } else if *identifier == String::from_str("def") {
            Some(TokenKind::Def)
        } else if *identifier == String::from_str("elif") {
            Some(TokenKind::Elif)
        } else if *identifier == String::from_str("else") {
            Some(TokenKind::Else)
        } else if *identifier == String::from_str("False") {
            Some(TokenKind::False)
        } else if *identifier == String::from_str("for") {
            Some(TokenKind::For)
        } else if *identifier == String::from_str("if") {
            Some(TokenKind::If)
        } else if *identifier == String::from_str("in") {
            Some(TokenKind::In)
        } else if *identifier == String::from_str("is") {
            Some(TokenKind::Is)
        } else if *identifier == String::from_str("None") {
            Some(TokenKind::NoneKeyword)
        } else if *identifier == String::from_str("not") {
            Some(TokenKind::Not)
        } else if *identifier == String::from_str("or") {
            Some(TokenKind::Or)
        } else if *identifier == String::from_str("pass") {
            Some(TokenKind::Pass)
        } else if *identifier == String::from_str("return") {
            Some(TokenKind::Return)
        } else if *identifier == String::from_str("super") {
            Some(TokenKind::Super)
        } else if *identifier == String::from_str("self") {
            Some(TokenKind::This)
        } else if *identifier == String::from_str("True") {
            Some(TokenKind::True)
        } else if *identifier == String::from_str("while") {
            Some(TokenKind::While)
        } else {
            None
        }
    }

    fn peek_is_digit(&self) -> (r: bool)
        requires
            self.inv(),
        ensures
            r == (self.current < self.source@.len() && spec_is_digit(
                self.source@[self.current as int],
            )),
    {
        match self.peek() {
            Some(c) => self.is_digit(c),
            None => false,
        }
    }

    /// Skips a comment: everything up to (not including) the end of the line.
    fn scan_comment(&mut self) -> (r: Result<Option<Vec<Token>>, LexError>)
        requires
            old(self).inv(),
        ensures
            final(self).inv(),
            old(self).current <= final(self).current,
            final(self).same_but_position(old(self)),
            r == Ok::<Option<Vec<Token>>, LexError>(None),
            forall|i: int|
                old(self).current <= i < final(self).current ==> old(self).source@[i] != '\n',
            final(self).current == old(self).source@.len() || old(self).source@[final(self).current as int] == '\n',
    {
        while self.peek() != Some('\n') && !self.is_at_end()
            invariant
                self.inv(),
                old(self).current <= self.current,
                self.same_but_position(old(self)),
                forall|i: int| old(self).current <= i < self.current ==> self.source@[i] != '\n',
            decreases self.source@.len() - self.current,
        {
            self.advance();
        }
        Ok(None)
    }

    /// Reads the rest of a string literal opened by `quote`, up to the
    /// closing `quote` on the same line.
    fn scan_string_literal(&mut self, quote: char) -> (r: Result<Option<Vec<Token>>, LexError>)
        requires
            old(self).inv(),
            old(self).start < old(self).current,
            old(self).source@[old(self).start as int] == quote,
        ensures
            final(self).inv(),
            final(self).source == old(self).source,
            final(self).start == old(self).start,
            final(self).line == old(self).line,
            final(self).indent_levels == old(self).indent_levels,
            final(self).using_tabs == old(self).using_tabs,
            old(self).current <= final(self).current,
            forall|i: int|
                old(self).current <= i < final(self).current - 1 ==> {
                    &&& old(self).source@[i] != quote
                    &&& old(self).source@[i] != '\n'
                },
            match r {
                Ok(Some(ts)) => {
                    &&& ts@.len() == 1
                    &&& ts@[0].kind == TokenKind::String
                    &&& ts@[0].line == old(self).line
                    &&& final(self).current >= old(self).current + 1
                    &&& old(self).source@[final(self).current - 1] == quote
                    &&& ts@[0].lexeme@ == old(self).source@.subrange(
                        old(self).start as int,
                        final(self).current as int,
                    )
                    &&& (ts@[0].literal matches Some(Literal::String(inner)) && inner@
                        == old(self).source@.subrange(
                        old(self).start + 1,
                        final(self).current - 1,
                    ))
                },
                Ok(None) => false,
                Err(e) => {
                    &&& e == LexError::UnterminatedString(SourceLocation { line: old(self).line })
                    &&& (final(self).current == old(self).source@.len() || old(self).source@[final(self).current as int] == '\n')
                    &&& forall|i: int|
                        old(self).current <= i < final(self).current ==> old(self).source@[i]
                            != quote && old(self).source@[i] != '\n'
                },
            },
    {
        while self.peek() != Some(quote)
            invariant
                self.inv(),
                old(self).current <= self.current,
                self.same_but_position(old(self)),
                forall|i: int|
                    old(self).current <= i < self.current ==> {
                        &&& self.source@[i] != quote
                        &&& self.source@[i] != '\n'
                    },
            decreases self.source@.len() - self.current,
        {
            if self.peek() == Some('\n') || self.is_at_end() {
                return Err(LexError::UnterminatedString(SourceLocation { line: self.line }));
            }
            self.advance();
        }
        self.advance();
        let lexeme = self.current_lexeme();
        let literal = string_from_chars(&self.source, self.start + 1, self.current - 1);
        let token = Token::with_literal(
            TokenKind::String,
            lexeme.as_str(),
            Literal::String(literal),
            self.line,
        );
        Ok(Some(vec![token]))
    }

    /// Reads the rest of a number: digits, then optionally a point and more
    /// digits. Without a point the number is an `Int` (an error when it does
    /// not fit in an `i64`); with one, a `Float` kept as its text.
    fn scan_number_literal(&mut self) -> (r: Result<Option<Vec<Token>>, LexError>)
        requires
            old(self).inv(),
            old(self).start < old(self).current,
            old(self).current == old(self).start + 1,
            spec_is_digit(old(self).source@[old(self).start as int]),
        ensures
            final(self).inv(),
            final(self).source == old(self).source,
            final(self).start == old(self).start,
            final(self).line == old(self).line,
            final(self).indent_levels == old(self).indent_levels,
            final(self).using_tabs == old(self).using_tabs,
            old(self).current <= final(self).current,
            forall|i: int|
                old(self).current <= i < final(self).current ==> old(self).source@[i] != '\n',
            match r {
                Ok(Some(ts)) => {
                    let text = old(self).source@.subrange(
                        old(self).start as int,
                        final(self).current as int,
                    );
                    &&& ts@.len() == 1
                    &&& ts@[0].line == old(self).line
                    &&& ts@[0].lexeme@ == text
                    &&& final(self).current == old(self).source@.len() || !spec_is_digit(
                        old(self).source@[final(self).current as int],
                    )
                    &&& (ts@[0].kind == TokenKind::Int ==> {
                        &&& all_chars(text, |c: char| spec_is_digit(c))
                        &&& ts@[0].literal == Some(Literal::Int(decimal_value(text) as i64))
                        &&& decimal_value(text) <= i64::MAX
                    })
                    &&& (ts@[0].kind == TokenKind::Float ==> (ts@[0].literal matches Some(
                        Literal::Float(t),
                    ) && t@ == text) && text.contains('.'))
                    &&& (ts@[0].kind == TokenKind::Int || ts@[0].kind == TokenKind::Float)
                },
                Ok(None) => false,
                Err(e) => e == LexError::MalformedNumberLiteral(
                    SourceLocation { line: old(self).line },
                ),
            },
            final(self).current == number_step(old(self).source@, old(self).start as int).0,
            r is Err <==> number_step(old(self).source@, old(self).start as int).1 is Some,
    {
        while self.peek_is_digit()
            invariant
                self.inv(),
                old(self).current <= self.current,
                self.same_but_position(old(self)),
                forall|i: int| old(self).start <= i < self.current ==> spec_is_digit(self.source@[i]),
                forall|i: int| old(self).current <= i < self.current ==> self.source@[i] != '\n',
            decreases self.source@.len() - self.current,
        {
            self.advance();
        }
        let digits_end = self.current;
        proof {
            lemma_class_end(self.source@, self.start as int, self.current as int, CharClass::Digit);
        }
        let mut is_float = false;
        if self.peek() == Some('.') {
            self.advance();
            if !self.peek_is_digit() {
                return Err(LexError::MalformedNumberLiteral(SourceLocation { line: self.line }));
            }
            is_float = true;
            while self.peek_is_digit()
                invariant
                    self.inv(),
                    old(self).current <= self.current,
                    self.same_but_position(old(self)),
                    digits_end < self.current,
                    self.source@[digits_end as int] == '.',
                    old(self).start <= digits_end,
                    forall|i: int| old(self).current <= i < self.current ==> self.source@[i] != '\n',
                    forall|i: int| digits_end + 1 <= i < self.current ==> spec_is_digit(self.source@[i]),
                decreases self.source@.len() - self.current,
            {
                self.advance();
            }
            proof {
                lemma_class_end(
                    self.source@,
                    digits_end + 1,
                    self.current as int,
                    CharClass::Digit,
                );
            }
        }
        let lexeme = self.current_lexeme();
        if is_float {
            proof {
                let text = self.source@.subrange(self.start as int, self.current as int);
                assert(text[digits_end - self.start] == '.');
            }
            let token = Token::with_literal(
                TokenKind::Float,
                lexeme.as_str(),
                Literal::Float(lexeme.clone()),
                self.line,
            );
            return Ok(Some(vec![token]));
        }
        let ghost text = self.source@.subrange(self.start as int, self.current as int);
        let mut value: i64 = 0;
        let mut i = self.start;
        while i < self.current
            invariant
                self.inv(),
                self.same_but_position(old(self)),
                old(self).current <= self.current,
                self.current == self.source@.len() || !spec_is_digit(self.source@[self.current as int]),
                self.start <= i <= self.current,
                self.current == digits_end,
                self.current == class_end(self.source@, self.start as int, CharClass::Digit),
                self.current == self.source@.len() || self.source@[self.current as int] != '.',
                text == self.source@.subrange(self.start as int, self.current as int),
                forall|j: int| self.start <= j < self.current ==> spec_is_digit(self.source@[j]),
                value == decimal_value(self.source@.subrange(self.start as int, i as int)),
                forall|i: int| old(self).current <= i < self.current ==> self.source@[i] != '\n',
            decreases self.current - i,
        {
            let d = (self.source[i] as u32 - '0' as u32) as i64;
            assert(self.source@.subrange(self.start as int, i + 1).drop_last()
                =~= self.source@.subrange(self.start as int, i as int));
            if value > (i64::MAX - d) / 10 {
                proof {
                    lemma_decimal_value_grows(text, (i - self.start + 1) as nat);
                    assert(text.take((i - self.start + 1) as int)
                        =~= self.source@.subrange(self.start as int, i + 1));
                    let pre = self.source@.subrange(self.start as int, i + 1);
                    assert(pre.drop_last() =~= self.source@.subrange(self.start as int, i as int));
                    assert(pre.last() == self.source@[i as int]);
                    assert(value * 10 + d > i64::MAX) by (nonlinear_arith)
                        requires
                            value > (i64::MAX - d) / 10,
                            0 <= d <= 9,
                    ;
                    assert(decimal_value(pre) == value * 10 + d);
                    assert(decimal_value(text) > i64::MAX);
                }
                return Err(LexError::MalformedNumberLiteral(SourceLocation { line: self.line }));
            }
            value = value * 10 + d;
            i += 1;
        }
        proof {
            assert(all_chars(text, |c: char| spec_is_digit(c))) by {
                assert forall|j: int| 0 <= j < text.len() implies spec_is_digit(#[trigger] text[j]) by {
                    assert(text[j] == self.source@[self.start + j]);
                }
            }
        }
        let token = Token::with_literal(
            TokenKind::Int,
            lexeme.as_str(),
            Literal::Int(value),
            self.line,
        );
        Ok(Some(vec![token]))
    }
}

impl Lexer {
    /// Reads the rest of an identifier or keyword.
    fn scan_indentifier(&mut self) -> (r: Result<Option<Vec<Token>>, LexError>)
        requires
            old(self).inv(),
            old(self).start < old(self).current,
        ensures
            final(self).inv(),
            final(self).source == old(self).source,
            final(self).start == old(self).start,
            final(self).line == old(self).line,
            final(self).indent_levels == old(self).indent_levels,
            final(self).using_tabs == old(self).using_tabs,
            old(self).current <= final(self).current,
            forall|i: int|
                old(self).current <= i < final(self).current ==> spec_is_alpha_numeric(
                    old(self).source@[i],
                ),
            final(self).current == old(self).source@.len() || !spec_is_alpha_numeric(
                old(self).source@[final(self).current as int],
            ),
            match r {
                Ok(Some(ts)) => {
                    let text = old(self).source@.subrange(
                        old(self).start as int,
                        final(self).current as int,
                    );
                    &&& ts@.len() == 1
                    &&& ts@[0].lexeme@ == text
                    &&& ts@[0].literal is None
                    &&& ts@[0].line == old(self).line
                    &&& ts@[0].kind == match spec_keyword(text) {
                        Some(k) => k,
                        None => TokenKind::Identifier,
                    }
                },
                _ => false,
            },
    {
        while self.peek().is_some() && self.is_alpha_numeric(self.peek().unwrap())
            invariant
                self.inv(),
                old(self).current <= self.current,
                self.same_but_position(old(self)),
                forall|i: int|
                    old(self).current <= i < self.current ==> spec_is_alpha_numeric(
                        self.source@[i],
                    ),
            decreases self.source@.len() - self.current,
        {
            self.advance();
        }
        let lexeme = self.current_lexeme();
        let kind = match self.lookup_keyword(&lexeme) {
            Some(k) => k,
            None => TokenKind::Identifier,
        };
        Ok(Some(vec![Token::new(kind, lexeme.as_str(), self.line)]))
    }

    /// Skips the spaces and tabs at the current position; yields how many of
    /// each there were.
    fn consume_spaces_and_tabs(&mut self) -> (r: (usize, usize))
        requires
            old(self).inv(),
        ensures
            final(self).inv(),
            final(self).same_but_position(old(self)),
            old(self).current <= final(self).current,
            forall|i: int|
                old(self).current <= i < final(self).current ==> old(self).source@[i] == ' '
                    || old(self).source@[i] == '\t',
            final(self).current == old(self).source@.len() || (old(self).source@[final(self).current as int] != ' ' && old(self).source@[final(self).current as int] != '\t'),
            r.0 == count_char(
                old(self).source@.subrange(old(self).current as int, final(self).current as int),
                ' ',
            ),
            r.1 == count_char(
                old(self).source@.subrange(old(self).current as int, final(self).current as int),
                '\t',
            ),
    {
        let mut num_spaces: usize = 0;
        let mut num_tabs: usize = 0;
        loop
            invariant
                self.inv(),
                self.same_but_position(old(self)),
                old(self).current <= self.current,
                forall|i: int|
                    old(self).current <= i < self.current ==> self.source@[i] == ' '
                        || self.source@[i] == '\t',
                num_spaces == count_char(
                    self.source@.subrange(old(self).current as int, self.current as int),
                    ' ',
                ),
                num_tabs == count_char(
                    self.source@.subrange(old(self).current as int, self.current as int),
                    '\t',
                ),
                num_spaces + num_tabs == self.current - old(self).current,
            ensures
                self.inv(),
                self.same_but_position(old(self)),
                old(self).current <= self.current,
                forall|i: int|
                    old(self).current <= i < self.current ==> self.source@[i] == ' '
                        || self.source@[i] == '\t',
                self.current == self.source@.len() || (self.source@[self.current as int] != ' '
                    && self.source@[self.current as int] != '\t'),
                num_spaces == count_char(
                    self.source@.subrange(old(self).current as int, self.current as int),
                    ' ',
                ),
                num_tabs == count_char(
                    self.source@.subrange(old(self).current as int, self.current as int),
                    '\t',
                ),
            decreases self.source@.len() - self.current,
        {
            let ghost before = self.current;
            match self.peek() {
                Some(' ') => {
                    self.advance();
                    num_spaces += 1;
                },
                Some('\t') => {
                    self.advance();
                    num_tabs += 1;
                },
                _ => break,
            }
            assert(self.source@.subrange(old(self).current as int, self.current as int).drop_last()
                =~= self.source@.subrange(old(self).current as int, before as int));
        }
        (num_spaces, num_tabs)
    }

    /// Checks that a line's indentation uses only spaces or only tabs, and
    /// the same as the lines before it; the first indented line decides.
    fn validate_whitespace_style(&mut self, spaces: usize, tabs: usize) -> (r: Result<(), LexError>)
        requires
            old(self).inv(),
        ensures
            final(self).inv(),
            final(self).source == old(self).source,
            final(self).start == old(self).start,
            final(self).current == old(self).current,
            final(self).line == old(self).line,
            final(self).indent_levels == old(self).indent_levels,
            ({
                let mixed_on_line = spaces > 0 && tabs > 0;
                let mismatch_with_file = match old(self).using_tabs {
                    Some(true) => spaces > 0,
                    Some(false) => tabs > 0,
                    None => false,
                };
                if mixed_on_line || mismatch_with_file {
                    &&& r matches Err(e) && e == LexError::TabError(
                        SourceLocation { line: old(self).line },
                        e->TabError_1,
                    ) && e->TabError_1@ == mixed_indentation_message()
                    &&& final(self).using_tabs == old(self).using_tabs
                } else {
                    &&& r is Ok
                    &&& final(self).using_tabs == if old(self).using_tabs is None && (spaces > 0
                        || tabs > 0) {
                        Some(tabs > 0)
                    } else {
                        old(self).using_tabs
                    }
                }
            }),
    {
        let mixed_on_line = spaces > 0 && tabs > 0;
        let mismatch_with_file = match self.using_tabs {
            Some(true) => spaces > 0,
            Some(false) => tabs > 0,
            None => false,
        };
        if mixed_on_line || mismatch_with_file {
            return Err(
                LexError::TabError(
                    SourceLocation { line: self.line },
                    String::from_str("mixed spaces and tabs for indentation."),
                ),
            );
        }
        if self.using_tabs.is_none() && (spaces > 0 || tabs > 0) {
            self.using_tabs = Some(tabs > 0);
        }
        Ok(())
    }

    /// Closes the blocks indented deeper than `current_level`, appending a
    /// `Dedent` token for each; an error when the level reached is not the
    /// level of an enclosing block (nor the outermost).
    fn handle_dedents(&mut self, current_level: usize, tokens: &mut Vec<Token>) -> (r: Result<
        (),
        LexError,
    >)
        requires
            old(self).inv(),
        ensures
            final(self).inv(),
            final(self).source == old(self).source,
            final(self).start == old(self).start,
            final(self).current == old(self).current,
            final(self).line == old(self).line,
            final(self).using_tabs == old(self).using_tabs,
            ({
                let k = levels_above(old(self).indent_levels@, current_level);
                let kept = old(self).indent_levels@.take(old(self).indent_levels@.len() - k);
                &&& k <= old(self).indent_levels@.len()
                &&& final(self).indent_levels@ == kept
                &&& final(tokens)@.len() == old(tokens)@.len() + k
                &&& final(tokens)@.take(old(tokens)@.len() as int) == old(tokens)@
                &&& all_dedents(final(tokens)@, old(tokens)@.len() as int, old(self).line)
                &&& if kept.len() == 0 || kept.last() == current_level {
                    r is Ok
                } else {
                    r matches Err(e) && e == LexError::IndentationError(
                        SourceLocation { line: old(self).line },
                        e->IndentationError_1,
                    ) && e->IndentationError_1@ == unindent_message()
                }
            }),
    {
        let ghost levels0 = self.indent_levels@;
        let ghost tokens0 = tokens@;
        loop
            invariant
                self.inv(),
                self.source == old(self).source,
                self.start == old(self).start,
                self.current == old(self).current,
                self.line == old(self).line,
                self.using_tabs == old(self).using_tabs,
                levels0 == old(self).indent_levels@,
                tokens0 == old(tokens)@,
                self.indent_levels@.len() <= levels0.len(),
                self.indent_levels@ == levels0.take(self.indent_levels@.len() as int),
                levels_above(levels0, current_level) == levels_above(
                    self.indent_levels@,
                    current_level,
                ) + (levels0.len() - self.indent_levels@.len()),
                tokens@.len() == tokens0.len() + (levels0.len() - self.indent_levels@.len()),
                tokens@.take(tokens0.len() as int) == tokens0,
                all_dedents(tokens@, tokens0.len() as int, self.line),
            ensures
                self.indent_levels@.len() == 0,
            decreases self.indent_levels@.len(),
        {
            let n = self.indent_levels.len();
            if n == 0 {
                proof {
                    assert(levels0.take(0) =~= self.indent_levels@);
                }
                break;
            }
            let last_level = self.indent_levels[n - 1];
            if last_level == current_level {
                return Ok(());
            }
            if current_level > last_level {
                return Err(
                    LexError::IndentationError(
                        SourceLocation { line: self.line },
                        String::from_str("unindent does not match any outer indentation level."),
                    ),
                );
            }
            let ghost before = self.indent_levels@;
            let ghost tokens_before = tokens@;
            self.indent_levels.pop();
            tokens.push(Token::new(TokenKind::Dedent, "", self.line));
            proof {
                reveal_strlit("");
                assert forall|i: int| tokens0.len() <= i < tokens@.len() implies {
                    &&& (#[trigger] tokens@[i]).kind == TokenKind::Dedent
                    &&& tokens@[i].lexeme@ == Seq::<char>::empty()
                    &&& tokens@[i].literal is None
                    &&& tokens@[i].line == self.line
                } by {
                    if i < tokens@.len() - 1 {
                        assert(tokens@[i] == tokens_before[i]);
                    } else {
                        assert(""@ =~= Seq::<char>::empty());
                    }
                }
                assert(self.indent_levels@ =~= before.drop_last());
                assert(self.indent_levels@ =~= levels0.take(self.indent_levels@.len() as int));
                assert(tokens@.take(tokens0.len() as int) =~= tokens_before.take(tokens0.len() as int));
                assert(levels_ok(self.indent_levels@));
            }
        }
        proof {
            assert(levels0.take(0) =~= self.indent_levels@);
        }
        Ok(())
    }
}

/// Tokens of kind `k` only: the count of `k` is their number, and no other
/// kind occurs.
pub proof fn lemma_count_uniform(ts: Seq<Token>, k: TokenKind, other: TokenKind)
    requires
        forall|i: int| 0 <= i < ts.len() ==> (#[trigger] ts[i]).kind == k,
        other != k,
    ensures
        count_kind(ts, k) == ts.len(),
        count_kind(ts, other) == 0,
    decreases ts.len(),
{
    if ts.len() > 0 {
        lemma_count_uniform(ts.drop_last(), k, other);
    }
}

/// The indentation width that the current line's whitespace gives, for
/// `spaces` spaces and `tabs` tabs under the style `using_tabs`.
pub open spec fn indent_width(spaces: usize, tabs: usize, using_tabs: Option<bool>) -> usize {
    if using_tabs == Some(true) { tabs } else { spaces }
}

/// The tokens appended to `old_tokens` to reach `new_tokens` are all
/// `Indent` or `Dedent` tokens at `line`, they change the nesting by as much
/// as the level stack changed, and the stack stays well formed.
pub open spec fn indentation_group(
    old_tokens: Seq<Token>,
    new_tokens: Seq<Token>,
    old_levels: Seq<usize>,
    new_levels: Seq<usize>,
    line: usize,
) -> bool {
    let added = new_tokens.skip(old_tokens.len() as int);
    &&& old_tokens.len() <= new_tokens.len()
    &&& new_tokens.take(old_tokens.len() as int) == old_tokens
    &&& forall|i: int|
        0 <= i < added.len() ==> {
            &&& ((#[trigger] added[i]).kind == TokenKind::Indent || added[i].kind == TokenKind::Dedent)
            &&& added[i].line == line
        }
    &&& count_kind(added, TokenKind::Indent) + old_levels.len() == count_kind(
        added,
        TokenKind::Dedent,
    ) + new_levels.len()
}

impl Lexer {
    /// Measures the indentation at the start of a line and emits the
    /// `Indent` or `Dedent` tokens that it calls for.
    fn scan_indentation(&mut self, generated_tokens: &mut Vec<Token>) -> (r: Result<(), LexError>)
        requires
            old(self).inv(),
        ensures
            final(self).inv(),
            final(self).source == old(self).source,
            final(self).start == old(self).start,
            final(self).line == old(self).line,
            old(self).current <= final(self).current,
            forall|i: int|
                old(self).current <= i < final(self).current ==> old(self).source@[i] == ' '
                    || old(self).source@[i] == '\t',
            final(self).current == old(self).source@.len() || (old(self).source@[final(self).current as int] != ' '
                && old(self).source@[final(self).current as int] != '\t'),
            ({
                let ws = old(self).source@.subrange(
                    old(self).current as int,
                    final(self).current as int,
                );
                let spaces = count_char(ws, ' ');
                let tabs = count_char(ws, '\t');
                let level = indent_width(spaces as usize, tabs as usize, final(self).using_tabs);
                let levels = old(self).indent_levels@;
                let last_level = if levels.len() == 0 { 0 } else { levels.last() };
                match r {
                    Err(LexError::TabError(l, m)) => {
                        &&& l.line == old(self).line
                        &&& m@ == mixed_indentation_message()
                        &&& final(self).indent_levels == old(self).indent_levels
                        &&& final(self).using_tabs == old(self).using_tabs
                    },
                    _ => {
                        &&& final(self).using_tabs == if old(self).using_tabs is None && (spaces > 0
                            || tabs > 0) {
                            Some(tabs > 0)
                        } else {
                            old(self).using_tabs
                        }
                        &&& (level == last_level ==> r is Ok && final(self).indent_levels@
                            == levels && final(generated_tokens)@ == old(generated_tokens)@)
                        &&& (level > last_level ==> r is Ok && final(self).indent_levels@
                            == levels.push(level) && final(generated_tokens)@.len() == old(
                            generated_tokens,
                        )@.len() + 1 && final(generated_tokens)@.last().kind
                            == TokenKind::Indent)
                        &&& (level < last_level ==> {
                            let k = levels_above(levels, level);
                            let kept = levels.take(levels.len() - k);
                            &&& final(self).indent_levels@ == kept
                            &&& final(generated_tokens)@.len() == old(generated_tokens)@.len() + k
                            &&& all_dedents(
                                final(generated_tokens)@,
                                old(generated_tokens)@.len() as int,
                                old(self).line,
                            )
                            &&& if kept.len() == 0 || kept.last() == level {
                                r is Ok
                            } else {
                                r matches Err(e) && e == LexError::IndentationError(
                                    SourceLocation { line: old(self).line },
                                    e->IndentationError_1,
                                ) && e->IndentationError_1@ == unindent_message()
                            }
                        })
                    },
                }
            }),
            r is Ok ==> indentation_group(
                old(generated_tokens)@,
                final(generated_tokens)@,
                old(self).indent_levels@,
                final(self).indent_levels@,
                old(self).line,
            ),
            r is Err ==> final(self).indent_levels@.len() <= old(self).indent_levels@.len(),
            r is Err ==> final(self).indent_levels@ == old(self).indent_levels@.take(
                final(self).indent_levels@.len() as int,
            ),
            ({
                let st = indentation_step(
                    old(self).source@,
                    old(self).current as int,
                    old(self).indent_levels@,
                    old(self).using_tabs,
                );
                &&& final(self).current == st.0
                &&& final(self).indent_levels@ == st.1
                &&& final(self).using_tabs == st.2
                &&& match r {
                    Ok(_) => st.3 is None,
                    Err(e) => st.3 matches Some(f) && lex_error_is(e, old(self).line as int, f),
                }
            }),
            r is Ok ==> shapes(final(generated_tokens)@.skip(old(generated_tokens)@.len() as int))
                == if final(self).indent_levels@.len() > old(self).indent_levels@.len() {
                seq![(TokenKind::Indent, Seq::<char>::empty(), old(self).line as int)]
            } else {
                dedent_shapes(
                    (old(self).indent_levels@.len() - final(self).indent_levels@.len()) as nat,
                    old(self).line as int,
                )
            },
    {
        let (num_spaces, num_tabs) = self.consume_spaces_and_tabs();
        proof {
            let ws = self.source@.subrange(old(self).current as int, self.current as int);
            lemma_count_char_le(ws, ' ');
            lemma_count_char_le(ws, '\t');
            lemma_class_end(
                self.source@,
                old(self).current as int,
                self.current as int,
                CharClass::SpaceOrTab,
            );
            reveal(indentation_step);
        }
        match self.validate_whitespace_style(num_spaces, num_tabs) {
            Ok(()) => {},
            Err(e) => {
                return Err(e);
            },
        }
        let current_level = if self.using_tabs == Some(true) {
            num_tabs
        } else {
            num_spaces
        };
        let n = self.indent_levels.len();
        let last_level = if n == 0 {
            0
        } else {
            self.indent_levels[n - 1]
        };
        let ghost tokens0 = generated_tokens@;
        if current_level == last_level {
            proof {
                assert(generated_tokens@.skip(tokens0.len() as int) =~= Seq::<Token>::empty());
                assert(generated_tokens@.take(tokens0.len() as int) =~= tokens0);
                assert(shapes(Seq::<Token>::empty()) =~= dedent_shapes(0, self.line as int));
            }
            Ok(())
        } else if current_level > last_level {
            self.indent_levels.push(current_level);
            generated_tokens.push(Token::new(TokenKind::Indent, "", self.line));
            proof {
                let added = generated_tokens@.skip(tokens0.len() as int);
                assert(added =~= seq![generated_tokens@.last()]);
                assert(generated_tokens@.take(tokens0.len() as int) =~= tokens0);
                assert(added[0].kind == TokenKind::Indent);
                lemma_count_uniform(added, TokenKind::Indent, TokenKind::Dedent);
                assert(levels_ok(self.indent_levels@));
                reveal_strlit("");
                assert(""@ =~= Seq::<char>::empty());
                assert(added[0].lexeme@ == Seq::<char>::empty());
                assert(shapes(added) =~= seq![(TokenKind::Indent, Seq::<char>::empty(), self.line as int)]);
            }
            Ok(())
        } else {
            let r = self.handle_dedents(current_level, generated_tokens);
            proof {
                let added = generated_tokens@.skip(tokens0.len() as int);
                assert forall|i: int| 0 <= i < added.len() implies (#[trigger] added[i]).kind
                    == TokenKind::Dedent by {
                    assert(added[i] == generated_tokens@[tokens0.len() + i]);
                }
                lemma_count_uniform(added, TokenKind::Dedent, TokenKind::Indent);
                assert forall|i: int| 0 <= i < added.len() implies {
                    &&& ((#[trigger] added[i]).kind == TokenKind::Indent || added[i].kind
                        == TokenKind::Dedent)
                    &&& added[i].line == old(self).line
                } by {
                    assert(added[i] == generated_tokens@[tokens0.len() + i]);
                }
                assert(shapes(added) =~= dedent_shapes(added.len(), old(self).line as int)) by {
                    assert forall|i: int| 0 <= i < added.len() implies shapes(added)[i]
                        == dedent_shapes(added.len(), old(self).line as int)[i] by {
                        assert(added[i] == generated_tokens@[tokens0.len() + i]);
                    }
                }
            }
            r
        }
    }
}

/// Counting in a single token.
pub proof fn lemma_count_single(ts: Seq<Token>, k: TokenKind)
    requires
        ts.len() == 1,
    ensures
        count_kind(ts, k) == if ts[0].kind == k { 1nat } else { 0nat },
{
    reveal_with_fuel(count_kind, 2);
    assert(ts.drop_last() =~= Seq::<Token>::empty());
}

/// A single token of kind `k` at line `line` is a group that leaves the
/// nesting alone.
pub proof fn lemma_single_token_group(ts: Seq<Token>, line: usize)
    requires
        ts.len() == 1,
        ts[0].line == line,
        ts[0].kind != TokenKind::Eof,
        ts[0].kind != TokenKind::Indent,
        ts[0].kind != TokenKind::Dedent,
    ensures
        group_lines(ts, line, line),
        count_kind(ts, TokenKind::Indent) == 0,
        count_kind(ts, TokenKind::Dedent) == 0,
{
    lemma_count_single(ts, TokenKind::Indent);
    lemma_count_single(ts, TokenKind::Dedent);
}

/// The facts about a group of tokens that the whole-input laws rest on:
/// no end marker, lines between `first` and `last` in order.
pub open spec fn group_lines(ts: Seq<Token>, first: usize, last: usize) -> bool {
    &&& no_eof(ts)
    &&& lines_nondecreasing(ts)
    &&& forall|i: int| 0 <= i < ts.len() ==> first <= (#[trigger] ts[i]).line <= last
}

impl Lexer {
    /// Reads the group of tokens that starts at the current character: a
    /// newline with the indentation tokens of the next line, a single token,
    /// or nothing for whitespace and comments.
    #[verifier::rlimit(40)]
    fn next_token_group(&mut self) -> (r: Result<Option<Vec<Token>>, LexError>)
        requires
            old(self).inv(),
            old(self).start == old(self).current,
            old(self).current < old(self).source@.len(),
            old(self).line < usize::MAX,
        ensures
            final(self).inv(),
            final(self).source == old(self).source,
            final(self).start == old(self).start,
            old(self).current < final(self).current,
            ({
                let c = old(self).source@[old(self).current as int];
                let next = if old(self).current + 1 < old(self).source@.len() {
                    Some(old(self).source@[old(self).current + 1])
                } else {
                    None::<char>
                };
                &&& final(self).line == old(self).line + if c == '\n' { 1nat } else { 0nat }
                &&& (c != '\n' ==> final(self).indent_levels == old(self).indent_levels)
                &&& (c == '\n' ==> (r matches Ok(Some(ts)) ==> ts@.len() >= 1 && ts@[0].kind
                    == TokenKind::NewLine && ts@[0].line == old(self).line))
                &&& (c == ' ' || c == '\t' || c == '\r' || c == '#' ==> r
                    == Ok::<Option<Vec<Token>>, LexError>(None))
                &&& (spec_operator(c, next) matches Some((k, n)) ==> {
                    &&& final(self).current == old(self).current + n
                    &&& r matches Ok(Some(ts)) && ts@.len() == 1 && ts@[0].kind == k
                        && ts@[0].lexeme@ == old(self).source@.subrange(
                        old(self).current as int,
                        old(self).current + n,
                    ) && ts@[0].literal is None && ts@[0].line == old(self).line
                })
                &&& (c == '!' && next != Some('=') ==> r == Err::<Option<Vec<Token>>, LexError>(
                    LexError::UnexpectedCharacter(SourceLocation { line: old(self).line }, c),
                ) && final(self).current == old(self).current + 1)
                &&& (c == '"' || c == '\'' ==> (r matches Ok(Some(ts)) ==> ts@.len() == 1
                    && ts@[0].kind == TokenKind::String))
                &&& (spec_is_digit(c) ==> (r matches Ok(Some(ts)) ==> ts@.len() == 1 && (
                ts@[0].kind == TokenKind::Int || ts@[0].kind == TokenKind::Float)))
                &&& (spec_is_alpha(c) ==> (r matches Ok(Some(ts)) && ts@.len() == 1 && ts@[0].kind
                    == match spec_keyword(ts@[0].lexeme@) {
                    Some(k) => k,
                    None => TokenKind::Identifier,
                }))
                &&& (!(c == '\n' || c == ' ' || c == '\t' || c == '\r' || c == '#' || c == '"'
                    || c == '\'' || c == '!' || spec_is_digit(c) || spec_is_alpha(c)
                    || spec_operator(c, next) is Some) ==> r == Err::<Option<Vec<Token>>, LexError>(
                    LexError::UnexpectedCharacter(SourceLocation { line: old(self).line }, c),
                ) && final(self).current == old(self).current + 1)
            }),
            ({
                let st = group_step(
                    old(self).source@,
                    old(self).current as int,
                    old(self).indent_levels@,
                    old(self).using_tabs,
                );
                let fault_line = if old(self).source@[old(self).current as int] == '\n' {
                    old(self).line + 1
                } else {
                    old(self).line as int
                };
                &&& final(self).current == st.0
                &&& final(self).indent_levels@ == st.1
                &&& final(self).using_tabs == st.2
                &&& match r {
                    Ok(_) => st.3 is None,
                    Err(e) => st.3 matches Some(f) && lex_error_is(e, fault_line, f),
                }
            }),
            shapes(
                match r {
                    Ok(Some(ts)) => ts@,
                    _ => Seq::<Token>::empty(),
                },
            ) == group_shapes(
                old(self).source@,
                old(self).current as int,
                old(self).line as int,
                old(self).indent_levels@,
                old(self).using_tabs,
            ),
            final(self).line <= old(self).line + (final(self).current - old(self).current),
            match r {
                Ok(Some(ts)) => {
                    &&& ts@.len() >= 1
                    &&& group_lines(ts@, old(self).line, final(self).line)
                    &&& count_kind(ts@, TokenKind::Indent) + old(self).indent_levels@.len()
                        == count_kind(ts@, TokenKind::Dedent) + final(self).indent_levels@.len()
                },
                Ok(None) => final(self).indent_levels == old(self).indent_levels,
                Err(_) => final(self).indent_levels@.len() <= old(self).indent_levels@.len(),
            },
            match r {
                Ok(None) => skippable(
                    old(self).source@.subrange(old(self).current as int, final(self).current as int),
                ),
                Ok(Some(ts)) => if old(self).source@[old(self).current as int] == '\n' {
                    &&& forall|i: int| 0 <= i < ts@.len() ==> !is_text_token(#[trigger] ts@[i])
                    &&& skippable(
                        old(self).source@.subrange(
                            old(self).current as int,
                            final(self).current as int,
                        ),
                    )
                } else {
                    &&& ts@.len() == 1
                    &&& is_text_token(ts@[0])
                    &&& matches_text(ts@[0])
                    &&& ts@[0].lexeme@ == old(self).source@.subrange(
                        old(self).current as int,
                        final(self).current as int,
                    )
                },
                Err(_) => true,
            },
            old(self).source@[old(self).current as int] == '\n' ==> (r matches Ok(Some(ts))
                ==> layout_ok(ts@)),
            forall|i: int|
                old(self).current < i < final(self).current ==> old(self).source@[i] != '\n',
    {
        let c = self.advance().unwrap();
        if c == '\n' {
            let mut generated_tokens = vec![Token::new(TokenKind::NewLine, "\n", self.line)];
            let ghost first = generated_tokens@;
            self.line += 1;
            let ghost mid = *self;
            let result = self.scan_indentation(&mut generated_tokens);
            proof {
                if result is Ok {
                    let ts = generated_tokens@;
                    let ws = mid.source@.subrange(mid.current as int, self.current as int);
                    let level = indent_width(
                        count_char(ws, ' ') as usize,
                        count_char(ws, '\t') as usize,
                        self.using_tabs,
                    );
                    let levels = mid.indent_levels@;
                    let last_level = if levels.len() == 0 {
                        0
                    } else {
                        levels.last()
                    };
                    assert(ts.len() == 1 || (ts.len() == 2 && ts[1].kind == TokenKind::Indent)
                        || all_dedents(ts, 1, mid.line));
                    lemma_newline_group_layout(ts, mid.line);
                }
                if result is Ok {
                    let ts = generated_tokens@;
                    let added = ts.skip(1);
                    assert(ts =~= first + added);
                    let nl = seq![(TokenKind::NewLine, "\n"@, old(self).line as int)];
                    assert(shapes(ts) =~= nl + shapes(added)) by {
                        assert forall|i: int| 0 <= i < ts.len() implies shapes(ts)[i] == (nl
                            + shapes(added))[i] by {
                            if i > 0 {
                                assert(ts[i] == added[i - 1]);
                            }
                        }
                    }
                    assert(nl.push((TokenKind::Indent, Seq::<char>::empty(), old(self).line + 1))
                        =~= nl + seq![(TokenKind::Indent, Seq::<char>::empty(), old(self).line + 1)]);
                    lemma_count_kind_append(first, added, TokenKind::Indent);
                    lemma_count_kind_append(first, added, TokenKind::Dedent);
                    lemma_count_single(first, TokenKind::Indent);
                    lemma_count_single(first, TokenKind::Dedent);
                    assert forall|i: int| 0 <= i < ts.len() implies (#[trigger] ts[i]).kind
                        != TokenKind::Eof && old(self).line <= ts[i].line <= self.line by {
                        if i > 0 {
                            assert(ts[i] == added[i - 1]);
                        }
                    }
                    assert forall|i: int, j: int| 0 <= i <= j < ts.len() implies ts[i].line
                        <= ts[j].line by {
                        if i > 0 {
                            assert(ts[i] == added[i - 1]);
                        }
                        if j > 0 {
                            assert(ts[j] == added[j - 1]);
                        }
                    }
                }
            }
            proof {
                reveal(group_step);
                reveal(group_shapes);
            }
            return match result {
                Ok(()) => Ok(Some(generated_tokens)),
                Err(e) => Err(e),
            };
        }
        if c == ' ' || c == '\t' || c == '\r' {
            proof {
                reveal(group_step);
                reveal(group_shapes);
            }
            return Ok(None);
        }
        if c == '#' {
            let r = self.scan_comment();
            proof {
                let sub = self.source@.subrange(old(self).current as int, self.current as int);
                assert(sub[0] == '#');
                assert forall|i: int| 0 <= i < sub.len() implies #[trigger] skipped_at(sub, i) by {
                    assert forall|k: int| 0 <= k <= i implies sub[k] != '\n' by {
                        assert(sub[k] == self.source@[old(self).current + k]);
                    }
                    assert(sub[0] == '#');
                }
                lemma_class_end(
                    self.source@,
                    old(self).current + 1,
                    self.current as int,
                    CharClass::NotNewline,
                );
                reveal(group_step);
                reveal(group_shapes);
            }
            return r;
        }
        if c == '"' || c == '\'' {
            let r = self.scan_string_literal(c);
            proof {
                if r is Ok && r->Ok_0 is Some {
                    lemma_single_token_group(r->Ok_0->Some_0@, self.line);
                    let lx = r->Ok_0->Some_0@[0].lexeme@;
                    assert(lx[0] == c);
                    assert(lx.subrange(1, lx.len() - 1) =~= self.source@.subrange(
                        old(self).current + 1,
                        self.current - 1,
                    ));
                }
                if r is Ok {
                    lemma_class_end(
                        self.source@,
                        old(self).current + 1,
                        self.current - 1,
                        CharClass::InString(c),
                    );
                } else {
                    lemma_class_end(
                        self.source@,
                        old(self).current + 1,
                        self.current as int,
                        CharClass::InString(c),
                    );
                }
                reveal(group_step);
                reveal(group_shapes);
            }
            return r;
        }
        if self.is_digit(c) {
            let r = self.scan_number_literal();
            proof {
                if r is Ok && r->Ok_0 is Some {
                    lemma_single_token_group(r->Ok_0->Some_0@, self.line);
                    let t = r->Ok_0->Some_0@[0];
                    let lx = t.lexeme@;
                    assert(lx[0] == c);
                    if t.kind == TokenKind::Int {
                        assert forall|i: int| 0 <= i < lx.len() implies lx[i] != '.' by {
                            assert(spec_is_digit(lx[i]));
                        }
                        assert(!lx.contains('.'));
                    }
                }
                reveal(group_step);
                reveal(group_shapes);
            }
            return r;
        }
        if self.is_alpha(c) {
            let r = self.scan_indentifier();
            proof {
                if r is Ok && r->Ok_0 is Some {
                    lemma_single_token_group(r->Ok_0->Some_0@, self.line);
                }
                lemma_class_end(
                    self.source@,
                    old(self).current + 1,
                    self.current as int,
                    CharClass::AlphaNumeric,
                );
                reveal(group_step);
                reveal(group_shapes);
            }
            return r;
        }
        let kind = if c == '(' {
            TokenKind::LeftParen
        } else if c == ')' {
            TokenKind::RightParen
        } else if c == ':' {
            TokenKind::Colon
        } else if c == ',' {
            TokenKind::Comma
        } else if c == '.' {
            TokenKind::Dot
        } else if c == '~' {
            TokenKind::Tilde
        } else if c == '-' {
            if self.advance_if_match('=') {
                TokenKind::MinusEqual
            } else {
                TokenKind::Minus
            }
        } else if c == '+' {
            if self.advance_if_match('=') {
                TokenKind::PlusEqual
            } else {
                TokenKind::Plus
            }
        } else if c == '/' {
            if self.advance_if_match('=') {
                TokenKind::SlashEqual
            } else {
                TokenKind::Slash
            }
        } else if c == '*' {
            if self.advance_if_match('=') {
                TokenKind::StarEqual
            } else {
                TokenKind::Star
            }
        } else if c == '!' {
            if self.advance_if_match('=') {
                TokenKind::BangEqual
            } else {
                proof {
                    reveal(group_step);
                reveal(group_shapes);
                }
                return Err(
                    LexError::UnexpectedCharacter(SourceLocation { line: self.line }, c),
                );
            }
        } else if c == '=' {
            if self.advance_if_match('=') {
                TokenKind::EqualEqual
            } else {
                TokenKind::Equal
            }
        } else if c == '<' {
            if self.advance_if_match('=') {
                TokenKind::LessEqual
            } else {
                TokenKind::Less
            }
        } else if c == '>' {
            if self.advance_if_match('=') {
                TokenKind::GreaterEqual
            } else {
                TokenKind::Greater
            }
        } else {
            proof {
                reveal(group_step);
                reveal(group_shapes);
            }
            return Err(LexError::UnexpectedCharacter(SourceLocation { line: self.line }, c));
        };
        let lexeme = self.current_lexeme();
        let ts = vec![Token::new(kind, lexeme.as_str(), self.line)];
        proof {
            lemma_single_token_group(ts@, self.line);
            reveal(group_step);
                reveal(group_shapes);
        }
        Ok(Some(ts))
    }
}

/// A token that stands for source text: anything but the line structure
/// tokens `NewLine`, `Indent` and `Dedent`, and the end marker.
pub open spec fn is_text_token(t: Token) -> bool {
    t.kind != TokenKind::NewLine && t.kind != TokenKind::Indent && t.kind != TokenKind::Dedent
        && t.kind != TokenKind::Eof
}

/// The kind of token that the text `t` of a token makes: a word the keyword
/// it spells (an identifier otherwise), a number with a point a `Float` and
/// one without an `Int`, text in quotes a `String`, and an operator the one
/// its characters spell.
pub open spec fn text_kind(t: Seq<char>) -> TokenKind {
    if t.len() == 0 {
        TokenKind::Identifier
    } else if spec_is_alpha(t[0]) {
        match spec_keyword(t) {
            Some(k) => k,
            None => TokenKind::Identifier,
        }
    } else if spec_is_digit(t[0]) {
        if t.contains('.') {
            TokenKind::Float
        } else {
            TokenKind::Int
        }
    } else if t[0] == '"' || t[0] == '\'' {
        TokenKind::String
    } else {
        match spec_operator(t[0], if t.len() > 1 { Some(t[1]) } else { None }) {
            Some((k, _)) => k,
            None => TokenKind::Identifier,
        }
    }
}

/// A text token has the kind that its text makes, and the value its text
/// denotes: a string its text between the quotes, an integer its decimal
/// value, a float its text; other tokens have no value.
pub open spec fn matches_text(t: Token) -> bool {
    &&& t.kind == text_kind(t.lexeme@)
    &&& match t.kind {
        TokenKind::String => t.literal matches Some(Literal::String(v)) && v@
            == t.lexeme@.subrange(1, t.lexeme@.len() - 1),
        TokenKind::Int => t.literal == Some(Literal::Int(decimal_value(t.lexeme@) as i64)),
        TokenKind::Float => t.literal matches Some(Literal::Float(v)) && v@ == t.lexeme@,
        _ => t.literal is None,
    }
}

/// Index `i` of `s` is text that the lexer passes over: a space, a tab,
/// a carriage return, a line end, or part of a comment, which a `#` earlier
/// in `s` opened on the same line.
pub open spec fn skipped_at(s: Seq<char>, i: int) -> bool {
    ||| s[i] == ' '
    ||| s[i] == '\t'
    ||| s[i] == '\r'
    ||| s[i] == '\n'
    ||| exists|j: int|
        0 <= j <= i && (#[trigger] s[j]) == '#' && forall|k: int| j <= k <= i ==> s[k] != '\n'
}

/// All of `s` is text that the lexer passes over.
pub open spec fn skippable(s: Seq<char>) -> bool {
    forall|i: int| 0 <= i < s.len() ==> #[trigger] skipped_at(s, i)
}

/// Where the text before token `k` starts: at the end of token `k - 1`, or
/// at the start of the source.
pub open spec fn gap_start(ends: Seq<int>, k: int) -> int {
    if k == 0 {
        0
    } else {
        ends[k - 1]
    }
}

/// Where the text before token `k` ends: at the start of token `k`, or at
/// `limit` after the last token.
pub open spec fn gap_end(starts: Seq<int>, k: int, limit: int) -> int {
    if k == starts.len() {
        limit
    } else {
        starts[k]
    }
}

/// The tokens `ts` were read from `src` up to index `limit`, token `k` from
/// `starts[k]` up to `ends[k]`: a text token has exactly that source text
/// as its lexeme, and the kind and value it calls for; any other token has
/// an empty span; the spans come in order, and only text that the lexer
/// passes over lies around them.
#[verifier::opaque]
pub open spec fn spans_ok(src: Seq<char>, ts: Seq<Token>, starts: Seq<int>, ends: Seq<int>, limit: int) -> bool {
    &&& starts.len() == ts.len()
    &&& ends.len() == ts.len()
    &&& 0 <= limit <= src.len()
    &&& forall|k: int| 0 <= k < ts.len() ==> 0 <= #[trigger] starts[k] <= ends[k] <= limit
    &&& forall|k: int, l: int| 0 <= k < l < ts.len() ==> #[trigger] ends[k] <= #[trigger] starts[l]
    &&& forall|k: int|
        0 <= k < ts.len() ==> if is_text_token(#[trigger] ts[k]) {
            starts[k] < ends[k] && ts[k].lexeme@ == src.subrange(starts[k], ends[k])
                && matches_text(ts[k])
        } else {
            starts[k] == ends[k]
        }
    &&& forall|k: int|
        0 <= k <= ts.len() ==> skippable(
            src.subrange(#[trigger] gap_start(ends, k), gap_end(starts, k, limit)),
        )
}

/// Each text token of `ts`, read from `starts[k]` in `src`, lies on the
/// line that the line ends before its place give, counting from
/// `first_line`.
#[verifier::opaque]
pub open spec fn lines_ok(src: Seq<char>, ts: Seq<Token>, starts: Seq<int>, first_line: int) -> bool {
    forall|k: int|
        0 <= k < ts.len() && is_text_token(#[trigger] ts[k]) ==> ts[k].line == first_line
            + line_ends_before(src, starts[k])
}

/// A text token on the line of its place keeps the lines right.
proof fn lemma_lines_push_text(
    src: Seq<char>,
    ts: Seq<Token>,
    starts: Seq<int>,
    first_line: int,
    t: Token,
    start: int,
)
    requires
        lines_ok(src, ts, starts, first_line),
        starts.len() == ts.len(),
        t.line == first_line + line_ends_before(src, start),
    ensures
        lines_ok(src, ts.push(t), starts.push(start), first_line),
{
    reveal(lines_ok);
    assert forall|k: int|
        0 <= k < ts.push(t).len() && is_text_token(#[trigger] ts.push(t)[k]) implies ts.push(
        t,
    )[k].line == first_line + line_ends_before(src, starts.push(start)[k]) by {
        if k < ts.len() {
            assert(ts.push(t)[k] == ts[k]);
            assert(starts.push(start)[k] == starts[k]);
        }
    }
}

/// Tokens that stand for no text keep the lines right, wherever placed.
proof fn lemma_lines_push_layouts(
    src: Seq<char>,
    ts: Seq<Token>,
    starts: Seq<int>,
    first_line: int,
    group: Seq<Token>,
    added: Seq<int>,
)
    requires
        lines_ok(src, ts, starts, first_line),
        starts.len() == ts.len(),
        added.len() == group.len(),
        forall|i: int| 0 <= i < group.len() ==> !is_text_token(#[trigger] group[i]),
    ensures
        lines_ok(src, ts + group, starts + added, first_line),
{
    reveal(lines_ok);
    assert forall|k: int|
        0 <= k < (ts + group).len() && is_text_token(#[trigger] (ts + group)[k]) implies (ts
        + group)[k].line == first_line + line_ends_before(src, (starts + added)[k]) by {
        if k < ts.len() {
            assert((ts + group)[k] == ts[k]);
            assert((starts + added)[k] == starts[k]);
        } else {
            assert((ts + group)[k] == group[k - ts.len()]);
        }
    }
}

/// One group read from `cur0` up to `now` keeps the tokens tied to the
/// source: their spans and their lines, with the places of the group's tokens
/// added to `starts` and `ends`.
proof fn lemma_group_reads(
    src: Seq<char>,
    before: Seq<Token>,
    group: Seq<Token>,
    starts: Seq<int>,
    ends: Seq<int>,
    first_line: int,
    cur0: int,
    now: int,
) -> (r: (Seq<int>, Seq<int>))
    requires
        spans_ok(src, before, starts, ends, cur0),
        lines_ok(src, before, starts, first_line),
        starts.len() == before.len(),
        0 <= cur0 < now <= src.len(),
        if src[cur0] == '\n' {
            &&& forall|i: int| 0 <= i < group.len() ==> !is_text_token(#[trigger] group[i])
            &&& skippable(src.subrange(cur0, now))
        } else {
            &&& group.len() == 1
            &&& is_text_token(group[0])
            &&& matches_text(group[0])
            &&& group[0].lexeme@ == src.subrange(cur0, now)
            &&& group[0].line == first_line + line_ends_before(src, cur0)
        },
    ensures
        spans_ok(src, before + group, r.0, r.1, now),
        lines_ok(src, before + group, r.0, first_line),
        r.0.len() == (before + group).len(),
{
    if src[cur0] == '\n' {
        lemma_spans_extend_gap(src, before, starts, ends, cur0, now);
        lemma_spans_push_layouts(src, before, starts, ends, now, group);
        let added = Seq::new(group.len(), |i: int| now);
        lemma_lines_push_layouts(src, before, starts, first_line, group, added);
        (starts + added, ends + added)
    } else {
        lemma_spans_push_text(src, before, starts, ends, cur0, group[0], now);
        lemma_lines_push_text(src, before, starts, first_line, group[0], cur0);
        assert(before.push(group[0]) =~= before + group);
        (starts.push(cur0), ends.push(now))
    }
}

/// The tokens `ts` were read from all of `src`: each text token's lexeme is
/// the source text at its place, in order, with the kind and value that the
/// text calls for, on the line that the line ends before its place give
/// (counting from `first_line`), and only spaces, tabs, carriage returns,
/// line ends and comments lie around them.
#[verifier::opaque]
pub open spec fn reads_source(src: Seq<char>, ts: Seq<Token>, first_line: int) -> bool {
    exists|starts: Seq<int>, ends: Seq<int>|
        spans_ok(src, ts, starts, ends, src.len() as int) && lines_ok(src, ts, starts, first_line)
}

/// Text passed over, followed by more, is passed over.
pub proof fn lemma_skippable_concat(s: Seq<char>, a: int, b: int, c: int)
    requires
        0 <= a <= b <= c <= s.len(),
        skippable(s.subrange(a, b)),
        skippable(s.subrange(b, c)),
    ensures
        skippable(s.subrange(a, c)),
{
    let x = s.subrange(a, b);
    let y = s.subrange(b, c);
    let z = s.subrange(a, c);
    assert forall|i: int| 0 <= i < z.len() implies #[trigger] skipped_at(z, i) by {
        if i < x.len() {
            assert(skipped_at(x, i));
            assert(z[i] == x[i]);
            if !(x[i] == ' ' || x[i] == '\t' || x[i] == '\r' || x[i] == '\n') {
                let j = choose|j: int|
                    0 <= j <= i && (#[trigger] x[j]) == '#' && forall|k: int|
                        j <= k <= i ==> x[k] != '\n';
                assert(z[j] == x[j]);
                assert forall|k: int| j <= k <= i implies z[k] != '\n' by {
                    assert(z[k] == x[k]);
                }
            }
        } else {
            let i2 = i - x.len();
            assert(skipped_at(y, i2));
            assert(z[i] == y[i2]);
            if !(y[i2] == ' ' || y[i2] == '\t' || y[i2] == '\r' || y[i2] == '\n') {
                let j = choose|j: int|
                    0 <= j <= i2 && (#[trigger] y[j]) == '#' && forall|k: int|
                        j <= k <= i2 ==> y[k] != '\n';
                assert(z[j + x.len()] == y[j]);
                assert forall|k: int| j + x.len() <= k <= i implies z[k] != '\n' by {
                    assert(z[k] == y[k - x.len()]);
                }
            }
        }
    }
}

/// Reading more text that is passed over keeps the spans of the tokens.
proof fn lemma_spans_extend_gap(src: Seq<char>, ts: Seq<Token>, starts: Seq<int>, ends: Seq<int>, limit: int, new_limit: int)
    requires
        spans_ok(src, ts, starts, ends, limit),
        limit <= new_limit <= src.len(),
        skippable(src.subrange(limit, new_limit)),
    ensures
        spans_ok(src, ts, starts, ends, new_limit),
{
    reveal(spans_ok);
    let n = ts.len() as int;
    assert(skippable(src.subrange(gap_start(ends, n), gap_end(starts, n, limit))));
    if n > 0 {
        let last = n - 1;
        assert(0 <= last < ts.len());
        assert(0 <= starts[last] <= ends[last] <= limit);
    }
    lemma_skippable_concat(src, gap_start(ends, n), limit, new_limit);
    assert forall|k: int| 0 <= k <= ts.len() implies skippable(
        src.subrange(#[trigger] gap_start(ends, k), gap_end(starts, k, new_limit)),
    ) by {
        if k < n {
            assert(gap_end(starts, k, new_limit) == gap_end(starts, k, limit));
        }
    }
}

/// A text token read from `limit` up to `end` extends the spans.
proof fn lemma_spans_push_text(src: Seq<char>, ts: Seq<Token>, starts: Seq<int>, ends: Seq<int>, limit: int, t: Token, end: int)
    requires
        spans_ok(src, ts, starts, ends, limit),
        limit < end <= src.len(),
        is_text_token(t),
        matches_text(t),
        t.lexeme@ == src.subrange(limit, end),
    ensures
        spans_ok(src, ts.push(t), starts.push(limit), ends.push(end), end),
{
    reveal(spans_ok);
    let n = ts.len() as int;
    let ts2 = ts.push(t);
    let s2 = starts.push(limit);
    let e2 = ends.push(end);
    assert forall|k: int| 0 <= k < ts2.len() implies 0 <= #[trigger] s2[k] <= e2[k] <= end by {
        if k < n {
            assert(s2[k] == starts[k] && e2[k] == ends[k]);
            assert(0 <= starts[k] <= ends[k] <= limit);
        }
    }
    assert forall|k: int, l: int| 0 <= k < l < ts2.len() implies #[trigger] e2[k] <= #[trigger] s2[l] by {
        assert(e2[k] == ends[k]);
        assert(0 <= starts[k] <= ends[k] <= limit);
        if l < n {
            assert(s2[l] == starts[l]);
        }
    }
    assert forall|k: int| 0 <= k < ts2.len() implies if is_text_token(#[trigger] ts2[k]) {
        s2[k] < e2[k] && ts2[k].lexeme@ == src.subrange(s2[k], e2[k]) && matches_text(ts2[k])
    } else {
        s2[k] == e2[k]
    } by {
        if k < n {
            assert(ts2[k] == ts[k] && s2[k] == starts[k] && e2[k] == ends[k]);
        }
    }
    assert forall|k: int| 0 <= k <= ts2.len() implies skippable(
        src.subrange(#[trigger] gap_start(e2, k), gap_end(s2, k, end)),
    ) by {
        if k < n {
            assert(gap_start(e2, k) == gap_start(ends, k));
            assert(gap_end(s2, k, end) == gap_end(starts, k, limit));
        } else if k == n {
            assert(gap_start(e2, k) == gap_start(ends, k));
            assert(gap_end(s2, k, end) == gap_end(starts, k, limit));
        } else {
            assert(src.subrange(gap_start(e2, k), gap_end(s2, k, end)) =~= Seq::<char>::empty());
        }
    }
}

/// A token of the line structure, read at `limit`, extends the spans.
proof fn lemma_spans_push_layout(src: Seq<char>, ts: Seq<Token>, starts: Seq<int>, ends: Seq<int>, limit: int, t: Token)
    requires
        spans_ok(src, ts, starts, ends, limit),
        !is_text_token(t),
    ensures
        spans_ok(src, ts.push(t), starts.push(limit), ends.push(limit), limit),
{
    reveal(spans_ok);
    let n = ts.len() as int;
    let ts2 = ts.push(t);
    let s2 = starts.push(limit);
    let e2 = ends.push(limit);
    assert forall|k: int| 0 <= k < ts2.len() implies 0 <= #[trigger] s2[k] <= e2[k] <= limit by {
        if k < n {
            assert(s2[k] == starts[k] && e2[k] == ends[k]);
            assert(0 <= starts[k] <= ends[k] <= limit);
        }
    }
    assert forall|k: int, l: int| 0 <= k < l < ts2.len() implies #[trigger] e2[k] <= #[trigger] s2[l] by {
        assert(e2[k] == ends[k]);
        assert(0 <= starts[k] <= ends[k] <= limit);
        if l < n {
            assert(s2[l] == starts[l]);
        }
    }
    assert forall|k: int| 0 <= k < ts2.len() implies if is_text_token(#[trigger] ts2[k]) {
        s2[k] < e2[k] && ts2[k].lexeme@ == src.subrange(s2[k], e2[k]) && matches_text(ts2[k])
    } else {
        s2[k] == e2[k]
    } by {
        if k < n {
            assert(ts2[k] == ts[k] && s2[k] == starts[k] && e2[k] == ends[k]);
        }
    }
    assert forall|k: int| 0 <= k <= ts2.len() implies skippable(
        src.subrange(#[trigger] gap_start(e2, k), gap_end(s2, k, limit)),
    ) by {
        if k <= n {
            assert(gap_start(e2, k) == gap_start(ends, k));
            assert(gap_end(s2, k, limit) == gap_end(starts, k, limit));
        } else {
            assert(src.subrange(gap_start(e2, k), gap_end(s2, k, limit)) =~= Seq::<char>::empty());
        }
    }
}

/// Tokens of the line structure, all read at `limit`, extend the spans.
proof fn lemma_spans_push_layouts(src: Seq<char>, ts: Seq<Token>, starts: Seq<int>, ends: Seq<int>, limit: int, group: Seq<Token>)
    requires
        spans_ok(src, ts, starts, ends, limit),
        forall|i: int| 0 <= i < group.len() ==> !is_text_token(#[trigger] group[i]),
    ensures
        spans_ok(
            src,
            ts + group,
            starts + Seq::new(group.len(), |i: int| limit),
            ends + Seq::new(group.len(), |i: int| limit),
            limit,
        ),
    decreases group.len(),
{
    if group.len() == 0 {
        assert(ts + group =~= ts);
        assert(starts + Seq::new(group.len(), |i: int| limit) =~= starts);
        assert(ends + Seq::new(group.len(), |i: int| limit) =~= ends);
    } else {
        let front = group.drop_last();
        assert forall|i: int| 0 <= i < front.len() implies !is_text_token(#[trigger] front[i]) by {
            assert(front[i] == group[i]);
        }
        lemma_spans_push_layouts(src, ts, starts, ends, limit, front);
        let s1 = starts + Seq::new(front.len(), |i: int| limit);
        let e1 = ends + Seq::new(front.len(), |i: int| limit);
        assert(!is_text_token(group[group.len() - 1]));
        lemma_spans_push_layout(src, ts + front, s1, e1, limit, group.last());
        assert((ts + front).push(group.last()) =~= ts + group);
        assert(s1.push(limit) =~= starts + Seq::new(group.len(), |i: int| limit));
        assert(e1.push(limit) =~= ends + Seq::new(group.len(), |i: int| limit));
    }
}

/// Tokens of the line structure and the end marker, added after tokens read
/// from `src`, keep them read from `src`.
proof fn lemma_reads_source_extend(src: Seq<char>, ts: Seq<Token>, all: Seq<Token>, first_line: int)
    requires
        reads_source(src, ts, first_line),
        ts.len() <= all.len(),
        forall|j: int| 0 <= j < ts.len() ==> all[j] == #[trigger] ts[j],
        forall|j: int| ts.len() <= j < all.len() ==> !is_text_token(#[trigger] all[j]),
    ensures
        reads_source(src, all, first_line),
{
    reveal(reads_source);
    let (starts, ends) = choose|starts: Seq<int>, ends: Seq<int>|
        spans_ok(src, ts, starts, ends, src.len() as int) && lines_ok(src, ts, starts, first_line);
    let group = all.skip(ts.len() as int);
    assert forall|i: int| 0 <= i < group.len() implies !is_text_token(#[trigger] group[i]) by {
        assert(group[i] == all[ts.len() + i]);
    }
    lemma_spans_push_layouts(src, ts, starts, ends, src.len() as int, group);
    assert(starts.len() == ts.len()) by {
        reveal(spans_ok);
    }
    lemma_lines_push_layouts(
        src,
        ts,
        starts,
        first_line,
        group,
        Seq::new(group.len(), |i: int| src.len() as int),
    );
    assert(ts + group =~= all);
    assert(spans_ok(
        src,
        all,
        starts + Seq::new(group.len(), |i: int| src.len() as int),
        ends + Seq::new(group.len(), |i: int| src.len() as int),
        src.len() as int,
    ));
}

/// The input ends in a newline followed only by `Dedent` tokens before the
/// end marker, which is last.
pub open spec fn ends_with_newline_dedents(ts: Seq<Token>) -> bool {
    exists|k: int|
        0 <= k < ts.len() - 1 && (#[trigger] ts[k]).kind == TokenKind::NewLine && forall|j: int|
            k < j < ts.len() - 1 ==> (#[trigger] ts[j]).kind == TokenKind::Dedent
}

/// Every error recorded after the first `n` is an error of the lexer.
pub open spec fn only_lex_errors_after(errors: Seq<CompilerError>, n: nat) -> bool {
    forall|i: int| n <= i < errors.len() ==> (#[trigger] errors[i]) is Lex
}

/// Appending a group to a token sequence keeps the order of lines and the
/// absence of end markers.
proof fn lemma_append_group(a: Seq<Token>, b: Seq<Token>, first: usize, last: usize)
    requires
        no_eof(a),
        lines_nondecreasing(a),
        forall|i: int| 0 <= i < a.len() ==> (#[trigger] a[i]).line <= first,
        group_lines(b, first, last),
        first <= last,
    ensures
        no_eof(a + b),
        lines_nondecreasing(a + b),
        forall|i: int| 0 <= i < (a + b).len() ==> (#[trigger] (a + b)[i]).line <= last,
{
    let c = a + b;
    assert forall|i: int| 0 <= i < c.len() implies (#[trigger] c[i]).kind != TokenKind::Eof
        && c[i].line <= last by {
        if i >= a.len() {
            assert(c[i] == b[i - a.len()]);
        } else {
            assert(c[i] == a[i]);
        }
    }
    assert forall|i: int, j: int| 0 <= i <= j < c.len() implies c[i].line <= c[j].line by {
        if i >= a.len() {
            assert(c[i] == b[i - a.len()]);
        } else {
            assert(c[i] == a[i]);
        }
        if j >= a.len() {
            assert(c[j] == b[j - a.len()]);
        } else {
            assert(c[j] == a[j]);
        }
    }
}

/// Every `Indent` of `ts` comes right after a line end, and every `Dedent`
/// right after a line end or another `Dedent`.
#[verifier::opaque]
pub open spec fn layout_ok(ts: Seq<Token>) -> bool {
    forall|i: int|
        0 <= i < ts.len() ==> {
            &&& ((#[trigger] ts[i]).kind == TokenKind::Indent ==> 0 < i && ts[i - 1].kind
                == TokenKind::NewLine)
            &&& (ts[i].kind == TokenKind::Dedent ==> 0 < i && (ts[i - 1].kind == TokenKind::NewLine
                || ts[i - 1].kind == TokenKind::Dedent))
        }
}

/// A group that does not begin with an indentation token keeps the layout
/// when appended.
pub proof fn lemma_layout_append(a: Seq<Token>, g: Seq<Token>)
    requires
        layout_ok(a),
        layout_ok(g),
        g.len() > 0 ==> g[0].kind != TokenKind::Indent && g[0].kind != TokenKind::Dedent,
    ensures
        layout_ok(a + g),
{
    reveal(layout_ok);
    let c = a + g;
    assert forall|i: int| 0 <= i < c.len() implies {
        &&& ((#[trigger] c[i]).kind == TokenKind::Indent ==> 0 < i && c[i - 1].kind
            == TokenKind::NewLine)
        &&& (c[i].kind == TokenKind::Dedent ==> 0 < i && (c[i - 1].kind == TokenKind::NewLine
            || c[i - 1].kind == TokenKind::Dedent))
    } by {
        if i < a.len() {
            assert(c[i] == a[i]);
            if i > 0 {
                assert(c[i - 1] == a[i - 1]);
            }
        } else {
            assert(c[i] == g[i - a.len()]);
            if i > a.len() {
                assert(c[i - 1] == g[i - 1 - a.len()]);
            }
        }
    }
}

/// A token that is not an indentation token, or one that the last token
/// allows, keeps the layout when pushed.
pub proof fn lemma_layout_push(ts: Seq<Token>, t: Token)
    requires
        layout_ok(ts),
        t.kind == TokenKind::Indent ==> ts.len() > 0 && ts.last().kind == TokenKind::NewLine,
        t.kind == TokenKind::Dedent ==> ts.len() > 0 && (ts.last().kind == TokenKind::NewLine
            || ts.last().kind == TokenKind::Dedent),
    ensures
        layout_ok(ts.push(t)),
{
    reveal(layout_ok);
    let c = ts.push(t);
    assert forall|i: int| 0 <= i < c.len() implies {
        &&& ((#[trigger] c[i]).kind == TokenKind::Indent ==> 0 < i && c[i - 1].kind
            == TokenKind::NewLine)
        &&& (c[i].kind == TokenKind::Dedent ==> 0 < i && (c[i - 1].kind == TokenKind::NewLine
            || c[i - 1].kind == TokenKind::Dedent))
    } by {
        if i < ts.len() {
            assert(c[i] == ts[i]);
            if i > 0 {
                assert(c[i - 1] == ts[i - 1]);
            }
        } else if i > 0 {
            assert(c[i - 1] == ts[i - 1]);
        }
    }
}

/// A line end followed by one `Indent`, or by `Dedent`s, is laid out as
/// required.
pub proof fn lemma_newline_group_layout(ts: Seq<Token>, line: usize)
    requires
        ts.len() >= 1,
        ts[0].kind == TokenKind::NewLine,
        ts.len() == 1 || (ts.len() == 2 && ts[1].kind == TokenKind::Indent) || all_dedents(ts, 1, line),
    ensures
        layout_ok(ts),
{
    reveal(layout_ok);
    assert forall|i: int| 0 <= i < ts.len() implies {
        &&& ((#[trigger] ts[i]).kind == TokenKind::Indent ==> 0 < i && ts[i - 1].kind
            == TokenKind::NewLine)
        &&& (ts[i].kind == TokenKind::Dedent ==> 0 < i && (ts[i - 1].kind == TokenKind::NewLine
            || ts[i - 1].kind == TokenKind::Dedent))
    } by {
        if i > 1 && all_dedents(ts, 1, line) {
            assert(ts[i - 1].kind == TokenKind::Dedent);
        }
    }
}

/// A single token that is not an indentation token is laid out as
/// required.
pub proof fn lemma_layout_single(t: Token)
    requires
        t.kind != TokenKind::Indent,
        t.kind != TokenKind::Dedent,
    ensures
        layout_ok(seq![t]),
{
    reveal(layout_ok);
}

/// The tokens read so far: no end marker, lines in order and between
/// `first` and `last`.
pub open spec fn tokens_ok(ts: Seq<Token>, first: usize, last: usize) -> bool {
    &&& no_eof(ts)
    &&& lines_nondecreasing(ts)
    &&& forall|i: int| 0 <= i < ts.len() ==> first <= (#[trigger] ts[i]).line <= last
}

/// The open blocks and the `Indent` and `Dedent` tokens agree: every
/// `Dedent` closes a block an `Indent` opened, with equality when no error
/// interrupted a line.
pub open spec fn nesting_ok(ts: Seq<Token>, open_blocks: nat, exact: bool) -> bool {
    &&& count_kind(ts, TokenKind::Dedent) + open_blocks <= count_kind(ts, TokenKind::Indent)
    &&& exact ==> count_kind(ts, TokenKind::Dedent) + open_blocks == count_kind(
        ts,
        TokenKind::Indent,
    )
}

impl Lexer {
    /// Reads every group of tokens of the input, recording errors.
    #[verifier::rlimit(40)]
    fn read_groups(&mut self, error_reporter: &mut ErrorReporter) -> (tokens: Vec<Token>)
        requires
            old(self).inv(),
            old(self).indent_levels@.len() == 0,
            old(self).current == 0,
            old(self).line + old(self).source@.len() + 2 <= usize::MAX,
        ensures
            final(self).inv(),
            final(self).source == old(self).source,
            final(self).current == final(self).source@.len(),
            old(self).line <= final(self).line <= old(self).line + old(self).source@.len(),
            tokens_ok(tokens@, old(self).line, final(self).line),
            nesting_ok(
                tokens@,
                final(self).indent_levels@.len(),
                final(error_reporter).errors@.len() == old(error_reporter).errors@.len(),
            ),
            old(error_reporter).errors@.len() <= final(error_reporter).errors@.len(),
            final(error_reporter).errors@.take(old(error_reporter).errors@.len() as int) == old(
                error_reporter,
            ).errors@,
            only_lex_errors_after(final(error_reporter).errors@, old(error_reporter).errors@.len()),
            final(error_reporter).errors@.len() == old(error_reporter).errors@.len() ==> reads_source(
                final(self).source@,
                tokens@,
                old(self).line as int,
            ),
            layout_ok(tokens@),
            final(self).line == old(self).line + line_ends(final(self).source@),
            errors_report(
                final(error_reporter).errors@.skip(old(error_reporter).errors@.len() as int),
                lex_faults(old(self).source@, old(self).line as int, old(self).using_tabs),
            ),
            shapes(tokens@) + closing_shapes(
                final(self).line as int,
                final(self).indent_levels@.len(),
                last_kind(tokens@),
            ) == lex_shapes(old(self).source@, old(self).line as int, old(self).using_tabs),
    {
        let ghost line0 = self.line;
        let ghost errs0 = error_reporter.errors@;
        let mut tokens: Vec<Token> = Vec::new();
        let ghost mut starts: Seq<int> = Seq::empty();
        let ghost mut ends: Seq<int> = Seq::empty();
        let ghost total = lex_faults(self.source@, line0 as int, self.using_tabs);
        let ghost mut done: Seq<(int, LexFault)> = Seq::empty();
        let ghost shape_total = lex_shapes(self.source@, line0 as int, self.using_tabs);
        proof {
            assert(self.indent_levels@ =~= Seq::<usize>::empty());
            assert(shapes(tokens@) =~= Seq::<(TokenKind, Seq<char>, int)>::empty());
            assert(last_kind(tokens@) is None);
            assert(shape_total =~= shapes(tokens@) + token_run(
                self.source@,
                0,
                line0 as int,
                self.indent_levels@,
                self.using_tabs,
                last_kind(tokens@),
            ));
            assert(self.indent_levels@ =~= Seq::<usize>::empty());
            assert(total =~= done + scan_faults(
                self.source@,
                0,
                line0 as int,
                self.indent_levels@,
                self.using_tabs,
            ));
            assert(error_reporter.errors@.skip(errs0.len() as int) =~= Seq::<CompilerError>::empty());
            reveal(errors_report);
            assert(layout_ok(tokens@)) by {
                reveal(layout_ok);
            }
            assert(self.source@.subrange(0, 0) =~= Seq::<char>::empty());
            lemma_line_ends_start(self.source@);
            reveal(spans_ok);
            assert(spans_ok(self.source@, tokens@, starts, ends, 0));
            assert(lines_ok(self.source@, tokens@, starts, line0 as int)) by {
                reveal(lines_ok);
            }
        }
        while !self.is_at_end()
            invariant
                self.inv(),
                self.source == old(self).source,
                line0 == old(self).line,
                line0 + self.source@.len() + 2 <= usize::MAX,
                self.line <= line0 + self.current,
                line0 <= self.line,
                tokens_ok(tokens@, line0, self.line),
                nesting_ok(
                    tokens@,
                    self.indent_levels@.len(),
                    error_reporter.errors@.len() == errs0.len(),
                ),
                errs0 == old(error_reporter).errors@,
                errs0.len() <= error_reporter.errors@.len(),
                error_reporter.errors@.take(errs0.len() as int) == errs0,
                only_lex_errors_after(error_reporter.errors@, errs0.len()),
                layout_ok(tokens@),
                self.line == line0 + line_ends_before(self.source@, self.current as int),
                error_reporter.errors@.len() == errs0.len() ==> spans_ok(
                    self.source@,
                    tokens@,
                    starts,
                    ends,
                    self.current as int,
                ),
                error_reporter.errors@.len() == errs0.len() ==> starts.len() == tokens@.len()
                    && lines_ok(self.source@, tokens@, starts, line0 as int),
                total == lex_faults(old(self).source@, old(self).line as int, old(self).using_tabs),
                total == done + scan_faults(
                    self.source@,
                    self.current as int,
                    self.line as int,
                    self.indent_levels@,
                    self.using_tabs,
                ),
                errors_report(error_reporter.errors@.skip(errs0.len() as int), done),
                shape_total == lex_shapes(old(self).source@, old(self).line as int, old(self).using_tabs),
                shape_total == shapes(tokens@) + token_run(
                    self.source@,
                    self.current as int,
                    self.line as int,
                    self.indent_levels@,
                    self.using_tabs,
                    last_kind(tokens@),
                ),
            decreases self.source@.len() - self.current,
        {
            self.start = self.current;
            let ghost line_before = self.line;
            let ghost errs_before = error_reporter.errors@;
            let ghost cur0 = self.current as int;
            let ghost levels_before = self.indent_levels@;
            let ghost tabs_before = self.using_tabs;
            match self.next_token_group() {
                Ok(Some(mut ts)) => {
                    let ghost before = tokens@;
                    let ghost group = ts@;
                    tokens.append(&mut ts);
                    proof {
                        lemma_run_step(
                            self.source@,
                            cur0,
                            line_before as int,
                            levels_before,
                            tabs_before,
                            before,
                            group,
                            shape_total,
                        );
                        if error_reporter.errors@.len() == errs0.len() {
                            let (s2, e2) = lemma_group_reads(
                                self.source@,
                                before,
                                group,
                                starts,
                                ends,
                                line0 as int,
                                cur0,
                                self.current as int,
                            );
                            starts = s2;
                            ends = e2;
                        }
                        lemma_count_kind_append(before, group, TokenKind::Indent);
                        lemma_count_kind_append(before, group, TokenKind::Dedent);
                        lemma_append_group(before, group, line_before, self.line);
                        if self.source@[cur0] != '\n' {
                            assert(group =~= seq![group[0]]);
                            lemma_layout_single(group[0]);
                        }
                        lemma_layout_append(before, group);
                        assert(before + group =~= tokens@);
                        assert forall|i: int| 0 <= i < tokens@.len() implies line0 <= (
                        #[trigger] tokens@[i]).line by {
                            if i >= before.len() {
                                assert(tokens@[i] == group[i - before.len()]);
                            } else {
                                assert(tokens@[i] == before[i]);
                            }
                        }
                    }
                },
                Ok(None) => {
                    proof {
                        lemma_run_step(
                            self.source@,
                            cur0,
                            line_before as int,
                            levels_before,
                            tabs_before,
                            tokens@,
                            Seq::empty(),
                            shape_total,
                        );
                        assert(tokens@ + Seq::<Token>::empty() =~= tokens@);
                        if error_reporter.errors@.len() == errs0.len() {
                            lemma_spans_extend_gap(
                                self.source@,
                                tokens@,
                                starts,
                                ends,
                                cur0,
                                self.current as int,
                            );
                        }
                    }
                },
                Err(e) => {
                    let ghost ge = e;
                    error_reporter.register_lex_error(e);
                    proof {
                        lemma_run_step(
                            self.source@,
                            cur0,
                            line_before as int,
                            levels_before,
                            tabs_before,
                            tokens@,
                            Seq::empty(),
                            shape_total,
                        );
                        assert(tokens@ + Seq::<Token>::empty() =~= tokens@);
                        let st = group_step(self.source@, cur0, levels_before, tabs_before);
                        let line2 = if self.source@[cur0] == '\n' {
                            line_before + 1
                        } else {
                            line_before as int
                        };
                        lemma_report_push(errs_before, errs0.len() as int, done, ge, line2, st.3->Some_0);
                        assert(error_reporter.errors@.take(errs0.len() as int) =~= errs_before.take(
                            errs0.len() as int,
                        ));
                        assert(error_reporter.errors@[error_reporter.errors@.len() - 1] is Lex);
                    }
                },
            }
            proof {
                lemma_line_ends_extend(self.source@, cur0, self.current as int);
                done = lemma_faults_step(
                    self.source@,
                    cur0,
                    line_before as int,
                    levels_before,
                    tabs_before,
                    done,
                    total,
                );
            }
        }
        proof {
            lemma_line_ends_whole(self.source@);
            lemma_faults_at_end(self.source@, self.line as int, self.indent_levels@, self.using_tabs);
            assert(done + Seq::<(int, LexFault)>::empty() =~= done);
            if error_reporter.errors@.len() == errs0.len() {
                assert(spans_ok(self.source@, tokens@, starts, ends, self.source@.len() as int));
                reveal(reads_source);
            }
        }
        tokens
    }

    /// After the last group: makes the tokens end in a newline, then closes
    /// every open block with a `Dedent`.
    #[verifier::rlimit(60)]
    fn close_blocks(&mut self, tokens: &mut Vec<Token>)
        requires
            old(self).inv(),
            old(tokens)@.len() > 0,
            old(self).line < usize::MAX,
            tokens_ok(old(tokens)@, 1, old(self).line),
            layout_ok(old(tokens)@),
        ensures
            layout_ok(final(tokens)@),
            final(self).inv(),
            final(self).source == old(self).source,
            final(self).indent_levels@.len() == 0,
            old(self).line <= final(self).line <= old(self).line + 1,
            tokens_ok(final(tokens)@, 1, final(self).line),
            forall|i: int|
                0 <= i < final(tokens)@.len() ==> (#[trigger] final(tokens)@[i]).line >= old(
                    tokens,
                )@[0].line,
            exists|k: int|
                0 <= k < final(tokens)@.len() && (#[trigger] final(tokens)@[k]).kind
                    == TokenKind::NewLine && forall|j: int|
                    k < j < final(tokens)@.len() ==> (#[trigger] final(tokens)@[j]).kind
                        == TokenKind::Dedent,
            count_kind(final(tokens)@, TokenKind::Indent) == count_kind(
                old(tokens)@,
                TokenKind::Indent,
            ),
            count_kind(final(tokens)@, TokenKind::Dedent) == count_kind(
                old(tokens)@,
                TokenKind::Dedent,
            ) + old(self).indent_levels@.len(),
            old(tokens)@.len() <= final(tokens)@.len(),
            forall|j: int| 0 <= j < old(tokens)@.len() ==> final(tokens)@[j] == #[trigger] old(tokens)@[j],
            forall|j: int|
                old(tokens)@.len() <= j < final(tokens)@.len() ==> !is_text_token(
                    #[trigger] final(tokens)@[j],
                ),
            shapes(final(tokens)@) == shapes(old(tokens)@) + closing_body(
                old(self).line as int,
                old(self).indent_levels@.len(),
                old(tokens)@.last().kind,
            ),
            final(self).line == end_line(old(self).line as int, last_kind(old(tokens)@)),
    {
        let ghost low = tokens@[0].line;
        proof {
            assert(forall|i: int| 0 <= i < tokens@.len() ==> (#[trigger] tokens@[i]).line >= low);
        }
        if tokens[tokens.len() - 1].kind != TokenKind::NewLine {
            let ghost before = tokens@;
            tokens.push(Token::new(TokenKind::NewLine, "\n", self.line));
            self.line += 1;
            proof {
                lemma_layout_push(before, tokens@.last());
                assert(before.push(tokens@.last()) =~= tokens@);
                let one = seq![tokens@.last()];
                assert(tokens@ =~= before + one);
                lemma_single_token_group(one, (self.line - 1) as usize);
                lemma_count_kind_append(before, one, TokenKind::Indent);
                lemma_count_kind_append(before, one, TokenKind::Dedent);
                lemma_append_group(before, one, (self.line - 1) as usize, self.line);
                assert forall|i: int| 0 <= i < tokens@.len() implies 1 <= (#[trigger] tokens@[i]).line
                    && tokens@[i].line >= low by {
                    if i < before.len() {
                        assert(tokens@[i] == before[i]);
                    }
                }
                assert forall|j: int| 0 <= j < before.len() implies tokens@[j] == #[trigger] before[j] by {
                    assert(tokens@[j] == before[j]);
                }
            }
        }
        let ghost newline_at = tokens@.len() - 1;
        let ghost with_newline = tokens@;
        let ghost k = old(tokens)@.last().kind;
        proof {
            reveal_strlit("\n");
            let nl_part = if k == TokenKind::NewLine {
                Seq::<(TokenKind, Seq<char>, int)>::empty()
            } else {
                seq![(TokenKind::NewLine, "\n"@, old(self).line as int)]
            };
            if k == TokenKind::NewLine {
                assert(with_newline =~= old(tokens)@);
            } else {
                assert(with_newline =~= old(tokens)@.push(with_newline.last()));
            }
            assert(shapes(with_newline) =~= shapes(old(tokens)@) + nl_part);
            assert(shapes(tokens@) =~= shapes(with_newline) + dedent_shapes(0, self.line as int));
        }
        let n = self.indent_levels.len();
        let mut i: usize = 0;
        while i < n
            invariant
                i <= n,
                n == self.indent_levels@.len(),
                n == old(self).indent_levels@.len(),
                self.inv(),
                self.source == old(self).source,
                old(self).line <= self.line <= old(self).line + 1,
                0 <= newline_at < tokens@.len(),
                tokens@[newline_at].kind == TokenKind::NewLine,
                tokens@.len() == with_newline.len() + i,
                newline_at == with_newline.len() - 1,
                forall|j: int| newline_at < j < tokens@.len() ==> (#[trigger] tokens@[j]).kind
                    == TokenKind::Dedent,
                tokens_ok(tokens@, 1, self.line),
                forall|j: int| 0 <= j < tokens@.len() ==> (#[trigger] tokens@[j]).line >= low,
                count_kind(tokens@, TokenKind::Indent) == count_kind(
                    old(tokens)@,
                    TokenKind::Indent,
                ),
                count_kind(tokens@, TokenKind::Dedent) == count_kind(
                    old(tokens)@,
                    TokenKind::Dedent,
                ) + i,
                old(tokens)@.len() <= tokens@.len(),
                forall|j: int| 0 <= j < old(tokens)@.len() ==> tokens@[j] == #[trigger] old(tokens)@[j],
                old(tokens)@.len() - 1 <= newline_at,
                layout_ok(tokens@),
                self.line == end_line(old(self).line as int, last_kind(old(tokens)@)),
                shapes(tokens@) == shapes(with_newline) + dedent_shapes(i as nat, self.line as int),
            decreases n - i,
        {
            let ghost before = tokens@;
            tokens.push(Token::new(TokenKind::Dedent, "", self.line));
            proof {
                reveal_strlit("");
                assert(""@ =~= Seq::<char>::empty());
                assert(shapes(tokens@) =~= shapes(with_newline) + dedent_shapes(
                    (i + 1) as nat,
                    self.line as int,
                )) by {
                    assert(tokens@ =~= before.push(tokens@.last()));
                    assert forall|x: int| 0 <= x < tokens@.len() implies shapes(tokens@)[x] == (
                    shapes(with_newline) + dedent_shapes((i + 1) as nat, self.line as int))[x] by {
                        if x < before.len() {
                            assert(tokens@[x] == before[x]);
                            assert(shapes(before)[x] == shapes(tokens@)[x]);
                        }
                    }
                }
                assert(before.last().kind == TokenKind::NewLine || before.last().kind
                    == TokenKind::Dedent);
                lemma_layout_push(before, tokens@.last());
                assert(before.push(tokens@.last()) =~= tokens@);
                let one = seq![tokens@.last()];
                assert(tokens@ =~= before + one);
                lemma_count_single(one, TokenKind::Indent);
                lemma_count_single(one, TokenKind::Dedent);
                lemma_count_kind_append(before, one, TokenKind::Indent);
                lemma_count_kind_append(before, one, TokenKind::Dedent);
                lemma_append_group(before, one, self.line, self.line);
                assert forall|j: int| 0 <= j < tokens@.len() implies 1 <= (#[trigger] tokens@[j]).line
                    && tokens@[j].line >= low by {
                    if j < before.len() {
                        assert(tokens@[j] == before[j]);
                    }
                }
                assert forall|j: int| newline_at < j < tokens@.len() implies (#[trigger] tokens@[j]).kind
                    == TokenKind::Dedent by {
                    if j < before.len() {
                        assert(tokens@[j] == before[j]);
                    }
                }
                assert forall|j: int| 0 <= j < old(tokens)@.len() implies tokens@[j] == #[trigger] old(tokens)@[j] by {
                    assert(tokens@[j] == before[j]);
                }
            }
            i += 1;
        }
        self.indent_levels.clear();
        proof {
            assert(levels_ok(self.indent_levels@));
            assert(tokens@[newline_at].kind == TokenKind::NewLine);
            assert forall|j: int| old(tokens)@.len() <= j < tokens@.len() implies !is_text_token(
                #[trigger] tokens@[j],
            ) by {
                if j > newline_at {
                    assert(tokens@[j].kind == TokenKind::Dedent);
                } else {
                    assert(j == newline_at);
                }
            }
        }
    }

    /// Reads `source` into tokens, recording each error in `error_reporter`
    /// and going on after it.
    ///
    /// When any token was read, a newline is added unless the last token is
    /// one, and a `Dedent` for each block still open; the end marker `Eof`
    /// comes last in any case. An `Indent` only ever comes right after a
    /// newline, and a `Dedent` right after a newline or another `Dedent`.
    /// When no error came up, the tokens read the source exactly, each text
    /// token on the line that the line ends before it give.
    ///
    /// The kinds, texts and lines of the tokens are those that `lex_shapes`
    /// gives for the source; the errors recorded are those that `lex_faults`
    /// finds in it, one for each fault, in order, with its line and message;
    /// so no error is recorded exactly when the source lexes cleanly.
    #[verifier::rlimit(60)]
    pub fn lex(&mut self, source: &str, error_reporter: &mut ErrorReporter) -> (tokens: Vec<Token>)
        requires
            old(self).wf(),
            old(self).line_number() + source@.len() + 2 <= usize::MAX,
        ensures
            final(self).wf(),
            final(self).chars() == source@,
            final(self).line_number() >= old(self).line_number(),
            tokens@.len() >= 1,
            tokens@.last().kind == TokenKind::Eof,
            no_eof(tokens@.drop_last()),
            tokens@.len() > 1 ==> ends_with_newline_dedents(tokens@),
            lines_nondecreasing(tokens@),
            forall|i: int|
                0 <= i < tokens@.len() ==> old(self).line_number() <= (#[trigger] tokens@[i]).line
                    <= final(self).line_number(),
            count_kind(tokens@, TokenKind::Dedent) <= count_kind(tokens@, TokenKind::Indent),
            final(error_reporter).errors@.len() == old(error_reporter).errors@.len() ==> count_kind(
                tokens@,
                TokenKind::Dedent,
            ) == count_kind(tokens@, TokenKind::Indent),
            old(error_reporter).errors@.len() <= final(error_reporter).errors@.len(),
            final(error_reporter).errors@.take(old(error_reporter).errors@.len() as int) == old(
                error_reporter,
            ).errors@,
            only_lex_errors_after(final(error_reporter).errors@, old(error_reporter).errors@.len()),
            final(error_reporter).errors@.len() == old(error_reporter).errors@.len() ==> reads_source(
                source@,
                tokens@,
                old(self).line_number() as int,
            ),
            layout_ok(tokens@),
            errors_report(
                final(error_reporter).errors@.skip(old(error_reporter).errors@.len() as int),
                lex_faults(source@, old(self).line_number() as int, old(self).tabs()),
            ),
            final(error_reporter).errors@ == old(error_reporter).errors@ <==> lexes_cleanly(
                source@,
                old(self).line_number() as int,
                old(self).tabs(),
            ),
            shapes(tokens@) == lex_shapes(source@, old(self).line_number() as int, old(self).tabs()),
    {
        self.source = chars_of(source);
        self.start = 0;
        self.current = 0;
        let ghost line0 = self.line;
        let mut tokens = self.read_groups(error_reporter);
        let ghost read = tokens@;
        let ghost read_line = self.line;
        let ghost open = self.indent_levels@.len();
        if tokens.len() > 0 {
            self.close_blocks(&mut tokens);
        } else {
            proof {
                assert(self.indent_levels@.len() == 0);
            }
        }
        let ghost before = tokens@;
        tokens.push(Token::new(TokenKind::Eof, "", self.line));
        proof {
            lemma_layout_push(before, tokens@.last());
            assert(before.push(tokens@.last()) =~= tokens@);
            reveal_strlit("");
            assert(""@ =~= Seq::<char>::empty());
            assert forall|x: int| 0 <= x < before.len() implies tokens@[x] == #[trigger] before[x] by {
                assert(tokens@[x] == before[x]);
            }
            lemma_close_and_end(
                read,
                before,
                tokens@,
                read_line as int,
                open,
                self.line as int,
                lex_shapes(source@, line0 as int, old(self).using_tabs),
            );
        }
        assert(error_reporter.errors@.len() == old(error_reporter).errors@.len() ==> reads_source(
            source@,
            tokens@,
            line0 as int,
        )) by {
            if error_reporter.errors@.len() == old(error_reporter).errors@.len() {
                lemma_reads_source_extend(source@, read, before, line0 as int);
                assert forall|j: int| 0 <= j < before.len() implies tokens@[j] == #[trigger] before[j] by {
                    assert(tokens@[j] == before[j]);
                }
                lemma_reads_source_extend(source@, before, tokens@, line0 as int);
            }
        }
        proof {
            lemma_clean_iff_no_errors(
                old(error_reporter).errors@,
                error_reporter.errors@,
                lex_faults(source@, line0 as int, old(self).using_tabs),
            );
            assert(tokens@ =~= before.push(tokens@.last()));
            lemma_end_marker(before, tokens@.last(), line0, self.line);
            if before.len() > 0 {
                lemma_end_marker_closes(before, tokens@.last());
            }
        }
        tokens
    }
}

/// The end marker, added on the last line after tokens of the lines from
/// `line0` on, keeps their order and counts.
proof fn lemma_end_marker(before: Seq<Token>, eof: Token, line0: usize, line: usize)
    requires
        eof.kind == TokenKind::Eof,
        eof.line == line,
        line0 <= line,
        lines_nondecreasing(before),
        forall|i: int| 0 <= i < before.len() ==> line0 <= (#[trigger] before[i]).line <= line,
    ensures
        before.push(eof).drop_last() == before,
        count_kind(before.push(eof), TokenKind::Indent) == count_kind(before, TokenKind::Indent),
        count_kind(before.push(eof), TokenKind::Dedent) == count_kind(before, TokenKind::Dedent),
        lines_nondecreasing(before.push(eof)),
        forall|i: int|
            0 <= i < before.len() + 1 ==> line0 <= (#[trigger] before.push(eof)[i]).line <= line,
{
    let tokens = before.push(eof);
    assert(tokens.drop_last() =~= before);
    let one = seq![eof];
    assert(tokens =~= before + one);
    lemma_count_single(one, TokenKind::Indent);
    lemma_count_single(one, TokenKind::Dedent);
    lemma_count_kind_append(before, one, TokenKind::Indent);
    lemma_count_kind_append(before, one, TokenKind::Dedent);
    assert forall|i: int, j: int| 0 <= i <= j < tokens.len() implies tokens[i].line
        <= tokens[j].line by {
        if j < before.len() {
            assert(tokens[i] == before[i]);
            assert(tokens[j] == before[j]);
        } else if i < before.len() {
            assert(tokens[i] == before[i]);
        }
    }
    assert forall|i: int| 0 <= i < before.len() + 1 implies line0 <= (#[trigger] tokens[i]).line
        <= line by {
        if i < before.len() {
            assert(tokens[i] == before[i]);
        }
    }
}

/// The end marker, added after tokens that end with a line end and
/// `Dedent`s, ends them so.
proof fn lemma_end_marker_closes(before: Seq<Token>, eof: Token)
    requires
        eof.kind == TokenKind::Eof,
        before.len() > 0,
        exists|k: int|
            0 <= k < before.len() && (#[trigger] before[k]).kind == TokenKind::NewLine && forall|
                j: int,
            |
                k < j < before.len() ==> (#[trigger] before[j]).kind == TokenKind::Dedent,
    ensures
        ends_with_newline_dedents(before.push(eof)),
{
    let tokens = before.push(eof);
    let k = choose|k: int|
        0 <= k < before.len() && (#[trigger] before[k]).kind == TokenKind::NewLine && forall|
            j: int,
        |
            k < j < before.len() ==> (#[trigger] before[j]).kind == TokenKind::Dedent;
    assert(tokens[k] == before[k]);
    assert forall|j: int| k < j < tokens.len() - 1 implies (#[trigger] tokens[j]).kind
        == TokenKind::Dedent by {
        assert(tokens[j] == before[j]);
    }
}

/// Counting characters never exceeds the length.
pub proof fn lemma_count_char_le(s: Seq<char>, c: char)
    ensures
        count_char(s, c) <= s.len(),
    decreases s.len(),
{
    if s.len() > 0 {
        lemma_count_char_le(s.drop_last(), c);
    }
}

/// The number of line ends among the first `n` characters of `s`.
#[verifier::opaque]
pub open spec fn line_ends_before(s: Seq<char>, n: int) -> nat {
    count_char(s.subrange(0, n), '\n')
}

/// Reading on from `a` to `b`, where only the first character may be a
/// line end, counts one more line end exactly when it is one.
pub proof fn lemma_line_ends_extend(s: Seq<char>, a: int, b: int)
    requires
        0 <= a < b <= s.len(),
        forall|i: int| a < i < b ==> s[i] != '\n',
    ensures
        line_ends_before(s, b) == line_ends_before(s, a) + if s[a] == '\n' {
            1nat
        } else {
            0nat
        },
    decreases b - a,
{
    reveal(line_ends_before);
    if b == a + 1 {
        assert(s.subrange(0, b).drop_last() =~= s.subrange(0, a));
    } else {
        lemma_line_ends_extend(s, a, b - 1);
        assert(s.subrange(0, b).drop_last() =~= s.subrange(0, b - 1));
    }
}

/// No line ends come before the start.
pub proof fn lemma_line_ends_start(s: Seq<char>)
    ensures
        line_ends_before(s, 0) == 0,
{
    reveal(line_ends_before);
    assert(s.subrange(0, 0).len() == 0);
}

/// The number of line ends in `s`.
#[verifier::opaque]
pub open spec fn line_ends(s: Seq<char>) -> nat {
    count_char(s, '\n')
}

/// The line ends before the end of `s` are those of `s`.
pub proof fn lemma_line_ends_whole(s: Seq<char>)
    ensures
        line_ends_before(s, s.len() as int) == line_ends(s),
{
    reveal(line_ends_before);
    reveal(line_ends);
    assert(s.subrange(0, s.len() as int) =~= s);
}

/// A longer run of digits has a value at least as large as any prefix.
proof fn lemma_decimal_value_grows(s: Seq<char>, k: nat)
    requires
        k <= s.len(),
        all_chars(s, |c: char| spec_is_digit(c)),
    ensures
        decimal_value(s.take(k as int)) <= decimal_value(s),
    decreases s.len(),
{
    if k < s.len() {
        let t = s.drop_last();
        assert(all_chars(t, |c: char| spec_is_digit(c))) by {
            assert forall|j: int| 0 <= j < t.len() implies spec_is_digit(#[trigger] t[j]) by {
                assert(t[j] == s[j]);
            }
        }
        lemma_decimal_value_grows(t, k);
        assert(t.take(k as int) =~= s.take(k as int));
        assert(spec_is_digit(s[s.len() - 1]));
    } else {
        assert(s.take(k as int) =~= s);
    }
}

} // verus!
