//! The recursive-descent parser: tokens to statements.

use vstd::prelude::*;

use crate::ast::{Expr, Stmt};
use crate::error::{CompilerError, ErrorReporter, ParseError};
use crate::grammar::{
    all_newlines, arguments_of, assigned, assigned_value, assignment_at, assignment_op, callee_of,
    chain_op, derives, derives_arguments, derives_assignment, derives_block, derives_class,
    derives_def, derives_expression, derives_expression_stmt, derives_if, derives_params,
    derives_return, derives_simple_stmt, derives_stmt, derives_stmts, if_tail, inner_of, is_chain_node,
    closed_if, closed_tail,
    is_if, left_of, name_of, object_of, op_of, operand_level, paren_of, params_len, right_of,
    Level,
};
use crate::derivation::{
    arguments_at, arguments_rest, begins, call_rest, chain_rest, expression_at, extends,
    is_chain_level, lemma_arguments_from_left, lemma_arguments_next, lemma_identity_target,
    lemma_not_target, lemma_unary_target, lemma_variable_derives, lemma_variable_only, prefix_op,
    lemma_call_from_left, lemma_chain_from_left, lemma_chain_next, lemma_first_token, lemma_primary_grouping,
    lemma_primary_single,
};
use crate::grammar::primary_token;
use crate::token::{Literal, SourceLocation, Token, TokenKind};

verus! {

/// A token sequence the parser accepts: it ends with the end marker `Eof`,
/// as the lexer's output does.
pub open spec fn tokens_ok(ts: Seq<Token>) -> bool {
    ts.len() >= 1 && ts.last().kind == TokenKind::Eof
}

impl ParseError {
    /// The line the error was found on.
    pub open spec fn spec_line(&self) -> usize {
        match self {
            ParseError::ParseError(l, _) => l.line,
        }
    }

    /// The message of the error, without its line.
    pub open spec fn spec_text(&self) -> Seq<char> {
        match self {
            ParseError::ParseError(_, m) => m@,
        }
    }
}

/// The tokens of `s` from `a` up to `c`, cut around index `b`.
pub proof fn lemma_split(s: Seq<Token>, a: int, b: int, c: int)
    requires
        0 <= a <= b < c <= s.len(),
    ensures
        s.subrange(a, c).subrange(0, b - a) == s.subrange(a, b),
        s.subrange(a, c).subrange(b - a + 1, c - a) == s.subrange(b + 1, c),
        s.subrange(a, c)[b - a] == s[b],
        s.subrange(a, c).len() == c - a,
{
    assert(s.subrange(a, c).subrange(0, b - a) =~= s.subrange(a, b));
    assert(s.subrange(a, c).subrange(b - a + 1, c - a) =~= s.subrange(b + 1, c));
}

/// An operand is an expression of its chain level.
pub proof fn lemma_chain_base(lv: Level, ts: Seq<Token>, e: Expr)
    requires
        lv == Level::Or || lv == Level::And || lv == Level::Equality || lv == Level::Comparison
            || lv == Level::Term || lv == Level::Factor,
        derives(operand_level(lv), ts, e),
    ensures
        derives(lv, ts, e),
{
}

/// A chain extended by one operator and one more operand.
pub proof fn lemma_chain_step(
    lv: Level,
    s: Seq<Token>,
    start: int,
    op_pos: int,
    end: int,
    e: Expr,
)
    requires
        lv == Level::Or || lv == Level::And || lv == Level::Equality || lv == Level::Comparison
            || lv == Level::Term || lv == Level::Factor,
        0 <= start < op_pos,
        op_pos + 1 < end <= s.len(),
        chain_op(lv, s[op_pos].kind),
        is_chain_node(lv, e),
        op_of(e) == s[op_pos],
        derives(lv, s.subrange(start, op_pos), left_of(e)),
        derives(operand_level(lv), s.subrange(op_pos + 1, end), right_of(e)),
    ensures
        derives(lv, s.subrange(start, end), e),
{
    lemma_split(s, start, op_pos, end);
    let ts = s.subrange(start, end);
    let i = op_pos - start;
    assert(ts[i] == s[op_pos]);
    assert(1 <= i < ts.len() - 1 && chain_op(lv, ts[i].kind) && is_chain_node(lv, e) && op_of(e)
        == ts[i] && derives(lv, ts.subrange(0, i), left_of(e)) && derives(
        operand_level(lv),
        ts.subrange(i + 1, ts.len() as int),
        right_of(e),
    ));
}

/// The state of a parse: the position of the next token in the token
/// sequence and the last token consumed.
pub struct Parser {
    previous: Option<Token>,
    pos: usize,
}

impl Parser {
    /// The index of the next token.
    pub closed spec fn position(&self) -> nat {
        self.pos as nat
    }

    /// The last token consumed, if any.
    pub closed spec fn previous_token(&self) -> Option<Token> {
        self.previous
    }

    /// The position is inside `ts`, which is accepted.
    pub closed spec fn inv(&self, ts: Seq<Token>) -> bool {
        &&& tokens_ok(ts)
        &&& self.pos < ts.len()
    }

    /// A parser at the start of its input.
    pub fn new() -> (r: Parser)
        ensures
            r.position() == 0,
            r.previous_token() is None,
    {
        Parser { previous: None, pos: 0 }
    }

    /// The kind of the next token.
    fn peek_kind(&self, tokens: &Vec<Token>) -> (r: TokenKind)
        requires
            self.inv(tokens@),
        ensures
            r == tokens@[self.pos as int].kind,
    {
        tokens[self.pos].kind
    }

    /// Whether the next token is of kind `kind`.
    fn peek_matches(&self, tokens: &Vec<Token>, kind: TokenKind) -> (r: bool)
        requires
            self.inv(tokens@),
        ensures
            r == (tokens@[self.pos as int].kind == kind),
    {
        tokens[self.pos].kind == kind
    }

    /// Whether the next token is of one of the kinds `kinds`.
    fn peek_matches_any(&self, tokens: &Vec<Token>, kinds: &[TokenKind]) -> (r: bool)
        requires
            self.inv(tokens@),
        ensures
            r == kinds@.contains(tokens@[self.pos as int].kind),
    {
        let mut i: usize = 0;
        while i < kinds.len()
            invariant
                i <= kinds@.len(),
                self.inv(tokens@),
                forall|j: int| 0 <= j < i ==> kinds@[j] != tokens@[self.pos as int].kind,
            decreases kinds@.len() - i,
        {
            if self.peek_matches(tokens, kinds[i]) {
                return true;
            }
            i += 1;
        }
        false
    }

    /// Whether the next token marks the end of the input.
    fn is_at_end(&self, tokens: &Vec<Token>) -> (r: bool)
        requires
            self.inv(tokens@),
        ensures
            r == (tokens@[self.pos as int].kind == TokenKind::Eof),
    {
        self.peek_matches(tokens, TokenKind::Eof)
    }

    /// Consumes the next token, which is not the end marker; yields it.
    fn advance(&mut self, tokens: &Vec<Token>) -> (r: Token)
        requires
            old(self).inv(tokens@),
            tokens@[old(self).pos as int].kind != TokenKind::Eof,
        ensures
            final(self).inv(tokens@),
            final(self).pos == old(self).pos + 1,
            r == tokens@[old(self).pos as int],
            final(self).previous == Some(r),
    {
        let n = tokens.len();
        let t = tokens[self.pos].duplicate();
        self.previous = Some(t.duplicate());
        assert(self.pos + 1 < n);
        self.pos = self.pos + 1;
        t
    }

    /// Consumes the next token when it is of kind `kind`.
    fn advance_if(&mut self, tokens: &Vec<Token>, kind: TokenKind) -> (r: bool)
        requires
            old(self).inv(tokens@),
            kind != TokenKind::Eof,
        ensures
            final(self).inv(tokens@),
            r == (tokens@[old(self).pos as int].kind == kind),
            r ==> final(self).pos == old(self).pos + 1 && final(self).previous == Some(
                tokens@[old(self).pos as int],
            ),
            !r ==> *final(self) == *old(self),
    {
        if self.peek_matches(tokens, kind) {
            self.advance(tokens);
            true
        } else {
            false
        }
    }

    /// Consumes the next token when it is of one of the kinds `kinds`.
    fn advance_if_any(&mut self, tokens: &Vec<Token>, kinds: &[TokenKind]) -> (r: bool)
        requires
            old(self).inv(tokens@),
            !kinds@.contains(TokenKind::Eof),
        ensures
            final(self).inv(tokens@),
            r == kinds@.contains(tokens@[old(self).pos as int].kind),
            r ==> final(self).pos == old(self).pos + 1 && final(self).previous == Some(
                tokens@[old(self).pos as int],
            ),
            !r ==> *final(self) == *old(self),
    {
        if self.peek_matches_any(tokens, kinds) {
            self.advance(tokens);
            true
        } else {
            false
        }
    }

    /// A copy of the last token consumed.
    fn previous_clone(&self) -> (r: Token)
        requires
            self.previous is Some,
        ensures
            self.previous == Some(r),
    {
        match &self.previous {
            Some(t) => t.duplicate(),
            None => {
                proof {
                    assert(false);
                }
                Token::new(TokenKind::Eof, "", 0)
            },
        }
    }

    /// An error with message `msg` at the line of the next token.
    fn error(&self, tokens: &Vec<Token>, msg: &str) -> (r: ParseError)
        requires
            self.inv(tokens@),
        ensures
            r.spec_line() == tokens@[self.pos as int].line,
            r.spec_text() == msg@,
    {
        ParseError::ParseError(
            SourceLocation { line: tokens[self.pos].line },
            String::from_str(msg),
        )
    }

    /// Consumes the next token when it is of kind `kind`; otherwise an
    /// error with message `err_msg` at the line of the next token.
    fn consume(&mut self, tokens: &Vec<Token>, kind: TokenKind, err_msg: &str) -> (r: Result<
        Token,
        ParseError,
    >)
        requires
            old(self).inv(tokens@),
            kind != TokenKind::Eof,
        ensures
            final(self).inv(tokens@),
            match r {
                Ok(t) => {
                    &&& tokens@[old(self).pos as int].kind == kind
                    &&& t == tokens@[old(self).pos as int]
                    &&& final(self).pos == old(self).pos + 1
                    &&& final(self).previous == Some(t)
                },
                Err(e) => {
                    &&& tokens@[old(self).pos as int].kind != kind
                    &&& *final(self) == *old(self)
                    &&& e.spec_line() == tokens@[old(self).pos as int].line
                    &&& e.spec_text() == err_msg@
                },
            },
    {
        if self.peek_matches(tokens, kind) {
            Ok(self.advance(tokens))
        } else {
            Err(self.error(tokens, err_msg))
        }
    }
}

/// Each expression that a chain parse starting at `start` could be after:
/// its first operand, and the rest of the chain.
proof fn lemma_chain_targets(lv: Level, sub: Level, ts: Seq<Token>, start: int)
    requires
        is_chain_level(lv),
        sub == operand_level(lv),
        0 <= start,
    ensures
        forall|end: int, e: Expr|
            #[trigger] expression_at(lv, ts, start, end, e) ==> exists|m: int, x: Expr|
                #[trigger] expression_at(sub, ts, start, m, x) && chain_rest(lv, ts, m, end),
{
    assert forall|end: int, e: Expr| #[trigger] expression_at(lv, ts, start, end, e) implies exists|
        m: int,
        x: Expr,
    | #[trigger] expression_at(sub, ts, start, m, x) && chain_rest(lv, ts, m, end) by {
        let (m, x) = lemma_chain_from_left(lv, ts, start, end, e);
        if m < end {
            assert(chain_op(lv, ts[m].kind));
        }
        assert(expression_at(sub, ts, start, m, x));
    }
}

/// After the operator at `pos`, the next operand of each such expression,
/// and the rest of the chain.
proof fn lemma_chain_targets_next(lv: Level, sub: Level, ts: Seq<Token>, start: int, pos: int)
    requires
        is_chain_level(lv),
        sub == operand_level(lv),
        0 <= start,
        0 <= pos < ts.len(),
        chain_op(lv, ts[pos].kind),
        forall|end: int, e: Expr|
            #[trigger] expression_at(lv, ts, start, end, e) ==> pos <= end && chain_rest(
                lv,
                ts,
                pos,
                end,
            ),
    ensures
        forall|end: int, e: Expr|
            #[trigger] expression_at(lv, ts, start, end, e) ==> exists|m: int, x: Expr|
                #[trigger] expression_at(sub, ts, pos + 1, m, x) && chain_rest(lv, ts, m, end),
{
    assert forall|end: int, e: Expr| #[trigger] expression_at(lv, ts, start, end, e) implies exists|
        m: int,
        x: Expr,
    | #[trigger] expression_at(sub, ts, pos + 1, m, x) && chain_rest(lv, ts, m, end) by {
        assert(pos < end);
        let (m, x) = lemma_chain_next(lv, ts, pos, end);
        assert(expression_at(sub, ts, pos + 1, m, x));
    }
}

/// What a parse of an expression at level `lv` that started at index `from`
/// and stopped at index `to` yields: an expression that the tokens in
/// between form, or an error at the line of the token it stopped at.
pub open spec fn expr_result(lv: Level, ts: Seq<Token>, from: nat, to: nat, r: Result<Expr, ParseError>) -> bool {
    match r {
        Ok(e) => from < to && derives(lv, ts.subrange(from as int, to as int), e),
        Err(err) => err.spec_line() == ts[to as int].line,
    }
}

/// A prefix operator applied to an operand of the level `sub`.
pub proof fn lemma_prefix(lv: Level, sub: Level, s: Seq<Token>, start: int, end: int, e: Expr)
    requires
        (lv == Level::Not && sub == Level::Equality && s[start].kind == TokenKind::Not) || (lv
            == Level::Unary && sub == Level::Unary && (s[start].kind == TokenKind::Plus
            || s[start].kind == TokenKind::Minus || s[start].kind == TokenKind::Tilde)),
        0 <= start,
        start + 1 < end <= s.len(),
        e is Unary,
        op_of(e) == s[start],
        derives(sub, s.subrange(start + 1, end), right_of(e)),
    ensures
        derives(lv, s.subrange(start, end), e),
{
    let ts = s.subrange(start, end);
    assert(ts.subrange(1, ts.len() as int) =~= s.subrange(start + 1, end));
    assert(ts[0] == s[start]);
}

/// A parenthesised expression.
pub proof fn lemma_grouping(s: Seq<Token>, start: int, end: int, e: Expr)
    requires
        0 <= start,
        start + 2 < end <= s.len(),
        s[start].kind == TokenKind::LeftParen,
        s[end - 1].kind == TokenKind::RightParen,
        e is Grouping,
        derives(Level::Or, s.subrange(start + 1, end - 1), inner_of(e)),
    ensures
        derives(Level::Primary, s.subrange(start, end), e),
{
    let ts = s.subrange(start, end);
    assert(ts.subrange(1, ts.len() - 1) =~= s.subrange(start + 1, end - 1));
    assert(ts[0] == s[start]);
    assert(ts[ts.len() - 1] == s[end - 1]);
}

/// A call: a callee, `(`, arguments and `)`.
pub proof fn lemma_call_step(s: Seq<Token>, start: int, lp: int, end: int, e: Expr)
    requires
        0 <= start < lp,
        lp + 1 < end <= s.len(),
        s[lp].kind == TokenKind::LeftParen,
        s[end - 1].kind == TokenKind::RightParen,
        e is Call,
        paren_of(e) == s[end - 1],
        derives(Level::Call, s.subrange(start, lp), callee_of(e)),
        derives_arguments(s.subrange(lp + 1, end - 1), arguments_of(e)),
    ensures
        derives(Level::Call, s.subrange(start, end), e),
{
    let ts = s.subrange(start, end);
    let i = lp - start;
    assert(ts.subrange(0, i) =~= s.subrange(start, lp));
    assert(ts.subrange(i + 1, ts.len() - 1) =~= s.subrange(lp + 1, end - 1));
    assert(ts[i] == s[lp]);
    assert(ts[ts.len() - 1] == s[end - 1]);
    assert(1 <= i < ts.len() - 1 && ts[i].kind == TokenKind::LeftParen && derives(
        Level::Call,
        ts.subrange(0, i),
        callee_of(e),
    ) && derives_arguments(ts.subrange(i + 1, ts.len() - 1), arguments_of(e)));
}

/// A property access: an object, `.` and a name.
pub proof fn lemma_get_step(s: Seq<Token>, start: int, end: int, e: Expr)
    requires
        0 <= start,
        start + 2 < end <= s.len(),
        s[end - 2].kind == TokenKind::Dot,
        s[end - 1].kind == TokenKind::Identifier,
        e is Get,
        name_of(e) == s[end - 1],
        derives(Level::Call, s.subrange(start, end - 2), object_of(e)),
    ensures
        derives(Level::Call, s.subrange(start, end), e),
{
    let ts = s.subrange(start, end);
    assert(ts.subrange(0, ts.len() - 2) =~= s.subrange(start, end - 2));
    assert(ts[ts.len() - 1] == s[end - 1]);
    assert(ts[ts.len() - 2] == s[end - 2]);
}

/// A single argument.
pub proof fn lemma_arguments_first(ts: Seq<Token>, e: Expr)
    requires
        derives(Level::Or, ts, e),
    ensures
        derives_arguments(ts, seq![e]),
{
    assert(seq![e][0] == e);
}

/// One more argument after a comma.
pub proof fn lemma_arguments_step(s: Seq<Token>, start: int, comma: int, end: int, args: Seq<Expr>, e: Expr)
    requires
        0 <= start < comma,
        comma + 1 < end <= s.len(),
        1 <= args.len() < 255,
        s[comma].kind == TokenKind::Comma,
        derives_arguments(s.subrange(start, comma), args),
        derives(Level::Or, s.subrange(comma + 1, end), e),
    ensures
        derives_arguments(s.subrange(start, end), args.push(e)),
{
    lemma_split(s, start, comma, end);
    let ts = s.subrange(start, end);
    let i = comma - start;
    assert(args.push(e).drop_last() =~= args);
    assert(args.push(e).last() == e);
    assert(1 <= i < ts.len() - 1 && ts[i].kind == TokenKind::Comma && derives_arguments(
        ts.subrange(0, i),
        args.push(e).drop_last(),
    ) && derives(Level::Or, ts.subrange(i + 1, ts.len() as int), args.push(e).last()));
}

/// An identity test: two comparison operands around `is`.
#[verifier::rlimit(30)]
pub proof fn lemma_is_step(s: Seq<Token>, start: int, is_pos: int, end: int, e: Expr)
    requires
        0 <= start < is_pos,
        is_pos + 1 < end <= s.len(),
        s[is_pos].kind == TokenKind::Is,
        e is Binary,
        op_of(e) == s[is_pos],
        derives(Level::Comparison, s.subrange(start, is_pos), left_of(e)),
        derives(Level::Comparison, s.subrange(is_pos + 1, end), right_of(e)),
    ensures
        derives(Level::Identity, s.subrange(start, end), e),
{
    lemma_split(s, start, is_pos, end);
    let ts = s.subrange(start, end);
    let i = is_pos - start;
    assert(1 <= i < ts.len() - 1 && ts[i].kind == TokenKind::Is && e is Binary && op_of(e) == ts[i]
        && derives(Level::Comparison, ts.subrange(0, i), left_of(e)) && derives(
        Level::Comparison,
        ts.subrange(i + 1, ts.len() as int),
        right_of(e),
    ));
}

/// A negated identity test: two comparison operands around `is not`.
#[verifier::rlimit(30)]
pub proof fn lemma_is_not_step(s: Seq<Token>, start: int, is_pos: int, end: int, e: Expr)
    requires
        0 <= start < is_pos,
        is_pos + 2 < end <= s.len(),
        s[is_pos].kind == TokenKind::Is,
        s[is_pos + 1].kind == TokenKind::Not,
        e is Unary,
        op_of(e) == s[is_pos + 1],
        right_of(e) is Binary,
        op_of(right_of(e)) == s[is_pos],
        derives(Level::Comparison, s.subrange(start, is_pos), left_of(right_of(e))),
        derives(Level::Comparison, s.subrange(is_pos + 2, end), right_of(right_of(e))),
    ensures
        derives(Level::Identity, s.subrange(start, end), e),
{
    let ts = s.subrange(start, end);
    let i = is_pos - start;
    assert(ts.subrange(0, i) =~= s.subrange(start, is_pos));
    assert(ts.subrange(i + 2, ts.len() as int) =~= s.subrange(is_pos + 2, end));
    assert(ts[i] == s[is_pos]);
    assert(ts[i + 1] == s[is_pos + 1]);
    assert(1 <= i < ts.len() - 2 && ts[i].kind == TokenKind::Is && ts[i + 1].kind == TokenKind::Not
        && e is Unary && op_of(e) == ts[i + 1] && right_of(e) is Binary && op_of(right_of(e))
        == ts[i] && derives(Level::Comparison, ts.subrange(0, i), left_of(right_of(e))) && derives(
        Level::Comparison,
        ts.subrange(i + 2, ts.len() as int),
        right_of(right_of(e)),
    ));
}

impl Parser {
    /// An expression.
    fn expression(&mut self, tokens: &Vec<Token>) -> (r: Result<Expr, ParseError>)
        requires
            old(self).inv(tokens@),
        ensures
            final(self).inv(tokens@),
            old(self).pos <= final(self).pos,
            expr_result(Level::Or, tokens@, old(self).pos as nat, final(self).pos as nat, r),
            r is Ok ==> !chain_op(Level::Or, tokens@[final(self).pos as int].kind),
            forall|end: int, e: Expr|
                #[trigger] expression_at(Level::Or, tokens@, old(self).pos as int, end, e)
                    ==> r is Ok && final(self).pos == end,
        decreases tokens@.len() - self.pos, 11nat,
    {
        self.logical_or(tokens)
    }

    /// Operands joined by `or`.
    fn logical_or(&mut self, tokens: &Vec<Token>) -> (r: Result<Expr, ParseError>)
        requires
            old(self).inv(tokens@),
        ensures
            final(self).inv(tokens@),
            old(self).pos <= final(self).pos,
            expr_result(Level::Or, tokens@, old(self).pos as nat, final(self).pos as nat, r),
            r is Ok ==> !chain_op(Level::Or, tokens@[final(self).pos as int].kind),
            forall|end: int, e: Expr|
                #[trigger] expression_at(Level::Or, tokens@, old(self).pos as int, end, e)
                    ==> r is Ok && final(self).pos == end,
        decreases tokens@.len() - self.pos, 10nat,
    {
        let start = self.pos;
        proof {
            lemma_chain_targets(Level::Or, Level::And, tokens@, start as int);
        }
        let mut expr = match self.logical_and(tokens) {
            Ok(x) => x,
            Err(err) => {
                proof {
                    assert forall|end: int, e: Expr|
                        #[trigger] expression_at(Level::Or, tokens@, start as int, end, e) implies false by {
                        let (m, x) = choose|m: int, x: Expr|
                            #[trigger] expression_at(Level::And, tokens@, start as int, m, x) && chain_rest(
                                Level::Or,
                                tokens@,
                                m,
                                end,
                            );
                    }
                }
                return Err(err);
            },
        };
        proof {
            lemma_chain_base(Level::Or, tokens@.subrange(start as int, self.pos as int), expr);
            assert forall|end: int, e: Expr|
                #[trigger] expression_at(Level::Or, tokens@, start as int, end, e) implies self.pos <= end
                && chain_rest(Level::Or, tokens@, self.pos as int, end) by {
                let (m, x) = choose|m: int, x: Expr|
                    #[trigger] expression_at(Level::And, tokens@, start as int, m, x) && chain_rest(
                        Level::Or,
                        tokens@,
                        m,
                        end,
                    );
            }
        }
        loop
            invariant
                self.inv(tokens@),
                start == old(self).pos,
                start < self.pos,
                derives(Level::Or, tokens@.subrange(start as int, self.pos as int), expr),
                forall|end: int, e: Expr|
                    #[trigger] expression_at(Level::Or, tokens@, start as int, end, e) ==> self.pos <= end
                        && chain_rest(Level::Or, tokens@, self.pos as int, end),
            ensures
                self.inv(tokens@),
                start == old(self).pos,
                start < self.pos,
                derives(Level::Or, tokens@.subrange(start as int, self.pos as int), expr),
                !chain_op(Level::Or, tokens@[self.pos as int].kind),
                forall|end: int, e: Expr|
                    #[trigger] expression_at(Level::Or, tokens@, start as int, end, e) ==> self.pos == end,
            decreases tokens@.len() - self.pos,
        {
            let op_pos = self.pos;
            if !self.advance_if(tokens, TokenKind::Or) {
                break;
            }
            proof {
                lemma_chain_targets_next(Level::Or, Level::And, tokens@, start as int, op_pos as int);
            }
            let operator = self.previous_clone();
            let right = match self.logical_and(tokens) {
                Ok(x) => x,
                Err(err) => {
                    proof {
                        assert forall|end: int, e: Expr|
                            #[trigger] expression_at(Level::Or, tokens@, start as int, end, e) implies false by {
                            let (m, x) = choose|m: int, x: Expr|
                                #[trigger] expression_at(Level::And, tokens@, op_pos + 1, m, x) && chain_rest(
                                    Level::Or,
                                    tokens@,
                                    m,
                                    end,
                                );
                        }
                    }
                    return Err(err);
                },
            };
            expr = Expr::Logical { left: Box::new(expr), operator, right: Box::new(right) };
            proof {
                lemma_chain_step(Level::Or, tokens@, start as int, op_pos as int, self.pos as int, expr);
                assert forall|end: int, e: Expr|
                    #[trigger] expression_at(Level::Or, tokens@, start as int, end, e) implies self.pos <= end
                    && chain_rest(Level::Or, tokens@, self.pos as int, end) by {
                    let (m, x) = choose|m: int, x: Expr|
                        #[trigger] expression_at(Level::And, tokens@, op_pos + 1, m, x) && chain_rest(
                            Level::Or,
                            tokens@,
                            m,
                            end,
                        );
                }
            }
        }
        Ok(expr)
    }

    /// Operands joined by `and`.
    fn logical_and(&mut self, tokens: &Vec<Token>) -> (r: Result<Expr, ParseError>)
        requires
            old(self).inv(tokens@),
        ensures
            final(self).inv(tokens@),
            old(self).pos <= final(self).pos,
            expr_result(Level::And, tokens@, old(self).pos as nat, final(self).pos as nat, r),
            r is Ok ==> !chain_op(Level::And, tokens@[final(self).pos as int].kind),
            forall|end: int, e: Expr|
                #[trigger] expression_at(Level::And, tokens@, old(self).pos as int, end, e)
                    ==> r is Ok && final(self).pos == end,
        decreases tokens@.len() - self.pos, 9nat,
    {
        let start = self.pos;
        proof {
            lemma_chain_targets(Level::And, Level::Not, tokens@, start as int);
        }
        let mut expr = match self.logical_not(tokens) {
            Ok(x) => x,
            Err(err) => {
                proof {
                    assert forall|end: int, e: Expr|
                        #[trigger] expression_at(Level::And, tokens@, start as int, end, e) implies false by {
                        let (m, x) = choose|m: int, x: Expr|
                            #[trigger] expression_at(Level::Not, tokens@, start as int, m, x) && chain_rest(
                                Level::And,
                                tokens@,
                                m,
                                end,
                            );
                    }
                }
                return Err(err);
            },
        };
        proof {
            lemma_chain_base(Level::And, tokens@.subrange(start as int, self.pos as int), expr);
            assert forall|end: int, e: Expr|
                #[trigger] expression_at(Level::And, tokens@, start as int, end, e) implies self.pos <= end
                && chain_rest(Level::And, tokens@, self.pos as int, end) by {
                let (m, x) = choose|m: int, x: Expr|
                    #[trigger] expression_at(Level::Not, tokens@, start as int, m, x) && chain_rest(
                        Level::And,
                        tokens@,
                        m,
                        end,
                    );
            }
        }
        loop
            invariant
                self.inv(tokens@),
                start == old(self).pos,
                start < self.pos,
                derives(Level::And, tokens@.subrange(start as int, self.pos as int), expr),
                forall|end: int, e: Expr|
                    #[trigger] expression_at(Level::And, tokens@, start as int, end, e) ==> self.pos <= end
                        && chain_rest(Level::And, tokens@, self.pos as int, end),
            ensures
                self.inv(tokens@),
                start == old(self).pos,
                start < self.pos,
                derives(Level::And, tokens@.subrange(start as int, self.pos as int), expr),
                !chain_op(Level::And, tokens@[self.pos as int].kind),
                forall|end: int, e: Expr|
                    #[trigger] expression_at(Level::And, tokens@, start as int, end, e) ==> self.pos == end,
            decreases tokens@.len() - self.pos,
        {
            let op_pos = self.pos;
            if !self.advance_if(tokens, TokenKind::And) {
                break;
            }
            proof {
                lemma_chain_targets_next(Level::And, Level::Not, tokens@, start as int, op_pos as int);
            }
            let operator = self.previous_clone();
            let right = match self.logical_not(tokens) {
                Ok(x) => x,
                Err(err) => {
                    proof {
                        assert forall|end: int, e: Expr|
                            #[trigger] expression_at(Level::And, tokens@, start as int, end, e) implies false by {
                            let (m, x) = choose|m: int, x: Expr|
                                #[trigger] expression_at(Level::Not, tokens@, op_pos + 1, m, x) && chain_rest(
                                    Level::And,
                                    tokens@,
                                    m,
                                    end,
                                );
                        }
                    }
                    return Err(err);
                },
            };
            expr = Expr::Logical { left: Box::new(expr), operator, right: Box::new(right) };
            proof {
                lemma_chain_step(Level::And, tokens@, start as int, op_pos as int, self.pos as int, expr);
                assert forall|end: int, e: Expr|
                    #[trigger] expression_at(Level::And, tokens@, start as int, end, e) implies self.pos <= end
                    && chain_rest(Level::And, tokens@, self.pos as int, end) by {
                    let (m, x) = choose|m: int, x: Expr|
                        #[trigger] expression_at(Level::Not, tokens@, op_pos + 1, m, x) && chain_rest(
                            Level::And,
                            tokens@,
                            m,
                            end,
                        );
                }
            }
        }
        Ok(expr)
    }

    /// An equality operand, negated when preceded by `not`.
    fn logical_not(&mut self, tokens: &Vec<Token>) -> (r: Result<Expr, ParseError>)
        requires
            old(self).inv(tokens@),
        ensures
            final(self).inv(tokens@),
            old(self).pos <= final(self).pos,
            expr_result(Level::Not, tokens@, old(self).pos as nat, final(self).pos as nat, r),
            forall|end: int, e: Expr|
                #[trigger] expression_at(Level::Not, tokens@, old(self).pos as int, end, e)
                    ==> r is Ok && final(self).pos == end,
        decreases tokens@.len() - self.pos, 8nat,
    {
        let start = self.pos;
        proof {
            assert forall|end: int, e: Expr|
                #[trigger] expression_at(Level::Not, tokens@, start as int, end, e) implies (tokens@[start as int].kind
                == TokenKind::Not ==> expression_at(Level::Equality, tokens@, start + 1, end, right_of(e)))
                && (tokens@[start as int].kind != TokenKind::Not ==> expression_at(
                Level::Equality,
                tokens@,
                start as int,
                end,
                e,
            )) by {
                lemma_not_target(tokens@, start as int, end, e);
            }
        }
        if self.advance_if(tokens, TokenKind::Not) {
            let operator = self.previous_clone();
            let right = match self.equality(tokens) {
                Ok(x) => x,
                Err(err) => {
                    proof {
                        assert forall|end: int, e: Expr|
                            #[trigger] expression_at(Level::Not, tokens@, start as int, end, e) implies false by {
                            assert(expression_at(Level::Equality, tokens@, start + 1, end, right_of(e)));
                        }
                    }
                    return Err(err);
                },
            };
            let e = Expr::Unary { operator, right: Box::new(right) };
            proof {
                lemma_prefix(Level::Not, Level::Equality, tokens@, start as int, self.pos as int, e);
                assert forall|end: int, e2: Expr|
                    #[trigger] expression_at(Level::Not, tokens@, start as int, end, e2) implies self.pos
                    == end by {
                    assert(expression_at(Level::Equality, tokens@, start + 1, end, right_of(e2)));
                }
            }
            return Ok(e);
        }
        let expr = match self.equality(tokens) {
            Ok(x) => x,
            Err(err) => {
                proof {
                    assert forall|end: int, e: Expr|
                        #[trigger] expression_at(Level::Not, tokens@, start as int, end, e) implies false by {
                        assert(expression_at(Level::Equality, tokens@, start as int, end, e));
                    }
                }
                return Err(err);
            },
        };
        proof {
            assert forall|end: int, e: Expr|
                #[trigger] expression_at(Level::Not, tokens@, start as int, end, e) implies self.pos == end by {
                assert(expression_at(Level::Equality, tokens@, start as int, end, e));
            }
        }
        Ok(expr)
    }

    /// Operands joined by `==` and `!=`.
    fn equality(&mut self, tokens: &Vec<Token>) -> (r: Result<Expr, ParseError>)
        requires
            old(self).inv(tokens@),
        ensures
            final(self).inv(tokens@),
            old(self).pos <= final(self).pos,
            expr_result(Level::Equality, tokens@, old(self).pos as nat, final(self).pos as nat, r),
            r is Ok ==> !chain_op(Level::Equality, tokens@[final(self).pos as int].kind),
            forall|end: int, e: Expr|
                #[trigger] expression_at(Level::Equality, tokens@, old(self).pos as int, end, e)
                    ==> r is Ok && final(self).pos == end,
        decreases tokens@.len() - self.pos, 7nat,
    {
        let start = self.pos;
        proof {
            lemma_chain_targets(Level::Equality, Level::Identity, tokens@, start as int);
        }
        let mut expr = match self.identity(tokens) {
            Ok(x) => x,
            Err(err) => {
                proof {
                    assert forall|end: int, e: Expr|
                        #[trigger] expression_at(Level::Equality, tokens@, start as int, end, e) implies false by {
                        let (m, x) = choose|m: int, x: Expr|
                            #[trigger] expression_at(Level::Identity, tokens@, start as int, m, x) && chain_rest(
                                Level::Equality,
                                tokens@,
                                m,
                                end,
                            );
                    }
                }
                return Err(err);
            },
        };
        proof {
            lemma_chain_base(Level::Equality, tokens@.subrange(start as int, self.pos as int), expr);
            assert forall|end: int, e: Expr|
                #[trigger] expression_at(Level::Equality, tokens@, start as int, end, e) implies self.pos <= end
                && chain_rest(Level::Equality, tokens@, self.pos as int, end) by {
                let (m, x) = choose|m: int, x: Expr|
                    #[trigger] expression_at(Level::Identity, tokens@, start as int, m, x) && chain_rest(
                        Level::Equality,
                        tokens@,
                        m,
                        end,
                    );
            }
        }
        loop
            invariant
                self.inv(tokens@),
                start == old(self).pos,
                start < self.pos,
                derives(Level::Equality, tokens@.subrange(start as int, self.pos as int), expr),
                forall|end: int, e: Expr|
                    #[trigger] expression_at(Level::Equality, tokens@, start as int, end, e) ==> self.pos <= end
                        && chain_rest(Level::Equality, tokens@, self.pos as int, end),
            ensures
                self.inv(tokens@),
                start == old(self).pos,
                start < self.pos,
                derives(Level::Equality, tokens@.subrange(start as int, self.pos as int), expr),
                !chain_op(Level::Equality, tokens@[self.pos as int].kind),
                forall|end: int, e: Expr|
                    #[trigger] expression_at(Level::Equality, tokens@, start as int, end, e) ==> self.pos == end,
            decreases tokens@.len() - self.pos,
        {
            let op_pos = self.pos;
            if !self.advance_if_any(tokens, &[TokenKind::BangEqual, TokenKind::EqualEqual]) {
                break;
            }
            proof {
                lemma_chain_targets_next(Level::Equality, Level::Identity, tokens@, start as int, op_pos as int);
            }
            let operator = self.previous_clone();
            let right = match self.identity(tokens) {
                Ok(x) => x,
                Err(err) => {
                    proof {
                        assert forall|end: int, e: Expr|
                            #[trigger] expression_at(Level::Equality, tokens@, start as int, end, e) implies false by {
                            let (m, x) = choose|m: int, x: Expr|
                                #[trigger] expression_at(Level::Identity, tokens@, op_pos + 1, m, x) && chain_rest(
                                    Level::Equality,
                                    tokens@,
                                    m,
                                    end,
                                );
                        }
                    }
                    return Err(err);
                },
            };
            expr = Expr::Binary { left: Box::new(expr), operator, right: Box::new(right) };
            proof {
                lemma_chain_step(
                    Level::Equality,
                    tokens@,
                    start as int,
                    op_pos as int,
                    self.pos as int,
                    expr,
                );
                assert forall|end: int, e: Expr|
                    #[trigger] expression_at(Level::Equality, tokens@, start as int, end, e) implies self.pos <= end
                    && chain_rest(Level::Equality, tokens@, self.pos as int, end) by {
                    let (m, x) = choose|m: int, x: Expr|
                        #[trigger] expression_at(Level::Identity, tokens@, op_pos + 1, m, x) && chain_rest(
                            Level::Equality,
                            tokens@,
                            m,
                            end,
                        );
                }
            }
        }
        Ok(expr)
    }
}

impl Parser {
    /// A comparison operand, optionally followed by `is` or `is not` and
    /// another comparison operand.
    fn identity(&mut self, tokens: &Vec<Token>) -> (r: Result<Expr, ParseError>)
        requires
            old(self).inv(tokens@),
        ensures
            final(self).inv(tokens@),
            old(self).pos <= final(self).pos,
            expr_result(Level::Identity, tokens@, old(self).pos as nat, final(self).pos as nat, r),
            forall|end: int, e: Expr|
                #[trigger] expression_at(Level::Identity, tokens@, old(self).pos as int, end, e)
                    ==> r is Ok && final(self).pos == end,
        decreases tokens@.len() - self.pos, 6nat,
    {
        let start = self.pos;
        let mut expr = match self.comparison(tokens) {
            Ok(x) => x,
            Err(err) => {
                proof {
                    assert forall|end: int, e: Expr|
                        #[trigger] expression_at(Level::Identity, tokens@, start as int, end, e) implies false by {
                        let (m, x, y) = lemma_identity_target(tokens@, start as int, end, e);
                    }
                }
                return Err(err);
            },
        };
        let is_pos = self.pos;
        if self.advance_if(tokens, TokenKind::Is) {
            let is_operator = self.previous_clone();
            let negated = self.advance_if(tokens, TokenKind::Not);
            let ghost right_start = self.pos;
            proof {
                assert forall|end: int, e: Expr|
                    #[trigger] expression_at(Level::Identity, tokens@, start as int, end, e) implies exists|
                    y: Expr,
                | #[trigger] expression_at(Level::Comparison, tokens@, right_start as int, end, y) by {
                    let (m, x, y) = lemma_identity_target(tokens@, start as int, end, e);
                    assert(expression_at(Level::Comparison, tokens@, start as int, m, x));
                    assert(m == is_pos);
                    assert(tokens@[m].kind == TokenKind::Is);
                    assert(m < end);
                    if negated {
                        assert(tokens@[m + 1].kind == TokenKind::Not);
                        assert(right_start == m + 2);
                    } else {
                        assert(tokens@[m + 1].kind != TokenKind::Not);
                        assert(right_start == m + 1);
                    }
                    assert(expression_at(Level::Comparison, tokens@, right_start as int, end, y));
                }
            }
            let right = match self.comparison(tokens) {
                Ok(x) => x,
                Err(err) => {
                    proof {
                        assert forall|end: int, e: Expr|
                            #[trigger] expression_at(Level::Identity, tokens@, start as int, end, e) implies false by {
                            let y = choose|y: Expr|
                                #[trigger] expression_at(Level::Comparison, tokens@, right_start as int, end, y);
                        }
                    }
                    return Err(err);
                },
            };
            proof {
                assert forall|end: int, e: Expr|
                    #[trigger] expression_at(Level::Identity, tokens@, start as int, end, e) implies self.pos
                    == end by {
                    let y = choose|y: Expr|
                        #[trigger] expression_at(Level::Comparison, tokens@, right_start as int, end, y);
                }
            }
            expr = Expr::Binary { left: Box::new(expr), operator: is_operator, right: Box::new(right) };
            if negated {
                let not_operator = tokens[is_pos + 1].duplicate();
                expr = Expr::Unary { operator: not_operator, right: Box::new(expr) };
                proof {
                    lemma_is_not_step(tokens@, start as int, is_pos as int, self.pos as int, expr);
                }
            } else {
                proof {
                    lemma_is_step(tokens@, start as int, is_pos as int, self.pos as int, expr);
                }
            }
        } else {
            proof {
                assert forall|end: int, e: Expr|
                    #[trigger] expression_at(Level::Identity, tokens@, start as int, end, e) implies self.pos
                    == end by {
                    let (m, x, y) = lemma_identity_target(tokens@, start as int, end, e);
                    assert(expression_at(Level::Comparison, tokens@, start as int, m, x));
                    assert(m == is_pos);
                    assert(tokens@[m].kind != TokenKind::Is);
                    assert(m == end);
                }
            }
        }
        Ok(expr)
    }

    /// Operands joined by `>`, `>=`, `<` and `<=`.
    fn comparison(&mut self, tokens: &Vec<Token>) -> (r: Result<Expr, ParseError>)
        requires
            old(self).inv(tokens@),
        ensures
            final(self).inv(tokens@),
            old(self).pos <= final(self).pos,
            expr_result(Level::Comparison, tokens@, old(self).pos as nat, final(self).pos as nat, r),
            r is Ok ==> !chain_op(Level::Comparison, tokens@[final(self).pos as int].kind),
            forall|end: int, e: Expr|
                #[trigger] expression_at(Level::Comparison, tokens@, old(self).pos as int, end, e)
                    ==> r is Ok && final(self).pos == end,
        decreases tokens@.len() - self.pos, 5nat,
    {
        let start = self.pos;
        proof {
            lemma_chain_targets(Level::Comparison, Level::Term, tokens@, start as int);
        }
        let mut expr = match self.term(tokens) {
            Ok(x) => x,
            Err(err) => {
                proof {
                    assert forall|end: int, e: Expr|
                        #[trigger] expression_at(Level::Comparison, tokens@, start as int, end, e) implies false by {
                        let (m, x) = choose|m: int, x: Expr|
                            #[trigger] expression_at(Level::Term, tokens@, start as int, m, x) && chain_rest(
                                Level::Comparison,
                                tokens@,
                                m,
                                end,
                            );
                    }
                }
                return Err(err);
            },
        };
        proof {
            lemma_chain_base(Level::Comparison, tokens@.subrange(start as int, self.pos as int), expr);
            assert forall|end: int, e: Expr|
                #[trigger] expression_at(Level::Comparison, tokens@, start as int, end, e) implies self.pos <= end
                && chain_rest(Level::Comparison, tokens@, self.pos as int, end) by {
                let (m, x) = choose|m: int, x: Expr|
                    #[trigger] expression_at(Level::Term, tokens@, start as int, m, x) && chain_rest(
                        Level::Comparison,
                        tokens@,
                        m,
                        end,
                    );
            }
        }
        loop
            invariant
                self.inv(tokens@),
                start == old(self).pos,
                start < self.pos,
                derives(Level::Comparison, tokens@.subrange(start as int, self.pos as int), expr),
                forall|end: int, e: Expr|
                    #[trigger] expression_at(Level::Comparison, tokens@, start as int, end, e) ==> self.pos <= end
                        && chain_rest(Level::Comparison, tokens@, self.pos as int, end),
            ensures
                self.inv(tokens@),
                start == old(self).pos,
                start < self.pos,
                derives(Level::Comparison, tokens@.subrange(start as int, self.pos as int), expr),
                !chain_op(Level::Comparison, tokens@[self.pos as int].kind),
                forall|end: int, e: Expr|
                    #[trigger] expression_at(Level::Comparison, tokens@, start as int, end, e) ==> self.pos == end,
            decreases tokens@.len() - self.pos,
        {
            let op_pos = self.pos;
            if !self.advance_if_any(tokens, &[TokenKind::Greater, TokenKind::GreaterEqual, TokenKind::Less, TokenKind::LessEqual]) {
                break;
            }
            proof {
                lemma_chain_targets_next(Level::Comparison, Level::Term, tokens@, start as int, op_pos as int);
            }
            let operator = self.previous_clone();
            let right = match self.term(tokens) {
                Ok(x) => x,
                Err(err) => {
                    proof {
                        assert forall|end: int, e: Expr|
                            #[trigger] expression_at(Level::Comparison, tokens@, start as int, end, e) implies false by {
                            let (m, x) = choose|m: int, x: Expr|
                                #[trigger] expression_at(Level::Term, tokens@, op_pos + 1, m, x) && chain_rest(
                                    Level::Comparison,
                                    tokens@,
                                    m,
                                    end,
                                );
                        }
                    }
                    return Err(err);
                },
            };
            expr = Expr::Binary { left: Box::new(expr), operator, right: Box::new(right) };
            proof {
                lemma_chain_step(
                    Level::Comparison,
                    tokens@,
                    start as int,
                    op_pos as int,
                    self.pos as int,
                    expr,
                );
                assert forall|end: int, e: Expr|
                    #[trigger] expression_at(Level::Comparison, tokens@, start as int, end, e) implies self.pos <= end
                    && chain_rest(Level::Comparison, tokens@, self.pos as int, end) by {
                    let (m, x) = choose|m: int, x: Expr|
                        #[trigger] expression_at(Level::Term, tokens@, op_pos + 1, m, x) && chain_rest(
                            Level::Comparison,
                            tokens@,
                            m,
                            end,
                        );
                }
            }
        }
        Ok(expr)
    }

    /// Operands joined by `+` and `-`.
    fn term(&mut self, tokens: &Vec<Token>) -> (r: Result<Expr, ParseError>)
        requires
            old(self).inv(tokens@),
        ensures
            final(self).inv(tokens@),
            old(self).pos <= final(self).pos,
            expr_result(Level::Term, tokens@, old(self).pos as nat, final(self).pos as nat, r),
            r is Ok ==> !chain_op(Level::Term, tokens@[final(self).pos as int].kind),
            forall|end: int, e: Expr|
                #[trigger] expression_at(Level::Term, tokens@, old(self).pos as int, end, e)
                    ==> r is Ok && final(self).pos == end,
        decreases tokens@.len() - self.pos, 4nat,
    {
        let start = self.pos;
        proof {
            lemma_chain_targets(Level::Term, Level::Factor, tokens@, start as int);
        }
        let mut expr = match self.factor(tokens) {
            Ok(x) => x,
            Err(err) => {
                proof {
                    assert forall|end: int, e: Expr|
                        #[trigger] expression_at(Level::Term, tokens@, start as int, end, e) implies false by {
                        let (m, x) = choose|m: int, x: Expr|
                            #[trigger] expression_at(Level::Factor, tokens@, start as int, m, x) && chain_rest(
                                Level::Term,
                                tokens@,
                                m,
                                end,
                            );
                    }
                }
                return Err(err);
            },
        };
        proof {
            lemma_chain_base(Level::Term, tokens@.subrange(start as int, self.pos as int), expr);
            assert forall|end: int, e: Expr|
                #[trigger] expression_at(Level::Term, tokens@, start as int, end, e) implies self.pos <= end
                && chain_rest(Level::Term, tokens@, self.pos as int, end) by {
                let (m, x) = choose|m: int, x: Expr|
                    #[trigger] expression_at(Level::Factor, tokens@, start as int, m, x) && chain_rest(
                        Level::Term,
                        tokens@,
                        m,
                        end,
                    );
            }
        }
        loop
            invariant
                self.inv(tokens@),
                start == old(self).pos,
                start < self.pos,
                derives(Level::Term, tokens@.subrange(start as int, self.pos as int), expr),
                forall|end: int, e: Expr|
                    #[trigger] expression_at(Level::Term, tokens@, start as int, end, e) ==> self.pos <= end
                        && chain_rest(Level::Term, tokens@, self.pos as int, end),
            ensures
                self.inv(tokens@),
                start == old(self).pos,
                start < self.pos,
                derives(Level::Term, tokens@.subrange(start as int, self.pos as int), expr),
                !chain_op(Level::Term, tokens@[self.pos as int].kind),
                forall|end: int, e: Expr|
                    #[trigger] expression_at(Level::Term, tokens@, start as int, end, e) ==> self.pos == end,
            decreases tokens@.len() - self.pos,
        {
            let op_pos = self.pos;
            if !self.advance_if_any(tokens, &[TokenKind::Plus, TokenKind::Minus]) {
                break;
            }
            proof {
                lemma_chain_targets_next(Level::Term, Level::Factor, tokens@, start as int, op_pos as int);
            }
            let operator = self.previous_clone();
            let right = match self.factor(tokens) {
                Ok(x) => x,
                Err(err) => {
                    proof {
                        assert forall|end: int, e: Expr|
                            #[trigger] expression_at(Level::Term, tokens@, start as int, end, e) implies false by {
                            let (m, x) = choose|m: int, x: Expr|
                                #[trigger] expression_at(Level::Factor, tokens@, op_pos + 1, m, x) && chain_rest(
                                    Level::Term,
                                    tokens@,
                                    m,
                                    end,
                                );
                        }
                    }
                    return Err(err);
                },
            };
            expr = Expr::Binary { left: Box::new(expr), operator, right: Box::new(right) };
            proof {
                lemma_chain_step(
                    Level::Term,
                    tokens@,
                    start as int,
                    op_pos as int,
                    self.pos as int,
                    expr,
                );
                assert forall|end: int, e: Expr|
                    #[trigger] expression_at(Level::Term, tokens@, start as int, end, e) implies self.pos <= end
                    && chain_rest(Level::Term, tokens@, self.pos as int, end) by {
                    let (m, x) = choose|m: int, x: Expr|
                        #[trigger] expression_at(Level::Factor, tokens@, op_pos + 1, m, x) && chain_rest(
                            Level::Term,
                            tokens@,
                            m,
                            end,
                        );
                }
            }
        }
        Ok(expr)
    }

    /// Operands joined by `*` and `/`.
    fn factor(&mut self, tokens: &Vec<Token>) -> (r: Result<Expr, ParseError>)
        requires
            old(self).inv(tokens@),
        ensures
            final(self).inv(tokens@),
            old(self).pos <= final(self).pos,
            expr_result(Level::Factor, tokens@, old(self).pos as nat, final(self).pos as nat, r),
            r is Ok ==> !chain_op(Level::Factor, tokens@[final(self).pos as int].kind),
            forall|end: int, e: Expr|
                #[trigger] expression_at(Level::Factor, tokens@, old(self).pos as int, end, e)
                    ==> r is Ok && final(self).pos == end,
        decreases tokens@.len() - self.pos, 3nat,
    {
        let start = self.pos;
        proof {
            lemma_chain_targets(Level::Factor, Level::Unary, tokens@, start as int);
        }
        let mut expr = match self.unary(tokens) {
            Ok(x) => x,
            Err(err) => {
                proof {
                    assert forall|end: int, e: Expr|
                        #[trigger] expression_at(Level::Factor, tokens@, start as int, end, e) implies false by {
                        let (m, x) = choose|m: int, x: Expr|
                            #[trigger] expression_at(Level::Unary, tokens@, start as int, m, x) && chain_rest(
                                Level::Factor,
                                tokens@,
                                m,
                                end,
                            );
                    }
                }
                return Err(err);
            },
        };
        proof {
            lemma_chain_base(Level::Factor, tokens@.subrange(start as int, self.pos as int), expr);
            assert forall|end: int, e: Expr|
                #[trigger] expression_at(Level::Factor, tokens@, start as int, end, e) implies self.pos <= end
                && chain_rest(Level::Factor, tokens@, self.pos as int, end) by {
                let (m, x) = choose|m: int, x: Expr|
                    #[trigger] expression_at(Level::Unary, tokens@, start as int, m, x) && chain_rest(
                        Level::Factor,
                        tokens@,
                        m,
                        end,
                    );
            }
        }
        loop
            invariant
                self.inv(tokens@),
                start == old(self).pos,
                start < self.pos,
                derives(Level::Factor, tokens@.subrange(start as int, self.pos as int), expr),
                forall|end: int, e: Expr|
                    #[trigger] expression_at(Level::Factor, tokens@, start as int, end, e) ==> self.pos <= end
                        && chain_rest(Level::Factor, tokens@, self.pos as int, end),
            ensures
                self.inv(tokens@),
                start == old(self).pos,
                start < self.pos,
                derives(Level::Factor, tokens@.subrange(start as int, self.pos as int), expr),
                !chain_op(Level::Factor, tokens@[self.pos as int].kind),
                forall|end: int, e: Expr|
                    #[trigger] expression_at(Level::Factor, tokens@, start as int, end, e) ==> self.pos == end,
            decreases tokens@.len() - self.pos,
        {
            let op_pos = self.pos;
            if !self.advance_if_any(tokens, &[TokenKind::Star, TokenKind::Slash]) {
                break;
            }
            proof {
                lemma_chain_targets_next(Level::Factor, Level::Unary, tokens@, start as int, op_pos as int);
            }
            let operator = self.previous_clone();
            let right = match self.unary(tokens) {
                Ok(x) => x,
                Err(err) => {
                    proof {
                        assert forall|end: int, e: Expr|
                            #[trigger] expression_at(Level::Factor, tokens@, start as int, end, e) implies false by {
                            let (m, x) = choose|m: int, x: Expr|
                                #[trigger] expression_at(Level::Unary, tokens@, op_pos + 1, m, x) && chain_rest(
                                    Level::Factor,
                                    tokens@,
                                    m,
                                    end,
                                );
                        }
                    }
                    return Err(err);
                },
            };
            expr = Expr::Binary { left: Box::new(expr), operator, right: Box::new(right) };
            proof {
                lemma_chain_step(
                    Level::Factor,
                    tokens@,
                    start as int,
                    op_pos as int,
                    self.pos as int,
                    expr,
                );
                assert forall|end: int, e: Expr|
                    #[trigger] expression_at(Level::Factor, tokens@, start as int, end, e) implies self.pos <= end
                    && chain_rest(Level::Factor, tokens@, self.pos as int, end) by {
                    let (m, x) = choose|m: int, x: Expr|
                        #[trigger] expression_at(Level::Unary, tokens@, op_pos + 1, m, x) && chain_rest(
                            Level::Factor,
                            tokens@,
                            m,
                            end,
                        );
                }
            }
        }
        Ok(expr)
    }

    /// A call expression, preceded by any number of `+`, `-` and `~`.
    fn unary(&mut self, tokens: &Vec<Token>) -> (r: Result<Expr, ParseError>)
        requires
            old(self).inv(tokens@),
        ensures
            final(self).inv(tokens@),
            old(self).pos <= final(self).pos,
            expr_result(Level::Unary, tokens@, old(self).pos as nat, final(self).pos as nat, r),
            forall|end: int, e: Expr|
                #[trigger] expression_at(Level::Unary, tokens@, old(self).pos as int, end, e)
                    ==> r is Ok && final(self).pos == end,
        decreases tokens@.len() - self.pos, 2nat,
    {
        let start = self.pos;
        proof {
            assert forall|end: int, e: Expr|
                #[trigger] expression_at(Level::Unary, tokens@, start as int, end, e) implies (prefix_op(
                tokens@[start as int].kind,
            ) ==> expression_at(Level::Unary, tokens@, start + 1, end, right_of(e))) && (!prefix_op(
                tokens@[start as int].kind,
            ) ==> expression_at(Level::Call, tokens@, start as int, end, e)) by {
                lemma_unary_target(tokens@, start as int, end, e);
            }
        }
        if self.advance_if_any(tokens, &[TokenKind::Plus, TokenKind::Minus, TokenKind::Tilde]) {
            let operator = self.previous_clone();
            proof {
                assert(prefix_op(tokens@[start as int].kind));
            }
            let right = match self.unary(tokens) {
                Ok(x) => x,
                Err(err) => {
                    proof {
                        assert forall|end: int, e: Expr|
                            #[trigger] expression_at(Level::Unary, tokens@, start as int, end, e) implies false by {
                            assert(expression_at(Level::Unary, tokens@, start + 1, end, right_of(e)));
                        }
                    }
                    return Err(err);
                },
            };
            let e = Expr::Unary { operator, right: Box::new(right) };
            proof {
                lemma_prefix(Level::Unary, Level::Unary, tokens@, start as int, self.pos as int, e);
                assert forall|end: int, e2: Expr|
                    #[trigger] expression_at(Level::Unary, tokens@, start as int, end, e2) implies self.pos
                    == end by {
                    assert(expression_at(Level::Unary, tokens@, start + 1, end, right_of(e2)));
                }
            }
            return Ok(e);
        }
        proof {
            assert(!prefix_op(tokens@[start as int].kind)) by {
                let k = tokens@[start as int].kind;
                if prefix_op(k) {
                    let kinds = seq![TokenKind::Plus, TokenKind::Minus, TokenKind::Tilde];
                    if k == TokenKind::Plus {
                        assert(kinds[0] == k);
                    } else if k == TokenKind::Minus {
                        assert(kinds[1] == k);
                    } else {
                        assert(kinds[2] == k);
                    }
                }
            }
        }
        let expr = match self.call(tokens) {
            Ok(x) => x,
            Err(err) => {
                proof {
                    assert forall|end: int, e: Expr|
                        #[trigger] expression_at(Level::Unary, tokens@, start as int, end, e) implies false by {
                        assert(expression_at(Level::Call, tokens@, start as int, end, e));
                    }
                }
                return Err(err);
            },
        };
        proof {
            assert forall|end: int, e: Expr|
                #[trigger] expression_at(Level::Unary, tokens@, start as int, end, e) implies self.pos == end by {
                assert(expression_at(Level::Call, tokens@, start as int, end, e));
            }
        }
        Ok(expr)
    }

    /// A primary expression followed by any number of argument lists and
    /// property accesses.
    fn call(&mut self, tokens: &Vec<Token>) -> (r: Result<Expr, ParseError>)
        requires
            old(self).inv(tokens@),
        ensures
            final(self).inv(tokens@),
            old(self).pos <= final(self).pos,
            expr_result(Level::Call, tokens@, old(self).pos as nat, final(self).pos as nat, r),
            r is Ok ==> tokens@[final(self).pos as int].kind != TokenKind::LeftParen
                && tokens@[final(self).pos as int].kind != TokenKind::Dot,
            forall|end: int, e: Expr|
                #[trigger] expression_at(Level::Call, tokens@, old(self).pos as int, end, e)
                    ==> r is Ok && final(self).pos == end,
        decreases tokens@.len() - self.pos, 1nat,
    {
        let start = self.pos;
        proof {
            assert forall|end: int, e: Expr|
                #[trigger] expression_at(Level::Call, tokens@, start as int, end, e) implies exists|
                p: int,
                x: Expr,
            | #[trigger] expression_at(Level::Primary, tokens@, start as int, p, x) && call_rest(tokens@, p, end) by {
                let (p, x) = lemma_call_from_left(tokens@, start as int, end, e);
                assert(expression_at(Level::Primary, tokens@, start as int, p, x));
            }
        }
        let mut expr = match self.primary(tokens) {
            Ok(x) => x,
            Err(err) => {
                proof {
                    assert forall|end: int, e: Expr|
                        #[trigger] expression_at(Level::Call, tokens@, start as int, end, e) implies false by {
                        let (p, x) = choose|p: int, x: Expr|
                            #[trigger] expression_at(Level::Primary, tokens@, start as int, p, x) && call_rest(
                                tokens@,
                                p,
                                end,
                            );
                    }
                }
                return Err(err);
            },
        };
        proof {
            assert forall|end: int, e: Expr|
                #[trigger] expression_at(Level::Call, tokens@, start as int, end, e) implies self.pos <= end
                && call_rest(tokens@, self.pos as int, end) by {
                let (p, x) = choose|p: int, x: Expr|
                    #[trigger] expression_at(Level::Primary, tokens@, start as int, p, x) && call_rest(
                        tokens@,
                        p,
                        end,
                    );
            }
        }
        loop
            invariant
                self.inv(tokens@),
                start == old(self).pos,
                start < self.pos,
                derives(Level::Call, tokens@.subrange(start as int, self.pos as int), expr),
                forall|end: int, e: Expr|
                    #[trigger] expression_at(Level::Call, tokens@, start as int, end, e) ==> self.pos <= end
                        && call_rest(tokens@, self.pos as int, end),
            ensures
                self.inv(tokens@),
                start == old(self).pos,
                start < self.pos,
                derives(Level::Call, tokens@.subrange(start as int, self.pos as int), expr),
                tokens@[self.pos as int].kind != TokenKind::LeftParen,
                tokens@[self.pos as int].kind != TokenKind::Dot,
                forall|end: int, e: Expr|
                    #[trigger] expression_at(Level::Call, tokens@, start as int, end, e) ==> self.pos == end,
            decreases tokens@.len() - self.pos,
        {
            let lp = self.pos;
            if self.advance_if(tokens, TokenKind::LeftParen) {
                proof {
                    assert forall|end: int, e: Expr|
                        #[trigger] expression_at(Level::Call, tokens@, start as int, end, e) implies exists|
                        q: int,
                        args: Seq<Expr>,
                    | #[trigger] arguments_at(tokens@, lp + 1, q, args) && call_rest(tokens@, q + 1, end) by {
                        assert(lp < end);
                        let (q, args) = choose|q: int, args: Seq<Expr>|
                            lp < q < end && tokens@[q].kind == TokenKind::RightParen
                                && #[trigger] derives_arguments(tokens@.subrange(lp + 1, q), args)
                                && call_rest(tokens@, q + 1, end);
                        assert(arguments_at(tokens@, lp + 1, q, args));
                    }
                }
                let e = match self.finish_call(tokens, expr) {
                    Ok(x) => x,
                    Err(err) => {
                        proof {
                            assert forall|end: int, e: Expr|
                                #[trigger] expression_at(Level::Call, tokens@, start as int, end, e) implies false by {
                                let (q, args) = choose|q: int, args: Seq<Expr>|
                                    #[trigger] arguments_at(tokens@, lp + 1, q, args) && call_rest(
                                        tokens@,
                                        q + 1,
                                        end,
                                    );
                            }
                        }
                        return Err(err);
                    },
                };
                proof {
                    lemma_call_step(tokens@, start as int, lp as int, self.pos as int, e);
                    assert forall|end: int, e2: Expr|
                        #[trigger] expression_at(Level::Call, tokens@, start as int, end, e2) implies self.pos
                        <= end && call_rest(tokens@, self.pos as int, end) by {
                        let (q, args) = choose|q: int, args: Seq<Expr>|
                            #[trigger] arguments_at(tokens@, lp + 1, q, args) && call_rest(
                                tokens@,
                                q + 1,
                                end,
                            );
                    }
                }
                expr = e;
            } else if self.advance_if(tokens, TokenKind::Dot) {
                proof {
                    assert forall|end: int, e: Expr|
                        #[trigger] expression_at(Level::Call, tokens@, start as int, end, e) implies lp + 1
                        < end && tokens@[lp + 1].kind == TokenKind::Identifier && call_rest(
                        tokens@,
                        lp + 2,
                        end,
                    ) by {
                        assert(lp < end);
                    }
                }
                let name = match self.consume(
                    tokens,
                    TokenKind::Identifier,
                    "expected property name after '.'.",
                ) {
                    Ok(t) => t,
                    Err(err) => {
                        proof {
                            assert forall|end: int, e: Expr|
                                #[trigger] expression_at(Level::Call, tokens@, start as int, end, e) implies false by {
                                assert(tokens@[lp + 1].kind == TokenKind::Identifier);
                            }
                        }
                        return Err(err);
                    },
                };
                let e = Expr::Get { object: Box::new(expr), name };
                proof {
                    lemma_get_step(tokens@, start as int, self.pos as int, e);
                }
                expr = e;
            } else {
                proof {
                    assert forall|end: int, e: Expr|
                        #[trigger] expression_at(Level::Call, tokens@, start as int, end, e) implies self.pos
                        == end by {
                        if self.pos < end {
                            assert(call_rest(tokens@, self.pos as int, end));
                        }
                    }
                }
                break;
            }
        }
        Ok(expr)
    }

    /// The arguments of a call after its `(`, and the closing `)`.
    fn finish_call(&mut self, tokens: &Vec<Token>, callee: Expr) -> (r: Result<Expr, ParseError>)
        requires
            old(self).inv(tokens@),
        ensures
            final(self).inv(tokens@),
            old(self).pos <= final(self).pos,
            match r {
                Ok(e) => {
                    &&& e is Call
                    &&& callee_of(e) == callee
                    &&& old(self).pos < final(self).pos
                    &&& tokens@[final(self).pos - 1].kind == TokenKind::RightParen
                    &&& paren_of(e) == tokens@[final(self).pos - 1]
                    &&& derives_arguments(
                        tokens@.subrange(old(self).pos as int, final(self).pos - 1),
                        arguments_of(e),
                    )
                },
                Err(err) => err.spec_line() == tokens@[final(self).pos as int].line,
            },
            forall|close: int, args: Seq<Expr>|
                #[trigger] arguments_at(tokens@, old(self).pos as int, close, args) ==> r is Ok
                    && final(self).pos == close + 1,
        decreases tokens@.len() - self.pos, 12nat,
    {
        let start = self.pos;
        let mut arguments: Vec<Expr> = vec![];
        if !self.peek_matches(tokens, TokenKind::RightParen) {
            proof {
                assert forall|close: int, args: Seq<Expr>|
                    #[trigger] arguments_at(tokens@, start as int, close, args) implies args.len() >= 1
                    && arguments_rest(tokens@, start as int, close, args.len() as int) by {
                    if args.len() == 0 {
                        assert(tokens@.subrange(start as int, close).len() == 0);
                    }
                    lemma_arguments_from_left(tokens@, start as int, close, args);
                }
            }
            loop
                invariant_except_break
                    arguments@.len() == 0 ==> self.pos == start,
                    arguments@.len() > 0 ==> start + 1 < self.pos && tokens@[self.pos - 1].kind
                        == TokenKind::Comma && derives_arguments(
                        tokens@.subrange(start as int, self.pos - 1),
                        arguments@,
                    ),
                    forall|close: int, args: Seq<Expr>|
                        #[trigger] arguments_at(tokens@, start as int, close, args) ==> arguments@.len()
                            < args.len() && arguments_rest(
                            tokens@,
                            self.pos as int,
                            close,
                            args.len() - arguments@.len(),
                        ),
                invariant
                    self.inv(tokens@),
                    start == old(self).pos,
                    start <= self.pos,
                ensures
                    self.inv(tokens@),
                    start == old(self).pos,
                    arguments@.len() > 0,
                    start < self.pos,
                    derives_arguments(tokens@.subrange(start as int, self.pos as int), arguments@),
                    forall|close: int, args: Seq<Expr>|
                        #[trigger] arguments_at(tokens@, start as int, close, args) ==> self.pos
                            == close,
                decreases tokens@.len() - self.pos,
            {
                if arguments.len() >= 255 {
                    proof {
                        assert forall|close: int, args: Seq<Expr>|
                            #[trigger] arguments_at(tokens@, start as int, close, args) implies false by {
                            assert(args.len() <= 255);
                        }
                    }
                    return Err(self.error(tokens, "can't have more than 255 arguments"));
                }
                let arg_start = self.pos;
                proof {
                    assert forall|close: int, args: Seq<Expr>|
                        #[trigger] arguments_at(tokens@, start as int, close, args) implies exists|
                        m: int,
                        x: Expr,
                    |
                        #[trigger] expression_at(Level::Or, tokens@, arg_start as int, m, x) && (args.len()
                            - arguments@.len() == 1 ==> m == close) && (args.len() - arguments@.len()
                            > 1 ==> m < close && tokens@[m].kind == TokenKind::Comma && arguments_rest(
                            tokens@,
                            m + 1,
                            close,
                            args.len() - arguments@.len() - 1,
                        )) by {
                        let (m, x) = lemma_arguments_next(
                            tokens@,
                            arg_start as int,
                            close,
                            args.len() - arguments@.len(),
                        );
                    }
                }
                let arg = match self.expression(tokens) {
                    Ok(x) => x,
                    Err(err) => {
                        proof {
                            assert forall|close: int, args: Seq<Expr>|
                                #[trigger] arguments_at(tokens@, start as int, close, args) implies false by {
                                let (m, x) = choose|m: int, x: Expr|
                                    #[trigger] expression_at(Level::Or, tokens@, arg_start as int, m, x);
                            }
                        }
                        return Err(err);
                    },
                };
                let ghost before = arguments@;
                arguments.push(arg);
                proof {
                    if before.len() == 0 {
                        lemma_arguments_first(tokens@.subrange(start as int, self.pos as int), arg);
                        assert(arguments@ =~= seq![arg]);
                    } else {
                        lemma_arguments_step(
                            tokens@,
                            start as int,
                            arg_start - 1,
                            self.pos as int,
                            before,
                            arg,
                        );
                    }
                }
                let comma_pos = self.pos;
                if !self.advance_if(tokens, TokenKind::Comma) {
                    proof {
                        assert forall|close: int, args: Seq<Expr>|
                            #[trigger] arguments_at(tokens@, start as int, close, args) implies self.pos
                            == close by {
                            let (m, x) = choose|m: int, x: Expr|
                                #[trigger] expression_at(Level::Or, tokens@, arg_start as int, m, x) && (
                                args.len() - before.len() == 1 ==> m == close) && (args.len()
                                    - before.len() > 1 ==> m < close && tokens@[m].kind
                                    == TokenKind::Comma);
                        }
                    }
                    break;
                }
                proof {
                    assert forall|close: int, args: Seq<Expr>|
                        #[trigger] arguments_at(tokens@, start as int, close, args) implies arguments@.len()
                        < args.len() && arguments_rest(
                        tokens@,
                        self.pos as int,
                        close,
                        args.len() - arguments@.len(),
                    ) by {
                        let (m, x) = choose|m: int, x: Expr|
                            #[trigger] expression_at(Level::Or, tokens@, arg_start as int, m, x) && (args.len()
                                - before.len() == 1 ==> m == close) && (args.len() - before.len() > 1
                                ==> m < close && tokens@[m].kind == TokenKind::Comma && arguments_rest(
                                tokens@,
                                m + 1,
                                close,
                                args.len() - before.len() - 1,
                            ));
                        assert(tokens@[close].kind == TokenKind::RightParen);
                    }
                }
            }
        } else {
            proof {
                assert forall|close: int, args: Seq<Expr>|
                    #[trigger] arguments_at(tokens@, start as int, close, args) implies close == start by {
                    if args.len() >= 1 {
                        lemma_arguments_from_left(tokens@, start as int, close, args);
                        let (m, x) = lemma_arguments_next(tokens@, start as int, close, args.len() as int);
                        lemma_first_token(Level::Or, tokens@.subrange(start as int, m), x);
                        assert(tokens@.subrange(start as int, m)[0] == tokens@[start as int]);
                    } else {
                        assert(tokens@.subrange(start as int, close).len() == 0);
                    }
                }
            }
        }
        let ghost args_end = self.pos;
        let right_paren = self.consume(tokens, TokenKind::RightParen, "'(' was never closed")?;
        let e = Expr::Call { callee: Box::new(callee), paren: right_paren, arguments };
        proof {
            if arguments@.len() == 0 {
                assert(tokens@.subrange(start as int, args_end as int) =~= Seq::<Token>::empty());
            }
        }
        Ok(e)
    }

    /// A literal, a variable, or a parenthesised expression.
    fn primary(&mut self, tokens: &Vec<Token>) -> (r: Result<Expr, ParseError>)
        requires
            old(self).inv(tokens@),
        ensures
            final(self).inv(tokens@),
            old(self).pos <= final(self).pos,
            expr_result(Level::Primary, tokens@, old(self).pos as nat, final(self).pos as nat, r),
            r is Err && final(self).pos == old(self).pos ==> r->Err_0.spec_text()
                == "don't know how to parse token "@ + tokens@[old(self).pos as int].kind.spec_name()
                + " here"@,
            forall|end: int, e: Expr|
                #[trigger] expression_at(Level::Primary, tokens@, old(self).pos as int, end, e)
                    ==> r is Ok && final(self).pos == end,
        decreases tokens@.len() - self.pos, 0nat,
    {
        let start = self.pos;
        proof {
            assert forall|end: int, e: Expr|
                #[trigger] expression_at(Level::Primary, tokens@, start as int, end, e)
                    && tokens@[start as int].kind != TokenKind::LeftParen implies end == start + 1
                && primary_token(tokens@[start as int], e) by {
                lemma_primary_single(tokens@, start as int, end, e);
            }
        }
        if self.advance_if(tokens, TokenKind::False) {
            let e = Expr::Literal(Literal::Bool(false));
            proof {
                assert(tokens@.subrange(start as int, self.pos as int)[0] == tokens@[start as int]);
            }
            return Ok(e);
        }
        if self.advance_if(tokens, TokenKind::True) {
            let e = Expr::Literal(Literal::Bool(true));
            proof {
                assert(tokens@.subrange(start as int, self.pos as int)[0] == tokens@[start as int]);
            }
            return Ok(e);
        }
        if self.advance_if(tokens, TokenKind::NoneKeyword) {
            let e = Expr::Literal(Literal::NoneValue);
            proof {
                assert(tokens@.subrange(start as int, self.pos as int)[0] == tokens@[start as int]);
            }
            return Ok(e);
        }
        if self.advance_if_any(tokens, &[TokenKind::Int, TokenKind::Float, TokenKind::String]) {
            let token = self.previous_clone();
            proof {
                assert(tokens@.subrange(start as int, self.pos as int)[0] == tokens@[start as int]);
            }
            return match token.literal {
                Some(literal) => Ok(Expr::Literal(literal)),
                None => Err(
                    ParseError::ParseError(
                        SourceLocation { line: tokens[self.pos].line },
                        crate::text::concat3("got token type ", token.kind.name(), " without literal"),
                    ),
                ),
            };
        }
        if self.advance_if(tokens, TokenKind::Identifier) {
            let e = Expr::Variable(self.previous_clone());
            proof {
                assert(tokens@.subrange(start as int, self.pos as int)[0] == tokens@[start as int]);
            }
            return Ok(e);
        }
        if self.advance_if(tokens, TokenKind::LeftParen) {
            proof {
                assert forall|end: int, e: Expr|
                    #[trigger] expression_at(Level::Primary, tokens@, start as int, end, e) implies tokens@[end
                    - 1].kind == TokenKind::RightParen && expression_at(
                    Level::Or,
                    tokens@,
                    start + 1,
                    end - 1,
                    inner_of(e),
                ) by {
                    lemma_primary_grouping(tokens@, start as int, end, e);
                }
            }
            let expr = match self.expression(tokens) {
                Ok(x) => x,
                Err(err) => {
                    proof {
                        assert forall|end: int, e: Expr|
                            #[trigger] expression_at(Level::Primary, tokens@, start as int, end, e) implies false by {
                            assert(expression_at(Level::Or, tokens@, start + 1, end - 1, inner_of(e)));
                        }
                    }
                    return Err(err);
                },
            };
            let close = self.pos;
            self.consume(tokens, TokenKind::RightParen, "'(' was never closed")?;
            let e = Expr::Grouping(Box::new(expr));
            proof {
                lemma_grouping(tokens@, start as int, self.pos as int, e);
                assert forall|end: int, e2: Expr|
                    #[trigger] expression_at(Level::Primary, tokens@, start as int, end, e2) implies self.pos
                    == end by {
                    assert(expression_at(Level::Or, tokens@, start + 1, end - 1, inner_of(e2)));
                }
            }
            return Ok(e);
        }
        let peek_kind = self.peek_kind(tokens);
        Err(
            ParseError::ParseError(
                SourceLocation { line: tokens[self.pos].line },
                crate::text::concat3("don't know how to parse token ", peek_kind.name(), " here"),
            ),
        )
    }
}


/// The tokens of `ts` from `pos` up to the line end or the end marker at
/// `end` are an expression `e`, or an assignment of `e` to a variable.
pub open spec fn line_at(ts: Seq<Token>, pos: int, end: int, e: Expr) -> bool {
    &&& 0 <= pos < end < ts.len()
    &&& ts[end].kind == TokenKind::NewLine || ts[end].kind == TokenKind::Eof
    &&& {
        ||| expression_at(Level::Or, ts, pos, end, e)
        ||| {
            &&& ts[pos].kind == TokenKind::Identifier
            &&& assignment_op(ts[pos + 1].kind)
            &&& expression_at(Level::Or, ts, pos + 2, end, e)
        }
    }
}

/// What the statement parser meets first on such a line: an expression up
/// to `r.0`, which is the whole line or the variable of an assignment.
proof fn lemma_line_target(ts: Seq<Token>, start: int, end: int, e: Expr) -> (r: (int, Expr))
    requires
        line_at(ts, start, end, e),
    ensures
        expression_at(Level::Or, ts, start, r.0, r.1),
        begins(Level::Or, ts[start].kind),
        (r.0 == end && (ts[r.0].kind == TokenKind::NewLine || ts[r.0].kind == TokenKind::Eof)) || (r.0
            == start + 1 && assignment_op(
            ts[r.0].kind,
        ) && expression_at(Level::Or, ts, r.0 + 1, end, e)),
{
    if expression_at(Level::Or, ts, start, end, e) {
        lemma_first_token(Level::Or, ts.subrange(start, end), e);
        assert(ts.subrange(start, end)[0] == ts[start]);
        (end, e)
    } else {
        let one = ts.subrange(start, start + 1);
        assert(one[0] == ts[start]);
        lemma_variable_derives(Level::Or, one);
        (start + 1, Expr::Variable(ts[start]))
    }
}

/// From `pos` on, the tokens of `ts` are the statements of a program, each
/// after any number of line ends, then only line ends up to `stop`, where
/// the end marker or a `Dedent` is.
pub open spec fn program_at(ts: Seq<Token>, pos: int, stop: int) -> bool
    decreases stop - pos, 5nat,
{
    &&& 0 <= pos <= stop < ts.len()
    &&& if ts[pos].kind == TokenKind::NewLine {
        pos < stop && program_at(ts, pos + 1, stop)
    } else if pos == stop {
        ts[stop].kind == TokenKind::Eof || ts[stop].kind == TokenKind::Dedent
    } else {
        let m = statement_end(ts, pos, stop);
        &&& pos < m <= stop
        &&& statement_at(ts, pos, m)
        &&& program_at(ts, m, stop)
    }
}

/// Where a statement that begins at `q` ends, if one does by `stop`.
pub open spec fn statement_end(ts: Seq<Token>, q: int, stop: int) -> int
    decreases stop - q, 4nat,
{
    choose|m: int| q < m <= stop && statement_at(ts, q, m)
}

/// The tokens of `ts` from `q` up to `m` are one statement of a program:
/// a line that is an expression or an assignment, `pass`, `return` with or
/// without a value before a line end or the end marker, a `while` loop, an `if` statement, a
/// function definition or a class declaration.
pub open spec fn statement_at(ts: Seq<Token>, q: int, m: int) -> bool
    decreases m - q, 3nat,
{
    &&& 0 <= q < m < ts.len()
    &&& {
        ||| exists|k: int, e: Expr| m == line_stop(ts, k) && #[trigger] line_at(ts, q, k, e)
        ||| (ts[q].kind == TokenKind::Pass && m == q + 1)
        ||| (ts[q].kind == TokenKind::Return && m == q + 1 && (ts[m].kind == TokenKind::NewLine
            || ts[m].kind == TokenKind::Eof))
        ||| (ts[q].kind == TokenKind::Return && (ts[m].kind == TokenKind::NewLine || ts[m].kind
            == TokenKind::Eof) && exists|e: Expr|
            #[trigger] expression_at(Level::Or, ts, q + 1, m, e))
        ||| (ts[q].kind == TokenKind::While && exists|c: int, e: Expr|
            q + 1 < c < m - 1 && ts[c].kind == TokenKind::Colon && #[trigger] expression_at(
                Level::Or,
                ts,
                q + 1,
                c,
                e,
            ) && suite_at(ts, c + 1, m))
        ||| (ts[q].kind == TokenKind::If && if_at(ts, q, m))
        ||| {
            &&& ts[q].kind == TokenKind::Def
            &&& q + 3 < m
            &&& ts[q + 1].kind == TokenKind::Identifier
            &&& ts[q + 2].kind == TokenKind::LeftParen
            &&& exists|ps: Seq<Token>|
                #![trigger derives_params(ts.subrange(q + 3, q + 3 + params_len(ps.len() as int)), ps)]
                ps.len() <= 256 && q + 3 + params_len(ps.len() as int) + 3 < m && derives_params(
                    ts.subrange(q + 3, q + 3 + params_len(ps.len() as int)),
                    ps,
                ) && ts[q + 3 + params_len(ps.len() as int)].kind == TokenKind::RightParen && ts[q + 4
                    + params_len(ps.len() as int)].kind == TokenKind::Colon && ts[q + 5 + params_len(
                    ps.len() as int,
                )].kind == TokenKind::NewLine && block_at(
                    ts,
                    q + 6 + params_len(ps.len() as int),
                    m,
                )
        }
        ||| {
            &&& ts[q].kind == TokenKind::Class
            &&& q + 4 < m
            &&& ts[q + 1].kind == TokenKind::Identifier
            &&& ts[q + 2].kind == TokenKind::Colon
            &&& ts[q + 3].kind == TokenKind::NewLine
            &&& block_at(ts, q + 4, m)
        }
    }
}

/// The tokens of `ts` from `q` up to `m` are an `if` statement, or what
/// follows an `elif`: a condition, `:` and a branch, then its tail.
pub open spec fn if_at(ts: Seq<Token>, q: int, m: int) -> bool
    decreases m - q, 1nat,
{
    &&& 0 <= q < m < ts.len()
    &&& (ts[q].kind == TokenKind::If || ts[q].kind == TokenKind::Elif)
    &&& exists|c: int, t: int, e: Expr|
        #![trigger expression_at(Level::Or, ts, q + 1, c, e), ts[t]]
        q + 1 < c < t - 1 && t <= m && ts[c].kind == TokenKind::Colon && expression_at(
            Level::Or,
            ts,
            q + 1,
            c,
            e,
        ) && suite_at(ts, c + 1, t) && if_rest_at(ts, t, m)
}

/// The tokens of `ts` from `t` up to `m` are the tail of an `if` statement
/// after a branch: nothing, an `elif` part, or an `else` part; no `else`
/// comes right after it.
pub open spec fn if_rest_at(ts: Seq<Token>, t: int, m: int) -> bool
    decreases m - t, 2nat,
{
    &&& 0 <= t <= m < ts.len()
    &&& {
        ||| (t == m && ts[t].kind != TokenKind::Elif && ts[t].kind != TokenKind::Else)
        ||| (ts[t].kind == TokenKind::Elif && if_at(ts, t, m))
        ||| {
            &&& ts[t].kind == TokenKind::Else
            &&& t + 3 < m
            &&& ts[t + 1].kind == TokenKind::Colon
            &&& suite_at(ts, t + 2, m)
            &&& ts[m].kind != TokenKind::Else
        }
    }
}

/// The tokens of `ts` from `s` up to `m` are the branch or body of a
/// compound statement: a line end and an indented block, or a line that is
/// an expression or an assignment.
pub open spec fn suite_at(ts: Seq<Token>, s: int, m: int) -> bool
    decreases m - s, 1nat,
{
    ||| (0 <= s && s + 1 < m && ts[s].kind == TokenKind::NewLine && ts[s + 1].kind == TokenKind::Indent
        && block_at(ts, s + 1, m))
    ||| exists|k: int, e: Expr|
        m == k + 1 && ts[k].kind == TokenKind::NewLine && #[trigger] line_at(ts, s, k, e)
}

/// Where a line that ends at `k` stops: after its line end, or at the end
/// marker.
pub open spec fn line_stop(ts: Seq<Token>, k: int) -> int {
    if ts[k].kind == TokenKind::NewLine {
        k + 1
    } else {
        k
    }
}

/// The tokens of `ts` from `s` up to `m` are an indented block: `Indent`,
/// the statements of a program, and `Dedent`.
pub open spec fn block_at(ts: Seq<Token>, s: int, m: int) -> bool
    decreases m - s, 0nat,
{
    &&& 0 <= s < m - 1
    &&& m <= ts.len()
    &&& ts[s].kind == TokenKind::Indent
    &&& ts[m - 1].kind == TokenKind::Dedent
    &&& program_at(ts, s + 1, m - 1)
}

/// A statement that begins with a token that cannot begin an expression is
/// not an expression or assignment line.
proof fn lemma_statement_not_line_all(ts: Seq<Token>, q: int)
    requires
        0 <= q < ts.len(),
        !begins(Level::Or, ts[q].kind),
    ensures
        forall|k: int, e: Expr| !#[trigger] line_at(ts, q, k, e),
{
    assert forall|k: int, e: Expr| !#[trigger] line_at(ts, q, k, e) by {
        if line_at(ts, q, k, e) {
            lemma_line_target(ts, q, k, e);
        }
    }
}

/// The parameters of a function definition from `q` up to `m`.
spec fn def_params(ts: Seq<Token>, q: int, m: int) -> Seq<Token> {
    choose|ps: Seq<Token>|
        #![trigger derives_params(ts.subrange(q + 3, q + 3 + params_len(ps.len() as int)), ps)]
        ps.len() <= 256 && q + 3 + params_len(ps.len() as int) + 3 < m && derives_params(
            ts.subrange(q + 3, q + 3 + params_len(ps.len() as int)),
            ps,
        ) && ts[q + 3 + params_len(ps.len() as int)].kind == TokenKind::RightParen && ts[q + 4
            + params_len(ps.len() as int)].kind == TokenKind::Colon && ts[q + 5 + params_len(
            ps.len() as int,
        )].kind == TokenKind::NewLine && block_at(
            ts,
            q + 6 + params_len(ps.len() as int),
            m,
        )
}

/// What a function definition from `q` up to `m` is made of.
proof fn lemma_def_target(ts: Seq<Token>, q: int, m: int)
    requires
        statement_at(ts, q, m),
        ts[q].kind == TokenKind::Def,
    ensures
        ({
            let ps = def_params(ts, q, m);
            let k = q + 3 + params_len(ps.len() as int);
            &&& ps.len() <= 256
            &&& k + 3 < m
            &&& ts[q + 1].kind == TokenKind::Identifier
            &&& ts[q + 2].kind == TokenKind::LeftParen
            &&& ts[k].kind == TokenKind::RightParen
            &&& ts[k + 1].kind == TokenKind::Colon
            &&& ts[k + 2].kind == TokenKind::NewLine
            &&& block_at(ts, k + 3, m)
            &&& forall|j: int|
                0 <= j < params_len(ps.len() as int) ==> if j % 2 == 0 {
                    (#[trigger] ts[q + 3 + j]).kind == TokenKind::Identifier
                } else {
                    ts[q + 3 + j].kind == TokenKind::Comma
                }
        }),
{
    lemma_statement_not_line_all(ts, q);
    let ps = def_params(ts, q, m);
    let k = q + 3 + params_len(ps.len() as int);
    let sub = ts.subrange(q + 3, k);
    assert forall|j: int| 0 <= j < params_len(ps.len() as int) implies if j % 2 == 0 {
        (#[trigger] ts[q + 3 + j]).kind == TokenKind::Identifier
    } else {
        ts[q + 3 + j].kind == TokenKind::Comma
    } by {
        assert(sub[j] == ts[q + 3 + j]);
    }
}

/// What a `while` loop from `q` up to `m` is made of: a condition up to
/// the `:` at `r.0`, and a body after it.
proof fn lemma_while_target(ts: Seq<Token>, q: int, m: int) -> (r: (int, Expr))
    requires
        statement_at(ts, q, m),
        ts[q].kind == TokenKind::While,
    ensures
        q + 1 < r.0 < m - 1,
        ts[r.0].kind == TokenKind::Colon,
        expression_at(Level::Or, ts, q + 1, r.0, r.1),
        suite_at(ts, r.0 + 1, m),
{
    lemma_statement_not_line_all(ts, q);
    choose|c: int, e: Expr|
        q + 1 < c < m - 1 && ts[c].kind == TokenKind::Colon && #[trigger] expression_at(
            Level::Or,
            ts,
            q + 1,
            c,
            e,
        ) && suite_at(ts, c + 1, m)
}

/// What an `if` statement from `q` up to `m` is made of: a condition up to
/// the `:` at `r.0`, a branch up to `r.1`, and a tail after it.
proof fn lemma_if_target(ts: Seq<Token>, q: int, m: int) -> (r: (int, int, Expr))
    requires
        if_at(ts, q, m),
    ensures
        q + 1 < r.0 < r.1 - 1,
        r.1 <= m,
        ts[r.0].kind == TokenKind::Colon,
        expression_at(Level::Or, ts, q + 1, r.0, r.2),
        suite_at(ts, r.0 + 1, r.1),
        if_rest_at(ts, r.1, m),
{
    choose|c: int, t: int, e: Expr|
        #![trigger expression_at(Level::Or, ts, q + 1, c, e), ts[t]]
        q + 1 < c < t - 1 && t <= m && ts[c].kind == TokenKind::Colon && expression_at(
            Level::Or,
            ts,
            q + 1,
            c,
            e,
        ) && suite_at(ts, c + 1, t) && if_rest_at(ts, t, m)
}

/// No `else` follows an `if` statement.
proof fn lemma_if_end(ts: Seq<Token>, q: int, m: int)
    requires
        if_at(ts, q, m),
    ensures
        ts[m].kind != TokenKind::Else,
    decreases m - q, 1nat,
{
    let (c, t, e) = lemma_if_target(ts, q, m);
    lemma_if_rest_end(ts, t, m);
}

/// No `else` follows the tail of an `if` statement.
proof fn lemma_if_rest_end(ts: Seq<Token>, t: int, m: int)
    requires
        if_rest_at(ts, t, m),
    ensures
        ts[m].kind != TokenKind::Else,
    decreases m - t, 2nat,
{
    if ts[t].kind == TokenKind::Elif && if_at(ts, t, m) {
        lemma_if_end(ts, t, m);
    }
}

/// A program that begins with a line end goes on after it.
proof fn lemma_program_skip(ts: Seq<Token>, pos: int, stop: int)
    requires
        program_at(ts, pos, stop),
        ts[pos].kind == TokenKind::NewLine,
    ensures
        program_at(ts, pos + 1, stop),
{
}

/// A program that does not begin with a line end is over, at the end
/// marker or a `Dedent`, or it begins with a statement up to `r` and goes
/// on after it.
proof fn lemma_program_next(ts: Seq<Token>, pos: int, stop: int) -> (r: int)
    requires
        program_at(ts, pos, stop),
        ts[pos].kind != TokenKind::NewLine,
    ensures
        ts[pos].kind == TokenKind::Eof || ts[pos].kind == TokenKind::Dedent ==> pos == stop,
        !(ts[pos].kind == TokenKind::Eof || ts[pos].kind == TokenKind::Dedent) ==> pos < r <= stop
            && statement_at(ts, pos, r) && program_at(ts, r, stop),
{
    if pos == stop {
        pos
    } else {
        let m = statement_end(ts, pos, stop);
        assert(statement_at(ts, pos, m));
        if ts[pos].kind == TokenKind::Eof || ts[pos].kind == TokenKind::Dedent {
            lemma_statement_not_line_all(ts, pos);
        }
        m
    }
}

/// The errors in `after` are those in `before` followed by parse errors.
pub open spec fn errors_extended(before: Seq<CompilerError>, after: Seq<CompilerError>) -> bool {
    &&& before.len() <= after.len()
    &&& after.take(before.len() as int) == before
    &&& forall|i: int| before.len() <= i < after.len() ==> (#[trigger] after[i]) is Parse
}

/// No error added.
proof fn lemma_errors_same(a: Seq<CompilerError>)
    ensures
        errors_extended(a, a),
{
    assert(a.take(a.len() as int) =~= a);
}

/// One parse error added.
proof fn lemma_errors_push(a: Seq<CompilerError>, e: ParseError)
    ensures
        errors_extended(a, a.push(CompilerError::Parse(e))),
{
    assert(a.push(CompilerError::Parse(e)).take(a.len() as int) =~= a);
}

/// Errors added twice.
proof fn lemma_errors_trans(a: Seq<CompilerError>, b: Seq<CompilerError>, c: Seq<CompilerError>)
    requires
        errors_extended(a, b),
        errors_extended(b, c),
    ensures
        errors_extended(a, c),
{
    assert forall|i: int| 0 <= i < a.len() implies c.take(a.len() as int)[i] == a[i] by {
        assert(c.take(b.len() as int)[i] == c[i]);
        assert(b.take(a.len() as int)[i] == b[i]);
    }
    assert(c.take(a.len() as int) =~= a);
    assert forall|i: int| a.len() <= i < c.len() implies (#[trigger] c[i]) is Parse by {
        if i < b.len() {
            assert(c.take(b.len() as int)[i] == c[i]);
        }
    }
}

/// One more line end after some statements.
proof fn lemma_stmts_newline(s: Seq<Token>, a: int, b: int, ss: Seq<Stmt>)
    requires
        0 <= a <= b < s.len(),
        s[b].kind == TokenKind::NewLine,
        derives_stmts(s.subrange(a, b), ss),
    ensures
        derives_stmts(s.subrange(a, b + 1), ss),
{
    let ts = s.subrange(a, b);
    let ts2 = s.subrange(a, b + 1);
    if ss.len() == 0 {
        assert forall|i: int| 0 <= i < ts2.len() implies (#[trigger] ts2[i]).kind
            == TokenKind::NewLine by {
            if i < ts.len() {
                assert(ts2[i] == ts[i]);
            }
        }
    } else {
        let (i, j) = choose|i: int, j: int|
            #![trigger ts.subrange(i, j)]
            0 <= i < j <= ts.len() && derives_stmts(ts.subrange(0, i), ss.drop_last())
                && derives_stmt(ts.subrange(i, j), ss.last()) && all_newlines(
                ts.subrange(j, ts.len() as int),
            );
        assert(ts2.subrange(0, i) =~= ts.subrange(0, i));
        assert(ts2.subrange(i, j) =~= ts.subrange(i, j));
        let rest = ts.subrange(j, ts.len() as int);
        let rest2 = ts2.subrange(j, ts2.len() as int);
        assert forall|k: int| 0 <= k < rest2.len() implies (#[trigger] rest2[k]).kind
            == TokenKind::NewLine by {
            if k < rest.len() {
                assert(rest2[k] == rest[k]);
            }
        }
        assert(all_newlines(rest2));
    }
}

/// One more statement after some statements.
proof fn lemma_stmts_push(s: Seq<Token>, a: int, m: int, b: int, ss: Seq<Stmt>, st: Stmt)
    requires
        0 <= a <= m < b <= s.len(),
        derives_stmts(s.subrange(a, m), ss),
        derives_stmt(s.subrange(m, b), st),
    ensures
        derives_stmts(s.subrange(a, b), ss.push(st)),
{
    let ts = s.subrange(a, b);
    assert(ts.subrange(0, m - a) =~= s.subrange(a, m));
    assert(ts.subrange(m - a, b - a) =~= s.subrange(m, b));
    assert(ss.push(st).drop_last() =~= ss);
    assert(ts.subrange(b - a, ts.len() as int) =~= Seq::<Token>::empty());
    assert(ss.push(st).last() == st);
}

/// An indented block.
proof fn lemma_block(s: Seq<Token>, a: int, b: int, body: Seq<Stmt>)
    requires
        0 <= a,
        a + 2 <= b <= s.len(),
        s[a].kind == TokenKind::Indent,
        s[b - 1].kind == TokenKind::Dedent,
        derives_stmts(s.subrange(a + 1, b - 1), body),
    ensures
        derives_block(s.subrange(a, b), body),
{
    let ts = s.subrange(a, b);
    assert(ts.subrange(1, ts.len() - 1) =~= s.subrange(a + 1, b - 1));
    assert(ts[0] == s[a]);
    assert(ts.last() == s[b - 1]);
}

/// The first parameter name.
proof fn lemma_params_first(s: Seq<Token>, a: int)
    requires
        0 <= a < s.len(),
        s[a].kind == TokenKind::Identifier,
    ensures
        derives_params(s.subrange(a, a + 1), seq![s[a]]),
{
    let ts = s.subrange(a, a + 1);
    assert(ts[0] == s[a]);
}

/// One more parameter name after a comma.
proof fn lemma_params_step(s: Seq<Token>, a: int, c: int, ps: Seq<Token>)
    requires
        0 <= a < c,
        c + 1 < s.len(),
        ps.len() >= 1,
        derives_params(s.subrange(a, c), ps),
        s[c].kind == TokenKind::Comma,
        s[c + 1].kind == TokenKind::Identifier,
    ensures
        derives_params(s.subrange(a, c + 2), ps.push(s[c + 1])),
{
    let ts = s.subrange(a, c);
    let ts2 = s.subrange(a, c + 2);
    let ps2 = ps.push(s[c + 1]);
    assert forall|j: int| 0 <= j < ts2.len() implies if j % 2 == 0 {
        #[trigger] ts2[j] == ps2[j / 2] && ts2[j].kind == TokenKind::Identifier
    } else {
        ts2[j].kind == TokenKind::Comma
    } by {
        if j < ts.len() {
            assert(ts2[j] == ts[j]);
            assert(ts[j] == s[a + j]);
        } else if j == ts.len() {
            assert(ts2[j] == s[c]);
        } else {
            assert(ts2[j] == s[c + 1]);
            assert(j / 2 == ps.len());
        }
    }
}

/// A function definition.
proof fn lemma_def(s: Seq<Token>, a: int, k: int, b: int, st: Stmt)
    requires
        0 <= a,
        a + 3 <= k,
        k + 3 < b <= s.len(),
        st matches Stmt::Function { name, params, body } && {
            &&& s[a].kind == TokenKind::Def
            &&& s[a + 1].kind == TokenKind::Identifier
            &&& s[a + 1] == name
            &&& s[a + 2].kind == TokenKind::LeftParen
            &&& derives_params(s.subrange(a + 3, k), params@)
            &&& s[k].kind == TokenKind::RightParen
            &&& s[k + 1].kind == TokenKind::Colon
            &&& s[k + 2].kind == TokenKind::NewLine
            &&& derives_block(s.subrange(k + 3, b), body@)
        },
    ensures
        derives_def(s.subrange(a, b), st),
{
    let ts = s.subrange(a, b);
    let i = k - a;
    assert(ts.subrange(3, i) =~= s.subrange(a + 3, k));
    assert(ts.subrange(i + 3, ts.len() as int) =~= s.subrange(k + 3, b));
    assert(ts[0] == s[a] && ts[1] == s[a + 1] && ts[2] == s[a + 2]);
    assert(ts[i] == s[k] && ts[i + 1] == s[k + 1] && ts[i + 2] == s[k + 2]);
}

/// A class declaration.
proof fn lemma_class(s: Seq<Token>, a: int, b: int, st: Stmt)
    requires
        0 <= a,
        a + 4 < b <= s.len(),
        st matches Stmt::Class { name, body } && {
            &&& s[a].kind == TokenKind::Class
            &&& s[a + 1].kind == TokenKind::Identifier
            &&& s[a + 1] == name
            &&& s[a + 2].kind == TokenKind::Colon
            &&& s[a + 3].kind == TokenKind::NewLine
            &&& derives_block(s.subrange(a + 4, b), body@)
        },
    ensures
        derives_class(s.subrange(a, b), st),
{
    let ts = s.subrange(a, b);
    assert(ts.subrange(4, ts.len() as int) =~= s.subrange(a + 4, b));
    assert(ts[0] == s[a] && ts[1] == s[a + 1] && ts[2] == s[a + 2] && ts[3] == s[a + 3]);
}

/// A statement that may follow a line end that does not open a block.
proof fn lemma_simple_stmt(s: Seq<Token>, a: int, m: int, b: int, st: Stmt)
    requires
        0 <= a <= m < b <= s.len(),
        m == a || (m == a + 1 && s[a].kind == TokenKind::NewLine && s[m].kind
            != TokenKind::Indent),
        derives_simple_stmt(s.subrange(m, b), st),
    ensures
        derives_stmt(s.subrange(a, b), st),
{
    if m == a + 1 {
        let ts = s.subrange(a, b);
        assert(ts.subrange(1, ts.len() as int) =~= s.subrange(m, b));
        assert(ts[0] == s[a] && ts[1] == s[m]);
    }
}

/// The tokens after the first branch of an `if` statement that ends there.
proof fn lemma_tail_none(s: Seq<Token>, a: int)
    requires
        0 <= a <= s.len(),
    ensures
        if_tail(s.subrange(a, a), None),
{
}

/// An `elif` part after the first branch.
proof fn lemma_tail_elif(s: Seq<Token>, a: int, b: int, st: Stmt)
    requires
        0 <= a < b <= s.len(),
        s[a].kind == TokenKind::Elif,
        derives_if(s.subrange(a, b), st),
    ensures
        if_tail(s.subrange(a, b), Some(Box::new(st))),
{
    assert(s.subrange(a, b)[0] == s[a]);
}

/// An `else` part after the first branch.
proof fn lemma_tail_else(s: Seq<Token>, a: int, b: int, st: Stmt)
    requires
        0 <= a,
        a + 2 <= b <= s.len(),
        s[a].kind == TokenKind::Else,
        s[a + 1].kind == TokenKind::Colon,
        derives_stmt(s.subrange(a + 2, b), st),
    ensures
        if_tail(s.subrange(a, b), Some(Box::new(st))),
        closed_tail(s.subrange(a, b), Some(Box::new(st))),
{
    let ts = s.subrange(a, b);
    assert(ts.subrange(2, ts.len() as int) =~= s.subrange(a + 2, b));
    assert(ts[0] == s[a] && ts[1] == s[a + 1]);
}

/// An `elif` part, whose statement is dropped, and an `else` part.
proof fn lemma_tail_elif_else(s: Seq<Token>, a: int, k: int, b: int, elif_st: Stmt, st: Stmt)
    requires
        0 <= a < k,
        k + 2 <= b <= s.len(),
        s[a].kind == TokenKind::Elif,
        closed_if(s.subrange(a, k), elif_st),
        elif_st is If,
        s[k].kind == TokenKind::Else,
        s[k + 1].kind == TokenKind::Colon,
        derives_stmt(s.subrange(k + 2, b), st),
    ensures
        if_tail(s.subrange(a, b), Some(Box::new(st))),
        closed_tail(s.subrange(a, b), Some(Box::new(st))),
{
    let ts = s.subrange(a, b);
    let i = k - a;
    assert(ts.subrange(0, i) =~= s.subrange(a, k));
    assert(ts.subrange(i + 2, ts.len() as int) =~= s.subrange(k + 2, b));
    assert(ts[0] == s[a] && ts[i] == s[k] && ts[i + 1] == s[k + 1]);
    assert(is_if(elif_st));
}

/// An `if` statement from its parts.
proof fn lemma_if(s: Seq<Token>, a: int, c: int, m: int, b: int, st: Stmt)
    requires
        0 <= a,
        a + 1 < c < m <= b <= s.len(),
        s[a].kind == TokenKind::If || s[a].kind == TokenKind::Elif,
        s[c].kind == TokenKind::Colon,
        st matches Stmt::If { condition, then_body, else_body } && {
            &&& derives_expression(s.subrange(a + 1, c), condition)
            &&& derives_stmt(s.subrange(c + 1, m), *then_body)
            &&& if_tail(s.subrange(m, b), else_body)
        },
    ensures
        derives_if(s.subrange(a, b), st),
{
    let ts = s.subrange(a, b);
    let i = c - a;
    let j = m - a;
    assert(ts.subrange(1, i) =~= s.subrange(a + 1, c));
    assert(ts.subrange(i + 1, j) =~= s.subrange(c + 1, m));
    assert(ts.subrange(j, ts.len() as int) =~= s.subrange(m, b));
    assert(ts[0] == s[a] && ts[i] == s[c]);
}

/// An `if` statement that ends in an `else` part, from its parts.
proof fn lemma_if_closed(s: Seq<Token>, a: int, c: int, m: int, b: int, st: Stmt)
    requires
        0 <= a,
        a + 1 < c < m <= b <= s.len(),
        s[a].kind == TokenKind::If || s[a].kind == TokenKind::Elif,
        s[c].kind == TokenKind::Colon,
        st matches Stmt::If { condition, then_body, else_body } && {
            &&& derives_expression(s.subrange(a + 1, c), condition)
            &&& derives_stmt(s.subrange(c + 1, m), *then_body)
            &&& closed_tail(s.subrange(m, b), else_body)
        },
    ensures
        closed_if(s.subrange(a, b), st),
{
    let ts = s.subrange(a, b);
    let i = c - a;
    let j = m - a;
    assert(ts.subrange(1, i) =~= s.subrange(a + 1, c));
    assert(ts.subrange(i + 1, j) =~= s.subrange(c + 1, m));
    assert(ts.subrange(j, ts.len() as int) =~= s.subrange(m, b));
    assert(ts[0] == s[a] && ts[i] == s[c]);
}

/// A `while` statement from its parts.
proof fn lemma_while(s: Seq<Token>, a: int, c: int, b: int, st: Stmt)
    requires
        0 <= a,
        a + 1 < c < b <= s.len(),
        s[a].kind == TokenKind::While,
        s[c].kind == TokenKind::Colon,
        st matches Stmt::While { condition, body } && {
            &&& derives_expression(s.subrange(a + 1, c), condition)
            &&& derives_stmt(s.subrange(c + 1, b), *body)
        },
    ensures
        derives_stmt(s.subrange(a, b), st),
{
    let ts = s.subrange(a, b);
    let i = c - a;
    assert(ts.subrange(1, i) =~= s.subrange(a + 1, c));
    assert(ts.subrange(i + 1, ts.len() as int) =~= s.subrange(c + 1, b));
    assert(ts[0] == s[a] && ts[i] == s[c]);
}

/// A block statement: a line end and an indented block.
proof fn lemma_block_stmt(s: Seq<Token>, a: int, b: int, body: Vec<Stmt>)
    requires
        0 <= a,
        a + 1 < b <= s.len(),
        s[a].kind == TokenKind::NewLine,
        derives_block(s.subrange(a + 1, b), body@),
    ensures
        derives_stmt(s.subrange(a, b), Stmt::Block(body)),
{
    let ts = s.subrange(a, b);
    assert(ts.subrange(1, ts.len() as int) =~= s.subrange(a + 1, b));
    assert(ts[0] == s[a] && ts[1] == s[a + 1]);
}


/// The kinds of token that a statement may begin with, where recovery from
/// an error stops.
pub open spec fn statement_start(k: TokenKind) -> bool {
    k == TokenKind::Return || k == TokenKind::Def || k == TokenKind::If || k == TokenKind::Class
        || k == TokenKind::For || k == TokenKind::While
}

/// Index `p` of `ts` is where recovery from an error stops: the end marker,
/// or the beginning of a statement on a new line.
pub open spec fn sync_point(ts: Seq<Token>, p: int) -> bool {
    ts[p].kind == TokenKind::Eof || (ts[p - 1].kind == TokenKind::NewLine && statement_start(
        ts[p].kind,
    ))
}

impl Parser {
    /// Whether the last token consumed is of the first of the kinds `kinds`;
    /// the last token is forgotten in any case.
    fn previous_matches_any(&mut self, kinds: &[TokenKind]) -> (r: bool)
        ensures
            final(self).pos == old(self).pos,
            kinds@.len() > 0 ==> final(self).previous is None,
            kinds@.len() == 0 ==> *final(self) == *old(self),
            r == (kinds@.len() > 0 && old(self).previous is Some && old(self).previous->0.kind
                == kinds@[0]),
    {
        let mut i: usize = 0;
        while i < kinds.len()
            invariant
                i <= kinds@.len(),
                self.pos == old(self).pos,
                i == 0 ==> *self == *old(self),
                i > 0 ==> self.previous is None,
                i > 0 ==> !(old(self).previous is Some && old(self).previous->0.kind == kinds@[0]),
            decreases kinds@.len() - i,
        {
            let matched = match &self.previous {
                Some(t) => t.kind == kinds[i],
                None => false,
            };
            self.previous = None;
            if matched {
                return true;
            }
            i += 1;
        }
        false
    }

    /// Skips tokens after an error until the beginning of a statement on a
    /// new line or the end marker. The token the error was found at is
    /// skipped first, unless it is the end marker.
    fn synchronize(&mut self, tokens: &Vec<Token>)
        requires
            old(self).inv(tokens@),
        ensures
            final(self).inv(tokens@),
            tokens@[old(self).pos as int].kind == TokenKind::Eof ==> final(self).pos == old(
                self,
            ).pos,
            tokens@[old(self).pos as int].kind != TokenKind::Eof ==> {
                &&& old(self).pos < final(self).pos
                &&& sync_point(tokens@, final(self).pos as int)
                &&& forall|p: int| old(self).pos < p < final(self).pos ==> !sync_point(tokens@, p)
            },
    {
        if self.is_at_end(tokens) {
            return;
        }
        let start = self.pos;
        self.advance(tokens);
        while !self.is_at_end(tokens)
            invariant
                self.inv(tokens@),
                start == old(self).pos,
                start < self.pos,
                tokens@[start as int].kind != TokenKind::Eof,
                self.previous == Some(tokens@[self.pos - 1]),
                forall|p: int| start < p < self.pos ==> !sync_point(tokens@, p),
            decreases tokens@.len() - self.pos,
        {
            let after_newline = self.previous_matches_any(
                &[TokenKind::NewLine, TokenKind::Indent, TokenKind::Dedent],
            );
            if after_newline && self.peek_matches_any(
                tokens,
                &[
                    TokenKind::Return,
                    TokenKind::Def,
                    TokenKind::If,
                    TokenKind::Class,
                    TokenKind::For,
                    TokenKind::While,
                ],
            ) {
                return;
            }
            self.advance(tokens);
        }
    }

    /// A `return` statement with its value, if any; the line end after it is
    /// left in place.
    fn return_statement(&mut self, tokens: &Vec<Token>) -> (r: Result<Stmt, ParseError>)
        requires
            old(self).inv(tokens@),
            tokens@[old(self).pos as int].kind == TokenKind::Return,
        ensures
            final(self).inv(tokens@),
            old(self).pos < final(self).pos,
            match r {
                Ok(st) => derives_return(tokens@.subrange(old(self).pos as int, final(self).pos as int), st),
                Err(e) => e.spec_line() == tokens@[final(self).pos as int].line,
            },
            forall|m: int| #[trigger] statement_at(tokens@, old(self).pos as int, m) ==> r is Ok && final(self).pos == m,
    {
        let start = self.pos;
        proof {
            lemma_statement_not_line_all(tokens@, start as int);
        }
        let keyword = self.advance(tokens);
        let value = if self.peek_matches(tokens, TokenKind::NewLine) || self.is_at_end(tokens) {
            proof {
                assert forall|m: int| #[trigger] statement_at(tokens@, start as int, m) implies self.pos == m by {
                    if exists|e: Expr| #[trigger] expression_at(Level::Or, tokens@, start + 1, m, e) {
                        let e = choose|e: Expr| #[trigger] expression_at(Level::Or, tokens@, start + 1, m, e);
                        lemma_first_token(Level::Or, tokens@.subrange(start + 1, m), e);
                        assert(tokens@.subrange(start + 1, m)[0] == tokens@[start + 1]);
                    }
                }
            }
            None
        } else {
            let value_start = self.pos;
            let v = match self.expression(tokens) {
                Ok(x) => x,
                Err(err) => {
                    proof {
                        assert forall|m: int| #[trigger] statement_at(tokens@, start as int, m) implies false by {
                            let e = choose|e: Expr| #[trigger] expression_at(Level::Or, tokens@, start + 1, m, e);
                            assert(expression_at(Level::Or, tokens@, value_start as int, m, e));
                        }
                    }
                    return Err(err);
                },
            };
            proof {
                assert forall|m: int| #[trigger] statement_at(tokens@, start as int, m) implies self.pos == m by {
                    let e = choose|e: Expr| #[trigger] expression_at(Level::Or, tokens@, start + 1, m, e);
                    assert(expression_at(Level::Or, tokens@, value_start as int, m, e));
                }
            }
            Some(v)
        };
        let st = Stmt::Return { keyword, value };
        proof {
            let ts = tokens@.subrange(start as int, self.pos as int);
            assert(ts[0] == tokens@[start as int]);
            assert(ts.subrange(1, ts.len() as int) =~= tokens@.subrange(start + 1, self.pos as int));
        }
        Ok(st)
    }

    /// The rest of an assignment statement after its target `l_value`, which
    /// the tokens from `lv_start` form; the next token is the operator.
    fn assignment_statement(&mut self, tokens: &Vec<Token>, l_value: Expr, Ghost(lv_start): Ghost<int>) -> (r: Result<Stmt, ParseError>)
        requires
            old(self).inv(tokens@),
            0 <= lv_start < old(self).pos,
            derives_expression(tokens@.subrange(lv_start, old(self).pos as int), l_value),
            assignment_op(tokens@[old(self).pos as int].kind),
        ensures
            final(self).inv(tokens@),
            old(self).pos < final(self).pos,
            match r {
                Ok(st) => derives_assignment(tokens@.subrange(lv_start, final(self).pos as int), st),
                Err(e) => e.spec_line() == tokens@[final(self).pos as int].line,
            },
            forall|end: int, e: Expr|
                #[trigger] expression_at(Level::Or, tokens@, old(self).pos + 1, end, e)
                    && (tokens@[end].kind == TokenKind::NewLine || tokens@[end].kind == TokenKind::Eof)
                    && lv_start + 1 == old(self).pos && tokens@[lv_start].kind == TokenKind::Identifier
                    ==> r is Ok && r->Ok_0 is Assignment && final(self).pos == if tokens@[end].kind
                    == TokenKind::NewLine {
                    end + 1
                } else {
                    end
                },
    {
        let op_pos = self.pos;
        let operator = self.advance(tokens);
        let ghost value_start = self.pos;
        let r_value = match self.expression(tokens) {
            Ok(x) => x,
            Err(err) => {
                proof {
                    assert forall|end: int, e: Expr|
                        #[trigger] expression_at(Level::Or, tokens@, op_pos + 1, end, e) implies false by {
                        assert(expression_at(Level::Or, tokens@, value_start as int, end, e));
                    }
                }
                return Err(err);
            },
        };
        let value_end = self.pos;
        proof {
            assert forall|end: int, e: Expr|
                #[trigger] expression_at(Level::Or, tokens@, op_pos + 1, end, e) implies value_end == end by {
                assert(expression_at(Level::Or, tokens@, value_start as int, end, e));
            }
            if lv_start + 1 == op_pos && tokens@[lv_start].kind == TokenKind::Identifier {
                assert(tokens@.subrange(lv_start, op_pos as int)[0] == tokens@[lv_start]);
                lemma_variable_only(Level::Or, tokens@.subrange(lv_start, op_pos as int), l_value);
            }
        }
        match l_value {
            Expr::Variable(token) => {
                if self.advance_if(tokens, TokenKind::NewLine) || self.is_at_end(tokens) {
                    let initializer = match operator.kind {
                        TokenKind::Equal => r_value,
                        TokenKind::PlusEqual => Expr::Binary {
                            left: Box::new(Expr::Variable(token.duplicate())),
                            operator: Token::new(TokenKind::Plus, "+", operator.line),
                            right: Box::new(r_value),
                        },
                        TokenKind::MinusEqual => Expr::Binary {
                            left: Box::new(Expr::Variable(token.duplicate())),
                            operator: Token::new(TokenKind::Minus, "-", operator.line),
                            right: Box::new(r_value),
                        },
                        TokenKind::StarEqual => Expr::Binary {
                            left: Box::new(Expr::Variable(token.duplicate())),
                            operator: Token::new(TokenKind::Star, "*", operator.line),
                            right: Box::new(r_value),
                        },
                        _ => Expr::Binary {
                            left: Box::new(Expr::Variable(token.duplicate())),
                            operator: Token::new(TokenKind::Slash, "/", operator.line),
                            right: Box::new(r_value),
                        },
                    };
                    let st = Stmt::Assignment { name: token, initializer };
                    proof {
                        lemma_assignment_at(tokens@, lv_start, op_pos as int, value_end as int, self.pos as int, st);
                    }
                    return Ok(st);
                }
                Err(
                    self.error(
                        tokens,
                        "cannot assign to expression here. Maybe you meant '==' instead of '='?",
                    ),
                )
            },
            Expr::Get { object, name } => {
                let st = Stmt::SetProperty { object: *object, name, value: r_value };
                proof {
                    lemma_assignment_at(tokens@, lv_start, op_pos as int, value_end as int, self.pos as int, st);
                }
                Ok(st)
            },
            _ => Err(self.error(tokens, "expected newline or EOF after assignment statement.")),
        }
    }
}

/// An assignment from its parts: the target from `a`, the operator at `op`,
/// the right-hand side up to `v`, and a line end up to `b`, if any.
proof fn lemma_assignment_at(s: Seq<Token>, a: int, op: int, v: int, b: int, st: Stmt)
    requires
        0 <= a < op,
        op + 1 < v <= b <= s.len(),
        b == v || (b == v + 1 && s[v].kind == TokenKind::NewLine),
        assignment_op(s[op].kind),
        match st {
            Stmt::Assignment { name, initializer } => {
                &&& b == v + 1 || b == v
                &&& derives_expression(s.subrange(a, op), Expr::Variable(name))
                &&& assigned(name, s[op], assigned_value(s[op], initializer), initializer)
                &&& derives_expression(s.subrange(op + 1, v), assigned_value(s[op], initializer))
            },
            Stmt::SetProperty { object, name, value } => {
                &&& b == v
                &&& derives_expression(s.subrange(a, op), Expr::Get { object: Box::new(object), name })
                &&& derives_expression(s.subrange(op + 1, v), value)
            },
            _ => false,
        },
    ensures
        derives_assignment(s.subrange(a, b), st),
{
    let ts = s.subrange(a, b);
    let i = op - a;
    assert(ts.subrange(0, i) =~= s.subrange(a, op));
    assert(ts[i] == s[op]);
    if b == v {
        assert(ts.subrange(i + 1, ts.len() as int) =~= s.subrange(op + 1, v));
    } else {
        assert(ts.subrange(i + 1, ts.len() - 1) =~= s.subrange(op + 1, v));
        assert(ts.last() == s[v]);
    }
    assert(assignment_at(ts, i, st));
}


impl Parser {
    /// Parses `tokens`, which end with the end marker, into statements from
    /// the beginning; the errors found are recorded in `error_reporter`, and
    /// the statements they were found in are left out.
    ///
    /// Parsing stops at the end marker, or at a `Dedent` that closes no
    /// block. When no error was found, the tokens up to there form the
    /// statements returned.
    ///
    /// A program laid out as the lexer lays it out is parsed without error up
    /// to the end marker: its statements are expressions or assignments to a
    /// variable on a line of their own, `pass`, `return` with or without a
    /// value, `while` loops, `if` statements with `elif` and `else` parts,
    /// function definitions and class declarations, whose bodies are an
    /// indented block after a line end, or a single line; line ends may come
    /// before and after each statement, and the last line of the program may
    /// end at the end marker itself. An `if` statement keeps each of its
    /// `elif` parts: only a second `else` after an `elif` chain that already
    /// ended in one replaces that chain.
    pub fn parse(&mut self, tokens: &Vec<Token>, error_reporter: &mut ErrorReporter) -> (r: Vec<Stmt>)
        requires
            tokens_ok(tokens@),
        ensures
            final(self).position() < tokens@.len(),
            tokens@[final(self).position() as int].kind == TokenKind::Eof
                || tokens@[final(self).position() as int].kind == TokenKind::Dedent,
            errors_extended(old(error_reporter).errors@, final(error_reporter).errors@),
            final(error_reporter).errors@.len() == old(error_reporter).errors@.len()
                ==> derives_stmts(tokens@.subrange(0, final(self).position() as int), r@),
            program_at(tokens@, 0, tokens@.len() - 1) ==> final(error_reporter).errors@ == old(
                error_reporter,
            ).errors@ && final(self).position() == tokens@.len() - 1,
    {
        self.pos = 0;
        let ghost errs0 = error_reporter.errors@;
        proof {
            lemma_errors_same(errs0);
        }
        let mut all_statements: Vec<Stmt> = Vec::new();
        let ghost mut first = true;
        loop
            invariant_except_break
                first ==> self.pos == 0 && all_statements@.len() == 0,
                !first ==> tokens@[self.pos as int].kind == TokenKind::Eof
                    || tokens@[self.pos as int].kind == TokenKind::Dedent,
                program_at(tokens@, 0, tokens@.len() - 1) ==> error_reporter.errors@ == errs0 && (!first
                    ==> self.pos == tokens@.len() - 1),
            invariant
                self.inv(tokens@),
                errs0 == old(error_reporter).errors@,
                errors_extended(errs0, error_reporter.errors@),
                error_reporter.errors@.len() == errs0.len() ==> derives_stmts(
                    tokens@.subrange(0, self.pos as int),
                    all_statements@,
                ),
            ensures
                self.inv(tokens@),
                errors_extended(errs0, error_reporter.errors@),
                tokens@[self.pos as int].kind == TokenKind::Eof || tokens@[self.pos as int].kind
                    == TokenKind::Dedent,
                error_reporter.errors@.len() == errs0.len() ==> derives_stmts(
                    tokens@.subrange(0, self.pos as int),
                    all_statements@,
                ),
                program_at(tokens@, 0, tokens@.len() - 1) ==> error_reporter.errors@ == errs0
                    && self.pos == tokens@.len() - 1,
            decreases tokens@.len() - self.pos,
        {
            if self.peek_matches(tokens, TokenKind::Eof) {
                proof {
                    if program_at(tokens@, 0, tokens@.len() - 1) && first {
                        lemma_program_next(tokens@, 0, tokens@.len() - 1);
                    }
                }
                break;
            }
            let ghost before = error_reporter.errors@;
            let ghost pos0 = self.pos;
            let mut statements = self.statements(tokens, error_reporter);
            proof {
                lemma_errors_trans(errs0, before, error_reporter.errors@);
            }
            if statements.len() == 0 {
                proof {
                    if first {
                        assert(tokens@.subrange(0, pos0 as int) =~= Seq::<Token>::empty());
                    }
                }
                break;
            }
            proof {
                assert(first);
                assert(all_statements@ + statements@ =~= statements@);
            }
            all_statements.append(&mut statements);
            proof {
                first = false;
            }
        }
        all_statements
    }

    /// Statements up to the end marker or a `Dedent`, with the line ends
    /// before, between and after them; an error is recorded and recovered
    /// from, and its statement left out.
    fn statements(&mut self, tokens: &Vec<Token>, error_reporter: &mut ErrorReporter) -> (r: Vec<Stmt>)
        requires
            old(self).inv(tokens@),
        ensures
            final(self).inv(tokens@),
            old(self).pos <= final(self).pos,
            tokens@[final(self).pos as int].kind == TokenKind::Eof || tokens@[final(self).pos as int].kind
                == TokenKind::Dedent,
            errors_extended(old(error_reporter).errors@, final(error_reporter).errors@),
            final(error_reporter).errors@.len() == old(error_reporter).errors@.len()
                ==> derives_stmts(
                tokens@.subrange(old(self).pos as int, final(self).pos as int),
                r@,
            ),
            r@.len() > 0 ==> old(self).pos < final(self).pos,
            tokens@[old(self).pos as int].kind == TokenKind::Dedent ==> r@.len() == 0
                && final(self).pos == old(self).pos,
            forall|stop: int|
                #[trigger] program_at(tokens@, old(self).pos as int, stop)
                    ==> final(error_reporter).errors@ == old(error_reporter).errors@
                    && final(self).pos == stop,
        decreases tokens@.len() - self.pos, 20nat,
    {
        let start = self.pos;
        let ghost errs0 = error_reporter.errors@;
        proof {
            lemma_errors_same(errs0);
        }
        let mut statements: Vec<Stmt> = Vec::new();
        while self.peek_matches(tokens, TokenKind::NewLine)
            invariant
                self.inv(tokens@),
                start == old(self).pos,
                start <= self.pos,
                tokens@[start as int].kind == TokenKind::Dedent ==> self.pos == start,
                all_newlines(tokens@.subrange(start as int, self.pos as int)),
                forall|stop: int|
                    #[trigger] program_at(tokens@, start as int, stop) ==> program_at(
                        tokens@,
                        self.pos as int,
                        stop,
                    ),
            decreases tokens@.len() - self.pos,
        {
            proof {
                lemma_stmts_newline(tokens@, start as int, self.pos as int, Seq::<Stmt>::empty());
                assert forall|stop: int| #[trigger] program_at(tokens@, start as int, stop) implies program_at(
                    tokens@,
                    self.pos + 1,
                    stop,
                ) by {
                    lemma_program_skip(tokens@, self.pos as int, stop);
                }
            }
            self.advance(tokens);
        }
        while !self.peek_matches_any(tokens, &[TokenKind::Eof, TokenKind::Dedent])
            invariant
                self.inv(tokens@),
                start == old(self).pos,
                start <= self.pos,
                errs0 == old(error_reporter).errors@,
                errors_extended(errs0, error_reporter.errors@),
                error_reporter.errors@.len() == errs0.len() ==> derives_stmts(
                    tokens@.subrange(start as int, self.pos as int),
                    statements@,
                ),
                statements@.len() > 0 ==> start < self.pos,
                tokens@[start as int].kind == TokenKind::Dedent ==> self.pos == start
                    && statements@.len() == 0,
                tokens@[self.pos as int].kind != TokenKind::NewLine,
                forall|stop: int|
                    #[trigger] program_at(tokens@, start as int, stop) ==> error_reporter.errors@
                        == errs0 && program_at(tokens@, self.pos as int, stop),
            decreases tokens@.len() - self.pos,
        {
            let stmt_start = self.pos;
            let ghost before = error_reporter.errors@;
            proof {
                assert forall|stop: int| #[trigger] program_at(tokens@, start as int, stop) implies exists|
                    m: int,
                |
                    #![trigger tokens@[m]]
                    stmt_start < m <= stop && statement_at(tokens@, stmt_start as int, m) && program_at(
                        tokens@,
                        m,
                        stop,
                    ) by {
                    let m = lemma_program_next(tokens@, stmt_start as int, stop);
                    assert(tokens@[m] == tokens@[m]);
                }
            }
            match self.statement(tokens, error_reporter) {
                Ok(stmt) => {
                    proof {
                        lemma_errors_trans(errs0, before, error_reporter.errors@);
                        if error_reporter.errors@.len() == errs0.len() {
                            lemma_stmts_push(
                                tokens@,
                                start as int,
                                stmt_start as int,
                                self.pos as int,
                                statements@,
                                stmt,
                            );
                        }
                    }
                    statements.push(stmt);
                    proof {
                        assert forall|stop: int| #[trigger] program_at(tokens@, start as int, stop) implies error_reporter.errors@
                            == errs0 && program_at(tokens@, self.pos as int, stop) by {
                            let m = choose|m: int|
                                #![trigger tokens@[m]]
                                stmt_start < m <= stop && statement_at(tokens@, stmt_start as int, m)
                                    && program_at(tokens@, m, stop);
                        }
                    }
                },
                Err(e) => {
                    proof {
                        assert forall|stop: int| #[trigger] program_at(tokens@, start as int, stop) implies false by {
                            let m = choose|m: int|
                                #![trigger tokens@[m]]
                                stmt_start < m <= stop && statement_at(tokens@, stmt_start as int, m)
                                    && program_at(tokens@, m, stop);
                        }
                    }
                    let ghost middle = error_reporter.errors@;
                    error_reporter.register_parse_error(e);
                    proof {
                        lemma_errors_trans(errs0, before, middle);
                        lemma_errors_push(middle, e);
                        lemma_errors_trans(errs0, middle, error_reporter.errors@);
                    }
                    self.synchronize(tokens);
                },
            }
            while self.peek_matches(tokens, TokenKind::NewLine)
                invariant
                    self.inv(tokens@),
                    start == old(self).pos,
                    stmt_start < self.pos,
                    start <= stmt_start,
                    errs0 == old(error_reporter).errors@,
                    errors_extended(errs0, error_reporter.errors@),
                    error_reporter.errors@.len() == errs0.len() ==> derives_stmts(
                        tokens@.subrange(start as int, self.pos as int),
                        statements@,
                    ),
                    statements@.len() > 0 ==> start < self.pos,
                    forall|stop: int|
                        #[trigger] program_at(tokens@, start as int, stop) ==> error_reporter.errors@
                            == errs0 && program_at(tokens@, self.pos as int, stop),
                decreases tokens@.len() - self.pos,
            {
                proof {
                    if error_reporter.errors@.len() == errs0.len() {
                        lemma_stmts_newline(tokens@, start as int, self.pos as int, statements@);
                    }
                    assert forall|stop: int| #[trigger] program_at(tokens@, start as int, stop) implies program_at(
                        tokens@,
                        self.pos + 1,
                        stop,
                    ) by {
                        lemma_program_skip(tokens@, self.pos as int, stop);
                    }
                }
                self.advance(tokens);
            }
        }
        proof {
            assert forall|stop: int| #[trigger] program_at(tokens@, start as int, stop) implies self.pos
                == stop by {
                lemma_program_next(tokens@, self.pos as int, stop);
            }
        }
        statements
    }

    /// One statement.
    fn statement(&mut self, tokens: &Vec<Token>, error_reporter: &mut ErrorReporter) -> (r: Result<Stmt, ParseError>)
        requires
            old(self).inv(tokens@),
        ensures
            final(self).inv(tokens@),
            old(self).pos <= final(self).pos,
            errors_extended(old(error_reporter).errors@, final(error_reporter).errors@),
            match r {
                Ok(st) => {
                    &&& old(self).pos < final(self).pos
                    &&& final(error_reporter).errors@.len() == old(error_reporter).errors@.len()
                        ==> derives_stmt(
                        tokens@.subrange(old(self).pos as int, final(self).pos as int),
                        st,
                    )
                },
                Err(e) => e.spec_line() == tokens@[final(self).pos as int].line,
            },
            forall|end: int, e: Expr|
                #[trigger] line_at(tokens@, old(self).pos as int, end, e) ==> r is Ok && (r->Ok_0 is Expression
                    || r->Ok_0 is Assignment) && final(self).pos == line_stop(tokens@, end)
                    && final(error_reporter).errors@ == old(error_reporter).errors@,
            forall|m: int|
                #[trigger] statement_at(tokens@, old(self).pos as int, m) ==> r is Ok && final(self).pos == m
                    && final(error_reporter).errors@ == old(error_reporter).errors@,
            forall|m: int|
                #[trigger] suite_at(tokens@, old(self).pos as int, m) ==> r is Ok && final(self).pos == m
                    && final(error_reporter).errors@ == old(error_reporter).errors@,
            forall|end: int, e: Expr|
                #[trigger] expression_at(Level::Or, tokens@, old(self).pos as int, end, e)
                    && tokens@[end].kind != TokenKind::NewLine && tokens@[end].kind != TokenKind::Eof
                    && !assignment_op(tokens@[end].kind) ==> (r matches Err(err) && err.spec_text()
                    == "expected newline or EOF after expression statement."@) && final(self).pos == end
                    && final(error_reporter).errors@ == old(error_reporter).errors@,
        decreases tokens@.len() - self.pos, 19nat,
    {
        let start = self.pos;
        proof {
            lemma_errors_same(error_reporter.errors@);
            assert forall|end: int, e: Expr| #[trigger] line_at(tokens@, start as int, end, e) implies begins(
                Level::Or,
                tokens@[start as int].kind,
            ) by {
                lemma_line_target(tokens@, start as int, end, e);
            }
            if !begins(Level::Or, tokens@[start as int].kind) {
                lemma_statement_not_line_all(tokens@, start as int);
            }
            assert forall|end: int, e: Expr| #[trigger] expression_at(Level::Or, tokens@, start as int, end, e)
                implies begins(Level::Or, tokens@[start as int].kind) by {
                lemma_first_token(Level::Or, tokens@.subrange(start as int, end), e);
                assert(tokens@.subrange(start as int, end)[0] == tokens@[start as int]);
            }
        }
        if self.peek_matches(tokens, TokenKind::Pass) {
            self.advance(tokens);
            proof {
                assert(tokens@.subrange(start as int, self.pos as int)[0] == tokens@[start as int]);
            }
            return Ok(Stmt::Pass);
        }
        if self.peek_matches(tokens, TokenKind::If) {
            let res = self.if_statement(tokens, error_reporter);
            proof {
                assert forall|m: int| #[trigger] statement_at(tokens@, start as int, m) implies if_at(
                    tokens@,
                    start as int,
                    m,
                ) by {}
            }
            return res;
        }
        if self.peek_matches(tokens, TokenKind::While) {
            return self.while_loop(tokens, error_reporter);
        }
        if self.advance_if(tokens, TokenKind::NewLine) && self.peek_matches(tokens, TokenKind::Indent) {
            let ghost block_start = self.pos;
            proof {
                assert forall|m: int| #[trigger] suite_at(tokens@, start as int, m) implies block_at(
                    tokens@,
                    block_start as int,
                    m,
                ) by {}
            }
            let body = match self.block(tokens, error_reporter) {
                Ok(b) => b,
                Err(err) => {
                    proof {
                        assert forall|m: int| #[trigger] suite_at(tokens@, start as int, m) implies false by {
                            assert(block_at(tokens@, block_start as int, m));
                        }
                    }
                    return Err(err);
                },
            };
            proof {
                assert forall|m: int| #[trigger] suite_at(tokens@, start as int, m) implies self.pos == m
                    && error_reporter.errors@ == old(error_reporter).errors@ by {
                    assert(block_at(tokens@, block_start as int, m));
                }
            }
            proof {
                if error_reporter.errors@.len() == old(error_reporter).errors@.len() {
                    lemma_block_stmt(tokens@, start as int, self.pos as int, body);
                }
            }
            return Ok(Stmt::Block(body));
        }
        let simple_start = self.pos;
        proof {
            assert forall|m: int| #[trigger] statement_at(tokens@, start as int, m) implies simple_start
                == start by {}
            assert forall|m: int| #[trigger] suite_at(tokens@, start as int, m) implies simple_start == start
                && exists|k: int, e: Expr| m == k + 1 && #[trigger] line_at(tokens@, start as int, k, e) by {}
        }
        let ghost errs1 = error_reporter.errors@;
        let result = if self.peek_matches(tokens, TokenKind::Def) {
            self.function_def(tokens, error_reporter)
        } else if self.peek_matches(tokens, TokenKind::Class) {
            self.class_decl(tokens, error_reporter)
        } else if self.peek_matches(tokens, TokenKind::Return) {
            self.return_statement(tokens)
        } else {
            let expr = match self.expression(tokens) {
                Ok(x) => x,
                Err(err) => {
                    proof {
                        assert forall|end: int, e: Expr|
                            #[trigger] line_at(tokens@, start as int, end, e) implies false by {
                            let (m, x) = lemma_line_target(tokens@, start as int, end, e);
                            assert(simple_start == start);
                            assert(expression_at(Level::Or, tokens@, simple_start as int, m, x));
                        }
                        assert forall|end: int, e: Expr|
                            #[trigger] expression_at(Level::Or, tokens@, start as int, end, e) implies false by {
                            assert(simple_start == start);
                            assert(expression_at(Level::Or, tokens@, simple_start as int, end, e));
                        }
                    }
                    return Err(err);
                },
            };
            let ghost op_at = self.pos;
            proof {
                assert forall|end: int, e: Expr|
                    #[trigger] expression_at(Level::Or, tokens@, start as int, end, e) implies op_at == end by {
                    assert(simple_start == start);
                    assert(expression_at(Level::Or, tokens@, simple_start as int, end, e));
                }
                assert forall|end: int, e: Expr|
                    #[trigger] line_at(tokens@, start as int, end, e) implies (op_at == end && (
                    tokens@[end].kind == TokenKind::NewLine || tokens@[end].kind == TokenKind::Eof)) || (assignment_op(tokens@[op_at as int].kind)
                    && expression_at(Level::Or, tokens@, op_at + 1, end, e)) by {
                    let (m, x) = lemma_line_target(tokens@, start as int, end, e);
                    assert(simple_start == start);
                    assert(expression_at(Level::Or, tokens@, simple_start as int, m, x));
                }
                let ops = seq![
                    TokenKind::Equal,
                    TokenKind::PlusEqual,
                    TokenKind::MinusEqual,
                    TokenKind::StarEqual,
                    TokenKind::SlashEqual,
                ];
                assert(!ops.contains(TokenKind::NewLine)) by {
                    assert forall|j: int| 0 <= j < ops.len() implies ops[j] != TokenKind::NewLine by {}
                }
                assert forall|k: TokenKind| assignment_op(k) implies #[trigger] ops.contains(k) by {
                    if k == TokenKind::Equal {
                        assert(ops[0] == k);
                    } else if k == TokenKind::PlusEqual {
                        assert(ops[1] == k);
                    } else if k == TokenKind::MinusEqual {
                        assert(ops[2] == k);
                    } else if k == TokenKind::StarEqual {
                        assert(ops[3] == k);
                    } else {
                        assert(ops[4] == k);
                    }
                }
            }
            if self.peek_matches_any(
                tokens,
                &[
                    TokenKind::Equal,
                    TokenKind::PlusEqual,
                    TokenKind::MinusEqual,
                    TokenKind::StarEqual,
                    TokenKind::SlashEqual,
                ],
            ) {
                let res = self.assignment_statement(tokens, expr, Ghost(simple_start as int));
                proof {
                    assert forall|end: int, e: Expr|
                        #[trigger] line_at(tokens@, start as int, end, e) implies res is Ok && res->Ok_0 is Assignment
                        && self.pos == line_stop(tokens@, end) by {
                        let (m, x) = lemma_line_target(tokens@, start as int, end, e);
                        assert(simple_start == start);
                        assert(expression_at(Level::Or, tokens@, op_at + 1, end, e));
                    }
                }
                res
            } else {
                let expr_end = self.pos;
                if self.advance_if(tokens, TokenKind::NewLine) || self.is_at_end(tokens) {
                    let st = Stmt::Expression(expr);
                    proof {
                        let ts = tokens@.subrange(simple_start as int, self.pos as int);
                        if self.pos > expr_end {
                            assert(ts.drop_last() =~= tokens@.subrange(
                                simple_start as int,
                                expr_end as int,
                            ));
                            assert(ts.last() == tokens@[expr_end as int]);
                        }
                        assert(derives_expression_stmt(ts, st));
                    }
                    Ok(st)
                } else {
                    Err(self.error(tokens, "expected newline or EOF after expression statement."))
                }
            }
        };
        proof {
            if result is Ok && error_reporter.errors@.len() == old(error_reporter).errors@.len() {
                lemma_simple_stmt(tokens@, start as int, simple_start as int, self.pos as int, result->Ok_0);
            }
            assert forall|m: int| #[trigger] statement_at(tokens@, start as int, m) implies result is Ok
                && self.pos == m && error_reporter.errors@ == old(error_reporter).errors@ by {
                let k = tokens@[start as int].kind;
                if k == TokenKind::Def || k == TokenKind::Class || k == TokenKind::Return {
                    assert(statement_at(tokens@, simple_start as int, m));
                } else {
                    let (end, e) = choose|end: int, e: Expr| m == line_stop(tokens@, end) && #[trigger] line_at(
                        tokens@,
                        start as int,
                        end,
                        e,
                    );
                }
            }
            assert forall|m: int| #[trigger] suite_at(tokens@, start as int, m) implies result is Ok
                && self.pos == m && error_reporter.errors@ == old(error_reporter).errors@ by {
                let (end, e) = choose|end: int, e: Expr| m == end + 1 && #[trigger] line_at(
                    tokens@,
                    start as int,
                    end,
                    e,
                );
            }
        }
        result
    }

    /// An indented block of statements.
    fn block(&mut self, tokens: &Vec<Token>, error_reporter: &mut ErrorReporter) -> (r: Result<Vec<Stmt>, ParseError>)
        requires
            old(self).inv(tokens@),
        ensures
            final(self).inv(tokens@),
            old(self).pos <= final(self).pos,
            errors_extended(old(error_reporter).errors@, final(error_reporter).errors@),
            match r {
                Ok(body) => {
                    &&& old(self).pos < final(self).pos
                    &&& final(error_reporter).errors@.len() == old(error_reporter).errors@.len()
                        ==> derives_block(
                        tokens@.subrange(old(self).pos as int, final(self).pos as int),
                        body@,
                    )
                },
                Err(e) => e.spec_line() == tokens@[final(self).pos as int].line,
            },
            forall|m: int|
                #[trigger] block_at(tokens@, old(self).pos as int, m) ==> r is Ok && final(self).pos == m
                    && final(error_reporter).errors@ == old(error_reporter).errors@,
        decreases tokens@.len() - self.pos, 21nat,
    {
        let start = self.pos;
        proof {
            lemma_errors_same(error_reporter.errors@);
        }
        self.consume(tokens, TokenKind::Indent, "expected indent at start of block")?;
        let ghost body_start = self.pos;
        let ghost errs0 = error_reporter.errors@;
        let statements = self.statements(tokens, error_reporter);
        proof {
            assert forall|m: int| #[trigger] block_at(tokens@, start as int, m) implies self.pos == m - 1
                && error_reporter.errors@ == errs0 by {
                assert(program_at(tokens@, body_start as int, m - 1));
            }
        }
        self.consume(tokens, TokenKind::Dedent, "expected dedent at end of block")?;
        proof {
            if error_reporter.errors@.len() == old(error_reporter).errors@.len() {
                lemma_block(tokens@, start as int, self.pos as int, statements@);
            }
        }
        Ok(statements)
    }

    /// An `if` statement, or the `elif` part of one, with its branches.
    fn if_statement(&mut self, tokens: &Vec<Token>, error_reporter: &mut ErrorReporter) -> (r: Result<Stmt, ParseError>)
        requires
            old(self).inv(tokens@),
            tokens@[old(self).pos as int].kind == TokenKind::If || tokens@[old(self).pos as int].kind
                == TokenKind::Elif,
        ensures
            final(self).inv(tokens@),
            old(self).pos < final(self).pos,
            errors_extended(old(error_reporter).errors@, final(error_reporter).errors@),
            match r {
                Ok(st) => {
                    &&& st is If
                    &&& final(error_reporter).errors@.len() == old(error_reporter).errors@.len()
                        ==> derives_if(
                        tokens@.subrange(old(self).pos as int, final(self).pos as int),
                        st,
                    )
                },
                Err(e) => e.spec_line() == tokens@[final(self).pos as int].line,
            },
            r matches Ok(st) ==> (final(error_reporter).errors@.len() == old(error_reporter).errors@.len()
                && tokens@[final(self).pos as int].kind == TokenKind::Else ==> closed_if(
                tokens@.subrange(old(self).pos as int, final(self).pos as int),
                st,
            )),
            forall|m: int|
                #[trigger] if_at(tokens@, old(self).pos as int, m) ==> r is Ok && final(self).pos == m
                    && final(error_reporter).errors@ == old(error_reporter).errors@,
        decreases tokens@.len() - self.pos, 18nat,
    {
        let start = self.pos;
        let ghost errs0 = error_reporter.errors@;
        proof {
            lemma_errors_same(errs0);
        }
        self.advance(tokens);
        let ghost cond_start = self.pos;
        let condition = match self.expression(tokens) {
            Ok(x) => x,
            Err(err) => {
                proof {
                    assert forall|m: int| #[trigger] if_at(tokens@, start as int, m) implies false by {
                        let (c, t, e) = lemma_if_target(tokens@, start as int, m);
                        assert(expression_at(Level::Or, tokens@, cond_start as int, c, e));
                    }
                }
                return Err(err);
            },
        };
        let colon = self.pos;
        proof {
            assert forall|m: int| #[trigger] if_at(tokens@, start as int, m) implies tokens@[colon as int].kind
                == TokenKind::Colon by {
                let (c, t, e) = lemma_if_target(tokens@, start as int, m);
                assert(expression_at(Level::Or, tokens@, cond_start as int, c, e));
            }
        }
        self.consume(tokens, TokenKind::Colon, "expected ':' after if conditional")?;
        let ghost then_start = self.pos;
        let then_body = match self.statement(tokens, error_reporter) {
            Ok(b) => b,
            Err(err) => {
                proof {
                    assert forall|m: int| #[trigger] if_at(tokens@, start as int, m) implies false by {
                        let (c, t, e) = lemma_if_target(tokens@, start as int, m);
                        assert(expression_at(Level::Or, tokens@, cond_start as int, c, e));
                        assert(suite_at(tokens@, then_start as int, t));
                    }
                }
                return Err(err);
            },
        };
        let then_end = self.pos;
        proof {
            assert forall|m: int| #[trigger] if_at(tokens@, start as int, m) implies if_rest_at(
                tokens@,
                then_end as int,
                m,
            ) && error_reporter.errors@ == errs0 by {
                let (c, t, e) = lemma_if_target(tokens@, start as int, m);
                assert(expression_at(Level::Or, tokens@, cond_start as int, c, e));
                assert(suite_at(tokens@, then_start as int, t));
            }
        }
        let ghost errs1 = error_reporter.errors@;
        let mut else_body: Option<Box<Stmt>> = None;
        proof {
            lemma_tail_none(tokens@, then_end as int);
        }
        if self.peek_matches(tokens, TokenKind::Elif) {
            let elif_result = self.if_statement(tokens, error_reporter);
            proof {
                lemma_errors_trans(errs0, errs1, error_reporter.errors@);
            }
            let elif = match elif_result {
                Ok(x) => x,
                Err(err) => {
                    proof {
                        assert forall|m: int| #[trigger] if_at(tokens@, start as int, m) implies false by {
                            assert(if_rest_at(tokens@, then_end as int, m));
                            assert(if_at(tokens@, then_end as int, m));
                        }
                    }
                    return Err(err);
                },
            };
            proof {
                assert forall|m: int| #[trigger] if_at(tokens@, start as int, m) implies self.pos == m
                    && error_reporter.errors@ == errs0 && tokens@[m].kind != TokenKind::Else by {
                    assert(if_rest_at(tokens@, then_end as int, m));
                    assert(if_at(tokens@, then_end as int, m));
                    lemma_if_end(tokens@, then_end as int, m);
                }
                if error_reporter.errors@.len() == errs0.len() {
                    lemma_tail_elif(tokens@, then_end as int, self.pos as int, elif);
                }
            }
            else_body = Some(Box::new(elif));
        }
        let elif_end = self.pos;
        let ghost errs2 = error_reporter.errors@;
        let ghost dropped = else_body;
        let ghost mut closed = false;
        if self.peek_matches(tokens, TokenKind::Else) {
            self.advance(tokens);
            proof {
                assert forall|m: int| #[trigger] if_at(tokens@, start as int, m) implies tokens@[then_end
                    + 1].kind == TokenKind::Colon && suite_at(tokens@, then_end + 2, m) && elif_end
                    == then_end by {
                    assert(if_rest_at(tokens@, then_end as int, m));
                }
            }
            self.consume(tokens, TokenKind::Colon, "expected ':' after 'else'")?;
            let else_start = self.pos;
            let else_result = self.statement(tokens, error_reporter);
            proof {
                lemma_errors_trans(errs0, errs2, error_reporter.errors@);
            }
            let otherwise = match else_result {
                Ok(x) => x,
                Err(err) => {
                    proof {
                        assert forall|m: int| #[trigger] if_at(tokens@, start as int, m) implies false by {
                            assert(suite_at(tokens@, else_start as int, m));
                        }
                    }
                    return Err(err);
                },
            };
            proof {
                assert forall|m: int| #[trigger] if_at(tokens@, start as int, m) implies self.pos == m
                    && error_reporter.errors@ == errs0 by {
                    assert(suite_at(tokens@, else_start as int, m));
                }
                if error_reporter.errors@.len() == errs0.len() {
                    if elif_end == then_end {
                        lemma_tail_else(tokens@, then_end as int, self.pos as int, otherwise);
                    } else {
                        lemma_tail_elif_else(
                            tokens@,
                            then_end as int,
                            elif_end as int,
                            self.pos as int,
                            *dropped->Some_0,
                            otherwise,
                        );
                    }
                }
                closed = true;
            }
            else_body = Some(Box::new(otherwise));
        } else {
            proof {
                assert forall|m: int| #[trigger] if_at(tokens@, start as int, m) implies self.pos == m
                    && error_reporter.errors@ == errs0 by {
                    assert(if_rest_at(tokens@, then_end as int, m));
                }
            }
        }
        let st = Stmt::If { condition, then_body: Box::new(then_body), else_body };
        proof {
            if error_reporter.errors@.len() == errs0.len() {
                lemma_if(tokens@, start as int, colon as int, then_end as int, self.pos as int, st);
                if closed {
                    lemma_if_closed(
                        tokens@,
                        start as int,
                        colon as int,
                        then_end as int,
                        self.pos as int,
                        st,
                    );
                }
            }
        }
        Ok(st)
    }

    /// A `while` loop.
    fn while_loop(&mut self, tokens: &Vec<Token>, error_reporter: &mut ErrorReporter) -> (r: Result<Stmt, ParseError>)
        requires
            old(self).inv(tokens@),
            tokens@[old(self).pos as int].kind == TokenKind::While,
        ensures
            final(self).inv(tokens@),
            old(self).pos < final(self).pos,
            errors_extended(old(error_reporter).errors@, final(error_reporter).errors@),
            match r {
                Ok(st) => final(error_reporter).errors@.len() == old(error_reporter).errors@.len()
                    ==> derives_stmt(
                    tokens@.subrange(old(self).pos as int, final(self).pos as int),
                    st,
                ),
                Err(e) => e.spec_line() == tokens@[final(self).pos as int].line,
            },
            forall|m: int|
                #[trigger] statement_at(tokens@, old(self).pos as int, m) ==> r is Ok && final(self).pos == m
                    && final(error_reporter).errors@ == old(error_reporter).errors@,
        decreases tokens@.len() - self.pos, 17nat,
    {
        let start = self.pos;
        proof {
            lemma_errors_same(error_reporter.errors@);
        }
        self.advance(tokens);
        let ghost cond_start = self.pos;
        let condition = match self.expression(tokens) {
            Ok(x) => x,
            Err(err) => {
                proof {
                    assert forall|m: int| #[trigger] statement_at(tokens@, start as int, m) implies false by {
                        let (c, e) = lemma_while_target(tokens@, start as int, m);
                        assert(expression_at(Level::Or, tokens@, cond_start as int, c, e));
                    }
                }
                return Err(err);
            },
        };
        let colon = self.pos;
        proof {
            assert forall|m: int| #[trigger] statement_at(tokens@, start as int, m) implies tokens@[colon as int].kind
                == TokenKind::Colon && suite_at(tokens@, colon + 1, m) by {
                let (c, e) = lemma_while_target(tokens@, start as int, m);
                assert(expression_at(Level::Or, tokens@, cond_start as int, c, e));
            }
        }
        self.consume(tokens, TokenKind::Colon, "expected ':' after while conditional")?;
        let ghost body_start = self.pos;
        let body = match self.statement(tokens, error_reporter) {
            Ok(b) => b,
            Err(err) => {
                proof {
                    assert forall|m: int| #[trigger] statement_at(tokens@, start as int, m) implies false by {
                        assert(suite_at(tokens@, body_start as int, m));
                    }
                }
                return Err(err);
            },
        };
        proof {
            assert forall|m: int| #[trigger] statement_at(tokens@, start as int, m) implies self.pos == m
                && error_reporter.errors@ == old(error_reporter).errors@ by {
                assert(suite_at(tokens@, body_start as int, m));
            }
        }
        let st = Stmt::While { condition, body: Box::new(body) };
        proof {
            if error_reporter.errors@.len() == old(error_reporter).errors@.len() {
                lemma_while(tokens@, start as int, colon as int, self.pos as int, st);
            }
        }
        Ok(st)
    }

    /// A function definition: its name, parameters and body.
    fn function_def(&mut self, tokens: &Vec<Token>, error_reporter: &mut ErrorReporter) -> (r: Result<Stmt, ParseError>)
        requires
            old(self).inv(tokens@),
            tokens@[old(self).pos as int].kind == TokenKind::Def,
        ensures
            final(self).inv(tokens@),
            old(self).pos < final(self).pos,
            errors_extended(old(error_reporter).errors@, final(error_reporter).errors@),
            match r {
                Ok(st) => final(error_reporter).errors@.len() == old(error_reporter).errors@.len()
                    ==> derives_def(
                    tokens@.subrange(old(self).pos as int, final(self).pos as int),
                    st,
                ),
                Err(e) => e.spec_line() == tokens@[final(self).pos as int].line,
            },
            forall|m: int|
                #[trigger] statement_at(tokens@, old(self).pos as int, m) ==> r is Ok && final(self).pos == m
                    && final(error_reporter).errors@ == old(error_reporter).errors@,
        decreases tokens@.len() - self.pos, 16nat,
    {
        let start = self.pos;
        proof {
            lemma_errors_same(error_reporter.errors@);
            lemma_statement_not_line_all(tokens@, start as int);
        }
        self.advance(tokens);
        let name = self.consume(tokens, TokenKind::Identifier, "expected identifier name after 'def'")?;
        self.consume(tokens, TokenKind::LeftParen, "expected '(' after function name")?;
        let params_start = self.pos;
        let mut params: Vec<Token> = vec![];
        if !self.peek_matches(tokens, TokenKind::RightParen) {
            proof {
                assert forall|m: int| #[trigger] statement_at(tokens@, start as int, m) implies 0
                    < def_params(tokens@, start as int, m).len() by {
                    lemma_def_target(tokens@, start as int, m);
                }
            }
            loop
                invariant_except_break
                    params@.len() == 0 ==> self.pos == params_start,
                    params@.len() > 0 ==> params_start + 1 < self.pos && tokens@[self.pos - 1].kind
                        == TokenKind::Comma && derives_params(
                        tokens@.subrange(params_start as int, self.pos - 1),
                        params@,
                    ),
                    forall|m: int|
                        #[trigger] statement_at(tokens@, start as int, m) ==> params@.len() < def_params(
                            tokens@,
                            start as int,
                            m,
                        ).len() && self.pos == params_start + 2 * params@.len(),
                invariant
                    self.inv(tokens@),
                    params_start <= self.pos,
                    params_start == start + 3,
                    start == old(self).pos,
                    tokens@[start as int].kind == TokenKind::Def,
                    errors_extended(old(error_reporter).errors@, error_reporter.errors@),
                    error_reporter.errors@ == old(error_reporter).errors@,
                ensures
                    self.inv(tokens@),
                    params_start < self.pos,
                    params_start == start + 3,
                    derives_params(tokens@.subrange(params_start as int, self.pos as int), params@),
                    forall|m: int|
                        #[trigger] statement_at(tokens@, start as int, m) ==> self.pos == params_start
                            + params_len(def_params(tokens@, start as int, m).len() as int),
                decreases tokens@.len() - self.pos,
            {
                if params.len() > 255 {
                    proof {
                        assert forall|m: int| #[trigger] statement_at(tokens@, start as int, m) implies false by {
                            lemma_def_target(tokens@, start as int, m);
                        }
                    }
                    return Err(self.error(tokens, "can't have more than 255 parameters."));
                }
                let ghost param_pos = self.pos;
                let param = match self.consume(tokens, TokenKind::Identifier, "expected parameter name") {
                    Ok(t) => t,
                    Err(err) => {
                        proof {
                            assert forall|m: int| #[trigger] statement_at(tokens@, start as int, m) implies false by {
                                lemma_def_target(tokens@, start as int, m);
                                let j = 2 * params@.len();
                                assert(tokens@[start + 3 + j].kind == TokenKind::Identifier);
                            }
                        }
                        return Err(err);
                    },
                };
                let ghost before = params@;
                params.push(param);
                proof {
                    if before.len() == 0 {
                        lemma_params_first(tokens@, params_start as int);
                        assert(params@ =~= seq![tokens@[params_start as int]]);
                    } else {
                        lemma_params_step(tokens@, params_start as int, self.pos - 2, before);
                    }
                }
                if !self.advance_if(tokens, TokenKind::Comma) {
                    proof {
                        assert forall|m: int| #[trigger] statement_at(tokens@, start as int, m) implies self.pos
                            == params_start + params_len(def_params(tokens@, start as int, m).len() as int) by {
                            lemma_def_target(tokens@, start as int, m);
                            let n = def_params(tokens@, start as int, m).len() as int;
                            if before.len() + 1 < n {
                                let j = 2 * before.len() + 1;
                                assert(tokens@[start + 3 + j].kind == TokenKind::Comma);
                            }
                        }
                    }
                    break;
                }
                proof {
                    assert forall|m: int| #[trigger] statement_at(tokens@, start as int, m) implies params@.len()
                        < def_params(tokens@, start as int, m).len() && self.pos == params_start + 2
                        * params@.len() by {
                        lemma_def_target(tokens@, start as int, m);
                        let n = def_params(tokens@, start as int, m).len() as int;
                        if before.len() + 1 == n {
                            let k = start + 3 + params_len(n);
                            assert(tokens@[k].kind == TokenKind::RightParen);
                        }
                    }
                }
            }
        } else {
            proof {
                assert(tokens@.subrange(params_start as int, self.pos as int) =~= Seq::<Token>::empty());
                assert forall|m: int| #[trigger] statement_at(tokens@, start as int, m) implies def_params(
                    tokens@,
                    start as int,
                    m,
                ).len() == 0 by {
                    lemma_def_target(tokens@, start as int, m);
                    if def_params(tokens@, start as int, m).len() > 0 {
                        assert(tokens@[start + 3 + 0].kind == TokenKind::Identifier);
                    }
                }
            }
        }
        let close = self.pos;
        proof {
            assert forall|m: int| #[trigger] statement_at(tokens@, start as int, m) implies tokens@[close as int].kind
                == TokenKind::RightParen && tokens@[close + 1].kind == TokenKind::Colon && tokens@[close
                + 2].kind == TokenKind::NewLine && block_at(tokens@, close + 3, m) by {
                lemma_def_target(tokens@, start as int, m);
            }
        }
        self.consume(tokens, TokenKind::RightParen, "expected ')' after parameters")?;
        self.consume(tokens, TokenKind::Colon, "expected ':' after ')'")?;
        self.consume(tokens, TokenKind::NewLine, "expected new line after ':'")?;
        let ghost body_start = self.pos;
        let body = match self.block(tokens, error_reporter) {
            Ok(b) => b,
            Err(err) => {
                proof {
                    assert forall|m: int| #[trigger] statement_at(tokens@, start as int, m) implies false by {
                        assert(block_at(tokens@, body_start as int, m));
                    }
                }
                return Err(err);
            },
        };
        proof {
            assert forall|m: int| #[trigger] statement_at(tokens@, start as int, m) implies self.pos == m
                && error_reporter.errors@ == old(error_reporter).errors@ by {
                assert(block_at(tokens@, body_start as int, m));
            }
        }
        let st = Stmt::Function { name, params, body };
        proof {
            if error_reporter.errors@.len() == old(error_reporter).errors@.len() {
                lemma_def(tokens@, start as int, close as int, self.pos as int, st);
            }
        }
        Ok(st)
    }

    /// A class declaration: its name and body.
    fn class_decl(&mut self, tokens: &Vec<Token>, error_reporter: &mut ErrorReporter) -> (r: Result<Stmt, ParseError>)
        requires
            old(self).inv(tokens@),
            tokens@[old(self).pos as int].kind == TokenKind::Class,
        ensures
            final(self).inv(tokens@),
            old(self).pos < final(self).pos,
            errors_extended(old(error_reporter).errors@, final(error_reporter).errors@),
            match r {
                Ok(st) => final(error_reporter).errors@.len() == old(error_reporter).errors@.len()
                    ==> derives_class(
                    tokens@.subrange(old(self).pos as int, final(self).pos as int),
                    st,
                ),
                Err(e) => e.spec_line() == tokens@[final(self).pos as int].line,
            },
            forall|m: int|
                #[trigger] statement_at(tokens@, old(self).pos as int, m) ==> r is Ok && final(self).pos == m
                    && final(error_reporter).errors@ == old(error_reporter).errors@,
        decreases tokens@.len() - self.pos, 15nat,
    {
        let start = self.pos;
        proof {
            lemma_errors_same(error_reporter.errors@);
            lemma_statement_not_line_all(tokens@, start as int);
        }
        self.advance(tokens);
        let name = self.consume(tokens, TokenKind::Identifier, "expected identifier name after 'class'")?;
        self.consume(tokens, TokenKind::Colon, "expected ':' after ')'")?;
        self.consume(tokens, TokenKind::NewLine, "expected new line after ':'")?;
        let ghost body_start = self.pos;
        proof {
            assert forall|m: int| #[trigger] statement_at(tokens@, start as int, m) implies block_at(
                tokens@,
                body_start as int,
                m,
            ) by {}
        }
        let body = match self.block(tokens, error_reporter) {
            Ok(b) => b,
            Err(err) => {
                proof {
                    assert forall|m: int| #[trigger] statement_at(tokens@, start as int, m) implies false by {
                        assert(block_at(tokens@, body_start as int, m));
                    }
                }
                return Err(err);
            },
        };
        proof {
            assert forall|m: int| #[trigger] statement_at(tokens@, start as int, m) implies self.pos == m
                && error_reporter.errors@ == old(error_reporter).errors@ by {
                assert(block_at(tokens@, body_start as int, m));
            }
        }
        let st = Stmt::Class { name, body };
        proof {
            if error_reporter.errors@.len() == old(error_reporter).errors@.len() {
                lemma_class(tokens@, start as int, self.pos as int, st);
            }
        }
        Ok(st)
    }
}

} // verus!
