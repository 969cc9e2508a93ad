//! Facts about derivations of the expression grammar: which tokens can
//! begin an expression, which can extend one on the right, and how a
//! derivation reads from left to right, the order in which the parser meets
//! its parts.

use vstd::prelude::*;

use crate::ast::Expr;
use crate::grammar::{
    arguments_of, callee_of, chain_op, derives, derives_arguments, inner_of, is_chain_node, left_of,
    op_of, operand_level, primary_token, rank, right_of, Level,
};
use crate::token::{Token, TokenKind};

verus! {

/// The tokens of `ts` from `from` up to `close` are the arguments `args` of
/// a call, and a `)` is at `close`.
pub open spec fn arguments_at(ts: Seq<Token>, from: int, close: int, args: Seq<Expr>) -> bool {
    &&& 0 <= from <= close < ts.len()
    &&& ts[close].kind == TokenKind::RightParen
    &&& derives_arguments(ts.subrange(from, close), args)
}

/// A token of kind `k` can begin an expression of level `lv`.
pub open spec fn begins(lv: Level, k: TokenKind) -> bool {
    ||| k == TokenKind::False
    ||| k == TokenKind::True
    ||| k == TokenKind::NoneKeyword
    ||| k == TokenKind::Int
    ||| k == TokenKind::Float
    ||| k == TokenKind::String
    ||| k == TokenKind::Identifier
    ||| k == TokenKind::LeftParen
    ||| (rank(lv) >= rank(Level::Unary) && (k == TokenKind::Plus || k == TokenKind::Minus || k
        == TokenKind::Tilde))
    ||| (rank(lv) >= rank(Level::Not) && k == TokenKind::Not)
}

/// A token of kind `k` right after an expression of level `lv` could make
/// it longer: a call, a property access, or an operator of that level or a
/// tighter one.
pub open spec fn extends(lv: Level, k: TokenKind) -> bool {
    ||| (rank(lv) >= rank(Level::Call) && (k == TokenKind::LeftParen || k == TokenKind::Dot))
    ||| (rank(lv) >= rank(Level::Factor) && (k == TokenKind::Star || k == TokenKind::Slash))
    ||| (rank(lv) >= rank(Level::Term) && (k == TokenKind::Plus || k == TokenKind::Minus))
    ||| (rank(lv) >= rank(Level::Comparison) && (k == TokenKind::Greater || k
        == TokenKind::GreaterEqual || k == TokenKind::Less || k == TokenKind::LessEqual))
    ||| (rank(lv) >= rank(Level::Identity) && k == TokenKind::Is)
    ||| (rank(lv) >= rank(Level::Equality) && (k == TokenKind::BangEqual || k
        == TokenKind::EqualEqual))
    ||| (rank(lv) >= rank(Level::And) && k == TokenKind::And)
    ||| (rank(lv) >= rank(Level::Or) && k == TokenKind::Or)
}

/// The tokens of `ts` from `from` up to `end` form an expression `e` of
/// level `lv`, and the token at `end` cannot extend it.
pub open spec fn expression_at(lv: Level, ts: Seq<Token>, from: int, end: int, e: Expr) -> bool {
    &&& 0 <= from < end < ts.len()
    &&& derives(lv, ts.subrange(from, end), e)
    &&& !extends(lv, ts[end].kind)
}

/// The levels that are chains of operands joined by operators.
pub open spec fn is_chain_level(lv: Level) -> bool {
    lv == Level::Or || lv == Level::And || lv == Level::Equality || lv == Level::Comparison || lv
        == Level::Term || lv == Level::Factor
}

/// Every expression has a first token, and it is one that can begin an
/// expression of its level.
pub proof fn lemma_first_token(lv: Level, ts: Seq<Token>, e: Expr)
    requires
        derives(lv, ts, e),
    ensures
        ts.len() >= 1,
        begins(lv, ts[0].kind),
    decreases ts.len(), rank(lv),
{
    match lv {
        Level::Or | Level::And | Level::Equality | Level::Comparison | Level::Term
        | Level::Factor => {
            if derives(operand_level(lv), ts, e) {
                lemma_first_token(operand_level(lv), ts, e);
            } else {
                let i = choose|i: int|
                    1 <= i < ts.len() - 1 && chain_op(lv, (#[trigger] ts[i]).kind)
                        && derives(lv, ts.subrange(0, i), left_of(e));
                lemma_first_token(lv, ts.subrange(0, i), left_of(e));
            }
        },
        Level::Not => {
            if derives(Level::Equality, ts, e) {
                lemma_first_token(Level::Equality, ts, e);
            }
        },
        Level::Identity => {
            if derives(Level::Comparison, ts, e) {
                lemma_first_token(Level::Comparison, ts, e);
            } else if exists|i: int|
                1 <= i < ts.len() - 1 && (#[trigger] ts[i]).kind == TokenKind::Is && derives(
                    Level::Comparison,
                    ts.subrange(0, i),
                    left_of(e),
                ) {
                let i = choose|i: int|
                    1 <= i < ts.len() - 1 && (#[trigger] ts[i]).kind == TokenKind::Is && derives(
                        Level::Comparison,
                        ts.subrange(0, i),
                        left_of(e),
                    );
                lemma_first_token(Level::Comparison, ts.subrange(0, i), left_of(e));
            } else {
                let i = choose|i: int|
                    1 <= i < ts.len() - 2 && (#[trigger] ts[i]).kind == TokenKind::Is && derives(
                        Level::Comparison,
                        ts.subrange(0, i),
                        left_of(right_of(e)),
                    );
                lemma_first_token(Level::Comparison, ts.subrange(0, i), left_of(right_of(e)));
            }
        },
        Level::Unary => {
            if derives(Level::Call, ts, e) {
                lemma_first_token(Level::Call, ts, e);
            }
        },
        Level::Call => {
            if derives(Level::Primary, ts, e) {
                lemma_first_token(Level::Primary, ts, e);
            } else if ts.len() >= 3 && ts[ts.len() - 1].kind == TokenKind::RightParen && e is Call
                && exists|i: int|
                1 <= i < ts.len() - 1 && (#[trigger] ts[i]).kind == TokenKind::LeftParen && derives(
                    Level::Call,
                    ts.subrange(0, i),
                    callee_of(e),
                ) {
                let i = choose|i: int|
                    1 <= i < ts.len() - 1 && (#[trigger] ts[i]).kind == TokenKind::LeftParen
                        && derives(Level::Call, ts.subrange(0, i), callee_of(e));
                lemma_first_token(Level::Call, ts.subrange(0, i), callee_of(e));
            } else {
                lemma_first_token(Level::Call, ts.subrange(0, ts.len() - 2), crate::grammar::object_of(e));
            }
        },
        Level::Primary => {},
    }
}

/// From `pos` to `end`, the tokens of `ts` continue a chain of level `lv`:
/// nothing is left, or an operator of the level and an operand come next,
/// and the chain goes on after them.
pub open spec fn chain_rest(lv: Level, ts: Seq<Token>, pos: int, end: int) -> bool
    decreases end - pos,
{
    if pos >= end {
        pos == end
    } else {
        &&& chain_op(lv, ts[pos].kind)
        &&& exists|m: int, right: Expr|
            pos + 1 < m <= end && #[trigger] derives(
                operand_level(lv),
                ts.subrange(pos + 1, m),
                right,
            ) && chain_rest(lv, ts, m, end)
    }
}

/// A chain that ends at `p` goes on to `end` through one more operator and
/// operand.
pub proof fn lemma_chain_append(lv: Level, ts: Seq<Token>, pos: int, p: int, end: int, right: Expr)
    requires
        pos <= p,
        p + 1 < end,
        chain_rest(lv, ts, pos, p),
        chain_op(lv, ts[p].kind),
        derives(operand_level(lv), ts.subrange(p + 1, end), right),
    ensures
        chain_rest(lv, ts, pos, end),
    decreases p - pos,
{
    if pos == p {
        assert(chain_rest(lv, ts, end, end));
    } else {
        let (m, r) = choose|m: int, r: Expr|
            pos + 1 < m <= p && #[trigger] derives(operand_level(lv), ts.subrange(pos + 1, m), r)
                && chain_rest(lv, ts, m, p);
        lemma_chain_append(lv, ts, m, p, end, right);
        assert(derives(operand_level(lv), ts.subrange(pos + 1, m), r));
    }
}

/// A chain read from the left: its first operand, then the rest.
pub proof fn lemma_chain_from_left(lv: Level, ts: Seq<Token>, s: int, end: int, e: Expr) -> (r: (
    int,
    Expr,
))
    requires
        is_chain_level(lv),
        0 <= s < end <= ts.len(),
        derives(lv, ts.subrange(s, end), e),
    ensures
        s < r.0 <= end,
        derives(operand_level(lv), ts.subrange(s, r.0), r.1),
        chain_rest(lv, ts, r.0, end),
    decreases end - s,
{
    let sub = ts.subrange(s, end);
    if derives(operand_level(lv), sub, e) {
        assert(chain_rest(lv, ts, end, end));
        (end, e)
    } else {
        let i = choose|i: int|
            1 <= i < sub.len() - 1 && chain_op(lv, (#[trigger] sub[i]).kind) && is_chain_node(lv, e)
                && op_of(e) == sub[i] && derives(lv, sub.subrange(0, i), left_of(e)) && derives(
                operand_level(lv),
                sub.subrange(i + 1, sub.len() as int),
                right_of(e),
            );
        assert(sub.subrange(0, i) =~= ts.subrange(s, s + i));
        assert(sub.subrange(i + 1, sub.len() as int) =~= ts.subrange(s + i + 1, end));
        let (m, first) = lemma_chain_from_left(lv, ts, s, s + i, left_of(e));
        lemma_chain_append(lv, ts, m, s + i, end, right_of(e));
        (m, first)
    }
}

/// The next operand of a chain that goes on, and what follows it.
pub proof fn lemma_chain_next(lv: Level, ts: Seq<Token>, pos: int, end: int) -> (r: (int, Expr))
    requires
        pos < end,
        chain_rest(lv, ts, pos, end),
    ensures
        chain_op(lv, ts[pos].kind),
        pos + 1 < r.0 <= end,
        derives(operand_level(lv), ts.subrange(pos + 1, r.0), r.1),
        chain_rest(lv, ts, r.0, end),
        r.0 < end ==> chain_op(lv, ts[r.0].kind),
{
    let (m, right) = choose|m: int, right: Expr|
        pos + 1 < m <= end && #[trigger] derives(operand_level(lv), ts.subrange(pos + 1, m), right)
            && chain_rest(lv, ts, m, end);
    (m, right)
}

/// From `pos` to `end`, the tokens of `ts` continue a call expression:
/// nothing is left, or an argument list in parentheses or a property access
/// comes next, and the expression goes on after it.
pub open spec fn call_rest(ts: Seq<Token>, pos: int, end: int) -> bool
    decreases end - pos,
{
    if pos >= end {
        pos == end
    } else {
        ||| {
            &&& ts[pos].kind == TokenKind::LeftParen
            &&& exists|q: int, args: Seq<Expr>|
                pos < q < end && ts[q].kind == TokenKind::RightParen && #[trigger] derives_arguments(
                    ts.subrange(pos + 1, q),
                    args,
                ) && call_rest(ts, q + 1, end)
        }
        ||| {
            &&& ts[pos].kind == TokenKind::Dot
            &&& pos + 1 < end
            &&& ts[pos + 1].kind == TokenKind::Identifier
            &&& call_rest(ts, pos + 2, end)
        }
    }
}

/// A call expression that ends at `c` goes on to the `)` at `q` through one
/// more argument list.
pub proof fn lemma_call_append_args(ts: Seq<Token>, pos: int, c: int, q: int, args: Seq<Expr>)
    requires
        pos <= c < q < ts.len(),
        call_rest(ts, pos, c),
        ts[c].kind == TokenKind::LeftParen,
        ts[q].kind == TokenKind::RightParen,
        derives_arguments(ts.subrange(c + 1, q), args),
    ensures
        call_rest(ts, pos, q + 1),
    decreases c - pos,
{
    if pos == c {
        assert(call_rest(ts, q + 1, q + 1));
    } else if ts[pos].kind == TokenKind::LeftParen {
        let (q1, a1) = choose|q1: int, a1: Seq<Expr>|
            pos < q1 < c && ts[q1].kind == TokenKind::RightParen && #[trigger] derives_arguments(
                ts.subrange(pos + 1, q1),
                a1,
            ) && call_rest(ts, q1 + 1, c);
        lemma_call_append_args(ts, q1 + 1, c, q, args);
        assert(derives_arguments(ts.subrange(pos + 1, q1), a1));
    } else {
        lemma_call_append_args(ts, pos + 2, c, q, args);
    }
}

/// A call expression that ends at `c` goes on through one more property
/// access.
pub proof fn lemma_call_append_get(ts: Seq<Token>, pos: int, c: int)
    requires
        pos <= c,
        c + 1 < ts.len(),
        call_rest(ts, pos, c),
        ts[c].kind == TokenKind::Dot,
        ts[c + 1].kind == TokenKind::Identifier,
    ensures
        call_rest(ts, pos, c + 2),
    decreases c - pos,
{
    if pos == c {
        assert(call_rest(ts, c + 2, c + 2));
    } else if ts[pos].kind == TokenKind::LeftParen {
        let (q1, a1) = choose|q1: int, a1: Seq<Expr>|
            pos < q1 < c && ts[q1].kind == TokenKind::RightParen && #[trigger] derives_arguments(
                ts.subrange(pos + 1, q1),
                a1,
            ) && call_rest(ts, q1 + 1, c);
        lemma_call_append_get(ts, q1 + 1, c);
        assert(derives_arguments(ts.subrange(pos + 1, q1), a1));
    } else {
        lemma_call_append_get(ts, pos + 2, c);
    }
}

/// A call expression read from the left: its primary expression, then the
/// rest.
pub proof fn lemma_call_from_left(ts: Seq<Token>, s: int, end: int, e: Expr) -> (r: (int, Expr))
    requires
        0 <= s < end <= ts.len(),
        derives(Level::Call, ts.subrange(s, end), e),
    ensures
        s < r.0 <= end,
        derives(Level::Primary, ts.subrange(s, r.0), r.1),
        call_rest(ts, r.0, end),
    decreases end - s,
{
    let sub = ts.subrange(s, end);
    if derives(Level::Primary, sub, e) {
        assert(call_rest(ts, end, end));
        (end, e)
    } else if sub.len() >= 3 && sub[sub.len() - 1].kind == TokenKind::RightParen && e is Call
        && exists|i: int|
        1 <= i < sub.len() - 1 && (#[trigger] sub[i]).kind == TokenKind::LeftParen && derives(
            Level::Call,
            sub.subrange(0, i),
            callee_of(e),
        ) && derives_arguments(sub.subrange(i + 1, sub.len() - 1), arguments_of(e)) {
        let i = choose|i: int|
            1 <= i < sub.len() - 1 && (#[trigger] sub[i]).kind == TokenKind::LeftParen && derives(
                Level::Call,
                sub.subrange(0, i),
                callee_of(e),
            ) && derives_arguments(sub.subrange(i + 1, sub.len() - 1), arguments_of(e));
        assert(sub.subrange(0, i) =~= ts.subrange(s, s + i));
        assert(sub.subrange(i + 1, sub.len() - 1) =~= ts.subrange(s + i + 1, end - 1));
        let (p, prim) = lemma_call_from_left(ts, s, s + i, callee_of(e));
        lemma_call_append_args(ts, p, s + i, end - 1, arguments_of(e));
        (p, prim)
    } else {
        assert(sub.subrange(0, sub.len() - 2) =~= ts.subrange(s, end - 2));
        let (p, prim) = lemma_call_from_left(ts, s, end - 2, crate::grammar::object_of(e));
        lemma_call_append_get(ts, p, end - 2);
        (p, prim)
    }
}

/// From `pos` to `close`, the tokens of `ts` are the last `n` arguments of
/// a call, separated by commas.
pub open spec fn arguments_rest(ts: Seq<Token>, pos: int, close: int, n: int) -> bool
    decreases n,
{
    if n <= 1 {
        n == 1 && pos < close && exists|e: Expr| #[trigger] derives(Level::Or, ts.subrange(pos, close), e)
    } else {
        exists|m: int, e: Expr|
            pos < m < close && ts[m].kind == TokenKind::Comma && #[trigger] derives(
                Level::Or,
                ts.subrange(pos, m),
                e,
            ) && arguments_rest(ts, m + 1, close, n - 1)
    }
}

/// Arguments that end at `c` go on to `close` through one more comma and
/// argument.
pub proof fn lemma_arguments_append(ts: Seq<Token>, pos: int, c: int, close: int, n: int, e: Expr)
    requires
        0 <= pos <= c,
        c + 1 < close <= ts.len(),
        n >= 1,
        arguments_rest(ts, pos, c, n),
        ts[c].kind == TokenKind::Comma,
        derives(Level::Or, ts.subrange(c + 1, close), e),
    ensures
        arguments_rest(ts, pos, close, n + 1),
    decreases n,
{
    if n == 1 {
        let e0 = choose|e0: Expr| #[trigger] derives(Level::Or, ts.subrange(pos, c), e0);
        lemma_first_token(Level::Or, ts.subrange(pos, c), e0);
        assert(arguments_rest(ts, c + 1, close, 1)) by {
            assert(derives(Level::Or, ts.subrange(c + 1, close), e));
        }
        assert(derives(Level::Or, ts.subrange(pos, c), e0));
    } else {
        let (m, e0) = choose|m: int, e0: Expr|
            pos < m < c && ts[m].kind == TokenKind::Comma && #[trigger] derives(
                Level::Or,
                ts.subrange(pos, m),
                e0,
            ) && arguments_rest(ts, m + 1, c, n - 1);
        lemma_arguments_append(ts, m + 1, c, close, n - 1, e);
        assert(derives(Level::Or, ts.subrange(pos, m), e0));
    }
}

/// A nonempty argument list read from the left.
pub proof fn lemma_arguments_from_left(ts: Seq<Token>, s: int, close: int, args: Seq<Expr>)
    requires
        0 <= s <= close <= ts.len(),
        args.len() >= 1,
        derives_arguments(ts.subrange(s, close), args),
    ensures
        arguments_rest(ts, s, close, args.len() as int),
    decreases args.len(),
{
    let sub = ts.subrange(s, close);
    if args.len() == 1 {
        assert(derives(Level::Or, sub, args[0]));
        lemma_first_token(Level::Or, sub, args[0]);
    } else {
        let i = choose|i: int|
            1 <= i < sub.len() - 1 && (#[trigger] sub[i]).kind == TokenKind::Comma
                && derives_arguments(sub.subrange(0, i), args.drop_last()) && derives(
                Level::Or,
                sub.subrange(i + 1, sub.len() as int),
                args.last(),
            );
        assert(sub.subrange(0, i) =~= ts.subrange(s, s + i));
        assert(sub.subrange(i + 1, sub.len() as int) =~= ts.subrange(s + i + 1, close));
        lemma_arguments_from_left(ts, s, s + i, args.drop_last());
        lemma_arguments_append(ts, s, s + i, close, args.len() - 1, args.last());
    }
}

/// A primary expression that does not begin with `(` is a single token.
pub proof fn lemma_primary_single(ts: Seq<Token>, start: int, end: int, e: Expr)
    requires
        expression_at(Level::Primary, ts, start, end, e),
        ts[start].kind != TokenKind::LeftParen,
    ensures
        end == start + 1,
        primary_token(ts[start], e),
{
    assert(ts.subrange(start, end)[0] == ts[start]);
}

/// A primary expression that begins with `(` is an expression in
/// parentheses.
pub proof fn lemma_primary_grouping(ts: Seq<Token>, start: int, end: int, e: Expr)
    requires
        expression_at(Level::Primary, ts, start, end, e),
        ts[start].kind == TokenKind::LeftParen,
    ensures
        ts[end - 1].kind == TokenKind::RightParen,
        expression_at(Level::Or, ts, start + 1, end - 1, inner_of(e)),
{
    let sub = ts.subrange(start, end);
    assert(sub[0] == ts[start]);
    assert(sub.len() >= 2 && sub[sub.len() - 1].kind == TokenKind::RightParen && derives(
        Level::Or,
        sub.subrange(1, sub.len() - 1),
        inner_of(e),
    ));
    assert(sub.subrange(1, sub.len() - 1) =~= ts.subrange(start + 1, end - 1));
    lemma_first_token(Level::Or, ts.subrange(start + 1, end - 1), inner_of(e));
}

/// The next argument of a list that goes on, and what follows it: the
/// closing parenthesis after the last argument, a comma after the others.
pub proof fn lemma_arguments_next(ts: Seq<Token>, pos: int, close: int, n: int) -> (r: (int, Expr))
    requires
        0 <= pos,
        close < ts.len(),
        ts[close].kind == TokenKind::RightParen,
        arguments_rest(ts, pos, close, n),
    ensures
        expression_at(Level::Or, ts, pos, r.0, r.1),
        n == 1 ==> r.0 == close,
        n > 1 ==> r.0 < close && ts[r.0].kind == TokenKind::Comma && arguments_rest(
            ts,
            r.0 + 1,
            close,
            n - 1,
        ),
{
    if n <= 1 {
        let e = choose|e: Expr| #[trigger] derives(Level::Or, ts.subrange(pos, close), e);
        lemma_first_token(Level::Or, ts.subrange(pos, close), e);
        (close, e)
    } else {
        let (m, e) = choose|m: int, e: Expr|
            pos < m < close && ts[m].kind == TokenKind::Comma && #[trigger] derives(
                Level::Or,
                ts.subrange(pos, m),
                e,
            ) && arguments_rest(ts, m + 1, close, n - 1);
        (m, e)
    }
}

/// An expression of the `not` level is `not` and an equality operand when
/// it begins with `not`, and an equality operand otherwise.
pub proof fn lemma_not_target(ts: Seq<Token>, start: int, end: int, e: Expr)
    requires
        expression_at(Level::Not, ts, start, end, e),
    ensures
        ts[start].kind == TokenKind::Not ==> expression_at(
            Level::Equality,
            ts,
            start + 1,
            end,
            right_of(e),
        ),
        ts[start].kind != TokenKind::Not ==> expression_at(Level::Equality, ts, start, end, e),
{
    let sub = ts.subrange(start, end);
    assert(sub[0] == ts[start]);
    if derives(Level::Equality, sub, e) {
        lemma_first_token(Level::Equality, sub, e);
    } else {
        assert(sub.subrange(1, sub.len() as int) =~= ts.subrange(start + 1, end));
    }
}

/// An expression of the unary level is a prefix operator and a unary
/// operand when it begins with one, and a call expression otherwise.
pub proof fn lemma_unary_target(ts: Seq<Token>, start: int, end: int, e: Expr)
    requires
        expression_at(Level::Unary, ts, start, end, e),
    ensures
        prefix_op(ts[start].kind) ==> expression_at(Level::Unary, ts, start + 1, end, right_of(e)),
        !prefix_op(ts[start].kind) ==> expression_at(Level::Call, ts, start, end, e),
{
    let sub = ts.subrange(start, end);
    assert(sub[0] == ts[start]);
    if derives(Level::Call, sub, e) {
        lemma_first_token(Level::Call, sub, e);
    } else {
        assert(sub.subrange(1, sub.len() as int) =~= ts.subrange(start + 1, end));
    }
}

/// The prefix operators of the unary level.
pub open spec fn prefix_op(k: TokenKind) -> bool {
    k == TokenKind::Plus || k == TokenKind::Minus || k == TokenKind::Tilde
}

/// An expression of the identity level read from the left: a comparison
/// operand up to `r.0`, then either nothing or `is`, maybe `not`, and a
/// second comparison operand `r.2`.
#[verifier::rlimit(40)]
pub proof fn lemma_identity_target(ts: Seq<Token>, start: int, end: int, e: Expr) -> (r: (
    int,
    Expr,
    Expr,
))
    requires
        expression_at(Level::Identity, ts, start, end, e),
    ensures
        expression_at(Level::Comparison, ts, start, r.0, r.1),
        r.0 <= end,
        r.0 < end ==> ts[r.0].kind == TokenKind::Is && r.0 + 1 < end,
        r.0 < end && ts[r.0 + 1].kind == TokenKind::Not ==> expression_at(
            Level::Comparison,
            ts,
            r.0 + 2,
            end,
            r.2,
        ),
        r.0 < end && ts[r.0 + 1].kind != TokenKind::Not ==> expression_at(
            Level::Comparison,
            ts,
            r.0 + 1,
            end,
            r.2,
        ),
{
    let sub = ts.subrange(start, end);
    if derives(Level::Comparison, sub, e) {
        (end, e, e)
    } else if exists|i: int|
        1 <= i < sub.len() - 1 && (#[trigger] sub[i]).kind == TokenKind::Is && e is Binary && op_of(e)
            == sub[i] && derives(Level::Comparison, sub.subrange(0, i), left_of(e)) && derives(
            Level::Comparison,
            sub.subrange(i + 1, sub.len() as int),
            right_of(e),
        ) {
        let i = choose|i: int|
            1 <= i < sub.len() - 1 && (#[trigger] sub[i]).kind == TokenKind::Is && e is Binary
                && op_of(e) == sub[i] && derives(Level::Comparison, sub.subrange(0, i), left_of(e))
                && derives(Level::Comparison, sub.subrange(i + 1, sub.len() as int), right_of(e));
        assert(sub.subrange(0, i) =~= ts.subrange(start, start + i));
        assert(sub.subrange(i + 1, sub.len() as int) =~= ts.subrange(start + i + 1, end));
        lemma_first_token(Level::Comparison, ts.subrange(start + i + 1, end), right_of(e));
        assert(ts.subrange(start + i + 1, end)[0] == ts[start + i + 1]);
        (start + i, left_of(e), right_of(e))
    } else {
        let i = choose|i: int|
            1 <= i < sub.len() - 2 && (#[trigger] sub[i]).kind == TokenKind::Is && sub[i + 1].kind
                == TokenKind::Not && e is Unary && op_of(e) == sub[i + 1] && right_of(e) is Binary
                && op_of(right_of(e)) == sub[i] && derives(
                Level::Comparison,
                sub.subrange(0, i),
                left_of(right_of(e)),
            ) && derives(
                Level::Comparison,
                sub.subrange(i + 2, sub.len() as int),
                right_of(right_of(e)),
            );
        assert(sub.subrange(0, i) =~= ts.subrange(start, start + i));
        assert(sub.subrange(i + 2, sub.len() as int) =~= ts.subrange(start + i + 2, end));
        (start + i, left_of(right_of(e)), right_of(right_of(e)))
    }
}

/// A lone identifier is an expression of every level: the variable it
/// names.
pub proof fn lemma_variable_derives(lv: Level, ts: Seq<Token>)
    requires
        ts.len() == 1,
        ts[0].kind == TokenKind::Identifier,
    ensures
        derives(lv, ts, Expr::Variable(ts[0])),
    decreases rank(lv),
{
    match lv {
        Level::Primary => {},
        Level::Call => lemma_variable_derives(Level::Primary, ts),
        Level::Unary => lemma_variable_derives(Level::Call, ts),
        Level::Identity => lemma_variable_derives(Level::Comparison, ts),
        Level::Not => lemma_variable_derives(Level::Equality, ts),
        _ => lemma_variable_derives(operand_level(lv), ts),
    }
}

/// The only expression a lone identifier forms is the variable it names.
pub proof fn lemma_variable_only(lv: Level, ts: Seq<Token>, e: Expr)
    requires
        ts.len() == 1,
        ts[0].kind == TokenKind::Identifier,
        derives(lv, ts, e),
    ensures
        e == Expr::Variable(ts[0]),
    decreases rank(lv),
{
    match lv {
        Level::Primary => {},
        Level::Call => lemma_variable_only(Level::Primary, ts, e),
        Level::Unary => lemma_variable_only(Level::Call, ts, e),
        Level::Identity => lemma_variable_only(Level::Comparison, ts, e),
        Level::Not => lemma_variable_only(Level::Equality, ts, e),
        _ => lemma_variable_only(operand_level(lv), ts, e),
    }
}

} // verus!
