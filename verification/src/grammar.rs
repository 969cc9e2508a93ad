//! The grammar that the parser follows, stated over sequences of tokens.
//!
//! `derives(level, ts, e)` holds when the tokens `ts`, exactly, form an
//! expression of the given precedence level whose syntax tree is `e`.
//! From the loosest binding level to the tightest:
//!
//! ```text
//! expression := or
//! or         := and ("or" and)*
//! and        := not ("and" not)*
//! not        := "not" equality | equality
//! equality   := identity (("!=" | "==") identity)*
//! identity   := comparison ["is" ["not"] comparison]
//! comparison := term ((">" | ">=" | "<" | "<=") term)*
//! term       := factor (("+" | "-") factor)*
//! factor     := unary (("*" | "/") unary)*
//! unary      := ("+" | "-" | "~") unary | call
//! call       := primary ("(" [expression ("," expression)*] ")" | "." IDENTIFIER)*
//! primary    := "False" | "True" | "None" | INT | FLOAT | STRING | IDENTIFIER
//!             | "(" expression ")"
//! ```
//!
//! Repetitions group to the left, and a call has at most 255 arguments.
//!
//! Statements follow the same idea: `derives_stmt(ts, s)` holds when the
//! tokens `ts`, exactly, form the statement `s`, and `derives_stmts(ts, ss)`
//! when they form the statements `ss`, with any number of line ends before,
//! between and after them.
//!
//! ```text
//! statements := NEWLINE* (statement NEWLINE*)*
//! statement  := "pass"
//!             | if
//!             | "while" expression ":" statement
//!             | NEWLINE block
//!             | [NEWLINE] simple
//! if         := ("if" | "elif") expression ":" statement
//!               [if-starting-with-elif] ["else" ":" statement]
//! block      := INDENT statements DEDENT
//! simple     := "def" IDENTIFIER "(" [IDENTIFIER ("," IDENTIFIER)*] ")" ":" NEWLINE block
//!             | "class" IDENTIFIER ":" NEWLINE block
//!             | "return" [expression]
//!             | expression ("=" | "+=" | "-=" | "*=" | "/=") expression [NEWLINE]
//!             | expression [NEWLINE]
//! ```
//!
//! When an `if` has both an `elif` part and an `else` part after it, the
//! `else` part is the one kept. A compound assignment `x += e` stores
//! `x + e`; an assignment to a property stores the right-hand side whatever
//! its operator.

use vstd::prelude::*;

use crate::ast::{Expr, Stmt};
use crate::token::{Literal, Token, TokenKind};

verus! {

/// The precedence levels of expressions.
pub enum Level {
    Or,
    And,
    Not,
    Equality,
    Identity,
    Comparison,
    Term,
    Factor,
    Unary,
    Call,
    Primary,
}

/// Looser levels rank higher.
pub open spec fn rank(lv: Level) -> nat {
    match lv {
        Level::Or => 10,
        Level::And => 9,
        Level::Not => 8,
        Level::Equality => 7,
        Level::Identity => 6,
        Level::Comparison => 5,
        Level::Term => 4,
        Level::Factor => 3,
        Level::Unary => 2,
        Level::Call => 1,
        Level::Primary => 0,
    }
}

/// The operators that chain at a level, if it is a chain of operands.
pub open spec fn chain_op(lv: Level, k: TokenKind) -> bool {
    match lv {
        Level::Or => k == TokenKind::Or,
        Level::And => k == TokenKind::And,
        Level::Equality => k == TokenKind::BangEqual || k == TokenKind::EqualEqual,
        Level::Comparison => k == TokenKind::Greater || k == TokenKind::GreaterEqual || k
            == TokenKind::Less || k == TokenKind::LessEqual,
        Level::Term => k == TokenKind::Plus || k == TokenKind::Minus,
        Level::Factor => k == TokenKind::Star || k == TokenKind::Slash,
        _ => false,
    }
}

/// The level of the operands of a chain level.
pub open spec fn operand_level(lv: Level) -> Level {
    match lv {
        Level::Or => Level::And,
        Level::And => Level::Not,
        Level::Equality => Level::Identity,
        Level::Comparison => Level::Term,
        Level::Term => Level::Factor,
        _ => Level::Unary,
    }
}

/// `e` is an operation of a chain level: a logical operation at the `or`
/// and `and` levels and a binary operation elsewhere.
pub open spec fn is_chain_node(lv: Level, e: Expr) -> bool {
    if lv == Level::Or || lv == Level::And {
        e is Logical
    } else {
        e is Binary
    }
}

/// The left operand of a binary or logical operation.
pub open spec fn left_of(e: Expr) -> Expr {
    match e {
        Expr::Binary { left, .. } => *left,
        Expr::Logical { left, .. } => *left,
        _ => e,
    }
}

/// The operator of a binary, logical or unary operation.
pub open spec fn op_of(e: Expr) -> Token {
    match e {
        Expr::Binary { operator, .. } => operator,
        Expr::Logical { operator, .. } => operator,
        Expr::Unary { operator, .. } => operator,
        _ => arbitrary(),
    }
}

/// The right operand of a binary, logical or unary operation.
pub open spec fn right_of(e: Expr) -> Expr {
    match e {
        Expr::Binary { right, .. } => *right,
        Expr::Logical { right, .. } => *right,
        Expr::Unary { right, .. } => *right,
        _ => e,
    }
}

/// The callee of a call.
pub open spec fn callee_of(e: Expr) -> Expr {
    match e {
        Expr::Call { callee, .. } => *callee,
        _ => e,
    }
}

/// The closing parenthesis of a call.
pub open spec fn paren_of(e: Expr) -> Token {
    match e {
        Expr::Call { paren, .. } => paren,
        _ => arbitrary(),
    }
}

/// The arguments of a call.
pub open spec fn arguments_of(e: Expr) -> Seq<Expr> {
    match e {
        Expr::Call { arguments, .. } => arguments@,
        _ => Seq::empty(),
    }
}

/// The object of a property access.
pub open spec fn object_of(e: Expr) -> Expr {
    match e {
        Expr::Get { object, .. } => *object,
        _ => e,
    }
}

/// The property name of a property access.
pub open spec fn name_of(e: Expr) -> Token {
    match e {
        Expr::Get { name, .. } => name,
        _ => arbitrary(),
    }
}

/// The expression inside parentheses.
pub open spec fn inner_of(e: Expr) -> Expr {
    match e {
        Expr::Grouping(inner) => *inner,
        _ => e,
    }
}

/// The tokens `ts` form an expression of level `lv` with syntax tree `e`.
pub open spec fn derives(lv: Level, ts: Seq<Token>, e: Expr) -> bool
    decreases ts.len(), rank(lv),
{
    match lv {
        Level::Or | Level::And | Level::Equality | Level::Comparison | Level::Term
        | Level::Factor => {
            ||| derives(operand_level(lv), ts, e)
            ||| exists|i: int|
                1 <= i < ts.len() - 1 && chain_op(lv, (#[trigger] ts[i]).kind) && is_chain_node(lv, e)
                    && op_of(e) == ts[i] && derives(lv, ts.subrange(0, i), left_of(e)) && derives(
                    operand_level(lv),
                    ts.subrange(i + 1, ts.len() as int),
                    right_of(e),
                )
        },
        Level::Not => {
            ||| derives(Level::Equality, ts, e)
            ||| (ts.len() >= 2 && ts[0].kind == TokenKind::Not && e is Unary && op_of(e) == ts[0]
                && derives(Level::Equality, ts.subrange(1, ts.len() as int), right_of(e)))
        },
        Level::Identity => {
            ||| derives(Level::Comparison, ts, e)
            ||| exists|i: int|
                1 <= i < ts.len() - 1 && (#[trigger] ts[i]).kind == TokenKind::Is && e is Binary
                    && op_of(e) == ts[i] && derives(Level::Comparison, ts.subrange(0, i), left_of(e))
                    && derives(Level::Comparison, ts.subrange(i + 1, ts.len() as int), right_of(e))
            ||| exists|i: int|
                1 <= i < ts.len() - 2 && (#[trigger] ts[i]).kind == TokenKind::Is && ts[i + 1].kind
                    == TokenKind::Not && e is Unary && op_of(e) == ts[i + 1] && right_of(e) is Binary
                    && op_of(right_of(e)) == ts[i] && derives(
                    Level::Comparison,
                    ts.subrange(0, i),
                    left_of(right_of(e)),
                ) && derives(
                    Level::Comparison,
                    ts.subrange(i + 2, ts.len() as int),
                    right_of(right_of(e)),
                )
        },
        Level::Unary => {
            ||| derives(Level::Call, ts, e)
            ||| (ts.len() >= 2 && (ts[0].kind == TokenKind::Plus || ts[0].kind == TokenKind::Minus
                || ts[0].kind == TokenKind::Tilde) && e is Unary && op_of(e) == ts[0] && derives(
                Level::Unary,
                ts.subrange(1, ts.len() as int),
                right_of(e),
            ))
        },
        Level::Call => {
            ||| derives(Level::Primary, ts, e)
            ||| (ts.len() >= 3 && ts[ts.len() - 1].kind == TokenKind::RightParen && e is Call
                && paren_of(e) == ts[ts.len() - 1] && exists|i: int|
                1 <= i < ts.len() - 1 && (#[trigger] ts[i]).kind == TokenKind::LeftParen && derives(
                    Level::Call,
                    ts.subrange(0, i),
                    callee_of(e),
                ) && derives_arguments(ts.subrange(i + 1, ts.len() - 1), arguments_of(e)))
            ||| (ts.len() >= 3 && ts[ts.len() - 2].kind == TokenKind::Dot && ts[ts.len() - 1].kind
                == TokenKind::Identifier && e is Get && name_of(e) == ts[ts.len() - 1] && derives(
                Level::Call,
                ts.subrange(0, ts.len() - 2),
                object_of(e),
            ))
        },
        Level::Primary => {
            ||| (ts.len() == 1 && primary_token(ts[0], e))
            ||| (ts.len() >= 2 && ts[0].kind == TokenKind::LeftParen && ts[ts.len() - 1].kind
                == TokenKind::RightParen && e is Grouping && derives(
                Level::Or,
                ts.subrange(1, ts.len() - 1),
                inner_of(e),
            ))
        },
    }
}

/// The tokens `ts` form a comma-separated list of the expressions `args`,
/// at most 255 of them.
pub open spec fn derives_arguments(ts: Seq<Token>, args: Seq<Expr>) -> bool
    decreases ts.len(), 11nat,
{
    &&& args.len() <= 255
    &&& {
        ||| (args.len() == 0 && ts.len() == 0)
        ||| (args.len() == 1 && derives(Level::Or, ts, args[0]))
        ||| (args.len() >= 2 && exists|i: int|
            1 <= i < ts.len() - 1 && (#[trigger] ts[i]).kind == TokenKind::Comma
                && derives_arguments(ts.subrange(0, i), args.drop_last()) && derives(
                Level::Or,
                ts.subrange(i + 1, ts.len() as int),
                args.last(),
            ))
    }
}

/// A single token forms the primary expression `e`: a literal keyword, a
/// literal with its value, or a variable.
pub open spec fn primary_token(t: Token, e: Expr) -> bool {
    if t.kind == TokenKind::False {
        e == Expr::Literal(Literal::Bool(false))
    } else if t.kind == TokenKind::True {
        e == Expr::Literal(Literal::Bool(true))
    } else if t.kind == TokenKind::NoneKeyword {
        e == Expr::Literal(Literal::NoneValue)
    } else if t.kind == TokenKind::Int || t.kind == TokenKind::Float || t.kind == TokenKind::String {
        t.literal matches Some(l) && e == Expr::Literal(l)
    } else if t.kind == TokenKind::Identifier {
        e == Expr::Variable(t)
    } else {
        false
    }
}

/// The tokens `ts` form an expression with syntax tree `e`.
pub open spec fn derives_expression(ts: Seq<Token>, e: Expr) -> bool {
    derives(Level::Or, ts, e)
}

/// Every token of `ts` ends a line.
pub open spec fn all_newlines(ts: Seq<Token>) -> bool {
    forall|i: int| 0 <= i < ts.len() ==> (#[trigger] ts[i]).kind == TokenKind::NewLine
}

/// The operators of an assignment.
pub open spec fn assignment_op(k: TokenKind) -> bool {
    k == TokenKind::Equal || k == TokenKind::PlusEqual || k == TokenKind::MinusEqual || k
        == TokenKind::StarEqual || k == TokenKind::SlashEqual
}

/// The kind of the operator that a compound assignment applies.
pub open spec fn compound_kind(k: TokenKind) -> TokenKind {
    match k {
        TokenKind::PlusEqual => TokenKind::Plus,
        TokenKind::MinusEqual => TokenKind::Minus,
        TokenKind::StarEqual => TokenKind::Star,
        _ => TokenKind::Slash,
    }
}

/// The text of the operator that a compound assignment applies.
pub open spec fn compound_text(k: TokenKind) -> Seq<char> {
    match k {
        TokenKind::PlusEqual => "+"@,
        TokenKind::MinusEqual => "-"@,
        TokenKind::StarEqual => "*"@,
        _ => "/"@,
    }
}

/// What an assignment with operator `op` to the variable `name` of the
/// right-hand side `value` stores: `value` itself for `=`, and for a
/// compound operator the operation of the variable and `value`, whose
/// operator token is made on the line of `op`.
pub open spec fn assigned(name: Token, op: Token, value: Expr, init: Expr) -> bool {
    if op.kind == TokenKind::Equal {
        init == value
    } else {
        &&& init matches Expr::Binary { left, operator, right }
        &&& *left == Expr::Variable(name)
        &&& operator.kind == compound_kind(op.kind)
        &&& operator.lexeme@ == compound_text(op.kind)
        &&& operator.literal is None
        &&& operator.line == op.line
        &&& *right == value
    }
}

/// The right-hand side of an assignment to a variable.
pub open spec fn assigned_value(op: Token, init: Expr) -> Expr {
    if op.kind == TokenKind::Equal {
        init
    } else {
        right_of(init)
    }
}

/// The tokens `ts` form the assignment `s`, whose operator is `ts[i]`.
pub open spec fn assignment_at(ts: Seq<Token>, i: int, s: Stmt) -> bool {
    match s {
        Stmt::Assignment { name, initializer } => {
            let value = assigned_value(ts[i], initializer);
            &&& derives_expression(ts.subrange(0, i), Expr::Variable(name))
            &&& assigned(name, ts[i], value, initializer)
            &&& {
                ||| derives_expression(ts.subrange(i + 1, ts.len() as int), value)
                ||| (ts.last().kind == TokenKind::NewLine && derives_expression(
                    ts.subrange(i + 1, ts.len() - 1),
                    value,
                ))
            }
        },
        Stmt::SetProperty { object, name, value } => {
            &&& derives_expression(ts.subrange(0, i), Expr::Get { object: Box::new(object), name })
            &&& derives_expression(ts.subrange(i + 1, ts.len() as int), value)
        },
        _ => false,
    }
}

/// The tokens `ts` form an assignment statement `s`.
pub open spec fn derives_assignment(ts: Seq<Token>, s: Stmt) -> bool {
    exists|i: int|
        1 <= i < ts.len() - 1 && assignment_op((#[trigger] ts[i]).kind) && assignment_at(ts, i, s)
}

/// The tokens `ts` form an expression statement `s`, with or without the
/// line end after it.
pub open spec fn derives_expression_stmt(ts: Seq<Token>, s: Stmt) -> bool {
    &&& s matches Stmt::Expression(e)
    &&& {
        ||| derives_expression(ts, e)
        ||| (ts.len() >= 1 && ts.last().kind == TokenKind::NewLine && derives_expression(
            ts.drop_last(),
            e,
        ))
    }
}

/// The tokens `ts` form a return statement `s`.
pub open spec fn derives_return(ts: Seq<Token>, s: Stmt) -> bool {
    &&& ts.len() >= 1
    &&& ts[0].kind == TokenKind::Return
    &&& s matches Stmt::Return { keyword, value }
    &&& keyword == ts[0]
    &&& match value {
        None => ts.len() == 1,
        Some(e) => derives_expression(ts.subrange(1, ts.len() as int), e),
    }
}

/// The number of tokens of a list of `n` parameters.
pub open spec fn params_len(n: int) -> int {
    if n <= 0 {
        0
    } else {
        2 * n - 1
    }
}

/// The tokens `ts` are the names `ps` separated by commas.
pub open spec fn derives_params(ts: Seq<Token>, ps: Seq<Token>) -> bool {
    &&& ts.len() == params_len(ps.len() as int)
    &&& forall|j: int|
        0 <= j < ts.len() ==> if j % 2 == 0 {
            #[trigger] ts[j] == ps[j / 2] && ts[j].kind == TokenKind::Identifier
        } else {
            ts[j].kind == TokenKind::Comma
        }
}

/// The tokens `ts` form an indented block of the statements `body`.
pub open spec fn derives_block(ts: Seq<Token>, body: Seq<Stmt>) -> bool
    decreases ts.len(), 0nat,
{
    &&& ts.len() >= 2
    &&& ts[0].kind == TokenKind::Indent
    &&& ts.last().kind == TokenKind::Dedent
    &&& derives_stmts(ts.subrange(1, ts.len() - 1), body)
}

/// The tokens `ts` form a function definition `s`.
pub open spec fn derives_def(ts: Seq<Token>, s: Stmt) -> bool
    decreases ts.len(), 1nat,
{
    &&& s matches Stmt::Function { name, params, body }
    &&& ts.len() >= 3
    &&& ts[0].kind == TokenKind::Def
    &&& ts[1].kind == TokenKind::Identifier
    &&& ts[1] == name
    &&& ts[2].kind == TokenKind::LeftParen
    &&& {
        let k = 3 + params_len(params@.len() as int);
        &&& k + 3 < ts.len()
        &&& derives_params(ts.subrange(3, k), params@)
        &&& ts[k].kind == TokenKind::RightParen
        &&& ts[k + 1].kind == TokenKind::Colon
        &&& ts[k + 2].kind == TokenKind::NewLine
        &&& derives_block(ts.subrange(k + 3, ts.len() as int), body@)
    }
}

/// The tokens `ts` form a class declaration `s`.
pub open spec fn derives_class(ts: Seq<Token>, s: Stmt) -> bool
    decreases ts.len(), 1nat,
{
    &&& s matches Stmt::Class { name, body }
    &&& ts.len() >= 4
    &&& ts[0].kind == TokenKind::Class
    &&& ts[1].kind == TokenKind::Identifier
    &&& ts[1] == name
    &&& ts[2].kind == TokenKind::Colon
    &&& ts[3].kind == TokenKind::NewLine
    &&& derives_block(ts.subrange(4, ts.len() as int), body@)
}

/// The tokens `ts` form a statement `s` that begins with neither `pass`,
/// `if`, `while` nor a line end.
pub open spec fn derives_simple_stmt(ts: Seq<Token>, s: Stmt) -> bool
    decreases ts.len(), 2nat,
{
    ||| derives_def(ts, s)
    ||| derives_class(ts, s)
    ||| derives_return(ts, s)
    ||| derives_assignment(ts, s)
    ||| derives_expression_stmt(ts, s)
}

/// The tokens `ts` form the `if` statement `s`; it may begin with `elif`.
/// Its condition ends before `i` and its first branch before `j`.
pub open spec fn derives_if(ts: Seq<Token>, s: Stmt) -> bool
    decreases ts.len(), 1nat,
{
    &&& ts.len() >= 1
    &&& ts[0].kind == TokenKind::If || ts[0].kind == TokenKind::Elif
    &&& s matches Stmt::If { condition, then_body, else_body }
    &&& exists|i: int, j: int|
        #![trigger ts.subrange(1, i), ts.subrange(j, ts.len() as int)]
        1 < i < j <= ts.len() && ts[i].kind == TokenKind::Colon && derives_expression(
            ts.subrange(1, i),
            condition,
        ) && derives_stmt(ts.subrange(i + 1, j), *then_body) && if_tail(
            ts.subrange(j, ts.len() as int),
            else_body,
        )
}

/// `st` is an `if` statement.
pub open spec fn is_if(st: Stmt) -> bool {
    st is If
}

/// The tokens `rest` after the first branch of an `if` statement give it
/// the `else` branch `else_body`: nothing, an `elif` part, an `else` part,
/// or an `elif` part up to `k` that already ends in an `else` part, whose
/// statement is dropped, and a second `else` part after it.
pub open spec fn if_tail(rest: Seq<Token>, else_body: Option<Box<Stmt>>) -> bool
    decreases rest.len(), 2nat,
{
    ||| (rest.len() == 0 && else_body is None)
    ||| {
        &&& rest.len() >= 1
        &&& rest[0].kind == TokenKind::Elif
        &&& else_body matches Some(b)
        &&& derives_if(rest, *b)
    }
    ||| {
        &&& rest.len() >= 2
        &&& rest[0].kind == TokenKind::Else
        &&& rest[1].kind == TokenKind::Colon
        &&& else_body matches Some(b)
        &&& derives_stmt(rest.subrange(2, rest.len() as int), *b)
    }
    ||| {
        &&& rest.len() >= 1
        &&& rest[0].kind == TokenKind::Elif
        &&& else_body matches Some(b)
        &&& exists|k: int, st: Stmt|
            #![trigger rest.subrange(0, k), is_if(st)]
            0 < k && k + 2 <= rest.len() && is_if(st) && closed_if(rest.subrange(0, k), st)
                && rest[k].kind == TokenKind::Else && rest[k + 1].kind == TokenKind::Colon
                && derives_stmt(rest.subrange(k + 2, rest.len() as int), *b)
    }
}

/// The tokens `ts` form the `if` statement `s` (which may begin with
/// `elif`), and its chain of `elif` parts ends in an `else` part.
pub open spec fn closed_if(ts: Seq<Token>, s: Stmt) -> bool
    decreases ts.len(), 1nat,
{
    &&& ts.len() >= 1
    &&& ts[0].kind == TokenKind::If || ts[0].kind == TokenKind::Elif
    &&& s matches Stmt::If { condition, then_body, else_body }
    &&& exists|i: int, j: int|
        #![trigger ts.subrange(1, i), ts.subrange(j, ts.len() as int)]
        1 < i < j <= ts.len() && ts[i].kind == TokenKind::Colon && derives_expression(
            ts.subrange(1, i),
            condition,
        ) && derives_stmt(ts.subrange(i + 1, j), *then_body) && closed_tail(
            ts.subrange(j, ts.len() as int),
            else_body,
        )
}

/// The tokens `rest` after the first branch of an `if` statement give it
/// the `else` branch `else_body` and end in an `else` part: an `elif` part
/// that ends so, an `else` part, or an `elif` part that ends so, whose
/// statement is dropped, and a second `else` part.
pub open spec fn closed_tail(rest: Seq<Token>, else_body: Option<Box<Stmt>>) -> bool
    decreases rest.len(), 2nat,
{
    ||| {
        &&& rest.len() >= 1
        &&& rest[0].kind == TokenKind::Elif
        &&& else_body matches Some(b)
        &&& closed_if(rest, *b)
    }
    ||| {
        &&& rest.len() >= 2
        &&& rest[0].kind == TokenKind::Else
        &&& rest[1].kind == TokenKind::Colon
        &&& else_body matches Some(b)
        &&& derives_stmt(rest.subrange(2, rest.len() as int), *b)
    }
    ||| {
        &&& rest.len() >= 1
        &&& rest[0].kind == TokenKind::Elif
        &&& else_body matches Some(b)
        &&& exists|k: int, st: Stmt|
            #![trigger rest.subrange(0, k), is_if(st)]
            0 < k && k + 2 <= rest.len() && is_if(st) && closed_if(rest.subrange(0, k), st)
                && rest[k].kind == TokenKind::Else && rest[k + 1].kind == TokenKind::Colon
                && derives_stmt(rest.subrange(k + 2, rest.len() as int), *b)
    }
}

/// The tokens `ts` form the statement `s`.
pub open spec fn derives_stmt(ts: Seq<Token>, s: Stmt) -> bool
    decreases ts.len(), 3nat,
{
    ||| (ts.len() == 1 && ts[0].kind == TokenKind::Pass && s == Stmt::Pass)
    ||| derives_if(ts, s)
    ||| {
        &&& ts.len() >= 1
        &&& ts[0].kind == TokenKind::While
        &&& s matches Stmt::While { condition, body }
        &&& exists|i: int|
            1 < i < ts.len() && (#[trigger] ts[i]).kind == TokenKind::Colon && derives_expression(
                ts.subrange(1, i),
                condition,
            ) && derives_stmt(ts.subrange(i + 1, ts.len() as int), *body)
    }
    ||| {
        &&& ts.len() >= 2
        &&& ts[0].kind == TokenKind::NewLine
        &&& ts[1].kind == TokenKind::Indent
        &&& s matches Stmt::Block(body)
        &&& derives_block(ts.subrange(1, ts.len() as int), body@)
    }
    ||| (ts.len() >= 2 && ts[0].kind == TokenKind::NewLine && ts[1].kind != TokenKind::Indent
        && derives_simple_stmt(ts.subrange(1, ts.len() as int), s))
    ||| derives_simple_stmt(ts, s)
}

/// The tokens `ts` form the statements `ss`, with line ends before, between
/// and after them; the last statement spans from `i` to `j`.
pub open spec fn derives_stmts(ts: Seq<Token>, ss: Seq<Stmt>) -> bool
    decreases ts.len(), 5nat,
{
    if ss.len() == 0 {
        all_newlines(ts)
    } else {
        exists|i: int, j: int|
            #![trigger ts.subrange(i, j)]
            0 <= i < j <= ts.len() && derives_stmts(ts.subrange(0, i), ss.drop_last())
                && derives_stmt(ts.subrange(i, j), ss.last()) && all_newlines(
                ts.subrange(j, ts.len() as int),
            )
    }
}

} // verus!
