//! What the operators of the language do to runtime values.
//!
//! A runtime value is seen here as an `Operand`: its number, text or truth
//! value where the operators depend on it. A floating-point number is only
//! seen as such (and as zero or not); where an operation yields or compares
//! floating-point numbers, the outcome names the operation and the caller
//! carries it out on the values it holds.

use vstd::prelude::*;

use crate::error::RuntimeError;
use crate::text::{decimal, push_decimal};
use crate::token::{SourceLocation, Token, TokenKind};

verus! {

/// A runtime value as the operators see it.
pub enum Operand {
    Int(i64),
    /// A floating-point number, and whether it is non-zero.
    Float { nonzero: bool },
    Str(String),
    Bool(bool),
    NoneValue,
    /// A function defined in the program.
    Function,
    /// A function built into the interpreter.
    NativeFunction,
}

/// How many arguments a built-in function takes.
#[derive(Clone, Copy, Debug, PartialEq, Eq, Structural)]
pub enum Arity {
    Exact(usize),
    Minimum(usize),
}

/// An operation on two numbers that the caller carries out in
/// floating-point arithmetic, after turning an integer operand into a
/// floating-point number.
#[derive(Clone, Copy, Debug, PartialEq, Eq, Structural)]
pub enum FloatOp {
    Add,
    Sub,
    Mul,
    Div,
    Greater,
    GreaterEqual,
    Less,
    LessEqual,
}

/// The result of a binary operation.
pub enum BinaryOutcome {
    /// The value of the operation.
    Value(Operand),
    /// The operation in floating-point arithmetic.
    Float(FloatOp),
    /// The truth of `==` on the two values, or its negation, which the
    /// caller finds out: both are floating-point numbers, or both functions
    /// of the same kind.
    Equality { negate: bool },
    /// Whether the two values have the same identity, which the caller finds
    /// out: one of them has no fixed identity.
    Identity,
    /// The operation fails.
    Error(RuntimeError),
    /// The operator is not a binary operator.
    InvalidOperator,
}

/// The result of a prefix operation.
pub enum UnaryOutcome {
    /// The value of the operation.
    Value(Operand),
    /// The operand itself.
    Unchanged,
    /// The negation of the floating-point operand.
    FloatNegate,
    /// The operation fails.
    Error(RuntimeError),
}

/// The name of the type of `v`.
pub open spec fn kind_name(v: Operand) -> Seq<char> {
    match v {
        Operand::NoneValue => "NoneType"@,
        Operand::Bool(_) => "bool"@,
        Operand::Int(_) => "int"@,
        Operand::Float { .. } => "float"@,
        Operand::Str(_) => "str"@,
        Operand::Function => "function"@,
        Operand::NativeFunction => "builtin_function_or_method"@,
    }
}

/// Whether `v` counts as true: `None`, `False`, zero and the empty string
/// do not, anything else does.
pub open spec fn truthy(v: Operand) -> bool {
    match v {
        Operand::NoneValue => false,
        Operand::Bool(b) => b,
        Operand::Int(i) => i != 0,
        Operand::Float { nonzero } => nonzero,
        Operand::Str(s) => s@.len() > 0,
        Operand::Function => true,
        Operand::NativeFunction => true,
    }
}

impl Operand {
    /// The name of the type of this value.
    pub fn py_type(&self) -> (r: &'static str)
        ensures
            r@ == kind_name(*self),
    {
        match self {
            Operand::NoneValue => "NoneType",
            Operand::Bool(_) => "bool",
            Operand::Int(_) => "int",
            Operand::Float { .. } => "float",
            Operand::Str(_) => "str",
            Operand::Function => "function",
            Operand::NativeFunction => "builtin_function_or_method",
        }
    }

    /// Whether this value counts as true.
    pub fn is_truthy(&self) -> (r: bool)
        ensures
            r == truthy(*self),
    {
        match self {
            Operand::NoneValue => false,
            Operand::Bool(b) => *b,
            Operand::Int(i) => *i != 0,
            Operand::Float { nonzero } => *nonzero,
            Operand::Str(s) => !s.as_str().is_empty(),
            Operand::Function => true,
            Operand::NativeFunction => true,
        }
    }
}

/// The error of a call of the built-in function `name` with `num_args`
/// arguments, if its arity does not admit them.
pub open spec fn arity_error_text(num_args: usize, arity: Arity, name: Seq<char>) -> Option<Seq<char>> {
    match arity {
        Arity::Exact(n) => if num_args != n {
            Some(name + "() expected "@ + decimal(n as nat) + " arguments but got "@ + decimal(
                num_args as nat,
            ))
        } else {
            None
        },
        Arity::Minimum(n) => if num_args < n {
            Some(name + "() expected at least "@ + decimal(n as nat) + " arguments but got "@
                + decimal(num_args as nat))
        } else {
            None
        },
    }
}

/// Checks that the built-in function `name` takes `num_args` arguments; the
/// error is a type error at `line`.
pub fn check_arity(num_args: usize, arity: Arity, name: &str, line: usize) -> (r: Result<(), RuntimeError>)
    ensures
        match arity_error_text(num_args, arity, name@) {
            None => r is Ok,
            Some(text) => r matches Err(RuntimeError::TypeError(l, m)) && l.line == line && m@ == text,
        },
{
    match arity {
        Arity::Exact(n) => {
            if num_args != n {
                let mut m = String::from_str(name);
                m.append("() expected ");
                push_decimal(&mut m, n as u64);
                m.append(" arguments but got ");
                push_decimal(&mut m, num_args as u64);
                return Err(RuntimeError::TypeError(SourceLocation { line }, m));
            }
        },
        Arity::Minimum(n) => {
            if num_args < n {
                let mut m = String::from_str(name);
                m.append("() expected at least ");
                push_decimal(&mut m, n as u64);
                m.append(" arguments but got ");
                push_decimal(&mut m, num_args as u64);
                return Err(RuntimeError::TypeError(SourceLocation { line }, m));
            }
        },
    }
    Ok(())
}


/// The symbol of an arithmetic or comparison operator.
pub open spec fn op_symbol(op: TokenKind) -> Seq<char> {
    match op {
        TokenKind::Plus => "+"@,
        TokenKind::Minus => "-"@,
        TokenKind::Star => "*"@,
        TokenKind::Slash => "/"@,
        TokenKind::Greater => ">"@,
        TokenKind::GreaterEqual => ">="@,
        TokenKind::Less => "<"@,
        TokenKind::LessEqual => "<="@,
        _ => Seq::empty(),
    }
}

/// The symbol of an arithmetic or comparison operator.
fn symbol(op: TokenKind) -> (r: &'static str)
    ensures
        r@ == op_symbol(op),
{
    proof {
        reveal_strlit("");
    }
    match op {
        TokenKind::Plus => "+",
        TokenKind::Minus => "-",
        TokenKind::Star => "*",
        TokenKind::Slash => "/",
        TokenKind::Greater => ">",
        TokenKind::GreaterEqual => ">=",
        TokenKind::Less => "<",
        TokenKind::LessEqual => "<=",
        _ => "",
    }
}

/// The message of a binary operator applied to operands of the wrong types.
pub open spec fn operand_error_text(op: TokenKind, l: Operand, r: Operand) -> Seq<char> {
    "unsupported operand type(s) for "@ + op_symbol(op) + ": '"@ + kind_name(l) + "' and '"@
        + kind_name(r) + "'"@
}

/// `v` is a number.
pub open spec fn is_number(v: Operand) -> bool {
    v is Int || v is Float
}

/// The floating-point operation of an arithmetic or comparison operator.
pub open spec fn float_op(op: TokenKind) -> FloatOp {
    match op {
        TokenKind::Plus => FloatOp::Add,
        TokenKind::Minus => FloatOp::Sub,
        TokenKind::Star => FloatOp::Mul,
        TokenKind::Slash => FloatOp::Div,
        TokenKind::Greater => FloatOp::Greater,
        TokenKind::GreaterEqual => FloatOp::GreaterEqual,
        TokenKind::Less => FloatOp::Less,
        _ => FloatOp::LessEqual,
    }
}

/// `s` repeated `n` times; nothing when `n` is not positive.
pub open spec fn repeat(s: Seq<char>, n: int) -> Seq<char>
    decreases n,
{
    if n <= 0 {
        Seq::empty()
    } else {
        repeat(s, n - 1) + s
    }
}

/// The identity that a value has whatever object holds it: `True`,
/// `False`, `None` and the integers from -5 to 256 have one.
pub open spec fn fixed_identity(v: Operand) -> Option<int> {
    match v {
        Operand::Bool(b) => if b {
            Some(140735165470832)
        } else {
            Some(140735165470864)
        },
        Operand::NoneValue => Some(140735165431120),
        Operand::Int(n) => if -5 <= n <= 256 {
            Some(1000000 + n)
        } else {
            None
        },
        _ => None,
    }
}

/// The truth of `==` on two values, where their operands decide it: two
/// floating-point numbers, or two functions of the same kind, do not.
pub open spec fn decided_equal(l: Operand, r: Operand) -> Option<bool> {
    match (l, r) {
        (Operand::Int(a), Operand::Int(b)) => Some(a == b),
        (Operand::Str(a), Operand::Str(b)) => Some(a@ == b@),
        (Operand::Bool(a), Operand::Bool(b)) => Some(a == b),
        (Operand::NoneValue, Operand::NoneValue) => Some(true),
        (Operand::Float { .. }, Operand::Float { .. }) => None,
        (Operand::Function, Operand::Function) => None,
        (Operand::NativeFunction, Operand::NativeFunction) => None,
        _ => Some(false),
    }
}

/// Integer arithmetic with the operator `op` on `a` and `b` stays within
/// 64 bits.
pub open spec fn int_op_in_range(op: TokenKind, a: i64, b: i64) -> bool {
    match op {
        TokenKind::Plus => i64::MIN <= a + b <= i64::MAX,
        TokenKind::Minus => i64::MIN <= a - b <= i64::MAX,
        TokenKind::Star => i64::MIN <= a * b <= i64::MAX,
        _ => true,
    }
}

/// The operands of a binary operation are not integers whose result
/// leaves 64 bits.
pub open spec fn binary_in_range(l: Operand, op: TokenKind, r: Operand) -> bool {
    l is Int && r is Int ==> int_op_in_range(op, l->Int_0, r->Int_0)
}

/// `out` is a type error at `line` for operator `op` on `l` and `r`.
pub open spec fn is_operand_error(out: BinaryOutcome, op: TokenKind, line: usize, l: Operand, r: Operand) -> bool {
    out matches BinaryOutcome::Error(RuntimeError::TypeError(loc, m)) && loc.line == line && m@
        == operand_error_text(op, l, r)
}

/// An arithmetic operation: integers give an integer, other numbers a
/// floating-point operation, anything else a type error.
pub open spec fn arithmetic(out: BinaryOutcome, op: TokenKind, line: usize, l: Operand, r: Operand, int_result: int) -> bool {
    if l is Int && r is Int {
        out matches BinaryOutcome::Value(Operand::Int(c)) && c == int_result
    } else if is_number(l) && is_number(r) {
        out == BinaryOutcome::Float(float_op(op))
    } else {
        is_operand_error(out, op, line, l, r)
    }
}

/// A comparison: integers give a truth value, other numbers a
/// floating-point comparison, anything else a type error.
pub open spec fn comparison(out: BinaryOutcome, op: TokenKind, line: usize, l: Operand, r: Operand, int_result: bool) -> bool {
    if l is Int && r is Int {
        out matches BinaryOutcome::Value(Operand::Bool(c)) && c == int_result
    } else if is_number(l) && is_number(r) {
        out == BinaryOutcome::Float(float_op(op))
    } else {
        is_operand_error(out, op, line, l, r)
    }
}

/// What the binary operator `operator` does to `l` and `r`.
pub open spec fn binary_result(l: Operand, operator: Token, r: Operand, out: BinaryOutcome) -> bool {
    let op = operator.kind;
    let line = operator.line;
    let a = if l is Int { l->Int_0 as int } else { 0 };
    let b = if r is Int { r->Int_0 as int } else { 0 };
    match op {
        TokenKind::Plus => if l is Str && r is Str {
            out matches BinaryOutcome::Value(Operand::Str(c)) && c@ == l->Str_0@ + r->Str_0@
        } else {
            arithmetic(out, op, line, l, r, a + b)
        },
        TokenKind::Minus => arithmetic(out, op, line, l, r, a - b),
        TokenKind::Star => if l is Str && r is Int {
            out matches BinaryOutcome::Value(Operand::Str(c)) && c@ == repeat(l->Str_0@, b)
        } else {
            arithmetic(out, op, line, l, r, a * b)
        },
        TokenKind::Slash => if is_number(l) && is_number(r) {
            out == BinaryOutcome::Float(FloatOp::Div)
        } else {
            is_operand_error(out, op, line, l, r)
        },
        TokenKind::Greater => comparison(out, op, line, l, r, a > b),
        TokenKind::GreaterEqual => comparison(out, op, line, l, r, a >= b),
        TokenKind::Less => comparison(out, op, line, l, r, a < b),
        TokenKind::LessEqual => comparison(out, op, line, l, r, a <= b),
        TokenKind::EqualEqual => match decided_equal(l, r) {
            Some(e) => out matches BinaryOutcome::Value(Operand::Bool(c)) && c == e,
            None => out == (BinaryOutcome::Equality { negate: false }),
        },
        TokenKind::BangEqual => match decided_equal(l, r) {
            Some(e) => out matches BinaryOutcome::Value(Operand::Bool(c)) && c == !e,
            None => out == (BinaryOutcome::Equality { negate: true }),
        },
        TokenKind::Is => match (fixed_identity(l), fixed_identity(r)) {
            (Some(x), Some(y)) => out matches BinaryOutcome::Value(Operand::Bool(c)) && c == (x == y),
            _ => out == BinaryOutcome::Identity,
        },
        _ => out == BinaryOutcome::InvalidOperator,
    }
}

/// The type error of `op` applied to `l` and `r`, at `line`.
fn operand_error(op: TokenKind, line: usize, l: &Operand, r: &Operand) -> (out: BinaryOutcome)
    ensures
        is_operand_error(out, op, line, *l, *r),
{
    let mut m = String::from_str("unsupported operand type(s) for ");
    m.append(symbol(op));
    m.append(": '");
    m.append(l.py_type());
    m.append("' and '");
    m.append(r.py_type());
    m.append("'");
    BinaryOutcome::Error(RuntimeError::TypeError(SourceLocation { line }, m))
}

/// The floating-point operation of `op` when both operands are numbers
/// and not both integers, the type error otherwise.
fn float_or_error(op: TokenKind, line: usize, l: &Operand, r: &Operand) -> (out: BinaryOutcome)
    requires
        !(l is Int && r is Int),
    ensures
        is_number(*l) && is_number(*r) ==> out == BinaryOutcome::Float(float_op(op)),
        !(is_number(*l) && is_number(*r)) ==> is_operand_error(out, op, line, *l, *r),
{
    let l_number = match l {
        Operand::Int(_) => true,
        Operand::Float { .. } => true,
        _ => false,
    };
    let r_number = match r {
        Operand::Int(_) => true,
        Operand::Float { .. } => true,
        _ => false,
    };
    if l_number && r_number {
        let f = match op {
            TokenKind::Plus => FloatOp::Add,
            TokenKind::Minus => FloatOp::Sub,
            TokenKind::Star => FloatOp::Mul,
            TokenKind::Slash => FloatOp::Div,
            TokenKind::Greater => FloatOp::Greater,
            TokenKind::GreaterEqual => FloatOp::GreaterEqual,
            TokenKind::Less => FloatOp::Less,
            _ => FloatOp::LessEqual,
        };
        BinaryOutcome::Float(f)
    } else {
        operand_error(op, line, l, r)
    }
}

/// `s` repeated `n` times.
fn repeat_string(s: &String, n: i64) -> (r: String)
    ensures
        r@ == repeat(s@, n as int),
{
    let mut result = String::new();
    let mut k: i64 = 0;
    while k < n
        invariant
            0 <= k,
            n > 0 ==> k <= n,
            n <= 0 ==> k == 0,
            result@ == repeat(s@, k as int),
        decreases n - k,
    {
        result.append(s.as_str());
        k += 1;
    }
    result
}

/// The truth of `==` on two values, where their operands decide it.
fn equal_operands(l: &Operand, r: &Operand) -> (out: Option<bool>)
    ensures
        out == decided_equal(*l, *r),
{
    match (l, r) {
        (Operand::Int(a), Operand::Int(b)) => Some(*a == *b),
        (Operand::Str(a), Operand::Str(b)) => Some(a.eq(b)),
        (Operand::Bool(a), Operand::Bool(b)) => Some(*a == *b),
        (Operand::NoneValue, Operand::NoneValue) => Some(true),
        (Operand::Float { .. }, Operand::Float { .. }) => None,
        (Operand::Function, Operand::Function) => None,
        (Operand::NativeFunction, Operand::NativeFunction) => None,
        _ => Some(false),
    }
}

/// The identity that a value has whatever object holds it, if any.
pub fn constant_identity(v: &Operand) -> (r: Option<i64>)
    ensures
        match fixed_identity(*v) {
            Some(x) => r == Some(x as i64),
            None => r is None,
        },
{
    match v {
        Operand::Bool(b) => if *b {
            Some(140735165470832)
        } else {
            Some(140735165470864)
        },
        Operand::NoneValue => Some(140735165431120),
        Operand::Int(n) => if *n >= -5 && *n <= 256 {
            Some(1000000 + *n)
        } else {
            None
        },
        _ => None,
    }
}

/// What the binary operator `operator` does to `left` and `right`.
pub fn binary_expr(left: &Operand, operator: &Token, right: &Operand) -> (out: BinaryOutcome)
    requires
        binary_in_range(*left, operator.kind, *right),
    ensures
        binary_result(*left, *operator, *right, out),
{
    let op = operator.kind;
    let line = operator.line;
    match op {
        TokenKind::Plus => match (left, right) {
            (Operand::Int(a), Operand::Int(b)) => BinaryOutcome::Value(Operand::Int(*a + *b)),
            (Operand::Str(a), Operand::Str(b)) => {
                let mut c = a.clone();
                c.append(b.as_str());
                BinaryOutcome::Value(Operand::Str(c))
            },
            _ => float_or_error(op, line, left, right),
        },
        TokenKind::Minus => match (left, right) {
            (Operand::Int(a), Operand::Int(b)) => BinaryOutcome::Value(Operand::Int(*a - *b)),
            _ => float_or_error(op, line, left, right),
        },
        TokenKind::Star => match (left, right) {
            (Operand::Int(a), Operand::Int(b)) => BinaryOutcome::Value(Operand::Int(*a * *b)),
            (Operand::Str(a), Operand::Int(n)) => BinaryOutcome::Value(Operand::Str(repeat_string(a, *n))),
            _ => float_or_error(op, line, left, right),
        },
        TokenKind::Slash => match (left, right) {
            (Operand::Int(_), Operand::Int(_)) => BinaryOutcome::Float(FloatOp::Div),
            _ => float_or_error(op, line, left, right),
        },
        TokenKind::Greater => match (left, right) {
            (Operand::Int(a), Operand::Int(b)) => BinaryOutcome::Value(Operand::Bool(*a > *b)),
            _ => float_or_error(op, line, left, right),
        },
        TokenKind::GreaterEqual => match (left, right) {
            (Operand::Int(a), Operand::Int(b)) => BinaryOutcome::Value(Operand::Bool(*a >= *b)),
            _ => float_or_error(op, line, left, right),
        },
        TokenKind::Less => match (left, right) {
            (Operand::Int(a), Operand::Int(b)) => BinaryOutcome::Value(Operand::Bool(*a < *b)),
            _ => float_or_error(op, line, left, right),
        },
        TokenKind::LessEqual => match (left, right) {
            (Operand::Int(a), Operand::Int(b)) => BinaryOutcome::Value(Operand::Bool(*a <= *b)),
            _ => float_or_error(op, line, left, right),
        },
        TokenKind::EqualEqual => match equal_operands(left, right) {
            Some(e) => BinaryOutcome::Value(Operand::Bool(e)),
            None => BinaryOutcome::Equality { negate: false },
        },
        TokenKind::BangEqual => match equal_operands(left, right) {
            Some(e) => BinaryOutcome::Value(Operand::Bool(!e)),
            None => BinaryOutcome::Equality { negate: true },
        },
        TokenKind::Is => match (constant_identity(left), constant_identity(right)) {
            (Some(x), Some(y)) => BinaryOutcome::Value(Operand::Bool(x == y)),
            _ => BinaryOutcome::Identity,
        },
        _ => BinaryOutcome::InvalidOperator,
    }
}

/// The message of a prefix operator applied to an operand of the wrong
/// type.
pub open spec fn bad_operand_text(v: Operand) -> Seq<char> {
    "bad operand type for unary -: '"@ + kind_name(v) + "'"@
}

/// What the prefix operator `operator` does to `v`.
pub open spec fn unary_result(operator: Token, v: Operand, out: UnaryOutcome) -> bool {
    let bad = out matches UnaryOutcome::Error(RuntimeError::TypeError(loc, m)) && loc.line
        == operator.line && m@ == bad_operand_text(v);
    match operator.kind {
        TokenKind::Plus => if is_number(v) {
            out is Unchanged
        } else {
            bad
        },
        TokenKind::Minus => match v {
            Operand::Int(i) => out matches UnaryOutcome::Value(Operand::Int(j)) && j == -i,
            Operand::Float { .. } => out is FloatNegate,
            _ => bad,
        },
        TokenKind::Tilde => match v {
            Operand::Int(i) => out matches UnaryOutcome::Value(Operand::Int(j)) && j == -(i + 1),
            _ => bad,
        },
        TokenKind::Not => out matches UnaryOutcome::Value(Operand::Bool(b)) && b == !truthy(v),
        _ => out matches UnaryOutcome::Error(RuntimeError::TypeError(loc, m)) && loc.line
            == operator.line && m@ == "invalid unary operator: '"@ + operator.lexeme@ + "'"@,
    }
}

/// The integer operand of a prefix operator stays within 64 bits: `-`
/// does not negate the least integer, and `~` does not apply to the
/// greatest.
pub open spec fn unary_in_range(op: TokenKind, v: Operand) -> bool {
    v matches Operand::Int(i) ==> (op == TokenKind::Minus ==> i != i64::MIN) && (op
        == TokenKind::Tilde ==> i != i64::MAX)
}

/// The type error of a prefix operator applied to `v`.
fn bad_operand(line: usize, v: &Operand) -> (out: UnaryOutcome)
    ensures
        out matches UnaryOutcome::Error(RuntimeError::TypeError(loc, m)) && loc.line == line && m@
            == bad_operand_text(*v),
{
    let mut m = String::from_str("bad operand type for unary -: '");
    m.append(v.py_type());
    m.append("'");
    UnaryOutcome::Error(RuntimeError::TypeError(SourceLocation { line }, m))
}

/// What the prefix operator `operator` does to `right`.
pub fn unary_expr(operator: &Token, right: &Operand) -> (out: UnaryOutcome)
    requires
        unary_in_range(operator.kind, *right),
    ensures
        unary_result(*operator, *right, out),
{
    let line = operator.line;
    match operator.kind {
        TokenKind::Plus => match right {
            Operand::Int(_) => UnaryOutcome::Unchanged,
            Operand::Float { .. } => UnaryOutcome::Unchanged,
            _ => bad_operand(line, right),
        },
        TokenKind::Minus => match right {
            Operand::Int(i) => UnaryOutcome::Value(Operand::Int(-*i)),
            Operand::Float { .. } => UnaryOutcome::FloatNegate,
            _ => bad_operand(line, right),
        },
        TokenKind::Tilde => match right {
            Operand::Int(i) => UnaryOutcome::Value(Operand::Int(-(*i + 1))),
            _ => bad_operand(line, right),
        },
        TokenKind::Not => UnaryOutcome::Value(Operand::Bool(!right.is_truthy())),
        _ => {
            let mut m = String::from_str("invalid unary operator: '");
            m.append(operator.lexeme.as_str());
            m.append("'");
            UnaryOutcome::Error(RuntimeError::TypeError(SourceLocation { line }, m))
        },
    }
}


/// `==` is symmetric: where the operands decide it, swapping them gives the
/// same truth.
pub proof fn lemma_equality_symmetric(l: Operand, r: Operand)
    ensures
        decided_equal(l, r) == decided_equal(r, l),
{
}

/// `!=` gives the opposite of `==` on the same operands.
pub proof fn lemma_not_equal_negates(
    l: Operand,
    r: Operand,
    eq: Token,
    ne: Token,
    eq_out: BinaryOutcome,
    ne_out: BinaryOutcome,
)
    requires
        eq.kind == TokenKind::EqualEqual,
        ne.kind == TokenKind::BangEqual,
        binary_result(l, eq, r, eq_out),
        binary_result(l, ne, r, ne_out),
    ensures
        eq_out matches BinaryOutcome::Value(Operand::Bool(a)) ==> (ne_out matches BinaryOutcome::Value(
            Operand::Bool(b),
        ) && b == !a),
        eq_out == (BinaryOutcome::Equality { negate: false }) <==> ne_out == (
        BinaryOutcome::Equality { negate: true }),
{
}

/// On integers from -5 to 256, `is` gives the same truth as `==`.
pub proof fn lemma_small_int_identity(
    a: i64,
    b: i64,
    is_op: Token,
    eq: Token,
    is_out: BinaryOutcome,
    eq_out: BinaryOutcome,
)
    requires
        -5 <= a <= 256,
        -5 <= b <= 256,
        is_op.kind == TokenKind::Is,
        eq.kind == TokenKind::EqualEqual,
        binary_result(Operand::Int(a), is_op, Operand::Int(b), is_out),
        binary_result(Operand::Int(a), eq, Operand::Int(b), eq_out),
    ensures
        is_out matches BinaryOutcome::Value(Operand::Bool(x)) && eq_out matches BinaryOutcome::Value(
            Operand::Bool(y),
        ) && x == y,
{
}

/// `l < r` agrees with `r > l`, and `l <= r` with `r >= l`: on integers
/// both give the same truth value, on other numbers both hand back a
/// floating-point comparison, and on anything else both are type errors.
pub proof fn lemma_comparison_mirrors(
    l: Operand,
    r: Operand,
    op: Token,
    mirrored: Token,
    out: BinaryOutcome,
    mirrored_out: BinaryOutcome,
)
    requires
        (op.kind == TokenKind::Less && mirrored.kind == TokenKind::Greater) || (op.kind
            == TokenKind::LessEqual && mirrored.kind == TokenKind::GreaterEqual),
        binary_result(l, op, r, out),
        binary_result(r, mirrored, l, mirrored_out),
    ensures
        out matches BinaryOutcome::Value(Operand::Bool(x)) ==> (mirrored_out matches BinaryOutcome::Value(
            Operand::Bool(y),
        ) && x == y),
        out is Float <==> mirrored_out is Float,
        out is Error <==> mirrored_out is Error,
{
}


/// `==` on two strings is true exactly when they hold the same characters,
/// and `!=` exactly when they do not; the same for two integers and for two
/// truth values.
pub proof fn lemma_equality_of_values(l: Operand, r: Operand, operator: Token, out: BinaryOutcome)
    requires
        operator.kind == TokenKind::EqualEqual || operator.kind == TokenKind::BangEqual,
        binary_result(l, operator, r, out),
    ensures
        match (l, r) {
            (Operand::Str(a), Operand::Str(b)) => out == BinaryOutcome::Value(
                Operand::Bool((a@ == b@) == (operator.kind == TokenKind::EqualEqual)),
            ),
            (Operand::Int(a), Operand::Int(b)) => out == BinaryOutcome::Value(
                Operand::Bool((a == b) == (operator.kind == TokenKind::EqualEqual)),
            ),
            (Operand::Bool(a), Operand::Bool(b)) => out == BinaryOutcome::Value(
                Operand::Bool((a == b) == (operator.kind == TokenKind::EqualEqual)),
            ),
            _ => true,
        },
{
}

/// A truth value counts as true exactly when it is `True`: `not` turns
/// `True` into `False` and `False` into `True`, and a condition that is a
/// truth value holds exactly when that value is `True`.
pub proof fn lemma_truth_values(b: bool, operator: Token, out: UnaryOutcome)
    requires
        operator.kind == TokenKind::Not,
        unary_result(operator, Operand::Bool(b), out),
    ensures
        truthy(Operand::Bool(b)) == b,
        out == UnaryOutcome::Value(Operand::Bool(!b)),
{
}


/// An integer, a truth value or a string counts as true exactly when it
/// differs from the zero of its type: `0`, `False` or the empty string.
pub proof fn lemma_truth_is_nonzero(v: Operand, zero: Operand, eq: Token, out: BinaryOutcome)
    requires
        eq.kind == TokenKind::EqualEqual,
        binary_result(v, eq, zero, out),
        (v is Int && zero == Operand::Int(0)) || (v is Bool && zero == Operand::Bool(false)) || (v is Str
            && zero is Str && zero->Str_0@.len() == 0),
    ensures
        out == BinaryOutcome::Value(Operand::Bool(!truthy(v))),
{
    if v is Str && v->Str_0@.len() == 0 {
        assert(v->Str_0@ =~= zero->Str_0@);
    }
}

} // verus!
