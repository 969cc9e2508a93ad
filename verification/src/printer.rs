//! Rendering syntax trees as S-expressions: a node on one line when it is
//! short, and its operands aligned on separate lines otherwise.

use vstd::prelude::*;
use vstd::utf8::encode_utf8;

use crate::ast::{Expr, Stmt};
use crate::text::{decimal, push_decimal};
use crate::token::Literal;

verus! {

/// The shape of an S-expression: an atom of text, or a parenthesised list.
pub ghost enum Sexp {
    Atom(Seq<char>),
    List(Seq<Sexp>),
}

/// An S-expression.
pub enum SExpr {
    Atom(String),
    List(Vec<SExpr>),
}

impl SExpr {
    /// The shape of this S-expression.
    pub open spec fn view(self) -> Sexp
        decreases self,
    {
        match self {
            SExpr::Atom(s) => Sexp::Atom(s@),
            SExpr::List(cs) => Sexp::List(views(cs@)),
        }
    }
}

/// The shapes of the S-expressions `cs`.
pub open spec fn views(cs: Seq<SExpr>) -> Seq<Sexp>
    decreases cs,
{
    if cs.len() == 0 {
        Seq::empty()
    } else {
        views(cs.drop_last()).push(cs.last().view())
    }
}

/// The shapes keep the number and the order of the S-expressions.
pub proof fn lemma_views(cs: Seq<SExpr>)
    ensures
        views(cs).len() == cs.len(),
        forall|i: int| 0 <= i < cs.len() ==> #[trigger] views(cs)[i] == cs[i].view(),
    decreases cs.len(),
{
    if cs.len() > 0 {
        lemma_views(cs.drop_last());
    }
}

/// The number of bytes of the UTF-8 encoding of `s`.
pub open spec fn byte_len(s: Seq<char>) -> nat {
    encode_utf8(s).len()
}

/// The byte length of a concatenation is the sum of the byte lengths.
pub proof fn lemma_byte_len_concat(a: Seq<char>, b: Seq<char>)
    ensures
        byte_len(a + b) == byte_len(a) + byte_len(b),
    decreases a.len(),
{
    if a.len() == 0 {
        assert(a + b =~= b);
    } else {
        assert((a + b).drop_first() =~= a.drop_first() + b);
        assert((a + b)[0] == a[0]);
        lemma_byte_len_concat(a.drop_first(), b);
    }
}

/// An ASCII character takes one byte.
pub proof fn lemma_byte_len_ascii(c: char)
    requires
        (c as u32) < 0x80,
    ensures
        byte_len(seq![c]) == 1,
{
    assert(seq![c].drop_first() =~= Seq::<char>::empty());
    assert(encode_utf8(seq![c].drop_first()) =~= Seq::<u8>::empty());
}

/// The number of bytes of the one-line text of `e`: the bytes of an atom,
/// and for a list two parentheses, its elements and a space between each
/// two of them.
pub open spec fn width(e: Sexp) -> nat
    decreases e,
{
    match e {
        Sexp::Atom(s) => byte_len(s),
        Sexp::List(cs) => if cs.len() == 0 {
            2
        } else {
            2 + widths(cs) + (cs.len() - 1) as nat
        },
    }
}

/// The sum of the widths of `cs`.
pub open spec fn widths(cs: Seq<Sexp>) -> nat
    decreases cs,
{
    if cs.len() == 0 {
        0
    } else {
        widths(cs.drop_last()) + width(cs.last())
    }
}

/// The widths of a prefix add up to at most those of the whole, and each
/// width is at most the sum.
pub proof fn lemma_widths_bound(cs: Seq<Sexp>, i: int)
    requires
        0 <= i <= cs.len(),
    ensures
        widths(cs.take(i)) <= widths(cs),
        i < cs.len() ==> widths(cs.take(i)) + width(cs[i]) <= widths(cs),
    decreases cs.len() - i,
{
    if i < cs.len() {
        assert(cs.take(i + 1).drop_last() =~= cs.take(i));
        assert(cs.take(i + 1).last() == cs[i]);
        lemma_widths_bound(cs, i + 1);
    } else {
        assert(cs.take(i) =~= cs);
    }
}

/// The text of `e` on one line: an atom's text, and for a list its
/// elements between parentheses, separated by single spaces.
pub open spec fn flat(e: Sexp) -> Seq<char>
    decreases e,
{
    match e {
        Sexp::Atom(s) => s,
        Sexp::List(cs) => if cs.len() == 0 {
            seq!['(', ')']
        } else {
            seq!['('] + joined(cs) + seq![')']
        },
    }
}

/// The one-line texts of `cs`, separated by single spaces.
pub open spec fn joined(cs: Seq<Sexp>) -> Seq<char>
    decreases cs,
{
    if cs.len() == 0 {
        Seq::empty()
    } else if cs.len() == 1 {
        flat(cs[0])
    } else {
        joined(cs.drop_last()) + seq![' '] + flat(cs.last())
    }
}

/// The width of an S-expression is the number of bytes of its one-line
/// text.
pub proof fn lemma_width_is_flat_len(e: Sexp)
    ensures
        width(e) == byte_len(flat(e)),
    decreases e,
{
    match e {
        Sexp::Atom(s) => {},
        Sexp::List(cs) => {
            lemma_byte_len_ascii('(');
            lemma_byte_len_ascii(')');
            if cs.len() == 0 {
                lemma_byte_len_concat(seq!['('], seq![')']);
                assert(seq!['('] + seq![')'] =~= seq!['(', ')']);
            } else {
                lemma_widths_is_joined_len(cs);
                lemma_byte_len_concat(seq!['('], joined(cs));
                lemma_byte_len_concat(seq!['('] + joined(cs), seq![')']);
            }
        },
    }
}

/// The texts of `cs` separated by spaces take their widths and a byte per
/// space.
pub proof fn lemma_widths_is_joined_len(cs: Seq<Sexp>)
    requires
        cs.len() >= 1,
    ensures
        byte_len(joined(cs)) == widths(cs) + cs.len() - 1,
    decreases cs,
{
    if cs.len() == 1 {
        lemma_width_is_flat_len(cs[0]);
        assert(cs.drop_last() =~= Seq::<Sexp>::empty());
        assert(widths(cs.drop_last()) == 0);
        assert(widths(cs) == width(cs[0]));
        assert(joined(cs) == flat(cs[0]));
    } else {
        lemma_widths_is_joined_len(cs.drop_last());
        lemma_width_is_flat_len(cs.last());
        lemma_byte_len_ascii(' ');
        lemma_byte_len_concat(joined(cs.drop_last()), seq![' ']);
        lemma_byte_len_concat(joined(cs.drop_last()) + seq![' '], flat(cs.last()));
    }
}

/// An atom holding the text `s`.
pub fn atom(s: &str) -> (r: SExpr)
    ensures
        r@ == Sexp::Atom(s@),
{
    SExpr::Atom(String::from_str(s))
}

/// The number of bytes that `e` takes on one line.
pub fn measure_single_line(expr: &SExpr) -> (r: usize)
    requires
        width(expr@) <= usize::MAX,
    ensures
        r == width(expr@),
    decreases expr,
{
    match expr {
        SExpr::Atom(s) => s.as_str().len(),
        SExpr::List(children) => {
            if children.len() == 0 {
                return 2;
            }
            proof {
                lemma_views(children@);
            }
            let ghost vs = views(children@);
            let mut children_len: usize = 0;
            let mut i: usize = 0;
            while i < children.len()
                invariant
                    *expr == SExpr::List(*children),
                    i <= children@.len(),
                    vs == views(children@),
                    vs.len() == children@.len(),
                    forall|k: int| 0 <= k < children@.len() ==> #[trigger] vs[k] == children@[k]@,
                    2 + widths(vs) + (vs.len() - 1) <= usize::MAX,
                    children_len == widths(vs.take(i as int)),
                decreases children@.len() - i,
            {
                proof {
                    lemma_widths_bound(vs, i as int);
                    assert(vs.take(i + 1).drop_last() =~= vs.take(i as int));
                    assert(vs.take(i + 1).last() == vs[i as int]);
                }
                proof {
                    assert(decreases_to!(*children => children[i as int]));
                    assert(decreases_to!(*expr => (*expr)->List_0));
                    assert(decreases_to!(*expr => children[i as int]));
                }
                let w = measure_single_line(&children[i]);
                children_len = children_len + w;
                i += 1;
            }
            proof {
                assert(vs.take(i as int) =~= vs);
            }
            2 + children_len + (children.len() - 1)
        },
    }
}

/// The text of `e` on one line.
pub fn format_flat(expr: &SExpr) -> (r: String)
    ensures
        r@ == flat(expr@),
    decreases expr,
{
    match expr {
        SExpr::Atom(s) => s.clone(),
        SExpr::List(children) => {
            let mut result = String::new();
            if children.len() == 0 {
                crate::text::push_char(&mut result, '(');
                crate::text::push_char(&mut result, ')');
                proof {
                    assert(result@ =~= seq!['(', ')']);
                }
                return result;
            }
            proof {
                lemma_views(children@);
            }
            let ghost vs = views(children@);
            crate::text::push_char(&mut result, '(');
            let mut i: usize = 0;
            while i < children.len()
                invariant
                    *expr == SExpr::List(*children),
                    i <= children@.len(),
                    children@.len() >= 1,
                    vs == views(children@),
                    vs.len() == children@.len(),
                    forall|k: int| 0 <= k < children@.len() ==> #[trigger] vs[k] == children@[k]@,
                    result@ == seq!['('] + joined(vs.take(i as int)),
                decreases children@.len() - i,
            {
                proof {
                    assert(decreases_to!(*children => children[i as int]));
                    assert(decreases_to!(*expr => (*expr)->List_0));
                    assert(decreases_to!(*expr => children[i as int]));
                }
                let child = format_flat(&children[i]);
                proof {
                    assert(vs.take(i + 1).drop_last() =~= vs.take(i as int));
                    assert(vs.take(i + 1).last() == vs[i as int]);
                    if i == 0 {
                        assert(vs.take(1)[0] == vs[0]);
                    }
                }
                if i > 0 {
                    crate::text::push_char(&mut result, ' ');
                }
                result.append(child.as_str());
                proof {
                    if i == 0 {
                        assert(result@ =~= seq!['('] + joined(vs.take(i + 1)));
                    } else {
                        assert(result@ =~= seq!['('] + joined(vs.take(i + 1)));
                    }
                }
                i += 1;
            }
            crate::text::push_char(&mut result, ')');
            proof {
                assert(vs.take(i as int) =~= vs);
            }
            result
        },
    }
}


/// `n` spaces.
pub open spec fn spaces(n: nat) -> Seq<char> {
    Seq::new(n, |i: int| ' ')
}

/// The layout of `e` when its first line starts at column `indent`: on
/// one line when it is an atom, an empty list or at most 12 bytes wide;
/// otherwise its first element after the parenthesis, its second one after
/// a space, and each further one on a line of its own, aligned with the
/// second.
pub open spec fn pretty(e: Sexp, indent: nat) -> Seq<char>
    decreases e,
{
    match e {
        Sexp::Atom(s) => s,
        Sexp::List(cs) => if cs.len() == 0 {
            seq!['(', ')']
        } else if width(e) <= 12 {
            flat(e)
        } else {
            let first = pretty(cs[0], indent + 1);
            if cs.len() == 1 {
                seq!['('] + first + seq![')']
            } else {
                let second_indent = indent + 1 + byte_len(first) + 1;
                seq!['('] + first + seq![' '] + pretty(cs[1], second_indent) + rest_lines(
                    cs.subrange(2, cs.len() as int),
                    second_indent,
                ) + seq![')']
            }
        },
    }
}

/// The elements `cs`, each on a new line indented by `indent` columns.
pub open spec fn rest_lines(cs: Seq<Sexp>, indent: nat) -> Seq<char>
    decreases cs,
{
    if cs.len() == 0 {
        Seq::empty()
    } else {
        rest_lines(cs.drop_last(), indent) + seq!['\n'] + spaces(indent) + pretty(cs.last(), indent)
    }
}

/// Laying out `e` from column `indent` keeps every column, and the width
/// that is measured, within `usize`.
pub open spec fn fits(e: Sexp, indent: nat) -> bool {
    width(e) <= usize::MAX && indent + byte_len(pretty(e, indent)) <= usize::MAX
}

/// Spaces take a byte each.
pub proof fn lemma_byte_len_spaces(n: nat)
    ensures
        byte_len(spaces(n)) == n,
    decreases n,
{
    if n > 0 {
        lemma_byte_len_spaces((n - 1) as nat);
        lemma_byte_len_ascii(' ');
        lemma_byte_len_concat(spaces((n - 1) as nat), seq![' ']);
        assert(spaces((n - 1) as nat) + seq![' '] =~= spaces(n));
    } else {
        assert(spaces(n) =~= Seq::<char>::empty());
    }
}

/// Each line of `rest_lines` holds its indentation and its element.
proof fn lemma_rest_lines_bound(cs: Seq<Sexp>, indent: nat, k: int)
    requires
        0 <= k < cs.len(),
    ensures
        indent + byte_len(pretty(cs[k], indent)) <= byte_len(rest_lines(cs, indent)),
    decreases cs.len(),
{
    let front = rest_lines(cs.drop_last(), indent);
    lemma_byte_len_spaces(indent);
    lemma_byte_len_concat(front, seq!['\n']);
    lemma_byte_len_concat(front + seq!['\n'], spaces(indent));
    lemma_byte_len_concat(front + seq!['\n'] + spaces(indent), pretty(cs.last(), indent));
    if k < cs.len() - 1 {
        lemma_rest_lines_bound(cs.drop_last(), indent, k);
        assert(cs.drop_last()[k] == cs[k]);
    }
}

/// The parts of a list laid out over several lines take at most the bytes
/// of the whole.
proof fn lemma_pretty_parts(e: Sexp, indent: nat)
    requires
        e is List,
        e->List_0.len() >= 1,
        width(e) > 12,
    ensures
        ({
            let cs = e->List_0;
            let first = pretty(cs[0], indent + 1);
            let second_indent = indent + 1 + byte_len(first) + 1;
            &&& 1 + byte_len(first) <= byte_len(pretty(e, indent))
            &&& cs.len() >= 2 ==> second_indent + byte_len(pretty(cs[1], second_indent))
                + byte_len(rest_lines(cs.subrange(2, cs.len() as int), second_indent)) <= indent
                + byte_len(pretty(e, indent))
        }),
{
    let cs = e->List_0;
    let first = pretty(cs[0], indent + 1);
    lemma_byte_len_ascii('(');
    lemma_byte_len_ascii(')');
    lemma_byte_len_ascii(' ');
    lemma_byte_len_concat(seq!['('], first);
    if cs.len() == 1 {
        lemma_byte_len_concat(seq!['('] + first, seq![')']);
    } else {
        let si = indent + 1 + byte_len(first) + 1;
        let second = pretty(cs[1], si);
        let rest = rest_lines(cs.subrange(2, cs.len() as int), si);
        lemma_byte_len_concat(seq!['('] + first, seq![' ']);
        lemma_byte_len_concat(seq!['('] + first + seq![' '], second);
        lemma_byte_len_concat(seq!['('] + first + seq![' '] + second, rest);
        lemma_byte_len_concat(seq!['('] + first + seq![' '] + second + rest, seq![')']);
    }
}

/// Appends `n` spaces to `s`.
fn push_spaces(s: &mut String, n: usize)
    ensures
        final(s)@ == old(s)@ + spaces(n as nat),
{
    let mut j: usize = 0;
    while j < n
        invariant
            j <= n,
            s@ == old(s)@ + spaces(j as nat),
        decreases n - j,
    {
        crate::text::push_char(s, ' ');
        proof {
            assert(old(s)@ + spaces(j as nat) + seq![' '] =~= old(s)@ + spaces((j + 1) as nat));
        }
        j += 1;
    }
}

/// The layout of `expr` when its first line starts at column `indent`.
pub fn format_sexpr(expr: &SExpr, indent: usize) -> (r: String)
    requires
        fits(expr@, indent as nat),
    ensures
        r@ == pretty(expr@, indent as nat),
    decreases expr,
{
    match expr {
        SExpr::Atom(s) => s.clone(),
        SExpr::List(children) => {
            if children.len() == 0 {
                let mut result = String::new();
                crate::text::push_char(&mut result, '(');
                crate::text::push_char(&mut result, ')');
                proof {
                    assert(result@ =~= seq!['(', ')']);
                }
                return result;
            }
            if measure_single_line(expr) <= 12 {
                return format_flat(expr);
            }
            proof {
                lemma_views(children@);
                lemma_pretty_parts(expr@, indent as nat);
                lemma_widths_bound(views(children@), 0);
                assert(views(children@).take(0) =~= Seq::<Sexp>::empty());
                assert(decreases_to!(*children => children[0]));
                assert(decreases_to!(*expr => (*expr)->List_0));
            }
            let ghost vs = views(children@);
            let mut result = String::new();
            crate::text::push_char(&mut result, '(');
            let first_str = format_sexpr(&children[0], indent + 1);
            result.append(first_str.as_str());
            if children.len() > 1 {
                crate::text::push_char(&mut result, ' ');
                let second_indent = indent + 1 + first_str.as_str().len() + 1;
                proof {
                    lemma_widths_bound(vs, 1);
                    assert(decreases_to!(*children => children[1]));
                }
                let second_str = format_sexpr(&children[1], second_indent);
                result.append(second_str.as_str());
                let ghost head = result@;
                let mut k: usize = 2;
                proof {
                    assert(vs.subrange(2, 2) =~= Seq::<Sexp>::empty());
                }
                while k < children.len()
                    invariant
                        *expr == SExpr::List(*children),
                        2 <= k <= children@.len(),
                        vs == views(children@),
                        vs.len() == children@.len(),
                        forall|i: int| 0 <= i < children@.len() ==> #[trigger] vs[i] == children@[i]@,
                        fits(expr@, indent as nat),
                        width(expr@) > 12,
                        second_indent == indent + 1 + byte_len(pretty(vs[0], (indent + 1) as nat)) + 1,
                        second_indent + byte_len(pretty(vs[1], second_indent as nat))
                            + byte_len(rest_lines(vs.subrange(2, vs.len() as int), second_indent as nat))
                            <= indent + byte_len(pretty(expr@, indent as nat)),
                        result@ == head + rest_lines(vs.subrange(2, k as int), second_indent as nat),
                    decreases children@.len() - k,
                {
                    proof {
                        lemma_widths_bound(vs, k as int);
                        lemma_rest_lines_bound(vs.subrange(2, vs.len() as int), second_indent as nat, k - 2);
                        assert(vs.subrange(2, vs.len() as int)[k - 2] == vs[k as int]);
                        assert(decreases_to!(*children => children[k as int]));
                        assert(decreases_to!(*expr => (*expr)->List_0));
                        assert(vs.subrange(2, k + 1).drop_last() =~= vs.subrange(2, k as int));
                        assert(vs.subrange(2, k + 1).last() == vs[k as int]);
                    }
                    crate::text::push_char(&mut result, '\n');
                    push_spaces(&mut result, second_indent);
                    let child_str = format_sexpr(&children[k], second_indent);
                    result.append(child_str.as_str());
                    k += 1;
                }
                proof {
                    assert(vs.subrange(2, k as int) =~= vs.subrange(2, vs.len() as int));
                }
            }
            crate::text::push_char(&mut result, ')');
            proof {
                assert(result@ =~= pretty(expr@, indent as nat));
            }
            result
        },
    }
}


/// The decimal text of an integer, with a minus sign when it is negative.
pub open spec fn int_text(i: i64) -> Seq<char> {
    if i < 0 {
        seq!['-'] + decimal((0 - i) as nat)
    } else {
        decimal(i as nat)
    }
}

/// The text of a literal: a string between double quotes, an integer in
/// decimal, a float as the number prints (`float_display`), `True`, `False`
/// or `None`.
pub open spec fn literal_text(l: Literal) -> Seq<char> {
    match l {
        Literal::String(s) => seq!['"'] + s@ + seq!['"'],
        Literal::Int(i) => int_text(i),
        Literal::Float(t) => float_display(t@),
        Literal::Bool(b) => if b {
            "True"@
        } else {
            "False"@
        },
        Literal::NoneValue => "None"@,
    }
}

/// The S-expression of an expression: a literal or a variable is an atom;
/// an operation is a list of its operator and operands; a grouping,
/// a call and a property access are lists headed by `group`, `call` and
/// `get`.
pub open spec fn expr_sexp(e: Expr) -> Sexp
    decreases e,
{
    match e {
        Expr::Literal(l) => Sexp::Atom(literal_text(l)),
        Expr::Grouping(inner) => Sexp::List(seq![Sexp::Atom("group"@), expr_sexp(*inner)]),
        Expr::Unary { operator, right } => Sexp::List(
            seq![Sexp::Atom(operator.lexeme@), expr_sexp(*right)],
        ),
        Expr::Binary { left, operator, right } => Sexp::List(
            seq![Sexp::Atom(operator.lexeme@), expr_sexp(*left), expr_sexp(*right)],
        ),
        Expr::Logical { left, operator, right } => Sexp::List(
            seq![Sexp::Atom(operator.lexeme@), expr_sexp(*left), expr_sexp(*right)],
        ),
        Expr::Variable(t) => Sexp::Atom(t.lexeme@),
        Expr::Call { callee, paren: _, arguments } => Sexp::List(
            seq![Sexp::Atom("call"@), expr_sexp(*callee)] + exprs_sexp(arguments@),
        ),
        Expr::Get { object, name } => Sexp::List(
            seq![Sexp::Atom("get"@), expr_sexp(*object), Sexp::Atom(name.lexeme@)],
        ),
    }
}

/// The S-expressions of the expressions `es`.
pub open spec fn exprs_sexp(es: Seq<Expr>) -> Seq<Sexp>
    decreases es,
{
    if es.len() == 0 {
        Seq::empty()
    } else {
        exprs_sexp(es.drop_last()).push(expr_sexp(es.last()))
    }
}

/// The atoms of the names `ts`.
pub open spec fn name_atoms(ts: Seq<crate::token::Token>) -> Seq<Sexp> {
    Seq::new(ts.len(), |i: int| Sexp::Atom(ts[i].lexeme@))
}

/// The S-expression of a statement: a list headed by `stmt`, `=`,
/// `block`, `if`, `while`, `def`, `class`, `return` or `set`, or the atom
/// `pass`.
pub open spec fn stmt_sexp(s: Stmt) -> Sexp
    decreases s,
{
    match s {
        Stmt::Expression(e) => Sexp::List(seq![Sexp::Atom("stmt"@), expr_sexp(e)]),
        Stmt::Assignment { name, initializer } => Sexp::List(
            seq![Sexp::Atom("="@), Sexp::Atom(name.lexeme@), expr_sexp(initializer)],
        ),
        Stmt::Block(body) => Sexp::List(seq![Sexp::Atom("block"@)] + stmts_sexp(body@)),
        Stmt::If { condition, then_body, else_body } => Sexp::List(
            seq![Sexp::Atom("if"@), expr_sexp(condition), stmt_sexp(*then_body)] + match else_body {
                Some(b) => seq![stmt_sexp(*b)],
                None => Seq::empty(),
            },
        ),
        Stmt::While { condition, body } => Sexp::List(
            seq![Sexp::Atom("while"@), expr_sexp(condition), stmt_sexp(*body)],
        ),
        Stmt::Function { name, params, body } => Sexp::List(
            seq![Sexp::Atom("def"@), Sexp::Atom(name.lexeme@), Sexp::List(name_atoms(params@))]
                + stmts_sexp(body@),
        ),
        Stmt::Class { name, body } => Sexp::List(
            seq![Sexp::Atom("class"@), Sexp::Atom(name.lexeme@)] + stmts_sexp(body@),
        ),
        Stmt::Return { keyword: _, value } => Sexp::List(
            seq![Sexp::Atom("return"@)] + match value {
                Some(v) => seq![expr_sexp(v)],
                None => Seq::empty(),
            },
        ),
        Stmt::Pass => Sexp::Atom("pass"@),
        Stmt::SetProperty { object, name, value } => Sexp::List(
            seq![Sexp::Atom("set"@), expr_sexp(object), Sexp::Atom(name.lexeme@), expr_sexp(value)],
        ),
    }
}

/// The S-expressions of the statements `ss`.
pub open spec fn stmts_sexp(ss: Seq<Stmt>) -> Seq<Sexp>
    decreases ss,
{
    if ss.len() == 0 {
        Seq::empty()
    } else {
        stmts_sexp(ss.drop_last()).push(stmt_sexp(ss.last()))
    }
}

/// The shapes of S-expressions after one more is added.
proof fn lemma_views_push_one(cs: Seq<SExpr>, x: SExpr)
    ensures
        views(cs.push(x)) == views(cs).push(x@),
{
    assert(cs.push(x).drop_last() =~= cs);
}

/// The shapes of one, two and three S-expressions.
proof fn lemma_views_small(a: SExpr, b: SExpr, c: SExpr)
    ensures
        views(seq![a]) == seq![a@],
        views(seq![a, b]) == seq![a@, b@],
        views(seq![a, b, c]) == seq![a@, b@, c@],
{
    assert(seq![a].drop_last() =~= Seq::<SExpr>::empty());
    assert(views(Seq::<SExpr>::empty()) =~= Seq::<Sexp>::empty());
    assert(seq![a].last() == a);
    assert(seq![a, b].last() == b);
    assert(seq![a, b, c].last() == c);
    assert(seq![a, b].drop_last() =~= seq![a]);
    assert(seq![a, b, c].drop_last() =~= seq![a, b]);
    assert(views(seq![a]) =~= seq![a@]);
    assert(views(seq![a, b]) =~= seq![a@, b@]);
    assert(views(seq![a, b, c]) =~= seq![a@, b@, c@]);
}

/// The text of an integer.
fn int_atom(i: i64) -> (r: SExpr)
    ensures
        r@ == Sexp::Atom(int_text(i)),
{
    let mut s = String::new();
    if i < 0 {
        crate::text::push_char(&mut s, '-');
        let m: u64 = ((-(i + 1)) as u64) + 1;
        push_decimal(&mut s, m);
    } else {
        push_decimal(&mut s, i as u64);
    }
    SExpr::Atom(s)
}

/// The first place from `i` on where `s` holds something other than `c`,
/// or the end.
pub open spec fn skip_char(s: Seq<char>, i: int, c: char) -> int
    decreases s.len() - i,
{
    if i < 0 || i >= s.len() || s[i] != c {
        i
    } else {
        skip_char(s, i + 1, c)
    }
}

/// The first place from `i` on where `s` holds `c`, or the end.
pub open spec fn find_char(s: Seq<char>, i: int, c: char) -> int
    decreases s.len() - i,
{
    if i < 0 || i >= s.len() || s[i] == c {
        i
    } else {
        find_char(s, i + 1, c)
    }
}

/// The length of `s` without the copies of `c` at its end.
pub open spec fn trimmed_len(s: Seq<char>, c: char) -> nat
    decreases s.len(),
{
    if s.len() > 0 && s.last() == c {
        trimmed_len(s.drop_last(), c)
    } else {
        s.len()
    }
}

/// The text of a floating-point number written as `t`, as the number prints:
/// the whole part without leading zeros (`0` when nothing is left), then a
/// point and the fraction without trailing zeros when any digit of it is
/// left. For a number of at most fifteen significant digits this is the
/// shortest text that reads back as the same `f64`; longer numbers keep
/// all their digits.
pub open spec fn float_display(t: Seq<char>) -> Seq<char> {
    let d = find_char(t, 0, '.');
    let whole = t.take(d);
    let k = skip_char(whole, 0, '0');
    let w = if k == whole.len() {
        seq!['0']
    } else {
        whole.skip(k)
    };
    let frac = if d < t.len() {
        t.skip(d + 1)
    } else {
        Seq::empty()
    };
    let f = frac.take(trimmed_len(frac, '0') as int);
    if f.len() == 0 {
        w
    } else {
        w + seq!['.'] + f
    }
}

proof fn lemma_skip_char(s: Seq<char>, i: int, j: int, c: char)
    requires
        0 <= i <= j <= s.len(),
        forall|x: int| i <= x < j ==> #[trigger] s[x] == c,
        j == s.len() || s[j] != c,
    ensures
        skip_char(s, i, c) == j,
    decreases j - i,
{
    if i < j {
        lemma_skip_char(s, i + 1, j, c);
    }
}

proof fn lemma_find_char(s: Seq<char>, i: int, j: int, c: char)
    requires
        0 <= i <= j <= s.len(),
        forall|x: int| i <= x < j ==> #[trigger] s[x] != c,
        j == s.len() || s[j] == c,
    ensures
        find_char(s, i, c) == j,
    decreases j - i,
{
    if i < j {
        lemma_find_char(s, i + 1, j, c);
    }
}

proof fn lemma_trimmed_len(s: Seq<char>, m: int, c: char)
    requires
        0 <= m <= s.len(),
        forall|x: int| m <= x < s.len() ==> #[trigger] s[x] == c,
        m == 0 || s[m - 1] != c,
    ensures
        trimmed_len(s, c) == m,
    decreases s.len(),
{
    if s.len() > m {
        assert(s.last() == s[s.len() - 1]);
        lemma_trimmed_len(s.drop_last(), m, c);
    }
}

/// The S-expression of a floating-point literal written as `text`.
fn float_atom(text: &String) -> (r: SExpr)
    ensures
        r@ == Sexp::Atom(float_display(text@)),
{
    let cs = crate::lexer::chars_of(text.as_str());
    let n = cs.len();
    let mut d: usize = 0;
    while d < n && cs[d] != '.'
        invariant
            d <= n,
            n == cs@.len(),
            forall|x: int| 0 <= x < d ==> #[trigger] cs@[x] != '.',
        decreases n - d,
    {
        d += 1;
    }
    proof {
        lemma_find_char(cs@, 0, d as int, '.');
    }
    let mut k: usize = 0;
    while k < d && cs[k] == '0'
        invariant
            k <= d <= n,
            n == cs@.len(),
            forall|x: int| 0 <= x < k ==> #[trigger] cs@[x] == '0',
        decreases d - k,
    {
        k += 1;
    }
    proof {
        let whole = cs@.take(d as int);
        assert forall|x: int| 0 <= x < k implies #[trigger] whole[x] == '0' by {
            assert(whole[x] == cs@[x]);
        }
        if k < d {
            assert(whole[k as int] == cs@[k as int]);
        }
        lemma_skip_char(whole, 0, k as int, '0');
    }
    let mut e: usize = n;
    if d < n {
        while e > d + 1 && cs[e - 1] == '0'
            invariant
                d + 1 <= e <= n,
                n == cs@.len(),
                forall|x: int| e <= x < n ==> #[trigger] cs@[x] == '0',
            decreases e,
        {
            e -= 1;
        }
        proof {
            let frac = cs@.skip(d + 1);
            assert forall|x: int| e - (d + 1) <= x < frac.len() implies #[trigger] frac[x] == '0' by {
                assert(frac[x] == cs@[x + d + 1]);
            }
            if e > d + 1 {
                assert(frac[e - (d + 1) - 1] == cs@[e - 1]);
            }
            lemma_trimmed_len(frac, e - (d + 1), '0');
        }
    }
    let mut out = String::new();
    if k == d {
        crate::text::push_char(&mut out, '0');
    } else {
        let mut i: usize = k;
        while i < d
            invariant
                k <= i <= d <= n,
                n == cs@.len(),
                out@ == cs@.subrange(k as int, i as int),
            decreases d - i,
        {
            crate::text::push_char(&mut out, cs[i]);
            proof {
                assert(cs@.subrange(k as int, i + 1) =~= cs@.subrange(k as int, i as int).push(cs@[i as int]));
            }
            i += 1;
        }
    }
    let ghost w = out@;
    if d < n && e > d + 1 {
        crate::text::push_char(&mut out, '.');
        let mut i: usize = d + 1;
        while i < e
            invariant
                d + 1 <= i <= e <= n,
                n == cs@.len(),
                out@ == w + seq!['.'] + cs@.subrange(d + 1, i as int),
            decreases e - i,
        {
            crate::text::push_char(&mut out, cs[i]);
            proof {
                assert(cs@.subrange(d + 1, i + 1) =~= cs@.subrange(d + 1, i as int).push(cs@[i as int]));
                assert(w + seq!['.'] + cs@.subrange(d + 1, i + 1) =~= (w + seq!['.'] + cs@.subrange(
                    d + 1,
                    i as int,
                )).push(cs@[i as int]));
            }
            i += 1;
        }
    }
    proof {
        let whole = cs@.take(d as int);
        if k < d {
            assert(w =~= whole.skip(k as int));
        } else {
            assert(w =~= seq!['0']);
        }
        if d < n {
            let frac = cs@.skip(d + 1);
            assert(frac.take(e - (d + 1)) =~= cs@.subrange(d + 1, e as int));
        } else {
            assert(out@ == w);
        }
    }
    SExpr::Atom(out)
}

/// The S-expression of the literal `l`.
fn literal_atom(l: &Literal) -> (r: SExpr)
    ensures
        r@ == Sexp::Atom(literal_text(*l)),
{
    match l {
        Literal::String(s) => {
            let mut t = String::new();
            crate::text::push_char(&mut t, '"');
            t.append(s.as_str());
            crate::text::push_char(&mut t, '"');
            proof {
                assert(t@ =~= seq!['"'] + s@ + seq!['"']);
            }
            SExpr::Atom(t)
        },
        Literal::Int(i) => int_atom(*i),
        Literal::Float(text) => float_atom(text),
        Literal::Bool(b) => atom(
            if *b {
                "True"
            } else {
                "False"
            },
        ),
        Literal::NoneValue => atom("None"),
    }
}

/// The S-expression of the expression `e`.
pub fn convert_expr(e: &Expr) -> (r: SExpr)
    ensures
        r@ == expr_sexp(*e),
    decreases e,
{
    match e {
        Expr::Literal(l) => {
            let r = literal_atom(l);
            proof {
                assert(expr_sexp(*e) == Sexp::Atom(literal_text(*l)));
            }
            r
        },
        Expr::Grouping(inner) => {
            let v = vec![atom("group"), convert_expr(inner)];
            proof {
                lemma_views_small(v@[0], v@[1], v@[1]);
                assert(v@ =~= seq![v@[0], v@[1]]);
            }
            SExpr::List(v)
        },
        Expr::Unary { operator, right } => {
            let v = vec![atom(operator.lexeme.as_str()), convert_expr(right)];
            proof {
                lemma_views_small(v@[0], v@[1], v@[1]);
                assert(v@ =~= seq![v@[0], v@[1]]);
            }
            SExpr::List(v)
        },
        Expr::Binary { left, operator, right } => {
            let v = vec![atom(operator.lexeme.as_str()), convert_expr(left), convert_expr(right)];
            proof {
                lemma_views_small(v@[0], v@[1], v@[2]);
                assert(v@ =~= seq![v@[0], v@[1], v@[2]]);
            }
            SExpr::List(v)
        },
        Expr::Logical { left, operator, right } => {
            let v = vec![atom(operator.lexeme.as_str()), convert_expr(left), convert_expr(right)];
            proof {
                lemma_views_small(v@[0], v@[1], v@[2]);
                assert(v@ =~= seq![v@[0], v@[1], v@[2]]);
            }
            SExpr::List(v)
        },
        Expr::Variable(token) => atom(token.lexeme.as_str()),
        Expr::Call { callee, paren: _, arguments } => {
            let mut v: Vec<SExpr> = Vec::new();
            v.push(atom("call"));
            v.push(convert_expr(callee));
            proof {
                lemma_views_small(v@[0], v@[1], v@[1]);
                assert(v@ =~= seq![v@[0], v@[1]]);
                assert(arguments@.take(0) =~= Seq::<Expr>::empty());
            }
            let ghost head = views(v@);
            let mut i: usize = 0;
            while i < arguments.len()
                invariant
                    *e == (Expr::Call { callee: *callee, paren: (*e)->Call_paren, arguments: *arguments }),
                    i <= arguments@.len(),
                    head == seq![Sexp::Atom("call"@), expr_sexp(**callee)],
                    views(v@) == head + exprs_sexp(arguments@.take(i as int)),
                decreases arguments@.len() - i,
            {
                proof {
                    assert(decreases_to!(*arguments => arguments[i as int]));
                    assert(decreases_to!(*e => (*e)->Call_arguments));
                }
                let a = convert_expr(&arguments[i]);
                proof {
                    lemma_views_push_one(v@, a);
                    assert(arguments@.take(i + 1).drop_last() =~= arguments@.take(i as int));
                    assert(arguments@.take(i + 1).last() == arguments@[i as int]);
                }
                v.push(a);
                i += 1;
            }
            proof {
                assert(arguments@.take(i as int) =~= arguments@);
            }
            SExpr::List(v)
        },
        Expr::Get { object, name } => {
            let v = vec![atom("get"), convert_expr(object), atom(name.lexeme.as_str())];
            proof {
                lemma_views_small(v@[0], v@[1], v@[2]);
                assert(v@ =~= seq![v@[0], v@[1], v@[2]]);
            }
            SExpr::List(v)
        },
    }
}


/// The S-expression of the statement `s`.
pub fn convert_stmt(s: &Stmt) -> (r: SExpr)
    ensures
        r@ == stmt_sexp(*s),
    decreases s,
{
    match s {
        Stmt::Expression(expr) => {
            let v = vec![atom("stmt"), convert_expr(expr)];
            proof {
                lemma_views_small(v@[0], v@[1], v@[1]);
                assert(v@ =~= seq![v@[0], v@[1]]);
                assert(views(v@) == seq![Sexp::Atom("stmt"@), expr_sexp(*expr)]);
                assert(stmt_sexp(*s) == Sexp::List(seq![Sexp::Atom("stmt"@), expr_sexp(*expr)]));
            }
            let r = SExpr::List(v);
            proof {
                assert(r@ == stmt_sexp(*s));
            }
            r
        },
        Stmt::Assignment { name, initializer } => {
            let v = vec![atom("="), atom(name.lexeme.as_str()), convert_expr(initializer)];
            proof {
                lemma_views_small(v@[0], v@[1], v@[2]);
                assert(v@ =~= seq![v@[0], v@[1], v@[2]]);
            }
            let r = SExpr::List(v);
            proof {
                assert(r@ == stmt_sexp(*s));
            }
            r
        },
        Stmt::Block(body) => {
            let mut v: Vec<SExpr> = Vec::new();
            v.push(atom("block"));
            proof {
                lemma_views_small(v@[0], v@[0], v@[0]);
                assert(v@ =~= seq![v@[0]]);
                assert(body@.take(0) =~= Seq::<Stmt>::empty());
            }
            let ghost head = views(v@);
            let mut i: usize = 0;
            while i < body.len()
                invariant
                    *s == Stmt::Block(*body),
                    i <= body@.len(),
                    head == seq![Sexp::Atom("block"@)],
                    views(v@) == head + stmts_sexp(body@.take(i as int)),
                decreases body@.len() - i,
            {
                proof {
                    assert(decreases_to!(*body => body[i as int]));
                    assert(decreases_to!(*s => (*s)->Block_0));
                }
                let c = convert_stmt(&body[i]);
                proof {
                    lemma_views_push_one(v@, c);
                    assert(body@.take(i + 1).drop_last() =~= body@.take(i as int));
                    assert(body@.take(i + 1).last() == body@[i as int]);
                }
                v.push(c);
                i += 1;
            }
            proof {
                assert(body@.take(i as int) =~= body@);
            }
            let r = SExpr::List(v);
            proof {
                assert(r@ == stmt_sexp(*s));
            }
            r
        },
        Stmt::If { condition, then_body, else_body } => {
            let mut v = vec![atom("if"), convert_expr(condition), convert_stmt(then_body)];
            proof {
                lemma_views_small(v@[0], v@[1], v@[2]);
                assert(v@ =~= seq![v@[0], v@[1], v@[2]]);
            }
            let ghost head = seq![
                Sexp::Atom("if"@),
                expr_sexp(*condition),
                stmt_sexp(**then_body),
            ];
            match else_body {
                Some(b) => {
                    let c = convert_stmt(b);
                    proof {
                        lemma_views_push_one(v@, c);
                    }
                    v.push(c);
                    proof {
                        assert(views(v@) =~= head + seq![stmt_sexp(**b)]);
                    }
                },
                None => {
                    proof {
                        assert(views(v@) =~= head + Seq::<Sexp>::empty());
                    }
                },
            }
            let r = SExpr::List(v);
            proof {
                assert(r@ == stmt_sexp(*s));
            }
            r
        },
        Stmt::While { condition, body } => {
            let v = vec![atom("while"), convert_expr(condition), convert_stmt(body)];
            proof {
                lemma_views_small(v@[0], v@[1], v@[2]);
                assert(v@ =~= seq![v@[0], v@[1], v@[2]]);
            }
            let r = SExpr::List(v);
            proof {
                assert(r@ == stmt_sexp(*s));
            }
            r
        },
        Stmt::Function { name, params, body } => {
            let mut names: Vec<SExpr> = Vec::new();
            let mut j: usize = 0;
            while j < params.len()
                invariant
                    j <= params@.len(),
                    views(names@) == name_atoms(params@.take(j as int)),
                decreases params@.len() - j,
            {
                let a = atom(params[j].lexeme.as_str());
                proof {
                    lemma_views_push_one(names@, a);
                    assert(name_atoms(params@.take(j + 1)) =~= name_atoms(params@.take(j as int)).push(a@));
                }
                names.push(a);
                j += 1;
            }
            proof {
                assert(params@.take(j as int) =~= params@);
            }
            let mut v = vec![atom("def"), atom(name.lexeme.as_str()), SExpr::List(names)];
            proof {
                lemma_views_small(v@[0], v@[1], v@[2]);
                assert(v@ =~= seq![v@[0], v@[1], v@[2]]);
                assert(body@.take(0) =~= Seq::<Stmt>::empty());
            }
            let ghost head = views(v@);
            let mut i: usize = 0;
            while i < body.len()
                invariant
                    *s == (Stmt::Function { name: *name, params: *params, body: *body }),
                    i <= body@.len(),
                    head == seq![
                        Sexp::Atom("def"@),
                        Sexp::Atom(name.lexeme@),
                        Sexp::List(name_atoms(params@)),
                    ],
                    views(v@) == head + stmts_sexp(body@.take(i as int)),
                decreases body@.len() - i,
            {
                proof {
                    assert(decreases_to!(*body => body[i as int]));
                    assert(decreases_to!(*s => (*s)->Function_body));
                }
                let c = convert_stmt(&body[i]);
                proof {
                    lemma_views_push_one(v@, c);
                    assert(body@.take(i + 1).drop_last() =~= body@.take(i as int));
                    assert(body@.take(i + 1).last() == body@[i as int]);
                }
                v.push(c);
                i += 1;
            }
            proof {
                assert(body@.take(i as int) =~= body@);
            }
            let r = SExpr::List(v);
            proof {
                assert(r@ == stmt_sexp(*s));
            }
            r
        },
        Stmt::Class { name, body } => {
            let mut v = vec![atom("class"), atom(name.lexeme.as_str())];
            proof {
                lemma_views_small(v@[0], v@[1], v@[1]);
                assert(v@ =~= seq![v@[0], v@[1]]);
                assert(body@.take(0) =~= Seq::<Stmt>::empty());
            }
            let ghost head = views(v@);
            let mut i: usize = 0;
            while i < body.len()
                invariant
                    *s == (Stmt::Class { name: *name, body: *body }),
                    i <= body@.len(),
                    head == seq![Sexp::Atom("class"@), Sexp::Atom(name.lexeme@)],
                    views(v@) == head + stmts_sexp(body@.take(i as int)),
                decreases body@.len() - i,
            {
                proof {
                    assert(decreases_to!(*body => body[i as int]));
                    assert(decreases_to!(*s => (*s)->Class_body));
                }
                let c = convert_stmt(&body[i]);
                proof {
                    lemma_views_push_one(v@, c);
                    assert(body@.take(i + 1).drop_last() =~= body@.take(i as int));
                    assert(body@.take(i + 1).last() == body@[i as int]);
                }
                v.push(c);
                i += 1;
            }
            proof {
                assert(body@.take(i as int) =~= body@);
            }
            let r = SExpr::List(v);
            proof {
                assert(r@ == stmt_sexp(*s));
            }
            r
        },
        Stmt::Return { keyword: _, value } => {
            let mut v: Vec<SExpr> = Vec::new();
            v.push(atom("return"));
            proof {
                lemma_views_small(v@[0], v@[0], v@[0]);
                assert(v@ =~= seq![v@[0]]);
            }
            match value {
                Some(x) => {
                    let c = convert_expr(x);
                    proof {
                        lemma_views_push_one(v@, c);
                    }
                    v.push(c);
                    proof {
                        assert(views(v@) =~= seq![Sexp::Atom("return"@)] + seq![expr_sexp(*x)]);
                    }
                },
                None => {
                    proof {
                        assert(views(v@) =~= seq![Sexp::Atom("return"@)] + Seq::<Sexp>::empty());
                    }
                },
            }
            let r = SExpr::List(v);
            proof {
                assert(r@ == stmt_sexp(*s));
            }
            r
        },
        Stmt::Pass => atom("pass"),
        Stmt::SetProperty { object, name, value } => {
            let mut v = vec![atom("set"), convert_expr(object), atom(name.lexeme.as_str())];
            proof {
                lemma_views_small(v@[0], v@[1], v@[2]);
                assert(v@ =~= seq![v@[0], v@[1], v@[2]]);
            }
            let c = convert_expr(value);
            proof {
                lemma_views_push_one(v@, c);
            }
            v.push(c);
            proof {
                assert(views(v@) =~= seq![
                    Sexp::Atom("set"@),
                    expr_sexp(*object),
                    Sexp::Atom(name.lexeme@),
                    expr_sexp(*value),
                ]);
            }
            let r = SExpr::List(v);
            proof {
                assert(r@ == stmt_sexp(*s));
            }
            r
        },
    }
}

/// The layouts of the statements `ss` from column 0, one after the other,
/// separated by line ends.
pub open spec fn ast_text(ss: Seq<Stmt>) -> Seq<char>
    decreases ss.len(),
{
    if ss.len() == 0 {
        Seq::empty()
    } else if ss.len() == 1 {
        pretty(stmt_sexp(ss[0]), 0)
    } else {
        ast_text(ss.drop_last()) + seq!['\n'] + pretty(stmt_sexp(ss.last()), 0)
    }
}

/// The statements `stmts` as S-expressions, each laid out from column 0,
/// separated by line ends.
pub fn print_ast(stmts: &Vec<Stmt>) -> (r: String)
    requires
        forall|i: int| 0 <= i < stmts@.len() ==> fits(#[trigger] stmt_sexp(stmts@[i]), 0),
    ensures
        r@ == ast_text(stmts@),
{
    let mut result = String::new();
    let mut i: usize = 0;
    proof {
        assert(stmts@.take(0) =~= Seq::<Stmt>::empty());
    }
    while i < stmts.len()
        invariant
            i <= stmts@.len(),
            forall|k: int| 0 <= k < stmts@.len() ==> fits(#[trigger] stmt_sexp(stmts@[k]), 0),
            result@ == ast_text(stmts@.take(i as int)),
        decreases stmts@.len() - i,
    {
        let sexpr = convert_stmt(&stmts[i]);
        proof {
            assert(fits(stmt_sexp(stmts@[i as int]), 0));
        }
        let text = format_sexpr(&sexpr, 0);
        proof {
            assert(stmts@.take(i + 1).drop_last() =~= stmts@.take(i as int));
            assert(stmts@.take(i + 1).last() == stmts@[i as int]);
            if i == 0 {
                assert(stmts@.take(1)[0] == stmts@[0]);
            }
        }
        if i > 0 {
            crate::text::push_char(&mut result, '\n');
        }
        result.append(text.as_str());
        proof {
            assert(result@ =~= ast_text(stmts@.take(i + 1)));
        }
        i += 1;
    }
    proof {
        assert(stmts@.take(i as int) =~= stmts@);
    }
    result
}


/// An `and` or `or` prints as an operation does: the operator, then the
/// left operand, then the right one, in the order of the source.
pub proof fn lemma_logical_in_source_order(left: Expr, operator: crate::token::Token, right: Expr)
    ensures
        expr_sexp(Expr::Logical { left: Box::new(left), operator, right: Box::new(right) })
            == expr_sexp(Expr::Binary { left: Box::new(left), operator, right: Box::new(right) }),
        flat(expr_sexp(Expr::Logical { left: Box::new(left), operator, right: Box::new(right) }))
            == seq!['('] + operator.lexeme@ + seq![' '] + flat(expr_sexp(left)) + seq![' '] + flat(
            expr_sexp(right),
        ) + seq![')'],
{
    let cs = seq![Sexp::Atom(operator.lexeme@), expr_sexp(left), expr_sexp(right)];
    assert(cs.drop_last() =~= seq![Sexp::Atom(operator.lexeme@), expr_sexp(left)]);
    assert(cs.drop_last().drop_last() =~= seq![Sexp::Atom(operator.lexeme@)]);
    assert(joined(cs.drop_last().drop_last()) == flat(Sexp::Atom(operator.lexeme@)));
    assert(joined(cs.drop_last()) == joined(cs.drop_last().drop_last()) + seq![' '] + flat(
        expr_sexp(left),
    ));
    assert(joined(cs) == joined(cs.drop_last()) + seq![' '] + flat(expr_sexp(right)));
    assert(flat(Sexp::List(cs)) =~= seq!['('] + operator.lexeme@ + seq![' '] + flat(expr_sexp(left))
        + seq![' '] + flat(expr_sexp(right)) + seq![')']);
}

} // verus!
