//! Laws that tie the spellings of operators together: the lexer's table of
//! operator tokens, the symbols the runtime names them by, and the
//! operators that compound assignments apply.

use vstd::prelude::*;

use crate::grammar::{assignment_op, compound_kind, compound_text};
use crate::lexer::spec_operator;
use crate::operators::{binary_result, op_symbol, BinaryOutcome, Operand};
use crate::token::{Token, TokenKind};

verus! {

/// An arithmetic or comparison operator token has the kind whose symbol its
/// text spells: `<=` is `LessEqual`, `<` is `Less`, `>=` is
/// `GreaterEqual`, and so on; and a compound assignment operator `c=` is
/// read where `c` alone would be read as the operator it applies.
pub proof fn lemma_operator_spelling(c: char, next: Option<char>)
    ensures
        match spec_operator(c, next) {
            Some((k, n)) => {
                &&& op_symbol(k).len() > 0 ==> op_symbol(k)
                    == if n == 2 {
                    seq![c, '=']
                } else {
                    seq![c]
                }
                &&& (n == 2 && assignment_op(k) && k != TokenKind::Equal) ==> (
                spec_operator(c, None) == Some((compound_kind(k), 1nat))
                    && compound_text(k) == seq![c])
            },
            None => true,
        },
{
    reveal_strlit("+");
    reveal_strlit("-");
    reveal_strlit("*");
    reveal_strlit("/");
    reveal_strlit(">");
    reveal_strlit(">=");
    reveal_strlit("<");
    reveal_strlit("<=");
}



/// The token the lexer reads for `==` compares values for equality and the
/// one it reads for `!=` for inequality: applied to two equal integers, the
/// first gives `True` and the second `False`.
pub proof fn lemma_equality_spelling(t: Token, out: BinaryOutcome)
    requires
        binary_result(Operand::Int(0), t, Operand::Int(0), out),
    ensures
        spec_operator('=', Some('=')) matches Some((k, _)) && t.kind == k ==> out == BinaryOutcome::Value(
            Operand::Bool(true),
        ),
        spec_operator('!', Some('=')) matches Some((k, _)) && t.kind == k ==> out == BinaryOutcome::Value(
            Operand::Bool(false),
        ),
{
}

} // verus!
