//! The faults that the lexer finds in source text, each with the line on
//! which it is reported, as a function of the text alone.

use vstd::prelude::*;

use crate::error::{CompilerError, LexError};
use crate::lexer::{
    count_char, decimal_value, indent_width, levels_above, mixed_indentation_message,
    spec_is_alpha, spec_is_alpha_numeric, spec_is_digit, spec_operator, text_kind, unindent_message,
};
use crate::token::{Token, TokenKind};

verus! {

/// A fault in source text, as the lexer reports it.
pub enum LexFault {
    /// A character that begins no token (a `!` without `=` among them).
    UnexpectedCharacter(char),
    /// A quote without its closing quote on the same line.
    UnterminatedString,
    /// A point without digits after it, or an integer too large for `i64`.
    MalformedNumber,
    /// Indentation that mixes spaces and tabs, on its line or against the
    /// lines indented before it.
    MixedIndentation,
    /// An unindent to a width that no enclosing block has.
    Unindent,
}

/// A class of characters that the lexer reads in a run.
pub enum CharClass {
    SpaceOrTab,
    NotNewline,
    /// The inside of a string opened by the given quote.
    InString(char),
    Digit,
    AlphaNumeric,
}

/// Whether `c` belongs to the class `k`.
pub open spec fn in_class(c: char, k: CharClass) -> bool {
    match k {
        CharClass::SpaceOrTab => c == ' ' || c == '\t',
        CharClass::NotNewline => c != '\n',
        CharClass::InString(q) => c != q && c != '\n',
        CharClass::Digit => spec_is_digit(c),
        CharClass::AlphaNumeric => spec_is_alpha_numeric(c),
    }
}

/// Where the run of characters of class `k` that starts at `i` ends: the
/// first place from `i` on that holds another character, or the end.
pub open spec fn class_end(s: Seq<char>, i: int, k: CharClass) -> int
    decreases s.len() - i,
{
    if i < 0 || i >= s.len() || !in_class(s[i], k) {
        i
    } else {
        class_end(s, i + 1, k)
    }
}

/// A run that holds only characters of the class and stops at another
/// character or the end is the run that `class_end` finds.
pub proof fn lemma_class_end(s: Seq<char>, i: int, j: int, k: CharClass)
    requires
        0 <= i <= j <= s.len(),
        forall|x: int| i <= x < j ==> in_class(#[trigger] s[x], k),
        j == s.len() || !in_class(s[j], k),
    ensures
        class_end(s, i, k) == j,
    decreases j - i,
{
    if i < j {
        lemma_class_end(s, i + 1, j, k);
    }
}

/// The rest of a number that begins at `pos`: where it ends, and the fault
/// in it if any (a point without a digit after it, or an integer beyond
/// `i64`).
pub open spec fn number_step(src: Seq<char>, pos: int) -> (int, Option<LexFault>) {
    let d = class_end(src, pos, CharClass::Digit);
    if d < src.len() && src[d] == '.' {
        if d + 1 < src.len() && spec_is_digit(src[d + 1]) {
            (class_end(src, d + 1, CharClass::Digit), None)
        } else {
            (d + 1, Some(LexFault::MalformedNumber))
        }
    } else if decimal_value(src.subrange(pos, d)) > i64::MAX {
        (d, Some(LexFault::MalformedNumber))
    } else {
        (d, None)
    }
}

/// The indentation that starts at `pos`, under the open blocks `levels` and
/// the style `tabs`: where it ends, the blocks and style after it, and the
/// fault in it if any.
#[verifier::opaque]
pub open spec fn indentation_step(src: Seq<char>, pos: int, levels: Seq<usize>, tabs: Option<bool>) -> (
    int,
    Seq<usize>,
    Option<bool>,
    Option<LexFault>,
) {
    let e = class_end(src, pos, CharClass::SpaceOrTab);
    let ws = src.subrange(pos, e);
    let sp = count_char(ws, ' ');
    let tb = count_char(ws, '\t');
    let mismatch = match tabs {
        Some(true) => sp > 0,
        Some(false) => tb > 0,
        None => false,
    };
    if (sp > 0 && tb > 0) || mismatch {
        (e, levels, tabs, Some(LexFault::MixedIndentation))
    } else {
        let tabs2 = if tabs is None && (sp > 0 || tb > 0) {
            Some(tb > 0)
        } else {
            tabs
        };
        let level = indent_width(sp as usize, tb as usize, tabs2);
        let last = if levels.len() == 0 {
            0
        } else {
            levels.last()
        };
        if level == last {
            (e, levels, tabs2, None)
        } else if level > last {
            (e, levels.push(level), tabs2, None)
        } else {
            let kept = levels.take(levels.len() - levels_above(levels, level));
            (
                e,
                kept,
                tabs2,
                if kept.len() == 0 || kept.last() == level {
                    None
                } else {
                    Some(LexFault::Unindent)
                },
            )
        }
    }
}

/// One group that the lexer reads at `pos`, under the open blocks `levels`
/// and the style `tabs`: where the next group begins, the blocks and style
/// after it, and the fault in it if any. A line end is followed by the
/// indentation of the next line; spaces, tabs and carriage returns are
/// passed over one at a time, comments up to the line end; then come
/// strings, numbers, words and operators, and any other character is a
/// fault.
#[verifier::opaque]
pub open spec fn group_step(src: Seq<char>, pos: int, levels: Seq<usize>, tabs: Option<bool>) -> (
    int,
    Seq<usize>,
    Option<bool>,
    Option<LexFault>,
) {
    let c = src[pos];
    let next = if pos + 1 < src.len() {
        Some(src[pos + 1])
    } else {
        None
    };
    if c == '\n' {
        indentation_step(src, pos + 1, levels, tabs)
    } else if c == ' ' || c == '\t' || c == '\r' {
        (pos + 1, levels, tabs, None)
    } else if c == '#' {
        (class_end(src, pos + 1, CharClass::NotNewline), levels, tabs, None)
    } else if c == '"' || c == '\'' {
        let j = class_end(src, pos + 1, CharClass::InString(c));
        if j < src.len() && src[j] == c {
            (j + 1, levels, tabs, None)
        } else {
            (j, levels, tabs, Some(LexFault::UnterminatedString))
        }
    } else if spec_is_digit(c) {
        let n = number_step(src, pos);
        (n.0, levels, tabs, n.1)
    } else if spec_is_alpha(c) {
        (class_end(src, pos + 1, CharClass::AlphaNumeric), levels, tabs, None)
    } else {
        match spec_operator(c, next) {
            Some((_, n)) => (pos + n, levels, tabs, None),
            None => (pos + 1, levels, tabs, Some(LexFault::UnexpectedCharacter(c))),
        }
    }
}

/// The faults found in `src` from `pos` on, with their lines, when the lexer
/// stands at `pos` on line `line` with the open blocks `levels` and the
/// style `tabs`. A fault in the indentation after a line end is on the new
/// line.
pub open spec fn scan_faults(src: Seq<char>, pos: int, line: int, levels: Seq<usize>, tabs: Option<bool>) -> Seq<(int, LexFault)>
    decreases src.len() - pos,
{
    if 0 <= pos < src.len() {
        let st = group_step(src, pos, levels, tabs);
        let line2 = if src[pos] == '\n' {
            line + 1
        } else {
            line
        };
        let here = match st.3 {
            Some(f) => seq![(line2, f)],
            None => Seq::empty(),
        };
        if pos < st.0 <= src.len() {
            here + scan_faults(src, st.0, line2, st.1, st.2)
        } else {
            here
        }
    } else {
        Seq::empty()
    }
}

/// The faults in the whole of `src`, read from line `line` with no block
/// open and the indentation style `tabs`.
pub open spec fn lex_faults(src: Seq<char>, line: int, tabs: Option<bool>) -> Seq<(int, LexFault)> {
    scan_faults(src, 0, line, Seq::empty(), tabs)
}

/// `src` holds no lexical fault: only characters that begin tokens outside
/// strings and comments, strings closed on their line, digits after each
/// point, integers within `i64`, and indentation that keeps one style and
/// returns only to the widths of enclosing blocks.
pub open spec fn lexes_cleanly(src: Seq<char>, line: int, tabs: Option<bool>) -> bool {
    lex_faults(src, line, tabs).len() == 0
}

/// The error that the lexer reports for the fault `f` on line `line`.
pub open spec fn lex_error_is(e: LexError, line: int, f: LexFault) -> bool {
    match f {
        LexFault::UnexpectedCharacter(c) => e matches LexError::UnexpectedCharacter(l, d) && l.line
            == line && d == c,
        LexFault::UnterminatedString => e matches LexError::UnterminatedString(l) && l.line == line,
        LexFault::MalformedNumber => e matches LexError::MalformedNumberLiteral(l) && l.line == line,
        LexFault::MixedIndentation => e matches LexError::TabError(l, m) && l.line == line && m@
            == mixed_indentation_message(),
        LexFault::Unindent => e matches LexError::IndentationError(l, m) && l.line == line && m@
            == unindent_message(),
    }
}

/// The errors `es` are those reported for the faults `fs`, one for one and
/// in order.
#[verifier::opaque]
pub open spec fn errors_report(es: Seq<CompilerError>, fs: Seq<(int, LexFault)>) -> bool {
    &&& es.len() == fs.len()
    &&& forall|i: int|
        0 <= i < es.len() ==> (#[trigger] es[i] matches CompilerError::Lex(e) && lex_error_is(
            e,
            fs[i].0,
            fs[i].1,
        ))
}

/// Reading one group moves the faults found at its place, if any, from
/// the faults ahead to the faults behind.
pub proof fn lemma_faults_step(
    src: Seq<char>,
    pos: int,
    line: int,
    levels: Seq<usize>,
    tabs: Option<bool>,
    done: Seq<(int, LexFault)>,
    total: Seq<(int, LexFault)>,
) -> (d: Seq<(int, LexFault)>)
    requires
        total == done + scan_faults(src, pos, line, levels, tabs),
        0 <= pos < src.len(),
        pos < group_step(src, pos, levels, tabs).0 <= src.len(),
    ensures
        ({
            let st = group_step(src, pos, levels, tabs);
            let line2 = if src[pos] == '\n' {
                line + 1
            } else {
                line
            };
            &&& d == match st.3 {
                Some(f) => done.push((line2, f)),
                None => done,
            }
            &&& total == d + scan_faults(src, st.0, line2, st.1, st.2)
        }),
{
    let st = group_step(src, pos, levels, tabs);
    let line2 = if src[pos] == '\n' {
        line + 1
    } else {
        line
    };
    let rest = scan_faults(src, st.0, line2, st.1, st.2);
    match st.3 {
        Some(f) => {
            assert(scan_faults(src, pos, line, levels, tabs) == seq![(line2, f)] + rest);
            assert(done + (seq![(line2, f)] + rest) =~= done.push((line2, f)) + rest);
            done.push((line2, f))
        },
        None => {
            assert(scan_faults(src, pos, line, levels, tabs) =~= rest);
            done
        },
    }
}

/// No fault lies beyond the end.
pub proof fn lemma_faults_at_end(src: Seq<char>, line: int, levels: Seq<usize>, tabs: Option<bool>)
    ensures
        scan_faults(src, src.len() as int, line, levels, tabs) == Seq::<(int, LexFault)>::empty(),
{
}

/// Reporting the error of one more fault keeps the errors and the faults
/// in step.
pub proof fn lemma_report_push(
    es: Seq<CompilerError>,
    n: int,
    done: Seq<(int, LexFault)>,
    e: LexError,
    line: int,
    f: LexFault,
)
    requires
        0 <= n <= es.len(),
        errors_report(es.skip(n), done),
        lex_error_is(e, line, f),
    ensures
        errors_report(es.push(CompilerError::Lex(e)).skip(n), done.push((line, f))),
{
    reveal(errors_report);
    let a = es.skip(n);
    let b = es.push(CompilerError::Lex(e)).skip(n);
    assert(b =~= a.push(CompilerError::Lex(e)));
    assert forall|i: int| 0 <= i < b.len() implies (#[trigger] b[i] matches CompilerError::Lex(x)
        && lex_error_is(x, done.push((line, f))[i].0, done.push((line, f))[i].1)) by {
        if i < a.len() {
            assert(b[i] == a[i]);
            assert(done.push((line, f))[i] == done[i]);
        }
    }
}

/// The errors reported for the faults of `src` are the errors added, and
/// none is added exactly when `src` lexes cleanly.
pub proof fn lemma_clean_iff_no_errors(
    before: Seq<CompilerError>,
    after: Seq<CompilerError>,
    faults: Seq<(int, LexFault)>,
)
    requires
        before.len() <= after.len(),
        after.take(before.len() as int) == before,
        errors_report(after.skip(before.len() as int), faults),
    ensures
        (after == before) <==> faults.len() == 0,
{
    reveal(errors_report);
    if faults.len() == 0 {
        assert(after =~= after.take(before.len() as int));
    }
}

/// What the contracts compare of a token: its kind, its text and its line.
pub open spec fn shape(t: Token) -> (TokenKind, Seq<char>, int) {
    (t.kind, t.lexeme@, t.line as int)
}

/// The shapes of the tokens `ts`, in order.
pub open spec fn shapes(ts: Seq<Token>) -> Seq<(TokenKind, Seq<char>, int)> {
    Seq::new(ts.len(), |i: int| shape(ts[i]))
}

/// The kind of the last of the tokens `ts`, if there is one.
pub open spec fn last_kind(ts: Seq<Token>) -> Option<TokenKind> {
    if ts.len() == 0 {
        None
    } else {
        Some(ts.last().kind)
    }
}

/// `n` block closings on line `line`.
pub open spec fn dedent_shapes(n: nat, line: int) -> Seq<(TokenKind, Seq<char>, int)> {
    Seq::new(n, |i: int| (TokenKind::Dedent, Seq::<char>::empty(), line))
}

/// The tokens that the group read at `pos` on line `line` yields: none when
/// it holds a fault, or for spaces, tabs, carriage returns and comments; for
/// a line end, a newline and then an indent when a block opens on the next
/// line, or a dedent for each block that closes there; otherwise the one
/// token that the group's text makes.
#[verifier::opaque]
pub open spec fn group_shapes(src: Seq<char>, pos: int, line: int, levels: Seq<usize>, tabs: Option<bool>) -> Seq<
    (TokenKind, Seq<char>, int),
> {
    let st = group_step(src, pos, levels, tabs);
    let c = src[pos];
    if st.3 is Some {
        Seq::empty()
    } else if c == '\n' {
        let nl = seq![(TokenKind::NewLine, "\n"@, line)];
        if st.1.len() > levels.len() {
            nl.push((TokenKind::Indent, Seq::<char>::empty(), line + 1))
        } else {
            nl + dedent_shapes((levels.len() - st.1.len()) as nat, line + 1)
        }
    } else if c == ' ' || c == '\t' || c == '\r' || c == '#' {
        Seq::empty()
    } else {
        let t = src.subrange(pos, st.0);
        seq![(text_kind(t), t, line)]
    }
}

/// The line on which the end marker stands, after the input's last line
/// `line`: one more when a newline must be added after the last token.
pub open spec fn end_line(line: int, last: Option<TokenKind>) -> int {
    match last {
        Some(k) => if k == TokenKind::NewLine {
            line
        } else {
            line + 1
        },
        None => line,
    }
}

/// What follows the tokens read, when the last of them is of kind `last`
/// and `open` blocks are open on line `line`: when any token was read, a
/// newline unless the last token is one, and a dedent for each open block;
/// then the end marker.
pub open spec fn closing_shapes(line: int, open: nat, last: Option<TokenKind>) -> Seq<
    (TokenKind, Seq<char>, int),
> {
    let l2 = end_line(line, last);
    match last {
        Some(k) => closing_body(line, open, k) + seq![(TokenKind::Eof, Seq::<char>::empty(), l2)],
        None => seq![(TokenKind::Eof, Seq::<char>::empty(), l2)],
    }
}

/// What closes the tokens read, the last of kind `k`, with `open` blocks
/// open on line `line`: a newline unless `k` is one, then a dedent for each
/// open block.
pub open spec fn closing_body(line: int, open: nat, k: TokenKind) -> Seq<(TokenKind, Seq<char>, int)> {
    let nl = if k == TokenKind::NewLine {
        Seq::empty()
    } else {
        seq![(TokenKind::NewLine, "\n"@, line)]
    };
    nl + dedent_shapes(open, end_line(line, Some(k)))
}

/// The tokens that the lexer yields for `src` from `pos` on, standing there
/// on line `line` with the open blocks `levels`, the style `tabs`, and the
/// last token read so far of kind `last`.
pub open spec fn token_run(
    src: Seq<char>,
    pos: int,
    line: int,
    levels: Seq<usize>,
    tabs: Option<bool>,
    last: Option<TokenKind>,
) -> Seq<(TokenKind, Seq<char>, int)>
    decreases src.len() - pos,
{
    if 0 <= pos < src.len() {
        let st = group_step(src, pos, levels, tabs);
        let g = group_shapes(src, pos, line, levels, tabs);
        let line2 = if src[pos] == '\n' {
            line + 1
        } else {
            line
        };
        let last2 = if g.len() > 0 {
            Some(g.last().0)
        } else {
            last
        };
        if pos < st.0 <= src.len() {
            g + token_run(src, st.0, line2, st.1, st.2, last2)
        } else {
            g
        }
    } else {
        closing_shapes(line, levels.len(), last)
    }
}

/// The tokens that the lexer yields for the whole of `src`, read from line
/// `line` with no block open and the indentation style `tabs`.
pub open spec fn lex_shapes(src: Seq<char>, line: int, tabs: Option<bool>) -> Seq<(TokenKind, Seq<char>, int)> {
    token_run(src, 0, line, Seq::empty(), tabs, None)
}

/// Reading one group appends its tokens to those read.
pub proof fn lemma_run_step(
    src: Seq<char>,
    pos: int,
    line: int,
    levels: Seq<usize>,
    tabs: Option<bool>,
    read: Seq<Token>,
    group: Seq<Token>,
    total: Seq<(TokenKind, Seq<char>, int)>,
)
    requires
        total == shapes(read) + token_run(src, pos, line, levels, tabs, last_kind(read)),
        0 <= pos < src.len(),
        pos < group_step(src, pos, levels, tabs).0 <= src.len(),
        shapes(group) == group_shapes(src, pos, line, levels, tabs),
    ensures
        ({
            let st = group_step(src, pos, levels, tabs);
            let line2 = if src[pos] == '\n' {
                line + 1
            } else {
                line
            };
            total == shapes(read + group) + token_run(
                src,
                st.0,
                line2,
                st.1,
                st.2,
                last_kind(read + group),
            )
        }),
{
    let st = group_step(src, pos, levels, tabs);
    let g = group_shapes(src, pos, line, levels, tabs);
    let line2 = if src[pos] == '\n' {
        line + 1
    } else {
        line
    };
    assert(shapes(read + group) =~= shapes(read) + shapes(group));
    if group.len() > 0 {
        assert(g.last() == shape(group.last()));
        assert((read + group).last() == group.last());
    } else {
        assert(read + group =~= read);
    }
}

/// The tokens read, closed and followed by the end marker on the end line,
/// are the tokens that the closing of the read ones calls for.
pub proof fn lemma_close_and_end(
    read: Seq<Token>,
    closed: Seq<Token>,
    all: Seq<Token>,
    line: int,
    open: nat,
    end: int,
    total: Seq<(TokenKind, Seq<char>, int)>,
)
    requires
        shapes(read) + closing_shapes(line, open, last_kind(read)) == total,
        read.len() > 0 ==> shapes(closed) == shapes(read) + closing_body(line, open, read.last().kind),
        end == end_line(line, last_kind(read)),
        read.len() == 0 ==> closed == read,
        all.len() == closed.len() + 1,
        forall|x: int| 0 <= x < closed.len() ==> all[x] == #[trigger] closed[x],
        all.last().kind == TokenKind::Eof,
        all.last().lexeme@ == Seq::<char>::empty(),
        all.last().line == end,
    ensures
        shapes(all) == total,
{
    let eof = seq![(TokenKind::Eof, Seq::<char>::empty(), end)];
    assert(shapes(all) =~= shapes(closed) + eof) by {
        assert forall|x: int| 0 <= x < all.len() implies shapes(all)[x] == (shapes(closed) + eof)[x] by {
            if x < closed.len() {
                assert(all[x] == closed[x]);
            }
        }
    }
    if read.len() > 0 {
        assert(shapes(read) + closing_shapes(line, open, last_kind(read)) =~= (shapes(read)
            + closing_body(line, open, read.last().kind)) + eof);
    } else {
        assert(shapes(read) =~= Seq::<(TokenKind, Seq<char>, int)>::empty());
    }
}

} // verus!
