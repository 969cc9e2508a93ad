//! The layout over several lines differs from the one-line text only in
//! where the lines break: replacing each line end, with the indentation
//! after it, by a single space gives the one-line text back.

use vstd::prelude::*;

use crate::printer::{flat, joined, pretty, rest_lines, spaces, width, Sexp};

verus! {

/// `s` with each line end, and the spaces after it, replaced by one space;
/// `skipping` says that a line end came just before, with only spaces
/// since.
pub open spec fn collapse(s: Seq<char>, skipping: bool) -> Seq<char>
    decreases s.len(),
{
    if s.len() == 0 {
        Seq::empty()
    } else if s[0] == '\n' {
        seq![' '] + collapse(s.drop_first(), true)
    } else if s[0] == ' ' && skipping {
        collapse(s.drop_first(), true)
    } else {
        seq![s[0]] + collapse(s.drop_first(), false)
    }
}

/// Whether, after `s`, a line end came last with only spaces since.
pub open spec fn after(s: Seq<char>, skipping: bool) -> bool
    decreases s.len(),
{
    if s.len() == 0 {
        skipping
    } else if s[0] == '\n' {
        after(s.drop_first(), true)
    } else if s[0] == ' ' && skipping {
        after(s.drop_first(), true)
    } else {
        after(s.drop_first(), false)
    }
}

/// Every atom of `e` holds no line end and does not begin with a space.
pub open spec fn atoms_ok(e: Sexp) -> bool
    decreases e,
{
    match e {
        Sexp::Atom(s) => !s.contains('\n') && (s.len() == 0 || s[0] != ' '),
        Sexp::List(cs) => forall|i: int| 0 <= i < cs.len() ==> atoms_ok(#[trigger] cs[i]),
    }
}

/// Collapsing works piece by piece.
pub proof fn lemma_collapse_concat(a: Seq<char>, b: Seq<char>, st: bool)
    ensures
        collapse(a + b, st) == collapse(a, st) + collapse(b, after(a, st)),
        after(a + b, st) == after(b, after(a, st)),
    decreases a.len(),
{
    if a.len() == 0 {
        assert(a + b =~= b);
    } else {
        assert((a + b).drop_first() =~= a.drop_first() + b);
        let st2 = if a[0] == '\n' {
            true
        } else if a[0] == ' ' && st {
            true
        } else {
            false
        };
        lemma_collapse_concat(a.drop_first(), b, st2);
        if a[0] == '\n' {
            assert(collapse(a + b, st) =~= seq![' '] + (collapse(a.drop_first(), true) + collapse(
                b,
                after(a.drop_first(), true),
            )));
        } else if a[0] == ' ' && st {
        } else {
            assert(collapse(a + b, st) =~= seq![a[0]] + (collapse(a.drop_first(), false) + collapse(
                b,
                after(a.drop_first(), false),
            )));
        }
    }
}

/// Text on one line that does not begin with a space collapses to itself.
pub proof fn lemma_collapse_plain(s: Seq<char>, st: bool)
    requires
        !s.contains('\n'),
        s.len() == 0 || s[0] != ' ',
    ensures
        collapse(s, st) == s,
        after(s, st) == if s.len() == 0 {
            st
        } else {
            false
        },
    decreases s.len(),
{
    if s.len() > 0 {
        let t = s.drop_first();
        assert(!t.contains('\n')) by {
            if t.contains('\n') {
                let j = choose|j: int| 0 <= j < t.len() && t[j] == '\n';
                assert(s[j + 1] == '\n');
            }
        }
        assert(s[0] != '\n') by {
            if s[0] == '\n' {
                assert(s.contains('\n'));
            }
        }
        lemma_collapse_plain_after(t);
        assert(collapse(s, st) =~= seq![s[0]] + collapse(t, false));
    }
}

/// Text on one line, after a character that is no space, collapses to
/// itself.
proof fn lemma_collapse_plain_after(s: Seq<char>)
    requires
        !s.contains('\n'),
    ensures
        collapse(s, false) == s,
        after(s, false) == false,
    decreases s.len(),
{
    if s.len() > 0 {
        let t = s.drop_first();
        assert(!t.contains('\n')) by {
            if t.contains('\n') {
                let j = choose|j: int| 0 <= j < t.len() && t[j] == '\n';
                assert(s[j + 1] == '\n');
            }
        }
        assert(s[0] != '\n') by {
            if s[0] == '\n' {
                assert(s.contains('\n'));
            }
        }
        lemma_collapse_plain_after(t);
        assert(collapse(s, false) =~= seq![s[0]] + collapse(t, false));
    }
}

/// Spaces after a line end collapse to nothing.
proof fn lemma_collapse_spaces(n: nat)
    ensures
        collapse(spaces(n), true) == Seq::<char>::empty(),
        after(spaces(n), true),
    decreases n,
{
    if n > 0 {
        assert(spaces(n).drop_first() =~= spaces((n - 1) as nat));
        lemma_collapse_spaces((n - 1) as nat);
    } else {
        assert(spaces(n) =~= Seq::<char>::empty());
    }
}

/// Concatenations with no line end hold none.
proof fn lemma_no_newline_concat(a: Seq<char>, b: Seq<char>)
    requires
        !a.contains('\n'),
        !b.contains('\n'),
    ensures
        !(a + b).contains('\n'),
{
    if (a + b).contains('\n') {
        let j = choose|j: int| 0 <= j < (a + b).len() && (a + b)[j] == '\n';
        if j < a.len() {
            assert(a[j] == '\n');
        } else {
            assert(b[j - a.len()] == '\n');
        }
    }
}

/// The one-line text of `e` holds no line end and does not begin with a
/// space.
proof fn lemma_flat_plain(e: Sexp)
    requires
        atoms_ok(e),
    ensures
        !flat(e).contains('\n'),
        flat(e).len() == 0 || flat(e)[0] != ' ',
    decreases e, 1nat,
{
    match e {
        Sexp::Atom(s) => {},
        Sexp::List(cs) => {
            if cs.len() > 0 {
                lemma_joined_plain(cs);
                let inner = seq!['('] + joined(cs);
                assert(!seq!['('].contains('\n')) by {
                    if seq!['('].contains('\n') {
                        let j = choose|j: int| 0 <= j < 1 && seq!['('][j] == '\n';
                    }
                }
                assert(!seq![')'].contains('\n')) by {
                    if seq![')'].contains('\n') {
                        let j = choose|j: int| 0 <= j < 1 && seq![')'][j] == '\n';
                    }
                }
                lemma_no_newline_concat(seq!['('], joined(cs));
                lemma_no_newline_concat(inner, seq![')']);
            } else {
                assert(!seq!['(', ')'].contains('\n')) by {
                    if seq!['(', ')'].contains('\n') {
                        let j = choose|j: int| 0 <= j < 2 && seq!['(', ')'][j] == '\n';
                    }
                }
            }
        },
    }
}

/// The one-line texts of `cs`, spaced, hold no line end.
proof fn lemma_joined_plain(cs: Seq<Sexp>)
    requires
        forall|i: int| 0 <= i < cs.len() ==> atoms_ok(#[trigger] cs[i]),
    ensures
        !joined(cs).contains('\n'),
    decreases cs, 0nat,
{
    if cs.len() == 1 {
        lemma_flat_plain(cs[0]);
    } else if cs.len() > 1 {
        lemma_joined_plain(cs.drop_last());
        lemma_flat_plain(cs.last());
        assert(!seq![' '].contains('\n')) by {
            if seq![' '].contains('\n') {
                let j = choose|j: int| 0 <= j < 1 && seq![' '][j] == '\n';
            }
        }
        lemma_no_newline_concat(joined(cs.drop_last()), seq![' ']);
        lemma_no_newline_concat(joined(cs.drop_last()) + seq![' '], flat(cs.last()));
    }
}

/// Each element of `cs` after a space, on one line.
pub open spec fn spaced(cs: Seq<Sexp>) -> Seq<char>
    decreases cs.len(),
{
    if cs.len() == 0 {
        Seq::empty()
    } else {
        spaced(cs.drop_last()) + seq![' '] + flat(cs.last())
    }
}

/// The one-line texts of elements: the first, then the others spaced.
proof fn lemma_joined_split(cs: Seq<Sexp>)
    requires
        cs.len() >= 1,
    ensures
        joined(cs) == flat(cs[0]) + spaced(cs.drop_first()),
    decreases cs.len(),
{
    if cs.len() == 1 {
        assert(spaced(cs.drop_first()) =~= Seq::<char>::empty());
        assert(flat(cs[0]) + Seq::<char>::empty() =~= flat(cs[0]));
    } else {
        lemma_joined_split(cs.drop_last());
        assert(cs.drop_last()[0] == cs[0]);
        assert(cs.drop_last().drop_first() =~= cs.drop_first().drop_last());
        assert(cs.drop_first().last() == cs.last());
    }
}

/// One character collapses to a space for a line end, to nothing for a
/// space after a line end, and to itself otherwise.
proof fn lemma_collapse_single(c: char, st: bool)
    ensures
        collapse(seq![c], st) == if c == '\n' {
            seq![' ']
        } else if c == ' ' && st {
            Seq::<char>::empty()
        } else {
            seq![c]
        },
        after(seq![c], st) == (c == '\n' || (c == ' ' && st)),
{
    assert(seq![c].drop_first() =~= Seq::<char>::empty());
    assert(seq![c][0] == c);
    let e = Seq::<char>::empty();
    assert(collapse(e, true) == e);
    assert(collapse(e, false) == e);
    assert(seq![' '] + e =~= seq![' ']);
    assert(seq![c] + e =~= seq![c]);
    assert(after(e, true));
    assert(!after(e, false));
}

/// Lines of elements collapse to the elements spaced.
proof fn lemma_collapse_rest(cs: Seq<Sexp>, indent: nat, st: bool)
    requires
        forall|i: int| 0 <= i < cs.len() ==> atoms_ok(#[trigger] cs[i]),
    ensures
        collapse(rest_lines(cs, indent), st) == spaced(cs),
    decreases cs, 0nat,
{
    if cs.len() > 0 {
        let front = rest_lines(cs.drop_last(), indent);
        let p = pretty(cs.last(), indent);
        lemma_collapse_rest(cs.drop_last(), indent, st);
        lemma_collapse_concat(front, seq!['\n'], st);
        lemma_collapse_concat(front + seq!['\n'], spaces(indent), st);
        lemma_collapse_concat(front + seq!['\n'] + spaces(indent), p, st);
        lemma_collapse_single('\n', after(front, st));
        lemma_collapse_spaces(indent);
        lemma_collapse_pretty(cs.last(), indent, true);
        assert(collapse(rest_lines(cs, indent), st) =~= spaced(cs.drop_last()) + seq![' '] + flat(
            cs.last(),
        ));
    }
}

/// The layout of `e` from any column collapses to its one-line text, and
/// leaves no line end open unless it is empty.
pub proof fn lemma_collapse_pretty(e: Sexp, indent: nat, st: bool)
    requires
        atoms_ok(e),
    ensures
        collapse(pretty(e, indent), st) == flat(e),
        after(pretty(e, indent), st) == if pretty(e, indent).len() == 0 {
            st
        } else {
            false
        },
    decreases e, 2nat,
{
    match e {
        Sexp::Atom(s) => {
            lemma_collapse_plain(s, st);
        },
        Sexp::List(cs) => {
            if cs.len() == 0 || width(e) <= 12 {
                lemma_flat_plain(e);
                lemma_collapse_plain(flat(e), st);
            } else {
                lemma_collapse_list(cs, indent, st);
            }
        },
    }
}

/// A list laid out over lines collapses to its one-line text.
proof fn lemma_collapse_list(cs: Seq<Sexp>, indent: nat, st: bool)
    requires
        atoms_ok(Sexp::List(cs)),
        cs.len() > 0,
        width(Sexp::List(cs)) > 12,
    ensures
        collapse(pretty(Sexp::List(cs), indent), st) == flat(Sexp::List(cs)),
        after(pretty(Sexp::List(cs), indent), st) == false,
    decreases cs, 1nat,
{
    let e = Sexp::List(cs);
    assert(atoms_ok(cs[0]));
    let first = pretty(cs[0], indent + 1);
    lemma_collapse_pretty(cs[0], indent + 1, false);
    lemma_collapse_single('(', st);
    lemma_collapse_concat(seq!['('], first, st);
    lemma_joined_split(cs);
    if cs.len() == 1 {
        lemma_collapse_concat(seq!['('] + first, seq![')'], st);
        lemma_collapse_single(')', after(seq!['('] + first, st));
        assert(spaced(cs.drop_first()) =~= Seq::<char>::empty());
        assert(collapse(pretty(e, indent), st) =~= seq!['('] + flat(cs[0]) + seq![')']);
        assert(flat(e) =~= seq!['('] + flat(cs[0]) + seq![')']);
    } else {
        let second_indent = indent + 1 + crate::printer::byte_len(first) + 1;
        let p2 = pretty(cs[1], second_indent);
        let tail = cs.subrange(2, cs.len() as int);
        let rest = rest_lines(tail, second_indent);
        assert(atoms_ok(cs[1]));
        assert forall|i: int| 0 <= i < tail.len() implies atoms_ok(#[trigger] tail[i]) by {
            assert(tail[i] == cs[i + 2]);
        }
        let a1 = seq!['('] + first;
        let a2 = a1 + seq![' '];
        let a3 = a2 + p2;
        let a4 = a3 + rest;
        lemma_collapse_concat(a1, seq![' '], st);
        lemma_collapse_single(' ', after(a1, st));
        lemma_collapse_concat(a2, p2, st);
        lemma_collapse_pretty(cs[1], second_indent, false);
        lemma_collapse_concat(a3, rest, st);
        lemma_collapse_rest(tail, second_indent, after(a3, st));
        lemma_collapse_concat(a4, seq![')'], st);
        lemma_collapse_single(')', after(a4, st));
        assert(cs.drop_first()[0] == cs[1]);
        assert(cs.drop_first().drop_first() =~= tail);
        lemma_spaced_front(cs.drop_first());
        assert(pretty(e, indent) == a4 + seq![')']);
        assert(collapse(pretty(e, indent), st) =~= seq!['('] + flat(cs[0]) + seq![' '] + flat(cs[1])
            + spaced(tail) + seq![')']);
        assert(flat(e) =~= seq!['('] + flat(cs[0]) + seq![' '] + flat(cs[1]) + spaced(tail) + seq![')']);
    }
}

/// Spacing elements: the first, then the others.
proof fn lemma_spaced_front(cs: Seq<Sexp>)
    requires
        cs.len() >= 1,
    ensures
        spaced(cs) == seq![' '] + flat(cs[0]) + spaced(cs.drop_first()),
    decreases cs.len(),
{
    if cs.len() == 1 {
        assert(cs.drop_last() =~= Seq::<Sexp>::empty());
        assert(spaced(cs.drop_first()) =~= Seq::<char>::empty());
        assert(spaced(cs.drop_last()) =~= Seq::<char>::empty());
    } else {
        lemma_spaced_front(cs.drop_last());
        assert(cs.drop_last()[0] == cs[0]);
        assert(cs.drop_last().drop_first() =~= cs.drop_first().drop_last());
        assert(cs.drop_first().last() == cs.last());
    }
}

} // verus!
