//! A text can be read back as an expression in one way only.

use crate::expr::{enclosed, Expr};
use crate::render::{decimal, digit_char, digits, spaced};
use vstd::prelude::*;

verus! {

/// A character that can follow an operand: a space or a closing
/// parenthesis.
spec fn closes(c: char) -> bool {
    c == ' ' || c == ')'
}

/// What can follow an operand: nothing, or something that begins with a
/// character that closes it.
spec fn follows(rest: Seq<char>) -> bool {
    rest.len() == 0 || closes(rest[0])
}

/// A character of a number: neither a space nor a parenthesis.
spec fn plain(c: char) -> bool {
    c != ' ' && c != '(' && c != ')'
}

proof fn lemma_split<T>(a: Seq<T>, x: Seq<T>, b: Seq<T>, y: Seq<T>)
    requires
        a + x == b + y,
        a.len() == b.len(),
    ensures
        a == b,
        x == y,
{
    assert(a =~= (a + x).subrange(0, a.len() as int));
    assert(b =~= (b + y).subrange(0, b.len() as int));
    assert(x =~= (a + x).subrange(a.len() as int, (a + x).len() as int));
    assert(y =~= (b + y).subrange(b.len() as int, (b + y).len() as int));
}

proof fn lemma_digits_plain(n: nat)
    ensures
        digits(n).len() >= 1,
        forall|i: int| 0 <= i < digits(n).len() ==> plain(#[trigger] digits(n)[i]) && digits(n)[i] != '-',
    decreases n,
{
    if n >= 10 {
        lemma_digits_plain(n / 10);
    }
}

proof fn lemma_digit_char_injective(a: int, b: int)
    requires
        0 <= a < 10,
        0 <= b < 10,
        digit_char(a) == digit_char(b),
    ensures
        a == b,
{
}

proof fn lemma_digits_injective(a: nat, b: nat)
    requires
        digits(a) == digits(b),
    ensures
        a == b,
    decreases a,
{
    lemma_digits_plain(a / 10);
    lemma_digits_plain(b / 10);
    if a < 10 {
        assert(digits(a).len() == 1);
        assert(b < 10);
        assert(digits(a)[0] == digit_char(a as int));
        assert(digits(b)[0] == digit_char(b as int));
        lemma_digit_char_injective(a as int, b as int);
    } else {
        assert(digits(a).len() >= 2);
        assert(b >= 10);
        let da = digits(a / 10);
        let db = digits(b / 10);
        let ca = digit_char((a % 10) as int);
        let cb = digit_char((b % 10) as int);
        assert(da.push(ca).last() == db.push(cb).last());
        assert(da.push(ca).drop_last() =~= da);
        assert(db.push(cb).drop_last() =~= db);
        lemma_digits_injective(a / 10, b / 10);
        lemma_digit_char_injective((a % 10) as int, (b % 10) as int);
        assert(a == 10 * (a / 10) + a % 10);
        assert(b == 10 * (b / 10) + b % 10);
    }
}

proof fn lemma_decimal_plain(n: int)
    ensures
        decimal(n).len() >= 1,
        forall|i: int| 0 <= i < decimal(n).len() ==> plain(#[trigger] decimal(n)[i]),
{
    if n < 0 {
        lemma_digits_plain((-n) as nat);
    } else {
        lemma_digits_plain(n as nat);
    }
}

/// Different integers have different decimal texts.
pub proof fn lemma_decimal_injective(a: int, b: int)
    requires
        decimal(a) == decimal(b),
    ensures
        a == b,
{
    let na = (if a < 0 { -a } else { a }) as nat;
    let nb = (if b < 0 { -b } else { b }) as nat;
    lemma_digits_plain(na);
    lemma_digits_plain(nb);
    if a < 0 {
        assert(decimal(a)[0] == '-');
        if b >= 0 {
            assert(decimal(b)[0] == digits(nb)[0]);
        }
        assert(b < 0);
        lemma_split(seq!['-'], digits(na), seq!['-'], digits(nb));
        lemma_digits_injective(na, nb);
    } else {
        assert(decimal(a)[0] == digits(na)[0]);
        if b < 0 {
            assert(decimal(b)[0] == '-');
        }
        lemma_digits_injective(na, nb);
    }
}

/// A number is read to its end: of two numbers, each followed by what
/// can follow an operand, with the same text in all, the numbers are the
/// same and so is what follows.
proof fn lemma_number_ends(a: int, x: Seq<char>, b: int, y: Seq<char>)
    requires
        follows(x),
        follows(y),
        decimal(a) + x == decimal(b) + y,
    ensures
        a == b,
        x == y,
{
    let da = decimal(a);
    let db = decimal(b);
    lemma_decimal_plain(a);
    lemma_decimal_plain(b);
    assert((da + x).len() == (db + y).len());
    if da.len() < db.len() {
        assert((da + x)[da.len() as int] == x[0]);
        assert((db + y)[da.len() as int] == db[da.len() as int]);
    } else if db.len() < da.len() {
        assert((db + y)[db.len() as int] == y[0]);
        assert((da + x)[db.len() as int] == da[db.len() as int]);
    }
    lemma_split(da, x, db, y);
    lemma_decimal_injective(a, b);
}

/// The first character of an operand tells a number from a parenthesis.
proof fn lemma_enclosed_first(e: Expr)
    ensures
        enclosed(e, e.text()).len() >= 1,
        e is Leaf ==> plain(enclosed(e, e.text())[0]),
        e is Node ==> enclosed(e, e.text())[0] == '(',
{
    match e {
        Expr::Leaf(n) => {
            lemma_decimal_plain(n);
        },
        Expr::Node(_, _, _) => {},
    }
}

/// The text of a parenthesised operand and what follows it, piece by
/// piece.
proof fn lemma_operand_pieces(left: Expr, op: char, right: Expr, x: Seq<char>)
    ensures
        ({
            let e = Expr::Node(Box::new(left), op, Box::new(right));
            enclosed(e, e.text()) + x == seq!['('] + (enclosed(left, left.text()) + (spaced(op) + (
            enclosed(right, right.text()) + (seq![')'] + x))))
        }),
{
    let e = Expr::Node(Box::new(left), op, Box::new(right));
    assert(enclosed(e, e.text()) + x =~= seq!['('] + (enclosed(left, left.text()) + (spaced(op) + (
    enclosed(right, right.text()) + (seq![')'] + x)))));
}

/// An operand is read to its end: of two operands, each followed by what
/// can follow an operand, with the same text in all, the operands are the
/// same expression and what follows is the same.
proof fn lemma_operand_ends(e: Expr, x: Seq<char>, f: Expr, y: Seq<char>)
    requires
        e.well_formed(),
        f.well_formed(),
        follows(x),
        follows(y),
        enclosed(e, e.text()) + x == enclosed(f, f.text()) + y,
    ensures
        e == f,
        x == y,
    decreases e,
{
    let te = enclosed(e, e.text());
    let tf = enclosed(f, f.text());
    lemma_enclosed_first(e);
    lemma_enclosed_first(f);
    assert((te + x)[0] == te[0]);
    assert((tf + y)[0] == tf[0]);
    match e {
        Expr::Leaf(a) => {
            match f {
                Expr::Leaf(b) => {
                    lemma_number_ends(a, x, b, y);
                },
                Expr::Node(_, _, _) => {},
            }
        },
        Expr::Node(el, eop, er) => {
            match f {
                Expr::Leaf(_) => {},
                Expr::Node(fl, fop, fr) => {
                    let open = seq!['('];
                    let close = seq![')'];
                    let e3 = enclosed(*er, er.text()) + (close + x);
                    let f3 = enclosed(*fr, fr.text()) + (close + y);
                    let e2 = spaced(eop) + e3;
                    let f2 = spaced(fop) + f3;
                    let e1 = enclosed(*el, el.text()) + e2;
                    let f1 = enclosed(*fl, fl.text()) + f2;
                    lemma_operand_pieces(*el, eop, *er, x);
                    lemma_operand_pieces(*fl, fop, *fr, y);
                    lemma_split(open, e1, open, f1);
                    assert(follows(e2) && follows(f2)) by {
                        assert(e2[0] == ' ');
                        assert(f2[0] == ' ');
                    }
                    lemma_operand_ends(*el, e2, *fl, f2);
                    assert(eop == fop) by {
                        assert(e2[1] == eop);
                        assert(f2[1] == fop);
                    }
                    lemma_split(spaced(eop), e3, spaced(fop), f3);
                    assert(follows(close + x) && follows(close + y)) by {
                        assert((close + x)[0] == ')');
                        assert((close + y)[0] == ')');
                    }
                    lemma_operand_ends(*er, close + x, *fr, close + y);
                    lemma_split(close, x, close, y);
                },
            }
        },
    }
}

/// Unique reading: two well-formed expressions with the same text are the
/// same expression. The text of an expression therefore fixes its
/// operands, its operators, its parentheses, and with them its value.
pub proof fn lemma_text_injective(e: Expr, f: Expr)
    requires
        e.well_formed(),
        f.well_formed(),
        e.text() == f.text(),
    ensures
        e == f,
{
    let none = Seq::<char>::empty();
    match e {
        Expr::Leaf(a) => {
            match f {
                Expr::Leaf(b) => {
                    lemma_decimal_injective(a, b);
                },
                Expr::Node(fl, fop, fr) => {
                    let rest = spaced(fop) + enclosed(*fr, fr.text());
                    assert(rest[0] == ' ');
                    assert(f.text() =~= enclosed(*fl, fl.text()) + rest);
                    assert(e.text() =~= enclosed(e, e.text()) + none);
                    lemma_operand_ends(e, none, *fl, rest);
                },
            }
        },
        Expr::Node(el, eop, er) => {
            let rest_e = spaced(eop) + enclosed(*er, er.text());
            assert(rest_e[0] == ' ');
            assert(e.text() =~= enclosed(*el, el.text()) + rest_e);
            match f {
                Expr::Leaf(_) => {
                    assert(f.text() =~= enclosed(f, f.text()) + none);
                    lemma_operand_ends(*el, rest_e, f, none);
                },
                Expr::Node(fl, fop, fr) => {
                    let rest_f = spaced(fop) + enclosed(*fr, fr.text());
                    assert(rest_f[0] == ' ');
                    assert(f.text() =~= enclosed(*fl, fl.text()) + rest_f);
                    lemma_operand_ends(*el, rest_e, *fl, rest_f);
                    assert(rest_e[1] == eop);
                    assert(rest_f[1] == fop);
                    let ter = enclosed(*er, er.text());
                    let tfr = enclosed(*fr, fr.text());
                    lemma_split(spaced(eop), ter, spaced(fop), tfr);
                    assert(ter =~= ter + none);
                    assert(tfr =~= tfr + none);
                    lemma_operand_ends(*er, none, *fr, none);
                },
            }
        },
    }
}

} // verus!
