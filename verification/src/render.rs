//! Decimal text of operands and the small pieces expressions are written from.

use vstd::prelude::*;

verus! {

/// The character of one decimal digit.
pub open spec fn digit_char(d: int) -> char {
    if d == 0 {
        '0'
    } else if d == 1 {
        '1'
    } else if d == 2 {
        '2'
    } else if d == 3 {
        '3'
    } else if d == 4 {
        '4'
    } else if d == 5 {
        '5'
    } else if d == 6 {
        '6'
    } else if d == 7 {
        '7'
    } else if d == 8 {
        '8'
    } else {
        '9'
    }
}

/// The digits of a natural number, most significant first, without
/// leading zeros; zero is the single digit `0`.
pub open spec fn digits(n: nat) -> Seq<char>
    decreases n,
{
    if n < 10 {
        seq![digit_char(n as int)]
    } else {
        digits(n / 10).push(digit_char((n % 10) as int))
    }
}

/// The decimal text of an integer: a minus sign for a negative one, then
/// the digits of its absolute value.
pub open spec fn decimal(n: int) -> Seq<char> {
    if n < 0 {
        seq!['-'] + digits((-n) as nat)
    } else {
        digits(n as nat)
    }
}

/// Whether `op` is one of the four operators.
pub open spec fn is_operator(op: char) -> bool {
    op == '+' || op == '-' || op == '*' || op == '/'
}

/// An operator as it stands between its operands: a space on either side.
pub open spec fn spaced(op: char) -> Seq<char> {
    seq![' ', op, ' ']
}

fn digit_str(d: u32) -> (s: &'static str)
    requires
        d < 10,
    ensures
        s@ == seq![digit_char(d as int)],
{
    proof {
        reveal_strlit("0");
        reveal_strlit("1");
        reveal_strlit("2");
        reveal_strlit("3");
        reveal_strlit("4");
        reveal_strlit("5");
        reveal_strlit("6");
        reveal_strlit("7");
        reveal_strlit("8");
        reveal_strlit("9");
    }
    let s = match d {
        0 => "0",
        1 => "1",
        2 => "2",
        3 => "3",
        4 => "4",
        5 => "5",
        6 => "6",
        7 => "7",
        8 => "8",
        _ => "9",
    };
    assert(s@ =~= seq![digit_char(d as int)]);
    s
}

fn push_digits(out: &mut String, n: u32)
    ensures
        final(out)@ == old(out)@ + digits(n as nat),
    decreases n,
{
    if n < 10 {
        out.append(digit_str(n));
        assert(out@ =~= old(out)@ + digits(n as nat));
    } else {
        push_digits(out, n / 10);
        out.append(digit_str(n % 10));
        assert(out@ =~= old(out)@ + digits(n as nat));
    }
}

/// Appends the decimal text of `n`.
pub fn push_operand(out: &mut String, n: i32)
    ensures
        final(out)@ == old(out)@ + decimal(n as int),
{
    if n < 0 {
        proof {
            reveal_strlit("-");
        }
        out.append("-");
        let m: u32 = if n == i32::MIN {
            2147483648u32
        } else {
            (-n) as u32
        };
        push_digits(out, m);
        assert(out@ =~= old(out)@ + decimal(n as int));
    } else {
        push_digits(out, n as u32);
    }
}

/// Appends the operator `op` with a space on either side.
pub fn push_operator(out: &mut String, op: char)
    requires
        is_operator(op),
    ensures
        final(out)@ == old(out)@ + spaced(op),
{
    proof {
        reveal_strlit(" + ");
        reveal_strlit(" - ");
        reveal_strlit(" * ");
        reveal_strlit(" / ");
    }
    let s = match op {
        '+' => " + ",
        '-' => " - ",
        '*' => " * ",
        _ => " / ",
    };
    assert(s@ =~= spaced(op));
    out.append(s);
}

/// Appends an opening parenthesis.
pub fn push_open(out: &mut String)
    ensures
        final(out)@ == old(out)@ + seq!['('],
{
    proof {
        reveal_strlit("(");
    }
    assert("("@ =~= seq!['(']);
    out.append("(");
}

/// Appends a closing parenthesis.
pub fn push_close(out: &mut String)
    ensures
        final(out)@ == old(out)@ + seq![')'],
{
    proof {
        reveal_strlit(")");
    }
    assert(")"@ =~= seq![')']);
    out.append(")");
}

} // verus!
