//! Warnings about source text that costs more than it needs to.
use vstd::prelude::*;
use vstd::string::*;

verus! {

/// A warning about the source, at a byte offset.
#[derive(Debug, Clone, Copy)]
pub enum Warning {
    WhitespaceBetweenCommaAndBracket { pos: usize },
    Semicolon { pos: usize },
}

/// The character of the decimal digit `d`.
pub open spec fn digit_char(d: nat) -> char {
    if d == 0 {
        '0'
    } else if d == 1 {
        '1'
    } else if d == 2 {
        '2'
    } else if d == 3 {
        '3'
    } else if d == 4 {
        '4'
    } else if d == 5 {
        '5'
    } else if d == 6 {
        '6'
    } else if d == 7 {
        '7'
    } else if d == 8 {
        '8'
    } else {
        '9'
    }
}

/// The decimal numeral of `n`, with no leading zeros.
pub open spec fn decimal(n: nat) -> Seq<char>
    decreases n,
{
    if n < 10 {
        seq![digit_char(n)]
    } else {
        decimal(n / 10).push(digit_char(n % 10))
    }
}

/// The message that a warning reads as.
pub open spec fn message_spec(w: Warning) -> Seq<char> {
    match w {
        Warning::WhitespaceBetweenCommaAndBracket { pos } => "byte "@ + decimal(pos as nat)
            + ": whitespace between `,` and `[` wastes a token; write `,[` instead"@,
        Warning::Semicolon { pos } => "byte "@ + decimal(pos as nat)
            + ": replace `;` with whitespace or a comma"@,
    }
}

/// Appends the decimal digit `d` to `out`.
fn push_digit(out: &mut String, d: usize)
    requires
        d < 10,
    ensures
        final(out)@ == old(out)@.push(digit_char(d as nat)),
{
    let s = match d {
        0 => "0",
        1 => "1",
        2 => "2",
        3 => "3",
        4 => "4",
        5 => "5",
        6 => "6",
        7 => "7",
        8 => "8",
        _ => "9",
    };
    proof {
        reveal_strlit("0");
        reveal_strlit("1");
        reveal_strlit("2");
        reveal_strlit("3");
        reveal_strlit("4");
        reveal_strlit("5");
        reveal_strlit("6");
        reveal_strlit("7");
        reveal_strlit("8");
        reveal_strlit("9");
    }
    out.append(s);
    assert(s@ =~= seq![digit_char(d as nat)]);
}

/// Appends the decimal numeral of `n` to `out`.
fn push_decimal(out: &mut String, n: usize)
    ensures
        final(out)@ == old(out)@ + decimal(n as nat),
    decreases n,
{
    if n >= 10 {
        push_decimal(out, n / 10);
    }
    push_digit(out, n % 10);
    assert(final(out)@ =~= old(out)@ + decimal(n as nat));
}

impl Warning {
    /// The text that the warning reads as, after its byte offset.
    pub fn message(&self) -> (r: String)
        ensures
            r@ == message_spec(*self),
    {
        let mut out = String::from_str("byte ");
        match self {
            Warning::WhitespaceBetweenCommaAndBracket { pos } => {
                push_decimal(&mut out, *pos);
                out.append(": whitespace between `,` and `[` wastes a token; write `,[` instead");
            },
            Warning::Semicolon { pos } => {
                push_decimal(&mut out, *pos);
                out.append(": replace `;` with whitespace or a comma");
            },
        }
        out
    }
}

} // verus!
