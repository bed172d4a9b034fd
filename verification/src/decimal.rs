//! Numbers in decimal.
use vstd::prelude::*;

verus! {

/// The digit for a number below ten.
pub open spec fn digit(n: nat) -> char {
    ('0' as int + n) as char
}

/// The digits of a number, without leading zeros.
pub open spec fn decimal(n: nat) -> Seq<char>
    decreases n,
{
    if n < 10 {
        seq![digit(n)]
    } else {
        decimal(n / 10).push(digit(n % 10))
    }
}

/// Appends the digit for a number below ten.
fn push_digit(text: &mut String, n: u32)
    requires
        n < 10,
    ensures
        final(text)@ == old(text)@.push(digit(n as nat)),
{
    proof {
        reveal_strlit("0");
        reveal_strlit("1");
        reveal_strlit("2");
        reveal_strlit("3");
        reveal_strlit("4");
        reveal_strlit("5");
        reveal_strlit("6");
        reveal_strlit("7");
        reveal_strlit("8");
        reveal_strlit("9");
    }
    let digit: &str = match n {
        0 => "0",
        1 => "1",
        2 => "2",
        3 => "3",
        4 => "4",
        5 => "5",
        6 => "6",
        7 => "7",
        8 => "8",
        _ => "9",
    };
    text.append(digit);
    assert(text@ =~= old(text)@.push(self::digit(n as nat)));
}

/// Appends the digits of a number.
pub fn push_decimal(text: &mut String, n: u32)
    ensures
        final(text)@ == old(text)@ + decimal(n as nat),
    decreases n,
{
    if n >= 10 {
        push_decimal(text, n / 10);
    }
    push_digit(text, n % 10);
    assert(text@ =~= old(text)@ + decimal(n as nat));
}

} // verus!
