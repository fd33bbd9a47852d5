//! Decimal text of integers, for error messages.
use vstd::prelude::*;

verus! {

/// The character of the decimal digit `d`.
pub open spec fn digit_char(d: int) -> char {
    if d == 0 {
        '0'
    } else if d == 1 {
        '1'
    } else if d == 2 {
        '2'
    } else if d == 3 {
        '3'
    } else if d == 4 {
        '4'
    } else if d == 5 {
        '5'
    } else if d == 6 {
        '6'
    } else if d == 7 {
        '7'
    } else if d == 8 {
        '8'
    } else {
        '9'
    }
}

/// The decimal digits of `v`, most significant first, without leading zeros.
pub open spec fn digits(v: nat) -> Seq<char>
    decreases v,
{
    if v < 10 {
        seq![digit_char(v as int)]
    } else {
        digits(v / 10) + seq![digit_char((v % 10) as int)]
    }
}

/// The decimal text of `v`: its digits, after a minus sign when it is negative.
pub open spec fn decimal(v: int) -> Seq<char> {
    if v < 0 {
        seq!['-'] + digits((-v) as nat)
    } else {
        digits(v as nat)
    }
}

/// The text of the decimal digit `d`.
fn digit_str(d: u64) -> (r: &'static str)
    requires
        d < 10,
    ensures
        r@ == seq![digit_char(d as int)],
{
    if d == 0 {
        proof {
            reveal_strlit("0");
        }
        "0"
    } else if d == 1 {
        proof {
            reveal_strlit("1");
        }
        "1"
    } else if d == 2 {
        proof {
            reveal_strlit("2");
        }
        "2"
    } else if d == 3 {
        proof {
            reveal_strlit("3");
        }
        "3"
    } else if d == 4 {
        proof {
            reveal_strlit("4");
        }
        "4"
    } else if d == 5 {
        proof {
            reveal_strlit("5");
        }
        "5"
    } else if d == 6 {
        proof {
            reveal_strlit("6");
        }
        "6"
    } else if d == 7 {
        proof {
            reveal_strlit("7");
        }
        "7"
    } else if d == 8 {
        proof {
            reveal_strlit("8");
        }
        "8"
    } else {
        proof {
            reveal_strlit("9");
        }
        "9"
    }
}

/// Append the decimal digits of `v` to `s`.
pub fn push_digits(s: &mut String, v: u64)
    ensures
        final(s)@ == old(s)@ + digits(v as nat),
    decreases v,
{
    if v >= 10 {
        push_digits(s, v / 10);
    }
    let ghost before = s@;
    s.append(digit_str(v % 10));
    proof {
        if v >= 10 {
            assert(before == old(s)@ + digits((v / 10) as nat));
            assert(s@ =~= old(s)@ + (digits((v / 10) as nat) + seq![digit_char((v % 10) as int)]));
        } else {
            assert(s@ =~= old(s)@ + digits(v as nat));
        }
    }
}

/// Append the decimal text of `v` to `s`.
pub fn push_decimal(s: &mut String, v: i64)
    ensures
        final(s)@ == old(s)@ + decimal(v as int),
{
    if v < 0 {
        proof {
            reveal_strlit("-");
        }
        s.append("-");
        let magnitude = (0i128 - v as i128) as u64;
        push_digits(s, magnitude);
        assert(s@ =~= old(s)@ + (seq!['-'] + digits((-v) as nat)));
    } else {
        push_digits(s, v as u64);
    }
}

} // verus!
