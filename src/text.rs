//! Decimal text of integers.
use vstd::prelude::*;

use crate::formula::tokenstream::{append_copies, spaces};

verus! {

pub open spec fn digit_char(d: int) -> char {
    if d == 0 {
        '0'
    } else if d == 1 {
        '1'
    } else if d == 2 {
        '2'
    } else if d == 3 {
        '3'
    } else if d == 4 {
        '4'
    } else if d == 5 {
        '5'
    } else if d == 6 {
        '6'
    } else if d == 7 {
        '7'
    } else if d == 8 {
        '8'
    } else {
        '9'
    }
}

/// The decimal digits of `n`, without leading zeros.
pub open spec fn nat_text(n: nat) -> Seq<char>
    decreases n,
{
    if n < 10 {
        seq![digit_char(n as int)]
    } else {
        nat_text(n / 10) + seq![digit_char((n % 10) as int)]
    }
}

/// The decimal text of `n`, with a minus sign where it is negative.
pub open spec fn int_text(n: int) -> Seq<char> {
    if n < 0 {
        seq!['-'] + nat_text((-n) as nat)
    } else {
        nat_text(n as nat)
    }
}

fn append_digit(out: &mut String, d: u64)
    requires
        d < 10,
    ensures
        final(out)@ == old(out)@ + seq![digit_char(d as int)],
{
    proof {
        reveal_strlit("0");
        reveal_strlit("1");
        reveal_strlit("2");
        reveal_strlit("3");
        reveal_strlit("4");
        reveal_strlit("5");
        reveal_strlit("6");
        reveal_strlit("7");
        reveal_strlit("8");
        reveal_strlit("9");
    }
    let s = if d == 0 {
        "0"
    } else if d == 1 {
        "1"
    } else if d == 2 {
        "2"
    } else if d == 3 {
        "3"
    } else if d == 4 {
        "4"
    } else if d == 5 {
        "5"
    } else if d == 6 {
        "6"
    } else if d == 7 {
        "7"
    } else if d == 8 {
        "8"
    } else {
        "9"
    };
    assert(s@ =~= seq![digit_char(d as int)]);
    out.append(s);
}

/// Appends the decimal digits of `n`.
fn append_nat(out: &mut String, n: u64)
    ensures
        final(out)@ == old(out)@ + nat_text(n as nat),
    decreases n,
{
    if n < 10 {
        append_digit(out, n);
    } else {
        append_nat(out, n / 10);
        append_digit(out, n % 10);
        assert(old(out)@ + nat_text((n / 10) as nat) + seq![digit_char((n % 10) as int)] =~= old(out)@
            + nat_text(n as nat));
    }
}

/// The decimal text of an integer.
pub fn int_to_text(n: i64) -> (r: String)
    ensures
        r@ == int_text(n as int),
{
    let mut out = String::new();
    if n < 0 {
        proof {
            reveal_strlit("-");
        }
        out.append("-");
        let magnitude = (-(n as i128)) as u64;
        append_nat(&mut out, magnitude);
    } else {
        append_nat(&mut out, n as u64);
    }
    assert(out@ =~= int_text(n as int));
    out
}

/// `input` followed by as many spaces as it takes to fill `length`
/// characters; `input` alone where it is that long already.
pub fn pad_string(input: &str, length: usize) -> (r: String)
    ensures
        r@ == input@ + spaces(
            if input@.len() < length {
                (length - input@.len()) as nat
            } else {
                0
            },
        ),
{
    proof {
        reveal_strlit(" ");
    }
    let count = input.unicode_len();
    let mut out = String::from_str(input);
    let pad = if count < length {
        length - count
    } else {
        0
    };
    append_copies(&mut out, " ", pad);
    assert(Seq::new(pad as nat, |_i: int| " "@[0]) =~= spaces(pad as nat));
    out
}

} // verus!
