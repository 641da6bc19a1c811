//! Decimal rendering of numbers for diagnostic messages.
use vstd::prelude::*;
use vstd::string::StringExecFns;

verus! {

/// The decimal digit `d` as a character.
pub open spec fn digit_char(d: int) -> char {
    if d == 0 {
        '0'
    } else if d == 1 {
        '1'
    } else if d == 2 {
        '2'
    } else if d == 3 {
        '3'
    } else if d == 4 {
        '4'
    } else if d == 5 {
        '5'
    } else if d == 6 {
        '6'
    } else if d == 7 {
        '7'
    } else if d == 8 {
        '8'
    } else {
        '9'
    }
}

/// Decimal digits of `n`, most significant first, without leading zeros.
pub open spec fn decimal_spec(n: nat) -> Seq<char>
    decreases n,
{
    if n < 10 {
        seq![digit_char(n as int)]
    } else {
        decimal_spec(n / 10).push(digit_char((n % 10) as int))
    }
}

fn digit_str(d: u64) -> (s: &'static str)
    requires
        d < 10,
    ensures
        s@ == seq![digit_char(d as int)],
{
    if d == 0 {
        proof {
            reveal_strlit("0");
        }
        "0"
    } else if d == 1 {
        proof {
            reveal_strlit("1");
        }
        "1"
    } else if d == 2 {
        proof {
            reveal_strlit("2");
        }
        "2"
    } else if d == 3 {
        proof {
            reveal_strlit("3");
        }
        "3"
    } else if d == 4 {
        proof {
            reveal_strlit("4");
        }
        "4"
    } else if d == 5 {
        proof {
            reveal_strlit("5");
        }
        "5"
    } else if d == 6 {
        proof {
            reveal_strlit("6");
        }
        "6"
    } else if d == 7 {
        proof {
            reveal_strlit("7");
        }
        "7"
    } else if d == 8 {
        proof {
            reveal_strlit("8");
        }
        "8"
    } else {
        proof {
            reveal_strlit("9");
        }
        "9"
    }
}

/// Appends the decimal digits of `n` to `out`.
pub fn push_decimal(out: &mut String, n: u64)
    ensures
        final(out)@ == old(out)@ + decimal_spec(n as nat),
    decreases n,
{
    if n >= 10 {
        push_decimal(out, n / 10);
    }
    out.append(digit_str(n % 10));
}

/// The decimal digits of `n`.
pub fn decimal(n: u64) -> (s: String)
    ensures
        s@ == decimal_spec(n as nat),
{
    let mut s = String::new();
    push_decimal(&mut s, n);
    s
}

/// Decimal digits of `n` with a leading minus sign when negative.
pub open spec fn signed_spec(n: int) -> Seq<char> {
    if n < 0 {
        seq!['-'] + decimal_spec((-n) as nat)
    } else {
        decimal_spec(n as nat)
    }
}

/// Appends the decimal form of a signed number to `out`.
pub fn push_signed(out: &mut String, n: i32)
    ensures
        final(out)@ == old(out)@ + signed_spec(n as int),
{
    if n < 0 {
        proof {
            reveal_strlit("-");
        }
        out.append("-");
        let magnitude: u64 = (0i64 - n as i64) as u64;
        push_decimal(out, magnitude);
        proof {
            assert(out@ =~= old(out)@ + signed_spec(n as int));
        }
    } else {
        push_decimal(out, n as u64);
    }
}


/// The text form `a_b` of a reference number with halves `a` and `b`.
pub open spec fn refno_text_spec(refno: u64) -> Seq<char> {
    decimal_spec(crate::defines::spec_refno_hi(refno) as nat) + seq!['_'] + decimal_spec(crate::defines::spec_refno_lo(refno) as nat)
}

/// The text form `a_b` of a reference number (see `refno_text_spec`).
pub fn refno_text(refno: u64) -> (s: String)
    ensures
        s@ == refno_text_spec(refno),
{
    let mut s = String::new();
    push_decimal(&mut s, crate::defines::refno_hi(refno) as u64);
    proof {
        reveal_strlit("_");
    }
    s.append("_");
    push_decimal(&mut s, crate::defines::refno_lo(refno) as u64);
    s
}

/// Appends the text form of a reference number to `out` (see `refno_text_spec`).
pub fn push_refno(out: &mut String, refno: u64)
    ensures
        final(out)@ == old(out)@ + refno_text_spec(refno),
{
    push_decimal(out, crate::defines::refno_hi(refno) as u64);
    proof {
        reveal_strlit("_");
    }
    out.append("_");
    push_decimal(out, crate::defines::refno_lo(refno) as u64);
    proof {
        assert(out@ =~= old(out)@ + refno_text_spec(refno));
    }
}

} // verus!
