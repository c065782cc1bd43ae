//! Decimal rendering of the integers that appear in the emitted files: rank
//! lists and PU ranges.

use vstd::prelude::*;

verus! {

/// The digit character of a value below ten.
pub open spec fn digit_char_of(d: int) -> char {
    if d == 0 {
        '0'
    } else if d == 1 {
        '1'
    } else if d == 2 {
        '2'
    } else if d == 3 {
        '3'
    } else if d == 4 {
        '4'
    } else if d == 5 {
        '5'
    } else if d == 6 {
        '6'
    } else if d == 7 {
        '7'
    } else if d == 8 {
        '8'
    } else {
        '9'
    }
}

/// The decimal rendering of a non-negative value, most significant digit
/// first, without leading zeroes.
pub open spec fn dec_of(n: int) -> Seq<char>
    decreases n,
{
    if n < 10 {
        seq![digit_char_of(n)]
    } else {
        dec_of(n / 10).push(digit_char_of(n % 10))
    }
}

/// The decimal rendering of a signed value: a minus sign ahead of the
/// magnitude when negative.
pub open spec fn dec_of_i64(v: int) -> Seq<char> {
    if v < 0 {
        seq!['-'] + dec_of(-v)
    } else {
        dec_of(v)
    }
}

/// Append the decimal rendering of `n`.
pub fn push_u64_dec(s: &mut String, n: u64)
    ensures
        final(s)@ == old(s)@ + dec_of(n as int),
    decreases n,
{
    if n >= 10 {
        push_u64_dec(s, n / 10);
    }
    let d: u64 = n % 10;
    let lit: &str = if d == 0 {
        "0"
    } else if d == 1 {
        "1"
    } else if d == 2 {
        "2"
    } else if d == 3 {
        "3"
    } else if d == 4 {
        "4"
    } else if d == 5 {
        "5"
    } else if d == 6 {
        "6"
    } else if d == 7 {
        "7"
    } else if d == 8 {
        "8"
    } else {
        "9"
    };
    proof {
        reveal_strlit("0");
        reveal_strlit("1");
        reveal_strlit("2");
        reveal_strlit("3");
        reveal_strlit("4");
        reveal_strlit("5");
        reveal_strlit("6");
        reveal_strlit("7");
        reveal_strlit("8");
        reveal_strlit("9");
        assert(lit@ =~= seq![digit_char_of(d as int)]);
    }
    s.append(lit);
    proof {
        assert(s@ =~= old(s)@ + dec_of(n as int));
    }
}

/// The decimal rendering of an unsigned value.
pub fn u64_to_dec(n: u64) -> (r: String)
    ensures
        r@ == dec_of(n as int),
{
    let mut s: String = String::new();
    push_u64_dec(&mut s, n);
    proof {
        assert(s@ =~= dec_of(n as int));
    }
    s
}

/// Append the decimal rendering of a signed value.
pub fn push_i32_dec(s: &mut String, v: i32)
    ensures
        final(s)@ == old(s)@ + dec_of_i64(v as int),
{
    if v < 0 {
        proof {
            reveal_strlit("-");
        }
        s.append("-");
        let m: u64 = (-(v as i64)) as u64;
        proof {
            assert(m as int == -(v as int));
        }
        push_u64_dec(s, m);
        proof {
            assert(s@ =~= old(s)@ + dec_of_i64(v as int));
        }
    } else {
        push_u64_dec(s, v as u64);
    }
}

} // verus!
