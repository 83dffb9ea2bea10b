//! Numbers as text: the digits that names and descriptions are made of.

use vstd::prelude::*;
use vstd::string::StringExecFns;

verus! {

/// The digit of `n` in a base of at most sixteen.
pub open spec fn digit_char(n: int) -> char {
    if n == 0 {
        '0'
    } else if n == 1 {
        '1'
    } else if n == 2 {
        '2'
    } else if n == 3 {
        '3'
    } else if n == 4 {
        '4'
    } else if n == 5 {
        '5'
    } else if n == 6 {
        '6'
    } else if n == 7 {
        '7'
    } else if n == 8 {
        '8'
    } else if n == 9 {
        '9'
    } else if n == 10 {
        'a'
    } else if n == 11 {
        'b'
    } else if n == 12 {
        'c'
    } else if n == 13 {
        'd'
    } else if n == 14 {
        'e'
    } else {
        'f'
    }
}

/// The sixteen hexadecimal digits of `v`, most significant first.
pub open spec fn hex16(v: u64) -> Seq<char> {
    Seq::new(16, |i: int| digit_char(((v >> ((60 - 4 * i) as u64)) & 0xf) as int))
}

/// The decimal digits of `v`, most significant first, without leading
/// zeros.
pub open spec fn decimal(v: nat) -> Seq<char>
    decreases v,
{
    if v < 10 {
        seq![digit_char(v as int)]
    } else {
        decimal(v / 10).push(digit_char((v % 10) as int))
    }
}

/// The digit of `n`, as a string.
pub fn digit(n: u64) -> (digit: &'static str)
    requires
        n < 16,
    ensures
        digit@ == seq![digit_char(n as int)],
{
    proof {
        reveal_strlit("0");
        reveal_strlit("1");
        reveal_strlit("2");
        reveal_strlit("3");
        reveal_strlit("4");
        reveal_strlit("5");
        reveal_strlit("6");
        reveal_strlit("7");
        reveal_strlit("8");
        reveal_strlit("9");
        reveal_strlit("a");
        reveal_strlit("b");
        reveal_strlit("c");
        reveal_strlit("d");
        reveal_strlit("e");
        reveal_strlit("f");
    }
    let digit = if n == 0 {
        "0"
    } else if n == 1 {
        "1"
    } else if n == 2 {
        "2"
    } else if n == 3 {
        "3"
    } else if n == 4 {
        "4"
    } else if n == 5 {
        "5"
    } else if n == 6 {
        "6"
    } else if n == 7 {
        "7"
    } else if n == 8 {
        "8"
    } else if n == 9 {
        "9"
    } else if n == 10 {
        "a"
    } else if n == 11 {
        "b"
    } else if n == 12 {
        "c"
    } else if n == 13 {
        "d"
    } else if n == 14 {
        "e"
    } else {
        "f"
    };
    assert(digit@ =~= seq![digit_char(n as int)]);
    digit
}

/// Appends the sixteen hexadecimal digits of `v` to `out`.
pub fn push_hex16(out: &mut String, v: u64)
    ensures
        final(out)@ == old(out)@ + hex16(v),
{
    let mut i: u64 = 0;
    while i < 16
        invariant
            0 <= i <= 16,
            out@ == old(out)@ + hex16(v).subrange(0, i as int),
        decreases 16 - i,
    {
        let shift = 60 - 4 * i;
        let nibble = (v >> shift) & 0xf;
        assert(nibble < 16) by (bit_vector)
            requires
                nibble == (v >> shift) & 0xf,
        ;
        let d = digit(nibble);
        out.append(d);
        proof {
            assert(hex16(v)[i as int] == digit_char(nibble as int));
            assert(hex16(v).subrange(0, i + 1) =~= hex16(v).subrange(0, i as int).push(
                hex16(v)[i as int],
            ));
            assert(out@ =~= old(out)@ + hex16(v).subrange(0, i + 1));
        }
        i += 1;
    }
    proof {
        assert(hex16(v).subrange(0, 16) =~= hex16(v));
    }
}

/// Appends the decimal digits of `v` to `out`.
pub fn push_decimal(out: &mut String, v: u64)
    ensures
        final(out)@ == old(out)@ + decimal(v as nat),
    decreases v,
{
    if v >= 10 {
        push_decimal(out, v / 10);
    }
    let d = digit(v % 10);
    out.append(d);
    proof {
        if v >= 10 {
            assert(out@ =~= old(out)@ + decimal((v / 10) as nat).push(digit_char((v % 10) as int)));
        } else {
            assert(out@ =~= old(out)@ + seq![digit_char(v as int)]);
        }
    }
}

} // verus!
