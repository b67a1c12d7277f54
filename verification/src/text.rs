//! Rendering numbers as text.

use vstd::prelude::*;
use vstd::string::*;

verus! {

/// The character of a digit below 16, in lower case.
pub open spec fn digit(d: int) -> char {
    if d < 10 {
        (48 + d) as char
    } else {
        (87 + d) as char
    }
}

/// `n` in decimal, without leading zeros.
pub open spec fn decimal(n: int) -> Seq<char>
    decreases n,
{
    if n < 10 {
        seq![digit(n)]
    } else {
        decimal(n / 10).push(digit(n % 10))
    }
}

/// The low `k` hexadecimal digits of `n`.
pub open spec fn hex_digits(n: int, k: int) -> Seq<char>
    decreases k,
{
    if k <= 0 {
        Seq::empty()
    } else {
        hex_digits(n / 16, k - 1).push(digit(n % 16))
    }
}

/// The number that decimal digits spell.
pub open spec fn spelled(t: Seq<char>) -> int
    decreases t.len(),
{
    if t.len() == 0 {
        0
    } else {
        10 * spelled(t.drop_last()) + (t.last() as int - 48)
    }
}

/// A number in decimal is made of digits, spells the number, and starts with a zero
/// only where it is one.
pub proof fn law_decimal(n: int)
    requires
        0 <= n,
    ensures
        decimal(n).len() > 0,
        forall|i: int| 0 <= i < decimal(n).len() ==> '0' <= #[trigger] decimal(n)[i] <= '9',
        spelled(decimal(n)) == n,
        decimal(n)[0] == '0' <==> n == 0,
    decreases n,
{
    if n < 10 {
        assert(decimal(n).drop_last() =~= Seq::<char>::empty());
        assert(spelled(Seq::empty()) == 0);
    } else {
        law_decimal(n / 10);
        assert(decimal(n).drop_last() =~= decimal(n / 10));
    }
}

fn digit_str(d: u32) -> (s: &'static str)
    requires
        d < 16,
    ensures
        s@ == seq![digit(d as int)],
{
    proof {
        reveal_strlit("0");
        reveal_strlit("1");
        reveal_strlit("2");
        reveal_strlit("3");
        reveal_strlit("4");
        reveal_strlit("5");
        reveal_strlit("6");
        reveal_strlit("7");
        reveal_strlit("8");
        reveal_strlit("9");
        reveal_strlit("a");
        reveal_strlit("b");
        reveal_strlit("c");
        reveal_strlit("d");
        reveal_strlit("e");
        reveal_strlit("f");
    }
    let s = match d {
        0 => "0",
        1 => "1",
        2 => "2",
        3 => "3",
        4 => "4",
        5 => "5",
        6 => "6",
        7 => "7",
        8 => "8",
        9 => "9",
        10 => "a",
        11 => "b",
        12 => "c",
        13 => "d",
        14 => "e",
        _ => "f",
    };
    assert(s@ =~= seq![digit(d as int)]);
    s
}

/// Appends `n` in decimal.
pub fn push_decimal(out: &mut String, n: u64)
    ensures
        final(out)@ == old(out)@ + decimal(n as int),
    decreases n,
{
    let ghost before = out@;
    if n >= 10 {
        push_decimal(out, n / 10);
    }
    out.append(digit_str((n % 10) as u32));
    assert(out@ =~= before + decimal(n as int));
}

/// Appends the low `k` hexadecimal digits of `n`.
pub fn push_hex(out: &mut String, n: u32, k: u32)
    ensures
        final(out)@ == old(out)@ + hex_digits(n as int, k as int),
    decreases k,
{
    let ghost before = out@;
    if k > 0 {
        push_hex(out, n / 16, k - 1);
        out.append(digit_str(n % 16));
    }
    assert(out@ =~= before + hex_digits(n as int, k as int));
}

/// `n` in hexadecimal, in lower case, without leading zeros.
pub open spec fn hex(n: int) -> Seq<char>
    decreases n,
{
    if n < 16 {
        seq![digit(n)]
    } else {
        hex(n / 16).push(digit(n % 16))
    }
}

/// Appends `n` in hexadecimal, without leading zeros.
pub fn push_bare_hex(s: &mut String, n: u32)
    ensures
        final(s)@ == old(s)@ + hex(n as int),
    decreases n,
{
    if n < 16 {
        s.append(digit_str(n));
    } else {
        push_bare_hex(s, n / 16);
        s.append(digit_str(n % 16));
        assert(old(s)@ + hex((n / 16) as int) + seq![digit((n % 16) as int)] =~= old(s)@ + hex(
            n as int,
        ));
    }
}

} // verus!
