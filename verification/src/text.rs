//! Numbers in the wording of error messages.
use vstd::prelude::*;
use vstd::string::*;

verus! {

/// The digit that stands for `d` in hexadecimal and, below ten, in decimal.
pub open spec fn digit_char(d: nat) -> char {
    if d == 0 {
        '0'
    } else if d == 1 {
        '1'
    } else if d == 2 {
        '2'
    } else if d == 3 {
        '3'
    } else if d == 4 {
        '4'
    } else if d == 5 {
        '5'
    } else if d == 6 {
        '6'
    } else if d == 7 {
        '7'
    } else if d == 8 {
        '8'
    } else if d == 9 {
        '9'
    } else if d == 10 {
        'a'
    } else if d == 11 {
        'b'
    } else if d == 12 {
        'c'
    } else if d == 13 {
        'd'
    } else if d == 14 {
        'e'
    } else {
        'f'
    }
}

/// The decimal digits of a number, without leading zeros.
pub open spec fn decimal(n: nat) -> Seq<char>
    decreases n,
{
    if n < 10 {
        seq![digit_char(n)]
    } else {
        decimal(n / 10).push(digit_char(n % 10))
    }
}

/// The last `width` hexadecimal digits of a number.
pub open spec fn hexadecimal(n: nat, width: nat) -> Seq<char>
    decreases width,
{
    if width == 0 {
        Seq::empty()
    } else {
        hexadecimal(n / 16, (width - 1) as nat).push(digit_char(n % 16))
    }
}

fn digit(d: u8) -> (s: &'static str)
    requires
        d < 16,
    ensures
        s@ == seq![digit_char(d as nat)],
{
    proof {
        reveal_strlit("0");
        reveal_strlit("1");
        reveal_strlit("2");
        reveal_strlit("3");
        reveal_strlit("4");
        reveal_strlit("5");
        reveal_strlit("6");
        reveal_strlit("7");
        reveal_strlit("8");
        reveal_strlit("9");
        reveal_strlit("a");
        reveal_strlit("b");
        reveal_strlit("c");
        reveal_strlit("d");
        reveal_strlit("e");
        reveal_strlit("f");
    }
    let s: &'static str = match d {
        0 => "0",
        1 => "1",
        2 => "2",
        3 => "3",
        4 => "4",
        5 => "5",
        6 => "6",
        7 => "7",
        8 => "8",
        9 => "9",
        10 => "a",
        11 => "b",
        12 => "c",
        13 => "d",
        14 => "e",
        _ => "f",
    };
    assert(s@ =~= seq![digit_char(d as nat)]);
    s
}

/// Appends a number in decimal.
pub(crate) fn push_decimal(out: &mut String, n: u64)
    ensures
        final(out)@ == old(out)@ + decimal(n as nat),
    decreases n,
{
    let ghost before = out@;
    if n >= 10 {
        push_decimal(out, n / 10);
    }
    out.append(digit((n % 10) as u8));
    assert(out@ =~= before + decimal(n as nat));
}

/// Appends the last `width` hexadecimal digits of a number.
pub(crate) fn push_hexadecimal(out: &mut String, n: u64, width: usize)
    ensures
        final(out)@ == old(out)@ + hexadecimal(n as nat, width as nat),
    decreases width,
{
    let ghost before = out@;
    if width > 0 {
        push_hexadecimal(out, n / 16, width - 1);
        out.append(digit((n % 16) as u8));
    }
    assert(out@ =~= before + hexadecimal(n as nat, width as nat));
}

/// Digits are written as in ASCII: from `0` on, and above nine from `a` on.
pub proof fn law_digit_char(d: nat)
    requires
        d < 16,
    ensures
        digit_char(d) as int == if d < 10 {
            48 + d
        } else {
            87 + d
        },
{
}

/// The number that decimal digits stand for.
pub open spec fn decimal_value(s: Seq<char>) -> int
    decreases s.len(),
{
    if s.len() == 0 {
        0
    } else {
        10 * decimal_value(s.drop_last()) + (s.last() as int - 48)
    }
}

/// A number in decimal is nothing but decimal digits that stand for the number, without zeros in
/// front.
pub proof fn law_decimal(n: nat)
    ensures
        decimal(n).len() > 0,
        forall|i: int| 0 <= i < decimal(n).len() ==> 48 <= (#[trigger] decimal(n)[i]) as int <= 57,
        decimal_value(decimal(n)) == n,
        decimal(n).len() > 1 ==> decimal(n)[0] as int != 48,
        n > 0 ==> decimal(n)[0] as int != 48,
    decreases n,
{
    let s = decimal(n);
    law_digit_char(n % 10);
    if n >= 10 {
        law_decimal(n / 10);
        assert(s.drop_last() =~= decimal(n / 10));
    } else {
        assert(s.drop_last() =~= Seq::<char>::empty());
        assert(decimal_value(s.drop_last()) == 0);
    }
}

/// The number that hexadecimal digits stand for.
pub open spec fn hexadecimal_value(s: Seq<char>) -> int
    decreases s.len(),
{
    if s.len() == 0 {
        0
    } else {
        let c = s.last() as int;
        16 * hexadecimal_value(s.drop_last()) + if c < 58 {
            c - 48
        } else {
            c - 87
        }
    }
}

/// How many numbers `width` hexadecimal digits can stand for.
pub open spec fn hexadecimal_range(width: nat) -> nat
    decreases width,
{
    if width == 0 {
        1
    } else {
        16 * hexadecimal_range((width - 1) as nat)
    }
}

/// A number in hexadecimal is as many digits as asked for, which stand for the number if they
/// are enough for it.
pub proof fn law_hexadecimal(n: nat, width: nat)
    ensures
        hexadecimal(n, width).len() == width,
        n < hexadecimal_range(width) ==> hexadecimal_value(hexadecimal(n, width)) == n,
        hexadecimal_range(16) == 0x1_0000_0000_0000_0000,
    decreases width,
{
    let s = hexadecimal(n, width);
    if width > 0 {
        law_digit_char(n % 16);
        law_hexadecimal(n / 16, (width - 1) as nat);
        assert(s.drop_last() =~= hexadecimal(n / 16, (width - 1) as nat));
    }
    reveal_with_fuel(hexadecimal_range, 17);
}

} // verus!
