//! Text of numbers.

use vstd::prelude::*;
use vstd::string::StringExecFns;

verus! {

/// The character for one digit in base sixteen, lower case.
pub open spec fn digit_char(d: nat) -> char {
    if d < 10 {
        (('0' as u32) + d) as char
    } else {
        (('a' as u32) + (d - 10)) as char
    }
}

/// The digits of `n` in base ten, most significant first, as many as it takes.
pub open spec fn decimal(n: nat) -> Seq<char>
    decreases n,
{
    if n < 10 {
        seq![digit_char(n)]
    } else {
        decimal(n / 10).push(digit_char(n % 10))
    }
}

/// The last `width` digits of `n` in base sixteen, most significant first.
pub open spec fn hex(n: nat, width: nat) -> Seq<char>
    decreases width,
{
    if width == 0 {
        Seq::empty()
    } else {
        hex(n / 16, (width - 1) as nat).push(digit_char(n % 16))
    }
}

/// One digit as text.
fn digit_text(d: u64) -> (text: &'static str)
    requires
        d < 16,
    ensures
        text@ == seq![digit_char(d as nat)],
{
    proof {
        reveal_strlit("0");
        reveal_strlit("1");
        reveal_strlit("2");
        reveal_strlit("3");
        reveal_strlit("4");
        reveal_strlit("5");
        reveal_strlit("6");
        reveal_strlit("7");
        reveal_strlit("8");
        reveal_strlit("9");
        reveal_strlit("a");
        reveal_strlit("b");
        reveal_strlit("c");
        reveal_strlit("d");
        reveal_strlit("e");
        reveal_strlit("f");
    }
    match d {
        0 => "0",
        1 => "1",
        2 => "2",
        3 => "3",
        4 => "4",
        5 => "5",
        6 => "6",
        7 => "7",
        8 => "8",
        9 => "9",
        10 => "a",
        11 => "b",
        12 => "c",
        13 => "d",
        14 => "e",
        _ => "f",
    }
}

/// Appends `n` in base ten.
pub fn append_decimal(out: &mut String, n: usize)
    ensures
        final(out)@ == old(out)@ + decimal(n as nat),
    decreases n,
{
    if n >= 10 {
        append_decimal(out, n / 10);
    }
    out.append(digit_text((n % 10) as u64));
}

/// Appends the last `width` digits of `n` in base sixteen, lower case.
pub fn append_hex(out: &mut String, n: u64, width: u8)
    ensures
        final(out)@ == old(out)@ + hex(n as nat, width as nat),
    decreases width,
{
    if width > 0 {
        append_hex(out, n / 16, width - 1);
        out.append(digit_text(n % 16));
    }
}

/// Law: as many digits are written as the width says.
pub proof fn lemma_hex_len(n: nat, width: nat)
    ensures
        hex(n, width).len() == width,
    decreases width,
{
    if width > 0 {
        lemma_hex_len(n / 16, (width - 1) as nat);
    }
}

/// Law: digits are told apart by their characters.
pub proof fn lemma_digit_char_injective(a: nat, b: nat)
    requires
        a < 16,
        b < 16,
        digit_char(a) == digit_char(b),
    ensures
        a == b,
{
}

/// Law: numbers that the width can hold are told apart by their digits.
pub proof fn lemma_hex_injective(a: nat, b: nat, width: nat)
    requires
        a < vstd::arithmetic::power::pow(16, width),
        b < vstd::arithmetic::power::pow(16, width),
        hex(a, width) == hex(b, width),
    ensures
        a == b,
    decreases width,
{
    reveal(vstd::arithmetic::power::pow);
    if width > 0 {
        let shorter = (width - 1) as nat;
        lemma_hex_len(a / 16, shorter);
        lemma_hex_len(b / 16, shorter);
        assert(hex(a, width).last() == digit_char(a % 16));
        assert(hex(b, width).last() == digit_char(b % 16));
        lemma_digit_char_injective(a % 16, b % 16);
        assert(hex(a, width).drop_last() =~= hex(a / 16, shorter));
        assert(hex(b, width).drop_last() =~= hex(b / 16, shorter));
        lemma_hex_injective(a / 16, b / 16, shorter);
    }
}

/// Law: a digit below ten is written as its decimal digit, and one from ten on as a small letter.
pub proof fn lemma_digit_char(d: nat)
    requires
        d < 16,
    ensures
        digit_char(d) as int == (if d < 10 {
            48 + d
        } else {
            87 + d
        }),
{
}

/// Law: a number is written in base ten by decimal digits that have it as their value, at least
/// one of them, and without a zero before them.
pub proof fn lemma_decimal_value(n: nat)
    ensures
        decimal(n).len() > 0,
        forall|i: int| 0 <= i < decimal(n).len() ==> 48 <= #[trigger] decimal(n)[i] as int <= 57,
        decimal(n).fold_left(0int, |v: int, c: char| 10 * v + (c as int - 48)) == n,
        n > 0 ==> decimal(n)[0] as int != 48,
        n == 0 ==> decimal(n).len() == 1,
    decreases n,
{
    let f = |v: int, c: char| 10 * v + (c as int - 48);
    lemma_digit_char(n % 10);
    if n >= 10 {
        lemma_decimal_value(n / 10);
        assert(decimal(n).drop_last() =~= decimal(n / 10));
        assert(decimal(n).fold_left(0int, f) == f(decimal(n / 10).fold_left(0int, f), digit_char(
            n % 10,
        )));
    } else {
        assert(decimal(n).drop_last() =~= Seq::<char>::empty());
        assert(decimal(n).drop_last().fold_left(0int, f) == 0);
    }
}

/// Law: a number is written in base sixteen by so many digits and small letters that have as
/// their value what so many digits can hold of it.
pub proof fn lemma_hex_value(n: nat, width: nat)
    ensures
        hex(n, width).len() == width,
        forall|i: int|
            0 <= i < width ==> 48 <= #[trigger] hex(n, width)[i] as int <= 57 || 97 <= hex(n, width)[
            i] as int <= 102,
        hex(n, width).fold_left(
            0int,
            |v: int, c: char|
                16 * v + (if c as int <= 57 {
                    c as int - 48
                } else {
                    c as int - 87
                }),
        ) == n as int % vstd::arithmetic::power::pow(16, width),
    decreases width,
{
    let f = |v: int, c: char|
        16 * v + (if c as int <= 57 {
            c as int - 48
        } else {
            c as int - 87
        });
    reveal(vstd::arithmetic::power::pow);
    lemma_digit_char(n % 16);
    if width > 0 {
        let shorter = (width - 1) as nat;
        lemma_hex_value(n / 16, shorter);
        assert(hex(n, width).drop_last() =~= hex(n / 16, shorter));
        let p = vstd::arithmetic::power::pow(16, shorter);
        vstd::arithmetic::power::lemma_pow_positive(16, shorter);
        assert(vstd::arithmetic::power::pow(16, width) == 16 * p);
        vstd::arithmetic::div_mod::lemma_mod_breakdown(n as int, 16, p);
        assert(hex(n, width).fold_left(0int, f) == f(hex(n / 16, shorter).fold_left(0int, f), digit_char(
            n % 16,
        )));
    } else {
        assert(hex(n, width).fold_left(0int, f) == 0);
    }
}

} // verus!
