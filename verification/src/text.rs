//! Text building blocks: decimal and hexadecimal numerals, and lists of names.

use vstd::prelude::*;

verus! {

/// The character that stands for the digit `d` in base ten or sixteen.
pub open spec fn digit_char(d: nat) -> char {
    if d == 0 {
        '0'
    } else if d == 1 {
        '1'
    } else if d == 2 {
        '2'
    } else if d == 3 {
        '3'
    } else if d == 4 {
        '4'
    } else if d == 5 {
        '5'
    } else if d == 6 {
        '6'
    } else if d == 7 {
        '7'
    } else if d == 8 {
        '8'
    } else if d == 9 {
        '9'
    } else if d == 10 {
        'a'
    } else if d == 11 {
        'b'
    } else if d == 12 {
        'c'
    } else if d == 13 {
        'd'
    } else if d == 14 {
        'e'
    } else {
        'f'
    }
}

/// Whether `c` is one of the ten decimal digits.
pub open spec fn is_decimal_digit(c: char) -> bool {
    c == '0' || c == '1' || c == '2' || c == '3' || c == '4' || c == '5' || c == '6' || c == '7'
        || c == '8' || c == '9'
}

/// The numeral of `n` in base ten, without leading zeros.
pub open spec fn decimal(n: nat) -> Seq<char>
    decreases n,
{
    if n < 10 {
        seq![digit_char(n)]
    } else {
        decimal(n / 10).push(digit_char(n % 10))
    }
}

/// The numeral of `n` in base sixteen, in lower case and without leading zeros.
pub open spec fn hexadecimal(n: nat) -> Seq<char>
    decreases n,
{
    if n < 16 {
        seq![digit_char(n)]
    } else {
        hexadecimal(n / 16).push(digit_char(n % 16))
    }
}

/// The numeral of the integer `i` in base ten, with a minus sign in front of a negative one.
pub open spec fn signed_decimal(i: int) -> Seq<char> {
    if i < 0 {
        seq!['-'] + decimal((-i) as nat)
    } else {
        decimal(i as nat)
    }
}

/// The value that a numeral in base ten stands for.
pub open spec fn decimal_value(s: Seq<char>) -> nat
    decreases s.len(),
{
    if s.len() == 0 {
        0
    } else {
        10 * decimal_value(s.drop_last()) + digit_value(s.last())
    }
}

/// The value of a decimal digit, and 0 for any other character.
pub open spec fn digit_value(c: char) -> nat {
    if c == '1' {
        1
    } else if c == '2' {
        2
    } else if c == '3' {
        3
    } else if c == '4' {
        4
    } else if c == '5' {
        5
    } else if c == '6' {
        6
    } else if c == '7' {
        7
    } else if c == '8' {
        8
    } else if c == '9' {
        9
    } else {
        0
    }
}

/// A numeral in base ten is made of decimal digits and is not empty.
pub proof fn lemma_decimal_digits(n: nat)
    ensures
        decimal(n).len() >= 1,
        forall|i: int| 0 <= i < decimal(n).len() ==> is_decimal_digit(#[trigger] decimal(n)[i]),
    decreases n,
{
    if n >= 10 {
        lemma_decimal_digits(n / 10);
    }
}

/// Reading a numeral in base ten gives the number back.
pub proof fn lemma_decimal_value(n: nat)
    ensures
        decimal_value(decimal(n)) == n,
    decreases n,
{
    if n < 10 {
        let s = decimal(n);
        assert(s.drop_last().len() == 0);
        assert(decimal_value(s.drop_last()) == 0);
        assert(s.last() == digit_char(n));
    } else {
        lemma_decimal_value(n / 10);
        let s = decimal(n);
        lemma_decimal_digits(n / 10);
        assert(s.drop_last() =~= decimal(n / 10));
        assert(s.last() == digit_char(n % 10));
    }
}

/// Two numbers with the same numeral in base ten are equal.
pub proof fn lemma_decimal_injective(a: nat, b: nat)
    requires
        decimal(a) == decimal(b),
    ensures
        a == b,
{
    lemma_decimal_value(a);
    lemma_decimal_value(b);
}

fn digit_str(d: u64) -> (r: &'static str)
    requires
        d < 16,
    ensures
        r@ == seq![digit_char(d as nat)],
{
    proof {
        reveal_strlit("0");
        reveal_strlit("1");
        reveal_strlit("2");
        reveal_strlit("3");
        reveal_strlit("4");
        reveal_strlit("5");
        reveal_strlit("6");
        reveal_strlit("7");
        reveal_strlit("8");
        reveal_strlit("9");
        reveal_strlit("a");
        reveal_strlit("b");
        reveal_strlit("c");
        reveal_strlit("d");
        reveal_strlit("e");
        reveal_strlit("f");
    }
    let r: &'static str = if d == 0 {
        "0"
    } else if d == 1 {
        "1"
    } else if d == 2 {
        "2"
    } else if d == 3 {
        "3"
    } else if d == 4 {
        "4"
    } else if d == 5 {
        "5"
    } else if d == 6 {
        "6"
    } else if d == 7 {
        "7"
    } else if d == 8 {
        "8"
    } else if d == 9 {
        "9"
    } else if d == 10 {
        "a"
    } else if d == 11 {
        "b"
    } else if d == 12 {
        "c"
    } else if d == 13 {
        "d"
    } else if d == 14 {
        "e"
    } else {
        "f"
    };
    assert(r@ =~= seq![digit_char(d as nat)]);
    r
}

/// Appends the numeral of `n` in base ten to `out`.
pub fn push_decimal(out: &mut String, n: u64)
    ensures
        final(out)@ == old(out)@ + decimal(n as nat),
    decreases n,
{
    if n >= 10 {
        push_decimal(out, n / 10);
    }
    out.append(digit_str(n % 10));
    assert(final(out)@ =~= old(out)@ + decimal(n as nat));
}

/// Appends the numeral of `n` in base sixteen to `out`.
pub fn push_hexadecimal(out: &mut String, n: u64)
    ensures
        final(out)@ == old(out)@ + hexadecimal(n as nat),
    decreases n,
{
    if n >= 16 {
        push_hexadecimal(out, n / 16);
    }
    out.append(digit_str(n % 16));
    proof {
        assert(final(out)@ =~= old(out)@ + hexadecimal(n as nat));
    }
}

/// Appends the numeral of `i` in base ten to `out`, with its sign.
pub fn push_signed_decimal(out: &mut String, i: i64)
    ensures
        final(out)@ == old(out)@ + signed_decimal(i as int),
{
    if i < 0 {
        proof {
            reveal_strlit("-");
        }
        out.append("-");
        let magnitude: u64 = if i == i64::MIN {
            0x8000_0000_0000_0000u64
        } else {
            (-i) as u64
        };
        push_decimal(out, magnitude);
        proof {
            assert("-"@ =~= seq!['-']);
            assert(final(out)@ =~= old(out)@ + signed_decimal(i as int));
        }
    } else {
        push_decimal(out, i as u64);
    }
}

/// The numeral of `n` in base ten.
pub fn decimal_string(n: u64) -> (r: String)
    ensures
        r@ == decimal(n as nat),
{
    let mut out: String = String::new();
    push_decimal(&mut out, n);
    assert(out@ =~= decimal(n as nat));
    out
}

/// `head` followed by `tail`, as a new string.
pub fn joined(head: &str, tail: &str) -> (r: String)
    ensures
        r@ == head@ + tail@,
{
    let mut out: String = String::from_str(head);
    out.append(tail);
    out
}

/// `head` followed by the numeral of `n` in base ten.
pub fn with_number(head: &str, n: u64) -> (r: String)
    ensures
        r@ == head@ + decimal(n as nat),
{
    let mut out: String = String::from_str(head);
    push_decimal(&mut out, n);
    out
}

/// The name `x` with the number `t` as its suffix, after a `#`.
pub open spec fn fresh_name(x: Seq<char>, t: u32) -> Seq<char> {
    x + "#"@ + decimal(t as nat)
}

/// A name with a number as suffix tells both the name and the number.
pub proof fn lemma_fresh_name_injective(x1: Seq<char>, t1: u32, x2: Seq<char>, t2: u32)
    requires
        fresh_name(x1, t1) == fresh_name(x2, t2),
    ensures
        x1 == x2,
        t1 == t2,
{
    reveal_strlit("#");
    let d1 = decimal(t1 as nat);
    let d2 = decimal(t2 as nat);
    let s1 = fresh_name(x1, t1);
    let s2 = fresh_name(x2, t2);
    lemma_decimal_digits(t1 as nat);
    lemma_decimal_digits(t2 as nat);
    let n = s1.len() as int;
    assert(n == x1.len() + 1 + d1.len());
    assert(n == x2.len() + 1 + d2.len());
    assert(s1[x1.len() as int] == '#');
    assert(s2[x2.len() as int] == '#');
    if d1.len() < d2.len() {
        let i = x1.len() as int;
        assert(i > x2.len());
        assert(s2[i] == d2[i - x2.len() - 1]);
        assert(is_decimal_digit(d2[i - x2.len() - 1]));
        assert(false);
    }
    if d2.len() < d1.len() {
        let i = x2.len() as int;
        assert(i > x1.len());
        assert(s1[i] == d1[i - x1.len() - 1]);
        assert(is_decimal_digit(d1[i - x1.len() - 1]));
        assert(false);
    }
    assert(x1.len() == x2.len());
    assert forall|i: int| 0 <= i < x1.len() implies x1[i] == x2[i] by {
        assert(s1[i] == x1[i]);
        assert(s2[i] == x2[i]);
    }
    assert(x1 =~= x2);
    assert forall|i: int| 0 <= i < d1.len() implies d1[i] == d2[i] by {
        assert(s1[x1.len() + 1 + i] == d1[i]);
        assert(s2[x2.len() + 1 + i] == d2[i]);
    }
    assert(d1 =~= d2);
    lemma_decimal_injective(t1 as nat, t2 as nat);
}
} // verus!
