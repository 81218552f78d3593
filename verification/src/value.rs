//! Tagged values as the generated code holds them, and their text.

use vstd::prelude::*;
use crate::check::{MAX_SNAKE_INT, MIN_SNAKE_INT};
use crate::codegen::{
    ARITH_ERROR, CMP_ERROR, IF_ERROR, LOGIC_ERROR, OVFL_ERROR, SNAKE_FALSE, SNAKE_TRUE, tagged_int,
};
use crate::text::{hexadecimal, push_hexadecimal, push_signed_decimal, signed_decimal};

verus! {

/// A value of a running program: a number shifted left by one bit, or a boolean, whose
/// lowest bit is 1.
#[derive(Clone, Copy, Debug, PartialEq, Eq, Structural)]
pub struct SnakeVal(pub u64);

/// The number that the 64 bits of `x` stand for in two's complement.
pub open spec fn signed_of(x: u64) -> int {
    if x < 0x8000_0000_0000_0000 {
        x as int
    } else {
        x as int - 0x1_0000_0000_0000_0000
    }
}

/// The 64 bits that stand for the signed number `i` in two's complement.
pub open spec fn bits_of(i: i64) -> u64 {
    if i >= 0 {
        i as u64
    } else {
        (i + 0x1_0000_0000_0000_0000) as u64
    }
}

/// The text of the value with the bits `x`: the number, `true` or `false`, or else a
/// note that the bits are no value.
pub open spec fn snake_text(x: u64) -> Seq<char> {
    if x % 2 == 0 {
        signed_decimal(signed_of(x) / 2)
    } else if x == SNAKE_TRUE {
        "true"@
    } else if x == SNAKE_FALSE {
        "false"@
    } else {
        "Invalid snake value 0x"@ + hexadecimal(x as nat)
    }
}

/// The message of the run-time error with the code `err_code`, raised on the value
/// with the bits `x`.
pub open spec fn error_text(err_code: u64, x: u64) -> Seq<char> {
    if err_code == ARITH_ERROR {
        "arithmetic expected a number but got a boolean "@ + snake_text(x)
    } else if err_code == CMP_ERROR {
        "comparison expected a number but got a boolean "@ + snake_text(x)
    } else if err_code == IF_ERROR {
        "if expected a boolean but got a number "@ + snake_text(x)
    } else if err_code == LOGIC_ERROR {
        "logic expected a boolean but got a number "@ + snake_text(x)
    } else if err_code == OVFL_ERROR {
        "overflow"@
    } else {
        "I apologize to you, dear user. I made a bug. Here's a snake value: "@ + snake_text(x)
    }
}

/// Reads the bits of an unsigned number as a signed one.
pub fn unsigned_to_signed(x: u64) -> (r: i64)
    ensures
        r as int == signed_of(x),
{
    if x < 0x8000_0000_0000_0000 {
        x as i64
    } else {
        ((x - 0x8000_0000_0000_0000) as i64) + i64::MIN
    }
}

/// The text of a value.
pub fn sprint_snake_val(x: SnakeVal) -> (r: String)
    ensures
        r@ == snake_text(x.0),
{
    let bits: u64 = x.0;
    assert((bits & 1 == 0) == (bits % 2 == 0)) by (bit_vector);
    if bits & 1 == 0 {
        let signed: i64 = unsigned_to_signed(bits);
        let half: i64 = signed >> 1;
        assert(signed >> 1 == signed / 2) by (bit_vector);
        let mut out: String = String::new();
        push_signed_decimal(&mut out, half);
        assert(out@ =~= snake_text(bits));
        out
    } else if bits == SNAKE_TRUE {
        String::from_str("true")
    } else if bits == SNAKE_FALSE {
        String::from_str("false")
    } else {
        let mut out: String = String::from_str("Invalid snake value 0x");
        push_hexadecimal(&mut out, bits);
        out
    }
}

/// The message of a run-time error.
pub fn snake_error_message(err_code: u64, v: SnakeVal) -> (r: String)
    ensures
        r@ == error_text(err_code, v.0),
{
    let head: &str = if err_code == ARITH_ERROR {
        "arithmetic expected a number but got a boolean "
    } else if err_code == CMP_ERROR {
        "comparison expected a number but got a boolean "
    } else if err_code == IF_ERROR {
        "if expected a boolean but got a number "
    } else if err_code == LOGIC_ERROR {
        "logic expected a boolean but got a number "
    } else if err_code == OVFL_ERROR {
        return String::from_str("overflow");
    } else {
        "I apologize to you, dear user. I made a bug. Here's a snake value: "
    };
    let mut out: String = String::from_str(head);
    let text: String = sprint_snake_val(v);
    out.append(text.as_str());
    out
}

/// The bits of a number in range, as the generated code holds them, are twice the
/// number.
pub proof fn lemma_tagged_int(n: i64)
    requires
        MIN_SNAKE_INT <= n <= MAX_SNAKE_INT,
    ensures
        tagged_int(n) as int == 2 * n,
{
    assert(-0x4000_0000_0000_0000 <= n <= 0x3FFF_FFFF_FFFF_FFFF ==> (n << 1) == 2 * n)
        by (bit_vector);
}

/// Writing a number in range as a tagged value and reading the value's text gives the
/// numeral of the number.
pub proof fn lemma_number_round_trip(n: i64)
    requires
        MIN_SNAKE_INT <= n <= MAX_SNAKE_INT,
    ensures
        snake_text(bits_of(tagged_int(n))) == signed_decimal(n as int),
{
    lemma_tagged_int(n);
    let bits = bits_of(tagged_int(n));
    assert(signed_of(bits) == 2 * n);
    assert(bits % 2 == 0) by {
        if n >= 0 {
            assert(bits == 2 * n);
        } else {
            assert(bits == 0x1_0000_0000_0000_0000 + 2 * n);
        }
    }
}

/// The two booleans are values whose text is `true` and `false`.
pub proof fn lemma_boolean_text()
    ensures
        snake_text(SNAKE_TRUE) == "true"@,
        snake_text(SNAKE_FALSE) == "false"@,
{
}

/// The message of an overflow is `overflow`, whatever the value; the message of
/// every other error of a check names what was expected and ends with the text of
/// the value that was found.
pub proof fn lemma_error_messages(x: u64)
    ensures
        error_text(OVFL_ERROR, x) == "overflow"@,
        error_text(ARITH_ERROR, x) == "arithmetic expected a number but got a boolean "@
            + snake_text(x),
        error_text(CMP_ERROR, x) == "comparison expected a number but got a boolean "@ + snake_text(
            x,
        ),
        error_text(IF_ERROR, x) == "if expected a boolean but got a number "@ + snake_text(x),
        error_text(LOGIC_ERROR, x) == "logic expected a boolean but got a number "@ + snake_text(x),
{
}

/// Whether `n` is a number that a program can hold.
pub open spec fn in_range(n: int) -> bool {
    MIN_SNAKE_INT <= n <= MAX_SNAKE_INT
}

/// Whether `i` is the value of a signed number of 64 bits; an instruction whose
/// exact result is none sets the overflow flag.
pub open spec fn fits_word(i: int) -> bool {
    -0x8000_0000_0000_0000 <= i <= 0x7FFF_FFFF_FFFF_FFFF
}

/// Adding or subtracting two tagged numbers, as the code of `Add`, `Sub`, `Add1` and
/// `Sub1` does, gives the tagged sum or difference, and overflows exactly where the
/// sum or difference is no number that a program can hold.
pub proof fn lemma_tagged_sum(a: int, b: int)
    requires
        in_range(a),
        in_range(b),
    ensures
        2 * a + 2 * b == 2 * (a + b),
        2 * a - 2 * b == 2 * (a - b),
        fits_word(2 * a + 2 * b) <==> in_range(a + b),
        fits_word(2 * a - 2 * b) <==> in_range(a - b),
        fits_word(2 * a + 2) <==> in_range(a + 1),
        fits_word(2 * a - 2) <==> in_range(a - 1),
{
}

/// Multiplying a tagged number that was shifted right by one bit with a tagged
/// number, as the code of `Mul` does, gives the tagged product, and overflows
/// exactly where the product is no number that a program can hold.
pub proof fn lemma_tagged_product(a: int, b: int)
    requires
        in_range(a),
        in_range(b),
    ensures
        (2 * a) / 2 == a,
        a * (2 * b) == 2 * (a * b),
        fits_word(a * (2 * b)) <==> in_range(a * b),
{
    assert(a * (2 * b) == 2 * (a * b)) by (nonlinear_arith);
}

/// The lowest bit of a tagged number is 0, that of a boolean is 1, and the two
/// booleans differ in the highest bit alone: what the checks of the kind of a
/// value, `Not`, `IsNum` and `IsBool` rest on.
pub proof fn lemma_tag_bits(n: i64)
    ensures
        SNAKE_TRUE & 1 == 1,
        SNAKE_FALSE & 1 == 1,
        SNAKE_TRUE ^ 0x8000_0000_0000_0000 == SNAKE_FALSE,
        SNAKE_FALSE ^ 0x8000_0000_0000_0000 == SNAKE_TRUE,
        SNAKE_TRUE & SNAKE_FALSE == SNAKE_FALSE,
        SNAKE_TRUE | SNAKE_FALSE == SNAKE_TRUE,
        ((SNAKE_TRUE & 1) << 63) ^ SNAKE_TRUE == SNAKE_FALSE,
        ((SNAKE_FALSE & 1) << 63) | SNAKE_FALSE == SNAKE_TRUE,
        tagged_int(n) & 1 == 0,
{
    assert(0xFFFF_FFFF_FFFF_FFFFu64 & 1 == 1) by (bit_vector);
    assert(0x7FFF_FFFF_FFFF_FFFFu64 & 1 == 1) by (bit_vector);
    assert(0xFFFF_FFFF_FFFF_FFFFu64 ^ 0x8000_0000_0000_0000 == 0x7FFF_FFFF_FFFF_FFFFu64)
        by (bit_vector);
    assert(0x7FFF_FFFF_FFFF_FFFFu64 ^ 0x8000_0000_0000_0000 == 0xFFFF_FFFF_FFFF_FFFFu64)
        by (bit_vector);
    assert(0xFFFF_FFFF_FFFF_FFFFu64 & 0x7FFF_FFFF_FFFF_FFFFu64 == 0x7FFF_FFFF_FFFF_FFFFu64)
        by (bit_vector);
    assert(0xFFFF_FFFF_FFFF_FFFFu64 | 0x7FFF_FFFF_FFFF_FFFFu64 == 0xFFFF_FFFF_FFFF_FFFFu64)
        by (bit_vector);
    assert(((0xFFFF_FFFF_FFFF_FFFFu64 & 1) << 63) ^ 0xFFFF_FFFF_FFFF_FFFFu64
        == 0x7FFF_FFFF_FFFF_FFFFu64) by (bit_vector);
    assert(((0x7FFF_FFFF_FFFF_FFFFu64 & 1) << 63) | 0x7FFF_FFFF_FFFF_FFFFu64
        == 0xFFFF_FFFF_FFFF_FFFFu64) by (bit_vector);
    assert((n << 1) & 1 == 0) by (bit_vector);
}

/// What `IsNum` and `IsBool` compute from the bits `x` of a value: `IsNum` gives
/// `true` for a number and `false` for a boolean, `IsBool` the other way round.
pub proof fn lemma_kind_bits(x: u64)
    ensures
        x & 1 == 0 ==> ((x & 1) << 63) ^ SNAKE_TRUE == SNAKE_TRUE,
        x & 1 == 1 ==> ((x & 1) << 63) ^ SNAKE_TRUE == SNAKE_FALSE,
        x & 1 == 0 ==> ((x & 1) << 63) | SNAKE_FALSE == SNAKE_FALSE,
        x & 1 == 1 ==> ((x & 1) << 63) | SNAKE_FALSE == SNAKE_TRUE,
        x & 1 == 0 || x & 1 == 1,
{
    assert(x & 1 == 0 ==> ((x & 1) << 63) ^ 0xFFFF_FFFF_FFFF_FFFFu64 == 0xFFFF_FFFF_FFFF_FFFFu64)
        by (bit_vector);
    assert(x & 1 == 1 ==> ((x & 1) << 63) ^ 0xFFFF_FFFF_FFFF_FFFFu64 == 0x7FFF_FFFF_FFFF_FFFFu64)
        by (bit_vector);
    assert(x & 1 == 0 ==> ((x & 1) << 63) | 0x7FFF_FFFF_FFFF_FFFFu64 == 0x7FFF_FFFF_FFFF_FFFFu64)
        by (bit_vector);
    assert(x & 1 == 1 ==> ((x & 1) << 63) | 0x7FFF_FFFF_FFFF_FFFFu64 == 0xFFFF_FFFF_FFFF_FFFFu64)
        by (bit_vector);
    assert(x & 1 == 0 || x & 1 == 1) by (bit_vector);
}

} // verus!
