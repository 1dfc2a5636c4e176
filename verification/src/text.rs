//! Decimal and hexadecimal numbers, and byte sequences built from text.
use vstd::prelude::*;

verus! {

/// The ASCII code of a decimal or lower-case hexadecimal digit.
pub open spec fn digit_code(digit: int) -> u8 {
    if digit < 10 { (48 + digit) as u8 } else { (87 + digit) as u8 }
}

/// Decimal digits of a number as ASCII codes, without leading zeroes.
pub open spec fn decimal_ascii(number: nat) -> Seq<u8>
    decreases number,
{
    if number < 10 {
        seq![digit_code(number as int)]
    } else {
        decimal_ascii(number / 10).push(digit_code((number % 10) as int))
    }
}

/// The last `width` lower-case hexadecimal digits of a number as ASCII codes.
pub open spec fn hex_ascii(number: nat, width: nat) -> Seq<u8>
    decreases width,
{
    if width == 0 {
        Seq::empty()
    } else {
        hex_ascii(number / 16, (width - 1) as nat).push(digit_code((number % 16) as int))
    }
}

/// Decimal digits of a number as characters, without leading zeroes.
pub open spec fn decimal_text(number: nat) -> Seq<char> {
    decimal_ascii(number).map_values(|code: u8| code as char)
}

/// A decimal number has a digit, and nothing but digits.
pub proof fn lemma_decimal_digits(number: nat)
    ensures
        decimal_ascii(number).len() > 0,
        forall|i: int|
            0 <= i < decimal_ascii(number).len() ==> 48 <= #[trigger] decimal_ascii(number)[i] < 58,
    decreases number,
{
    if number >= 10 {
        lemma_decimal_digits(number / 10);
    }
}

/// Numbers with the same digits are equal.
pub proof fn lemma_decimal_tells_apart(left: nat, right: nat)
    requires
        decimal_ascii(left) == decimal_ascii(right),
    ensures
        left == right,
    decreases left,
{
    lemma_decimal_digits(left / 10);
    lemma_decimal_digits(right / 10);
    let (lefts, rights) = (decimal_ascii(left), decimal_ascii(right));
    if left >= 10 && right >= 10 {
        assert(lefts.drop_last() =~= decimal_ascii(left / 10));
        assert(rights.drop_last() =~= decimal_ascii(right / 10));
        lemma_decimal_tells_apart(left / 10, right / 10);
        assert(lefts.last() == rights.last());
    } else {
        assert(lefts.len() == rights.len());
        assert(lefts[0] == rights[0]);
    }
}

/// A number below ten thousand million has at most ten digits.
pub proof fn lemma_decimal_length(number: nat)
    requires
        number < 10000000000,
    ensures
        decimal_ascii(number).len() <= 10,
{
    reveal_with_fuel(decimal_ascii, 11);
}

/// Appends the decimal digits of a number.
pub fn push_decimal(output: &mut Vec<u8>, number: u64)
    ensures
        final(output)@ == old(output)@ + decimal_ascii(number as nat),
    decreases number,
{
    if number < 10 {
        output.push(48 + number as u8);
        assert(output@ =~= old(output)@ + decimal_ascii(number as nat));
    } else {
        push_decimal(output, number / 10);
        output.push(48 + (number % 10) as u8);
        assert(output@ =~= old(output)@ + decimal_ascii(number as nat));
    }
}

/// Appends the last `width` lower-case hexadecimal digits of a number.
pub fn push_hex(output: &mut Vec<u8>, number: u64, width: u32)
    ensures
        final(output)@ == old(output)@ + hex_ascii(number as nat, width as nat),
    decreases width,
{
    if width == 0 {
        assert(output@ =~= old(output)@ + hex_ascii(number as nat, 0));
        return;
    }
    push_hex(output, number / 16, width - 1);
    let digit: u8 = (number % 16) as u8;
    output.push(if digit < 10 { 48 + digit } else { 87 + digit });
    assert(output@ =~= old(output)@ + hex_ascii(number as nat, width as nat));
}

/// Appends bytes.
pub fn push_bytes(output: &mut Vec<u8>, bytes: &[u8])
    ensures
        final(output)@ == old(output)@ + bytes@,
{
    for i in 0..bytes.len()
        invariant
            output@ == old(output)@ + bytes@.take(i as int),
    {
        output.push(bytes[i]);
        assert(output@ =~= old(output)@ + bytes@.take(i + 1));
    }
    assert(bytes@.take(bytes@.len() as int) =~= bytes@);
}

/// Appends the UTF-8 bytes of a text.
pub fn push_text(output: &mut Vec<u8>, text: &str)
    ensures
        final(output)@ == old(output)@ + vstd::utf8::encode_utf8(text@),
{
    push_bytes(output, text.as_bytes());
}

/// Text of a decimal digit.
fn digit_text(digit: u64) -> (text: &'static str)
    requires
        digit < 10,
    ensures
        text@ == seq![digit_code(digit as int) as char],
{
    proof {
        reveal_strlit("0");
        reveal_strlit("1");
        reveal_strlit("2");
        reveal_strlit("3");
        reveal_strlit("4");
        reveal_strlit("5");
        reveal_strlit("6");
        reveal_strlit("7");
        reveal_strlit("8");
        reveal_strlit("9");
    }
    let text = if digit == 0 {
        "0"
    } else if digit == 1 {
        "1"
    } else if digit == 2 {
        "2"
    } else if digit == 3 {
        "3"
    } else if digit == 4 {
        "4"
    } else if digit == 5 {
        "5"
    } else if digit == 6 {
        "6"
    } else if digit == 7 {
        "7"
    } else if digit == 8 {
        "8"
    } else {
        "9"
    };
    assert(text@ =~= seq![digit_code(digit as int) as char]);
    text
}

/// Appends the decimal digits of a number to a text.
pub fn append_decimal(text: &mut String, number: u64)
    ensures
        final(text)@ == old(text)@ + decimal_text(number as nat),
    decreases number,
{
    if number < 10 {
        text.append(digit_text(number));
        assert(text@ =~= old(text)@ + decimal_text(number as nat));
    } else {
        append_decimal(text, number / 10);
        text.append(digit_text(number % 10));
        assert(text@ =~= old(text)@ + decimal_text(number as nat));
    }
}

/// Whether two texts are equal.
pub fn same_text(a: &str, b: &str) -> (same: bool)
    ensures
        same == (a@ == b@),
{
    let a: String = a.to_owned();
    let b: String = b.to_owned();
    a == b
}

} // verus!
