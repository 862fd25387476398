//! Numbers as text, and text as numbers.

use vstd::prelude::*;
use vstd::string::StringExecFns;

verus! {

/// The text of a single decimal digit.
pub open spec fn digit_text(digit: int) -> Seq<char> {
    if digit == 0 {
        "0"@
    } else if digit == 1 {
        "1"@
    } else if digit == 2 {
        "2"@
    } else if digit == 3 {
        "3"@
    } else if digit == 4 {
        "4"@
    } else if digit == 5 {
        "5"@
    } else if digit == 6 {
        "6"@
    } else if digit == 7 {
        "7"@
    } else if digit == 8 {
        "8"@
    } else {
        "9"@
    }
}

/// The decimal text of a natural number, without leading zeros.
pub open spec fn decimal_text(number: nat) -> Seq<char>
    decreases number,
{
    if number < 10 {
        digit_text(number as int)
    } else {
        decimal_text(number / 10) + digit_text((number % 10) as int)
    }
}

/// The decimal text of a whole number: a minus sign before a negative
/// number; a plus sign before any other number if `plus` asks for one.
pub open spec fn signed_text(number: int, plus: bool) -> Seq<char> {
    if number < 0 {
        "-"@ + decimal_text((-number) as nat)
    } else if plus {
        "+"@ + decimal_text(number as nat)
    } else {
        decimal_text(number as nat)
    }
}

/// The text of a digit.
fn digit_str(digit: u128) -> (text: &'static str)
    requires
        digit < 10,
    ensures
        text@ == digit_text(digit as int),
{
    if digit == 0 {
        "0"
    } else if digit == 1 {
        "1"
    } else if digit == 2 {
        "2"
    } else if digit == 3 {
        "3"
    } else if digit == 4 {
        "4"
    } else if digit == 5 {
        "5"
    } else if digit == 6 {
        "6"
    } else if digit == 7 {
        "7"
    } else if digit == 8 {
        "8"
    } else {
        "9"
    }
}

/// The decimal text of a number.
pub fn decimal(number: u128) -> (text: String)
    ensures
        text@ == decimal_text(number as nat),
    decreases number,
{
    if number < 10 {
        String::from_str(digit_str(number))
    } else {
        let mut text = decimal(number / 10);
        text.append(digit_str(number % 10));
        text
    }
}

/// The decimal text of a card value, with a plus sign before a value that
/// is not negative if `plus` asks for one.
pub fn signed_decimal(number: i8, plus: bool) -> (text: String)
    ensures
        text@ == signed_text(number as int, plus),
{
    let wide: i16 = number as i16;
    if wide < 0 {
        let mut text = String::from_str("-");
        let digits = decimal((-wide) as u128);
        text.append(digits.as_str());
        text
    } else if plus {
        let mut text = String::from_str("+");
        let digits = decimal(wide as u128);
        text.append(digits.as_str());
        text
    } else {
        decimal(wide as u128)
    }
}

} // verus!
