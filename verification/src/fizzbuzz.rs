//! The line that the counting game prints for one number.

use vstd::prelude::*;
use vstd::string::*;
use crate::decimal::{decimal, push_decimal};
use crate::text::string_of;

verus! {

/// What follows the number on its line: ` FizzBuzz` for a multiple of both 3
/// and 5, ` Fizz` for a multiple of 3 only, ` Buzz` for a multiple of 5 only,
/// nothing otherwise.
pub open spec fn suffix(index: int) -> Seq<char> {
    if index % 3 == 0 && index % 5 == 0 {
        " FizzBuzz"@
    } else if index % 3 == 0 {
        " Fizz"@
    } else if index % 5 == 0 {
        " Buzz"@
    } else {
        Seq::empty()
    }
}

/// The line for `index`: its decimal text, then its suffix.
pub open spec fn line(index: int) -> Seq<char> {
    decimal(index) + suffix(index)
}

/// Whether `divisor`, which is 3 or 5, divides `index`.
fn divides(divisor: i32, index: i32) -> (yes: bool)
    requires
        divisor == 3 || divisor == 5,
    ensures
        yes == (index as int % divisor as int == 0),
{
    let magnitude: i64 = if index < 0 {
        -(index as i64)
    } else {
        index as i64
    };
    magnitude % (divisor as i64) == 0
}

/// The line for `index`.
pub fn output(index: i32) -> (text: String)
    ensures
        text@ == line(index as int),
{
    let mut number: Vec<char> = Vec::new();
    push_decimal(&mut number, index as i64);
    let mut text = string_of(&number);
    let by_three = divides(3, index);
    let by_five = divides(5, index);
    if by_three && by_five {
        text.append(" FizzBuzz");
    } else if by_three {
        text.append(" Fizz");
    } else if by_five {
        text.append(" Buzz");
    }
    text
}

} // verus!
