//! The integer argument.

use vstd::prelude::*;
use std::num::IntErrorKind;
use crate::input::CommandInput;
use crate::parser::{ArgumentParser, ArgumentValue, ArgumentValueView, Parsed, ParserResult};
use crate::sender::Sender;
use crate::text::{lemma_skip_whitespace_from, lemma_token_end, skip_whitespace_from, token_end};

verus! {

/// Why a token is not an unsigned 32-bit integer.
#[derive(Clone, Copy, PartialEq, Eq, Debug)]
pub enum IntegerFailure {
    /// The token is empty.
    Empty,
    /// A character that is no decimal digit stands where one is needed.
    InvalidDigit,
    /// The number does not fit 32 bits.
    TooLarge,
    /// Any other failure.
    Other,
}

/// Whether `c` is a decimal digit.
pub open spec fn is_digit(c: char) -> bool {
    '0' <= c <= '9'
}

/// The number that a sequence of decimal digits writes.
pub open spec fn decimal_value(digits: Seq<char>) -> int
    decreases digits.len(),
{
    if digits.len() == 0 {
        0
    } else {
        decimal_value(digits.drop_last()) * 10 + (digits.last() as int - '0' as int)
    }
}

/// The digits of a token: the token without one leading `+`, if it has one.
pub open spec fn unsigned_digits(token: Seq<char>) -> Seq<char> {
    if token.len() > 0 && token[0] == '+' {
        token.subrange(1, token.len() as int)
    } else {
        token
    }
}

/// The unsigned 32-bit integer that `token` writes in decimal: an optional
/// `+` followed by one or more digits and nothing else, with a value that
/// fits. `None` for every other token.
pub open spec fn decimal_u32(token: Seq<char>) -> Option<u32> {
    let digits = unsigned_digits(token);
    if digits.len() > 0 && (forall|i: int| 0 <= i < digits.len() ==> is_digit(#[trigger] digits[i]))
        && decimal_value(digits) <= u32::MAX {
        Some(decimal_value(digits) as u32)
    } else {
        None
    }
}

/// The kind of failure that the standard library reports for a token that is
/// not an unsigned 32-bit integer.
pub uninterp spec fn u32_failure(token: Seq<char>) -> IntegerFailure;

/// `str::parse::<u32>` of the standard library. It accepts an optional `+`
/// sign followed by decimal digits only, and fails on the empty string, on
/// any other character and on a value that does not fit. The kind of a
/// failure depends on the token alone and is named by [`u32_failure`].
#[verifier::external_body]
fn parse_u32(token: &str) -> (r: Result<u32, IntegerFailure>)
    ensures
        r is Ok <==> decimal_u32(token@) is Some,
        r matches Ok(v) ==> decimal_u32(token@) == Some(v),
        r matches Err(f) ==> f == u32_failure(token@),
{
    match token.parse::<u32>() {
        Ok(value) => Ok(value),
        Err(error) => Err(
            match error.kind() {
                IntErrorKind::Empty => IntegerFailure::Empty,
                IntErrorKind::InvalidDigit => IntegerFailure::InvalidDigit,
                IntErrorKind::PosOverflow => IntegerFailure::TooLarge,
                _ => IntegerFailure::Other,
            },
        ),
    }
}

/// The text that describes a failure.
pub open spec fn failure_text(failure: IntegerFailure) -> Seq<char> {
    match failure {
        IntegerFailure::Empty => "cannot parse integer from empty string"@,
        IntegerFailure::InvalidDigit => "invalid digit found in string"@,
        IntegerFailure::TooLarge => "number too large to fit in target type"@,
        IntegerFailure::Other => "invalid integer"@,
    }
}

impl IntegerFailure {
    /// The text that describes this failure.
    pub fn describe(&self) -> (r: String)
        ensures
            r@ == failure_text(*self),
    {
        match self {
            IntegerFailure::Empty => String::from_str("cannot parse integer from empty string"),
            IntegerFailure::InvalidDigit => String::from_str("invalid digit found in string"),
            IntegerFailure::TooLarge => String::from_str("number too large to fit in target type"),
            IntegerFailure::Other => String::from_str("invalid integer"),
        }
    }
}

/// What an integer is parsed to from a token: its value, or the text of the
/// failure.
pub open spec fn integer_of_token(token: Seq<char>) -> Result<ArgumentValueView, Seq<char>> {
    match decimal_u32(token) {
        Some(v) => Ok(ArgumentValueView::Integer(v)),
        None => Err(failure_text(u32_failure(token))),
    }
}

/// Reads one token as an unsigned 32-bit integer.
pub fn parse_integer(token: &str) -> (r: ParserResult)
    ensures
        crate::parser::parser_result_view(r) == integer_of_token(token@),
{
    match parse_u32(token) {
        Ok(value) => Ok(ArgumentValue::Integer(value)),
        Err(failure) => Err(failure.describe()),
    }
}

/// Parses one token as an unsigned 32-bit integer.
pub struct IntParser;

impl ArgumentParser for IntParser {
    /// The next token read as a decimal number; the cursor ends after the
    /// token whether or not it is a number.
    open spec fn parsed(&self, sender: Sender, input: Seq<char>, cursor: int) -> Parsed {
        let start = skip_whitespace_from(input, cursor);
        let end = token_end(input, start);
        Parsed { result: integer_of_token(input.subrange(start, end)), cursor: end }
    }

    fn parse(&self, sender: Sender, input: &mut CommandInput) -> (r: ParserResult) {
        let token = input.read_string();
        parse_integer(token.as_str())
    }

    fn new() -> Self {
        IntParser
    }
}

} // verus!
