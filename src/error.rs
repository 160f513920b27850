use vstd::prelude::*;
use crate::text::{chars_of, push_all, string_of};

verus! {

/// What can make a summarization fail.
#[derive(Debug, Clone, Copy, PartialEq, Eq, Structural)]
pub enum PipelineError {
    /// The document could not be read.
    ExtractionError,
    /// The remote service could not be reached.
    RemoteUnavailable,
    /// The remote service answered with a status outside 200..=299.
    RemoteRequestFailed(u16),
    /// A response body did not have the expected shape.
    DecodeError,
    /// An argument was out of its domain.
    InvalidArgument,
}

/// The decimal digit for `d`, which is below ten.
pub open spec fn digit_char(d: nat) -> char {
    if d == 0 {
        '0'
    } else if d == 1 {
        '1'
    } else if d == 2 {
        '2'
    } else if d == 3 {
        '3'
    } else if d == 4 {
        '4'
    } else if d == 5 {
        '5'
    } else if d == 6 {
        '6'
    } else if d == 7 {
        '7'
    } else if d == 8 {
        '8'
    } else {
        '9'
    }
}

/// `n` written in decimal, without leading zeros.
pub open spec fn decimal(n: nat) -> Seq<char>
    decreases n,
{
    if n < 10 {
        seq![digit_char(n)]
    } else {
        decimal(n / 10).push(digit_char(n % 10))
    }
}

fn digit(d: u16) -> (r: char)
    requires
        d < 10,
    ensures
        r == digit_char(d as nat),
{
    if d == 0 {
        '0'
    } else if d == 1 {
        '1'
    } else if d == 2 {
        '2'
    } else if d == 3 {
        '3'
    } else if d == 4 {
        '4'
    } else if d == 5 {
        '5'
    } else if d == 6 {
        '6'
    } else if d == 7 {
        '7'
    } else if d == 8 {
        '8'
    } else {
        '9'
    }
}

/// The digits of `n` in decimal.
pub fn decimal_chars(n: u16) -> (r: Vec<char>)
    ensures
        r@ == decimal(n as nat),
    decreases n,
{
    if n < 10 {
        vec![digit(n)]
    } else {
        let mut v = decimal_chars(n / 10);
        v.push(digit(n % 10));
        v
    }
}

pub const EXTRACTION_TEXT: &'static str = "the document could not be read";

pub const UNAVAILABLE_TEXT: &'static str = "the remote service could not be reached";

pub const FAILED_TEXT: &'static str = "the remote request failed with status ";

pub const DECODE_TEXT: &'static str = "the response could not be decoded";

pub const INVALID_TEXT: &'static str = "invalid argument";

impl PipelineError {
    /// The text that describes the error; a failed request names its status.
    pub open spec fn describe(&self) -> Seq<char> {
        match *self {
            PipelineError::ExtractionError => EXTRACTION_TEXT@,
            PipelineError::RemoteUnavailable => UNAVAILABLE_TEXT@,
            PipelineError::RemoteRequestFailed(s) => FAILED_TEXT@ + decimal(s as nat),
            PipelineError::DecodeError => DECODE_TEXT@,
            PipelineError::InvalidArgument => INVALID_TEXT@,
        }
    }

    pub fn message(&self) -> (r: String)
        ensures
            r@ == self.describe(),
    {
        match *self {
            PipelineError::ExtractionError => EXTRACTION_TEXT.to_owned(),
            PipelineError::RemoteUnavailable => UNAVAILABLE_TEXT.to_owned(),
            PipelineError::RemoteRequestFailed(s) => {
                let mut t = chars_of(FAILED_TEXT);
                push_all(&mut t, &decimal_chars(s));
                string_of(&t)
            },
            PipelineError::DecodeError => DECODE_TEXT.to_owned(),
            PipelineError::InvalidArgument => INVALID_TEXT.to_owned(),
        }
    }
}

} // verus!
