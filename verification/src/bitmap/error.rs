//! Why bytes are not a bitmap.

use vstd::prelude::*;
use vstd::string::StringExecFns;

use crate::bitmap::format::{SERIAL_COOKIE, SERIAL_COOKIE_NO_RUNCONTAINER};

verus! {

/// An error returned when serialized bytes cannot be parsed as a bitmap view.
#[allow(inconsistent_fields)]
#[derive(Debug, PartialEq, Eq)]
pub enum ParseError {
    /// The input ended before a required field or container payload.
    Truncated {
        /// Offset where the read was attempted.
        offset: usize,
        /// Number of bytes needed at `offset`.
        needed: usize,
        /// Number of bytes available at `offset`.
        got: usize,
    },
    /// The format cookie was not recognized.
    BadCookie {
        /// The cookie value found in the input.
        got: u32,
    },
    /// The serialized container count exceeds the maximum supported count.
    TooManyContainers {
        /// The serialized container count.
        count: u64,
        /// The maximum supported container count.
        max: u64,
    },
    /// A run container payload is malformed.
    InvalidRun {
        /// Offset of the invalid run container payload.
        offset: usize,
        /// Human-readable error detail.
        detail: &'static str,
    },
    /// A non-run container payload or shared bitmap metadata is malformed.
    InvalidContainer {
        /// Offset of the invalid data.
        offset: usize,
        /// Human-readable error detail.
        detail: &'static str,
    },
}

impl Clone for ParseError {
    fn clone(&self) -> (copy: Self)
        ensures
            copy == *self,
    {
        match *self {
            ParseError::Truncated { offset, needed, got } => ParseError::Truncated {
                offset,
                needed,
                got,
            },
            ParseError::BadCookie { got } => ParseError::BadCookie { got },
            ParseError::TooManyContainers { count, max } => ParseError::TooManyContainers {
                count,
                max,
            },
            ParseError::InvalidRun { offset, detail } => ParseError::InvalidRun { offset, detail },
            ParseError::InvalidContainer { offset, detail } => ParseError::InvalidContainer {
                offset,
                detail,
            },
        }
    }
}

/// A digit below 16.
pub open spec fn digit(d: int) -> char {
    if d < 10 {
        (0x30 + d) as char
    } else {
        (0x57 + d) as char
    }
}

/// The digits of `n` in the given base, without leading zeros.
pub open spec fn digits(n: int, base: int) -> Seq<char>
    decreases n,
{
    if n < base || base < 2 {
        seq![digit(n)]
    } else {
        proof {
            assert(0 <= n / base < n) by (nonlinear_arith)
                requires
                    n >= base >= 2,
            ;
        }
        digits(n / base, base) + seq![digit(n % base)]
    }
}

impl ParseError {
    /// The message for a reader.
    pub open spec fn message(self) -> Seq<char> {
        match self {
            ParseError::Truncated { offset, needed, got } => "input too short: needed "@ + digits(
                needed as int,
                10,
            ) + " bytes at offset "@ + digits(offset as int, 10) + ", got "@ + digits(
                got as int,
                10,
            ),
            ParseError::BadCookie { got } => "bad cookie: expected 0x"@ + digits(
                SERIAL_COOKIE_NO_RUNCONTAINER as int,
                16,
            ) + " or 0x"@ + digits(SERIAL_COOKIE as int, 16) + ", got 0x"@ + digits(
                got as int,
                16,
            ),
            ParseError::TooManyContainers { count, max } => "container count overflow: "@ + digits(
                count as int,
                10,
            ) + " containers exceeds maximum "@ + digits(max as int, 10),
            ParseError::InvalidRun { offset, detail } => "invalid run container at offset "@
                + digits(offset as int, 10) + ": "@ + detail@,
            ParseError::InvalidContainer { offset, detail } => "invalid container at offset "@
                + digits(offset as int, 10) + ": "@ + detail@,
        }
    }

    /// Writes the message for a reader.
    pub fn to_string(&self) -> (text: String)
        ensures
            text@ == self.message(),
    {
        let mut text: String = String::new();
        match *self {
            ParseError::Truncated { offset, needed, got } => {
                text.append("input too short: needed ");
                append_number(&mut text, needed as u64, 10);
                text.append(" bytes at offset ");
                append_number(&mut text, offset as u64, 10);
                text.append(", got ");
                append_number(&mut text, got as u64, 10);
            },
            ParseError::BadCookie { got } => {
                text.append("bad cookie: expected 0x");
                append_number(&mut text, SERIAL_COOKIE_NO_RUNCONTAINER as u64, 16);
                text.append(" or 0x");
                append_number(&mut text, SERIAL_COOKIE as u64, 16);
                text.append(", got 0x");
                append_number(&mut text, got as u64, 16);
            },
            ParseError::TooManyContainers { count, max } => {
                text.append("container count overflow: ");
                append_number(&mut text, count, 10);
                text.append(" containers exceeds maximum ");
                append_number(&mut text, max, 10);
            },
            ParseError::InvalidRun { offset, detail } => {
                text.append("invalid run container at offset ");
                append_number(&mut text, offset as u64, 10);
                text.append(": ");
                text.append(detail);
            },
            ParseError::InvalidContainer { offset, detail } => {
                text.append("invalid container at offset ");
                append_number(&mut text, offset as u64, 10);
                text.append(": ");
                text.append(detail);
            },
        }
        assert(text@ =~= self.message());
        text
    }
}

/// Appends the digits of a number.
fn append_number(text: &mut String, n: u64, base: u64)
    requires
        2 <= base <= 16,
    ensures
        final(text)@ == old(text)@ + digits(n as int, base as int),
    decreases n,
{
    if n >= base {
        assert(0 <= n / base < n) by (nonlinear_arith)
            requires
                n >= base >= 2,
        ;
        append_number(text, n / base, base);
    }
    assert(n % base < base && (n < base ==> n % base == n)) by (nonlinear_arith)
        requires
            base >= 2,
    ;
    text.append(digit_text(n % base));
    assert(text@ =~= old(text)@ + digits(n as int, base as int));
}

/// A digit below 16 as text.
fn digit_text(d: u64) -> (text: &'static str)
    requires
        d < 16,
    ensures
        text@ =~= seq![digit(d as int)],
{
    proof {
        reveal_strlit("0");
        reveal_strlit("1");
        reveal_strlit("2");
        reveal_strlit("3");
        reveal_strlit("4");
        reveal_strlit("5");
        reveal_strlit("6");
        reveal_strlit("7");
        reveal_strlit("8");
        reveal_strlit("9");
        reveal_strlit("a");
        reveal_strlit("b");
        reveal_strlit("c");
        reveal_strlit("d");
        reveal_strlit("e");
        reveal_strlit("f");
    }
    match d {
        0 => "0",
        1 => "1",
        2 => "2",
        3 => "3",
        4 => "4",
        5 => "5",
        6 => "6",
        7 => "7",
        8 => "8",
        9 => "9",
        10 => "a",
        11 => "b",
        12 => "c",
        13 => "d",
        14 => "e",
        _ => "f",
    }
}

} // verus!
