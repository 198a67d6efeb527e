//! Parsing a typed move: exactly two characters, each a digit in the
//! base given by the board dimension plus one.

use vstd::prelude::*;
use crate::board::Move;

verus! {

/// Why a typed move was rejected.
#[derive(Clone, Copy, PartialEq, Eq, Structural, Debug)]
pub enum ParseError {
    NotTwoChars,
    NotDigits,
}

/// The value of `ch` as a digit below `radix`, digits running 0-9 then
/// a-z (either case).
pub open spec fn spec_digit(ch: char, radix: int) -> Option<int> {
    let v = if '0' <= ch && ch <= '9' {
        (ch as int) - ('0' as int)
    } else if 'a' <= ch && ch <= 'z' {
        10 + (ch as int) - ('a' as int)
    } else if 'A' <= ch && ch <= 'Z' {
        10 + (ch as int) - ('A' as int)
    } else {
        -1
    };
    if 0 <= v < radix {
        Some(v)
    } else {
        None
    }
}

/// What `parse_move` returns: two characters, read as one digit each in
/// base `width + 1` and `height + 1` respectively.
pub open spec fn spec_parse_move(s: Seq<char>, width: int, height: int) -> Result<
    Move,
    ParseError,
> {
    if s.len() != 2 {
        Err(ParseError::NotTwoChars)
    } else {
        match (spec_digit(s[0], width + 1), spec_digit(s[1], height + 1)) {
            (Some(a), Some(b)) => Ok(Move { x: a as usize, y: b as usize }),
            _ => Err(ParseError::NotDigits),
        }
    }
}

fn char_digit(ch: char, radix: usize) -> (r: Option<usize>)
    requires
        radix <= 36,
    ensures
        match r {
            Some(v) => spec_digit(ch, radix as int) == Some(v as int),
            None => spec_digit(ch, radix as int) is None,
        },
{
    let v: u32 = if ch >= '0' && ch <= '9' {
        ch as u32 - '0' as u32
    } else if ch >= 'a' && ch <= 'z' {
        10 + (ch as u32 - 'a' as u32)
    } else if ch >= 'A' && ch <= 'Z' {
        10 + (ch as u32 - 'A' as u32)
    } else {
        99
    };
    if (v as usize) < radix {
        Some(v as usize)
    } else {
        None
    }
}

/// Parse a typed move of exactly two characters into raw (column, row)
/// digits; the caller converts them to zero-based coordinates.
pub fn parse_move(cmd: &str, width: usize, height: usize) -> (r: Result<Move, ParseError>)
    requires
        width <= 35,
        height <= 35,
    ensures
        r == spec_parse_move(cmd@, width as int, height as int),
{
    if cmd.unicode_len() != 2 {
        return Err(ParseError::NotTwoChars);
    }
    let c0 = cmd.get_char(0);
    let c1 = cmd.get_char(1);
    let first = char_digit(c0, width + 1);
    let second = char_digit(c1, height + 1);
    match (first, second) {
        (Some(a), Some(b)) => Ok(Move { x: a, y: b }),
        _ => Err(ParseError::NotDigits),
    }
}

} // verus!
