use gomoku::board::Move;
use gomoku::parse::{parse_move, ParseError};

#[test]
fn parse_move_accepts_two_digits() {
    assert_eq!(parse_move("78", 15, 15), Ok(Move::new(7, 8)));
    assert_eq!(parse_move("11", 15, 15), Ok(Move::new(1, 1)));
    // letters carry on where the decimal digits end
    assert_eq!(parse_move("a1", 15, 15), Ok(Move::new(10, 1)));
    assert_eq!(parse_move("f2", 15, 15), Ok(Move::new(15, 2)));
}

#[test]
fn parse_move_rejects_wrong_length() {
    assert_eq!(parse_move("", 15, 15), Err(ParseError::NotTwoChars));
    assert_eq!(parse_move("1", 15, 15), Err(ParseError::NotTwoChars));
    assert_eq!(parse_move("123", 15, 15), Err(ParseError::NotTwoChars));
}

#[test]
fn parse_move_rejects_digits_out_of_base() {
    // base 16 for a board of width 15: 'z' and 'h' are no digits there
    assert_eq!(parse_move("zz", 15, 15), Err(ParseError::NotDigits));
    assert_eq!(parse_move("h1", 15, 15), Err(ParseError::NotDigits));
    assert_eq!(parse_move("!?", 15, 15), Err(ParseError::NotDigits));
}
