use gomoku::board::{Board, BoardValue, Move};
use gomoku::patterns::{get_forced, BoardPattern};

fn mv(x: usize, y: usize) -> Move {
    Move::new(x, y)
}

#[test]
fn test_forced() {
    let mut board = Board::new(19, 19);
    board.place(mv(0, 3)).unwrap();
    board.place(mv(1, 3)).unwrap();
    board.place(mv(0, 4)).unwrap();
    board.place(mv(2, 4)).unwrap();
    board.place(mv(0, 5)).unwrap();
    println!("{:?}", board.get_last_placement());
    println!("{:?}", board.calculate_forced());
}

#[test]
fn open_three_window_forces_both_flanks() {
    // an unflanked three-in-a-row of X: empty on both sides
    let area: Vec<(BoardValue, usize, usize)> = vec![
        (BoardValue::Empty, 0, 0),
        (BoardValue::Empty, 1, 0),
        (BoardValue::X, 2, 0),
        (BoardValue::X, 3, 0),
        (BoardValue::X, 4, 0),
        (BoardValue::Empty, 5, 0),
        (BoardValue::Empty, 6, 0),
        (BoardValue::Empty, 7, 0),
    ];
    let (atk, def) = get_forced(&area, &BoardValue::X);
    // the defender must cover both flanking cells of the run
    assert!(def.contains(&mv(1, 0)));
    assert!(def.contains(&mv(5, 0)));
    // the attacker-forced cell extends the run
    assert_eq!(atk, vec![mv(5, 0)]);
}

#[test]
fn opposing_stone_invalidates_window() {
    let area: Vec<(BoardValue, usize, usize)> = vec![
        (BoardValue::Empty, 0, 0),
        (BoardValue::O, 1, 0),
        (BoardValue::X, 2, 0),
        (BoardValue::X, 3, 0),
        (BoardValue::X, 4, 0),
        (BoardValue::Empty, 5, 0),
        (BoardValue::Empty, 6, 0),
        (BoardValue::Empty, 7, 0),
    ];
    let (atk, def) = get_forced(&area, &BoardValue::X);
    assert!(atk.is_empty());
    assert!(def.is_empty());
}

#[test]
fn one_ended_four_forces_the_open_end() {
    // the one-ended four template read in reverse: four stones then two
    // empty cells
    let area: Vec<(BoardValue, usize, usize)> = vec![
        (BoardValue::X, 0, 0),
        (BoardValue::X, 1, 0),
        (BoardValue::X, 2, 0),
        (BoardValue::X, 3, 0),
        (BoardValue::Empty, 4, 0),
        (BoardValue::Empty, 5, 0),
    ];
    let (atk, def) = get_forced(&area, &BoardValue::X);
    assert_eq!(atk, vec![mv(4, 0)]);
    assert!(def.contains(&mv(4, 0)));
    assert!(def.contains(&mv(5, 0)));
}

#[test]
fn iter_forced_pairs_flags() {
    let p = BoardPattern::three_pattern();
    let pairs = p.iter_forced();
    assert_eq!(pairs.len(), 8);
    assert_eq!(pairs[0], (false, true));
    assert_eq!(pairs[5], (true, true));
    assert_eq!(pairs[7], (false, false));
}
