use gomoku::board::{Board, BoardValue, GameResult, Move, PlacingError, Player, UTIL_HALF, UTIL_ONE};

fn mv(x: usize, y: usize) -> Move {
    Move::new(x, y)
}

fn assert_no_duplicates(moves: &[Move]) {
    for a in 0..moves.len() {
        for b in (a + 1)..moves.len() {
            assert_ne!(moves[a], moves[b]);
        }
    }
}

fn grid_snapshot(board: &Board) -> Vec<BoardValue> {
    let mut cells = Vec::new();
    for y in 0..board.get_height() {
        for x in 0..board.get_width() {
            cells.push(board.get_cell(x, y));
        }
    }
    cells
}

#[test]
fn util_test() {
    let mut board = Board::new(19, 19);
    board.place(mv(2, 2)).unwrap();
    board.place(mv(3, 2)).unwrap();
    board.place(mv(2, 3)).unwrap();
    board.place(mv(4, 2)).unwrap();
    board.place(mv(2, 4)).unwrap();
    board.place(mv(4, 3)).unwrap();
    board.place(mv(2, 5)).unwrap();
    board.place(mv(5, 4)).unwrap();
    board.place(mv(2, 6)).unwrap();
    assert_eq!(board.utility(Player::X), Some(UTIL_ONE));

    let mut board = Board::new(19, 19);
    board.place(mv(7, 2)).unwrap();
    board.place(mv(7, 3)).unwrap();
    board.place(mv(8, 3)).unwrap();
    board.place(mv(8, 4)).unwrap();
    board.place(mv(11, 6)).unwrap();
    board.place(mv(7, 4)).unwrap();
    board.place(mv(10, 5)).unwrap();
    board.place(mv(6, 1)).unwrap();
    board.place(mv(9, 4)).unwrap();
    assert_eq!(board.utility(Player::X), Some(UTIL_ONE));

    let mut board = Board::new(19, 19);
    board.place(mv(1, 6)).unwrap();
    board.place(mv(0, 7)).unwrap();
    board.place(mv(2, 8)).unwrap();
    board.place(mv(1, 7)).unwrap();
    board.place(mv(2, 6)).unwrap();
    board.place(mv(2, 7)).unwrap();
    board.place(mv(3, 6)).unwrap();
    board.place(mv(3, 7)).unwrap();
    board.place(mv(5, 7)).unwrap();
    board.place(mv(4, 7)).unwrap();
    assert_eq!(board.utility(Player::X), None);

    let mut board = Board::new(19, 19);
    board.place(mv(11, 10)).unwrap();
    board.place(mv(11, 11)).unwrap();
    board.place(mv(12, 11)).unwrap();
    board.place(mv(12, 10)).unwrap();
    board.place(mv(10, 12)).unwrap();
    board.place(mv(13, 9)).unwrap();
    board.place(mv(16, 6)).unwrap();
    board.place(mv(14, 8)).unwrap();
    board.place(mv(15, 8)).unwrap();
    board.place(mv(15, 17)).unwrap();
    assert_eq!(board.utility(Player::X), None);
}

#[test]
fn out_of_range_leaves_grid_unchanged() {
    let mut board = Board::new(19, 19);
    board.place(mv(4, 4)).unwrap();
    board.place(mv(5, 5)).unwrap();
    let before = grid_snapshot(&board);
    let before_player = board.player;

    assert_eq!(board.place(mv(19, 0)), Err(PlacingError::OutOfBounds));
    assert_eq!(board.place(mv(0, 19)), Err(PlacingError::OutOfBounds));
    assert_eq!(board.place(mv(100, 100)), Err(PlacingError::OutOfBounds));

    assert_eq!(grid_snapshot(&board), before);
    assert_eq!(board.player, before_player);
}

#[test]
fn occupied_cell_is_refused() {
    let mut board = Board::new(19, 19);
    board.place(mv(3, 3)).unwrap();
    let before = grid_snapshot(&board);
    assert_eq!(board.place(mv(3, 3)), Err(PlacingError::Occupied));
    assert_eq!(grid_snapshot(&board), before);
}

#[test]
fn mover_alternates_with_placement_parity() {
    let mut board = Board::new(19, 19);
    assert_eq!(board.player, Player::X);
    let moves = [
        mv(1, 1),
        mv(2, 1),
        mv(3, 1),
        mv(4, 1),
        mv(5, 1),
        mv(6, 1),
        mv(7, 1),
    ];
    for (i, m) in moves.iter().enumerate() {
        board.place(*m).unwrap();
        // after i + 1 placements the mover is X iff i + 1 is even
        if (i + 1) % 2 == 0 {
            assert_eq!(board.player, Player::X);
        } else {
            assert_eq!(board.player, Player::O);
        }
    }
}

#[test]
fn utility_none_before_first_win() {
    let mut board = Board::new(19, 19);
    let x_moves = [mv(2, 2), mv(2, 3), mv(2, 4), mv(2, 5), mv(2, 6)];
    let o_moves = [mv(10, 10), mv(11, 10), mv(12, 10), mv(13, 10)];
    for i in 0..4 {
        board.place(x_moves[i]).unwrap();
        assert_eq!(board.utility(Player::X), None);
        board.place(o_moves[i]).unwrap();
        assert_eq!(board.utility(Player::X), None);
    }
    board.place(x_moves[4]).unwrap();
    assert_eq!(board.utility(Player::X), Some(UTIL_ONE));
    assert_eq!(board.utility(Player::O), Some(0));
}

#[test]
fn five_blocked_on_one_end_wins() {
    let mut board = Board::new(19, 19);
    // O blocks only the left end of X's horizontal run at row 5
    board.place(mv(1, 5)).unwrap(); // X
    board.place(mv(0, 5)).unwrap(); // O
    board.place(mv(2, 5)).unwrap(); // X
    board.place(mv(10, 10)).unwrap(); // O
    board.place(mv(3, 5)).unwrap(); // X
    board.place(mv(11, 10)).unwrap(); // O
    board.place(mv(4, 5)).unwrap(); // X
    board.place(mv(12, 10)).unwrap(); // O
    assert_eq!(board.utility(Player::X), None);
    board.place(mv(5, 5)).unwrap(); // X completes exactly five
    assert_eq!(board.utility(Player::X), Some(UTIL_ONE));
    assert_eq!(board.utility(Player::O), Some(0));
}

#[test]
fn five_blocked_on_both_ends_is_no_win() {
    let mut board = Board::new(19, 19);
    // O blocks both ends of X's horizontal run at row 5
    board.place(mv(1, 5)).unwrap(); // X
    board.place(mv(0, 5)).unwrap(); // O
    board.place(mv(2, 5)).unwrap(); // X
    board.place(mv(6, 5)).unwrap(); // O
    board.place(mv(3, 5)).unwrap(); // X
    board.place(mv(10, 10)).unwrap(); // O
    board.place(mv(4, 5)).unwrap(); // X
    board.place(mv(11, 10)).unwrap(); // O
    board.place(mv(5, 5)).unwrap(); // X: exactly five, both ends blocked
    assert_eq!(board.utility(Player::X), None);
    assert_eq!(board.utility(Player::O), None);
}

#[test]
fn full_board_without_five_is_a_draw() {
    // a 4 by 4 board cannot hold a run of five at all
    let mut board = Board::new(4, 4);
    for y in 0..4 {
        for x in 0..4 {
            board.place(mv(x, y)).unwrap();
        }
    }
    assert_eq!(board.utility(Player::X), Some(UTIL_HALF));
    assert_eq!(board.utility(Player::O), Some(UTIL_HALF));
}

#[test]
fn actions_cover_empty_board() {
    let mut board = Board::new(15, 15);
    let acts = board.actions();
    assert_eq!(acts.len(), 15 * 15);
}

#[test]
fn actions_follow_expanded_bounding_box() {
    let mut board = Board::new(19, 19);
    board.place(mv(9, 9)).unwrap(); // X
    board.place(mv(10, 9)).unwrap(); // O
    // box spans (9,9)-(10,9); expanded by one: (8,8)-(11,10), 12 cells,
    // of which 2 are occupied
    let acts = board.actions();
    assert_eq!(acts.len(), 12 - 2);
    assert_no_duplicates(&acts);
    for a in acts.iter() {
        assert!(a.x >= 8 && a.x <= 11 && a.y >= 8 && a.y <= 10);
        assert_eq!(board.get_cell(a.x, a.y), BoardValue::Empty);
    }
}

#[test]
fn actions_return_forced_set_when_nonempty() {
    let mut board = Board::new(19, 19);
    // X builds an open three at row 5; O stays far away
    board.place(mv(5, 5)).unwrap(); // X
    board.place(mv(15, 15)).unwrap(); // O
    board.place(mv(6, 5)).unwrap(); // X
    board.place(mv(15, 16)).unwrap(); // O
    board.place(mv(7, 5)).unwrap(); // X: open three, O to move
    let forced = board.calculate_forced();
    assert!(!forced.is_empty());
    // the defender-forced set must include both flanking cells
    assert!(forced.contains(&mv(4, 5)));
    assert!(forced.contains(&mv(8, 5)));
    let acts = board.actions();
    assert_no_duplicates(&acts);
    assert_eq!(acts, forced);
}

#[test]
fn threats_on_both_sides() {
    let mut board = Board::new(19, 19);
    assert!(!board.are_there_threats());
    // X builds an open three while O builds one of its own
    board.place(mv(5, 5)).unwrap(); // X
    board.place(mv(5, 12)).unwrap(); // O
    board.place(mv(6, 5)).unwrap(); // X
    board.place(mv(6, 12)).unwrap(); // O
    board.place(mv(7, 5)).unwrap(); // X open three
    board.place(mv(7, 12)).unwrap(); // O open three
    assert!(board.are_there_threats());
}

#[test]
fn heuristic_exact_values() {
    let mut board = Board::new(6, 6);
    assert_eq!(board.heuristic(Player::X), UTIL_HALF);
    assert_eq!(board.heuristic(Player::O), UTIL_HALF);
    // a lone pair of X stones scores 2 in the row family and nothing
    // else; a lone O stone scores nothing
    board.place(mv(1, 1)).unwrap(); // X
    board.place(mv(4, 4)).unwrap(); // O
    board.place(mv(2, 1)).unwrap(); // X
    assert_eq!(board.heuristic(Player::X), UTIL_ONE);
    assert_eq!(board.heuristic(Player::O), 0);
}

#[test]
fn place_random_is_legal_and_detects_full_board() {
    let mut rng = fastrand::Rng::with_seed(7);
    let mut board = Board::new(9, 9);
    board.place(mv(4, 4)).unwrap();
    let stones_before = grid_snapshot(&board)
        .iter()
        .filter(|v| **v != BoardValue::Empty)
        .count();
    board.place_random(&mut rng).unwrap();
    let stones_after = grid_snapshot(&board)
        .iter()
        .filter(|v| **v != BoardValue::Empty)
        .count();
    assert_eq!(stones_after, stones_before + 1);

    let mut tiny = Board::new(1, 1);
    tiny.place(mv(0, 0)).unwrap();
    assert_eq!(tiny.place_random(&mut rng), Err(PlacingError::FullBoard));
}

#[test]
fn basic_value_conversions() {
    assert_eq!(BoardValue::X.opposite(), Some(BoardValue::O));
    assert_eq!(BoardValue::O.opposite(), Some(BoardValue::X));
    assert_eq!(BoardValue::Empty.opposite(), None);
    assert_eq!(BoardValue::X.player(), Some(Player::X));
    assert_eq!(BoardValue::Empty.player(), None);
    assert_eq!(Player::X.board_value(), BoardValue::X);
    assert_eq!(Player::O.board_value(), BoardValue::O);
    let mut p = Player::X;
    p.next();
    assert_eq!(p, Player::O);
    p.next();
    assert_eq!(p, Player::X);
}

#[test]
fn game_result_queries() {
    assert!(GameResult::XWins.is_terminate());
    assert!(GameResult::OWins.is_terminate());
    assert!(GameResult::Draws.is_terminate());
    assert!(!GameResult::NotTerminated.is_terminate());
    assert!(!GameResult::NotCalculated.is_terminate());
    assert_eq!(GameResult::win(Player::X), GameResult::XWins);
    assert_eq!(GameResult::win(Player::O), GameResult::OWins);
    assert_eq!(GameResult::XWins.utility(Player::X), Some(UTIL_ONE));
    assert_eq!(GameResult::XWins.utility(Player::O), Some(0));
    assert_eq!(GameResult::OWins.utility(Player::O), Some(UTIL_ONE));
    assert_eq!(GameResult::Draws.utility(Player::X), Some(UTIL_HALF));
    assert_eq!(GameResult::NotTerminated.utility(Player::X), None);
}
