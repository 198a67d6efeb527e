use gomoku::board::{Board, BoardValue, Move, Player};
use gomoku::mcts::SearchTree;

fn mv(x: usize, y: usize) -> Move {
    Move::new(x, y)
}

fn boards_equal(a: &Board, b: &Board) -> bool {
    if a.get_width() != b.get_width() || a.get_height() != b.get_height() {
        return false;
    }
    if a.player != b.player || a.get_last_placement() != b.get_last_placement() {
        return false;
    }
    for y in 0..a.get_height() {
        for x in 0..a.get_width() {
            if a.get_cell(x, y) != b.get_cell(x, y) {
                return false;
            }
        }
    }
    true
}

#[test]
fn monte_carlo_returns_legal_move_with_zero_budget() {
    let board = Board::new(15, 15);
    let mut tree = SearchTree::with_seed(board.duplicate(), 11);
    let m = tree.monte_carlo(0);
    let mut check = board.duplicate();
    assert!(check.place(m).is_ok());
}

#[test]
fn monte_carlo_returns_legal_move_with_small_budget() {
    let mut board = Board::new(15, 15);
    board.place(mv(7, 7)).unwrap();
    let mut tree = SearchTree::with_seed(board.duplicate(), 3);
    let m = tree.monte_carlo(30);
    assert!(tree.games_simulated() > 0);
    let mut check = board.duplicate();
    assert!(check.place(m).is_ok());
}

#[test]
fn apply_move_promotes_matching_child() {
    let mut board = Board::new(9, 9);
    board.place(mv(4, 4)).unwrap();
    let mut tree = SearchTree::with_seed(board.duplicate(), 5);
    // the root is expanded inside apply_move, so every bounding-box cell
    // is a child and the played move is found among them
    let m = mv(5, 5);
    tree.apply_move(m);
    let mut expected = board.duplicate();
    expected.place(m).unwrap();
    let got = tree.root_board();
    assert!(boards_equal(&got, &expected));
}

#[test]
fn apply_move_rebuilds_when_no_child_matches() {
    let mut board = Board::new(19, 19);
    // X holds an open three, so O's candidate set is the forced list only
    board.place(mv(5, 5)).unwrap(); // X
    board.place(mv(15, 15)).unwrap(); // O
    board.place(mv(6, 5)).unwrap(); // X
    board.place(mv(15, 16)).unwrap(); // O
    board.place(mv(7, 5)).unwrap(); // X
    let mut tree = SearchTree::with_seed(board.duplicate(), 5);
    // a legal move far from every threat is not among the children
    let m = mv(0, 18);
    {
        let mut probe = board.duplicate();
        let acts = probe.actions();
        assert!(!acts.contains(&m));
    }
    tree.apply_move(m);
    let mut expected = board.duplicate();
    expected.place(m).unwrap();
    let got = tree.root_board();
    assert!(boards_equal(&got, &expected));
}

#[test]
fn search_plays_out_a_whole_game() {
    // drive a short self-play game end to end through the public API
    let mut board = Board::new(7, 7);
    let mut tree = SearchTree::with_seed(board.duplicate(), 99);
    let mut plies = 0usize;
    while board.utility(Player::X).is_none() && plies < 49 {
        let m = tree.monte_carlo(5);
        board.place(m).unwrap();
        tree.apply_move(m);
        plies += 1;
    }
    // every placement above was accepted, so each chosen move was legal
    assert!(plies > 0);
    let mut stones = 0usize;
    for y in 0..7 {
        for x in 0..7 {
            if board.get_cell(x, y) != BoardValue::Empty {
                stones += 1;
            }
        }
    }
    assert_eq!(stones, plies);
}
