use ttt_cfr::game::{Board, Move, Outcome};

#[test]
fn test_end_to_end_p0_row() {
    // player 0 wants to win, player 1 wants a tie; player 0 takes the top row
    let mut board = Board::new(Outcome::P0Win, Outcome::Tie);
    for m in [0usize, 4, 1, 3, 2] {
        assert!(board.score().is_none());
        board.play(Move(m));
    }
    let (outcome, p0, p1) = board.score().expect("game should be over");
    assert_eq!(outcome, Outcome::P0Win);
    assert_eq!(p0, 1);
    assert_eq!(p1, 0);
}

#[test]
fn test_full_board_tie_utilities() {
    // a drawn game: utility 1 only for the player who wanted the tie
    let mut board = Board::new(Outcome::Tie, Outcome::P0Win);
    for m in [0usize, 4, 1, 2, 6, 3, 5, 7, 8] {
        board.play(Move(m));
    }
    let (outcome, p0, p1) = board.score().expect("full board must be scored");
    assert_eq!(outcome, Outcome::Tie);
    assert_eq!(p0, 1);
    assert_eq!(p1, 0);
    assert_eq!(board.possible_moves().len(), 0);
}

#[test]
fn test_possible_moves() {
    let mut board = Board::new(Outcome::Tie, Outcome::Tie);
    let first: Vec<usize> = board.possible_moves().iter().map(|m| m.0).collect();
    assert_eq!(first, vec![0, 1, 4]);
    board.play(Move(4));
    let second: Vec<usize> = board.possible_moves().iter().map(|m| m.0).collect();
    assert_eq!(second, vec![0, 1, 2, 3, 5, 6, 7, 8]);
}

#[test]
fn test_state_ids() {
    // mixed-radix encoding: preferences are the two leading ternary digits
    assert_eq!(Board::new(Outcome::Tie, Outcome::Tie).to_state().0, 0);
    assert_eq!(Board::new(Outcome::P0Win, Outcome::Tie).to_state().0, 3 * 19683);
    assert_eq!(Board::new(Outcome::Tie, Outcome::P0Win).to_state().0, 19683);

    // distinct cells give distinct ids
    let mut a = Board::new(Outcome::Tie, Outcome::Tie);
    a.play(Move(0));
    let mut b = Board::new(Outcome::Tie, Outcome::Tie);
    b.play(Move(1));
    assert_ne!(a.to_state().0, b.to_state().0);
}

#[test]
fn test_infoset_history() {
    let mut board = Board::new(Outcome::P1Win, Outcome::Tie);
    let base = board.to_base_infoset();
    assert_eq!(base.to_key(true), (1, 2));
    assert_eq!(base.to_key(false), (1, 0));
    let after = base.cons(Move(3));
    assert_eq!(after.to_key(true), (1 * 9 + 3, 2));
    board.play(Move(4));
    board.play(Move(3));
    // the board tracks the same history as consing each move
    assert_eq!(board.to_base_infoset().cons(Move(4)).cons(Move(3)).to_key(true).0, 120);
}

#[test]
fn test_possible_starts_covers_all_pairs() {
    let starts = Board::possible_starts();
    assert_eq!(starts.len(), 9);
    let mut ids: Vec<u32> = starts.iter().map(|b| b.to_state().0).collect();
    let sorted = ids.clone();
    ids.sort();
    assert_eq!(ids, sorted);
    ids.dedup();
    assert_eq!(ids.len(), 9);
}
