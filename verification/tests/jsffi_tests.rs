use ttt_cfr::game::{Board, Outcome};

#[test]
fn test_js_play_first_move_rotates() {
    // a first move at displayed cell 2 is stored as canonical cell 0
    let mut board = Board::new(Outcome::Tie, Outcome::Tie);
    board.js_play(2);
    assert_eq!(board.turn, 1);
    let view = board.js_view();
    assert_eq!(view.get_cell(2), 0);
    for i in 0..9usize {
        if i != 2 {
            assert_eq!(view.get_cell(i), 255);
        }
    }
    assert_eq!(view.get_cell(100), 255);
}

#[test]
fn test_js_play_ignores_bad_later_moves() {
    let mut board = Board::new(Outcome::Tie, Outcome::Tie);
    board.js_play(0);
    board.js_play(0);
    // the occupied cell is refused: still player 1's move, one mark placed
    assert_eq!(board.turn, 1);
    board.js_play(4);
    assert_eq!(board.turn, 2);
}

#[test]
fn test_js_view_scores_finished_game() {
    let mut board = Board::new(Outcome::P0Win, Outcome::Tie);
    for m in [0u8, 4, 1, 3, 2] {
        board.js_play(m);
    }
    let view = board.js_view();
    assert_eq!(view.outcome, 0);
    assert_eq!(view.util_p0, 1);
    assert_eq!(view.util_p1, 0);
    assert_eq!(view.wants_p0, 0);
    assert_eq!(view.wants_p1, 2);
    assert_eq!(view.player_turn, 1);
}

#[test]
fn test_js_play_center_first_move() {
    // the center is its own image under every rotation, whichever one the
    // board draws for it
    let mut board = Board::new(Outcome::Tie, Outcome::P0Win);
    board.js_play(4);
    assert_eq!(board.turn, 1);
    let view = board.js_view();
    assert_eq!(view.get_cell(4), 0);
    for i in 0..9usize {
        if i != 4 {
            assert_eq!(view.get_cell(i), 255);
        }
    }
}

#[test]
fn test_js_start_random_is_fresh() {
    let board = Board::js_start_random();
    assert_eq!(board.turn, 0);
    let view = board.js_view();
    assert_eq!(view.outcome, 255);
    for i in 0..9usize {
        assert_eq!(view.get_cell(i), 255);
    }
}
