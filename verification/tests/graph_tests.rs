use ttt_cfr::game::{Board, Move, Outcome};
use ttt_cfr::graph::map_game;

#[test]
fn test_map_game_initial_states() {
    let g = map_game();
    assert_eq!(g.initial.len(), 9);
    for k in 0..9u32 {
        let (state, infoset) = g.initial[k as usize];
        assert_eq!(state.0, k * 19683);
        assert_eq!(infoset.history, 1);
        assert_eq!(infoset.p0_private, k / 3);
        assert_eq!(infoset.p1_private, k % 3);
        assert!(g.states[state.0 as usize].is_some());
    }
}

#[test]
fn test_map_game_start_moves() {
    let g = map_game();
    let node = g.states[0].expect("start state stored");
    assert!(node.score.is_none());
    // the first move is restricted to the three canonical cells
    let mask = node.legal_mask();
    assert_eq!(mask, [true, true, false, false, true, false, false, false, false]);
}

#[test]
fn test_map_game_agrees_with_rules() {
    // walk the graph along a full game and compare with the rules engine
    let g = map_game();
    let mut board = Board::new(Outcome::P0Win, Outcome::Tie);
    let mut state = board.to_state();
    assert_eq!(state.0, 3 * 19683);
    for m in [0usize, 4, 1, 3, 2] {
        let node = g.states[state.0 as usize].expect("reachable state stored");
        assert!(node.score.is_none());
        let next = node.successors[m].expect("legal move has an edge");
        board.play(Move(m));
        assert_eq!(next.0, board.to_state().0);
        state = next;
    }
    let terminal = g.states[state.0 as usize].expect("terminal stored");
    assert_eq!(terminal.score, Some((1, 0)));
}
