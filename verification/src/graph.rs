use vstd::prelude::*;
use std::collections::{HashMap, HashSet};
use crate::game::{
    Board, Infoset, Outcome, State, count_filled, lemma_all_empty_when_unfilled,
    lemma_state_injective, lemma_state_of_bounds, lemma_state_of_same_position,
    lemma_state_of_start, outcome_of_int, start_board, state_of,
};

verus! {

broadcast use vstd::std_specs::hash::group_hash_axioms, vstd::array::group_array_axioms;

/// One stored state of the canonical game graph: for each of the nine move
/// indices the successor id (`None` where the move is illegal), and the
/// terminal utility pair where the position is scored.
#[derive(Clone, Copy, Debug)]
pub struct StateNode {
    pub successors: [Option<State>; 9],
    pub score: Option<(i8, i8)>,
}

impl StateNode {
    /// The mask of moves this state offers: exactly the recorded successors.
    pub fn legal_mask(&self) -> (r: [bool; 9])
        ensures
            forall|m: int| 0 <= m < 9 ==> r[m] == self.successors[m] is Some,
    {
        let r = [
            self.successors[0].is_some(),
            self.successors[1].is_some(),
            self.successors[2].is_some(),
            self.successors[3].is_some(),
            self.successors[4].is_some(),
            self.successors[5].is_some(),
            self.successors[6].is_some(),
            self.successors[7].is_some(),
            self.successors[8].is_some(),
        ];
        r
    }
}

/// Is this board the start configuration of its own preference pair?
pub open spec fn is_start(b: Board) -> bool {
    b == start_board(b.p0_wants, b.p1_wants)
}

/// Boards reachable by some derivation of at most `t` moves: a start board,
/// or one legal move played on a well-formed board reachable one step sooner.
pub open spec fn reachable_in(b: Board, t: nat) -> bool
    decreases t,
{
    if is_start(b) {
        true
    } else if t == 0 {
        false
    } else {
        exists|b0: Board, m: int|
            b0.wf() && reachable_in(b0, (t - 1) as nat) && #[trigger] b0.move_legal(m) && b
                == b0.play_spec(m)
    }
}

/// Boards reachable via legal play from some start configuration. A board's
/// turn counter bounds the length of any derivation that produces it.
pub open spec fn reachable(b: Board) -> bool {
    reachable_in(b, b.turn as nat)
}

/// What a stored node's terminal score must be: the two utilities of the
/// rules engine's scoring, or nothing at a non-terminal position.
pub open spec fn score_pair(b: Board) -> Option<(i8, i8)> {
    match b.score_spec() {
        Some((o, u0, u1)) => Some((u0, u1)),
        None => None,
    }
}

/// What a stored node's successor entry must be: the canonical id of the
/// board one legal move later, or nothing where the move is illegal.
pub open spec fn expected_succ(b: Board, m: int) -> Option<State> {
    if b.move_legal(m) {
        Some(State(state_of(b.play_spec(m)) as u32))
    } else {
        None
    }
}

/// The start configuration number `k` of nine, player 0's digit outermost.
pub open spec fn start_of(k: int) -> Board {
    start_board(outcome_of_int(k / 3), outcome_of_int(k % 3))
}

/// The infoset every player holds at start configuration `k`.
pub open spec fn base_infoset_of(k: int) -> Infoset {
    Infoset { p0_private: (k / 3) as u32, p1_private: (k % 3) as u32, history: 1 }
}

/// The immutable canonical state graph: the nine start states with their base
/// infosets, and a dense arena of nodes indexed by canonical state id, with
/// holes at unreachable ids. `boards` is the ghost decoding of each stored id
/// back to the board it stands for.
pub struct GameGraph {
    pub initial: Vec<(State, Infoset)>,
    pub states: Vec<Option<StateNode>>,
    pub boards: Ghost<Map<int, Board>>,
}

impl GameGraph {
    /// Everything the trainer relies on about one stored id: the id decodes
    /// to a well-formed reachable board, the stored score is the rules
    /// engine's, and the successor entries are exactly the legal moves, each
    /// pointing at a stored id.
    pub open spec fn state_ok(self, s: int) -> bool {
        let b = self.boards@[s];
        &&& self.boards@.contains_key(s)
        &&& b.wf()
        &&& reachable(b)
        &&& state_of(b) == s
        &&& self.states@[s].unwrap().score == score_pair(b)
        &&& forall|m: int| 0 <= m < 9
            ==> self.states@[s].unwrap().successors[m] == expected_succ(b, m)
        &&& forall|m: int| 0 <= m < 9 && #[trigger] b.move_legal(m)
            ==> 0 <= state_of(b.play_spec(m)) < self.states@.len()
                && self.states@[state_of(b.play_spec(m))] is Some
    }

    pub open spec fn wf(self) -> bool {
        &&& self.states@.len() <= 177147
        &&& forall|s: int| 0 <= s < self.states@.len() && #[trigger] self.states@[s] is Some
            ==> self.state_ok(s)
    }

    /// The `initial` list holds exactly the nine start configurations, ids
    /// ascending, each stored in the arena.
    pub open spec fn initial_ok(self) -> bool {
        &&& self.initial@.len() == 9
        &&& forall|k: int| 0 <= k < 9 ==> (#[trigger] self.initial@[k]).0.0 == k * 19683
            && self.initial@[k].1 == base_infoset_of(k)
        &&& forall|k: int| 0 <= k < 9
            ==> 0 <= k * 19683 < self.states@.len() && #[trigger] self.states@[k * 19683] is Some
    }
}

/// What must hold of a queue entry not yet dequeued: a sound board, and for a
/// non-seed entry the recorded predecessor edge data.
spec fn pending_ok(e: (Option<(u32, usize)>, Board), reached: Set<u32>, bmap: Map<int, Board>) -> bool {
    &&& e.1.wf()
    &&& reachable(e.1)
    &&& match e.0 {
        Some((ps, m)) => reached.contains(ps) && 0 <= m < 9 && bmap[ps as int].move_legal(m as int)
            && e.1 == bmap[ps as int].play_spec(m as int),
        None => is_start(e.1),
    }
}

/// Expands a state on its first visit: appends one queue entry per legal move
/// of its board, each carrying the predecessor edge it will record.
#[verifier::loop_isolation(false)]
fn expand_state(queue: &mut Vec<(Option<(u32, usize)>, Board)>, board: Board, sid: u32)
    requires
        board.wf(),
        reachable(board),
    ensures
        old(queue)@.len() <= final(queue)@.len(),
        forall|q: int| 0 <= q < old(queue)@.len() ==> final(queue)@[q] == old(queue)@[q],
        forall|m: int| #[trigger] board.move_legal(m) ==> exists|q: int|
            old(queue)@.len() <= q < final(queue)@.len() && #[trigger] final(queue)@[q] == (
                Some((sid, m as usize)),
                board.play_spec(m),
            ),
        forall|q: int| old(queue)@.len() <= q < final(queue)@.len() ==> {
            let e = #[trigger] final(queue)@[q];
            &&& e.0 is Some
            &&& e.0.unwrap().0 == sid
            &&& board.move_legal(e.0.unwrap().1 as int)
            &&& e.1 == board.play_spec(e.0.unwrap().1 as int)
            &&& e.1.wf()
            &&& reachable(e.1)
        },
{
    let moves = board.possible_moves();
    let ghost qbase = queue@.len() as int;
    let mut mi: usize = 0;
    while mi < moves.len()
        invariant
            mi <= moves@.len(),
            queue@.len() == qbase + mi,
            forall|q: int| 0 <= q < qbase ==> queue@[q] == old(queue)@[q],
            forall|j: int| 0 <= j < mi ==> #[trigger] queue@[qbase + j] == (
                Some((sid, moves@[j].0)),
                board.play_spec(moves@[j].0 as int),
            ),
            forall|j: int| 0 <= j < mi ==> board.play_spec((#[trigger] moves@[j]).0 as int).wf()
                && reachable(board.play_spec(moves@[j].0 as int)),
        decreases moves@.len() - mi,
    {
        let mv = moves[mi];
        proof {
            assert(board.move_legal(mv.0 as int));
            if board.turn == 0 {
                lemma_all_empty_when_unfilled(board.cells@, 9);
            }
        }
        let mut b2 = board;
        b2.play(mv);
        proof {
            // one more legal move keeps the board reachable
            assert(reachable_in(b2, b2.turn as nat)) by {
                if !is_start(b2) {
                    assert(board.wf() && reachable_in(board, (b2.turn - 1) as nat)
                        && board.move_legal(mv.0 as int) && b2 == board.play_spec(mv.0 as int));
                }
            }
        }
        queue.push((Some((sid, mv.0)), b2));
        mi = mi + 1;
    }
    proof {
        assert forall|m: int| #[trigger] board.move_legal(m) implies exists|q: int|
            qbase <= q < queue@.len() && #[trigger] queue@[q] == (
                Some((sid, m as usize)),
                board.play_spec(m),
            ) by {
            let j = choose|j: int| 0 <= j < moves@.len() && (#[trigger] moves@[j]).0 == m;
            assert(queue@[qbase + j] == (Some((sid, m as usize)), board.play_spec(m)));
        }
        assert forall|q: int| qbase <= q < queue@.len() implies {
            let e = #[trigger] queue@[q];
            &&& e.0 is Some
            &&& e.0.unwrap().0 == sid
            &&& board.move_legal(e.0.unwrap().1 as int)
            &&& e.1 == board.play_spec(e.0.unwrap().1 as int)
            &&& e.1.wf()
            &&& reachable(e.1)
        } by {
            let j = q - qbase;
            assert(queue@[qbase + j] == (
                Some((sid, moves@[j].0)),
                board.play_spec(moves@[j].0 as int),
            ));
            assert(board.move_legal(moves@[j].0 as int));
        }
    }
}

/// Builds the canonical state graph: a breadth-first enumeration from all
/// nine start configurations, recording every edge and every terminal score,
/// deduplicated by canonical state id, then compacted into a dense arena
/// sized by the largest id reached.
/// Seeds the enumeration: the nine start configurations, ids ascending, and
/// one queue entry for each.
#[verifier::loop_isolation(false)]
fn seed_starts() -> (r: (Vec<(State, Infoset)>, Vec<(Option<(u32, usize)>, Board)>))
    ensures
        r.0@.len() == 9,
        forall|q: int| 0 <= q < 9 ==> (#[trigger] r.0@[q]).0.0 == q * 19683 && r.0@[q].1
            == base_infoset_of(q),
        r.1@.len() == 9,
        forall|q: int| 0 <= q < 9 ==> #[trigger] r.1@[q] == (
            Option::<(u32, usize)>::None,
            start_of(q),
        ),
        forall|q: int| 0 <= q < 9 ==> (#[trigger] start_of(q)).wf(),
{
    let mut initial: Vec<(State, Infoset)> = Vec::new();
    let mut queue: Vec<(Option<(u32, usize)>, Board)> = Vec::new();
    let starts = Board::possible_starts();
    let mut k: usize = 0;
    while k < 9
        invariant
            k <= 9,
            starts@.len() == 9,
            forall|q: int| 0 <= q < 9 ==> starts@[q] == start_of(q) && (#[trigger] starts@[q]).wf(),
            initial@.len() == k,
            forall|q: int| 0 <= q < k ==> (#[trigger] initial@[q]).0.0 == q * 19683
                && initial@[q].1 == base_infoset_of(q),
            queue@.len() == k,
            forall|q: int| 0 <= q < k ==> #[trigger] queue@[q] == (
                Option::<(u32, usize)>::None,
                start_of(q),
            ),
        decreases 9 - k,
    {
        let b = starts[k];
        let s = b.to_state();
        proof {
            lemma_state_of_start(b.p0_wants, b.p1_wants);
            assert(outcome_of_int(k as int / 3).as_int() == k as int / 3);
            assert(outcome_of_int(k as int % 3).as_int() == k as int % 3);
            assert((k as int / 3) * 3 + k as int % 3 == k as int) by {
                vstd::arithmetic::div_mod::lemma_fundamental_div_mod(k as int, 3);
            }
        }
        initial.push((s, b.to_base_infoset()));
        queue.push((None, b));
        k = k + 1;
    }
    proof {
        assert forall|q: int| 0 <= q < 9 implies (#[trigger] start_of(q)).wf() by {
            assert(starts@[q].wf());
            assert(starts@[q] == start_of(q));
        }
    }
    (initial, queue)
}

#[verifier::loop_isolation(false)]
#[verifier::rlimit(100)]
#[verifier::spinoff_prover]
pub fn map_game() -> (g: GameGraph)
    ensures
        g.wf(),
        g.initial_ok(),
{
    let mut reached: HashSet<u32> = HashSet::new();
    let mut edges: HashMap<u32, [Option<State>; 9]> = HashMap::new();
    let mut scores: HashMap<u32, (i8, i8)> = HashMap::new();
    let mut max_state: u32 = 0;
    let ghost mut bmap: Map<int, Board> = Map::empty();
    let ghost mut visited: Set<int> = Set::empty();

    let (initial, mut queue) = seed_starts();

    let mut head: usize = 0;
    proof {
        assert forall|k: int| #![trigger start_of(k)] 0 <= k < 9 implies exists|q: int|
            0 <= q < queue@.len() && #[trigger] queue@[q] == (
                Option::<(u32, usize)>::None,
                start_of(k),
            ) by {
            assert(queue@[k] == (Option::<(u32, usize)>::None, start_of(k)));
        }
    }
    while head < queue.len()
        invariant
            head <= queue.len(),
            // ghost bookkeeping of the visited set
            visited.finite(),
            forall|x: u32| reached@.contains(x) <==> visited.contains(x as int),
            forall|x: int| #[trigger] visited.contains(x) ==> 0 <= x < 177147,
            // every reached id decodes to a well-formed reachable board
            forall|x: u32| #[trigger] reached@.contains(x) ==> bmap.contains_key(x as int)
                && bmap[x as int].wf() && reachable(bmap[x as int])
                && state_of(bmap[x as int]) == x as int && x <= max_state,
            // pending queue entries carry sound boards and edges to record
            forall|q: int| head <= q < queue@.len()
                ==> pending_ok(#[trigger] queue@[q], reached@, bmap),
            // recorded edges are sound
            forall|x: u32| #[trigger] edges@.contains_key(x) ==> reached@.contains(x)
                && forall|m: int| 0 <= m < 9 && (#[trigger] edges@[x][m]) is Some
                    ==> bmap[x as int].move_legal(m) && edges@[x][m].unwrap().0 == state_of(
                    bmap[x as int].play_spec(m),
                ) && reached@.contains(edges@[x][m].unwrap().0),
            // every legal move of a reached id has its edge recorded, or a
            // queue entry still pending for it
            forall|x: u32, m: int| #[trigger] reached@.contains(x) && #[trigger] bmap[
                x as int
            ].move_legal(m) ==> (edges@.contains_key(x) && edges@[x][m] == Some(
                State(state_of(bmap[x as int].play_spec(m)) as u32),
            )) || exists|q: int| head <= q < queue@.len() && #[trigger] queue@[q] == (
                Some((x, m as usize)),
                bmap[x as int].play_spec(m),
            ),
            // recorded scores are exactly the rules engine's
            forall|x: u32| #[trigger] reached@.contains(x) ==> match score_pair(bmap[x as int]) {
                Some(p) => scores@.contains_key(x) && scores@[x] == p,
                None => !scores@.contains_key(x),
            },
            forall|x: u32| #[trigger] scores@.contains_key(x) ==> reached@.contains(x),
            max_state < 177147,
            // each start configuration is reached or still pending
            forall|k: int| 0 <= k < 9 ==> #[trigger] reached@.contains((k * 19683) as u32)
                || exists|q: int| head <= q < queue@.len() && #[trigger] queue@[q] == (
                    Option::<(u32, usize)>::None,
                    start_of(k),
                ),
        decreases 177147 - visited.len(), queue.len() - head,
    {
        let ghost head0 = head as int;
        let ghost queue0 = queue@;
        let ghost reached0 = reached@;
        let ghost bmap0 = bmap;
        let entry = queue[head];
        head = head + 1;
        let pred = entry.0;
        let board = entry.1;
        let state = board.to_state();
        proof {
            assert(queue0[head0] == entry);
            assert(pending_ok(entry, reached0, bmap0));
            lemma_state_of_bounds(board);
        }

        match pred {
            Some(pm) => {
                let ps = pm.0;
                let m = pm.1;
                let mut arr: [Option<State>; 9] = match edges.get(&ps) {
                    Some(a) => *a,
                    None => [None; 9],
                };
                let ghost arr0 = arr;
                arr[m] = Some(state);
                proof {
                    assert(arr@ =~= arr0@.update(m as int, Some(state)));
                }
                edges.insert(ps, arr);
            },
            None => {},
        }

        if !reached.contains(&state.0) {
            reached.insert(state.0);
            proof {
                bmap = bmap.insert(state.0 as int, board);
                visited = visited.insert(state.0 as int);
                vstd::set_lib::lemma_int_range(0, 177147);
                vstd::set_lib::lemma_len_subset(
                    visited,
                    vstd::set_lib::set_int_range(0, 177147),
                );
            }
            if max_state < state.0 {
                max_state = state.0;
            }
            match board.score() {
                Some(sc) => {
                    scores.insert(state.0, (sc.1, sc.2));
                },
                None => {},
            }

            expand_state(&mut queue, board, state.0);
            proof {
                // every legal move of the newly reached state is now pending
                assert forall|m: int| bmap[state.0 as int].move_legal(m) implies exists|q: int|
                    head <= q < queue@.len() && #[trigger] queue@[q] == (
                        Some((state.0, m as usize)),
                        bmap[state.0 as int].play_spec(m),
                    ) by {
                    assert(board.move_legal(m));
                    let q = choose|q: int|
                        queue0.len() <= q < queue@.len() && #[trigger] queue@[q] == (
                            Some((state.0, m as usize)),
                            board.play_spec(m),
                        );
                    assert(head <= q);
                }
                // old and new pending entries stay sound
                assert forall|q: int| head <= q < queue@.len() implies pending_ok(
                    #[trigger] queue@[q],
                    reached@,
                    bmap,
                ) by {
                    if q < queue0.len() {
                        assert(queue@[q] == queue0[q]);
                        assert(pending_ok(queue0[q], reached0, bmap0));
                        match queue0[q].0 {
                            Some((ps, m)) => {
                                assert(reached0.contains(ps));
                                assert(ps != state.0);
                                assert(bmap[ps as int] == bmap0[ps as int]);
                            },
                            None => {},
                        }
                    } else {
                        let e = queue@[q];
                        assert(e.0 is Some && e.0.unwrap().0 == state.0);
                        assert(bmap[state.0 as int] == board);
                    }
                }
            }
        }

        proof {
            // pending witnesses of other states survive the dequeue
            assert forall|x: u32, m: int|
                reached0.contains(x) && #[trigger] bmap[x as int].move_legal(m) && !(
                edges@.contains_key(x) && edges@[x][m] == Some(
                    State(state_of(bmap[x as int].play_spec(m)) as u32),
                )) implies exists|q: int| head <= q < queue@.len() && #[trigger] queue@[q] == (
                Some((x, m as usize)),
                bmap[x as int].play_spec(m),
            ) by {
                let q0 = choose|q: int| head0 <= q < queue0.len() && #[trigger] queue0[q] == (
                    Some((x, m as usize)),
                    bmap[x as int].play_spec(m),
                );
                if q0 == head0 {
                    // this very entry was just recorded as an edge
                    assert(false);
                } else {
                    assert(queue@[q0] == queue0[q0]);
                }
            }

            // every start configuration stays reached or pending
            assert forall|k: int| 0 <= k < 9 implies #[trigger] reached@.contains((k * 19683) as u32)
                || exists|q: int| head <= q < queue@.len() && #[trigger] queue@[q] == (
                Option::<(u32, usize)>::None,
                start_of(k),
            ) by {
                if !reached0.contains((k * 19683) as u32) {
                    let q0 = choose|q: int| head0 <= q < queue0.len() && #[trigger] queue0[q] == (
                        Option::<(u32, usize)>::None,
                        start_of(k),
                    );
                    if q0 == head0 {
                        assert(board == start_of(k));
                        lemma_state_of_start(board.p0_wants, board.p1_wants);
                        assert(outcome_of_int(k / 3).as_int() == k / 3);
                        assert(outcome_of_int(k % 3).as_int() == k % 3);
                        assert((k / 3) * 3 + k % 3 == k) by {
                            vstd::arithmetic::div_mod::lemma_fundamental_div_mod(k, 3);
                        }
                        assert(state.0 == k * 19683);
                        assert(reached@.contains((k * 19683) as u32));
                    } else {
                        assert(queue@[q0] == queue0[q0]);
                    }
                }
            }
        }
    }

    proof {
        // the queue is drained, so every edge must be recorded
        assert forall|x: u32, m: int| #[trigger] reached@.contains(x) && #[trigger] bmap[
            x as int
        ].move_legal(m) implies edges@.contains_key(x) && edges@[x][m] == Some(
            State(state_of(bmap[x as int].play_spec(m)) as u32),
        ) by {
            assert(!(exists|q: int| head <= q < queue@.len() && #[trigger] queue@[q] == (
                Some((x, m as usize)),
                bmap[x as int].play_spec(m),
            )));
        }
    }

    let states = build_arena(&reached, &edges, &scores, max_state, Ghost(bmap));

    let g = GameGraph { initial, states, boards: Ghost(bmap) };
    proof {
        lemma_arena_wf(g, reached@, edges@, max_state);
        assert forall|k: int| 0 <= k < 9 implies 0 <= k * 19683 < g.states@.len()
            && #[trigger] g.states@[k * 19683] is Some by {
            assert(reached@.contains((k * 19683) as u32));
            assert(((k * 19683) as u32) <= max_state);
        }
    }
    g
}

/// Compacts the sets a drained breadth-first enumeration leaves behind into
/// the dense arena, holes standing at the unreached ids.
#[verifier::loop_isolation(false)]
#[verifier::rlimit(100)]
fn build_arena(
    reached: &HashSet<u32>,
    edges: &HashMap<u32, [Option<State>; 9]>,
    scores: &HashMap<u32, (i8, i8)>,
    max_state: u32,
    Ghost(bmap): Ghost<Map<int, Board>>,
) -> (states: Vec<Option<StateNode>>)
    requires
        max_state < 177147,
        forall|x: u32| #[trigger] reached@.contains(x) ==> bmap.contains_key(x as int) && bmap[
            x as int
        ].wf() && state_of(bmap[x as int]) == x as int && x <= max_state,
        forall|x: u32| #[trigger] edges@.contains_key(x) ==> reached@.contains(x)
            && forall|m: int| 0 <= m < 9 && (#[trigger] edges@[x][m]) is Some
                ==> bmap[x as int].move_legal(m),
        forall|x: u32, m: int| #[trigger] reached@.contains(x) && #[trigger] bmap[
            x as int
        ].move_legal(m) ==> edges@.contains_key(x) && edges@[x][m] == Some(
            State(state_of(bmap[x as int].play_spec(m)) as u32),
        ),
        forall|x: u32| #[trigger] reached@.contains(x) ==> match score_pair(bmap[x as int]) {
            Some(p) => scores@.contains_key(x) && scores@[x] == p,
            None => !scores@.contains_key(x),
        },
    ensures
        states@.len() == max_state + 1,
        forall|s: int| 0 <= s < states@.len() ==> ((#[trigger] states@[s]) is Some
            <==> reached@.contains(s as u32)),
        forall|s: int| 0 <= s < states@.len() && (#[trigger] states@[s]) is Some ==> states@[
            s
        ].unwrap().score == score_pair(bmap[s]) && forall|m: int| 0 <= m < 9 ==> states@[
            s
        ].unwrap().successors[m] == expected_succ(bmap[s], m),
{
    let mut states: Vec<Option<StateNode>> = Vec::new();
    let mut id: u32 = 0;
    while id <= max_state
        invariant
            states@.len() == id,
            id <= max_state + 1,
            forall|s: int| 0 <= s < id ==> ((#[trigger] states@[s]) is Some <==> reached@.contains(
                s as u32,
            )),
            forall|s: int| 0 <= s < id && (#[trigger] states@[s]) is Some ==> states@[
                s
            ].unwrap().score == score_pair(bmap[s]) && forall|m: int| 0 <= m < 9 ==> states@[
                s
            ].unwrap().successors[m] == expected_succ(bmap[s], m),
        decreases max_state + 1 - id,
    {
        if reached.contains(&id) {
            let succ: [Option<State>; 9] = match edges.get(&id) {
                Some(a) => *a,
                None => [None; 9],
            };
            let sc: Option<(i8, i8)> = match scores.get(&id) {
                Some(p) => Some(*p),
                None => None,
            };
            proof {
                let b = bmap[id as int];
                assert forall|m: int| 0 <= m < 9 implies succ@[m] == expected_succ(b, m) by {
                    if b.move_legal(m) {
                        assert(edges@.contains_key(id) && edges@[id][m] == Some(
                            State(state_of(b.play_spec(m)) as u32),
                        ));
                    } else {
                        if succ@[m] is Some {
                            assert(edges@.contains_key(id));
                            assert(b.move_legal(m));
                        }
                    }
                }
            }
            states.push(Some(StateNode { successors: succ, score: sc }));
        } else {
            states.push(None);
        }
        id = id + 1;
    }
    states
}

/// Completeness of the graph: every well-formed reachable board has its
/// canonical id stored in the arena. Together with `wf`, which says every
/// stored id decodes to a reachable board, the arena holds exactly the
/// reachable ids.
pub proof fn lemma_graph_complete(g: GameGraph, b: Board, t: nat)
    requires
        g.wf(),
        g.initial_ok(),
        b.wf(),
        reachable_in(b, t),
    ensures
        0 <= state_of(b) < g.states@.len(),
        g.states@[state_of(b)] is Some,
    decreases t,
{
    if is_start(b) {
        let k = b.p0_wants.as_int() * 3 + b.p1_wants.as_int();
        lemma_state_of_start(b.p0_wants, b.p1_wants);
        assert(0 <= k < 9);
        assert(g.states@[k * 19683] is Some);
    } else {
        let (b0, m) = choose|b0: Board, m: int|
            b0.wf() && reachable_in(b0, (t - 1) as nat) && #[trigger] b0.move_legal(m) && b
                == b0.play_spec(m);
        lemma_graph_complete(g, b0, (t - 1) as nat);
        let s0 = state_of(b0);
        assert(g.state_ok(s0));
        let stored = g.boards@[s0];
        // the stored board for this id shares b0's position
        lemma_state_injective(stored, b0);
        assert(count_filled(stored.cells@, 9) == count_filled(b0.cells@, 9));
        assert(stored.turn == b0.turn);
        assert(stored.move_legal(m));
        assert(g.states@[state_of(stored.play_spec(m))] is Some);
        // playing the same move on either board lands on the same id
        assert(stored.play_spec(m).cells == b0.play_spec(m).cells);
        lemma_state_of_same_position(stored.play_spec(m), b0.play_spec(m));
    }
}

/// Packaging of the arena's well-formedness: a dense array whose entries
/// mirror a sound, drained breadth-first enumeration is a well-formed graph.
proof fn lemma_arena_wf(
    g: GameGraph,
    reached: Set<u32>,
    edges: Map<u32, [Option<State>; 9]>,
    max_state: u32,
)
    requires
        max_state < 177147,
        g.states@.len() == max_state + 1,
        forall|x: u32| #[trigger] reached.contains(x) ==> g.boards@.contains_key(x as int)
            && g.boards@[x as int].wf() && reachable(g.boards@[x as int]) && state_of(
            g.boards@[x as int],
        ) == x as int && x <= max_state,
        forall|s: int| 0 <= s < g.states@.len() ==> ((#[trigger] g.states@[s]) is Some
            <==> reached.contains(s as u32)),
        forall|s: int| 0 <= s < g.states@.len() && (#[trigger] g.states@[s]) is Some ==> g.states@[
            s
        ].unwrap().score == score_pair(g.boards@[s]) && forall|m: int| 0 <= m < 9 ==> g.states@[
            s
        ].unwrap().successors[m] == expected_succ(g.boards@[s], m),
        forall|x: u32| #[trigger] edges.contains_key(x) ==> reached.contains(x)
            && forall|m: int| 0 <= m < 9 && (#[trigger] edges[x][m]) is Some
                ==> reached.contains(edges[x][m].unwrap().0),
        forall|x: u32, m: int| #[trigger] reached.contains(x) && #[trigger] g.boards@[
            x as int
        ].move_legal(m) ==> edges.contains_key(x) && edges[x][m] == Some(
            State(state_of(g.boards@[x as int].play_spec(m)) as u32),
        ),
    ensures
        g.wf(),
{
    assert forall|s: int| 0 <= s < g.states@.len() && #[trigger] g.states@[s] is Some
        implies g.state_ok(s) by {
        assert(reached.contains(s as u32));
        let b = g.boards@[s];
        assert forall|m: int| 0 <= m < 9 && #[trigger] b.move_legal(m) implies 0 <= state_of(
            b.play_spec(m),
        ) < g.states@.len() && g.states@[state_of(b.play_spec(m))] is Some by {
            let t = state_of(b.play_spec(m));
            lemma_state_of_bounds(b.play_spec(m));
            assert(edges.contains_key(s as u32) && edges[s as u32][m] == Some(State(t as u32)));
            assert(reached.contains((t as u32)));
            assert((t as u32) <= max_state);
        }
    }
}

} // verus!
