use vstd::prelude::*;
use crate::rotation::Rotation;

verus! {

broadcast use vstd::array::group_array_axioms;

/// Number of cells on the board, which is also the number of move indices.
pub const N_MOVES: usize = 9;

/// What a single cell holds.
#[derive(Clone, Copy, PartialEq, Eq, Structural, Debug)]
pub enum CellValue {
    Empty,
    P0,
    P1,
}

/// A final result of a game. Each player privately wants one of these, and is
/// scored by whether the realized outcome matches that private preference.
#[derive(Clone, Copy, PartialEq, Eq, Structural, Debug)]
pub enum Outcome {
    Tie,
    P0Win,
    P1Win,
}

/// A move: the index of the cell to mark, 0 to 8.
#[derive(Clone, Copy, PartialEq, Eq, Structural, Debug)]
pub struct Move(pub usize);

/// What one player can observe of a game: the public move history plus both
/// private preferences. A player's key into the learned tables uses only the
/// history and that player's own preference (`to_key`), which is what makes
/// the game one of imperfect information.
///
/// `history` encodes the exact move sequence as a base-9 number with a
/// leading sentinel digit 1.
#[derive(Clone, Copy, PartialEq, Eq, Structural, Debug, Hash)]
pub struct Infoset {
    pub p0_private: u32,
    pub p1_private: u32,
    pub history: u32,
}

impl CellValue {
    /// Ternary digit of a cell, used by the canonical state encoding.
    pub fn to_smallint(self) -> (r: u32)
        ensures
            r == self.as_int(),
    {
        match self {
            CellValue::Empty => 0,
            CellValue::P0 => 1,
            CellValue::P1 => 2,
        }
    }

    pub open spec fn as_int(self) -> int {
        match self {
            CellValue::Empty => 0,
            CellValue::P0 => 1,
            CellValue::P1 => 2,
        }
    }
}

impl Outcome {
    /// Ternary digit of an outcome, used by the canonical state encoding
    /// and by infoset keys.
    pub fn to_smallint(self) -> (r: u32)
        ensures
            r == self.as_int(),
    {
        match self {
            Outcome::Tie => 0,
            Outcome::P0Win => 1,
            Outcome::P1Win => 2,
        }
    }

    pub open spec fn as_int(self) -> int {
        match self {
            Outcome::Tie => 0,
            Outcome::P0Win => 1,
            Outcome::P1Win => 2,
        }
    }
}

/// The full, ephemeral game position: nine cells, both hidden preferences,
/// the number of moves made so far, plus the presentation-layer rotation and
/// the running infoset.
#[derive(Clone, Copy)]
pub struct Board {
    pub rotation: Rotation,
    pub cells: [CellValue; 9],
    pub p0_wants: Outcome,
    pub p1_wants: Outcome,
    pub turn: u8,
    pub infoset: Infoset,
}

/// 9^e, the radix weights of a move history.
pub open spec fn pow9(e: nat) -> int
    decreases e,
{
    if e == 0 {
        1
    } else {
        9 * pow9((e - 1) as nat)
    }
}

impl Infoset {
    /// The base-9 history invariant: a history after `turn` moves sits
    /// between 9^turn and 9^(turn+1), because it starts at the sentinel 1 and
    /// each move appends one base-9 digit.
    pub open spec fn wf(self, turn: int) -> bool {
        &&& pow9(turn as nat) <= self.history < pow9((turn + 1) as nat)
        &&& 0 <= self.p0_private < 3
        &&& 0 <= self.p1_private < 3
    }

    /// Appends one move to the public history.
    pub fn cons(&self, m: Move) -> (r: Infoset)
        requires
            m.0 < 9,
            9 * self.history + 9 <= u32::MAX,
        ensures
            r.history == 9 * self.history + m.0,
            r.p0_private == self.p0_private,
            r.p1_private == self.p1_private,
    {
        let mut is2 = *self;
        is2.history = is2.history * 9;
        is2.history = is2.history + m.0 as u32;
        is2
    }

    /// The key this infoset presents to the acting player: the public history
    /// plus only that player's own hidden preference. The opponent's
    /// preference is deliberately omitted.
    pub fn to_key(&self, as_p0: bool) -> (r: (u32, u32))
        ensures
            r.0 == self.history,
            r.1 == if as_p0 { self.p0_private } else { self.p1_private },
    {
        (self.history, if as_p0 { self.p0_private } else { self.p1_private })
    }
}

impl Board {
    /// Well-formedness of a board as produced by `new`, `possible_starts` and
    /// `play`: the turn counter equals the number of marked cells, the
    /// history tracks the turn, and the infoset's private digits match the
    /// hidden preferences.
    pub open spec fn wf(self) -> bool {
        &&& self.turn <= 9
        &&& self.turn as int == count_filled(self.cells@, 9)
        &&& self.infoset.wf(self.turn as int)
        &&& self.infoset.p0_private == self.p0_wants.as_int()
        &&& self.infoset.p1_private == self.p1_wants.as_int()
    }

    /// Whose mark the next move places.
    pub open spec fn next_to_move_spec(self) -> CellValue {
        if self.turn % 2 == 0 {
            CellValue::P0
        } else {
            CellValue::P1
        }
    }

    pub fn next_to_move(&self) -> (r: CellValue)
        ensures
            r == self.next_to_move_spec(),
    {
        if self.turn % 2 == 0 {
            CellValue::P0
        } else {
            CellValue::P1
        }
    }

    /// The fresh board for one start configuration: all cells empty, rotation
    /// straight, history at its sentinel value 1.
    pub fn new(p0_wants: Outcome, p1_wants: Outcome) -> (r: Board)
        ensures
            r == start_board(p0_wants, p1_wants),
            r.wf(),
    {
        let r = Board {
            rotation: Rotation::Straight,
            cells: [CellValue::Empty; 9],
            p0_wants,
            p1_wants,
            turn: 0,
            infoset: Infoset {
                history: 1,
                p0_private: p0_wants.to_smallint(),
                p1_private: p1_wants.to_smallint(),
            },
        };
        proof {
            lemma_count_filled_all_empty(r.cells@, 9);
            reveal_with_fuel(pow9, 2);
            assert(pow9(0nat) == 1 && pow9(1nat) == 9);
            assert(r.cells =~= start_board(p0_wants, p1_wants).cells);
        }
        r
    }

    /// Is `m` allowed on this board? Over at nine moves; the very first move
    /// is restricted to the three canonical cells 0, 1 and 4 (the other six
    /// are their images under rotation); afterwards, any empty cell.
    pub open spec fn move_legal(self, m: int) -> bool {
        &&& 0 <= m < 9
        &&& self.turn < 9
        &&& if self.turn == 0 {
            m == 0 || m == 1 || m == 4
        } else {
            self.cells[m] is Empty
        }
    }

    /// Lists the legal moves, in increasing cell order.
    pub fn possible_moves(&self) -> (r: Vec<Move>)
        ensures
            forall|k: int| 0 <= k < r@.len() ==> self.move_legal((#[trigger] r@[k]).0 as int),
            forall|m: int| #[trigger] self.move_legal(m) ==> exists|k: int|
                0 <= k < r@.len() && (#[trigger] r@[k]).0 == m,
            forall|k1: int, k2: int| 0 <= k1 < k2 < r@.len()
                ==> (#[trigger] r@[k1]).0 < (#[trigger] r@[k2]).0,
    {
        if self.turn >= 9 {
            return vec![];
        }
        if self.turn == 0 {
            let r = vec![Move(0), Move(1), Move(4)];
            proof {
                assert forall|m: int| #[trigger] self.move_legal(m) implies exists|k: int|
                    0 <= k < r@.len() && r@[k].0 == m by {
                    if m == 0 {
                        assert(r@[0].0 == m);
                    } else if m == 1 {
                        assert(r@[1].0 == m);
                    } else {
                        assert(r@[2].0 == m);
                    }
                }
            }
            return r;
        }

        let mut out: Vec<Move> = Vec::new();
        let mut i: usize = 0;
        while i < 9
            invariant
                i <= 9,
                self.turn != 0,
                self.turn < 9,
                forall|k: int| 0 <= k < out@.len()
                    ==> self.move_legal((#[trigger] out@[k]).0 as int) && out@[k].0 < i,
                forall|m: int| 0 <= m < i && #[trigger] self.move_legal(m) ==> exists|k: int|
                    0 <= k < out@.len() && (#[trigger] out@[k]).0 == m,
                forall|k1: int, k2: int| 0 <= k1 < k2 < out@.len()
                    ==> (#[trigger] out@[k1]).0 < (#[trigger] out@[k2]).0,
            decreases 9 - i,
        {
            if matches!(self.cells[i], CellValue::Empty) {
                assert(self.move_legal(i as int));
                let ghost out0 = out@;
                out.push(Move(i));
                proof {
                    assert forall|m: int| 0 <= m <= i && self.move_legal(m) implies exists|k: int|
                        0 <= k < out@.len() && (#[trigger] out@[k]).0 == m by {
                        if m == i as int {
                            assert(out@[out@.len() - 1].0 == m);
                        } else {
                            let k = choose|k: int| 0 <= k < out0.len() && (#[trigger] out0[k]).0 == m;
                            assert(out@[k].0 == m);
                        }
                    }
                }
            }
            i = i + 1;
        }
        out
    }

    /// Marks cell `m.0` for the player to move, advances the turn counter and
    /// appends the move to the public history.
    pub fn play(&mut self, m: Move)
        requires
            old(self).wf(),
            m.0 < 9,
            old(self).cells[m.0 as int] is Empty,
        ensures
            *final(self) == old(self).play_spec(m.0 as int),
            final(self).wf(),
    {
        proof {
            lemma_count_filled_lt(self.cells@, m.0 as int, 9);
            lemma_pow9_bounds(self.turn as nat);
            lemma_pow9_bounds((self.turn + 1) as nat);
        }
        self.cells[m.0] = self.next_to_move();
        proof {
            lemma_count_filled_update(old(self).cells@, m.0 as int, old(self).next_to_move_spec(), 9);
        }
        self.turn = self.turn + 1;
        self.infoset = self.infoset.cons(m);
    }

    /// The board after playing move `m`, as a value.
    pub open spec fn play_spec(self, m: int) -> Board {
        Board {
            cells: vstd::array::spec_array_update(self.cells, m, self.next_to_move_spec()),
            turn: (self.turn + 1) as u8,
            infoset: Infoset {
                history: (9 * self.infoset.history + m) as u32,
                ..self.infoset
            },
            ..self
        }
    }

    /// Does `p` own a completed line of three?
    pub open spec fn has_line(self, p: CellValue) -> bool {
        ||| (self.cells[0] == p && self.cells[1] == p && self.cells[2] == p)
        ||| (self.cells[3] == p && self.cells[4] == p && self.cells[5] == p)
        ||| (self.cells[6] == p && self.cells[7] == p && self.cells[8] == p)
        ||| (self.cells[0] == p && self.cells[3] == p && self.cells[6] == p)
        ||| (self.cells[1] == p && self.cells[4] == p && self.cells[7] == p)
        ||| (self.cells[2] == p && self.cells[5] == p && self.cells[8] == p)
        ||| (self.cells[0] == p && self.cells[4] == p && self.cells[8] == p)
        ||| (self.cells[2] == p && self.cells[4] == p && self.cells[6] == p)
    }

    /// The realized outcome, if the game is over: a completed line wins for
    /// its owner (a line of player 0's marks is checked first), and a board
    /// with nine moves played and no line is a tie.
    pub open spec fn outcome_spec(self) -> Option<Outcome> {
        if self.has_line(CellValue::P0) {
            Some(Outcome::P0Win)
        } else if self.has_line(CellValue::P1) {
            Some(Outcome::P1Win)
        } else if self.turn >= 9 {
            Some(Outcome::Tie)
        } else {
            None
        }
    }

    /// What `score` returns: the outcome plus each player's utility, which is
    /// 1 exactly when the outcome matches that player's private preference.
    pub open spec fn score_spec(self) -> Option<(Outcome, i8, i8)> {
        match self.outcome_spec() {
            Some(o) => Some(
                (o, if self.p0_wants == o { 1i8 } else { 0i8 }, if self.p1_wants == o { 1i8 } else { 0i8 }),
            ),
            None => None,
        }
    }

    fn has_line_exec(&self, p: CellValue) -> (r: bool)
        ensures
            r == self.has_line(p),
    {
        (self.cells[0] == p && self.cells[1] == p && self.cells[2] == p)
            || (self.cells[3] == p && self.cells[4] == p && self.cells[5] == p)
            || (self.cells[6] == p && self.cells[7] == p && self.cells[8] == p)
            || (self.cells[0] == p && self.cells[3] == p && self.cells[6] == p)
            || (self.cells[1] == p && self.cells[4] == p && self.cells[7] == p)
            || (self.cells[2] == p && self.cells[5] == p && self.cells[8] == p)
            || (self.cells[0] == p && self.cells[4] == p && self.cells[8] == p)
            || (self.cells[2] == p && self.cells[4] == p && self.cells[6] == p)
    }

    /// Terminal check and scoring, exactly `score_spec`.
    pub fn score(&self) -> (r: Option<(Outcome, i8, i8)>)
        ensures
            r == self.score_spec(),
    {
        let outcome = if self.has_line_exec(CellValue::P0) {
            Some(Outcome::P0Win)
        } else if self.has_line_exec(CellValue::P1) {
            Some(Outcome::P1Win)
        } else if self.turn >= 9 {
            Some(Outcome::Tie)
        } else {
            None
        };

        match outcome {
            Some(o) => Some(
                (
                    o,
                    if self.p0_wants == o { 1 } else { 0 },
                    if self.p1_wants == o { 1 } else { 0 },
                ),
            ),
            None => None,
        }
    }
}

/// The laws of scoring: a completed line wins for its owner (player 0's line
/// takes precedence), a full board without a line is a tie, each player's
/// utility is 1 exactly when the outcome matches that player's private
/// preference, and a board with all nine moves played offers no further legal
/// move.
pub proof fn lemma_score_laws(b: Board)
    ensures
        b.has_line(CellValue::P0) ==> b.outcome_spec() == Some(Outcome::P0Win),
        b.has_line(CellValue::P1) && !b.has_line(CellValue::P0) ==> b.outcome_spec() == Some(
            Outcome::P1Win,
        ),
        b.turn >= 9 && !b.has_line(CellValue::P0) && !b.has_line(CellValue::P1)
            ==> b.outcome_spec() == Some(Outcome::Tie),
        match b.score_spec() {
            Some((o, u0, u1)) => (u0 == 1 <==> b.p0_wants == o) && (u0 == 0 <==> b.p0_wants != o)
                && (u1 == 1 <==> b.p1_wants == o) && (u1 == 0 <==> b.p1_wants != o),
            None => b.outcome_spec() is None,
        },
        b.turn >= 9 ==> forall|m: int| !b.move_legal(m),
{
}

/// How many of the first `n` cells are marked.
pub open spec fn count_filled(cells: Seq<CellValue>, n: int) -> int
    decreases n,
{
    if n <= 0 {
        0
    } else {
        count_filled(cells, n - 1) + if cells[n - 1] is Empty { 0int } else { 1int }
    }
}

proof fn lemma_count_filled_le(cells: Seq<CellValue>, n: int)
    requires
        0 <= n,
    ensures
        0 <= count_filled(cells, n) <= n,
    decreases n,
{
    if n > 0 {
        lemma_count_filled_le(cells, n - 1);
    }
}

/// A board with an empty cell has strictly fewer than `n` marks.
proof fn lemma_count_filled_lt(cells: Seq<CellValue>, m: int, n: int)
    requires
        0 <= m < n,
        cells[m] is Empty,
    ensures
        0 <= count_filled(cells, n) < n,
    decreases n,
{
    lemma_count_filled_le(cells, n - 1);
    if m < n - 1 {
        lemma_count_filled_lt(cells, m, n - 1);
    }
}

/// Marking one empty cell raises the filled count by exactly one.
proof fn lemma_count_filled_update(cells: Seq<CellValue>, m: int, v: CellValue, n: int)
    requires
        0 <= m < n <= cells.len(),
        cells[m] is Empty,
        !(v is Empty),
    ensures
        count_filled(cells.update(m, v), n) == count_filled(cells, n) + 1,
    decreases n,
{
    if m == n - 1 {
        lemma_count_filled_same(cells.update(m, v), cells, n - 1);
    } else {
        lemma_count_filled_update(cells, m, v, n - 1);
    }
}

proof fn lemma_count_filled_same(a: Seq<CellValue>, b: Seq<CellValue>, n: int)
    requires
        forall|i: int| 0 <= i < n ==> a[i] == b[i],
    ensures
        count_filled(a, n) == count_filled(b, n),
    decreases n,
{
    if n > 0 {
        lemma_count_filled_same(a, b, n - 1);
    }
}

proof fn lemma_pow9_bounds(t: nat)
    requires
        t <= 9,
    ensures
        1 <= pow9(t),
        pow9((t + 1) as nat) == 9 * pow9(t),
        pow9(t) <= pow9(9nat),
        pow9(10nat) < 0x1_0000_0000,
    decreases t,
{
    assert(pow9(10nat) == 3486784401) by {
        reveal_with_fuel(pow9, 11);
    }
    if t > 0 {
        lemma_pow9_bounds((t - 1) as nat);
    }
    assert(pow9((t + 1) as nat) == 9 * pow9(t));
    lemma_pow9_monotone(t, 9nat);
}

proof fn lemma_pow9_monotone(a: nat, b: nat)
    requires
        a <= b,
    ensures
        pow9(a) <= pow9(b),
        1 <= pow9(a),
    decreases b,
{
    if a < b {
        lemma_pow9_monotone(a, (b - 1) as nat);
        lemma_pow9_monotone(0nat, (b - 1) as nat);
    } else if b > 0 {
        lemma_pow9_monotone((a - 1) as nat, (b - 1) as nat);
    }
}

/// The start configuration for the given pair of hidden preferences.
pub open spec fn start_board(p0: Outcome, p1: Outcome) -> Board {
    Board {
        rotation: Rotation::Straight,
        cells: vstd::array::spec_array_fill_for_copy_type(CellValue::Empty),
        p0_wants: p0,
        p1_wants: p1,
        turn: 0,
        infoset: Infoset {
            history: 1,
            p0_private: p0.as_int() as u32,
            p1_private: p1.as_int() as u32,
        },
    }
}

/// The outcome whose ternary digit is `i`.
pub open spec fn outcome_of_int(i: int) -> Outcome {
    if i == 0 {
        Outcome::Tie
    } else if i == 1 {
        Outcome::P0Win
    } else {
        Outcome::P1Win
    }
}

impl Board {
    /// All nine start configurations: the cross product of the three possible
    /// preferences for each player, ordered with player 0's digit outermost.
    pub fn possible_starts() -> (r: Vec<Board>)
        ensures
            r@.len() == 9,
            forall|k: int| 0 <= k < 9 ==> r@[k] == start_board(
                outcome_of_int(k / 3),
                outcome_of_int(k % 3),
            ),
            forall|k: int| 0 <= k < 9 ==> (#[trigger] r@[k]).wf(),
    {
        let mut result: Vec<Board> = Vec::new();
        let outcomes = [Outcome::Tie, Outcome::P0Win, Outcome::P1Win];
        for a in 0..3usize
            invariant
                result@.len() == 3 * a,
                outcomes@ =~= seq![Outcome::Tie, Outcome::P0Win, Outcome::P1Win],
                forall|k: int| 0 <= k < result@.len() ==> result@[k] == start_board(
                    outcome_of_int(k / 3),
                    outcome_of_int(k % 3),
                ),
        {
            for b in 0..3usize
                invariant
                    0 <= a < 3,
                    result@.len() == 3 * a + b,
                    outcomes@ =~= seq![Outcome::Tie, Outcome::P0Win, Outcome::P1Win],
                    forall|k: int| 0 <= k < result@.len() ==> result@[k] == start_board(
                        outcome_of_int(k / 3),
                        outcome_of_int(k % 3),
                    ),
            {
                result.push(Board::new(outcomes[a], outcomes[b]));
                proof {
                    let k = result@.len() - 1;
                    assert(k / 3 == a && k % 3 == b) by (nonlinear_arith)
                        requires 0 <= a < 3 && 0 <= b < 3 && k == 3 * a + b;
                    assert(outcomes@[a as int] == outcome_of_int(a as int));
                    assert(outcomes@[b as int] == outcome_of_int(b as int));
                }
            }
        }
        proof {
            assert forall|k: int| 0 <= k < 9 implies (#[trigger] result@[k]).wf() by {
                assert(result@[k] == start_board(outcome_of_int(k / 3), outcome_of_int(k % 3)));
                let sb = start_board(outcome_of_int(k / 3), outcome_of_int(k % 3));
                assert(count_filled(sb.cells@, 9) == 0) by {
                    lemma_count_filled_all_empty(sb.cells@, 9);
                }
                reveal_with_fuel(pow9, 2);
                assert(pow9(0nat) == 1 && pow9(1nat) == 9);
            }
        }
        result
    }
}

/// The canonical identifier of a full board configuration: both hidden
/// preferences plus all nine cells, composed in mixed radix 3. Used as an
/// arena index into the state graph; always derived, never guessed.
#[derive(Clone, Copy, PartialEq, Eq, Structural, Debug, Hash)]
pub struct State(pub u32);

/// 3^e, the radix weights of the canonical state encoding.
pub open spec fn pow3(e: nat) -> int
    decreases e,
{
    if e == 0 {
        1
    } else {
        3 * pow3((e - 1) as nat)
    }
}

/// The encoding after the two preference digits and the first `n` cell
/// digits have been composed.
pub open spec fn encode_prefix(b: Board, n: int) -> int
    decreases n,
{
    if n <= 0 {
        b.p0_wants.as_int() * 3 + b.p1_wants.as_int()
    } else {
        encode_prefix(b, n - 1) * 3 + b.cells[n - 1].as_int()
    }
}

/// The canonical state id of a board: preferences first, then all nine cells.
pub open spec fn state_of(b: Board) -> int {
    encode_prefix(b, 9)
}

proof fn lemma_pow3_monotone(a: nat, b: nat)
    requires
        a <= b,
    ensures
        1 <= pow3(a) <= pow3(b),
    decreases b,
{
    if a < b {
        lemma_pow3_monotone(a, (b - 1) as nat);
    } else if b > 0 {
        lemma_pow3_monotone((a - 1) as nat, (b - 1) as nat);
    }
}

proof fn lemma_encode_prefix_bounds(b: Board, n: int)
    requires
        0 <= n <= 9,
    ensures
        0 <= encode_prefix(b, n) < 9 * pow3(n as nat),
        9 * pow3(n as nat) <= 177147,
    decreases n,
{
    assert(pow3(9nat) == 19683) by {
        reveal_with_fuel(pow3, 10);
    }
    lemma_pow3_monotone(n as nat, 9nat);
    if n > 0 {
        lemma_encode_prefix_bounds(b, n - 1);
    }
}

impl Board {
    /// The infoset of a start configuration: sentinel history 1 and the two
    /// preference digits.
    pub fn to_base_infoset(&self) -> (r: Infoset)
        ensures
            r.history == 1,
            r.p0_private == self.p0_wants.as_int(),
            r.p1_private == self.p1_wants.as_int(),
    {
        Infoset {
            p0_private: self.p0_wants.to_smallint(),
            p1_private: self.p1_wants.to_smallint(),
            history: 1,
        }
    }

    /// Computes the canonical state id of this board.
    pub fn to_state(&self) -> (r: State)
        ensures
            r.0 == state_of(*self),
            r.0 < 177147,
    {
        proof {
            lemma_encode_prefix_bounds(*self, 0);
        }
        let mut value: u32 = 0;
        value = value * 3 + self.p0_wants.to_smallint();
        value = value * 3 + self.p1_wants.to_smallint();

        let mut i: usize = 0;
        while i < 9
            invariant
                i <= 9,
                value == encode_prefix(*self, i as int),
                0 <= value < 9 * pow3(i as nat),
                9 * pow3(i as nat) <= 177147,
            decreases 9 - i,
        {
            proof {
                lemma_encode_prefix_bounds(*self, i + 1);
            }
            value = value * 3 + self.cells[i].to_smallint();
            i = i + 1;
        }
        State(value)
    }
}

/// Every state id fits the eleven-digit ternary range.
pub proof fn lemma_state_of_bounds(b: Board)
    ensures
        0 <= state_of(b) < 177147,
{
    lemma_encode_prefix_bounds(b, 9);
}

/// A board with no marks at all has every cell empty.
pub proof fn lemma_all_empty_when_unfilled(cells: Seq<CellValue>, n: int)
    requires
        0 <= n,
        count_filled(cells, n) == 0,
    ensures
        forall|i: int| 0 <= i < n ==> cells[i] is Empty,
    decreases n,
{
    if n > 0 {
        lemma_count_filled_le(cells, n - 1);
        lemma_all_empty_when_unfilled(cells, n - 1);
    }
}

proof fn lemma_encode_prefix_empty(b: Board, n: int)
    requires
        0 <= n <= 9,
        forall|i: int| 0 <= i < n ==> b.cells[i] is Empty,
    ensures
        encode_prefix(b, n) == encode_prefix(b, 0) * pow3(n as nat),
    decreases n,
{
    if n > 0 {
        lemma_encode_prefix_empty(b, n - 1);
        assert(encode_prefix(b, n) == (encode_prefix(b, 0) * pow3((n - 1) as nat)) * 3);
        assert((encode_prefix(b, 0) * pow3((n - 1) as nat)) * 3 == encode_prefix(b, 0) * (3 * pow3(
            (n - 1) as nat,
        ))) by (nonlinear_arith);
    }
}

/// The id of a start configuration: its two preference digits scaled by 3^9,
/// the nine empty cells contributing nothing.
pub proof fn lemma_state_of_start(p0: Outcome, p1: Outcome)
    ensures
        state_of(start_board(p0, p1)) == (p0.as_int() * 3 + p1.as_int()) * 19683,
{
    let b = start_board(p0, p1);
    lemma_encode_prefix_empty(b, 9);
    assert(pow3(9nat) == 19683) by {
        reveal_with_fuel(pow3, 10);
    }
}

proof fn lemma_encode_prefix_same_position(a: Board, b: Board, n: int)
    requires
        0 <= n <= 9,
        a.p0_wants == b.p0_wants,
        a.p1_wants == b.p1_wants,
        a.cells == b.cells,
    ensures
        encode_prefix(a, n) == encode_prefix(b, n),
    decreases n,
{
    if n > 0 {
        lemma_encode_prefix_same_position(a, b, n - 1);
    }
}

/// The canonical id reads only the preferences and the cells: boards that
/// agree on those share it, whatever their bookkeeping fields hold.
pub proof fn lemma_state_of_same_position(a: Board, b: Board)
    requires
        a.p0_wants == b.p0_wants,
        a.p1_wants == b.p1_wants,
        a.cells == b.cells,
    ensures
        state_of(a) == state_of(b),
{
    lemma_encode_prefix_same_position(a, b, 9);
}

/// Distinct digit strings give distinct mixed-radix values: peeling the
/// low digit off equal encodings shows digit by digit that the boards agree.
proof fn lemma_encode_prefix_inj(a: Board, b: Board, n: int)
    requires
        0 <= n <= 9,
        encode_prefix(a, n) == encode_prefix(b, n),
    ensures
        encode_prefix(a, 0) == encode_prefix(b, 0),
        forall|i: int| 0 <= i < n ==> a.cells[i] == b.cells[i],
    decreases n,
{
    if n > 0 {
        let x = encode_prefix(a, n - 1);
        let y = encode_prefix(b, n - 1);
        let da = a.cells[n - 1].as_int();
        let db = b.cells[n - 1].as_int();
        assert(0 <= da < 3 && 0 <= db < 3);
        assert(3 * x + da == 3 * y + db);
        assert(x == y && da == db);
        assert(a.cells[n - 1] == b.cells[n - 1]);
        lemma_encode_prefix_inj(a, b, n - 1);
    }
}

/// The canonical state id is injective: two boards with the same id agree on
/// both hidden preferences and on every cell. In particular no two distinct
/// reachable (preferences, cells) configurations ever collide.
pub proof fn lemma_state_injective(a: Board, b: Board)
    requires
        state_of(a) == state_of(b),
    ensures
        a.p0_wants == b.p0_wants,
        a.p1_wants == b.p1_wants,
        a.cells == b.cells,
{
    lemma_encode_prefix_inj(a, b, 9);
    let pa = a.p0_wants.as_int();
    let qa = a.p1_wants.as_int();
    let pb = b.p0_wants.as_int();
    let qb = b.p1_wants.as_int();
    assert(3 * pa + qa == 3 * pb + qb);
    assert(pa == pb && qa == qb);
    assert(a.cells =~= b.cells);
}

proof fn lemma_count_filled_all_empty(cells: Seq<CellValue>, n: int)
    requires
        forall|i: int| 0 <= i < n ==> cells[i] is Empty,
    ensures
        count_filled(cells, n) == 0,
    decreases n,
{
    if n > 0 {
        lemma_count_filled_all_empty(cells, n - 1);
    }
}

} // verus!
