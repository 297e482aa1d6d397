use vstd::prelude::*;
use rand::Rng;
use crate::game::{Board, CellValue, Move, Outcome, start_board, lemma_all_empty_when_unfilled};
use crate::rotation::Rotation;

verus! {

broadcast use vstd::array::group_array_axioms;

/// Relies on rand::Rng::gen_range (via rand::thread_rng): a random index
/// strictly below `n`; nothing more is assumed of which one comes back.
#[verifier::external_body]
fn pick_index(n: usize) -> (r: usize)
    requires
        1 <= n,
    ensures
        r < n,
{
    rand::thread_rng().gen_range(0..n)
}

/// The integer code a cell is shown as: 255 empty, 0 player 0, 1 player 1.
pub open spec fn cell_code(c: CellValue) -> u8 {
    match c {
        CellValue::Empty => 255,
        CellValue::P0 => 0,
        CellValue::P1 => 1,
    }
}

/// The integer code a preference is shown as: 0 a player-0 win, 1 a player-1
/// win, 2 a tie.
pub open spec fn wants_code(o: Outcome) -> u8 {
    match o {
        Outcome::Tie => 2,
        Outcome::P0Win => 0,
        Outcome::P1Win => 1,
    }
}

/// The rotation a first move at cell `m` is played under, so that the stored
/// game only ever sees first moves 0, 1 and 4. The center (4) keeps whatever
/// rotation the caller supplies for it.
pub open spec fn turn0_rotation(m: int) -> Rotation {
    if m == 2 || m == 5 {
        Rotation::Left
    } else if m == 8 || m == 7 {
        Rotation::Double
    } else if m == 6 || m == 3 {
        Rotation::Right
    } else {
        Rotation::Straight
    }
}

/// The canonical cell a first move at cell `m` becomes under its rotation.
pub open spec fn turn0_move(m: int) -> int {
    if m == 0 || m == 2 || m == 8 || m == 6 {
        0
    } else if m == 4 {
        4
    } else {
        1
    }
}

/// The board after the host plays cell `m`, for a board past its first move:
/// the cell is derotated into stored coordinates, and anything but a legal
/// move on an unfinished game leaves the board unchanged.
pub open spec fn js_play_later_spec(b: Board, m: int) -> Board {
    let md = b.rotation.inverse().rotate_spec(m);
    if b.move_legal(md) && b.score_spec() is None {
        b.play_spec(md)
    } else {
        b
    }
}

fn contains_move(moves: &Vec<Move>, m: usize) -> (r: bool)
    ensures
        r <==> exists|k: int| 0 <= k < moves@.len() && (#[trigger] moves@[k]).0 == m,
{
    let mut k: usize = 0;
    while k < moves.len()
        invariant
            k <= moves@.len(),
            forall|q: int| 0 <= q < k ==> (#[trigger] moves@[q]).0 != m,
        decreases moves@.len() - k,
    {
        if moves[k].0 == m {
            return true;
        }
        k = k + 1;
    }
    false
}

impl Board {
    /// A fresh game with both hidden preferences drawn at random.
    pub fn js_start_random() -> (r: Board)
        ensures
            exists|p0: Outcome, p1: Outcome| r == #[trigger] start_board(p0, p1),
            r.wf(),
    {
        let outcomes = [Outcome::P0Win, Outcome::P1Win, Outcome::Tie];
        let a = pick_index(3);
        let b = pick_index(3);
        let r = Board::new(outcomes[a], outcomes[b]);
        proof {
            assert(r == start_board(outcomes@[a as int], outcomes@[b as int]));
        }
        r
    }

    /// Plays the host's move, given in displayed coordinates. The first move
    /// fixes the board's rotation so that the stored game starts at cell 0, 1
    /// or 4; a first move at the center draws its rotation at random. After
    /// the first move, an illegal or late move is ignored.
    pub fn js_play(&mut self, m: u8)
        requires
            old(self).wf(),
            m < 9,
        ensures
            final(self).wf(),
            old(self).turn == 0 && m != 4 ==> *final(self) == (Board {
                rotation: if m == 0 || m == 1 {
                    old(self).rotation
                } else {
                    turn0_rotation(m as int)
                },
                ..*old(self)
            }).play_spec(turn0_move(m as int)),
            old(self).turn == 0 && m == 4 ==> *final(self) == (Board {
                rotation: final(self).rotation,
                ..*old(self)
            }).play_spec(4),
            old(self).turn != 0 ==> *final(self) == js_play_later_spec(*old(self), m as int),
    {
        if self.turn == 0 {
            proof {
                lemma_all_empty_when_unfilled(self.cells@, 9);
            }
            if m == 0 {
                self.play(Move(0));
            } else if m == 1 {
                self.play(Move(1));
            } else if m == 2 {
                self.rotation = Rotation::Left;
                self.play(Move(0));
            } else if m == 5 {
                self.rotation = Rotation::Left;
                self.play(Move(1));
            } else if m == 8 {
                self.rotation = Rotation::Double;
                self.play(Move(0));
            } else if m == 7 {
                self.rotation = Rotation::Double;
                self.play(Move(1));
            } else if m == 6 {
                self.rotation = Rotation::Right;
                self.play(Move(0));
            } else if m == 3 {
                self.rotation = Rotation::Right;
                self.play(Move(1));
            } else {
                let rotations = [Rotation::Straight, Rotation::Right, Rotation::Double, Rotation::Left];
                let ri = pick_index(4);
                self.rotation = rotations[ri];
                self.play(Move(4));
                proof {
                    assert(*self == (Board { rotation: rotations@[ri as int], ..*old(self) }).play_spec(4));
                }
            }
            return;
        }

        let md = self.rotation.derotate_index(m);

        // explicitly handle errors by doing nothing
        if self.turn as usize >= 9 {
            return;
        }
        if self.cells[md as usize] != CellValue::Empty {
            return;
        }
        if self.score().is_some() {
            return;
        }
        let moves = self.possible_moves();
        if !contains_move(&moves, md as usize) {
            proof {
                assert(!self.move_legal(md as int));
            }
            return;
        }
        proof {
            assert(self.move_legal(md as int));
        }
        self.play(Move(md as usize));
    }
}

/// What the host renders: the board in displayed coordinates, whose turn it
/// is, the outcome and utilities once the game is over, and both preferences.
/// The probability advice layered on top of this view is the consumer's
/// business.
pub struct BoardView {
    pub player_turn: u8,
    pub board: [u8; 9],
    pub outcome: u8,
    pub util_p0: i8,
    pub util_p1: i8,
    pub wants_p0: u8,
    pub wants_p1: u8,
}

impl BoardView {
    /// One displayed cell; out-of-range indices read as empty.
    pub fn get_cell(&self, i: usize) -> (r: u8)
        ensures
            i < 9 ==> r == self.board[i as int],
            i >= 9 ==> r == 255,
    {
        if i < 9 {
            self.board[i]
        } else {
            255
        }
    }
}

impl Board {
    /// Renders the board for the host: cells rotated into displayed
    /// coordinates, scoring shown once the game is over (outcome 255 while it
    /// is not), and both players' preferences as display codes.
    pub fn js_view(&self) -> (v: BoardView)
        ensures
            v.player_turn == self.turn % 2,
            forall|i: int| 0 <= i < 9 ==> v.board[self.rotation.rotate_spec(i)] == cell_code(
                self.cells[i],
            ),
            match self.score_spec() {
                Some((o, u0, u1)) => v.outcome == wants_code(o) && v.util_p0 == u0 && v.util_p1
                    == u1,
                None => v.outcome == 255 && v.util_p0 == 0 && v.util_p1 == 0,
            },
            v.wants_p0 == wants_code(self.p0_wants),
            v.wants_p1 == wants_code(self.p1_wants),
    {
        let coded: [u8; 9] = [
            self.cells[0].to_display(),
            self.cells[1].to_display(),
            self.cells[2].to_display(),
            self.cells[3].to_display(),
            self.cells[4].to_display(),
            self.cells[5].to_display(),
            self.cells[6].to_display(),
            self.cells[7].to_display(),
            self.cells[8].to_display(),
        ];
        let board = self.rotation.rotate_matrix(coded);

        let (outcome, util_p0, util_p1) = match self.score() {
            Some((o, u0, u1)) => (
                match o {
                    Outcome::P0Win => 0,
                    Outcome::P1Win => 1,
                    Outcome::Tie => 2,
                },
                u0,
                u1,
            ),
            None => (255, 0, 0),
        };

        let wants_p0: u8 = match self.p0_wants {
            Outcome::Tie => 2,
            Outcome::P0Win => 0,
            Outcome::P1Win => 1,
        };
        let wants_p1: u8 = match self.p1_wants {
            Outcome::Tie => 2,
            Outcome::P0Win => 0,
            Outcome::P1Win => 1,
        };

        BoardView {
            player_turn: self.turn % 2,
            board,
            outcome,
            util_p0,
            util_p1,
            wants_p0,
            wants_p1,
        }
    }
}

impl CellValue {
    /// The display code of one cell.
    pub fn to_display(self) -> (r: u8)
        ensures
            r == cell_code(self),
    {
        match self {
            CellValue::Empty => 255,
            CellValue::P0 => 0,
            CellValue::P1 => 1,
        }
    }
}

} // verus!
