use vstd::prelude::*;

verus! {

/// A quarter-turn symmetry of the 3x3 board. The presentation layer plays on a
/// rotated view of the board so that only the canonical first moves (cells 0,
/// 1 and 4) ever need trained advice; every other first move is one of these
/// under some rotation.
#[derive(Clone, Copy, PartialEq, Eq, Structural, Debug)]
pub enum Rotation {
    Straight,
    Right,
    Double,
    Left,
}

impl Rotation {
    /// Where cell `i` (row `i / 3`, column `i % 3`) lands under this rotation.
    pub open spec fn rotate_spec(self, i: int) -> int {
        match self {
            Rotation::Straight => i,
            Rotation::Right => 6 - 3 * (i % 3) + i / 3,
            Rotation::Double => 8 - i,
            Rotation::Left => 3 * (i % 3) + 2 - i / 3,
        }
    }

    /// The rotation that undoes this one.
    pub open spec fn inverse(self) -> Rotation {
        match self {
            Rotation::Straight => Rotation::Straight,
            Rotation::Right => Rotation::Left,
            Rotation::Double => Rotation::Double,
            Rotation::Left => Rotation::Right,
        }
    }

    pub fn rotate_index(&self, index: u8) -> (r: u8)
        requires
            index < 9,
        ensures
            r < 9,
            r == self.rotate_spec(index as int),
    {
        match self {
            Rotation::Straight => index,
            Rotation::Right => [6, 3, 0, 7, 4, 1, 8, 5, 2][index as usize],
            Rotation::Double => 8 - index,
            Rotation::Left => [2, 5, 8, 1, 4, 7, 0, 3, 6][index as usize],
        }
    }

    pub fn derotate_index(&self, index: u8) -> (r: u8)
        requires
            index < 9,
        ensures
            r < 9,
            r == self.inverse().rotate_spec(index as int),
    {
        match self {
            Rotation::Straight => Rotation::Straight,
            Rotation::Right => Rotation::Left,
            Rotation::Double => Rotation::Double,
            Rotation::Left => Rotation::Right,
        }.rotate_index(index)
    }

    /// Rotating and then derotating (or the other way round) puts every cell
    /// back where it started: each rotation and its `inverse` really are
    /// mutually inverse permutations of the nine cells.
    pub proof fn lemma_rotate_inverse(self, i: int)
        requires
            0 <= i < 9,
        ensures
            self.inverse().rotate_spec(self.rotate_spec(i)) == i,
            self.rotate_spec(self.inverse().rotate_spec(i)) == i,
            0 <= self.rotate_spec(i) < 9,
    {
        assert(i == 3 * (i / 3) + i % 3) by (nonlinear_arith)
            requires 0 <= i < 9;
        assert(self.inverse().rotate_spec(self.rotate_spec(i)) == i
            && self.rotate_spec(self.inverse().rotate_spec(i)) == i
            && 0 <= self.rotate_spec(i) < 9) by (nonlinear_arith)
            requires 0 <= i < 9 && i == 3 * (i / 3) + i % 3;
    }

    /// Applies this rotation to a full board-shaped array: the result holds
    /// `matrix[i]` at position `rotate_spec(i)`.
    pub fn rotate_matrix<T: Copy>(&self, matrix: [T; 9]) -> (r: [T; 9])
        ensures
            forall|i: int| 0 <= i < 9 ==> r[self.rotate_spec(i)] == matrix[i],
            forall|i: int| 0 <= i < 9 ==> r[i] == matrix[self.inverse().rotate_spec(i)],
    {
        let r = [
            matrix[self.derotate_index(0) as usize],
            matrix[self.derotate_index(1) as usize],
            matrix[self.derotate_index(2) as usize],
            matrix[self.derotate_index(3) as usize],
            matrix[self.derotate_index(4) as usize],
            matrix[self.derotate_index(5) as usize],
            matrix[self.derotate_index(6) as usize],
            matrix[self.derotate_index(7) as usize],
            matrix[self.derotate_index(8) as usize],
        ];
        proof {
            assert forall|i: int| 0 <= i < 9 implies r[self.rotate_spec(i)] == matrix[i] by {
                self.lemma_rotate_inverse(i);
            }
            assert forall|i: int| 0 <= i < 9 implies r[i] == matrix[self.inverse().rotate_spec(i)] by {
                self.inverse().lemma_rotate_inverse(i);
            }
        }
        r
    }

    /// Applies the inverse rotation to a board-shaped array.
    pub fn derotate_matrix<T: Copy>(&self, matrix: [T; 9]) -> (r: [T; 9])
        ensures
            forall|i: int| 0 <= i < 9 ==> r[self.inverse().rotate_spec(i)] == matrix[i],
            forall|i: int| 0 <= i < 9 ==> r[i] == matrix[self.rotate_spec(i)],
    {
        let r = [
            matrix[self.rotate_index(0) as usize],
            matrix[self.rotate_index(1) as usize],
            matrix[self.rotate_index(2) as usize],
            matrix[self.rotate_index(3) as usize],
            matrix[self.rotate_index(4) as usize],
            matrix[self.rotate_index(5) as usize],
            matrix[self.rotate_index(6) as usize],
            matrix[self.rotate_index(7) as usize],
            matrix[self.rotate_index(8) as usize],
        ];
        proof {
            assert forall|i: int| 0 <= i < 9 implies r[self.inverse().rotate_spec(i)] == matrix[i] by {
                self.lemma_rotate_inverse(i);
                self.inverse().lemma_rotate_inverse(i);
            }
        }
        r
    }
}

} // verus!
