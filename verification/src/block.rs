//! The active piece: one of the seven canonical shapes, its four precomputed
//! rotation states, the current rotation index and the anchor position.

use vstd::prelude::*;
use crate::grid::{
    grid_cols, grid_count, lemma_rot90_count, lemma_rot90_four_times, lemma_rot90_rect, rect, rot90,
};

verus! {

/// The seven canonical piece types.
#[derive(Clone, Copy, PartialEq, Eq, Structural, Debug)]
pub enum BlockShape {
    I,
    O,
    S,
    Z,
    J,
    L,
    T,
}

/// The canonical 0-degree occupancy pattern of a piece type, over its fixed
/// bounding box (4x4 for I, 2x2 for O, 3x3 for the rest).
pub open spec fn base_pattern(s: BlockShape) -> Seq<Seq<bool>> {
    match s {
        BlockShape::I => seq![
            seq![false, false, false, false],
            seq![true, true, true, true],
            seq![false, false, false, false],
            seq![false, false, false, false],
        ],
        BlockShape::O => seq![seq![true, true], seq![true, true]],
        BlockShape::S => seq![
            seq![false, true, true],
            seq![true, true, false],
            seq![false, false, false],
        ],
        BlockShape::Z => seq![
            seq![true, true, false],
            seq![false, true, true],
            seq![false, false, false],
        ],
        BlockShape::J => seq![
            seq![true, false, false],
            seq![true, true, true],
            seq![false, false, false],
        ],
        BlockShape::L => seq![
            seq![false, false, true],
            seq![true, true, true],
            seq![false, false, false],
        ],
        BlockShape::T => seq![
            seq![false, true, false],
            seq![true, true, true],
            seq![false, false, false],
        ],
    }
}

/// An n-by-n boolean matrix.
pub open spec fn square(m: Seq<Seq<bool>>, n: int) -> bool {
    &&& m.len() == n
    &&& forall|i: int| 0 <= i < n ==> (#[trigger] m[i]).len() == n
}

/// The abstract value of an active piece.
#[verifier::ext_equal]
pub ghost struct BlockV {
    /// Anchor column (top-left corner of the bounding box, field coordinates).
    pub x: int,
    /// Anchor row.
    pub y: int,
    /// Clamp bound for the anchor column.
    pub max_x: int,
    /// Clamp bound for the anchor row.
    pub max_y: int,
    /// Current rotation index, 0 to 3.
    pub rot: int,
    /// The four precomputed rotation states.
    pub shapes: Seq<Seq<Seq<bool>>>,
}

impl BlockV {
    /// Side length of the piece's square bounding box.
    pub open spec fn size(self) -> int {
        self.shapes[0].len() as int
    }

    /// Validity: four square rotation states of equal size, rotation index in
    /// range, and each state the 90-degree rotation of the one before it.
    pub open spec fn wf(self) -> bool {
        &&& self.shapes.len() == 4
        &&& 0 <= self.rot < 4
        &&& 1 <= self.size()
        &&& forall|k: int| 0 <= k < 4 ==> square(#[trigger] self.shapes[k], self.size())
        &&& forall|k: int| 0 <= k < 3 ==> #[trigger] self.shapes[k + 1] == rot90(self.shapes[k])
    }

    /// The occupancy matrix of the current rotation state.
    pub open spec fn cur_shape(self) -> Seq<Seq<bool>> {
        self.shapes[self.rot]
    }
}

/// An active piece.
pub struct Block {
    /// Anchor position (column, row) in field coordinates.
    pub coord: (i8, i8),
    /// Clamp bounds for the anchor (column bound, row bound).
    pub coord_max: (i8, i8),
    /// Current rotation index, 0 to 3.
    pub rotate: usize,
    /// The four rotation states, 0, 90, 180 and 270 degrees.
    pub shape: Vec<Vec<Vec<bool>>>,
}

impl View for Block {
    type V = BlockV;

    open spec fn view(&self) -> BlockV {
        BlockV {
            x: self.coord.0 as int,
            y: self.coord.1 as int,
            max_x: self.coord_max.0 as int,
            max_y: self.coord_max.1 as int,
            rot: self.rotate as int,
            shapes: self.shape.deep_view(),
        }
    }
}

impl Block {
    /// Advance the rotation index backwards by one, modulo 4.
    pub fn rotate_left(&mut self)
        requires
            old(self)@.rot < 4,
        ensures
            final(self)@ == (BlockV { rot: (old(self)@.rot + 3) % 4, ..old(self)@ }),
    {
        self.rotate += 3;
        self.rotate %= 4;
    }

    /// Advance the rotation index forwards by one, modulo 4.
    pub fn rotate_right(&mut self)
        requires
            old(self)@.rot < 4,
        ensures
            final(self)@ == (BlockV { rot: (old(self)@.rot + 1) % 4, ..old(self)@ }),
    {
        self.rotate += 1;
        self.rotate %= 4;
    }

    /// Move the anchor one row down, clamped to the stored row bound.
    pub fn down(&mut self)
        ensures
            final(self)@ == (BlockV {
                y: if old(self)@.y < old(self)@.max_y {
                    old(self)@.y + 1
                } else {
                    old(self)@.max_y
                },
                ..old(self)@
            }),
    {
        if self.coord.1 < self.coord_max.1 {
            self.coord.1 = self.coord.1 + 1;
        } else {
            self.coord.1 = self.coord_max.1;
        }
    }

    /// Move the anchor one column left, clamped to -2.
    pub fn left(&mut self)
        ensures
            final(self)@ == (BlockV {
                x: if old(self)@.x > -2 {
                    old(self)@.x - 1
                } else {
                    -2
                },
                ..old(self)@
            }),
    {
        if self.coord.0 > -2 {
            self.coord.0 = self.coord.0 - 1;
        } else {
            self.coord.0 = -2;
        }
    }

    /// Move the anchor one column right, clamped to the stored column bound.
    pub fn right(&mut self)
        ensures
            final(self)@ == (BlockV {
                x: if old(self)@.x < old(self)@.max_x {
                    old(self)@.x + 1
                } else {
                    old(self)@.max_x
                },
                ..old(self)@
            }),
    {
        if self.coord.0 < self.coord_max.0 {
            self.coord.0 = self.coord.0 + 1;
        } else {
            self.coord.0 = self.coord_max.0;
        }
    }

    /// Create a piece of the given type: the four rotation states are derived
    /// from the canonical pattern by repeated 90-degree rotation, the rotation
    /// index starts at 0 and the anchor at the fixed spawn position.
    pub fn new(shape_type: BlockShape, coord_max: (i8, i8)) -> (r: Block)
        ensures
            r@.wf(),
            r@.shapes[0] == base_pattern(shape_type),
            r@.rot == 0,
            r@.x == 1,
            r@.y == 0,
            r@.max_x == coord_max.0 as int,
            r@.max_y == coord_max.1 as int,
    {
        let shape_0_1: Vec<Vec<u8>> = match shape_type {
            BlockShape::I => vec![
                vec![0, 0, 0, 0],
                vec![1, 1, 1, 1],
                vec![0, 0, 0, 0],
                vec![0, 0, 0, 0],
            ],
            BlockShape::O => vec![vec![1, 1], vec![1, 1]],
            BlockShape::S => vec![vec![0, 1, 1], vec![1, 1, 0], vec![0, 0, 0]],
            BlockShape::Z => vec![vec![1, 1, 0], vec![0, 1, 1], vec![0, 0, 0]],
            BlockShape::J => vec![vec![1, 0, 0], vec![1, 1, 1], vec![0, 0, 0]],
            BlockShape::L => vec![vec![0, 0, 1], vec![1, 1, 1], vec![0, 0, 0]],
            BlockShape::T => vec![vec![0, 1, 0], vec![1, 1, 1], vec![0, 0, 0]],
        };
        proof {
            assert(shape_0_1.deep_view().map_values(|row: Seq<u8>| row.map_values(|e: u8| e == 1))
                =~~= base_pattern(shape_type));
        }
        let shape = Block::generate_rotations(shape_0_1);
        proof {
            let n = base_pattern(shape_type).len() as int;
            assert(square(shape.deep_view()[0], n));
            lemma_rot90_square(shape.deep_view()[0], n);
            assert(shape.deep_view()[0int + 1] == rot90(shape.deep_view()[0]));
            lemma_rot90_square(shape.deep_view()[1], n);
            assert(shape.deep_view()[1int + 1] == rot90(shape.deep_view()[1]));
            lemma_rot90_square(shape.deep_view()[2], n);
            assert(shape.deep_view()[2int + 1] == rot90(shape.deep_view()[2]));
        }
        Block { coord: (1, 0), rotate: 0, shape, coord_max }
    }

    /// Turn a 0/1 pattern into a boolean occupancy matrix (a cell is occupied
    /// exactly where the pattern holds 1).
    pub fn convert_to_bool(shape: Vec<Vec<u8>>) -> (r: Vec<Vec<bool>>)
        ensures
            r.deep_view() == shape.deep_view().map_values(
                |row: Seq<u8>| row.map_values(|e: u8| e == 1),
            ),
    {
        let mut out: Vec<Vec<bool>> = Vec::new();
        let mut i: usize = 0;
        while i < shape.len()
            invariant
                i <= shape.len(),
                out.deep_view() =~~= shape.deep_view().take(i as int).map_values(
                    |row: Seq<u8>| row.map_values(|e: u8| e == 1),
                ),
            decreases shape.len() - i,
        {
            let row = &shape[i];
            let mut brow: Vec<bool> = Vec::new();
            let mut j: usize = 0;
            while j < row.len()
                invariant
                    j <= row.len(),
                    row == &shape[i as int],
                    brow@ =~= row@.take(j as int).map_values(|e: u8| e == 1),
                decreases row.len() - j,
            {
                brow.push(row[j] == 1);
                proof {
                    assert(row@.take(j + 1 as int) =~= row@.take(j as int).push(row@[j as int]));
                }
                j += 1;
            }
            proof {
                assert(brow@ =~= row@.map_values(|e: u8| e == 1));
                assert(shape.deep_view()[i as int] =~= row@);
            }
            let ghost prev = out.deep_view();
            out.push(brow);
            proof {
                assert(out.deep_view() =~~= prev.push(brow.deep_view()));
                assert(brow.deep_view() =~= brow@);
                assert(shape.deep_view().take(i + 1 as int) =~= shape.deep_view().take(
                    i as int,
                ).push(shape.deep_view()[i as int]));
            }
            i += 1;
        }
        proof {
            assert(shape.deep_view().take(shape@.len() as int) =~= shape.deep_view());
        }
        out
    }

    /// Rotate a rectangular occupancy matrix 90 degrees clockwise.
    pub fn rotate_90(shape: &Vec<Vec<bool>>) -> (r: Vec<Vec<bool>>)
        requires
            rect(shape.deep_view()),
            shape@.len() > 0,
        ensures
            r.deep_view() == rot90(shape.deep_view()),
    {
        let rows = shape.len();
        let cols = shape[0].len();
        let ghost m = shape.deep_view();
        let mut out: Vec<Vec<bool>> = Vec::new();
        let mut j: usize = 0;
        while j < cols
            invariant
                j <= cols,
                rows == m.len(),
                cols == grid_cols(m),
                rect(m),
                m == shape.deep_view(),
                out.deep_view() =~~= rot90(m).take(j as int),
            decreases cols - j,
        {
            let mut row: Vec<bool> = Vec::new();
            let mut k: usize = 0;
            while k < rows
                invariant
                    k <= rows,
                    j < cols,
                    rows == m.len(),
                    cols == grid_cols(m),
                    rect(m),
                    m == shape.deep_view(),
                    row@ =~= rot90(m)[j as int].take(k as int),
                decreases rows - k,
            {
                let i2: usize = rows - 1 - k;
                proof {
                    assert(m[i2 as int] =~= shape@[i2 as int]@);
                    assert(m[i2 as int].len() == grid_cols(m));
                }
                row.push(shape[i2][j]);
                proof {
                    assert(rot90(m)[j as int][k as int] == m[m.len() - 1 - k as int][j as int]);
                    assert(rot90(m)[j as int].take(k + 1 as int) =~= rot90(m)[j as int].take(
                        k as int,
                    ).push(rot90(m)[j as int][k as int]));
                }
                k += 1;
            }
            out.push(row);
            proof {
                assert(rot90(m).take(j + 1 as int) =~= rot90(m).take(j as int).push(
                    rot90(m)[j as int],
                ));
                assert(row@ =~= rot90(m)[j as int]);
            }
            j += 1;
        }
        proof {
            assert(rot90(m).take(grid_cols(m)) =~= rot90(m));
        }
        out
    }

    /// Compute the four rotation states of a 0/1 base pattern: the pattern
    /// itself, then its rotation by 90, 180 and 270 degrees.
    pub fn generate_rotations(shape_0_1: Vec<Vec<u8>>) -> (r: Vec<Vec<Vec<bool>>>)
        requires
            shape_0_1.deep_view().len() > 0,
            shape_0_1.deep_view()[0].len() > 0,
            forall|i: int|
                0 <= i < shape_0_1.deep_view().len() ==> (#[trigger] shape_0_1.deep_view()[i]).len()
                    == shape_0_1.deep_view()[0].len(),
        ensures
            r.deep_view().len() == 4,
            r.deep_view()[0] == shape_0_1.deep_view().map_values(
                |row: Seq<u8>| row.map_values(|e: u8| e == 1),
            ),
            forall|k: int|
                0 <= k < 3 ==> #[trigger] r.deep_view()[k + 1] == rot90(r.deep_view()[k]),
            forall|k: int| 0 <= k < 4 ==> rect(#[trigger] r.deep_view()[k]),
    {
        let ghost rows0 = shape_0_1.deep_view().len() as int;
        let ghost cols0 = shape_0_1.deep_view()[0].len() as int;
        let mut rotations: Vec<Vec<Vec<bool>>> = Vec::new();
        let shape_0 = Block::convert_to_bool(shape_0_1);
        proof {
            assert(shape_0.deep_view().len() == rows0);
            assert forall|i: int| 0 <= i < rows0 implies (#[trigger] shape_0.deep_view()[i]).len()
                == cols0 by {
                assert(shape_0_1.deep_view()[i].len() == cols0);
            }
            assert(grid_cols(shape_0.deep_view()) == cols0);
            assert(rect(shape_0.deep_view()));
            lemma_rot90_rect(shape_0.deep_view());
        }
        let shape_90 = Block::rotate_90(&shape_0);
        proof {
            lemma_rot90_rect(shape_90.deep_view());
        }
        let shape_180 = Block::rotate_90(&shape_90);
        proof {
            lemma_rot90_rect(shape_180.deep_view());
        }
        let shape_270 = Block::rotate_90(&shape_180);
        proof {
            lemma_rot90_rect(shape_270.deep_view());
        }
        rotations.push(shape_0);
        rotations.push(shape_90);
        rotations.push(shape_180);
        rotations.push(shape_270);
        rotations
    }
}

/// Rotating a square matrix yields a square matrix of the same size.
pub proof fn lemma_rot90_square(m: Seq<Seq<bool>>, n: int)
    requires
        square(m, n),
        n >= 1,
    ensures
        square(rot90(m), n),
        rect(rot90(m)),
{
    assert(grid_cols(m) == n);
    assert forall|j: int| 0 <= j < n implies (#[trigger] rot90(m)[j]).len() == n by {
        assert(rot90(m)[j] == Seq::new(m.len(), |k: int| m[m.len() - 1 - k][j]));
    }
}

/// The four stored rotation states of a well-formed piece hold the same
/// number of occupied cells: rotation preserves the total count.
pub proof fn lemma_rotation_states_count(b: BlockV)
    requires
        b.wf(),
    ensures
        forall|k: int|
            0 <= k < 4 ==> grid_count(#[trigger] b.shapes[k]) == grid_count(b.shapes[0]),
{
    let n = b.size();
    assert forall|k: int| 0 <= k < 4 implies rect(#[trigger] b.shapes[k]) by {
        assert(square(b.shapes[k], n));
        assert(grid_cols(b.shapes[k]) == n);
    }
    assert(b.shapes[0int + 1] == rot90(b.shapes[0]));
    assert(b.shapes[1int + 1] == rot90(b.shapes[1]));
    assert(b.shapes[2int + 1] == rot90(b.shapes[2]));
    lemma_rot90_count(b.shapes[0]);
    lemma_rot90_count(b.shapes[1]);
    lemma_rot90_count(b.shapes[2]);
}

/// The stored rotation states close into a cycle: rotating the 270-degree
/// state once more gives back the 0-degree state, because four rotations
/// return any matrix to itself.
pub proof fn lemma_rotation_cycle(b: BlockV)
    requires
        b.wf(),
    ensures
        rot90(b.shapes[3]) == b.shapes[0],
{
    let n = b.size();
    assert(square(b.shapes[0], n));
    assert(grid_cols(b.shapes[0]) == n);
    assert(rect(b.shapes[0]));
    assert(b.shapes[0int + 1] == rot90(b.shapes[0]));
    assert(b.shapes[1int + 1] == rot90(b.shapes[1]));
    assert(b.shapes[2int + 1] == rot90(b.shapes[2]));
    lemma_rot90_four_times(b.shapes[0]);
}

} // verus!
