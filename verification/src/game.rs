//! The game engine: one field and at most one active piece, driven by a
//! per-tick state machine that applies input, gravity, locking, line
//! clearing and spawning, and renders a text frame for the host to display.

use vstd::prelude::*;
use crate::block::{base_pattern, Block, BlockShape, BlockV};
use crate::field::{
    can_place_block, cleared_field, lemma_clear_full_rows_props, lemma_overlay_wf, new_field,
    overlay_block, render_grid, Field,
};
use crate::grid::{field_wf, grid_cols};

verus! {

/// A recognized input operation of the player.
pub enum Operation {
    Right,
    Left,
    Down,
    LRot,
    RRot,
}

/// The operation a pressed key requests: `a` left, `d` right, `s` one step
/// down, `q` rotate left, `e` rotate right; anything else requests nothing.
pub open spec fn parse_op(input: Option<char>) -> Option<Operation> {
    match input {
        Option::Some('a') => Option::Some(Operation::Left),
        Option::Some('d') => Option::Some(Operation::Right),
        Option::Some('s') => Option::Some(Operation::Down),
        Option::Some('q') => Option::Some(Operation::LRot),
        Option::Some('e') => Option::Some(Operation::RRot),
        _ => Option::None,
    }
}

/// What an operation does to a piece: one clamped move of the anchor or one
/// rotation-index step, everything else unchanged.
pub open spec fn apply_op(b: BlockV, op: Operation) -> BlockV {
    match op {
        Operation::Left => BlockV {
            x: if b.x > -2 {
                b.x - 1
            } else {
                -2
            },
            ..b
        },
        Operation::Right => BlockV {
            x: if b.x < b.max_x {
                b.x + 1
            } else {
                b.max_x
            },
            ..b
        },
        Operation::Down => BlockV {
            y: if b.y < b.max_y {
                b.y + 1
            } else {
                b.max_y
            },
            ..b
        },
        Operation::LRot => BlockV { rot: (b.rot + 3) % 4, ..b },
        Operation::RRot => BlockV { rot: (b.rot + 1) % 4, ..b },
    }
}

/// One clamped step down of a piece's anchor.
pub open spec fn down_v(b: BlockV) -> BlockV {
    BlockV {
        y: if b.y < b.max_y {
            b.y + 1
        } else {
            b.max_y
        },
        ..b
    }
}

/// The piece type an index below 7 selects; any other index selects T.
pub open spec fn shape_of_index(i: int) -> BlockShape {
    if i == 0 {
        BlockShape::I
    } else if i == 1 {
        BlockShape::O
    } else if i == 2 {
        BlockShape::S
    } else if i == 3 {
        BlockShape::Z
    } else if i == 4 {
        BlockShape::J
    } else if i == 5 {
        BlockShape::L
    } else {
        BlockShape::T
    }
}

/// The abstract value of the engine.
#[verifier::ext_equal]
pub ghost struct GameV {
    /// The board grid.
    pub field: Seq<Seq<bool>>,
    /// The active piece, if one has been spawned.
    pub block: Option<BlockV>,
    /// Time of the last gravity step, in milliseconds.
    pub last_ms: int,
    /// The fixed gravity interval, in milliseconds.
    pub interval_ms: int,
}

impl GameV {
    /// Validity: the board is well formed and small enough for the piece
    /// coordinate type, and the active piece, if any, is well formed with
    /// its clamp bounds equal to the board's dimensions.
    pub open spec fn wf(self) -> bool {
        &&& field_wf(self.field)
        &&& self.field.len() <= 127
        &&& grid_cols(self.field) <= 127
        &&& match self.block {
            Option::Some(b) => {
                &&& b.wf()
                &&& b.size() <= 4
                &&& b.max_x == grid_cols(self.field)
                &&& b.max_y == self.field.len()
            },
            Option::None => true,
        }
    }
}

/// A freshly spawned piece on the board `g`: rotation 0, the fixed spawn
/// anchor, clamp bounds the board's dimensions, and one of the seven
/// canonical patterns as its base state.
pub open spec fn is_spawn(ob: Option<BlockV>, g: Seq<Seq<bool>>) -> bool {
    match ob {
        Option::Some(b) => {
            &&& b.wf()
            &&& b.size() <= 4
            &&& b.rot == 0
            &&& b.x == 1
            &&& b.y == 0
            &&& b.max_x == grid_cols(g)
            &&& b.max_y == g.len()
            &&& exists|s: BlockShape| b.shapes[0] == base_pattern(s)
        },
        Option::None => false,
    }
}

/// The engine state after one input step: with an active piece and a
/// recognized key, the operation is applied if the moved piece still fits,
/// and silently rejected otherwise; in every other case nothing changes.
pub open spec fn step_state(pre: GameV, input: Option<char>) -> GameV {
    match (pre.block, parse_op(input)) {
        (Option::Some(b), Option::Some(op)) => {
            let b2 = apply_op(b, op);
            if can_place_block(pre.field, b2) {
                GameV { block: Option::Some(b2), ..pre }
            } else {
                pre
            }
        },
        _ => pre,
    }
}

/// The frame an input step renders: the overlay after an accepted
/// operation, the pre-move overlay after a rejected one (or the bare board
/// if even that placement conflicts), and nothing when no operation ran.
pub open spec fn step_frame(pre: GameV, input: Option<char>) -> Option<Seq<char>> {
    match (pre.block, parse_op(input)) {
        (Option::Some(b), Option::Some(op)) => {
            let b2 = apply_op(b, op);
            if can_place_block(pre.field, b2) {
                Option::Some(render_grid(overlay_block(pre.field, b2)))
            } else if can_place_block(pre.field, b) {
                Option::Some(render_grid(overlay_block(pre.field, b)))
            } else {
                Option::Some(render_grid(pre.field))
            }
        },
        _ => Option::None,
    }
}

/// What one gravity step does. With no active piece the board is rendered
/// unchanged. If the piece can move one row down it does, and the new
/// overlay is the frame. Otherwise the piece locks: its pre-drop overlay is
/// committed (when it fits), full rows are cleared, a fresh piece spawns,
/// and the bare board is the frame.
pub open spec fn drop_post(pre: GameV, post: GameV, frame: Seq<char>) -> bool {
    match pre.block {
        Option::None => post == pre && frame == render_grid(pre.field),
        Option::Some(b) => {
            let b2 = down_v(b);
            if can_place_block(pre.field, b2) {
                &&& post == GameV { block: Option::Some(b2), ..pre }
                &&& frame == render_grid(overlay_block(pre.field, b2))
            } else {
                let f2 = if can_place_block(pre.field, b) {
                    cleared_field(overlay_block(pre.field, b))
                } else {
                    pre.field
                };
                &&& post.field == f2
                &&& post.last_ms == pre.last_ms
                &&& post.interval_ms == pre.interval_ms
                &&& is_spawn(post.block, f2)
                &&& frame == render_grid(f2)
            }
        },
    }
}

/// The character sequence a returned frame holds, if one was rendered.
pub open spec fn frame_view(r: &Option<String>) -> Option<Seq<char>> {
    match r {
        Option::Some(s) => Option::Some(s@),
        Option::None => Option::None,
    }
}

/// The game engine: the board, the active piece and the gravity timer.
pub struct Game {
    /// The board.
    pub field: Field,
    /// The active piece, absent only before the first spawn.
    pub block: Option<Block>,
    /// Time of the last gravity step, in milliseconds.
    pub last_drop_time: u64,
    /// The fixed gravity interval, in milliseconds.
    pub drop_interval: u64,
}

impl View for Game {
    type V = GameV;

    open spec fn view(&self) -> GameV {
        GameV {
            field: self.field@,
            block: match self.block {
                Option::Some(b) => Option::Some(b@),
                Option::None => Option::None,
            },
            last_ms: self.last_drop_time as int,
            interval_ms: self.drop_interval as int,
        }
    }
}

/// Relies on rand's `Rng::gen_range` on a thread-local generator: it returns
/// a value drawn from the given range, so for 0..7 the result is below 7.
#[verifier::external_body]
fn random_shape_index() -> (r: usize)
    ensures
        r < 7,
{
    rand::Rng::gen_range(&mut rand::thread_rng(), 0..7)
}

impl Game {
    /// Create an engine with a fresh `width` by `height` board, no active
    /// piece, and the given gravity interval; `now` starts the gravity timer.
    pub fn new(width: usize, height: usize, drop_interval: u64, now: u64) -> (r: Game)
        requires
            width + 2 <= 127,
            height + 1 <= 127,
        ensures
            r@.field == new_field(width + 2, height + 1),
            r@.block is None,
            r@.last_ms == now,
            r@.interval_ms == drop_interval,
            r@.wf(),
    {
        let field = Field::new(width, height);
        proof {
            let g = field@;
            assert forall|i: int| 0 <= i < g.len() implies (#[trigger] g[i])[0] && g[i][grid_cols(g)
                - 1] by {}
            assert forall|j: int| 0 <= j < g.last().len() implies g.last()[j] by {}
            assert(field_wf(g));
        }
        Game { field, block: Option::None, last_drop_time: now, drop_interval }
    }

    /// The piece type an index selects; indices 0 to 6 name the seven
    /// canonical types in a fixed order.
    pub fn shape_from_index(i: usize) -> (r: BlockShape)
        ensures
            r == shape_of_index(i as int),
    {
        match i {
            0 => BlockShape::I,
            1 => BlockShape::O,
            2 => BlockShape::S,
            3 => BlockShape::Z,
            4 => BlockShape::J,
            5 => BlockShape::L,
            _ => BlockShape::T,
        }
    }

    /// Spawn a piece of the given type at the fixed spawn anchor, with the
    /// board's dimensions as its clamp bounds, replacing any active piece.
    pub fn spawn_block(&mut self, shape: BlockShape)
        requires
            old(self)@.wf(),
        ensures
            final(self)@.field == old(self)@.field,
            final(self)@.last_ms == old(self)@.last_ms,
            final(self)@.interval_ms == old(self)@.interval_ms,
            is_spawn(final(self)@.block, final(self)@.field),
            final(self)@.block matches Some(b) && b.shapes[0] == base_pattern(shape),
            final(self)@.wf(),
    {
        proof {
            assert(self@.field[0] =~= self.field.field@[0]@);
        }
        let mx = self.field.field[0].len() as i8;
        let my = self.field.field.len() as i8;
        let block = Block::new(shape, (mx, my));
        proof {
            assert(block@.size() <= 4) by {
                assert(block@.shapes[0] == base_pattern(shape));
            }
        }
        self.block = Option::Some(block);
    }

    /// Spawn a piece of a randomly drawn type at the spawn anchor.
    pub fn new_block(&mut self)
        requires
            old(self)@.wf(),
        ensures
            final(self)@.field == old(self)@.field,
            final(self)@.last_ms == old(self)@.last_ms,
            final(self)@.interval_ms == old(self)@.interval_ms,
            is_spawn(final(self)@.block, final(self)@.field),
            final(self)@.wf(),
    {
        let idx = random_shape_index();
        let shape = Game::shape_from_index(idx);
        self.spawn_block(shape);
    }

    /// The operation a pressed key requests, if any.
    fn parse(input: Option<char>) -> (r: Option<Operation>)
        ensures
            r == parse_op(input),
    {
        match input {
            Option::Some('a') => Option::Some(Operation::Left),
            Option::Some('d') => Option::Some(Operation::Right),
            Option::Some('s') => Option::Some(Operation::Down),
            Option::Some('q') => Option::Some(Operation::LRot),
            Option::Some('e') => Option::Some(Operation::RRot),
            _ => Option::None,
        }
    }

    /// Apply one operation to a piece: a clamped move or a rotation step.
    fn operate(block: &mut Block, operation: Operation)
        requires
            old(block)@.rot < 4,
        ensures
            final(block)@ == apply_op(old(block)@, operation),
    {
        match operation {
            Operation::Left => block.left(),
            Operation::Right => block.right(),
            Operation::Down => block.down(),
            Operation::LRot => block.rotate_left(),
            Operation::RRot => block.rotate_right(),
        }
    }

    /// One input step: map the key to an operation, try it on the active
    /// piece, keep it if the piece still fits and silently revert it
    /// otherwise, and render the resulting frame. Without an active piece or
    /// a recognized key nothing happens and no frame is rendered. The board
    /// itself is never changed.
    pub fn step(&mut self, input: Option<char>) -> (r: Option<String>)
        requires
            old(self)@.wf(),
        ensures
            final(self)@ == step_state(old(self)@, input),
            frame_view(&r) == step_frame(old(self)@, input),
            final(self)@.wf(),
            final(self)@.field == old(self)@.field,
    {
        let ghost pre = self@;
        if self.block.is_some() {
            let operation = Game::parse(input);
            if let Option::Some(op) = operation {
                let mut block = self.block.take().unwrap();
                let ghost b = block@;
                let prev_rot = block.rotate;
                let prev_coord = block.coord;
                Game::operate(&mut block, op);
                proof {
                    assert(block@.wf());
                }
                let arranged = self.field.arrange_with_block(&block);
                match arranged {
                    Option::Some(fwb) => {
                        let f = Field::format_field(&fwb);
                        self.block = Option::Some(block);
                        proof {
                            assert(self@ =~~= step_state(pre, input));
                        }
                        Option::Some(f)
                    },
                    Option::None => {
                        block.rotate = prev_rot;
                        block.coord = prev_coord;
                        proof {
                            assert(block@ =~~= b);
                        }
                        let arranged2 = self.field.arrange_with_block(&block);
                        let f = match arranged2 {
                            Option::Some(fwb) => Field::format_field(&fwb),
                            Option::None => Field::format_field(&self.field.field),
                        };
                        self.block = Option::Some(block);
                        proof {
                            assert(self@ =~~= pre);
                            assert(self@ =~~= step_state(pre, input));
                        }
                        Option::Some(f)
                    },
                }
            } else {
                proof {
                    assert(self@ =~~= step_state(pre, input));
                }
                Option::None
            }
        } else {
            proof {
                assert(self@ =~~= step_state(pre, input));
            }
            Option::None
        }
    }

    /// Lock the active piece: commit its overlay to the board when it fits,
    /// clear every full row, and spawn a fresh piece in its place.
    fn update_state(&mut self)
        requires
            old(self)@.wf(),
            old(self)@.block is Some,
        ensures
            final(self)@.wf(),
            final(self)@.last_ms == old(self)@.last_ms,
            final(self)@.interval_ms == old(self)@.interval_ms,
            ({
                let b = old(self)@.block->Some_0;
                let f2 = if can_place_block(old(self)@.field, b) {
                    cleared_field(overlay_block(old(self)@.field, b))
                } else {
                    old(self)@.field
                };
                &&& final(self)@.field == f2
                &&& is_spawn(final(self)@.block, f2)
            }),
    {
        let ghost pre = self@;
        let ghost b = pre.block->Some_0;
        let merged = self.field.arrange_with_block(self.block.as_ref().unwrap());
        if let Option::Some(fwb) = merged {
            proof {
                lemma_overlay_wf(pre.field, b.cur_shape(), b.x, b.y);
            }
            self.field.set(fwb);
            proof {
                lemma_clear_full_rows_props(self@.field);
            }
            self.field.update();
        }
        self.new_block();
    }

    /// One gravity step: move the active piece one row down if it fits and
    /// render the new overlay; otherwise lock it, clear full rows, spawn a
    /// fresh piece, and render the bare board. Without an active piece the
    /// bare board is rendered unchanged.
    pub fn drop(&mut self) -> (frame: String)
        requires
            old(self)@.wf(),
        ensures
            final(self)@.wf(),
            drop_post(old(self)@, final(self)@, frame@),
    {
        let ghost pre = self@;
        match self.block.take() {
            Option::None => {
                let f = Field::format_field(&self.field.field);
                proof {
                    assert(self@ =~~= pre);
                }
                f
            },
            Option::Some(mut block) => {
                let ghost b = block@;
                let prev_rot = block.rotate;
                let prev_coord = block.coord;
                block.down();
                let arranged = self.field.arrange_with_block(&block);
                match arranged {
                    Option::Some(fwb) => {
                        let f = Field::format_field(&fwb);
                        self.block = Option::Some(block);
                        proof {
                            assert(self@ =~~= GameV { block: Option::Some(down_v(b)), ..pre });
                        }
                        f
                    },
                    Option::None => {
                        block.rotate = prev_rot;
                        block.coord = prev_coord;
                        proof {
                            assert(block@ =~~= b);
                        }
                        self.block = Option::Some(block);
                        proof {
                            assert(self@ =~~= pre);
                        }
                        self.update_state();
                        let f = Field::format_field(&self.field.field);
                        f
                    },
                }
            },
        }
    }

    /// One engine tick, given the pressed key (if any) and the time in
    /// milliseconds: the input step runs when a key is present; a gravity
    /// step runs and restarts the timer when the gravity interval has
    /// elapsed. The frame of the last step that ran is returned.
    pub fn update(&mut self, input: Option<char>, now: u64) -> (r: Option<String>)
        requires
            old(self)@.wf(),
        ensures
            final(self)@.wf(),
            ({
                let mid = if input is Some {
                    step_state(old(self)@, input)
                } else {
                    old(self)@
                };
                if now >= mid.last_ms + mid.interval_ms {
                    &&& final(self)@.last_ms == now
                    &&& r is Some
                    &&& (r matches Some(s) ==> drop_post(
                        mid,
                        GameV { last_ms: mid.last_ms, ..final(self)@ },
                        s@,
                    ))
                } else {
                    &&& final(self)@ == mid
                    &&& frame_view(&r) == if input is Some {
                        step_frame(old(self)@, input)
                    } else {
                        Option::None::<Seq<char>>
                    }
                }
            }),
    {
        let mut frame: Option<String> = Option::None;
        if input.is_some() {
            frame = self.step(input);
        }
        let ghost mid = self@;
        if now >= self.last_drop_time && now - self.last_drop_time >= self.drop_interval {
            let f = self.drop();
            proof {
                assert(drop_post(mid, self@, f@));
            }
            self.last_drop_time = now;
            proof {
                assert(GameV { last_ms: mid.last_ms, ..self@ } =~~= GameV {
                    last_ms: mid.last_ms,
                    ..GameV { last_ms: now as int, ..self@ }
                });
            }
            frame = Option::Some(f);
        }
        frame
    }
}

} // verus!
