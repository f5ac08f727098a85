use tetris::block::{Block, BlockShape};
use tetris::field::Field;
use tetris::game::Game;

#[test]
fn load_with_str() {
    let formatted = "
[]. . . . . []
[]. . . . . []
[]. . . []. []
[]. . . . . []
[][][][][][][]
";
    let field = Field::init_with_str(formatted);
    println!("{}", Field::format_field(&field));
}

#[test]
fn render() {
    let mut field = Field::new(5, 4);
    let mut grid = field.field.clone();
    grid[2][4] = true;
    field.set(grid);
    let formatted = Field::format_field(&field.field);
    assert_eq!(
        format!("\n{}", formatted),
        "\n[]          []\r\n[]          []\r\n[]      []  []\r\n[]          []\r\n[][][][][][][]"
    );
}

#[test]
fn render_with_block() {
    let mut field = Field::new(5, 4);
    let block = Block::new(BlockShape::J, (22, 10));
    field.field[2][4] = true;
    let rendered = field.arrange_with_block(&block);
    field.set(rendered.unwrap());
    let formatted = Field::format_field(&field.field);
    println!("{}", formatted);
    assert_eq!(
        format!("\n{}", formatted),
        "\n[][]        []\r\n[][][][]    []\r\n[]      []  []\r\n[]          []\r\n[][][][][][][]"
    );
}

#[test]
fn right() {
    let mut field = Field::new(5, 4);
    let mut block = Block::new(BlockShape::J, (22, 10));
    field.field[2][4] = true;
    block.right();
    let rendered = field.arrange_with_block(&block);
    field.set(rendered.unwrap());
    let formatted = Field::format_field(&field.field);
    println!("{}", formatted);
    assert_eq!(
        format!("\n{}", formatted),
        "\n[]  []      []\r\n[]  [][][]  []\r\n[]      []  []\r\n[]          []\r\n[][][][][][][]"
    );
}

fn count_grid(grid: &Vec<Vec<bool>>) -> usize {
    grid.iter().map(|row| row.iter().filter(|&&c| c).count()).sum()
}

fn all_shapes() -> Vec<BlockShape> {
    vec![
        BlockShape::I,
        BlockShape::O,
        BlockShape::S,
        BlockShape::Z,
        BlockShape::J,
        BlockShape::L,
        BlockShape::T,
    ]
}

// Each of the four stored rotation states of every piece type holds the
// same number of occupied cells.
#[test]
fn rotation_states_keep_cell_count() {
    for shape in all_shapes() {
        let block = Block::new(shape, (12, 23));
        assert_eq!(block.shape.len(), 4);
        let base = count_grid(&block.shape[0]);
        assert_eq!(base, 4);
        for state in &block.shape {
            assert_eq!(count_grid(state), base);
        }
    }
}

// Rotating any base pattern four times returns the original matrix.
#[test]
fn four_rotations_return_original() {
    for shape in all_shapes() {
        let block = Block::new(shape, (12, 23));
        let once = Block::rotate_90(&block.shape[0]);
        let twice = Block::rotate_90(&once);
        let thrice = Block::rotate_90(&twice);
        let full_turn = Block::rotate_90(&thrice);
        assert_eq!(full_turn, block.shape[0]);
        assert_eq!(once, block.shape[1]);
        assert_eq!(twice, block.shape[2]);
        assert_eq!(thrice, block.shape[3]);
    }
}

// A failed overlay returns nothing and leaves the stored field untouched.
#[test]
fn failed_overlay_keeps_field() {
    let mut field = Field::new(5, 4);
    field.field[1][2] = true;
    let before = field.field.clone();
    let block = Block::new(BlockShape::J, (7, 5));
    // The J piece at its spawn anchor covers (1, 2), which is occupied.
    assert!(field.arrange_with_block(&block).is_none());
    assert_eq!(field.field, before);
}

// Clearing removes every full playfield row: the survivors fall, the count
// of occupied interior cells drops by the width times the cleared rows.
#[test]
fn clear_full_rows_drops_full_rows() {
    let mut field = Field::new(5, 4);
    for x in 1..=5 {
        field.field[3][x] = true;
    }
    field.field[2][4] = true;
    field.update();
    // The full row is gone, the single cell above it fell one row down.
    let expected =
        "\n[]          []\r\n[]          []\r\n[]          []\r\n[]      []  []\r\n[][][][][][][]";
    assert_eq!(format!("\n{}", Field::format_field(&field.field)), expected);
}

// Walls and floor stay occupied through overlay, commit and clear.
#[test]
fn borders_survive_overlay_and_clear() {
    let mut field = Field::new(5, 4);
    let block = Block::new(BlockShape::O, (7, 5));
    let merged = field.arrange_with_block(&block).unwrap();
    field.set(merged);
    for x in 1..=5 {
        field.field[3][x] = true;
    }
    field.update();
    let rows = field.field.len();
    let cols = field.field[0].len();
    for y in 0..rows {
        assert!(field.field[y][0]);
        assert!(field.field[y][cols - 1]);
    }
    for x in 0..cols {
        assert!(field.field[rows - 1][x]);
    }
}

fn occupied_cells(grid: &Vec<Vec<bool>>) -> Vec<(usize, usize)> {
    let mut cells = Vec::new();
    for (y, row) in grid.iter().enumerate() {
        for (x, &c) in row.iter().enumerate() {
            if c {
                cells.push((y, x));
            }
        }
    }
    cells
}

// Moving a freshly spawned J one column right shifts every occupied cell of
// its overlay one column right, with no change in the occupied-cell count.
#[test]
fn right_shifts_overlay_by_one_column() {
    let field = Field::new(5, 4);
    let mut block = Block::new(BlockShape::J, (7, 5));
    let before = field.arrange_with_block(&block).unwrap();
    block.right();
    let after = field.arrange_with_block(&block).unwrap();
    assert_eq!(count_grid(&before), count_grid(&after));
    let base = occupied_cells(&field.field);
    let piece_before: Vec<(usize, usize)> = occupied_cells(&before)
        .into_iter()
        .filter(|c| !base.contains(c))
        .collect();
    let piece_after: Vec<(usize, usize)> = occupied_cells(&after)
        .into_iter()
        .filter(|c| !base.contains(c))
        .collect();
    let shifted: Vec<(usize, usize)> = piece_before.iter().map(|&(y, x)| (y, x + 1)).collect();
    assert_eq!(piece_after, shifted);
}

// A move that would land on an occupied cell leaves the piece's anchor and
// rotation index exactly as they were.
#[test]
fn rejected_move_keeps_anchor_and_rotation() {
    let mut game = Game::new(5, 4, 500, 0);
    game.spawn_block(BlockShape::J);
    game.field.field[0][2] = true;
    let coord_before = game.block.as_ref().unwrap().coord;
    let rotate_before = game.block.as_ref().unwrap().rotate;
    let frame = game.step(Some('d'));
    assert!(frame.is_some());
    assert_eq!(game.block.as_ref().unwrap().coord, coord_before);
    assert_eq!(game.block.as_ref().unwrap().rotate, rotate_before);
}

// Gravity applied until the piece can no longer move down locks it: the
// field gains exactly the piece's cells and a fresh piece stands at the
// spawn anchor.
#[test]
fn gravity_locks_piece_and_respawns() {
    let mut game = Game::new(5, 4, 500, 0);
    game.spawn_block(BlockShape::J);
    let before = count_grid(&game.field.field);
    let mut locked = false;
    for _ in 0..10 {
        game.drop();
        if count_grid(&game.field.field) != before {
            locked = true;
            break;
        }
    }
    assert!(locked);
    assert_eq!(count_grid(&game.field.field), before + 4);
    let fresh = game.block.as_ref().unwrap();
    assert_eq!(fresh.coord, (1, 0));
    assert_eq!(fresh.rotate, 0);
}

// An unrecognized key is ignored: no operation, no frame, nothing changes.
#[test]
fn unrecognized_key_is_ignored() {
    let mut game = Game::new(5, 4, 500, 0);
    game.spawn_block(BlockShape::T);
    let coord_before = game.block.as_ref().unwrap().coord;
    assert!(game.step(Some('x')).is_none());
    assert_eq!(game.block.as_ref().unwrap().coord, coord_before);
}

// The gravity timer: no gravity step before the interval has elapsed, one
// as soon as it has.
#[test]
fn gravity_waits_for_its_interval() {
    let mut game = Game::new(5, 4, 500, 0);
    game.spawn_block(BlockShape::O);
    assert!(game.update(None, 499).is_none());
    assert_eq!(game.block.as_ref().unwrap().coord, (1, 0));
    let frame = game.update(None, 500);
    assert!(frame.is_some());
    assert_eq!(game.block.as_ref().unwrap().coord, (1, 1));
}

// A randomly spawned piece is a fresh, valid piece at the spawn anchor.
#[test]
fn new_block_spawns_at_anchor() {
    let mut game = Game::new(10, 22, 500, 0);
    game.new_block();
    let block = game.block.as_ref().unwrap();
    assert_eq!(block.shape.len(), 4);
    assert_eq!(block.coord, (1, 0));
    assert_eq!(block.rotate, 0);
    assert_eq!(block.coord_max, (12, 23));
    assert_eq!(count_grid(&block.shape[0]), 4);
}

// A rendered field picture parses back into the grid it came from.
#[test]
fn picture_round_trip() {
    let mut field = Field::new(5, 4);
    field.field[2][4] = true;
    field.field[0][1] = true;
    let parsed = Field::init_with_str(&Field::format_field(&field.field));
    assert_eq!(parsed, field.field);
}

// Lines may end in a carriage return and newline; empty lines are skipped;
// an odd trailing character never counts as an occupied cell.
#[test]
fn parse_handles_crlf_and_odd_lines() {
    let parsed = Field::init_with_str("[][]\r\n\r\n. [](\n");
    assert_eq!(
        parsed,
        vec![vec![true, true], vec![false, true, false]]
    );
    assert!(Field::init_with_str("").is_empty());
}
