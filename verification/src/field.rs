//! The playing field: a bordered grid of cells, piece placement with
//! collision detection, full-row clearing, and the text rendering and
//! parsing of field pictures.

use vstd::prelude::*;
use vstd::string::StringExecFns;
use crate::block::{square, Block, BlockV};
use crate::grid::{blank_row, field_wf, grid_cols, grid_count, rect, row_count, row_full};

verus! {

/// The coordinate (y, x) lies inside the grid.
pub open spec fn in_grid(g: Seq<Seq<bool>>, y: int, x: int) -> bool {
    &&& 0 <= y < g.len()
    &&& 0 <= x < grid_cols(g)
}

/// The piece shape `sh`, anchored at column `cx` and row `cy`, has an
/// occupied cell on the field coordinate (y, x).
pub open spec fn piece_cell(sh: Seq<Seq<bool>>, cx: int, cy: int, y: int, x: int) -> bool {
    &&& 0 <= y - cy < sh.len()
    &&& 0 <= x - cx < grid_cols(sh)
    &&& sh[y - cy][x - cx]
}

/// Every occupied cell of the shape, anchored at (`cx`, `cy`), falls on an
/// in-bounds and empty cell of the grid: the placement is accepted.
pub open spec fn can_place(g: Seq<Seq<bool>>, sh: Seq<Seq<bool>>, cx: int, cy: int) -> bool {
    forall|a: int, b: int|
        0 <= a < sh.len() && 0 <= b < grid_cols(sh) && #[trigger] sh[a][b] ==> in_grid(
            g,
            cy + a,
            cx + b,
        ) && !g[cy + a][cx + b]
}

/// The grid with the anchored shape stamped on: a cell is occupied if it was
/// occupied in the grid or is an occupied cell of the shape.
pub open spec fn overlay(g: Seq<Seq<bool>>, sh: Seq<Seq<bool>>, cx: int, cy: int) -> Seq<
    Seq<bool>,
> {
    Seq::new(
        g.len(),
        |y: int|
            Seq::new(
                g[y].len(),
                |x: int| g[y][x] || piece_cell(sh, cx, cy, y, x),
            ),
    )
}

/// Placement of a piece in its current rotation state at its anchor.
pub open spec fn can_place_block(g: Seq<Seq<bool>>, b: BlockV) -> bool {
    can_place(g, b.cur_shape(), b.x, b.y)
}

/// Overlay of a piece in its current rotation state at its anchor.
pub open spec fn overlay_block(g: Seq<Seq<bool>>, b: BlockV) -> Seq<Seq<bool>> {
    overlay(g, b.cur_shape(), b.x, b.y)
}

/// (a, b) lexicographically precedes (i, j): the cell (a, b) of a piece box
/// is visited before the cell (i, j) in a row-major walk.
spec fn lex_before(a: int, b: int, i: int, j: int) -> bool {
    a < i || (a == i && b < j)
}

/// The overlay built by a row-major walk of the piece box that has stamped
/// the occupied piece cells strictly before (i, j).
spec fn overlay_upto(
    g: Seq<Seq<bool>>,
    sh: Seq<Seq<bool>>,
    cx: int,
    cy: int,
    i: int,
    j: int,
) -> Seq<Seq<bool>> {
    Seq::new(
        g.len(),
        |y: int|
            Seq::new(
                g[y].len(),
                |x: int|
                    g[y][x] || (piece_cell(sh, cx, cy, y, x) && lex_before(y - cy, x - cx, i, j)),
            ),
    )
}

/// Every occupied piece cell strictly before (i, j) falls on an in-bounds,
/// empty cell of the grid.
spec fn can_place_upto(
    g: Seq<Seq<bool>>,
    sh: Seq<Seq<bool>>,
    cx: int,
    cy: int,
    i: int,
    j: int,
) -> bool {
    forall|a: int, b: int|
        0 <= a < sh.len() && 0 <= b < grid_cols(sh) && lex_before(a, b, i, j) && #[trigger] sh[a][b]
            ==> in_grid(g, cy + a, cx + b) && !g[cy + a][cx + b]
}

/// The playfield rows of `g` from row `y` down to the row above the floor
/// that are not full, in top-to-bottom order: the rows that survive a clear.
pub open spec fn kept_rows(g: Seq<Seq<bool>>, y: int) -> Seq<Seq<bool>>
    decreases g.len() - y,
{
    if y < 0 || y >= g.len() - 1 {
        Seq::empty()
    } else if row_full(g[y]) {
        kept_rows(g, y + 1)
    } else {
        seq![g[y]] + kept_rows(g, y + 1)
    }
}

/// The field after clearing: all full playfield rows removed, the surviving
/// rows fallen to the bottom, fresh blank rows on top, the floor unchanged.
pub open spec fn cleared_field(g: Seq<Seq<bool>>) -> Seq<Seq<bool>> {
    let kept = kept_rows(g, 0);
    Seq::new((g.len() - 1 - kept.len()) as nat, |i: int| blank_row(grid_cols(g))) + kept + seq![
        g.last(),
    ]
}

/// The interior of a row: its cells without the two wall cells.
pub open spec fn row_interior(r: Seq<bool>) -> Seq<bool> {
    r.subrange(1, r.len() - 1)
}

/// Number of occupied interior cells in the playfield rows from `y` down to
/// the row above the floor.
pub open spec fn interior_count(g: Seq<Seq<bool>>, y: int) -> int
    decreases g.len() - y,
{
    if y < 0 || y >= g.len() - 1 {
        0
    } else {
        row_count(row_interior(g[y])) + interior_count(g, y + 1)
    }
}

/// Number of full playfield rows from `y` down to the row above the floor.
pub open spec fn full_count(g: Seq<Seq<bool>>, y: int) -> int
    decreases g.len() - y,
{
    if y < 0 || y >= g.len() - 1 {
        0
    } else {
        (if row_full(g[y]) {
            1int
        } else {
            0int
        }) + full_count(g, y + 1)
    }
}

/// Sum of the occupied interior cells of a list of rows.
spec fn rows_interior_count(rs: Seq<Seq<bool>>) -> int
    decreases rs.len(),
{
    if rs.len() == 0 {
        0
    } else {
        row_count(row_interior(rs[0])) + rows_interior_count(rs.drop_first())
    }
}

/// A row of occupied cells has its length as count.
proof fn lemma_row_count_true(r: Seq<bool>)
    requires
        forall|j: int| 0 <= j < r.len() ==> r[j],
    ensures
        row_count(r) == r.len(),
    decreases r.len(),
{
    if r.len() > 0 {
        lemma_row_count_true(r.drop_last());
    }
}

/// A row of empty cells has count zero.
proof fn lemma_row_count_false(r: Seq<bool>)
    requires
        forall|j: int| 0 <= j < r.len() ==> !r[j],
    ensures
        row_count(r) == 0,
    decreases r.len(),
{
    if r.len() > 0 {
        lemma_row_count_false(r.drop_last());
    }
}

/// The number of full rows is never negative.
proof fn lemma_full_count_nonneg(g: Seq<Seq<bool>>, y: int)
    ensures
        full_count(g, y) >= 0,
    decreases g.len() - y,
{
    if !(y < 0 || y >= g.len() - 1) {
        lemma_full_count_nonneg(g, y + 1)
    }
}

/// The surviving rows: how many there are, and that each is a playfield row
/// of the original field, not full, with its wall cells occupied.
proof fn lemma_kept_rows_basic(g: Seq<Seq<bool>>, y: int)
    requires
        field_wf(g),
        0 <= y,
    ensures
        0 <= kept_rows(g, y).len() <= g.len() - 1 - y || kept_rows(g, y).len() == 0,
        forall|t: int|
            0 <= t < kept_rows(g, y).len() ==> {
                let r = #[trigger] kept_rows(g, y)[t];
                &&& r.len() == grid_cols(g)
                &&& !row_full(r)
                &&& r[0]
                &&& r[grid_cols(g) - 1]
            },
    decreases g.len() - y,
{
    if y < g.len() - 1 {
        lemma_kept_rows_basic(g, y + 1);
        if !row_full(g[y]) {
            let ks = kept_rows(g, y);
            assert(ks[0] == g[y]);
            assert forall|t: int| 1 <= t < ks.len() implies ks[t] == kept_rows(g, y + 1)[t - 1] by {}
        }
    }
}

/// The interior occupied cells of the playfield below `y` are exactly those
/// of its surviving rows plus a full interior width for every full row.
proof fn lemma_interior_split(g: Seq<Seq<bool>>, y: int)
    requires
        field_wf(g),
        0 <= y,
    ensures
        interior_count(g, y) == rows_interior_count(kept_rows(g, y)) + (grid_cols(g) - 2)
            * full_count(g, y),
    decreases g.len() - y,
{
    let w = grid_cols(g);
    if y >= g.len() - 1 {
    } else {
        lemma_interior_split(g, y + 1);
        if row_full(g[y]) {
            assert(g[y].len() == w);
            assert forall|j: int| 0 <= j < row_interior(g[y]).len() implies row_interior(g[y])[j] by {
                assert(g[y][j + 1]);
            }
            lemma_row_count_true(row_interior(g[y]));
            assert(row_count(row_interior(g[y])) == w - 2);
            assert((w - 2) * full_count(g, y) == (w - 2) * full_count(g, y + 1) + (w - 2))
                by (nonlinear_arith)
                requires
                    full_count(g, y) == full_count(g, y + 1) + 1,
            ;
        } else {
            let ks = kept_rows(g, y);
            assert(ks[0] == g[y]);
            assert(ks.drop_first() =~= kept_rows(g, y + 1));
        }
    }
}

/// Blank rows hold no interior cells: the interior count of the cleared
/// field below `y` is the interior count of the surviving rows below `y`.
proof fn lemma_cleared_interior(g: Seq<Seq<bool>>, y: int)
    requires
        field_wf(g),
        0 <= y <= g.len() - 1 - kept_rows(g, 0).len(),
    ensures
        interior_count(cleared_field(g), y) == rows_interior_count(kept_rows(g, 0)),
    decreases g.len() - y,
{
    let cf = cleared_field(g);
    let kept = kept_rows(g, 0);
    let ncl = g.len() - 1 - kept.len();
    lemma_kept_rows_basic(g, 0);
    assert(cf.len() == g.len());
    if y == ncl {
        lemma_cleared_tail(g, y);
        assert(kept.skip(0) =~= kept);
    } else {
        assert(cf[y] == blank_row(grid_cols(g)));
        assert forall|j: int| 0 <= j < row_interior(cf[y]).len() implies !row_interior(cf[y])[j] by {
            assert(row_interior(cf[y])[j] == blank_row(grid_cols(g))[j + 1]);
        }
        lemma_row_count_false(row_interior(cf[y]));
        lemma_cleared_interior(g, y + 1);
    }
}

/// Below the blank region the cleared field holds exactly the surviving rows:
/// counting from row `y` there counts the surviving rows from `y` on.
proof fn lemma_cleared_tail(g: Seq<Seq<bool>>, y: int)
    requires
        field_wf(g),
        g.len() - 1 - kept_rows(g, 0).len() <= y <= g.len() - 1,
    ensures
        interior_count(cleared_field(g), y) == rows_interior_count(
            kept_rows(g, 0).skip(y - (g.len() - 1 - kept_rows(g, 0).len())),
        ),
    decreases g.len() - y,
{
    let cf = cleared_field(g);
    let kept = kept_rows(g, 0);
    let ncl = g.len() - 1 - kept.len();
    lemma_kept_rows_basic(g, 0);
    assert(cf.len() == g.len());
    if y == g.len() - 1 {
        assert(kept.skip(y - ncl) =~= Seq::<Seq<bool>>::empty());
    } else {
        lemma_cleared_tail(g, y + 1);
        assert(cf[y] == kept[y - ncl]);
        assert(kept.skip(y - ncl)[0] == kept[y - ncl]);
        assert(kept.skip(y - ncl).drop_first() =~= kept.skip(y + 1 - ncl));
    }
}

/// What clearing does to the board: the dimensions and the walls and floor
/// are kept, no playfield row of the result is full, and the occupied
/// interior cells shrink by exactly the interior width for every cleared
/// row -- in particular they never grow.
pub proof fn lemma_clear_full_rows_props(g: Seq<Seq<bool>>)
    requires
        field_wf(g),
    ensures
        cleared_field(g).len() == g.len(),
        grid_cols(cleared_field(g)) == grid_cols(g),
        field_wf(cleared_field(g)),
        grid_cols(g) >= 3 ==> forall|i: int|
            0 <= i < g.len() - 1 ==> !row_full(#[trigger] cleared_field(g)[i]),
        full_count(g, 0) >= 0,
        interior_count(cleared_field(g), 0) == interior_count(g, 0) - (grid_cols(g) - 2)
            * full_count(g, 0),
        interior_count(cleared_field(g), 0) <= interior_count(g, 0),
{
    let cf = cleared_field(g);
    let kept = kept_rows(g, 0);
    let ncl = g.len() - 1 - kept.len();
    let w = grid_cols(g);
    lemma_kept_rows_basic(g, 0);
    lemma_full_count_nonneg(g, 0);
    assert(cf.len() == g.len());
    assert(g.len() >= 1);
    assert(cf[g.len() - 1] == g.last());
    assert forall|i: int| 0 <= i < g.len() - 1 implies (#[trigger] cf[i]).len() == w && cf[i][0]
        && cf[i][w - 1] by {
        if i < ncl {
            assert(cf[i] == blank_row(w));
        } else {
            assert(cf[i] == kept[i - ncl]);
        }
    }
    assert(grid_cols(cf) == w);
    assert(rect(cf));
    assert(field_wf(cf));
    if w >= 3 {
        assert forall|i: int| 0 <= i < g.len() - 1 implies !row_full(#[trigger] cf[i]) by {
            if i < ncl {
                assert(cf[i] == blank_row(w));
                assert(!blank_row(w)[1]);
            } else {
                assert(cf[i] == kept[i - ncl]);
            }
        }
    }
    lemma_interior_split(g, 0);
    lemma_cleared_interior(g, 0);
    assert((w - 2) * full_count(g, 0) >= 0) by (nonlinear_arith)
        requires
            w >= 2,
            full_count(g, 0) >= 0,
    ;
}

/// The two-character picture of one cell: `[]` when occupied, two spaces
/// when empty.
pub open spec fn render_cell(b: bool) -> Seq<char> {
    if b {
        seq!['[', ']']
    } else {
        seq![' ', ' ']
    }
}

/// The picture of one row: its cell pictures, left to right.
pub open spec fn render_row(r: Seq<bool>) -> Seq<char>
    decreases r.len(),
{
    if r.len() == 0 {
        Seq::empty()
    } else {
        render_row(r.drop_last()) + render_cell(r.last())
    }
}

/// The picture of a grid: one line per row, top to bottom, the lines joined
/// by a line separator.
pub open spec fn render_grid(g: Seq<Seq<bool>>) -> Seq<char>
    decreases g.len(),
{
    if g.len() == 0 {
        Seq::empty()
    } else if g.len() == 1 {
        render_row(g[0])
    } else {
        render_grid(g.drop_last()) + seq!['\r', '\n'] + render_row(g.last())
    }
}

/// Stamping a piece on a well-formed board keeps the board's dimensions and
/// its occupied walls and floor: overlay only ever adds occupied cells.
pub proof fn lemma_overlay_wf(g: Seq<Seq<bool>>, sh: Seq<Seq<bool>>, cx: int, cy: int)
    requires
        field_wf(g),
    ensures
        overlay(g, sh, cx, cy).len() == g.len(),
        grid_cols(overlay(g, sh, cx, cy)) == grid_cols(g),
        field_wf(overlay(g, sh, cx, cy)),
{
    let ov = overlay(g, sh, cx, cy);
    assert(ov.len() == g.len());
    assert(ov[0].len() == g[0].len());
    assert(grid_cols(ov) == grid_cols(g));
    assert forall|i: int| 0 <= i < ov.len() implies (#[trigger] ov[i]).len() == grid_cols(g) by {
        assert(g[i].len() == grid_cols(g));
    }
    assert forall|j: int| 0 <= j < ov.last().len() implies ov.last()[j] by {
        assert(g.last()[j]);
        assert(ov[g.len() - 1][j] == (g[g.len() - 1][j] || piece_cell(sh, cx, cy, g.len() - 1, j)));
    }
    assert forall|i: int| 0 <= i < ov.len() implies (#[trigger] ov[i])[0] && ov[i][grid_cols(ov)
        - 1] by {
        assert(g[i][0] && g[i][grid_cols(g) - 1]);
    }
}

/// Turning one empty cell occupied raises a row's count by one.
proof fn lemma_row_count_update(r: Seq<bool>, x: int)
    requires
        0 <= x < r.len(),
        !r[x],
    ensures
        row_count(r.update(x, true)) == row_count(r) + 1,
    decreases r.len(),
{
    let r2 = r.update(x, true);
    if x == r.len() - 1 {
        assert(r2.drop_last() =~= r.drop_last());
        assert(r2.last());
        assert(!r.last());
    } else {
        assert(r2.drop_last() =~= r.drop_last().update(x, true));
        lemma_row_count_update(r.drop_last(), x);
        assert(r2.last() == r.last());
    }
}

/// Replacing one row changes a grid's count by the rows' difference.
proof fn lemma_grid_count_update_row(g: Seq<Seq<bool>>, y: int, r2: Seq<bool>)
    requires
        0 <= y < g.len(),
    ensures
        grid_count(g.update(y, r2)) == grid_count(g) - row_count(g[y]) + row_count(r2),
    decreases g.len(),
{
    let g2 = g.update(y, r2);
    if y == g.len() - 1 {
        assert(g2.drop_last() =~= g.drop_last());
        assert(g2.last() == r2);
    } else {
        assert(g2.drop_last() =~= g.drop_last().update(y, r2));
        lemma_grid_count_update_row(g.drop_last(), y, r2);
        assert(g2.last() == g.last());
        assert(g.drop_last()[y] == g[y]);
    }
}

/// One board row with one piece row OR-ed in at column offset `cx`.
spec fn or_row(gr: Seq<bool>, pr: Seq<bool>, cx: int) -> Seq<bool> {
    Seq::new(gr.len(), |x: int| gr[x] || (0 <= x - cx < pr.len() && pr[x - cx]))
}

/// OR-ing a piece row onto empty, in-bounds cells adds exactly its count.
proof fn lemma_row_count_or(gr: Seq<bool>, pr: Seq<bool>, cx: int)
    requires
        forall|j: int|
            0 <= j < pr.len() && #[trigger] pr[j] ==> 0 <= cx + j < gr.len() && !gr[cx + j],
    ensures
        row_count(or_row(gr, pr, cx)) == row_count(gr) + row_count(pr),
    decreases pr.len(),
{
    if pr.len() == 0 {
        assert(or_row(gr, pr, cx) =~= gr);
    } else {
        let pr2 = pr.drop_last();
        assert forall|j: int| 0 <= j < pr2.len() && #[trigger] pr2[j] implies 0 <= cx + j
            < gr.len() && !gr[cx + j] by {
            assert(pr[j]);
        }
        lemma_row_count_or(gr, pr2, cx);
        let p = cx + pr.len() - 1;
        if pr.last() {
            assert(0 <= p < gr.len() && !gr[p]);
            assert(!or_row(gr, pr2, cx)[p]);
            assert(or_row(gr, pr, cx) =~= or_row(gr, pr2, cx).update(p, true));
            lemma_row_count_update(or_row(gr, pr2, cx), p);
        } else {
            assert(or_row(gr, pr, cx) =~= or_row(gr, pr2, cx));
        }
    }
}

/// Committing a placeable overlay adds exactly the shape's occupied cells:
/// before any row is cleared, the board's occupied-cell count has grown by
/// the piece's own count.
pub proof fn lemma_overlay_count(g: Seq<Seq<bool>>, sh: Seq<Seq<bool>>, cx: int, cy: int)
    requires
        rect(g),
        rect(sh),
        can_place(g, sh, cx, cy),
    ensures
        grid_count(overlay(g, sh, cx, cy)) == grid_count(g) + grid_count(sh),
    decreases sh.len(),
{
    let ov = overlay(g, sh, cx, cy);
    if sh.len() == 0 {
        assert(ov =~~= g);
    } else {
        let sh2 = sh.drop_last();
        let lr = sh.last();
        let ln = sh.len() as int;
        let ys = cy + ln - 1;
        assert(lr.len() == grid_cols(sh));
        assert forall|i: int| 0 <= i < sh2.len() implies #[trigger] sh2[i].len() == grid_cols(
            sh2,
        ) by {
            assert(sh[0].len() == grid_cols(sh));
            assert(sh[i].len() == grid_cols(sh));
        }
        assert forall|a: int, b: int|
            0 <= a < sh2.len() && 0 <= b < grid_cols(sh2) && #[trigger] sh2[a][b] implies in_grid(
            g,
            cy + a,
            cx + b,
        ) && !g[cy + a][cx + b] by {
            assert(sh[a][b]);
        }
        lemma_overlay_count(g, sh2, cx, cy);
        let ov2 = overlay(g, sh2, cx, cy);
        if 0 <= ys < g.len() {
            let orow = or_row(g[ys], lr, cx);
            assert forall|y: int| 0 <= y < g.len() && y != ys implies ov[y] == ov2.index(y) by {
                assert forall|x: int| 0 <= x < g[y].len() implies ov[y][x] == ov2[y][x] by {
                    if piece_cell(sh, cx, cy, y, x) || piece_cell(sh2, cx, cy, y, x) {
                        assert(sh[y - cy] == sh2[y - cy]);
                    }
                }
                assert(ov[y] =~= ov2[y]);
            }
            assert forall|x: int| 0 <= x < g[ys].len() implies ov[ys][x] == orow.index(x) by {}
            assert(ov[ys] =~= orow);
            assert(ov2[ys] =~= g[ys]);
            assert(ov =~~= ov2.update(ys, orow));
            assert forall|j: int| 0 <= j < lr.len() && #[trigger] lr[j] implies 0 <= cx + j
                < g.index(ys).len() && !g[ys][cx + j] by {
                assert(sh[ln - 1][j]);
                assert(in_grid(g, ys, cx + j));
                assert(g[ys].len() == grid_cols(g));
            }
            lemma_row_count_or(g[ys], lr, cx);
            lemma_grid_count_update_row(ov2, ys, orow);
            assert(row_count(ov2[ys]) == row_count(g[ys]));
            assert(grid_count(sh) == grid_count(sh2) + row_count(lr));
        } else {
            assert forall|j: int| 0 <= j < lr.len() implies !(#[trigger] lr[j]) by {
                if lr[j] {
                    assert(sh[ln - 1][j]);
                    assert(in_grid(g, ys, cx + j));
                }
            }
            lemma_row_count_false(lr);
            assert forall|y: int| 0 <= y < g.len() implies ov[y] == ov2.index(y) by {
                assert forall|x: int| 0 <= x < g[y].len() implies ov[y][x] == ov2[y][x] by {
                    if piece_cell(sh, cx, cy, y, x) || piece_cell(sh2, cx, cy, y, x) {
                        assert(y != ys);
                        assert(sh[y - cy] == sh2[y - cy]);
                    }
                }
                assert(ov[y] =~= ov2[y]);
            }
            assert(ov =~~= ov2);
            assert(grid_count(sh) == grid_count(sh2) + row_count(lr));
        }
    }
}

/// When the active piece locks, the committed overlay holds the old board's
/// occupied cells plus exactly the piece's own: the board's count grows by
/// the piece's cell count before any full row is cleared.
pub proof fn lemma_lock_count(g: Seq<Seq<bool>>, b: BlockV)
    requires
        rect(g),
        b.wf(),
        can_place_block(g, b),
    ensures
        grid_count(overlay_block(g, b)) == grid_count(g) + grid_count(b.cur_shape()),
{
    let sh = b.cur_shape();
    assert(square(sh, b.size()));
    assert(grid_cols(sh) == b.size());
    assert(rect(sh));
    lemma_overlay_count(g, sh, b.x, b.y);
}

/// Number of characters before the first newline of the text (all of it if
/// it holds none).
pub open spec fn line_len(s: Seq<char>) -> nat
    decreases s.len(),
{
    if s.len() == 0 {
        0
    } else if s[0] == '\n' {
        0
    } else {
        (line_len(s.skip(1)) + 1) as nat
    }
}

/// A carriage return at the end of a newline-terminated line is dropped.
pub open spec fn strip_cr(l: Seq<char>) -> Seq<char> {
    if l.len() > 0 && l.last() == '\r' {
        l.drop_last()
    } else {
        l
    }
}

/// The lines of a text, split at newlines, each line stripped of a carriage
/// return before its newline; a final line without newline is kept whole.
pub open spec fn split_lines(s: Seq<char>) -> Seq<Seq<char>>
    decreases s.len(),
{
    if s.len() == 0 {
        Seq::empty()
    } else {
        let n = line_len(s);
        if n >= s.len() {
            seq![s]
        } else {
            seq![strip_cr(s.take(n as int))] + split_lines(s.skip(n as int + 1))
        }
    }
}

/// The row a line of a field picture denotes: the line is cut into
/// two-character chunks and a cell is occupied exactly where its chunk
/// is `[]`.
pub open spec fn row_of_line(l: Seq<char>) -> Seq<bool> {
    Seq::new(
        (((l.len() + 1) / 2) as nat),
        |j: int| 2 * j + 1 < l.len() && l[2 * j] == '[' && l[2 * j + 1] == ']',
    )
}

/// The grid a list of picture lines denotes: one row per nonempty line.
pub open spec fn rows_of_lines(ls: Seq<Seq<char>>) -> Seq<Seq<bool>>
    decreases ls.len(),
{
    if ls.len() == 0 {
        Seq::empty()
    } else if ls[0].len() == 0 {
        rows_of_lines(ls.drop_first())
    } else {
        seq![row_of_line(ls[0])] + rows_of_lines(ls.drop_first())
    }
}

/// Where the leading line ends: before it there is no newline, and at its
/// end stands a newline unless the text is exhausted.
proof fn lemma_line_len_bounds(s: Seq<char>)
    ensures
        line_len(s) <= s.len(),
        line_len(s) < s.len() ==> s[line_len(s) as int] == '\n',
        forall|i: int| 0 <= i < line_len(s) ==> s[i] != '\n',
    decreases s.len(),
{
    if s.len() > 0 && s[0] != '\n' {
        lemma_line_len_bounds(s.skip(1));
        let n = line_len(s);
        assert(n == line_len(s.skip(1)) + 1);
        assert forall|i: int| 0 <= i < n implies s[i] != '\n' by {
            if i > 0 {
                assert(s.skip(1)[i - 1] != '\n');
            }
        }
        if n < s.len() {
            assert(s.skip(1)[n - 1] == '\n');
        }
    }
}

/// The field grid of a freshly built board: `rows - 1` playfield rows that
/// are empty between the two wall cells, above one fully occupied floor row.
pub open spec fn new_field(cols: int, rows: int) -> Seq<Seq<bool>> {
    Seq::new(
        rows as nat,
        |i: int|
            if i == rows - 1 {
                Seq::new(cols as nat, |j: int| true)
            } else {
                blank_row(cols)
            },
    )
}

/// The static board grid, walls and floor included.
pub struct Field {
    /// The grid: rows top to bottom, each row `width + 2` cells wide, the
    /// last row being the floor.
    pub field: Vec<Vec<bool>>,
}

impl View for Field {
    type V = Seq<Seq<bool>>;

    open spec fn view(&self) -> Seq<Seq<bool>> {
        self.field.deep_view()
    }
}

impl Field {
    /// Validity: the grid is rectangular and its walls and floor are occupied.
    pub open spec fn wf(self) -> bool {
        field_wf(self@)
    }

    /// Build a board with `width` by `height` playable cells: one wall column
    /// on each side and one floor row at the bottom, all permanently occupied.
    pub fn new(width: usize, height: usize) -> (r: Field)
        requires
            width + 2 <= usize::MAX,
            height + 1 <= usize::MAX,
        ensures
            r@ == new_field(width + 2, height + 1),
            r.wf(),
            r@.len() == height + 1,
            grid_cols(r@) == width + 2,
    {
        let cols = width + 2;
        let mut field: Vec<Vec<bool>> = Vec::new();
        let mut y: usize = 0;
        while y < height
            invariant
                y <= height,
                cols == width + 2,
                field.deep_view() =~~= new_field(cols as int, height + 1 as int).take(y as int),
            decreases height - y,
        {
            let mut row: Vec<bool> = Vec::new();
            let mut j: usize = 0;
            while j < cols
                invariant
                    j <= cols,
                    cols == width + 2,
                    row@ =~= blank_row(cols as int).take(j as int),
                decreases cols - j,
            {
                row.push(j == 0 || j == cols - 1);
                proof {
                    assert(blank_row(cols as int).take(j + 1 as int) =~= blank_row(
                        cols as int,
                    ).take(j as int).push(blank_row(cols as int)[j as int]));
                }
                j += 1;
            }
            let ghost prev = field.deep_view();
            field.push(row);
            proof {
                assert(row@ =~= blank_row(cols as int));
                assert(field.deep_view() =~~= prev.push(row@));
                assert(new_field(cols as int, height + 1 as int).take(y + 1 as int)
                    =~~= new_field(cols as int, height + 1 as int).take(y as int).push(
                    blank_row(cols as int),
                ));
            }
            y += 1;
        }
        let mut floor: Vec<bool> = Vec::new();
        let mut j: usize = 0;
        while j < cols
            invariant
                j <= cols,
                floor@ =~= Seq::new(j as nat, |x: int| true),
            decreases cols - j,
        {
            floor.push(true);
            proof {
                assert(Seq::new((j + 1) as nat, |x: int| true) =~= Seq::new(
                    j as nat,
                    |x: int| true,
                ).push(true));
            }
            j += 1;
        }
        let ghost prev = field.deep_view();
        field.push(floor);
        proof {
            assert(field.deep_view() =~~= prev.push(floor@));
            assert(field.deep_view() =~~= new_field(cols as int, height + 1 as int));
        }
        Field { field }
    }

    /// Replace the stored grid with the given one; used to commit a merged
    /// overlay after a piece locks.
    pub fn set(&mut self, field: Vec<Vec<bool>>)
        requires
            field_wf(field.deep_view()),
            field.deep_view().len() == old(self)@.len(),
            grid_cols(field.deep_view()) == grid_cols(old(self)@),
        ensures
            final(self)@ == field.deep_view(),
            final(self).wf(),
    {
        self.field = field;
    }

    /// Try to stamp the piece's current rotation state onto a copy of the
    /// field at its anchor. If any occupied piece cell falls outside the grid
    /// or on an occupied field cell the whole operation fails and nothing is
    /// returned; otherwise the merged copy is returned. The stored field is
    /// never touched.
    pub fn arrange_with_block(&self, block: &Block) -> (r: Option<Vec<Vec<bool>>>)
        requires
            self.wf(),
            block@.wf(),
            block@.size() <= 4,
        ensures
            r is Some <==> can_place_block(self@, block@),
            r matches Some(g) ==> g.deep_view() == overlay_block(self@, block@),
    {
        let ghost gv = self@;
        let ghost sh = block@.cur_shape();
        let ghost cx = block@.x;
        let ghost cy = block@.y;
        let rows = self.field.len();
        let cols = self.field[0].len();
        proof {
            assert(self@[0] =~= self.field@[0]@);
            assert(cols == grid_cols(gv));
            assert(sh == block.shape@[block.rotate as int].deep_view());
            assert(sh.len() == block@.size());
            assert(grid_cols(sh) == block@.size());
        }
        let n = block.shape[0].len();
        proof {
            assert(block@.shapes[0] == block.shape@[0].deep_view());
            assert(n == block@.size());
        }
        let mut out: Vec<Vec<bool>> = Vec::new();
        proof {
            assert(out.deep_view() =~~= gv.take(0));
        }
        let mut y: usize = 0;
        while y < rows
            invariant
                y <= rows,
                rows == gv.len(),
                gv == self@,
                out.deep_view() == gv.take(y as int),
            decreases rows - y,
        {
            let row = &self.field[y];
            proof {
                assert(gv[y as int] =~= row@);
            }
            let mut nrow: Vec<bool> = Vec::new();
            proof {
                assert(nrow@ =~= row@.take(0));
            }
            let mut x: usize = 0;
            while x < row.len()
                invariant
                    x <= row@.len(),
                    nrow@ == row@.take(x as int),
                decreases row@.len() - x,
            {
                nrow.push(row[x]);
                proof {
                    assert(nrow@ =~= row@.take(x + 1 as int));
                }
                x += 1;
            }
            let ghost prev = out.deep_view();
            out.push(nrow);
            proof {
                assert(nrow@ =~= gv[y as int]);
                assert(out.deep_view() =~~= prev.push(nrow@));
                assert(out.deep_view() =~~= gv.take(y + 1 as int));
            }
            y += 1;
        }
        proof {
            assert(out.deep_view() =~~= gv);
            assert(out.deep_view() =~~= overlay_upto(gv, sh, cx, cy, 0, 0));
        }
        let mut i: usize = 0;
        while i < n
            invariant
                i <= n,
                n == block@.size(),
                n <= 4,
                gv == self@,
                sh == block@.cur_shape(),
                cx == block@.x,
                cy == block@.y,
                -128 <= cx <= 127,
                -128 <= cy <= 127,
                block@.wf(),
                self.wf(),
                rows == gv.len(),
                cols == grid_cols(gv),
                sh.len() == n,
                grid_cols(sh) == n,
                forall|a: int| 0 <= a < n ==> (#[trigger] sh[a]).len() == n,
                block.shape@.len() == 4,
                0 <= block.rotate < 4,
                out.deep_view() == overlay_upto(gv, sh, cx, cy, i as int, 0),
                can_place_upto(gv, sh, cx, cy, i as int, 0),
            decreases n - i,
        {
            let mut j: usize = 0;
            while j < n
                invariant
                    i < n,
                    j <= n,
                    n == block@.size(),
                    n <= 4,
                    gv == self@,
                    sh == block@.cur_shape(),
                    cx == block@.x,
                    cy == block@.y,
                    -128 <= cx <= 127,
                    -128 <= cy <= 127,
                    block@.wf(),
                    self.wf(),
                    rows == gv.len(),
                    cols == grid_cols(gv),
                    sh.len() == n,
                    grid_cols(sh) == n,
                    forall|a: int| 0 <= a < n ==> (#[trigger] sh[a]).len() == n,
                    block.shape@.len() == 4,
                    0 <= block.rotate < 4,
                    out.deep_view() == overlay_upto(gv, sh, cx, cy, i as int, j as int),
                    can_place_upto(gv, sh, cx, cy, i as int, j as int),
                decreases n - j,
            {
                proof {
                    assert(sh == block.shape@[block.rotate as int].deep_view());
                    assert(block.shape@[block.rotate as int]@.len() == sh.len());
                    assert(block.shape@[block.rotate as int]@[i as int].deep_view() == sh[
                        i as int
                    ]);
                    assert(block.shape@[block.rotate as int]@[i as int]@.len() == sh[
                        i as int
                    ].len());
                }
                let cell = block.shape[block.rotate][i][j];
                proof {
                    assert(cell == sh[i as int][j as int]);
                }
                if cell {
                    let fy_i: i32 = block.coord.1 as i32 + i as i32;
                    let fx_i: i32 = block.coord.0 as i32 + j as i32;
                    if fy_i < 0 || fx_i < 0 {
                        proof {
                            assert(!in_grid(gv, cy + i, cx + j));
                            assert(!can_place(gv, sh, cx, cy));
                        }
                        return None;
                    }
                    let fy = fy_i as usize;
                    let fx = fx_i as usize;
                    if fy >= rows || fx >= cols {
                        proof {
                            assert(!in_grid(gv, cy + i, cx + j));
                            assert(!can_place(gv, sh, cx, cy));
                        }
                        return None;
                    }
                    proof {
                        assert(in_grid(gv, cy + i, cx + j));
                        assert(piece_cell(sh, cx, cy, fy as int, fx as int));
                        assert(!lex_before(fy - cy, fx - cx, i as int, j as int));
                        assert(out.deep_view().len() == out@.len());
                        assert(out.deep_view()[fy as int][fx as int] == gv[fy as int][fx as int]);
                        assert(out@.len() == gv.len());
                        assert(out.deep_view()[fy as int] =~= out@[fy as int]@);
                        assert(out@[fy as int]@.len() == gv[fy as int].len());
                        assert(gv[fy as int].len() == cols);
                    }
                    if out[fy][fx] {
                        proof {
                            assert(gv[cy + i][cx + j]);
                            assert(!can_place(gv, sh, cx, cy));
                        }
                        return None;
                    }
                    let ghost prev = out.deep_view();
                    out[fy][fx] = true;
                    proof {
                        assert(out.deep_view().len() == out@.len());
                        assert(out@.len() == prev.len());
                        assert(out.deep_view()[fy as int] =~= prev[fy as int].update(
                            fx as int,
                            true,
                        ));
                        assert forall|t: int| 0 <= t < gv.len() && t != fy implies out.deep_view()[t]
                            == prev.index(t) by {
                            assert(out.deep_view()[t] =~= prev[t]);
                        }
                        assert forall|t: int| 0 <= t < gv.len() implies (#[trigger] out.deep_view()[t]).len()
                            == gv[t].len() by {
                            if t != fy {
                                assert(out.deep_view()[t] == prev.index(t));
                            }
                            assert(prev[t].len() == gv[t].len());
                        }
                        assert forall|yy: int, xx: int|
                            0 <= yy < gv.len() && 0 <= xx < gv[yy].len() implies out.deep_view()[yy][xx]
                            == overlay_upto(gv, sh, cx, cy, i as int, j + 1)[yy][xx] by {
                            if yy == fy && xx == fx {
                                assert(piece_cell(sh, cx, cy, yy, xx));
                                assert(lex_before(yy - cy, xx - cx, i as int, j + 1));
                            } else {
                                assert(out.deep_view()[yy][xx] == prev[yy][xx]);
                                assert(piece_cell(sh, cx, cy, yy, xx) && yy - cy == i && xx - cx
                                    == j ==> yy == fy && xx == fx);
                            }
                        }
                        assert(out.deep_view() =~~= overlay_upto(gv, sh, cx, cy, i as int, j + 1));
                    }
                } else {
                    proof {
                        assert(out.deep_view() =~~= overlay_upto(gv, sh, cx, cy, i as int, j + 1));
                    }
                }
                j += 1;
            }
            proof {
                assert(out.deep_view() =~~= overlay_upto(gv, sh, cx, cy, i + 1, 0));
                assert(can_place_upto(gv, sh, cx, cy, i + 1, 0));
            }
            i += 1;
        }
        proof {
            assert(can_place(gv, sh, cx, cy));
            assert(out.deep_view() =~~= overlay(gv, sh, cx, cy));
        }
        Some(out)
    }

    /// Whether every cell of row `y`, borders included, is occupied.
    fn is_row_full(&self, y: usize) -> (r: bool)
        requires
            y < self@.len(),
        ensures
            r == row_full(self@[y as int]),
    {
        let row = &self.field[y];
        proof {
            assert(self@[y as int] =~= row@);
        }
        let mut j: usize = 0;
        while j < row.len()
            invariant
                j <= row@.len(),
                self@[y as int] =~= row@,
                forall|t: int| 0 <= t < j ==> row@[t],
            decreases row@.len() - j,
        {
            if !row[j] {
                return false;
            }
            j += 1;
        }
        true
    }

    /// Reset row `y` to a cleared playfield row: empty interior, occupied
    /// wall cells at both ends.
    fn clear_row(&mut self, y: usize)
        requires
            y < old(self)@.len(),
            rect(old(self)@),
            grid_cols(old(self)@) >= 1,
        ensures
            final(self)@ == old(self)@.update(y as int, blank_row(grid_cols(old(self)@))),
    {
        let n = self.field[y].len();
        proof {
            assert(self@[y as int] =~= self.field@[y as int]@);
            assert(self@[y as int].len() == grid_cols(self@));
        }
        let mut j: usize = 0;
        while j < n
            invariant
                j <= n,
                y < self@.len(),
                self@.len() == old(self)@.len(),
                n == grid_cols(old(self)@),
                forall|i: int| 0 <= i < self@.len() && i != y ==> self@[i] == old(self)@[i],
                self@[y as int].len() == n,
                forall|t: int| 0 <= t < j ==> self@[y as int][t] == blank_row(n as int)[t],
                forall|t: int| j <= t < n ==> self@[y as int][t] == old(self)@[y as int][t],
            decreases n - j,
        {
            let v = j == 0 || j == n - 1;
            let ghost prev = self@;
            self.field[y][j] = v;
            proof {
                assert(self@[y as int] =~= prev[y as int].update(j as int, v));
                assert forall|i: int| 0 <= i < self@.len() && i != y implies self@[i] == prev.index(
                    i,
                ) by {
                    assert(self@[i] =~= prev[i]);
                }
            }
            j += 1;
        }
        proof {
            assert(self@[y as int] =~= blank_row(grid_cols(old(self)@)));
            assert(self@ =~~= old(self)@.update(y as int, blank_row(grid_cols(old(self)@))));
        }
    }

    /// Let the surviving row `from` fall into the vacated slot `to`: the slot
    /// receives the row's cells and the row becomes a cleared playfield row.
    fn move_row(&mut self, from: usize, to: usize)
        requires
            from < to < old(self)@.len(),
            rect(old(self)@),
            grid_cols(old(self)@) >= 1,
        ensures
            final(self)@ == old(self)@.update(to as int, old(self)@[from as int]).update(
                from as int,
                blank_row(grid_cols(old(self)@)),
            ),
    {
        let ghost orig = self@;
        let ghost cols = grid_cols(orig);
        let n = self.field[from].len();
        proof {
            assert(self@[from as int] =~= self.field@[from as int]@);
            assert(self@[from as int].len() == grid_cols(self@));
        }
        let mut j: usize = 0;
        while j < n
            invariant
                j <= n,
                from < to < self@.len(),
                self@.len() == orig.len(),
                n == cols,
                cols == grid_cols(orig),
                rect(orig),
                forall|i: int| 0 <= i < self@.len() && i != to ==> self@[i] == orig[i],
                self@[to as int].len() == n,
                forall|t: int| 0 <= t < j ==> self@[to as int][t] == orig[from as int][t],
                forall|t: int| j <= t < n ==> self@[to as int][t] == orig[to as int][t],
            decreases n - j,
        {
            proof {
                assert(self@[from as int] == orig[from as int]);
                assert(orig[from as int].len() == cols);
                assert(self@[from as int] =~= self.field@[from as int]@);
                assert(self.field@[from as int]@.len() == n);
            }
            let v = self.field[from][j];
            let ghost prev = self@;
            self.field[to][j] = v;
            proof {
                assert(self@[to as int] =~= prev[to as int].update(j as int, v));
                assert forall|i: int| 0 <= i < self@.len() && i != to implies self@[i]
                    == prev.index(i) by {
                    assert(self@[i] =~= prev[i]);
                }
            }
            j += 1;
        }
        proof {
            assert(self@[to as int] =~= orig[from as int]);
            assert(self@ =~~= orig.update(to as int, orig[from as int]));
            assert(rect(self@));
            assert(grid_cols(self@) == cols);
        }
        self.clear_row(from);
        proof {
            assert(self@ =~~= orig.update(to as int, orig[from as int]).update(
                from as int,
                blank_row(cols),
            ));
        }
    }

    /// Parse a field picture back into a grid: one row per nonempty line,
    /// each line cut into two-character chunks, a cell occupied exactly
    /// where its chunk is `[]`.
    pub fn init_with_str(formatted: &str) -> (r: Vec<Vec<bool>>)
        requires
            formatted@.len() < usize::MAX,
        ensures
            r.deep_view() == rows_of_lines(split_lines(formatted@)),
    {
        let ghost sv = formatted@;
        let len = formatted.unicode_len();
        let mut cs: Vec<char> = Vec::new();
        let mut i: usize = 0;
        while i < len
            invariant
                i <= len,
                len == sv.len(),
                sv == formatted@,
                cs@ == sv.take(i as int),
            decreases len - i,
        {
            cs.push(formatted.get_char(i));
            proof {
                assert(cs@ =~= sv.take(i + 1 as int));
            }
            i += 1;
        }
        proof {
            assert(cs@ =~= sv);
        }
        let mut rows: Vec<Vec<bool>> = Vec::new();
        proof {
            assert(sv.skip(0) =~= sv);
            assert(rows.deep_view() =~~= Seq::<Seq<bool>>::empty());
            assert(rows_of_lines(split_lines(sv)) =~~= rows.deep_view() + rows_of_lines(
                split_lines(sv.skip(0)),
            ));
        }
        let mut pos: usize = 0;
        while pos < len
            invariant
                pos <= len,
                len == sv.len(),
                len < usize::MAX,
                cs@ == sv,
                rows_of_lines(split_lines(sv)) == rows.deep_view() + rows_of_lines(
                    split_lines(sv.skip(pos as int)),
                ),
            decreases len - pos,
        {
            let ghost t = sv.skip(pos as int);
            let mut end: usize = pos;
            while end < len && cs[end] != '\n'
                invariant
                    pos <= end <= len,
                    len == sv.len(),
                    cs@ == sv,
                    forall|r: int| pos <= r < end ==> sv[r] != '\n',
                decreases len - end,
            {
                end += 1;
            }
            proof {
                lemma_line_len_bounds(t);
                assert forall|q: int| 0 <= q < end - pos implies t[q] != '\n' by {
                    assert(sv[pos + q] != '\n');
                }
                if line_len(t) < end - pos {
                    assert(t[line_len(t) as int] == '\n');
                }
                if line_len(t) > end - pos {
                    assert(end < len);
                    assert(t[end - pos] == sv[end as int]);
                }
                assert(line_len(t) == end - pos);
            }
            let mut lend = end;
            if end < len && lend > pos && cs[lend - 1] == '\r' {
                lend -= 1;
            }
            let ghost l = sv.subrange(pos as int, lend as int);
            proof {
                if end < len {
                    assert(t.take((end - pos) as int) =~= sv.subrange(pos as int, end as int));
                    assert(l =~= strip_cr(t.take(line_len(t) as int)));
                } else {
                    assert(l =~= t);
                }
            }
            let line_n = lend - pos;
            if line_n > 0 {
                let mut row: Vec<bool> = Vec::new();
                proof {
                    assert(row@ =~= row_of_line(l).take(0));
                }
                let mut k: usize = 0;
                while k < line_n
                    invariant
                        k <= line_n + 1,
                        k % 2 == 0,
                        line_n == l.len(),
                        line_n < usize::MAX,
                        pos + line_n <= len,
                        lend == pos + line_n,
                        len == sv.len(),
                        cs@ == sv,
                        l == sv.subrange(pos as int, lend as int),
                        row@ == row_of_line(l).take((k / 2) as int),
                    decreases line_n + 1 - k,
                {
                    let two = k + 1 < line_n;
                    let cell = if two {
                        cs[pos + k] == '[' && cs[pos + k + 1] == ']'
                    } else {
                        false
                    };
                    proof {
                        assert(l[k as int] == sv[pos + k]);
                        if two {
                            assert(l[k + 1] == sv[pos + k + 1]);
                        }
                        assert(2 * ((k / 2) as int) == k);
                        assert(cell == row_of_line(l)[(k / 2) as int]);
                    }
                    row.push(cell);
                    proof {
                        assert(row@ =~= row_of_line(l).take((k / 2) as int).push(
                            row_of_line(l)[(k / 2) as int],
                        ));
                        assert(row@ =~= row_of_line(l).take((k / 2) as int + 1));
                    }
                    k += 2;
                }
                proof {
                    assert((k / 2) as int == (line_n + 1) as int / 2);
                    assert(row@ =~= row_of_line(l));
                }
                let ghost prev = rows.deep_view();
                rows.push(row);
                proof {
                    assert(rows.deep_view() =~~= prev.push(row@));
                }
            }
            let newpos = if end < len {
                end + 1
            } else {
                end
            };
            proof {
                let rest = split_lines(sv.skip(newpos as int));
                if end < len {
                    assert(t.skip(line_len(t) as int + 1) =~= sv.skip(newpos as int));
                    assert(split_lines(t) == seq![l] + split_lines(sv.skip(newpos as int)));
                    assert((seq![l] + rest).drop_first() =~= rest);
                    if l.len() == 0 {
                        assert(rows_of_lines(seq![l] + rest) == rows_of_lines(rest));
                    } else {
                        assert(rows_of_lines(seq![l] + rest) == seq![row_of_line(l)]
                            + rows_of_lines(rest));
                    }
                } else {
                    assert(l == t);
                    assert(l.len() > 0);
                    assert(split_lines(t) == seq![t]);
                    assert(sv.skip(newpos as int) =~= Seq::<char>::empty());
                    assert((seq![t]).drop_first() =~= Seq::<Seq<char>>::empty());
                    assert(rows_of_lines(seq![t]) == seq![row_of_line(t)] + rows_of_lines(
                        Seq::<Seq<char>>::empty(),
                    ));
                }
                assert(rows_of_lines(split_lines(sv)) =~~= rows.deep_view() + rows_of_lines(
                    split_lines(sv.skip(newpos as int)),
                ));
            }
            pos = newpos;
        }
        proof {
            assert(sv.skip(len as int) =~= Seq::<char>::empty());
            assert(rows.deep_view() =~~= rows_of_lines(split_lines(sv)));
        }
        rows
    }

    /// Render a grid as its text picture: an occupied cell as `[]`, an empty
    /// cell as `. `, one line per row, each line closed by a newline.
    pub fn format_field(field: &Vec<Vec<bool>>) -> (r: String)
        ensures
            r@ == render_grid(field.deep_view()),
    {
        let ghost gv = field.deep_view();
        let mut out = String::new();
        proof {
            assert(render_grid(gv.take(0)) =~= Seq::<char>::empty());
        }
        let mut y: usize = 0;
        while y < field.len()
            invariant
                y <= gv.len(),
                gv == field.deep_view(),
                gv.len() == field@.len(),
                out@ == render_grid(gv.take(y as int)),
            decreases gv.len() - y,
        {
            if y > 0 {
                out.append("\r\n");
                proof {
                    reveal_strlit("\r\n");
                    assert(("\r\n")@ =~= seq!['\r', '\n']);
                }
            }
            let row = &field[y];
            proof {
                assert(gv[y as int] =~= row@);
            }
            let ghost line_start = out@;
            proof {
                assert(render_row(gv[y as int].take(0)) =~= Seq::<char>::empty());
            }
            let mut x: usize = 0;
            while x < row.len()
                invariant
                    x <= row@.len(),
                    out@ == line_start + render_row(row@.take(x as int)),
                decreases row@.len() - x,
            {
                proof {
                    reveal_strlit("[]");
                    reveal_strlit("  ");
                }
                if row[x] {
                    out.append("[]");
                    proof {
                        assert(("[]")@ =~= render_cell(row@[x as int]));
                    }
                } else {
                    out.append("  ");
                    proof {
                        assert(("  ")@ =~= render_cell(row@[x as int]));
                    }
                }
                proof {
                    assert(row@.take(x + 1 as int).drop_last() =~= row@.take(x as int));
                    assert(out@ =~= line_start + render_row(row@.take(x + 1 as int)));
                }
                x += 1;
            }
            proof {
                assert(row@.take(row@.len() as int) =~= row@);
                assert(out@ == line_start + render_row(gv[y as int]));
                if y == 0 {
                    assert(out@ =~= render_grid(gv.take(1)));
                } else {
                    assert(gv.take(y + 1 as int).drop_last() =~= gv.take(y as int));
                    assert(gv.take(y + 1 as int).last() == gv[y as int]);
                    assert(out@ =~= render_grid(gv.take(y + 1 as int)));
                }
            }
            y += 1;
        }
        proof {
            assert(gv.take(gv.len() as int) =~= gv);
        }
        out
    }

    /// Clear every full playfield row in one bottom-to-top pass: a full row
    /// is blanked, and every surviving row falls down by the number of
    /// cleared rows below it, leaving fresh blank rows at the top. The floor
    /// row is never scanned.
    pub fn update(&mut self)
        requires
            old(self).wf(),
        ensures
            final(self)@ == cleared_field(old(self)@),
            final(self).wf(),
    {
        let ghost orig = self@;
        let ghost cols = grid_cols(orig);
        let fl = self.field.len() - 1;
        let mut y: usize = fl;
        let mut slot: usize = fl;
        proof {
            assert(kept_rows(orig, fl as int) =~= Seq::<Seq<bool>>::empty());
        }
        while y > 0
            invariant
                y <= slot <= fl,
                fl == orig.len() - 1,
                field_wf(orig),
                cols == grid_cols(orig),
                self@.len() == orig.len(),
                rect(self@),
                grid_cols(self@) == cols,
                slot == fl - kept_rows(orig, y as int).len(),
                forall|r: int| 0 <= r < y ==> self@[r] == orig[r],
                self@[fl as int] == orig[fl as int],
                forall|r: int| y <= r < slot ==> self@[r] == blank_row(cols),
                forall|t: int|
                    0 <= t < fl - slot ==> self@[slot + t] == kept_rows(orig, y as int)[t],
            decreases y,
        {
            y -= 1;
            proof {
                lemma_kept_rows_basic(orig, y as int);
            }
            let full = self.is_row_full(y);
            let ghost prev = self@;
            if full {
                self.clear_row(y);
                proof {
                    assert(kept_rows(orig, y as int) == kept_rows(orig, y + 1 as int));
                    assert forall|r: int| 0 <= r < self@.len() && r != y implies self@[r]
                        == prev.index(r) by {}
                    assert(self@[y as int] == blank_row(cols));
                }
            } else {
                proof {
                    assert(kept_rows(orig, y as int) =~= seq![orig[y as int]] + kept_rows(
                        orig,
                        y + 1 as int,
                    ));
                }
                if slot > y + 1 {
                    self.move_row(y, slot - 1);
                    proof {
                        assert forall|r: int|
                            0 <= r < self@.len() && r != y && r != slot - 1 implies self@[r]
                            == prev.index(r) by {}
                        assert(self@[slot - 1 as int] == orig[y as int]);
                        assert(self@[y as int] == blank_row(cols));
                    }
                    slot -= 1;
                } else {
                    slot -= 1;
                }
                proof {
                    assert forall|t: int| 0 <= t < fl - slot implies self@[slot + t] == kept_rows(
                        orig,
                        y as int,
                    )[t] by {
                        if t == 0 {
                            assert(kept_rows(orig, y as int)[0] == orig[y as int]);
                        } else {
                            assert(kept_rows(orig, y as int)[t] == kept_rows(orig, y + 1 as int)[
                                t - 1]);
                        }
                    }
                }
            }
        }
        proof {
            let kept = kept_rows(orig, 0);
            lemma_kept_rows_basic(orig, 0);
            assert(slot == fl - kept.len());
            assert forall|r: int| 0 <= r < orig.len() implies self@[r] == cleared_field(orig).index(
                r,
            ) by {
                if r < slot {
                    assert(self@[r] == blank_row(cols));
                } else if r < fl {
                    assert(self@[r] == kept[r - slot]);
                } else {
                    assert(self@[r] == orig[fl as int]);
                    assert(orig.last() == orig[fl as int]);
                }
            }
            assert(self@ =~= cleared_field(orig));
            lemma_clear_full_rows_props(orig);
        }
    }
}

} // verus!
