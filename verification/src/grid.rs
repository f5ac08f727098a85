//! The mathematical model of the game's grids: a grid is a sequence of rows,
//! each row a sequence of boolean cell occupancies (rows top to bottom,
//! columns left to right).

use vstd::prelude::*;

verus! {

/// Number of columns of a grid: the length of its first row (0 for an empty grid).
pub open spec fn grid_cols(g: Seq<Seq<bool>>) -> int {
    if g.len() == 0 {
        0
    } else {
        g[0].len() as int
    }
}

/// Every row has the same length: the grid is rectangular.
pub open spec fn rect(g: Seq<Seq<bool>>) -> bool {
    forall|i: int| 0 <= i < g.len() ==> #[trigger] g[i].len() == grid_cols(g)
}

/// Every cell of the row is occupied.
pub open spec fn row_full(r: Seq<bool>) -> bool {
    forall|j: int| 0 <= j < r.len() ==> r[j]
}

/// A cleared playfield row of width `w`: occupied border cells at both ends,
/// empty interior.
pub open spec fn blank_row(w: int) -> Seq<bool> {
    Seq::new(w as nat, |j: int| j == 0 || j == w - 1)
}

/// Well-formedness of a playing field grid: rectangular, with a floor row at
/// the bottom and at least the two wall columns; the floor and both walls are
/// permanently occupied.
pub open spec fn field_wf(g: Seq<Seq<bool>>) -> bool {
    &&& rect(g)
    &&& g.len() >= 1
    &&& grid_cols(g) >= 2
    &&& row_full(g.last())
    &&& forall|i: int| 0 <= i < g.len() ==> (#[trigger] g[i])[0] && g[i][grid_cols(g) - 1]
}

/// The 90-degree clockwise rotation of a rectangular matrix: an R x C source
/// becomes a C x R result with `result[j][R - 1 - i] == source[i][j]`.
pub open spec fn rot90(m: Seq<Seq<bool>>) -> Seq<Seq<bool>> {
    Seq::new(grid_cols(m) as nat, |j: int| Seq::new(m.len(), |k: int| m[m.len() - 1 - k][j]))
}

/// Number of occupied cells of a row.
pub open spec fn row_count(r: Seq<bool>) -> int
    decreases r.len(),
{
    if r.len() == 0 {
        0
    } else {
        row_count(r.drop_last()) + if r.last() {
            1int
        } else {
            0int
        }
    }
}

/// Number of occupied cells of a grid.
pub open spec fn grid_count(g: Seq<Seq<bool>>) -> int
    decreases g.len(),
{
    if g.len() == 0 {
        0
    } else {
        grid_count(g.drop_last()) + row_count(g.last())
    }
}

/// Prepending one cell to a row adds that cell's occupancy to the count.
proof fn lemma_row_count_cons(b: bool, r: Seq<bool>)
    ensures
        row_count(seq![b] + r) == row_count(r) + if b {
            1int
        } else {
            0int
        },
    decreases r.len(),
{
    let s = seq![b] + r;
    if r.len() == 0 {
        assert(s.drop_last() =~= Seq::<bool>::empty());
        assert(row_count(Seq::<bool>::empty()) == 0);
        assert(s.last() == b);
    } else {
        assert(s.drop_last() =~= seq![b] + r.drop_last());
        lemma_row_count_cons(b, r.drop_last());
        assert(s.last() == r.last());
    }
}

/// A grid whose rows are the singleton cells of `r` has `r`'s count.
proof fn lemma_grid_count_single_col(g: Seq<Seq<bool>>, r: Seq<bool>)
    requires
        g.len() == r.len(),
        forall|j: int| 0 <= j < g.len() ==> #[trigger] g[j] == seq![r[j]],
    ensures
        grid_count(g) == row_count(r),
    decreases g.len(),
{
    if g.len() > 0 {
        assert forall|j: int| 0 <= j < g.drop_last().len() implies #[trigger] g.drop_last()[j]
            == seq![r.drop_last()[j]] by {
            assert(g[j] == seq![r[j]]);
        }
        lemma_grid_count_single_col(g.drop_last(), r.drop_last());
        assert(g.last() == seq![r.last()]);
        let s = seq![r.last()];
        assert(s.drop_last() =~= Seq::<bool>::empty());
        assert(row_count(Seq::<bool>::empty()) == 0);
        assert(row_count(s) == if r.last() {
            1int
        } else {
            0int
        });
        assert(grid_count(g) == grid_count(g.drop_last()) + row_count(g.last()));
        assert(row_count(r) == row_count(r.drop_last()) + if r.last() {
            1int
        } else {
            0int
        });
    }
}

/// Prepending one cell to every row of a grid adds the cells' own count.
proof fn lemma_grid_count_cons_col(g1: Seq<Seq<bool>>, g2: Seq<Seq<bool>>, r: Seq<bool>)
    requires
        g1.len() == g2.len(),
        g1.len() == r.len(),
        forall|j: int| 0 <= j < g2.len() ==> #[trigger] g2[j] == seq![r[j]] + g1[j],
    ensures
        grid_count(g2) == grid_count(g1) + row_count(r),
    decreases g1.len(),
{
    if g1.len() > 0 {
        assert forall|j: int| 0 <= j < g2.drop_last().len() implies #[trigger] g2.drop_last()[j]
            == seq![r.drop_last()[j]] + g1.drop_last()[j] by {
            assert(g2[j] == seq![r[j]] + g1[j]);
        }
        lemma_grid_count_cons_col(g1.drop_last(), g2.drop_last(), r.drop_last());
        assert(g2.last() == seq![r.last()] + g1.last());
        lemma_row_count_cons(r.last(), g1.last());
        assert(grid_count(g2) == grid_count(g2.drop_last()) + row_count(g2.last()));
        assert(grid_count(g1) == grid_count(g1.drop_last()) + row_count(g1.last()));
        assert(row_count(r) == row_count(r.drop_last()) + if r.last() {
            1int
        } else {
            0int
        });
    }
}

/// Rotation preserves the total occupied-cell count.
pub proof fn lemma_rot90_count(m: Seq<Seq<bool>>)
    requires
        rect(m),
    ensures
        grid_count(rot90(m)) == grid_count(m),
    decreases m.len(),
{
    let c = grid_cols(m);
    if m.len() == 0 {
        assert(rot90(m) =~~= Seq::<Seq<bool>>::empty());
    } else if m.len() == 1 {
        assert forall|j: int| 0 <= j < c implies #[trigger] rot90(m)[j] == seq![m[0][j]] by {
            assert(rot90(m)[j] =~= seq![m[0][j]]);
        }
        assert(m[0].len() == c);
        lemma_grid_count_single_col(rot90(m), m[0]);
        assert(m.drop_last().len() == 0);
        assert(m.last() == m[0]);
        assert(grid_count(m) == grid_count(m.drop_last()) + row_count(m.last()));
    } else {
        let m2 = m.drop_last();
        assert(grid_cols(m2) == c);
        assert(rect(m2));
        lemma_rot90_count(m2);
        let r = m.last();
        assert(r.len() == c);
        assert forall|j: int| 0 <= j < c implies #[trigger] rot90(m)[j] == seq![r[j]] + rot90(
            m2,
        )[j] by {
            assert forall|k: int| 0 <= k < m.len() implies rot90(m)[j][k] == (seq![r[j]] + rot90(
                m2,
            )[j])[k] by {
                if k == 0 {
                    assert(rot90(m)[j][0] == m[m.len() - 1][j]);
                } else {
                    assert(rot90(m)[j][k] == m[m.len() - 1 - k][j]);
                    assert(rot90(m2)[j][k - 1] == m2[m2.len() - 1 - (k - 1)][j]);
                }
            }
            assert(rot90(m)[j] =~= seq![r[j]] + rot90(m2)[j]);
        }
        lemma_grid_count_cons_col(rot90(m2), rot90(m), r);
        assert(grid_count(m) == grid_count(m2) + row_count(m.last()));
    }
}

/// Rotating a non-degenerate R-by-C rectangular matrix yields a C-by-R
/// rectangular matrix.
pub proof fn lemma_rot90_rect(m: Seq<Seq<bool>>)
    requires
        rect(m),
        m.len() > 0,
        grid_cols(m) > 0,
    ensures
        rect(rot90(m)),
        rot90(m).len() == grid_cols(m),
        grid_cols(rot90(m)) == m.len(),
{
    assert forall|j: int| 0 <= j < grid_cols(m) implies (#[trigger] rot90(m)[j]).len()
        == m.len() by {
        assert(rot90(m)[j] == Seq::new(m.len(), |k: int| m[m.len() - 1 - k][j]));
    }
    assert(rot90(m)[0].len() == m.len());
}

/// Applying the rotation transform four times to any non-degenerate
/// rectangular matrix returns a matrix equal to the original.
pub proof fn lemma_rot90_four_times(m: Seq<Seq<bool>>)
    requires
        rect(m),
        m.len() > 0,
        grid_cols(m) > 0,
    ensures
        rot90(rot90(rot90(rot90(m)))) == m,
{
    let rn = m.len() as int;
    let c = grid_cols(m);
    let m1 = rot90(m);
    assert(m1.len() == c && grid_cols(m1) == rn);
    assert(rect(m1));
    let m2 = rot90(m1);
    assert forall|i: int, k: int| 0 <= i < rn && 0 <= k < c implies #[trigger] m2[i][k] == m[rn - 1
        - i][c - 1 - k] by {
        assert(m2[i][k] == m1[c - 1 - k][i]);
        assert(m1[c - 1 - k][i] == m[rn - 1 - i][c - 1 - k]);
    }
    assert(m2.len() == rn && grid_cols(m2) == c);
    assert(rect(m2));
    let m3 = rot90(m2);
    assert forall|j: int, k: int| 0 <= j < c && 0 <= k < rn implies #[trigger] m3[j][k] == m[k][c
        - 1 - j] by {
        assert(m3[j][k] == m2[rn - 1 - k][j]);
    }
    assert(m3.len() == c && grid_cols(m3) == rn);
    assert(rect(m3));
    let m4 = rot90(m3);
    assert forall|i: int, j: int| 0 <= i < rn && 0 <= j < c implies #[trigger] m4[i][j] == m[i].index(
        j,
    ) by {
        assert(m4[i][j] == m3[c - 1 - j][i]);
    }
    assert forall|i: int| 0 <= i < rn implies #[trigger] m4[i] == m[i] by {
        assert(m4[i] =~= m[i]);
    }
    assert(m4 =~= m);
}

} // verus!
