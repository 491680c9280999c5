//! Occupancy grid: a rectangle of cells, each unknown, free or occupied.

use vstd::prelude::*;

verus! {

/// State of a grid cell.
#[derive(Debug, Clone, Copy, PartialEq, Eq, Structural)]
pub enum CellState {
    Unknown,
    Free,
    Occupied,
}

/// A cell counts as explored once it is known to be free or occupied.
pub open spec fn is_explored(s: CellState) -> bool {
    s == CellState::Free || s == CellState::Occupied
}

/// Number of explored cells in one row.
pub open spec fn explored_in_row(row: Seq<CellState>) -> nat
    decreases row.len(),
{
    if row.len() == 0 {
        0
    } else {
        explored_in_row(row.drop_last()) + if is_explored(row.last()) { 1nat } else { 0nat }
    }
}

/// Number of explored cells in a grid.
pub open spec fn explored_in_grid(g: Seq<Seq<CellState>>) -> nat
    decreases g.len(),
{
    if g.len() == 0 {
        0
    } else {
        explored_in_grid(g.drop_last()) + explored_in_row(g.last())
    }
}

/// A grid is a non-empty rectangle.
pub open spec fn rectangular(g: Seq<Seq<CellState>>) -> bool {
    &&& g.len() >= 1
    &&& g[0].len() >= 1
    &&& forall|r: int| 0 <= r < g.len() ==> #[trigger] g[r].len() == g[0].len()
}

/// Whether `(row, col)` names a cell of the rectangle `g`.
pub open spec fn holds_cell(g: Seq<Seq<CellState>>, row: int, col: int) -> bool {
    0 <= row < g.len() && 0 <= col < g[0].len()
}

/// The grid `g` with cell `(row, col)` set to `s`, if that cell exists.
pub open spec fn with_cell(g: Seq<Seq<CellState>>, row: int, col: int, s: CellState) -> Seq<
    Seq<CellState>,
> {
    if holds_cell(g, row, col) {
        g.update(row, g[row].update(col, s))
    } else {
        g
    }
}

/// Whether `(row, col)` is a cell of `g` inside the square of half-width `half`
/// around `(center_row, center_col)`.
pub open spec fn in_window(
    g: Seq<Seq<CellState>>,
    center_row: int,
    center_col: int,
    half: int,
    row: int,
    col: int,
) -> bool {
    &&& holds_cell(g, row, col)
    &&& center_row - half <= row <= center_row + half
    &&& center_col - half <= col <= center_col + half
}

/// Row-major order on cell coordinates.
pub open spec fn row_major_before(a: (usize, usize), b: (usize, usize)) -> bool {
    a.0 < b.0 || (a.0 == b.0 && a.1 < b.1)
}

/// Whether `(row, col)` is a cell of `g` in rows `row_start..row_end` and columns
/// `col_start..col_end`.
pub open spec fn in_block(
    g: Seq<Seq<CellState>>,
    row_start: int,
    row_end: int,
    col_start: int,
    col_end: int,
    row: int,
    col: int,
) -> bool {
    holds_cell(g, row, col) && row_start <= row < row_end && col_start <= col < col_end
}

/// Summary of a block: occupied if any cell is occupied, else free if any cell is
/// free, else unknown.
pub open spec fn block_summary(
    g: Seq<Seq<CellState>>,
    row_start: int,
    row_end: int,
    col_start: int,
    col_end: int,
) -> CellState {
    if exists|r: int, c: int|
        #![trigger g[r][c]]
        in_block(g, row_start, row_end, col_start, col_end, r, c) && g[r][c]
            == CellState::Occupied {
        CellState::Occupied
    } else if exists|r: int, c: int|
        #![trigger g[r][c]]
        in_block(g, row_start, row_end, col_start, col_end, r, c) && g[r][c]
            == CellState::Free {
        CellState::Free
    } else {
        CellState::Unknown
    }
}

/// Explored cells never outnumber the cells of a row.
pub proof fn lemma_explored_in_row_bound(row: Seq<CellState>)
    ensures
        explored_in_row(row) <= row.len(),
    decreases row.len(),
{
    if row.len() > 0 {
        lemma_explored_in_row_bound(row.drop_last());
    }
}

/// Explored cells never outnumber the cells of a rectangle.
pub proof fn lemma_explored_in_grid_bound(g: Seq<Seq<CellState>>, cols: nat)
    requires
        forall|r: int| 0 <= r < g.len() ==> #[trigger] g[r].len() == cols,
    ensures
        explored_in_grid(g) <= g.len() * cols,
    decreases g.len(),
{
    if g.len() > 0 {
        lemma_explored_in_grid_bound(g.drop_last(), cols);
        lemma_explored_in_row_bound(g.last());
        assert(g.len() * cols == (g.len() - 1) * cols + cols) by (nonlinear_arith);
    }
}

/// Adding one more row to a block: the summary of the larger block follows from the
/// summary of the smaller one and the new row.
proof fn lemma_block_extend_row(g: Seq<Seq<CellState>>, r0: int, r: int, c0: int, c1: int)
    requires
        rectangular(g),
        0 <= r0 <= r < g.len(),
        0 <= c0,
        c1 <= g[0].len(),
    ensures
        block_summary(g, r0, r + 1, c0, c1) == if block_summary(g, r0, r, c0, c1)
            == CellState::Occupied || exists|k: int|
            #![trigger g[r][k]]
            c0 <= k < c1 && g[r][k] == CellState::Occupied {
            CellState::Occupied
        } else if block_summary(g, r0, r, c0, c1) == CellState::Free || exists|k: int|
            #![trigger g[r][k]]
            c0 <= k < c1 && g[r][k] == CellState::Free {
            CellState::Free
        } else {
            CellState::Unknown
        },
{
    let occ_new = exists|a: int, b: int|
        #![trigger g[a][b]]
        in_block(g, r0, r + 1, c0, c1, a, b) && g[a][b] == CellState::Occupied;
    let occ_old = exists|a: int, b: int|
        #![trigger g[a][b]]
        in_block(g, r0, r, c0, c1, a, b) && g[a][b] == CellState::Occupied;
    let occ_row = exists|k: int| #![trigger g[r][k]] c0 <= k < c1 && g[r][k] == CellState::Occupied;
    let free_new = exists|a: int, b: int|
        #![trigger g[a][b]]
        in_block(g, r0, r + 1, c0, c1, a, b) && g[a][b] == CellState::Free;
    let free_old = exists|a: int, b: int|
        #![trigger g[a][b]]
        in_block(g, r0, r, c0, c1, a, b) && g[a][b] == CellState::Free;
    let free_row = exists|k: int| #![trigger g[r][k]] c0 <= k < c1 && g[r][k] == CellState::Free;
    if occ_new {
        let (a, b) = choose|a: int, b: int|
            #![trigger g[a][b]]
            in_block(g, r0, r + 1, c0, c1, a, b) && g[a][b] == CellState::Occupied;
        if a < r {
            assert(in_block(g, r0, r, c0, c1, a, b));
        } else {
            assert(g[r][b] == CellState::Occupied);
        }
    }
    if occ_old {
        let (a, b) = choose|a: int, b: int|
            #![trigger g[a][b]]
            in_block(g, r0, r, c0, c1, a, b) && g[a][b] == CellState::Occupied;
        assert(in_block(g, r0, r + 1, c0, c1, a, b));
    }
    if occ_row {
        let k = choose|k: int| #![trigger g[r][k]] c0 <= k < c1 && g[r][k] == CellState::Occupied;
        assert(in_block(g, r0, r + 1, c0, c1, r, k));
    }
    if free_new {
        let (a, b) = choose|a: int, b: int|
            #![trigger g[a][b]]
            in_block(g, r0, r + 1, c0, c1, a, b) && g[a][b] == CellState::Free;
        if a < r {
            assert(in_block(g, r0, r, c0, c1, a, b));
        } else {
            assert(g[r][b] == CellState::Free);
        }
    }
    if free_old {
        let (a, b) = choose|a: int, b: int|
            #![trigger g[a][b]]
            in_block(g, r0, r, c0, c1, a, b) && g[a][b] == CellState::Free;
        assert(in_block(g, r0, r + 1, c0, c1, a, b));
    }
    if free_row {
        let k = choose|k: int| #![trigger g[r][k]] c0 <= k < c1 && g[r][k] == CellState::Free;
        assert(in_block(g, r0, r + 1, c0, c1, r, k));
    }
}

/// Reading a cell after writing it gives back the written state, and the write leaves
/// every other cell and the shape unchanged.
pub proof fn read_after_write(g: Seq<Seq<CellState>>, row: int, col: int, s: CellState)
    requires
        rectangular(g),
        holds_cell(g, row, col),
    ensures
        with_cell(g, row, col, s)[row][col] == s,
        rectangular(with_cell(g, row, col, s)),
        forall|r: int, c: int|
            holds_cell(g, r, c) && (r, c) != (row, col) ==> #[trigger] with_cell(g, row, col, s)[r][c]
                == g[r][c],
{
    let h = with_cell(g, row, col, s);
    assert forall|r: int| 0 <= r < h.len() implies #[trigger] h[r].len() == h[0].len() by {
        assert(g[r].len() == g[0].len());
    }
}

/// A grid whose cells are all unknown has no explored cell.
pub proof fn unknown_grid_is_unexplored(g: Seq<Seq<CellState>>)
    requires
        forall|r: int, c: int|
            0 <= r < g.len() && 0 <= c < g[r].len() ==> #[trigger] g[r][c] == CellState::Unknown,
    ensures
        explored_in_grid(g) == 0,
    decreases g.len(),
{
    if g.len() > 0 {
        let front = g.drop_last();
        assert forall|r: int, c: int|
            0 <= r < front.len() && 0 <= c < front[r].len() implies #[trigger] front[r][c]
                == CellState::Unknown by {
            assert(front[r] == g[r]);
        }
        unknown_grid_is_unexplored(front);
        lemma_unknown_row(g.last());
    }
}

proof fn lemma_unknown_row(row: Seq<CellState>)
    requires
        forall|c: int| 0 <= c < row.len() ==> #[trigger] row[c] == CellState::Unknown,
    ensures
        explored_in_row(row) == 0,
    decreases row.len(),
{
    if row.len() > 0 {
        let front = row.drop_last();
        assert forall|c: int| 0 <= c < front.len() implies #[trigger] front[c] == CellState::Unknown by {
            assert(front[c] == row[c]);
        }
        lemma_unknown_row(front);
    }
}

/// The explored cells of a grid never outnumber its cells, so coverage lies in [0, 1].
pub proof fn explored_within_total(g: Seq<Seq<CellState>>)
    requires
        rectangular(g),
    ensures
        explored_in_grid(g) <= g.len() * g[0].len(),
{
    lemma_explored_in_grid_bound(g, g[0].len());
}

/// The grid `g` with every listed cell set to `s` (listed cells outside `g` are ignored).
pub open spec fn filled(g: Seq<Seq<CellState>>, cells: Seq<(usize, usize)>, s: CellState) -> Seq<
    Seq<CellState>,
> {
    Seq::new(
        g.len(),
        |r: int|
            Seq::new(
                g[r].len(),
                |c: int|
                    if cells.contains((r as usize, c as usize)) {
                        s
                    } else {
                        g[r][c]
                    },
            ),
    )
}

/// Filling the same cells twice leaves the second state: clearing the cells an
/// obstacle covered undoes its marking, whatever the cells held before.
pub proof fn refill_overrides(
    g: Seq<Seq<CellState>>,
    cells: Seq<(usize, usize)>,
    first: CellState,
    second: CellState,
)
    ensures
        filled(filled(g, cells, first), cells, second) == filled(g, cells, second),
{
    assert(filled(filled(g, cells, first), cells, second) =~~= filled(g, cells, second));
}

/// Filling keeps a grid rectangular.
pub proof fn filled_is_rectangular(g: Seq<Seq<CellState>>, cells: Seq<(usize, usize)>, s: CellState)
    requires
        rectangular(g),
    ensures
        rectangular(filled(g, cells, s)),
{
    let h = filled(g, cells, s);
    assert forall|r: int| 0 <= r < h.len() implies #[trigger] h[r].len() == h[0].len() by {
        assert(g[r].len() == g[0].len());
    }
}

/// 2D occupancy grid, stored row by row.
/// `h` has the shape of `g` and every cell explored in `g` is explored in `h`.
pub open spec fn explores_at_least(g: Seq<Seq<CellState>>, h: Seq<Seq<CellState>>) -> bool {
    &&& g.len() == h.len()
    &&& forall|r: int| 0 <= r < g.len() ==> #[trigger] g[r].len() == h[r].len()
    &&& forall|r: int, c: int|
        0 <= r < g.len() && 0 <= c < g[r].len() && is_explored(g[r][c]) ==> is_explored(
            #[trigger] h[r][c],
        )
}

proof fn lemma_row_explored_monotone(a: Seq<CellState>, b: Seq<CellState>)
    requires
        a.len() == b.len(),
        forall|c: int| 0 <= c < a.len() && is_explored(a[c]) ==> is_explored(#[trigger] b[c]),
    ensures
        explored_in_row(a) <= explored_in_row(b),
    decreases a.len(),
{
    if a.len() > 0 {
        let a0 = a.drop_last();
        let b0 = b.drop_last();
        assert forall|c: int| 0 <= c < a0.len() && is_explored(a0[c]) implies is_explored(#[trigger] b0[c]) by {
            assert(a0[c] == a[c] && b0[c] == b[c]);
        }
        lemma_row_explored_monotone(a0, b0);
        assert(is_explored(a.last()) ==> is_explored(b[b.len() - 1]));
    }
}

/// Turning cells explored never lowers the explored count: coverage can only grow.
pub proof fn explored_count_monotone(g: Seq<Seq<CellState>>, h: Seq<Seq<CellState>>)
    requires
        explores_at_least(g, h),
    ensures
        explored_in_grid(g) <= explored_in_grid(h),
    decreases g.len(),
{
    if g.len() > 0 {
        let g0 = g.drop_last();
        let h0 = h.drop_last();
        assert forall|r: int| 0 <= r < g0.len() implies #[trigger] g0[r].len() == h0[r].len() by {
            assert(g0[r] == g[r] && h0[r] == h[r]);
        }
        assert forall|r: int, c: int|
            0 <= r < g0.len() && 0 <= c < g0[r].len() && is_explored(g0[r][c]) implies is_explored(
                #[trigger] h0[r][c],
            ) by {
            assert(g0[r] == g[r] && h0[r] == h[r]);
        }
        explored_count_monotone(g0, h0);
        let last = g.len() - 1;
        assert(g[last].len() == h[last].len());
        assert forall|c: int| 0 <= c < g[last].len() && is_explored(g[last][c]) implies is_explored(
            #[trigger] h[last][c],
        ) by {}
        lemma_row_explored_monotone(g[last], h[last]);
    }
}

/// Writing an explored state (free or occupied) into a cell never lowers the explored
/// count.
pub proof fn set_explored_never_lowers(g: Seq<Seq<CellState>>, row: int, col: int, s: CellState)
    requires
        rectangular(g),
        is_explored(s),
    ensures
        explored_in_grid(g) <= explored_in_grid(with_cell(g, row, col, s)),
{
    let h = with_cell(g, row, col, s);
    assert forall|r: int| 0 <= r < g.len() implies #[trigger] g[r].len() == h[r].len() by {}
    assert forall|r: int, c: int|
        0 <= r < g.len() && 0 <= c < g[r].len() && is_explored(g[r][c]) implies is_explored(
            #[trigger] h[r][c],
        ) by {
        assert(g[r].len() == g[0].len());
    }
    explored_count_monotone(g, h);
}

/// Marking a cell free the way `OccupancyGrid::mark_free` does (occupied cells are left
/// alone) never lowers the explored count.
pub proof fn mark_free_never_lowers(g: Seq<Seq<CellState>>, row: int, col: int)
    requires
        rectangular(g),
    ensures
        explored_in_grid(g) <= explored_in_grid(
            if holds_cell(g, row, col) && g[row][col] == CellState::Occupied {
                g
            } else {
                with_cell(g, row, col, CellState::Free)
            },
        ),
{
    set_explored_never_lowers(g, row, col, CellState::Free);
}

/// Filling cells with an explored state (free or occupied) never lowers the explored
/// count.
pub proof fn fill_explored_never_lowers(g: Seq<Seq<CellState>>, cells: Seq<(usize, usize)>, s: CellState)
    requires
        is_explored(s),
    ensures
        explored_in_grid(g) <= explored_in_grid(filled(g, cells, s)),
{
    explored_count_monotone(g, filled(g, cells, s));
}

/// Position of cell `(row, col)` in row-major storage with `cols` columns.
pub open spec fn flat_index(row: int, col: int, cols: int) -> int {
    row * cols + col
}

proof fn lemma_flat_index_bound(row: int, col: int, rows: int, cols: int)
    requires
        0 <= row < rows,
        0 <= col < cols,
    ensures
        0 <= flat_index(row, col, cols) < rows * cols,
{
    assert(0 <= row * cols) by (nonlinear_arith)
        requires
            0 <= row,
            0 <= cols,
    ;
    assert(row * cols + cols <= rows * cols) by (nonlinear_arith)
        requires
            row < rows,
            0 <= cols,
    ;
}

proof fn lemma_flat_index_injective(r1: int, c1: int, r2: int, c2: int, cols: int)
    requires
        0 <= r1,
        0 <= r2,
        0 <= c1 < cols,
        0 <= c2 < cols,
    ensures
        (flat_index(r1, c1, cols) == flat_index(r2, c2, cols)) == (r1 == r2 && c1 == c2),
{
    if r1 < r2 {
        assert(r1 * cols + cols <= r2 * cols) by (nonlinear_arith)
            requires
                r1 < r2,
                0 <= cols,
        ;
    } else if r2 < r1 {
        assert(r2 * cols + cols <= r1 * cols) by (nonlinear_arith)
            requires
                r2 < r1,
                0 <= cols,
        ;
    }
}

/// Filling marks exactly the listed cells: every listed pair `(row, col)` that is a cell
/// of the grid takes the state, every other cell keeps its state, and the shape stays.
pub proof fn fill_marks_exactly_listed(g: Seq<Seq<CellState>>, cells: Seq<(usize, usize)>, s: CellState)
    requires
        rectangular(g),
    ensures
        filled(g, cells, s).len() == g.len(),
        forall|r: int| 0 <= r < g.len() ==> #[trigger] filled(g, cells, s)[r].len() == g[r].len(),
        forall|i: int|
            0 <= i < cells.len() && holds_cell(g, cells[i].0 as int, cells[i].1 as int) ==> #[trigger] filled(
                g,
                cells,
                s,
            )[cells[i].0 as int][cells[i].1 as int] == s,
        forall|r: usize, c: usize|
            holds_cell(g, r as int, c as int) && !cells.contains((r, c)) ==> #[trigger] filled(g, cells, s)[r as int][c
                as int] == g[r as int][c as int],
{
    let h = filled(g, cells, s);
    assert forall|i: int|
        0 <= i < cells.len() && holds_cell(g, cells[i].0 as int, cells[i].1 as int) implies #[trigger] filled(
            g,
            cells,
            s,
        )[cells[i].0 as int][cells[i].1 as int] == s by {
        let r = cells[i].0 as int;
        assert(g[r].len() == g[0].len());
        assert(cells.contains(((r as usize), (cells[i].1 as int) as usize)));
    }
    assert forall|r: usize, c: usize|
        holds_cell(g, r as int, c as int) && !cells.contains((r, c)) implies #[trigger] h[r as int][c as int]
            == g[r as int][c as int] by {
        assert(g[r as int].len() == g[0].len());
    }
}

/// Writing a cell sets exactly that cell: it takes the state when it is a cell of the
/// grid, and every other cell keeps its state.
pub proof fn write_sets_exactly_that_cell(g: Seq<Seq<CellState>>, row: int, col: int, s: CellState)
    requires
        rectangular(g),
    ensures
        with_cell(g, row, col, s).len() == g.len(),
        forall|r: int| 0 <= r < g.len() ==> #[trigger] with_cell(g, row, col, s)[r].len() == g[r].len(),
        0 <= row < g.len() && 0 <= col < g[0].len() ==> with_cell(g, row, col, s)[row][col] == s,
        forall|r: int, c: int|
            0 <= r < g.len() && 0 <= c < g[0].len() && !(r == row && c == col) ==> #[trigger] with_cell(
                g,
                row,
                col,
                s,
            )[r][c] == g[r][c],
{
}

/// One for an explored state, zero otherwise.
pub open spec fn explored_weight(s: CellState) -> int {
    if s == CellState::Free || s == CellState::Occupied {
        1
    } else {
        0
    }
}

proof fn lemma_row_update_count(row: Seq<CellState>, c: int, s: CellState)
    requires
        0 <= c < row.len(),
    ensures
        explored_in_row(row.update(c, s)) + explored_weight(row[c]) == explored_in_row(row) + explored_weight(s),
    decreases row.len(),
{
    let n = row.len() - 1;
    let u = row.update(c, s);
    if c == n {
        assert(u.drop_last() =~= row.drop_last());
    } else {
        assert(u.drop_last() =~= row.drop_last().update(c, s));
        lemma_row_update_count(row.drop_last(), c, s);
    }
}

proof fn lemma_grid_update_count(g: Seq<Seq<CellState>>, r: int, row: Seq<CellState>)
    requires
        0 <= r < g.len(),
    ensures
        explored_in_grid(g.update(r, row)) + explored_in_row(g[r]) == explored_in_grid(g) + explored_in_row(row),
    decreases g.len(),
{
    let n = g.len() - 1;
    let u = g.update(r, row);
    if r == n {
        assert(u.drop_last() =~= g.drop_last());
    } else {
        assert(u.drop_last() =~= g.drop_last().update(r, row));
        lemma_grid_update_count(g.drop_last(), r, row);
    }
}

/// Writing a cell changes the explored count by exactly the difference its state makes:
/// writing free or occupied into an unknown cell (any row, any column) adds one, writing
/// unknown over an explored cell removes one, and any other write leaves the count.
pub proof fn explored_count_exact_change(g: Seq<Seq<CellState>>, row: int, col: int, s: CellState)
    requires
        rectangular(g),
        holds_cell(g, row, col),
    ensures
        explored_in_grid(with_cell(g, row, col, s)) + explored_weight(g[row][col]) == explored_in_grid(g)
            + explored_weight(s),
        g[row][col] == CellState::Unknown && (s == CellState::Free || s == CellState::Occupied)
            ==> explored_in_grid(with_cell(g, row, col, s)) == explored_in_grid(g) + 1,
{
    assert(g[row].len() == g[0].len());
    lemma_row_update_count(g[row], col, s);
    lemma_grid_update_count(g, row, g[row].update(col, s));
}

/// A grid whose only explored cell is `(row, col)` counts exactly one explored cell.
pub proof fn single_explored_cell_counts_one(g: Seq<Seq<CellState>>, row: int, col: int)
    requires
        rectangular(g),
        holds_cell(g, row, col),
        g[row][col] == CellState::Free || g[row][col] == CellState::Occupied,
        forall|r: int, c: int|
            holds_cell(g, r, c) && !(r == row && c == col) ==> #[trigger] g[r][c] == CellState::Unknown,
    ensures
        explored_in_grid(g) == 1,
{
    let blank = with_cell(g, row, col, CellState::Unknown);
    assert forall|r: int, c: int| 0 <= r < blank.len() && 0 <= c < blank[r].len() implies #[trigger] blank[r][c]
        == CellState::Unknown by {
        assert(g[r].len() == g[0].len());
    }
    unknown_grid_is_unexplored(blank);
    assert(g[row].len() == g[0].len());
    read_after_write(g, row, col, CellState::Unknown);
    explored_count_exact_change(blank, row, col, g[row][col]);
    let back = with_cell(blank, row, col, g[row][col]);
    assert forall|r: int| 0 <= r < g.len() implies #[trigger] back[r] =~= g[r] by {
        assert(g[r].len() == g[0].len());
    }
    assert(back =~= g);
}

/// 2D occupancy grid, stored row by row in one vector.
pub struct OccupancyGrid {
    cells: Vec<CellState>,
    rows: usize,
    cols: usize,
}

impl View for OccupancyGrid {
    type V = Seq<Seq<CellState>>;

    closed spec fn view(&self) -> Seq<Seq<CellState>> {
        Seq::new(
            self.rows as nat,
            |r: int| Seq::new(self.cols as nat, |c: int| self.cells@[flat_index(r, c, self.cols as int)]),
        )
    }
}

impl OccupancyGrid {
    /// Every grid is a non-empty rectangle holding one stored state per cell.
    #[verifier::type_invariant]
    spec fn inv(self) -> bool {
        &&& self.rows >= 1
        &&& self.cols >= 1
        &&& self.cells@.len() == self.rows * self.cols
    }

    /// Storage position of cell `(row, col)`.
    fn at(&self, row: usize, col: usize) -> (i: usize)
        requires
            row < self@.len(),
            col < self@[0].len(),
        ensures
            i < self.cells@.len(),
            i == flat_index(row as int, col as int, self.cols as int),
            self@[row as int][col as int] == self.cells@[i as int],
    {
        proof {
            use_type_invariant(self);
            lemma_flat_index_bound(row as int, col as int, self.rows as int, self.cols as int);
            assert(self.cells.len() == self.cells@.len());
            assert(0 <= row * self.cols) by (nonlinear_arith);
        }
        row * self.cols + col
    }

    /// A grid of `rows` by `cols` cells, all unknown.
    pub fn new(rows: usize, cols: usize) -> (g: Self)
        requires
            rows >= 1,
            cols >= 1,
            rows * cols <= usize::MAX,
        ensures
            rectangular(g@),
            g@.len() == rows,
            g@[0].len() == cols,
            forall|r: int, c: int|
                0 <= r < rows && 0 <= c < cols ==> #[trigger] g@[r][c] == CellState::Unknown,
    {
        let n = rows * cols;
        let mut cells: Vec<CellState> = Vec::new();
        let mut i: usize = 0;
        while i < n
            invariant
                i <= n,
                cells@.len() == i,
                forall|k: int| 0 <= k < i ==> #[trigger] cells@[k] == CellState::Unknown,
            decreases n - i,
        {
            cells.push(CellState::Unknown);
            i = i + 1;
        }
        let g = OccupancyGrid { cells, rows, cols };
        assert forall|r: int, c: int|
            0 <= r < rows && 0 <= c < cols implies #[trigger] g@[r][c] == CellState::Unknown by {
            lemma_flat_index_bound(r, c, rows as int, cols as int);
        }
        g
    }

    /// Number of rows.
    pub fn rows(&self) -> (n: usize)
        ensures
            n == self@.len(),
            rectangular(self@),
    {
        proof {
            use_type_invariant(self);
        }
        self.rows
    }

    /// Number of columns: the length of the first row, or 0 for a grid without rows.
    pub fn cols(&self) -> (n: usize)
        ensures
            n == if self@.len() == 0 {
                0
            } else {
                self@[0].len()
            },
            rectangular(self@),
    {
        proof {
            use_type_invariant(self);
        }
        self.cols
    }

    /// Whether `(row, col)` names a cell of the grid.
    pub fn in_bounds(&self, row: usize, col: usize) -> (b: bool)
        ensures
            b == holds_cell(self@, row as int, col as int),
            b == (row < self@.len() && col < self@[0].len()),
    {
        row < self.rows() && col < self.cols()
    }

    /// State of cell `(row, col)`; a cell outside the grid reads as unknown.
    pub fn get(&self, row: usize, col: usize) -> (s: CellState)
        ensures
            s == if holds_cell(self@, row as int, col as int) {
                self@[row as int][col as int]
            } else {
                CellState::Unknown
            },
            row < self@.len() && col < self@[0].len() ==> s == self@[row as int][col as int],
            !(row < self@.len() && col < self@[0].len()) ==> s == CellState::Unknown,
    {
        if self.in_bounds(row, col) {
            let i = self.at(row, col);
            self.cells[i]
        } else {
            CellState::Unknown
        }
    }

    /// Set cell `(row, col)` to `state`; a cell outside the grid is ignored.
    pub fn set(&mut self, row: usize, col: usize, state: CellState)
        ensures
            rectangular(final(self)@),
            final(self)@ == with_cell(old(self)@, row as int, col as int, state),
            final(self)@.len() == old(self)@.len(),
            forall|r: int| 0 <= r < old(self)@.len() ==> #[trigger] final(self)@[r].len() == old(self)@[r].len(),
            row < old(self)@.len() && col < old(self)@[0].len() ==> final(self)@[row as int][col as int] == state,
            forall|r: int, c: int|
                0 <= r < old(self)@.len() && 0 <= c < old(self)@[0].len() && !(r == row && c == col)
                    ==> #[trigger] final(self)@[r][c] == old(self)@[r][c],
    {
        proof {
            use_type_invariant(&*self);
            write_sets_exactly_that_cell(old(self)@, row as int, col as int, state);
        }
        if self.in_bounds(row, col) {
            let ghost g0 = self@;
            let i = self.at(row, col);
            self.cells[i] = state;
            assert forall|r: int| 0 <= r < g0.len() implies #[trigger] self@[r] =~= with_cell(
                g0,
                row as int,
                col as int,
                state,
            )[r] by {
                assert forall|c: int| 0 <= c < g0[0].len() implies self@[r][c] == with_cell(
                    g0,
                    row as int,
                    col as int,
                    state,
                )[r][c] by {
                    lemma_flat_index_injective(r, c, row as int, col as int, self.cols as int);
                    lemma_flat_index_bound(r, c, self.rows as int, self.cols as int);
                }
            }
            assert(self@ =~= with_cell(g0, row as int, col as int, state));
        }
        proof {
            use_type_invariant(&*self);
        }
    }

    /// Whether cell `(row, col)` is occupied.
    pub fn is_occupied(&self, row: usize, col: usize) -> (b: bool)
        ensures
            b == (holds_cell(self@, row as int, col as int) && self@[row as int][col as int]
                == CellState::Occupied),
    {
        proof {
            use_type_invariant(self);
        }
        self.get(row, col) == CellState::Occupied
    }

    /// Whether cell `(row, col)` is known to be free.
    pub fn is_free(&self, row: usize, col: usize) -> (b: bool)
        ensures
            b == (holds_cell(self@, row as int, col as int) && self@[row as int][col as int]
                == CellState::Free),
    {
        proof {
            use_type_invariant(self);
        }
        self.get(row, col) == CellState::Free
    }

    /// Mark cell `(row, col)` free unless it is occupied; a cell outside the grid is ignored.
    pub fn mark_free(&mut self, row: usize, col: usize)
        ensures
            rectangular(final(self)@),
            final(self)@ == if holds_cell(old(self)@, row as int, col as int)
                && old(self)@[row as int][col as int] == CellState::Occupied {
                old(self)@
            } else {
                with_cell(old(self)@, row as int, col as int, CellState::Free)
            },
    {
        proof {
            use_type_invariant(&*self);
        }
        if self.get(row, col) != CellState::Occupied {
            self.set(row, col, CellState::Free);
        }
    }

    /// Reset every cell to unknown, keeping the shape.
    pub fn clear(&mut self)
        ensures
            rectangular(final(self)@),
            final(self)@.len() == old(self)@.len(),
            forall|r: int|
                0 <= r < old(self)@.len() ==> #[trigger] final(self)@[r].len() == old(self)@[r].len(),
            forall|r: int, c: int|
                holds_cell(old(self)@, r, c) ==> #[trigger] final(self)@[r][c] == CellState::Unknown,
    {
        proof {
            use_type_invariant(&*self);
        }
        let n = self.cells.len();
        let mut i: usize = 0;
        while i < n
            invariant
                self.rows >= 1,
                self.cols >= 1,
                n == self.cells@.len() == self.rows * self.cols,
                self.rows == old(self).rows,
                self.cols == old(self).cols,
                i <= n,
                forall|k: int| 0 <= k < i ==> #[trigger] self.cells@[k] == CellState::Unknown,
            decreases n - i,
        {
            self.cells[i] = CellState::Unknown;
            i = i + 1;
        }
        assert forall|r: int, c: int|
            holds_cell(old(self)@, r, c) implies #[trigger] self@[r][c] == CellState::Unknown by {
            lemma_flat_index_bound(r, c, self.rows as int, self.cols as int);
        }
    }

    /// Number of explored (free or occupied) cells.
    pub fn explored_cells(&self) -> (n: usize)
        ensures
            n == explored_in_grid(self@),
    {
        proof {
            use_type_invariant(self);
        }
        let rows = self.rows();
        let cols = self.cols();
        let ghost g = self@;
        assert(self.cells.len() == self.cells@.len());
        let mut n: usize = 0;
        let mut r: usize = 0;
        while r < rows
            invariant
                g == self@,
                rectangular(g),
                rows == g.len(),
                cols == g[0].len(),
                rows * cols <= usize::MAX,
                r <= rows,
                n == explored_in_grid(g.take(r as int)),
            decreases rows - r,
        {
            let mut c: usize = 0;
            let ghost base = n as nat;
            proof {
                lemma_explored_in_grid_bound(g.take(r as int), cols as nat);
                assert((r as int) * cols + cols <= rows * cols) by (nonlinear_arith)
                    requires
                        r < rows,
                ;
            }
            while c < cols
                invariant
                    g == self@,
                    rectangular(g),
                    rows == g.len(),
                    cols == g[0].len(),
                    r < rows,
                    c <= cols,
                    base <= (r as int) * cols,
                    (r as int) * cols + cols <= usize::MAX,
                    n == base + explored_in_row(g[r as int].take(c as int)),
                decreases cols - c,
            {
                proof {
                    lemma_explored_in_row_bound(g[r as int].take(c as int));
                    assert(g[r as int].take(c + 1).drop_last() =~= g[r as int].take(c as int));
                }
                let s = self.cells[self.at(r, c)];
                if s == CellState::Free || s == CellState::Occupied {
                    n = n + 1;
                }
                c = c + 1;
            }
            proof {
                assert(g[r as int].take(cols as int) =~= g[r as int]);
                assert(g.take(r + 1).drop_last() =~= g.take(r as int));
            }
            r = r + 1;
        }
        assert(g.take(rows as int) =~= g);
        n
    }

    /// The cells of the grid inside the square of half-width `half` around
    /// `(center_row, center_col)`, in row-major order. A negative `half` gives no cells.
    pub fn window(&self, center_row: i32, center_col: i32, half: i32) -> (w: Vec<(usize, usize)>)
        requires
            half > i32::MIN,
            half < 0 || (i32::MIN <= center_row - half && center_row + half <= i32::MAX
                && i32::MIN <= center_col - half && center_col + half <= i32::MAX),
        ensures
            forall|i: int|
                0 <= i < w@.len() ==> in_window(
                    self@,
                    center_row as int,
                    center_col as int,
                    half as int,
                    (#[trigger] w@[i]).0 as int,
                    w@[i].1 as int,
                ),
            forall|i: int, j: int|
                0 <= i < j < w@.len() ==> row_major_before(#[trigger] w@[i], #[trigger] w@[j]),
            forall|i: int|
                0 <= i < w@.len() ==> {
                    &&& (#[trigger] w@[i]).0 < self@.len()
                    &&& w@[i].1 < self@[0].len()
                    &&& center_row - half <= w@[i].0 <= center_row + half
                    &&& center_col - half <= w@[i].1 <= center_col + half
                },
            forall|i: int, j: int|
                0 <= i < j < w@.len() ==> (#[trigger] w@[i]).0 < (#[trigger] w@[j]).0 || (w@[i].0 == w@[j].0
                    && w@[i].1 < w@[j].1),
            forall|r: usize, c: usize|
                r < self@.len() && c < self@[0].len() && center_row - half <= r <= center_row + half
                    && center_col - half <= c <= center_col + half ==> #[trigger] w@.contains((r, c)),
            forall|r: usize, c: usize|
                #[trigger] in_window(
                    self@,
                    center_row as int,
                    center_col as int,
                    half as int,
                    r as int,
                    c as int,
                ) ==> w@.contains((r, c)),
    {
        proof {
            use_type_invariant(self);
        }
        let ghost g = self@;
        let mut w: Vec<(usize, usize)> = Vec::new();
        if half < 0 {
            return w;
        }
        let rows = self.rows();
        let cols = self.cols();
        let r_lo_wide: i64 = center_row as i64 - half as i64;
        let r_hi_wide: i64 = center_row as i64 + half as i64 + 1;
        let c_lo_wide: i64 = center_col as i64 - half as i64;
        let c_hi_wide: i64 = center_col as i64 + half as i64 + 1;
        let r_lo: usize = if r_lo_wide < 0 { 0 } else { r_lo_wide as usize };
        let r_hi: usize = if r_hi_wide <= 0 {
            0
        } else if (r_hi_wide as usize) < rows {
            r_hi_wide as usize
        } else {
            rows
        };
        let c_lo: usize = if c_lo_wide < 0 { 0 } else { c_lo_wide as usize };
        let c_hi: usize = if c_hi_wide <= 0 {
            0
        } else if (c_hi_wide as usize) < cols {
            c_hi_wide as usize
        } else {
            cols
        };
        assert forall|r: usize, c: usize|
            in_window(g, center_row as int, center_col as int, half as int, r as int, c as int)
                <==> (r_lo <= r < r_hi && c_lo <= c < c_hi) by {}
        let mut r: usize = r_lo;
        while r < r_hi
            invariant
                g == self@,
                rectangular(g),
                r_hi <= rows == g.len(),
                c_hi <= cols == g[0].len(),
                r_lo <= r,
                r <= r_hi || r == r_lo,
                forall|x: usize, y: usize|
                    in_window(g, center_row as int, center_col as int, half as int, x as int, y as int)
                        <==> (r_lo <= x < r_hi && c_lo <= y < c_hi),
                forall|i: int|
                    0 <= i < w@.len() ==> {
                        &&& r_lo <= (#[trigger] w@[i]).0 < r
                        &&& c_lo <= w@[i].1 < c_hi
                    },
                forall|i: int, j: int|
                    0 <= i < j < w@.len() ==> row_major_before(#[trigger] w@[i], #[trigger] w@[j]),
                forall|x: usize, y: usize|
                    r_lo <= x < r && c_lo <= y < c_hi ==> #[trigger] w@.contains((x, y)),
            decreases r_hi - r,
        {
            let mut c: usize = c_lo;
            while c < c_hi
                invariant
                    r_lo <= r < r_hi,
                    c_lo <= c,
                    c <= c_hi || c == c_lo,
                    forall|i: int|
                        0 <= i < w@.len() ==> {
                            &&& r_lo <= (#[trigger] w@[i]).0 <= r
                            &&& c_lo <= w@[i].1 < c_hi
                            &&& row_major_before(w@[i], (r, c))
                        },
                    forall|i: int, j: int|
                        0 <= i < j < w@.len() ==> row_major_before(#[trigger] w@[i], #[trigger] w@[j]),
                    forall|x: usize, y: usize|
                        (r_lo <= x < r && c_lo <= y < c_hi) || (x == r && c_lo <= y < c)
                            ==> #[trigger] w@.contains((x, y)),
                decreases c_hi - c,
            {
                let ghost w0 = w@;
                w.push((r, c));
                assert forall|x: usize, y: usize|
                    (r_lo <= x < r && c_lo <= y < c_hi) || (x == r && c_lo <= y < c + 1)
                        implies #[trigger] w@.contains((x, y)) by {
                    if x == r && y == c {
                        assert(w@[w0.len() as int] == (x, y));
                    } else {
                        assert(w0.contains((x, y)));
                        let k = choose|k: int| 0 <= k < w0.len() && w0[k] == (x, y);
                        assert(w@[k] == (x, y));
                    }
                }
                c = c + 1;
            }
            r = r + 1;
        }
        w
    }

    /// Set every listed cell of the grid to `state`; listed cells outside the grid are
    /// ignored.
    pub fn fill(&mut self, cells: &Vec<(usize, usize)>, state: CellState)
        ensures
            rectangular(final(self)@),
            final(self)@ == filled(old(self)@, cells@, state),
            final(self)@.len() == old(self)@.len(),
            forall|r: int| 0 <= r < old(self)@.len() ==> #[trigger] final(self)@[r].len() == old(self)@[r].len(),
            forall|i: int|
                0 <= i < cells@.len() && cells@[i].0 < old(self)@.len() && cells@[i].1 < old(self)@[0].len()
                    ==> #[trigger] final(self)@[cells@[i].0 as int][cells@[i].1 as int] == state,
            forall|r: usize, c: usize|
                r < old(self)@.len() && c < old(self)@[0].len() && !cells@.contains((r, c))
                    ==> #[trigger] final(self)@[r as int][c as int] == old(self)@[r as int][c as int],
    {
        proof {
            use_type_invariant(&*self);
            fill_marks_exactly_listed(old(self)@, cells@, state);
        }
        let ghost g0 = self@;
        let mut i: usize = 0;
        while i < cells.len()
            invariant
                rectangular(self@),
                rectangular(g0),
                self@.len() == g0.len(),
                forall|r: int| 0 <= r < g0.len() ==> #[trigger] self@[r].len() == g0[r].len(),
                i <= cells@.len(),
                forall|r: usize, c: usize|
                    holds_cell(g0, r as int, c as int) ==> #[trigger] self@[r as int][c as int]
                        == if cells@.take(i as int).contains((r, c)) {
                        state
                    } else {
                        g0[r as int][c as int]
                    },
            decreases cells@.len() - i,
        {
            let (r0, c0) = cells[i];
            let ghost g1 = self@;
            self.set(r0, c0, state);
            assert forall|r: usize, c: usize|
                holds_cell(g0, r as int, c as int) implies #[trigger] self@[r as int][c as int]
                    == if cells@.take(i + 1).contains((r, c)) {
                    state
                } else {
                    g0[r as int][c as int]
                } by {
                assert(cells@.take(i + 1) =~= cells@.take(i as int).push((r0, c0)));
                if (r, c) == (r0, c0) {
                    assert(cells@.take(i + 1)[i as int] == (r, c));
                } else {
                    let t0 = cells@.take(i as int);
                    let t1 = cells@.take(i + 1);
                    if t1.contains((r, c)) {
                        let k = choose|k: int| 0 <= k < t1.len() && t1[k] == (r, c);
                        assert(t0[k] == (r, c));
                    }
                    if t0.contains((r, c)) {
                        let k = choose|k: int| 0 <= k < t0.len() && t0[k] == (r, c);
                        assert(t1[k] == (r, c));
                    }
                }
            }
            i = i + 1;
        }
        assert(cells@.take(cells@.len() as int) =~= cells@);
        assert forall|r: int| 0 <= r < self@.len() implies #[trigger] self@[r] =~= filled(g0, cells@, state)[r] by {
            assert forall|c: int| 0 <= c < self@[r].len() implies self@[r][c] == filled(g0, cells@, state)[r][c] by {
                let ru = r as usize;
                let cu = c as usize;
                assert(ru as int == r && cu as int == c);
                assert(holds_cell(g0, ru as int, cu as int));
                assert(self@[ru as int][cu as int] == if cells@.contains((ru, cu)) { state } else { g0[r][c] });
            }
        }
        assert(self@ =~= filled(g0, cells@, state));
    }

    /// Summary of the cells in rows `row_start..row_end` and columns `col_start..col_end`
    /// (both clipped to the grid): occupied if any is occupied, else free if any is free,
    /// else unknown.
    pub fn block_state(&self, row_start: usize, row_end: usize, col_start: usize, col_end: usize) -> (s: CellState)
        ensures
            s == block_summary(self@, row_start as int, row_end as int, col_start as int, col_end as int),
            (s == CellState::Occupied) == exists|r: int, c: int|
                #![trigger self@[r][c]]
                row_start <= r < row_end && col_start <= c < col_end && 0 <= r < self@.len() && 0 <= c
                    < self@[0].len() && self@[r][c] == CellState::Occupied,
            (s == CellState::Unknown) == !exists|r: int, c: int|
                #![trigger self@[r][c]]
                row_start <= r < row_end && col_start <= c < col_end && 0 <= r < self@.len() && 0 <= c
                    < self@[0].len() && is_explored(self@[r][c]),
    {
        proof {
            use_type_invariant(self);
        }
        let ghost g = self@;
        let rows = self.rows();
        let cols = self.cols();
        let r_end = if row_end < rows { row_end } else { rows };
        let c_end = if col_end < cols { col_end } else { cols };
        let mut cell = CellState::Unknown;
        let mut r = row_start;
        while r < r_end
            invariant
                g == self@,
                rectangular(g),
                rows == g.len(),
                cols == g[0].len(),
                r_end <= rows,
                c_end <= cols,
                r_end == if row_end < rows { row_end as int } else { rows as int },
                c_end == if col_end < cols { col_end as int } else { cols as int },
                row_start <= r,
                r <= r_end || r == row_start,
                cell == block_summary(g, row_start as int, r as int, col_start as int, c_end as int),
            decreases r_end - r,
        {
            let mut c = col_start;
            let ghost before = cell;
            while c < c_end
                invariant
                    g == self@,
                    rectangular(g),
                    rows == g.len(),
                    cols == g[0].len(),
                    row_start <= r < r_end,
                    r_end <= rows,
                    c_end <= cols,
                    col_start <= c,
                    c <= c_end || c == col_start,
                    before == block_summary(g, row_start as int, r as int, col_start as int, c_end as int),
                    cell == if before == CellState::Occupied || exists|k: int|
                        #![trigger g[r as int][k]]
                        col_start <= k < c && g[r as int][k] == CellState::Occupied {
                        CellState::Occupied
                    } else if before == CellState::Free || exists|k: int|
                        #![trigger g[r as int][k]]
                        col_start <= k < c && g[r as int][k] == CellState::Free {
                        CellState::Free
                    } else {
                        CellState::Unknown
                    },
                decreases c_end - c,
            {
                let s = self.cells[self.at(r, c)];
                if s == CellState::Occupied {
                    cell = s;
                } else if s == CellState::Free && cell == CellState::Unknown {
                    cell = s;
                }
                c = c + 1;
            }
            proof {
                lemma_block_extend_row(g, row_start as int, r as int, col_start as int, c_end as int);
            }
            r = r + 1;
        }
        assert forall|a: int, b: int|
            in_block(g, row_start as int, r as int, col_start as int, c_end as int, a, b)
                == in_block(g, row_start as int, row_end as int, col_start as int, col_end as int, a, b) by {}
        cell
    }
}

} // verus!
