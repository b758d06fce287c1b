//! Counting over the cells of a grid: how many passages join neighbouring
//! cells, and how many cells a walk has not yet reached.

use crate::direction::Direction;
use crate::grid::{lemma_blank_wf, lemma_toggled, lemma_with_mark, step, Grid};
use vstd::prelude::*;

verus! {

/// The sum of `f` over the first `n` cells of row `r`.
pub open spec fn row_sum(f: spec_fn((int, int)) -> int, r: int, n: int) -> int
    decreases n,
{
    if n <= 0 {
        0
    } else {
        row_sum(f, r, n - 1) + f((r, n - 1))
    }
}

/// The sum of `f` over the cells of the first `rows` rows, each `columns` wide.
pub open spec fn grid_sum(f: spec_fn((int, int)) -> int, rows: int, columns: int) -> int
    decreases rows,
{
    if rows <= 0 {
        0
    } else {
        grid_sum(f, rows - 1, columns) + row_sum(f, rows - 1, columns)
    }
}

impl Grid {
    /// What a cell adds to the passage count: one for each of its doors to
    /// the right and downward that leads to a neighbour. Each passage is
    /// thus counted once, at its upper or left cell.
    pub open spec fn passage_weight(self) -> spec_fn((int, int)) -> int {
        |p: (int, int)|
            (if self.passage(p, Direction::Right) {
                1int
            } else {
                0int
            }) + (if self.passage(p, Direction::Down) {
                1int
            } else {
                0int
            })
    }

    /// The number of open passages between neighbouring cells.
    pub open spec fn passage_count(self) -> int {
        grid_sum(self.passage_weight(), self.rows, self.columns)
    }

    /// Whether `p` is a cell that carries a mark other than zero.
    pub open spec fn visited(self, p: (int, int)) -> bool {
        self.contains(p) && self.mark(p) != 0
    }

    /// What a cell adds to the count of unvisited cells: one where its mark
    /// is zero.
    pub open spec fn unvisited_weight(self) -> spec_fn((int, int)) -> int {
        |p: (int, int)|
            if self.mark(p) == 0 {
                1int
            } else {
                0int
            }
    }

    /// The number of cells whose mark is zero.
    pub open spec fn unvisited_count(self) -> int {
        grid_sum(self.unvisited_weight(), self.rows, self.columns)
    }
}

proof fn lemma_row_sum_same(f: spec_fn((int, int)) -> int, g: spec_fn((int, int)) -> int, r: int, n: int)
    requires
        forall|c: int| 0 <= c < n ==> #[trigger] f((r, c)) == g((r, c)),
    ensures
        row_sum(f, r, n) == row_sum(g, r, n),
    decreases n,
{
    if n > 0 {
        lemma_row_sum_same(f, g, r, n - 1);
    }
}

proof fn lemma_row_sum_bump(
    f: spec_fn((int, int)) -> int,
    g: spec_fn((int, int)) -> int,
    r: int,
    n: int,
    at: int,
    by: int,
)
    requires
        0 <= at < n,
        forall|c: int| 0 <= c < n && c != at ==> #[trigger] f((r, c)) == g((r, c)),
        g((r, at)) == f((r, at)) + by,
    ensures
        row_sum(g, r, n) == row_sum(f, r, n) + by,
    decreases n,
{
    if at == n - 1 {
        lemma_row_sum_same(f, g, r, n - 1);
    } else {
        lemma_row_sum_bump(f, g, r, n - 1, at, by);
    }
}

proof fn lemma_row_sum_bounds(f: spec_fn((int, int)) -> int, r: int, n: int, low: int, high: int)
    requires
        0 <= n,
        forall|c: int| 0 <= c < n ==> low <= #[trigger] f((r, c)) <= high,
    ensures
        n * low <= row_sum(f, r, n) <= n * high,
    decreases n,
{
    if n > 0 {
        lemma_row_sum_bounds(f, r, n - 1, low, high);
        assert(n * low == (n - 1) * low + low) by (nonlinear_arith);
        assert(n * high == (n - 1) * high + high) by (nonlinear_arith);
    } else {
        assert(n * low == 0 && n * high == 0) by (nonlinear_arith)
            requires
                n == 0,
        ;
    }
}

/// Two weights that agree on every cell have the same sum.
pub proof fn lemma_sum_same(
    f: spec_fn((int, int)) -> int,
    g: spec_fn((int, int)) -> int,
    rows: int,
    columns: int,
)
    requires
        forall|p: (int, int)| 0 <= p.0 < rows && 0 <= p.1 < columns ==> #[trigger] f(p) == g(p),
    ensures
        grid_sum(f, rows, columns) == grid_sum(g, rows, columns),
    decreases rows,
{
    if rows > 0 {
        lemma_sum_same(f, g, rows - 1, columns);
        lemma_row_sum_same(f, g, rows - 1, columns);
    }
}

/// Two weights that agree on every cell but one differ in their sums by what
/// they differ on that cell.
pub proof fn lemma_sum_bump(
    f: spec_fn((int, int)) -> int,
    g: spec_fn((int, int)) -> int,
    rows: int,
    columns: int,
    at: (int, int),
    by: int,
)
    requires
        0 <= at.0 < rows,
        0 <= at.1 < columns,
        forall|p: (int, int)|
            0 <= p.0 < rows && 0 <= p.1 < columns && p != at ==> #[trigger] f(p) == g(p),
        g(at) == f(at) + by,
    ensures
        grid_sum(g, rows, columns) == grid_sum(f, rows, columns) + by,
    decreases rows,
{
    if at.0 == rows - 1 {
        lemma_sum_same(f, g, rows - 1, columns);
        lemma_row_sum_bump(f, g, rows - 1, columns, at.1, by);
    } else {
        lemma_sum_bump(f, g, rows - 1, columns, at, by);
        lemma_row_sum_same(f, g, rows - 1, columns);
    }
}

/// A sum of weights that all lie between two bounds lies between the bounds
/// times the number of cells.
pub proof fn lemma_sum_bounds(
    f: spec_fn((int, int)) -> int,
    rows: int,
    columns: int,
    low: int,
    high: int,
)
    requires
        0 <= rows,
        0 <= columns,
        forall|p: (int, int)|
            0 <= p.0 < rows && 0 <= p.1 < columns ==> low <= #[trigger] f(p) <= high,
    ensures
        rows * columns * low <= grid_sum(f, rows, columns) <= rows * columns * high,
    decreases rows,
{
    if rows > 0 {
        lemma_sum_bounds(f, rows - 1, columns, low, high);
        lemma_row_sum_bounds(f, rows - 1, columns, low, high);
        assert(rows * columns * low == (rows - 1) * columns * low + columns * low)
            by (nonlinear_arith);
        assert(rows * columns * high == (rows - 1) * columns * high + columns * high)
            by (nonlinear_arith);
    } else {
        assert(rows * columns * low == 0 && rows * columns * high == 0) by (nonlinear_arith)
            requires
                rows == 0,
        ;
    }
}

/// A blank grid has no passage, and none of its cells is visited.
pub proof fn lemma_blank_counts(rows: int, columns: int)
    requires
        1 <= rows <= i32::MAX,
        1 <= columns <= i32::MAX,
    ensures
        Grid::blank(rows, columns).passage_count() == 0,
        Grid::blank(rows, columns).unvisited_count() == rows * columns,
{
    let g = Grid::blank(rows, columns);
    lemma_blank_wf(rows, columns);
    assert forall|p: (int, int)| 0 <= p.0 < rows && 0 <= p.1 < columns implies 0
        <= #[trigger] g.passage_weight()(p) <= 0 by {
        assert(!g.door(p, Direction::Right));
        assert(!g.door(p, Direction::Down));
    }
    lemma_sum_bounds(g.passage_weight(), rows, columns, 0, 0);
    assert forall|p: (int, int)| 0 <= p.0 < rows && 0 <= p.1 < columns implies 1
        <= #[trigger] g.unvisited_weight()(p) <= 1 by {
        assert(g.mark(p) == 0);
    }
    lemma_sum_bounds(g.unvisited_weight(), rows, columns, 1, 1);
    assert(rows * columns * 0 == 0) by (nonlinear_arith);
    assert(rows * columns * 1 == rows * columns) by (nonlinear_arith);
}

/// The count of unvisited cells is never negative, and it is zero exactly
/// where every cell is visited.
pub proof fn lemma_unvisited_count(g: Grid)
    requires
        g.shaped(),
    ensures
        0 <= g.unvisited_count(),
        (forall|p: (int, int)| g.contains(p) ==> g.visited(p)) ==> g.unvisited_count() == 0,
{
    assert forall|p: (int, int)| 0 <= p.0 < g.rows && 0 <= p.1 < g.columns implies 0
        <= #[trigger] g.unvisited_weight()(p) <= 1 by {}
    lemma_sum_bounds(g.unvisited_weight(), g.rows, g.columns, 0, 1);
    assert(g.rows * g.columns * 0 == 0) by (nonlinear_arith);
    if forall|p: (int, int)| g.contains(p) ==> g.visited(p) {
        assert forall|p: (int, int)| 0 <= p.0 < g.rows && 0 <= p.1 < g.columns implies 0
            <= #[trigger] g.unvisited_weight()(p) <= 0 by {
            assert(g.contains(p));
            assert(g.visited(p));
        }
        lemma_sum_bounds(g.unvisited_weight(), g.rows, g.columns, 0, 0);
    }
}

/// Marking an unvisited cell makes one unvisited cell fewer and leaves the
/// passages as they were.
pub proof fn lemma_counts_after_mark(g: Grid, p: (int, int), value: i32)
    requires
        g.wf(),
        g.contains(p),
        g.mark(p) == 0,
        value != 0,
    ensures
        g.with_mark(p, value).unvisited_count() == g.unvisited_count() - 1,
        g.with_mark(p, value).passage_count() == g.passage_count(),
{
    let h = g.with_mark(p, value);
    lemma_with_mark(g, p, value);
    assert forall|q: (int, int)| 0 <= q.0 < g.rows && 0 <= q.1 < g.columns implies #[trigger]
        g.passage_weight()(q) == h.passage_weight()(q) by {
        assert(h.door(q, Direction::Right) == g.door(q, Direction::Right));
        assert(h.door(q, Direction::Down) == g.door(q, Direction::Down));
    }
    lemma_sum_same(g.passage_weight(), h.passage_weight(), g.rows, g.columns);
    assert forall|q: (int, int)|
        0 <= q.0 < g.rows && 0 <= q.1 < g.columns && q != p implies #[trigger] g.unvisited_weight()(
        q,
    ) == h.unvisited_weight()(q) by {
        assert(h.mark(q) == g.mark(q));
    }
    assert(h.mark(p) == value);
    lemma_sum_bump(g.unvisited_weight(), h.unvisited_weight(), g.rows, g.columns, p, -1);
}

/// Opening a closed door between two neighbouring cells makes one passage
/// more; opening or closing a door on the rim changes no passage. Neither
/// changes which cells are visited.
pub proof fn lemma_counts_after_toggle(g: Grid, p: (int, int), d: Direction, open: bool)
    requires
        g.wf(),
        g.contains(p),
    ensures
        g.toggled(p, d, open).unvisited_count() == g.unvisited_count(),
        !g.contains(step(p, d)) ==> g.toggled(p, d, open).passage_count() == g.passage_count(),
        open && g.contains(step(p, d)) && d != Direction::Nowhere && !g.door(p, d) ==> g.toggled(
            p,
            d,
            open,
        ).passage_count() == g.passage_count() + 1,
{
    let h = g.toggled(p, d, open);
    let n = step(p, d);
    lemma_toggled(g, p, d, open);
    assert forall|q: (int, int)| 0 <= q.0 < g.rows && 0 <= q.1 < g.columns implies #[trigger]
        g.unvisited_weight()(q) == h.unvisited_weight()(q) by {
        assert(h.mark(q) == g.mark(q));
    }
    lemma_sum_same(g.unvisited_weight(), h.unvisited_weight(), g.rows, g.columns);
    if !g.contains(n) {
        assert forall|q: (int, int)| 0 <= q.0 < g.rows && 0 <= q.1 < g.columns implies #[trigger]
            g.passage_weight()(q) == h.passage_weight()(q) by {
            assert(h.passage(q, Direction::Right) == g.passage(q, Direction::Right));
            assert(h.passage(q, Direction::Down) == g.passage(q, Direction::Down));
        }
        lemma_sum_same(g.passage_weight(), h.passage_weight(), g.rows, g.columns);
    } else if open && d != Direction::Nowhere && !g.door(p, d) {
        // The passage is counted at whichever of the two cells lies above or
        // to the left of the other.
        let at = if d == Direction::Right || d == Direction::Down {
            p
        } else {
            n
        };
        assert(g.door(p, Direction::Right) == g.door(
            step(p, Direction::Right),
            Direction::Left,
        ) || !g.contains(step(p, Direction::Right)));
        assert(g.door(n, Direction::Right) == g.door(
            step(n, Direction::Right),
            Direction::Left,
        ) || !g.contains(step(n, Direction::Right)));
        assert(g.door(p, Direction::Down) == g.door(step(p, Direction::Down), Direction::Up)
            || !g.contains(step(p, Direction::Down)));
        assert(g.door(n, Direction::Down) == g.door(step(n, Direction::Down), Direction::Up)
            || !g.contains(step(n, Direction::Down)));
        assert forall|q: (int, int)|
            0 <= q.0 < g.rows && 0 <= q.1 < g.columns && q != at implies #[trigger]
            g.passage_weight()(q) == h.passage_weight()(q) by {
            assert(h.passage(q, Direction::Right) == g.passage(q, Direction::Right));
            assert(h.passage(q, Direction::Down) == g.passage(q, Direction::Down));
        }
        assert(h.passage_weight()(at) == g.passage_weight()(at) + 1) by {
            assert(h.door(at, Direction::Right) == (g.door(at, Direction::Right) || (at == p && d
                == Direction::Right) || (at == n && d == Direction::Left)));
            assert(h.door(at, Direction::Down) == (g.door(at, Direction::Down) || (at == p && d
                == Direction::Down) || (at == n && d == Direction::Up)));
        }
        lemma_sum_bump(g.passage_weight(), h.passage_weight(), g.rows, g.columns, at, 1);
    }
}

} // verus!
