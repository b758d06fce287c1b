//! The mathematical model of a maze: a rectangle of cells addressed by
//! `(row, column)`, each with its door bits and its mark.

use crate::direction::{lemma_door_bits, lemma_opposite_undoes, Direction};
use crate::maze::CellData;
use vstd::prelude::*;

verus! {

/// The coordinate one step from `p` in direction `d`. It may lie off the grid.
pub open spec fn step(p: (int, int), d: Direction) -> (int, int) {
    (p.0 + d.delta().0, p.1 + d.delta().1)
}

/// What a maze is to the contracts: its dimensions and its cells in row-major
/// order.
pub struct Grid {
    pub rows: int,
    pub columns: int,
    pub cells: Seq<CellData>,
}

impl Grid {
    /// The grid of the given size with every door closed and every mark cleared.
    pub open spec fn blank(rows: int, columns: int) -> Grid {
        Grid {
            rows,
            columns,
            cells: Seq::new((rows * columns) as nat, |i: int| CellData { door_mask: 0, mark: 0 }),
        }
    }

    /// The grid after a reset: every door closed, every mark cleared.
    pub open spec fn reset(self) -> Grid {
        Grid::blank(self.rows, self.columns)
    }

    /// Whether `p` names a cell of the grid.
    pub open spec fn contains(self, p: (int, int)) -> bool {
        0 <= p.0 < self.rows && 0 <= p.1 < self.columns
    }

    /// The place of cell `p` in the row-major cell sequence.
    pub open spec fn index(self, p: (int, int)) -> int {
        p.0 * self.columns + p.1
    }

    /// The state of cell `p`.
    pub open spec fn cell(self, p: (int, int)) -> CellData {
        self.cells[self.index(p)]
    }

    /// Whether cell `p` exists and has its door toward `d` open.
    pub open spec fn door(self, p: (int, int), d: Direction) -> bool {
        self.contains(p) && self.cell(p).door_mask & d.mask() != 0
    }

    /// The mark on cell `p`, or `-1` where there is no such cell.
    pub open spec fn mark(self, p: (int, int)) -> int {
        if self.contains(p) {
            self.cell(p).mark as int
        } else {
            -1
        }
    }

    /// An open door that leads to another cell of the grid.
    pub open spec fn passage(self, p: (int, int), d: Direction) -> bool {
        self.door(p, d) && self.contains(step(p, d))
    }

    /// An open door on the rim that leads off the grid.
    pub open spec fn opening(self, p: (int, int), d: Direction) -> bool {
        self.door(p, d) && !self.contains(step(p, d))
    }

    /// The dimensions are positive, fit a signed 32-bit coordinate, and the
    /// cell sequence has one entry per cell.
    pub open spec fn shaped(self) -> bool {
        &&& 1 <= self.rows <= i32::MAX
        &&& 1 <= self.columns <= i32::MAX
        &&& self.cells.len() == self.rows * self.columns
    }

    /// Between two neighbouring cells a door is open on both sides or on
    /// neither.
    pub open spec fn paired(self) -> bool {
        &&& forall|p: (int, int)|
            #![trigger self.door(p, Direction::Right)]
            self.contains(p) && self.contains(step(p, Direction::Right)) ==> (self.door(
                p,
                Direction::Right,
            ) == self.door(step(p, Direction::Right), Direction::Left))
        &&& forall|p: (int, int)|
            #![trigger self.door(p, Direction::Down)]
            self.contains(p) && self.contains(step(p, Direction::Down)) ==> (self.door(
                p,
                Direction::Down,
            ) == self.door(step(p, Direction::Down), Direction::Up))
    }

    /// The invariant of every maze: its shape, four door bits per cell, and
    /// doors that agree across each wall.
    pub open spec fn wf(self) -> bool {
        &&& self.shaped()
        &&& forall|i: int| 0 <= i < self.cells.len() ==> (#[trigger] self.cells[i]).door_mask < 16
        &&& self.paired()
    }

    /// The grid with cell `p` replaced.
    pub open spec fn with_cell(self, p: (int, int), data: CellData) -> Grid {
        Grid { rows: self.rows, columns: self.columns, cells: self.cells.update(self.index(p), data) }
    }

    /// The grid with the door bit of `d` set or cleared on cell `p` alone;
    /// unchanged where `p` is off the grid.
    pub open spec fn with_door(self, p: (int, int), d: Direction, open: bool) -> Grid {
        if self.contains(p) {
            let old_cell = self.cell(p);
            let door_mask = if open {
                old_cell.door_mask | d.mask()
            } else {
                old_cell.door_mask & !d.mask()
            };
            self.with_cell(p, CellData { door_mask, mark: old_cell.mark })
        } else {
            self
        }
    }

    /// The grid after opening or closing the door of cell `p` toward `d`: the
    /// bit changes on `p` and, where the neighbour exists, the opposite bit
    /// changes on the neighbour. Unchanged where `p` is off the grid.
    pub open spec fn toggled(self, p: (int, int), d: Direction, open: bool) -> Grid {
        if self.contains(p) {
            self.with_door(p, d, open).with_door(step(p, d), d.opposite(), open)
        } else {
            self
        }
    }

    /// No door is open and no cell is marked.
    pub open spec fn pristine(self) -> bool {
        &&& forall|p: (int, int), d: Direction| !#[trigger] self.door(p, d)
        &&& forall|p: (int, int)| self.contains(p) ==> #[trigger] self.mark(p) == 0
    }

    /// Door by door, what sets `after` apart from this grid when the door of
    /// cell `p` toward `d` has been opened or closed: that door, and the
    /// facing door of the neighbour where there is one, are as `open` says;
    /// every other door and every mark is as it was. Nothing differs where
    /// `p` is off the grid or `d` is no move.
    pub open spec fn door_set(self, after: Grid, p: (int, int), d: Direction, open: bool) -> bool {
        &&& after.rows == self.rows
        &&& after.columns == self.columns
        &&& forall|q: (int, int)| #[trigger] after.mark(q) == self.mark(q)
        &&& forall|q: (int, int), e: Direction| #[trigger]
            after.door(q, e) == (if self.contains(p) && d != Direction::Nowhere && ((q == p && e
                == d) || (q == step(p, d) && e == d.opposite() && self.contains(q))) {
                open
            } else {
                self.door(q, e)
            })
    }

    /// Cell by cell, what sets `after` apart from this grid when the mark of
    /// cell `p` has been set to `value`: that mark, where `p` is a cell of the
    /// grid, and nothing else.
    pub open spec fn mark_set(self, after: Grid, p: (int, int), value: i32) -> bool {
        &&& after.rows == self.rows
        &&& after.columns == self.columns
        &&& forall|q: (int, int), e: Direction| #[trigger] after.door(q, e) == self.door(q, e)
        &&& forall|q: (int, int)| #[trigger]
            after.mark(q) == (if q == p && self.contains(p) {
                value as int
            } else {
                self.mark(q)
            })
    }

    /// The grid with the mark of cell `p` set; unchanged where `p` is off the
    /// grid.
    pub open spec fn with_mark(self, p: (int, int), value: i32) -> Grid {
        if self.contains(p) {
            self.with_cell(p, CellData { door_mask: self.cell(p).door_mask, mark: value })
        } else {
            self
        }
    }
}

/// A cell of the grid has a place in the cell sequence.
pub proof fn lemma_index_bounds(g: Grid, p: (int, int))
    requires
        g.shaped(),
        g.contains(p),
    ensures
        0 <= g.index(p) < g.cells.len(),
{
    assert(0 <= p.0 * g.columns) by (nonlinear_arith)
        requires
            0 <= p.0,
            0 <= g.columns,
    ;
    assert(p.0 * g.columns + g.columns <= g.rows * g.columns) by (nonlinear_arith)
        requires
            p.0 + 1 <= g.rows,
            0 <= g.columns,
    ;
}

/// Two different cells have different places in the cell sequence.
pub proof fn lemma_index_injective(g: Grid, p: (int, int), q: (int, int))
    requires
        g.shaped(),
        g.contains(p),
        g.contains(q),
        g.index(p) == g.index(q),
    ensures
        p == q,
{
    if p.0 < q.0 {
        assert(p.0 * g.columns + g.columns <= q.0 * g.columns) by (nonlinear_arith)
            requires
                p.0 + 1 <= q.0,
                0 <= g.columns,
        ;
    } else if q.0 < p.0 {
        assert(q.0 * g.columns + g.columns <= p.0 * g.columns) by (nonlinear_arith)
            requires
                q.0 + 1 <= p.0,
                0 <= g.columns,
        ;
    }
}

/// Every place in the cell sequence belongs to a cell of the grid.
pub proof fn lemma_cell_of_index(g: Grid, i: int) -> (p: (int, int))
    requires
        g.shaped(),
        0 <= i < g.cells.len(),
    ensures
        g.contains(p),
        g.index(p) == i,
{
    let p = (i / g.columns, i % g.columns);
    vstd::arithmetic::div_mod::lemma_fundamental_div_mod(i, g.columns);
    vstd::arithmetic::div_mod::lemma_mod_bound(i, g.columns);
    vstd::arithmetic::div_mod::lemma_div_pos_is_pos(i, g.columns);
    assert(g.columns * (i / g.columns) == (i / g.columns) * g.columns) by (nonlinear_arith);
    if i / g.columns >= g.rows {
        assert((i / g.columns) * g.columns >= g.rows * g.columns) by (nonlinear_arith)
            requires
                i / g.columns >= g.rows,
                0 <= g.columns,
        ;
    }
    p
}

/// Replacing one cell changes that cell and no other.
pub proof fn lemma_with_cell(g: Grid, p: (int, int), data: CellData)
    requires
        g.shaped(),
        g.contains(p),
    ensures
        g.with_cell(p, data).shaped(),
        g.with_cell(p, data).rows == g.rows,
        g.with_cell(p, data).columns == g.columns,
        g.with_cell(p, data).cell(p) == data,
        forall|q: (int, int)|
            g.contains(q) && q != p ==> #[trigger] g.with_cell(p, data).cell(q) == g.cell(q),
{
    lemma_index_bounds(g, p);
    assert forall|q: (int, int)| g.contains(q) && q != p implies #[trigger] g.with_cell(
        p,
        data,
    ).cell(q) == g.cell(q) by {
        lemma_index_bounds(g, q);
        if g.index(p) == g.index(q) {
            lemma_index_injective(g, p, q);
        }
    }
}

proof fn lemma_bit_set(m: u32, k: u32, e: u32)
    by (bit_vector)
    ensures
        (m | k) & k == k,
        k & e == 0 ==> (m | k) & e == m & e,
        m < 16 && k < 16 ==> (m | k) < 16,
{
}

proof fn lemma_bit_clear(m: u32, k: u32, e: u32)
    by (bit_vector)
    ensures
        (m & !k) & k == 0,
        k & e == 0 ==> (m & !k) & e == m & e,
        (m & !k) <= m,
{
}

proof fn lemma_bit_none(m: u32)
    by (bit_vector)
    ensures
        m & 0 == 0,
        0 & m == 0,
{
}

/// A blank grid of valid size is a maze with no door open and no cell marked.
pub proof fn lemma_blank_wf(rows: int, columns: int)
    requires
        1 <= rows <= i32::MAX,
        1 <= columns <= i32::MAX,
    ensures
        Grid::blank(rows, columns).wf(),
        Grid::blank(rows, columns).pristine(),
{
    let g = Grid::blank(rows, columns);
    assert(rows * columns >= 1) by (nonlinear_arith)
        requires
            rows >= 1,
            columns >= 1,
    ;
    assert(g.shaped());
    assert forall|p: (int, int), d: Direction| !#[trigger] g.door(p, d) by {
        if g.contains(p) {
            lemma_index_bounds(g, p);
            lemma_bit_none(d.mask());
        }
    }
    assert forall|p: (int, int)| g.contains(p) implies #[trigger] g.mark(p) == 0 by {
        lemma_index_bounds(g, p);
    }
}

/// A reset gives the grid that a fresh maze of the same size has, and a
/// second reset changes nothing more.
pub proof fn lemma_reset_idempotent(g: Grid)
    ensures
        g.reset() == Grid::blank(g.rows, g.columns),
        g.reset().reset() == g.reset(),
        g.shaped() ==> g.reset().wf(),
{
    if g.shaped() {
        lemma_blank_wf(g.rows, g.columns);
    }
}

/// What changing one side of a door does: the shape and every mark stay, only
/// cell `p` changes, and of all doors only the one named changes.
pub proof fn lemma_with_door(g: Grid, p: (int, int), d: Direction, open: bool)
    requires
        g.shaped(),
    ensures
        g.with_door(p, d, open).shaped(),
        g.with_door(p, d, open).rows == g.rows,
        g.with_door(p, d, open).columns == g.columns,
        forall|q: (int, int)|
            g.contains(q) ==> (#[trigger] g.with_door(p, d, open).cell(q)).mark == g.cell(q).mark,
        forall|q: (int, int)|
            g.contains(q) && q != p ==> #[trigger] g.with_door(p, d, open).cell(q) == g.cell(q),
        forall|q: (int, int), e: Direction| #[trigger]
            g.with_door(p, d, open).door(q, e) == (if q == p && e == d && d != Direction::Nowhere
                && g.contains(p) {
                open
            } else {
                g.door(q, e)
            }),
        forall|i: int|
            0 <= i < g.cells.len() && g.cells[i].door_mask < 16 ==> (#[trigger] g.with_door(
                p,
                d,
                open,
            ).cells[i]).door_mask < 16,
        !open ==> forall|i: int|
            0 <= i < g.cells.len() ==> (#[trigger] g.with_door(p, d, open).cells[i]).door_mask
                <= g.cells[i].door_mask,
{
    let h = g.with_door(p, d, open);
    if g.contains(p) {
        let m = g.cell(p).door_mask;
        let k = d.mask();
        let data = h.cell(p);
        lemma_index_bounds(g, p);
        lemma_with_cell(g, p, CellData { door_mask: if open { m | k } else { m & !k }, mark: g.cell(p).mark });
        lemma_door_bits(d, d);
        lemma_bit_set(m, k, k);
        lemma_bit_clear(m, k, k);
        assert forall|q: (int, int), e: Direction| #[trigger]
            h.door(q, e) == (if q == p && e == d && d != Direction::Nowhere && g.contains(p) {
                open
            } else {
                g.door(q, e)
            }) by {
            if q == p {
                lemma_door_bits(d, e);
                lemma_bit_set(m, k, e.mask());
                lemma_bit_clear(m, k, e.mask());
                lemma_bit_none(m);
                lemma_bit_none(data.door_mask);
            }
        }
    }
}

/// What opening or closing a door of a cell of the grid does: the shape and
/// every mark stay; the door named changes, and with it the facing door of
/// the neighbour, where there is one; no other door changes.
pub proof fn lemma_toggled(g: Grid, p: (int, int), d: Direction, open: bool)
    requires
        g.shaped(),
        g.contains(p),
    ensures
        g.toggled(p, d, open).shaped(),
        g.toggled(p, d, open).rows == g.rows,
        g.toggled(p, d, open).columns == g.columns,
        forall|q: (int, int)| #[trigger] g.toggled(p, d, open).mark(q) == g.mark(q),
        forall|q: (int, int)|
            g.contains(q) && q != p && q != step(p, d) ==> #[trigger] g.toggled(p, d, open).cell(q)
                == g.cell(q),
        forall|q: (int, int), e: Direction| #[trigger]
            g.toggled(p, d, open).door(q, e) == (if d != Direction::Nowhere && ((q == p && e == d)
                || (q == step(p, d) && e == d.opposite() && g.contains(q))) {
                open
            } else {
                g.door(q, e)
            }),
        g.door_set(g.toggled(p, d, open), p, d, open),
{
    let h1 = g.with_door(p, d, open);
    let n = step(p, d);
    let h2 = h1.with_door(n, d.opposite(), open);
    lemma_with_door(g, p, d, open);
    lemma_with_door(h1, n, d.opposite(), open);
    lemma_opposite_undoes(d);
    assert forall|q: (int, int)| #[trigger] h2.mark(q) == g.mark(q) by {
        if g.contains(q) {
            assert(h2.cell(q).mark == h1.cell(q).mark);
            assert(h1.cell(q).mark == g.cell(q).mark);
        }
    }
    assert forall|q: (int, int)| g.contains(q) && q != p && q != n implies #[trigger] h2.cell(q)
        == g.cell(q) by {
        assert(h2.cell(q) == h1.cell(q));
        assert(h1.cell(q) == g.cell(q));
    }
    assert forall|q: (int, int), e: Direction| #[trigger]
        h2.door(q, e) == (if d != Direction::Nowhere && ((q == p && e == d) || (q == n && e
            == d.opposite() && g.contains(q))) {
            open
        } else {
            g.door(q, e)
        }) by {
        assert(h2.door(q, e) == (if q == n && e == d.opposite() && d.opposite()
            != Direction::Nowhere && h1.contains(n) {
            open
        } else {
            h1.door(q, e)
        }));
        assert(h1.door(q, e) == (if q == p && e == d && d != Direction::Nowhere && g.contains(p) {
            open
        } else {
            g.door(q, e)
        }));
    }
}

/// Opening or closing a door keeps a maze a maze.
pub proof fn lemma_toggled_wf(g: Grid, p: (int, int), d: Direction, open: bool)
    requires
        g.wf(),
    ensures
        g.toggled(p, d, open).wf(),
        !open ==> forall|i: int|
            0 <= i < g.cells.len() ==> (#[trigger] g.toggled(p, d, open).cells[i]).door_mask
                <= g.cells[i].door_mask,
{
    if g.contains(p) {
        let h1 = g.with_door(p, d, open);
        let n = step(p, d);
        let h = g.toggled(p, d, open);
        lemma_with_door(g, p, d, open);
        lemma_with_door(h1, n, d.opposite(), open);
        lemma_toggled(g, p, d, open);
        lemma_opposite_undoes(d);
        assert forall|i: int| 0 <= i < h.cells.len() implies (#[trigger] h.cells[i]).door_mask
            < 16 by {
            assert(g.cells[i].door_mask < 16);
            assert(h1.cells[i].door_mask < 16);
        }
        if !open {
            assert forall|i: int| 0 <= i < g.cells.len() implies (#[trigger] h.cells[i]).door_mask
                <= g.cells[i].door_mask by {
                assert(h1.cells[i].door_mask <= g.cells[i].door_mask);
            }
        }
        assert forall|q: (int, int)|
            #![trigger h.door(q, Direction::Right)]
            h.contains(q) && h.contains(step(q, Direction::Right)) implies (h.door(
            q,
            Direction::Right,
        ) == h.door(step(q, Direction::Right), Direction::Left)) by {
            assert(g.door(q, Direction::Right) == g.door(
                step(q, Direction::Right),
                Direction::Left,
            ));
        }
        assert forall|q: (int, int)|
            #![trigger h.door(q, Direction::Down)]
            h.contains(q) && h.contains(step(q, Direction::Down)) implies (h.door(
            q,
            Direction::Down,
        ) == h.door(step(q, Direction::Down), Direction::Up)) by {
            assert(g.door(q, Direction::Down) == g.door(step(q, Direction::Down), Direction::Up));
        }
    }
}

/// What setting a mark does: the cell's mark changes, and nothing else does.
pub proof fn lemma_with_mark(g: Grid, p: (int, int), value: i32)
    requires
        g.wf(),
    ensures
        g.with_mark(p, value).wf(),
        g.with_mark(p, value).rows == g.rows,
        g.with_mark(p, value).columns == g.columns,
        forall|q: (int, int)| #[trigger]
            g.with_mark(p, value).mark(q) == (if q == p && g.contains(p) {
                value as int
            } else {
                g.mark(q)
            }),
        forall|q: (int, int), e: Direction| #[trigger]
            g.with_mark(p, value).door(q, e) == g.door(q, e),
        forall|q: (int, int)|
            g.contains(q) && q != p ==> #[trigger] g.with_mark(p, value).cell(q) == g.cell(q),
        g.mark_set(g.with_mark(p, value), p, value),
{
    if g.contains(p) {
        let h = g.with_mark(p, value);
        lemma_index_bounds(g, p);
        lemma_with_cell(g, p, CellData { door_mask: g.cell(p).door_mask, mark: value });
        assert forall|i: int| 0 <= i < h.cells.len() implies (#[trigger] h.cells[i]).door_mask
            < 16 by {
            assert(g.cells[i].door_mask < 16);
        }
        assert forall|q: (int, int), e: Direction| #[trigger] h.door(q, e) == g.door(q, e) by {
            if g.contains(q) {
                assert(h.cell(q).door_mask == g.cell(q).door_mask);
            }
        }
        assert forall|q: (int, int)|
            #![trigger h.door(q, Direction::Right)]
            h.contains(q) && h.contains(step(q, Direction::Right)) implies (h.door(
            q,
            Direction::Right,
        ) == h.door(step(q, Direction::Right), Direction::Left)) by {
            assert(g.door(q, Direction::Right) == g.door(
                step(q, Direction::Right),
                Direction::Left,
            ));
        }
        assert forall|q: (int, int)|
            #![trigger h.door(q, Direction::Down)]
            h.contains(q) && h.contains(step(q, Direction::Down)) implies (h.door(
            q,
            Direction::Down,
        ) == h.door(step(q, Direction::Down), Direction::Up)) by {
            assert(g.door(q, Direction::Down) == g.door(step(q, Direction::Down), Direction::Up));
        }
    }
}

/// In a maze, the door from a cell toward a neighbour is open exactly when
/// the neighbour's door toward the cell is.
pub proof fn lemma_doors_agree(g: Grid, p: (int, int), d: Direction)
    requires
        g.wf(),
        g.contains(p),
        g.contains(step(p, d)),
    ensures
        g.door(p, d) == g.door(step(p, d), d.opposite()),
{
    let n = step(p, d);
    match d {
        Direction::Nowhere => {},
        Direction::Right => {
            assert(g.door(p, Direction::Right) == g.door(n, Direction::Left));
        },
        Direction::Down => {
            assert(g.door(p, Direction::Down) == g.door(n, Direction::Up));
        },
        Direction::Left => {
            assert(step(n, Direction::Right) == p);
            assert(g.door(n, Direction::Right) == g.door(p, Direction::Left));
        },
        Direction::Up => {
            assert(step(n, Direction::Down) == p);
            assert(g.door(n, Direction::Down) == g.door(p, Direction::Up));
        },
    }
}

} // verus!
