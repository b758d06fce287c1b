//! The maze itself: a rectangle of cells, each with four doors and a scratch
//! mark, and the coordinates that address them.

use crate::direction::Direction;
use crate::grid::{
    lemma_blank_wf, lemma_index_bounds, lemma_toggled, lemma_toggled_wf, lemma_with_door,
    lemma_with_mark, step, Grid,
};
use vstd::prelude::*;

verus! {

/// The coordinate of a position, inside the maze or not. In contracts a
/// position stands for the pair `(row, col)`.
#[derive(Debug, Clone, Copy, PartialEq, Eq, Structural)]
pub struct CellPos {
    pub row: i32,
    pub col: i32,
}

impl View for CellPos {
    type V = (int, int);

    open spec fn view(&self) -> (int, int) {
        (self.row as int, self.col as int)
    }
}

/// The state of one cell: its open doors, one bit each, and its mark.
#[derive(Clone, Copy, Debug, PartialEq, Eq, Structural)]
pub struct CellData {
    pub door_mask: u32,
    pub mark: i32,
}

impl CellData {
    /// A cell with every door closed and no mark.
    pub fn new() -> (cell: Self)
        ensures
            cell == (CellData { door_mask: 0, mark: 0 }),
    {
        CellData { door_mask: 0, mark: 0 }
    }
}

/// Why a maze could not be built.
#[derive(Debug, Clone, Copy, PartialEq, Eq, Structural)]
pub enum MazeError {
    /// A maze needs at least one row and one column.
    InvalidDimensions,
}

/// A rectangular maze. Its cells lie in row-major order; [`Maze::wf`] says
/// what every operation expects of it and keeps. In contracts a maze stands
/// for its [`Grid`].
#[derive(Debug)]
pub struct Maze {
    pub rows: usize,
    pub columns: usize,
    pub cells: Vec<CellData>,
}

impl CellPos {
    /// The place of this cell in the maze's row-major cell sequence.
    pub fn to_index(&self, maze: &Maze) -> (index: usize)
        requires
            maze@.shaped(),
            maze@.contains(self@),
        ensures
            index == maze@.index(self@),
            index < maze@.cells.len(),
    {
        let count = maze.cells.len();
        proof {
            lemma_index_bounds(maze@, self@);
            assert(0 <= self.row * maze.columns) by (nonlinear_arith)
                requires
                    0 <= self.row,
                    0 <= maze.columns,
            ;
            assert(maze@.index(self@) < count);
        }
        (self.row as usize) * maze.columns + (self.col as usize)
    }

    /// Whether this position is a cell of the maze.
    pub fn is_in_maze(&self, maze: &Maze) -> (inside: bool)
        ensures
            inside == maze@.contains(self@),
    {
        let row_in_range = self.row >= 0 && (self.row as usize) < maze.rows;
        let col_in_range = self.col >= 0 && (self.col as usize) < maze.columns;
        row_in_range && col_in_range
    }

    /// The position one step away. It may lie outside the maze: test it
    /// before use.
    pub fn go(&self, direction: &Direction) -> (next: Self)
        requires
            i32::MIN <= step(self@, *direction).0 <= i32::MAX,
            i32::MIN <= step(self@, *direction).1 <= i32::MAX,
        ensures
            next@ == step(self@, *direction),
    {
        let (delta_row, delta_col) = direction.to_delta();
        Self { row: self.row + delta_row, col: self.col + delta_col }
    }

    /// Whether this cell is in the last column and open to the right.
    pub fn is_exit(&self, maze: &Maze) -> (exit: bool)
        requires
            maze.wf(),
        ensures
            exit == (self.col == maze.columns - 1 && maze@.door(self@, Direction::Right)),
    {
        self.col == (maze.columns - 1) as i32 && maze.can_go(*self, Direction::Right)
    }

    /// Opens the door of this cell toward `direction`: see
    /// [`Maze::open_door`].
    pub fn open_door(&self, maze: &mut Maze, direction: &Direction)
        requires
            old(maze).wf(),
        ensures
            final(maze).wf(),
            final(maze)@ == old(maze)@.toggled(self@, *direction, true),
            old(maze)@.door_set(final(maze)@, self@, *direction, true),
    {
        maze.open_door(*self, direction);
    }

    /// Closes the door of this cell toward `direction`: see
    /// [`Maze::close_door`].
    pub fn close_door(&self, maze: &mut Maze, direction: &Direction)
        requires
            old(maze).wf(),
        ensures
            final(maze).wf(),
            final(maze)@ == old(maze)@.toggled(self@, *direction, false),
            old(maze)@.door_set(final(maze)@, self@, *direction, false),
    {
        maze.close_door(*self, direction);
    }

    /// Sets the mark of this cell: see [`Maze::set_mark`].
    pub fn set_mark(&self, maze: &mut Maze, mark: i32)
        requires
            old(maze).wf(),
        ensures
            final(maze).wf(),
            final(maze)@ == old(maze)@.with_mark(self@, mark),
            old(maze)@.mark_set(final(maze)@, self@, mark),
    {
        maze.set_mark(*self, mark);
    }

    /// The mark of this cell, or `-1` outside the maze.
    pub fn get_mark(&self, maze: &Maze) -> (mark: i32)
        requires
            maze.wf(),
        ensures
            mark == maze@.mark(self@),
    {
        maze.get_mark(*self)
    }
}

impl Maze {
    /// The invariant of a maze: see [`Grid::wf`].
    pub open spec fn wf(&self) -> bool {
        self@.wf()
    }

    /// A maze of the given size with every door closed and every mark
    /// cleared, or `InvalidDimensions` where a dimension is zero. Coordinates
    /// are signed 32-bit numbers, so neither dimension may exceed `i32::MAX`,
    /// and the number of cells has to fit a `usize`.
    pub fn new(rows: usize, columns: usize) -> (made: Result<Self, MazeError>)
        requires
            rows <= i32::MAX,
            columns <= i32::MAX,
            rows * columns <= usize::MAX,
        ensures
            match made {
                Ok(maze) => {
                    &&& rows > 0 && columns > 0
                    &&& maze.rows == rows && maze.columns == columns
                    &&& maze.wf()
                    &&& maze@ == Grid::blank(rows as int, columns as int)
                    &&& maze@.pristine()
                },
                Err(error) => (rows == 0 || columns == 0) && error == MazeError::InvalidDimensions,
            },
    {
        if rows == 0 || columns == 0 {
            return Err(MazeError::InvalidDimensions);
        }
        let total = rows * columns;
        let mut cells: Vec<CellData> = Vec::with_capacity(total);
        let mut i: usize = 0;
        while i < total
            invariant
                i <= total,
                cells@.len() == i,
                forall|k: int| 0 <= k < i ==> cells@[k] == (CellData { door_mask: 0, mark: 0 }),
            decreases total - i,
        {
            cells.push(CellData::new());
            i += 1;
        }
        let maze = Maze { rows, columns, cells };
        proof {
            assert(maze@.cells =~= Grid::blank(rows as int, columns as int).cells);
            lemma_blank_wf(rows as int, columns as int);
        }
        Ok(maze)
    }

    /// Whether `pos` is a cell of the maze whose door toward `direction` is
    /// open.
    pub fn can_go(&self, pos: CellPos, direction: Direction) -> (open: bool)
        requires
            self.wf(),
        ensures
            open == self@.door(pos@, direction),
    {
        if !pos.is_in_maze(self) {
            return false;
        }
        let index = pos.to_index(self);
        let cell_mask = self.cells[index].door_mask;
        let direction_mask = direction.to_door_mask();
        cell_mask & direction_mask != 0
    }

    /// Sets the door bit of `direction` on the cell at `pos`, on that side
    /// only; does nothing where `pos` is outside the maze. Between this call
    /// and the one for the other side the doors are not paired.
    fn open_door_at(&mut self, pos: CellPos, direction: &Direction)
        requires
            old(self)@.shaped(),
        ensures
            final(self)@ == old(self)@.with_door(pos@, *direction, true),
    {
        if pos.is_in_maze(self) {
            let index = pos.to_index(self);
            let cell = self.cells[index];
            self.cells.set(
                index,
                CellData { door_mask: cell.door_mask | direction.to_door_mask(), mark: cell.mark },
            );
        }
    }

    /// Clears the door bit of `direction` on the cell at `pos`, on that side
    /// only; does nothing where `pos` is outside the maze. Between this call
    /// and the one for the other side the doors are not paired.
    fn close_door_at(&mut self, pos: CellPos, direction: &Direction)
        requires
            old(self)@.shaped(),
        ensures
            final(self)@ == old(self)@.with_door(pos@, *direction, false),
    {
        if pos.is_in_maze(self) {
            let index = pos.to_index(self);
            let cell = self.cells[index];
            self.cells.set(
                index,
                CellData { door_mask: cell.door_mask & !direction.to_door_mask(), mark: cell.mark },
            );
        }
    }

    /// Opens the door of the cell at `pos` toward `direction`, and with it
    /// the facing door of the neighbour there. On the rim, where there is no
    /// neighbour, only the cell's own door opens. Does nothing where `pos` is
    /// outside the maze.
    pub fn open_door(&mut self, pos: CellPos, direction: &Direction)
        requires
            old(self).wf(),
        ensures
            final(self).wf(),
            final(self)@ == old(self)@.toggled(pos@, *direction, true),
            old(self)@.door_set(final(self)@, pos@, *direction, true),
    {
        if pos.is_in_maze(self) {
            proof {
                lemma_with_door(self@, pos@, *direction, true);
                lemma_toggled(self@, pos@, *direction, true);
                lemma_toggled_wf(self@, pos@, *direction, true);
            }
            self.open_door_at(pos, direction);
            self.open_door_at(pos.go(direction), direction.to_opposite());
        }
    }

    /// Closes the door of the cell at `pos` toward `direction`, and with it
    /// the facing door of the neighbour there. Does nothing where `pos` is
    /// outside the maze.
    pub fn close_door(&mut self, pos: CellPos, direction: &Direction)
        requires
            old(self).wf(),
        ensures
            final(self).wf(),
            final(self)@ == old(self)@.toggled(pos@, *direction, false),
            old(self)@.door_set(final(self)@, pos@, *direction, false),
    {
        if pos.is_in_maze(self) {
            proof {
                lemma_with_door(self@, pos@, *direction, false);
                lemma_toggled(self@, pos@, *direction, false);
                lemma_toggled_wf(self@, pos@, *direction, false);
            }
            self.close_door_at(pos, direction);
            self.close_door_at(pos.go(direction), direction.to_opposite());
        }
    }

    /// Sets the mark of the cell at `pos`; does nothing where `pos` is
    /// outside the maze.
    pub fn set_mark(&mut self, pos: CellPos, mark: i32)
        requires
            old(self).wf(),
        ensures
            final(self).wf(),
            final(self)@ == old(self)@.with_mark(pos@, mark),
            old(self)@.mark_set(final(self)@, pos@, mark),
    {
        proof {
            lemma_with_mark(self@, pos@, mark);
        }
        if pos.is_in_maze(self) {
            let index = pos.to_index(self);
            let cell = self.cells[index];
            self.cells.set(index, CellData { door_mask: cell.door_mask, mark });
        }
    }

    /// The mark of the cell at `pos`, or `-1` where `pos` is outside the
    /// maze.
    pub fn get_mark(&self, pos: CellPos) -> (mark: i32)
        requires
            self.wf(),
        ensures
            mark == self@.mark(pos@),
    {
        if pos.is_in_maze(self) {
            let index = pos.to_index(self);
            self.cells[index].mark
        } else {
            -1
        }
    }
}

impl View for Maze {
    type V = Grid;

    open spec fn view(&self) -> Grid {
        Grid { rows: self.rows as int, columns: self.columns as int, cells: self.cells@ }
    }
}

} // verus!
