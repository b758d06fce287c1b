//! The generator: a randomized depth-first walk that carves a perfect maze,
//! then opens an entrance on the left and an exit on the right.

use crate::carve::{
    carved_from, lemma_blank_carving, lemma_carve_complete, lemma_opening_added, lemma_shuffled,
    lemma_walk_begins, lemma_walk_ends, lemma_walk_extends, lemma_walk_skips, walking,
};
use crate::direction::{four_directions, Direction, ALL_DIRECTIONS};
use crate::grid::{
    lemma_blank_wf, lemma_cell_of_index, lemma_index_bounds, lemma_toggled, lemma_toggled_wf,
    lemma_with_mark, Grid,
};
use crate::maze::{CellData, CellPos, Maze};
use rand::rngs::StdRng;
use rand::seq::SliceRandom;
use rand::Rng;
use vstd::prelude::*;

verus! {

/// The standard generator of the `rand` crate, `rand::rngs::StdRng`. It is
/// carried through as an opaque value: nothing is claimed of its state.
#[verifier::external_type_specification]
#[verifier::external_body]
pub struct ExStdRng(rand::rngs::StdRng);

/// Draws an index below `bound` with `rand::Rng::gen_range` on the range
/// `0..bound`. Trusted: the value drawn lies in that range. Which value it is
/// depends on the state of the generator, of which nothing is claimed. The
/// range must not be empty: `gen_range` panics on an empty one.
#[verifier::external_body]
fn random_below(rng: &mut StdRng, bound: usize) -> (value: usize)
    requires
        bound > 0,
    ensures
        value < bound,
{
    rng.gen_range(0..bound)
}

/// Reorders `directions` in place with `rand::seq::SliceRandom::shuffle`.
/// Trusted: the shuffle only swaps entries, so the vector holds the same
/// directions as before, each as often as before. Nothing is claimed of their
/// new order.
#[verifier::external_body]
fn shuffle_directions(directions: &mut Vec<Direction>, rng: &mut StdRng)
    ensures
        final(directions)@.to_multiset() == old(directions)@.to_multiset(),
{
    directions.shuffle(rng);
}

/// The four moves in an order drawn from `rng`.
pub fn shuffled_directions(rng: &mut StdRng) -> (order: Vec<Direction>)
    ensures
        order@.to_multiset() == four_directions().to_multiset(),
        order@.len() == 4,
        forall|i: int| 0 <= i < 4 ==> #[trigger] order@[i] != Direction::Nowhere,
        forall|d: Direction| d != Direction::Nowhere ==> #[trigger] order@.contains(d),
{
    let mut order: Vec<Direction> = Vec::with_capacity(4);
    let mut k: usize = 0;
    while k < 4
        invariant
            k <= 4,
            order@ == four_directions().take(k as int),
        decreases 4 - k,
    {
        order.push(ALL_DIRECTIONS[k]);
        proof {
            assert(order@ =~= four_directions().take(k + 1));
        }
        k += 1;
    }
    proof {
        assert(order@ =~= four_directions());
    }
    shuffle_directions(&mut order, rng);
    proof {
        lemma_shuffled(order@);
    }
    order
}

/// The bits that are left of a door mask when all four doors are closed.
proof fn lemma_no_door_left(mask: u32)
    by (bit_vector)
    requires
        mask < 16,
        mask & 1 == 0,
        mask & 2 == 0,
        mask & 4 == 0,
        mask & 8 == 0,
    ensures
        mask == 0,
{
}

/// Whether every cell that comes before row `r`, column `c` in row-major
/// order has all doors closed and no mark.
spec fn cleared_before(g: Grid, r: int, c: int) -> bool {
    forall|p: (int, int)|
        g.contains(p) && (p.0 < r || (p.0 == r && p.1 < c)) ==> #[trigger] g.cell(p) == (CellData {
            door_mask: 0,
            mark: 0,
        })
}

/// Closing a door leaves cleared cells cleared, and doors that were closed
/// stay closed.
proof fn lemma_close_keeps_cleared(g: Grid, p: (int, int), d: Direction, r: int, c: int)
    requires
        g.wf(),
        cleared_before(g, r, c),
    ensures
        cleared_before(g.toggled(p, d, false), r, c),
        forall|q: (int, int), e: Direction|
            !g.door(q, e) ==> !#[trigger] g.toggled(p, d, false).door(q, e),
        d != Direction::Nowhere && g.contains(p) ==> !g.toggled(p, d, false).door(p, d),
{
    let h = g.toggled(p, d, false);
    lemma_toggled_wf(g, p, d, false);
    if g.contains(p) {
        lemma_toggled(g, p, d, false);
        assert forall|q: (int, int)|
            h.contains(q) && (q.0 < r || (q.0 == r && q.1 < c)) implies #[trigger] h.cell(q) == (
        CellData { door_mask: 0, mark: 0 }) by {
            lemma_index_bounds(g, q);
            assert(g.cell(q) == (CellData { door_mask: 0, mark: 0 }));
            assert(h.cells[g.index(q)].door_mask <= g.cells[g.index(q)].door_mask);
            assert(h.mark(q) == g.mark(q));
        }
    }
}

/// Closes every door and clears every mark, so that the maze is as it was
/// when it was built.
pub fn reset_maze(maze: &mut Maze)
    requires
        old(maze).wf(),
    ensures
        final(maze).wf(),
        final(maze)@ == old(maze)@.reset(),
        final(maze)@.pristine(),
{
    let rows = maze.rows;
    let columns = maze.columns;
    let mut r: usize = 0;
    while r < rows
        invariant
            maze.wf(),
            maze.rows == rows,
            maze.columns == columns,
            r <= rows,
            cleared_before(maze@, r as int, 0),
        decreases rows - r,
    {
        let mut c: usize = 0;
        while c < columns
            invariant
                maze.wf(),
                maze.rows == rows,
                maze.columns == columns,
                r < rows,
                c <= columns,
                cleared_before(maze@, r as int, c as int),
            decreases columns - c,
        {
            let pos = CellPos { row: r as i32, col: c as i32 };
            let mut k: usize = 0;
            while k < 4
                invariant
                    maze.wf(),
                    maze.rows == rows,
                    maze.columns == columns,
                    r < rows,
                    c < columns,
                    pos@ == (r as int, c as int),
                    k <= 4,
                    cleared_before(maze@, r as int, c as int),
                    forall|j: int| 0 <= j < k ==> !maze@.door(pos@, #[trigger] four_directions()[j]),
                decreases 4 - k,
            {
                proof {
                    lemma_close_keeps_cleared(maze@, pos@, ALL_DIRECTIONS[k as int], r as int, c as int);
                }
                pos.close_door(maze, &ALL_DIRECTIONS[k]);
                k += 1;
            }
            proof {
                let g = maze@;
                lemma_with_mark(g, pos@, 0);
                lemma_index_bounds(g, pos@);
                assert(!g.door(pos@, four_directions()[0]));
                assert(!g.door(pos@, four_directions()[1]));
                assert(!g.door(pos@, four_directions()[2]));
                assert(!g.door(pos@, four_directions()[3]));
                lemma_no_door_left(g.cell(pos@).door_mask);
                let h = g.with_mark(pos@, 0);
                assert forall|q: (int, int)|
                    h.contains(q) && (q.0 < r || (q.0 == r && q.1 < c + 1)) implies #[trigger] h.cell(
                    q,
                ) == (CellData { door_mask: 0, mark: 0 }) by {
                    if q != pos@ {
                        assert(h.cell(q) == g.cell(q));
                    }
                }
            }
            pos.set_mark(maze, 0);
            c += 1;
        }
        r += 1;
    }
    proof {
        let g = maze@;
        let blank = old(maze)@.reset();
        assert forall|i: int| 0 <= i < g.cells.len() implies g.cells[i] == blank.cells[i] by {
            let p = lemma_cell_of_index(g, i);
            assert(g.cell(p) == (CellData { door_mask: 0, mark: 0 }));
        }
        assert(g.cells =~= blank.cells);
        lemma_blank_wf(g.rows, g.columns);
    }
}

/// Visits the cell at `pos` if it is a cell of the maze that has not been
/// visited: marks it, then tries the four moves in a shuffled order, and
/// opens a door toward each neighbour that a visit from here is the first to
/// reach. Returns whether the cell was visited by this call; if it was not,
/// the maze is unchanged.
///
/// The maze has to be in a state of the carving walk, as it is after
/// [`reset_maze`]. Whatever orders are drawn, the cells visited by this call
/// are joined to `pos` by passages, one more cell than passages, and none of
/// them is left with an unvisited neighbour: see [`carved_from`].
pub fn open_doors(maze: &mut Maze, rng: &mut StdRng, pos: CellPos) -> (fresh: bool)
    requires
        old(maze)@.carving(),
    ensures
        fresh == (old(maze)@.contains(pos@) && old(maze)@.mark(pos@) == 0),
        fresh ==> carved_from(old(maze)@, final(maze)@, pos@),
        !fresh ==> final(maze)@ == old(maze)@,
    decreases old(maze)@.unvisited_count(),
{
    if pos.get_mark(maze) == 0 {
        let ghost before = maze@;
        pos.set_mark(maze, 1);
        let directions = shuffled_directions(rng);
        proof {
            lemma_walk_begins(before, pos@);
            assert(directions@.take(0) =~= Seq::<Direction>::empty());
        }
        let mut i: usize = 0;
        while i < 4
            invariant
                i <= 4,
                directions@.len() == 4,
                forall|k: int| 0 <= k < 4 ==> #[trigger] directions@[k] != Direction::Nowhere,
                before == old(maze)@,
                walking(before, maze@, pos@, directions@.take(i as int)),
            decreases 4 - i,
        {
            let dir = directions[i];
            let ghost cur = maze@;
            let ghost tried = directions@.take(i as int);
            let new_pos = pos.go(&dir);
            if new_pos.is_in_maze(maze) {
                if open_doors(maze, rng, new_pos) {
                    let ghost mid = maze@;
                    pos.open_door(maze, &dir);
                    proof {
                        lemma_walk_extends(before, cur, mid, pos@, tried, dir);
                    }
                } else {
                    proof {
                        lemma_walk_skips(before, cur, pos@, tried, dir);
                    }
                }
            } else {
                proof {
                    lemma_walk_skips(before, cur, pos@, tried, dir);
                }
            }
            proof {
                assert(directions@.take(i + 1) =~= tried.push(dir));
            }
            i += 1;
        }
        proof {
            assert(directions@.take(4) =~= directions@);
            lemma_walk_ends(before, maze@, pos@, directions@);
        }
        true
    } else {
        false
    }
}

/// Opens the door to the left of the first cell of `entrance_row` and the
/// door to the right of the last cell of `exit_row`. Both lead off the maze,
/// so no other cell changes. A row outside the maze gets no door.
pub fn open_entrance_and_exit(maze: &mut Maze, entrance_row: i32, exit_row: i32)
    requires
        old(maze).wf(),
    ensures
        final(maze).wf(),
        final(maze)@ == old(maze)@.toggled((entrance_row as int, 0), Direction::Left, true).toggled(
            (exit_row as int, old(maze).columns - 1),
            Direction::Right,
            true,
        ),
        final(maze)@.rows == old(maze)@.rows,
        final(maze)@.columns == old(maze)@.columns,
        forall|p: (int, int)| #[trigger] final(maze)@.mark(p) == old(maze)@.mark(p),
        forall|p: (int, int), d: Direction| #[trigger]
            final(maze)@.door(p, d) == (old(maze)@.door(p, d) || (old(maze)@.contains(p) && ((p == (
                entrance_row as int,
                0int,
            ) && d == Direction::Left) || (p == (exit_row as int, old(maze).columns - 1) && d
                == Direction::Right)))),
{
    let entrance = CellPos { row: entrance_row, col: 0 };
    maze.open_door(entrance, &Direction::Left);
    let exit = CellPos { row: exit_row, col: (maze.columns - 1) as i32 };
    maze.open_door(exit, &Direction::Right);
}

/// Turns the maze into a perfect maze, drawn with `rng`: closes all doors,
/// carves passages by a randomized depth-first walk from a random cell, then
/// opens an entrance in the first column and an exit in the last, each on a
/// random row.
pub fn make_maze(maze: &mut Maze, rng: &mut StdRng)
    requires
        old(maze).wf(),
    ensures
        final(maze).rows == old(maze).rows,
        final(maze).columns == old(maze).columns,
        final(maze)@.generated(),
        forall|p: (int, int)| final(maze)@.contains(p) ==> #[trigger] final(maze)@.mark(p) == 1,
{
    reset_maze(maze);
    let start_row = random_below(rng, maze.rows) as i32;
    let start_col = random_below(rng, maze.columns) as i32;
    let start = CellPos { row: start_row, col: start_col };
    proof {
        lemma_blank_carving(maze@.rows, maze@.columns);
        assert(!maze@.visited(start@));
    }
    let fresh = open_doors(maze, rng, start);
    let ghost carved = maze@;
    proof {
        assert(fresh);
        lemma_carve_complete(carved, start@);
    }
    let entrance_row = random_below(rng, maze.rows) as i32;
    let exit_row = random_below(rng, maze.rows) as i32;
    open_entrance_and_exit(maze, entrance_row, exit_row);
    proof {
        let entrance = CellPos { row: entrance_row, col: 0 };
        let exit = CellPos { row: exit_row, col: (maze.columns - 1) as i32 };
        let entered = carved.toggled(entrance@, Direction::Left, true);
        lemma_opening_added(carved, entrance@, Direction::Left);
        lemma_opening_added(entered, exit@, Direction::Right);
        let done = maze@;
        assert forall|p: (int, int)| #[trigger]
            done.opening(p, Direction::Left) <==> p == entrance@ by {
            assert(done.door(p, Direction::Left) == (carved.door(p, Direction::Left) || p
                == entrance@));
        }
        assert(done.sole_opening((entrance_row as int, 0), Direction::Left));
        assert forall|p: (int, int)| #[trigger]
            done.opening(p, Direction::Right) <==> p == exit@ by {
            assert(done.door(p, Direction::Right) == (carved.door(p, Direction::Right) || p
                == exit@));
        }
        assert(done.sole_opening((exit_row as int, done.columns - 1), Direction::Right));
        assert forall|c: int| !#[trigger] done.door((0, c), Direction::Up) by {
            assert(done.door((0, c), Direction::Up) == carved.door((0, c), Direction::Up));
        }
        assert forall|c: int| !#[trigger] done.door((done.rows - 1, c), Direction::Down) by {
            assert(done.door((done.rows - 1, c), Direction::Down) == carved.door(
                (done.rows - 1, c),
                Direction::Down,
            ));
        }
    }
}

} // verus!
