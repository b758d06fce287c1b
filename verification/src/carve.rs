//! What the carving walk keeps true from step to step, and why a grid that
//! it has walked through is a perfect maze.

use crate::direction::{four_directions, lemma_opposite_undoes, Direction};
use crate::grid::{
    lemma_blank_wf, lemma_doors_agree, lemma_toggled, lemma_toggled_wf, lemma_with_mark, step, Grid,
};
use crate::paths::{
    lemma_bridge_no_cycle, lemma_connected_back, lemma_connected_grows, lemma_connected_self,
    lemma_connected_step, lemma_connected_trans, lemma_fewer_passages_no_cycle,
    lemma_no_passage_no_cycle,
};
use crate::tally::{
    lemma_blank_counts, lemma_counts_after_mark, lemma_counts_after_toggle, lemma_unvisited_count,
};
use vstd::prelude::*;

verus! {

impl Grid {
    /// No door leads off the grid.
    pub open spec fn enclosed(self) -> bool {
        forall|p: (int, int), d: Direction| #[trigger] self.door(p, d) ==> self.contains(step(p, d))
    }

    /// A state of the carving walk: a maze without openings or cycles in
    /// which every mark is zero or one and only visited cells have open
    /// doors.
    pub open spec fn carving(self) -> bool {
        &&& self.wf()
        &&& self.enclosed()
        &&& self.acyclic()
        &&& forall|p: (int, int), d: Direction| #[trigger] self.door(p, d) ==> self.visited(p)
        &&& forall|p: (int, int)|
            self.contains(p) ==> #[trigger] self.mark(p) == 0 || self.mark(p) == 1
    }

    /// Whether the cell `at` is the only one with an opening toward `d`.
    pub open spec fn sole_opening(self, at: (int, int), d: Direction) -> bool {
        forall|p: (int, int)| #[trigger] self.opening(p, d) <==> p == at
    }

    /// A finished maze: perfect, closed along its top and bottom rows, with
    /// one entrance in its first column and one exit in its last.
    pub open spec fn generated(self) -> bool {
        &&& self.wf()
        &&& self.perfect()
        &&& forall|c: int| !#[trigger] self.door((0, c), Direction::Up)
        &&& forall|c: int| !#[trigger] self.door((self.rows - 1, c), Direction::Down)
        &&& exists|r: int| 0 <= r < self.rows && #[trigger] self.sole_opening((r, 0), Direction::Left)
        &&& exists|r: int|
            0 <= r < self.rows && #[trigger] self.sole_opening(
                (r, self.columns - 1),
                Direction::Right,
            )
    }
}

/// What one visit changes, from the grid `g` before it to the grid `h` after
/// it, when it starts on the unvisited cell `from`. The cells visited before
/// are untouched. Each cell visited since can be reached from `from`, and has
/// no unvisited neighbour left. One passage was opened for each cell visited
/// since, but for `from` itself.
pub open spec fn carved_from(g: Grid, h: Grid, from: (int, int)) -> bool {
    &&& h.carving()
    &&& h.rows == g.rows
    &&& h.columns == g.columns
    &&& h.visited(from)
    &&& forall|p: (int, int)| g.visited(p) ==> #[trigger] h.cell(p) == g.cell(p)
    &&& forall|p: (int, int)| h.visited(p) && !g.visited(p) ==> #[trigger] h.connected(from, p)
    &&& forall|p: (int, int), d: Direction|
        h.visited(p) && !g.visited(p) && h.contains(step(p, d)) ==> #[trigger] h.visited(
            step(p, d),
        )
    &&& h.passage_count() + h.unvisited_count() + 1 == g.passage_count() + g.unvisited_count()
    &&& 0 <= h.unvisited_count() < g.unvisited_count()
}

/// What holds in the middle of a visit to `from`, when the moves in `tried`
/// have been dealt with: as [`carved_from`], but that `from` is only known to
/// have no unvisited neighbour in the directions tried.
pub open spec fn walking(g: Grid, h: Grid, from: (int, int), tried: Seq<Direction>) -> bool {
    &&& h.carving()
    &&& h.rows == g.rows
    &&& h.columns == g.columns
    &&& g.contains(from)
    &&& !g.visited(from)
    &&& h.visited(from)
    &&& forall|p: (int, int)| g.visited(p) ==> #[trigger] h.cell(p) == g.cell(p)
    &&& forall|p: (int, int)| h.visited(p) && !g.visited(p) ==> #[trigger] h.connected(from, p)
    &&& forall|p: (int, int), d: Direction|
        h.visited(p) && !g.visited(p) && p != from && h.contains(step(p, d))
            ==> #[trigger] h.visited(step(p, d))
    &&& forall|j: int|
        0 <= j < tried.len() && h.contains(step(from, #[trigger] tried[j])) ==> h.visited(
            step(from, tried[j]),
        )
    &&& h.passage_count() + h.unvisited_count() + 1 == g.passage_count() + g.unvisited_count()
    &&& 0 <= h.unvisited_count() < g.unvisited_count()
}

/// A shuffle of the four moves still holds each of them, and nothing else.
pub proof fn lemma_shuffled(order: Seq<Direction>)
    requires
        order.to_multiset() == four_directions().to_multiset(),
    ensures
        order.len() == 4,
        forall|i: int| 0 <= i < 4 ==> #[trigger] order[i] != Direction::Nowhere,
        forall|d: Direction| d != Direction::Nowhere ==> #[trigger] order.contains(d),
{
    let four = four_directions();
    order.to_multiset_ensures();
    four.to_multiset_ensures();
    assert forall|i: int| 0 <= i < 4 implies #[trigger] order[i] != Direction::Nowhere by {
        assert(order.contains(order[i]));
        assert(order.to_multiset().count(order[i]) > 0);
        assert(four.to_multiset().count(order[i]) > 0);
        assert(four.contains(order[i]));
    }
    assert forall|d: Direction| d != Direction::Nowhere implies #[trigger] order.contains(d) by {
        assert(four[0] == Direction::Up && four[1] == Direction::Right && four[2]
            == Direction::Down && four[3] == Direction::Left);
        assert(four.contains(d));
        assert(four.to_multiset().count(d) > 0);
        assert(order.to_multiset().count(d) > 0);
    }
}

/// A blank grid is a state from which the carving walk can start.
pub proof fn lemma_blank_carving(rows: int, columns: int)
    requires
        1 <= rows <= i32::MAX,
        1 <= columns <= i32::MAX,
    ensures
        Grid::blank(rows, columns).carving(),
        forall|p: (int, int)| !#[trigger] Grid::blank(rows, columns).visited(p),
{
    lemma_blank_wf(rows, columns);
    lemma_no_passage_no_cycle(Grid::blank(rows, columns));
}

/// Marking an unvisited cell begins a visit to it.
pub proof fn lemma_walk_begins(g: Grid, from: (int, int))
    requires
        g.carving(),
        g.contains(from),
        g.mark(from) == 0,
    ensures
        walking(g, g.with_mark(from, 1), from, Seq::<Direction>::empty()),
{
    let h = g.with_mark(from, 1);
    lemma_with_mark(g, from, 1);
    lemma_counts_after_mark(g, from, 1);
    lemma_unvisited_count(h);
    lemma_fewer_passages_no_cycle(g, h);
    assert forall|p: (int, int), d: Direction| #[trigger] h.door(p, d) implies h.contains(
        step(p, d),
    ) && h.visited(p) by {
        assert(g.door(p, d));
        assert(h.mark(p) == if p == from { 1 } else { g.mark(p) });
    }
    assert forall|p: (int, int)| h.contains(p) implies #[trigger] h.mark(p) == 0 || h.mark(p)
        == 1 by {
        assert(g.mark(p) == 0 || g.mark(p) == 1);
    }
    assert forall|p: (int, int)| h.visited(p) && !g.visited(p) implies #[trigger] h.connected(
        from,
        p,
    ) by {
        assert(h.mark(p) == if p == from { 1 } else { g.mark(p) });
        lemma_connected_self(h, from);
    }
    assert forall|p: (int, int), d: Direction|
        h.visited(p) && !g.visited(p) && p != from && h.contains(step(p, d)) implies #[trigger]
        h.visited(step(p, d)) by {
        assert(h.mark(p) == g.mark(p));
    }
    assert(h.mark(from) == 1);
}

/// A move toward the rim or toward a visited cell needs no work.
pub proof fn lemma_walk_skips(g: Grid, h: Grid, from: (int, int), tried: Seq<Direction>, d: Direction)
    requires
        walking(g, h, from, tried),
        !h.contains(step(from, d)) || h.visited(step(from, d)),
    ensures
        walking(g, h, from, tried.push(d)),
{
    let more = tried.push(d);
    assert forall|j: int|
        0 <= j < more.len() && h.contains(step(from, #[trigger] more[j])) implies h.visited(
        step(from, more[j]),
    ) by {
        if j < tried.len() {
            assert(more[j] == tried[j]);
        }
    }
}

/// After a visit to the unvisited neighbour in direction `d` has returned,
/// opening the door toward that neighbour carries the visit to `from` on.
pub proof fn lemma_walk_extends(
    g: Grid,
    cur: Grid,
    mid: Grid,
    from: (int, int),
    tried: Seq<Direction>,
    d: Direction,
)
    requires
        walking(g, cur, from, tried),
        d != Direction::Nowhere,
        cur.contains(step(from, d)),
        cur.mark(step(from, d)) == 0,
        carved_from(cur, mid, step(from, d)),
    ensures
        walking(g, mid.toggled(from, d, true), from, tried.push(d)),
{
    let next = step(from, d);
    let fin = mid.toggled(from, d, true);
    let more = tried.push(d);
    lemma_toggled(mid, from, d, true);
    lemma_toggled_wf(mid, from, d, true);
    lemma_opposite_undoes(d);
    assert(step(next, d.opposite()) == from);
    assert(mid.cell(from) == cur.cell(from));
    assert(mid.visited(from));
    // The door to open was closed on both sides.
    assert(!cur.door(from, d)) by {
        lemma_doors_agree(cur, from, d);
        if cur.door(next, d.opposite()) {
            assert(cur.visited(next));
        }
    }
    assert(!mid.door(from, d));
    lemma_counts_after_toggle(mid, from, d, true);
    // The walk loses no passage.
    assert forall|p: (int, int), e: Direction| #[trigger] cur.passage(p, e) implies mid.passage(
        p,
        e,
    ) by {
        assert(cur.door(p, e));
        assert(cur.visited(p));
        assert(mid.cell(p) == cur.cell(p));
    }
    assert forall|p: (int, int), e: Direction| #[trigger] mid.passage(p, e) implies fin.passage(
        p,
        e,
    ) by {
        assert(fin.door(p, e));
    }
    assert forall|p: (int, int), e: Direction| #[trigger] cur.passage(p, e) implies fin.passage(
        p,
        e,
    ) by {
        assert(mid.passage(p, e));
    }
    assert forall|p: (int, int)| #[trigger] fin.visited(p) == mid.visited(p) by {
        assert(fin.mark(p) == mid.mark(p));
    }
    assert forall|p: (int, int)| cur.visited(p) implies #[trigger] mid.visited(p) by {
        assert(mid.cell(p) == cur.cell(p));
    }
    assert(fin.acyclic()) by {
        // No passage led from the cells of the visit that has returned to
        // any other cell.
        let side = |p: (int, int)| mid.visited(p) && !cur.visited(p);
        assert forall|p: (int, int), e: Direction| #[trigger] mid.passage(p, e) implies side(p)
            == side(step(p, e)) by {
            let q = step(p, e);
            lemma_doors_agree(mid, p, e);
            lemma_opposite_undoes(e);
            assert(mid.door(q, e.opposite()));
            assert(mid.visited(p) && mid.visited(q));
            if cur.visited(p) {
                assert(mid.cell(p) == cur.cell(p));
                assert(cur.door(p, e));
                lemma_doors_agree(cur, p, e);
                assert(cur.visited(q));
            }
            if cur.visited(q) {
                assert(mid.cell(q) == cur.cell(q));
                assert(cur.door(q, e.opposite()));
                lemma_doors_agree(cur, q, e.opposite());
                assert(cur.visited(p));
            }
        }
        assert(side(next) && !side(from));
        lemma_bridge_no_cycle(mid, fin, from, d, side);
    }
    assert(fin.carving()) by {
        assert forall|p: (int, int), e: Direction| #[trigger] fin.door(p, e) implies fin.contains(
            step(p, e),
        ) && fin.visited(p) by {
            if mid.door(p, e) {
                assert(mid.visited(p));
                assert(fin.visited(p) == mid.visited(p));
            } else {
                assert(fin.visited(p) == mid.visited(p));
            }
        }
        assert forall|p: (int, int)| fin.contains(p) implies #[trigger] fin.mark(p) == 0
            || fin.mark(p) == 1 by {
            assert(mid.mark(p) == 0 || mid.mark(p) == 1);
        }
    }
    assert forall|p: (int, int)| g.visited(p) implies #[trigger] fin.cell(p) == g.cell(p) by {
        assert(cur.cell(p) == g.cell(p));
        assert(cur.visited(p));
        assert(mid.cell(p) == cur.cell(p));
        assert(p != from && p != next);
    }
    assert(fin.connected(from, next)) by {
        assert(fin.door(from, d));
        lemma_connected_step(fin, from, d);
    }
    assert forall|p: (int, int)| fin.visited(p) && !g.visited(p) implies #[trigger] fin.connected(
        from,
        p,
    ) by {
        assert(fin.visited(p) == mid.visited(p));
        if cur.visited(p) {
            assert(cur.connected(from, p));
            lemma_connected_grows(cur, fin, from, p);
        } else {
            assert(mid.connected(next, p));
            lemma_connected_grows(mid, fin, next, p);
            lemma_connected_trans(fin, from, next, p);
        }
    }
    assert forall|p: (int, int), e: Direction|
        fin.visited(p) && !g.visited(p) && p != from && fin.contains(step(p, e)) implies #[trigger]
        fin.visited(step(p, e)) by {
        assert(fin.visited(p) == mid.visited(p));
        assert(fin.visited(step(p, e)) == mid.visited(step(p, e)));
        if cur.visited(p) {
            assert(cur.visited(step(p, e)));
            assert(mid.visited(step(p, e)));
        } else {
            assert(mid.visited(step(p, e)));
        }
    }
    assert forall|j: int|
        0 <= j < more.len() && fin.contains(step(from, #[trigger] more[j])) implies fin.visited(
        step(from, more[j]),
    ) by {
        let target = step(from, more[j]);
        assert(fin.visited(target) == mid.visited(target));
        if j < tried.len() {
            assert(more[j] == tried[j]);
            assert(cur.visited(target));
            assert(mid.visited(target));
        } else {
            assert(mid.visited(next));
        }
    }
}

/// When all four moves have been dealt with, the visit is complete.
pub proof fn lemma_walk_ends(g: Grid, h: Grid, from: (int, int), tried: Seq<Direction>)
    requires
        walking(g, h, from, tried),
        forall|d: Direction| d != Direction::Nowhere ==> #[trigger] tried.contains(d),
    ensures
        carved_from(g, h, from),
{
    assert forall|p: (int, int), d: Direction|
        h.visited(p) && !g.visited(p) && h.contains(step(p, d)) implies #[trigger] h.visited(
        step(p, d),
    ) by {
        if p == from {
            if d != Direction::Nowhere {
                assert(tried.contains(d));
                let j = choose|j: int| 0 <= j < tried.len() && tried[j] == d;
                assert(h.contains(step(from, tried[j])));
            }
        }
    }
}

/// A set of visited cells that holds one cell and, with each cell, its
/// neighbours, holds the whole column of that cell.
proof fn lemma_visits_reach_row(g: Grid, start: (int, int), row: int)
    requires
        g.visited(start),
        forall|p: (int, int), d: Direction|
            g.visited(p) && g.contains(step(p, d)) ==> #[trigger] g.visited(step(p, d)),
        0 <= row < g.rows,
    ensures
        g.visited((row, start.1)),
    decreases
            if row >= start.0 {
                row - start.0
            } else {
                start.0 - row
            },
{
    if row > start.0 {
        lemma_visits_reach_row(g, start, row - 1);
        assert(step((row - 1, start.1), Direction::Down) == (row, start.1));
        assert(g.visited(step((row - 1, start.1), Direction::Down)));
    } else if row < start.0 {
        lemma_visits_reach_row(g, start, row + 1);
        assert(step((row + 1, start.1), Direction::Up) == (row, start.1));
        assert(g.visited(step((row + 1, start.1), Direction::Up)));
    }
}

/// A set of visited cells that holds one cell and, with each cell, its
/// neighbours, holds every cell of the grid.
pub proof fn lemma_visits_reach_all(g: Grid, start: (int, int), p: (int, int))
    requires
        g.visited(start),
        forall|q: (int, int), d: Direction|
            g.visited(q) && g.contains(step(q, d)) ==> #[trigger] g.visited(step(q, d)),
        g.contains(p),
    ensures
        g.visited(p),
    decreases
            if p.1 >= start.1 {
                p.1 - start.1
            } else {
                start.1 - p.1
            },
{
    if p.1 > start.1 {
        lemma_visits_reach_all(g, start, (p.0, p.1 - 1));
        assert(step((p.0, p.1 - 1), Direction::Right) == p);
        assert(g.visited(step((p.0, p.1 - 1), Direction::Right)));
    } else if p.1 < start.1 {
        lemma_visits_reach_all(g, start, (p.0, p.1 + 1));
        assert(step((p.0, p.1 + 1), Direction::Left) == p);
        assert(g.visited(step((p.0, p.1 + 1), Direction::Left)));
    } else {
        lemma_visits_reach_row(g, start, p.0);
    }
}

/// A visit that starts on a blank grid leaves a perfect maze without
/// openings, in which every cell is marked.
pub proof fn lemma_carve_complete(h: Grid, start: (int, int))
    requires
        1 <= h.rows <= i32::MAX,
        1 <= h.columns <= i32::MAX,
        carved_from(Grid::blank(h.rows, h.columns), h, start),
    ensures
        h.wf(),
        h.perfect(),
        h.enclosed(),
        forall|p: (int, int)| h.contains(p) ==> #[trigger] h.mark(p) == 1,
{
    let g = Grid::blank(h.rows, h.columns);
    lemma_blank_carving(h.rows, h.columns);
    lemma_blank_counts(h.rows, h.columns);
    assert forall|q: (int, int), d: Direction|
        h.visited(q) && h.contains(step(q, d)) implies #[trigger] h.visited(step(q, d)) by {
        assert(!g.visited(q));
    }
    assert forall|p: (int, int)| h.contains(p) implies h.visited(p) by {
        lemma_visits_reach_all(h, start, p);
    }
    assert forall|p: (int, int)| h.contains(p) implies #[trigger] h.mark(p) == 1 by {
        assert(h.visited(p));
    }
    lemma_unvisited_count(h);
    assert forall|a: (int, int), b: (int, int)|
        h.contains(a) && h.contains(b) implies #[trigger] h.connected(a, b) by {
        assert(h.visited(a) && !g.visited(a));
        assert(h.visited(b) && !g.visited(b));
        assert(h.connected(start, a));
        assert(h.connected(start, b));
        lemma_connected_back(h, start, a);
        lemma_connected_trans(h, a, start, b);
    }
}

/// Opening a door on the rim of a perfect maze leaves it perfect, and adds
/// that one opening to those it had.
pub proof fn lemma_opening_added(g: Grid, p: (int, int), d: Direction)
    requires
        g.wf(),
        g.perfect(),
        g.contains(p),
        !g.contains(step(p, d)),
        d != Direction::Nowhere,
    ensures
        g.toggled(p, d, true).wf(),
        g.toggled(p, d, true).perfect(),
        forall|q: (int, int), e: Direction| #[trigger]
            g.toggled(p, d, true).door(q, e) == (g.door(q, e) || (q == p && e == d)),
        forall|q: (int, int)| #[trigger] g.toggled(p, d, true).mark(q) == g.mark(q),
{
    let h = g.toggled(p, d, true);
    lemma_toggled(g, p, d, true);
    lemma_toggled_wf(g, p, d, true);
    lemma_counts_after_toggle(g, p, d, true);
    lemma_fewer_passages_no_cycle(g, h);
    assert forall|q: (int, int), e: Direction| #[trigger] g.passage(q, e) implies h.passage(
        q,
        e,
    ) by {
        assert(h.door(q, e));
    }
    assert forall|a: (int, int), b: (int, int)|
        h.contains(a) && h.contains(b) implies #[trigger] h.connected(a, b) by {
        assert(g.connected(a, b));
        lemma_connected_grows(g, h, a, b);
    }
}

} // verus!
