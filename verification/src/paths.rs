//! Walks through open passages, and what it means for a maze to be perfect.

use crate::direction::{lemma_opposite_undoes, Direction};
use crate::grid::{lemma_doors_agree, step, Grid};
use vstd::prelude::*;

verus! {

impl Grid {
    /// Whether one move through an open passage leads from `a` to `b`.
    pub open spec fn joined(self, a: (int, int), b: (int, int)) -> bool {
        ||| self.passage(a, Direction::Up) && b == step(a, Direction::Up)
        ||| self.passage(a, Direction::Right) && b == step(a, Direction::Right)
        ||| self.passage(a, Direction::Down) && b == step(a, Direction::Down)
        ||| self.passage(a, Direction::Left) && b == step(a, Direction::Left)
    }

    /// Whether the walk `w` can go on from its `i`-th cell to the next.
    pub open spec fn hop(self, w: Seq<(int, int)>, i: int) -> bool {
        self.joined(w[i], w[i + 1])
    }

    /// A walk: a sequence of cells, each reached from the one before through
    /// an open passage.
    pub open spec fn is_walk(self, w: Seq<(int, int)>) -> bool {
        &&& w.len() >= 1
        &&& self.contains(w[0])
        &&& forall|i: int| 0 <= i < w.len() - 1 ==> #[trigger] self.hop(w, i)
    }

    /// Whether `w` is a walk from `a` to `b`.
    pub open spec fn walks(self, w: Seq<(int, int)>, a: (int, int), b: (int, int)) -> bool {
        self.is_walk(w) && w[0] == a && w[w.len() - 1] == b
    }

    /// Whether some walk leads from `a` to `b`.
    pub open spec fn connected(self, a: (int, int), b: (int, int)) -> bool {
        exists|w: Seq<(int, int)>| #[trigger] self.walks(w, a, b)
    }

    /// A simple walk: a walk that comes through no cell twice.
    pub open spec fn is_simple_walk(self, w: Seq<(int, int)>) -> bool {
        &&& self.is_walk(w)
        &&& forall|i: int, j: int| 0 <= i < j < w.len() ==> w[i] != w[j]
    }

    /// Whether there is one simple walk from `a` to `b`, and no other.
    pub open spec fn single_way(self, a: (int, int), b: (int, int)) -> bool {
        exists|w: Seq<(int, int)>|
            {
                &&& #[trigger] self.is_simple_walk(w)
                &&& self.walks(w, a, b)
                &&& forall|v: Seq<(int, int)>|
                    #[trigger] self.is_simple_walk(v) && self.walks(v, a, b) ==> v == w
            }
    }

    /// A cycle: a walk of three moves or more that ends where it began and
    /// comes through no other cell twice.
    pub open spec fn is_cycle(self, w: Seq<(int, int)>) -> bool {
        &&& self.is_walk(w)
        &&& w.len() >= 4
        &&& w[0] == w[w.len() - 1]
        &&& forall|i: int, j: int| 0 <= i < j < w.len() - 1 ==> w[i] != w[j]
    }

    /// Whether no walk through the passages is a cycle.
    pub open spec fn acyclic(self) -> bool {
        forall|w: Seq<(int, int)>| !#[trigger] self.is_cycle(w)
    }

    /// A perfect maze: its passages form a spanning tree of the grid. Every
    /// cell can be reached from every other, no walk goes round in a cycle,
    /// and there is one passage fewer than there are cells.
    pub open spec fn perfect(self) -> bool {
        &&& forall|a: (int, int), b: (int, int)|
            self.contains(a) && self.contains(b) ==> #[trigger] self.connected(a, b)
        &&& self.acyclic()
        &&& self.passage_count() == self.rows * self.columns - 1
    }
}

/// Every cell is connected to itself.
pub proof fn lemma_connected_self(g: Grid, a: (int, int))
    requires
        g.contains(a),
    ensures
        g.connected(a, a),
{
    assert(g.walks(seq![a], a, a));
}

/// A cell is connected to the neighbour behind an open passage.
pub proof fn lemma_connected_step(g: Grid, a: (int, int), d: Direction)
    requires
        g.passage(a, d),
        d != Direction::Nowhere,
    ensures
        g.connected(a, step(a, d)),
{
    let w = seq![a, step(a, d)];
    assert(g.hop(w, 0));
    assert(g.walks(w, a, step(a, d)));
}

/// Walks can be joined end to end.
pub proof fn lemma_connected_trans(g: Grid, a: (int, int), b: (int, int), c: (int, int))
    requires
        g.connected(a, b),
        g.connected(b, c),
    ensures
        g.connected(a, c),
{
    let u = choose|w: Seq<(int, int)>| #[trigger] g.walks(w, a, b);
    let v = choose|w: Seq<(int, int)>| #[trigger] g.walks(w, b, c);
    let w = u + v.subrange(1, v.len() as int);
    assert forall|i: int| 0 <= i < w.len() - 1 implies #[trigger] g.hop(w, i) by {
        if i < u.len() - 1 {
            assert(g.hop(u, i));
        } else {
            assert(g.hop(v, i - (u.len() - 1)));
        }
    }
    assert(g.walks(w, a, c));
}

/// A walk stays a walk when passages are added.
pub proof fn lemma_connected_grows(g: Grid, h: Grid, a: (int, int), b: (int, int))
    requires
        g.rows == h.rows,
        g.columns == h.columns,
        forall|p: (int, int), d: Direction| #[trigger] g.passage(p, d) ==> h.passage(p, d),
        g.connected(a, b),
    ensures
        h.connected(a, b),
{
    let w = choose|w: Seq<(int, int)>| #[trigger] g.walks(w, a, b);
    assert forall|i: int| 0 <= i < w.len() - 1 implies #[trigger] h.hop(w, i) by {
        assert(g.hop(w, i));
    }
    assert(h.walks(w, a, b));
}

/// Where a passage leads forth, one leads back.
pub proof fn lemma_joined_back(g: Grid, a: (int, int), b: (int, int))
    requires
        g.wf(),
        g.joined(a, b),
    ensures
        g.joined(b, a),
{
    let d = if g.passage(a, Direction::Up) && b == step(a, Direction::Up) {
        Direction::Up
    } else if g.passage(a, Direction::Right) && b == step(a, Direction::Right) {
        Direction::Right
    } else if g.passage(a, Direction::Down) && b == step(a, Direction::Down) {
        Direction::Down
    } else {
        Direction::Left
    };
    lemma_doors_agree(g, a, d);
    lemma_opposite_undoes(d);
    assert(g.passage(b, d.opposite()) && a == step(b, d.opposite()));
}

/// In a maze, every walk can be walked backwards.
pub proof fn lemma_connected_back(g: Grid, a: (int, int), b: (int, int))
    requires
        g.wf(),
        g.connected(a, b),
    ensures
        g.connected(b, a),
{
    let w = choose|w: Seq<(int, int)>| #[trigger] g.walks(w, a, b);
    let r = w.reverse();
    let last = w.len() - 1;
    assert forall|i: int| 0 <= i < r.len() - 1 implies #[trigger] g.hop(r, i) by {
        assert(g.hop(w, last - i - 1));
        lemma_joined_back(g, w[last - i - 1], w[last - i]);
    }
    if last > 0 {
        assert(g.hop(w, last - 1));
    }
    assert(g.walks(r, b, a));
}

/// A grid without passages has no cycle.
pub proof fn lemma_no_passage_no_cycle(g: Grid)
    requires
        forall|p: (int, int), d: Direction| !#[trigger] g.passage(p, d),
    ensures
        g.acyclic(),
{
    assert forall|w: Seq<(int, int)>| !#[trigger] g.is_cycle(w) by {
        if g.is_cycle(w) {
            assert(g.hop(w, 0));
        }
    }
}

/// A grid that has no passage but those of an acyclic grid is acyclic.
pub proof fn lemma_fewer_passages_no_cycle(g: Grid, h: Grid)
    requires
        g.rows == h.rows,
        g.columns == h.columns,
        g.acyclic(),
        forall|p: (int, int), d: Direction| #[trigger] h.passage(p, d) ==> g.passage(p, d),
    ensures
        h.acyclic(),
{
    assert forall|w: Seq<(int, int)>| !#[trigger] h.is_cycle(w) by {
        if h.is_cycle(w) {
            assert forall|i: int| 0 <= i < w.len() - 1 implies #[trigger] g.hop(w, i) by {
                assert(h.hop(w, i));
            }
            assert(g.is_cycle(w));
        }
    }
}

/// A walk never leaves the side on which it began, where no passage leads
/// from one side to the other.
pub proof fn lemma_walk_keeps_side(
    g: Grid,
    w: Seq<(int, int)>,
    side: spec_fn((int, int)) -> bool,
    i: int,
)
    requires
        g.is_walk(w),
        forall|p: (int, int), d: Direction| #[trigger]
            g.passage(p, d) ==> side(p) == side(step(p, d)),
        0 <= i < w.len(),
    ensures
        side(w[i]) == side(w[0]),
    decreases i,
{
    if i > 0 {
        lemma_walk_keeps_side(g, w, side, i - 1);
        assert(g.hop(w, i - 1));
    }
}

/// Joining two parts of an acyclic grid, between which no passage led, by
/// one new passage leaves the grid acyclic.
pub proof fn lemma_bridge_no_cycle(
    g: Grid,
    h: Grid,
    a: (int, int),
    d: Direction,
    side: spec_fn((int, int)) -> bool,
)
    requires
        g.rows == h.rows,
        g.columns == h.columns,
        g.acyclic(),
        forall|p: (int, int), e: Direction| #[trigger]
            h.passage(p, e) ==> g.passage(p, e) || (p == a && e == d) || (p == step(a, d) && e
                == d.opposite()),
        forall|p: (int, int), e: Direction| #[trigger]
            g.passage(p, e) ==> side(p) == side(step(p, e)),
        side(a) != side(step(a, d)),
    ensures
        h.acyclic(),
{
    let b = step(a, d);
    lemma_opposite_undoes(d);
    assert forall|w: Seq<(int, int)>| !#[trigger] h.is_cycle(w) by {
        if h.is_cycle(w) {
            let k = w.len() - 1;
            let bridge = |i: int| (w[i] == a && w[i + 1] == b) || (w[i] == b && w[i + 1] == a);
            assert forall|i: int| 0 <= i < k && !bridge(i) implies #[trigger] g.hop(w, i) by {
                assert(h.hop(w, i));
            }
            if exists|i: int| 0 <= i < k && #[trigger] bridge(i) {
                let i = choose|i: int| 0 <= i < k && #[trigger] bridge(i);
                // The rest of the cycle leads from one end of the bridge to
                // the other without crossing it.
                let u = w.subrange(i + 1, k + 1) + w.subrange(1, i + 1);
                assert(u.len() == k);
                assert(u[0] == w[i + 1]);
                assert(u[k - 1] == w[i]) by {
                    if i == 0 {
                        assert(u[k - 1] == w[k]);
                    }
                }
                assert forall|j: int| 0 <= j < u.len() - 1 implies #[trigger] g.hop(u, j) by {
                    let m = if j < k - i - 1 {
                        i + 1 + j
                    } else {
                        j - (k - i - 1)
                    };
                    assert(0 <= m < k && m != i);
                    assert(u[j] == w[m] || (m == 0 && u[j] == w[k]));
                    assert(u[j + 1] == w[m + 1]);
                    if bridge(m) {
                        // A second crossing would bring the cycle through a
                        // cell twice.
                        let low = if i + 1 < k {
                            i + 1
                        } else {
                            0
                        };
                        let up = if m + 1 < k {
                            m + 1
                        } else {
                            0
                        };
                        assert(w[low] == w[i + 1]);
                        assert(w[up] == w[m + 1]);
                        assert(w[m] != w[i]);
                        assert(w[m] == w[low]);
                        assert(w[up] == w[i]);
                        assert(m == low);
                        assert(up == i);
                    }
                    assert(g.hop(w, m));
                }
                assert(g.contains(u[0])) by {
                    assert(h.hop(w, i));
                }
                assert(g.is_walk(u));
                lemma_walk_keeps_side(g, u, side, k - 1);
            } else {
                assert forall|i: int| 0 <= i < w.len() - 1 implies #[trigger] g.hop(w, i) by {
                    assert(!bridge(i));
                }
                assert(g.is_cycle(w));
            }
        }
    }
}

/// The first cell of `u`, from its `start`-th on, that lies on `v` too.
proof fn lemma_first_meeting(u: Seq<(int, int)>, v: Seq<(int, int)>, start: int) -> (j: int)
    requires
        1 <= start < u.len(),
        v.contains(u[u.len() - 1]),
        forall|i: int| 1 <= i < start ==> !v.contains(#[trigger] u[i]),
    ensures
        start <= j < u.len(),
        v.contains(u[j]),
        forall|i: int| 1 <= i < j ==> !v.contains(#[trigger] u[i]),
    decreases u.len() - start,
{
    if v.contains(u[start]) {
        start
    } else {
        lemma_first_meeting(u, v, start + 1)
    }
}

/// In a maze without cycles, two simple walks between the same two cells are
/// the same walk: there is one way, and no other, from a cell to another.
pub proof fn lemma_single_walk(
    g: Grid,
    u: Seq<(int, int)>,
    v: Seq<(int, int)>,
    a: (int, int),
    b: (int, int),
)
    requires
        g.wf(),
        g.acyclic(),
        g.is_simple_walk(u),
        g.is_simple_walk(v),
        g.walks(u, a, b),
        g.walks(v, a, b),
    ensures
        u == v,
    decreases u.len(),
{
    if u.len() == 1 || v.len() == 1 {
        assert(u.len() == 1 && v.len() == 1);
        assert(u =~= v);
    } else if u[1] == v[1] {
        let u_rest = u.subrange(1, u.len() as int);
        let v_rest = v.subrange(1, v.len() as int);
        assert(g.is_simple_walk(u_rest)) by {
            assert(g.hop(u, 0));
            assert forall|i: int| 0 <= i < u_rest.len() - 1 implies #[trigger] g.hop(u_rest, i) by {
                assert(g.hop(u, i + 1));
            }
        }
        assert(g.is_simple_walk(v_rest)) by {
            assert(g.hop(v, 0));
            assert forall|i: int| 0 <= i < v_rest.len() - 1 implies #[trigger] g.hop(v_rest, i) by {
                assert(g.hop(v, i + 1));
            }
        }
        lemma_single_walk(g, u_rest, v_rest, u[1], b);
        assert(u =~= seq![a] + u_rest);
        assert(v =~= seq![a] + v_rest);
    } else {
        // The walks part at once. Where the first next comes upon the
        // second, the two close a cycle.
        assert(v.contains(u[u.len() - 1])) by {
            assert(v[v.len() - 1] == u[u.len() - 1]);
        }
        let j = lemma_first_meeting(u, v, 1);
        let m = choose|m: int| 0 <= m < v.len() && v[m] == u[j];
        assert(m >= 1);
        assert(j + m >= 3);
        let back = v.subrange(0, m).reverse();
        let c = u.subrange(0, j + 1) + back;
        assert(c.len() == j + 1 + m);
        assert forall|i: int| 0 <= i < c.len() - 1 implies #[trigger] g.hop(c, i) by {
            if i < j {
                assert(g.hop(u, i));
            } else {
                let t = m - 1 - (i - j);
                assert(0 <= t < m);
                assert(c[i + 1] == v[t]);
                assert(c[i] == v[t + 1]);
                assert(g.hop(v, t));
                lemma_joined_back(g, v[t], v[t + 1]);
            }
        }
        assert forall|x: int, y: int| 0 <= x < y < c.len() - 1 implies c[x] != c[y] by {
            if y > j {
                let t = m - 1 - (y - j - 1);
                assert(c[y] == v[t]);
                assert(1 <= t < m);
                if x > j {
                    let s = m - 1 - (x - j - 1);
                    assert(c[x] == v[s]);
                } else if x == j {
                    assert(c[x] == v[m]);
                } else if x == 0 {
                    assert(c[x] == v[0]);
                } else {
                    assert(c[x] == u[x]);
                    assert(!v.contains(u[x]));
                    assert(v.contains(v[t]));
                }
            }
        }
        assert(g.is_cycle(c));
    }
}

/// A walk that comes through a cell twice can leave out what lies between:
/// every walk holds a simple walk between the same two cells.
pub proof fn lemma_simple_walk_within(g: Grid, w: Seq<(int, int)>, a: (int, int), b: (int, int)) -> (s:
    Seq<(int, int)>)
    requires
        g.walks(w, a, b),
    ensures
        g.is_simple_walk(s),
        g.walks(s, a, b),
    decreases w.len(),
{
    if forall|i: int, j: int| 0 <= i < j < w.len() ==> w[i] != w[j] {
        w
    } else {
        let (i, j) = choose|i: int, j: int| 0 <= i < j < w.len() && w[i] == w[j];
        let shorter = w.subrange(0, i) + w.subrange(j, w.len() as int);
        assert forall|x: int| 0 <= x < shorter.len() - 1 implies #[trigger] g.hop(shorter, x) by {
            if x < i - 1 {
                assert(g.hop(w, x));
            } else if x == i - 1 {
                assert(shorter[x + 1] == w[j]);
                assert(g.hop(w, x));
            } else {
                assert(shorter[x] == w[j + (x - i)]);
                assert(shorter[x + 1] == w[j + (x - i) + 1]);
                assert(g.hop(w, j + (x - i)));
            }
        }
        assert(shorter[0] == a) by {
            if i == 0 {
                assert(shorter[0] == w[j]);
            }
        }
        assert(shorter[shorter.len() - 1] == w[w.len() - 1]);
        lemma_simple_walk_within(g, shorter, a, b)
    }
}

/// In a perfect maze there is exactly one simple walk from any cell to any
/// other.
pub proof fn lemma_perfect_single_way(g: Grid, a: (int, int), b: (int, int))
    requires
        g.wf(),
        g.perfect(),
        g.contains(a),
        g.contains(b),
    ensures
        g.single_way(a, b),
{
    assert(g.connected(a, b));
    let w = choose|w: Seq<(int, int)>| #[trigger] g.walks(w, a, b);
    let s = lemma_simple_walk_within(g, w, a, b);
    assert forall|v: Seq<(int, int)>| #[trigger]
        g.is_simple_walk(v) && g.walks(v, a, b) implies v == s by {
        lemma_single_walk(g, v, s, a, b);
    }
}

} // verus!
