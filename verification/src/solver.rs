//! The search engine: recursive depth-first descent with backtracking.

use vstd::prelude::*;

use crate::grid::Maze;
use crate::grid::Node;

verus! {

/// Two coordinates are 4-directionally adjacent.
pub open spec fn adjacent(a: (int, int), b: (int, int)) -> bool {
    ||| (b.0 == a.0 + 1 && b.1 == a.1)
    ||| (b.0 == a.0 - 1 && b.1 == a.1)
    ||| (b.0 == a.0 && b.1 == a.1 - 1)
    ||| (b.0 == a.0 && b.1 == a.1 + 1)
}

/// `p` walks through `m` from `from` to `to`: it is nonempty, every node on
/// it is in bounds, passable and not already flagged `in_path` in `m`, and
/// consecutive coordinates are 4-directionally adjacent.
pub open spec fn path_between(
    m: Maze,
    p: Seq<(int, int)>,
    from: (int, int),
    to: (int, int),
) -> bool {
    &&& p.len() >= 1
    &&& p[0] == from
    &&& p[p.len() - 1] == to
    &&& (forall|i: int| 0 <= i < p.len() ==> m.in_bounds((#[trigger] p[i]).0, p[i].1))
    &&& (forall|i: int| 0 <= i < p.len() ==> m.node((#[trigger] p[i]).0, p[i].1).passable)
    &&& (forall|i: int| 0 <= i < p.len() ==> !m.node((#[trigger] p[i]).0, p[i].1).in_path)
    &&& (forall|i: int| 0 <= i < p.len() - 1 ==> adjacent(#[trigger] p[i], p[i + 1]))
}

/// No coordinate occurs twice in `p`.
pub open spec fn no_repeats(p: Seq<(int, int)>) -> bool {
    forall|i: int, j: int| 0 <= i < j < p.len() ==> p[i] != p[j]
}

/// `to` can be reached from `from` through passable nodes of `m` that are
/// not already flagged `in_path`.
pub open spec fn reachable(m: Maze, from: (int, int), to: (int, int)) -> bool {
    exists|p: Seq<(int, int)>| path_between(m, p, from, to)
}

/// Searching never moves walls or markers: `b` has the same dimensions,
/// start and end as `a`, and every node keeps its `passable`, `is_start`
/// and `is_end` flags.
pub open spec fn same_shape(a: Maze, b: Maze) -> bool {
    &&& b.rows == a.rows
    &&& b.cols == a.cols
    &&& b.start == a.start
    &&& b.end == a.end
    &&& forall|r: int, c: int|
        a.in_bounds(r, c) ==> {
            &&& (#[trigger] b.node(r, c)).passable == a.node(r, c).passable
            &&& b.node(r, c).is_start == a.node(r, c).is_start
            &&& b.node(r, c).is_end == a.node(r, c).is_end
        }
}

/// Every node searched in `a` is still searched in `b`.
pub open spec fn searched_monotone(a: Maze, b: Maze) -> bool {
    forall|r: int, c: int|
        a.in_bounds(r, c) && a.node(r, c).searched ==> (#[trigger] b.node(r, c)).searched
}

/// Every node has the same `in_path` flag in `a` and in `b`.
pub open spec fn same_in_path(a: Maze, b: Maze) -> bool {
    forall|r: int, c: int|
        a.in_bounds(r, c) ==> (#[trigger] b.node(r, c)).in_path == a.node(r, c).in_path
}

/// Going from `a` to `b`, exactly the coordinates of `p` were added to the
/// set of nodes flagged `in_path`.
pub open spec fn marks_path(a: Maze, b: Maze, p: Seq<(int, int)>) -> bool {
    forall|r: int, c: int|
        a.in_bounds(r, c) ==> ((#[trigger] b.node(r, c)).in_path <==> a.node(r, c).in_path
            || p.contains((r, c)))
}

/// How many of the first `n` nodes of a row are not flagged `in_path`.
pub open spec fn row_free(row: Seq<Node>, n: int) -> nat
    decreases n,
{
    if n <= 0 {
        0
    } else {
        row_free(row, n - 1) + if row[n - 1].in_path {
            0nat
        } else {
            1nat
        }
    }
}

/// How many nodes of the first `n` rows of a grid are not flagged `in_path`.
pub open spec fn grid_free(g: Seq<Vec<Node>>, n: int) -> nat
    decreases n,
{
    if n <= 0 {
        0
    } else {
        grid_free(g, n - 1) + row_free(g[n - 1]@, g[n - 1]@.len() as int)
    }
}

/// The termination measure of the search: how many nodes of the maze are
/// not yet committed to the candidate path.
pub open spec fn free_cells(m: Maze) -> nat {
    grid_free(m.hallways@, m.hallways@.len() as int)
}

proof fn lemma_row_free_congruent(a: Seq<Node>, b: Seq<Node>, n: int)
    requires
        n <= a.len(),
        n <= b.len(),
        forall|j: int| 0 <= j < n ==> (#[trigger] a[j]).in_path == b[j].in_path,
    ensures
        row_free(a, n) == row_free(b, n),
    decreases n,
{
    if n > 0 {
        lemma_row_free_congruent(a, b, n - 1);
    }
}

proof fn lemma_row_free_mark(a: Seq<Node>, b: Seq<Node>, c: int, n: int)
    requires
        n <= a.len(),
        n <= b.len(),
        0 <= c < n,
        forall|j: int| 0 <= j < n && j != c ==> (#[trigger] a[j]).in_path == b[j].in_path,
        !a[c].in_path,
        b[c].in_path,
    ensures
        row_free(b, n) == row_free(a, n) - 1,
    decreases n,
{
    if c == n - 1 {
        lemma_row_free_congruent(a, b, n - 1);
    } else {
        lemma_row_free_mark(a, b, c, n - 1);
    }
}

proof fn lemma_grid_free_congruent(a: Seq<Vec<Node>>, b: Seq<Vec<Node>>, n: int)
    requires
        n <= a.len(),
        n <= b.len(),
        forall|i: int| 0 <= i < n ==> (#[trigger] a[i])@.len() == b[i]@.len(),
        forall|i: int, j: int|
            0 <= i < n && 0 <= j < a[i]@.len() ==> (#[trigger] a[i]@[j]).in_path
                == b[i]@[j].in_path,
    ensures
        grid_free(a, n) == grid_free(b, n),
    decreases n,
{
    if n > 0 {
        lemma_grid_free_congruent(a, b, n - 1);
        lemma_row_free_congruent(a[n - 1]@, b[n - 1]@, a[n - 1]@.len() as int);
    }
}

proof fn lemma_grid_free_mark(a: Seq<Vec<Node>>, b: Seq<Vec<Node>>, r: int, c: int, n: int)
    requires
        n <= a.len(),
        n <= b.len(),
        forall|i: int| 0 <= i < n ==> (#[trigger] a[i])@.len() == b[i]@.len(),
        forall|i: int, j: int|
            0 <= i < n && 0 <= j < a[i]@.len() && !(i == r && j == c) ==> (#[trigger] a[i]@[j]).in_path == b[i]@[j].in_path,
        0 <= r < n,
        0 <= c < a[r]@.len(),
        !a[r]@[c].in_path,
        b[r]@[c].in_path,
    ensures
        grid_free(b, n) == grid_free(a, n) - 1,
    decreases n,
{
    if r == n - 1 {
        lemma_grid_free_congruent(a, b, n - 1);
        lemma_row_free_mark(a[r]@, b[r]@, c, a[r]@.len() as int);
    } else {
        lemma_grid_free_mark(a, b, r, c, n - 1);
        lemma_row_free_congruent(a[n - 1]@, b[n - 1]@, a[n - 1]@.len() as int);
    }
}

/// Two equal-shaped mazes whose `in_path` flags agree everywhere have the
/// same number of free nodes.
proof fn lemma_free_cells_congruent(a: Maze, b: Maze)
    requires
        a.wf(),
        b.wf(),
        a.rows == b.rows,
        a.cols == b.cols,
        same_in_path(a, b),
    ensures
        free_cells(a) == free_cells(b),
{
    assert forall|i: int, j: int|
        0 <= i < a.hallways@.len() && 0 <= j < a.hallways@[i]@.len() implies (#[trigger] a.hallways@[i]@[j]).in_path == b.hallways@[i]@[j].in_path by {
        assert(a.node(i, j) == a.hallways@[i]@[j]);
        assert(b.node(i, j).in_path == a.node(i, j).in_path);
    }
    lemma_grid_free_congruent(a.hallways@, b.hallways@, a.hallways@.len() as int);
}

/// Flagging `in_path` on one node that was free lowers the number of free
/// nodes of the maze by exactly one.
proof fn lemma_free_cells_mark(a: Maze, b: Maze, r: int, c: int)
    requires
        a.wf(),
        b.wf(),
        a.rows == b.rows,
        a.cols == b.cols,
        forall|i: int, j: int|
            a.in_bounds(i, j) && !(i == r && j == c) ==> (#[trigger] b.node(i, j)).in_path
                == a.node(i, j).in_path,
        a.in_bounds(r, c),
        !a.node(r, c).in_path,
        b.node(r, c).in_path,
    ensures
        free_cells(b) == free_cells(a) - 1,
{
    assert forall|i: int, j: int|
        0 <= i < a.hallways@.len() && 0 <= j < a.hallways@[i]@.len() && !(i == r && j == c)
        implies (#[trigger] a.hallways@[i]@[j]).in_path == b.hallways@[i]@[j].in_path by {
        assert(a.node(i, j) == a.hallways@[i]@[j]);
        assert(b.node(i, j).in_path == a.node(i, j).in_path);
    }
    lemma_grid_free_mark(a.hallways@, b.hallways@, r, c, a.hallways@.len() as int);
}

/// A one-node path: when the current node is itself the end, marking it
/// yields a simple path from it to the end, and it is the only node newly
/// flagged `in_path`.
proof fn lemma_single_success(m0: Maze, m1: Maze, rc: (int, int))
    requires
        m0.wf(),
        m1.wf(),
        m0.in_bounds(rc.0, rc.1),
        m0.node(rc.0, rc.1).passable,
        !m0.node(rc.0, rc.1).in_path,
        rc == m0.end_coord(),
        forall|r: int, c: int|
            m0.in_bounds(r, c) ==> ((#[trigger] m1.node(r, c)).in_path <==> m0.node(r, c).in_path
                || (r, c) == rc),
    ensures
        exists|p: Seq<(int, int)>|
            path_between(m0, p, rc, m0.end_coord()) && no_repeats(p) && marks_path(m0, m1, p),
{
    let p = seq![rc];
    assert(p[0] == rc);
    assert(path_between(m0, p, rc, m0.end_coord()));
    assert(no_repeats(p));
    assert forall|r: int, c: int|
        m0.in_bounds(r, c) implies ((#[trigger] m1.node(r, c)).in_path <==> m0.node(r, c).in_path
            || p.contains((r, c))) by {
        if (r, c) == rc {
            assert(p[0] == (r, c));
            assert(p.contains((r, c)));
        } else if p.contains((r, c)) {
            let i = choose|i: int| 0 <= i < p.len() && p[i] == (r, c);
            assert(i == 0);
        }
    }
    assert(marks_path(m0, m1, p));
}

/// A successful descent into a neighbour extends to a successful descent
/// from the current node: prepending the node to the neighbour's path gives
/// a simple path from the node to the end, and the nodes newly flagged
/// `in_path` are exactly those of the extended path.
proof fn lemma_extend_success(
    m0: Maze,
    m1: Maze,
    mk: Maze,
    mf: Maze,
    rc: (int, int),
    nbr: (int, int),
)
    requires
        m0.wf(),
        m1.wf(),
        mk.wf(),
        m1.rows == m0.rows,
        m1.cols == m0.cols,
        same_shape(m0, mk),
        m0.in_bounds(rc.0, rc.1),
        m0.node(rc.0, rc.1).passable,
        !m0.node(rc.0, rc.1).in_path,
        adjacent(rc, nbr),
        forall|r: int, c: int|
            m0.in_bounds(r, c) ==> ((#[trigger] m1.node(r, c)).in_path <==> m0.node(r, c).in_path
                || (r, c) == rc),
        same_in_path(m1, mk),
        exists|p2: Seq<(int, int)>|
            path_between(mk, p2, nbr, mk.end_coord()) && no_repeats(p2) && marks_path(mk, mf, p2),
    ensures
        exists|p: Seq<(int, int)>|
            path_between(m0, p, rc, m0.end_coord()) && no_repeats(p) && marks_path(m0, mf, p),
{
    let p2 = choose|p2: Seq<(int, int)>|
        path_between(mk, p2, nbr, mk.end_coord()) && no_repeats(p2) && marks_path(mk, mf, p2);
    assert forall|r: int, c: int|
        m0.in_bounds(r, c) implies ((#[trigger] mk.node(r, c)).in_path <==> m0.node(r, c).in_path
            || (r, c) == rc) by {
        assert(mk.node(r, c).in_path == m1.node(r, c).in_path);
    }
    let p = seq![rc] + p2;
    assert(p.len() == 1 + p2.len());
    assert(p[0] == rc);
    assert(p[p.len() - 1] == p2[p2.len() - 1]);
    assert(mk.end_coord() == m0.end_coord());
    assert forall|i: int|
        0 <= i < p.len() implies {
        &&& m0.in_bounds((#[trigger] p[i]).0, p[i].1)
        &&& m0.node(p[i].0, p[i].1).passable
        &&& !m0.node(p[i].0, p[i].1).in_path
        &&& p[i] != rc || i == 0
    } by {
        if i >= 1 {
            let x = p2[i - 1];
            assert(p[i] == x);
            assert(mk.in_bounds(x.0, x.1));
            assert(m0.in_bounds(x.0, x.1));
            assert(mk.node(x.0, x.1).passable);
            assert(m0.node(x.0, x.1).passable);
            assert(!mk.node(x.0, x.1).in_path);
            assert(!(m0.node(x.0, x.1).in_path || (x.0, x.1) == rc));
            assert(x != rc);
        }
    }
    assert forall|i: int| 0 <= i < p.len() - 1 implies adjacent(#[trigger] p[i], p[i + 1]) by {
        if i == 0 {
            assert(p[1] == p2[0]);
            assert(p2[0] == nbr);
        } else {
            assert(p[i] == p2[i - 1]);
            assert(p[i + 1] == p2[i]);
            assert(adjacent(p2[i - 1], p2[i]));
        }
    }
    assert(path_between(m0, p, rc, m0.end_coord()));
    assert forall|i: int, j: int| 0 <= i < j < p.len() implies p[i] != p[j] by {
        if i >= 1 {
            assert(p[i] == p2[i - 1]);
            assert(p[j] == p2[j - 1]);
            assert(p2[i - 1] != p2[j - 1]);
        } else {
            assert(p[j] == p2[j - 1]);
            assert(p[j] != rc);
        }
    }
    assert(no_repeats(p));
    // Membership in the extended path is membership in the tail or being rc.
    assert forall|x: (int, int)| #[trigger] p.contains(x) <==> x == rc || p2.contains(x) by {
        if p.contains(x) {
            let i = choose|i: int| 0 <= i < p.len() && p[i] == x;
            if i >= 1 {
                assert(p2[i - 1] == x);
                assert(p2.contains(x));
            }
        }
        if x == rc {
            assert(p[0] == x);
            assert(p.contains(x));
        }
        if p2.contains(x) {
            let i = choose|i: int| 0 <= i < p2.len() && p2[i] == x;
            assert(p[i + 1] == x);
            assert(p.contains(x));
        }
    }
    assert forall|r: int, c: int|
        m0.in_bounds(r, c) implies ((#[trigger] mf.node(r, c)).in_path <==> m0.node(r, c).in_path
            || p.contains((r, c))) by {
        assert(mk.in_bounds(r, c));
        assert(mf.node(r, c).in_path <==> mk.node(r, c).in_path || p2.contains((r, c)));
        assert(mk.node(r, c).in_path <==> m0.node(r, c).in_path || (r, c) == rc);
        assert(p.contains((r, c)) <==> (r, c) == rc || p2.contains((r, c)));
    }
    assert(marks_path(m0, mf, p));
}

/// Clearing the one node that the descent had marked restores the `in_path`
/// flags exactly to what they were when the descent began.
proof fn lemma_restore(m0: Maze, m1: Maze, m5: Maze, mf: Maze, rc: (int, int))
    requires
        m0.wf(),
        m0.in_bounds(rc.0, rc.1),
        !m0.node(rc.0, rc.1).in_path,
        m1.rows == m0.rows,
        m1.cols == m0.cols,
        forall|r: int, c: int|
            m0.in_bounds(r, c) ==> ((#[trigger] m1.node(r, c)).in_path <==> m0.node(r, c).in_path
                || (r, c) == rc),
        same_in_path(m1, m5),
        !mf.node(rc.0, rc.1).in_path,
        forall|r: int, c: int|
            m0.in_bounds(r, c) && !(r == rc.0 && c == rc.1) ==> #[trigger] mf.node(r, c) == m5.node(
                r,
                c,
            ),
    ensures
        same_in_path(m0, mf),
{
    assert forall|r: int, c: int|
        m0.in_bounds(r, c) implies (#[trigger] mf.node(r, c)).in_path == m0.node(r, c).in_path by {
        if !(r == rc.0 && c == rc.1) {
            assert(mf.node(r, c) == m5.node(r, c));
            assert(m5.node(r, c).in_path == m1.node(r, c).in_path);
        }
    }
}

/// A path is insensitive to `searched` flags and markers: it only reads
/// bounds, walls and `in_path` flags, so it transfers between mazes that
/// agree on those.
proof fn lemma_path_same(a: Maze, b: Maze, p: Seq<(int, int)>, f: (int, int), t: (int, int))
    requires
        a.rows == b.rows,
        a.cols == b.cols,
        forall|r: int, c: int|
            a.in_bounds(r, c) ==> (#[trigger] b.node(r, c)).passable == a.node(r, c).passable,
        same_in_path(a, b),
        path_between(a, p, f, t),
    ensures
        path_between(b, p, f, t),
{
    assert forall|i: int|
        0 <= i < p.len() implies {
        &&& b.in_bounds((#[trigger] p[i]).0, p[i].1)
        &&& b.node(p[i].0, p[i].1).passable
        &&& !b.node(p[i].0, p[i].1).in_path
    } by {
        let x = p[i];
        assert(a.in_bounds(x.0, x.1));
        assert(b.node(x.0, x.1).passable == a.node(x.0, x.1).passable);
        assert(b.node(x.0, x.1).in_path == a.node(x.0, x.1).in_path);
    }
}

/// A path that avoids the one coordinate `rc` transfers to a maze whose
/// `in_path` flags are those of `a` with `rc` added.
proof fn lemma_path_avoid(
    a: Maze,
    b: Maze,
    p: Seq<(int, int)>,
    f: (int, int),
    t: (int, int),
    rc: (int, int),
)
    requires
        a.rows == b.rows,
        a.cols == b.cols,
        forall|r: int, c: int|
            a.in_bounds(r, c) ==> (#[trigger] b.node(r, c)).passable == a.node(r, c).passable,
        forall|r: int, c: int|
            a.in_bounds(r, c) ==> ((#[trigger] b.node(r, c)).in_path <==> a.node(r, c).in_path || (
            r,
            c,
            ) == rc),
        forall|i: int| 0 <= i < p.len() ==> #[trigger] p[i] != rc,
        path_between(a, p, f, t),
    ensures
        path_between(b, p, f, t),
{
    assert forall|i: int|
        0 <= i < p.len() implies {
        &&& b.in_bounds((#[trigger] p[i]).0, p[i].1)
        &&& b.node(p[i].0, p[i].1).passable
        &&& !b.node(p[i].0, p[i].1).in_path
    } by {
        let x = p[i];
        assert(a.in_bounds(x.0, x.1));
        assert(b.node(x.0, x.1).passable == a.node(x.0, x.1).passable);
        assert(b.node(x.0, x.1).in_path <==> a.node(x.0, x.1).in_path || (x.0, x.1) == rc);
        assert(x != rc);
    }
}

/// Any path that leaves `from` for `to != from` has a tail: a path from a
/// neighbour of `from` to `to` that never returns to `from`. It is obtained
/// by cutting the original path after the last visit to `from`.
proof fn lemma_path_tail(m: Maze, q: Seq<(int, int)>, from: (int, int), to: (int, int))
    requires
        path_between(m, q, from, to),
        from != to,
    ensures
        exists|s: Seq<(int, int)>|
            path_between(m, s, s[0], to) && adjacent(from, s[0]) && !s.contains(from),
    decreases q.len(),
{
    assert(q.len() >= 2);
    if exists|j: int| 1 <= j < q.len() && q[j] == from {
        let j = choose|j: int| 1 <= j < q.len() && q[j] == from;
        let q2 = q.subrange(j, q.len() as int);
        assert(q2[0] == q[j]);
        assert(q2[q2.len() - 1] == q[q.len() - 1]);
        assert forall|i: int|
            0 <= i < q2.len() implies {
            &&& m.in_bounds((#[trigger] q2[i]).0, q2[i].1)
            &&& m.node(q2[i].0, q2[i].1).passable
            &&& !m.node(q2[i].0, q2[i].1).in_path
        } by {
            assert(q2[i] == q[j + i]);
        }
        assert forall|i: int| 0 <= i < q2.len() - 1 implies adjacent(#[trigger] q2[i], q2[i + 1]) by {
            assert(q2[i] == q[j + i]);
            assert(q2[i + 1] == q[j + i + 1]);
            assert(adjacent(q[j + i], q[j + i + 1]));
        }
        assert(path_between(m, q2, from, to));
        lemma_path_tail(m, q2, from, to);
    } else {
        let s = q.subrange(1, q.len() as int);
        assert(s[0] == q[1]);
        assert(s[s.len() - 1] == q[q.len() - 1]);
        assert forall|i: int|
            0 <= i < s.len() implies {
            &&& m.in_bounds((#[trigger] s[i]).0, s[i].1)
            &&& m.node(s[i].0, s[i].1).passable
            &&& !m.node(s[i].0, s[i].1).in_path
        } by {
            assert(s[i] == q[1 + i]);
        }
        assert forall|i: int| 0 <= i < s.len() - 1 implies adjacent(#[trigger] s[i], s[i + 1]) by {
            assert(s[i] == q[1 + i]);
            assert(s[i + 1] == q[1 + i + 1]);
            assert(adjacent(q[1 + i], q[1 + i + 1]));
        }
        assert(path_between(m, s, s[0], to));
        assert(adjacent(q[0], q[1]));
        assert(adjacent(from, s[0]));
        assert forall|i: int| 0 <= i < s.len() implies #[trigger] s[i] != from by {
            assert(s[i] == q[1 + i]);
            if s[i] == from {
                assert(1 <= 1 + i < q.len() && q[1 + i] == from);
                assert(exists|j: int| 1 <= j < q.len() && q[j] == from);
            }
        }
        assert(!s.contains(from));
    }
}

/// When every neighbour of the marked node `rc` has been searched without
/// success, the end is not reachable from `rc` at all: any path to the end
/// would have to continue through some neighbour, and its tail would avoid
/// `rc`, contradicting the neighbour's failure.
proof fn lemma_dead_end(m0: Maze, m1: Maze, m2: Maze, m3: Maze, m4: Maze, rc: (int, int))
    requires
        m0.wf(),
        m0.in_bounds(rc.0, rc.1),
        m0.node(rc.0, rc.1).passable,
        !m0.node(rc.0, rc.1).in_path,
        rc != m0.end_coord(),
        same_shape(m0, m1),
        same_shape(m0, m2),
        same_shape(m0, m3),
        same_shape(m0, m4),
        forall|r: int, c: int|
            m0.in_bounds(r, c) ==> ((#[trigger] m1.node(r, c)).in_path <==> m0.node(r, c).in_path
                || (r, c) == rc),
        same_in_path(m1, m2),
        same_in_path(m1, m3),
        same_in_path(m1, m4),
        !reachable(m1, (rc.0 + 1, rc.1), m0.end_coord()),
        rc.0 > 0 ==> !reachable(m2, (rc.0 - 1, rc.1), m0.end_coord()),
        rc.1 > 0 ==> !reachable(m3, (rc.0, rc.1 - 1), m0.end_coord()),
        !reachable(m4, (rc.0, rc.1 + 1), m0.end_coord()),
    ensures
        !reachable(m0, rc, m0.end_coord()),
{
    let to = m0.end_coord();
    if reachable(m0, rc, to) {
        let q = choose|q: Seq<(int, int)>| path_between(m0, q, rc, to);
        lemma_path_tail(m0, q, rc, to);
        let s = choose|s: Seq<(int, int)>|
            path_between(m0, s, s[0], to) && adjacent(rc, s[0]) && !s.contains(rc);
        assert forall|i: int| 0 <= i < s.len() implies #[trigger] s[i] != rc by {
            if s[i] == rc {
                assert(s.contains(rc));
            }
        }
        assert forall|r: int, c: int|
            m0.in_bounds(r, c) implies ((#[trigger] m2.node(r, c)).in_path <==> m0.node(
            r,
            c,
        ).in_path || (r, c) == rc) by {
            assert(m2.node(r, c).in_path == m1.node(r, c).in_path);
        }
        assert forall|r: int, c: int|
            m0.in_bounds(r, c) implies ((#[trigger] m3.node(r, c)).in_path <==> m0.node(
            r,
            c,
        ).in_path || (r, c) == rc) by {
            assert(m3.node(r, c).in_path == m1.node(r, c).in_path);
        }
        assert forall|r: int, c: int|
            m0.in_bounds(r, c) implies ((#[trigger] m4.node(r, c)).in_path <==> m0.node(
            r,
            c,
        ).in_path || (r, c) == rc) by {
            assert(m4.node(r, c).in_path == m1.node(r, c).in_path);
        }
        let h = s[0];
        assert(m0.in_bounds(h.0, h.1));
        if h == (rc.0 + 1, rc.1) {
            lemma_path_avoid(m0, m1, s, h, to, rc);
            assert(reachable(m1, h, to));
        } else if h == (rc.0 - 1, rc.1) {
            assert(rc.0 > 0);
            lemma_path_avoid(m0, m2, s, h, to, rc);
            assert(reachable(m2, h, to));
        } else if h == (rc.0, rc.1 - 1) {
            assert(rc.1 > 0);
            lemma_path_avoid(m0, m3, s, h, to, rc);
            assert(reachable(m3, h, to));
        } else {
            assert(h == (rc.0, rc.1 + 1));
            lemma_path_avoid(m0, m4, s, h, to, rc);
            assert(reachable(m4, h, to));
        }
        assert(false);
    }
}

/// Whether the end can be reached is a function of the maze's dimensions,
/// its walls and its `in_path` flags alone. In particular a failed search,
/// which restores every `in_path` flag and moves no wall, leaves every
/// reachability question — and with it the outcome of a second search —
/// exactly as it was.
pub proof fn lemma_reachable_unchanged(a: Maze, b: Maze, from: (int, int), to: (int, int))
    requires
        a.rows == b.rows,
        a.cols == b.cols,
        forall|r: int, c: int|
            a.in_bounds(r, c) ==> (#[trigger] b.node(r, c)).passable == a.node(r, c).passable,
        same_in_path(a, b),
    ensures
        reachable(a, from, to) == reachable(b, from, to),
{
    if reachable(a, from, to) {
        let p = choose|p: Seq<(int, int)>| path_between(a, p, from, to);
        lemma_path_same(a, b, p, from, to);
        assert(reachable(b, from, to));
    }
    if reachable(b, from, to) {
        let p = choose|p: Seq<(int, int)>| path_between(b, p, from, to);
        assert forall|r: int, c: int|
            b.in_bounds(r, c) implies (#[trigger] a.node(r, c)).passable == b.node(r, c).passable
                && a.node(r, c).in_path == b.node(r, c).in_path by {
            assert(b.node(r, c).passable == a.node(r, c).passable);
            assert(b.node(r, c).in_path == a.node(r, c).in_path);
        }
        lemma_path_same(b, a, p, from, to);
        assert(reachable(a, from, to));
    }
}

/// Nothing is reachable from a coordinate that is out of bounds, a wall,
/// or already committed to a path: no path may even begin there.
proof fn lemma_unreachable_from_invalid(m: Maze, rc: (int, int))
    requires
        !(m.in_bounds(rc.0, rc.1) && m.node(rc.0, rc.1).passable && !m.node(rc.0, rc.1).in_path),
    ensures
        forall|x: (int, int)| !reachable(m, rc, x),
{
    assert forall|x: (int, int)| !reachable(m, rc, x) by {
        if reachable(m, rc, x) {
            let p = choose|p: Seq<(int, int)>| path_between(m, p, rc, x);
            assert(m.in_bounds((p[0]).0, (p[0]).1));
            assert(m.node((p[0]).0, (p[0]).1).passable);
            assert(!m.node((p[0]).0, (p[0]).1).in_path);
        }
    }
}

/// A coordinate that is in bounds, passable and not yet on a path reaches
/// itself, by the one-node path.
proof fn lemma_reach_self(m: Maze, rc: (int, int))
    requires
        m.in_bounds(rc.0, rc.1),
        m.node(rc.0, rc.1).passable,
        !m.node(rc.0, rc.1).in_path,
    ensures
        reachable(m, rc, rc),
{
    let p = seq![rc];
    assert(p[0] == rc);
    assert(path_between(m, p, rc, rc));
}

/// What a neighbour reaches while the node `rc` is marked, `rc` reaches in
/// the unmarked maze: prepend `rc` to the neighbour's path.
proof fn lemma_extend_reach(m0: Maze, mk: Maze, rc: (int, int), nbr: (int, int), x: (int, int))
    requires
        m0.wf(),
        mk.rows == m0.rows,
        mk.cols == m0.cols,
        forall|r: int, c: int|
            m0.in_bounds(r, c) ==> (#[trigger] mk.node(r, c)).passable == m0.node(r, c).passable,
        forall|r: int, c: int|
            m0.in_bounds(r, c) ==> ((#[trigger] mk.node(r, c)).in_path <==> m0.node(r, c).in_path
                || (r, c) == rc),
        m0.in_bounds(rc.0, rc.1),
        m0.node(rc.0, rc.1).passable,
        !m0.node(rc.0, rc.1).in_path,
        adjacent(rc, nbr),
        reachable(mk, nbr, x),
    ensures
        reachable(m0, rc, x),
{
    let s = choose|s: Seq<(int, int)>| path_between(mk, s, nbr, x);
    let p = seq![rc] + s;
    assert(p[0] == rc);
    assert(p[p.len() - 1] == s[s.len() - 1]);
    assert forall|i: int|
        0 <= i < p.len() implies {
        &&& m0.in_bounds((#[trigger] p[i]).0, p[i].1)
        &&& m0.node(p[i].0, p[i].1).passable
        &&& !m0.node(p[i].0, p[i].1).in_path
    } by {
        if i >= 1 {
            let y = s[i - 1];
            assert(p[i] == y);
            assert(mk.in_bounds(y.0, y.1));
            assert(m0.in_bounds(y.0, y.1));
            assert(mk.node(y.0, y.1).passable);
            assert(!mk.node(y.0, y.1).in_path);
        }
    }
    assert forall|i: int| 0 <= i < p.len() - 1 implies adjacent(#[trigger] p[i], p[i + 1]) by {
        if i == 0 {
            assert(p[1] == s[0]);
            assert(s[0] == nbr);
        } else {
            assert(p[i] == s[i - 1]);
            assert(p[i + 1] == s[i]);
            assert(adjacent(s[i - 1], s[i]));
        }
    }
    assert(path_between(m0, p, rc, x));
}

/// When the node `rc` is a dead end, the nodes flagged `searched` have
/// grown by exactly the nodes reachable from `rc`: each visited neighbour
/// accounted for what it reaches while `rc` was marked, and a path from
/// `rc` continues, after its last visit to `rc`, through some neighbour.
proof fn lemma_dead_end_searched(
    m0: Maze,
    m1: Maze,
    m2: Maze,
    m3: Maze,
    m4: Maze,
    m5: Maze,
    mf: Maze,
    rc: (int, int),
)
    requires
        m0.wf(),
        m0.in_bounds(rc.0, rc.1),
        m0.node(rc.0, rc.1).passable,
        !m0.node(rc.0, rc.1).in_path,
        same_shape(m0, m1),
        same_shape(m0, m2),
        same_shape(m0, m3),
        same_shape(m0, m4),
        forall|r: int, c: int|
            m0.in_bounds(r, c) ==> ((#[trigger] m1.node(r, c)).in_path <==> m0.node(r, c).in_path
                || (r, c) == rc),
        same_in_path(m1, m2),
        same_in_path(m1, m3),
        same_in_path(m1, m4),
        forall|a: int, b: int|
            m0.in_bounds(a, b) ==> ((#[trigger] m1.node(a, b)).searched <==> m0.node(
                a,
                b,
            ).searched || (a, b) == rc),
        forall|a: int, b: int|
            m0.in_bounds(a, b) ==> ((#[trigger] m2.node(a, b)).searched <==> m1.node(
                a,
                b,
            ).searched || reachable(m1, (rc.0 + 1, rc.1), (a, b))),
        rc.0 > 0 ==> (forall|a: int, b: int|
            m0.in_bounds(a, b) ==> ((#[trigger] m3.node(a, b)).searched <==> m2.node(
                a,
                b,
            ).searched || reachable(m2, (rc.0 - 1, rc.1), (a, b)))),
        rc.0 <= 0 ==> m3 == m2,
        rc.1 > 0 ==> (forall|a: int, b: int|
            m0.in_bounds(a, b) ==> ((#[trigger] m4.node(a, b)).searched <==> m3.node(
                a,
                b,
            ).searched || reachable(m3, (rc.0, rc.1 - 1), (a, b)))),
        rc.1 <= 0 ==> m4 == m3,
        forall|a: int, b: int|
            m0.in_bounds(a, b) ==> ((#[trigger] m5.node(a, b)).searched <==> m4.node(
                a,
                b,
            ).searched || reachable(m4, (rc.0, rc.1 + 1), (a, b))),
        forall|a: int, b: int|
            m0.in_bounds(a, b) ==> (#[trigger] mf.node(a, b)).searched == m5.node(a, b).searched,
    ensures
        forall|a: int, b: int|
            m0.in_bounds(a, b) ==> ((#[trigger] mf.node(a, b)).searched <==> m0.node(
                a,
                b,
            ).searched || reachable(m0, rc, (a, b))),
{
    assert forall|r: int, c: int|
        m0.in_bounds(r, c) implies ((#[trigger] m2.node(r, c)).in_path <==> m0.node(
        r,
        c,
    ).in_path || (r, c) == rc) by {
        assert(m2.node(r, c).in_path == m1.node(r, c).in_path);
    }
    assert forall|r: int, c: int|
        m0.in_bounds(r, c) implies ((#[trigger] m3.node(r, c)).in_path <==> m0.node(
        r,
        c,
    ).in_path || (r, c) == rc) by {
        assert(m3.node(r, c).in_path == m1.node(r, c).in_path);
    }
    assert forall|r: int, c: int|
        m0.in_bounds(r, c) implies ((#[trigger] m4.node(r, c)).in_path <==> m0.node(
        r,
        c,
    ).in_path || (r, c) == rc) by {
        assert(m4.node(r, c).in_path == m1.node(r, c).in_path);
    }
    assert forall|a: int, b: int|
        m0.in_bounds(a, b) implies ((#[trigger] mf.node(a, b)).searched <==> m0.node(
        a,
        b,
    ).searched || reachable(m0, rc, (a, b))) by {
        let x = (a, b);
        // Everything the descent searched is reachable from rc.
        if mf.node(a, b).searched && !m0.node(a, b).searched {
            if x == rc {
                lemma_reach_self(m0, rc);
            } else if reachable(m1, (rc.0 + 1, rc.1), x) {
                lemma_extend_reach(m0, m1, rc, (rc.0 + 1, rc.1), x);
            } else if rc.0 > 0 && reachable(m2, (rc.0 - 1, rc.1), x) {
                lemma_extend_reach(m0, m2, rc, (rc.0 - 1, rc.1), x);
            } else if rc.1 > 0 && reachable(m3, (rc.0, rc.1 - 1), x) {
                lemma_extend_reach(m0, m3, rc, (rc.0, rc.1 - 1), x);
            } else {
                assert(reachable(m4, (rc.0, rc.1 + 1), x));
                lemma_extend_reach(m0, m4, rc, (rc.0, rc.1 + 1), x);
            }
        }
        // Everything reachable from rc was searched by the descent.
        if reachable(m0, rc, x) && x != rc {
            let q = choose|q: Seq<(int, int)>| path_between(m0, q, rc, x);
            lemma_path_tail(m0, q, rc, x);
            let s = choose|s: Seq<(int, int)>|
                path_between(m0, s, s[0], x) && adjacent(rc, s[0]) && !s.contains(rc);
            assert forall|i: int| 0 <= i < s.len() implies #[trigger] s[i] != rc by {
                if s[i] == rc {
                    assert(s.contains(rc));
                }
            }
            let h = s[0];
            assert(m0.in_bounds(h.0, h.1));
            if h == (rc.0 + 1, rc.1) {
                lemma_path_avoid(m0, m1, s, h, x, rc);
                assert(reachable(m1, h, x));
            } else if h == (rc.0 - 1, rc.1) {
                assert(rc.0 > 0);
                lemma_path_avoid(m0, m2, s, h, x, rc);
                assert(reachable(m2, h, x));
            } else if h == (rc.0, rc.1 - 1) {
                assert(rc.1 > 0);
                lemma_path_avoid(m0, m3, s, h, x, rc);
                assert(reachable(m3, h, x));
            } else {
                assert(h == (rc.0, rc.1 + 1));
                lemma_path_avoid(m0, m4, s, h, x, rc);
                assert(reachable(m4, h, x));
            }
            assert(mf.node(a, b).searched);
        }
    }
}

/// Failure is idempotent: a failed search leaves a maze on which a second
/// search fails as well and adds nothing: the searched coverage after the
/// second failure is identical to the coverage after the first.
pub proof fn lemma_failed_search_idempotent(a: Maze, b: Maze, c: Maze)
    requires
        a.wf(),
        !reachable(a, a.start_coord(), a.end_coord()),
        // b is what the failed search of `a` leaves behind, by the
        // contract of `solve`:
        same_shape(a, b),
        same_in_path(a, b),
        forall|r: int, s: int|
            a.in_bounds(r, s) ==> ((#[trigger] b.node(r, s)).searched <==> a.node(r, s).searched
                || reachable(a, a.start_coord(), (r, s))),
        // c is what a second, again failed, search of `b` leaves behind:
        forall|r: int, s: int|
            b.in_bounds(r, s) ==> ((#[trigger] c.node(r, s)).searched <==> b.node(r, s).searched
                || reachable(b, b.start_coord(), (r, s))),
    ensures
        // the second search is indeed owed to fail:
        !reachable(b, b.start_coord(), b.end_coord()),
        // and it adds not one node to the searched coverage:
        forall|r: int, s: int|
            a.in_bounds(r, s) ==> (#[trigger] c.node(r, s)).searched == b.node(r, s).searched,
{
    lemma_reachable_unchanged(a, b, a.start_coord(), a.end_coord());
    assert forall|r: int, s: int|
        a.in_bounds(r, s) implies (#[trigger] c.node(r, s)).searched == b.node(r, s).searched by {
        lemma_reachable_unchanged(a, b, a.start_coord(), (r, s));
        assert(b.in_bounds(r, s));
        assert(c.node(r, s).searched <==> b.node(r, s).searched || reachable(
            b,
            b.start_coord(),
            (r, s),
        ));
        if reachable(b, b.start_coord(), (r, s)) {
            assert(reachable(a, a.start_coord(), (r, s)));
            assert(b.node(r, s).searched);
        }
    }
}

/// A maze with no walls and no `in_path` flags is fully connected: between
/// any two in-bounds coordinates there is a path of 4-adjacent passable
/// nodes, namely the one that first walks the column and then the row.
/// With the contract of `solve`, searching such a maze always succeeds.
pub proof fn lemma_no_walls_reachable(m: Maze, from: (int, int), to: (int, int))
    requires
        m.wf(),
        m.in_bounds(from.0, from.1),
        m.in_bounds(to.0, to.1),
        forall|r: int, c: int| m.in_bounds(r, c) ==> (#[trigger] m.node(r, c)).passable,
        forall|r: int, c: int| m.in_bounds(r, c) ==> !(#[trigger] m.node(r, c)).in_path,
    ensures
        reachable(m, from, to),
{
    let dr = if to.0 >= from.0 {
        to.0 - from.0
    } else {
        from.0 - to.0
    };
    let dc = if to.1 >= from.1 {
        to.1 - from.1
    } else {
        from.1 - to.1
    };
    let p = Seq::new(
        (dr + dc + 1) as nat,
        |i: int|
            if i <= dr {
                (
                    if to.0 >= from.0 {
                        from.0 + i
                    } else {
                        from.0 - i
                    },
                    from.1,
                )
            } else {
                (
                    to.0,
                    if to.1 >= from.1 {
                        from.1 + (i - dr)
                    } else {
                        from.1 - (i - dr)
                    },
                )
            },
    );
    assert(p[0] == from);
    assert(p[p.len() - 1] == to);
    assert forall|i: int|
        0 <= i < p.len() implies {
        &&& m.in_bounds((#[trigger] p[i]).0, p[i].1)
        &&& m.node(p[i].0, p[i].1).passable
        &&& !m.node(p[i].0, p[i].1).in_path
    } by {
        assert(m.in_bounds(p[i].0, p[i].1));
    }
    assert forall|i: int| 0 <= i < p.len() - 1 implies adjacent(#[trigger] p[i], p[i + 1]) by {
        if i + 1 <= dr {
            assert(p[i].1 == from.1 && p[i + 1].1 == from.1);
        } else if i == dr {
            assert(p[i] == (to.0, from.1));
        }
    }
    assert(path_between(m, p, from, to));
}

impl Maze {
    /// Depth-first descent from (row, col). On success the nodes newly
    /// flagged `in_path` are exactly a simple path of passable nodes from
    /// (row, col) to the end; on failure every tentative `in_path` mark has
    /// been withdrawn. Nodes reached in bounds, passable and not already on
    /// the path are flagged `searched`, and `searched` flags are never
    /// cleared.
    #[verifier::rlimit(100)]
    #[verifier::spinoff_prover]
    fn solve_rec(&mut self, row: usize, col: usize) -> (found: bool)
        requires
            old(self).wf(),
        ensures
            final(self).wf(),
            same_shape(*old(self), *final(self)),
            searched_monotone(*old(self), *final(self)),
            !found ==> same_in_path(*old(self), *final(self)),
            !found ==> !reachable(
                *old(self),
                (row as int, col as int),
                old(self).end_coord(),
            ),
            !found ==> (forall|a: int, b: int|
                old(self).in_bounds(a, b) ==> ((#[trigger] final(self).node(a, b)).searched
                    <==> old(self).node(a, b).searched || reachable(
                    *old(self),
                    (row as int, col as int),
                    (a, b),
                ))),
            found ==> (exists|p: Seq<(int, int)>|
                path_between(*old(self), p, (row as int, col as int), old(self).end_coord())
                    && no_repeats(p) && marks_path(*old(self), *final(self), p)),
        decreases free_cells(*old(self)),
    {
        let ghost m0 = *self;
        // Outside the grid: fail without side effects. No path can even
        // begin at an out-of-bounds coordinate.
        if row >= self.rows || col >= self.cols {
            proof {
                lemma_unreachable_from_invalid(m0, (row as int, col as int));
            }
            return false;
        }
        let n = self.get(row, col);
        // A wall: fail without side effects. No path can begin on a wall.
        if !n.passable {
            proof {
                lemma_unreachable_from_invalid(m0, (row as int, col as int));
            }
            return false;
        }
        // Looped back onto the current descent: fail without side effects.
        // No path may begin on a node already committed to the path.
        if n.in_path {
            proof {
                lemma_unreachable_from_invalid(m0, (row as int, col as int));
            }
            return false;
        }
        // Commit: the node is visited and tentatively on the path.
        let mut marked = n;
        marked.searched = true;
        marked.in_path = true;
        self.put(row, col, marked);
        let ghost m1 = *self;
        proof {
            lemma_free_cells_mark(m0, m1, row as int, col as int);
        }
        // The end: report success with the path traced so far.
        if row == self.end.0 && col == self.end.1 {
            proof {
                lemma_single_success(m0, m1, (row as int, col as int));
            }
            return true;
        }
        let ghost rc = (row as int, col as int);
        // Descend in a fixed order: down, up, left, right; the first
        // success wins.
        if self.solve_rec(row + 1, col) {
            proof {
                lemma_extend_success(m0, m1, m1, *self, rc, (rc.0 + 1, rc.1));
            }
            return true;
        }
        let ghost m2 = *self;
        proof {
            lemma_free_cells_congruent(m1, m2);
        }
        if row > 0 {
            if self.solve_rec(row - 1, col) {
                proof {
                    lemma_extend_success(m0, m1, m2, *self, rc, (rc.0 - 1, rc.1));
                }
                return true;
            }
        }
        let ghost m3 = *self;
        proof {
            assert(same_in_path(m1, m3));
            lemma_free_cells_congruent(m1, m3);
        }
        if col > 0 {
            if self.solve_rec(row, col - 1) {
                proof {
                    lemma_extend_success(m0, m1, m3, *self, rc, (rc.0, rc.1 - 1));
                }
                return true;
            }
        }
        let ghost m4 = *self;
        proof {
            assert(same_in_path(m1, m4));
            lemma_free_cells_congruent(m1, m4);
        }
        if self.solve_rec(row, col + 1) {
            proof {
                lemma_extend_success(m0, m1, m4, *self, rc, (rc.0, rc.1 + 1));
            }
            return true;
        }
        let ghost m5 = *self;
        proof {
            assert(same_in_path(m1, m5));
        }
        // A dead end in every direction: withdraw the node from the path.
        let mut cleared = self.get(row, col);
        cleared.in_path = false;
        self.put(row, col, cleared);
        proof {
            lemma_restore(m0, m1, m5, *self, rc);
            lemma_dead_end(m0, m1, m2, m3, m4, rc);
            lemma_dead_end_searched(m0, m1, m2, m3, m4, m5, *self, rc);
        }
        false
    }

    /// Search for a path from the start to the end of the maze by
    /// depth-first descent. Returns whether one was found. On success the
    /// nodes flagged `in_path` gained exactly a simple path of passable
    /// nodes from start to end; on failure every `in_path` flag is as it
    /// was before the call. `searched` flags only ever grow, and walls,
    /// dimensions, start and end never change.
    pub fn solve(&mut self) -> (found: bool)
        requires
            old(self).wf(),
        ensures
            final(self).wf(),
            same_shape(*old(self), *final(self)),
            searched_monotone(*old(self), *final(self)),
            !found ==> same_in_path(*old(self), *final(self)),
            !found ==> (forall|a: int, b: int|
                old(self).in_bounds(a, b) ==> ((#[trigger] final(self).node(a, b)).searched
                    <==> old(self).node(a, b).searched || reachable(
                    *old(self),
                    old(self).start_coord(),
                    (a, b),
                ))),
            found ==> (exists|p: Seq<(int, int)>|
                path_between(*old(self), p, old(self).start_coord(), old(self).end_coord())
                    && no_repeats(p) && marks_path(*old(self), *final(self), p)),
            found == reachable(*old(self), old(self).start_coord(), old(self).end_coord()),
            // Walls are impermeable: no wall is ever added to the path.
            forall|r: int, c: int|
                old(self).in_bounds(r, c) && !old(self).node(r, c).passable && !old(self).node(
                    r,
                    c,
                ).in_path ==> !(#[trigger] final(self).node(r, c)).in_path,
    {
        let row = self.start.0;
        let col = self.start.1;
        let found = self.solve_rec(row, col);
        proof {
            if found {
                let p = choose|p: Seq<(int, int)>|
                    path_between(*old(self), p, old(self).start_coord(), old(self).end_coord())
                        && no_repeats(p) && marks_path(*old(self), *final(self), p);
                assert(reachable(*old(self), old(self).start_coord(), old(self).end_coord()));
                assert forall|r: int, c: int|
                    old(self).in_bounds(r, c) && !old(self).node(r, c).passable && !old(self).node(
                        r,
                        c,
                    ).in_path implies !(#[trigger] final(self).node(r, c)).in_path by {
                    if p.contains((r, c)) {
                        let i = choose|i: int| 0 <= i < p.len() && p[i] == (r, c);
                        assert(old(self).node(p[i].0, p[i].1).passable);
                    }
                }
            }
        }
        found
    }
}

} // verus!
