//! The grid model: nodes, the maze, and its mutation and query operations.

use vstd::prelude::*;

verus! {

/// One space of the maze. `passable` is false on walls; `searched` records
/// that the solver has visited the node (kept for display even after
/// backtracking); `in_path` marks nodes of the candidate path of the active
/// descent, and after a successful search it traces the solution; `is_start`
/// and `is_end` mark the designated entry and exit nodes.
#[derive(Clone, Copy, Debug, PartialEq, Eq, Structural)]
pub struct Node {
    pub passable: bool,
    pub in_path: bool,
    pub searched: bool,
    pub is_start: bool,
    pub is_end: bool,
}

impl Node {
    /// The state every node starts in: passable, with all flags clear.
    pub open spec fn spec_default() -> Node {
        Node { passable: true, in_path: false, searched: false, is_start: false, is_end: false }
    }
}

impl Default for Node {
    fn default() -> (n: Node)
        ensures
            n == Node::spec_default(),
    {
        Node { passable: true, in_path: false, searched: false, is_start: false, is_end: false }
    }
}

/// A rectangular maze: `rows` x `cols` nodes, plus the start and end
/// coordinates (row, column pairs).
pub struct Maze {
    pub hallways: Vec<Vec<Node>>,
    pub rows: usize,
    pub cols: usize,
    pub start: (usize, usize),
    pub end: (usize, usize),
}

impl Maze {
    /// The node at row `r`, column `c` (spec view).
    pub open spec fn node(&self, r: int, c: int) -> Node {
        self.hallways@[r]@[c]
    }

    /// Whether (r, c) lies inside the grid.
    pub open spec fn in_bounds(&self, r: int, c: int) -> bool {
        0 <= r < self.rows && 0 <= c < self.cols
    }

    /// The start coordinate as a pair of mathematical integers.
    pub open spec fn start_coord(&self) -> (int, int) {
        (self.start.0 as int, self.start.1 as int)
    }

    /// The end coordinate as a pair of mathematical integers.
    pub open spec fn end_coord(&self) -> (int, int) {
        (self.end.0 as int, self.end.1 as int)
    }

    /// Well-formedness: the grid really is `rows` x `cols`, both dimensions
    /// are positive, and the recorded start and end lie in bounds.
    pub open spec fn wf(&self) -> bool {
        &&& self.rows > 0
        &&& self.cols > 0
        &&& self.hallways@.len() == self.rows
        &&& forall|r: int| 0 <= r < self.rows ==> (#[trigger] self.hallways@[r])@.len() == self.cols
        &&& self.in_bounds(self.start.0 as int, self.start.1 as int)
        &&& self.in_bounds(self.end.0 as int, self.end.1 as int)
    }

    /// Create a maze with every node in its default state and start and end
    /// both at the origin.
    pub fn create(rows: usize, cols: usize) -> (m: Maze)
        requires
            rows > 0,
            cols > 0,
        ensures
            m.wf(),
            m.rows == rows,
            m.cols == cols,
            m.start == (0usize, 0usize),
            m.end == (0usize, 0usize),
            forall|r: int, c: int| m.in_bounds(r, c) ==> #[trigger] m.node(r, c)
                == Node::spec_default(),
    {
        let mut hallways: Vec<Vec<Node>> = Vec::new();
        let mut r: usize = 0;
        while r < rows
            invariant
                r <= rows,
                hallways@.len() == r,
                forall|i: int| 0 <= i < r ==> (#[trigger] hallways@[i])@.len() == cols,
                forall|i: int, j: int|
                    0 <= i < r && 0 <= j < cols ==> (#[trigger] hallways@[i]@[j])
                        == Node::spec_default(),
            decreases rows - r,
        {
            let mut row: Vec<Node> = Vec::new();
            let mut c: usize = 0;
            while c < cols
                invariant
                    c <= cols,
                    row@.len() == c,
                    forall|j: int| 0 <= j < c ==> #[trigger] row@[j] == Node::spec_default(),
                decreases cols - c,
            {
                row.push(Node::default());
                c = c + 1;
            }
            hallways.push(row);
            r = r + 1;
        }
        Maze { hallways, rows, cols, start: (0, 0), end: (0, 0) }
    }

    /// Read the node at an in-bounds coordinate.
    pub fn get(&self, row: usize, col: usize) -> (n: Node)
        requires
            self.wf(),
            self.in_bounds(row as int, col as int),
        ensures
            n == self.node(row as int, col as int),
    {
        self.hallways[row][col]
    }

    /// Overwrite the node at an in-bounds coordinate; every other node and
    /// all remaining fields keep their values.
    pub fn put(&mut self, row: usize, col: usize, n: Node)
        requires
            old(self).wf(),
            old(self).in_bounds(row as int, col as int),
        ensures
            final(self).wf(),
            final(self).rows == old(self).rows,
            final(self).cols == old(self).cols,
            final(self).start == old(self).start,
            final(self).end == old(self).end,
            final(self).node(row as int, col as int) == n,
            forall|r: int, c: int|
                old(self).in_bounds(r, c) && !(r == row as int && c == col as int)
                    ==> #[trigger] final(self).node(r, c) == old(self).node(r, c),
    {
        self.hallways[row].set(col, n);
    }

    /// Mark the node at (row, col) as a wall. An out-of-bounds request is
    /// silently ignored: the maze is left exactly as it was.
    pub fn set_wall(&mut self, row: usize, col: usize)
        requires
            old(self).wf(),
        ensures
            final(self).wf(),
            final(self).rows == old(self).rows,
            final(self).cols == old(self).cols,
            final(self).start == old(self).start,
            final(self).end == old(self).end,
            old(self).in_bounds(row as int, col as int) ==> final(self).node(
                row as int,
                col as int,
            ) == (Node { passable: false, ..old(self).node(row as int, col as int) }),
            forall|r: int, c: int|
                old(self).in_bounds(r, c) && !(r == row as int && c == col as int)
                    ==> #[trigger] final(self).node(r, c) == old(self).node(r, c),
    {
        if row < self.rows && col < self.cols {
            let mut n = self.get(row, col);
            n.passable = false;
            self.put(row, col, n);
        }
    }

    /// Record (row, col) as the start coordinate and flag its node.
    /// The coordinate must be in bounds: that is the caller's duty.
    pub fn set_start(&mut self, row: usize, col: usize)
        requires
            old(self).wf(),
            old(self).in_bounds(row as int, col as int),
        ensures
            final(self).wf(),
            final(self).rows == old(self).rows,
            final(self).cols == old(self).cols,
            final(self).start == (row, col),
            final(self).end == old(self).end,
            final(self).node(row as int, col as int) == (Node {
                is_start: true,
                ..old(self).node(row as int, col as int)
            }),
            forall|r: int, c: int|
                old(self).in_bounds(r, c) && !(r == row as int && c == col as int)
                    ==> #[trigger] final(self).node(r, c) == old(self).node(r, c),
    {
        self.start = (row, col);
        let mut n = self.get(row, col);
        n.is_start = true;
        self.put(row, col, n);
    }

    /// Record (row, col) as the end coordinate and flag its node.
    /// The coordinate must be in bounds: that is the caller's duty.
    pub fn set_end(&mut self, row: usize, col: usize)
        requires
            old(self).wf(),
            old(self).in_bounds(row as int, col as int),
        ensures
            final(self).wf(),
            final(self).rows == old(self).rows,
            final(self).cols == old(self).cols,
            final(self).start == old(self).start,
            final(self).end == (row, col),
            final(self).node(row as int, col as int) == (Node {
                is_end: true,
                ..old(self).node(row as int, col as int)
            }),
            forall|r: int, c: int|
                old(self).in_bounds(r, c) && !(r == row as int && c == col as int)
                    ==> #[trigger] final(self).node(r, c) == old(self).node(r, c),
    {
        self.end = (row, col);
        let mut n = self.get(row, col);
        n.is_end = true;
        self.put(row, col, n);
    }
}

} // verus!
