//! Turning a maze template into a populated maze.

use vstd::prelude::*;

use crate::grid::Maze;

verus! {

/// The deserialized form of a maze: a list of wall coordinates, a start
/// coordinate and an end coordinate. A template is consumed once, to
/// populate a grid, and then discarded.
pub struct MazeTemplate {
    pub walls: Vec<(usize, usize)>,
    pub start: (usize, usize),
    pub end: (usize, usize),
}

/// Whether the wall list names the coordinate (r, c).
pub open spec fn lists_wall(walls: Seq<(usize, usize)>, r: int, c: int) -> bool {
    exists|k: int| 0 <= k < walls.len() && walls[k].0 == r && walls[k].1 == c
}

/// Apply a template to a maze: every in-bounds wall coordinate becomes
/// impassable (out-of-bounds wall entries are silently ignored, not an
/// error), and the template's start and end are recorded and their nodes
/// flagged. The template's start and end must be in bounds: that is the
/// caller's duty.
pub fn load_maze(maze: Maze, save: MazeTemplate) -> (m: Maze)
    requires
        maze.wf(),
        maze.in_bounds(save.start.0 as int, save.start.1 as int),
        maze.in_bounds(save.end.0 as int, save.end.1 as int),
    ensures
        m.wf(),
        m.rows == maze.rows,
        m.cols == maze.cols,
        m.start == save.start,
        m.end == save.end,
        forall|r: int, c: int|
            maze.in_bounds(r, c) ==> ((#[trigger] m.node(r, c)).passable <==> maze.node(
                r,
                c,
            ).passable && !lists_wall(save.walls@, r, c)),
        forall|r: int, c: int|
            maze.in_bounds(r, c) ==> ((#[trigger] m.node(r, c)).is_start <==> maze.node(
                r,
                c,
            ).is_start || (r == save.start.0 && c == save.start.1)),
        forall|r: int, c: int|
            maze.in_bounds(r, c) ==> ((#[trigger] m.node(r, c)).is_end <==> maze.node(
                r,
                c,
            ).is_end || (r == save.end.0 && c == save.end.1)),
        forall|r: int, c: int|
            maze.in_bounds(r, c) ==> (#[trigger] m.node(r, c)).in_path == maze.node(r, c).in_path
                && m.node(r, c).searched == maze.node(r, c).searched,
{
    let ghost m0 = maze;
    let mut maze = maze;
    let mut k: usize = 0;
    while k < save.walls.len()
        invariant
            maze.wf(),
            maze.rows == m0.rows,
            maze.cols == m0.cols,
            maze.start == m0.start,
            maze.end == m0.end,
            k <= save.walls@.len(),
            forall|r: int, c: int|
                m0.in_bounds(r, c) ==> ((#[trigger] maze.node(r, c)).passable <==> m0.node(
                    r,
                    c,
                ).passable && !lists_wall(save.walls@.take(k as int), r, c)),
            forall|r: int, c: int|
                m0.in_bounds(r, c) ==> (#[trigger] maze.node(r, c)).in_path == m0.node(
                    r,
                    c,
                ).in_path && maze.node(r, c).searched == m0.node(r, c).searched && maze.node(
                    r,
                    c,
                ).is_start == m0.node(r, c).is_start && maze.node(r, c).is_end == m0.node(
                    r,
                    c,
                ).is_end,
        decreases save.walls@.len() - k,
    {
        let wall = save.walls[k];
        maze.set_wall(wall.0, wall.1);
        k = k + 1;
        proof {
            let w = save.walls@;
            assert forall|r: int, c: int|
                m0.in_bounds(r, c) implies (lists_wall(w.take(k as int), r, c) <==> lists_wall(
                w.take(k as int - 1),
                r,
                c,
            ) || (w[k as int - 1].0 == r && w[k as int - 1].1 == c)) by {
                if lists_wall(w.take(k as int), r, c) {
                    let j = choose|j: int|
                        0 <= j < w.take(k as int).len() && (#[trigger] w.take(k as int)[j]).0 == r
                            && w.take(k as int)[j].1 == c;
                    if j < k as int - 1 {
                        assert(w.take(k as int - 1)[j] == w[j]);
                        assert(lists_wall(w.take(k as int - 1), r, c));
                    }
                }
                if lists_wall(w.take(k as int - 1), r, c) {
                    let j = choose|j: int|
                        0 <= j < w.take(k as int - 1).len() && (#[trigger] w.take(
                            k as int - 1,
                        )[j]).0 == r && w.take(k as int - 1)[j].1 == c;
                    assert(w.take(k as int)[j] == w[j]);
                    assert(lists_wall(w.take(k as int), r, c));
                }
                if w[k as int - 1].0 == r && w[k as int - 1].1 == c {
                    assert(w.take(k as int)[k as int - 1] == w[k as int - 1]);
                    assert(lists_wall(w.take(k as int), r, c));
                }
            }
        }
    }
    proof {
        assert(save.walls@.take(save.walls@.len() as int) =~= save.walls@);
    }
    maze.set_start(save.start.0, save.start.1);
    maze.set_end(save.end.0, save.end.1);
    maze
}

} // verus!
