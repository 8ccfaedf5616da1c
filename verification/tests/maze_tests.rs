use maze_solver::Maze;
use maze_solver::MazeTemplate;
use maze_solver::Node;
use maze_solver::load_maze;

/// Collect the coordinates whose node passes the given flag reader.
fn flagged(m: &Maze, f: fn(Node) -> bool) -> Vec<(usize, usize)> {
    let mut out = Vec::new();
    for r in 0..m.rows {
        for c in 0..m.cols {
            if f(m.get(r, c)) {
                out.push((r, c));
            }
        }
    }
    out
}

fn in_path_cells(m: &Maze) -> Vec<(usize, usize)> {
    flagged(m, |n| n.in_path)
}

fn searched_cells(m: &Maze) -> Vec<(usize, usize)> {
    flagged(m, |n| n.searched)
}

fn adjacent(a: (usize, usize), b: (usize, usize)) -> bool {
    let dr = if a.0 > b.0 { a.0 - b.0 } else { b.0 - a.0 };
    let dc = if a.1 > b.1 { a.1 - b.1 } else { b.1 - a.1 };
    dr + dc == 1
}

#[test]
fn create_gives_default_nodes() {
    let m = Maze::create(2, 3);
    assert_eq!(m.rows, 2);
    assert_eq!(m.cols, 3);
    assert_eq!(m.start, (0, 0));
    assert_eq!(m.end, (0, 0));
    for r in 0..2 {
        for c in 0..3 {
            let n = m.get(r, c);
            assert!(n.passable);
            assert!(!n.in_path);
            assert!(!n.searched);
            assert!(!n.is_start);
            assert!(!n.is_end);
        }
    }
}

#[test]
fn set_wall_out_of_bounds_is_ignored() {
    let mut m = Maze::create(2, 2);
    m.set_wall(5, 0);
    m.set_wall(0, 7);
    for r in 0..2 {
        for c in 0..2 {
            assert!(m.get(r, c).passable);
        }
    }
    m.set_wall(1, 1);
    assert!(!m.get(1, 1).passable);
    assert!(m.get(0, 0).passable);
}

#[test]
fn load_maze_applies_template() {
    let m = Maze::create(2, 2);
    let save = MazeTemplate { walls: vec![(0, 1), (9, 9)], start: (0, 0), end: (1, 1) };
    let m = load_maze(m, save);
    assert_eq!(m.start, (0, 0));
    assert_eq!(m.end, (1, 1));
    assert!(!m.get(0, 1).passable);
    assert!(m.get(0, 0).passable);
    assert!(m.get(1, 0).passable);
    assert!(m.get(1, 1).passable);
    assert!(m.get(0, 0).is_start);
    assert!(m.get(1, 1).is_end);
    assert!(!m.get(1, 0).is_start);
    assert!(!m.get(1, 0).is_end);
}

#[test]
fn three_by_three_no_walls_is_solved() {
    let mut m = Maze::create(3, 3);
    m.set_start(0, 0);
    m.set_end(2, 2);
    assert!(m.solve());
    let path = in_path_cells(&m);
    // Never shorter than the Manhattan distance of 4, so at least 5 nodes.
    assert!(path.len() >= 5);
    assert!(path.contains(&(0, 0)));
    assert!(path.contains(&(2, 2)));
    // The path is connected: away from its two ends every path node
    // touches at least two other path nodes, the ends at least one.
    for &cell in &path {
        let touching = path.iter().filter(|&&other| adjacent(cell, other)).count();
        if cell == (0, 0) || cell == (2, 2) {
            assert!(touching >= 1);
        } else {
            assert!(touching >= 2);
        }
    }
}

#[test]
fn blocked_middle_row_is_unsolvable() {
    let mut m = Maze::create(3, 3);
    m.set_wall(1, 0);
    m.set_wall(1, 1);
    m.set_wall(1, 2);
    m.set_start(0, 0);
    m.set_end(2, 0);
    assert!(!m.solve());
    // No residual partial-path state survives the failure.
    assert!(in_path_cells(&m).is_empty());
    // The whole reachable component was searched.
    assert!(m.get(0, 0).searched);
    assert!(m.get(0, 1).searched);
    assert!(m.get(0, 2).searched);
    // The far side of the walls was never reached.
    assert!(!m.get(2, 0).searched);
    assert!(!m.get(2, 1).searched);
    assert!(!m.get(2, 2).searched);
}

#[test]
fn start_equals_end_succeeds_immediately() {
    let mut m = Maze::create(3, 3);
    m.set_start(1, 1);
    m.set_end(1, 1);
    assert!(m.solve());
    assert_eq!(in_path_cells(&m), vec![(1, 1)]);
    // Zero exploration beyond the start node itself.
    assert_eq!(searched_cells(&m), vec![(1, 1)]);
}

#[test]
fn failure_is_idempotent() {
    let mut m = Maze::create(3, 3);
    m.set_wall(1, 0);
    m.set_wall(1, 1);
    m.set_wall(1, 2);
    m.set_start(0, 0);
    m.set_end(2, 0);
    assert!(!m.solve());
    let first = searched_cells(&m);
    assert!(!m.solve());
    let second = searched_cells(&m);
    assert_eq!(first, second);
    assert!(in_path_cells(&m).is_empty());
}

#[test]
fn no_walls_connects_any_pair() {
    let mut m = Maze::create(4, 5);
    m.set_start(3, 1);
    m.set_end(0, 4);
    assert!(m.solve());
    let path = in_path_cells(&m);
    assert!(path.contains(&(3, 1)));
    assert!(path.contains(&(0, 4)));
}

#[test]
fn walls_never_join_the_path() {
    let mut m = Maze::create(3, 3);
    m.set_wall(1, 1);
    m.set_start(0, 0);
    m.set_end(2, 2);
    assert!(m.solve());
    assert!(!m.get(1, 1).in_path);
    for &(r, c) in &in_path_cells(&m) {
        assert!(m.get(r, c).passable);
    }
}

#[test]
fn detour_leaves_searched_but_unchosen_nodes() {
    // The wall forces the search below; the nodes tried first stay
    // searched yet end up off the path.
    let mut m = Maze::create(2, 3);
    m.set_wall(0, 1);
    m.set_start(0, 0);
    m.set_end(0, 2);
    assert!(m.solve());
    let path = in_path_cells(&m);
    assert!(path.contains(&(0, 0)));
    assert!(path.contains(&(1, 0)));
    assert!(path.contains(&(1, 1)));
    assert!(path.contains(&(1, 2)));
    assert!(path.contains(&(0, 2)));
    assert!(!m.get(0, 1).in_path);
    assert!(!m.get(0, 1).searched);
}

#[test]
fn symbol_follows_display_priority() {
    let mut n = Node::default();
    assert_eq!(n.symbol(), " ");
    n.searched = true;
    assert_eq!(n.symbol(), "x");
    n.in_path = true;
    assert_eq!(n.symbol(), "*");
    n.is_end = true;
    assert_eq!(n.symbol(), "E");
    n.is_start = true;
    assert_eq!(n.symbol(), "S");
    let mut wall = Node::default();
    wall.passable = false;
    assert_eq!(wall.symbol(), "\u{2588}");
}

#[test]
fn render_shows_borders_walls_and_markers() {
    let mut m = Maze::create(2, 2);
    m.set_wall(0, 1);
    m.set_start(0, 0);
    m.set_end(1, 1);
    let art = m.render();
    assert_eq!(art, "\u{250c}\u{2500}\u{2500}\u{2510}\n\u{2502}S\u{2588}\u{2502}\n\u{2502} E\u{2502}\n\u{2514}\u{2500}\u{2500}\u{2518}");
}

#[test]
fn render_shows_the_found_path() {
    let mut m = Maze::create(1, 3);
    m.set_start(0, 0);
    m.set_end(0, 2);
    assert!(m.solve());
    let art = m.render();
    assert_eq!(art, "\u{250c}\u{2500}\u{2500}\u{2500}\u{2510}\n\u{2502}S*E\u{2502}\n\u{2514}\u{2500}\u{2500}\u{2500}\u{2518}");
}

#[test]
fn solve_prefers_descending_first() {
    // In an open maze the fixed neighbour order (down, up, left, right)
    // walks straight down the first column before anything else.
    let mut m = Maze::create(3, 2);
    m.set_start(0, 0);
    m.set_end(2, 0);
    assert!(m.solve());
    assert_eq!(in_path_cells(&m), vec![(0, 0), (1, 0), (2, 0)]);
    assert_eq!(searched_cells(&m), vec![(0, 0), (1, 0), (2, 0)]);
}
