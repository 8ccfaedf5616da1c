//! Rendering a maze as text art: a bordered rectangle with one character
//! per node.

use vstd::prelude::*;

use crate::grid::Maze;
use crate::grid::Node;

verus! {

/// The one character a node renders as, by fixed priority: start marker,
/// end marker, path marker, then searched or plain floor if passable, and
/// a block for a wall.
pub open spec fn symbol_spec(n: Node) -> Seq<char> {
    if n.is_start {
        seq!['S']
    } else if n.is_end {
        seq!['E']
    } else if n.in_path {
        seq!['*']
    } else if n.passable {
        if n.searched {
            seq!['x']
        } else {
            seq![' ']
        }
    } else {
        seq!['\u{2588}']
    }
}

/// A horizontal border segment of `n` dashes.
pub open spec fn hbar(n: int) -> Seq<char>
    decreases n,
{
    if n <= 0 {
        Seq::empty()
    } else {
        hbar(n - 1).push('\u{2500}')
    }
}

/// The characters of the first `n` nodes of one row.
pub open spec fn row_chars(row: Seq<Node>, n: int) -> Seq<char>
    decreases n,
{
    if n <= 0 {
        Seq::empty()
    } else {
        row_chars(row, n - 1) + symbol_spec(row[n - 1])
    }
}

/// The first `n` rendered maze lines, each one row of nodes between side
/// borders.
pub open spec fn rows_chars(g: Seq<Vec<Node>>, n: int) -> Seq<char>
    decreases n,
{
    if n <= 0 {
        Seq::empty()
    } else {
        rows_chars(g, n - 1) + seq!['\u{2502}'] + row_chars(g[n - 1]@, g[n - 1]@.len() as int)
            + seq!['\u{2502}', '\n']
    }
}

/// The full text rendering: a top border, one line per row, a bottom
/// border.
pub open spec fn render_spec(m: Maze) -> Seq<char> {
    seq!['\u{250c}'] + hbar(m.cols as int) + seq!['\u{2510}', '\n'] + rows_chars(
        m.hallways@,
        m.hallways@.len() as int,
    ) + seq!['\u{2514}'] + hbar(m.cols as int) + seq!['\u{2518}']
}

impl Node {
    /// The symbol this node renders as.
    pub fn symbol(&self) -> (r: &'static str)
        ensures
            r@ == symbol_spec(*self),
    {
        proof {
            reveal_strlit("S");
            reveal_strlit("E");
            reveal_strlit("*");
            reveal_strlit("x");
            reveal_strlit(" ");
            reveal_strlit("█");
            assert("S"@ =~= seq!['S']);
            assert("E"@ =~= seq!['E']);
            assert("*"@ =~= seq!['*']);
            assert("x"@ =~= seq!['x']);
            assert(" "@ =~= seq![' ']);
            assert("█"@ =~= seq!['\u{2588}']);
        }
        if self.is_start {
            "S"
        } else if self.is_end {
            "E"
        } else if self.in_path {
            "*"
        } else if self.passable {
            if self.searched {
                "x"
            } else {
                " "
            }
        } else {
            "█"
        }
    }
}

impl Maze {
    /// Render the maze as a bordered block of text, one character per node.
    pub fn render(&self) -> (s: String)
        requires
            self.wf(),
        ensures
            s@ == render_spec(*self),
    {
        let ghost g = self.hallways@;
        let mut s = String::new();
        s.append("┌");
        proof {
            reveal_strlit("┌");
            assert(s@ =~= seq!['\u{250c}'] + hbar(0));
        }
        let mut i: usize = 0;
        while i < self.cols
            invariant
                i <= self.cols,
                s@ == seq!['\u{250c}'] + hbar(i as int),
            decreases self.cols - i,
        {
            s.append("─");
            i = i + 1;
            proof {
                reveal_strlit("─");
                assert(s@ =~= seq!['\u{250c}'] + hbar(i as int));
            }
        }
        s.append("┐\n");
        let ghost top = seq!['\u{250c}'] + hbar(self.cols as int) + seq!['\u{2510}', '\n'];
        proof {
            reveal_strlit("┐\n");
            assert(s@ =~= top);
            assert(s@ =~= top + rows_chars(g, 0));
        }
        let mut r: usize = 0;
        while r < self.rows
            invariant
                self.wf(),
                g == self.hallways@,
                r <= self.rows,
                top == seq!['\u{250c}'] + hbar(self.cols as int) + seq!['\u{2510}', '\n'],
                s@ == top + rows_chars(g, r as int),
            decreases self.rows - r,
        {
            s.append("│");
            proof {
                reveal_strlit("│");
                assert(s@ =~= top + rows_chars(g, r as int) + seq!['\u{2502}'] + row_chars(
                    g[r as int]@,
                    0,
                ));
            }
            let mut c: usize = 0;
            while c < self.cols
                invariant
                    self.wf(),
                    g == self.hallways@,
                    r < self.rows,
                    c <= self.cols,
                    s@ == top + rows_chars(g, r as int) + seq!['\u{2502}'] + row_chars(
                        g[r as int]@,
                        c as int,
                    ),
                decreases self.cols - c,
            {
                let n = self.get(r, c);
                s.append(n.symbol());
                c = c + 1;
                proof {
                    assert(s@ =~= top + rows_chars(g, r as int) + seq!['\u{2502}'] + row_chars(
                        g[r as int]@,
                        c as int,
                    ));
                }
            }
            s.append("│\n");
            r = r + 1;
            proof {
                reveal_strlit("│\n");
                assert(s@ =~= top + rows_chars(g, r as int));
            }
        }
        s.append("└");
        proof {
            reveal_strlit("└");
            assert(s@ =~= top + rows_chars(g, self.rows as int) + seq!['\u{2514}'] + hbar(0));
        }
        let mut i2: usize = 0;
        while i2 < self.cols
            invariant
                self.wf(),
                g == self.hallways@,
                top == seq!['\u{250c}'] + hbar(self.cols as int) + seq!['\u{2510}', '\n'],
                i2 <= self.cols,
                s@ == top + rows_chars(g, self.rows as int) + seq!['\u{2514}'] + hbar(i2 as int),
            decreases self.cols - i2,
        {
            s.append("─");
            i2 = i2 + 1;
            proof {
                reveal_strlit("─");
                assert(s@ =~= top + rows_chars(g, self.rows as int) + seq!['\u{2514}'] + hbar(
                    i2 as int,
                ));
            }
        }
        s.append("┘");
        proof {
            reveal_strlit("┘");
            assert(s@ =~= render_spec(*self));
        }
        s
    }
}

} // verus!
