//! Walks through passable cells: the reachability language that the
//! generator's and the solver's contracts are stated in.

use vstd::prelude::*;
use crate::space::{in_grid, adjacent};
use crate::grid::{Grid, Cell};

verus! {

/// The fixed entry position of every traversal.
pub open spec fn entry_pos() -> (int, int, int, int) {
    (1, 1, 1, 1)
}

/// `s` is a walk through passable cells: nonempty, every position on it
/// in bounds and not a `Wall`, and consecutive positions adjacent.
pub open spec fn is_path(g: Grid<Cell>, s: Seq<(int, int, int, int)>) -> bool {
    &&& s.len() >= 1
    &&& forall|i: int| 0 <= i < s.len()
            ==> in_grid(g.size(), #[trigger] s[i]) && g.cell(s[i]) != Cell::Wall
    &&& forall|i: int| 0 <= i < s.len() - 1 ==> #[trigger] adjacent(s[i], s[i + 1])
}

/// A walk from the entry cell that ends on a `Goal` cell.
pub open spec fn path_to_goal(g: Grid<Cell>, s: Seq<(int, int, int, int)>) -> bool {
    &&& is_path(g, s)
    &&& s[0] == entry_pos()
    &&& g.cell(s[s.len() - 1]) == Cell::Goal
}

/// Some goal cell can be walked to from the entry cell.
pub open spec fn reaches_goal(g: Grid<Cell>) -> bool {
    exists|s: Seq<(int, int, int, int)>| path_to_goal(g, s)
}

/// Position `p` can be walked to from the entry cell.
pub open spec fn reachable(g: Grid<Cell>, p: (int, int, int, int)) -> bool {
    exists|s: Seq<(int, int, int, int)>| is_path(g, s) && s[0] == entry_pos() && s[s.len() - 1] == p
}

/// Opening cells never breaks a walk: a path of `g1` is a path of any
/// same-sized `g2` whose walls are a subset of `g1`'s.
pub proof fn lemma_path_preserved(g1: Grid<Cell>, g2: Grid<Cell>, s: Seq<(int, int, int, int)>)
    requires
        is_path(g1, s),
        g1.size() == g2.size(),
        forall|q: (int, int, int, int)|
            in_grid(g1.size(), q) && g1.cell(q) != Cell::Wall ==> #[trigger] g2.cell(q) != Cell::Wall,
    ensures
        is_path(g2, s),
{
    assert forall|i: int| 0 <= i < s.len()
        implies in_grid(g2.size(), #[trigger] s[i]) && g2.cell(s[i]) != Cell::Wall by {
        assert(in_grid(g1.size(), s[i]) && g1.cell(s[i]) != Cell::Wall);
    }
}

/// Extends a walk by one adjacent passable cell.
pub proof fn lemma_path_snoc(g: Grid<Cell>, s: Seq<(int, int, int, int)>, q: (int, int, int, int))
    requires
        is_path(g, s),
        adjacent(s[s.len() - 1], q),
        in_grid(g.size(), q),
        g.cell(q) != Cell::Wall,
    ensures
        is_path(g, s.push(q)),
        s.push(q)[s.push(q).len() - 1] == q,
        s.push(q)[0] == s[0],
{
    let t = s.push(q);
    assert forall|i: int| 0 <= i < t.len()
        implies in_grid(g.size(), #[trigger] t[i]) && g.cell(t[i]) != Cell::Wall by {
        if i < s.len() {
            assert(t[i] == s[i]);
        } else {
            assert(t[i] == q);
        }
    }
    assert forall|i: int| 0 <= i < t.len() - 1 implies #[trigger] adjacent(t[i], t[i + 1]) by {
        if i < s.len() - 1 {
            assert(t[i] == s[i] && t[i + 1] == s[i + 1]);
        } else {
            assert(t[i] == s[s.len() - 1] && t[i + 1] == q);
        }
    }
}

} // verus!
