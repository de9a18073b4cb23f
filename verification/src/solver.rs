//! Depth-first path solver: walks the generated grid from the entry
//! cell with an explicit stack and reports the length of the first path
//! to a goal cell, or that no goal can be reached.

use vstd::prelude::*;
use crate::space::{Pos, in_grid, stepped, adjacent, step};
use crate::grid::{Grid, Cell};
use crate::counting::{num_true, lemma_num_true_le, lemma_num_true_update};
use crate::paths::{entry_pos, is_path, path_to_goal, reaches_goal};
use crate::space::{flat_idx, lemma_flat_idx_bounds};

verus! {

/// One suspended cell of the depth-first traversal: a position and the
/// index of the next direction to try there.
#[derive(Clone, Copy)]
struct SolveFrame {
    pos: Pos,
    next: u8,
}

/// Directions of the frame not yet tried.
spec fn frame_rem(f: SolveFrame) -> nat {
    if f.next <= 8 { (8 - f.next) as nat } else { 0 }
}

/// Directions not yet tried over the whole stack.
spec fn frames_rem(fs: Seq<SolveFrame>) -> nat
    decreases fs.len(),
{
    if fs.len() == 0 { 0 } else { frames_rem(fs.drop_last()) + frame_rem(fs.last()) }
}

/// The positions of the stacked frames, bottom first.
spec fn stack_posns(fs: Seq<SolveFrame>) -> Seq<(int, int, int, int)> {
    Seq::new(fs.len(), |i: int| fs[i].pos.at())
}

/// Position `p` is held by some stacked frame.
spec fn in_stack(fs: Seq<SolveFrame>, p: (int, int, int, int)) -> bool {
    exists|i: int| 0 <= i < fs.len() && fs[i].pos.at() == p
}

/// The depth-first search as a mathematical function of the grid, the
/// visited flags and the frame stack: each step mirrors one iteration
/// of the solver's loop.
spec fn run_dfs(g: Grid<Cell>, vis: Seq<bool>, stack: Seq<SolveFrame>) -> Option<int>
    decreases vis.len() - num_true(vis), frames_rem(stack), stack.len(),
{
    proof {
        lemma_num_true_le(vis);
    }
    let s = g.size();
    if stack.len() == 0 || vis.len() != s * s * s * s {
        None
    } else {
        let f = stack.last();
        if f.next >= 8 {
            proof {
                assert(frames_rem(stack) == frames_rem(stack.drop_last()) + frame_rem(f));
            }
            run_dfs(g, vis, stack.drop_last())
        } else {
            let stack2 = stack.update(
                stack.len() - 1,
                SolveFrame { pos: f.pos, next: (f.next + 1) as u8 },
            );
            proof {
                assert(stack2.drop_last() =~= stack.drop_last());
                assert(frames_rem(stack2) == frames_rem(stack.drop_last()) + frame_rem(stack2.last()));
            }
            let q = stepped(f.pos.at(), f.next as int, 1);
            if !in_grid(s, q) {
                run_dfs(g, vis, stack2)
            } else if vis[flat_idx(s, q)] {
                run_dfs(g, vis, stack2)
            } else if g.cell(q) == Cell::Wall {
                run_dfs(g, vis, stack2)
            } else if g.cell(q) == Cell::Goal {
                Some(stack.len() as int)
            } else {
                proof {
                    lemma_flat_idx_bounds(s, q);
                    lemma_num_true_update(vis, flat_idx(s, q));
                    lemma_num_true_le(vis.update(flat_idx(s, q), true));
                }
                run_dfs(
                    g,
                    vis.update(flat_idx(s, q), true),
                    stack2.push(SolveFrame {
                        pos: Pos {
                            x: q.0 as usize,
                            y: q.1 as usize,
                            z: q.2 as usize,
                            w: q.3 as usize,
                        },
                        next: 0,
                    }),
                )
            }
        }
    }
}

/// The visited flags at the start of a search: only the entry cell.
spec fn init_vis(g: Grid<Cell>) -> Seq<bool> {
    Seq::new(
        (g.size() * g.size() * g.size() * g.size()) as nat,
        |i: int| i == flat_idx(g.size(), entry_pos()),
    )
}

/// The outcome of the solver as a function of the grid alone: the
/// number of steps of the first depth-first path to a goal, or `None`.
/// Two runs on the same grid therefore return the same result.
pub closed spec fn solve_spec(g: Grid<Cell>) -> Option<int> {
    if g.cell(entry_pos()) == Cell::Goal {
        Some(0)
    } else if g.cell(entry_pos()) == Cell::Wall {
        None
    } else {
        run_dfs(
            g,
            init_vis(g),
            seq![SolveFrame { pos: Pos { x: 1, y: 1, z: 1, w: 1 }, next: 0 }],
        )
    }
}

/// Running the solver twice on one grid yields the same result: the
/// reported path length is a function of the grid alone.
pub proof fn lemma_solver_deterministic(g: Grid<Cell>, r1: Option<usize>, r2: Option<usize>)
    requires
        match r1 {
            Some(n) => solve_spec(g) == Some(n as int),
            None => solve_spec(g) is None,
        },
        match r2 {
            Some(n) => solve_spec(g) == Some(n as int),
            None => solve_spec(g) is None,
        },
    ensures
        r1 == r2,
{
}

/// A grid whose goal is reachable is always solved: a result that
/// satisfies the solver's contract on such a grid cannot be `None`.
/// Generated mazes guarantee reachability, so the solver succeeds on
/// every generated maze.
pub proof fn lemma_reachable_goal_is_solved(g: Grid<Cell>, r: Option<usize>)
    requires
        reaches_goal(g),
        match r {
            Some(n) => exists|s: Seq<(int, int, int, int)>|
                path_to_goal(g, s) && s.len() == n + 1,
            None => !reaches_goal(g),
        },
    ensures
        r is Some,
{
}

/// Direction `d` away from `p` needs no further work: it leaves the
/// grid, runs into a wall, or lands on a cell already visited.
spec fn processed(g: Grid<Cell>, vis: Grid<bool>, p: (int, int, int, int), d: int) -> bool {
    let q = stepped(p, d, 1);
    !in_grid(g.size(), q) || g.cell(q) == Cell::Wall || vis.cell(q)
}

/// A visited set that is closed under passable steps and holds the
/// entry cell, but only non-goal cells, traps every walk from the
/// entry: no goal is reachable.
proof fn lemma_no_goal_path(g: Grid<Cell>, vis: Grid<bool>)
    requires
        g.wf(),
        vis.wf(),
        vis.size() == g.size(),
        vis.cell(entry_pos()),
        forall|p: (int, int, int, int)|
            in_grid(g.size(), p) && #[trigger] vis.cell(p) ==> g.cell(p) == Cell::Empty,
        forall|p: (int, int, int, int), d: int|
            #![trigger processed(g, vis, p, d)]
            in_grid(g.size(), p) && vis.cell(p) && 0 <= d < 8 ==> processed(g, vis, p, d),
    ensures
        !reaches_goal(g),
{
    if reaches_goal(g) {
        let s = choose|s: Seq<(int, int, int, int)>| path_to_goal(g, s);
        lemma_walk_stays_visited(g, vis, s, s.len() - 1);
        assert(g.cell(s[s.len() - 1]) == Cell::Empty);
    }
}

/// Under the closure assumptions of `lemma_no_goal_path`, every prefix
/// of a walk out of the entry cell stays inside the visited set.
proof fn lemma_walk_stays_visited(
    g: Grid<Cell>,
    vis: Grid<bool>,
    s: Seq<(int, int, int, int)>,
    i: int,
)
    requires
        g.wf(),
        vis.wf(),
        vis.size() == g.size(),
        vis.cell(entry_pos()),
        forall|p: (int, int, int, int)|
            in_grid(g.size(), p) && #[trigger] vis.cell(p) ==> g.cell(p) == Cell::Empty,
        forall|p: (int, int, int, int), d: int|
            #![trigger processed(g, vis, p, d)]
            in_grid(g.size(), p) && vis.cell(p) && 0 <= d < 8 ==> processed(g, vis, p, d),
        is_path(g, s),
        s[0] == entry_pos(),
        0 <= i < s.len(),
    ensures
        vis.cell(s[i]),
    decreases i,
{
    if i > 0 {
        lemma_walk_stays_visited(g, vis, s, i - 1);
        let j = i - 1;
        assert(adjacent(s[j], s[j + 1]));
        let d = choose|d: int| 0 <= d < 8 && s[i] == #[trigger] stepped(s[i - 1], d, 1);
        assert(processed(g, vis, s[i - 1], d));
        assert(g.cell(s[i]) != Cell::Wall);
    }
}

/// Finds a path from the entry cell to a goal cell by depth-first
/// search in the fixed direction order, each cell visited at most once.
///
/// Returns the number of unit steps of the first path found, `Some(0)`
/// when the entry cell itself is the goal, and `None` exactly when no
/// goal cell can be reached from the entry through passable cells.
pub fn solve_maze(g: &Grid<Cell>) -> (r: Option<usize>)
    requires
        g.wf(),
    ensures
        match r {
            Some(n) => exists|s: Seq<(int, int, int, int)>|
                path_to_goal(*g, s) && s.len() == n + 1,
            None => !reaches_goal(*g),
        },
        g.cell(entry_pos()) == Cell::Goal ==> r == Some(0usize),
        match r {
            Some(n) => solve_spec(*g) == Some(n as int),
            None => solve_spec(*g) is None,
        },
{
    let size = g.side();
    let entry = Pos { x: 1, y: 1, z: 1, w: 1 };
    let c0 = g.get(entry);
    if c0 == Cell::Goal {
        proof {
            assert(entry.at() == entry_pos());
            let s = seq![entry_pos()];
            assert(is_path(*g, s));
            assert(path_to_goal(*g, s) && s.len() == 0 + 1);
            assert(solve_spec(*g) == Some(0int));
        }
        return Some(0);
    }
    if c0 == Cell::Wall {
        proof {
            assert(entry.at() == entry_pos());
            if reaches_goal(*g) {
                let s = choose|s: Seq<(int, int, int, int)>| path_to_goal(*g, s);
                assert(g.cell(s[0]) != Cell::Wall);
            }
            assert(solve_spec(*g) is None);
        }
        return None;
    }
    let mut vis: Grid<bool> = Grid::new(size, false);
    vis.set(entry, true);
    let mut stack: Vec<SolveFrame> = Vec::new();
    stack.push(SolveFrame { pos: entry, next: 0 });
    proof {
        lemma_num_true_le(vis.data());
        assert(entry.at() == entry_pos());
        lemma_flat_idx_bounds(g.size(), entry_pos());
        assert(vis.data() =~= init_vis(*g));
        assert(stack@ =~= seq![SolveFrame { pos: entry, next: 0 }]);
        assert(solve_spec(*g) == run_dfs(*g, vis.data(), stack@));
        assert(stack@[0].pos.at() == entry_pos());
        assert forall|p: (int, int, int, int), d: int|
            #![trigger processed(*g, vis, p, d)]
            in_grid(g.size(), p) && vis.cell(p) && !in_stack(stack@, p) && 0 <= d < 8
            implies processed(*g, vis, p, d) by {
            if p == entry_pos() {
                assert(in_stack(stack@, p));
            } else {
                assert(!vis.cell(p));
            }
        }
    }
    while stack.len() > 0
        invariant
            size as int == g.size(),
            g.wf(),
            vis.wf(),
            vis.size() == g.size(),
            g.cell(entry_pos()) == Cell::Empty,
            vis.cell(entry_pos()),
            num_true(vis.data()) <= vis.data().len(),
            forall|i: int| 0 <= i < stack@.len()
                ==> in_grid(g.size(), (#[trigger] stack@[i]).pos.at())
                    && stack@[i].next <= 8
                    && vis.cell(stack@[i].pos.at()),
            stack@.len() >= 1 ==> stack@[0].pos.at() == entry_pos(),
            stack@.len() >= 1 ==> is_path(*g, stack_posns(stack@)),
            forall|p: (int, int, int, int)|
                in_grid(g.size(), p) && #[trigger] vis.cell(p) ==> g.cell(p) == Cell::Empty,
            forall|i: int, d: int|
                #![trigger processed(*g, vis, (stack@[i]).pos.at(), d)]
                0 <= i < stack@.len() && 0 <= d < stack@[i].next
                    ==> processed(*g, vis, stack@[i].pos.at(), d),
            forall|p: (int, int, int, int), d: int|
                #![trigger processed(*g, vis, p, d)]
                in_grid(g.size(), p) && vis.cell(p) && !in_stack(stack@, p) && 0 <= d < 8
                    ==> processed(*g, vis, p, d),
            run_dfs(*g, vis.data(), stack@) == solve_spec(*g),
        decreases
            vis.data().len() - num_true(vis.data()),
            frames_rem(stack@),
            stack@.len(),
    {
        let ghost old_vis = vis;
        let ghost old_stack = stack@;
        let top_i = stack.len() - 1;
        let f = stack[top_i];
        if f.next == 8 {
            stack.pop();
            proof {
                assert(stack@ =~= old_stack.drop_last());
                assert(f == old_stack.last());
                assert(run_dfs(*g, vis.data(), old_stack) == run_dfs(*g, vis.data(), stack@));
                assert forall|p: (int, int, int, int), d: int|
                    #![trigger processed(*g, vis, p, d)]
                    in_grid(g.size(), p) && vis.cell(p) && !in_stack(stack@, p) && 0 <= d < 8
                    implies processed(*g, vis, p, d) by {
                    if in_stack(old_stack, p) {
                        let i = choose|i: int| 0 <= i < old_stack.len() && old_stack[i].pos.at() == p;
                        if i < old_stack.len() - 1 {
                            assert(stack@[i].pos.at() == p);
                            assert(in_stack(stack@, p));
                        } else {
                            assert(old_stack[i] == f);
                            assert(processed(*g, vis, old_stack[i].pos.at(), d));
                        }
                    } else {
                        assert(processed(*g, vis, p, d));
                    }
                }
                if stack@.len() >= 1 {
                    let sp = stack_posns(stack@);
                    let osp = stack_posns(old_stack);
                    assert forall|i: int| 0 <= i < sp.len()
                        implies in_grid(g.size(), #[trigger] sp[i]) && g.cell(sp[i]) != Cell::Wall by {
                        assert(sp[i] == osp[i]);
                    }
                    assert forall|i: int| 0 <= i < sp.len() - 1
                        implies adjacent(#[trigger] sp[i], sp[i + 1]) by {
                        assert(sp[i] == osp[i] && sp[i + 1] == osp[i + 1]);
                        assert(adjacent(osp[i], osp[i + 1]));
                    }
                    assert(sp[0] == osp[0]);
                }
            }
        } else {
            stack.set(top_i, SolveFrame { pos: f.pos, next: f.next + 1 });
            proof {
                assert(stack_posns(stack@) =~= stack_posns(old_stack));
                assert(frames_rem(stack@) < frames_rem(old_stack)) by {
                    assert(stack@.drop_last() =~= old_stack.drop_last());
                    assert(frames_rem(stack@.drop_last()) == frames_rem(old_stack.drop_last()));
                }
                assert forall|p: (int, int, int, int)| in_stack(old_stack, p)
                    implies in_stack(stack@, p) by {
                    let i = choose|i: int| 0 <= i < old_stack.len() && old_stack[i].pos.at() == p;
                    assert(stack@[i].pos.at() == p);
                }
            }
            match step(f.pos, f.next, 1, size) {
                None => {
                    proof {
                        assert(processed(*g, vis, f.pos.at(), f.next as int));
                        assert(f == old_stack.last());
                        assert(run_dfs(*g, vis.data(), old_stack)
                            == run_dfs(*g, vis.data(), stack@));
                    }
                }
                Some(np) => {
                    if vis.get(np) {
                        proof {
                            assert(processed(*g, vis, f.pos.at(), f.next as int));
                            assert(f == old_stack.last());
                            assert(run_dfs(*g, vis.data(), old_stack)
                                == run_dfs(*g, vis.data(), stack@));
                        }
                    } else {
                        match g.get(np) {
                            Cell::Wall => {
                                proof {
                                    assert(processed(*g, vis, f.pos.at(), f.next as int));
                                    assert(f == old_stack.last());
                                    assert(run_dfs(*g, vis.data(), old_stack)
                                        == run_dfs(*g, vis.data(), stack@));
                                }
                            },
                            Cell::Goal => {
                                proof {
                                    let sp = stack_posns(stack@);
                                    assert(sp[sp.len() - 1] == f.pos.at());
                                    assert(np.at() == stepped(f.pos.at(), f.next as int, 1));
                                    assert(adjacent(f.pos.at(), np.at()));
                                    crate::paths::lemma_path_snoc(*g, sp, np.at());
                                    let s = sp.push(np.at());
                                    assert(path_to_goal(*g, s));
                                    assert(s.len() == stack@.len() + 1);
                                    assert(f == old_stack.last());
                                    assert(run_dfs(*g, vis.data(), old_stack)
                                        == Some(old_stack.len() as int));
                                }
                                return Some(stack.len());
                            },
                            Cell::Empty => {
                                vis.set(np, true);
                                stack.push(SolveFrame { pos: np, next: 0 });
                                proof {
                                    lemma_flat_idx_bounds(g.size(), np.at());
                                    lemma_num_true_update(
                                        old_vis.data(), flat_idx(g.size(), np.at()));
                                    lemma_num_true_le(vis.data());
                                    let mid_stack = old_stack.update(
                                        old_stack.len() - 1,
                                        SolveFrame { pos: f.pos, next: (f.next + 1) as u8 });
                                    assert(stack@ =~= mid_stack.push(SolveFrame { pos: np, next: 0 }));
                                    // the stacked positions still form a walk from the entry
                                    let sp = stack_posns(mid_stack);
                                    assert(sp =~= stack_posns(old_stack));
                                    assert(is_path(*g, sp)) by {
                                        crate::paths::lemma_path_preserved(*g, *g, sp);
                                    }
                                    assert(np.at() == stepped(f.pos.at(), f.next as int, 1));
                                    assert(adjacent(f.pos.at(), np.at()));
                                    assert(sp[sp.len() - 1] == f.pos.at());
                                    crate::paths::lemma_path_snoc(*g, sp, np.at());
                                    assert(stack_posns(stack@) =~= sp.push(np.at()));
                                    assert(f == old_stack.last());
                                    assert(np == Pos {
                                        x: np.at().0 as usize,
                                        y: np.at().1 as usize,
                                        z: np.at().2 as usize,
                                        w: np.at().3 as usize,
                                    });
                                    assert(run_dfs(*g, old_vis.data(), old_stack)
                                        == run_dfs(*g, vis.data(), stack@));
                                    // every direction fact survives the growth of the
                                    // visited set
                                    assert forall|p: (int, int, int, int), d: int|
                                        #![trigger processed(*g, vis, p, d)]
                                        processed(*g, old_vis, p, d)
                                        implies processed(*g, vis, p, d) by {
                                        if in_grid(g.size(), stepped(p, d, 1)) {
                                            lemma_flat_idx_bounds(g.size(), stepped(p, d, 1));
                                        }
                                    }
                                    assert(processed(*g, vis, f.pos.at(), f.next as int));
                                    assert(stack@[stack@.len() - 1].pos.at() == np.at());
                                    assert forall|p: (int, int, int, int), d: int|
                                        #![trigger processed(*g, vis, p, d)]
                                        in_grid(g.size(), p) && vis.cell(p)
                                            && !in_stack(stack@, p) && 0 <= d < 8
                                        implies processed(*g, vis, p, d) by {
                                        if p == np.at() {
                                            assert(in_stack(stack@, p));
                                        } else {
                                            assert(old_vis.cell(p) == vis.cell(p));
                                            assert(!in_stack(old_stack, p)) by {
                                                if in_stack(old_stack, p) {
                                                    let i = choose|i: int|
                                                        0 <= i < old_stack.len()
                                                        && old_stack[i].pos.at() == p;
                                                    assert(stack@[i].pos.at() == p);
                                                }
                                            }
                                            assert(processed(*g, old_vis, p, d));
                                        }
                                    }
                                }
                            },
                        }
                    }
                }
            }
        }
    }
    proof {
        assert forall|p: (int, int, int, int), d: int|
            #![trigger processed(*g, vis, p, d)]
            in_grid(g.size(), p) && vis.cell(p) && 0 <= d < 8
            implies processed(*g, vis, p, d) by {
            assert(!in_stack(stack@, p));
        }
        lemma_no_goal_path(*g, vis);
        assert(run_dfs(*g, vis.data(), stack@) == None::<int>);
    }
    None
}

} // verus!
