//! Maze generator: a randomized backtracker that carves a spanning set
//! of room cells through an all-wall grid, and the goal-region overlay
//! that opens the grid's center afterwards.

use vstd::prelude::*;
use crate::space::{Pos, in_grid, stepped, adjacent, step, flat_idx, lemma_flat_idx_bounds};
use crate::grid::{Grid, Cell};
use crate::counting::{num_true, lemma_num_true_le, lemma_num_true_update};
use crate::paths::{
    entry_pos, is_path, path_to_goal, reaches_goal, reachable,
    lemma_path_preserved, lemma_path_snoc,
};
use crate::shuffle::{ShuffleSource, ident_perm};
use crate::space::{lemma_flat_parts, lemma_flat_idx_inj};
use vstd::arithmetic::div_mod::lemma_fundamental_div_mod_converse;

verus! {

/// An odd integer.
pub open spec fn odd(x: int) -> bool {
    x % 2 == 1
}

/// A room cell: all four coordinates odd, inside the grid.
pub open spec fn is_room(s: int, p: (int, int, int, int)) -> bool {
    &&& in_grid(s, p)
    &&& odd(p.0)
    &&& odd(p.1)
    &&& odd(p.2)
    &&& odd(p.3)
}

/// A link cell: exactly one even coordinate, inside the grid; the wall
/// slot between two rooms that differ by 2 along one axis.
pub open spec fn is_link(s: int, p: (int, int, int, int)) -> bool {
    &&& in_grid(s, p)
    &&& {
        ||| (!odd(p.0) && odd(p.1) && odd(p.2) && odd(p.3))
        ||| (odd(p.0) && !odd(p.1) && odd(p.2) && odd(p.3))
        ||| (odd(p.0) && odd(p.1) && !odd(p.2) && odd(p.3))
        ||| (odd(p.0) && odd(p.1) && odd(p.2) && !odd(p.3))
    }
}

/// The room two steps from `p` along `d` needs no further carving work:
/// it leaves the grid or is already visited.
spec fn processed2(s: int, vis: Grid<bool>, p: (int, int, int, int), d: int) -> bool {
    let q = stepped(p, d, 2);
    !in_grid(s, q) || vis.cell(q)
}

/// Position `p` is held by some stacked frame.
spec fn room_in_stack(fs: Seq<Pos>, p: (int, int, int, int)) -> bool {
    exists|i: int| 0 <= i < fs.len() && fs[i].at() == p
}

/// Directions of one frame not yet tried.
spec fn rem8(n: u8) -> nat {
    if n <= 8 { (8 - n) as nat } else { 0 }
}

/// Directions not yet tried over the whole stack.
spec fn nexts_rem(s: Seq<u8>) -> nat
    decreases s.len(),
{
    if s.len() == 0 { 0 } else { nexts_rem(s.drop_last()) + rem8(s.last()) }
}

/// The position whose flat row-major index in a grid of side `s` is `i`.
pub open spec fn pos_of(s: int, i: int) -> (int, int, int, int) {
    (i / (s * s * s), (i / (s * s)) % s, (i / s) % s, i % s)
}

/// Decoding a flat index recovers the position it came from.
proof fn lemma_pos_of_flat(s: int, p: (int, int, int, int))
    requires
        0 < s,
        in_grid(s, p),
    ensures
        pos_of(s, flat_idx(s, p)) == p,
{
    let i = flat_idx(s, p);
    lemma_flat_parts(s, p);
    lemma_fundamental_div_mod_converse(i, s, (p.0 * s + p.1) * s + p.2, p.3);
    lemma_fundamental_div_mod_converse((p.0 * s + p.1) * s + p.2, s, p.0 * s + p.1, p.2);
    lemma_fundamental_div_mod_converse(p.0 * s + p.1, s, p.0, p.1);
    assert(((p.0 * s + p.1) * s + p.2) * s + p.3
        == (p.0 * s + p.1) * (s * s) + (p.2 * s + p.3)) by (nonlinear_arith);
    assert(0 <= p.2 * s + p.3 < s * s) by (nonlinear_arith)
        requires 0 < s, 0 <= p.2 < s, 0 <= p.3 < s,
    {}
    lemma_fundamental_div_mod_converse(i, s * s, p.0 * s + p.1, p.2 * s + p.3);
    assert(((p.0 * s + p.1) * s + p.2) * s + p.3
        == p.0 * (s * s * s) + ((p.1 * s + p.2) * s + p.3)) by (nonlinear_arith);
    assert(0 <= (p.1 * s + p.2) * s + p.3 < s * s * s) by (nonlinear_arith)
        requires 0 < s, 0 <= p.1 < s, 0 <= p.2 < s, 0 <= p.3 < s,
    {}
    lemma_fundamental_div_mod_converse(i, s * s * s, p.0, (p.1 * s + p.2) * s + p.3);
    assert(i / s == (p.0 * s + p.1) * s + p.2);
    assert((i / s) % s == p.2);
    assert(i / (s * s) == p.0 * s + p.1);
    assert((i / (s * s)) % s == p.1);
    assert(i / (s * s * s) == p.0);
    assert(i % s == p.3);
}

/// How many cells of the array are carved rooms (`rooms` true) or
/// carved links (`rooms` false): `Empty` cells whose decoded position
/// has the corresponding shape.
pub open spec fn count_pred(data: Seq<Cell>, s: int, rooms: bool) -> int
    decreases data.len(),
{
    if data.len() == 0 {
        0
    } else {
        count_pred(data.drop_last(), s, rooms) + if data.last() == Cell::Empty && (if rooms {
            is_room(s, pos_of(s, data.len() - 1))
        } else {
            is_link(s, pos_of(s, data.len() - 1))
        }) {
            1int
        } else {
            0int
        }
    }
}

/// An all-wall array holds no carved cell of either shape.
proof fn lemma_count_pred_all_wall(data: Seq<Cell>, s: int, rooms: bool)
    requires
        forall|i: int| 0 <= i < data.len() ==> data[i] == Cell::Wall,
    ensures
        count_pred(data, s, rooms) == 0,
    decreases data.len(),
{
    if data.len() > 0 {
        lemma_count_pred_all_wall(data.drop_last(), s, rooms);
        assert(data.last() == Cell::Wall);
    }
}

/// Carving one wall cell raises the count of its shape by one and
/// leaves the other count unchanged.
proof fn lemma_count_pred_update(data: Seq<Cell>, s: int, rooms: bool, i: int)
    requires
        0 <= i < data.len(),
        data[i] == Cell::Wall,
    ensures
        count_pred(data.update(i, Cell::Empty), s, rooms) == count_pred(data, s, rooms)
            + if (if rooms { is_room(s, pos_of(s, i)) } else { is_link(s, pos_of(s, i)) }) {
                1int
            } else {
                0int
            },
    decreases data.len(),
{
    let t = data.update(i, Cell::Empty);
    if i == data.len() - 1 {
        assert(t.drop_last() =~= data.drop_last());
        assert(t.last() == Cell::Empty);
    } else {
        lemma_count_pred_update(data.drop_last(), s, rooms, i);
        assert(t.drop_last() =~= data.drop_last().update(i, Cell::Empty));
        assert(t.last() == data.last());
    }
}

/// How many carved rooms the grid holds.
pub open spec fn room_count(g: Grid<Cell>) -> int {
    count_pred(g.data(), g.size(), true)
}

/// How many carved links the grid holds.
pub open spec fn link_count(g: Grid<Cell>) -> int {
    count_pred(g.data(), g.size(), false)
}

/// The room one step below a link along its single even axis.
spec fn link_lo(p: (int, int, int, int)) -> (int, int, int, int) {
    if !odd(p.0) { (p.0 - 1, p.1, p.2, p.3) }
    else if !odd(p.1) { (p.0, p.1 - 1, p.2, p.3) }
    else if !odd(p.2) { (p.0, p.1, p.2 - 1, p.3) }
    else { (p.0, p.1, p.2, p.3 - 1) }
}

/// The room one step above a link along its single even axis.
spec fn link_hi(p: (int, int, int, int)) -> (int, int, int, int) {
    if !odd(p.0) { (p.0 + 1, p.1, p.2, p.3) }
    else if !odd(p.1) { (p.0, p.1 + 1, p.2, p.3) }
    else if !odd(p.2) { (p.0, p.1, p.2 + 1, p.3) }
    else { (p.0, p.1, p.2, p.3 + 1) }
}

/// Both rooms beside the link `p` are inside the grid and visited.
spec fn link_ends_visited(s: int, vis: Grid<bool>, p: (int, int, int, int)) -> bool {
    &&& in_grid(s, link_lo(p))
    &&& in_grid(s, link_hi(p))
    &&& vis.cell(link_lo(p))
    &&& vis.cell(link_hi(p))
}

/// The rooms beside a link carved between `cur` and `cand` are exactly
/// `cur` and `cand`, in one of the two orders.
proof fn lemma_link_ends(
    s: int,
    cur: (int, int, int, int),
    link: (int, int, int, int),
    cand: (int, int, int, int),
    d: int,
)
    requires
        0 <= d < 8,
        is_room(s, cur),
        link == stepped(cur, d, 1),
        cand == stepped(cur, d, 2),
    ensures
        (link_lo(link) == cur && link_hi(link) == cand)
            || (link_lo(link) == cand && link_hi(link) == cur),
{
    if d == 0 || d == 1 {
        assert((cur.0 - 1) % 2 != 1 && (cur.0 + 1) % 2 != 1);
    } else if d == 2 || d == 3 {
        assert((cur.1 - 1) % 2 != 1 && (cur.1 + 1) % 2 != 1);
    } else if d == 4 || d == 5 {
        assert((cur.2 - 1) % 2 != 1 && (cur.2 + 1) % 2 != 1);
    } else {
        assert((cur.3 - 1) % 2 != 1 && (cur.3 + 1) % 2 != 1);
    }
}

/// The carving traversal as a mathematical function of its state, when
/// every permutation drawn is the identity: each step mirrors one
/// iteration of the carver's loop with the direction indices tried in
/// their fixed order.
spec fn carve_run(
    s: int,
    cells: Seq<Cell>,
    vis: Seq<bool>,
    poss: Seq<Pos>,
    nexts: Seq<u8>,
) -> Seq<Cell>
    decreases vis.len() - num_true(vis), nexts_rem(nexts), poss.len(),
{
    proof {
        lemma_num_true_le(vis);
    }
    if poss.len() == 0 || poss.len() != nexts.len() || vis.len() != s * s * s * s {
        cells
    } else {
        let cur = poss.last();
        let nx = nexts.last();
        if nx >= 8 {
            proof {
                assert(nexts_rem(nexts) == nexts_rem(nexts.drop_last()) + rem8(nx));
            }
            carve_run(s, cells, vis, poss.drop_last(), nexts.drop_last())
        } else {
            let nexts2 = nexts.update(nexts.len() - 1, (nx + 1) as u8);
            proof {
                assert(nexts2.drop_last() =~= nexts.drop_last());
                assert(nexts_rem(nexts2)
                    == nexts_rem(nexts.drop_last()) + rem8(nexts2.last()));
            }
            let cand = stepped(cur.at(), nx as int, 2);
            if !in_grid(s, cand) {
                carve_run(s, cells, vis, poss, nexts2)
            } else if vis[flat_idx(s, cand)] {
                carve_run(s, cells, vis, poss, nexts2)
            } else {
                let link = stepped(cur.at(), nx as int, 1);
                proof {
                    lemma_flat_idx_bounds(s, cand);
                    lemma_num_true_update(vis, flat_idx(s, cand));
                    lemma_num_true_le(vis.update(flat_idx(s, cand), true));
                }
                carve_run(
                    s,
                    cells.update(flat_idx(s, link), Cell::Empty)
                        .update(flat_idx(s, cand), Cell::Empty),
                    vis.update(flat_idx(s, cand), true),
                    poss.push(Pos {
                        x: cand.0 as usize,
                        y: cand.1 as usize,
                        z: cand.2 as usize,
                        w: cand.3 as usize,
                    }),
                    nexts2.push(0),
                )
            }
        }
    }
}

/// The backing array of an all-wall grid with the entry room carved.
spec fn ident_init_cells(s: int) -> Seq<Cell> {
    Seq::new(
        (s * s * s * s) as nat,
        |i: int| if i == flat_idx(s, entry_pos()) { Cell::Empty } else { Cell::Wall },
    )
}

/// The visited flags at the start of carving: only the entry room.
spec fn ident_init_vis(s: int) -> Seq<bool> {
    Seq::new((s * s * s * s) as nat, |i: int| i == flat_idx(s, entry_pos()))
}

/// The backing array the carver produces on a grid of side `s` when
/// every permutation drawn is the identity.
pub closed spec fn carve_ident(s: int) -> Seq<Cell> {
    carve_run(
        s,
        ident_init_cells(s),
        ident_init_vis(s),
        seq![Pos { x: 1, y: 1, z: 1, w: 1 }],
        seq![0u8],
    )
}

/// The cell one step along `d` lies between the cells zero and two
/// steps along `d`, so it is in bounds whenever both of those are.
proof fn lemma_middle_in_grid(s: int, p: (int, int, int, int), d: int)
    requires
        0 <= d < 8,
        in_grid(s, p),
        in_grid(s, stepped(p, d, 2)),
    ensures
        in_grid(s, stepped(p, d, 1)),
        stepped(p, d, 2) == stepped(stepped(p, d, 1), d, 1),
{
}

/// A visited set that holds the entry room and is closed under in-bounds
/// two-step moves holds every room of the grid.
proof fn lemma_rooms_visited(s: int, vis: Grid<bool>, p: (int, int, int, int))
    requires
        3 <= s,
        vis.wf(),
        vis.size() == s,
        vis.cell(entry_pos()),
        forall|q: (int, int, int, int), d: int|
            #![trigger processed2(s, vis, q, d)]
            in_grid(s, q) && vis.cell(q) && 0 <= d < 8 ==> processed2(s, vis, q, d),
        is_room(s, p),
    ensures
        vis.cell(p),
    decreases p.0 + p.1 + p.2 + p.3,
{
    if p.0 == 1 && p.1 == 1 && p.2 == 1 && p.3 == 1 {
        assert(p == entry_pos());
    } else if p.0 >= 3 {
        let q = (p.0 - 2, p.1, p.2, p.3);
        lemma_rooms_visited(s, vis, q);
        assert(stepped(q, 1, 2) == p);
        assert(processed2(s, vis, q, 1));
    } else if p.1 >= 3 {
        let q = (p.0, p.1 - 2, p.2, p.3);
        lemma_rooms_visited(s, vis, q);
        assert(stepped(q, 3, 2) == p);
        assert(processed2(s, vis, q, 3));
    } else if p.2 >= 3 {
        let q = (p.0, p.1, p.2 - 2, p.3);
        lemma_rooms_visited(s, vis, q);
        assert(stepped(q, 5, 2) == p);
        assert(processed2(s, vis, q, 5));
    } else {
        assert(p.3 >= 3);
        let q = (p.0, p.1, p.2, p.3 - 2);
        lemma_rooms_visited(s, vis, q);
        assert(stepped(q, 7, 2) == p);
        assert(processed2(s, vis, q, 7));
    }
}

/// Before a move into an unvisited room, both cells it would carve are
/// still walls: the candidate room because carved rooms are visited,
/// and the link because a carved link has both its rooms visited.
proof fn lemma_uncarved_link(
    s: int,
    g1: Grid<Cell>,
    v1: Grid<bool>,
    cur: Pos,
    link: Pos,
    cand: Pos,
    d: int,
)
    requires
        g1.size() == s,
        forall|p: (int, int, int, int)| in_grid(s, p)
            ==> #[trigger] g1.cell(p) == Cell::Empty || g1.cell(p) == Cell::Wall,
        forall|p: (int, int, int, int)|
            in_grid(s, p) && #[trigger] g1.cell(p) == Cell::Empty
                ==> (is_room(s, p) && v1.cell(p)) || is_link(s, p),
        forall|p: (int, int, int, int)|
            in_grid(s, p) && #[trigger] g1.cell(p) == Cell::Empty && is_link(s, p)
                ==> link_ends_visited(s, v1, p),
        0 <= d < 8,
        is_room(s, cur.at()),
        link.at() == stepped(cur.at(), d, 1),
        cand.at() == stepped(cur.at(), d, 2),
        in_grid(s, link.at()),
        in_grid(s, cand.at()),
        !v1.cell(cand.at()),
    ensures
        g1.cell(link.at()) == Cell::Wall,
        g1.cell(cand.at()) == Cell::Wall,
{
    lemma_carve_geometry(s, cur.at(), link.at(), cand.at(), d);
    if g1.cell(cand.at()) == Cell::Empty {
        assert(is_room(s, cand.at()) && !is_link(s, cand.at()));
        assert(v1.cell(cand.at()));
    }
    if g1.cell(link.at()) == Cell::Empty {
        assert(link_ends_visited(s, v1, link.at()));
        lemma_link_ends(s, cur.at(), link.at(), cand.at(), d);
        assert(v1.cell(cand.at()));
    }
}

/// Carving one link and one room raises each of the two counts by one.
proof fn lemma_carve_counts(
    s: int,
    g1: Grid<Cell>,
    g2: Grid<Cell>,
    cur: Pos,
    link: Pos,
    cand: Pos,
    d: int,
)
    requires
        g1.wf(),
        g1.size() == s,
        g2.size() == s,
        0 <= d < 8,
        is_room(s, cur.at()),
        link.at() == stepped(cur.at(), d, 1),
        cand.at() == stepped(cur.at(), d, 2),
        in_grid(s, link.at()),
        in_grid(s, cand.at()),
        g1.cell(link.at()) == Cell::Wall,
        g1.cell(cand.at()) == Cell::Wall,
        g2.data() == g1.data().update(flat_idx(s, link.at()), Cell::Empty)
            .update(flat_idx(s, cand.at()), Cell::Empty),
    ensures
        room_count(g2) == room_count(g1) + 1,
        link_count(g2) == link_count(g1) + 1,
{
    lemma_carve_geometry(s, cur.at(), link.at(), cand.at(), d);
    lemma_flat_idx_bounds(s, link.at());
    lemma_flat_idx_bounds(s, cand.at());
    lemma_pos_of_flat(s, link.at());
    lemma_pos_of_flat(s, cand.at());
    let fl = flat_idx(s, link.at());
    let fc = flat_idx(s, cand.at());
    let mid = g1.data().update(fl, Cell::Empty);
    assert(fl != fc) by {
        if fl == fc {
            lemma_flat_idx_inj(s, link.at(), cand.at());
        }
    }
    assert(mid[fc] == Cell::Wall);
    lemma_count_pred_update(g1.data(), s, true, fl);
    lemma_count_pred_update(g1.data(), s, false, fl);
    lemma_count_pred_update(mid, s, true, fc);
    lemma_count_pred_update(mid, s, false, fc);
    assert(is_link(s, link.at()) && !is_room(s, link.at()));
    assert(is_room(s, cand.at()) && !is_link(s, cand.at()));
}

/// Carving one move keeps every carved link flanked by two visited
/// rooms inside the grid.
proof fn lemma_carve_link_ends(
    s: int,
    g1: Grid<Cell>,
    g2: Grid<Cell>,
    v1: Grid<bool>,
    v2: Grid<bool>,
    cur: Pos,
    link: Pos,
    cand: Pos,
    d: int,
)
    requires
        g1.size() == s,
        g2.size() == s,
        v1.size() == s,
        v2.size() == s,
        forall|p: (int, int, int, int)|
            in_grid(s, p) && #[trigger] g1.cell(p) == Cell::Empty && is_link(s, p)
                ==> link_ends_visited(s, v1, p),
        0 <= d < 8,
        is_room(s, cur.at()),
        v1.cell(cur.at()),
        link.at() == stepped(cur.at(), d, 1),
        cand.at() == stepped(cur.at(), d, 2),
        in_grid(s, link.at()),
        in_grid(s, cand.at()),
        g2.cell(link.at()) == Cell::Empty,
        g2.cell(cand.at()) == Cell::Empty,
        forall|q: (int, int, int, int)|
            in_grid(s, q) && q != link.at() && q != cand.at()
                ==> #[trigger] g2.cell(q) == g1.cell(q),
        v2.cell(cand.at()),
        forall|q: (int, int, int, int)|
            in_grid(s, q) && q != cand.at() ==> #[trigger] v2.cell(q) == v1.cell(q),
    ensures
        forall|p: (int, int, int, int)|
            in_grid(s, p) && #[trigger] g2.cell(p) == Cell::Empty && is_link(s, p)
                ==> link_ends_visited(s, v2, p),
{
    lemma_carve_geometry(s, cur.at(), link.at(), cand.at(), d);
    lemma_link_ends(s, cur.at(), link.at(), cand.at(), d);
    assert forall|p: (int, int, int, int)|
        in_grid(s, p) && #[trigger] g2.cell(p) == Cell::Empty && is_link(s, p)
        implies link_ends_visited(s, v2, p) by {
        if p == link.at() {
            assert(v2.cell(cur.at()));
        } else if p == cand.at() {
            assert(!is_link(s, p));
        } else {
            assert(g1.cell(p) == Cell::Empty);
            assert(link_ends_visited(s, v1, p));
            if link_lo(p) != cand.at() {
                assert(v2.cell(link_lo(p)) == v1.cell(link_lo(p)));
            }
            if link_hi(p) != cand.at() {
                assert(v2.cell(link_hi(p)) == v1.cell(link_hi(p)));
            }
        }
    }
}

/// After a frame whose directions are exhausted is popped, the visited
/// set is still closed off the stack: the popped room itself had every
/// direction processed.
proof fn lemma_pop_closure(
    s: int,
    vis: Grid<bool>,
    poss1: Seq<Pos>,
    poss2: Seq<Pos>,
    cur: Pos,
)
    requires
        poss1.len() >= 1,
        poss2 == poss1.drop_last(),
        poss1[poss1.len() - 1] == cur,
        forall|dd: int| 0 <= dd < 8 ==> #[trigger] processed2(s, vis, cur.at(), dd),
        forall|p: (int, int, int, int), d: int|
            #![trigger processed2(s, vis, p, d)]
            in_grid(s, p) && vis.cell(p) && !room_in_stack(poss1, p) && 0 <= d < 8
                ==> processed2(s, vis, p, d),
    ensures
        forall|p: (int, int, int, int), d: int|
            #![trigger processed2(s, vis, p, d)]
            in_grid(s, p) && vis.cell(p) && !room_in_stack(poss2, p) && 0 <= d < 8
                ==> processed2(s, vis, p, d),
{
    assert forall|p: (int, int, int, int), d: int|
        #![trigger processed2(s, vis, p, d)]
        in_grid(s, p) && vis.cell(p) && !room_in_stack(poss2, p) && 0 <= d < 8
        implies processed2(s, vis, p, d) by {
        if room_in_stack(poss1, p) {
            let i = choose|i: int| 0 <= i < poss1.len() && poss1[i].at() == p;
            if i < poss1.len() - 1 {
                assert(poss2[i].at() == p);
                assert(room_in_stack(poss2, p));
            } else {
                assert(p == cur.at());
            }
        } else {
            assert(processed2(s, vis, p, d));
        }
    }
}

/// The geometry of one carving move: from a room, two steps along a
/// direction land on a room and the cell in between is a link.
proof fn lemma_carve_geometry(
    s: int,
    cur: (int, int, int, int),
    link: (int, int, int, int),
    cand: (int, int, int, int),
    d: int,
)
    requires
        0 <= d < 8,
        is_room(s, cur),
        link == stepped(cur, d, 1),
        cand == stepped(cur, d, 2),
        in_grid(s, link),
        in_grid(s, cand),
    ensures
        is_room(s, cand),
        is_link(s, link),
        cand != link,
        cand != cur,
        cand == stepped(link, d, 1),
        adjacent(cur, link),
        adjacent(link, cand),
{
    assert(is_room(s, cand) && is_link(s, link) && cand != link
        && cand == stepped(link, d, 1)) by {
        if d == 0 || d == 1 {
            assert((cur.0 - 2) % 2 == cur.0 % 2 && (cur.0 + 2) % 2 == cur.0 % 2);
            assert(!odd(link.0));
        } else if d == 2 || d == 3 {
            assert((cur.1 - 2) % 2 == cur.1 % 2 && (cur.1 + 2) % 2 == cur.1 % 2);
            assert(!odd(link.1));
        } else if d == 4 || d == 5 {
            assert((cur.2 - 2) % 2 == cur.2 % 2 && (cur.2 + 2) % 2 == cur.2 % 2);
            assert(!odd(link.2));
        } else {
            assert((cur.3 - 2) % 2 == cur.3 % 2 && (cur.3 + 2) % 2 == cur.3 % 2);
            assert(!odd(link.3));
        }
    }
    assert(link == stepped(cur, d, 1));
    assert(cand == stepped(link, d, 1));
}

/// One carving move: opening the link and the fresh room preserves the
/// structural, reachability and closure invariants of the traversal.
#[verifier::rlimit(100)]
proof fn lemma_carve_step(
    s: int,
    g1: Grid<Cell>,
    g2: Grid<Cell>,
    v1: Grid<bool>,
    v2: Grid<bool>,
    poss1: Seq<Pos>,
    poss2: Seq<Pos>,
    cur: Pos,
    link: Pos,
    cand: Pos,
    d: int,
)
    requires
        g1.wf(),
        g2.wf(),
        v1.wf(),
        v2.wf(),
        g1.size() == s,
        g2.size() == s,
        v1.size() == s,
        v2.size() == s,
        forall|p: (int, int, int, int)|
            in_grid(s, p) && #[trigger] v1.cell(p) ==> is_room(s, p) && g1.cell(p) == Cell::Empty,
        forall|p: (int, int, int, int)| in_grid(s, p)
            ==> #[trigger] g1.cell(p) == Cell::Empty || g1.cell(p) == Cell::Wall,
        forall|p: (int, int, int, int)|
            in_grid(s, p) && #[trigger] g1.cell(p) == Cell::Empty
                ==> (is_room(s, p) && v1.cell(p)) || is_link(s, p),
        forall|p: (int, int, int, int)|
            in_grid(s, p) && #[trigger] g1.cell(p) == Cell::Empty ==> reachable(g1, p),
        forall|p: (int, int, int, int), dd: int|
            #![trigger processed2(s, v1, p, dd)]
            in_grid(s, p) && v1.cell(p) && !room_in_stack(poss1, p) && 0 <= dd < 8
                ==> processed2(s, v1, p, dd),
        0 <= d < 8,
        is_room(s, cur.at()),
        v1.cell(cur.at()),
        cand.at() == stepped(cur.at(), d, 2),
        in_grid(s, cand.at()),
        !v1.cell(cand.at()),
        link.at() == stepped(cur.at(), d, 1),
        in_grid(s, link.at()),
        g2.cell(link.at()) == Cell::Empty,
        g2.cell(cand.at()) == Cell::Empty,
        forall|q: (int, int, int, int)|
            in_grid(s, q) && q != link.at() && q != cand.at()
                ==> #[trigger] g2.cell(q) == g1.cell(q),
        v2.cell(cand.at()),
        forall|q: (int, int, int, int)|
            in_grid(s, q) && q != cand.at() ==> #[trigger] v2.cell(q) == v1.cell(q),
        poss2 == poss1.push(cand),
    ensures
        is_room(s, cand.at()),
        is_link(s, link.at()),
        forall|p: (int, int, int, int)|
            in_grid(s, p) && #[trigger] v2.cell(p) ==> is_room(s, p) && g2.cell(p) == Cell::Empty,
        forall|p: (int, int, int, int)| in_grid(s, p)
            ==> #[trigger] g2.cell(p) == Cell::Empty || g2.cell(p) == Cell::Wall,
        forall|p: (int, int, int, int)|
            in_grid(s, p) && #[trigger] g2.cell(p) == Cell::Empty
                ==> (is_room(s, p) && v2.cell(p)) || is_link(s, p),
        forall|p: (int, int, int, int)|
            in_grid(s, p) && #[trigger] g2.cell(p) == Cell::Empty ==> reachable(g2, p),
        forall|p: (int, int, int, int), dd: int|
            #![trigger processed2(s, v2, p, dd)]
            processed2(s, v1, p, dd) ==> processed2(s, v2, p, dd),
        processed2(s, v2, cur.at(), d),
        forall|p: (int, int, int, int), dd: int|
            #![trigger processed2(s, v2, p, dd)]
            in_grid(s, p) && v2.cell(p) && !room_in_stack(poss2, p) && 0 <= dd < 8
                ==> processed2(s, v2, p, dd),
{
    lemma_carve_geometry(s, cur.at(), link.at(), cand.at(), d);
    assert forall|q: (int, int, int, int)|
        in_grid(s, q) && g1.cell(q) != Cell::Wall
        implies #[trigger] g2.cell(q) != Cell::Wall by {}
    // a walk reached the current room; one and two more steps reach the
    // newly carved link and room
    assert(g1.cell(cur.at()) == Cell::Empty);
    assert(reachable(g1, cur.at()));
    let s0 = choose|t: Seq<(int, int, int, int)>|
        is_path(g1, t) && t[0] == entry_pos() && t[t.len() - 1] == cur.at();
    lemma_path_preserved(g1, g2, s0);
    lemma_path_snoc(g2, s0, link.at());
    let s1 = s0.push(link.at());
    lemma_path_snoc(g2, s1, cand.at());
    assert(reachable(g2, link.at()));
    assert(reachable(g2, cand.at()));
    assert forall|p: (int, int, int, int)|
        in_grid(s, p) && #[trigger] g2.cell(p) == Cell::Empty
        implies reachable(g2, p) by {
        if p != link.at() && p != cand.at() {
            assert(g1.cell(p) == Cell::Empty);
            assert(reachable(g1, p));
            let t = choose|t: Seq<(int, int, int, int)>|
                is_path(g1, t) && t[0] == entry_pos() && t[t.len() - 1] == p;
            lemma_path_preserved(g1, g2, t);
            assert(is_path(g2, t) && t[0] == entry_pos() && t[t.len() - 1] == p);
        }
    }
    assert forall|p: (int, int, int, int), dd: int|
        #![trigger processed2(s, v2, p, dd)]
        processed2(s, v1, p, dd) implies processed2(s, v2, p, dd) by {}
    assert(v2.cell(stepped(cur.at(), d, 2)));
    assert(processed2(s, v2, cur.at(), d));
    assert(poss2[poss2.len() - 1].at() == cand.at());
    assert forall|p: (int, int, int, int)|
        room_in_stack(poss1, p) implies room_in_stack(poss2, p) by {
        let i = choose|i: int| 0 <= i < poss1.len() && poss1[i].at() == p;
        assert(poss2[i].at() == p);
    }
    assert forall|p: (int, int, int, int), dd: int|
        #![trigger processed2(s, v2, p, dd)]
        in_grid(s, p) && v2.cell(p) && !room_in_stack(poss2, p) && 0 <= dd < 8
        implies processed2(s, v2, p, dd) by {
        if p == cand.at() {
            assert(room_in_stack(poss2, p));
        } else {
            assert(v1.cell(p) == v2.cell(p));
            assert(!room_in_stack(poss1, p)) by {
                if room_in_stack(poss1, p) {
                    let i = choose|i: int| 0 <= i < poss1.len() && poss1[i].at() == p;
                    assert(poss2[i].at() == p);
                }
            }
            assert(processed2(s, v1, p, dd));
        }
    }
}

/// Carves a maze into an all-wall grid by randomized backtracking:
/// starting from the entry room, repeatedly moves to a random unvisited
/// room two steps away, opening the wall cell in between.
///
/// Afterwards every room cell is carved, every carved cell is a room or
/// a link, every carved cell can be walked to from the entry, and there
/// is exactly one more carved room than carved link. A connected graph
/// whose edge count is one less than its node count is a tree, so the
/// carving is a perfect maze: a spanning tree over the rooms.
#[verifier::rlimit(100)]
pub fn carve_maze<S: ShuffleSource>(g: &mut Grid<Cell>, src: &mut S)
    requires
        old(g).wf(),
        forall|p: (int, int, int, int)|
            in_grid(old(g).size(), p) ==> old(g).cell(p) == Cell::Wall,
        forall|i: int| 0 <= i < old(g).data().len() ==> old(g).data()[i] == Cell::Wall,
    ensures
        final(g).wf(),
        final(g).size() == old(g).size(),
        forall|p: (int, int, int, int)| in_grid(final(g).size(), p)
            ==> final(g).cell(p) == Cell::Empty || final(g).cell(p) == Cell::Wall,
        forall|p: (int, int, int, int)|
            in_grid(final(g).size(), p) && final(g).cell(p) == Cell::Empty
                ==> is_room(final(g).size(), p) || is_link(final(g).size(), p),
        forall|p: (int, int, int, int)|
            is_room(final(g).size(), p) ==> final(g).cell(p) == Cell::Empty,
        forall|p: (int, int, int, int)|
            in_grid(final(g).size(), p) && final(g).cell(p) == Cell::Empty
                ==> reachable(*final(g), p),
        room_count(*final(g)) == link_count(*final(g)) + 1,
        final(src).fixed_perm() == old(src).fixed_perm(),
        old(src).fixed_perm() == Some(ident_perm())
            ==> final(g).data() == carve_ident(old(g).size()),
{
    let size = g.side();
    let entry = Pos { x: 1, y: 1, z: 1, w: 1 };
    let mut vis: Grid<bool> = Grid::new(size, false);
    let ghost vis0 = vis;
    vis.set(entry, true);
    g.set(entry, Cell::Empty);
    let first_perm = src.next_perm();
    let mut poss: Vec<Pos> = Vec::new();
    let mut nexts: Vec<u8> = Vec::new();
    let mut perms: Vec<Vec<u8>> = Vec::new();
    poss.push(entry);
    nexts.push(0);
    perms.push(first_perm);
    proof {
        lemma_num_true_le(vis.data());
        assert(entry.at() == entry_pos());
        assert(poss@[0].at() == entry_pos());
        assert(is_path(*g, seq![entry_pos()]));
        assert(reachable(*g, entry_pos()));
        // one room and no link carved so far
        lemma_flat_idx_bounds(g.size(), entry_pos());
        lemma_pos_of_flat(g.size(), entry_pos());
        lemma_count_pred_all_wall(old(g).data(), g.size(), true);
        lemma_count_pred_all_wall(old(g).data(), g.size(), false);
        lemma_count_pred_update(old(g).data(), g.size(), true,
            flat_idx(g.size(), entry_pos()));
        lemma_count_pred_update(old(g).data(), g.size(), false,
            flat_idx(g.size(), entry_pos()));
        assert(is_room(g.size(), entry_pos()) && !is_link(g.size(), entry_pos()));
        crate::counting::lemma_num_true_zero(vis0.data());
        lemma_num_true_update(vis0.data(), flat_idx(g.size(), entry_pos()));
        assert(room_count(*g) == num_true(vis.data()));
        assert(link_count(*g) + 1 == num_true(vis.data()));
        assert forall|p: (int, int, int, int)|
            in_grid(g.size(), p) && #[trigger] g.cell(p) == Cell::Empty && is_link(g.size(), p)
            implies link_ends_visited(g.size(), vis, p) by {
            assert(p == entry_pos());
        }
        assert forall|p: (int, int, int, int), d: int|
            #![trigger processed2(g.size(), vis, p, d)]
            in_grid(g.size(), p) && vis.cell(p) && !room_in_stack(poss@, p) && 0 <= d < 8
            implies processed2(g.size(), vis, p, d) by {
            if p == entry_pos() {
                assert(room_in_stack(poss@, p));
            } else {
                assert(!vis.cell(p));
            }
        }
        if old(src).fixed_perm() == Some(ident_perm()) {
            lemma_flat_idx_bounds(g.size(), entry_pos());
            assert(g.data() =~= ident_init_cells(g.size()));
            assert(vis.data() =~= ident_init_vis(g.size()));
            assert(poss@ =~= seq![Pos { x: 1, y: 1, z: 1, w: 1 }]);
            assert(nexts@ =~= seq![0u8]);
            assert(carve_run(g.size(), g.data(), vis.data(), poss@, nexts@)
                == carve_ident(g.size()));
        }
    }
    while poss.len() > 0
        invariant
            size as int == g.size(),
            g.wf(),
            vis.wf(),
            vis.size() == g.size(),
            g.size() == old(g).size(),
            vis.cell(entry_pos()),
            num_true(vis.data()) <= vis.data().len(),
            poss@.len() == nexts@.len(),
            poss@.len() == perms@.len(),
            forall|i: int| 0 <= i < poss@.len()
                ==> is_room(g.size(), (#[trigger] poss@[i]).at()) && vis.cell(poss@[i].at()),
            forall|i: int| 0 <= i < nexts@.len() ==> #[trigger] nexts@[i] <= 8,
            forall|i: int| 0 <= i < perms@.len() ==> (#[trigger] perms@[i])@.len() == 8,
            forall|i: int, j: int| 0 <= i < perms@.len() && 0 <= j < 8
                ==> #[trigger] perms@[i]@[j] < 8,
            forall|i: int, dd: u8| 0 <= i < perms@.len() && dd < 8
                ==> #[trigger] perms@[i]@.contains(dd),
            forall|p: (int, int, int, int)|
                in_grid(g.size(), p) && #[trigger] vis.cell(p)
                    ==> is_room(g.size(), p) && g.cell(p) == Cell::Empty,
            forall|p: (int, int, int, int)| in_grid(g.size(), p)
                ==> #[trigger] g.cell(p) == Cell::Empty || g.cell(p) == Cell::Wall,
            forall|p: (int, int, int, int)|
                in_grid(g.size(), p) && #[trigger] g.cell(p) == Cell::Empty
                    ==> (is_room(g.size(), p) && vis.cell(p)) || is_link(g.size(), p),
            forall|p: (int, int, int, int)|
                in_grid(g.size(), p) && #[trigger] g.cell(p) == Cell::Empty
                    ==> reachable(*g, p),
            forall|i: int, j: int|
                #![trigger perms@[i]@[j]]
                0 <= i < poss@.len() && 0 <= j < nexts@[i] as int
                    ==> processed2(g.size(), vis, poss@[i].at(), perms@[i]@[j] as int),
            forall|p: (int, int, int, int), d: int|
                #![trigger processed2(g.size(), vis, p, d)]
                in_grid(g.size(), p) && vis.cell(p) && !room_in_stack(poss@, p) && 0 <= d < 8
                    ==> processed2(g.size(), vis, p, d),
            room_count(*g) == num_true(vis.data()),
            link_count(*g) + 1 == num_true(vis.data()),
            forall|p: (int, int, int, int)|
                in_grid(g.size(), p) && #[trigger] g.cell(p) == Cell::Empty
                    && is_link(g.size(), p)
                    ==> link_ends_visited(g.size(), vis, p),
            src.fixed_perm() == old(src).fixed_perm(),
            old(src).fixed_perm() == Some(ident_perm())
                ==> forall|i: int| 0 <= i < perms@.len()
                    ==> (#[trigger] perms@[i])@ == ident_perm(),
            old(src).fixed_perm() == Some(ident_perm())
                ==> carve_run(g.size(), g.data(), vis.data(), poss@, nexts@)
                    == carve_ident(g.size()),
        decreases
            vis.data().len() - num_true(vis.data()),
            nexts_rem(nexts@),
            poss@.len(),
    {
        let ghost old_g = *g;
        let ghost old_vis = vis;
        let ghost old_poss = poss@;
        let ghost old_nexts = nexts@;
        let ghost old_perms = perms@;
        let top_i = poss.len() - 1;
        let cur = poss[top_i];
        let nx = nexts[top_i];
        if nx == 8 {
            let _ = poss.pop();
            let _ = nexts.pop();
            let _ = perms.pop();
            proof {
                assert(poss@ =~= old_poss.drop_last());
                assert(nexts@ =~= old_nexts.drop_last());
                assert(perms@ =~= old_perms.drop_last());
                let ti = top_i as int;
                assert forall|dd: int| 0 <= dd < 8
                    implies #[trigger] processed2(g.size(), vis, cur.at(), dd) by {
                    assert(old_perms[ti]@.contains(dd as u8));
                    let j = choose|j: int|
                        0 <= j < old_perms[ti]@.len() && old_perms[ti]@[j] == dd as u8;
                    assert(processed2(g.size(), vis, old_poss[ti].at(),
                        old_perms[ti]@[j] as int));
                }
                lemma_pop_closure(g.size(), vis, old_poss, poss@, cur);
                if old(src).fixed_perm() == Some(ident_perm()) {
                    assert(cur == old_poss.last() && nx == old_nexts.last());
                    assert(carve_run(g.size(), g.data(), vis.data(), old_poss, old_nexts)
                        == carve_run(g.size(), g.data(), vis.data(), poss@, nexts@));
                }
            }
        } else {
            nexts.set(top_i, nx + 1);
            proof {
                assert(nexts_rem(nexts@) < nexts_rem(old_nexts)) by {
                    assert(nexts@.drop_last() =~= old_nexts.drop_last());
                    assert(nexts_rem(nexts@.drop_last()) == nexts_rem(old_nexts.drop_last()));
                }
            }
            let d = perms[top_i][nx as usize];
            proof {
                assert(perms@[top_i as int]@[nx as int] < 8);
                if old(src).fixed_perm() == Some(ident_perm()) {
                    assert(perms@[top_i as int]@ == ident_perm());
                    assert(d == nx);
                }
            }
            match step(cur, d, 2, size) {
                None => {
                    proof {
                        assert(processed2(g.size(), vis, cur.at(), d as int));
                        assert(perms@[top_i as int]@[nx as int] == d);
                        if old(src).fixed_perm() == Some(ident_perm()) {
                            assert(cur == old_poss.last() && nx == old_nexts.last());
                            assert(!in_grid(g.size(), stepped(cur.at(), nx as int, 2)));
                            assert(carve_run(g.size(), g.data(), vis.data(),
                                    old_poss, old_nexts)
                                == carve_run(g.size(), g.data(), vis.data(), poss@, nexts@));
                        }
                    }
                }
                Some(cand) => {
                    if vis.get(cand) {
                        proof {
                            assert(processed2(g.size(), vis, cur.at(), d as int));
                            if old(src).fixed_perm() == Some(ident_perm()) {
                                assert(cur == old_poss.last() && nx == old_nexts.last());
                                assert(vis.data()[flat_idx(g.size(),
                                    stepped(cur.at(), nx as int, 2))]);
                                assert(carve_run(g.size(), g.data(), vis.data(),
                                        old_poss, old_nexts)
                                    == carve_run(g.size(), g.data(), vis.data(),
                                        poss@, nexts@));
                            }
                        }
                    } else {
                        proof {
                            lemma_middle_in_grid(g.size(), cur.at(), d as int);
                        }
                        match step(cur, d, 1, size) {
                            None => {
                                proof {
                                    assert(false);
                                }
                            }
                            Some(link) => {
                                let perm = src.next_perm();
                                g.set(link, Cell::Empty);
                                g.set(cand, Cell::Empty);
                                vis.set(cand, true);
                                poss.push(cand);
                                nexts.push(0);
                                perms.push(perm);
                                proof {
                                    lemma_flat_idx_bounds(g.size(), cand.at());
                                    lemma_num_true_update(
                                        old_vis.data(), flat_idx(g.size(), cand.at()));
                                    lemma_num_true_le(vis.data());
                                    let s = g.size();
                                    assert forall|q: (int, int, int, int)|
                                        in_grid(s, q) && q != link.at() && q != cand.at()
                                        implies #[trigger] g.cell(q) == old_g.cell(q) by {}
                                    lemma_uncarved_link(
                                        s, old_g, old_vis, cur, link, cand, d as int);
                                    lemma_carve_counts(
                                        s, old_g, *g, cur, link, cand, d as int);
                                    lemma_carve_link_ends(
                                        s, old_g, *g, old_vis, vis, cur, link, cand,
                                        d as int);
                                    lemma_carve_step(
                                        s, old_g, *g, old_vis, vis, old_poss, poss@,
                                        cur, link, cand, d as int);
                                    assert(perms@[top_i as int] == old_perms[top_i as int]);
                                    assert(perms@[top_i as int]@[nx as int] == d);
                                    assert forall|i: int, j: int|
                                        #![trigger perms@[i]@[j]]
                                        0 <= i < poss@.len() && 0 <= j < nexts@[i] as int
                                        implies processed2(s, vis, poss@[i].at(),
                                            perms@[i]@[j] as int) by {
                                        if i < poss@.len() - 1 {
                                            if i == top_i as int && j == nx as int {
                                                assert(processed2(s, vis, cur.at(), d as int));
                                            } else {
                                                assert(0 <= j < old_nexts[i] as int);
                                                assert(processed2(s, old_vis, old_poss[i].at(),
                                                    old_perms[i]@[j] as int));
                                            }
                                        }
                                    }
                                    if old(src).fixed_perm() == Some(ident_perm()) {
                                        assert(cur == old_poss.last()
                                            && nx == old_nexts.last());
                                        assert(cand.at() == stepped(cur.at(), nx as int, 2));
                                        assert(link.at() == stepped(cur.at(), nx as int, 1));
                                        assert(!old_vis.data()[flat_idx(s, cand.at())]);
                                        assert(g.data() == old_g.data()
                                            .update(flat_idx(s, link.at()), Cell::Empty)
                                            .update(flat_idx(s, cand.at()), Cell::Empty));
                                        assert(cand == Pos {
                                            x: cand.at().0 as usize,
                                            y: cand.at().1 as usize,
                                            z: cand.at().2 as usize,
                                            w: cand.at().3 as usize,
                                        });
                                        assert(poss@ == old_poss.push(cand));
                                        assert(nexts@ =~= old_nexts.update(
                                            old_nexts.len() - 1, (nx + 1) as u8).push(0u8));
                                        assert(perms@[perms@.len() - 1]@ == ident_perm());
                                        assert(carve_run(s, old_g.data(), old_vis.data(),
                                                old_poss, old_nexts)
                                            == carve_run(s, g.data(), vis.data(),
                                                poss@, nexts@));
                                    }
                                }
                            }
                        }
                    }
                }
            }
        }
    }
    proof {
        assert forall|p: (int, int, int, int)|
            is_room(g.size(), p) implies g.cell(p) == Cell::Empty by {
            assert forall|q: (int, int, int, int), dd: int|
                #![trigger processed2(g.size(), vis, q, dd)]
                in_grid(g.size(), q) && vis.cell(q) && 0 <= dd < 8
                implies processed2(g.size(), vis, q, dd) by {
                assert(!room_in_stack(poss@, q));
            }
            lemma_rooms_visited(g.size(), vis, p);
        }
        if old(src).fixed_perm() == Some(ident_perm()) {
            assert(carve_run(g.size(), g.data(), vis.data(), poss@, nexts@) == g.data());
        }
    }
}

/// The geometric center of a grid of side `s`.
pub open spec fn center_of(s: int) -> (int, int, int, int) {
    (s / 2, s / 2, s / 2, s / 2)
}

/// The goal-region overlay: the sixteen cells whose coordinates are the
/// center coordinate or one below it along every axis.
pub open spec fn in_overlay(s: int, p: (int, int, int, int)) -> bool {
    let c = s / 2;
    &&& (p.0 == c - 1 || p.0 == c)
    &&& (p.1 == c - 1 || p.1 == c)
    &&& (p.2 == c - 1 || p.2 == c)
    &&& (p.3 == c - 1 || p.3 == c)
}

/// The visiting order of the overlay cells: offsets along `x, y, z, w`
/// read as the bits of a four-bit number.
spec fn overlay_rank(s: int, p: (int, int, int, int)) -> int {
    let c = s / 2;
    (p.0 - (c - 1)) * 8 + (p.1 - (c - 1)) * 4 + (p.2 - (c - 1)) * 2 + (p.3 - (c - 1))
}

/// With the smallest odd side length the overlay's center coincides
/// with the entry cell.
pub proof fn lemma_min_size_center()
    ensures
        center_of(3) == entry_pos(),
{
}

/// Overwrites the goal region at the grid's center: the center cell
/// becomes `Goal`, the other fifteen overlay cells become `Empty`, and
/// every cell outside the overlay is unchanged.
pub fn apply_goal_overlay(g: &mut Grid<Cell>)
    requires
        old(g).wf(),
    ensures
        final(g).wf(),
        final(g).size() == old(g).size(),
        final(g).cell(center_of(old(g).size())) == Cell::Goal,
        forall|p: (int, int, int, int)|
            in_overlay(old(g).size(), p) && p != center_of(old(g).size())
                ==> final(g).cell(p) == Cell::Empty,
        forall|p: (int, int, int, int)|
            in_grid(old(g).size(), p) && !in_overlay(old(g).size(), p)
                ==> final(g).cell(p) == old(g).cell(p),
{
    let size = g.side();
    let cm1 = size / 2 - 1;
    let mut i: usize = 0;
    while i < 16
        invariant
            g.wf(),
            g.size() == old(g).size(),
            size as int == g.size(),
            cm1 as int == g.size() / 2 - 1,
            i <= 16,
            forall|p: (int, int, int, int)|
                in_overlay(g.size(), p) && overlay_rank(g.size(), p) < i as int
                    ==> #[trigger] g.cell(p)
                        == (if p == center_of(g.size()) { Cell::Goal } else { Cell::Empty }),
            forall|p: (int, int, int, int)|
                in_grid(g.size(), p)
                    && !(in_overlay(g.size(), p) && overlay_rank(g.size(), p) < i as int)
                    ==> #[trigger] g.cell(p) == old(g).cell(p),
        decreases 16 - i,
    {
        let bx = i / 8;
        let by = (i / 4) % 2;
        let bz = (i / 2) % 2;
        let bw = i % 2;
        let pos = Pos { x: cm1 + bx, y: cm1 + by, z: cm1 + bz, w: cm1 + bw };
        proof {
            assert(i == 8 * (i / 8) + 4 * ((i / 4) % 2) + 2 * ((i / 2) % 2) + i % 2
                && i / 8 < 2 && (i / 4) % 2 < 2 && (i / 2) % 2 < 2 && i % 2 < 2) by (bit_vector)
                requires i < 16,
            ;
            assert(in_overlay(g.size(), pos.at()));
            assert(overlay_rank(g.size(), pos.at()) == i as int);
            assert(pos.at() == center_of(g.size()) <==> i == 15);
        }
        let v = if i == 15 { Cell::Goal } else { Cell::Empty };
        g.set(pos, v);
        proof {
            assert forall|p: (int, int, int, int)|
                in_overlay(g.size(), p) && overlay_rank(g.size(), p) < i as int + 1
                implies #[trigger] g.cell(p)
                    == (if p == center_of(g.size()) { Cell::Goal } else { Cell::Empty }) by {
                if overlay_rank(g.size(), p) == i as int {
                    let c = g.size() / 2;
                    assert(p.0 == pos.at().0 && p.1 == pos.at().1
                        && p.2 == pos.at().2 && p.3 == pos.at().3);
                    assert(p == pos.at());
                }
            }
        }
        i = i + 1;
    }
    proof {
        assert forall|p: (int, int, int, int)| in_overlay(g.size(), p)
            implies overlay_rank(g.size(), p) < 16 by {}
        assert(in_overlay(g.size(), center_of(g.size())));
    }
}

/// From a walk ending on the room one step below the center along every
/// axis, the opened overlay cells lead axis by axis to the goal.
#[verifier::rlimit(100)]
proof fn lemma_overlay_room_to_center(g: Grid<Cell>, t0: Seq<(int, int, int, int)>, r0: int)
    requires
        g.wf(),
        r0 == g.size() / 2 - 1,
        is_path(g, t0),
        t0[0] == entry_pos(),
        t0[t0.len() - 1] == (r0, r0, r0, r0),
        g.cell(center_of(g.size())) == Cell::Goal,
        forall|p: (int, int, int, int)|
            in_overlay(g.size(), p) && p != center_of(g.size()) ==> g.cell(p) == Cell::Empty,
    ensures
        reaches_goal(g),
{
    let s = g.size();
    let c = s / 2;
    let q1 = (c, r0, r0, r0);
    let q2 = (c, c, r0, r0);
    let q3 = (c, c, c, r0);
    let q4 = (c, c, c, c);
    assert(q1 == stepped((r0, r0, r0, r0), 1, 1) && adjacent((r0, r0, r0, r0), q1));
    assert(in_overlay(s, q1) && in_grid(s, q1) && g.cell(q1) != Cell::Wall);
    lemma_path_snoc(g, t0, q1);
    let t1 = t0.push(q1);
    assert(q2 == stepped(q1, 3, 1) && adjacent(q1, q2));
    assert(in_overlay(s, q2) && in_grid(s, q2) && g.cell(q2) != Cell::Wall);
    lemma_path_snoc(g, t1, q2);
    let t2 = t1.push(q2);
    assert(q3 == stepped(q2, 5, 1));
    assert(adjacent(q2, q3));
    assert(in_overlay(s, q3) && in_grid(s, q3) && g.cell(q3) != Cell::Wall);
    lemma_path_snoc(g, t2, q3);
    let t3 = t2.push(q3);
    assert(q4 == stepped(q3, 7, 1));
    assert(adjacent(q3, q4));
    assert(q4 == center_of(s));
    assert(in_grid(s, q4) && g.cell(q4) == Cell::Goal);
    lemma_path_snoc(g, t3, q4);
    let t4 = t3.push(q4);
    assert(path_to_goal(g, t4));
}

/// After the overlay, the goal cell can be walked to from the entry: a
/// walk reaches the room nearest the center, and from there the opened
/// overlay cells lead to the goal.
#[verifier::rlimit(100)]
proof fn lemma_overlay_reaches_goal(gm: Grid<Cell>, g: Grid<Cell>)
    requires
        gm.wf(),
        g.wf(),
        g.size() == gm.size(),
        forall|p: (int, int, int, int)| is_room(gm.size(), p) ==> gm.cell(p) == Cell::Empty,
        forall|p: (int, int, int, int)|
            in_grid(gm.size(), p) && #[trigger] gm.cell(p) == Cell::Empty ==> reachable(gm, p),
        g.cell(center_of(g.size())) == Cell::Goal,
        forall|p: (int, int, int, int)|
            in_overlay(g.size(), p) && p != center_of(g.size()) ==> g.cell(p) == Cell::Empty,
        forall|p: (int, int, int, int)|
            in_grid(g.size(), p) && !in_overlay(g.size(), p) ==> g.cell(p) == gm.cell(p),
    ensures
        reaches_goal(g),
{
    let s = g.size();
    let c = s / 2;
    assert forall|q: (int, int, int, int)|
        in_grid(s, q) && gm.cell(q) != Cell::Wall implies g.cell(q) != Cell::Wall by {
        if in_overlay(s, q) {
        }
    }
    let r0 = if c % 2 == 1 { c } else { c - 1 };
    let rc = (r0, r0, r0, r0);
    assert(is_room(s, rc));
    assert(gm.cell(rc) == Cell::Empty);
    assert(reachable(gm, rc));
    let t0 = choose|t: Seq<(int, int, int, int)>|
        is_path(gm, t) && t[0] == entry_pos() && t[t.len() - 1] == rc;
    lemma_path_preserved(gm, g, t0);
    if r0 == c {
        assert(rc == center_of(s));
        assert(path_to_goal(g, t0));
    } else {
        lemma_overlay_room_to_center(g, t0, r0);
    }
}

/// The cell at `p` of a maze generated with the identity shuffle
/// source: the overlay at the center, and elsewhere what the carver
/// deterministically produced.
pub open spec fn ident_maze_cell(s: int, p: (int, int, int, int)) -> Cell {
    if p == center_of(s) {
        Cell::Goal
    } else if in_overlay(s, p) {
        Cell::Empty
    } else {
        carve_ident(s)[flat_idx(s, p)]
    }
}

/// With a shuffle source fixed on the identity permutation, generation
/// is deterministic: any two grids it produces agree on every cell.
pub proof fn lemma_generator_deterministic(g1: Grid<Cell>, g2: Grid<Cell>)
    requires
        g1.size() == g2.size(),
        forall|p: (int, int, int, int)| in_grid(g1.size(), p)
            ==> #[trigger] g1.cell(p) == ident_maze_cell(g1.size(), p),
        forall|p: (int, int, int, int)| in_grid(g2.size(), p)
            ==> #[trigger] g2.cell(p) == ident_maze_cell(g2.size(), p),
    ensures
        forall|p: (int, int, int, int)| in_grid(g1.size(), p)
            ==> #[trigger] g1.cell(p) == g2.cell(p),
{
}

/// Generates a maze: carves a spanning maze into a fresh all-wall grid
/// with the permutations drawn from `src`, then overlays the goal
/// region at the center.
///
/// The single `Goal` cell sits at the grid's center and can always be
/// walked to from the entry cell.
#[verifier::rlimit(100)]
pub fn generate_maze<S: ShuffleSource>(size: usize, src: &mut S) -> (g: Grid<Cell>)
    requires
        3 <= size <= 63,
        size % 2 == 1,
    ensures
        g.wf(),
        g.size() == size as int,
        g.cell(center_of(g.size())) == Cell::Goal,
        forall|p: (int, int, int, int)|
            in_overlay(g.size(), p) && p != center_of(g.size()) ==> g.cell(p) == Cell::Empty,
        forall|p: (int, int, int, int)|
            in_grid(g.size(), p) && !in_overlay(g.size(), p) ==> g.cell(p) != Cell::Goal,
        forall|p: (int, int, int, int)| is_room(g.size(), p) ==> g.cell(p) != Cell::Wall,
        forall|p: (int, int, int, int)|
            in_grid(g.size(), p) && g.cell(p) != Cell::Wall
                ==> is_room(g.size(), p) || is_link(g.size(), p) || in_overlay(g.size(), p),
        reaches_goal(g),
        old(src).fixed_perm() == Some(ident_perm())
            ==> forall|p: (int, int, int, int)| in_grid(g.size(), p)
                ==> #[trigger] g.cell(p) == ident_maze_cell(g.size(), p),
{
    let mut g = Grid::new(size, Cell::Wall);
    carve_maze(&mut g, src);
    let ghost gm = g;
    apply_goal_overlay(&mut g);
    proof {
        lemma_overlay_reaches_goal(gm, g);
        if old(src).fixed_perm() == Some(ident_perm()) {
            let s = g.size();
            assert forall|p: (int, int, int, int)| in_grid(s, p)
                implies #[trigger] g.cell(p) == ident_maze_cell(s, p) by {
                if !in_overlay(s, p) {
                    assert(g.cell(p) == gm.cell(p));
                    assert(gm.cell(p) == gm.data()[flat_idx(s, p)]);
                }
            }
        }
    }
    g
}

} // verus!
