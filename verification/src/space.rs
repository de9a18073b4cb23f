//! Geometry of the four-dimensional grid: positions, the eight unit
//! direction vectors, and the flat row-major indexing scheme.

use vstd::prelude::*;

verus! {

/// A grid coordinate along each of the four axes `x, y, z, w`.
#[derive(Clone, Copy, PartialEq, Eq, Structural)]
pub struct Pos {
    pub x: usize,
    pub y: usize,
    pub z: usize,
    pub w: usize,
}

impl Pos {
    /// The mathematical view of a position: a 4-tuple of integers.
    pub open spec fn at(self) -> (int, int, int, int) {
        (self.x as int, self.y as int, self.z as int, self.w as int)
    }
}

/// All four coordinates lie in `[0, s)`.
pub open spec fn in_grid(s: int, p: (int, int, int, int)) -> bool {
    &&& 0 <= p.0 < s
    &&& 0 <= p.1 < s
    &&& 0 <= p.2 < s
    &&& 0 <= p.3 < s
}

/// Row-major flat index of a position in a grid of side `s`.
pub open spec fn flat_idx(s: int, p: (int, int, int, int)) -> int {
    ((p.0 * s + p.1) * s + p.2) * s + p.3
}

/// Intermediate bounds of the flat-index computation: each partial sum is
/// below the corresponding power of the side length.
pub proof fn lemma_flat_parts(s: int, p: (int, int, int, int))
    requires
        0 < s,
        in_grid(s, p),
    ensures
        0 <= p.0 * s + p.1 < s * s,
        0 <= (p.0 * s + p.1) * s + p.2 < s * s * s,
        0 <= flat_idx(s, p) < s * s * s * s,
{
    let a = p.0;
    let b = p.1;
    let c = p.2;
    let d = p.3;
    assert(0 <= a * s + b < s * s) by (nonlinear_arith)
        requires 0 < s, 0 <= a < s, 0 <= b < s,
    {}
    let t1 = a * s + b;
    assert(0 <= t1 * s + c < s * s * s) by (nonlinear_arith)
        requires 0 < s, 0 <= t1 < s * s, 0 <= c < s,
    {}
    let t2 = t1 * s + c;
    assert(0 <= t2 * s + d < s * s * s * s) by (nonlinear_arith)
        requires 0 < s, 0 <= t2 < s * s * s, 0 <= d < s,
    {}
}

/// A flat index is within the total cell count.
pub proof fn lemma_flat_idx_bounds(s: int, p: (int, int, int, int))
    requires
        0 < s,
        in_grid(s, p),
    ensures
        0 <= flat_idx(s, p) < s * s * s * s,
{
    lemma_flat_parts(s, p);
}

proof fn lemma_digit(s: int, a: int, b: int, a2: int, b2: int)
    requires
        0 < s,
        0 <= b < s,
        0 <= b2 < s,
        a * s + b == a2 * s + b2,
    ensures
        a == a2,
        b == b2,
{
    assert(a == a2 && b == b2) by (nonlinear_arith)
        requires 0 < s, 0 <= b < s, 0 <= b2 < s, a * s + b == a2 * s + b2,
    {}
}

/// Distinct in-bounds positions have distinct flat indices.
pub proof fn lemma_flat_idx_inj(s: int, p: (int, int, int, int), q: (int, int, int, int))
    requires
        0 < s,
        in_grid(s, p),
        in_grid(s, q),
        flat_idx(s, p) == flat_idx(s, q),
    ensures
        p == q,
{
    lemma_digit(s, (p.0 * s + p.1) * s + p.2, p.3, (q.0 * s + q.1) * s + q.2, q.3);
    lemma_digit(s, p.0 * s + p.1, p.2, q.0 * s + q.1, q.2);
    lemma_digit(s, p.0, p.1, q.0, q.1);
    assert(p.0 == q.0 && p.1 == q.1 && p.2 == q.2 && p.3 == q.3);
}

/// The unit direction vector with index `d`, in the fixed enumeration
/// order: -x, +x, -y, +y, -z, +z, -w, +w.
pub open spec fn delta(d: int) -> (int, int, int, int) {
    if d == 0 { (-1, 0, 0, 0) }
    else if d == 1 { (1, 0, 0, 0) }
    else if d == 2 { (0, -1, 0, 0) }
    else if d == 3 { (0, 1, 0, 0) }
    else if d == 4 { (0, 0, -1, 0) }
    else if d == 5 { (0, 0, 1, 0) }
    else if d == 6 { (0, 0, 0, -1) }
    else { (0, 0, 0, 1) }
}

/// The position `k` steps from `p` along direction `d`.
pub open spec fn stepped(p: (int, int, int, int), d: int, k: int) -> (int, int, int, int) {
    (p.0 + delta(d).0 * k, p.1 + delta(d).1 * k, p.2 + delta(d).2 * k, p.3 + delta(d).3 * k)
}

/// Two positions are adjacent when one unit step along some direction
/// leads from the first to the second.
pub open spec fn adjacent(p: (int, int, int, int), q: (int, int, int, int)) -> bool {
    exists|d: int| 0 <= d < 8 && q == #[trigger] stepped(p, d, 1)
}

/// Moves `k` steps (1 or 2) along direction `d`, or reports that the
/// destination would leave the grid.
pub fn step(p: Pos, d: u8, k: usize, size: usize) -> (r: Option<Pos>)
    requires
        d < 8,
        1 <= k <= 2,
        size <= 63,
        in_grid(size as int, p.at()),
    ensures
        match r {
            Some(q) => q.at() == stepped(p.at(), d as int, k as int)
                && in_grid(size as int, q.at()),
            None => !in_grid(size as int, stepped(p.at(), d as int, k as int)),
        },
{
    match d {
        0 => if p.x >= k { Some(Pos { x: p.x - k, ..p }) } else { None },
        1 => if p.x + k < size { Some(Pos { x: p.x + k, ..p }) } else { None },
        2 => if p.y >= k { Some(Pos { y: p.y - k, ..p }) } else { None },
        3 => if p.y + k < size { Some(Pos { y: p.y + k, ..p }) } else { None },
        4 => if p.z >= k { Some(Pos { z: p.z - k, ..p }) } else { None },
        5 => if p.z + k < size { Some(Pos { z: p.z + k, ..p }) } else { None },
        6 => if p.w >= k { Some(Pos { w: p.w - k, ..p }) } else { None },
        _ => if p.w + k < size { Some(Pos { w: p.w + k, ..p }) } else { None },
    }
}

} // verus!
