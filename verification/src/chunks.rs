//! Chunked serialization of the grid: the fixed chunk-origin table, the
//! per-cell symbols, and the nested ordered sequences each chunk is
//! emitted as.

use vstd::prelude::*;
use crate::space::Pos;
use crate::grid::{Grid, Cell};

verus! {

/// The single-character symbol a cell is serialized as.
pub open spec fn symbol_of(c: Cell) -> char {
    match c {
        Cell::Empty => ' ',
        Cell::Wall => '#',
        Cell::Goal => 'G',
    }
}

/// The serialized symbol of one cell.
pub fn cell_symbol(c: Cell) -> (r: char)
    ensures
        r == symbol_of(c),
{
    match c {
        Cell::Empty => ' ',
        Cell::Wall => '#',
        Cell::Goal => 'G',
    }
}

/// The chunk origin along one axis for chunk index `i`; the fixed table
/// covers a grid of side 31 with chunks of side 8.
pub open spec fn origin(i: int) -> int {
    if i == 0 { 0 } else if i == 1 { 8 } else if i == 2 { 15 } else { 23 }
}

/// The chunk origin along one axis for chunk index `i`.
pub fn origin_of(i: usize) -> (r: usize)
    requires
        i < 4,
    ensures
        r as int == origin(i as int),
        r + 8 <= 31,
{
    if i == 0 { 0 } else if i == 1 { 8 } else if i == 2 { 15 } else { 23 }
}

/// The comma-joined ASCII label of a chunk, one digit per axis index.
pub open spec fn key_of(i: int, j: int, k: int, l: int) -> Seq<u8> {
    seq![(48 + i) as u8, 44u8, (48 + j) as u8, 44u8, (48 + k) as u8, 44u8, (48 + l) as u8]
}

/// Builds the label bytes of the chunk with indices `i, j, k, l`.
pub fn chunk_key(i: usize, j: usize, k: usize, l: usize) -> (r: Vec<u8>)
    requires
        i < 4,
        j < 4,
        k < 4,
        l < 4,
    ensures
        r@ == key_of(i as int, j as int, k as int, l as int),
{
    let mut r: Vec<u8> = Vec::new();
    r.push(48 + i as u8);
    r.push(44);
    r.push(48 + j as u8);
    r.push(44);
    r.push(48 + k as u8);
    r.push(44);
    r.push(48 + l as u8);
    proof {
        assert(r@ =~= key_of(i as int, j as int, k as int, l as int));
    }
    r
}

/// Extracts one chunk as four nested levels of ordered sequences: the
/// outer index runs along `w`, then `z`, then `y`, and the innermost
/// sequences hold the symbols of eight cells along `x`.
pub fn chunk_cells(g: &Grid<Cell>, o: Pos) -> (r: Vec<Vec<Vec<Vec<char>>>>)
    requires
        g.wf(),
        o.x + 8 <= g.size(),
        o.y + 8 <= g.size(),
        o.z + 8 <= g.size(),
        o.w + 8 <= g.size(),
    ensures
        r@.len() == 8,
        forall|w: int| 0 <= w < 8 ==> (#[trigger] r@[w])@.len() == 8,
        forall|w: int, z: int| 0 <= w < 8 && 0 <= z < 8
            ==> (#[trigger] r@[w]@[z])@.len() == 8,
        forall|w: int, z: int, y: int| 0 <= w < 8 && 0 <= z < 8 && 0 <= y < 8
            ==> (#[trigger] r@[w]@[z]@[y])@.len() == 8,
        forall|w: int, z: int, y: int, x: int|
            0 <= w < 8 && 0 <= z < 8 && 0 <= y < 8 && 0 <= x < 8
                ==> #[trigger] r@[w]@[z]@[y]@[x]
                    == symbol_of(g.cell((o.x + x, o.y + y, o.z + z, o.w + w))),
{
    let mut r: Vec<Vec<Vec<Vec<char>>>> = Vec::new();
    let mut w: usize = 0;
    while w < 8
        invariant
            g.wf(),
            o.x + 8 <= g.size(),
            o.y + 8 <= g.size(),
            o.z + 8 <= g.size(),
            o.w + 8 <= g.size(),
            w <= 8,
            r@.len() == w,
            forall|ww: int| 0 <= ww < w as int ==> (#[trigger] r@[ww])@.len() == 8,
            forall|ww: int, z: int| 0 <= ww < w as int && 0 <= z < 8
                ==> (#[trigger] r@[ww]@[z])@.len() == 8,
            forall|ww: int, z: int, y: int| 0 <= ww < w as int && 0 <= z < 8 && 0 <= y < 8
                ==> (#[trigger] r@[ww]@[z]@[y])@.len() == 8,
            forall|ww: int, z: int, y: int, x: int|
                0 <= ww < w as int && 0 <= z < 8 && 0 <= y < 8 && 0 <= x < 8
                    ==> #[trigger] r@[ww]@[z]@[y]@[x]
                        == symbol_of(g.cell((o.x + x, o.y + y, o.z + z, o.w + ww))),
        decreases 8 - w,
    {
        let mut cube: Vec<Vec<Vec<char>>> = Vec::new();
        let mut z: usize = 0;
        while z < 8
            invariant
                g.wf(),
                o.x + 8 <= g.size(),
                o.y + 8 <= g.size(),
                o.z + 8 <= g.size(),
                o.w + 8 <= g.size(),
                w < 8,
                z <= 8,
                cube@.len() == z,
                forall|zz: int| 0 <= zz < z as int ==> (#[trigger] cube@[zz])@.len() == 8,
                forall|zz: int, y: int| 0 <= zz < z as int && 0 <= y < 8
                    ==> (#[trigger] cube@[zz]@[y])@.len() == 8,
                forall|zz: int, y: int, x: int|
                    0 <= zz < z as int && 0 <= y < 8 && 0 <= x < 8
                        ==> #[trigger] cube@[zz]@[y]@[x]
                            == symbol_of(g.cell((o.x + x, o.y + y, o.z + zz, o.w + w))),
            decreases 8 - z,
        {
            let mut plane: Vec<Vec<char>> = Vec::new();
            let mut y: usize = 0;
            while y < 8
                invariant
                    g.wf(),
                    o.x + 8 <= g.size(),
                    o.y + 8 <= g.size(),
                    o.z + 8 <= g.size(),
                    o.w + 8 <= g.size(),
                    w < 8,
                    z < 8,
                    y <= 8,
                    plane@.len() == y,
                    forall|yy: int| 0 <= yy < y as int ==> (#[trigger] plane@[yy])@.len() == 8,
                    forall|yy: int, x: int| 0 <= yy < y as int && 0 <= x < 8
                        ==> #[trigger] plane@[yy]@[x]
                            == symbol_of(g.cell((o.x + x, o.y + yy, o.z + z, o.w + w))),
                decreases 8 - y,
            {
                let mut line: Vec<char> = Vec::new();
                let mut x: usize = 0;
                while x < 8
                    invariant
                        g.wf(),
                        o.x + 8 <= g.size(),
                        o.y + 8 <= g.size(),
                        o.z + 8 <= g.size(),
                        o.w + 8 <= g.size(),
                        w < 8,
                        z < 8,
                        y < 8,
                        x <= 8,
                        line@.len() == x,
                        forall|xx: int| 0 <= xx < x as int
                            ==> #[trigger] line@[xx]
                                == symbol_of(g.cell((o.x + xx, o.y + y, o.z + z, o.w + w))),
                    decreases 8 - x,
                {
                    let cpos = Pos { x: o.x + x, y: o.y + y, z: o.z + z, w: o.w + w };
                    line.push(cell_symbol(g.get(cpos)));
                    x = x + 1;
                }
                plane.push(line);
                y = y + 1;
            }
            cube.push(plane);
            z = z + 1;
        }
        r.push(cube);
        w = w + 1;
    }
    r
}

/// One serialized chunk: its label bytes and its nested cell symbols.
pub struct ChunkEntry {
    pub key: Vec<u8>,
    pub cells: Vec<Vec<Vec<Vec<char>>>>,
}

/// `e` is the correct serialization of the chunk with indices
/// `i, j, k, l`: the comma-joined label and, nested by `w`, `z`, `y`,
/// the symbols of the eight cells along `x` from the chunk's origin.
pub open spec fn entry_ok(g: Grid<Cell>, e: ChunkEntry, i: int, j: int, k: int, l: int) -> bool {
    &&& e.key@ == key_of(i, j, k, l)
    &&& e.cells@.len() == 8
    &&& forall|w: int| 0 <= w < 8 ==> (#[trigger] e.cells@[w])@.len() == 8
    &&& forall|w: int, z: int| 0 <= w < 8 && 0 <= z < 8
            ==> (#[trigger] e.cells@[w]@[z])@.len() == 8
    &&& forall|w: int, z: int, y: int| 0 <= w < 8 && 0 <= z < 8 && 0 <= y < 8
            ==> (#[trigger] e.cells@[w]@[z]@[y])@.len() == 8
    &&& forall|w: int, z: int, y: int, x: int|
            0 <= w < 8 && 0 <= z < 8 && 0 <= y < 8 && 0 <= x < 8
                ==> #[trigger] e.cells@[w]@[z]@[y]@[x]
                    == symbol_of(g.cell((origin(i) + x, origin(j) + y, origin(k) + z, origin(l) + w)))
}

/// Serializes the whole grid as 256 chunks, one per combination of the
/// four chunk indices along each axis, ordered with the `x` index
/// outermost and the `w` index innermost.
pub fn serialize_grid(g: &Grid<Cell>) -> (out: Vec<ChunkEntry>)
    requires
        g.wf(),
        g.size() == 31,
    ensures
        out@.len() == 256,
        forall|i: int, j: int, k: int, l: int|
            0 <= i < 4 && 0 <= j < 4 && 0 <= k < 4 && 0 <= l < 4
                ==> entry_ok(*g, #[trigger] out@[((i * 4 + j) * 4 + k) * 4 + l], i, j, k, l),
{
    let mut out: Vec<ChunkEntry> = Vec::new();
    let mut n: usize = 0;
    while n < 256
        invariant
            g.wf(),
            g.size() == 31,
            n <= 256,
            out@.len() == n,
            forall|i: int, j: int, k: int, l: int|
                0 <= i < 4 && 0 <= j < 4 && 0 <= k < 4 && 0 <= l < 4
                    && ((i * 4 + j) * 4 + k) * 4 + l < n as int
                    ==> entry_ok(*g, #[trigger] out@[((i * 4 + j) * 4 + k) * 4 + l], i, j, k, l),
        decreases 256 - n,
    {
        let i = n / 64;
        let j = (n / 16) % 4;
        let k = (n / 4) % 4;
        let l = n % 4;
        proof {
            assert(n == 64 * (n / 64) + 16 * ((n / 16) % 4) + 4 * ((n / 4) % 4) + n % 4
                && n / 64 < 4 && (n / 16) % 4 < 4 && (n / 4) % 4 < 4 && n % 4 < 4) by (bit_vector)
                requires n < 256,
            ;
        }
        let key = chunk_key(i, j, k, l);
        let o = Pos { x: origin_of(i), y: origin_of(j), z: origin_of(k), w: origin_of(l) };
        let cells = chunk_cells(g, o);
        out.push(ChunkEntry { key, cells });
        proof {
            assert(((i as int * 4 + j as int) * 4 + k as int) * 4 + l as int == n as int);
            assert forall|i2: int, j2: int, k2: int, l2: int|
                0 <= i2 < 4 && 0 <= j2 < 4 && 0 <= k2 < 4 && 0 <= l2 < 4
                    && ((i2 * 4 + j2) * 4 + k2) * 4 + l2 < n as int + 1
                implies entry_ok(*g, #[trigger] out@[((i2 * 4 + j2) * 4 + k2) * 4 + l2],
                    i2, j2, k2, l2) by {
                let idx = ((i2 * 4 + j2) * 4 + k2) * 4 + l2;
                if idx == n as int {
                    assert(l2 == l as int && k2 == k as int && j2 == j as int && i2 == i as int);
                    assert(entry_ok(*g, out@[idx], i2, j2, k2, l2));
                } else {
                    assert(entry_ok(*g, out@[idx], i2, j2, k2, l2));
                }
            }
        }
        n = n + 1;
    }
    out
}

} // verus!
