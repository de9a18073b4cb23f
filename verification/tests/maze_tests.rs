use mazegen::chunks::{cell_symbol, chunk_cells, chunk_key, origin_of, serialize_grid};
use mazegen::generator::{apply_goal_overlay, carve_maze, generate_maze};
use mazegen::grid::{Cell, Grid};
use mazegen::shuffle::{IdentityShuffle, RandomShuffle, ShuffleSource};
use mazegen::solver::solve_maze;
use mazegen::space::Pos;

fn at(x: usize, y: usize, z: usize, w: usize) -> Pos {
    Pos { x, y, z, w }
}

#[test]
fn identity_shuffle_returns_identity() {
    let mut src = IdentityShuffle;
    let p = src.next_perm();
    assert_eq!(p, vec![0, 1, 2, 3, 4, 5, 6, 7]);
}

#[test]
fn random_shuffle_returns_permutation() {
    let mut src = RandomShuffle;
    for _ in 0..20 {
        let p = src.next_perm();
        assert_eq!(p.len(), 8);
        for d in 0u8..8 {
            assert!(p.contains(&d), "missing direction index {d}");
        }
    }
}

#[test]
fn fresh_grid_is_all_wall() {
    let g: Grid<Cell> = Grid::new(3, Cell::Wall);
    for x in 0..3 {
        for y in 0..3 {
            for z in 0..3 {
                for w in 0..3 {
                    assert_eq!(g.get(at(x, y, z, w)), Cell::Wall);
                }
            }
        }
    }
}

#[test]
fn grid_set_then_get() {
    let mut g: Grid<Cell> = Grid::new(5, Cell::Wall);
    g.set(at(1, 2, 3, 4), Cell::Goal);
    assert_eq!(g.get(at(1, 2, 3, 4)), Cell::Goal);
    assert_eq!(g.get(at(4, 3, 2, 1)), Cell::Wall);
}

#[test]
fn solver_no_goal_means_no_solution() {
    let mut g: Grid<Cell> = Grid::new(5, Cell::Wall);
    g.set(at(1, 1, 1, 1), Cell::Empty);
    g.set(at(2, 1, 1, 1), Cell::Empty);
    assert_eq!(solve_maze(&g), None);
}

#[test]
fn solver_walled_entry_means_no_solution() {
    let g: Grid<Cell> = Grid::new(5, Cell::Wall);
    assert_eq!(solve_maze(&g), None);
}

#[test]
fn solver_goal_on_entry_is_zero() {
    let mut g: Grid<Cell> = Grid::new(5, Cell::Wall);
    g.set(at(1, 1, 1, 1), Cell::Goal);
    assert_eq!(solve_maze(&g), Some(0));
}

#[test]
fn solver_adjacent_goal_is_one_step() {
    let mut g: Grid<Cell> = Grid::new(5, Cell::Wall);
    g.set(at(1, 1, 1, 1), Cell::Empty);
    g.set(at(2, 1, 1, 1), Cell::Goal);
    assert_eq!(solve_maze(&g), Some(1));
}

#[test]
fn solver_follows_corridor() {
    // a corridor of four unit steps ending on the goal
    let mut g: Grid<Cell> = Grid::new(7, Cell::Wall);
    g.set(at(1, 1, 1, 1), Cell::Empty);
    g.set(at(2, 1, 1, 1), Cell::Empty);
    g.set(at(3, 1, 1, 1), Cell::Empty);
    g.set(at(3, 2, 1, 1), Cell::Empty);
    g.set(at(3, 3, 1, 1), Cell::Goal);
    assert_eq!(solve_maze(&g), Some(4));
}

#[test]
fn overlay_places_goal_and_empties_region() {
    let mut g: Grid<Cell> = Grid::new(31, Cell::Wall);
    apply_goal_overlay(&mut g);
    for dx in 0..2 {
        for dy in 0..2 {
            for dz in 0..2 {
                for dw in 0..2 {
                    let p = at(14 + dx, 14 + dy, 14 + dz, 14 + dw);
                    let expected = if dx == 1 && dy == 1 && dz == 1 && dw == 1 {
                        Cell::Goal
                    } else {
                        Cell::Empty
                    };
                    assert_eq!(g.get(p), expected);
                }
            }
        }
    }
    assert_eq!(g.get(at(16, 15, 15, 15)), Cell::Wall);
}

#[test]
fn generated_maze_has_goal_only_at_center() {
    let mut src = IdentityShuffle;
    let g = generate_maze(31, &mut src);
    for x in 0..31 {
        for y in 0..31 {
            for z in 0..31 {
                for w in 0..31 {
                    let c = g.get(at(x, y, z, w));
                    if (x, y, z, w) == (15, 15, 15, 15) {
                        assert_eq!(c, Cell::Goal);
                    } else {
                        assert_ne!(c, Cell::Goal);
                    }
                }
            }
        }
    }
}

#[test]
fn generated_maze_carves_every_room() {
    let mut src = IdentityShuffle;
    let g = generate_maze(31, &mut src);
    for x in (1..31).step_by(2) {
        for y in (1..31).step_by(2) {
            for z in (1..31).step_by(2) {
                for w in (1..31).step_by(2) {
                    assert_ne!(g.get(at(x, y, z, w)), Cell::Wall);
                }
            }
        }
    }
}

#[test]
fn generated_maze_keeps_boundary_walls_outside_overlay() {
    let mut src = IdentityShuffle;
    let g = generate_maze(31, &mut src);
    // cells with two even coordinates are neither rooms nor links, and
    // away from the overlay they must still be walls
    assert_eq!(g.get(at(0, 0, 1, 1)), Cell::Wall);
    assert_eq!(g.get(at(2, 4, 1, 3)), Cell::Wall);
    assert_eq!(g.get(at(30, 30, 29, 29)), Cell::Wall);
}

#[test]
fn end_to_end_generated_maze_is_solvable() {
    let mut src = IdentityShuffle;
    let g = generate_maze(31, &mut src);
    let r = solve_maze(&g);
    match r {
        Some(n) => assert!(n > 0, "entry is not the goal on a 31-grid"),
        None => panic!("generated maze must be solvable"),
    }
}

#[test]
fn end_to_end_random_maze_is_solvable() {
    let mut src = RandomShuffle;
    let g = generate_maze(31, &mut src);
    assert!(solve_maze(&g).is_some());
}

#[test]
fn minimal_grid_goal_coincides_with_entry() {
    let mut src = IdentityShuffle;
    let g = generate_maze(3, &mut src);
    assert_eq!(g.get(at(1, 1, 1, 1)), Cell::Goal);
    assert_eq!(solve_maze(&g), Some(0));
}

#[test]
fn solver_is_idempotent_on_one_grid() {
    let mut src = IdentityShuffle;
    let g = generate_maze(31, &mut src);
    let first = solve_maze(&g);
    let second = solve_maze(&g);
    assert_eq!(first, second);
}

#[test]
fn identity_shuffle_generation_is_reproducible() {
    let mut src1 = IdentityShuffle;
    let g1 = generate_maze(31, &mut src1);
    let mut src2 = IdentityShuffle;
    let g2 = generate_maze(31, &mut src2);
    for x in 0..31 {
        for y in 0..31 {
            for z in 0..31 {
                for w in 0..31 {
                    assert_eq!(g1.get(at(x, y, z, w)), g2.get(at(x, y, z, w)));
                }
            }
        }
    }
    assert_eq!(solve_maze(&g1), solve_maze(&g2));
}

fn count_carved(g: &Grid<Cell>, size: usize) -> (usize, usize) {
    let mut rooms = 0;
    let mut links = 0;
    for x in 0..size {
        for y in 0..size {
            for z in 0..size {
                for w in 0..size {
                    if g.get(at(x, y, z, w)) == Cell::Empty {
                        let odd = [x % 2, y % 2, z % 2, w % 2];
                        let odd_count: usize = odd.iter().sum();
                        if odd_count == 4 {
                            rooms += 1;
                        } else if odd_count == 3 {
                            links += 1;
                        } else {
                            panic!("carved cell with more than one even coordinate");
                        }
                    }
                }
            }
        }
    }
    (rooms, links)
}

#[test]
fn carving_is_a_spanning_tree_identity_source() {
    let mut g: Grid<Cell> = Grid::new(9, Cell::Wall);
    let mut src = IdentityShuffle;
    carve_maze(&mut g, &mut src);
    let (rooms, links) = count_carved(&g, 9);
    // all 4^4 rooms carved, and one link fewer: a spanning tree
    assert_eq!(rooms, 256);
    assert_eq!(links, 255);
}

#[test]
fn carving_is_a_spanning_tree_random_source() {
    let mut g: Grid<Cell> = Grid::new(9, Cell::Wall);
    let mut src = RandomShuffle;
    carve_maze(&mut g, &mut src);
    let (rooms, links) = count_carved(&g, 9);
    assert_eq!(rooms, 256);
    assert_eq!(links, 255);
}

#[test]
fn cell_symbols() {
    assert_eq!(cell_symbol(Cell::Empty), ' ');
    assert_eq!(cell_symbol(Cell::Wall), '#');
    assert_eq!(cell_symbol(Cell::Goal), 'G');
}

#[test]
fn chunk_origin_table() {
    assert_eq!(origin_of(0), 0);
    assert_eq!(origin_of(1), 8);
    assert_eq!(origin_of(2), 15);
    assert_eq!(origin_of(3), 23);
}

#[test]
fn chunk_key_bytes() {
    assert_eq!(chunk_key(0, 1, 2, 3), b"0,1,2,3".to_vec());
    assert_eq!(chunk_key(3, 3, 3, 3), b"3,3,3,3".to_vec());
}

#[test]
fn chunk_cells_reads_nested_order() {
    let mut g: Grid<Cell> = Grid::new(31, Cell::Wall);
    g.set(at(0, 0, 0, 0), Cell::Goal);
    g.set(at(5, 4, 3, 2), Cell::Empty);
    let c = chunk_cells(&g, at(0, 0, 0, 0));
    assert_eq!(c.len(), 8);
    // nesting is w, z, y, x
    assert_eq!(c[0][0][0][0], 'G');
    assert_eq!(c[2][3][4][5], ' ');
    assert_eq!(c[1][1][1][1], '#');
}

#[test]
fn serialize_grid_covers_all_chunks() {
    let mut src = IdentityShuffle;
    let g = generate_maze(31, &mut src);
    let out = serialize_grid(&g);
    assert_eq!(out.len(), 256);
    assert_eq!(out[0].key, b"0,0,0,0".to_vec());
    assert_eq!(out[255].key, b"3,3,3,3".to_vec());
    // the goal cell sits in the chunk with origins (8, 8, 8, 8) at
    // local offset (7, 7, 7, 7); entries are ordered x, y, z, w
    let e = &out[((1 * 4 + 1) * 4 + 1) * 4 + 1];
    assert_eq!(e.key, b"1,1,1,1".to_vec());
    assert_eq!(e.cells[7][7][7][7], 'G');
    // spot-check an arbitrary cell against the grid
    let e2 = &out[((2 * 4 + 0) * 4 + 1) * 4 + 3];
    assert_eq!(e2.key, b"2,0,1,3".to_vec());
    let expected = cell_symbol(g.get(at(15 + 4, 0 + 6, 8 + 1, 23 + 2)));
    assert_eq!(e2.cells[2][1][6][4], expected);
}
