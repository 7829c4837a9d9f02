use pacman::connect::ensure_connected;
use pacman::grid::{Grid, Pos, Tile};
use pacman::maze::{carve_ghost_pen, generate_maze, pick_ghost_spawns};
use pacman::pen::{is_in_pen, pen_bounds, PenBounds};
use rand::rngs::StdRng;
use rand::SeedableRng;
use std::collections::VecDeque;

fn at(g: &Grid, x: usize, y: usize) -> Tile {
    g.tiles[y * g.width + x]
}

fn walkable(g: &Grid, pen: &PenBounds, x: usize, y: usize) -> bool {
    let in_pen = x >= pen.x0 && x <= pen.x1 && y >= pen.y0 && y <= pen.y1;
    let t = at(g, x, y);
    !in_pen && t != Tile::Wall && t != Tile::Gate
}

fn reachable_count(g: &Grid, pen: &PenBounds) -> (usize, usize) {
    let mut total = 0;
    let mut start = None;
    for y in 1..g.height - 1 {
        for x in 1..g.width - 1 {
            if walkable(g, pen, x, y) {
                total += 1;
                if start.is_none() {
                    start = Some((x, y));
                }
            }
        }
    }
    let mut seen = vec![false; g.width * g.height];
    let mut q = VecDeque::new();
    let mut count = 0;
    if let Some((sx, sy)) = start {
        seen[sy * g.width + sx] = true;
        q.push_back((sx, sy));
        count = 1;
    }
    while let Some((x, y)) = q.pop_front() {
        for (nx, ny) in [(x, y - 1), (x, y + 1), (x - 1, y), (x + 1, y)] {
            if nx == 0 || ny == 0 || nx >= g.width - 1 || ny >= g.height - 1 {
                continue;
            }
            if !seen[ny * g.width + nx] && walkable(g, pen, nx, ny) {
                seen[ny * g.width + nx] = true;
                count += 1;
                q.push_back((nx, ny));
            }
        }
    }
    (count, total)
}

#[test]
fn outer_ring_is_wall_31_by_21() {
    let mut rng = StdRng::seed_from_u64(1);
    let (grid, _, _, _) = generate_maze(&mut rng, 31, 21);
    assert_eq!(grid.width, 31);
    assert_eq!(grid.height, 21);
    for x in 0..31 {
        assert_eq!(at(&grid, x, 0), Tile::Wall);
        assert_eq!(at(&grid, x, 20), Tile::Wall);
    }
    for y in 0..21 {
        assert_eq!(at(&grid, 0, y), Tile::Wall);
        assert_eq!(at(&grid, 30, y), Tile::Wall);
    }
}

#[test]
fn pellet_count_matches_grid() {
    for seed in 0..20u64 {
        let mut rng = StdRng::seed_from_u64(seed);
        let (grid, pellets, _, _) = generate_maze(&mut rng, 31, 21);
        let counted = grid.tiles.iter().filter(|t| **t == Tile::Pellet || **t == Tile::Power).count();
        assert_eq!(pellets, counted);
        assert!(pellets > 0);
    }
}

#[test]
fn generated_maze_is_connected_outside_pen() {
    for seed in 0..20u64 {
        let mut rng = StdRng::seed_from_u64(seed);
        let (grid, _, _, pen) = generate_maze(&mut rng, 31, 21);
        let (count, total) = reachable_count(&grid, &pen);
        assert_eq!(count, total, "seed {}", seed);
    }
}

#[test]
fn other_sizes_are_connected() {
    for (w, h) in [(15usize, 11usize), (21, 15), (13, 13), (13, 9)] {
        for seed in 0..10u64 {
            let mut rng = StdRng::seed_from_u64(seed);
            let (grid, _, spawns, pen) = generate_maze(&mut rng, w, h);
            let (count, total) = reachable_count(&grid, &pen);
            assert_eq!(count, total, "{}x{} seed {}", w, h, seed);
            assert_eq!(spawns.len(), 4);
        }
    }
}

#[test]
fn smallest_sizes_generate() {
    for (w, h) in [(5usize, 9usize), (11, 9), (7, 11), (13, 5), (31, 7)] {
        let mut rng = StdRng::seed_from_u64(3);
        let (grid, pellets, spawns, _) = generate_maze(&mut rng, w, h);
        assert_eq!(grid.tiles.len(), w * h);
        let counted = grid.tiles.iter().filter(|t| **t == Tile::Pellet || **t == Tile::Power).count();
        assert_eq!(pellets, counted);
        assert_eq!(spawns.len(), 4);
    }
}

#[test]
fn ghost_spawns_inside_pen_and_power_in_corners() {
    let mut rng = StdRng::seed_from_u64(7);
    let (grid, _, spawns, pen) = generate_maze(&mut rng, 31, 21);
    assert_eq!(pen, PenBounds { x0: 11, y0: 8, x1: 19, y1: 12 });
    assert_eq!(spawns.len(), 4);
    for s in &spawns {
        assert!(s.x > pen.x0 && s.x < pen.x1 && s.y > pen.y0 && s.y < pen.y1);
        assert_eq!(at(&grid, s.x, s.y), Tile::Empty);
    }
    assert_eq!(spawns[0], Pos { x: 12, y: 9 });
    assert_eq!(at(&grid, 15, 8), Tile::Gate);
    for (x, y) in [(1, 1), (29, 1), (1, 19), (29, 19)] {
        let t = at(&grid, x, y);
        assert!(t == Tile::Power || t == Tile::Wall);
    }
    assert_ne!(at(&grid, 15, 7), Tile::Wall);
}

#[test]
fn pen_bounds_default_and_minimal() {
    assert_eq!(pen_bounds(31, 21), PenBounds { x0: 11, y0: 8, x1: 19, y1: 12 });
    assert_eq!(pen_bounds(5, 9), PenBounds { x0: 1, y0: 2, x1: 3, y1: 6 });
    assert_eq!(pen_bounds(8, 8), PenBounds { x0: 1, y0: 1, x1: 5, y1: 5 });
    assert!(is_in_pen(Pos { x: 11, y: 8 }, 31, 21));
    assert!(!is_in_pen(Pos { x: 10, y: 8 }, 31, 21));
}

#[test]
fn pick_ghost_spawns_pads_with_first() {
    let one = vec![Pos { x: 3, y: 4 }];
    assert_eq!(pick_ghost_spawns(&one), vec![Pos { x: 3, y: 4 }; 4]);
    let many: Vec<Pos> = (0..6).map(|i| Pos { x: i, y: 1 }).collect();
    assert_eq!(pick_ghost_spawns(&many), many[..4].to_vec());
    assert!(pick_ghost_spawns(&Vec::new()).is_empty());
}

#[test]
fn carve_ghost_pen_opens_corridor() {
    let grid_tiles = vec![Tile::Wall; 11 * 9];
    let mut grid = Grid { width: 11, height: 9, tiles: grid_tiles };
    let (all, door, spawns, pen) = carve_ghost_pen(&mut grid, 11, 9);
    assert_eq!(all.len(), spawns.len() + 1);
    assert_eq!(all[all.len() - 1], door);
    assert_eq!(spawns[0], Pos { x: 2, y: 3 });
    assert_eq!(spawns[7], Pos { x: 2, y: 4 });
    assert_eq!(pen, PenBounds { x0: 1, y0: 2, x1: 9, y1: 6 });
    assert_eq!(door, Pos { x: 5, y: 2 });
    assert_eq!(at(&grid, 5, 2), Tile::Gate);
    assert_eq!(at(&grid, 5, 1), Tile::Empty);
    assert_eq!(at(&grid, 5, 0), Tile::Wall);
    assert_eq!(spawns.len(), 7 * 3);
    assert_eq!(at(&grid, 2, 3), Tile::Empty);
    assert_eq!(at(&grid, 1, 3), Tile::Wall);
}

#[test]
fn repair_opens_a_separating_wall() {
    // Two open pockets split by one wall column.
    let (w, h) = (7usize, 5usize);
    let mut tiles = vec![Tile::Wall; w * h];
    for y in 1..4 {
        for x in [1usize, 2, 4, 5] {
            tiles[y * w + x] = Tile::Empty;
        }
    }
    let mut grid = Grid { width: w, height: h, tiles };
    let pen = PenBounds { x0: 100, y0: 100, x1: 102, y1: 102 };
    let connected = ensure_connected(&mut grid, &pen);
    assert!(connected);
    let opened = (1..4).filter(|y| at(&grid, 3, *y) == Tile::Empty).count();
    assert_eq!(opened, 1);
    assert_eq!(at(&grid, 3, 1), Tile::Empty);
}

#[test]
fn narrow_maze_can_split_around_pen() {
    // At 11 wide the pen spans every cell column and cuts the top row from
    // the bottom one.
    let mut split = false;
    for seed in 0..20u64 {
        let mut rng = StdRng::seed_from_u64(seed);
        let (grid, _, _, pen) = generate_maze(&mut rng, 11, 9);
        let (count, total) = reachable_count(&grid, &pen);
        if count < total {
            split = true;
        }
    }
    assert!(split);
}

#[test]
fn flat_grid_keeps_cells_open_beside_pen() {
    let mut rng = StdRng::seed_from_u64(5);
    let (grid, _, spawns, pen) = generate_maze(&mut rng, 31, 7);
    assert_eq!(pen, PenBounds { x0: 11, y0: 1, x1: 19, y1: 5 });
    assert_eq!(spawns.len(), 4);
    for y in [1usize, 3, 5] {
        for x in [1usize, 3, 5, 7, 9, 21, 23, 25, 27, 29] {
            let t = at(&grid, x, y);
            assert!(t != Tile::Wall && t != Tile::Gate, "({}, {})", x, y);
        }
    }
}

#[test]
fn pellets_fill_every_open_tile_outside_pen() {
    for seed in 0..5u64 {
        let mut rng = StdRng::seed_from_u64(seed);
        let (grid, _, spawns, pen) = generate_maze(&mut rng, 31, 21);
        for y in 0..grid.height {
            for x in 0..grid.width {
                let t = at(&grid, x, y);
                let inside = x >= pen.x0 && x <= pen.x1 && y >= pen.y0 && y <= pen.y1;
                if inside {
                    let ring = x == pen.x0 || x == pen.x1 || y == pen.y0 || y == pen.y1;
                    if x == 15 && y == pen.y0 {
                        assert_eq!(t, Tile::Gate);
                    } else if ring {
                        assert_eq!(t, Tile::Wall);
                    } else {
                        assert_eq!(t, Tile::Empty);
                    }
                } else {
                    assert!(t == Tile::Wall || t == Tile::Pellet || t == Tile::Power);
                }
            }
        }
        for (x, y) in [(1, 1), (29, 1), (1, 19), (29, 19)] {
            assert_eq!(at(&grid, x, y), Tile::Power);
        }
        let expected = vec![Pos { x: 12, y: 9 }, Pos { x: 13, y: 9 }, Pos { x: 14, y: 9 }, Pos { x: 15, y: 9 }];
        assert_eq!(spawns, expected);
    }
}

#[test]
fn generator_runs_where_pen_fills_the_grid() {
    let mut rng = StdRng::seed_from_u64(1);
    let (grid, pellets, spawns, pen) = generate_maze(&mut rng, 11, 7);
    assert_eq!(pen, PenBounds { x0: 1, y0: 1, x1: 9, y1: 5 });
    assert_eq!(pellets, 0);
    assert_eq!(spawns.len(), 4);
    assert_eq!(at(&grid, 1, 1), Tile::Wall);
}

#[test]
fn repair_leaves_rings_alone() {
    let (w, h) = (9usize, 5usize);
    let mut tiles = vec![Tile::Wall; w * h];
    for y in 1..4 {
        tiles[y * w + 1] = Tile::Empty;
        tiles[y * w + 7] = Tile::Empty;
    }
    let mut grid = Grid { width: w, height: h, tiles };
    // The pen ring runs down columns 3 and 5 between the two strips.
    let pen = PenBounds { x0: 3, y0: 0, x1: 5, y1: 4 };
    let before = grid.tiles.clone();
    let connected = ensure_connected(&mut grid, &pen);
    assert!(!connected);
    assert_eq!(grid.tiles, before);
}
