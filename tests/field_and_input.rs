use pacman::components::{Direction, GhostEntity, GhostKind, GhostState, Pellet, PelletKind, Wall};
use pacman::field::bfs_distance;
use pacman::game::new_game;
use pacman::grid::{can_move_ghost, can_move_player, empty_cells, step, Dir, Grid, Pos, Tile};
use pacman::input::{active_dir_recent, idx_for_dir, INPUT_HOLD_NS};
use pacman::level::{count_pellets, create_level};
use pacman::pursuit::{ghost_next_dir, ghost_next_dir_pen};
use pacman::pen::PenBounds;
use pacman::view::{cell_for, Glyph};
use rand::rngs::StdRng;
use rand::SeedableRng;

fn grid_from(rows: &[&str]) -> Grid {
    let height = rows.len();
    let width = rows[0].len();
    let mut tiles = Vec::new();
    for r in rows {
        for c in r.chars() {
            tiles.push(match c {
                '#' => Tile::Wall,
                '=' => Tile::Gate,
                '.' => Tile::Pellet,
                'o' => Tile::Power,
                _ => Tile::Empty,
            });
        }
    }
    Grid { width, height, tiles }
}

#[test]
fn field_distances_on_a_corridor() {
    let g = grid_from(&["#######", "#  =  #", "### ###", "#######"]);
    let open = bfs_distance(&g, Pos { x: 1, y: 1 }, true);
    assert_eq!(open[1 * 7 + 1], 0);
    assert_eq!(open[1 * 7 + 2], 1);
    assert_eq!(open[1 * 7 + 3], 2);
    assert_eq!(open[1 * 7 + 5], 4);
    assert_eq!(open[2 * 7 + 3], 3);
    assert_eq!(open[0], -1);
    let closed = bfs_distance(&g, Pos { x: 1, y: 1 }, false);
    assert_eq!(closed[1 * 7 + 2], 1);
    assert_eq!(closed[1 * 7 + 3], -1);
    assert_eq!(closed[1 * 7 + 5], -1);
    assert_eq!(bfs_distance(&g, Pos { x: 1, y: 1 }, true), open);
}

#[test]
fn field_takes_shortest_route() {
    let g = grid_from(&["#####", "#   #", "# # #", "#   #", "#####"]);
    let d = bfs_distance(&g, Pos { x: 1, y: 1 }, true);
    assert_eq!(d[3 * 5 + 3], 4);
    assert_eq!(d[1 * 5 + 3], 2);
    assert_eq!(d[2 * 5 + 2], -1);
}

#[test]
fn chase_step_goes_downhill() {
    let g = grid_from(&["#######", "#     #", "#######"]);
    let d = bfs_distance(&g, Pos { x: 1, y: 1 }, true);
    let mut rng = StdRng::seed_from_u64(1);
    assert_eq!(ghost_next_dir(Pos { x: 4, y: 1 }, &g, &d, &mut rng, true), Some(Dir::Left));
    let lone = grid_from(&["###", "# #", "###"]);
    let d2 = bfs_distance(&lone, Pos { x: 1, y: 1 }, true);
    assert_eq!(ghost_next_dir(Pos { x: 1, y: 1 }, &lone, &d2, &mut rng, true), None);
}

#[test]
fn chase_step_breaks_ties_among_equals() {
    let g = grid_from(&["#####", "#   #", "#   #", "#   #", "#####"]);
    let d = bfs_distance(&g, Pos { x: 1, y: 1 }, true);
    for seed in 0..10 {
        let mut rng = StdRng::seed_from_u64(seed);
        let r = ghost_next_dir(Pos { x: 2, y: 2 }, &g, &d, &mut rng, true);
        assert!(r == Some(Dir::Up) || r == Some(Dir::Left));
    }
}

#[test]
fn caged_ghost_stays_inside() {
    let g = grid_from(&["#######", "###=###", "#     #", "#     #", "#######"]);
    let pen = PenBounds { x0: 0, y0: 1, x1: 6, y1: 4 };
    for seed in 0..10 {
        let mut rng = StdRng::seed_from_u64(seed);
        let r = ghost_next_dir_pen(Pos { x: 3, y: 2 }, &g, &pen, &mut rng);
        assert!(r == Some(Dir::Down) || r == Some(Dir::Left) || r == Some(Dir::Right));
    }
    let tiny = PenBounds { x0: 2, y0: 1, x1: 4, y1: 3 };
    let mut rng = StdRng::seed_from_u64(0);
    assert_eq!(ghost_next_dir_pen(Pos { x: 3, y: 2 }, &g, &tiny, &mut rng), None);
}

#[test]
fn passability_rules() {
    let g = grid_from(&["#####", "# = #", "#####"]);
    let p = Pos { x: 1, y: 1 };
    assert!(!can_move_player(&g, p, Dir::Right));
    assert!(can_move_ghost(&g, p, Dir::Right, true));
    assert!(!can_move_ghost(&g, p, Dir::Right, false));
    assert!(!can_move_ghost(&g, p, Dir::Up, true));
    assert!(!can_move_player(&g, Pos { x: 0, y: 0 }, Dir::Up));
    assert!(!can_move_player(&g, Pos { x: 0, y: 0 }, Dir::Left));
    assert_eq!(step(p, Dir::Down), Pos { x: 1, y: 2 });
    assert_eq!(Dir::Left.delta(), (-1, 0));
    assert_eq!(Dir::Up.delta(), (0, -1));
    assert_eq!(empty_cells(&g), vec![Pos { x: 1, y: 1 }, Pos { x: 3, y: 1 }]);
}

#[test]
fn input_prefers_last_pressed_while_held() {
    let ages = [Some(10), None, Some(5), None];
    assert_eq!(active_dir_recent(&ages, Some(Dir::Up)), Some(Dir::Up));
    assert_eq!(active_dir_recent(&ages, Some(Dir::Down)), Some(Dir::Left));
    assert_eq!(active_dir_recent(&ages, None), Some(Dir::Left));
    let stale = [Some(INPUT_HOLD_NS + 1), None, None, Some(INPUT_HOLD_NS)];
    assert_eq!(active_dir_recent(&stale, Some(Dir::Up)), Some(Dir::Right));
    assert_eq!(active_dir_recent(&[None, None, None, None], Some(Dir::Up)), None);
    let tie = [None, Some(7), Some(7), None];
    assert_eq!(active_dir_recent(&tie, None), Some(Dir::Down));
    assert_eq!(idx_for_dir(Dir::Right), 3);
    assert_eq!(idx_for_dir(Dir::Down), 1);
}

#[test]
fn sprite_level_layout() {
    let level = create_level();
    assert_eq!(count_pellets(&level), 276);
    assert_eq!(level.grid[0][7], 3);
    assert_eq!(level.grid[1][1], 2);
    assert_eq!(level.grid[18][18], 2);
    assert_eq!(level.grid[5][5], 3);
    assert_eq!(level.grid[9][8], 3);
    assert_eq!(level.grid[9][9], 1);
    assert_eq!(level.player_start, (10, 15));
    assert_eq!(level.ghost_starts, [(9, 9), (10, 9), (10, 10), (11, 10)]);
    let g = GhostEntity { kind: GhostKind::Inky, state: GhostState::Chase };
    assert_eq!(g.state, GhostState::Chase);
    assert_ne!(Pellet { kind: PelletKind::Normal }, Pellet { kind: PelletKind::Power });
    assert_ne!(Direction::Idle, Direction::Up);
    assert_eq!(Wall, Wall);
}

#[test]
fn glyph_priorities() {
    let mut rng = StdRng::seed_from_u64(2);
    let mut g = new_game(&mut rng, 1, 31, 21);
    assert_eq!(cell_for(&g, g.player), Glyph::Player);
    assert_eq!(cell_for(&g, Pos { x: 0, y: 0 }), Glyph::Wall);
    assert_eq!(cell_for(&g, Pos { x: 15, y: 8 }), Glyph::Gate);
    let ghost = g.ghosts[0];
    assert_eq!(cell_for(&g, ghost), Glyph::Pursuer);
    g.power_timer = 3;
    assert_eq!(cell_for(&g, ghost), Glyph::Frightened);
    g.bonus_pos = Some(Pos { x: 15, y: 7 });
    assert_eq!(cell_for(&g, Pos { x: 15, y: 7 }), Glyph::Bonus);
}
