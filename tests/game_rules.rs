use pacman::game::{new_game, next_level, tick, Game, BONUS_LIFETIME_TICKS, POWER_TICKS};
use pacman::grid::{Dir, Pos, Tile};
use rand::rngs::StdRng;
use rand::SeedableRng;

fn fresh(seed: u64) -> (Game, StdRng) {
    let mut rng = StdRng::seed_from_u64(seed);
    let game = new_game(&mut rng, 1, 31, 21);
    (game, rng)
}

fn at(g: &Game, p: Pos) -> Tile {
    g.grid.tiles[p.y * g.width + p.x]
}

fn find_tile(g: &Game, t: Tile) -> Pos {
    for y in 0..g.height {
        for x in 0..g.width {
            if g.grid.tiles[y * g.width + x] == t {
                return Pos { x, y };
            }
        }
    }
    panic!("no such tile");
}

fn count_food(g: &Game) -> usize {
    g.grid.tiles.iter().filter(|t| **t == Tile::Pellet || **t == Tile::Power).count()
}

#[test]
fn new_game_starts_clean() {
    let (g, _) = fresh(3);
    assert_eq!(g.score, 0);
    assert_eq!(g.lives, 3);
    assert_eq!(g.level, 1);
    assert_eq!(g.ghosts, g.ghost_spawns);
    assert_eq!(g.ghost_release, vec![0, 90, 180, 270]);
    assert_eq!(g.player, g.player_spawn);
    assert!(g.bonus_pos.is_none());
    assert!(g.bonus_spawn_in >= 600 && g.bonus_spawn_in <= 1100);
    assert_eq!(g.pellets_left, count_food(&g));
    let t = at(&g, g.player);
    assert!(t != Tile::Wall && t != Tile::Gate);
    let pen = g.pen_bounds;
    assert!(!(g.player.x >= pen.x0 && g.player.x <= pen.x1 && g.player.y >= pen.y0 && g.player.y <= pen.y1));
}

#[test]
fn eating_a_ghost_with_power() {
    let (mut g, mut rng) = fresh(4);
    g.power_timer = 5;
    g.score = 100;
    g.ghosts[1] = g.player;
    g.ghosts[2] = g.player;
    let before = g.ghosts.clone();
    g.handle_collisions(&mut rng);
    assert_eq!(g.score, 300);
    assert_eq!(g.ghosts[1], g.ghost_spawns[1]);
    assert_eq!(g.ghosts[2], before[2]);
    assert_eq!(g.ghosts[0], before[0]);
    assert_eq!(g.ghosts[3], before[3]);
    assert_eq!(g.lives, 3);
    assert_eq!(g.power_timer, 5);
    assert_eq!(g.player, g.player_spawn);
}

#[test]
fn caught_without_power() {
    let (mut g, mut rng) = fresh(5);
    let start = g.player;
    let here = find_tile(&g, Tile::Pellet);
    g.player = here;
    g.ghosts[3] = here;
    g.ghosts[0] = Pos { x: 1, y: 1 };
    g.ghost_release = vec![0, 0, 0, 0];
    g.bonus_pos = Some(Pos { x: 1, y: 1 });
    g.bonus_timer = 17;
    g.handle_collisions(&mut rng);
    assert_eq!(g.lives, 2);
    assert_eq!(g.player, start);
    assert_eq!(g.ghosts, g.ghost_spawns);
    assert_eq!(g.ghost_release, vec![0, 90, 180, 270]);
    assert_eq!(g.power_timer, 0);
    assert!(g.bonus_pos.is_none());
    assert_eq!(g.bonus_timer, 0);
    assert!(g.bonus_spawn_in >= 600 && g.bonus_spawn_in <= 1100);
}

#[test]
fn lives_never_below_zero() {
    let (mut g, mut rng) = fresh(6);
    g.lives = 0;
    g.ghosts[0] = g.player;
    g.handle_collisions(&mut rng);
    assert_eq!(g.lives, 0);
}

#[test]
fn no_collision_changes_nothing() {
    let (mut g, mut rng) = fresh(8);
    let (score, lives, ghosts) = (g.score, g.lives, g.ghosts.clone());
    g.handle_collisions(&mut rng);
    assert_eq!((g.score, g.lives), (score, lives));
    assert_eq!(g.ghosts, ghosts);
}

#[test]
fn power_tile_overwrites_countdown() {
    for prior in [0u32, 30, 200] {
        let (mut g, _) = fresh(9);
        let p = find_tile(&g, Tile::Power);
        g.player = p;
        g.power_timer = prior;
        g.score = 7;
        let left = g.pellets_left;
        g.consume_tile();
        assert_eq!(g.power_timer, POWER_TICKS);
        assert_eq!(g.power_timer, 90);
        assert_eq!(g.score, 57);
        assert_eq!(g.pellets_left, left - 1);
        assert_eq!(at(&g, p), Tile::Empty);
        assert_eq!(g.pellets_left, count_food(&g));
    }
}

#[test]
fn pellet_tile_scores_ten() {
    let (mut g, _) = fresh(10);
    let p = find_tile(&g, Tile::Pellet);
    g.player = p;
    g.power_timer = 12;
    let left = g.pellets_left;
    g.consume_tile();
    assert_eq!(g.score, 10);
    assert_eq!(g.power_timer, 12);
    assert_eq!(g.pellets_left, left - 1);
    assert_eq!(at(&g, p), Tile::Empty);
    g.consume_tile();
    assert_eq!(g.score, 10);
}

#[test]
fn score_holds_at_max() {
    let (mut g, _) = fresh(10);
    g.player = find_tile(&g, Tile::Pellet);
    g.score = u32::MAX - 3;
    g.consume_tile();
    assert_eq!(g.score, u32::MAX);
}

#[test]
fn idle_bonus_wait_counts_down_only() {
    let (mut g, mut rng) = fresh(11);
    g.bonus_pos = None;
    g.bonus_spawn_in = 5;
    g.bonus_timer = 33;
    g.score = 44;
    let (player, ghosts, lives, power, pellets) = (g.player, g.ghosts.clone(), g.lives, g.power_timer, g.pellets_left);
    g.update_bonus(&mut rng);
    assert_eq!(g.bonus_spawn_in, 4);
    assert_eq!(g.bonus_timer, 33);
    assert_eq!(g.score, 44);
    assert!(g.bonus_pos.is_none());
    assert_eq!(g.player, player);
    assert_eq!(g.ghosts, ghosts);
    assert_eq!((g.lives, g.power_timer, g.pellets_left), (lives, power, pellets));
}

#[test]
fn bonus_appears_then_expires() {
    let (mut g, mut rng) = fresh(12);
    assert!(g.random_bonus_spawn(&mut rng).is_none());
    for t in g.grid.tiles.iter_mut() {
        if *t == Tile::Pellet {
            *t = Tile::Empty;
        }
    }
    g.pellets_left = count_food(&g);
    g.bonus_spawn_in = 0;
    g.update_bonus(&mut rng);
    let b = g.bonus_pos.expect("a free tile exists");
    assert_eq!(at(&g, b), Tile::Empty);
    assert_ne!(b, g.player);
    assert!(!g.ghosts.contains(&b));
    let pen = g.pen_bounds;
    assert!(!(b.x >= pen.x0 && b.x <= pen.x1 && b.y >= pen.y0 && b.y <= pen.y1));
    assert_eq!(g.bonus_timer, BONUS_LIFETIME_TICKS);
    assert!(g.bonus_spawn_in >= 600 && g.bonus_spawn_in <= 1100);
    g.update_bonus(&mut rng);
    assert_eq!(g.bonus_timer, BONUS_LIFETIME_TICKS - 1);
    g.bonus_timer = 0;
    g.update_bonus(&mut rng);
    assert!(g.bonus_pos.is_none());
}

#[test]
fn no_free_tile_for_bonus() {
    let (mut g, mut rng) = fresh(13);
    for t in g.grid.tiles.iter_mut() {
        if *t == Tile::Empty {
            *t = Tile::Pellet;
        }
    }
    g.pellets_left = count_food(&g);
    g.bonus_spawn_in = 0;
    g.update_bonus(&mut rng);
    assert!(g.bonus_pos.is_none());
    assert!(g.bonus_spawn_in >= 600);
}

#[test]
fn collecting_the_bonus() {
    let (mut g, mut rng) = fresh(14);
    g.bonus_pos = Some(g.player);
    g.bonus_timer = 100;
    g.power_timer = 3;
    g.try_collect_bonus(&mut rng);
    assert_eq!(g.score, 200);
    assert_eq!(g.power_timer, 43);
    assert!(g.bonus_pos.is_none());
    assert_eq!(g.bonus_timer, 0);
    g.bonus_pos = Some(g.player);
    g.power_timer = 0;
    g.try_collect_bonus(&mut rng);
    assert_eq!(g.power_timer, 40);
    assert_eq!(g.score, 400);
}

#[test]
fn input_and_movement() {
    let (mut g, _) = fresh(15);
    let p = g.player;
    let dirs = [Dir::Up, Dir::Down, Dir::Left, Dir::Right];
    let open = dirs.iter().copied().find(|d| {
        let (dx, dy) = d.delta();
        let q = Pos { x: (p.x as isize + dx) as usize, y: (p.y as isize + dy) as usize };
        let t = at(&g, q);
        t != Tile::Wall && t != Tile::Gate
    });
    let d = open.expect("the spawn has an open neighbour");
    g.apply_input(Some(d), true);
    assert_eq!(g.dir, Some(d));
    g.move_player();
    let (dx, dy) = d.delta();
    assert_eq!(g.player, Pos { x: (p.x as isize + dx) as usize, y: (p.y as isize + dy) as usize });
    g.apply_input(Some(d), false);
    assert_eq!(g.dir, None);
    let before = g.player;
    g.move_player();
    assert_eq!(g.player, before);
}

#[test]
fn blocked_direction_is_not_committed() {
    let (mut g, _) = fresh(16);
    g.player = Pos { x: 1, y: 1 };
    g.dir = None;
    g.apply_input(Some(Dir::Up), true);
    assert_eq!(g.dir, None);
    g.dir = Some(Dir::Up);
    g.move_player();
    assert_eq!(g.dir, None);
    assert_eq!(g.player, Pos { x: 1, y: 1 });
}

#[test]
fn power_countdown_ticks_down() {
    let (mut g, _) = fresh(17);
    g.power_timer = 2;
    g.tick_power_timer();
    assert_eq!(g.power_timer, 1);
    g.tick_power_timer();
    g.tick_power_timer();
    assert_eq!(g.power_timer, 0);
}

#[test]
fn clearing_the_last_pellet_starts_next_level() {
    let (mut g, mut rng) = fresh(18);
    for t in g.grid.tiles.iter_mut() {
        if *t == Tile::Pellet || *t == Tile::Power {
            *t = Tile::Empty;
        }
    }
    let p = g.player;
    g.grid.tiles[p.y * g.width + p.x] = Tile::Pellet;
    g.pellets_left = 1;
    g.score = 5;
    tick(&mut g, &mut rng, None, false);
    assert_eq!(g.level, 2);
    assert_eq!(g.score, 15);
    assert_eq!(g.lives, 3);
    assert!(g.pellets_left > 0);
    assert_eq!(g.pellets_left, count_food(&g));
    assert_eq!(g.ghost_tick, 0);
    assert_eq!(g.ghosts, g.ghost_spawns);
}

#[test]
fn next_level_keeps_score_and_lives() {
    let (mut g, mut rng) = fresh(19);
    g.score = 1234;
    g.lives = 1;
    g.power_timer = 50;
    next_level(&mut g, &mut rng);
    assert_eq!(g.level, 2);
    assert_eq!(g.score, 1234);
    assert_eq!(g.lives, 1);
    assert_eq!(g.power_timer, 0);
    assert_eq!(g.ghost_release, vec![0, 90, 180, 270]);
    assert_eq!(g.pellets_left, count_food(&g));
}

#[test]
fn ghosts_move_every_second_tick() {
    let (mut g, mut rng) = fresh(20);
    let before = g.ghosts.clone();
    g.update_ghosts(&mut rng);
    assert_eq!(g.ghost_tick, 1);
    assert_eq!(g.ghosts, before);
    assert_eq!(g.ghost_release, vec![0, 90, 180, 270]);
    g.update_ghosts(&mut rng);
    assert_eq!(g.ghost_tick, 2);
    assert_eq!(g.ghost_release, vec![0, 89, 179, 269]);
    for (a, b) in before.iter().zip(g.ghosts.iter()) {
        let d = (a.x as isize - b.x as isize).abs() + (a.y as isize - b.y as isize).abs();
        assert!(d <= 1);
    }
    let pen = g.pen_bounds;
    for b in &g.ghosts[1..] {
        assert!(b.x > pen.x0 && b.x < pen.x1 && b.y > pen.y0 && b.y < pen.y1);
    }
}

#[test]
fn ghost_tick_wraps() {
    let (mut g, mut rng) = fresh(21);
    g.ghost_tick = u32::MAX;
    g.update_ghosts(&mut rng);
    assert_eq!(g.ghost_tick, 0);
}

#[test]
fn many_ticks_keep_pellet_count() {
    let (mut g, mut rng) = fresh(22);
    let dirs = [Dir::Up, Dir::Right, Dir::Down, Dir::Left];
    for i in 0..500usize {
        tick(&mut g, &mut rng, Some(dirs[(i / 7) % 4]), i % 11 != 0);
        assert_eq!(g.pellets_left, count_food(&g));
        assert_eq!(g.ghosts.len(), 4);
    }
}

#[test]
fn spawn_and_bonus_wait_vary_with_seed() {
    let mut spawns = Vec::new();
    let mut waits = Vec::new();
    for seed in 0..12u64 {
        let (g, _) = fresh(seed);
        spawns.push(g.player);
        waits.push(g.bonus_spawn_in);
    }
    assert!(spawns.iter().any(|p| *p != spawns[0]));
    assert!(spawns.iter().any(|p| *p != Pos { x: 1, y: 1 }));
    assert!(waits.iter().any(|w| *w != waits[0]));
}

#[test]
fn new_game_on_a_flat_grid() {
    let mut rng = StdRng::seed_from_u64(23);
    let g = new_game(&mut rng, 1, 31, 7);
    let pen = g.pen_bounds;
    assert!(!(g.player.x >= pen.x0 && g.player.x <= pen.x1 && g.player.y >= pen.y0 && g.player.y <= pen.y1));
    let t = at(&g, g.player);
    assert!(t != Tile::Wall && t != Tile::Gate);
    assert_eq!(g.pellets_left, count_food(&g));
}
