//! The game state and its per-tick protocol: input, movement, consumption,
//! the bonus item, ghosts, and collisions.
use crate::field::{bfs_distance, dval, is_field, lemma_field_unique, pos_in};
use crate::grid::ghost_passable;
use crate::pursuit::{
    chase_choice, finite_step, ghost_next_dir, ghost_next_dir_pen, lemma_chase_progress, pen_choice,
};
use crate::grid::{
    can_move_player, food_count, idx, is_food, lemma_food_count_update, lemma_idx_bounds, nx, ny,
    player_passable, step, Dir, Grid, Pos, Tile,
};
use crate::grid::empty_cells;
use crate::connect::all_linked;
use crate::maze::{
    door_of, generate_maze, has_free_tile, pen_shaped, powered_corners, stocked, valid_dims,
};
use crate::pen::{inner_h, inner_w, pen_cell};
use crate::random::shuffle_in_place;
use crate::pen::{is_in_pen, pen_of, PenBounds};
use crate::grid::lemma_sides_small;
use crate::random::choose_one;
use crate::random::random_range;
use vstd::prelude::*;

verus! {

/// Ticks a ghost waits in the pen per place in the release order.
pub const GHOST_RELEASE_INTERVAL: u32 = 90;
/// Shortest and longest wait, in ticks, before a bonus item appears.
pub const BONUS_MIN_TICKS: u32 = 600;
pub const BONUS_MAX_TICKS: u32 = 1100;
/// Ticks a bonus item stays before it disappears.
pub const BONUS_LIFETIME_TICKS: u32 = 260;
/// Score for collecting the bonus item.
pub const BONUS_SCORE: u32 = 200;
/// Power ticks that collecting the bonus item adds, and the least it leaves.
pub const BONUS_POWER_BOOST: u32 = 40;
/// Power countdown set by a Power tile.
pub const POWER_TICKS: u32 = 90;
/// Score for a Pellet tile and for a Power tile.
pub const PELLET_SCORE: u32 = 10;
pub const POWER_SCORE: u32 = 50;
/// Score for eating a ghost while the power countdown runs.
pub const GHOST_SCORE: u32 = 200;
/// Ghosts move on every tick whose counter is a multiple of this.
pub const GHOST_MOVE_INTERVAL: u32 = 2;
/// Lives at the start of a game.
pub const START_LIVES: u32 = 3;

/// `a + b`, held at `u32::MAX`.
pub open spec fn sat_add(a: u32, b: u32) -> u32 {
    if a + b > u32::MAX { u32::MAX } else { (a + b) as u32 }
}

/// The release countdowns right after a reset: ghost `i` waits
/// `i * GHOST_RELEASE_INTERVAL` ticks.
pub open spec fn staggered(r: Seq<u32>) -> bool {
    r.len() == 4 && forall|i: int| 0 <= i < 4 ==> #[trigger] r[i] == i * GHOST_RELEASE_INTERVAL
}

/// `to` is where a released ghost at `from` goes on the field from `src`
/// (gate open): a chase step, or nowhere when no legal step reaches the field.
pub open spec fn chase_move(g: &Grid, src: Pos, from: Pos, to: Pos) -> bool {
    exists|dist: Seq<i32>|
        #[trigger] is_field(g, true, src, dist) && ((to == from && forall|d: Dir|
            !#[trigger] finite_step(g, true, dist, from, d)) || exists|d: Dir|
            #[trigger] chase_choice(g, true, dist, from, d) && to.x == nx(from, d) && to.y == ny(from, d))
}

/// A released ghost never moves away from the player: on the path field from
/// the player's tile, the tile it moves to holds no larger a value than the
/// tile it left, as long as both its tile and the player's are passable and
/// it is not already on the player's tile.
pub proof fn lemma_chase_move_progress(g: &Grid, src: Pos, from: Pos, to: Pos, dist: Seq<i32>)
    requires
        g.wf(),
        chase_move(g, src, from, to),
        is_field(g, true, src, dist),
        pos_in(g, from),
        ghost_passable(g.at(from.x as int, from.y as int), true),
        ghost_passable(g.at(src.x as int, src.y as int), true),
        from != src,
    ensures
        dval(g, dist, to) <= dval(g, dist, from),
        to != from ==> dval(g, dist, to) == dval(g, dist, from) - 1,
{
    let d0 = choose|d0: Seq<i32>|
        #[trigger] is_field(g, true, src, d0) && ((to == from && forall|d: Dir|
            !#[trigger] finite_step(g, true, d0, from, d)) || exists|d: Dir|
            #[trigger] chase_choice(g, true, d0, from, d) && to.x == nx(from, d) && to.y == ny(from, d));
    if to != from {
        let d = choose|d: Dir| #[trigger] chase_choice(g, true, d0, from, d) && to.x == nx(from, d) && to.y == ny(from, d);
        lemma_field_unique(g, true, src, d0, dist, from);
        assert(pos_in(g, to));
        lemma_field_unique(g, true, src, d0, dist, to);
        lemma_chase_progress(g, true, src, d0, from, d);
    }
}

/// `to` is where a caged ghost at `from` goes: a step onto the pen's
/// interior with Gate tiles closed, or nowhere when there is none.
pub open spec fn caged_move(g: &Grid, pen: PenBounds, from: Pos, to: Pos) -> bool {
    (to == from && forall|d: Dir| !#[trigger] pen_choice(g, pen, from, d)) || exists|d: Dir|
        #[trigger] pen_choice(g, pen, from, d) && to.x == nx(from, d) && to.y == ny(from, d)
}

/// Ghost `i` of `a` has taken its turn in `b`: a caged ghost counted down
/// and wandered in the pen, a released one took a chase step towards the
/// player.
pub open spec fn ghost_advanced(a: &Game, b: &Game, i: int) -> bool {
    if a.ghost_release@[i] > 0 {
        b.ghost_release@[i] == a.ghost_release@[i] - 1 && caged_move(&a.grid, a.pen_bounds, a.ghosts@[i], b.ghosts@[i])
    } else {
        b.ghost_release@[i] == 0 && chase_move(&a.grid, a.player, a.ghosts@[i], b.ghosts@[i])
    }
}

/// Ghost `i` of `b` has not yet taken its turn from `a`.
pub open spec fn ghost_pending(a: &Game, b: &Game, i: int) -> bool {
    b.ghosts@[i] == a.ghosts@[i] && b.ghost_release@[i] == a.ghost_release@[i]
}

/// `b` is `a` after input: the committed direction is cleared with no input
/// held, set to a requested direction the player can move in now, else kept.
pub open spec fn input_applied(a: &Game, b: &Game, desired_dir: Option<Dir>, input_active: bool) -> bool {
    &&& b.dir == (if !input_active {
        None
    } else if desired_dir matches Some(d) && a.grid.player_step(a.player, d) {
        desired_dir
    } else {
        a.dir
    })
    &&& *b == (Game { dir: b.dir, ..*a })
}

/// `b` is `a` after movement: one step in the committed direction when it is
/// legal, else the direction is cleared.
pub open spec fn player_moved(a: &Game, b: &Game) -> bool {
    match a.dir {
        None => *b == *a,
        Some(d) => if a.grid.player_step(a.player, d) {
            b.player.x == nx(a.player, d) && b.player.y == ny(a.player, d) && *b == (Game {
                player: b.player,
                ..*a
            })
        } else {
            *b == (Game { dir: None, ..*a })
        },
    }
}

/// `b` is `a` after consuming the tile under the player.
pub open spec fn tile_consumed(a: &Game, b: &Game) -> bool {
    &&& is_food(a.under_player()) ==> {
        &&& b.grid.tiles@ == a.grid.tiles@.update(
            idx(a.width as int, a.player.x as int, a.player.y as int),
            Tile::Empty,
        )
        &&& b.pellets_left == a.pellets_left - 1
        &&& b.grid.width == a.grid.width
        &&& b.grid.height == a.grid.height
    }
    &&& a.under_player() == Tile::Pellet ==> *b == (Game {
        grid: b.grid,
        score: sat_add(a.score, PELLET_SCORE),
        pellets_left: b.pellets_left,
        ..*a
    })
    &&& a.under_player() == Tile::Power ==> *b == (Game {
        grid: b.grid,
        score: sat_add(a.score, POWER_SCORE),
        pellets_left: b.pellets_left,
        power_timer: POWER_TICKS,
        ..*a
    })
    &&& !is_food(a.under_player()) ==> *b == *a
}

/// `b` is `a` with the power countdown one lower, or still zero.
pub open spec fn power_ticked(a: &Game, b: &Game) -> bool {
    *b == (Game {
        power_timer: if a.power_timer > 0 {
            (a.power_timer - 1) as u32
        } else {
            0
        },
        ..*a
    })
}

/// `b` is `a` after the bonus pickup check.
pub open spec fn bonus_collected(a: &Game, b: &Game) -> bool {
    &&& a.bonus_pos == Some(a.player) ==> {
        &&& BONUS_MIN_TICKS <= b.bonus_spawn_in <= BONUS_MAX_TICKS
        &&& *b == (Game {
            score: sat_add(a.score, BONUS_SCORE),
            power_timer: sat_add(a.power_timer, BONUS_POWER_BOOST),
            bonus_pos: None,
            bonus_timer: 0,
            bonus_spawn_in: b.bonus_spawn_in,
            ..*a
        })
    }
    &&& a.bonus_pos != Some(a.player) ==> *b == *a
}

/// `b` is `a` after the bonus item's timers advance.
pub open spec fn bonus_advanced(a: &Game, b: &Game) -> bool {
    &&& a.bonus_pos is Some && a.bonus_timer > 0 ==> *b == (Game {
        bonus_timer: (a.bonus_timer - 1) as u32,
        ..*a
    })
    &&& a.bonus_pos is Some && a.bonus_timer == 0 ==> {
        &&& BONUS_MIN_TICKS <= b.bonus_spawn_in <= BONUS_MAX_TICKS
        &&& *b == (Game { bonus_pos: None, bonus_spawn_in: b.bonus_spawn_in, ..*a })
    }
    &&& a.bonus_pos is None && a.bonus_spawn_in > 0 ==> *b == (Game {
        bonus_spawn_in: (a.bonus_spawn_in - 1) as u32,
        ..*a
    })
    &&& a.bonus_pos is None && a.bonus_spawn_in == 0 ==> {
        &&& BONUS_MIN_TICKS <= b.bonus_spawn_in <= BONUS_MAX_TICKS
        &&& match b.bonus_pos {
            Some(p) => a.bonus_spot(p) && b.bonus_timer == BONUS_LIFETIME_TICKS,
            None => (forall|p: Pos| !#[trigger] a.bonus_spot(p)) && b.bonus_timer
                == a.bonus_timer,
        }
        &&& *b == (Game {
            bonus_pos: b.bonus_pos,
            bonus_timer: b.bonus_timer,
            bonus_spawn_in: b.bonus_spawn_in,
            ..*a
        })
    }
}

/// `b` is `a` after collision resolution.
pub open spec fn collisions_resolved(a: &Game, b: &Game) -> bool {
    &&& (forall|j: int| 0 <= j < 4 ==> #[trigger] a.ghosts@[j] != a.player) ==> *b == *a
    &&& forall|i: int| #[trigger] a.first_hit(i) && a.power_timer > 0 ==> *b == (Game {
        score: sat_add(a.score, GHOST_SCORE),
        ghosts: b.ghosts,
        ..*a
    }) && b.ghosts@ == a.ghosts@.update(i, a.ghost_spawns@[i])
    &&& forall|i: int| #[trigger] a.first_hit(i) && a.power_timer == 0 ==> {
        &&& b.lives == if a.lives > 0 { (a.lives - 1) as u32 } else { 0 }
        &&& b.player == a.player_spawn
        &&& b.ghosts@ == a.ghost_spawns@
        &&& staggered(b.ghost_release@)
        &&& b.power_timer == 0
        &&& b.bonus_pos is None
        &&& b.bonus_timer == 0
        &&& BONUS_MIN_TICKS <= b.bonus_spawn_in <= BONUS_MAX_TICKS
        &&& *b == (Game {
            lives: b.lives,
            player: b.player,
            ghosts: b.ghosts,
            ghost_release: b.ghost_release,
            power_timer: 0,
            bonus_pos: None,
            bonus_timer: 0,
            bonus_spawn_in: b.bonus_spawn_in,
            ..*a
        })
    }
}

/// `b` is `a` after the ghosts' turn.
pub open spec fn ghosts_advanced(a: &Game, b: &Game) -> bool {
    &&& b.ghost_tick as int == (a.ghost_tick as int + 1) % 0x1_0000_0000
    &&& b.ghost_tick % GHOST_MOVE_INTERVAL != 0 ==> *b == (Game {
        ghost_tick: b.ghost_tick,
        ..*a
    })
    &&& b.ghost_tick % GHOST_MOVE_INTERVAL == 0 ==> forall|i: int|
        0 <= i < 4 ==> #[trigger] ghost_advanced(a, b, i)
    &&& *b == (Game {
        ghost_tick: b.ghost_tick,
        ghosts: b.ghosts,
        ghost_release: b.ghost_release,
        ..*a
    })
}

/// `b` is the next level after `a`: the level counter one up (held at
/// `u32::MAX`), score and lives kept, a fresh maze with every position and
/// timer reset.
pub open spec fn level_regenerated(a: &Game, b: &Game) -> bool {
    &&& fresh_layout(b)
    &&& b.level == sat_add(a.level, 1)
    &&& b.score == a.score
    &&& b.lives == a.lives
    &&& b.width == a.width
    &&& b.height == a.height
    &&& b.player == b.player_spawn
    &&& player_passable(b.under_player())
    &&& free_spot(b.ghost_spawns@, b.width as int, b.height as int, b.player)
    &&& b.ghosts@ == b.ghost_spawns@
    &&& staggered(b.ghost_release@)
    &&& b.power_timer == 0
    &&& b.dir is None
    &&& b.ghost_tick == 0
    &&& b.bonus_pos is None
    &&& b.bonus_timer == 0
    &&& BONUS_MIN_TICKS <= b.bonus_spawn_in <= BONUS_MAX_TICKS
}

/// The layout of a freshly generated level: the pen shaped with its door,
/// a Pellet or Power tile on every open tile outside the pen, Power on the
/// corner tiles that are not walls, at least one pellet left, the ghost
/// spawns the first four pen tiles in row-major order (padded with the
/// first), and from 13 x 9 on every walkable tile reachable from every other.
pub open spec fn fresh_layout(g: &Game) -> bool {
    &&& pen_shaped(&g.grid, g.pen_bounds, door_of(g.pen_bounds))
    &&& stocked(&g.grid, g.pen_bounds)
    &&& powered_corners(&g.grid, g.pen_bounds, 4)
    &&& g.pellets_left > 0
    &&& forall|i: int|
        0 <= i < 4 ==> #[trigger] g.ghost_spawns@[i] == pen_cell(
            g.pen_bounds,
            if i < inner_w(g.pen_bounds) * inner_h(g.pen_bounds) { i } else { 0 },
        )
    &&& forall|i: int|
        0 <= i < 4 ==> g.pen_bounds.interior((#[trigger] g.ghost_spawns@[i]).x as int, g.ghost_spawns@[i].y as int)
    &&& g.width >= 13 && g.height >= 9 ==> all_linked(&g.grid, g.pen_bounds)
}

/// `b` is `a` after the world advances: bonus timers, the ghosts' turn, the
/// power countdown, then collisions.
pub open spec fn world_advanced(a: &Game, b: &Game) -> bool {
    exists|s5: Game, s6: Game, s7: Game|
        #![trigger bonus_advanced(a, &s5), ghosts_advanced(&s5, &s6), power_ticked(&s6, &s7)]
        bonus_advanced(a, &s5) && ghosts_advanced(&s5, &s6) && power_ticked(&s6, &s7) && collisions_resolved(&s7, b)
}

/// `b` is `a` after one tick: input, movement, consumption and bonus pickup;
/// then the next level if no pellet is left, else the world advances.
pub open spec fn ticked(a: &Game, b: &Game, desired_dir: Option<Dir>, input_active: bool) -> bool {
    exists|s1: Game, s2: Game, s3: Game, s4: Game|
        #![trigger input_applied(a, &s1, desired_dir, input_active), player_moved(&s1, &s2), tile_consumed(&s2, &s3), bonus_collected(&s3, &s4)]
        {
            &&& input_applied(a, &s1, desired_dir, input_active)
            &&& player_moved(&s1, &s2)
            &&& tile_consumed(&s2, &s3)
            &&& bonus_collected(&s3, &s4)
            &&& s4.pellets_left == 0 ==> level_regenerated(&s4, b)
            &&& s4.pellets_left != 0 ==> world_advanced(&s4, b)
        }
}

/// The whole state of one game.
pub struct Game {
    pub width: usize,
    pub height: usize,
    pub grid: Grid,
    pub player: Pos,
    pub player_spawn: Pos,
    pub ghosts: Vec<Pos>,
    pub ghost_spawns: Vec<Pos>,
    pub score: u32,
    pub lives: u32,
    pub level: u32,
    pub pellets_left: usize,
    pub power_timer: u32,
    pub dir: Option<Dir>,
    pub ghost_tick: u32,
    pub ghost_release: Vec<u32>,
    pub pen_bounds: PenBounds,
    pub bonus_pos: Option<Pos>,
    pub bonus_timer: u32,
    pub bonus_spawn_in: u32,
}

fn staggered_release() -> (r: Vec<u32>)
    ensures
        staggered(r@),
{
    let mut r: Vec<u32> = Vec::new();
    let mut i: u32 = 0;
    while i < 4
        invariant
            i <= 4,
            r@.len() == i,
            forall|j: int| 0 <= j < i ==> #[trigger] r@[j] == j * GHOST_RELEASE_INTERVAL,
        decreases 4 - i,
    {
        r.push(i * GHOST_RELEASE_INTERVAL);
        i = i + 1;
    }
    r
}

fn draw_bonus_wait(rng: &mut rand::rngs::StdRng) -> (r: u32)
    ensures
        BONUS_MIN_TICKS <= r <= BONUS_MAX_TICKS,
{
    random_range(rng, BONUS_MIN_TICKS as usize, BONUS_MAX_TICKS as usize + 1) as u32
}

impl Game {
    /// The state is consistent: the grid matches the dimensions and keeps its
    /// wall ring, every position is on the grid, there are four ghosts, and
    /// `pellets_left` counts the Pellet and Power tiles.
    pub open spec fn wf(&self) -> bool {
        &&& self.grid.wf()
        &&& self.grid.width == self.width
        &&& self.grid.height == self.height
        &&& valid_dims(self.width as int, self.height as int)
        &&& self.grid.border_walls()
        &&& self.pen_bounds == pen_of(self.width as int, self.height as int)
        &&& pos_in(&self.grid, self.player)
        &&& pos_in(&self.grid, self.player_spawn)
        &&& self.ghosts@.len() == 4
        &&& self.ghost_spawns@.len() == 4
        &&& self.ghost_release@.len() == 4
        &&& forall|i: int| 0 <= i < 4 ==> pos_in(&self.grid, #[trigger] self.ghosts@[i])
        &&& forall|i: int| 0 <= i < 4 ==> pos_in(&self.grid, #[trigger] self.ghost_spawns@[i])
        &&& player_passable(self.grid.at(self.player.x as int, self.player.y as int))
        &&& player_passable(self.grid.at(self.player_spawn.x as int, self.player_spawn.y as int))
        &&& forall|i: int|
            0 <= i < 4 ==> ghost_passable(
                self.grid.at((#[trigger] self.ghosts@[i]).x as int, self.ghosts@[i].y as int),
                true,
            )
        &&& forall|i: int|
            0 <= i < 4 ==> ghost_passable(
                self.grid.at((#[trigger] self.ghost_spawns@[i]).x as int, self.ghost_spawns@[i].y as int),
                true,
            )
        &&& self.pellets_left == food_count(self.grid.tiles@)
        &&& self.bonus_pos matches Some(b) ==> pos_in(&self.grid, b)
    }

    /// The tile under the player.
    pub open spec fn under_player(&self) -> Tile {
        self.grid.at(self.player.x as int, self.player.y as int)
    }

    /// Input: with no input held the committed direction is cleared; a
    /// requested direction the player can move in right now is committed.
    pub fn apply_input(&mut self, desired_dir: Option<Dir>, input_active: bool)
        requires
            old(self).wf(),
        ensures
            final(self).wf(),
            input_applied(&*old(self), &*final(self), desired_dir, input_active),
    {
        if !input_active {
            self.dir = None;
        } else if let Some(dir) = desired_dir {
            if can_move_player(&self.grid, self.player, dir) {
                self.dir = Some(dir);
            }
        }
    }

    /// Movement: the player steps one tile in the committed direction if it is
    /// still legal; otherwise the direction is cleared and the player stays.
    pub fn move_player(&mut self)
        requires
            old(self).wf(),
        ensures
            final(self).wf(),
            player_moved(&*old(self), &*final(self)),
    {
        if let Some(dir) = self.dir {
            if can_move_player(&self.grid, self.player, dir) {
                self.player = step(self.player, dir);
            } else {
                self.dir = None;
            }
        }
    }

    /// Consumption: a Pellet under the player is cleared for `PELLET_SCORE`; a
    /// Power tile is cleared for `POWER_SCORE` and sets the power countdown to
    /// exactly `POWER_TICKS`. Either takes one from `pellets_left`. The score
    /// holds at `u32::MAX`.
    pub fn consume_tile(&mut self)
        requires
            old(self).wf(),
        ensures
            final(self).wf(),
            tile_consumed(&*old(self), &*final(self)),
    {
        let t = self.grid.get(self.player.x, self.player.y);
        proof {
            lemma_idx_bounds(self.width as int, self.height as int, self.player.x as int, self.player.y as int);
        }
        match t {
            Tile::Pellet => {
                proof {
                    lemma_food_count_update(self.grid.tiles@, idx(self.width as int, self.player.x as int, self.player.y as int), Tile::Empty);
                }
                self.grid.set(self.player.x, self.player.y, Tile::Empty);
                self.score = self.score.saturating_add(PELLET_SCORE);
                self.pellets_left = self.pellets_left - 1;
                proof {
                    self.lemma_keeps_shape(*old(self));
                }
            },
            Tile::Power => {
                proof {
                    lemma_food_count_update(self.grid.tiles@, idx(self.width as int, self.player.x as int, self.player.y as int), Tile::Empty);
                }
                self.grid.set(self.player.x, self.player.y, Tile::Empty);
                self.score = self.score.saturating_add(POWER_SCORE);
                self.pellets_left = self.pellets_left - 1;
                self.power_timer = POWER_TICKS;
                proof {
                    self.lemma_keeps_shape(*old(self));
                }
            },
            _ => {},
        }
    }

    /// Clearing a tile under the player keeps positions on the grid and the
    /// wall ring.
    proof fn lemma_keeps_shape(&self, prev: Game)
        requires
            prev.wf(),
            self.grid.wf(),
            self.grid.width == prev.grid.width,
            self.grid.height == prev.grid.height,
            self.width == prev.width,
            self.height == prev.height,
            self.player == prev.player,
            self.player_spawn == prev.player_spawn,
            self.ghosts == prev.ghosts,
            self.ghost_spawns == prev.ghost_spawns,
            self.ghost_release == prev.ghost_release,
            self.pen_bounds == prev.pen_bounds,
            self.bonus_pos == prev.bonus_pos,
            self.pellets_left == food_count(self.grid.tiles@),
            prev.under_player() != Tile::Wall,
            self.grid.tiles@ == prev.grid.tiles@.update(
                idx(prev.width as int, prev.player.x as int, prev.player.y as int),
                Tile::Empty,
            ),
        ensures
            self.wf(),
    {
        assert forall|x: int, y: int|
            #![trigger self.grid.at(x, y)]
            self.grid.in_bounds(x, y) && (x == 0 || y == 0 || x == self.width - 1 || y == self.height - 1) implies self.grid.at(x, y)
                == Tile::Wall by {
            lemma_idx_bounds(self.width as int, self.height as int, x, y);
            assert(prev.grid.at(x, y) == Tile::Wall);
            lemma_idx_bounds(self.width as int, self.height as int, prev.player.x as int, prev.player.y as int);
        }
        assert(forall|i: int| 0 <= i < 4 ==> pos_in(&prev.grid, #[trigger] prev.ghosts@[i]));
        assert(forall|i: int| 0 <= i < 4 ==> pos_in(&prev.grid, #[trigger] prev.ghost_spawns@[i]));
        assert forall|x: int, y: int|
            #![trigger self.grid.at(x, y)]
            self.grid.in_bounds(x, y) implies self.grid.at(x, y) == prev.grid.at(x, y) || self.grid.at(x, y)
                == Tile::Empty by {
            lemma_idx_bounds(self.width as int, self.height as int, x, y);
            lemma_idx_bounds(self.width as int, self.height as int, prev.player.x as int, prev.player.y as int);
            let i = idx(self.width as int, x, y);
            assert(self.grid.tiles@[i] == prev.grid.tiles@[i] || self.grid.tiles@[i] == Tile::Empty);
        }
    }

    /// The power countdown goes down by one while it is positive.
    pub fn tick_power_timer(&mut self)
        requires
            old(self).wf(),
        ensures
            final(self).wf(),
            power_ticked(&*old(self), &*final(self)),
    {
        if self.power_timer > 0 {
            self.power_timer = self.power_timer - 1;
        }
    }

    /// Whether `p` may receive the bonus item: an Empty tile off the wall
    /// ring, outside the pen, not the player's and no ghost's.
    pub open spec fn bonus_spot(&self, p: Pos) -> bool {
        &&& self.grid.interior(p.x as int, p.y as int)
        &&& self.grid.at(p.x as int, p.y as int) == Tile::Empty
        &&& !self.pen_bounds.holds(p.x as int, p.y as int)
        &&& p != self.player
        &&& forall|i: int| 0 <= i < self.ghosts@.len() ==> #[trigger] self.ghosts@[i] != p
    }

    /// Bonus pickup: when the player stands on the bonus item it is removed,
    /// `BONUS_SCORE` is added, the power countdown is raised by
    /// `BONUS_POWER_BOOST` (and is at least that), and a fresh wait is drawn.
    pub fn try_collect_bonus(&mut self, rng: &mut rand::rngs::StdRng)
        requires
            old(self).wf(),
        ensures
            final(self).wf(),
            bonus_collected(&*old(self), &*final(self)),
    {
        if let Some(pos) = self.bonus_pos {
            if pos == self.player {
                self.score = self.score.saturating_add(BONUS_SCORE);
                let boosted = self.power_timer.saturating_add(BONUS_POWER_BOOST);
                self.power_timer = if boosted > BONUS_POWER_BOOST { boosted } else { BONUS_POWER_BOOST };
                self.bonus_pos = None;
                self.bonus_timer = 0;
                self.bonus_spawn_in = draw_bonus_wait(rng);
            }
        }
    }

    /// A uniformly random tile that may receive the bonus item, or `None`
    /// when there is none.
    pub fn random_bonus_spawn(&self, rng: &mut rand::rngs::StdRng) -> (r: Option<Pos>)
        requires
            self.wf(),
        ensures
            r is None <==> forall|p: Pos| !#[trigger] self.bonus_spot(p),
            r matches Some(p) ==> self.bonus_spot(p),
    {
        let mut candidates: Vec<Pos> = Vec::new();
        let mut y: usize = 1;
        while y < self.height - 1
            invariant
                self.wf(),
                1 <= y <= self.height - 1,
                forall|i: int| 0 <= i < candidates@.len() ==> self.bonus_spot(#[trigger] candidates@[i]),
                forall|p: Pos| #[trigger] self.bonus_spot(p) && p.y < y ==> candidates@.contains(p),
            decreases self.height - y,
        {
            let mut x: usize = 1;
            while x < self.width - 1
                invariant
                    self.wf(),
                    1 <= y < self.height - 1,
                    1 <= x <= self.width - 1,
                    forall|i: int| 0 <= i < candidates@.len() ==> self.bonus_spot(#[trigger] candidates@[i]),
                    forall|p: Pos| #[trigger] self.bonus_spot(p) && (p.y < y || (p.y == y && p.x < x)) ==> candidates@.contains(p),
                decreases self.width - x,
            {
                if self.grid.get(x, y) == Tile::Empty {
                    let pos = Pos { x, y };
                    let mut clear = !is_in_pen(pos, self.width, self.height) && self.player != pos;
                    let mut k: usize = 0;
                    while k < self.ghosts.len()
                        invariant
                            self.wf(),
                            k <= self.ghosts@.len(),
                            clear ==> !self.pen_bounds.holds(x as int, y as int) && pos != self.player,
                            clear ==> forall|i: int| 0 <= i < k ==> #[trigger] self.ghosts@[i] != pos,
                            !clear ==> !self.bonus_spot(pos),
                        decreases self.ghosts@.len() - k,
                    {
                        if self.ghosts[k] == pos {
                            clear = false;
                        }
                        k = k + 1;
                    }
                    if clear {
                        let ghost before = candidates@;
                        candidates.push(pos);
                        proof {
                            assert forall|p: Pos| #[trigger] self.bonus_spot(p) && (p.y < y || (p.y == y && p.x <= x)) implies candidates@.contains(p) by {
                                if p == pos {
                                    assert(candidates@[before.len() as int] == p);
                                } else {
                                    let i = choose|i: int| 0 <= i < before.len() && before[i] == p;
                                    assert(candidates@[i] == p);
                                }
                            }
                        }
                    }
                }
                x = x + 1;
            }
            y = y + 1;
        }
        let r = choose_one(rng, &candidates);
        proof {
            if let Some(p) = r {
                let i = choose|i: int| 0 <= i < candidates@.len() && candidates@[i] == p;
                assert(self.bonus_spot(candidates@[i]));
            }
            assert forall|p: Pos| #[trigger] self.bonus_spot(p) implies candidates@.len() > 0 by {
                assert(candidates@.contains(p));
            }
        }
        r
    }

    /// Advances the bonus item: while it is out its lifetime counts down and
    /// it disappears at zero (a fresh wait is drawn); while it is not out the
    /// wait counts down, and at zero it is placed on a random free tile with a
    /// lifetime of `BONUS_LIFETIME_TICKS` if there is one, and a fresh wait is
    /// drawn either way.
    pub fn update_bonus(&mut self, rng: &mut rand::rngs::StdRng)
        requires
            old(self).wf(),
        ensures
            final(self).wf(),
            bonus_advanced(&*old(self), &*final(self)),
    {
        if self.bonus_pos.is_some() {
            if self.bonus_timer > 0 {
                self.bonus_timer = self.bonus_timer - 1;
            } else {
                self.bonus_pos = None;
                self.bonus_spawn_in = draw_bonus_wait(rng);
            }
        } else if self.bonus_spawn_in > 0 {
            self.bonus_spawn_in = self.bonus_spawn_in - 1;
        } else {
            if let Some(pos) = self.random_bonus_spawn(rng) {
                self.bonus_pos = Some(pos);
                self.bonus_timer = BONUS_LIFETIME_TICKS;
            }
            self.bonus_spawn_in = draw_bonus_wait(rng);
        }
    }

    /// Index of the first ghost on the player's tile.
    pub open spec fn first_hit(&self, i: int) -> bool {
        &&& 0 <= i < 4
        &&& self.ghosts@[i] == self.player
        &&& forall|j: int| 0 <= j < i ==> #[trigger] self.ghosts@[j] != self.player
    }

    /// Collisions: the first ghost, in order, on the player's tile decides.
    /// With power left the ghost is eaten: `GHOST_SCORE` is added and that
    /// ghost alone goes back to its spawn. Without, a life is lost (never
    /// below zero), the player and every ghost go back to their spawns, the
    /// release countdowns restart on the staggered schedule, the power
    /// countdown is cleared and the bonus item removed with a fresh wait.
    pub fn handle_collisions(&mut self, rng: &mut rand::rngs::StdRng)
        requires
            old(self).wf(),
        ensures
            final(self).wf(),
            collisions_resolved(&*old(self), &*final(self)),
    {
        let mut hit: Option<usize> = None;
        let mut k: usize = 0;
        while hit.is_none() && k < self.ghosts.len()
            invariant
                self.wf(),
                k <= 4,
                hit is None ==> forall|j: int| 0 <= j < k ==> #[trigger] self.ghosts@[j] != self.player,
                hit matches Some(i) ==> self.first_hit(i as int),
            decreases 4 - k,
        {
            if self.ghosts[k] == self.player {
                hit = Some(k);
            }
            k = k + 1;
        }
        proof {
            if let Some(i) = hit {
                assert forall|j: int| #[trigger] self.first_hit(j) implies j == i by {
                    if j < i {
                        assert(self.ghosts@[j] != self.player);
                    } else if j > i {
                        assert(self.ghosts@[i as int] != self.player);
                    }
                }
            }
        }
        if let Some(idx) = hit {
            if self.power_timer > 0 {
                self.score = self.score.saturating_add(GHOST_SCORE);
                let spawn = self.ghost_spawns[idx];
                self.ghosts.set(idx, spawn);
            } else {
                if self.lives > 0 {
                    self.lives = self.lives - 1;
                }
                self.player = self.player_spawn;
                self.ghosts = self.ghost_spawns.clone();
                self.ghost_release = staggered_release();
                self.power_timer = 0;
                self.bonus_pos = None;
                self.bonus_timer = 0;
                self.bonus_spawn_in = draw_bonus_wait(rng);
            }
        }
    }

    /// Ghosts: the tick counter advances (wrapping); on every
    /// `GHOST_MOVE_INTERVAL`-th tick each caged ghost (release countdown
    /// positive) counts down and wanders inside the pen, and each released
    /// ghost takes a chase step on the path field from the player's tile.
    pub fn update_ghosts(&mut self, rng: &mut rand::rngs::StdRng)
        requires
            old(self).wf(),
        ensures
            final(self).wf(),
            ghosts_advanced(&*old(self), &*final(self)),
    {
        self.ghost_tick = self.ghost_tick.wrapping_add(1);
        if self.ghost_tick % GHOST_MOVE_INTERVAL != 0 {
            return;
        }
        let dist = bfs_distance(&self.grid, self.player, true);
        let ghost g0 = *self;
        let mut idx: usize = 0;
        while idx < 4
            invariant
                g0.wf(),
                is_field(&g0.grid, true, g0.player, dist@),
                idx <= 4,
                self.wf(),
                *self == (Game { ghosts: self.ghosts, ghost_release: self.ghost_release, ..g0 }),
                forall|i: int| idx <= i < 4 ==> #[trigger] ghost_pending(&g0, &*self, i),
                forall|i: int| 0 <= i < idx ==> #[trigger] ghost_advanced(&g0, &*self, i),
            decreases 4 - idx,
        {
            let here = self.ghosts[idx];
            let release = self.ghost_release[idx];
            let ghost s0 = *self;
            proof {
                assert(ghost_pending(&g0, &s0, idx as int));
                assert(g0.ghosts@[idx as int] == here && g0.ghost_release@[idx as int] == release);
            }
            if release > 0 {
                self.ghost_release.set(idx, release - 1);
                let dir = ghost_next_dir_pen(here, &self.grid, &self.pen_bounds, rng);
                if let Some(d) = dir {
                    let next = step(here, d);
                    self.ghosts.set(idx, next);
                    proof {
                        assert(pen_choice(&g0.grid, g0.pen_bounds, here, d));
                    }
                }
                proof {
                    assert(caged_move(&g0.grid, g0.pen_bounds, here, self.ghosts@[idx as int]));
                }
            } else {
                let dir = ghost_next_dir(here, &self.grid, &dist, rng, true);
                if let Some(d) = dir {
                    let next = step(here, d);
                    self.ghosts.set(idx, next);
                    proof {
                        assert(chase_choice(&g0.grid, true, dist@, here, d));
                    }
                }
                proof {
                    assert(is_field(&g0.grid, true, g0.player, dist@));
                    assert(chase_move(&g0.grid, g0.player, here, self.ghosts@[idx as int]));
                }
            }
            proof {
                assert(forall|i: int| 0 <= i < 4 ==> pos_in(&self.grid, #[trigger] g0.ghost_spawns@[i]));
                assert forall|i: int| idx + 1 <= i < 4 implies #[trigger] ghost_pending(&g0, &*self, i) by {
                    assert(self.ghosts@[i] == s0.ghosts@[i]);
                    assert(self.ghost_release@[i] == s0.ghost_release@[i]);
                    assert(ghost_pending(&g0, &s0, i));
                }
                assert forall|i: int| 0 <= i < idx + 1 implies #[trigger] ghost_advanced(&g0, &*self, i) by {
                    if i < idx {
                        assert(self.ghosts@[i] == s0.ghosts@[i]);
                        assert(self.ghost_release@[i] == s0.ghost_release@[i]);
                        assert(ghost_advanced(&g0, &s0, i));
                    } else {
                        assert(self.ghost_release@[i] == release - 1 || release == 0);
                    }
                }
                assert(forall|i: int| 0 <= i < 4 ==> pos_in(&self.grid, #[trigger] self.ghosts@[i])) by {
                    assert forall|i: int| 0 <= i < 4 implies pos_in(&self.grid, #[trigger] self.ghosts@[i]) by {
                        if i != idx {
                            assert(self.ghosts@[i] == s0.ghosts@[i]);
                        }
                    }
                }
            }
            idx = idx + 1;
        }
        proof {
            assert forall|i: int| 0 <= i < 4 implies #[trigger] ghost_advanced(&*old(self), &*self, i) by {
                assert(ghost_advanced(&g0, &*self, i));
            }
        }
    }
}

/// Whether `v` holds `p`.
fn contains_pos(v: &Vec<Pos>, p: Pos) -> (r: bool)
    ensures
        r == v@.contains(p),
{
    let mut i: usize = 0;
    while i < v.len()
        invariant
            i <= v@.len(),
            forall|j: int| 0 <= j < i ==> v@[j] != p,
        decreases v@.len() - i,
    {
        if v[i] == p {
            proof {
                assert(v@[i as int] == p);
            }
            return true;
        }
        i = i + 1;
    }
    false
}

/// A player spawn may stand on `p`: no ghost spawn and outside the pen.
pub open spec fn free_spot(spawns: Seq<Pos>, w: int, h: int, p: Pos) -> bool {
    !spawns.contains(p) && !pen_of(w, h).holds(p.x as int, p.y as int)
}

/// The first entry of `cells` that is a free spot; one must exist.
fn first_free_cell(cells: &Vec<Pos>, ghost_spawns: &Vec<Pos>, width: usize, height: usize) -> (r: Pos)
    requires
        width >= 3,
        height >= 3,
        exists|i: int| 0 <= i < cells@.len() && free_spot(ghost_spawns@, width as int, height as int, #[trigger] cells@[i]),
    ensures
        cells@.contains(r),
        free_spot(ghost_spawns@, width as int, height as int, r),
{
    let mut i: usize = 0;
    while i < cells.len()
        invariant
            width >= 3,
            height >= 3,
            i <= cells@.len(),
            exists|j: int| i <= j < cells@.len() && free_spot(ghost_spawns@, width as int, height as int, #[trigger] cells@[j]),
        decreases cells@.len() - i,
    {
        let p = cells[i];
        if !contains_pos(ghost_spawns, p) && !is_in_pen(p, width, height) {
            return p;
        }
        proof {
            let j = choose|j: int| i <= j < cells@.len() && free_spot(ghost_spawns@, width as int, height as int, #[trigger] cells@[j]);
            assert(j != i);
        }
        i = i + 1;
    }
    proof {
        assert(false);
    }
    cells[0]
}

/// A player spawn for a freshly generated level: the first free spot among
/// the player-passable tiles in a random order.
fn place_player(grid: &Grid, ghost_spawns: &Vec<Pos>, rng: &mut rand::rngs::StdRng) -> (p: Pos)
    requires
        grid.wf(),
        valid_dims(grid.width as int, grid.height as int),
        has_free_tile(grid, pen_of(grid.width as int, grid.height as int)),
        forall|i: int| 0 <= i < ghost_spawns@.len() ==> pen_of(grid.width as int, grid.height as int).interior((#[trigger] ghost_spawns@[i]).x as int, ghost_spawns@[i].y as int),
    ensures
        pos_in(grid, p),
        player_passable(grid.at(p.x as int, p.y as int)),
        free_spot(ghost_spawns@, grid.width as int, grid.height as int, p),
{
    let mut empties = empty_cells(grid);
    let ghost before = empties@;
    shuffle_in_place(rng, &mut empties);
    proof {
        let pen = pen_of(grid.width as int, grid.height as int);
        lemma_sides_small(grid);
        let a = choose|p: Pos|
            grid.in_bounds(p.x as int, p.y as int) && !pen.holds(p.x as int, p.y as int) && #[trigger] player_passable(
                grid.at(p.x as int, p.y as int),
            );
        assert(before.contains(a));
        before.to_multiset_ensures();
        empties@.to_multiset_ensures();
        assert(before.to_multiset().count(a) > 0);
        assert(empties@.to_multiset().count(a) > 0);
        assert(empties@.contains(a));
        if ghost_spawns@.contains(a) {
            let i = choose|i: int| 0 <= i < ghost_spawns@.len() && ghost_spawns@[i] == a;
            assert(pen.interior(ghost_spawns@[i].x as int, ghost_spawns@[i].y as int));
        }
        assert(free_spot(ghost_spawns@, grid.width as int, grid.height as int, a));
        let k = choose|k: int| 0 <= k < empties@.len() && empties@[k] == a;
        assert(free_spot(ghost_spawns@, grid.width as int, grid.height as int, empties@[k]));
    }
    let p = first_free_cell(&empties, ghost_spawns, grid.width, grid.height);
    proof {
        empties@.to_multiset_ensures();
        before.to_multiset_ensures();
        assert(empties@.to_multiset().count(p) > 0);
        assert(before.to_multiset().count(p) > 0);
        assert(before.contains(p));
    }
    p
}

/// A new game on a freshly generated level: three lives, no score, the
/// player on a random free tile, the ghosts on their spawns with staggered
/// release countdowns, no bonus item and a fresh wait for it.
pub fn new_game(rng: &mut rand::rngs::StdRng, level: u32, width: usize, height: usize) -> (g: Game)
    requires
        valid_dims(width as int, height as int),
    ensures
        g.wf(),
        g.width == width,
        g.height == height,
        g.level == level,
        g.score == 0,
        g.lives == START_LIVES,
        g.player == g.player_spawn,
        player_passable(g.under_player()),
        free_spot(g.ghost_spawns@, width as int, height as int, g.player),
        g.ghosts@ == g.ghost_spawns@,
        forall|i: int| 0 <= i < 4 ==> g.pen_bounds.interior((#[trigger] g.ghost_spawns@[i]).x as int, g.ghost_spawns@[i].y as int),
        staggered(g.ghost_release@),
        g.power_timer == 0,
        g.dir is None,
        g.ghost_tick == 0,
        g.bonus_pos is None,
        g.bonus_timer == 0,
        BONUS_MIN_TICKS <= g.bonus_spawn_in <= BONUS_MAX_TICKS,
        fresh_layout(&g),
{
    let (grid, pellets_left, ghost_spawns, pen_bounds) = generate_maze(rng, width, height);
    let player = place_player(&grid, &ghost_spawns, rng);
    let ghost_release = staggered_release();
    let bonus_spawn_in = draw_bonus_wait(rng);
    let ghosts = ghost_spawns.clone();
    proof {
        assert(ghosts@ =~= ghost_spawns@);
        assert(forall|i: int| 0 <= i < 4 ==> pos_in(&grid, #[trigger] ghost_spawns@[i]));
    }
    Game {
        width,
        height,
        grid,
        player,
        player_spawn: player,
        ghosts,
        ghost_spawns,
        score: 0,
        lives: START_LIVES,
        level,
        pellets_left,
        power_timer: 0,
        dir: None,
        ghost_tick: 0,
        ghost_release,
        pen_bounds,
        bonus_pos: None,
        bonus_timer: 0,
        bonus_spawn_in,
    }
}

/// The next level, in place: the level counter goes up (held at
/// `u32::MAX`), a new maze is generated and every position and timer is
/// reset as for a new game; score and lives are kept.
pub fn next_level(game: &mut Game, rng: &mut rand::rngs::StdRng)
    requires
        old(game).wf(),
    ensures
        final(game).wf(),
        level_regenerated(&*old(game), &*final(game)),
{
    game.level = game.level.saturating_add(1);
    let (grid, pellets_left, ghost_spawns, pen_bounds) = generate_maze(rng, game.width, game.height);
    let player = place_player(&grid, &ghost_spawns, rng);
    game.grid = grid;
    game.pellets_left = pellets_left;
    game.player = player;
    game.player_spawn = player;
    game.ghost_spawns = ghost_spawns;
    game.ghosts = game.ghost_spawns.clone();
    game.ghost_release = staggered_release();
    game.pen_bounds = pen_bounds;
    game.power_timer = 0;
    game.dir = None;
    game.ghost_tick = 0;
    game.bonus_pos = None;
    game.bonus_timer = 0;
    game.bonus_spawn_in = draw_bonus_wait(rng);
    proof {
        assert(game.ghosts@ =~= game.ghost_spawns@);
        assert(forall|i: int| 0 <= i < 4 ==> pos_in(&game.grid, #[trigger] game.ghost_spawns@[i]));
    }
}

/// One tick: input, movement, consumption, bonus pickup; a cleared level is
/// replaced by the next and ends the tick; otherwise the bonus item, the
/// ghosts and the power countdown advance and collisions are resolved.
pub fn tick(game: &mut Game, rng: &mut rand::rngs::StdRng, desired_dir: Option<Dir>, input_active: bool)
    requires
        old(game).wf(),
    ensures
        final(game).wf(),
        ticked(&*old(game), &*final(game), desired_dir, input_active),
{
    game.apply_input(desired_dir, input_active);
    let ghost s1 = *game;
    game.move_player();
    let ghost s2 = *game;
    game.consume_tile();
    let ghost s3 = *game;
    game.try_collect_bonus(rng);
    let ghost s4 = *game;
    if game.pellets_left == 0 {
        next_level(game, rng);
        proof {
            assert(input_applied(&*old(game), &s1, desired_dir, input_active) && player_moved(&s1, &s2)
                && tile_consumed(&s2, &s3) && bonus_collected(&s3, &s4));
        }
        return;
    }
    game.update_bonus(rng);
    let ghost s5 = *game;
    game.update_ghosts(rng);
    let ghost s6 = *game;
    game.tick_power_timer();
    let ghost s7 = *game;
    game.handle_collisions(rng);
    proof {
        assert(bonus_advanced(&s4, &s5) && ghosts_advanced(&s5, &s6) && power_ticked(&s6, &s7));
        assert(world_advanced(&s4, &*game));
        assert(input_applied(&*old(game), &s1, desired_dir, input_active) && player_moved(&s1, &s2)
            && tile_consumed(&s2, &s3) && bonus_collected(&s3, &s4));
    }
}

/// On a tick that moves ghosts, every released ghost that was not on the
/// player's tile ends on a tile whose path-field value (from the player's
/// tile, gate open) is no larger than that of the tile it left.
pub proof fn lemma_released_ghosts_close_in(a: &Game, b: &Game, dist: Seq<i32>, i: int)
    requires
        a.wf(),
        ghosts_advanced(a, b),
        b.ghost_tick % GHOST_MOVE_INTERVAL == 0,
        0 <= i < 4,
        a.ghost_release@[i] == 0,
        a.ghosts@[i] != a.player,
        is_field(&a.grid, true, a.player, dist),
    ensures
        dval(&a.grid, dist, b.ghosts@[i]) <= dval(&a.grid, dist, a.ghosts@[i]),
{
    assert(ghost_advanced(a, b, i));
    assert(pos_in(&a.grid, a.ghosts@[i]));
    lemma_chase_move_progress(&a.grid, a.player, a.ghosts@[i], b.ghosts@[i], dist);
}

} // verus!
