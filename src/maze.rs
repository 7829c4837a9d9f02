//! Maze generation on the half-resolution cell grid: a randomized spanning
//! tree, braiding, the ghost pen, connectivity repair and pellet placement.
use crate::grid::{
    carved_from, dir_at, dir_of, idx, lemma_carved_refl, lemma_carved_trans, lemma_dir_at_covers,
    lemma_idx_bounds, lemma_sides_small, Dir, Grid, Tile,
};
use crate::connect::{
    all_linked, ensure_connected, is_trail, linked, pillar_open, repairable, walkable, walkable_side,
};
use crate::grid::{count_food, food_count, player_passable, Pos, MAX_TILES};
use crate::pen::{
    in_pen_interior, inner_h, inner_w, lemma_pen_fits, pen_bounds, pen_cell, pen_of, PenBounds,
};
use vstd::arithmetic::div_mod::lemma_fundamental_div_mod_converse;
use crate::random::{choose_one, random_range, random_ratio};
use vstd::prelude::*;

verus! {

/// Chance, in percent, that a dead end gets one more opening.
pub const BRAID_CHANCE_PERCENT: u32 = 45;

/// Chance, in percent, that any cell gets one more opening.
pub const EXTRA_OPENING_PERCENT: u32 = 8;

/// `(cx, cy)` is a cell of a grid of `width` x `height` tiles: cell
/// `(cx, cy)` sits on tile `(2cx + 1, 2cy + 1)`.
pub open spec fn cell_of(g: &Grid, cx: int, cy: int) -> bool {
    0 <= cx < (g.width - 1) / 2 && 0 <= cy < (g.height - 1) / 2
}

/// The wall tile between cell `(cx, cy)` and its neighbour in `d`.
pub open spec fn wall_x(cx: int, d: Dir) -> int {
    2 * cx + 1 + d.dx()
}

pub open spec fn wall_y(cy: int, d: Dir) -> int {
    2 * cy + 1 + d.dy()
}

/// The number of cells not yet in the tree.
pub open spec fn count_out(s: Seq<bool>) -> nat
    decreases s.len(),
{
    if s.len() == 0 {
        0
    } else {
        count_out(s.drop_last()) + if s.last() { 0nat } else { 1nat }
    }
}

proof fn lemma_count_out_join(s: Seq<bool>, i: int)
    requires
        0 <= i < s.len(),
        !s[i],
    ensures
        count_out(s.update(i, true)) + 1 == count_out(s),
    decreases s.len(),
{
    let u = s.update(i, true);
    if i == s.len() - 1 {
        assert(u.drop_last() =~= s.drop_last());
    } else {
        assert(u.drop_last() =~= s.drop_last().update(i, true));
        lemma_count_out_join(s.drop_last(), i);
    }
}

/// Opens the tile of cell `(cx, cy)`.
pub fn carve_cell(grid: &mut Grid, cx: usize, cy: usize)
    requires
        old(grid).wf(),
        cell_of(&*old(grid), cx as int, cy as int),
    ensures
        final(grid).wf(),
        final(grid).width == old(grid).width,
        final(grid).height == old(grid).height,
        final(grid).tiles@ == old(grid).tiles@.update(idx(old(grid).width as int, 2 * cx + 1, 2 * cy + 1), Tile::Empty),
        old(grid).plain() ==> carved_from(&*old(grid), &*final(grid)),
        old(grid).pillars_walls() ==> final(grid).pillars_walls(),
{
    proof {
        lemma_idx_bounds(grid.width as int, grid.height as int, 2 * cx + 1, 2 * cy + 1);
    }
    grid.set_interior(cx * 2 + 1, cy * 2 + 1, Tile::Empty);
}

/// Opens the wall tile between cell `(cx, cy)` and the adjacent cell
/// `(nx, ny)`.
pub fn carve_between(grid: &mut Grid, cx: usize, cy: usize, nx: usize, ny: usize)
    requires
        old(grid).wf(),
        cell_of(&*old(grid), cx as int, cy as int),
        cell_of(&*old(grid), nx as int, ny as int),
        (cx == nx && (cy + 1 == ny || ny + 1 == cy)) || (cy == ny && (cx + 1 == nx || nx + 1 == cx)),
    ensures
        final(grid).wf(),
        final(grid).width == old(grid).width,
        final(grid).height == old(grid).height,
        final(grid).tiles@ == old(grid).tiles@.update(idx(old(grid).width as int, cx + nx + 1, cy + ny + 1), Tile::Empty),
        old(grid).plain() ==> carved_from(&*old(grid), &*final(grid)),
        old(grid).pillars_walls() ==> final(grid).pillars_walls(),
{
    proof {
        lemma_sides_small(&*grid);
    }
    let gx = cx * 2 + 1;
    let gy = cy * 2 + 1;
    let ngx = nx * 2 + 1;
    let ngy = ny * 2 + 1;
    let wall_x = (gx + ngx) / 2;
    let wall_y = (gy + ngy) / 2;
    proof {
        lemma_idx_bounds(grid.width as int, grid.height as int, wall_x as int, wall_y as int);
    }
    grid.set_interior(wall_x, wall_y, Tile::Empty);
}

/// The neighbour of cell `(cx, cy)` in `dir`, if it is a cell.
fn cell_neighbor(cx: usize, cy: usize, cells_w: usize, cells_h: usize, dir: Dir) -> (r: Option<(usize, usize)>)
    ensures
        r is Some <==> (0 <= cx + dir.dx() < cells_w && 0 <= cy + dir.dy() < cells_h),
        r matches Some(c) ==> c.0 == cx + dir.dx() && c.1 == cy + dir.dy(),
{
    let (dx, dy) = dir.delta();
    if (dx < 0 && cx == 0) || (dy < 0 && cy == 0) {
        return None;
    }
    if (dx > 0 && cx >= cells_w) || (dy > 0 && cy >= cells_h) {
        return None;
    }
    let nx: usize = if dx < 0 { cx - 1 } else if dx > 0 { cx + 1 } else { cx };
    let ny: usize = if dy < 0 { cy - 1 } else if dy > 0 { cy + 1 } else { cy };
    if nx >= cells_w || ny >= cells_h {
        return None;
    }
    Some((nx, ny))
}

/// Whether the wall tile between cell `(cx, cy)` and the adjacent cell
/// `(nx, ny)` is open.
pub fn is_open_between(grid: &Grid, cx: usize, cy: usize, nx: usize, ny: usize) -> (r: bool)
    requires
        grid.wf(),
        cell_of(grid, cx as int, cy as int),
        cell_of(grid, nx as int, ny as int),
    ensures
        r == (grid.at((2 * cx + 1 + 2 * nx + 1) / 2, (2 * cy + 1 + 2 * ny + 1) / 2) != Tile::Wall),
{
    proof {
        lemma_sides_small(&*grid);
    }
    let gx = cx * 2 + 1;
    let gy = cy * 2 + 1;
    let ngx = nx * 2 + 1;
    let ngy = ny * 2 + 1;
    let wall_x = (gx + ngx) / 2;
    let wall_y = (gy + ngy) / 2;
    grid.get(wall_x, wall_y) != Tile::Wall
}

/// Whether cell `(cx, cy)` has a neighbour cell in `d`, with the wall between
/// them open (`open == true`) or closed (`open == false`).
pub open spec fn side(g: &Grid, cx: int, cy: int, d: Dir, open: bool) -> bool {
    &&& cell_of(g, cx + d.dx(), cy + d.dy())
    &&& (g.at(wall_x(cx, d), wall_y(cy, d)) != Tile::Wall) == open
}

/// The directions from cell `(cx, cy)` to neighbour cells whose wall is open
/// (`open == true`) or closed (`open == false`), in scan order.
fn cell_sides(grid: &Grid, cx: usize, cy: usize, cells_w: usize, cells_h: usize, open: bool) -> (r: Vec<Dir>)
    requires
        grid.wf(),
        cells_w == (grid.width - 1) / 2,
        cells_h == (grid.height - 1) / 2,
        cell_of(grid, cx as int, cy as int),
    ensures
        forall|d: Dir| r@.contains(d) <==> #[trigger] side(grid, cx as int, cy as int, d, open),
{
    let mut out: Vec<Dir> = Vec::new();
    let mut k: usize = 0;
    while k < 4
        invariant
            k <= 4,
            grid.wf(),
            cells_w == (grid.width - 1) / 2,
            cells_h == (grid.height - 1) / 2,
            cell_of(grid, cx as int, cy as int),
            forall|d: Dir| out@.contains(d) ==> #[trigger] side(grid, cx as int, cy as int, d, open),
            forall|m: int| 0 <= m < k && #[trigger] side(grid, cx as int, cy as int, dir_at(m), open) ==> out@.contains(dir_at(m)),
        decreases 4 - k,
    {
        let dir = dir_of(k);
        match cell_neighbor(cx, cy, cells_w, cells_h, dir) {
            None => {},
            Some((nx, ny)) => {
                if is_open_between(grid, cx, cy, nx, ny) == open {
                    let ghost before = out@;
                    out.push(dir);
                    proof {
                        assert(out@[out.len() - 1] == dir);
                        assert forall|d: Dir| out@.contains(d) implies #[trigger] side(grid, cx as int, cy as int, d, open) by {
                            let i = choose|i: int| 0 <= i < out.len() && out@[i] == d;
                            if i < before.len() {
                                assert(before[i] == d);
                                assert(before.contains(d));
                            }
                        }
                        assert forall|m: int| 0 <= m < k && #[trigger] side(grid, cx as int, cy as int, dir_at(m), open) implies out@.contains(dir_at(m)) by {
                            let i = choose|i: int| 0 <= i < before.len() && before[i] == dir_at(m);
                            assert(out@[i] == dir_at(m));
                        }
                    }
                }
            },
        }
        k = k + 1;
    }
    proof {
        assert forall|d: Dir| #[trigger] side(grid, cx as int, cy as int, d, open) implies out@.contains(d) by {
            lemma_dir_at_covers(d);
            let m = choose|m: int| 0 <= m < 4 && dir_at(m) == d;
            assert(side(grid, cx as int, cy as int, dir_at(m), open));
        }
    }
    out
}

/// The directions from cell `(cx, cy)` to neighbour cells with an open wall.
pub fn cell_open_neighbors(grid: &Grid, cx: usize, cy: usize, cells_w: usize, cells_h: usize) -> (r: Vec<Dir>)
    requires
        grid.wf(),
        cells_w == (grid.width - 1) / 2,
        cells_h == (grid.height - 1) / 2,
        cell_of(grid, cx as int, cy as int),
    ensures
        forall|d: Dir| r@.contains(d) <==> #[trigger] side(grid, cx as int, cy as int, d, true),
{
    cell_sides(grid, cx, cy, cells_w, cells_h, true)
}

/// The directions from cell `(cx, cy)` to neighbour cells with a closed wall.
pub fn cell_closed_neighbors(grid: &Grid, cx: usize, cy: usize, cells_w: usize, cells_h: usize) -> (r: Vec<Dir>)
    requires
        grid.wf(),
        cells_w == (grid.width - 1) / 2,
        cells_h == (grid.height - 1) / 2,
        cell_of(grid, cx as int, cy as int),
    ensures
        forall|d: Dir| r@.contains(d) <==> #[trigger] side(grid, cx as int, cy as int, d, false),
{
    cell_sides(grid, cx, cy, cells_w, cells_h, false)
}

/// Opens the wall between cell `(cx, cy)` and its neighbour cell in `dir`,
/// and that cell's tile.
pub fn carve_between_dir(grid: &mut Grid, cx: usize, cy: usize, dir: Dir)
    requires
        old(grid).wf(),
        cell_of(&*old(grid), cx as int, cy as int),
        cell_of(&*old(grid), cx + dir.dx(), cy + dir.dy()),
    ensures
        final(grid).wf(),
        final(grid).width == old(grid).width,
        final(grid).height == old(grid).height,
        final(grid).tiles@ == old(grid).tiles@.update(
            idx(old(grid).width as int, wall_x(cx as int, dir), wall_y(cy as int, dir)),
            Tile::Empty,
        ).update(idx(old(grid).width as int, 2 * (cx + dir.dx()) + 1, 2 * (cy + dir.dy()) + 1), Tile::Empty),
        old(grid).plain() ==> carved_from(&*old(grid), &*final(grid)),
        old(grid).pillars_walls() ==> final(grid).pillars_walls(),
{
    let (dx, dy) = dir.delta();
    let nx: usize = if dx < 0 { cx - 1 } else if dx > 0 { cx + 1 } else { cx };
    let ny: usize = if dy < 0 { cy - 1 } else if dy > 0 { cy + 1 } else { cy };
    let ghost g0 = *grid;
    carve_between(grid, cx, cy, nx, ny);
    let ghost g1 = *grid;
    carve_cell(grid, nx, ny);
    proof {
        if g0.plain() {
            lemma_carved_trans(&g0, &g1, &*grid);
        }
    }
}

/// Braiding: a dead-end cell gets one more opening with chance
/// `BRAID_CHANCE_PERCENT`; otherwise any cell with a closed side gets one with
/// chance `EXTRA_OPENING_PERCENT`. The side opened is drawn at random.
fn braid_maze(grid: &mut Grid, cells_w: usize, cells_h: usize, rng: &mut rand::rngs::StdRng)
    requires
        old(grid).wf(),
        old(grid).plain(),
        cells_w == (old(grid).width - 1) / 2,
        cells_h == (old(grid).height - 1) / 2,
    ensures
        carved_from(&*old(grid), &*final(grid)),
        old(grid).pillars_walls() ==> final(grid).pillars_walls(),
{
    let ghost g0 = *grid;
    proof {
        lemma_carved_refl(&g0);
    }
    let mut cy: usize = 0;
    while cy < cells_h
        invariant
            g0.wf(),
            g0.plain(),
            carved_from(&g0, &*grid),
            g0 == *old(grid),
            g0.pillars_walls() ==> grid.pillars_walls(),
            cells_w == (grid.width - 1) / 2,
            cells_h == (grid.height - 1) / 2,
        decreases cells_h - cy,
    {
        let mut cx: usize = 0;
        while cx < cells_w
            invariant
                g0.wf(),
                g0.plain(),
                carved_from(&g0, &*grid),
                g0 == *old(grid),
                g0.pillars_walls() ==> grid.pillars_walls(),
                cy < cells_h,
                cells_w == (grid.width - 1) / 2,
                cells_h == (grid.height - 1) / 2,
            decreases cells_w - cx,
        {
            let open = cell_open_neighbors(grid, cx, cy, cells_w, cells_h);
            let closed = cell_closed_neighbors(grid, cx, cy, cells_w, cells_h);
            let mut pick: Option<Dir> = None;
            if open.len() == 1 && closed.len() > 0 && random_ratio(rng, BRAID_CHANCE_PERCENT, 100) {
                pick = choose_one(rng, &closed);
            } else if closed.len() > 0 && random_ratio(rng, EXTRA_OPENING_PERCENT, 100) {
                pick = choose_one(rng, &closed);
            }
            if let Some(dir) = pick {
                proof {
                    assert(side(&*grid, cx as int, cy as int, dir, false));
                }
                let ghost g1 = *grid;
                carve_between_dir(grid, cx, cy, dir);
                proof {
                    lemma_carved_trans(&g0, &g1, &*grid);
                }
            }
            cx = cx + 1;
        }
        cy = cy + 1;
    }
}

/// Grid sizes a maze is generated for: odd sides, at least 5 x 5 (the
/// smallest pen and the outer ring), room for a cell outside the pen (at
/// least 13 wide or 9 tall), and at most `MAX_TILES` tiles.
pub open spec fn valid_dims(w: int, h: int) -> bool {
    &&& maze_dims(w, h)
    &&& (w >= 13 || h >= 9)
}

/// Grid sizes the generator works on: odd sides, at least 5 x 5 (the
/// smallest pen and the outer ring), and at most `MAX_TILES` tiles.
pub open spec fn maze_dims(w: int, h: int) -> bool {
    &&& w % 2 == 1
    &&& h % 2 == 1
    &&& w >= 5
    &&& h >= 5
    &&& w * h <= MAX_TILES
}

/// Rows of the pen's interior above row `y`.
pub open spec fn rows_done(pen: PenBounds, y: int) -> int {
    if y <= pen.y0 {
        0
    } else if y > pen.y1 {
        inner_h(pen)
    } else {
        y - pen.y0 - 1
    }
}

/// Columns of the pen's interior left of column `x`.
pub open spec fn cols_done(pen: PenBounds, x: int) -> int {
    if x <= pen.x0 {
        0
    } else if x >= pen.x1 {
        inner_w(pen)
    } else {
        x - pen.x0 - 1
    }
}

/// Some tile outside the pen is open to the player.
pub open spec fn has_free_tile(g: &Grid, pen: PenBounds) -> bool {
    exists|p: Pos|
        g.in_bounds(p.x as int, p.y as int) && !pen.holds(p.x as int, p.y as int) && #[trigger] player_passable(
            g.at(p.x as int, p.y as int),
        )
}

/// A pen's door (its Gate tile): the middle of its top edge.
pub open spec fn door_of(pen: PenBounds) -> Pos {
    Pos { x: ((pen.x0 + pen.x1) / 2) as usize, y: pen.y0 }
}

/// Every tile but `door` is a wall or empty.
pub open spec fn plain_but(g: &Grid, door: Pos) -> bool {
    forall|x: int, y: int|
        #![trigger g.at(x, y)]
        g.in_bounds(x, y) && (x != door.x || y != door.y) ==> g.at(x, y) == Tile::Wall || g.at(x, y)
            == Tile::Empty
}

/// Cell `(cx, cy)` is in the tree, in a flat row-major table of `cw` columns.
pub open spec fn joined(in_maze: Seq<bool>, cw: int, cx: int, cy: int) -> bool {
    in_maze[idx(cw, cx, cy)]
}

/// `(cx, cy)` lies in a table of `cw` x `ch` cells.
pub open spec fn cell_in(cw: int, ch: int, cx: int, cy: int) -> bool {
    0 <= cx < cw && 0 <= cy < ch
}

/// The neighbour of cell `(cx, cy)` in `d` is a cell in the tree.
pub open spec fn joined_side(in_maze: Seq<bool>, cw: int, ch: int, cx: int, cy: int, d: Dir) -> bool {
    cell_in(cw, ch, cx + d.dx(), cy + d.dy()) && joined(in_maze, cw, cx + d.dx(), cy + d.dy())
}

/// Some neighbour cell of `(cx, cy)` is in the tree.
pub open spec fn touches_tree(in_maze: Seq<bool>, cw: int, ch: int, cx: int, cy: int) -> bool {
    exists|k: int| 0 <= k < 4 && #[trigger] joined_side(in_maze, cw, ch, cx, cy, dir_at(k))
}

/// Cell `(cx, cy)` as a frontier entry.
pub open spec fn cell_pair(cx: int, cy: int) -> (usize, usize) {
    (cx as usize, cy as usize)
}

/// `f` holds every neighbour cell of `(cx, cy)`, among the first `upto`
/// directions, that is not in the tree.
pub open spec fn holds_missing(f: Seq<(usize, usize)>, in_maze: Seq<bool>, cw: int, ch: int, cx: int, cy: int, upto: int) -> bool {
    forall|k: int|
        0 <= k < upto && cell_in(cw, ch, cx + (#[trigger] dir_at(k)).dx(), cy + dir_at(k).dy()) && !joined(
            in_maze,
            cw,
            cx + dir_at(k).dx(),
            cy + dir_at(k).dy(),
        ) ==> f.contains(cell_pair(cx + dir_at(k).dx(), cy + dir_at(k).dy()))
}

/// `e` is a neighbour cell of `(cx, cy)`.
pub open spec fn beside(cw: int, ch: int, cx: int, cy: int, e: (usize, usize)) -> bool {
    exists|k: int|
        0 <= k < 4 && cell_in(cw, ch, cx + (#[trigger] dir_at(k)).dx(), cy + dir_at(k).dy()) && e == cell_pair(
            cx + dir_at(k).dx(),
            cy + dir_at(k).dy(),
        )
}

/// Every open tile at even coordinates outside the pen lies above the pen,
/// with an open tile right above it.
pub open spec fn pillars_hang(g: &Grid, pen: PenBounds) -> bool {
    forall|x: int, y: int| #[trigger] hangs(g, pen, x, y)
}

/// If `(x, y)` is an open tile at even coordinates outside the pen, it lies
/// above the pen with an open tile right above it.
pub open spec fn hangs(g: &Grid, pen: PenBounds, x: int, y: int) -> bool {
    g.in_bounds(x, y) && x % 2 == 0 && y % 2 == 0 && !pen.holds(x, y) && g.at(x, y) != Tile::Wall ==> 2 <= y
        < pen.y0 && g.at(x, y - 1) != Tile::Wall
}

/// Pushes onto `frontier` each neighbour cell of `(cx, cy)` not yet in the
/// tree.
pub fn add_frontier(
    cx: usize,
    cy: usize,
    cells_w: usize,
    cells_h: usize,
    in_maze: &Vec<bool>,
    frontier: &mut Vec<(usize, usize)>,
)
    requires
        cx < cells_w,
        cy < cells_h,
        in_maze@.len() == cells_w * cells_h,
    ensures
        old(frontier)@.len() <= final(frontier)@.len() <= old(frontier)@.len() + 4,
        final(frontier)@.subrange(0, old(frontier)@.len() as int) == old(frontier)@,
        forall|i: int|
            old(frontier)@.len() <= i < final(frontier)@.len() ==> (#[trigger] final(frontier)@[i]).0 < cells_w
                && final(frontier)@[i].1 < cells_h,
        forall|i: int|
            old(frontier)@.len() <= i < final(frontier)@.len() ==> beside(
                cells_w as int,
                cells_h as int,
                cx as int,
                cy as int,
                #[trigger] final(frontier)@[i],
            ),
        holds_missing(final(frontier)@, in_maze@, cells_w as int, cells_h as int, cx as int, cy as int, 4),
{
    let ghost f0 = frontier@;
    let mut k: usize = 0;
    while k < 4
        invariant
            k <= 4,
            cx < cells_w,
            cy < cells_h,
            in_maze@.len() == cells_w * cells_h,
            f0.len() <= frontier@.len() <= f0.len() + k,
            frontier@.subrange(0, f0.len() as int) == f0,
            forall|i: int|
                f0.len() <= i < frontier@.len() ==> (#[trigger] frontier@[i]).0 < cells_w && frontier@[i].1 < cells_h,
            forall|i: int|
                f0.len() <= i < frontier@.len() ==> beside(
                    cells_w as int,
                    cells_h as int,
                    cx as int,
                    cy as int,
                    #[trigger] frontier@[i],
                ),
            holds_missing(frontier@, in_maze@, cells_w as int, cells_h as int, cx as int, cy as int, k as int),
        decreases 4 - k,
    {
        let dir = dir_of(k);
        let ghost before_k = frontier@;
        if let Some((nx, ny)) = cell_neighbor(cx, cy, cells_w, cells_h, dir) {
            let len = in_maze.len();
            proof {
                lemma_idx_bounds(cells_w as int, cells_h as int, nx as int, ny as int);
                assert(ny * cells_w + nx < len);
            }
            if !in_maze[ny * cells_w + nx] {
                let ghost before = frontier@;
                frontier.push((nx, ny));
                proof {
                    assert(frontier@.subrange(0, f0.len() as int) =~= before.subrange(0, f0.len() as int));
                    assert(frontier@[frontier@.len() - 1] == (nx, ny));
                    assert(beside(cells_w as int, cells_h as int, cx as int, cy as int, (nx, ny)));
                }
            }
        }
        proof {
            assert forall|j: int| 0 <= j < before_k.len() implies frontier@.contains(#[trigger] before_k[j]) by {
                assert(frontier@[j] == before_k[j]);
            }
            assert forall|m: int|
                0 <= m < k + 1 && cell_in(cells_w as int, cells_h as int, cx + (#[trigger] dir_at(m)).dx(), cy + dir_at(m).dy()) && !joined(
                    in_maze@,
                    cells_w as int,
                    cx + dir_at(m).dx(),
                    cy + dir_at(m).dy(),
                ) implies frontier@.contains(cell_pair(cx + dir_at(m).dx(), cy + dir_at(m).dy())) by {
                if m < k {
                    assert(before_k.contains(cell_pair(cx + dir_at(m).dx(), cy + dir_at(m).dy())));
                    let j = choose|j: int| 0 <= j < before_k.len() && before_k[j] == cell_pair(cx + dir_at(m).dx(), cy + dir_at(m).dy());
                    assert(frontier@.contains(before_k[j]));
                } else {
                    lemma_idx_bounds(cells_w as int, cells_h as int, cx + dir_at(m).dx(), cy + dir_at(m).dy());
                    assert(frontier@[frontier@.len() - 1] == cell_pair(cx + dir_at(m).dx(), cy + dir_at(m).dy()));
                }
            }
        }
        k = k + 1;
    }
}

/// Carves the pen: its ring becomes wall, its interior empty, the middle of
/// its top edge a Gate tile (the door), and a straight corridor is opened upward from the
/// door through walls until it meets an open tile. Returns the door, the
/// interior tiles in row-major order, and the pen's bounds.
pub fn carve_ghost_pen(grid: &mut Grid, width: usize, height: usize) -> (r: (Vec<Pos>, Pos, Vec<Pos>, PenBounds))
    requires
        old(grid).wf(),
        old(grid).plain(),
        old(grid).border_walls(),
        width == old(grid).width,
        height == old(grid).height,
        maze_dims(width as int, height as int),
    ensures
        final(grid).wf(),
        final(grid).width == width,
        final(grid).height == height,
        final(grid).border_walls(),
        r.3 == pen_of(width as int, height as int),
        r.1 == door_of(r.3),
        final(grid).at(r.1.x as int, r.1.y as int) == Tile::Gate,
        plain_but(&*final(grid), r.1),
        forall|x: int, y: int| #[trigger] r.3.interior(x, y) ==> final(grid).at(x, y) == Tile::Empty,
        forall|x: int, y: int|
            #![trigger final(grid).at(x, y)]
            r.3.ring(x, y) && (x != r.1.x || y != r.1.y) ==> final(grid).at(x, y) == Tile::Wall,
        r.3.y0 >= 2 ==> final(grid).at(r.1.x as int, r.1.y - 1) == Tile::Empty,
        r.2@.len() == inner_w(r.3) * inner_h(r.3),
        r.2@.len() > 0,
        forall|i: int| 0 <= i < r.2@.len() ==> #[trigger] r.2@[i] == pen_cell(r.3, i),
        forall|i: int| 0 <= i < r.2@.len() ==> r.3.interior((#[trigger] r.2@[i]).x as int, r.2@[i].y as int),
        r.0@ == r.2@.push(r.1),
        forall|x: int, y: int|
            #![trigger final(grid).at(x, y)]
            old(grid).in_bounds(x, y) && !r.3.holds(x, y) ==> final(grid).at(x, y) == old(grid).at(x, y) || (old(
                grid,
            ).at(x, y) == Tile::Wall && final(grid).at(x, y) == Tile::Empty && x == r.1.x && y < r.1.y),
        old(grid).pillars_walls() ==> pillars_hang(&*final(grid), r.3),
{
    let ghost g_in = *grid;
    let pen = pen_bounds(width, height);
    proof {
        lemma_sides_small(&*grid);
        lemma_pen_fits(width as int, height as int);
    }
    let x0 = pen.x0;
    let y0 = pen.y0;
    let x1 = pen.x1;
    let y1 = pen.y1;
    let mut pen_spawns: Vec<Pos> = Vec::new();
    let mut y: usize = y0;
    while y <= y1
        invariant
            grid.wf(),
            grid.width == width,
            grid.height == height,
            grid.plain(),
            grid.border_walls(),
            pen == pen_of(width as int, height as int),
            x0 == pen.x0 && y0 == pen.y0 && x1 == pen.x1 && y1 == pen.y1,
            1 <= x0 && x0 + 2 <= x1 && x1 <= width - 2 && 1 <= y0 && y0 + 2 <= y1 && y1 <= height - 2,
            y0 <= y <= y1 + 1,
            g_in == *old(grid),
            g_in.width == width && g_in.height == height,
            forall|a: int, b: int|
                #![trigger grid.at(a, b)]
                g_in.in_bounds(a, b) && !pen.holds(a, b) ==> grid.at(a, b) == g_in.at(a, b),
            forall|a: int, b: int| #[trigger] pen.interior(a, b) && b < y ==> grid.at(a, b) == Tile::Empty,
            y > y0 + 1 ==> pen_spawns@.len() > 0,
            forall|i: int| 0 <= i < pen_spawns@.len() ==> pen.interior((#[trigger] pen_spawns@[i]).x as int, pen_spawns@[i].y as int),
            pen_spawns@.len() == rows_done(pen, y as int) * inner_w(pen),
            forall|i: int| 0 <= i < pen_spawns@.len() ==> #[trigger] pen_spawns@[i] == pen_cell(pen, i),
            forall|a: int, b: int| #![trigger grid.at(a, b)] pen.ring(a, b) && b < y ==> grid.at(a, b) == Tile::Wall,
        decreases y1 + 1 - y,
    {
        let mut x: usize = x0;
        while x <= x1
            invariant
                grid.wf(),
                grid.width == width,
                grid.height == height,
                grid.plain(),
                grid.border_walls(),
                pen == pen_of(width as int, height as int),
                x0 == pen.x0 && y0 == pen.y0 && x1 == pen.x1 && y1 == pen.y1,
                1 <= x0 && x0 + 2 <= x1 && x1 <= width - 2 && 1 <= y0 && y0 + 2 <= y1 && y1 <= height - 2,
                y0 <= y <= y1,
                x0 <= x <= x1 + 1,
                g_in == *old(grid),
            g_in.width == width && g_in.height == height,
                forall|a: int, b: int|
                    #![trigger grid.at(a, b)]
                    g_in.in_bounds(a, b) && !pen.holds(a, b) ==> grid.at(a, b) == g_in.at(a, b),
                forall|a: int, b: int| #[trigger] pen.interior(a, b) && b < y ==> grid.at(a, b) == Tile::Empty,
                forall|a: int| #[trigger] pen.interior(a, y as int) && a < x ==> grid.at(a, y as int) == Tile::Empty,
                y > y0 + 1 ==> pen_spawns@.len() > 0,
                (y > y0 && x > x0 + 1) ==> pen_spawns@.len() > 0,
                forall|i: int| 0 <= i < pen_spawns@.len() ==> pen.interior((#[trigger] pen_spawns@[i]).x as int, pen_spawns@[i].y as int),
                pen_spawns@.len() == rows_done(pen, y as int) * inner_w(pen) + (if y0 < y < y1 {
                    cols_done(pen, x as int)
                } else {
                    0
                }),
                forall|i: int| 0 <= i < pen_spawns@.len() ==> #[trigger] pen_spawns@[i] == pen_cell(pen, i),
                forall|a: int, b: int| #![trigger grid.at(a, b)] pen.ring(a, b) && b < y ==> grid.at(a, b) == Tile::Wall,
                forall|a: int| #![trigger grid.at(a, y as int)] pen.ring(a, y as int) && a < x ==> grid.at(a, y as int) == Tile::Wall,
            decreases x1 + 1 - x,
        {
            let ghost before = *grid;
            if y == y0 || y == y1 || x == x0 || x == x1 {
                grid.set_interior(x, y, Tile::Wall);
            } else {
                grid.set_interior(x, y, Tile::Empty);
                let ghost j = pen_spawns@.len() as int;
                pen_spawns.push(Pos { x, y });
                proof {
                    lemma_fundamental_div_mod_converse(j, inner_w(pen), y - y0 - 1, x - x0 - 1);
                    assert(pen_spawns@[j] == pen_cell(pen, j));
                }
            }
            proof {
                assert forall|a: int, b: int|
                    #![trigger grid.at(a, b)]
                    g_in.in_bounds(a, b) && !pen.holds(a, b) implies grid.at(a, b) == g_in.at(a, b) by {
                    assert(a != x || b != y);
                    assert(grid.at(a, b) == before.at(a, b));
                }
            }
            x = x + 1;
        }
        proof {
            if y0 < y < y1 {
                let k = rows_done(pen, y as int);
                let w = inner_w(pen);
                assert(k * w + w == (k + 1) * w) by (nonlinear_arith);
            }
        }
        y = y + 1;
    }
    proof {
        let n = pen_spawns@.len() as int;
        let w = inner_w(pen);
        let h = inner_h(pen);
        assert(n == h * w);
        assert(n == w * h) by (nonlinear_arith)
            requires
                n == h * w,
        ;
    }
    let door_x = (x0 + x1) / 2;
    let door = Pos { x: door_x, y: y0 };
    let ghost g_pen = *grid;
    grid.set_interior(door.x, door.y, Tile::Gate);
    let ghost g1 = *grid;
    proof {
        assert forall|x: int, y: int|
            #![trigger grid.at(x, y)]
            grid.in_bounds(x, y) && (x != door.x || y != door.y) implies grid.at(x, y) == Tile::Wall || grid.at(x, y)
                == Tile::Empty by {
            lemma_idx_bounds(width as int, height as int, x, y);
            assert(g_pen.at(x, y) == g_pen.tiles@[idx(width as int, x, y)]);
        }
    }
    let mut y: usize = door.y - 1;
    let mut stopped = false;
    while y > 0 && !stopped
        invariant
            grid.wf(),
            grid.width == width,
            grid.height == height,
            grid.border_walls(),
            g1.wf(),
            plain_but(&g1, door),
            plain_but(&*grid, door),
            grid.at(door.x as int, door.y as int) == Tile::Gate,
            pen == pen_of(width as int, height as int),
            1 <= x0 && x0 + 2 <= x1 && x1 <= width - 2 && 1 <= y0 && y0 + 2 <= y1 && y1 <= height - 2,
            door == door_of(pen),
            x0 == pen.x0 && y0 == pen.y0 && x1 == pen.x1 && y1 == pen.y1,
            y < y0,
            g_in == *old(grid),
            g_in.width == width && g_in.height == height,
            forall|a: int, b: int|
                #![trigger grid.at(a, b)]
                g_in.in_bounds(a, b) && !pen.holds(a, b) ==> grid.at(a, b) == g_in.at(a, b) || (g_in.at(a, b)
                    == Tile::Wall && grid.at(a, b) == Tile::Empty && a == door.x && b < y0),
            forall|a: int, b: int|
                #![trigger grid.at(a, b)]
                pen.ring(a, b) && (a != door.x || b != door.y) ==> grid.at(a, b) == Tile::Wall,
            forall|b: int| y < b < y0 ==> #[trigger] grid.at(door.x as int, b) != Tile::Wall,
            stopped ==> grid.at(door.x as int, y as int) != Tile::Wall,
            g_in.pillars_walls() ==> forall|a: int, b: int|
                #![trigger grid.at(a, b)]
                g_in.in_bounds(a, b) && a % 2 == 0 && b % 2 == 0 && !pen.holds(a, b) && grid.at(a, b) != Tile::Wall
                    ==> a == door.x && y < b < y0,
            forall|a: int, b: int| #[trigger] pen.interior(a, b) ==> grid.at(a, b) == Tile::Empty,
            y0 >= 2 && (y < y0 - 1 || stopped) ==> grid.at(door.x as int, y0 - 1) != Tile::Wall,
        decreases y + (if stopped { 0int } else { 1int }),
    {
        if grid.get(door.x, y) != Tile::Wall {
            stopped = true;
        } else {
            let ghost before = *grid;
            grid.set_interior(door.x, y, Tile::Empty);
            proof {
                assert forall|a: int, b: int|
                    #![trigger grid.at(a, b)]
                    g_in.in_bounds(a, b) && !pen.holds(a, b) implies grid.at(a, b) == g_in.at(a, b) || (g_in.at(a, b)
                        == Tile::Wall && grid.at(a, b) == Tile::Empty && a == door.x && b < y0) by {
                    if a == door.x && b == y {
                        assert(before.at(a, b) == Tile::Wall);
                    } else {
                        assert(grid.at(a, b) == before.at(a, b));
                    }
                }
                assert forall|a: int, b: int|
                    #![trigger grid.at(a, b)]
                    pen.ring(a, b) && (a != door.x || b != door.y) implies grid.at(a, b) == Tile::Wall by {
                    assert(a != door.x || b != y);
                    assert(grid.at(a, b) == before.at(a, b));
                }
                assert forall|b: int| y - 1 < b < y0 implies #[trigger] grid.at(door.x as int, b) != Tile::Wall by {
                    if b != y {
                        assert(grid.at(door.x as int, b) == before.at(door.x as int, b));
                    }
                }
                if g_in.pillars_walls() {
                    assert forall|a: int, b: int|
                        #![trigger grid.at(a, b)]
                        g_in.in_bounds(a, b) && a % 2 == 0 && b % 2 == 0 && !pen.holds(a, b) && grid.at(a, b) != Tile::Wall
                            implies a == door.x && y - 1 < b < y0 by {
                        if a != door.x || b != y {
                            assert(grid.at(a, b) == before.at(a, b));
                        }
                    }
                }
            }
            y = y - 1;
        }
    }
    proof {
        if y0 >= 2 {
            assert(grid.at(door.x as int, y0 - 1) != Tile::Wall);
            assert(grid.in_bounds(door.x as int, y0 - 1));
        }
        if g_in.pillars_walls() {
            assert forall|a: int, b: int| #[trigger] hangs(&*grid, pen, a, b) by {
                if grid.in_bounds(a, b) && a % 2 == 0 && b % 2 == 0 && !pen.holds(a, b) && grid.at(a, b) != Tile::Wall {
                    assert(a == door.x && y < b < y0);
                    if b - 1 > y {
                        assert(grid.at(door.x as int, b - 1) != Tile::Wall);
                    }
                }
            }
        }
    }
    let mut pen_all = pen_spawns.clone();
    pen_all.push(door);
    proof {
        assert(pen_all@ =~= pen_spawns@.push(door));
    }
    (pen_all, door, pen_spawns, pen)
}

/// Four ghost spawns: the first four pen tiles, padded by repeating the
/// first; none when there are no pen tiles.
pub fn pick_ghost_spawns(pen_spawns: &Vec<Pos>) -> (r: Vec<Pos>)
    ensures
        pen_spawns@.len() == 0 ==> r@.len() == 0,
        pen_spawns@.len() > 0 ==> r@.len() == 4,
        forall|i: int|
            0 <= i < r@.len() ==> #[trigger] r@[i] == if i < pen_spawns@.len() {
                pen_spawns@[i]
            } else {
                pen_spawns@[0]
            },
{
    let mut spawns: Vec<Pos> = Vec::new();
    if pen_spawns.len() == 0 {
        return spawns;
    }
    let mut i: usize = 0;
    while i < pen_spawns.len() && i < 4
        invariant
            i <= 4,
            i <= pen_spawns@.len(),
            spawns@.len() == i,
            forall|j: int| 0 <= j < i ==> #[trigger] spawns@[j] == pen_spawns@[j],
        decreases 4 - i,
    {
        spawns.push(pen_spawns[i]);
        i = i + 1;
    }
    while spawns.len() < 4
        invariant
            pen_spawns@.len() > 0,
            spawns@.len() <= 4,
            spawns@.len() < 4 ==> spawns@.len() >= pen_spawns@.len(),
            forall|j: int|
                0 <= j < spawns@.len() ==> #[trigger] spawns@[j] == if j < pen_spawns@.len() {
                    pen_spawns@[j]
                } else {
                    pen_spawns@[0]
                },
        decreases 4 - spawns@.len(),
    {
        spawns.push(pen_spawns[0]);
    }
    spawns
}

/// The tile just above the pen door, where the corridor to the maze starts.
pub open spec fn approach_of(pen: PenBounds) -> (int, int) {
    (door_of(pen).x as int, pen.y0 - 1)
}

/// The slot of the direction opposite to `dir_at(k)`.
pub open spec fn opp(k: int) -> int {
    if k == 0 {
        1
    } else if k == 1 {
        0
    } else if k == 2 {
        3
    } else {
        2
    }
}

/// The tree's state: every cell in the tree is open, every cell outside it
/// but next to it waits in the frontier, and every frontier entry is a cell
/// next to the tree.
pub open spec fn tree_inv(g: &Grid, in_maze: Seq<bool>, cw: int, ch: int, f: Seq<(usize, usize)>) -> bool {
    &&& forall|cx: int, cy: int|
        cell_in(cw, ch, cx, cy) && #[trigger] joined(in_maze, cw, cx, cy) ==> g.at(2 * cx + 1, 2 * cy + 1)
            != Tile::Wall
    &&& forall|cx: int, cy: int|
        cell_in(cw, ch, cx, cy) && !joined(in_maze, cw, cx, cy) && #[trigger] touches_tree(in_maze, cw, ch, cx, cy)
            ==> f.contains(cell_pair(cx, cy))
    &&& forall|i: int|
        0 <= i < f.len() ==> cell_in(cw, ch, (#[trigger] f[i]).0 as int, f[i].1 as int) && touches_tree(
            in_maze,
            cw,
            ch,
            f[i].0 as int,
            f[i].1 as int,
        )
}

/// Taking one entry out of the frontier keeps every other waiting cell in it.
proof fn lemma_tree_pop(g: &Grid, in_maze: Seq<bool>, cw: int, ch: int, fa: Seq<(usize, usize)>, pick: int)
    requires
        tree_inv(g, in_maze, cw, ch, fa),
        0 <= pick < fa.len(),
    ensures
        ({
            let f = fa.update(pick, fa[fa.len() - 1]).drop_last();
            let c = fa[pick];
            &&& cell_in(cw, ch, c.0 as int, c.1 as int)
            &&& touches_tree(in_maze, cw, ch, c.0 as int, c.1 as int)
            &&& forall|i: int|
                0 <= i < f.len() ==> cell_in(cw, ch, (#[trigger] f[i]).0 as int, f[i].1 as int) && touches_tree(
                    in_maze,
                    cw,
                    ch,
                    f[i].0 as int,
                    f[i].1 as int,
                )
            &&& forall|cx: int, cy: int|
                cell_in(cw, ch, cx, cy) && !joined(in_maze, cw, cx, cy) && #[trigger] touches_tree(in_maze, cw, ch, cx, cy)
                    && cell_pair(cx, cy) != c ==> f.contains(cell_pair(cx, cy))
        }),
{
    let f = fa.update(pick, fa[fa.len() - 1]).drop_last();
    let c = fa[pick];
    assert(cell_in(cw, ch, fa[pick].0 as int, fa[pick].1 as int));
    assert forall|i: int| 0 <= i < f.len() implies cell_in(cw, ch, (#[trigger] f[i]).0 as int, f[i].1 as int) && touches_tree(
        in_maze,
        cw,
        ch,
        f[i].0 as int,
        f[i].1 as int,
    ) by {
        if i == pick {
            assert(f[i] == fa[fa.len() - 1]);
        } else {
            assert(f[i] == fa[i]);
        }
    }
    assert forall|cx: int, cy: int|
        cell_in(cw, ch, cx, cy) && !joined(in_maze, cw, cx, cy) && #[trigger] touches_tree(in_maze, cw, ch, cx, cy)
            && cell_pair(cx, cy) != c implies f.contains(cell_pair(cx, cy)) by {
        assert(fa.contains(cell_pair(cx, cy)));
        let j = choose|j: int| 0 <= j < fa.len() && fa[j] == cell_pair(cx, cy);
        if j == fa.len() - 1 {
            assert(f[pick] == fa[j]);
        } else {
            assert(f[j] == fa[j]);
        }
    }
}

/// Joining cell `(cx, cy)` to the tree, opening its tile and queueing its
/// neighbours outside the tree keeps the tree's state.
#[verifier::spinoff_prover]
#[verifier::rlimit(60)]
proof fn lemma_tree_join(
    g0: &Grid,
    g1: &Grid,
    in0: Seq<bool>,
    in1: Seq<bool>,
    cw: int,
    ch: int,
    f0: Seq<(usize, usize)>,
    f1: Seq<(usize, usize)>,
    cx: int,
    cy: int,
)
    requires
        cw > 0,
        ch > 0,
        in0.len() == cw * ch,
        cell_in(cw, ch, cx, cy),
        !joined(in0, cw, cx, cy),
        in1 == in0.update(idx(cw, cx, cy), true),
        g0.wf(),
        carved_from(g0, g1),
        g1.at(2 * cx + 1, 2 * cy + 1) != Tile::Wall,
        forall|ax: int, ay: int|
            cell_in(cw, ch, ax, ay) && #[trigger] joined(in0, cw, ax, ay) ==> g0.at(2 * ax + 1, 2 * ay + 1)
                != Tile::Wall,
        forall|ax: int, ay: int| cell_in(cw, ch, ax, ay) ==> 0 <= 2 * ax + 1 < g0.width && 0 <= 2 * ay + 1 < g0.height,
        forall|ax: int, ay: int|
            cell_in(cw, ch, ax, ay) && !joined(in0, cw, ax, ay) && #[trigger] touches_tree(in0, cw, ch, ax, ay)
                && cell_pair(ax, ay) != cell_pair(cx, cy) ==> f0.contains(cell_pair(ax, ay)),
        forall|i: int|
            0 <= i < f0.len() ==> cell_in(cw, ch, (#[trigger] f0[i]).0 as int, f0[i].1 as int) && touches_tree(
                in0,
                cw,
                ch,
                f0[i].0 as int,
                f0[i].1 as int,
            ),
        f0.len() <= f1.len(),
        f1.subrange(0, f0.len() as int) == f0,
        forall|i: int| f0.len() <= i < f1.len() ==> beside(cw, ch, cx, cy, #[trigger] f1[i]),
        holds_missing(f1, in1, cw, ch, cx, cy, 4),
    ensures
        tree_inv(g1, in1, cw, ch, f1),
{
    let ci = idx(cw, cx, cy);
    lemma_idx_bounds(cw, ch, cx, cy);
    assert forall|ax: int, ay: int| cell_in(cw, ch, ax, ay) implies (#[trigger] joined(in1, cw, ax, ay) <==> (joined(in0, cw, ax, ay) || (ax == cx && ay == cy))) by {
        lemma_idx_bounds(cw, ch, ax, ay);
        if ax != cx || ay != cy {
            crate::grid::lemma_idx_distinct(cw, ch, ax, ay, cx, cy);
        }
    }
    assert forall|ax: int, ay: int|
        cell_in(cw, ch, ax, ay) && touches_tree(in0, cw, ch, ax, ay) implies #[trigger] touches_tree(in1, cw, ch, ax, ay) by {
        let k = choose|k: int| 0 <= k < 4 && #[trigger] joined_side(in0, cw, ch, ax, ay, dir_at(k));
        assert(joined_side(in1, cw, ch, ax, ay, dir_at(k)));
    }
    assert forall|ax: int, ay: int|
        cell_in(cw, ch, ax, ay) && #[trigger] joined(in1, cw, ax, ay) implies g1.at(2 * ax + 1, 2 * ay + 1) != Tile::Wall by {
        if ax != cx || ay != cy {
            assert(joined(in0, cw, ax, ay));
            let i = idx(g0.width as int, 2 * ax + 1, 2 * ay + 1);
            lemma_idx_bounds(g0.width as int, g0.height as int, 2 * ax + 1, 2 * ay + 1);
            assert(g1.tiles@[i] == g0.tiles@[i] || (g0.tiles@[i] == Tile::Wall && g1.tiles@[i] == Tile::Empty));
        }
    }
    assert forall|ax: int, ay: int|
        cell_in(cw, ch, ax, ay) && !joined(in1, cw, ax, ay) && #[trigger] touches_tree(in1, cw, ch, ax, ay) implies f1.contains(
        cell_pair(ax, ay)) by {
        let k = choose|k: int| 0 <= k < 4 && #[trigger] joined_side(in1, cw, ch, ax, ay, dir_at(k));
        let ex = ax + dir_at(k).dx();
        let ey = ay + dir_at(k).dy();
        if joined(in0, cw, ex, ey) {
            assert(joined_side(in0, cw, ch, ax, ay, dir_at(k)));
            assert(touches_tree(in0, cw, ch, ax, ay));
            assert(cell_pair(ax, ay) != cell_pair(cx, cy));
            assert(f0.contains(cell_pair(ax, ay)));
            let j = choose|j: int| 0 <= j < f0.len() && f0[j] == cell_pair(ax, ay);
            assert(f1.subrange(0, f0.len() as int)[j] == f0[j]);
            assert(f1[j] == cell_pair(ax, ay));
        } else {
            assert(ex == cx && ey == cy);
            let m = opp(k);
            assert(dir_at(m).dx() == -dir_at(k).dx() && dir_at(m).dy() == -dir_at(k).dy());
            assert(cell_in(cw, ch, cx + dir_at(m).dx(), cy + dir_at(m).dy()));
            assert(f1.contains(cell_pair(cx + dir_at(m).dx(), cy + dir_at(m).dy())));
        }
    }
    assert forall|i: int|
        0 <= i < f1.len() implies cell_in(cw, ch, (#[trigger] f1[i]).0 as int, f1[i].1 as int) && touches_tree(
            in1,
            cw,
            ch,
            f1[i].0 as int,
            f1[i].1 as int,
        ) by {
        if i < f0.len() {
            assert(f1.subrange(0, f0.len() as int)[i] == f0[i]);
            assert(f1[i] == f0[i]);
            assert(touches_tree(in0, cw, ch, f0[i].0 as int, f0[i].1 as int));
        } else {
            assert(beside(cw, ch, cx, cy, f1[i]));
            let k = choose|k: int|
                0 <= k < 4 && cell_in(cw, ch, cx + (#[trigger] dir_at(k)).dx(), cy + dir_at(k).dy()) && f1[i] == cell_pair(
                    cx + dir_at(k).dx(),
                    cy + dir_at(k).dy(),
                );
            let m = opp(k);
            assert(dir_at(m).dx() == -dir_at(k).dx() && dir_at(m).dy() == -dir_at(k).dy());
            assert(joined_side(in1, cw, ch, f1[i].0 as int, f1[i].1 as int, dir_at(m)));
        }
    }
}

proof fn lemma_tree_row(in_maze: Seq<bool>, cw: int, ch: int, sx: int, sy: int, x: int)
    requires
        cell_in(cw, ch, sx, sy),
        joined(in_maze, cw, sx, sy),
        0 <= x < cw,
        forall|ax: int, ay: int|
            cell_in(cw, ch, ax, ay) && !joined(in_maze, cw, ax, ay) ==> !#[trigger] touches_tree(in_maze, cw, ch, ax, ay),
    ensures
        joined(in_maze, cw, x, sy),
    decreases if x >= sx { x - sx } else { sx - x },
{
    if x > sx {
        lemma_tree_row(in_maze, cw, ch, sx, sy, x - 1);
        assert(joined_side(in_maze, cw, ch, x, sy, dir_at(2)));
        assert(touches_tree(in_maze, cw, ch, x, sy));
    } else if x < sx {
        lemma_tree_row(in_maze, cw, ch, sx, sy, x + 1);
        assert(joined_side(in_maze, cw, ch, x, sy, dir_at(3)));
        assert(touches_tree(in_maze, cw, ch, x, sy));
    }
}

proof fn lemma_tree_col(in_maze: Seq<bool>, cw: int, ch: int, sx: int, sy: int, x: int, y: int)
    requires
        cell_in(cw, ch, sx, sy),
        joined(in_maze, cw, sx, sy),
        cell_in(cw, ch, x, y),
        forall|ax: int, ay: int|
            cell_in(cw, ch, ax, ay) && !joined(in_maze, cw, ax, ay) ==> !#[trigger] touches_tree(in_maze, cw, ch, ax, ay),
    ensures
        joined(in_maze, cw, x, y),
    decreases if y >= sy { y - sy } else { sy - y },
{
    if y == sy {
        lemma_tree_row(in_maze, cw, ch, sx, sy, x);
    } else if y > sy {
        lemma_tree_col(in_maze, cw, ch, sx, sy, x, y - 1);
        assert(joined_side(in_maze, cw, ch, x, y, dir_at(0)));
        assert(touches_tree(in_maze, cw, ch, x, y));
    } else {
        lemma_tree_col(in_maze, cw, ch, sx, sy, x, y + 1);
        assert(joined_side(in_maze, cw, ch, x, y, dir_at(1)));
        assert(touches_tree(in_maze, cw, ch, x, y));
    }
}

/// Every cell tile outside the pen is open to the player.
pub open spec fn open_cells(g: &Grid, pen: PenBounds) -> bool {
    forall|cx: int, cy: int|
        cell_of(g, cx, cy) && !pen.holds(2 * cx + 1, 2 * cy + 1) ==> player_passable(
            #[trigger] g.at(2 * cx + 1, 2 * cy + 1),
        )
}

/// The tile of cell `(cx, cy)` in the flat table of cells.
fn cell_index(cx: usize, cy: usize, cells_w: usize, cells_h: usize, len: usize) -> (i: usize)
    requires
        cx < cells_w,
        cy < cells_h,
        len == cells_w * cells_h,
    ensures
        i == idx(cells_w as int, cx as int, cy as int),
        i < len,
{
    proof {
        lemma_idx_bounds(cells_w as int, cells_h as int, cx as int, cy as int);
    }
    cy * cells_w + cx
}

/// Grows a spanning tree over the cells from a random start: repeatedly
/// draws a random frontier entry (stale entries, already in the tree, are
/// dropped), joins it to a random neighbour already in the tree, and opens
/// the wall between them and its own tile.
fn grow_tree(grid: &mut Grid, cells_w: usize, cells_h: usize, rng: &mut rand::rngs::StdRng)
    requires
        old(grid).wf(),
        old(grid).plain(),
        cells_w == (old(grid).width - 1) / 2,
        cells_h == (old(grid).height - 1) / 2,
        cells_w > 0,
        cells_h > 0,
    ensures
        carved_from(&*old(grid), &*final(grid)),
        forall|cx: int, cy: int|
            cell_of(&*final(grid), cx, cy) ==> #[trigger] final(grid).at(2 * cx + 1, 2 * cy + 1) != Tile::Wall,
        old(grid).pillars_walls() ==> final(grid).pillars_walls(),
{
    let ghost g0 = *grid;
    proof {
        lemma_sides_small(&*grid);
        assert(cells_w * cells_h <= grid.width * grid.height) by (nonlinear_arith)
            requires
                cells_w <= grid.width,
                cells_h <= grid.height,
        ;
    }
    let ghost cw = cells_w as int;
    let ghost ch = cells_h as int;
    let n: usize = cells_w * cells_h;
    let mut in_maze: Vec<bool> = Vec::new();
    while in_maze.len() < n
        invariant
            in_maze@.len() <= n,
            forall|i: int| 0 <= i < in_maze@.len() ==> !in_maze@[i],
        decreases n - in_maze@.len(),
    {
        in_maze.push(false);
    }
    let mut frontier: Vec<(usize, usize)> = Vec::new();
    let sx = random_range(rng, 0, cells_w);
    let sy = random_range(rng, 0, cells_h);
    let si = cell_index(sx, sy, cells_w, cells_h, n);
    let ghost in0 = in_maze@;
    in_maze.set(si, true);
    let ghost gs = *grid;
    carve_cell(grid, sx, sy);
    let ghost f0 = frontier@;
    add_frontier(sx, sy, cells_w, cells_h, &in_maze, &mut frontier);
    proof {
        lemma_carved_refl(&gs);
        lemma_idx_bounds(grid.width as int, grid.height as int, 2 * sx + 1, 2 * sy + 1);
        assert forall|ax: int, ay: int| cell_in(cw, ch, ax, ay) implies !#[trigger] joined(in0, cw, ax, ay) by {
            lemma_idx_bounds(cw, ch, ax, ay);
        }
        assert forall|ax: int, ay: int| cell_in(cw, ch, ax, ay) implies !#[trigger] touches_tree(in0, cw, ch, ax, ay) by {
            if touches_tree(in0, cw, ch, ax, ay) {
                let k = choose|k: int| 0 <= k < 4 && #[trigger] joined_side(in0, cw, ch, ax, ay, dir_at(k));
                lemma_idx_bounds(cw, ch, ax + dir_at(k).dx(), ay + dir_at(k).dy());
            }
        }
        assert(frontier@.subrange(0, 0) =~= f0);
        lemma_tree_join(&gs, &*grid, in0, in_maze@, cw, ch, f0, frontier@, sx as int, sy as int);
        lemma_carved_trans(&g0, &gs, &*grid);
        lemma_idx_bounds(cw, ch, sx as int, sy as int);
    }
    while frontier.len() > 0
        invariant
            g0.wf(),
            g0.plain(),
            carved_from(&g0, &*grid),
            g0 == *old(grid),
            cells_w == (grid.width - 1) / 2,
            cells_h == (grid.height - 1) / 2,
            cw == cells_w,
            ch == cells_h,
            cells_w > 0,
            cells_h > 0,
            n == cells_w * cells_h,
            in_maze@.len() == n,
            sx < cells_w && sy < cells_h,
            joined(in_maze@, cw, sx as int, sy as int),
            tree_inv(&*grid, in_maze@, cw, ch, frontier@),
            g0.pillars_walls() ==> grid.pillars_walls(),
            forall|i: int| 0 <= i < frontier@.len() ==> (#[trigger] frontier@[i]).0 < cells_w && frontier@[i].1 < cells_h,
        decreases count_out(in_maze@), frontier@.len(),
    {
        let pick = random_range(rng, 0, frontier.len());
        let ghost fa = frontier@;
        let (cx, cy) = frontier.swap_remove(pick);
        proof {
            lemma_tree_pop(&*grid, in_maze@, cw, ch, fa, pick as int);
            assert forall|i: int| 0 <= i < frontier@.len() implies (#[trigger] frontier@[i]).0 < cells_w && frontier@[i].1 < cells_h by {
                if i == pick {
                    assert(frontier@[i] == fa[fa.len() - 1]);
                } else {
                    assert(frontier@[i] == fa[i]);
                }
            }
        }
        let ci = cell_index(cx, cy, cells_w, cells_h, n);
        if in_maze[ci] {
            proof {
                assert(cell_pair(cx as int, cy as int) == (cx, cy));
            }
            continue;
        }
        let mut neighbors: Vec<(usize, usize)> = Vec::new();
        if cy > 0 && in_maze[cell_index(cx, cy - 1, cells_w, cells_h, n)] {
            neighbors.push((cx, cy - 1));
        }
        if cy + 1 < cells_h && in_maze[cell_index(cx, cy + 1, cells_w, cells_h, n)] {
            neighbors.push((cx, cy + 1));
        }
        if cx > 0 && in_maze[cell_index(cx - 1, cy, cells_w, cells_h, n)] {
            neighbors.push((cx - 1, cy));
        }
        if cx + 1 < cells_w && in_maze[cell_index(cx + 1, cy, cells_w, cells_h, n)] {
            neighbors.push((cx + 1, cy));
        }
        proof {
            let k = choose|k: int| 0 <= k < 4 && #[trigger] joined_side(in_maze@, cw, ch, cx as int, cy as int, dir_at(k));
            lemma_idx_bounds(cw, ch, cx + dir_at(k).dx(), cy + dir_at(k).dy());
            assert(neighbors@.len() > 0);
        }
        if let Some((nx, ny)) = choose_one(rng, &neighbors) {
            proof {
                lemma_count_out_join(in_maze@, ci as int);
            }
            let ghost in_before = in_maze@;
            in_maze.set(ci, true);
            let ghost g1 = *grid;
            carve_between(grid, cx, cy, nx, ny);
            let ghost g2 = *grid;
            carve_cell(grid, cx, cy);
            proof {
                lemma_carved_trans(&g1, &g2, &*grid);
                lemma_carved_trans(&g0, &g1, &*grid);
                lemma_idx_bounds(grid.width as int, grid.height as int, 2 * cx + 1, 2 * cy + 1);
            }
            let ghost fb = frontier@;
            add_frontier(cx, cy, cells_w, cells_h, &in_maze, &mut frontier);
            proof {
                assert forall|i: int| 0 <= i < frontier@.len() implies (#[trigger] frontier@[i]).0 < cells_w && frontier@[i].1 < cells_h by {
                    if i < fb.len() {
                        assert(frontier@.subrange(0, fb.len() as int)[i] == fb[i]);
                    }
                }
                assert(cell_pair(cx as int, cy as int) == (cx, cy));
                lemma_tree_join(&g1, &*grid, in_before, in_maze@, cw, ch, fb, frontier@, cx as int, cy as int);
                lemma_idx_bounds(cw, ch, sx as int, sy as int);
                lemma_idx_bounds(cw, ch, cx as int, cy as int);
                if cx != sx || cy != sy {
                    crate::grid::lemma_idx_distinct(cw, ch, sx as int, sy as int, cx as int, cy as int);
                }
            }
        }
    }
    proof {
        assert forall|ax: int, ay: int|
            cell_in(cw, ch, ax, ay) && !joined(in_maze@, cw, ax, ay) implies !#[trigger] touches_tree(in_maze@, cw, ch, ax, ay) by {
            if touches_tree(in_maze@, cw, ch, ax, ay) {
                assert(frontier@.contains(cell_pair(ax, ay)));
            }
        }
        assert forall|cx: int, cy: int| cell_of(&*grid, cx, cy) implies #[trigger] grid.at(2 * cx + 1, 2 * cy + 1) != Tile::Wall by {
            lemma_tree_col(in_maze@, cw, ch, sx as int, sy as int, cx, cy);
        }
    }
}

/// Every Empty tile off the ring and outside the pen (its interior and its
/// door) becomes a Pellet.
fn place_pellets(grid: &mut Grid, pen: &PenBounds, door: Pos)
    requires
        old(grid).wf(),
        old(grid).width >= 3,
        old(grid).height >= 3,
    ensures
        final(grid).wf(),
        final(grid).width == old(grid).width,
        final(grid).height == old(grid).height,
        old(grid).border_walls() ==> final(grid).border_walls(),
        forall|x: int, y: int|
            #![trigger final(grid).at(x, y)]
            old(grid).in_bounds(x, y) && (pen.interior(x, y) || (x == door.x && y == door.y)) ==> final(grid).at(x, y)
                == old(grid).at(x, y),
        forall|x: int, y: int|
            #![trigger final(grid).at(x, y)]
            old(grid).in_bounds(x, y) && player_passable(old(grid).at(x, y)) ==> player_passable(final(grid).at(x, y)),
        forall|x: int, y: int|
            #![trigger final(grid).at(x, y)]
            old(grid).in_bounds(x, y) ==> final(grid).at(x, y) == old(grid).at(x, y) || (old(grid).at(x, y) == Tile::Empty
                && final(grid).at(x, y) == Tile::Pellet),
        forall|x: int, y: int|
            #![trigger final(grid).at(x, y)]
            old(grid).interior(x, y) && !pen.interior(x, y) && (x != door.x || y != door.y) ==> final(grid).at(x, y)
                != Tile::Empty,
{
    let ghost g0 = *grid;
    let mut y: usize = 1;
    while y < grid.height - 1
        invariant
            grid.wf(),
            g0.wf(),
            grid.width == g0.width,
            grid.height == g0.height,
            grid.width >= 3,
            grid.height >= 3,
            1 <= y <= grid.height - 1,
            g0.border_walls() ==> grid.border_walls(),
            forall|x: int, yy: int|
                #![trigger grid.at(x, yy)]
                g0.in_bounds(x, yy) && (pen.interior(x, yy) || (x == door.x && yy == door.y)) ==> grid.at(x, yy)
                    == g0.at(x, yy),
            forall|x: int, yy: int|
                #![trigger grid.at(x, yy)]
                g0.in_bounds(x, yy) && player_passable(g0.at(x, yy)) ==> player_passable(grid.at(x, yy)),
            forall|x: int, yy: int|
                #![trigger grid.at(x, yy)]
                g0.in_bounds(x, yy) ==> grid.at(x, yy) == g0.at(x, yy) || (g0.at(x, yy) == Tile::Empty
                    && grid.at(x, yy) == Tile::Pellet),
            forall|a: int, b: int|
                #![trigger grid.at(a, b)]
                g0.interior(a, b) && b < y && !pen.interior(a, b) && (a != door.x || b != door.y) ==> grid.at(a, b)
                    != Tile::Empty,
        decreases grid.height - y,
    {
        let mut x: usize = 1;
        while x < grid.width - 1
            invariant
                grid.wf(),
                g0.wf(),
                grid.width == g0.width,
                grid.height == g0.height,
                grid.width >= 3,
                grid.height >= 3,
                1 <= y < grid.height - 1,
                1 <= x <= grid.width - 1,
                g0.border_walls() ==> grid.border_walls(),
                forall|a: int, b: int|
                    #![trigger grid.at(a, b)]
                    g0.in_bounds(a, b) && (pen.interior(a, b) || (a == door.x && b == door.y)) ==> grid.at(a, b)
                        == g0.at(a, b),
                forall|a: int, b: int|
                    #![trigger grid.at(a, b)]
                    g0.in_bounds(a, b) && player_passable(g0.at(a, b)) ==> player_passable(grid.at(a, b)),
                forall|a: int, b: int|
                    #![trigger grid.at(a, b)]
                    g0.in_bounds(a, b) ==> grid.at(a, b) == g0.at(a, b) || (g0.at(a, b) == Tile::Empty
                        && grid.at(a, b) == Tile::Pellet),
                forall|a: int, b: int|
                    #![trigger grid.at(a, b)]
                    g0.interior(a, b) && (b < y || (b == y && a < x)) && !pen.interior(a, b) && (a != door.x || b
                        != door.y) ==> grid.at(a, b) != Tile::Empty,
            decreases grid.width - x,
        {
            let pos = Pos { x, y };
            let in_pen_all = in_pen_interior(pos, pen) || (x == door.x && y == door.y);
            if grid.get(x, y) == Tile::Empty && !in_pen_all {
                let ghost before = *grid;
                grid.set_interior(x, y, Tile::Pellet);
                proof {
                    assert forall|a: int, b: int|
                        #![trigger grid.at(a, b)]
                        g0.in_bounds(a, b) && player_passable(g0.at(a, b)) implies player_passable(grid.at(a, b)) by {
                        assert(player_passable(before.at(a, b)));
                    }
                    assert forall|a: int, b: int|
                        #![trigger grid.at(a, b)]
                        g0.in_bounds(a, b) implies grid.at(a, b) == g0.at(a, b) || (g0.at(a, b) == Tile::Empty
                            && grid.at(a, b) == Tile::Pellet) by {
                        if a != x || b != y {
                            assert(grid.at(a, b) == before.at(a, b));
                        }
                    }
                    assert forall|a: int, b: int|
                        #![trigger grid.at(a, b)]
                        g0.interior(a, b) && (b < y || (b == y && a <= x)) && !pen.interior(a, b) && (a != door.x || b
                            != door.y) implies grid.at(a, b) != Tile::Empty by {
                        if a != x || b != y {
                            assert(grid.at(a, b) == before.at(a, b));
                        }
                    }
                }
            }
            x = x + 1;
        }
        y = y + 1;
    }
}

/// Builds a level up to the repair: a spanning tree over the cells,
/// braided, with the pen carved in the middle. Returns the grid, the pen
/// door, the pen's interior tiles and its bounds.
#[verifier::spinoff_prover]
#[verifier::rlimit(100)]
fn carve_level(rng: &mut rand::rngs::StdRng, width: usize, height: usize) -> (r: (Grid, Pos, Vec<Pos>, PenBounds, Vec<Pos>))
    requires
        maze_dims(width as int, height as int),
    ensures
        r.0.wf(),
        r.0.width == width,
        r.0.height == height,
        r.0.border_walls(),
        r.3 == pen_of(width as int, height as int),
        r.1 == door_of(r.3),
        plain_but(&r.0, r.1),
        pen_shaped(&r.0, r.3, r.1),
        r.3.y0 >= 2 ==> r.0.at(r.1.x as int, r.1.y - 1) == Tile::Empty,
        r.2@.len() == inner_w(r.3) * inner_h(r.3),
        r.2@.len() > 0,
        forall|i: int| 0 <= i < r.2@.len() ==> #[trigger] r.2@[i] == pen_cell(r.3, i),
        forall|i: int| 0 <= i < r.2@.len() ==> r.3.interior((#[trigger] r.2@[i]).x as int, r.2@[i].y as int),
        r.4@ == r.2@.push(r.1),
        open_cells(&r.0, r.3),
        pillars_hang(&r.0, r.3),
{
    let mut grid = Grid::filled(width, height);
    let cells_w = (width - 1) / 2;
    let cells_h = (height - 1) / 2;
    let ghost g0 = grid;
    grow_tree(&mut grid, cells_w, cells_h, rng);
    let ghost g1 = grid;
    braid_maze(&mut grid, cells_w, cells_h, rng);
    proof {
        lemma_carved_trans(&g0, &g1, &grid);
        lemma_pen_fits(width as int, height as int);
    }
    let ghost gb = grid;
    let (pen_all, door, pen_spawns, pen) = carve_ghost_pen(&mut grid, width, height);
    proof {
        assert forall|cx: int, cy: int|
            cell_of(&grid, cx, cy) && !pen.holds(2 * cx + 1, 2 * cy + 1) implies player_passable(
                #[trigger] grid.at(2 * cx + 1, 2 * cy + 1),
            ) by {
            let (x, y) = (2 * cx + 1, 2 * cy + 1);
            lemma_idx_bounds(width as int, height as int, x, y);
            let i = idx(width as int, x, y);
            assert(g1.at(x, y) != Tile::Wall);
            assert(gb.tiles@[i] == g1.tiles@[i] || (g1.tiles@[i] == Tile::Wall && gb.tiles@[i] == Tile::Empty));
            assert(gb.at(x, y) != Tile::Wall);
            assert(grid.at(x, y) == gb.at(x, y) || (gb.at(x, y) == Tile::Wall && grid.at(x, y) == Tile::Empty));
        }
    }
    (grid, door, pen_spawns, pen, pen_all)
}

/// The walkable tiles of `a` and `b` are the same.
pub open spec fn same_walkable(a: &Grid, b: &Grid, pen: PenBounds) -> bool {
    forall|x: int, y: int| #![trigger walkable(b, pen, x, y)] walkable(a, pen, x, y) == walkable(b, pen, x, y)
}

proof fn lemma_all_linked_same(a: &Grid, b: &Grid, pen: PenBounds)
    requires
        same_walkable(a, b, pen),
        all_linked(a, pen),
    ensures
        all_linked(b, pen),
{
    assert forall|p: Pos, q: Pos|
        walkable(b, pen, p.x as int, p.y as int) && walkable(b, pen, q.x as int, q.y as int) implies #[trigger] linked(b, pen, p, q) by {
        assert(walkable(a, pen, p.x as int, p.y as int) && walkable(a, pen, q.x as int, q.y as int));
        assert(linked(a, pen, p, q));
        let path = choose|path: Seq<Pos>| #[trigger] is_trail(a, pen, path) && path[0] == p && path[path.len() - 1] == q;
        assert forall|i: int| 0 <= i < path.len() implies walkable(b, pen, (#[trigger] path[i]).x as int, path[i].y as int) by {
            assert(walkable(a, pen, path[i].x as int, path[i].y as int));
        }
        assert(is_trail(b, pen, path));
    }
}

proof fn lemma_cells_open_odd(g: &Grid, pen: PenBounds)
    requires
        open_cells(g, pen),
    ensures
        forall|x: int, y: int|
            #![trigger g.at(x, y)]
            g.interior(x, y) && x % 2 == 1 && y % 2 == 1 && !pen.holds(x, y) ==> player_passable(g.at(x, y)),
{
    assert forall|x: int, y: int|
        #![trigger g.at(x, y)]
        g.interior(x, y) && x % 2 == 1 && y % 2 == 1 && !pen.holds(x, y) implies player_passable(g.at(x, y)) by {
        let cx = (x - 1) / 2;
        let cy = (y - 1) / 2;
        assert(2 * cx + 1 == x && 2 * cy + 1 == y);
        assert(cell_of(g, cx, cy));
        assert(player_passable(g.at(2 * cx + 1, 2 * cy + 1)));
    }
}

proof fn lemma_pillars_anchored(g: &Grid, pen: PenBounds, door: Pos)
    requires
        door.y == pen.y0,
        plain_but(g, door),
        pillars_hang(g, pen),
    ensures
        forall|x: int, y: int|
            #[trigger] pillar_open(g, pen, x, y) ==> exists|k: int|
                0 <= k < 4 && #[trigger] walkable_side(g, pen, x, y, dir_at(k)),
{
    assert forall|x: int, y: int|
        #[trigger] pillar_open(g, pen, x, y) implies exists|k: int|
            0 <= k < 4 && #[trigger] walkable_side(g, pen, x, y, dir_at(k)) by {
        assert(g.at(x, y) != Tile::Wall);
        assert(hangs(g, pen, x, y));
        assert(2 <= y < pen.y0 && g.at(x, y - 1) != Tile::Wall);
        assert(g.at(x, y - 1) == Tile::Wall || g.at(x, y - 1) == Tile::Empty);
        assert(walkable_side(g, pen, x, y, dir_at(0)));
    }
}

proof fn lemma_gate_only_door(g: &Grid, pen: PenBounds, door: Pos)
    requires
        pen.holds(door.x as int, door.y as int),
        plain_but(g, door),
    ensures
        forall|x: int, y: int|
            #![trigger g.at(x, y)]
            g.in_bounds(x, y) && !pen.holds(x, y) ==> g.at(x, y) != Tile::Gate,
{
}

/// The level the repair works on can always be repaired once the grid is at
/// least 13 wide.
proof fn lemma_level_repairable(g: &Grid, pen: PenBounds, door: Pos)
    requires
        g.wf(),
        g.width % 2 == 1,
        g.height % 2 == 1,
        g.width >= 13,
        g.height >= 9,
        g.border_walls(),
        pen == pen_of(g.width as int, g.height as int),
        door == door_of(pen),
        plain_but(g, door),
        open_cells(g, pen),
        pillars_hang(g, pen),
    ensures
        repairable(g, pen),
{
    lemma_pen_fits(g.width as int, g.height as int);
    assert(2 <= pen.x0 && pen.x0 < pen.x1 && pen.x1 <= g.width - 2);
    assert(2 <= pen.y0 && pen.y0 < pen.y1 && pen.y1 <= g.height - 2);
    assert(pen.holds(door.x as int, door.y as int));
    lemma_cells_open_odd(g, pen);
    lemma_pillars_anchored(g, pen, door);
    lemma_gate_only_door(g, pen, door);
}

/// The pen of `g` has its shape: the door is a Gate tile, the rest of the
/// ring is wall and the interior is empty.
pub open spec fn pen_shaped(g: &Grid, pen: PenBounds, door: Pos) -> bool {
    &&& g.at(door.x as int, door.y as int) == Tile::Gate
    &&& forall|x: int, y: int|
        #![trigger g.at(x, y)]
        pen.ring(x, y) && (x != door.x || y != door.y) ==> g.at(x, y) == Tile::Wall
    &&& forall|x: int, y: int| #[trigger] pen.interior(x, y) ==> g.at(x, y) == Tile::Empty
}

/// Every tile outside the pen is a wall, a Pellet or a Power tile.
pub open spec fn stocked(g: &Grid, pen: PenBounds) -> bool {
    forall|x: int, y: int|
        #![trigger g.at(x, y)]
        g.in_bounds(x, y) && !pen.holds(x, y) ==> g.at(x, y) == Tile::Wall || g.at(x, y) == Tile::Pellet || g.at(x, y)
            == Tile::Power
}

/// The tile nearest corner `k` of a `w` x `h` grid: top left, top right,
/// bottom left, bottom right.
pub open spec fn corner(w: int, h: int, k: int) -> (int, int) {
    if k == 0 {
        (1, 1)
    } else if k == 1 {
        (w - 2, 1)
    } else if k == 2 {
        (1, h - 2)
    } else {
        (w - 2, h - 2)
    }
}

/// The tiles nearest the corners are Power tiles or walls, and Power tiles
/// wherever they lie outside the pen.
pub open spec fn powered_corners(g: &Grid, pen: PenBounds, upto: int) -> bool {
    forall|k: int|
        0 <= k < upto ==> (g.at(#[trigger] corner(g.width as int, g.height as int, k).0, corner(
            g.width as int,
            g.height as int,
            k,
        ).1) == Tile::Power || g.at(corner(g.width as int, g.height as int, k).0, corner(
            g.width as int,
            g.height as int,
            k,
        ).1) == Tile::Wall) && (!pen.holds(
            corner(g.width as int, g.height as int, k).0,
            corner(g.width as int, g.height as int, k).1,
        ) ==> g.at(corner(g.width as int, g.height as int, k).0, corner(g.width as int, g.height as int, k).1)
            == Tile::Power)
}

/// Pellets, Power tiles and a cleared pen on a repaired level: every open
/// tile outside the pen gets a Pellet, the four tiles nearest the corners
/// that are not walls become Power, and the pen tiles other than the door
/// are emptied. No tile outside the pen changes whether it is walkable.
fn furnish(grid: &mut Grid, pen: &PenBounds, door: Pos, pen_all: &Vec<Pos>)
    requires
        old(grid).wf(),
        maze_dims(old(grid).width as int, old(grid).height as int),
        *pen == pen_of(old(grid).width as int, old(grid).height as int),
        door == door_of(*pen),
        old(grid).border_walls(),
        plain_but(&*old(grid), door),
        pen_shaped(&*old(grid), *pen, door),
        pen.y0 >= 2 ==> player_passable(old(grid).at(approach_of(*pen).0, approach_of(*pen).1)),
        forall|j: int|
            0 <= j < pen_all@.len() ==> pen.interior((#[trigger] pen_all@[j]).x as int, pen_all@[j].y as int) || pen_all@[j]
                == door,
        open_cells(&*old(grid), *pen),
    ensures
        final(grid).wf(),
        final(grid).width == old(grid).width,
        final(grid).height == old(grid).height,
        final(grid).border_walls(),
        pen_shaped(&*final(grid), *pen, door),
        stocked(&*final(grid), *pen),
        powered_corners(&*final(grid), *pen, 4),
        pen.y0 >= 2 ==> player_passable(final(grid).at(approach_of(*pen).0, approach_of(*pen).1)),
        open_cells(&*final(grid), *pen),
        same_walkable(&*old(grid), &*final(grid), *pen),
{
    let ghost g0 = *grid;
    let width = grid.width;
    let height = grid.height;
    proof {
        lemma_sides_small(&*grid);
        lemma_pen_fits(width as int, height as int);
    }
    place_pellets(grid, pen, door);
    proof {
        assert forall|x: int, y: int|
            #![trigger grid.at(x, y)]
            grid.in_bounds(x, y) && !pen.holds(x, y) implies grid.at(x, y) == Tile::Wall || grid.at(x, y) == Tile::Pellet
                || grid.at(x, y) == Tile::Power by {
            assert(g0.at(x, y) == Tile::Wall || g0.at(x, y) == Tile::Empty);
            if !g0.interior(x, y) {
                assert(g0.at(x, y) == Tile::Wall);
            }
        }
        assert forall|x: int, y: int|
            #![trigger grid.at(x, y)]
            pen.ring(x, y) && (x != door.x || y != door.y) implies grid.at(x, y) == Tile::Wall by {
            assert(g0.at(x, y) == Tile::Wall);
        }
        assert(grid.at(door.x as int, door.y as int) == Tile::Gate);
    }
    let power_spots = [
        Pos { x: 1, y: 1 },
        Pos { x: width - 2, y: 1 },
        Pos { x: 1, y: height - 2 },
        Pos { x: width - 2, y: height - 2 },
    ];
    let mut k: usize = 0;
    while k < 4
        invariant
            k <= 4,
            grid.wf(),
            g0.wf(),
            grid.width == width,
            grid.height == height,
            g0.width == width,
            g0.height == height,
            maze_dims(width as int, height as int),
            *pen == pen_of(width as int, height as int),
            door == door_of(*pen),
            1 <= pen.x0 && pen.x0 + 2 <= pen.x1 && pen.x1 <= width - 2 && 1 <= pen.y0 && pen.y1 <= height - 2,
            pen.x0 < door.x < pen.x1,
            grid.border_walls(),
            power_spots@ == seq![
                Pos { x: 1, y: 1 },
                Pos { x: (width - 2) as usize, y: 1 },
                Pos { x: 1, y: (height - 2) as usize },
                Pos { x: (width - 2) as usize, y: (height - 2) as usize },
            ],
            pen_shaped(&*grid, *pen, door),
            stocked(&*grid, *pen),
            powered_corners(&*grid, *pen, k as int),
            pen.y0 >= 2 ==> player_passable(grid.at(approach_of(*pen).0, approach_of(*pen).1)),
            open_cells(&*grid, *pen),
            forall|x: int, y: int|
                #![trigger grid.at(x, y)]
                g0.in_bounds(x, y) && (x != door.x || y != door.y) ==> grid.at(x, y) != Tile::Gate && player_passable(grid.at(x, y))
                    == player_passable(g0.at(x, y)),
        decreases 4 - k,
    {
        let pos = power_spots[k];
        let ghost before = *grid;
        proof {
            assert(pos.x as int == corner(width as int, height as int, k as int).0);
            assert(pos.y as int == corner(width as int, height as int, k as int).1);
            let cx = (pos.x - 1) / 2;
            let cy = (pos.y - 1) / 2;
            assert(2 * cx + 1 == pos.x && 2 * cy + 1 == pos.y);
            assert(cell_of(&*grid, cx, cy));
            assert(!pen.holds(pos.x as int, pos.y as int) ==> player_passable(grid.at(2 * cx + 1, 2 * cy + 1)));
        }
        if grid.get(pos.x, pos.y) != Tile::Wall {
            grid.set_interior(pos.x, pos.y, Tile::Power);
        }
        proof {
            assert forall|m: int| 0 <= m < k + 1 implies (grid.at(#[trigger] corner(grid.width as int, grid.height as int, m).0, corner(
                grid.width as int,
                grid.height as int,
                m,
            ).1) == Tile::Power || grid.at(corner(grid.width as int, grid.height as int, m).0, corner(
                grid.width as int,
                grid.height as int,
                m,
            ).1) == Tile::Wall) && (!pen.holds(
                corner(grid.width as int, grid.height as int, m).0,
                corner(grid.width as int, grid.height as int, m).1,
            ) ==> grid.at(corner(grid.width as int, grid.height as int, m).0, corner(grid.width as int, grid.height as int, m).1)
                == Tile::Power) by {
                if m < k {
                    let c = corner(width as int, height as int, m);
                    assert(c.0 != pos.x || c.1 != pos.y);
                    assert(grid.at(c.0, c.1) == before.at(c.0, c.1));
                }
            }
        }
        k = k + 1;
    }
    let mut i: usize = 0;
    while i < pen_all.len()
        invariant
            grid.wf(),
            g0.wf(),
            grid.width == width,
            grid.height == height,
            g0.width == width,
            g0.height == height,
            maze_dims(width as int, height as int),
            *pen == pen_of(width as int, height as int),
            door == door_of(*pen),
            1 <= pen.x0 && pen.x0 + 2 <= pen.x1 && pen.x1 <= width - 2 && 1 <= pen.y0 && pen.y1 <= height - 2,
            pen.x0 < door.x < pen.x1,
            grid.border_walls(),
            forall|j: int|
                0 <= j < pen_all@.len() ==> pen.interior((#[trigger] pen_all@[j]).x as int, pen_all@[j].y as int) || pen_all@[j]
                    == door,
            pen_shaped(&*grid, *pen, door),
            stocked(&*grid, *pen),
            powered_corners(&*grid, *pen, 4),
            pen.y0 >= 2 ==> player_passable(grid.at(approach_of(*pen).0, approach_of(*pen).1)),
            open_cells(&*grid, *pen),
            forall|x: int, y: int|
                #![trigger grid.at(x, y)]
                g0.in_bounds(x, y) && !pen.holds(x, y) ==> player_passable(grid.at(x, y)) == player_passable(g0.at(x, y)),
        decreases pen_all.len() - i,
    {
        let pos = pen_all[i];
        let t = grid.get(pos.x, pos.y);
        if t != Tile::Gate && t != Tile::Wall {
            let ghost before = *grid;
            grid.set_interior(pos.x, pos.y, Tile::Empty);
            proof {
                assert(pen.interior(pos.x as int, pos.y as int));
                assert forall|m: int| 0 <= m < 4 implies (grid.at(#[trigger] corner(grid.width as int, grid.height as int, m).0, corner(
                    grid.width as int,
                    grid.height as int,
                    m,
                ).1) == Tile::Power || grid.at(corner(grid.width as int, grid.height as int, m).0, corner(
                    grid.width as int,
                    grid.height as int,
                    m,
                ).1) == Tile::Wall) && (!pen.holds(
                    corner(grid.width as int, grid.height as int, m).0,
                    corner(grid.width as int, grid.height as int, m).1,
                ) ==> grid.at(corner(grid.width as int, grid.height as int, m).0, corner(grid.width as int, grid.height as int, m).1)
                    == Tile::Power) by {
                    let c = corner(width as int, height as int, m);
                    assert(grid.at(c.0, c.1) == before.at(c.0, c.1));
                }
            }
        }
        i = i + 1;
    }
    proof {
        assert forall|x: int, y: int| #![trigger walkable(&*grid, *pen, x, y)] walkable(&g0, *pen, x, y) == walkable(&*grid, *pen, x, y) by {
            if g0.interior(x, y) && !pen.holds(x, y) {
                assert(player_passable(grid.at(x, y)) == player_passable(g0.at(x, y)));
            }
        }
    }
}

/// Generates a level: a spanning-tree maze on the cells, braided, with the
/// pen carved in the middle, connectivity repaired, a Pellet on every open
/// tile outside the pen and Power on the four tiles nearest the corners that
/// are not walls. Returns the grid, its number of Pellet and Power tiles,
/// four ghost spawns (the first four pen tiles in row-major order, padded by
/// repeating the first) and the pen's bounds. From 13 x 9 on, every two
/// walkable tiles outside the pen are mutually reachable.
#[verifier::spinoff_prover]
#[verifier::rlimit(100)]
pub fn generate_maze(rng: &mut rand::rngs::StdRng, width: usize, height: usize) -> (r: (Grid, usize, Vec<Pos>, PenBounds))
    requires
        maze_dims(width as int, height as int),
    ensures
        r.0.wf(),
        r.0.width == width,
        r.0.height == height,
        r.0.border_walls(),
        r.1 == food_count(r.0.tiles@),
        r.3 == pen_of(width as int, height as int),
        pen_shaped(&r.0, r.3, door_of(r.3)),
        stocked(&r.0, r.3),
        powered_corners(&r.0, r.3, 4),
        r.2@.len() == 4,
        forall|i: int|
            0 <= i < 4 ==> #[trigger] r.2@[i] == pen_cell(r.3, if i < inner_w(r.3) * inner_h(r.3) { i } else { 0 }),
        forall|i: int|
            0 <= i < 4 ==> r.3.interior((#[trigger] r.2@[i]).x as int, r.2@[i].y as int) && r.0.at(
                r.2@[i].x as int,
                r.2@[i].y as int,
            ) == Tile::Empty,
        r.3.y0 >= 2 ==> player_passable(r.0.at(approach_of(r.3).0, approach_of(r.3).1)),
        open_cells(&r.0, r.3),
        valid_dims(width as int, height as int) ==> has_free_tile(&r.0, r.3) && r.1 > 0,
        width >= 13 && height >= 9 ==> all_linked(&r.0, r.3),
{
    let (mut grid, door, pen_spawns, pen, pen_all) = carve_level(rng, width, height);
    proof {
        lemma_sides_small(&grid);
        lemma_pen_fits(width as int, height as int);
        if width >= 13 && height >= 9 {
            lemma_level_repairable(&grid, pen, door);
        }
    }
    let ghost g2 = grid;
    let connected = ensure_connected(&mut grid, &pen);
    proof {
        assert forall|x: int, y: int|
            #![trigger grid.at(x, y)]
            grid.in_bounds(x, y) implies grid.at(x, y) == g2.at(x, y) || (g2.at(x, y) == Tile::Wall && grid.at(x, y)
                == Tile::Empty && !pen.ring(x, y)) by {
            assert(g2.in_bounds(x, y));
        }
        let (ax, ay) = approach_of(pen);
        if pen.y0 >= 2 {
            assert(grid.at(ax, ay) == g2.at(ax, ay) || (g2.at(ax, ay) == Tile::Wall && grid.at(ax, ay) == Tile::Empty));
        }
        assert forall|x: int, y: int| #[trigger] pen.interior(x, y) implies grid.at(x, y) == Tile::Empty by {
            assert(g2.at(x, y) == Tile::Empty);
        }
        assert forall|x: int, y: int|
            #![trigger grid.at(x, y)]
            pen.ring(x, y) && (x != door.x || y != door.y) implies grid.at(x, y) == Tile::Wall by {
            assert(g2.at(x, y) == Tile::Wall);
        }
        assert(grid.at(door.x as int, door.y as int) == g2.at(door.x as int, door.y as int));
        assert forall|cx: int, cy: int|
            cell_of(&grid, cx, cy) && !pen.holds(2 * cx + 1, 2 * cy + 1) implies player_passable(
                #[trigger] grid.at(2 * cx + 1, 2 * cy + 1),
            ) by {
            assert(player_passable(g2.at(2 * cx + 1, 2 * cy + 1)));
        }
        assert forall|x: int, y: int|
            #![trigger grid.at(x, y)]
            grid.in_bounds(x, y) && (x != door.x || y != door.y) implies grid.at(x, y) == Tile::Wall || grid.at(x, y)
                == Tile::Empty by {
            assert(g2.at(x, y) == Tile::Wall || g2.at(x, y) == Tile::Empty);
        }
    }
    let ghost g3 = grid;
    furnish(&mut grid, &pen, door, &pen_all);
    proof {
        if width >= 13 && height >= 9 {
            assert(connected);
            lemma_all_linked_same(&g3, &grid, pen);
        }
        if valid_dims(width as int, height as int) {
            let c = corner(width as int, height as int, 0);
            assert(!pen.holds(c.0, c.1));
            assert(grid.at(1, 1) == Tile::Power);
            let a = Pos { x: 1, y: 1 };
            assert(player_passable(grid.at(a.x as int, a.y as int)));
            lemma_idx_bounds(width as int, height as int, 1, 1);
            crate::grid::lemma_food_count_positive(grid.tiles@, idx(width as int, 1, 1));
        }
    }
    let pellets = count_food(&grid);
    let ghost_spawns = pick_ghost_spawns(&pen_spawns);
    proof {
        assert forall|i: int| 0 <= i < 4 implies pen.interior((#[trigger] ghost_spawns@[i]).x as int, ghost_spawns@[i].y as int) && grid.at(
            ghost_spawns@[i].x as int,
            ghost_spawns@[i].y as int,
        ) == Tile::Empty by {
            if i < pen_spawns@.len() {
                assert(ghost_spawns@[i] == pen_spawns@[i]);
            } else {
                assert(ghost_spawns@[i] == pen_spawns@[0]);
            }
        }
        assert forall|i: int|
            0 <= i < 4 implies #[trigger] ghost_spawns@[i] == pen_cell(pen, if i < inner_w(pen) * inner_h(pen) { i } else { 0 }) by {
            if i < pen_spawns@.len() {
                assert(ghost_spawns@[i] == pen_spawns@[i]);
            } else {
                assert(ghost_spawns@[i] == pen_spawns@[0]);
            }
        }
    }
    (grid, pellets, ghost_spawns, pen)
}

} // verus!
