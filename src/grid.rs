//! Grid primitives: the tile alphabet, positions, directions, the row-major
//! grid and the two passability rules.
use vstd::prelude::*;

verus! {

/// The largest number of tiles a grid may hold, so that a distance always
/// fits an `i32`.
pub const MAX_TILES: usize = 0x7fff_fff0;

/// Static terrain of one tile.
#[derive(Clone, Copy, Debug, PartialEq, Eq, Structural)]
pub enum Tile {
    Wall,
    Empty,
    Pellet,
    Power,
    Gate,
}

/// A tile coordinate: column `x`, row `y`.
#[derive(Clone, Copy, Debug, PartialEq, Eq, Structural)]
pub struct Pos {
    pub x: usize,
    pub y: usize,
}

/// One of the four unit steps.
#[derive(Clone, Copy, Debug, PartialEq, Eq, Structural, Hash)]
pub enum Dir {
    Up,
    Down,
    Left,
    Right,
}

impl Dir {
    /// Column step: left is -1.
    pub open spec fn dx(self) -> int {
        match self {
            Dir::Left => -1,
            Dir::Right => 1,
            _ => 0,
        }
    }

    /// Row step: up is -1.
    pub open spec fn dy(self) -> int {
        match self {
            Dir::Up => -1,
            Dir::Down => 1,
            _ => 0,
        }
    }

    /// The unit step of this direction as `(dx, dy)`; up is towards row 0.
    pub fn delta(self) -> (r: (isize, isize))
        ensures
            r.0 == self.dx(),
            r.1 == self.dy(),
    {
        match self {
            Dir::Up => (0, -1),
            Dir::Down => (0, 1),
            Dir::Left => (-1, 0),
            Dir::Right => (1, 0),
        }
    }
}

/// The four directions in the order every scan uses.
pub open spec fn dir_at(k: int) -> Dir {
    if k == 0 {
        Dir::Up
    } else if k == 1 {
        Dir::Down
    } else if k == 2 {
        Dir::Left
    } else {
        Dir::Right
    }
}

pub fn dir_of(k: usize) -> (d: Dir)
    requires
        k < 4,
    ensures
        d == dir_at(k as int),
{
    if k == 0 {
        Dir::Up
    } else if k == 1 {
        Dir::Down
    } else if k == 2 {
        Dir::Left
    } else {
        Dir::Right
    }
}

pub proof fn lemma_dir_at_covers(d: Dir)
    ensures
        exists|k: int| 0 <= k < 4 && dir_at(k) == d,
{
    match d {
        Dir::Up => assert(dir_at(0) == d),
        Dir::Down => assert(dir_at(1) == d),
        Dir::Left => assert(dir_at(2) == d),
        Dir::Right => assert(dir_at(3) == d),
    }
}

/// The neighbour of `p` in direction `d`, possibly off the grid.
pub open spec fn nx(p: Pos, d: Dir) -> int {
    p.x + d.dx()
}

pub open spec fn ny(p: Pos, d: Dir) -> int {
    p.y + d.dy()
}

/// Player-passable: walls and Gate tiles block.
pub open spec fn player_passable(t: Tile) -> bool {
    t != Tile::Wall && t != Tile::Gate
}

/// Ghost-passable: walls block, a Gate tile blocks unless `gate_open`.
pub open spec fn ghost_passable(t: Tile, gate_open: bool) -> bool {
    t != Tile::Wall && (t != Tile::Gate || gate_open)
}

/// A fixed-size, row-major table of tiles.
pub struct Grid {
    pub width: usize,
    pub height: usize,
    pub tiles: Vec<Tile>,
}

/// The row-major index of tile `(x, y)` in a grid `w` tiles wide.
pub open spec fn idx(w: int, x: int, y: int) -> int {
    y * w + x
}

pub proof fn lemma_idx_bounds(w: int, h: int, x: int, y: int)
    requires
        0 <= x < w,
        0 <= y < h,
    ensures
        0 <= idx(w, x, y) < w * h,
        idx(w, x, y) + w == idx(w, x, y + 1),
{
    assert(0 <= y * w) by (nonlinear_arith)
        requires
            0 <= y,
            0 <= w,
    ;
    assert(y * w + x < w * h) by (nonlinear_arith)
        requires
            0 <= x < w,
            0 <= y < h,
    ;
    assert((y + 1) * w == y * w + w) by (nonlinear_arith);
}

pub proof fn lemma_idx_distinct(w: int, h: int, ax: int, ay: int, bx: int, by: int)
    requires
        0 <= ax < w,
        0 <= ay < h,
        0 <= bx < w,
        0 <= by < h,
        ax != bx || ay != by,
    ensures
        idx(w, ax, ay) != idx(w, bx, by),
{
    if ay < by {
        assert(ay * w + w <= by * w) by (nonlinear_arith)
            requires
                ay < by,
                0 <= w,
        ;
    } else if by < ay {
        assert(by * w + w <= ay * w) by (nonlinear_arith)
            requires
                by < ay,
                0 <= w,
        ;
    }
}

/// Each side of a non-empty grid is at most `MAX_TILES`.
pub proof fn lemma_sides_small(g: &Grid)
    requires
        g.wf(),
        g.width >= 1,
        g.height >= 1,
    ensures
        g.width <= MAX_TILES,
        g.height <= MAX_TILES,
{
    assert(g.width <= g.width * g.height) by (nonlinear_arith)
        requires
            g.height >= 1,
    ;
    assert(g.height <= g.width * g.height) by (nonlinear_arith)
        requires
            g.width >= 1,
    ;
}

impl Grid {
    /// The table holds exactly `width * height` tiles, within `MAX_TILES`.
    pub open spec fn wf(&self) -> bool {
        &&& self.tiles@.len() == self.width * self.height
        &&& self.width * self.height <= MAX_TILES
    }

    /// `(x, y)` lies on the grid.
    pub open spec fn in_bounds(&self, x: int, y: int) -> bool {
        0 <= x < self.width && 0 <= y < self.height
    }

    /// The tile at column `x`, row `y`.
    pub open spec fn at(&self, x: int, y: int) -> Tile {
        self.tiles@[idx(self.width as int, x, y)]
    }

    /// The whole outer ring is wall.
    pub open spec fn border_walls(&self) -> bool {
        forall|x: int, y: int|
            #![trigger self.at(x, y)]
            self.in_bounds(x, y) && (x == 0 || y == 0 || x == self.width - 1 || y == self.height
                - 1) ==> self.at(x, y) == Tile::Wall
    }

    /// Whether stepping from `p` in `d` stays on the grid and lands on a
    /// player-passable tile.
    pub open spec fn player_step(&self, p: Pos, d: Dir) -> bool {
        self.in_bounds(nx(p, d), ny(p, d)) && player_passable(self.at(nx(p, d), ny(p, d)))
    }

    /// Whether stepping from `p` in `d` stays on the grid and lands on a
    /// ghost-passable tile under `gate_open`.
    pub open spec fn ghost_step(&self, p: Pos, d: Dir, gate_open: bool) -> bool {
        self.in_bounds(nx(p, d), ny(p, d)) && ghost_passable(
            self.at(nx(p, d), ny(p, d)),
            gate_open,
        )
    }

    /// Not on the outer ring.
    pub open spec fn interior(&self, x: int, y: int) -> bool {
        1 <= x < self.width - 1 && 1 <= y < self.height - 1
    }

    /// Every tile at even coordinates (a corner between cells) is a wall.
    pub open spec fn pillars_walls(&self) -> bool {
        forall|x: int, y: int|
            #![trigger self.at(x, y)]
            self.in_bounds(x, y) && x % 2 == 0 && y % 2 == 0 ==> self.at(x, y) == Tile::Wall
    }

    /// Every tile is a wall or empty.
    pub open spec fn plain(&self) -> bool {
        forall|i: int| 0 <= i < self.tiles@.len() ==> #[trigger] self.tiles@[i] == Tile::Wall
            || self.tiles@[i] == Tile::Empty
    }

    /// Replaces a tile off the outer ring; the ring stays as it was.
    pub fn set_interior(&mut self, x: usize, y: usize, t: Tile)
        requires
            old(self).wf(),
            old(self).interior(x as int, y as int),
        ensures
            final(self).wf(),
            final(self).width == old(self).width,
            final(self).height == old(self).height,
            final(self).tiles@ == old(self).tiles@.update(
                idx(old(self).width as int, x as int, y as int),
                t,
            ),
            final(self).at(x as int, y as int) == t,
            forall|a: int, b: int|
                #![trigger final(self).at(a, b)]
                old(self).in_bounds(a, b) && (a != x || b != y) ==> final(self).at(a, b) == old(self).at(a, b),
            old(self).border_walls() ==> final(self).border_walls(),
            old(self).plain() && (t == Tile::Wall || t == Tile::Empty) ==> final(self).plain(),
            t == Tile::Empty && (old(self).at(x as int, y as int) == Tile::Wall || old(self).at(
                x as int,
                y as int,
            ) == Tile::Empty) ==> carved_from(&*old(self), &*final(self)),
    {
        let ghost g0 = *self;
        self.set(x, y, t);
        proof {
            lemma_idx_bounds(g0.width as int, g0.height as int, x as int, y as int);
            assert forall|a: int, b: int|
                #![trigger self.at(a, b)]
                g0.in_bounds(a, b) && (a != x || b != y) implies self.at(a, b) == g0.at(a, b) by {
                lemma_idx_bounds(g0.width as int, g0.height as int, a, b);
                lemma_idx_distinct(g0.width as int, g0.height as int, a, b, x as int, y as int);
            }
            if g0.border_walls() {
                assert forall|bx: int, by: int|
                    #![trigger self.at(bx, by)]
                    self.in_bounds(bx, by) && (bx == 0 || by == 0 || bx == self.width - 1 || by
                        == self.height - 1) implies self.at(bx, by) == Tile::Wall by {
                    lemma_idx_bounds(g0.width as int, g0.height as int, bx, by);
                    lemma_idx_distinct(g0.width as int, g0.height as int, bx, by, x as int, y as int);
                    assert(g0.at(bx, by) == Tile::Wall);
                }
            }
        }
    }

    /// A grid of the given size with every tile a wall.
    pub fn filled(width: usize, height: usize) -> (g: Grid)
        requires
            width * height <= MAX_TILES,
        ensures
            g.wf(),
            g.width == width,
            g.height == height,
            forall|x: int, y: int| #[trigger] g.at(x, y) == Tile::Wall || !g.in_bounds(x, y),
            g.border_walls(),
            g.plain(),
            g.pillars_walls(),
    {
        let n: usize = width * height;
        let mut tiles: Vec<Tile> = Vec::new();
        while tiles.len() < n
            invariant
                tiles.len() <= n,
                forall|i: int| 0 <= i < tiles.len() ==> tiles@[i] == Tile::Wall,
            decreases n - tiles.len(),
        {
            tiles.push(Tile::Wall);
        }
        let g = Grid { width, height, tiles };
        assert forall|x: int, y: int| #[trigger] g.at(x, y) == Tile::Wall || !g.in_bounds(x, y) by {
            if g.in_bounds(x, y) {
                lemma_idx_bounds(width as int, height as int, x, y);
            }
        }
        g
    }

    /// The tile at column `x`, row `y`.
    pub fn get(&self, x: usize, y: usize) -> (t: Tile)
        requires
            self.wf(),
            x < self.width,
            y < self.height,
        ensures
            t == self.at(x as int, y as int),
    {
        proof {
            lemma_idx_bounds(self.width as int, self.height as int, x as int, y as int);
        }
        self.tiles[y * self.width + x]
    }

    /// Replaces the tile at column `x`, row `y`.
    pub fn set(&mut self, x: usize, y: usize, t: Tile)
        requires
            old(self).wf(),
            x < old(self).width,
            y < old(self).height,
        ensures
            final(self).wf(),
            final(self).width == old(self).width,
            final(self).height == old(self).height,
            final(self).tiles@ == old(self).tiles@.update(
                idx(old(self).width as int, x as int, y as int),
                t,
            ),
    {
        proof {
            lemma_idx_bounds(self.width as int, self.height as int, x as int, y as int);
        }
        let i = y * self.width + x;
        self.tiles.set(i, t);
    }
}

/// Whether `t` counts towards the pellets left.
pub open spec fn is_food(t: Tile) -> bool {
    t == Tile::Pellet || t == Tile::Power
}

/// The number of Pellet and Power tiles in `s`.
pub open spec fn food_count(s: Seq<Tile>) -> nat
    decreases s.len(),
{
    if s.len() == 0 {
        0
    } else {
        food_count(s.drop_last()) + if is_food(s.last()) { 1nat } else { 0nat }
    }
}

pub proof fn lemma_food_count_update(s: Seq<Tile>, i: int, t: Tile)
    requires
        0 <= i < s.len(),
    ensures
        food_count(s.update(i, t)) + (if is_food(s[i]) { 1int } else { 0int }) == food_count(s) + (
        if is_food(t) { 1int } else { 0int }),
    decreases s.len(),
{
    let u = s.update(i, t);
    if i == s.len() - 1 {
        assert(u.drop_last() =~= s.drop_last());
    } else {
        assert(u.drop_last() =~= s.drop_last().update(i, t));
        lemma_food_count_update(s.drop_last(), i, t);
    }
}

pub proof fn lemma_food_count_bound(s: Seq<Tile>)
    ensures
        food_count(s) <= s.len(),
    decreases s.len(),
{
    if s.len() > 0 {
        lemma_food_count_bound(s.drop_last());
    }
}

/// A single Pellet or Power tile makes the count positive.
pub proof fn lemma_food_count_positive(s: Seq<Tile>, i: int)
    requires
        0 <= i < s.len(),
        is_food(s[i]),
    ensures
        food_count(s) > 0,
    decreases s.len(),
{
    if i < s.len() - 1 {
        lemma_food_count_positive(s.drop_last(), i);
    }
}

/// The number of Pellet and Power tiles on the grid.
pub fn count_food(grid: &Grid) -> (r: usize)
    ensures
        r == food_count(grid.tiles@),
{
    let mut r: usize = 0;
    let mut i: usize = 0;
    while i < grid.tiles.len()
        invariant
            i <= grid.tiles@.len(),
            r == food_count(grid.tiles@.take(i as int)),
        decreases grid.tiles@.len() - i,
    {
        proof {
            assert(grid.tiles@.take(i + 1).drop_last() =~= grid.tiles@.take(i as int));
            lemma_food_count_bound(grid.tiles@.take(i as int));
        }
        if grid.tiles[i] == Tile::Pellet || grid.tiles[i] == Tile::Power {
            r = r + 1;
        }
        i = i + 1;
    }
    proof {
        assert(grid.tiles@.take(i as int) =~= grid.tiles@);
    }
    r
}

/// `b` is `a` with some walls off the outer ring opened: same size, the
/// ring and plainness kept, every other tile unchanged.
pub open spec fn carved_from(a: &Grid, b: &Grid) -> bool {
    &&& b.wf()
    &&& b.width == a.width
    &&& b.height == a.height
    &&& a.border_walls() ==> b.border_walls()
    &&& a.plain() ==> b.plain()
    &&& forall|i: int|
        0 <= i < a.tiles@.len() ==> #[trigger] b.tiles@[i] == a.tiles@[i] || (a.tiles@[i]
            == Tile::Wall && b.tiles@[i] == Tile::Empty)
}

pub proof fn lemma_carved_trans(a: &Grid, b: &Grid, c: &Grid)
    requires
        a.wf(),
        carved_from(a, b),
        carved_from(b, c),
    ensures
        carved_from(a, c),
{
    assert forall|i: int| 0 <= i < a.tiles@.len() implies #[trigger] c.tiles@[i] == a.tiles@[i] || (a.tiles@[i]
        == Tile::Wall && c.tiles@[i] == Tile::Empty) by {
        assert(b.tiles@[i] == a.tiles@[i] || (a.tiles@[i] == Tile::Wall && b.tiles@[i] == Tile::Empty));
        assert(c.tiles@[i] == b.tiles@[i] || (b.tiles@[i] == Tile::Wall && c.tiles@[i] == Tile::Empty));
    }
}

pub proof fn lemma_carved_refl(a: &Grid)
    requires
        a.wf(),
    ensures
        carved_from(a, a),
{
}

/// The neighbour of `pos` in `dir`; the step must stay on the grid.
pub fn step(pos: Pos, dir: Dir) -> (r: Pos)
    requires
        0 <= nx(pos, dir),
        0 <= ny(pos, dir),
        nx(pos, dir) <= usize::MAX,
        ny(pos, dir) <= usize::MAX,
    ensures
        r.x == nx(pos, dir),
        r.y == ny(pos, dir),
{
    match dir {
        Dir::Up => Pos { x: pos.x, y: pos.y - 1 },
        Dir::Down => Pos { x: pos.x, y: pos.y + 1 },
        Dir::Left => Pos { x: pos.x - 1, y: pos.y },
        Dir::Right => Pos { x: pos.x + 1, y: pos.y },
    }
}

/// The neighbour of `pos` in `dir` when it lies on a `width` x `height` grid.
pub fn neighbor_within(width: usize, height: usize, pos: Pos, dir: Dir) -> (r: Option<Pos>)
    ensures
        r is Some <==> (0 <= nx(pos, dir) < width && 0 <= ny(pos, dir) < height),
        r matches Some(q) ==> q.x == nx(pos, dir) && q.y == ny(pos, dir),
{
    match dir {
        Dir::Up => if pos.y > 0 && pos.y - 1 < height && pos.x < width {
            Some(Pos { x: pos.x, y: pos.y - 1 })
        } else {
            None
        },
        Dir::Down => if pos.y < usize::MAX && pos.y + 1 < height && pos.x < width {
            Some(Pos { x: pos.x, y: pos.y + 1 })
        } else {
            None
        },
        Dir::Left => if pos.x > 0 && pos.x - 1 < width && pos.y < height {
            Some(Pos { x: pos.x - 1, y: pos.y })
        } else {
            None
        },
        Dir::Right => if pos.x < usize::MAX && pos.x + 1 < width && pos.y < height {
            Some(Pos { x: pos.x + 1, y: pos.y })
        } else {
            None
        },
    }
}

/// Whether the player standing at `pos` may move one tile in `dir`.
pub fn can_move_player(grid: &Grid, pos: Pos, dir: Dir) -> (r: bool)
    requires
        grid.wf(),
    ensures
        r == grid.player_step(pos, dir),
{
    match neighbor_within(grid.width, grid.height, pos, dir) {
        None => false,
        Some(next) => {
            let t = grid.get(next.x, next.y);
            t != Tile::Wall && t != Tile::Gate
        },
    }
}

/// Whether a ghost standing at `pos` may move one tile in `dir`; a Gate tile
/// lets it through only when `gate_open`.
pub fn can_move_ghost(grid: &Grid, pos: Pos, dir: Dir, gate_open: bool) -> (r: bool)
    requires
        grid.wf(),
    ensures
        r == grid.ghost_step(pos, dir, gate_open),
{
    match neighbor_within(grid.width, grid.height, pos, dir) {
        None => false,
        Some(next) => match grid.get(next.x, next.y) {
            Tile::Wall => false,
            Tile::Gate => gate_open,
            _ => true,
        },
    }
}

/// `a` comes strictly before `b` in row-major order.
pub open spec fn row_major_before(a: Pos, b: Pos) -> bool {
    a.y < b.y || (a.y == b.y && a.x < b.x)
}

/// Every tile the player may stand on, in row-major order, each once.
pub fn empty_cells(grid: &Grid) -> (cells: Vec<Pos>)
    requires
        grid.wf(),
    ensures
        forall|p: Pos|
            #![trigger cells@.contains(p)]
            cells@.contains(p) <==> (grid.in_bounds(p.x as int, p.y as int) && player_passable(
                grid.at(p.x as int, p.y as int),
            )),
        forall|i: int, j: int|
            0 <= i < j < cells@.len() ==> row_major_before(#[trigger] cells@[i], #[trigger] cells@[j]),
{
    let mut cells: Vec<Pos> = Vec::new();
    let mut y: usize = 0;
    while y < grid.height
        invariant
            grid.wf(),
            y <= grid.height,
            forall|p: Pos|
                #![trigger cells@.contains(p)]
                cells@.contains(p) <==> (grid.in_bounds(p.x as int, p.y as int) && p.y < y && player_passable(
                    grid.at(p.x as int, p.y as int),
                )),
            forall|i: int, j: int|
                0 <= i < j < cells@.len() ==> row_major_before(#[trigger] cells@[i], #[trigger] cells@[j]),
        decreases grid.height - y,
    {
        let mut x: usize = 0;
        while x < grid.width
            invariant
                grid.wf(),
                y < grid.height,
                x <= grid.width,
                forall|p: Pos|
                    #![trigger cells@.contains(p)]
                    cells@.contains(p) <==> (grid.in_bounds(p.x as int, p.y as int) && (p.y < y || (p.y == y
                        && p.x < x)) && player_passable(grid.at(p.x as int, p.y as int))),
                forall|i: int, j: int|
                    0 <= i < j < cells@.len() ==> row_major_before(#[trigger] cells@[i], #[trigger] cells@[j]),
            decreases grid.width - x,
        {
            let t = grid.get(x, y);
            if t != Tile::Wall && t != Tile::Gate {
                let ghost before = cells@;
                cells.push(Pos { x, y });
                proof {
                    assert forall|i: int, j: int|
                        0 <= i < j < cells@.len() implies row_major_before(#[trigger] cells@[i], #[trigger] cells@[j]) by {
                        assert(cells@[i] == before[i]);
                        assert(before.contains(before[i]));
                        if j < before.len() {
                            assert(cells@[j] == before[j]);
                        }
                    }
                    assert forall|p: Pos| #[trigger] cells@.contains(p) <==> (grid.in_bounds(p.x as int, p.y as int) && (p.y < y || (p.y == y
                        && p.x <= x)) && player_passable(grid.at(p.x as int, p.y as int))) by {
                        if p == (Pos { x, y }) {
                            assert(cells@[before.len() as int] == p);
                        } else if cells@.contains(p) {
                            let i = choose|i: int| 0 <= i < cells@.len() && cells@[i] == p;
                            assert(before[i] == p);
                            assert(before.contains(p));
                        } else if before.contains(p) {
                            let i = choose|i: int| 0 <= i < before.len() && before[i] == p;
                            assert(cells@[i] == p);
                        }
                    }
                }
            }
            x = x + 1;
        }
        y = y + 1;
    }
    cells
}

/// The number of Wall tiles in `s`.
pub open spec fn wall_count(s: Seq<Tile>) -> nat
    decreases s.len(),
{
    if s.len() == 0 {
        0
    } else {
        wall_count(s.drop_last()) + if s.last() == Tile::Wall { 1nat } else { 0nat }
    }
}

/// Opening one wall lowers the wall count by one.
pub proof fn lemma_wall_count_open(s: Seq<Tile>, i: int)
    requires
        0 <= i < s.len(),
        s[i] == Tile::Wall,
    ensures
        wall_count(s.update(i, Tile::Empty)) + 1 == wall_count(s),
    decreases s.len(),
{
    let u = s.update(i, Tile::Empty);
    if i == s.len() - 1 {
        assert(u.drop_last() =~= s.drop_last());
    } else {
        assert(u.drop_last() =~= s.drop_last().update(i, Tile::Empty));
        lemma_wall_count_open(s.drop_last(), i);
    }
}

/// With one tile that is not a wall, fewer walls than tiles.
pub proof fn lemma_wall_count_below(s: Seq<Tile>, i: int)
    requires
        0 <= i < s.len(),
        s[i] != Tile::Wall,
    ensures
        wall_count(s) < s.len(),
    decreases s.len(),
{
    lemma_wall_count_bound(s.drop_last());
    if i < s.len() - 1 {
        lemma_wall_count_below(s.drop_last(), i);
    }
}

pub proof fn lemma_wall_count_bound(s: Seq<Tile>)
    ensures
        wall_count(s) <= s.len(),
    decreases s.len(),
{
    if s.len() > 0 {
        lemma_wall_count_bound(s.drop_last());
    }
}

} // verus!
