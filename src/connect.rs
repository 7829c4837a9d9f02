//! Connectivity repair: flood the player-walkable tiles outside the pen and
//! open single walls between the reached part and the rest.
use crate::field::{pos_in, queued};
use crate::grid::{
    carved_from, dir_at, dir_of, idx, lemma_carved_refl, lemma_carved_trans, lemma_dir_at_covers,
    lemma_idx_bounds, lemma_sides_small, neighbor_within, nx, ny, player_passable, Dir, Grid, Pos,
    Tile,
};
use crate::field::lemma_idx_unique;
use crate::grid::{lemma_wall_count_below, lemma_wall_count_open, wall_count};
use crate::pen::{is_in_pen_bounds, is_pen_wall, PenBounds};
use vstd::prelude::*;

verus! {

/// A tile off the outer ring and outside the pen that the player may stand on.
pub open spec fn walkable(g: &Grid, pen: PenBounds, x: int, y: int) -> bool {
    g.interior(x, y) && !pen.holds(x, y) && player_passable(g.at(x, y))
}

/// `a` and `b` are four-neighbours.
pub open spec fn adjacent(a: Pos, b: Pos) -> bool {
    (a.x == b.x && (a.y + 1 == b.y || b.y + 1 == a.y)) || (a.y == b.y && (a.x + 1 == b.x || b.x
        + 1 == a.x))
}

/// `path` is a walk over walkable tiles in four-neighbour steps.
pub open spec fn is_trail(g: &Grid, pen: PenBounds, path: Seq<Pos>) -> bool {
    &&& path.len() > 0
    &&& forall|i: int| 0 <= i < path.len() ==> walkable(g, pen, (#[trigger] path[i]).x as int, path[i].y as int)
    &&& forall|i: int| 0 <= i < path.len() - 1 ==> adjacent(#[trigger] path[i], path[i + 1])
}

/// The player can walk from `a` to `b` over walkable tiles.
pub open spec fn linked(g: &Grid, pen: PenBounds, a: Pos, b: Pos) -> bool {
    exists|path: Seq<Pos>|
        #[trigger] is_trail(g, pen, path) && path[0] == a && path[path.len() - 1] == b
}

/// Every two walkable tiles are mutually reachable.
pub open spec fn all_linked(g: &Grid, pen: PenBounds) -> bool {
    forall|a: Pos, b: Pos|
        walkable(g, pen, a.x as int, a.y as int) && walkable(g, pen, b.x as int, b.y as int) ==> #[trigger] linked(g, pen, a, b)
}

/// The mark that `seen`, laid out like the grid, holds for tile `p`.
pub open spec fn seen_at(g: &Grid, seen: Seq<bool>, p: Pos) -> bool {
    seen[idx(g.width as int, p.x as int, p.y as int)]
}

/// Whether `pos` is off the pen and on a player-passable tile.
pub fn is_walkable_for_player(grid: &Grid, pen: &PenBounds, pos: Pos) -> (r: bool)
    requires
        grid.wf(),
        pos_in(grid, pos),
    ensures
        r == (!pen.holds(pos.x as int, pos.y as int) && player_passable(grid.at(pos.x as int, pos.y as int))),
{
    if is_in_pen_bounds(pos, pen) {
        return false;
    }
    match grid.get(pos.x, pos.y) {
        Tile::Wall | Tile::Gate => false,
        _ => true,
    }
}

/// The first walkable tile in row-major order, if any.
pub fn find_start(grid: &Grid, pen: &PenBounds) -> (r: Option<Pos>)
    requires
        grid.wf(),
    ensures
        r is None ==> forall|x: int, y: int| !#[trigger] walkable(grid, *pen, x, y),
        r matches Some(p) ==> walkable(grid, *pen, p.x as int, p.y as int),
{
    if grid.width < 2 || grid.height < 2 {
        return None;
    }
    let mut y: usize = 1;
    while y < grid.height - 1
        invariant
            grid.wf(),
            grid.width >= 2,
            grid.height >= 2,
            1 <= y <= grid.height - 1,
            forall|a: int, b: int| b < y ==> !#[trigger] walkable(grid, *pen, a, b),
        decreases grid.height - y,
    {
        let mut x: usize = 1;
        while x < grid.width - 1
            invariant
                grid.wf(),
                grid.width >= 2,
                grid.height >= 2,
                1 <= y < grid.height - 1,
                1 <= x <= grid.width - 1,
                forall|a: int, b: int| b < y ==> !#[trigger] walkable(grid, *pen, a, b),
                forall|a: int| a < x ==> !#[trigger] walkable(grid, *pen, a, y as int),
            decreases grid.width - x,
        {
            let pos = Pos { x, y };
            if is_walkable_for_player(grid, pen, pos) {
                return Some(pos);
            }
            x = x + 1;
        }
        y = y + 1;
    }
    None
}

/// Whether some walkable tile is not marked in `reachable`.
pub fn has_unreachable(grid: &Grid, pen: &PenBounds, reachable: &Vec<bool>) -> (r: bool)
    requires
        grid.wf(),
        reachable@.len() == grid.width * grid.height,
    ensures
        r <==> exists|p: Pos|
            walkable(grid, *pen, p.x as int, p.y as int) && !#[trigger] seen_at(grid, reachable@, p),
{
    if grid.width < 2 || grid.height < 2 {
        return false;
    }
    let mut y: usize = 1;
    while y < grid.height - 1
        invariant
            grid.wf(),
            reachable@.len() == grid.width * grid.height,
            grid.width >= 2,
            grid.height >= 2,
            1 <= y <= grid.height - 1,
            forall|p: Pos| p.y < y && walkable(grid, *pen, p.x as int, p.y as int) ==> #[trigger] seen_at(grid, reachable@, p),
        decreases grid.height - y,
    {
        let mut x: usize = 1;
        while x < grid.width - 1
            invariant
                grid.wf(),
                reachable@.len() == grid.width * grid.height,
                grid.width >= 2,
                grid.height >= 2,
                1 <= y < grid.height - 1,
                1 <= x <= grid.width - 1,
                forall|p: Pos| p.y < y && walkable(grid, *pen, p.x as int, p.y as int) ==> #[trigger] seen_at(grid, reachable@, p),
                forall|p: Pos| p.y == y && p.x < x && walkable(grid, *pen, p.x as int, p.y as int) ==> #[trigger] seen_at(grid, reachable@, p),
            decreases grid.width - x,
        {
            let pos = Pos { x, y };
            proof {
                lemma_idx_bounds(grid.width as int, grid.height as int, x as int, y as int);
            }
            if is_walkable_for_player(grid, pen, pos) && !reachable[y * grid.width + x] {
                proof {
                    assert(!seen_at(grid, reachable@, pos));
                }
                return true;
            }
            x = x + 1;
        }
        y = y + 1;
    }
    false
}

/// Extending a walk to `start` by one step keeps it a walk.
proof fn lemma_linked_step(g: &Grid, pen: PenBounds, start: Pos, a: Pos, b: Pos)
    requires
        linked(g, pen, start, a),
        adjacent(a, b),
        walkable(g, pen, b.x as int, b.y as int),
    ensures
        linked(g, pen, start, b),
{
    let path = choose|path: Seq<Pos>| #[trigger] is_trail(g, pen, path) && path[0] == start && path[path.len() - 1] == a;
    let np = path.push(b);
    assert forall|i: int| 0 <= i < np.len() implies walkable(g, pen, (#[trigger] np[i]).x as int, np[i].y as int) by {
        if i < path.len() {
            assert(np[i] == path[i]);
        }
    }
    assert forall|i: int| 0 <= i < np.len() - 1 implies adjacent(#[trigger] np[i], np[i + 1]) by {
        if i < path.len() - 1 {
            assert(np[i] == path[i] && np[i + 1] == path[i + 1]);
        }
    }
    assert(is_trail(g, pen, np) && np[0] == start && np[np.len() - 1] == b);
}

/// What holds of the flood state: `q` lists every tile marked so far, each
/// reachable from `start`, the first `h` of them expanded.
#[verifier::opaque]
spec fn flood_inv(g: &Grid, pen: PenBounds, start: Pos, seen: Seq<bool>, q: Seq<Pos>, h: int, marked: Set<int>) -> bool {
    let n = g.width * g.height;
    &&& g.wf()
    &&& walkable(g, pen, start.x as int, start.y as int)
    &&& seen.len() == n
    &&& pos_in(g, start)
    &&& seen_at(g, seen, start)
    &&& 0 <= h <= q.len()
    &&& forall|j: int|
        #![trigger q[j]]
        0 <= j < q.len() ==> pos_in(g, q[j]) && seen_at(g, seen, q[j]) && walkable(g, pen, q[j].x as int, q[j].y as int)
            && linked(g, pen, start, q[j])
    &&& forall|p: Pos| #![trigger seen_at(g, seen, p)] pos_in(g, p) && seen_at(g, seen, p) ==> queued(q, p)
    &&& forall|j: int, d: Dir|
        #![trigger walkable(g, pen, nx(q[j], d), ny(q[j], d))]
        0 <= j < h && walkable(g, pen, nx(q[j], d), ny(q[j], d)) ==> seen[idx(g.width as int, nx(q[j], d), ny(q[j], d))]
    &&& marked.finite()
    &&& marked.len() == q.len()
    &&& forall|i: int| marked.contains(i) ==> 0 <= i < n && seen[i]
    &&& forall|j: int| 0 <= j < q.len() ==> marked.contains(idx(g.width as int, (#[trigger] q[j]).x as int, q[j].y as int))
}

proof fn lemma_flood_start(g: &Grid, pen: PenBounds, start: Pos, seen: Seq<bool>)
    requires
        g.wf(),
        walkable(g, pen, start.x as int, start.y as int),
        seen.len() == g.width * g.height,
        forall|i: int| 0 <= i < seen.len() ==> (seen[i] <==> i == idx(g.width as int, start.x as int, start.y as int)),
    ensures
        flood_inv(g, pen, start, seen, seq![start], 0, set![idx(g.width as int, start.x as int, start.y as int)]),
{
    reveal(flood_inv);
    let q = seq![start];
    lemma_idx_bounds(g.width as int, g.height as int, start.x as int, start.y as int);
    assert(is_trail(g, pen, q));
    assert(linked(g, pen, start, start));
    assert forall|p: Pos| pos_in(g, p) && seen_at(g, seen, p) implies queued(q, p) by {
        lemma_idx_bounds(g.width as int, g.height as int, p.x as int, p.y as int);
        if p != start {
            lemma_idx_unique(g, p, start);
        }
        assert(q[0] == p);
    }
    assert(set![idx(g.width as int, start.x as int, start.y as int)].len() == 1);
}

proof fn lemma_flood_push(g: &Grid, pen: PenBounds, start: Pos, seen: Seq<bool>, q: Seq<Pos>, h: int, marked: Set<int>, dir: Dir, next: Pos)
    requires
        flood_inv(g, pen, start, seen, q, h, marked),
        h < q.len(),
        next.x == nx(q[h], dir),
        next.y == ny(q[h], dir),
        walkable(g, pen, next.x as int, next.y as int),
        !seen_at(g, seen, next),
    ensures
        flood_inv(
            g,
            pen,
            start,
            seen.update(idx(g.width as int, next.x as int, next.y as int), true),
            q.push(next),
            h,
            marked.insert(idx(g.width as int, next.x as int, next.y as int)),
        ),
{
    reveal(flood_inv);
    let n = g.width * g.height;
    let pos = q[h];
    let ni = idx(g.width as int, next.x as int, next.y as int);
    let ns = seen.update(ni, true);
    let nq = q.push(next);
    let nm = marked.insert(ni);
    lemma_idx_bounds(g.width as int, g.height as int, next.x as int, next.y as int);
    lemma_idx_bounds(g.width as int, g.height as int, start.x as int, start.y as int);
    assert(pos_in(g, q[h]));
    assert(adjacent(pos, next));
    lemma_linked_step(g, pen, start, pos, next);
    vstd::set_lib::lemma_int_range(0, n as int);
    assert(!marked.contains(ni));
    assert(nm <= vstd::set_lib::set_int_range(0, n as int));
    assert forall|j: int| #![trigger nq[j]] 0 <= j < nq.len() implies pos_in(g, nq[j]) && seen_at(g, ns, nq[j]) && walkable(g, pen, nq[j].x as int, nq[j].y as int)
        && linked(g, pen, start, nq[j]) by {
        if j < q.len() {
            assert(nq[j] == q[j]);
            lemma_idx_bounds(g.width as int, g.height as int, q[j].x as int, q[j].y as int);
        }
    }
    assert forall|p: Pos| #![trigger seen_at(g, ns, p)] pos_in(g, p) && seen_at(g, ns, p) implies queued(nq, p) by {
        lemma_idx_bounds(g.width as int, g.height as int, p.x as int, p.y as int);
        if p == next {
            assert(nq[q.len() as int] == p);
        } else {
            lemma_idx_unique(g, p, next);
            assert(seen_at(g, seen, p));
            assert(queued(q, p));
            let j = choose|j: int| 0 <= j < q.len() && #[trigger] q[j] == p;
            assert(nq[j] == p);
        }
    }
    assert forall|j: int, d: Dir|
        #![trigger walkable(g, pen, nx(nq[j], d), ny(nq[j], d))]
        0 <= j < h && walkable(g, pen, nx(nq[j], d), ny(nq[j], d)) implies ns[idx(g.width as int, nx(nq[j], d), ny(nq[j], d))] by {
        assert(nq[j] == q[j]);
        assert(walkable(g, pen, nx(q[j], d), ny(q[j], d)));
        lemma_idx_bounds(g.width as int, g.height as int, nx(q[j], d), ny(q[j], d));
    }
    assert forall|j: int| 0 <= j < nq.len() implies nm.contains(idx(g.width as int, (#[trigger] nq[j]).x as int, nq[j].y as int)) by {
        if j < q.len() {
            assert(nq[j] == q[j]);
        }
    }
}

proof fn lemma_flood_expanded(g: &Grid, pen: PenBounds, start: Pos, seen: Seq<bool>, q: Seq<Pos>, h: int, marked: Set<int>)
    requires
        flood_inv(g, pen, start, seen, q, h, marked),
        h < q.len(),
        forall|d: Dir| #[trigger] walkable(g, pen, nx(q[h], d), ny(q[h], d)) ==> seen[idx(g.width as int, nx(q[h], d), ny(q[h], d))],
    ensures
        flood_inv(g, pen, start, seen, q, h + 1, marked),
{
    reveal(flood_inv);
}

proof fn lemma_flood_facts(g: &Grid, pen: PenBounds, start: Pos, seen: Seq<bool>, q: Seq<Pos>, h: int, marked: Set<int>)
    requires
        flood_inv(g, pen, start, seen, q, h, marked),
    ensures
        g.wf(),
        seen.len() == g.width * g.height,
        h <= q.len() <= g.width * g.height,
        h < q.len() ==> pos_in(g, q[h]),
{
    reveal(flood_inv);
    let n = g.width * g.height;
    vstd::set_lib::lemma_int_range(0, n as int);
    vstd::set_lib::lemma_len_subset(marked, vstd::set_lib::set_int_range(0, n as int));
}

proof fn lemma_flood_done(g: &Grid, pen: PenBounds, start: Pos, seen: Seq<bool>, q: Seq<Pos>, marked: Set<int>)
    requires
        flood_inv(g, pen, start, seen, q, q.len() as int, marked),
    ensures
        seen.len() == g.width * g.height,
        seen_at(g, seen, start),
        forall|p: Pos| #![trigger seen_at(g, seen, p)] pos_in(g, p) && seen_at(g, seen, p) ==> linked(g, pen, start, p),
        forall|p: Pos, d: Dir|
            #![trigger seen_at(g, seen, p), walkable(g, pen, nx(p, d), ny(p, d))]
            pos_in(g, p) && seen_at(g, seen, p) && walkable(g, pen, nx(p, d), ny(p, d)) ==> seen[idx(g.width as int, nx(p, d), ny(p, d))],
{
    reveal(flood_inv);
    assert forall|p: Pos| #![trigger seen_at(g, seen, p)] pos_in(g, p) && seen_at(g, seen, p) implies linked(g, pen, start, p) by {
        assert(queued(q, p));
        let j = choose|j: int| 0 <= j < q.len() && #[trigger] q[j] == p;
        assert(linked(g, pen, start, q[j]));
    }
    assert forall|p: Pos, d: Dir|
        #![trigger seen_at(g, seen, p), walkable(g, pen, nx(p, d), ny(p, d))]
        pos_in(g, p) && seen_at(g, seen, p) && walkable(g, pen, nx(p, d), ny(p, d)) implies seen[idx(g.width as int, nx(p, d), ny(p, d))] by {
        assert(queued(q, p));
        let j = choose|j: int| 0 <= j < q.len() && #[trigger] q[j] == p;
        assert(walkable(g, pen, nx(q[j], d), ny(q[j], d)));
    }
}

/// Marks every walkable tile reachable from `start` in four-neighbour steps
/// over walkable tiles; the result is row-major like the grid.
pub fn flood(grid: &Grid, pen: &PenBounds, start: Pos) -> (seen: Vec<bool>)
    requires
        grid.wf(),
        walkable(grid, *pen, start.x as int, start.y as int),
    ensures
        seen@.len() == grid.width * grid.height,
        seen_at(grid, seen@, start),
        forall|p: Pos| #![trigger seen_at(grid, seen@, p)] pos_in(grid, p) && seen_at(grid, seen@, p) ==> linked(grid, *pen, start, p),
        forall|p: Pos, d: Dir|
            #![trigger seen_at(grid, seen@, p), walkable(grid, *pen, nx(p, d), ny(p, d))]
            pos_in(grid, p) && seen_at(grid, seen@, p) && walkable(grid, *pen, nx(p, d), ny(p, d)) ==> seen@[idx(grid.width as int, nx(p, d), ny(p, d))],
{
    let n: usize = grid.width * grid.height;
    let mut seen: Vec<bool> = Vec::new();
    while seen.len() < n
        invariant
            seen.len() <= n,
            forall|i: int| 0 <= i < seen.len() ==> !seen@[i],
        decreases n - seen.len(),
    {
        seen.push(false);
    }
    proof {
        lemma_idx_bounds(grid.width as int, grid.height as int, start.x as int, start.y as int);
    }
    let si: usize = start.y * grid.width + start.x;
    seen.set(si, true);
    let mut q: Vec<Pos> = Vec::new();
    q.push(start);
    let ghost mut marked: Set<int> = set![si as int];
    proof {
        assert(q@ == seq![start]);
        lemma_flood_start(grid, *pen, start, seen@);
    }
    let mut h: usize = 0;
    while h < q.len()
        invariant
            grid.wf(),
            n == grid.width * grid.height,
            h <= q.len(),
            flood_inv(grid, *pen, start, seen@, q@, h as int, marked),
        decreases n - h,
    {
        proof {
            lemma_flood_facts(grid, *pen, start, seen@, q@, h as int, marked);
        }
        let pos = q[h];
        let mut k: usize = 0;
        while k < 4
            invariant
                k <= 4,
                grid.wf(),
                n == grid.width * grid.height,
                h < q.len(),
                pos == q@[h as int],
                flood_inv(grid, *pen, start, seen@, q@, h as int, marked),
                forall|m: int|
                    0 <= m < k && #[trigger] walkable(grid, *pen, nx(pos, dir_at(m)), ny(pos, dir_at(m))) ==> seen@[idx(
                        grid.width as int,
                        nx(pos, dir_at(m)),
                        ny(pos, dir_at(m)),
                    )],
            decreases 4 - k,
        {
            let dir = dir_of(k);
            proof {
                lemma_flood_facts(grid, *pen, start, seen@, q@, h as int, marked);
            }
            if let Some(npos) = neighbor_within(grid.width, grid.height, pos, dir) {
                proof {
                    lemma_idx_bounds(grid.width as int, grid.height as int, npos.x as int, npos.y as int);
                }
                if npos.x > 0 && npos.y > 0 && npos.x < grid.width - 1 && npos.y < grid.height - 1 {
                    let ni: usize = npos.y * grid.width + npos.x;
                    if !seen[ni] && is_walkable_for_player(grid, pen, npos) {
                        proof {
                            lemma_flood_push(grid, *pen, start, seen@, q@, h as int, marked, dir, npos);
                        }
                        let ghost before = seen@;
                        seen.set(ni, true);
                        q.push(npos);
                        proof {
                            marked = marked.insert(ni as int);
                            assert forall|m: int|
                                0 <= m <= k && #[trigger] walkable(grid, *pen, nx(pos, dir_at(m)), ny(pos, dir_at(m))) implies seen@[idx(
                                    grid.width as int,
                                    nx(pos, dir_at(m)),
                                    ny(pos, dir_at(m)),
                                )] by {
                                lemma_idx_bounds(grid.width as int, grid.height as int, nx(pos, dir_at(m)), ny(pos, dir_at(m)));
                            }
                        }
                    }
                }
            }
            k = k + 1;
        }
        proof {
            assert forall|d: Dir| #[trigger] walkable(grid, *pen, nx(q@[h as int], d), ny(q@[h as int], d)) implies seen@[idx(grid.width as int, nx(q@[h as int], d), ny(q@[h as int], d))] by {
                lemma_dir_at_covers(d);
                let m = choose|m: int| 0 <= m < 4 && dir_at(m) == d;
                assert(walkable(grid, *pen, nx(pos, dir_at(m)), ny(pos, dir_at(m))));
            }
            lemma_flood_expanded(grid, *pen, start, seen@, q@, h as int, marked);
        }
        h = h + 1;
    }
    proof {
        lemma_flood_done(grid, *pen, start, seen@, q@, marked);
    }
    seen
}

proof fn lemma_linked_back(g: &Grid, pen: PenBounds, a: Pos, b: Pos)
    requires
        linked(g, pen, a, b),
    ensures
        linked(g, pen, b, a),
{
    let path = choose|path: Seq<Pos>| #[trigger] is_trail(g, pen, path) && path[0] == a && path[path.len() - 1] == b;
    let r = path.reverse();
    assert forall|i: int| 0 <= i < r.len() implies walkable(g, pen, (#[trigger] r[i]).x as int, r[i].y as int) by {
        assert(r[i] == path[path.len() - 1 - i]);
    }
    assert forall|i: int| 0 <= i < r.len() - 1 implies adjacent(#[trigger] r[i], r[i + 1]) by {
        let k = path.len() - 2 - i;
        assert(r[i] == path[k + 1] && r[i + 1] == path[k]);
        assert(adjacent(path[k], path[k + 1]));
    }
    assert(is_trail(g, pen, r) && r[0] == b && r[r.len() - 1] == a);
}

proof fn lemma_linked_join(g: &Grid, pen: PenBounds, a: Pos, b: Pos, c: Pos)
    requires
        linked(g, pen, a, b),
        linked(g, pen, b, c),
    ensures
        linked(g, pen, a, c),
{
    let p1 = choose|path: Seq<Pos>| #[trigger] is_trail(g, pen, path) && path[0] == a && path[path.len() - 1] == b;
    let p2 = choose|path: Seq<Pos>| #[trigger] is_trail(g, pen, path) && path[0] == b && path[path.len() - 1] == c;
    let j = p1 + p2.skip(1);
    assert forall|i: int| 0 <= i < j.len() implies walkable(g, pen, (#[trigger] j[i]).x as int, j[i].y as int) by {
        if i < p1.len() {
            assert(j[i] == p1[i]);
        } else {
            assert(j[i] == p2[i - p1.len() + 1]);
        }
    }
    assert forall|i: int| 0 <= i < j.len() - 1 implies adjacent(#[trigger] j[i], j[i + 1]) by {
        if i < p1.len() - 1 {
            assert(j[i] == p1[i] && j[i + 1] == p1[i + 1]);
        } else if i == p1.len() - 1 {
            assert(j[i] == b && j[i + 1] == p2[1]);
            assert(p2[0] == b);
            assert(adjacent(p2[0], p2[1]));
        } else {
            let k = i - p1.len() + 1;
            assert(j[i] == p2[k] && j[i + 1] == p2[k + 1]);
            assert(adjacent(p2[k], p2[k + 1]));
        }
    }
    assert(is_trail(g, pen, j) && j[0] == a && j[j.len() - 1] == c);
}

/// When every walkable tile is reachable from one start, every two walkable
/// tiles are mutually reachable.
proof fn lemma_all_linked(g: &Grid, pen: PenBounds, s: Pos)
    requires
        forall|p: Pos| walkable(g, pen, p.x as int, p.y as int) ==> #[trigger] linked(g, pen, s, p),
    ensures
        all_linked(g, pen),
{
    assert forall|a: Pos, b: Pos|
        walkable(g, pen, a.x as int, a.y as int) && walkable(g, pen, b.x as int, b.y as int) implies #[trigger] linked(g, pen, a, b) by {
        assert(linked(g, pen, s, a));
        assert(linked(g, pen, s, b));
        lemma_linked_back(g, pen, s, a);
        lemma_linked_back(g, pen, s, b);
        lemma_linked_join(g, pen, a, s, b);
        lemma_linked_join(g, pen, b, s, a);
    }
}

/// The neighbour of `(x, y)` in `d` is off the pen and player-passable.
pub open spec fn side_open(g: &Grid, pen: PenBounds, x: int, y: int, d: Dir) -> bool {
    !pen.holds(x + d.dx(), y + d.dy()) && player_passable(g.at(x + d.dx(), y + d.dy()))
}

/// The neighbour of `(x, y)` in `d` is marked in `seen`.
pub open spec fn side_seen(g: &Grid, seen: Seq<bool>, x: int, y: int, d: Dir) -> bool {
    seen[idx(g.width as int, x + d.dx(), y + d.dy())]
}

/// `(x, y)` is a wall off the outer ring and off the pen ring with a marked
/// and an unmarked open neighbour.
pub open spec fn separating_wall(g: &Grid, pen: PenBounds, seen: Seq<bool>, x: int, y: int) -> bool {
    &&& g.interior(x, y)
    &&& g.at(x, y) == Tile::Wall
    &&& !pen.ring(x, y)
    &&& exists|k: int| 0 <= k < 4 && #[trigger] side_open(g, pen, x, y, dir_at(k)) && side_seen(g, seen, x, y, dir_at(k))
    &&& exists|k: int| 0 <= k < 4 && #[trigger] side_open(g, pen, x, y, dir_at(k)) && !side_seen(g, seen, x, y, dir_at(k))
}

/// Opens the first separating wall in row-major order. Returns whether
/// there was one.
fn open_one_wall(grid: &mut Grid, pen: &PenBounds, reachable: &Vec<bool>) -> (carved: bool)
    requires
        old(grid).wf(),
        reachable@.len() == old(grid).width * old(grid).height,
        pen.x0 <= pen.x1,
        pen.y0 <= pen.y1,
    ensures
        carved_from(&*old(grid), &*final(grid)),
        !carved ==> *final(grid) == *old(grid),
        !carved ==> forall|x: int, y: int| !#[trigger] separating_wall(&*old(grid), *pen, reachable@, x, y),
        carved ==> exists|x: int, y: int|
            #[trigger] separating_wall(&*old(grid), *pen, reachable@, x, y) && final(grid).tiles@ == old(grid).tiles@.update(
                idx(old(grid).width as int, x, y),
                Tile::Empty,
            ),
{
    let ghost g0 = *grid;
    proof {
        lemma_carved_refl(&g0);
    }
    if grid.width < 3 || grid.height < 3 {
        return false;
    }
    let mut y: usize = 1;
    while y < grid.height - 1
        invariant
            grid.wf(),
            *grid == g0,
            g0 == *old(grid),
            carved_from(&g0, &*grid),
            grid.width >= 3,
            grid.height >= 3,
            1 <= y <= grid.height - 1,
            reachable@.len() == grid.width * grid.height,
            pen.x0 <= pen.x1,
            pen.y0 <= pen.y1,
            forall|a: int, b: int| b < y ==> !#[trigger] separating_wall(&g0, *pen, reachable@, a, b),
        decreases grid.height - y,
    {
        let mut x: usize = 1;
        while x < grid.width - 1
            invariant
                grid.wf(),
                *grid == g0,
                g0 == *old(grid),
                carved_from(&g0, &*grid),
                grid.width >= 3,
                grid.height >= 3,
                1 <= y < grid.height - 1,
                1 <= x <= grid.width - 1,
                reachable@.len() == grid.width * grid.height,
                pen.x0 <= pen.x1,
                pen.y0 <= pen.y1,
                forall|a: int, b: int| b < y ==> !#[trigger] separating_wall(&g0, *pen, reachable@, a, b),
                forall|a: int| a < x ==> !#[trigger] separating_wall(&g0, *pen, reachable@, a, y as int),
            decreases grid.width - x,
        {
            let pos = Pos { x, y };
            if grid.get(x, y) == Tile::Wall && !is_pen_wall(pos, pen) {
                let mut has_reach = false;
                let mut has_unreach = false;
                let mut k: usize = 0;
                while k < 4
                    invariant
                        grid.wf(),
                        *grid == g0,
                        g0 == *old(grid),
                        carved_from(&g0, &*grid),
                        g0.at(x as int, y as int) == Tile::Wall,
                        k <= 4,
                        1 <= x < grid.width - 1,
                        1 <= y < grid.height - 1,
                        reachable@.len() == grid.width * grid.height,
                        has_reach <==> exists|m: int|
                            0 <= m < k && #[trigger] side_open(&g0, *pen, x as int, y as int, dir_at(m)) && side_seen(
                                &g0,
                                reachable@,
                                x as int,
                                y as int,
                                dir_at(m),
                            ),
                        has_unreach <==> exists|m: int|
                            0 <= m < k && #[trigger] side_open(&g0, *pen, x as int, y as int, dir_at(m)) && !side_seen(
                                &g0,
                                reachable@,
                                x as int,
                                y as int,
                                dir_at(m),
                            ),
                    decreases 4 - k,
                {
                    let dir = dir_of(k);
                    let npos = match dir {
                        Dir::Up => Pos { x, y: y - 1 },
                        Dir::Down => Pos { x, y: y + 1 },
                        Dir::Left => Pos { x: x - 1, y },
                        Dir::Right => Pos { x: x + 1, y },
                    };
                    let ghost hr = has_reach;
                    let ghost hu = has_unreach;
                    if is_walkable_for_player(grid, pen, npos) {
                        proof {
                            lemma_idx_bounds(grid.width as int, grid.height as int, npos.x as int, npos.y as int);
                        }
                        if reachable[npos.y * grid.width + npos.x] {
                            has_reach = true;
                        } else {
                            has_unreach = true;
                        }
                    }
                    proof {
                        assert(side_open(&g0, *pen, x as int, y as int, dir_at(k as int)) == open_for_player(&g0, *pen, npos));
                        if has_reach && !hr {
                            assert(side_open(&g0, *pen, x as int, y as int, dir_at(k as int)) && side_seen(&g0, reachable@, x as int, y as int, dir_at(k as int)));
                        }
                        if has_unreach && !hu {
                            assert(side_open(&g0, *pen, x as int, y as int, dir_at(k as int)) && !side_seen(&g0, reachable@, x as int, y as int, dir_at(k as int)));
                        }
                    }
                    k = k + 1;
                }
                if has_reach && has_unreach {
                    grid.set_interior(x, y, Tile::Empty);
                    proof {
                        assert(separating_wall(&g0, *pen, reachable@, x as int, y as int));
                    }
                    return true;
                }
            }
            x = x + 1;
        }
        y = y + 1;
    }
    false
}

/// What `is_walkable_for_player` tests: off the pen and player-passable.
pub open spec fn open_for_player(g: &Grid, pen: PenBounds, p: Pos) -> bool {
    !pen.holds(p.x as int, p.y as int) && player_passable(g.at(p.x as int, p.y as int))
}

/// Connectivity repair. Floods from the first walkable tile; while some
/// walkable tile is unreached, and at most `width * height` times, opens one
/// separating wall and floods again. Returns whether every walkable tile was
/// reached in the end; the repair only ever opens walls.
pub fn ensure_connected(grid: &mut Grid, pen: &PenBounds) -> (connected: bool)
    requires
        old(grid).wf(),
        pen.x0 <= pen.x1,
        pen.y0 <= pen.y1,
    ensures
        carved_from(&*old(grid), &*final(grid)),
        connected ==> all_linked(&*final(grid), *pen),
        repairable(&*old(grid), *pen) ==> connected,
        repairable(&*old(grid), *pen) ==> repairable(&*final(grid), *pen),
        forall|x: int, y: int|
            #![trigger final(grid).at(x, y)]
            old(grid).in_bounds(x, y) ==> final(grid).at(x, y) == old(grid).at(x, y) || (old(grid).at(x, y) == Tile::Wall
                && final(grid).at(x, y) == Tile::Empty && old(grid).interior(x, y) && !pen.ring(x, y)),
        !connected ==> exists|s: Pos|
            walkable(&*final(grid), *pen, s.x as int, s.y as int) && forall|x: int, y: int|
                !#[trigger] reach_separator(&*final(grid), *pen, s, x, y),
{
    let ghost g0 = *grid;
    proof {
        lemma_carved_refl(&g0);
    }
    let start = find_start(grid, pen);
    let s = match start {
        None => {
            proof {
                assert forall|p: Pos| walkable(&*grid, *pen, p.x as int, p.y as int) implies #[trigger] linked(&*grid, *pen, p, p) by {
                    assert(walkable(&*grid, *pen, p.x as int, p.y as int));
                }
                lemma_all_linked(&*grid, *pen, Pos { x: 0, y: 0 });
            }
            return true;
        },
        Some(s) => s,
    };
    let mut reachable = flood(grid, pen, s);
    let mut iterations: usize = 0;
    let limit: usize = grid.width * grid.height;
    proof {
        lemma_idx_bounds(grid.width as int, grid.height as int, s.x as int, s.y as int);
        lemma_wall_count_below(grid.tiles@, idx(grid.width as int, s.x as int, s.y as int));
    }
    while has_unreachable(grid, pen, &reachable) && iterations < limit
        invariant
            g0.wf(),
            grid.wf(),
            carved_from(&g0, &*grid),
            limit == grid.width * grid.height,
            pen.x0 <= pen.x1,
            pen.y0 <= pen.y1,
            walkable(&*grid, *pen, s.x as int, s.y as int),
            reachable@.len() == grid.width * grid.height,
            forall|p: Pos| #![trigger seen_at(&*grid, reachable@, p)] pos_in(&*grid, p) && seen_at(&*grid, reachable@, p) ==> linked(&*grid, *pen, s, p),
            seen_at(&*grid, reachable@, s),
            closed_marks(&*grid, *pen, reachable@),
            iterations + wall_count(grid.tiles@) < limit,
            repairable(&g0, *pen) ==> repairable(&*grid, *pen),
            g0 == *old(grid),
            forall|x: int, y: int|
                #![trigger grid.at(x, y)]
                g0.in_bounds(x, y) ==> grid.at(x, y) == g0.at(x, y) || (g0.at(x, y) == Tile::Wall && grid.at(x, y)
                    == Tile::Empty && g0.interior(x, y) && !pen.ring(x, y)),
        ensures
            forall|x: int, y: int|
                #![trigger grid.at(x, y)]
                g0.in_bounds(x, y) ==> grid.at(x, y) == g0.at(x, y) || (g0.at(x, y) == Tile::Wall && grid.at(x, y)
                    == Tile::Empty && g0.interior(x, y) && !pen.ring(x, y)),
            (exists|p: Pos| walkable(&*grid, *pen, p.x as int, p.y as int) && !#[trigger] seen_at(&*grid, reachable@, p))
                ==> forall|x: int, y: int| !#[trigger] separating_wall(&*grid, *pen, reachable@, x, y),
            closed_marks(&*grid, *pen, reachable@),
            seen_at(&*grid, reachable@, s),
            walkable(&*grid, *pen, s.x as int, s.y as int),
            repairable(&g0, *pen) ==> forall|p: Pos|
                walkable(&*grid, *pen, p.x as int, p.y as int) ==> #[trigger] seen_at(&*grid, reachable@, p),
            carved_from(&g0, &*grid),
            grid.wf(),
            reachable@.len() == grid.width * grid.height,
            forall|p: Pos| #![trigger seen_at(&*grid, reachable@, p)] pos_in(&*grid, p) && seen_at(&*grid, reachable@, p) ==> linked(&*grid, *pen, s, p),
            repairable(&g0, *pen) ==> repairable(&*grid, *pen),
        decreases limit - iterations,
    {
        let ghost g1 = *grid;
        let ghost seen1 = reachable@;
        let carved = open_one_wall(grid, pen, &reachable);
        proof {
            lemma_carved_trans(&g0, &g1, &*grid);
            lemma_idx_bounds(grid.width as int, grid.height as int, s.x as int, s.y as int);
            assert(grid.tiles@[idx(grid.width as int, s.x as int, s.y as int)] == g1.tiles@[idx(grid.width as int, s.x as int, s.y as int)]);
        }
        if !carved {
            proof {
                if repairable(&g0, *pen) {
                    assert forall|p: Pos| walkable(&*grid, *pen, p.x as int, p.y as int) implies #[trigger] seen_at(&*grid, reachable@, p) by {
                        if !seen_at(&*grid, reachable@, p) {
                            lemma_separator_exists(&*grid, *pen, reachable@, s, p);
                        }
                    }
                }
            }
            break;
        }
        proof {
            let (x, y) = choose|x: int, y: int|
                #[trigger] separating_wall(&g1, *pen, seen1, x, y) && grid.tiles@ == g1.tiles@.update(
                    idx(g1.width as int, x, y),
                    Tile::Empty,
                );
            lemma_idx_bounds(g1.width as int, g1.height as int, x, y);
            lemma_wall_count_open(g1.tiles@, idx(g1.width as int, x, y));
            if repairable(&g0, *pen) {
                lemma_repairable_open(&g1, &*grid, *pen, seen1, x, y);
            }
            assert forall|a: int, b: int|
                #![trigger grid.at(a, b)]
                g0.in_bounds(a, b) implies grid.at(a, b) == g0.at(a, b) || (g0.at(a, b) == Tile::Wall && grid.at(a, b)
                    == Tile::Empty && g0.interior(a, b) && !pen.ring(a, b)) by {
                lemma_idx_bounds(g1.width as int, g1.height as int, a, b);
                if a != x || b != y {
                    crate::grid::lemma_idx_distinct(g1.width as int, g1.height as int, a, b, x, y);
                    assert(grid.at(a, b) == g1.at(a, b));
                } else {
                    assert(grid.at(a, b) == Tile::Empty);
                    assert(g1.at(a, b) == Tile::Wall);
                }
            }
        }
        reachable = flood(grid, pen, s);
        iterations = iterations + 1;
    }
    let done = !has_unreachable(grid, pen, &reachable);
    proof {
        if !done {
            assert forall|x: int, y: int| !#[trigger] reach_separator(&*grid, *pen, s, x, y) by {
                if reach_separator(&*grid, *pen, s, x, y) {
                    let k1 = choose|k: int|
                        0 <= k < 4 && #[trigger] side_open(&*grid, *pen, x, y, dir_at(k)) && linked(
                            &*grid,
                            *pen,
                            s,
                            side_pos(x, y, dir_at(k)),
                        );
                    let k2 = choose|k: int|
                        0 <= k < 4 && #[trigger] side_open(&*grid, *pen, x, y, dir_at(k)) && !linked(
                            &*grid,
                            *pen,
                            s,
                            side_pos(x, y, dir_at(k)),
                        );
                    let q1 = side_pos(x, y, dir_at(k1));
                    let q2 = side_pos(x, y, dir_at(k2));
                    lemma_linked_seen(&*grid, *pen, s, reachable@, q1);
                    assert(pos_in(&*grid, q2));
                    if seen_at(&*grid, reachable@, q2) {
                        assert(linked(&*grid, *pen, s, q2));
                    }
                    assert(side_open(&*grid, *pen, x, y, dir_at(k1)) && side_seen(&*grid, reachable@, x, y, dir_at(k1)));
                    assert(side_open(&*grid, *pen, x, y, dir_at(k2)) && !side_seen(&*grid, reachable@, x, y, dir_at(k2)));
                    assert(separating_wall(&*grid, *pen, reachable@, x, y));
                }
            }
        }
        if done {
            assert forall|p: Pos| walkable(&*grid, *pen, p.x as int, p.y as int) implies #[trigger] linked(&*grid, *pen, s, p) by {
                assert(seen_at(&*grid, reachable@, p));
            }
            lemma_all_linked(&*grid, *pen, s);
        }
    }
    done
}

/// Opening a separating wall keeps a layout repairable.
proof fn lemma_repairable_open(g: &Grid, g2: &Grid, pen: PenBounds, seen: Seq<bool>, x: int, y: int)
    requires
        repairable(g, pen),
        separating_wall(g, pen, seen, x, y),
        g2.wf(),
        g2.width == g.width,
        g2.height == g.height,
        g2.tiles@ == g.tiles@.update(idx(g.width as int, x, y), Tile::Empty),
    ensures
        repairable(g2, pen),
{
    lemma_idx_bounds(g.width as int, g.height as int, x, y);
    assert forall|a: int, b: int| #![trigger g2.at(a, b)] g.in_bounds(a, b) implies g2.at(a, b) == (if a == x && b == y { Tile::Empty } else { g.at(a, b) }) by {
        lemma_idx_bounds(g.width as int, g.height as int, a, b);
        if a != x || b != y {
            crate::grid::lemma_idx_distinct(g.width as int, g.height as int, a, b, x, y);
        }
    }
    assert forall|a: int, b: int| #![trigger walkable(g2, pen, a, b)] walkable(g, pen, a, b) implies walkable(g2, pen, a, b) by {
        assert(g2.at(a, b) == (if a == x && b == y { Tile::Empty } else { g.at(a, b) }));
    }
    assert forall|a: int, b: int|
        #[trigger] pillar_open(g2, pen, a, b) implies exists|k: int|
            0 <= k < 4 && #[trigger] walkable_side(g2, pen, a, b, dir_at(k)) by {
        if a == x && b == y {
            let k = choose|k: int| 0 <= k < 4 && #[trigger] side_open(g, pen, x, y, dir_at(k)) && side_seen(g, seen, x, y, dir_at(k));
            let d = dir_at(k);
            assert(g.in_bounds(x + d.dx(), y + d.dy()));
            assert(g.interior(x + d.dx(), y + d.dy()));
            assert(walkable(g, pen, x + d.dx(), y + d.dy()));
            assert(walkable(g2, pen, x + d.dx(), y + d.dy()));
            assert(walkable_side(g2, pen, a, b, dir_at(k)));
        } else {
            assert(g2.at(a, b) == g.at(a, b));
            assert(walkable(g, pen, a, b));
            assert(pillar_open(g, pen, a, b));
            let k = choose|k: int| 0 <= k < 4 && #[trigger] walkable_side(g, pen, a, b, dir_at(k));
            assert(walkable(g2, pen, a + dir_at(k).dx(), b + dir_at(k).dy()));
            assert(walkable_side(g2, pen, a, b, dir_at(k)));
        }
    }
    assert forall|a: int, b: int|
        #![trigger g2.at(a, b)]
        g2.in_bounds(a, b) && (a == 0 || b == 0 || a == g2.width - 1 || b == g2.height - 1) implies g2.at(a, b) == Tile::Wall by {
        assert(g.at(a, b) == Tile::Wall);
    }
}

/// The neighbour of `(x, y)` in `d`.
pub open spec fn side_pos(x: int, y: int, d: Dir) -> Pos {
    Pos { x: (x + d.dx()) as usize, y: (y + d.dy()) as usize }
}

/// `(x, y)` is a wall off the outer ring and off the pen ring with an open
/// neighbour the player can reach from `s` and an open neighbour it cannot.
pub open spec fn reach_separator(g: &Grid, pen: PenBounds, s: Pos, x: int, y: int) -> bool {
    &&& g.interior(x, y)
    &&& g.at(x, y) == Tile::Wall
    &&& !pen.ring(x, y)
    &&& exists|k: int|
        0 <= k < 4 && #[trigger] side_open(g, pen, x, y, dir_at(k)) && linked(g, pen, s, side_pos(x, y, dir_at(k)))
    &&& exists|k: int|
        0 <= k < 4 && #[trigger] side_open(g, pen, x, y, dir_at(k)) && !linked(g, pen, s, side_pos(x, y, dir_at(k)))
}

/// Marks closed under walkable steps hold every tile reachable from a marked
/// start.
proof fn lemma_linked_seen(g: &Grid, pen: PenBounds, s: Pos, seen: Seq<bool>, p: Pos)
    requires
        g.wf(),
        seen_at(g, seen, s),
        closed_marks(g, pen, seen),
        linked(g, pen, s, p),
    ensures
        seen_at(g, seen, p),
{
    let path = choose|path: Seq<Pos>| #[trigger] is_trail(g, pen, path) && path[0] == s && path[path.len() - 1] == p;
    lemma_trail_seen(g, pen, seen, path, path.len() - 1);
}

proof fn lemma_trail_seen(g: &Grid, pen: PenBounds, seen: Seq<bool>, path: Seq<Pos>, i: int)
    requires
        g.wf(),
        is_trail(g, pen, path),
        seen_at(g, seen, path[0]),
        closed_marks(g, pen, seen),
        0 <= i < path.len(),
    ensures
        seen_at(g, seen, path[i]),
    decreases i,
{
    if i > 0 {
        lemma_trail_seen(g, pen, seen, path, i - 1);
        let a = path[i - 1];
        let b = path[i];
        assert(adjacent(a, b));
        assert(walkable(g, pen, a.x as int, a.y as int));
        assert(walkable(g, pen, b.x as int, b.y as int));
        let d = if a.x == b.x && a.y + 1 == b.y {
            Dir::Down
        } else if a.x == b.x {
            Dir::Up
        } else if a.x + 1 == b.x {
            Dir::Right
        } else {
            Dir::Left
        };
        assert(nx(a, d) == b.x && ny(a, d) == b.y);
        assert(walkable(g, pen, nx(a, d), ny(a, d)));
    }
}

/// The neighbour of `(x, y)` in `d` is walkable.
pub open spec fn walkable_side(g: &Grid, pen: PenBounds, x: int, y: int, d: Dir) -> bool {
    walkable(g, pen, x + d.dx(), y + d.dy())
}

/// A layout on which the repair always succeeds: odd sides and a wall ring,
/// the pen strictly inside with a free cell column to its left and a free
/// row above it, every cell tile (odd coordinates) outside the pen open, no
/// Gate tile outside the pen, and every open tile at even coordinates next to
/// another walkable tile.
pub open spec fn repairable(g: &Grid, pen: PenBounds) -> bool {
    &&& g.wf()
    &&& g.width % 2 == 1
    &&& g.height % 2 == 1
    &&& g.border_walls()
    &&& 2 <= pen.x0 && pen.x0 < pen.x1 && pen.x1 <= g.width - 2
    &&& 2 <= pen.y0 && pen.y0 < pen.y1 && pen.y1 <= g.height - 2
    &&& forall|x: int, y: int|
        #![trigger g.at(x, y)]
        g.in_bounds(x, y) && !pen.holds(x, y) ==> g.at(x, y) != Tile::Gate
    &&& forall|x: int, y: int|
        #![trigger g.at(x, y)]
        g.interior(x, y) && x % 2 == 1 && y % 2 == 1 && !pen.holds(x, y) ==> player_passable(g.at(x, y))
    &&& forall|x: int, y: int|
        #[trigger] pillar_open(g, pen, x, y) ==> exists|k: int|
            0 <= k < 4 && #[trigger] walkable_side(g, pen, x, y, dir_at(k))
}

/// `(x, y)` is walkable and at even coordinates.
pub open spec fn pillar_open(g: &Grid, pen: PenBounds, x: int, y: int) -> bool {
    walkable(g, pen, x, y) && x % 2 == 0 && y % 2 == 0
}

/// The mark that `seen` holds for tile `(x, y)`.
pub open spec fn sn(g: &Grid, seen: Seq<bool>, x: int, y: int) -> bool {
    seen[idx(g.width as int, x, y)]
}

/// `seen` is closed under steps between walkable tiles.
pub open spec fn closed_marks(g: &Grid, pen: PenBounds, seen: Seq<bool>) -> bool {
    forall|p: Pos, d: Dir|
        #![trigger seen_at(g, seen, p), walkable(g, pen, nx(p, d), ny(p, d))]
        pos_in(g, p) && seen_at(g, seen, p) && walkable(g, pen, nx(p, d), ny(p, d)) ==> seen[idx(
            g.width as int,
            nx(p, d),
            ny(p, d),
        )]
}

proof fn lemma_step_same(g: &Grid, pen: PenBounds, seen: Seq<bool>, x: int, y: int, d: Dir)
    requires
        g.wf(),
        closed_marks(g, pen, seen),
        walkable(g, pen, x, y),
        walkable(g, pen, x + d.dx(), y + d.dy()),
    ensures
        sn(g, seen, x, y) == sn(g, seen, x + d.dx(), y + d.dy()),
{
    let p = Pos { x: x as usize, y: y as usize };
    let q = Pos { x: (x + d.dx()) as usize, y: (y + d.dy()) as usize };
    let e = crate::pursuit::opposite(d);
    assert(nx(q, e) == x && ny(q, e) == y);
    if seen_at(g, seen, p) {
        assert(walkable(g, pen, nx(p, d), ny(p, d)));
    }
    if seen_at(g, seen, q) {
        assert(walkable(g, pen, nx(q, e), ny(q, e)));
    }
}

/// Every walkable tile shares its mark with some walkable cell tile.
proof fn lemma_anchor(g: &Grid, pen: PenBounds, seen: Seq<bool>, x: int, y: int) -> (c: (int, int))
    requires
        repairable(g, pen),
        closed_marks(g, pen, seen),
        walkable(g, pen, x, y),
    ensures
        c.0 % 2 == 1,
        c.1 % 2 == 1,
        walkable(g, pen, c.0, c.1),
        sn(g, seen, c.0, c.1) == sn(g, seen, x, y),
    decreases (if x % 2 == 0 && y % 2 == 0 { 1int } else { 0int }),
{
    if x % 2 == 1 && y % 2 == 1 {
        (x, y)
    } else if x % 2 == 1 {
        let (d1, d2) = (Dir::Up, Dir::Down);
        assert(g.interior(x, y - 1) && g.interior(x, y + 1));
        if !pen.holds(x, y - 1) {
            assert(player_passable(g.at(x, y - 1)));
            lemma_step_same(g, pen, seen, x, y, d1);
            (x, y - 1)
        } else {
            assert(!pen.holds(x, y + 1));
            assert(player_passable(g.at(x, y + 1)));
            lemma_step_same(g, pen, seen, x, y, d2);
            (x, y + 1)
        }
    } else if y % 2 == 1 {
        let (d1, d2) = (Dir::Left, Dir::Right);
        assert(g.interior(x - 1, y) && g.interior(x + 1, y));
        if !pen.holds(x - 1, y) {
            assert(player_passable(g.at(x - 1, y)));
            lemma_step_same(g, pen, seen, x, y, d1);
            (x - 1, y)
        } else {
            assert(!pen.holds(x + 1, y));
            assert(player_passable(g.at(x + 1, y)));
            lemma_step_same(g, pen, seen, x, y, d2);
            (x + 1, y)
        }
    } else {
        assert(pillar_open(g, pen, x, y));
        let k = choose|k: int| 0 <= k < 4 && #[trigger] walkable_side(g, pen, x, y, dir_at(k));
        let d = dir_at(k);
        lemma_step_same(g, pen, seen, x, y, d);
        lemma_anchor(g, pen, seen, x + d.dx(), y + d.dy())
    }
}

/// Two walkable cell tiles two apart share their mark unless the wall
/// between them separates.
proof fn lemma_cell_step(g: &Grid, pen: PenBounds, seen: Seq<bool>, x: int, y: int, d: Dir)
    requires
        repairable(g, pen),
        closed_marks(g, pen, seen),
        forall|a: int, b: int| !#[trigger] separating_wall(g, pen, seen, a, b),
        walkable(g, pen, x, y),
        walkable(g, pen, x + 2 * d.dx(), y + 2 * d.dy()),
    ensures
        sn(g, seen, x, y) == sn(g, seen, x + 2 * d.dx(), y + 2 * d.dy()),
{
    let mx = x + d.dx();
    let my = y + d.dy();
    assert(g.interior(mx, my));
    assert(!pen.holds(mx, my));
    if player_passable(g.at(mx, my)) {
        lemma_step_same(g, pen, seen, x, y, d);
        lemma_step_same(g, pen, seen, mx, my, d);
    } else if sn(g, seen, x, y) != sn(g, seen, x + 2 * d.dx(), y + 2 * d.dy()) {
        let e = crate::pursuit::opposite(d);
        lemma_dir_at_covers(d);
        lemma_dir_at_covers(e);
        let kd = choose|k: int| 0 <= k < 4 && dir_at(k) == d;
        let ke = choose|k: int| 0 <= k < 4 && dir_at(k) == e;
        assert(g.at(mx, my) == Tile::Wall);
        assert(side_open(g, pen, mx, my, dir_at(kd)));
        assert(side_open(g, pen, mx, my, dir_at(ke)));
        if sn(g, seen, x, y) {
            assert(side_open(g, pen, mx, my, dir_at(ke)) && side_seen(g, seen, mx, my, dir_at(ke)));
            assert(side_open(g, pen, mx, my, dir_at(kd)) && !side_seen(g, seen, mx, my, dir_at(kd)));
        } else {
            assert(side_open(g, pen, mx, my, dir_at(kd)) && side_seen(g, seen, mx, my, dir_at(kd)));
            assert(side_open(g, pen, mx, my, dir_at(ke)) && !side_seen(g, seen, mx, my, dir_at(ke)));
        }
        assert(separating_wall(g, pen, seen, mx, my));
    }
}

proof fn lemma_row_same(g: &Grid, pen: PenBounds, seen: Seq<bool>, x: int, y: int)
    requires
        repairable(g, pen),
        closed_marks(g, pen, seen),
        forall|a: int, b: int| !#[trigger] separating_wall(g, pen, seen, a, b),
        1 <= y <= g.height - 2,
        y % 2 == 1,
        y < pen.y0 || y > pen.y1,
        1 <= x <= g.width - 2,
        x % 2 == 1,
    ensures
        sn(g, seen, x, y) == sn(g, seen, 1, y),
    decreases x,
{
    if x > 1 {
        lemma_row_same(g, pen, seen, x - 2, y);
        assert(g.at(x - 2, y) == g.at(x - 2, y));
        assert(player_passable(g.at(x - 2, y)));
        assert(player_passable(g.at(x, y)));
        lemma_cell_step(g, pen, seen, x - 2, y, Dir::Right);
    }
}

proof fn lemma_col_same(g: &Grid, pen: PenBounds, seen: Seq<bool>, x: int, y: int)
    requires
        repairable(g, pen),
        closed_marks(g, pen, seen),
        forall|a: int, b: int| !#[trigger] separating_wall(g, pen, seen, a, b),
        1 <= x <= g.width - 2,
        x % 2 == 1,
        x < pen.x0 || x > pen.x1,
        1 <= y <= g.height - 2,
        y % 2 == 1,
    ensures
        sn(g, seen, x, y) == sn(g, seen, x, 1),
    decreases y,
{
    if y > 1 {
        lemma_col_same(g, pen, seen, x, y - 2);
        assert(player_passable(g.at(x, y - 2)));
        assert(player_passable(g.at(x, y)));
        lemma_cell_step(g, pen, seen, x, y - 2, Dir::Down);
    }
}

/// On a repairable layout, a walkable cell tile shares its mark with the
/// corner cell `(1, 1)` unless some wall separates.
proof fn lemma_cell_hub(g: &Grid, pen: PenBounds, seen: Seq<bool>, x: int, y: int)
    requires
        repairable(g, pen),
        closed_marks(g, pen, seen),
        forall|a: int, b: int| !#[trigger] separating_wall(g, pen, seen, a, b),
        walkable(g, pen, x, y),
        x % 2 == 1,
        y % 2 == 1,
    ensures
        sn(g, seen, x, y) == sn(g, seen, 1, 1),
{
    if x < pen.x0 || x > pen.x1 {
        lemma_col_same(g, pen, seen, x, y);
        lemma_row_same(g, pen, seen, x, 1);
    } else {
        lemma_row_same(g, pen, seen, x, y);
        lemma_col_same(g, pen, seen, 1, y);
    }
}

/// On a repairable layout, when a marked and an unmarked walkable tile exist
/// and the marks are closed under steps, some wall separates them.
proof fn lemma_separator_exists(g: &Grid, pen: PenBounds, seen: Seq<bool>, s: Pos, u: Pos)
    requires
        repairable(g, pen),
        seen.len() == g.width * g.height,
        closed_marks(g, pen, seen),
        walkable(g, pen, s.x as int, s.y as int),
        seen_at(g, seen, s),
        walkable(g, pen, u.x as int, u.y as int),
        !seen_at(g, seen, u),
    ensures
        exists|a: int, b: int| #[trigger] separating_wall(g, pen, seen, a, b),
{
    if forall|a: int, b: int| !#[trigger] separating_wall(g, pen, seen, a, b) {
        let cs = lemma_anchor(g, pen, seen, s.x as int, s.y as int);
        let cu = lemma_anchor(g, pen, seen, u.x as int, u.y as int);
        lemma_cell_hub(g, pen, seen, cs.0, cs.1);
        lemma_cell_hub(g, pen, seen, cu.0, cu.1);
    }
}

} // verus!
