//! The path field: breadth-first step distances from one source tile under a
//! gate mode, with `-1` on every tile the source cannot reach.
use crate::grid::{
    can_move_ghost, dir_at, dir_of, idx, lemma_dir_at_covers, lemma_idx_bounds, nx, ny,
    step, Dir, Grid, Pos,
};
use vstd::prelude::*;

verus! {

/// The value that `dist`, laid out like the grid, holds for tile `p`.
pub open spec fn dval(g: &Grid, dist: Seq<i32>, p: Pos) -> int {
    dist[idx(g.width as int, p.x as int, p.y as int)] as int
}

/// The value that `dist` holds for the neighbour of `p` in `d`.
pub open spec fn nval(g: &Grid, dist: Seq<i32>, p: Pos, d: Dir) -> int {
    dist[idx(g.width as int, nx(p, d), ny(p, d))] as int
}

/// `p` lies on the grid.
pub open spec fn pos_in(g: &Grid, p: Pos) -> bool {
    g.in_bounds(p.x as int, p.y as int)
}

/// `b` is one legal ghost step away from `a`.
pub open spec fn ghost_edge(g: &Grid, gate_open: bool, a: Pos, b: Pos) -> bool {
    exists|d: Dir| #[trigger] g.ghost_step(a, d, gate_open) && b.x == nx(a, d) && b.y == ny(a, d)
}

/// Some neighbour `r` of `p` one closer to the source can step onto `p`.
pub open spec fn has_pred(g: &Grid, gate_open: bool, dist: Seq<i32>, p: Pos) -> bool {
    exists|r: Pos|
        #![trigger dval(g, dist, r)]
        pos_in(g, r) && ghost_edge(g, gate_open, r, p) && dval(g, dist, r) == dval(g, dist, p) - 1
}

/// `p` is one of the entries of `q`.
pub open spec fn queued(q: Seq<Pos>, p: Pos) -> bool {
    exists|j: int| 0 <= j < q.len() && #[trigger] q[j] == p
}

/// `path` is a walk of legal ghost steps that starts on the grid.
pub open spec fn is_walk(g: &Grid, gate_open: bool, path: Seq<Pos>) -> bool {
    &&& path.len() > 0
    &&& pos_in(g, path[0])
    &&& forall|i: int| 0 <= i < path.len() - 1 ==> ghost_edge(g, gate_open, #[trigger] path[i], path[i + 1])
}

/// `t` can be reached from `s` in exactly `n` legal ghost steps.
pub open spec fn reaches_in(g: &Grid, gate_open: bool, s: Pos, t: Pos, n: nat) -> bool {
    exists|path: Seq<Pos>|
        #![trigger is_walk(g, gate_open, path), path.len()]
        is_walk(g, gate_open, path) && path.len() == n + 1 && path[0] == s && path[n as int] == t
}

/// `dist` is the breadth-first distance field of `g` from `src`: zero at the
/// source and only there, `-1` or more everywhere, never more than one step
/// beyond a reached neighbour, and every positive value one more than some
/// neighbour it can be entered from.
pub open spec fn is_field(g: &Grid, gate_open: bool, src: Pos, dist: Seq<i32>) -> bool {
    &&& dist.len() == g.width * g.height
    &&& dval(g, dist, src) == 0
    &&& forall|p: Pos| #![trigger dval(g, dist, p)] pos_in(g, p) ==> dval(g, dist, p) >= -1
    &&& forall|p: Pos|
        #![trigger dval(g, dist, p)]
        pos_in(g, p) && dval(g, dist, p) == 0 ==> p == src
    &&& forall|p: Pos, d: Dir|
        #![trigger g.ghost_step(p, d, gate_open), dval(g, dist, p)]
        pos_in(g, p) && dval(g, dist, p) >= 0 && g.ghost_step(p, d, gate_open) ==> 0 <= nval(
            g,
            dist,
            p,
            d,
        ) <= dval(g, dist, p) + 1
    &&& forall|p: Pos| #![trigger has_pred(g, gate_open, dist, p)] pos_in(g, p) && dval(g, dist, p) > 0 ==> has_pred(g, gate_open, dist, p)
}

/// What holds of the search state: `q` lists every tile found so far, in
/// order of non-decreasing distance, the first `h` of them expanded.
#[verifier::opaque]
spec fn search_inv(
    g: &Grid,
    gate_open: bool,
    start: Pos,
    dist: Seq<i32>,
    q: Seq<Pos>,
    h: int,
    seen: Set<int>,
) -> bool {
    let n = g.width * g.height;
    &&& g.wf()
    &&& pos_in(g, start)
    &&& dist.len() == n
    &&& 0 <= h <= q.len()
    &&& dval(g, dist, start) == 0
    &&& forall|i: int| 0 <= i < n ==> dist[i] >= -1
    &&& forall|p: Pos|
        #![trigger dval(g, dist, p)]
        pos_in(g, p) && dval(g, dist, p) == 0 ==> p == start
    &&& forall|j: int|
        #![trigger q[j]]
        0 <= j < q.len() ==> pos_in(g, q[j]) && 0 <= dval(g, dist, q[j]) <= j
    &&& forall|p: Pos| #![trigger dval(g, dist, p)] pos_in(g, p) && dval(g, dist, p) >= 0 ==> queued(q, p)
    &&& forall|i: int, j: int|
        0 <= i <= j < q.len() ==> dval(g, dist, #[trigger] q[i]) <= dval(g, dist, #[trigger] q[j])
    &&& h < q.len() ==> dval(g, dist, q[q.len() - 1]) <= dval(g, dist, q[h]) + 1
    &&& forall|j: int, d: Dir|
        #![trigger g.ghost_step(q[j], d, gate_open)]
        0 <= j < h && g.ghost_step(q[j], d, gate_open) ==> 0 <= nval(g, dist, q[j], d) <= dval(
            g,
            dist,
            q[j],
        ) + 1
    &&& forall|p: Pos| #![trigger has_pred(g, gate_open, dist, p)] pos_in(g, p) && dval(g, dist, p) > 0 ==> has_pred(g, gate_open, dist, p)
    &&& seen.finite()
    &&& seen.len() == q.len()
    &&& forall|i: int| seen.contains(i) ==> 0 <= i < n && dist[i] >= 0
    &&& forall|j: int|
        0 <= j < q.len() ==> seen.contains(idx(g.width as int, (#[trigger] q[j]).x as int, q[j].y as int))
}

proof fn lemma_search_start(g: &Grid, gate_open: bool, start: Pos, dist: Seq<i32>)
    requires
        g.wf(),
        pos_in(g, start),
        dist.len() == g.width * g.height,
        forall|i: int| 0 <= i < dist.len() && i != idx(g.width as int, start.x as int, start.y as int) ==> dist[i] == -1,
        dval(g, dist, start) == 0,
    ensures
        search_inv(g, gate_open, start, dist, seq![start], 0, set![idx(g.width as int, start.x as int, start.y as int)]),
{
    reveal(search_inv);
    let q = seq![start];
    let si = idx(g.width as int, start.x as int, start.y as int);
    lemma_idx_bounds(g.width as int, g.height as int, start.x as int, start.y as int);
    assert forall|p: Pos| pos_in(g, p) && dval(g, dist, p) >= 0 implies queued(q, p) by {
        lemma_idx_bounds(g.width as int, g.height as int, p.x as int, p.y as int);
        if p != start {
            lemma_idx_unique(g, p, start);
        }
        assert(q[0] == p);
    }
    assert forall|p: Pos| pos_in(g, p) && dval(g, dist, p) == 0 implies p == start by {
        lemma_idx_bounds(g.width as int, g.height as int, p.x as int, p.y as int);
        if p != start {
            lemma_idx_unique(g, p, start);
        }
    }
    assert forall|p: Pos| #![trigger has_pred(g, gate_open, dist, p)] pos_in(g, p) && dval(g, dist, p) > 0 implies has_pred(g, gate_open, dist, p) by {
        lemma_idx_bounds(g.width as int, g.height as int, p.x as int, p.y as int);
        if p != start {
            lemma_idx_unique(g, p, start);
        }
    }
    assert(set![si].len() == 1);
}

proof fn lemma_push_found(
    g: &Grid,
    gate_open: bool,
    start: Pos,
    dist: Seq<i32>,
    q: Seq<Pos>,
    h: int,
    seen: Set<int>,
    dir: Dir,
    next: Pos,
)
    requires
        search_inv(g, gate_open, start, dist, q, h, seen),
        h < q.len(),
        g.ghost_step(q[h], dir, gate_open),
        next.x == nx(q[h], dir),
        next.y == ny(q[h], dir),
        dval(g, dist, next) == -1,
    ensures
        ({
            let nd = dist.update(idx(g.width as int, next.x as int, next.y as int), (dval(g, dist, q[h]) + 1) as i32);
            let nq = q.push(next);
            &&& forall|p: Pos| #![trigger dval(g, nd, p)] pos_in(g, p) && dval(g, nd, p) >= 0 ==> queued(nq, p)
            &&& forall|p: Pos| #![trigger has_pred(g, gate_open, nd, p)] pos_in(g, p) && dval(g, nd, p) > 0 ==> has_pred(g, gate_open, nd, p)
            &&& forall|p: Pos|
                #![trigger dval(g, nd, p)]
                pos_in(g, p) && dval(g, nd, p) == 0 ==> p == start
        }),
{
    reveal(search_inv);
    let n = g.width * g.height;
    let pos = q[h];
    let base = dval(g, dist, pos);
    let ni = idx(g.width as int, next.x as int, next.y as int);
    lemma_idx_bounds(g.width as int, g.height as int, next.x as int, next.y as int);
    lemma_idx_bounds(g.width as int, g.height as int, pos.x as int, pos.y as int);
    assert(pos_in(g, q[h]) && 0 <= dval(g, dist, q[h]) <= h);
    vstd::set_lib::lemma_int_range(0, n as int);
    vstd::set_lib::lemma_len_subset(seen, vstd::set_lib::set_int_range(0, n as int));
    assert(q.len() <= n);
    let nd = dist.update(ni, (base + 1) as i32);
    let nq = q.push(next);
    assert(dval(g, nd, pos) == base);
    assert(ghost_edge(g, gate_open, pos, next));
    assert forall|p: Pos| #![trigger dval(g, nd, p)] pos_in(g, p) && dval(g, nd, p) >= 0 implies queued(nq, p) by {
        lemma_idx_bounds(g.width as int, g.height as int, p.x as int, p.y as int);
        if p == next {
            assert(nq[q.len() as int] == p);
        } else {
            lemma_idx_unique(g, p, next);
            assert(dval(g, dist, p) >= 0);
            assert(queued(q, p));
            let j = choose|j: int| 0 <= j < q.len() && #[trigger] q[j] == p;
            assert(nq[j] == p);
        }
    }
    assert forall|p: Pos| #![trigger has_pred(g, gate_open, nd, p)] pos_in(g, p) && dval(g, nd, p) > 0 implies has_pred(g, gate_open, nd, p) by {
        lemma_idx_bounds(g.width as int, g.height as int, p.x as int, p.y as int);
        if p == next {
            assert(dval(g, nd, pos) == dval(g, nd, p) - 1);
        } else {
            lemma_idx_unique(g, p, next);
            assert(dval(g, dist, p) > 0);
            assert(has_pred(g, gate_open, dist, p));
            let r = choose|r: Pos|
                #![trigger dval(g, dist, r)]
                pos_in(g, r) && ghost_edge(g, gate_open, r, p) && dval(g, dist, r) == dval(g, dist, p) - 1;
            lemma_idx_bounds(g.width as int, g.height as int, r.x as int, r.y as int);
            assert(dval(g, nd, r) == dval(g, dist, r));
        }
    }
    assert forall|p: Pos| #![trigger dval(g, nd, p)] pos_in(g, p) && dval(g, nd, p) == 0 implies p == start by {
        lemma_idx_bounds(g.width as int, g.height as int, p.x as int, p.y as int);
        if p != next {
            lemma_idx_unique(g, p, next);
        }
    }
}

proof fn lemma_push_order(
    g: &Grid,
    gate_open: bool,
    start: Pos,
    dist: Seq<i32>,
    q: Seq<Pos>,
    h: int,
    seen: Set<int>,
    dir: Dir,
    next: Pos,
)
    requires
        search_inv(g, gate_open, start, dist, q, h, seen),
        h < q.len(),
        g.ghost_step(q[h], dir, gate_open),
        next.x == nx(q[h], dir),
        next.y == ny(q[h], dir),
        dval(g, dist, next) == -1,
    ensures
        ({
            let nd = dist.update(idx(g.width as int, next.x as int, next.y as int), (dval(g, dist, q[h]) + 1) as i32);
            let nq = q.push(next);
            &&& forall|j: int|
                #![trigger nq[j]]
                0 <= j < nq.len() ==> pos_in(g, nq[j]) && 0 <= dval(g, nd, nq[j]) <= j
            &&& forall|i: int, j: int|
                0 <= i <= j < nq.len() ==> dval(g, nd, #[trigger] nq[i]) <= dval(g, nd, #[trigger] nq[j])
            &&& dval(g, nd, nq[nq.len() - 1]) <= dval(g, nd, nq[h]) + 1
            &&& forall|j: int, d: Dir|
                #![trigger g.ghost_step(nq[j], d, gate_open)]
                0 <= j < h && g.ghost_step(nq[j], d, gate_open) ==> 0 <= nval(g, nd, nq[j], d) <= dval(
                    g,
                    nd,
                    nq[j],
                ) + 1
        }),
{
    reveal(search_inv);
    let n = g.width * g.height;
    let pos = q[h];
    let base = dval(g, dist, pos);
    let ni = idx(g.width as int, next.x as int, next.y as int);
    lemma_idx_bounds(g.width as int, g.height as int, next.x as int, next.y as int);
    lemma_idx_bounds(g.width as int, g.height as int, pos.x as int, pos.y as int);
    assert(pos_in(g, q[h]) && 0 <= dval(g, dist, q[h]) <= h);
    vstd::set_lib::lemma_int_range(0, n as int);
    vstd::set_lib::lemma_len_subset(seen, vstd::set_lib::set_int_range(0, n as int));
    assert(q.len() <= n);
    let nd = dist.update(ni, (base + 1) as i32);
    let nq = q.push(next);
    assert(dval(g, nd, pos) == base);
    assert forall|j: int| #![trigger nq[j]] 0 <= j < nq.len() implies pos_in(g, nq[j]) && 0 <= dval(g, nd, nq[j]) <= j by {
        if j < q.len() {
            lemma_idx_bounds(g.width as int, g.height as int, q[j].x as int, q[j].y as int);
            assert(q[j] == nq[j]);
            assert(dval(g, dist, q[j]) >= 0);
        }
    }
    assert forall|i: int, j: int| 0 <= i <= j < nq.len() implies dval(g, nd, #[trigger] nq[i]) <= dval(
        g,
        nd,
        #[trigger] nq[j],
    ) by {
        if j < q.len() {
            assert(q[j] == nq[j]);
            assert(q[i] == nq[i]);
            assert(dval(g, dist, q[j]) >= 0);
            assert(dval(g, dist, q[i]) >= 0);
        } else if i < q.len() {
            assert(q[i] == nq[i]);
            assert(dval(g, dist, q[i]) >= 0);
            assert(dval(g, dist, q[i]) <= dval(g, dist, q[q.len() - 1]));
            assert(dval(g, dist, q[q.len() - 1]) >= 0);
        }
    }
    assert(dval(g, nd, nq[nq.len() - 1]) <= dval(g, nd, nq[h]) + 1) by {
        assert(nq[h] == pos);
        assert(dval(g, nd, pos) == base);
    }
    assert forall|j: int, d: Dir|
        #![trigger g.ghost_step(nq[j], d, gate_open)]
        0 <= j < h && g.ghost_step(nq[j], d, gate_open) implies 0 <= nval(g, nd, nq[j], d) <= dval(
            g,
            nd,
            nq[j],
        ) + 1 by {
        assert(q[j] == nq[j]);
        assert(g.ghost_step(q[j], d, gate_open));
        lemma_idx_bounds(g.width as int, g.height as int, q[j].x as int, q[j].y as int);
        lemma_idx_bounds(g.width as int, g.height as int, nx(q[j], d), ny(q[j], d));
        assert(dval(g, dist, q[j]) >= 0);
        assert(nval(g, dist, q[j], d) >= 0);
    }
}

#[verifier::rlimit(40)]
proof fn lemma_search_push(
    g: &Grid,
    gate_open: bool,
    start: Pos,
    dist: Seq<i32>,
    q: Seq<Pos>,
    h: int,
    seen: Set<int>,
    dir: Dir,
    next: Pos,
)
    requires
        search_inv(g, gate_open, start, dist, q, h, seen),
        h < q.len(),
        g.ghost_step(q[h], dir, gate_open),
        next.x == nx(q[h], dir),
        next.y == ny(q[h], dir),
        dval(g, dist, next) == -1,
    ensures
        search_inv(
            g,
            gate_open,
            start,
            dist.update(idx(g.width as int, next.x as int, next.y as int), (dval(g, dist, q[h]) + 1) as i32),
            q.push(next),
            h,
            seen.insert(idx(g.width as int, next.x as int, next.y as int)),
        ),
        dval(g, dist, q[h]) + 1 <= i32::MAX,
        dval(g, dist, q[h]) >= 0,
{
    lemma_push_found(g, gate_open, start, dist, q, h, seen, dir, next);
    lemma_push_order(g, gate_open, start, dist, q, h, seen, dir, next);
    reveal(search_inv);
    let n = g.width * g.height;
    let pos = q[h];
    let base = dval(g, dist, pos);
    let ni = idx(g.width as int, next.x as int, next.y as int);
    lemma_idx_bounds(g.width as int, g.height as int, next.x as int, next.y as int);
    lemma_idx_bounds(g.width as int, g.height as int, pos.x as int, pos.y as int);
    assert(pos_in(g, q[h]) && 0 <= dval(g, dist, q[h]) <= h);
    vstd::set_lib::lemma_int_range(0, n as int);
    vstd::set_lib::lemma_len_subset(seen, vstd::set_lib::set_int_range(0, n as int));
    assert(q.len() <= n);
    let nd = dist.update(ni, (base + 1) as i32);
    let nq = q.push(next);
    assert(dval(g, nd, pos) == base);
    let ns = seen.insert(ni);
    vstd::set_lib::lemma_int_range(0, n as int);
    vstd::set_lib::lemma_len_subset(seen, vstd::set_lib::set_int_range(0, n as int));
    assert(!seen.contains(ni));
    assert(ns <= vstd::set_lib::set_int_range(0, n as int));
    vstd::set_lib::lemma_len_subset(ns, vstd::set_lib::set_int_range(0, n as int));
    assert forall|j: int| 0 <= j < nq.len() implies ns.contains(
        idx(g.width as int, (#[trigger] nq[j]).x as int, nq[j].y as int),
    ) by {
        if j < q.len() {
            assert(q[j] == nq[j]);
        }
    }
    assert(base <= h);
    assert(q.len() <= n);
}

proof fn lemma_search_expanded(g: &Grid, gate_open: bool, start: Pos, dist: Seq<i32>, q: Seq<Pos>, h: int, seen: Set<int>)
    requires
        search_inv(g, gate_open, start, dist, q, h, seen),
        h < q.len(),
        forall|d: Dir| #[trigger] g.ghost_step(q[h], d, gate_open) ==> 0 <= nval(g, dist, q[h], d) <= dval(g, dist, q[h]) + 1,
    ensures
        search_inv(g, gate_open, start, dist, q, h + 1, seen),
{
    reveal(search_inv);
    if h + 1 < q.len() {
        assert(dval(g, dist, q[h]) <= dval(g, dist, q[h + 1]));
    }
}

proof fn lemma_search_done(g: &Grid, gate_open: bool, start: Pos, dist: Seq<i32>, q: Seq<Pos>, seen: Set<int>)
    requires
        search_inv(g, gate_open, start, dist, q, q.len() as int, seen),
    ensures
        is_field(g, gate_open, start, dist),
{
    reveal(search_inv);
    assert forall|p: Pos, d: Dir|
        #![trigger g.ghost_step(p, d, gate_open), dval(g, dist, p)]
        pos_in(g, p) && dval(g, dist, p) >= 0 && g.ghost_step(p, d, gate_open) implies 0 <= nval(g, dist, p, d)
            <= dval(g, dist, p) + 1 by {
        assert(queued(q, p));
        let j = choose|j: int| 0 <= j < q.len() && #[trigger] q[j] == p;
        assert(g.ghost_step(q[j], d, gate_open));
    }
    assert forall|p: Pos| #![trigger dval(g, dist, p)] pos_in(g, p) implies dval(g, dist, p) >= -1 by {
        lemma_idx_bounds(g.width as int, g.height as int, p.x as int, p.y as int);
    }
}

proof fn lemma_search_bound(g: &Grid, gate_open: bool, start: Pos, dist: Seq<i32>, q: Seq<Pos>, h: int, seen: Set<int>)
    requires
        search_inv(g, gate_open, start, dist, q, h, seen),
    ensures
        q.len() <= g.width * g.height,
        dist.len() == g.width * g.height,
        h <= q.len(),
        h < q.len() ==> pos_in(g, q[h]) && dval(g, dist, q[h]) >= 0,
        g.wf(),
{
    reveal(search_inv);
    let n = g.width * g.height;
    vstd::set_lib::lemma_int_range(0, n as int);
    vstd::set_lib::lemma_len_subset(seen, vstd::set_lib::set_int_range(0, n as int));
}

proof fn lemma_search_known(g: &Grid, gate_open: bool, start: Pos, dist: Seq<i32>, q: Seq<Pos>, h: int, seen: Set<int>, p: Pos)
    requires
        search_inv(g, gate_open, start, dist, q, h, seen),
        h < q.len(),
        pos_in(g, p),
    ensures
        dval(g, dist, p) >= -1,
        dval(g, dist, p) >= 0 ==> dval(g, dist, p) <= dval(g, dist, q[h]) + 1,
{
    reveal(search_inv);
    lemma_idx_bounds(g.width as int, g.height as int, p.x as int, p.y as int);
    if dval(g, dist, p) >= 0 {
        assert(queued(q, p));
        let j = choose|j: int| 0 <= j < q.len() && #[trigger] q[j] == p;
        assert(dval(g, dist, q[j]) <= dval(g, dist, q[q.len() - 1]));
    }
}

/// Breadth-first step distances from `start` to every tile reachable with
/// ghost moves under `gate_open`; unreachable tiles hold `-1`. The result is
/// row-major like the grid.
pub fn bfs_distance(grid: &Grid, start: Pos, gate_open: bool) -> (dist: Vec<i32>)
    requires
        grid.wf(),
        pos_in(grid, start),
    ensures
        is_field(grid, gate_open, start, dist@),
{
    let n: usize = grid.width * grid.height;
    let mut dist: Vec<i32> = Vec::new();
    while dist.len() < n
        invariant
            dist.len() <= n,
            forall|i: int| 0 <= i < dist.len() ==> dist@[i] == -1,
        decreases n - dist.len(),
    {
        dist.push(-1);
    }
    proof {
        lemma_idx_bounds(grid.width as int, grid.height as int, start.x as int, start.y as int);
    }
    let si: usize = start.y * grid.width + start.x;
    dist.set(si, 0);
    let mut q: Vec<Pos> = Vec::new();
    q.push(start);
    let ghost mut seen: Set<int> = set![si as int];
    let mut h: usize = 0;
    proof {
        assert(q@ == seq![start]);
        lemma_search_start(grid, gate_open, start, dist@);
    }
    while h < q.len()
        invariant
            grid.wf(),
            n == grid.width * grid.height,
            h <= q.len(),
            search_inv(grid, gate_open, start, dist@, q@, h as int, seen),
        decreases n - h,
    {
        proof {
            lemma_search_bound(grid, gate_open, start, dist@, q@, h as int, seen);
        }
        let pos = q[h];
        proof {
            lemma_idx_bounds(grid.width as int, grid.height as int, pos.x as int, pos.y as int);
        }
        let base = dist[pos.y * grid.width + pos.x];
        let mut k: usize = 0;
        while k < 4
            invariant
                0 <= k <= 4,
                grid.wf(),
                n == grid.width * grid.height,
                h < q.len(),
                pos == q@[h as int],
                base == dval(grid, dist@, pos),
                search_inv(grid, gate_open, start, dist@, q@, h as int, seen),
                forall|m: int|
                    0 <= m < k && grid.ghost_step(pos, #[trigger] dir_at(m), gate_open) ==> 0 <= nval(
                        grid,
                        dist@,
                        pos,
                        dir_at(m),
                    ) <= base + 1,
            decreases 4 - k,
        {
            let dir = dir_of(k);
            proof {
                lemma_search_bound(grid, gate_open, start, dist@, q@, h as int, seen);
            }
            if can_move_ghost(grid, pos, dir, gate_open) {
                let next = step(pos, dir);
                proof {
                    lemma_idx_bounds(grid.width as int, grid.height as int, next.x as int, next.y as int);
                }
                let ni: usize = next.y * grid.width + next.x;
                proof {
                    lemma_search_known(grid, gate_open, start, dist@, q@, h as int, seen, next);
                }
                if dist[ni] == -1 {
                    proof {
                        lemma_search_push(grid, gate_open, start, dist@, q@, h as int, seen, dir, next);
                    }
                    let ghost old_dist = dist@;
                    assert(old_dist[ni as int] == -1);
                    proof {
                        lemma_idx_bounds(grid.width as int, grid.height as int, pos.x as int, pos.y as int);
                    }
                    dist.set(ni, base + 1);
                    q.push(next);
                    proof {
                        seen = seen.insert(ni as int);
                        assert forall|m: int|
                            0 <= m <= k && grid.ghost_step(pos, #[trigger] dir_at(m), gate_open) implies 0 <= nval(
                                grid,
                                dist@,
                                pos,
                                dir_at(m),
                            ) <= base + 1 by {
                            if m < k {
                                lemma_idx_bounds(grid.width as int, grid.height as int, nx(pos, dir_at(m)), ny(pos, dir_at(m)));
                                assert(nval(grid, old_dist, pos, dir_at(m)) >= 0);
                                assert(old_dist[idx(grid.width as int, nx(pos, dir_at(m)), ny(pos, dir_at(m)))] >= 0);
                            }
                        }
                    }
                }
            }
            k = k + 1;
        }
        proof {
            assert forall|d: Dir| #[trigger] grid.ghost_step(q@[h as int], d, gate_open) implies 0 <= nval(grid, dist@, q@[h as int], d)
                <= dval(grid, dist@, q@[h as int]) + 1 by {
                lemma_dir_at_covers(d);
                let m = choose|m: int| 0 <= m < 4 && dir_at(m) == d;
                assert(grid.ghost_step(pos, dir_at(m), gate_open));
            }
            lemma_search_expanded(grid, gate_open, start, dist@, q@, h as int, seen);
        }
        h = h + 1;
    }
    proof {
        lemma_search_done(grid, gate_open, start, dist@, q@, seen);
    }
    dist
}

/// Along a walk from the source, the field never exceeds the number of steps.
proof fn lemma_walk_bound(g: &Grid, gate_open: bool, src: Pos, dist: Seq<i32>, path: Seq<Pos>, i: int)
    requires
        g.wf(),
        is_field(g, gate_open, src, dist),
        is_walk(g, gate_open, path),
        path[0] == src,
        0 <= i < path.len(),
    ensures
        pos_in(g, path[i]),
        0 <= dval(g, dist, path[i]) <= i,
    decreases i,
{
    if i > 0 {
        lemma_walk_bound(g, gate_open, src, dist, path, i - 1);
        let a = path[i - 1];
        assert(ghost_edge(g, gate_open, a, path[i]));
        let d = choose|d: Dir| #[trigger] g.ghost_step(a, d, gate_open) && path[i].x == nx(a, d) && path[i].y == ny(a, d);
        assert(0 <= nval(g, dist, a, d) <= dval(g, dist, a) + 1);
    }
}

/// A walk from the source whose length is the field value of `p`.
proof fn lemma_walk_to(g: &Grid, gate_open: bool, src: Pos, dist: Seq<i32>, p: Pos) -> (path: Seq<Pos>)
    requires
        g.wf(),
        is_field(g, gate_open, src, dist),
        pos_in(g, p),
        dval(g, dist, p) >= 0,
    ensures
        is_walk(g, gate_open, path),
        path.len() == dval(g, dist, p) + 1,
        path[0] == src,
        path[path.len() - 1] == p,
    decreases dval(g, dist, p),
{
    if dval(g, dist, p) == 0 {
        seq![p]
    } else {
        assert(has_pred(g, gate_open, dist, p));
        let r = choose|r: Pos|
            #![trigger dval(g, dist, r)]
            pos_in(g, r) && ghost_edge(g, gate_open, r, p) && dval(g, dist, r) == dval(g, dist, p) - 1;
        let prefix = lemma_walk_to(g, gate_open, src, dist, r);
        let path = prefix.push(p);
        assert forall|i: int| 0 <= i < path.len() - 1 implies ghost_edge(g, gate_open, #[trigger] path[i], path[i + 1]) by {
            if i < prefix.len() - 1 {
                assert(path[i] == prefix[i] && path[i + 1] == prefix[i + 1]);
                assert(ghost_edge(g, gate_open, prefix[i], prefix[i + 1]));
            } else {
                assert(path[i] == r && path[i + 1] == p);
            }
        }
        assert(path[0] == prefix[0]);
        path
    }
}

/// A path field holds, for every tile, the length of a shortest legal ghost
/// walk from its source (zero at the source itself), and `-1` exactly on the
/// tiles that no walk reaches.
pub proof fn lemma_field_exact(g: &Grid, gate_open: bool, src: Pos, dist: Seq<i32>, p: Pos)
    requires
        g.wf(),
        is_field(g, gate_open, src, dist),
        pos_in(g, p),
    ensures
        dval(g, dist, src) == 0,
        dval(g, dist, p) >= 0 ==> reaches_in(g, gate_open, src, p, dval(g, dist, p) as nat),
        forall|n: nat| #[trigger] reaches_in(g, gate_open, src, p, n) ==> dval(g, dist, p) <= n,
        dval(g, dist, p) == -1 <==> forall|n: nat| !#[trigger] reaches_in(g, gate_open, src, p, n),
{
    assert(dval(g, dist, p) >= -1);
    assert forall|n: nat| #[trigger] reaches_in(g, gate_open, src, p, n) implies 0 <= dval(g, dist, p) <= n by {
        let path = choose|path: Seq<Pos>|
            #![trigger is_walk(g, gate_open, path), path.len()]
            is_walk(g, gate_open, path) && path.len() == n + 1 && path[0] == src && path[n as int] == p;
        lemma_walk_bound(g, gate_open, src, dist, path, n as int);
    }
    if dval(g, dist, p) >= 0 {
        let path = lemma_walk_to(g, gate_open, src, dist, p);
        assert(is_walk(g, gate_open, path) && path.len() == dval(g, dist, p) + 1);
        assert(reaches_in(g, gate_open, src, p, dval(g, dist, p) as nat));
    }
}

/// Two path fields of one grid, gate mode and source agree on every tile:
/// recomputing on an unchanged grid never gives a tile another value.
pub proof fn lemma_field_unique(g: &Grid, gate_open: bool, src: Pos, d1: Seq<i32>, d2: Seq<i32>, p: Pos)
    requires
        g.wf(),
        is_field(g, gate_open, src, d1),
        is_field(g, gate_open, src, d2),
        pos_in(g, p),
    ensures
        dval(g, d1, p) == dval(g, d2, p),
{
    lemma_field_exact(g, gate_open, src, d1, p);
    lemma_field_exact(g, gate_open, src, d2, p);
    if dval(g, d1, p) >= 0 {
        assert(reaches_in(g, gate_open, src, p, dval(g, d1, p) as nat));
    }
    if dval(g, d2, p) >= 0 {
        assert(reaches_in(g, gate_open, src, p, dval(g, d2, p) as nat));
    }
}

/// Distinct tiles of a grid have distinct row-major indices.
pub proof fn lemma_idx_unique(g: &Grid, a: Pos, b: Pos)
    requires
        pos_in(g, a),
        pos_in(g, b),
        a != b,
    ensures
        idx(g.width as int, a.x as int, a.y as int) != idx(g.width as int, b.x as int, b.y as int),
{
    let w = g.width as int;
    let (ax, ay, bx, by) = (a.x as int, a.y as int, b.x as int, b.y as int);
    if ay == by {
        assert(ax != bx);
    } else if ay < by {
        assert(ay * w + w <= by * w) by (nonlinear_arith)
            requires
                ay < by,
                0 <= w,
        ;
    } else {
        assert(by * w + w <= ay * w) by (nonlinear_arith)
            requires
                by < ay,
                0 <= w,
        ;
    }
}

} // verus!
