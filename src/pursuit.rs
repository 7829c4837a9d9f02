//! Ghost decisions: a caged ghost wanders inside the pen, a released ghost
//! steps greedily down the path field.
use crate::field::{dval, ghost_edge, has_pred, is_field, nval, pos_in};
use crate::grid::{
    can_move_ghost, dir_at, dir_of, ghost_passable, idx, lemma_dir_at_covers, lemma_idx_bounds,
    nx, ny, step, Dir, Grid, Pos,
};
use crate::pen::{in_pen_interior, PenBounds};
use crate::random::choose_one;
use vstd::prelude::*;

verus! {

/// A legal ghost step from `pos` in `d` that lands on a tile the field reaches.
pub open spec fn finite_step(g: &Grid, gate_open: bool, dist: Seq<i32>, pos: Pos, d: Dir) -> bool {
    g.ghost_step(pos, d, gate_open) && nval(g, dist, pos, d) >= 0
}

/// `d` is a step a chasing ghost at `pos` may take: legal, onto a reached tile,
/// and no other such step lands on a smaller field value.
pub open spec fn chase_choice(g: &Grid, gate_open: bool, dist: Seq<i32>, pos: Pos, d: Dir) -> bool {
    &&& finite_step(g, gate_open, dist, pos, d)
    &&& forall|e: Dir|
        #[trigger] finite_step(g, gate_open, dist, pos, e) ==> nval(g, dist, pos, d) <= nval(
            g,
            dist,
            pos,
            e,
        )
}

/// `d` is a step a caged ghost at `pos` may take: legal with Gate tiles closed
/// and onto a tile strictly inside the pen.
pub open spec fn pen_choice(g: &Grid, pen: PenBounds, pos: Pos, d: Dir) -> bool {
    g.ghost_step(pos, d, false) && pen.interior(nx(pos, d), ny(pos, d))
}

/// The chase decision: a uniformly random direction among the legal steps
/// whose tile has the smallest reached field value, or `None` when no legal
/// step reaches a tile of the field.
pub fn ghost_next_dir(
    pos: Pos,
    grid: &Grid,
    dist: &Vec<i32>,
    rng: &mut rand::rngs::StdRng,
    gate_open: bool,
) -> (r: Option<Dir>)
    requires
        grid.wf(),
        dist@.len() == grid.width * grid.height,
    ensures
        r is None <==> forall|d: Dir| !#[trigger] finite_step(grid, gate_open, dist@, pos, d),
        r matches Some(d) ==> chase_choice(grid, gate_open, dist@, pos, d),
{
    let mut options: Vec<Dir> = Vec::new();
    let mut best: i32 = i32::MAX;
    let mut k: usize = 0;
    while k < 4
        invariant
            k <= 4,
            grid.wf(),
            dist@.len() == grid.width * grid.height,
            forall|m: int|
                0 <= m < k && finite_step(grid, gate_open, dist@, pos, #[trigger] dir_at(m))
                    ==> best <= nval(grid, dist@, pos, dir_at(m)),
            forall|i: int|
                0 <= i < options.len() ==> finite_step(grid, gate_open, dist@, pos, #[trigger] options@[i])
                    && nval(grid, dist@, pos, options@[i]) == best,
            best < i32::MAX ==> options.len() > 0,
            options.len() == 0 ==> forall|m: int|
                0 <= m < k ==> !finite_step(grid, gate_open, dist@, pos, #[trigger] dir_at(m)),
        decreases 4 - k,
    {
        let dir = dir_of(k);
        if can_move_ghost(grid, pos, dir, gate_open) {
            let next = step(pos, dir);
            proof {
                lemma_idx_bounds(grid.width as int, grid.height as int, next.x as int, next.y as int);
            }
            let d = dist[next.y * grid.width + next.x];
            if d >= 0 && d < best {
                best = d;
                options.clear();
                options.push(dir);
            } else if d >= 0 && d == best {
                options.push(dir);
            }
        }
        k = k + 1;
    }
    proof {
        assert forall|d: Dir| #[trigger] finite_step(grid, gate_open, dist@, pos, d) implies best <= nval(grid, dist@, pos, d) && options.len() > 0 by {
            lemma_dir_at_covers(d);
            let m = choose|m: int| 0 <= m < 4 && dir_at(m) == d;
            assert(finite_step(grid, gate_open, dist@, pos, dir_at(m)));
        }
    }
    let r = choose_one(rng, &options);
    proof {
        if let Some(d) = r {
            let i = choose|i: int| 0 <= i < options.len() && options@[i] == d;
            assert(finite_step(grid, gate_open, dist@, pos, options@[i]));
        }
    }
    r
}

/// The caged decision: a uniformly random legal step (gate closed) onto a
/// tile strictly inside the pen, or `None` when there is none.
pub fn ghost_next_dir_pen(pos: Pos, grid: &Grid, pen: &PenBounds, rng: &mut rand::rngs::StdRng) -> (r:
    Option<Dir>)
    requires
        grid.wf(),
    ensures
        r is None <==> forall|d: Dir| !#[trigger] pen_choice(grid, *pen, pos, d),
        r matches Some(d) ==> pen_choice(grid, *pen, pos, d),
{
    let mut options: Vec<Dir> = Vec::new();
    let mut k: usize = 0;
    while k < 4
        invariant
            k <= 4,
            grid.wf(),
            forall|i: int| 0 <= i < options.len() ==> pen_choice(grid, *pen, pos, #[trigger] options@[i]),
            forall|m: int| 0 <= m < k && pen_choice(grid, *pen, pos, #[trigger] dir_at(m)) ==> options@.contains(dir_at(m)),
        decreases 4 - k,
    {
        let dir = dir_of(k);
        if can_move_ghost(grid, pos, dir, false) {
            let next = step(pos, dir);
            if in_pen_interior(next, pen) {
                let ghost before = options@;
                options.push(dir);
                proof {
                    assert(options@[options.len() - 1] == dir);
                    assert forall|m: int| 0 <= m < k && pen_choice(grid, *pen, pos, #[trigger] dir_at(m)) implies options@.contains(dir_at(m)) by {
                        let i = choose|i: int| 0 <= i < before.len() && before[i] == dir_at(m);
                        assert(options@[i] == dir_at(m));
                    }
                }
            }
        }
        k = k + 1;
    }
    proof {
        assert forall|d: Dir| #[trigger] pen_choice(grid, *pen, pos, d) implies options@.contains(d) by {
            lemma_dir_at_covers(d);
            let m = choose|m: int| 0 <= m < 4 && dir_at(m) == d;
            assert(pen_choice(grid, *pen, pos, dir_at(m)));
        }
    }
    let r = choose_one(rng, &options);
    proof {
        if let Some(d) = r {
            let i = choose|i: int| 0 <= i < options.len() && options@[i] == d;
            assert(pen_choice(grid, *pen, pos, options@[i]));
        }
    }
    r
}

/// The reverse direction.
pub open spec fn opposite(d: Dir) -> Dir {
    match d {
        Dir::Up => Dir::Down,
        Dir::Down => Dir::Up,
        Dir::Left => Dir::Right,
        Dir::Right => Dir::Left,
    }
}

/// A tile the field reaches, other than the source, can be entered by a legal
/// step, so its own tile is passable.
proof fn lemma_reached_passable(g: &Grid, gate_open: bool, src: Pos, dist: Seq<i32>, p: Pos)
    requires
        g.wf(),
        is_field(g, gate_open, src, dist),
        pos_in(g, p),
        dval(g, dist, p) >= 0,
        ghost_passable(g.at(src.x as int, src.y as int), gate_open),
    ensures
        ghost_passable(g.at(p.x as int, p.y as int), gate_open),
{
    if dval(g, dist, p) > 0 {
        assert(has_pred(g, gate_open, dist, p));
        let r = choose|r: Pos|
            #![trigger dval(g, dist, r)]
            pos_in(g, r) && ghost_edge(g, gate_open, r, p) && dval(g, dist, r) == dval(g, dist, p) - 1;
        let d = choose|d: Dir| #[trigger] g.ghost_step(r, d, gate_open) && p.x == nx(r, d) && p.y == ny(r, d);
    }
}

/// Monotonic progress of the chase: when the ghost's tile is passable, is not
/// the field's source, and some legal step reaches a tile of the field, the
/// chosen step lands on a field value one below that of the ghost's tile
/// (the source tile itself must be passable, as the player's tile is).
pub proof fn lemma_chase_progress(g: &Grid, gate_open: bool, src: Pos, dist: Seq<i32>, pos: Pos, d: Dir)
    requires
        g.wf(),
        is_field(g, gate_open, src, dist),
        ghost_passable(g.at(src.x as int, src.y as int), gate_open),
        pos_in(g, pos),
        ghost_passable(g.at(pos.x as int, pos.y as int), gate_open),
        dval(g, dist, pos) != 0,
        chase_choice(g, gate_open, dist, pos, d),
    ensures
        nval(g, dist, pos, d) <= dval(g, dist, pos),
        nval(g, dist, pos, d) == dval(g, dist, pos) - 1,
{
    let v = dval(g, dist, pos);
    let nb = Pos { x: nx(pos, d) as usize, y: ny(pos, d) as usize };
    assert(g.ghost_step(nb, opposite(d), gate_open));
    assert(dval(g, dist, nb) == nval(g, dist, pos, d));
    assert(pos_in(g, nb));
    assert(0 <= nval(g, dist, nb, opposite(d)) <= dval(g, dist, nb) + 1);
    assert(v >= 0);
    assert(has_pred(g, gate_open, dist, pos));
    let r = choose|r: Pos|
        #![trigger dval(g, dist, r)]
        pos_in(g, r) && ghost_edge(g, gate_open, r, pos) && dval(g, dist, r) == v - 1;
    let e = choose|e: Dir| #[trigger] g.ghost_step(r, e, gate_open) && pos.x == nx(r, e) && pos.y == ny(r, e);
    lemma_reached_passable(g, gate_open, src, dist, r);
    assert(g.ghost_step(pos, opposite(e), gate_open));
    assert(nval(g, dist, pos, opposite(e)) == dval(g, dist, r));
    assert(finite_step(g, gate_open, dist, pos, opposite(e)));
}

} // verus!
