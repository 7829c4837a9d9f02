//! What a renderer shows on each tile.
use crate::field::pos_in;
use crate::game::Game;
use crate::grid::{Pos, Tile};
use vstd::prelude::*;

verus! {

/// What is drawn on one tile.
#[derive(Clone, Copy, Debug, PartialEq, Eq, Structural)]
pub enum Glyph {
    Player,
    /// A ghost while no power is left.
    Pursuer,
    /// A ghost while the power countdown runs.
    Frightened,
    Wall,
    Empty,
    Pellet,
    Power,
    Gate,
    Bonus,
}

/// The glyph of bare terrain.
pub open spec fn tile_glyph(t: Tile) -> Glyph {
    match t {
        Tile::Wall => Glyph::Wall,
        Tile::Gate => Glyph::Gate,
        Tile::Empty => Glyph::Empty,
        Tile::Pellet => Glyph::Pellet,
        Tile::Power => Glyph::Power,
    }
}

/// The glyph of tile `p`: the player above all, then a ghost (frightened
/// while power is left), then the bonus item, then the terrain.
pub open spec fn glyph_of(g: &Game, p: Pos) -> Glyph {
    if p == g.player {
        Glyph::Player
    } else if g.ghosts@.contains(p) {
        if g.power_timer > 0 { Glyph::Frightened } else { Glyph::Pursuer }
    } else if g.bonus_pos == Some(p) {
        Glyph::Bonus
    } else {
        tile_glyph(g.grid.at(p.x as int, p.y as int))
    }
}

/// The glyph to draw on tile `pos`.
pub fn cell_for(game: &Game, pos: Pos) -> (r: Glyph)
    requires
        game.wf(),
        pos_in(&game.grid, pos),
    ensures
        r == glyph_of(game, pos),
{
    if pos == game.player {
        return Glyph::Player;
    }
    let mut k: usize = 0;
    while k < game.ghosts.len()
        invariant
            k <= game.ghosts@.len(),
            pos != game.player,
            forall|j: int| 0 <= j < k ==> game.ghosts@[j] != pos,
        decreases game.ghosts@.len() - k,
    {
        if game.ghosts[k] == pos {
            proof {
                assert(game.ghosts@[k as int] == pos);
                assert(game.ghosts@.contains(pos));
            }
            if game.power_timer > 0 {
                return Glyph::Frightened;
            }
            return Glyph::Pursuer;
        }
        k = k + 1;
    }
    proof {
        assert(!game.ghosts@.contains(pos));
    }
    if let Some(b) = game.bonus_pos {
        if b == pos {
            return Glyph::Bonus;
        }
    }
    match game.grid.get(pos.x, pos.y) {
        Tile::Wall => Glyph::Wall,
        Tile::Gate => Glyph::Gate,
        Tile::Empty => Glyph::Empty,
        Tile::Pellet => Glyph::Pellet,
        Tile::Power => Glyph::Power,
    }
}

} // verus!
