//! The fixed 20 x 20 level of the sprite-based variant: cell codes 0 empty,
//! 1 pellet, 2 power pellet, 3 wall.
use vstd::prelude::*;

verus! {

/// Side of the fixed level.
pub const LEVEL_SIZE: usize = 20;

/// The fixed level: its cells by row, and where the player and the four
/// ghosts start, as `(column, row)`.
#[derive(Clone, Copy)]
pub struct LevelData {
    pub grid: [[i32; 20]; 20],
    pub player_start: (usize, usize),
    pub ghost_starts: [(usize, usize); 4],
}

/// The code of cell `(x, y)` of the fixed level.
pub open spec fn level_cell(x: int, y: int) -> i32 {
    if x == 0 || y == 0 || x == 19 || y == 19 {
        3
    } else if (y == 5 || y == 10 || y == 15) && 5 <= x < 15 {
        3
    } else if (x == 5 || x == 14) && 6 <= y < 10 {
        3
    } else if (y == 8 || y == 12) && 9 <= x < 12 {
        3
    } else if (x == 8 || x == 12) && 9 <= y <= 11 {
        3
    } else if (x == 1 || x == 18) && (y == 1 || y == 18) {
        2
    } else {
        1
    }
}

fn cell_code(x: usize, y: usize) -> (r: i32)
    ensures
        r == level_cell(x as int, y as int),
{
    if x == 0 || y == 0 || x == 19 || y == 19 {
        3
    } else if (y == 5 || y == 10 || y == 15) && 5 <= x && x < 15 {
        3
    } else if (x == 5 || x == 14) && 6 <= y && y < 10 {
        3
    } else if (y == 8 || y == 12) && 9 <= x && x < 12 {
        3
    } else if (x == 8 || x == 12) && 9 <= y && y <= 11 {
        3
    } else if (x == 1 || x == 18) && (y == 1 || y == 18) {
        2
    } else {
        1
    }
}

/// Builds the fixed level: an outer wall, three room walls, the pen walls,
/// pellets everywhere else and power pellets in the four corners.
pub fn create_level() -> (l: LevelData)
    ensures
        forall|x: int, y: int| 0 <= x < 20 && 0 <= y < 20 ==> #[trigger] l.grid@[y]@[x] == level_cell(x, y),
        l.player_start == (10usize, 15usize),
        l.ghost_starts@ == seq![(9usize, 9usize), (10usize, 9usize), (10usize, 10usize), (11usize, 10usize)],
{
    let mut grid: [[i32; 20]; 20] = [[0i32; 20]; 20];
    let mut y: usize = 0;
    while y < LEVEL_SIZE
        invariant
            y <= 20,
            forall|a: int, b: int| 0 <= a < 20 && 0 <= b < y ==> #[trigger] grid@[b]@[a] == level_cell(a, b),
        decreases 20 - y,
    {
        let mut row: [i32; 20] = [0i32; 20];
        let mut x: usize = 0;
        while x < LEVEL_SIZE
            invariant
                x <= 20,
                y < 20,
                forall|a: int| 0 <= a < x ==> #[trigger] row@[a] == level_cell(a, y as int),
            decreases 20 - x,
        {
            row[x] = cell_code(x, y);
            x = x + 1;
        }
        grid[y] = row;
        y = y + 1;
    }
    LevelData {
        grid,
        player_start: (10, 15),
        ghost_starts: [(9, 9), (10, 9), (10, 10), (11, 10)],
    }
}

/// Whether a cell code is a pellet or a power pellet.
pub open spec fn is_pellet_code(c: i32) -> bool {
    c == 1 || c == 2
}

/// The number of pellet codes in `row`.
pub open spec fn row_pellets(row: Seq<i32>) -> nat
    decreases row.len(),
{
    if row.len() == 0 {
        0
    } else {
        row_pellets(row.drop_last()) + if is_pellet_code(row.last()) { 1nat } else { 0nat }
    }
}

/// The number of pellet codes in the rows of `rows`.
pub open spec fn grid_pellets(rows: Seq<[i32; 20]>) -> nat
    decreases rows.len(),
{
    if rows.len() == 0 {
        0
    } else {
        grid_pellets(rows.drop_last()) + row_pellets(rows.last()@)
    }
}

proof fn lemma_row_pellets_bound(row: Seq<i32>)
    ensures
        row_pellets(row) <= row.len(),
    decreases row.len(),
{
    if row.len() > 0 {
        lemma_row_pellets_bound(row.drop_last());
    }
}

proof fn lemma_grid_pellets_bound(rows: Seq<[i32; 20]>)
    ensures
        grid_pellets(rows) <= 20 * rows.len(),
    decreases rows.len(),
{
    if rows.len() > 0 {
        lemma_grid_pellets_bound(rows.drop_last());
        lemma_row_pellets_bound(rows.last()@);
    }
}

/// The number of pellets and power pellets in the level.
pub fn count_pellets(level_data: &LevelData) -> (r: usize)
    ensures
        r == grid_pellets(level_data.grid@),
{
    let mut total: usize = 0;
    let mut y: usize = 0;
    while y < LEVEL_SIZE
        invariant
            y <= 20,
            total <= 20 * y,
            total == grid_pellets(level_data.grid@.take(y as int)),
        decreases 20 - y,
    {
        let row = level_data.grid[y];
        let mut in_row: usize = 0;
        let mut x: usize = 0;
        while x < LEVEL_SIZE
            invariant
                x <= 20,
                y < 20,
                row == level_data.grid@[y as int],
                in_row == row_pellets(row@.take(x as int)),
                in_row <= x,
                total <= 20 * y,
                total == grid_pellets(level_data.grid@.take(y as int)),
            decreases 20 - x,
        {
            proof {
                assert(row@.take(x + 1).drop_last() =~= row@.take(x as int));
                lemma_row_pellets_bound(row@.take(x as int));
            }
            if row[x] == 1 || row[x] == 2 {
                in_row = in_row + 1;
            }
            x = x + 1;
        }
        proof {
            assert(row@.take(20) =~= row@);
            assert(level_data.grid@.take(y + 1).drop_last() =~= level_data.grid@.take(y as int));
            lemma_grid_pellets_bound(level_data.grid@.take(y as int));
        }
        total = total + in_row;
        y = y + 1;
    }
    proof {
        assert(level_data.grid@.take(20) =~= level_data.grid@);
    }
    total
}

} // verus!
