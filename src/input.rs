//! Which direction the player is holding, from how long ago each key was
//! last seen.
use crate::grid::{dir_at, dir_of, Dir};
use vstd::prelude::*;

verus! {

/// How long, in nanoseconds, a key counts as held after it was last seen.
pub const INPUT_HOLD_NS: u64 = 160_000_000;

/// The slot of `dir` in a per-direction table: up, down, left, right.
pub fn idx_for_dir(dir: Dir) -> (r: usize)
    ensures
        r < 4,
        dir_at(r as int) == dir,
{
    match dir {
        Dir::Up => 0,
        Dir::Down => 1,
        Dir::Left => 2,
        Dir::Right => 3,
    }
}

/// The key of slot `k` was seen within the hold window.
pub open spec fn held(ages: Seq<Option<u64>>, k: int) -> bool {
    ages[k] matches Some(a) && a <= INPUT_HOLD_NS
}

/// The time since the key of slot `k` was seen, when it was.
pub open spec fn age(ages: Seq<Option<u64>>, k: int) -> u64 {
    ages[k]->Some_0
}

/// Slot `k` is held and seen most recently of all held slots, the first in
/// slot order among equally recent ones.
pub open spec fn most_recent(ages: Seq<Option<u64>>, k: int) -> bool {
    &&& 0 <= k < 4
    &&& held(ages, k)
    &&& forall|j: int| 0 <= j < 4 && #[trigger] held(ages, j) ==> age(ages, k) <= age(ages, j)
    &&& forall|j: int| 0 <= j < k && #[trigger] held(ages, j) ==> age(ages, k) < age(ages, j)
}

/// The direction being held, from the time since each direction's key was
/// last seen (`None`: never), slot by `idx_for_dir`: the last pressed
/// direction if its key is still held, else the most recently seen held
/// direction, else none.
pub fn active_dir_recent(last_seen: &[Option<u64>; 4], last_pressed: Option<Dir>) -> (r: Option<Dir>)
    ensures
        (last_pressed matches Some(d) && exists|k: int| 0 <= k < 4 && dir_at(k) == d && held(last_seen@, k)) ==> r
            == last_pressed,
        !(last_pressed matches Some(d) && exists|k: int| 0 <= k < 4 && dir_at(k) == d && held(last_seen@, k)) ==> {
            &&& r is None <==> forall|k: int| 0 <= k < 4 ==> !#[trigger] held(last_seen@, k)
            &&& r matches Some(d) ==> exists|k: int| #[trigger] most_recent(last_seen@, k) && dir_at(k) == d
        },
{
    if let Some(dir) = last_pressed {
        let i = idx_for_dir(dir);
        if let Some(t) = last_seen[i] {
            if t <= INPUT_HOLD_NS {
                return Some(dir);
            }
        }
        proof {
            assert forall|k: int| 0 <= k < 4 && dir_at(k) == dir implies !held(last_seen@, k) by {
                assert(k == i);
            }
        }
    }
    let mut best: Option<(usize, u64)> = None;
    let mut k: usize = 0;
    while k < 4
        invariant
            k <= 4,
            best is None ==> forall|j: int| 0 <= j < k ==> !#[trigger] held(last_seen@, j),
            best matches Some(b) ==> b.0 < k && age(last_seen@, b.0 as int) == b.1 && held(last_seen@, b.0 as int)
                && (forall|j: int| 0 <= j < k && #[trigger] held(last_seen@, j) ==> b.1 <= age(last_seen@, j))
                && (forall|j: int| 0 <= j < b.0 && #[trigger] held(last_seen@, j) ==> b.1 < age(last_seen@, j)),
        decreases 4 - k,
    {
        if let Some(t) = last_seen[k] {
            if t <= INPUT_HOLD_NS {
                match best {
                    None => {
                        best = Some((k, t));
                    },
                    Some((_, bt)) => {
                        if t < bt {
                            best = Some((k, t));
                        }
                    },
                }
            }
        }
        k = k + 1;
    }
    match best {
        None => None,
        Some((i, _)) => {
            let d = dir_of(i);
            proof {
                assert(most_recent(last_seen@, i as int));
            }
            Some(d)
        },
    }
}

} // verus!
