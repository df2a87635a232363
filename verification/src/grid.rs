//! Moves on the grid. A move adds an offset to the row and to the column
//! with wrap-around, so that the offset `!0` (`usize::MAX`) steps back by one
//! and stepping back from row or column 0 lands far off the grid.

use vstd::prelude::*;

verus! {

/// The offsets of the four moves, in the order left, right, up, down.
pub open spec fn spec_dij(action: usize) -> (usize, usize) {
    if action == 0 {
        (0usize, usize::MAX)
    } else if action == 1 {
        (0usize, 1usize)
    } else if action == 2 {
        (usize::MAX, 0usize)
    } else {
        (1usize, 0usize)
    }
}

/// The letter that writes each move in an output.
pub open spec fn spec_dir(action: usize) -> char {
    if action == 0 {
        'L'
    } else if action == 1 {
        'R'
    } else if action == 2 {
        'U'
    } else {
        'D'
    }
}

/// The cell that `action` leads to from `(i, j)`.
pub open spec fn spec_step(i: usize, j: usize, action: usize) -> (usize, usize) {
    (i.wrapping_add(spec_dij(action).0), j.wrapping_add(spec_dij(action).1))
}

/// The offsets of a move.
pub fn dij(action: usize) -> (d: (usize, usize))
    requires
        action < 4,
    ensures
        d == spec_dij(action),
{
    if action == 0 {
        (0, usize::MAX)
    } else if action == 1 {
        (0, 1)
    } else if action == 2 {
        (usize::MAX, 0)
    } else {
        (1, 0)
    }
}

/// The letter of a move.
pub fn dir(action: usize) -> (c: char)
    requires
        action < 4,
    ensures
        c == spec_dir(action),
{
    if action == 0 {
        'L'
    } else if action == 1 {
        'R'
    } else if action == 2 {
        'U'
    } else {
        'D'
    }
}

/// The cell that `action` leads to from `(i, j)`.
pub fn step(i: usize, j: usize, action: usize) -> (r: (usize, usize))
    requires
        action < 4,
    ensures
        r == spec_step(i, j, action),
{
    let (di, dj) = dij(action);
    (i.wrapping_add(di), j.wrapping_add(dj))
}

/// The largest entry of a square grid of tile ids.
pub fn max_tile(tiles: &Vec<Vec<usize>>) -> (m: usize)
    requires
        tiles@.len() > 0,
        forall|i: int| 0 <= i < tiles@.len() ==> #[trigger] tiles@[i]@.len() == tiles@.len(),
    ensures
        forall|i: int, j: int| 0 <= i < tiles@.len() && 0 <= j < tiles@.len() ==> tiles@[i]@[j] <= m,
        exists|i: int, j: int| 0 <= i < tiles@.len() && 0 <= j < tiles@.len() && tiles@[i]@[j] == m,
{
    let n = tiles.len();
    let mut m: usize = tiles[0][0];
    let ghost mut wi: int = 0;
    let ghost mut wj: int = 0;
    let mut i: usize = 0;
    while i < n
        invariant
            n == tiles@.len(),
            forall|a: int| 0 <= a < n ==> #[trigger] tiles@[a]@.len() == n,
            i <= n,
            forall|a: int, b: int| 0 <= a < i && 0 <= b < n ==> tiles@[a]@[b] <= m,
            0 <= wi < n,
            0 <= wj < n,
            tiles@[wi]@[wj] == m,
        decreases n - i,
    {
        let mut j: usize = 0;
        while j < n
            invariant
                n == tiles@.len(),
                forall|a: int| 0 <= a < n ==> #[trigger] tiles@[a]@.len() == n,
                i < n,
                j <= n,
                forall|a: int, b: int| 0 <= a < i && 0 <= b < n ==> tiles@[a]@[b] <= m,
                forall|b: int| 0 <= b < j ==> tiles@[i as int]@[b] <= m,
                0 <= wi < n,
                0 <= wj < n,
                tiles@[wi]@[wj] == m,
            decreases n - j,
        {
            let t = tiles[i][j];
            if t > m {
                m = t;
                proof {
                    wi = i as int;
                    wj = j as int;
                }
            }
            j = j + 1;
        }
        i = i + 1;
    }
    m
}

} // verus!
