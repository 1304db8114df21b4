//! The tile grid: per-cell blocking, sight-blocking and explored flags, and
//! the well-formedness the rest of the engine relies on.

use vstd::prelude::*;

use crate::MAP_HEIGHT;
use crate::MAP_WIDTH;

verus! {

/// One cell of the dungeon grid.
#[derive(Clone, Copy, Debug, PartialEq, Eq, Structural)]
pub struct Tile {
    pub blocked: bool,
    pub block_sight: bool,
    pub explored: bool,
}

impl Tile {
    /// A carved, walkable, see-through cell.
    pub fn empty() -> (t: Tile)
        ensures
            t == (Tile { blocked: false, block_sight: false, explored: false }),
    {
        Tile { blocked: false, block_sight: false, explored: false }
    }

    /// A solid wall cell.
    pub fn wall() -> (t: Tile)
        ensures
            t == (Tile { blocked: true, block_sight: true, explored: false }),
    {
        Tile { blocked: true, block_sight: true, explored: false }
    }
}

/// The grid is stored column-major: `grid[x][y]`.
pub type Grid = Vec<Vec<Tile>>;

/// The tile at `(x, y)` of a grid.
pub open spec fn at(m: Seq<Vec<Tile>>, x: int, y: int) -> Tile {
    m[x]@[y]
}

/// Whether `(x, y)` is a coordinate of the grid.
pub open spec fn in_map(x: int, y: int) -> bool {
    0 <= x < MAP_WIDTH && 0 <= y < MAP_HEIGHT
}

/// Whether `(x, y)` is a coordinate strictly inside the grid's border.
/// Carving only ever touches such cells, so every walkable cell is interior
/// and every entity standing on a walkable cell has all eight neighbours on
/// the grid.
pub open spec fn interior(x: int, y: int) -> bool {
    1 <= x < MAP_WIDTH - 1 && 1 <= y < MAP_HEIGHT - 1
}

/// Dimensions are fixed for the lifetime of a level, and the border ring is
/// solid wall.
pub open spec fn map_wf(m: Seq<Vec<Tile>>) -> bool {
    &&& m.len() == MAP_WIDTH
    &&& forall|x: int| 0 <= x < MAP_WIDTH ==> (#[trigger] m[x])@.len() == MAP_HEIGHT
    &&& forall|x: int, y: int| in_map(x, y) && !interior(x, y) ==> (#[trigger] at(m, x, y)).blocked
}

/// Exploration is monotonic: a map whose explored flags cover another's.
pub open spec fn explored_monotonic(before: Seq<Vec<Tile>>, after: Seq<Vec<Tile>>) -> bool {
    forall|x: int, y: int|
        in_map(x, y) && (#[trigger] at(before, x, y)).explored ==> (#[trigger] at(
            after,
            x,
            y,
        )).explored
}

/// A fresh grid of solid wall, the generator's starting point.
pub fn blank_map() -> (m: Grid)
    ensures
        map_wf(m@),
        forall|x: int, y: int|
            in_map(x, y) ==> #[trigger] at(m@, x, y) == (Tile {
                blocked: true,
                block_sight: true,
                explored: false,
            }),
{
    let mut m: Grid = Vec::new();
    let mut x: usize = 0;
    while x < MAP_WIDTH as usize
        invariant
            m@.len() == x,
            x <= MAP_WIDTH,
            forall|i: int| 0 <= i < x ==> (#[trigger] m@[i])@.len() == MAP_HEIGHT,
            forall|i: int, y: int|
                0 <= i < x && 0 <= y < MAP_HEIGHT ==> #[trigger] at(m@, i, y) == (Tile {
                    blocked: true,
                    block_sight: true,
                    explored: false,
                }),
        decreases MAP_WIDTH - x,
    {
        let mut col: Vec<Tile> = Vec::new();
        let mut y: usize = 0;
        while y < MAP_HEIGHT as usize
            invariant
                col@.len() == y,
                y <= MAP_HEIGHT,
                forall|j: int|
                    0 <= j < y ==> #[trigger] col@[j] == (Tile {
                        blocked: true,
                        block_sight: true,
                        explored: false,
                    }),
            decreases MAP_HEIGHT - y,
        {
            col.push(Tile::wall());
            y += 1;
        }
        let ghost m0 = m@;
        m.push(col);
        proof {
            assert forall|i: int, y: int|
                0 <= i < x + 1 && 0 <= y < MAP_HEIGHT implies #[trigger] at(m@, i, y) == (Tile {
                blocked: true,
                block_sight: true,
                explored: false,
            }) by {
                if i < x {
                    assert(at(m0, i, y) == Tile {
                        blocked: true,
                        block_sight: true,
                        explored: false,
                    });
                    assert(m@[i] == m0[i]);
                } else {
                    assert(m@[i] == col);
                }
            }
        }
        x += 1;
    }
    m
}

} // verus!
