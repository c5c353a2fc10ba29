//! Laying out a new world: walls round the map, the rolled contents of the
//! cells inside, a cleared safe zone in the middle, and where the first pawns
//! stand.

use vstd::prelude::*;
use rand::Rng;

use crate::components::{Position, Tile};
use crate::resources::{TileMap, cell_count, lemma_index_in_range};

verus! {

/// First coordinate, on both axes, of the safe zone kept clear of walls and
/// resources.
pub const SAFE_ZONE_START: i32 = 45;

/// First coordinate, on both axes, past the safe zone.
pub const SAFE_ZONE_END: i32 = 55;

/// Pawns start within this many cells, on each axis, of the map's centre.
pub const SPAWN_SPREAD: i32 = 5;

/// Whether `(x, y)` lies on the outer ring of the map.
pub open spec fn on_border(map: TileMap, x: int, y: int) -> bool {
    x == 0 || x == map.width - 1 || y == 0 || y == map.height - 1
}

/// Whether `(x, y)` lies in the safe zone.
pub open spec fn in_safe_zone(x: int, y: int) -> bool {
    SAFE_ZONE_START <= x < SAFE_ZONE_END && SAFE_ZONE_START <= y < SAFE_ZONE_END
}

/// Number of cells inside the outer ring.
pub open spec fn inner_count(map: TileMap) -> int {
    cell_count(map.width - 2, map.height - 2)
}

/// Position of the inner cell `(x, y)` in the column-by-column order of the
/// inner cells.
pub open spec fn inner_index(map: TileMap, x: int, y: int) -> int {
    (x - 1) * (map.height - 2) + (y - 1)
}

/// The tile at the in-grid cell `(x, y)` once walls and rolled contents are
/// laid, before the safe zone is cleared: a wall on the outer ring, inside it
/// the rolled tile, or the old tile where the roll gave none.
pub open spec fn laid_tile(map: TileMap, rolled: Seq<Option<Tile>>, x: int, y: int) -> Option<Tile> {
    if on_border(map, x, y) {
        Some(Tile::wall_spec())
    } else {
        match rolled[inner_index(map, x, y)] {
            Some(t) => Some(t),
            None => map.tile_at(x, y),
        }
    }
}

/// The tile at `(x, y)` of the laid-out map.
pub open spec fn layout_tile(map: TileMap, rolled: Seq<Option<Tile>>, x: int, y: int) -> Option<Tile> {
    if !map.in_bounds(x, y) {
        None
    } else if in_safe_zone(x, y) {
        Some(Tile::empty_spec())
    } else {
        laid_tile(map, rolled, x, y)
    }
}

/// Lays out a new map: the outer ring of cells becomes wall, each inner cell
/// takes its tile from `rolled` (one entry per inner cell, column by column;
/// `None` keeps the cell as it is), and the safe zone is then cleared.
pub fn lay_out_map(tile_map: &mut TileMap, rolled: &Vec<Option<Tile>>)
    requires
        old(tile_map).wf(),
        rolled@.len() == inner_count(*old(tile_map)),
    ensures
        final(tile_map).wf(),
        final(tile_map).width == old(tile_map).width,
        final(tile_map).height == old(tile_map).height,
        forall|x: int, y: int|
            #[trigger] final(tile_map).tile_at(x, y) == layout_tile(*old(tile_map), rolled@, x, y),
{
    let ghost start = *tile_map;
    let width = tile_map.width;
    let height = tile_map.height;
    let mut x: i32 = 0;
    while x < width
        invariant
            tile_map.wf(),
            tile_map.width == width && tile_map.height == height,
            start.width == width && start.height == height,
            rolled@.len() == inner_count(start),
            0 <= x,
            x <= width || x == 0,
            forall|a: int, b: int|
                #[trigger] tile_map.tile_at(a, b) == if start.in_bounds(a, b) && a < x {
                    laid_tile(start, rolled@, a, b)
                } else {
                    start.tile_at(a, b)
                },
        decreases width - x,
    {
        let mut y: i32 = 0;
        while y < height
            invariant
                tile_map.wf(),
                tile_map.width == width && tile_map.height == height,
                start.width == width && start.height == height,
                rolled@.len() == inner_count(start),
                0 <= x < width,
                0 <= y,
                y <= height || y == 0,
                forall|a: int, b: int|
                    #[trigger] tile_map.tile_at(a, b) == if start.in_bounds(a, b) && (a < x || (a
                        == x && b < y)) {
                        laid_tile(start, rolled@, a, b)
                    } else {
                        start.tile_at(a, b)
                    },
            decreases height - y,
        {
            let ghost before = *tile_map;
            if x == 0 || x == width - 1 || y == 0 || y == height - 1 {
                tile_map.set_tile(x, y, Tile::wall());
            } else {
                let n: usize = rolled.len();
                let col: usize = (x - 1) as usize;
                let rows: usize = (height - 2) as usize;
                let row: usize = (y - 1) as usize;
                proof {
                    lemma_index_in_range(width - 2, height - 2, x - 1, y - 1);
                    assert(n == (width - 2) * (height - 2));
                    assert(col * rows + row < n);
                }
                let k: usize = col * rows + row;
                if let Some(t) = rolled[k] {
                    tile_map.set_tile(x, y, t);
                }
            }
            proof {
                assert forall|a: int, b: int| #[trigger]
                    tile_map.tile_at(a, b) == if start.in_bounds(a, b) && (a < x || (a == x && b < y
                        + 1)) {
                        laid_tile(start, rolled@, a, b)
                    } else {
                        start.tile_at(a, b)
                    } by {
                    assert(before.tile_at(a, b) == if start.in_bounds(a, b) && (a < x || (a == x
                        && b < y)) {
                        laid_tile(start, rolled@, a, b)
                    } else {
                        start.tile_at(a, b)
                    });
                }
            }
            y = y + 1;
        }
        x = x + 1;
    }
    let ghost laid = *tile_map;
    let mut sx: i32 = SAFE_ZONE_START;
    while sx < SAFE_ZONE_END
        invariant
            tile_map.wf(),
            tile_map.width == width && tile_map.height == height,
            start.width == width && start.height == height,
            SAFE_ZONE_START <= sx <= SAFE_ZONE_END,
            forall|a: int, b: int|
                #[trigger] tile_map.tile_at(a, b) == if start.in_bounds(a, b) && SAFE_ZONE_START
                    <= a < sx && SAFE_ZONE_START <= b < SAFE_ZONE_END {
                    Some(Tile::empty_spec())
                } else if start.in_bounds(a, b) {
                    laid_tile(start, rolled@, a, b)
                } else {
                    None
                },
        decreases SAFE_ZONE_END - sx,
    {
        let mut sy: i32 = SAFE_ZONE_START;
        while sy < SAFE_ZONE_END
            invariant
                tile_map.wf(),
                tile_map.width == width && tile_map.height == height,
                start.width == width && start.height == height,
                SAFE_ZONE_START <= sx < SAFE_ZONE_END,
                SAFE_ZONE_START <= sy <= SAFE_ZONE_END,
                forall|a: int, b: int|
                    #[trigger] tile_map.tile_at(a, b) == if start.in_bounds(a, b) && ((
                    SAFE_ZONE_START <= a < sx && SAFE_ZONE_START <= b < SAFE_ZONE_END) || (a == sx
                        && SAFE_ZONE_START <= b < sy)) {
                        Some(Tile::empty_spec())
                    } else if start.in_bounds(a, b) {
                        laid_tile(start, rolled@, a, b)
                    } else {
                        None
                    },
            decreases SAFE_ZONE_END - sy,
        {
            let ghost before = *tile_map;
            tile_map.set_tile(sx, sy, Tile::empty());
            proof {
                assert forall|a: int, b: int| #[trigger]
                    tile_map.tile_at(a, b) == if start.in_bounds(a, b) && ((SAFE_ZONE_START <= a
                        < sx && SAFE_ZONE_START <= b < SAFE_ZONE_END) || (a == sx && SAFE_ZONE_START
                        <= b < sy + 1)) {
                        Some(Tile::empty_spec())
                    } else if start.in_bounds(a, b) {
                        laid_tile(start, rolled@, a, b)
                    } else {
                        None
                    } by {
                    assert(before.tile_at(a, b) == if start.in_bounds(a, b) && ((SAFE_ZONE_START
                        <= a < sx && SAFE_ZONE_START <= b < SAFE_ZONE_END) || (a == sx
                        && SAFE_ZONE_START <= b < sy)) {
                        Some(Tile::empty_spec())
                    } else if start.in_bounds(a, b) {
                        laid_tile(start, rolled@, a, b)
                    } else {
                        None
                    });
                }
            }
            sy = sy + 1;
        }
        sx = sx + 1;
    }
}

/// `rand::Rng::gen_range` on the thread's generator: a number drawn from
/// `low..high`. The draw rests on chance, so only its range is stated; the
/// function panics on an empty range, which `requires` rules out.
#[verifier::external_body]
fn random_in_range(low: i32, high: i32) -> (r: i32)
    requires
        low < high,
    ensures
        low <= r < high,
{
    rand::thread_rng().gen_range(low..high)
}

/// The centre coordinate of an axis `v` cells long, rounded towards zero.
pub open spec fn center_of(v: int) -> int {
    if v >= 0 {
        v / 2
    } else {
        -((-v) / 2)
    }
}

/// Where `count` new pawns stand on a map `width` by `height`: each at the
/// map's centre moved by a random offset in `-SPAWN_SPREAD..SPAWN_SPREAD`
/// on each axis, drawn anew for every pawn.
pub fn spawn_positions(width: i32, height: i32, count: usize) -> (ps: Vec<Position>)
    ensures
        ps@.len() == count,
        forall|i: int|
            0 <= i < ps@.len() ==> center_of(width as int) - SPAWN_SPREAD <= (#[trigger] ps@[i]).x
                < center_of(width as int) + SPAWN_SPREAD && center_of(height as int) - SPAWN_SPREAD
                <= ps@[i].y < center_of(height as int) + SPAWN_SPREAD,
{
    let center_x = width / 2;
    let center_y = height / 2;
    let mut ps: Vec<Position> = Vec::new();
    let mut i: usize = 0;
    while i < count
        invariant
            0 <= i <= count,
            center_x == center_of(width as int),
            center_y == center_of(height as int),
            ps@.len() == i,
            forall|j: int|
                0 <= j < ps@.len() ==> center_of(width as int) - SPAWN_SPREAD <= (#[trigger] ps@[j]).x
                    < center_of(width as int) + SPAWN_SPREAD && center_of(height as int)
                    - SPAWN_SPREAD <= ps@[j].y < center_of(height as int) + SPAWN_SPREAD,
        decreases count - i,
    {
        let offset_x = random_in_range(-SPAWN_SPREAD, SPAWN_SPREAD);
        let offset_y = random_in_range(-SPAWN_SPREAD, SPAWN_SPREAD);
        ps.push(Position::new(center_x + offset_x, center_y + offset_y));
        i = i + 1;
    }
    ps
}

} // verus!
