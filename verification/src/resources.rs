//! Shared world state: the tile map, tile locks and the task scheduler.

use vstd::prelude::*;
use std::collections::HashMap;

use crate::components::{Position, ResourceType, Tile, TaskCategory, min_int};

verus! {

broadcast use vstd::std_specs::hash::group_hash_axioms;

/// Number of cells of a `width` by `height` grid (0 when either side is not positive).
pub open spec fn cell_count(width: int, height: int) -> int {
    if width > 0 && height > 0 {
        width * height
    } else {
        0
    }
}

/// A cell `(x, y)` of a grid `height` cells tall is stored at `x * height + y`.
pub proof fn lemma_index_in_range(width: int, height: int, x: int, y: int)
    requires
        0 <= x < width,
        0 <= y < height,
    ensures
        0 <= x * height + y < width * height,
        x * height + y + 1 <= (x + 1) * height,
        (x + 1) * height <= width * height,
{
    assert(0 <= x * height) by (nonlinear_arith)
        requires
            0 <= x,
            0 <= height,
    ;
    assert((x + 1) * height <= width * height) by (nonlinear_arith)
        requires
            x + 1 <= width,
            0 <= height,
    ;
    assert((x + 1) * height == x * height + height) by (nonlinear_arith);
}

/// Distinct cells are stored at distinct indices.
pub proof fn lemma_index_injective(height: int, x1: int, y1: int, x2: int, y2: int)
    requires
        0 <= y1 < height,
        0 <= y2 < height,
        x1 * height + y1 == x2 * height + y2,
    ensures
        x1 == x2,
        y1 == y2,
{
    if x1 < x2 {
        assert(x1 * height + height <= x2 * height) by (nonlinear_arith)
            requires
                x1 < x2,
                0 <= height,
        ;
    } else if x2 < x1 {
        assert(x2 * height + height <= x1 * height) by (nonlinear_arith)
            requires
                x2 < x1,
                0 <= height,
        ;
    }
}

/// Whether a tile holds some of `resource_type` that can still be gathered.
pub open spec fn holds_resource(t: Tile, resource_type: ResourceType) -> bool {
    t.resource_type == resource_type && t.resource_amount > 0
}

/// The tile left after gathering `gathered` from `t`: the amount drops and a
/// tile that runs out holds nothing.
pub open spec fn after_gather(t: Tile, gathered: int) -> Tile {
    let left = (t.resource_amount - gathered) as u32;
    Tile {
        resource_amount: left,
        resource_type: if left == 0 {
            ResourceType::Nothing
        } else {
            t.resource_type
        },
        passable: t.passable,
    }
}

/// Offset of the `k`-th neighbour direction, in the order up, right, down,
/// left, then the four diagonals.
pub open spec fn direction_spec(k: int) -> (int, int) {
    if k == 0 {
        (0, -1)
    } else if k == 1 {
        (1, 0)
    } else if k == 2 {
        (0, 1)
    } else if k == 3 {
        (-1, 0)
    } else if k == 4 {
        (1, -1)
    } else if k == 5 {
        (1, 1)
    } else if k == 6 {
        (-1, 1)
    } else {
        (-1, -1)
    }
}

/// The eight cells around `pos`, in direction order.
pub open spec fn neighbor_candidates(pos: Position) -> Seq<Position> {
    Seq::new(
        8,
        |k: int|
            Position {
                x: (pos.x + direction_spec(k).0) as i32,
                y: (pos.y + direction_spec(k).1) as i32,
            },
    )
}

/// Whether the neighbours of `pos` can be computed in `i32`.
pub open spec fn interior_coords(pos: Position) -> bool {
    i32::MIN < pos.x < i32::MAX && i32::MIN < pos.y < i32::MAX
}

pub fn direction(k: usize) -> (d: (i32, i32))
    requires
        k < 8,
    ensures
        d.0 == direction_spec(k as int).0,
        d.1 == direction_spec(k as int).1,
{
    if k == 0 {
        (0, -1)
    } else if k == 1 {
        (1, 0)
    } else if k == 2 {
        (0, 1)
    } else if k == 3 {
        (-1, 0)
    } else if k == 4 {
        (1, -1)
    } else if k == 5 {
        (1, 1)
    } else if k == 6 {
        (-1, 1)
    } else {
        (-1, -1)
    }
}

/// The map: a `width` by `height` grid of tiles. Cell `(x, y)` is stored at
/// index `x * height + y` of `tiles`.
#[derive(Clone, Debug)]
pub struct TileMap {
    pub width: i32,
    pub height: i32,
    pub tiles: Vec<Tile>,
}

impl TileMap {
    /// Every cell of the grid is stored, and no more.
    pub open spec fn wf(&self) -> bool {
        &&& self.tiles@.len() == cell_count(self.width as int, self.height as int)
    }

    pub open spec fn in_bounds(&self, x: int, y: int) -> bool {
        0 <= x < self.width && 0 <= y < self.height
    }

    pub open spec fn index_of(&self, x: int, y: int) -> int {
        x * self.height + y
    }

    /// The tile at `(x, y)`, or `None` outside the grid.
    pub open spec fn tile_at(&self, x: int, y: int) -> Option<Tile> {
        if self.in_bounds(x, y) {
            Some(self.tiles@[self.index_of(x, y)])
        } else {
            None
        }
    }

    pub open spec fn passable_at(&self, x: int, y: int) -> bool {
        match self.tile_at(x, y) {
            Some(t) => t.passable,
            None => false,
        }
    }

    /// The resource at `(x, y)`, `Nothing` outside the grid.
    pub open spec fn resource_at(&self, x: int, y: int) -> ResourceType {
        match self.tile_at(x, y) {
            Some(t) => t.resource_type,
            None => ResourceType::Nothing,
        }
    }

    /// Whether the cell `(x, y)` holds some of `resource_type`.
    pub open spec fn has_resource_at(&self, x: int, y: int, resource_type: ResourceType) -> bool {
        match self.tile_at(x, y) {
            Some(t) => holds_resource(t, resource_type),
            None => false,
        }
    }

    /// The passable cells around `pos`, in direction order.
    pub open spec fn passable_neighbors(&self, pos: Position) -> Seq<Position> {
        neighbor_candidates(pos).filter(|p: Position| self.passable_at(p.x as int, p.y as int))
    }

    /// Storage index of the in-grid cell `(x, y)`.
    fn cell_index(&self, x: i32, y: i32) -> (i: usize)
        requires
            self.wf(),
            self.in_bounds(x as int, y as int),
        ensures
            i == self.index_of(x as int, y as int),
            i < self.tiles@.len(),
    {
        proof {
            self.lemma_index(x as int, y as int);
            assert(0 <= x * self.height) by (nonlinear_arith)
                requires
                    0 <= x,
                    0 <= self.height,
            ;
        }
        let n = self.tiles.len();
        (x as usize) * (self.height as usize) + (y as usize)
    }

    /// In-grid cells are stored inside `tiles`.
    pub proof fn lemma_index(&self, x: int, y: int)
        requires
            self.wf(),
            self.in_bounds(x, y),
        ensures
            0 <= self.index_of(x, y) < self.tiles@.len(),
    {
        lemma_index_in_range(self.width as int, self.height as int, x, y);
    }

    /// A map of `width` by `height` cells holding `tiles`, stored column by
    /// column; `None` when there are not exactly as many tiles as cells.
    pub fn from_tiles(width: i32, height: i32, tiles: Vec<Tile>) -> (r: Option<TileMap>)
        ensures
            r.is_some() <==> tiles@.len() == cell_count(width as int, height as int),
            r matches Some(m) ==> m.wf() && m.width == width && m.height == height && m.tiles@
                == tiles@,
    {
        let cells: u64 = if width > 0 && height > 0 {
            proof {
                assert(width as int * height as int <= 0x7fff_ffff * 0x7fff_ffff) by (nonlinear_arith)
                    requires
                        0 < width <= 0x7fff_ffff,
                        0 < height <= 0x7fff_ffff,
                ;
            }
            (width as u64) * (height as u64)
        } else {
            0
        };
        if tiles.len() as u64 == cells {
            Some(TileMap { width, height, tiles })
        } else {
            None
        }
    }

    /// A map of `width` by `height` empty tiles.
    pub fn new(width: i32, height: i32) -> (m: TileMap)
        requires
            cell_count(width as int, height as int) <= usize::MAX,
        ensures
            m.wf(),
            m.width == width,
            m.height == height,
            forall|x: int, y: int|
                m.in_bounds(x, y) ==> #[trigger] m.tile_at(x, y) == Some(Tile::empty_spec()),
    {
        let mut tiles: Vec<Tile> = Vec::new();
        if width > 0 && height > 0 {
            let mut x: i32 = 0;
            while x < width
                invariant
                    0 <= x <= width,
                    0 < height,
                    width as int * height as int <= usize::MAX,
                    tiles@.len() == x * height,
                    forall|i: int| 0 <= i < tiles@.len() ==> tiles@[i] == Tile::empty_spec(),
                decreases width - x,
            {
                proof {
                    lemma_index_in_range(width as int, height as int, x as int, 0);
                }
                let mut y: i32 = 0;
                while y < height
                    invariant
                        0 <= x < width,
                        0 <= y <= height,
                        width as int * height as int <= usize::MAX,
                        (x + 1) * height <= width * height,
                        tiles@.len() == x * height + y,
                        forall|i: int| 0 <= i < tiles@.len() ==> tiles@[i] == Tile::empty_spec(),
                    decreases height - y,
                {
                    tiles.push(Tile::empty());
                    y = y + 1;
                }
                proof {
                    assert((x + 1) * height == x * height + height) by (nonlinear_arith);
                }
                x = x + 1;
            }
        }
        let m = TileMap { width, height, tiles };
        proof {
            assert forall|x: int, y: int| m.in_bounds(x, y) implies #[trigger] m.tile_at(x, y)
                == Some(Tile::empty_spec()) by {
                m.lemma_index(x, y);
            }
        }
        m
    }

    pub fn get_tile(&self, x: i32, y: i32) -> (t: Option<&Tile>)
        requires
            self.wf(),
        ensures
            match t {
                Some(t) => self.tile_at(x as int, y as int) == Some(*t),
                None => self.tile_at(x as int, y as int).is_none(),
            },
    {
        if x < 0 || x >= self.width || y < 0 || y >= self.height {
            return None;
        }
        proof {
            self.lemma_index(x as int, y as int);
        }
        let idx: usize = self.cell_index(x, y);
        Some(&self.tiles[idx])
    }

    /// Mutable access to the tile at `(x, y)`; whatever is written through
    /// the reference lands in that cell only.
    pub fn get_tile_mut(&mut self, x: i32, y: i32) -> (t: Option<&mut Tile>)
        requires
            old(self).wf(),
        ensures
            match t {
                Some(t) => {
                    &&& old(self).in_bounds(x as int, y as int)
                    &&& 0 <= old(self).index_of(x as int, y as int) < old(self).tiles@.len()
                    &&& old(self).tile_at(x as int, y as int) == Some(*t)
                    &&& final(self).width == old(self).width
                    &&& final(self).height == old(self).height
                    &&& final(self).tiles@ == old(self).tiles@.update(
                        old(self).index_of(x as int, y as int),
                        *final(t),
                    )
                },
                None => {
                    &&& !old(self).in_bounds(x as int, y as int)
                    &&& *final(self) == *old(self)
                },
            },
    {
        if x < 0 || x >= self.width || y < 0 || y >= self.height {
            return None;
        }
        proof {
            self.lemma_index(x as int, y as int);
        }
        let idx: usize = self.cell_index(x, y);
        Some(&mut self.tiles[idx])
    }

    pub fn is_passable(&self, x: i32, y: i32) -> (b: bool)
        requires
            self.wf(),
        ensures
            b == self.passable_at(x as int, y as int),
    {
        match self.get_tile(x, y) {
            Some(t) => t.passable,
            None => false,
        }
    }

    pub fn get_resource_type(&self, x: i32, y: i32) -> (r: ResourceType)
        requires
            self.wf(),
        ensures
            r == self.resource_at(x as int, y as int),
    {
        match self.get_tile(x, y) {
            Some(t) => t.resource_type,
            None => ResourceType::Nothing,
        }
    }

    /// Replaces the tile at `(x, y)`; does nothing outside the grid.
    pub fn set_tile(&mut self, x: i32, y: i32, tile: Tile)
        requires
            old(self).wf(),
        ensures
            final(self).wf(),
            final(self).width == old(self).width,
            final(self).height == old(self).height,
            forall|a: int, b: int|
                #[trigger] final(self).tile_at(a, b) == if a == x && b == y && old(self).in_bounds(
                    a,
                    b,
                ) {
                    Some(tile)
                } else {
                    old(self).tile_at(a, b)
                },
    {
        if x >= 0 && x < self.width && y >= 0 && y < self.height {
            proof {
                self.lemma_index(x as int, y as int);
            }
            let idx: usize = self.cell_index(x, y);
            self.tiles.set(idx, tile);
            proof {
                assert forall|a: int, b: int| #[trigger]
                    self.tile_at(a, b) == if a == x && b == y && old(self).in_bounds(a, b) {
                        Some(tile)
                    } else {
                        old(self).tile_at(a, b)
                    } by {
                    if self.in_bounds(a, b) && !(a == x && b == y) {
                        self.lemma_index(a, b);
                        if self.index_of(a, b) == idx {
                            lemma_index_injective(self.height as int, a, b, x as int, y as int);
                        }
                    }
                }
            }
        }
    }

    /// Whether `from` is close enough to every cell holding `resource_type`
    /// for the distance to be computed in `i32`.
    pub open spec fn distances_fit(&self, from: Position, resource_type: ResourceType) -> bool {
        forall|x: int, y: int|
            self.in_bounds(x, y) && #[trigger] self.has_resource_at(x, y, resource_type)
                ==> from.manhattan(Position { x: x as i32, y: y as i32 }) <= i32::MAX
    }

    /// The cell holding `resource_type` that is nearest to `from` by Manhattan
    /// distance, or `None` when no cell holds any. Among equally near cells
    /// any one may be returned.
    pub fn find_nearest_resource(&self, from: &Position, resource_type: ResourceType) -> (r:
        Option<Position>)
        requires
            self.wf(),
            self.distances_fit(*from, resource_type),
        ensures
            r.is_none() <==> forall|x: int, y: int|
                self.in_bounds(x, y) ==> !#[trigger] self.has_resource_at(x, y, resource_type),
            r matches Some(p) ==> {
                &&& self.in_bounds(p.x as int, p.y as int)
                &&& self.has_resource_at(p.x as int, p.y as int, resource_type)
                &&& forall|x: int, y: int|
                    self.in_bounds(x, y) && #[trigger] self.has_resource_at(x, y, resource_type)
                        ==> from.manhattan(p) <= from.manhattan(Position { x: x as i32, y: y as i32 })
            },
    {
        let mut nearest: Option<(Position, i32)> = None;
        if self.width <= 0 || self.height <= 0 {
            return None;
        }
        let mut x: i32 = 0;
        while x < self.width
            invariant
                self.wf(),
                0 < self.height,
                0 <= x <= self.width,
                self.distances_fit(*from, resource_type),
                nearest.is_none() ==> forall|a: int, b: int|
                    0 <= a < x && 0 <= b < self.height ==> !#[trigger] self.has_resource_at(
                        a,
                        b,
                        resource_type,
                    ),
                nearest matches Some((p, d)) ==> {
                    &&& self.in_bounds(p.x as int, p.y as int)
                    &&& self.has_resource_at(p.x as int, p.y as int, resource_type)
                    &&& d == from.manhattan(p)
                    &&& forall|a: int, b: int|
                        0 <= a < x && 0 <= b < self.height && #[trigger] self.has_resource_at(
                            a,
                            b,
                            resource_type,
                        ) ==> d <= from.manhattan(Position { x: a as i32, y: b as i32 })
                },
            decreases self.width - x,
        {
            let mut y: i32 = 0;
            while y < self.height
                invariant
                    self.wf(),
                    0 < self.height,
                    0 <= x < self.width,
                    0 <= y <= self.height,
                    self.distances_fit(*from, resource_type),
                    nearest.is_none() ==> forall|a: int, b: int|
                        (0 <= a < x && 0 <= b < self.height) || (a == x && 0 <= b < y)
                            ==> !#[trigger] self.has_resource_at(a, b, resource_type),
                    nearest matches Some((p, d)) ==> {
                        &&& self.in_bounds(p.x as int, p.y as int)
                        &&& self.has_resource_at(p.x as int, p.y as int, resource_type)
                        &&& d == from.manhattan(p)
                        &&& forall|a: int, b: int|
                            ((0 <= a < x && 0 <= b < self.height) || (a == x && 0 <= b < y))
                                && #[trigger] self.has_resource_at(a, b, resource_type) ==> d
                                <= from.manhattan(Position { x: a as i32, y: b as i32 })
                    },
                decreases self.height - y,
            {
                proof {
                    self.lemma_index(x as int, y as int);
                }
                let idx: usize = self.cell_index(x, y);
                let tile = self.tiles[idx];
                if tile.resource_type == resource_type && tile.resource_amount > 0 {
                    let pos = Position::new(x, y);
                    assert(self.has_resource_at(x as int, y as int, resource_type));
                    let dist = from.manhattan_to(&pos);
                    match nearest {
                        None => {
                            nearest = Some((pos, dist));
                        },
                        Some((_, current_dist)) => {
                            if dist < current_dist {
                                nearest = Some((pos, dist));
                            }
                        },
                    }
                }
                y = y + 1;
            }
            x = x + 1;
        }
        match nearest {
            Some((pos, _)) => Some(pos),
            None => None,
        }
    }

    /// Gathers up to `amount` from the tile at `(x, y)` and returns how much
    /// was gathered; a tile that runs out no longer holds a resource.
    /// Outside the grid nothing is gathered.
    pub fn gather_resource(&mut self, x: i32, y: i32, amount: u32) -> (gathered: u32)
        requires
            old(self).wf(),
        ensures
            final(self).wf(),
            final(self).width == old(self).width,
            final(self).height == old(self).height,
            match old(self).tile_at(x as int, y as int) {
                Some(t) => {
                    &&& gathered == min_int(t.resource_amount as int, amount as int)
                    &&& final(self).tiles@ == old(self).tiles@.update(
                        old(self).index_of(x as int, y as int),
                        after_gather(t, gathered as int),
                    )
                },
                None => gathered == 0 && *final(self) == *old(self),
            },
    {
        match self.get_tile_mut(x, y) {
            Some(tile) => {
                let gathered: u32 = if tile.resource_amount <= amount {
                    tile.resource_amount
                } else {
                    amount
                };
                tile.resource_amount = tile.resource_amount - gathered;
                if tile.resource_amount == 0 {
                    tile.resource_type = ResourceType::Nothing;
                }
                gathered
            },
            None => 0,
        }
    }

    /// The passable cells around `pos`, in the order up, right, down, left,
    /// up-right, down-right, down-left, up-left.
    pub fn get_neighbors(&self, pos: &Position) -> (n: Vec<Position>)
        requires
            self.wf(),
            interior_coords(*pos),
        ensures
            n@ == self.passable_neighbors(*pos),
    {
        let mut neighbors: Vec<Position> = Vec::new();
        let ghost pred = |p: Position| self.passable_at(p.x as int, p.y as int);
        let ghost cands = neighbor_candidates(*pos);
        let mut k: usize = 0;
        while k < 8
            invariant
                self.wf(),
                interior_coords(*pos),
                0 <= k <= 8,
                cands == neighbor_candidates(*pos),
                pred == (|p: Position| self.passable_at(p.x as int, p.y as int)),
                neighbors@ == cands.take(k as int).filter(pred),
            decreases 8 - k,
        {
            let (dx, dy) = direction(k);
            let nx: i32 = pos.x + dx;
            let ny: i32 = pos.y + dy;
            proof {
                reveal_with_fuel(Seq::<_>::filter, 1);
                assert(cands.take(k + 1).drop_last() =~= cands.take(k as int));
                assert(cands[k as int] == Position { x: nx, y: ny });
            }
            if self.is_passable(nx, ny) {
                neighbors.push(Position::new(nx, ny));
            }
            k = k + 1;
        }
        proof {
            assert(cands.take(8) =~= cands);
        }
        neighbors
    }
}


/// One held lock: the cell `(x, y)` is reserved by `entity` for gathering
/// `resource_type`.
#[derive(Clone, Copy, Debug, PartialEq, Eq, Structural)]
pub struct LockEntry {
    pub x: i32,
    pub y: i32,
    pub entity: u64,
    pub resource_type: ResourceType,
}

/// The cell a lock entry is about.
pub open spec fn entry_cell(e: LockEntry) -> (i32, i32) {
    (e.x, e.y)
}

/// Who holds a lock entry, and for what.
pub open spec fn entry_holder(e: LockEntry) -> (u64, ResourceType) {
    (e.entity, e.resource_type)
}

/// The locks of a list of entries, as a map from cell to holder.
pub open spec fn lock_map(s: Seq<LockEntry>) -> Map<(i32, i32), (u64, ResourceType)>
    decreases s.len(),
{
    if s.len() == 0 {
        Map::empty()
    } else {
        lock_map(s.drop_last()).insert(entry_cell(s.last()), entry_holder(s.last()))
    }
}

/// No cell is locked twice.
pub open spec fn unique_cells(s: Seq<LockEntry>) -> bool {
    forall|i: int, j: int|
        0 <= i < s.len() && 0 <= j < s.len() && i != j ==> entry_cell(#[trigger] s[i])
            != entry_cell(#[trigger] s[j])
}

/// The locks of `m` that are not held by `entity`.
pub open spec fn without_holder(m: Map<(i32, i32), (u64, ResourceType)>, entity: u64) -> Map<
    (i32, i32),
    (u64, ResourceType),
> {
    Map::new(|k: (i32, i32)| m.contains_key(k) && m[k].0 != entity, |k: (i32, i32)| m[k])
}

/// Each entry of a list without repeated cells is found in its lock map, and
/// every locked cell comes from some entry.
pub proof fn lemma_lock_map(s: Seq<LockEntry>)
    requires
        unique_cells(s),
    ensures
        forall|i: int|
            0 <= i < s.len() ==> #[trigger] lock_map(s).contains_key(entry_cell(s[i]))
                && lock_map(s)[entry_cell(s[i])] == entry_holder(s[i]),
        forall|k: (i32, i32)|
            #[trigger] lock_map(s).contains_key(k) ==> exists|i: int|
                0 <= i < s.len() && entry_cell(s[i]) == k,
    decreases s.len(),
{
    if s.len() > 0 {
        let t = s.drop_last();
        assert(unique_cells(t));
        lemma_lock_map(t);
        assert forall|i: int| 0 <= i < s.len() implies #[trigger] lock_map(s).contains_key(
            entry_cell(s[i]),
        ) && lock_map(s)[entry_cell(s[i])] == entry_holder(s[i]) by {
            if i < s.len() - 1 {
                assert(t[i] == s[i]);
                assert(lock_map(t).contains_key(entry_cell(t[i])));
                assert(entry_cell(s[i]) != entry_cell(s[s.len() - 1]));
            }
        }
        assert forall|k: (i32, i32)| #[trigger] lock_map(s).contains_key(k) implies exists|i: int|
            0 <= i < s.len() && entry_cell(s[i]) == k by {
            if k != entry_cell(s.last()) {
                assert(lock_map(t).contains_key(k));
                let i = choose|i: int| 0 <= i < t.len() && entry_cell(t[i]) == k;
                assert(entry_cell(s[i]) == k);
            } else {
                assert(entry_cell(s[s.len() - 1]) == k);
            }
        }
    }
}

/// A lock keeps other pawns out: once `entity` has locked a free cell, an
/// attempt by any other pawn to lock that cell is refused and changes nothing,
/// while `entity` itself may lock it again.
pub proof fn lemma_lock_is_exclusive(
    m: Map<(i32, i32), (u64, ResourceType)>,
    x: i32,
    y: i32,
    entity: u64,
    resource_type: ResourceType,
    other: u64,
)
    requires
        !m.contains_key((x, y)),
        other != entity,
    ensures
        ({
            let after = m.insert((x, y), (entity, resource_type));
            &&& after.contains_key((x, y))
            &&& after[(x, y)].0 == entity
            &&& after[(x, y)].0 != other
        }),
{
}

/// Releasing a pawn's locks leaves it holding none, and every other pawn's
/// locks exactly as they were.
pub proof fn lemma_release_is_complete(m: Map<(i32, i32), (u64, ResourceType)>, entity: u64)
    ensures
        forall|c: (i32, i32)| #[trigger]
            without_holder(m, entity).contains_key(c) ==> without_holder(m, entity)[c].0 != entity,
        forall|c: (i32, i32)| #[trigger]
            m.contains_key(c) && m[c].0 != entity ==> without_holder(m, entity).contains_key(c)
                && without_holder(m, entity)[c] == m[c],
{
}

/// Releasing undoes locking: when a pawn holding no lock locks a free cell,
/// releasing its locks gives back the locks as they were before.
pub proof fn lemma_release_undoes_lock(
    m: Map<(i32, i32), (u64, ResourceType)>,
    x: i32,
    y: i32,
    entity: u64,
    resource_type: ResourceType,
)
    requires
        !m.contains_key((x, y)),
        forall|c: (i32, i32)| #[trigger] m.contains_key(c) ==> m[c].0 != entity,
    ensures
        without_holder(m.insert((x, y), (entity, resource_type)), entity) == m,
{
    assert(without_holder(m.insert((x, y), (entity, resource_type)), entity) =~= m);
}

/// Gathering conserves the resource: what is gathered plus what is left is
/// what the tile held, and a tile emptied holds no resource any more.
pub proof fn lemma_gather_conserves(t: Tile, amount: u32)
    ensures
        ({
            let gathered = min_int(t.resource_amount as int, amount as int);
            let left = after_gather(t, gathered);
            &&& 0 <= gathered <= amount
            &&& gathered + left.resource_amount == t.resource_amount
            &&& (left.resource_amount == 0 ==> left.resource_type == ResourceType::Nothing)
            &&& left.passable == t.passable
        }),
{
}

/// Exclusive reservations of map cells by pawns.
#[derive(Clone, Debug)]
pub struct TileLocks {
    pub locks: Vec<LockEntry>,
}

impl View for TileLocks {
    type V = Map<(i32, i32), (u64, ResourceType)>;

    open spec fn view(&self) -> Map<(i32, i32), (u64, ResourceType)> {
        lock_map(self.locks@)
    }
}

impl TileLocks {
    /// No cell has two entries.
    pub open spec fn wf(&self) -> bool {
        unique_cells(self.locks@)
    }

    pub open spec fn locked_spec(&self, x: i32, y: i32) -> bool {
        self@.contains_key((x, y))
    }

    pub open spec fn locked_by_spec(&self, x: i32, y: i32, entity: u64) -> bool {
        self@.contains_key((x, y)) && self@[(x, y)].0 == entity
    }

    pub fn new() -> (l: TileLocks)
        ensures
            l.wf(),
            l@ == Map::<(i32, i32), (u64, ResourceType)>::empty(),
    {
        TileLocks { locks: Vec::new() }
    }

    /// Position in `locks` of the entry for `(x, y)`, if any.
    fn find(&self, x: i32, y: i32) -> (r: Option<usize>)
        requires
            self.wf(),
        ensures
            match r {
                Some(i) => i < self.locks@.len() && entry_cell(self.locks@[i as int]) == (x, y)
                    && self@.contains_key((x, y)) && self@[(x, y)] == entry_holder(
                    self.locks@[i as int],
                ),
                None => !self@.contains_key((x, y)),
            },
    {
        proof {
            lemma_lock_map(self.locks@);
        }
        let mut i: usize = 0;
        while i < self.locks.len()
            invariant
                self.wf(),
                0 <= i <= self.locks@.len(),
                forall|j: int| 0 <= j < i ==> entry_cell(#[trigger] self.locks@[j]) != (x, y),
            decreases self.locks@.len() - i,
        {
            let e = self.locks[i];
            if e.x == x && e.y == y {
                proof {
                    lemma_lock_map(self.locks@);
                    assert(self@.contains_key(entry_cell(self.locks@[i as int])));
                }
                return Some(i);
            }
            i = i + 1;
        }
        None
    }

    pub fn is_locked(&self, x: i32, y: i32) -> (b: bool)
        requires
            self.wf(),
        ensures
            b == self.locked_spec(x, y),
    {
        self.find(x, y).is_some()
    }

    pub fn is_locked_by(&self, x: i32, y: i32, entity: u64) -> (b: bool)
        requires
            self.wf(),
        ensures
            b == self.locked_by_spec(x, y, entity),
    {
        match self.find(x, y) {
            Some(i) => self.locks[i].entity == entity,
            None => false,
        }
    }

    /// Reserves `(x, y)` for `entity`. Succeeds when the cell was free (the
    /// lock is then taken) or already held by `entity` (nothing changes);
    /// fails, changing nothing, when another entity holds it.
    pub fn try_lock(&mut self, x: i32, y: i32, entity: u64, resource_type: ResourceType) -> (ok:
        bool)
        requires
            old(self).wf(),
        ensures
            final(self).wf(),
            old(self)@.contains_key((x, y)) ==> {
                &&& ok == (old(self)@[(x, y)].0 == entity)
                &&& final(self)@ == old(self)@
            },
            !old(self)@.contains_key((x, y)) ==> {
                &&& ok
                &&& final(self)@ == old(self)@.insert((x, y), (entity, resource_type))
            },
    {
        match self.find(x, y) {
            Some(i) => self.locks[i].entity == entity,
            None => {
                let e = LockEntry { x, y, entity, resource_type };
                proof {
                    lemma_lock_map(self.locks@);
                    assert(self.locks@.push(e).drop_last() =~= self.locks@);
                }
                self.locks.push(e);
                proof {
                    assert forall|i: int, j: int|
                        0 <= i < self.locks@.len() && 0 <= j < self.locks@.len() && i != j
                            implies entry_cell(#[trigger] self.locks@[i]) != entry_cell(
                        #[trigger] self.locks@[j],
                    ) by {
                        if i < old(self).locks@.len() && j < old(self).locks@.len() {
                            assert(self.locks@[i] == old(self).locks@[i]);
                            assert(self.locks@[j] == old(self).locks@[j]);
                        } else if i < old(self).locks@.len() {
                            assert(self.locks@[i] == old(self).locks@[i]);
                            assert(old(self)@.contains_key(entry_cell(old(self).locks@[i])));
                        } else {
                            assert(self.locks@[j] == old(self).locks@[j]);
                            assert(old(self)@.contains_key(entry_cell(old(self).locks@[j])));
                        }
                    }
                }
                true
            },
        }
    }

    /// Releases every lock held by `entity`; other locks stay as they were.
    pub fn unlock_entity(&mut self, entity: u64)
        requires
            old(self).wf(),
        ensures
            final(self).wf(),
            final(self)@ == without_holder(old(self)@, entity),
    {
        let ghost s = self.locks@;
        let mut kept: Vec<LockEntry> = Vec::new();
        let mut i: usize = 0;
        proof {
            lemma_lock_map(s);
        }
        while i < self.locks.len()
            invariant
                s == self.locks@,
                unique_cells(s),
                0 <= i <= s.len(),
                unique_cells(kept@),
                lock_map(kept@) == without_holder(lock_map(s.take(i as int)), entity),
            decreases s.len() - i,
        {
            let e = self.locks[i];
            proof {
                assert(s.take(i + 1).drop_last() =~= s.take(i as int));
                assert(s.take(i + 1).last() == e);
                assert(unique_cells(s.take(i as int)));
                lemma_lock_map(s.take(i as int));
                lemma_lock_map(kept@);
                if lock_map(s.take(i as int)).contains_key(entry_cell(e)) {
                    let m = choose|m: int|
                        0 <= m < s.take(i as int).len() && entry_cell(s.take(i as int)[m])
                            == entry_cell(e);
                    assert(s[m] == s.take(i as int)[m]);
                }
            }
            if e.entity != entity {
                proof {
                    assert(kept@.push(e).drop_last() =~= kept@);
                }
                kept.push(e);
                proof {
                    assert forall|a: int, b: int|
                        0 <= a < kept@.len() && 0 <= b < kept@.len() && a != b implies entry_cell(
                        #[trigger] kept@[a],
                    ) != entry_cell(#[trigger] kept@[b]) by {
                        if a < kept@.len() - 1 && b < kept@.len() - 1 {
                        } else if a < kept@.len() - 1 {
                            assert(lock_map(kept@.drop_last()).contains_key(entry_cell(kept@[a])));
                        } else {
                            assert(lock_map(kept@.drop_last()).contains_key(entry_cell(kept@[b])));
                        }
                    }
                }
            }
            proof {
                assert(lock_map(kept@) =~= without_holder(lock_map(s.take(i + 1)), entity));
            }
            i = i + 1;
        }
        proof {
            assert(s.take(s.len() as int) =~= s);
        }
        self.locks = kept;
    }
}


/// Work requests waiting for a slot, and the work handed out so far.
#[derive(Clone, Debug)]
pub struct TaskScheduler {
    /// Requests in arrival order: who asks, from where, for what kind of work.
    pub pending_requests: Vec<(u64, Position, TaskCategory)>,
    /// The target cell and kind of work assigned to each pawn.
    pub assignments: HashMap<u64, (Position, TaskCategory)>,
}

impl TaskScheduler {
    pub fn new() -> (s: TaskScheduler)
        ensures
            s.pending_requests@.len() == 0,
            s.assignments@ == Map::<u64, (Position, TaskCategory)>::empty(),
    {
        TaskScheduler { pending_requests: Vec::new(), assignments: HashMap::new() }
    }

    /// Queues a request of `entity`, standing at `position`, for work of `category`.
    pub fn request_task(&mut self, entity: u64, position: Position, category: TaskCategory)
        ensures
            final(self).pending_requests@ == old(self).pending_requests@.push(
                (entity, position, category),
            ),
            final(self).assignments@ == old(self).assignments@,
    {
        self.pending_requests.push((entity, position, category));
    }

    pub fn has_assignment(&self, entity: u64) -> (b: bool)
        ensures
            b == self.assignments@.contains_key(entity),
    {
        self.assignments.contains_key(&entity)
    }

    pub fn get_assignment(&self, entity: u64) -> (r: Option<(Position, TaskCategory)>)
        ensures
            r == if self.assignments@.contains_key(entity) {
                Some(self.assignments@[entity])
            } else {
                None
            },
    {
        match self.assignments.get(&entity) {
            Some(a) => Some(*a),
            None => None,
        }
    }

    /// Records that `entity` works on `category` at `position`.
    pub fn assign(&mut self, entity: u64, position: Position, category: TaskCategory)
        ensures
            final(self).assignments@ == old(self).assignments@.insert(entity, (position, category)),
            final(self).pending_requests@ == old(self).pending_requests@,
    {
        self.assignments.insert(entity, (position, category));
    }

    /// Forgets the assignment of `entity`, if it has one.
    pub fn complete_task(&mut self, entity: u64)
        ensures
            final(self).assignments@ == old(self).assignments@.remove(entity),
            final(self).pending_requests@ == old(self).pending_requests@,
    {
        self.assignments.remove(&entity);
    }
}

/// Completing undoes assigning: when a pawn without an assignment is given
/// one, completing its task gives back the assignments as they were before.
pub proof fn lemma_complete_undoes_assign(
    assignments: Map<u64, (Position, TaskCategory)>,
    entity: u64,
    position: Position,
    category: TaskCategory,
)
    requires
        !assignments.contains_key(entity),
    ensures
        assignments.insert(entity, (position, category)).remove(entity) == assignments,
{
    assert(assignments.insert(entity, (position, category)).remove(entity) =~= assignments);
}

/// Save and load requests waiting to be carried out, each naming a file.
#[derive(Clone, Debug)]
pub struct SaveLoadState {
    pub pending_save: Option<String>,
    pub pending_load: Option<String>,
}

impl SaveLoadState {
    pub fn new() -> (s: SaveLoadState)
        ensures
            s.pending_save.is_none(),
            s.pending_load.is_none(),
    {
        SaveLoadState { pending_save: None, pending_load: None }
    }
}

/// A command sent by a network client.
#[derive(Clone, Debug)]
pub enum NetworkCommand {
    Subscribe,
    Unsubscribe,
    SaveGame(String),
    LoadGame(String),
    SpawnPawn(Position),
    SetTile(Position, Tile),
}

} // verus!
