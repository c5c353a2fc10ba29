//! A* search over the tile map, with 8-way movement, straight steps costing
//! 10 and diagonal steps 14, and optional tile locks that block every cell
//! but the goal.

use vstd::prelude::*;

use crate::components::{Position, abs_int, min_int};
use crate::open_set::{
    CellQueue,
    queue_entries,
    open_set_new,
    open_set_push,
    open_set_pop,
    open_set_contains,
    open_set_change_priority,
};
use crate::resources::{
    TileMap,
    TileLocks,
    cell_count,
    direction,
    direction_spec,
    interior_coords,
    neighbor_candidates,
    lemma_index_in_range,
    lemma_index_injective,
};

verus! {

/// Octile distance between two cells, in step-cost units.
pub open spec fn heuristic_spec(a: Position, b: Position) -> int {
    let dx = abs_int(a.x - b.x);
    let dy = abs_int(a.y - b.y);
    10 * abs_int(dx - dy) + 14 * min_int(dx, dy)
}

/// Whether the octile distance between `a` and `b` can be computed in `i32`.
pub open spec fn heuristic_fits(a: Position, b: Position) -> bool {
    &&& abs_int(a.x - b.x) <= i32::MAX
    &&& abs_int(a.y - b.y) <= i32::MAX
    &&& heuristic_spec(a, b) <= i32::MAX
}

/// The heuristic never drops by more than the cost of a step: for a move
/// from `a` to a neighbouring cell `n`, `h(a) <= cost(a, n) + h(n)`. With
/// `h(goal) == 0` this makes it a lower bound on the cost of any walk.
pub proof fn lemma_heuristic_consistent(a: Position, n: Position, goal: Position)
    requires
        abs_int(a.x - n.x) <= 1,
        abs_int(a.y - n.y) <= 1,
        a != n,
    ensures
        heuristic_spec(a, goal) <= step_cost(a, n) + heuristic_spec(n, goal),
        heuristic_spec(goal, goal) == 0,
{
}

/// Cost of one step from `a` to `b`: 14 for a diagonal step, 10 otherwise.
pub open spec fn step_cost(a: Position, b: Position) -> int {
    if abs_int(a.x - b.x) == 1 && abs_int(a.y - b.y) == 1 {
        14
    } else {
        10
    }
}

/// Whether a walk may enter `p`: it must be passable and, when locks are
/// given, not locked unless it is the goal.
pub open spec fn step_allowed(
    map: &TileMap,
    locks: Option<&TileLocks>,
    goal: Position,
    p: Position,
) -> bool {
    &&& map.passable_at(p.x as int, p.y as int)
    &&& match locks {
        Some(l) => p == goal || !l.locked_spec(p.x, p.y),
        None => true,
    }
}

/// The cells a walk may move to from `pos`, in direction order.
pub open spec fn allowed_neighbors(
    map: &TileMap,
    locks: Option<&TileLocks>,
    goal: Position,
    pos: Position,
) -> Seq<Position> {
    neighbor_candidates(pos).filter(|p: Position| step_allowed(map, locks, goal, p))
}

/// One move of a walk.
pub open spec fn is_step(
    map: &TileMap,
    locks: Option<&TileLocks>,
    goal: Position,
    a: Position,
    b: Position,
) -> bool {
    allowed_neighbors(map, locks, goal, a).contains(b)
}

/// Every consecutive pair of `w` is a move.
pub open spec fn is_walk(
    map: &TileMap,
    locks: Option<&TileLocks>,
    goal: Position,
    w: Seq<Position>,
) -> bool {
    forall|i: int| 0 <= i < w.len() - 1 ==> #[trigger] is_step(map, locks, goal, w[i], w[i + 1])
}

/// A walk from `start` to `goal`.
pub open spec fn is_path(
    map: &TileMap,
    locks: Option<&TileLocks>,
    start: Position,
    goal: Position,
    w: Seq<Position>,
) -> bool {
    &&& w.len() >= 1
    &&& w[0] == start
    &&& w.last() == goal
    &&& is_walk(map, locks, goal, w)
}

/// Total step cost of a walk.
pub open spec fn walk_cost(w: Seq<Position>) -> int
    decreases w.len(),
{
    if w.len() <= 1 {
        0
    } else {
        walk_cost(w.drop_last()) + step_cost(w[w.len() - 2], w.last())
    }
}

/// `w` is a path from `start` to `goal` and no such path costs less.
pub open spec fn is_shortest_path(
    map: &TileMap,
    locks: Option<&TileLocks>,
    start: Position,
    goal: Position,
    w: Seq<Position>,
) -> bool {
    &&& is_path(map, locks, start, goal, w)
    &&& forall|v: Seq<Position>| #[trigger]
        is_path(map, locks, start, goal, v) ==> walk_cost(w) <= walk_cost(v)
}

/// Some walk leads from `start` to `goal`.
pub open spec fn reachable(
    map: &TileMap,
    locks: Option<&TileLocks>,
    start: Position,
    goal: Position,
) -> bool {
    exists|w: Seq<Position>| is_path(map, locks, start, goal, w)
}

/// Whether every cost the search computes fits in an `i32`: the search
/// settles at most one cell more than the grid holds, each step costs at
/// most 14, and the heuristic of a cell is at most 14 times its distance to
/// the goal; the start may lie anywhere, so its own neighbours and distance
/// to the goal must be computable.
pub open spec fn search_fits(map: &TileMap, start: Position, goal: Position) -> bool {
    &&& 14 * (cell_count(map.width as int, map.height as int) + 1) + 14 * (map.width
        + map.height) <= i32::MAX
    &&& interior_coords(start)
    &&& heuristic_fits(start, goal)
}

/// A cell of the search: its cost from the start, its estimate to the goal,
/// and the cell it was reached from.
#[derive(Clone, Copy, Debug, PartialEq, Eq, Structural)]
struct Node {
    position: Position,
    g_cost: i32,
    h_cost: i32,
    parent: Option<Position>,
}

impl Node {
    fn new(position: Position, g_cost: i32, h_cost: i32, parent: Option<Position>) -> (n: Node)
        ensures
            n == (Node { position, g_cost, h_cost, parent }),
    {
        Node { position, g_cost, h_cost, parent }
    }

    fn f_cost(&self) -> (f: i32)
        requires
            self.g_cost + self.h_cost <= i32::MAX,
            self.g_cost + self.h_cost >= i32::MIN,
        ensures
            f == self.g_cost + self.h_cost,
    {
        self.g_cost + self.h_cost
    }
}

fn heuristic(a: &Position, b: &Position) -> (h: i32)
    requires
        heuristic_fits(*a, *b),
    ensures
        h == heuristic_spec(*a, *b),
{
    let ddx: i32 = a.x - b.x;
    let ddy: i32 = a.y - b.y;
    let dx: i32 = if ddx < 0 { -ddx } else { ddx };
    let dy: i32 = if ddy < 0 { -ddy } else { ddy };
    let sd: i32 = dx - dy;
    let straight: i32 = if sd < 0 { -sd } else { sd };
    let diagonal: i32 = if dx <= dy { dx } else { dy };
    straight * 10 + diagonal * 14
}

fn get_distance(a: &Position, b: &Position) -> (d: i32)
    requires
        abs_int(a.x - b.x) <= i32::MAX,
        abs_int(a.y - b.y) <= i32::MAX,
    ensures
        d == step_cost(*a, *b),
{
    let ddx: i32 = a.x - b.x;
    let ddy: i32 = a.y - b.y;
    let dx: i32 = if ddx < 0 { -ddx } else { ddx };
    let dy: i32 = if ddy < 0 { -ddy } else { ddy };
    if dx == 1 && dy == 1 {
        14
    } else {
        10
    }
}

/// The cells the search may move to from `pos`, in direction order: passable,
/// and with locks given, not locked unless the cell is the goal.
fn get_neighbors_with_locks(
    tile_map: &TileMap,
    pos: &Position,
    goal: &Position,
    tile_locks: Option<&TileLocks>,
) -> (n: Vec<Position>)
    requires
        tile_map.wf(),
        interior_coords(*pos),
        tile_locks matches Some(l) ==> l.wf(),
    ensures
        n@ == allowed_neighbors(tile_map, tile_locks, *goal, *pos),
{
    let mut neighbors: Vec<Position> = Vec::new();
    let ghost pred = |p: Position| step_allowed(tile_map, tile_locks, *goal, p);
    let ghost cands = neighbor_candidates(*pos);
    let mut k: usize = 0;
    while k < 8
        invariant
            tile_map.wf(),
            interior_coords(*pos),
            tile_locks matches Some(l) ==> l.wf(),
            0 <= k <= 8,
            cands == neighbor_candidates(*pos),
            pred == (|p: Position| step_allowed(tile_map, tile_locks, *goal, p)),
            neighbors@ == cands.take(k as int).filter(pred),
        decreases 8 - k,
    {
        let (dx, dy) = direction(k);
        let nx: i32 = pos.x + dx;
        let ny: i32 = pos.y + dy;
        let neighbor_pos = Position::new(nx, ny);
        proof {
            reveal_with_fuel(Seq::<_>::filter, 1);
            assert(cands.take(k + 1).drop_last() =~= cands.take(k as int));
            assert(cands[k as int] == neighbor_pos);
        }
        k = k + 1;
        if !tile_map.is_passable(nx, ny) {
            continue;
        }
        if let Some(locks) = tile_locks {
            if neighbor_pos != *goal && locks.is_locked(nx, ny) {
                continue;
            }
        }
        neighbors.push(neighbor_pos);
    }
    proof {
        assert(cands.take(8) =~= cands);
    }
    neighbors
}


/// Number of `false` entries of `s`.
pub open spec fn count_unset(s: Seq<bool>) -> nat
    decreases s.len(),
{
    if s.len() == 0 {
        0
    } else {
        count_unset(s.drop_last()) + if s.last() {
            0nat
        } else {
            1nat
        }
    }
}

/// Setting an unset entry lowers the count of unset entries by one.
proof fn lemma_count_unset_set(s: Seq<bool>, i: int)
    requires
        0 <= i < s.len(),
        !s[i],
    ensures
        count_unset(s.update(i, true)) + 1 == count_unset(s),
    decreases s.len(),
{
    if i == s.len() - 1 {
        assert(s.update(i, true).drop_last() =~= s.drop_last());
    } else {
        assert(s.update(i, true).drop_last() =~= s.drop_last().update(i, true));
        lemma_count_unset_set(s.drop_last(), i);
    }
}

/// The facts a move gives: the target may be entered and lies next to the source.
proof fn lemma_step_facts(
    map: &TileMap,
    locks: Option<&TileLocks>,
    goal: Position,
    a: Position,
    b: Position,
)
    requires
        is_step(map, locks, goal, a, b),
    ensures
        step_allowed(map, locks, goal, b),
        map.passable_at(b.x as int, b.y as int),
        abs_int(b.x - a.x) <= 1 && abs_int(b.y - a.y) <= 1 && b != a,
{
    let pred = |p: Position| step_allowed(map, locks, goal, p);
    let f = neighbor_candidates(a).filter(pred);
    let i = choose|i: int| 0 <= i < f.len() && f[i] == b;
    neighbor_candidates(a).lemma_filter_pred(pred, i);
    neighbor_candidates(a).lemma_filter_contains_rev(pred, b);
    let k = choose|k: int| 0 <= k < 8 && neighbor_candidates(a)[k] == b;
    assert(neighbor_candidates(a)[k] == b);
    lemma_wrap(a.x);
    lemma_wrap(a.y);
}

/// Stepping off the end of the `i32` range wraps to the other end, where no
/// cell of a map lies.
proof fn lemma_wrap(v: i32)
    ensures
        v == 0x7fff_ffffi32 ==> (v + 1) as i32 == -0x8000_0000i32,
        v == -0x8000_0000i32 ==> (v - 1) as i32 == 0x7fff_ffffi32,
{
    assert(v == 0x7fff_ffffi32 ==> (v + 1) as i32 == -0x8000_0000i32) by (bit_vector);
    assert(v == -0x8000_0000i32 ==> (v - 1) as i32 == 0x7fff_ffffi32) by (bit_vector);
}

/// Step costs are positive, so walk costs are never negative.
proof fn lemma_walk_cost_nonneg(w: Seq<Position>)
    ensures
        walk_cost(w) >= 0,
    decreases w.len(),
{
    if w.len() > 1 {
        lemma_walk_cost_nonneg(w.drop_last());
    }
}

/// The cost of a walk is that of its part up to index `i` plus that of its
/// part from index `i` on.
proof fn lemma_walk_cost_split(w: Seq<Position>, i: int)
    requires
        0 <= i < w.len(),
    ensures
        walk_cost(w) == walk_cost(w.take(i + 1)) + walk_cost(w.skip(i)),
    decreases w.len(),
{
    if i == w.len() - 1 {
        assert(w.take(i + 1) =~= w);
        assert(w.skip(i).len() == 1);
    } else {
        let v = w.drop_last();
        lemma_walk_cost_split(v, i);
        assert(v.take(i + 1) =~= w.take(i + 1));
        assert(w.skip(i).drop_last() =~= v.skip(i));
        assert(w.skip(i).len() >= 2);
        let sk = w.skip(i);
        assert(sk[sk.len() - 2] == w[w.len() - 2]);
        assert(sk.last() == w.last());
    }
}

/// A prefix of a walk is a walk.
proof fn lemma_walk_prefix(
    map: &TileMap,
    locks: Option<&TileLocks>,
    goal: Position,
    w: Seq<Position>,
    n: int,
)
    requires
        is_walk(map, locks, goal, w),
        1 <= n <= w.len(),
    ensures
        is_walk(map, locks, goal, w.take(n)),
{
    let t = w.take(n);
    assert forall|i: int| 0 <= i < t.len() - 1 implies #[trigger] is_step(map, locks, goal, t[i], t[i + 1]) by {
        assert(is_step(map, locks, goal, w[i], w[i + 1]));
    }
}

/// A suffix of a walk is a walk.
proof fn lemma_walk_suffix(
    map: &TileMap,
    locks: Option<&TileLocks>,
    goal: Position,
    w: Seq<Position>,
    i: int,
)
    requires
        is_walk(map, locks, goal, w),
        0 <= i < w.len(),
    ensures
        is_walk(map, locks, goal, w.skip(i)),
{
    let t = w.skip(i);
    assert forall|j: int| 0 <= j < t.len() - 1 implies #[trigger] is_step(map, locks, goal, t[j], t[j + 1]) by {
        assert(is_step(map, locks, goal, w[i + j], w[i + j + 1]));
    }
}

/// Along a walk over interior cells the heuristic drops by at most the cost
/// walked.
proof fn lemma_heuristic_along(
    map: &TileMap,
    locks: Option<&TileLocks>,
    goal: Position,
    s: Seq<Position>,
)
    requires
        is_walk(map, locks, goal, s),
        s.len() >= 1,
    ensures
        heuristic_spec(s[0], goal) <= walk_cost(s) + heuristic_spec(s.last(), goal),
    decreases s.len(),
{
    if s.len() > 1 {
        let v = s.drop_last();
        assert forall|i: int| 0 <= i < v.len() - 1 implies #[trigger] is_step(map, locks, goal, v[i], v[i + 1]) by {
            assert(is_step(map, locks, goal, s[i], s[i + 1]));
        }
        lemma_heuristic_along(map, locks, goal, v);
        let a = s[s.len() - 2];
        let b = s.last();
        assert(is_step(map, locks, goal, s[s.len() - 2], s[s.len() - 2 + 1]));
        lemma_step_facts(map, locks, goal, a, b);
        lemma_heuristic_consistent(a, b, goal);
    }
}

/// The heuristic never overestimates: no path from `start` to `goal` costs
/// less than their octile distance.
pub proof fn lemma_heuristic_admissible(
    map: &TileMap,
    locks: Option<&TileLocks>,
    start: Position,
    goal: Position,
    w: Seq<Position>,
)
    requires
        is_path(map, locks, start, goal, w),
    ensures
        heuristic_spec(start, goal) <= walk_cost(w),
{
    lemma_heuristic_along(map, locks, goal, w);
}

/// Storage of the search: for every grid cell, its node and whether it is
/// settled; the start, which may lie outside the grid, has a slot of its own
/// for that case.
struct SearchStore {
    width: i32,
    height: i32,
    start: Position,
    nodes: Vec<Option<Node>>,
    closed: Vec<bool>,
    start_node: Option<Node>,
    start_closed: bool,
}

impl SearchStore {
    spec fn in_grid(&self, p: Position) -> bool {
        0 <= p.x < self.width && 0 <= p.y < self.height
    }

    spec fn idx(&self, p: Position) -> int {
        p.x * self.height + p.y
    }

    spec fn wf(&self) -> bool {
        &&& self.nodes@.len() == cell_count(self.width as int, self.height as int)
        &&& self.closed@.len() == cell_count(self.width as int, self.height as int)
    }

    spec fn tracked_cell(&self, p: Position) -> bool {
        self.in_grid(p) || p == self.start
    }

    spec fn has_node(&self, p: Position) -> bool {
        if self.in_grid(p) {
            self.nodes@[self.idx(p)].is_some()
        } else {
            p == self.start && self.start_node.is_some()
        }
    }

    spec fn node_at(&self, p: Position) -> Node {
        if self.in_grid(p) {
            self.nodes@[self.idx(p)].unwrap()
        } else {
            self.start_node.unwrap()
        }
    }

    /// The nodes of the search, by cell.
    spec fn node_map(&self) -> Map<Position, Node> {
        Map::new(|p: Position| self.has_node(p), |p: Position| self.node_at(p))
    }

    /// Whether a cell is settled.
    spec fn closed_at(&self, p: Position) -> bool {
        if self.in_grid(p) {
            self.closed@[self.idx(p)]
        } else {
            p == self.start && self.start_closed
        }
    }

    /// Cells that could still be settled.
    spec fn remaining(&self) -> nat {
        count_unset(self.closed@) + if !self.in_grid(self.start) && !self.start_closed {
            1nat
        } else {
            0nat
        }
    }

    proof fn lemma_idx(&self, p: Position)
        requires
            self.wf(),
            self.in_grid(p),
        ensures
            0 <= self.idx(p) < self.nodes@.len(),
    {
        lemma_index_in_range(self.width as int, self.height as int, p.x as int, p.y as int);
    }

    proof fn lemma_idx_injective(&self, p: Position, q: Position)
        requires
            self.wf(),
            self.in_grid(p),
            self.in_grid(q),
            p != q,
        ensures
            self.idx(p) != self.idx(q),
    {
        if self.idx(p) == self.idx(q) {
            lemma_index_injective(self.height as int, p.x as int, p.y as int, q.x as int, q.y as int);
        }
    }

    fn new(tile_map: &TileMap, start: Position) -> (st: SearchStore)
        requires
            tile_map.wf(),
        ensures
            st.wf(),
            st.width == tile_map.width,
            st.height == tile_map.height,
            st.start == start,
            forall|p: Position| !st.has_node(p) && !st.closed_at(p),
            st.remaining() == cell_count(tile_map.width as int, tile_map.height as int) + if !st.in_grid(start) {
                1int
            } else {
                0int
            },
    {
        let n = tile_map.tiles.len();
        let mut nodes: Vec<Option<Node>> = Vec::new();
        let mut closed: Vec<bool> = Vec::new();
        let mut i: usize = 0;
        while i < n
            invariant
                0 <= i <= n,
                nodes@.len() == i,
                closed@.len() == i,
                forall|j: int| 0 <= j < i ==> #[trigger] nodes@[j] == None::<Node>,
                forall|j: int| 0 <= j < i ==> !#[trigger] closed@[j],
                count_unset(closed@) == i,
            decreases n - i,
        {
            proof {
                assert(closed@.push(false).drop_last() =~= closed@);
            }
            let ghost old_nodes = nodes@;
            let ghost old_closed = closed@;
            nodes.push(None);
            closed.push(false);
            proof {
                assert(nodes@ == old_nodes.push(None));
                assert(nodes@[i as int].is_none());
                assert(!closed@[i as int]);
                assert forall|j: int| 0 <= j < i + 1 implies nodes@[j] == None::<Node> && !closed@[j] by {
                    if j < i {
                        assert(nodes@[j] == old_nodes[j]);
                        assert(closed@[j] == old_closed[j]);
                    }
                }
            }
            i = i + 1;
        }
        let st = SearchStore {
            width: tile_map.width,
            height: tile_map.height,
            start,
            nodes,
            closed,
            start_node: None,
            start_closed: false,
        };
        proof {
            assert forall|p: Position| !st.has_node(p) && !st.closed_at(p) by {
                if st.in_grid(p) {
                    st.lemma_idx(p);
                }
            }
        }
        st
    }

    fn index(&self, p: Position) -> (i: usize)
        requires
            self.wf(),
            self.in_grid(p),
        ensures
            i == self.idx(p),
            i < self.nodes@.len(),
    {
        proof {
            self.lemma_idx(p);
            assert(0 <= p.x * self.height) by (nonlinear_arith)
                requires
                    0 <= p.x,
                    0 <= self.height,
            ;
        }
        let n = self.nodes.len();
        (p.x as usize) * (self.height as usize) + (p.y as usize)
    }

    fn in_grid_exec(&self, p: Position) -> (b: bool)
        ensures
            b == self.in_grid(p),
    {
        0 <= p.x && p.x < self.width && 0 <= p.y && p.y < self.height
    }

    fn get_node(&self, p: Position) -> (r: Option<Node>)
        requires
            self.wf(),
        ensures
            r == if self.node_map().contains_key(p) {
                Some(self.node_map()[p])
            } else {
                None
            },
    {
        if self.in_grid_exec(p) {
            let i = self.index(p);
            self.nodes[i]
        } else if p == self.start {
            self.start_node
        } else {
            None
        }
    }

    fn set_node(&mut self, p: Position, n: Node)
        requires
            old(self).wf(),
            old(self).tracked_cell(p),
        ensures
            final(self).wf(),
            final(self).width == old(self).width,
            final(self).height == old(self).height,
            final(self).start == old(self).start,
            final(self).closed@ == old(self).closed@,
            final(self).start_closed == old(self).start_closed,
            final(self).node_map() == old(self).node_map().insert(p, n),
            forall|q: Position| #[trigger] final(self).closed_at(q) == old(self).closed_at(q),
            final(self).remaining() == old(self).remaining(),
    {
        if self.in_grid_exec(p) {
            let i = self.index(p);
            self.nodes.set(i, Some(n));
            proof {
                assert forall|q: Position| #[trigger] self.has_node(q) == (q == p || old(self).has_node(q))
                    && (self.has_node(q) ==> self.node_at(q) == if q == p {
                    n
                } else {
                    old(self).node_at(q)
                }) by {
                    if self.in_grid(q) && q != p {
                        self.lemma_idx(q);
                        self.lemma_idx_injective(p, q);
                    }
                }
                assert(self.node_map() =~= old(self).node_map().insert(p, n));
            }
        } else {
            self.start_node = Some(n);
            proof {
                assert forall|q: Position| #[trigger] self.has_node(q) == (q == p || old(self).has_node(q))
                    && (self.has_node(q) ==> self.node_at(q) == if q == p {
                    n
                } else {
                    old(self).node_at(q)
                }) by {
                    if self.in_grid(q) {
                        self.lemma_idx(q);
                    }
                }
                assert(self.node_map() =~= old(self).node_map().insert(p, n));
            }
        }
    }

    fn is_closed(&self, p: Position) -> (b: bool)
        requires
            self.wf(),
        ensures
            b == self.closed_at(p),
    {
        if self.in_grid_exec(p) {
            let i = self.index(p);
            self.closed[i]
        } else if p == self.start {
            self.start_closed
        } else {
            false
        }
    }

    fn close(&mut self, p: Position)
        requires
            old(self).wf(),
            old(self).tracked_cell(p),
            !old(self).closed_at(p),
        ensures
            final(self).wf(),
            final(self).width == old(self).width,
            final(self).height == old(self).height,
            final(self).start == old(self).start,
            final(self).node_map() == old(self).node_map(),
            forall|q: Position| #[trigger] final(self).closed_at(q) == (q == p || old(self).closed_at(q)),
            final(self).remaining() + 1 == old(self).remaining(),
    {
        if self.in_grid_exec(p) {
            let i = self.index(p);
            proof {
                lemma_count_unset_set(self.closed@, i as int);
            }
            self.closed.set(i, true);
            proof {
                assert forall|q: Position| #[trigger] self.closed_at(q) == (q == p || old(self).closed_at(q)) by {
                    if self.in_grid(q) && q != p {
                        self.lemma_idx(q);
                        self.lemma_idx_injective(p, q);
                    }
                }
                assert(self.node_map() =~= old(self).node_map());
            }
        } else {
            self.start_closed = true;
            proof {
                assert(self.node_map() =~= old(self).node_map());
            }
        }
    }
}


#[verifier::opaque]
/// The search tree is well shaped: the start is its root, every other node
/// hangs off a settled node by a move, and a settled node's parent was
/// settled earlier (by `rank`, the order of settling).
spec fn tree_ok(
    st: &SearchStore,
    map: &TileMap,
    locks: Option<&TileLocks>,
    start: Position,
    goal: Position,
    rank: Map<Position, nat>,
) -> bool {
    let nm = st.node_map();
    &&& nm.contains_key(start)
    &&& nm[start].parent.is_none()
    &&& forall|p: Position| #[trigger]
        nm.contains_key(p) && p != start ==> {
            &&& nm[p].parent.is_some()
            &&& st.closed_at(nm[p].parent.unwrap())
            &&& nm.contains_key(nm[p].parent.unwrap())
            &&& is_step(map, locks, goal, nm[p].parent.unwrap(), p)
            &&& (st.closed_at(p) ==> rank[nm[p].parent.unwrap()] < rank[p])
        }
    &&& forall|p: Position| #[trigger]
        st.closed_at(p) ==> nm.contains_key(p) && rank.contains_key(p)
}

#[verifier::opaque]
/// The state the search keeps between two settled cells.
spec fn search_ok(
    st: &SearchStore,
    q: Map<(i32, i32), i64>,
    map: &TileMap,
    locks: Option<&TileLocks>,
    start: Position,
    goal: Position,
    rank: Map<Position, nat>,
    cc: nat,
) -> bool {
    let nm = st.node_map();
    &&& st.wf()
    &&& st.width == map.width
    &&& st.height == map.height
    &&& st.start == start
    &&& tree_ok(st, map, locks, start, goal, rank)
    &&& forall|p: Position| #[trigger]
        nm.contains_key(p) ==> 0 <= nm[p].g_cost <= 14 * cc
    &&& forall|p: Position| #[trigger] nm.contains_key(p) && p != start ==> st.in_grid(p)
    &&& forall|p: Position| #[trigger] st.closed_at(p) ==> rank[p] < cc
    &&& forall|k: (i32, i32)| #[trigger]
        q.contains_key(k) ==> nm.contains_key(Position { x: k.0, y: k.1 }) && !st.closed_at(
            Position { x: k.0, y: k.1 },
        )
    &&& forall|p: Position| #[trigger]
        nm.contains_key(p) && !st.closed_at(p) ==> q.contains_key((p.x, p.y))
    &&& !st.closed_at(goal)
    &&& st.remaining() + cc <= cell_count(map.width as int, map.height as int) + 1
    &&& cc == 0 ==> forall|k: (i32, i32)| #[trigger] q.contains_key(k) ==> k == (start.x, start.y)
    &&& cc > 0 ==> st.closed_at(start)
}

#[verifier::opaque]
/// Every move out of a settled cell (other than `except`) leads to a cell
/// the search has reached.
spec fn moves_reached(
    st: &SearchStore,
    map: &TileMap,
    locks: Option<&TileLocks>,
    goal: Position,
    except: Option<Position>,
) -> bool {
    forall|c: Position, n: Position|
        #![trigger st.closed_at(c), is_step(map, locks, goal, c, n)]
        st.closed_at(c) && except != Some(c) && is_step(map, locks, goal, c, n)
            ==> st.node_map().contains_key(n)
}

/// A walk from `a` to `b` (cells entered are checked against the locks with
/// `goal` exempt).
spec fn walk_between(
    map: &TileMap,
    locks: Option<&TileLocks>,
    goal: Position,
    a: Position,
    b: Position,
    w: Seq<Position>,
) -> bool {
    &&& w.len() >= 1
    &&& w[0] == a
    &&& w.last() == b
    &&& is_walk(map, locks, goal, w)
}

/// No walk from the start reaches `c` for less than `g`.
spec fn no_cheaper_walk(
    map: &TileMap,
    locks: Option<&TileLocks>,
    start: Position,
    goal: Position,
    c: Position,
    g: int,
) -> bool {
    forall|w: Seq<Position>| #[trigger]
        walk_between(map, locks, goal, start, c, w) ==> g <= walk_cost(w)
}

#[verifier::opaque]
/// The start costs nothing and every other node costs what its parent costs
/// plus the step from the parent.
spec fn chain_ok(st: &SearchStore, start: Position) -> bool {
    let nm = st.node_map();
    &&& nm.contains_key(start) ==> nm[start].g_cost == 0
    &&& forall|p: Position| #[trigger]
        nm.contains_key(p) && p != start ==> nm[p].g_cost == nm[nm[p].parent.unwrap()].g_cost
            + step_cost(nm[p].parent.unwrap(), p)
}

#[verifier::opaque]
/// The costs the search records: they follow the tree; a queued cell's
/// priority is minus its cost plus its estimate; a move out of a settled cell
/// (other than `except`) into an unsettled one offers nothing cheaper than
/// what is recorded there; and no walk reaches a settled cell for less than
/// its recorded cost.
spec fn costs_ok(
    st: &SearchStore,
    q: Map<(i32, i32), i64>,
    map: &TileMap,
    locks: Option<&TileLocks>,
    start: Position,
    goal: Position,
    except: Option<Position>,
) -> bool {
    let nm = st.node_map();
    &&& chain_ok(st, start)
    &&& forall|k: (i32, i32)| #[trigger]
        q.contains_key(k) ==> q[k] == -(nm[Position { x: k.0, y: k.1 }].g_cost + heuristic_spec(
            Position { x: k.0, y: k.1 },
            goal,
        ))
    &&& forall|c: Position, n: Position|
        #![trigger st.closed_at(c), is_step(map, locks, goal, c, n)]
        st.closed_at(c) && except != Some(c) && is_step(map, locks, goal, c, n) && !st.closed_at(n)
            ==> nm[n].g_cost <= nm[c].g_cost + step_cost(c, n)
    &&& forall|c: Position| #[trigger]
        st.closed_at(c) ==> no_cheaper_walk(map, locks, start, goal, c, nm[c].g_cost as int)
}

/// The first cell of `w` from index `i` on that is not settled.
proof fn lemma_first_open(st: &SearchStore, w: Seq<Position>, i: int) -> (j: int)
    requires
        0 <= i < w.len(),
        forall|k: int| 0 <= k < i ==> st.closed_at(#[trigger] w[k]),
        !st.closed_at(w.last()),
    ensures
        i <= j < w.len(),
        !st.closed_at(w[j]),
        forall|k: int| 0 <= k < j ==> st.closed_at(#[trigger] w[k]),
    decreases w.len() - i,
{
    if !st.closed_at(w[i]) {
        i
    } else {
        lemma_first_open(st, w, i + 1)
    }
}

/// A walk that starts in a set of cells closed under moves stays in it.
proof fn lemma_walk_stays(
    st: &SearchStore,
    map: &TileMap,
    locks: Option<&TileLocks>,
    goal: Position,
    w: Seq<Position>,
    i: int,
)
    requires
        is_walk(map, locks, goal, w),
        0 <= i < w.len(),
        st.closed_at(w[0]),
        forall|c: Position, n: Position|
            #![trigger st.closed_at(c), is_step(map, locks, goal, c, n)]
            st.closed_at(c) && is_step(map, locks, goal, c, n) ==> st.closed_at(n),
    ensures
        st.closed_at(w[i]),
    decreases i,
{
    if i > 0 {
        lemma_walk_stays(st, map, locks, goal, w, i - 1);
        assert(is_step(map, locks, goal, w[i - 1], w[i - 1 + 1]));
    }
}

/// A walk from a cell to a different goal ends by entering the goal, so the
/// goal must be passable.
proof fn lemma_goal_entered(
    map: &TileMap,
    locks: Option<&TileLocks>,
    start: Position,
    goal: Position,
)
    requires
        start != goal,
        !map.passable_at(goal.x as int, goal.y as int),
    ensures
        !reachable(map, locks, start, goal),
{
    assert forall|w: Seq<Position>| !is_path(map, locks, start, goal, w) by {
        if is_path(map, locks, start, goal, w) {
            assert(w.len() >= 2);
            let j = w.len() - 2;
            assert(is_step(map, locks, goal, w[j], w[j + 1]));
            lemma_step_facts(map, locks, goal, w[j], w[j + 1]);
        }
    }
}

/// In-grid cells are close enough to the goal for the heuristic to fit in an
/// `i32`, well below the bound of `search_fits`.
proof fn lemma_grid_heuristic(map: &TileMap, p: Position, goal: Position)
    requires
        0 <= p.x < map.width,
        0 <= p.y < map.height,
        0 <= goal.x < map.width,
        0 <= goal.y < map.height,
        14 * (map.width + map.height) <= i32::MAX,
    ensures
        heuristic_fits(p, goal),
        0 <= heuristic_spec(p, goal) <= 14 * (map.width + map.height),
{
}

/// Extending a chain of parent links, listed from a cell back towards the
/// start, by the parent of its last cell keeps every link a move whose cost
/// is the difference of the recorded costs.
proof fn lemma_chain_push(
    store: &SearchStore,
    map: &TileMap,
    locks: Option<&TileLocks>,
    goal: Position,
    rev: Seq<Position>,
    parent: Position,
)
    requires
        chain_ok(store, store.start),
        rev.len() >= 1,
        rev.last() != store.start,
        is_step(map, locks, goal, parent, rev.last()),
        store.node_map().contains_key(rev.last()),
        store.node_map()[rev.last()].parent == Some(parent),
        forall|t: int|
            0 <= t < rev.len() - 1 ==> #[trigger] is_step(map, locks, goal, rev[t + 1], rev[t]),
        forall|t: int|
            0 <= t < rev.len() - 1 ==> #[trigger] store.node_map()[rev[t]].g_cost
                == store.node_map()[rev[t + 1]].g_cost + step_cost(rev[t + 1], rev[t]),
    ensures
        forall|t: int|
            0 <= t < rev.push(parent).len() - 1 ==> #[trigger] is_step(
                map,
                locks,
                goal,
                rev.push(parent)[t + 1],
                rev.push(parent)[t],
            ),
        forall|t: int|
            0 <= t < rev.push(parent).len() - 1 ==> #[trigger] store.node_map()[rev.push(
                parent,
            )[t]].g_cost == store.node_map()[rev.push(parent)[t + 1]].g_cost + step_cost(
                rev.push(parent)[t + 1],
                rev.push(parent)[t],
            ),
{
    reveal(chain_ok);
    let r = rev.push(parent);
    assert forall|t: int| 0 <= t < r.len() - 1 implies #[trigger] is_step(map, locks, goal, r[t + 1], r[t]) by {
        if t < rev.len() - 1 {
            assert(is_step(map, locks, goal, rev[t + 1], rev[t]));
        }
    }
    assert forall|t: int| 0 <= t < r.len() - 1 implies #[trigger] store.node_map()[r[t]].g_cost
        == store.node_map()[r[t + 1]].g_cost + step_cost(r[t + 1], r[t]) by {
        if t < rev.len() - 1 {
            assert(store.node_map()[rev[t]].g_cost == store.node_map()[rev[t + 1]].g_cost + step_cost(
                rev[t + 1],
                rev[t],
            ));
        }
    }
}

/// Walks the parent links from the settled `current` back to the start and
/// returns the cells in order from the start to `current`.
fn reconstruct_path(
    store: &SearchStore,
    current: Position,
    tile_map: &TileMap,
    tile_locks: Option<&TileLocks>,
    goal: &Position,
    Ghost(rank): Ghost<Map<Position, nat>>,
) -> (path: Vec<Position>)
    requires
        store.wf(),
        tree_ok(store, tile_map, tile_locks, store.start, *goal, rank),
        chain_ok(store, store.start),
        store.closed_at(current),
        current == *goal,
    ensures
        is_path(tile_map, tile_locks, store.start, *goal, path@),
        walk_cost(path@) == store.node_map()[current].g_cost,
{
    proof {
        reveal(tree_ok);
        reveal(chain_ok);
    }
    let mut rev: Vec<Position> = Vec::new();
    rev.push(current);
    let mut cur = current;
    loop
        invariant
            store.wf(),
            tree_ok(store, tile_map, tile_locks, store.start, *goal, rank),
            chain_ok(store, store.start),
            store.closed_at(cur),
            rev@.len() >= 1,
            rev@[0] == current,
            rev@.last() == cur,
            forall|t: int|
                0 <= t < rev@.len() - 1 ==> #[trigger] is_step(
                    tile_map,
                    tile_locks,
                    *goal,
                    rev@[t + 1],
                    rev@[t],
                ),
            forall|t: int|
                0 <= t < rev@.len() - 1 ==> #[trigger] store.node_map()[rev@[t]].g_cost
                    == store.node_map()[rev@[t + 1]].g_cost + step_cost(rev@[t + 1], rev@[t]),
        ensures
            cur == store.start,
            rev@.len() >= 1,
            rev@[0] == current,
            rev@.last() == cur,
            forall|t: int|
                0 <= t < rev@.len() - 1 ==> #[trigger] is_step(
                    tile_map,
                    tile_locks,
                    *goal,
                    rev@[t + 1],
                    rev@[t],
                ),
            forall|t: int|
                0 <= t < rev@.len() - 1 ==> #[trigger] store.node_map()[rev@[t]].g_cost
                    == store.node_map()[rev@[t + 1]].g_cost + step_cost(rev@[t + 1], rev@[t]),
        decreases rank[cur],
    {
        proof {
            reveal(tree_ok);
            reveal(chain_ok);
        }
        match store.get_node(cur) {
            Some(node) => match node.parent {
                Some(parent) => {
                    let ghost old_rev = rev@;
                    rev.push(parent);
                    proof {
                        assert(cur != store.start);
                        assert(is_step(tile_map, tile_locks, *goal, parent, cur));
                        lemma_chain_push(store, tile_map, tile_locks, *goal, old_rev, parent);
                    }
                    cur = parent;
                },
                None => {
                    break ;
                },
            },
            None => {
                break ;
            },
        }
    }
    let n = rev.len();
    let mut path: Vec<Position> = Vec::new();
    let mut j: usize = n;
    while j > 0
        invariant
            n == rev@.len(),
            n >= 1,
            0 <= j <= n,
            path@.len() == n - j,
            forall|t: int| 0 <= t < path@.len() ==> #[trigger] path@[t] == rev@[n - 1 - t],
            forall|t: int|
                0 <= t < n - 1 ==> #[trigger] store.node_map()[rev@[t]].g_cost
                    == store.node_map()[rev@[t + 1]].g_cost + step_cost(rev@[t + 1], rev@[t]),
            rev@[n - 1] == store.start,
            store.node_map()[store.start].g_cost == 0,
            path@.len() >= 1 ==> walk_cost(path@) == store.node_map()[path@.last()].g_cost,
        decreases j,
    {
        j = j - 1;
        let ghost old_path = path@;
        path.push(rev[j]);
        proof {
            if old_path.len() >= 1 {
                assert(path@.drop_last() =~= old_path);
                assert(old_path.last() == rev@[j + 1]);
                assert(store.node_map()[rev@[j as int]].g_cost == store.node_map()[rev@[j + 1]].g_cost
                    + step_cost(rev@[j + 1], rev@[j as int]));
            }
        }
    }
    proof {
        assert forall|t: int| 0 <= t < path@.len() - 1 implies #[trigger] is_step(
            tile_map,
            tile_locks,
            *goal,
            path@[t],
            path@[t + 1],
        ) by {
            let u = n - 2 - t;
            assert(path@[t] == rev@[u + 1]);
            assert(path@[t + 1] == rev@[u]);
            assert(is_step(tile_map, tile_locks, *goal, rev@[u + 1], rev@[u]));
        }
        assert(path@[0] == rev@[n - 1]);
        assert(path@[n - 1] == rev@[0]);
    }
    path
}



/// The search starts with the start as the only node, queued and unsettled.
proof fn lemma_search_start(
    st: &SearchStore,
    q: Map<(i32, i32), i64>,
    map: &TileMap,
    locks: Option<&TileLocks>,
    start: Position,
    goal: Position,
)
    requires
        map.wf(),
        st.wf(),
        st.width == map.width,
        st.height == map.height,
        st.start == start,
        start != goal,
        map.passable_at(goal.x as int, goal.y as int),
        forall|p: Position| #[trigger] st.node_map().contains_key(p) <==> p == start,
        st.node_map()[start].parent.is_none(),
        st.node_map()[start].g_cost == 0,
        forall|p: Position| !#[trigger] st.closed_at(p),
        st.remaining() <= cell_count(map.width as int, map.height as int) + 1,
        forall|k: (i32, i32)| #[trigger] q.contains_key(k) <==> k == (start.x, start.y),
        q[(start.x, start.y)] == -heuristic_spec(start, goal),
    ensures
        search_ok(st, q, map, locks, start, goal, Map::empty(), 0),
        moves_reached(st, map, locks, goal, None),
        costs_ok(st, q, map, locks, start, goal, None),
{
    reveal(search_ok);
    reveal(tree_ok);
    reveal(moves_reached);
    reveal(costs_ok);
    reveal(chain_ok);
}

/// Settling the queued cell `key` keeps the search state, except that the
/// moves out of the new settled cell are still to be followed.
proof fn lemma_settle(
    prev: &SearchStore,
    st: &SearchStore,
    q_prev: Map<(i32, i32), i64>,
    q_now: Map<(i32, i32), i64>,
    key: (i32, i32),
    map: &TileMap,
    locks: Option<&TileLocks>,
    start: Position,
    goal: Position,
    rank: Map<Position, nat>,
    cc: nat,
)
    requires
        map.wf(),
        search_fits(map, start, goal),
        search_ok(prev, q_prev, map, locks, start, goal, rank, cc),
        moves_reached(prev, map, locks, goal, None),
        q_prev.contains_key(key),
        q_now == q_prev.remove(key),
        st.wf(),
        st.width == prev.width,
        st.height == prev.height,
        st.start == prev.start,
        st.node_map() == prev.node_map(),
        forall|p: Position| #[trigger]
            st.closed_at(p) == (p == (Position { x: key.0, y: key.1 }) || prev.closed_at(p)),
        st.remaining() + 1 == prev.remaining(),
    ensures
        ({
            let cur = Position { x: key.0, y: key.1 };
            &&& tree_ok(st, map, locks, start, goal, rank.insert(cur, cc))
            &&& st.closed_at(cur)
            &&& st.wf()
            &&& st.start == start
            &&& cur != goal ==> search_ok(
                st,
                q_now,
                map,
                locks,
                start,
                goal,
                rank.insert(cur, cc),
                cc + 1,
            ) && moves_reached(st, map, locks, goal, Some(cur))
            &&& st.node_map().contains_key(cur)
            &&& 0 <= st.node_map()[cur].g_cost <= 14 * cc
            &&& interior_coords(cur)
        }),
{
    reveal(search_ok);
    reveal(tree_ok);
    reveal(moves_reached);
    let cur = Position { x: key.0, y: key.1 };
    let rank2 = rank.insert(cur, cc);
    let nm = st.node_map();
    assert(prev.node_map().contains_key(cur));
    assert(!prev.closed_at(cur));
    assert forall|p: Position| #[trigger] nm.contains_key(p) && p != start implies {
        &&& nm[p].parent.is_some()
        &&& st.closed_at(nm[p].parent.unwrap())
        &&& nm.contains_key(nm[p].parent.unwrap())
        &&& is_step(map, locks, goal, nm[p].parent.unwrap(), p)
        &&& (st.closed_at(p) ==> rank2[nm[p].parent.unwrap()] < rank2[p])
    } by {
        let par = nm[p].parent.unwrap();
        assert(prev.closed_at(par));
        assert(par != cur);
        if p != cur && st.closed_at(p) {
            assert(prev.closed_at(p));
        }
    }
    assert forall|p: Position| #[trigger] st.closed_at(p) implies nm.contains_key(p)
        && rank2.contains_key(p) && rank2[p] < cc + 1 by {
        if p != cur {
            assert(prev.closed_at(p));
        }
    }
    assert(tree_ok(st, map, locks, start, goal, rank2));
    if cc == 0 {
        assert(key == (start.x, start.y));
    }
    assert(st.closed_at(start));
    assert forall|k: (i32, i32)| #[trigger] q_now.contains_key(k) implies nm.contains_key(
        Position { x: k.0, y: k.1 },
    ) && !st.closed_at(Position { x: k.0, y: k.1 }) by {
        assert(q_prev.contains_key(k));
    }
    assert forall|p: Position| #[trigger] nm.contains_key(p) && !st.closed_at(p) implies q_now.contains_key(
        (p.x, p.y),
    ) by {
        assert(q_prev.contains_key((p.x, p.y)));
    }
    assert forall|p: Position| #[trigger] nm.contains_key(p) implies 0 <= nm[p].g_cost <= 14 * (cc
        + 1) by {
        assert(prev.node_map().contains_key(p));
    }
    if cur != goal {
        assert(!st.closed_at(goal));
        assert(search_ok(st, q_now, map, locks, start, goal, rank2, cc + 1));
        assert forall|c: Position, n: Position|
            #![trigger st.closed_at(c), is_step(map, locks, goal, c, n)]
            st.closed_at(c) && Some(cur) != Some(c) && is_step(map, locks, goal, c, n)
                implies nm.contains_key(n) by {
            assert(prev.closed_at(c));
        }
    }
    if cur != start {
        assert(st.in_grid(cur));
    }
}

/// The cell popped with the greatest priority, that is the least cost plus
/// estimate, is reached by no walk more cheaply than its recorded cost:
/// any walk to it leaves the settled cells at some queued cell whose cost
/// plus estimate is at most the walk's cost plus the popped cell's estimate.
/// Settling it keeps the recorded costs, except that the moves out of it are
/// still to be followed.
proof fn lemma_settle_cost(
    prev: &SearchStore,
    st: &SearchStore,
    q_prev: Map<(i32, i32), i64>,
    q_now: Map<(i32, i32), i64>,
    key: (i32, i32),
    map: &TileMap,
    locks: Option<&TileLocks>,
    start: Position,
    goal: Position,
    rank: Map<Position, nat>,
    cc: nat,
)
    requires
        map.wf(),
        search_fits(map, start, goal),
        search_ok(prev, q_prev, map, locks, start, goal, rank, cc),
        moves_reached(prev, map, locks, goal, None),
        costs_ok(prev, q_prev, map, locks, start, goal, None),
        q_prev.contains_key(key),
        forall|k: (i32, i32)| #[trigger] q_prev.contains_key(k) ==> q_prev[k] <= q_prev[key],
        q_now == q_prev.remove(key),
        st.node_map() == prev.node_map(),
        forall|p: Position| #[trigger]
            st.closed_at(p) == (p == (Position { x: key.0, y: key.1 }) || prev.closed_at(p)),
    ensures
        costs_ok(st, q_now, map, locks, start, goal, Some(Position { x: key.0, y: key.1 })),
        no_cheaper_walk(
            map,
            locks,
            start,
            goal,
            Position { x: key.0, y: key.1 },
            st.node_map()[Position { x: key.0, y: key.1 }].g_cost as int,
        ),
{
    reveal(search_ok);
    reveal(tree_ok);
    reveal(moves_reached);
    reveal(costs_ok);
    reveal(chain_ok);
    let cur = Position { x: key.0, y: key.1 };
    let nm = prev.node_map();
    assert(nm.contains_key(cur));
    assert(!prev.closed_at(cur));
    assert(q_prev[key] == -(nm[cur].g_cost + heuristic_spec(cur, goal)));
    assert forall|w: Seq<Position>| #[trigger]
        walk_between(map, locks, goal, start, cur, w) implies nm[cur].g_cost <= walk_cost(w) by {
        let j = lemma_first_open(prev, w, 0);
        let pj = w[j];
        assert(nm.contains_key(pj) && nm[pj].g_cost <= walk_cost(w.take(j + 1))) by {
            if j == 0 {
                assert(pj == start);
                assert(w.take(1).len() == 1);
            } else {
                let c = w[j - 1];
                assert(prev.closed_at(c));
                assert(is_step(map, locks, goal, w[j - 1], w[j - 1 + 1]));
                assert(None::<Position> != Some(c));
                lemma_walk_prefix(map, locks, goal, w, j);
                assert(walk_between(map, locks, goal, start, c, w.take(j)));
                assert(no_cheaper_walk(map, locks, start, goal, c, nm[c].g_cost as int));
                let t = w.take(j + 1);
                assert(t.drop_last() =~= w.take(j));
                assert(t[t.len() - 2] == c);
                assert(t.last() == pj);
            }
        }
        let kj = (pj.x, pj.y);
        assert(Position { x: kj.0, y: kj.1 } == pj);
        assert(q_prev.contains_key(kj));
        assert(q_prev[kj] <= q_prev[key]);
        let s = w.skip(j);
        lemma_walk_suffix(map, locks, goal, w, j);
        lemma_heuristic_along(map, locks, goal, s);
        lemma_walk_cost_split(w, j);
    }
    let snm = st.node_map();
    assert forall|k: (i32, i32)| #[trigger] q_now.contains_key(k) implies q_now[k] == -(snm[Position {
        x: k.0,
        y: k.1,
    }].g_cost + heuristic_spec(Position { x: k.0, y: k.1 }, goal)) by {
        assert(q_prev.contains_key(k));
    }
    assert forall|c: Position, n: Position|
        #![trigger st.closed_at(c), is_step(map, locks, goal, c, n)]
        st.closed_at(c) && Some(cur) != Some(c) && is_step(map, locks, goal, c, n) && !st.closed_at(n)
            implies snm[n].g_cost <= snm[c].g_cost + step_cost(c, n) by {
        assert(prev.closed_at(c));
        assert(None::<Position> != Some(c));
    }
    assert forall|c: Position| #[trigger] st.closed_at(c) implies no_cheaper_walk(
        map,
        locks,
        start,
        goal,
        c,
        snm[c].g_cost as int,
    ) by {
        if c != cur {
            assert(prev.closed_at(c));
        }
    }
    assert(chain_ok(st, start));
}

/// Recording a cheaper way into the unsettled cell `n` through the settled
/// `cur` keeps the search state.
proof fn lemma_relax(
    old_st: &SearchStore,
    st: &SearchStore,
    q_old: Map<(i32, i32), i64>,
    q_new: Map<(i32, i32), i64>,
    map: &TileMap,
    locks: Option<&TileLocks>,
    start: Position,
    goal: Position,
    rank: Map<Position, nat>,
    cc: nat,
    cur: Position,
    n: Position,
    node: Node,
    priority: i64,
)
    requires
        search_ok(old_st, q_old, map, locks, start, goal, rank, cc),
        moves_reached(old_st, map, locks, goal, Some(cur)),
        cc >= 1,
        old_st.closed_at(cur),
        old_st.node_map().contains_key(cur),
        !old_st.closed_at(n),
        is_step(map, locks, goal, cur, n),
        map.passable_at(n.x as int, n.y as int),
        node.parent == Some(cur),
        0 <= node.g_cost <= 14 * cc,
        st.wf(),
        st.width == old_st.width,
        st.height == old_st.height,
        st.start == old_st.start,
        st.node_map() == old_st.node_map().insert(n, node),
        forall|p: Position| #[trigger] st.closed_at(p) == old_st.closed_at(p),
        st.remaining() == old_st.remaining(),
        q_new == q_old.insert((n.x, n.y), priority),
    ensures
        search_ok(st, q_new, map, locks, start, goal, rank, cc),
        moves_reached(st, map, locks, goal, Some(cur)),
        st.node_map().contains_key(n),
{
    reveal(search_ok);
    reveal(tree_ok);
    reveal(moves_reached);
    let nm = st.node_map();
    let onm = old_st.node_map();
    assert(n != start);
    assert forall|p: Position| #[trigger] nm.contains_key(p) && p != start implies {
        &&& nm[p].parent.is_some()
        &&& st.closed_at(nm[p].parent.unwrap())
        &&& nm.contains_key(nm[p].parent.unwrap())
        &&& is_step(map, locks, goal, nm[p].parent.unwrap(), p)
        &&& (st.closed_at(p) ==> rank[nm[p].parent.unwrap()] < rank[p])
    } by {
        if p != n {
            assert(onm.contains_key(p));
            assert(old_st.closed_at(onm[p].parent.unwrap()));
        }
    }
    assert forall|p: Position| #[trigger] st.closed_at(p) implies nm.contains_key(p)
        && rank.contains_key(p) by {
        assert(old_st.closed_at(p));
    }
    assert(tree_ok(st, map, locks, start, goal, rank));
    assert forall|k: (i32, i32)| #[trigger] q_new.contains_key(k) implies nm.contains_key(
        Position { x: k.0, y: k.1 },
    ) && !st.closed_at(Position { x: k.0, y: k.1 }) by {
        if k != (n.x, n.y) {
            assert(q_old.contains_key(k));
        }
    }
    assert forall|p: Position| #[trigger] nm.contains_key(p) && !st.closed_at(p) implies q_new.contains_key(
        (p.x, p.y),
    ) by {
        if p != n {
            assert(onm.contains_key(p));
        }
    }
    assert forall|p: Position| #[trigger] nm.contains_key(p) implies 0 <= nm[p].g_cost <= 14 * cc by {
        if p != n {
            assert(onm.contains_key(p));
        }
    }
    assert forall|p: Position| #[trigger] nm.contains_key(p) && p != start implies st.in_grid(p) by {
        if p != n {
            assert(onm.contains_key(p));
        }
    }
    assert forall|p: Position| #[trigger] st.closed_at(p) implies rank[p] < cc by {
        assert(old_st.closed_at(p));
    }
    assert(!st.closed_at(goal));
    assert forall|c: Position, m: Position|
        #![trigger st.closed_at(c), is_step(map, locks, goal, c, m)]
        st.closed_at(c) && Some(cur) != Some(c) && is_step(map, locks, goal, c, m)
            implies nm.contains_key(m) by {
        assert(old_st.closed_at(c));
        assert(onm.contains_key(m));
    }
}

/// Once every move out of `cur` reaches a known cell, every move out of every
/// settled cell does.
proof fn lemma_expansion_done(
    st: &SearchStore,
    map: &TileMap,
    locks: Option<&TileLocks>,
    goal: Position,
    cur: Position,
    neighbors: Seq<Position>,
)
    requires
        moves_reached(st, map, locks, goal, Some(cur)),
        neighbors == allowed_neighbors(map, locks, goal, cur),
        forall|j: int| 0 <= j < neighbors.len() ==> st.node_map().contains_key(#[trigger] neighbors[j]),
    ensures
        moves_reached(st, map, locks, goal, None),
{
    reveal(moves_reached);
    assert forall|c: Position, n: Position|
        #![trigger st.closed_at(c), is_step(map, locks, goal, c, n)]
        st.closed_at(c) && None::<Position> != Some(c) && is_step(map, locks, goal, c, n)
            implies st.node_map().contains_key(n) by {
        if c == cur {
            let k = choose|k: int| 0 <= k < neighbors.len() && neighbors[k] == n;
            assert(st.node_map().contains_key(neighbors[k]));
        } else {
            assert(Some(cur) != Some(c));
        }
    }
}

/// Recording a cheaper way into the unsettled cell `n` through the settled
/// `cur`, and queueing `n` with minus its new cost plus estimate, keeps the
/// recorded costs: `n` only gets cheaper, and no settled cell changes.
proof fn lemma_relax_cost(
    old_st: &SearchStore,
    st: &SearchStore,
    q_old: Map<(i32, i32), i64>,
    q_new: Map<(i32, i32), i64>,
    map: &TileMap,
    locks: Option<&TileLocks>,
    start: Position,
    goal: Position,
    rank: Map<Position, nat>,
    cc: nat,
    cur: Position,
    n: Position,
    node: Node,
    priority: i64,
)
    requires
        search_ok(old_st, q_old, map, locks, start, goal, rank, cc),
        moves_reached(old_st, map, locks, goal, Some(cur)),
        costs_ok(old_st, q_old, map, locks, start, goal, Some(cur)),
        cc >= 1,
        old_st.closed_at(cur),
        !old_st.closed_at(n),
        node.parent == Some(cur),
        node.g_cost == old_st.node_map()[cur].g_cost + step_cost(cur, n),
        old_st.node_map().contains_key(n) ==> node.g_cost < old_st.node_map()[n].g_cost,
        priority == -(node.g_cost + heuristic_spec(n, goal)),
        st.node_map() == old_st.node_map().insert(n, node),
        forall|p: Position| #[trigger] st.closed_at(p) == old_st.closed_at(p),
        q_new == q_old.insert((n.x, n.y), priority),
    ensures
        costs_ok(st, q_new, map, locks, start, goal, Some(cur)),
{
    reveal(search_ok);
    reveal(tree_ok);
    reveal(moves_reached);
    reveal(costs_ok);
    reveal(chain_ok);
    let nm = st.node_map();
    let onm = old_st.node_map();
    assert(n != start);
    assert(n != cur);
    assert forall|p: Position| #[trigger] nm.contains_key(p) && p != start implies nm[p].g_cost
        == nm[nm[p].parent.unwrap()].g_cost + step_cost(nm[p].parent.unwrap(), p) by {
        if p != n {
            assert(onm.contains_key(p));
            assert(old_st.closed_at(onm[p].parent.unwrap()));
        }
    }
    assert(chain_ok(st, start));
    assert forall|k: (i32, i32)| #[trigger] q_new.contains_key(k) implies q_new[k] == -(nm[Position {
        x: k.0,
        y: k.1,
    }].g_cost + heuristic_spec(Position { x: k.0, y: k.1 }, goal)) by {
        if k != (n.x, n.y) {
            assert(q_old.contains_key(k));
            assert(Position { x: k.0, y: k.1 } != n);
        }
    }
    assert forall|c: Position, m: Position|
        #![trigger st.closed_at(c), is_step(map, locks, goal, c, m)]
        st.closed_at(c) && Some(cur) != Some(c) && is_step(map, locks, goal, c, m) && !st.closed_at(m)
            implies nm[m].g_cost <= nm[c].g_cost + step_cost(c, m) by {
        assert(old_st.closed_at(c));
        assert(c != n);
        if m == n {
            assert(onm.contains_key(n));
        }
    }
    assert forall|c: Position| #[trigger] st.closed_at(c) implies no_cheaper_walk(
        map,
        locks,
        start,
        goal,
        c,
        nm[c].g_cost as int,
    ) by {
        assert(old_st.closed_at(c));
        assert(c != n);
    }
}

/// Once every move out of `cur` into an unsettled cell offers nothing cheaper
/// than recorded, no move out of any settled cell does.
proof fn lemma_expansion_cost(
    st: &SearchStore,
    q: Map<(i32, i32), i64>,
    map: &TileMap,
    locks: Option<&TileLocks>,
    start: Position,
    goal: Position,
    cur: Position,
    neighbors: Seq<Position>,
)
    requires
        costs_ok(st, q, map, locks, start, goal, Some(cur)),
        neighbors == allowed_neighbors(map, locks, goal, cur),
        forall|j: int|
            0 <= j < neighbors.len() && !st.closed_at(#[trigger] neighbors[j])
                ==> st.node_map()[neighbors[j]].g_cost <= st.node_map()[cur].g_cost + step_cost(
                cur,
                neighbors[j],
            ),
    ensures
        costs_ok(st, q, map, locks, start, goal, None),
{
    reveal(costs_ok);
    assert forall|c: Position, n: Position|
        #![trigger st.closed_at(c), is_step(map, locks, goal, c, n)]
        st.closed_at(c) && None::<Position> != Some(c) && is_step(map, locks, goal, c, n)
            && !st.closed_at(n) implies st.node_map()[n].g_cost <= st.node_map()[c].g_cost
            + step_cost(c, n) by {
        if c == cur {
            let k = choose|k: int| 0 <= k < neighbors.len() && neighbors[k] == n;
            assert(!st.closed_at(neighbors[k]));
        } else {
            assert(Some(cur) != Some(c));
        }
    }
}

/// With nothing left in the queue every reached cell is settled; settled
/// cells are closed under moves, the start is settled and the goal is not,
/// so no walk leads from the start to the goal.
proof fn lemma_exhausted(
    st: &SearchStore,
    q: Map<(i32, i32), i64>,
    map: &TileMap,
    locks: Option<&TileLocks>,
    start: Position,
    goal: Position,
    rank: Map<Position, nat>,
    cc: nat,
)
    requires
        search_ok(st, q, map, locks, start, goal, rank, cc),
        moves_reached(st, map, locks, goal, None),
        forall|k: (i32, i32)| !#[trigger] q.contains_key(k),
    ensures
        !reachable(map, locks, start, goal),
{
    reveal(search_ok);
    reveal(tree_ok);
    reveal(moves_reached);
    assert forall|p: Position| #[trigger] st.node_map().contains_key(p) implies st.closed_at(p) by {
        if !st.closed_at(p) {
            assert(q.contains_key((p.x, p.y)));
        }
    }
    assert forall|c: Position, n: Position|
        #![trigger st.closed_at(c), is_step(map, locks, goal, c, n)]
        st.closed_at(c) && is_step(map, locks, goal, c, n) implies st.closed_at(n) by {
        assert(None::<Position> != Some(c));
        assert(st.node_map().contains_key(n));
    }
    assert(st.closed_at(start));
    assert forall|w: Seq<Position>| !is_path(map, locks, start, goal, w) by {
        if is_path(map, locks, start, goal, w) {
            lemma_walk_stays(st, map, locks, goal, w, w.len() - 1);
        }
    }
}

/// In-grid positions are interior, so their neighbours can be computed.
proof fn lemma_search_facts(
    st: &SearchStore,
    q: Map<(i32, i32), i64>,
    map: &TileMap,
    locks: Option<&TileLocks>,
    start: Position,
    goal: Position,
    rank: Map<Position, nat>,
    cc: nat,
)
    requires
        search_ok(st, q, map, locks, start, goal, rank, cc),
    ensures
        st.wf(),
        st.width == map.width,
        st.height == map.height,
        st.start == start,
        forall|k: (i32, i32)| #[trigger] q.contains_key(k) ==> st.tracked_cell(Position { x: k.0, y: k.1 })
            && !st.closed_at(Position { x: k.0, y: k.1 }),
        st.remaining() + cc <= cell_count(map.width as int, map.height as int) + 1,
        cc >= 1 ==> st.closed_at(start),
{
    reveal(search_ok);
    reveal(tree_ok);
    assert forall|k: (i32, i32)| #[trigger] q.contains_key(k) implies st.tracked_cell(Position { x: k.0, y: k.1 })
        && !st.closed_at(Position { x: k.0, y: k.1 }) by {
        let p = Position { x: k.0, y: k.1 };
        assert(st.node_map().contains_key(p));
    }
}

/// Follows every move out of the settled cell `current_pos`, recording a
/// cheaper way into each unsettled neighbour and queueing it.
fn relax_neighbors(
    store: &mut SearchStore,
    open_set: &mut CellQueue,
    tile_map: &TileMap,
    tile_locks: Option<&TileLocks>,
    start: &Position,
    goal: &Position,
    current_pos: Position,
    current_g: i32,
    neighbors: &Vec<Position>,
    Ghost(rank): Ghost<Map<Position, nat>>,
    Ghost(cc): Ghost<nat>,
)
    requires
        tile_map.wf(),
        search_fits(tile_map, *start, *goal),
        tile_map.passable_at(goal.x as int, goal.y as int),
        search_ok(old(store), queue_entries(*old(open_set)), tile_map, tile_locks, *start, *goal, rank, cc),
        moves_reached(old(store), tile_map, tile_locks, *goal, Some(current_pos)),
        cc >= 1,
        old(store).closed_at(current_pos),
        old(store).node_map().contains_key(current_pos),
        interior_coords(current_pos),
        0 <= current_g <= 14 * (cc - 1),
        neighbors@ == allowed_neighbors(tile_map, tile_locks, *goal, current_pos),
        costs_ok(old(store), queue_entries(*old(open_set)), tile_map, tile_locks, *start, *goal, Some(current_pos)),
        current_g == old(store).node_map()[current_pos].g_cost,
    ensures
        search_ok(final(store), queue_entries(*final(open_set)), tile_map, tile_locks, *start, *goal, rank, cc),
        moves_reached(final(store), tile_map, tile_locks, *goal, None),
        costs_ok(final(store), queue_entries(*final(open_set)), tile_map, tile_locks, *start, *goal, None),
        final(store).remaining() == old(store).remaining(),
{
    proof {
        lemma_search_facts(store, queue_entries(*open_set), tile_map, tile_locks, *start, *goal, rank, cc);
    }
    let ghost rem = store.remaining();
    let mut i: usize = 0;
    while i < neighbors.len()
        invariant
            tile_map.wf(),
            search_fits(tile_map, *start, *goal),
            tile_map.passable_at(goal.x as int, goal.y as int),
            search_ok(store, queue_entries(*open_set), tile_map, tile_locks, *start, *goal, rank, cc),
            moves_reached(store, tile_map, tile_locks, *goal, Some(current_pos)),
            cc >= 1,
            store.closed_at(current_pos),
            store.node_map().contains_key(current_pos),
            interior_coords(current_pos),
            0 <= current_g <= 14 * (cc - 1),
            neighbors@ == allowed_neighbors(tile_map, tile_locks, *goal, current_pos),
            0 <= i <= neighbors@.len(),
            forall|j: int| 0 <= j < i ==> store.node_map().contains_key(#[trigger] neighbors@[j]),
            store.remaining() == rem,
            costs_ok(store, queue_entries(*open_set), tile_map, tile_locks, *start, *goal, Some(current_pos)),
            current_g == store.node_map()[current_pos].g_cost,
            forall|j: int|
                0 <= j < i && !store.closed_at(#[trigger] neighbors@[j])
                    ==> store.node_map()[neighbors@[j]].g_cost <= current_g + step_cost(
                    current_pos,
                    neighbors@[j],
                ),
        decreases neighbors@.len() - i,
    {
        let neighbor_pos = neighbors[i];
        let ghost old_store = *store;
        let ghost q_old = queue_entries(*open_set);
        proof {
            lemma_search_facts(store, q_old, tile_map, tile_locks, *start, *goal, rank, cc);
            assert(neighbors@.contains(neighbor_pos));
            assert(is_step(tile_map, tile_locks, *goal, current_pos, neighbor_pos));
            lemma_step_facts(tile_map, tile_locks, *goal, current_pos, neighbor_pos);
        }
        i = i + 1;
        if store.is_closed(neighbor_pos) {
            proof {
                reveal(search_ok);
                reveal(tree_ok);
            }
            continue;
        }
        let move_cost = get_distance(&current_pos, &neighbor_pos);
        let new_g: i32 = current_g + move_cost;
        let existing_node = store.get_node(neighbor_pos);
        let better = match existing_node {
            None => true,
            Some(n) => new_g < n.g_cost,
        };
        if better {
            proof {
                lemma_grid_heuristic(tile_map, neighbor_pos, *goal);
                assert(new_g <= 14 * cc);
                assert(cc <= cell_count(tile_map.width as int, tile_map.height as int) + 1);
                assert(14 * cc <= 14 * (cell_count(tile_map.width as int, tile_map.height as int) + 1));
            }
            let h = heuristic(&neighbor_pos, goal);
            let node = Node::new(neighbor_pos, new_g, h, Some(current_pos));
            let f: i32 = node.f_cost();
            store.set_node(neighbor_pos, node);
            let nkey = (neighbor_pos.x, neighbor_pos.y);
            let priority: i64 = -(f as i64);
            if !open_set_contains(open_set, nkey) {
                open_set_push(open_set, nkey, priority);
            } else {
                open_set_change_priority(open_set, nkey, priority);
            }
            proof {
                lemma_relax_cost(
                    &old_store,
                    store,
                    q_old,
                    queue_entries(*open_set),
                    tile_map,
                    tile_locks,
                    *start,
                    *goal,
                    rank,
                    cc,
                    current_pos,
                    neighbor_pos,
                    node,
                    priority,
                );
                lemma_relax(
                    &old_store,
                    store,
                    q_old,
                    queue_entries(*open_set),
                    tile_map,
                    tile_locks,
                    *start,
                    *goal,
                    rank,
                    cc,
                    current_pos,
                    neighbor_pos,
                    node,
                    priority,
                );
            }
        }
        proof {
            assert forall|j: int| 0 <= j < i implies store.node_map().contains_key(#[trigger] neighbors@[j]) by {
                if j < i - 1 {
                    assert(old_store.node_map().contains_key(neighbors@[j]));
                }
            }
            assert forall|j: int|
                0 <= j < i && !store.closed_at(#[trigger] neighbors@[j])
                    implies store.node_map()[neighbors@[j]].g_cost <= current_g + step_cost(
                    current_pos,
                    neighbors@[j],
                ) by {
                assert(!old_store.closed_at(neighbors@[j]));
            }
        }
    }
    proof {
        lemma_expansion_done(store, tile_map, tile_locks, *goal, current_pos, neighbors@);
        lemma_expansion_cost(
            store,
            queue_entries(*open_set),
            tile_map,
            tile_locks,
            *start,
            *goal,
            current_pos,
            neighbors@,
        );
    }
}

/// Shortest-path search from `start` to `goal` without locks; see
/// [`find_path_with_locks`].
pub fn find_path(tile_map: &TileMap, start: &Position, goal: &Position) -> (r: Option<
    Vec<Position>,
>)
    requires
        tile_map.wf(),
        *start != *goal && tile_map.passable_at(goal.x as int, goal.y as int) ==> search_fits(
            tile_map,
            *start,
            *goal,
        ),
    ensures
        *start == *goal ==> (r matches Some(p) && p@ == seq![*start]),
        r.is_some() <==> reachable(tile_map, None, *start, *goal),
        r matches Some(p) ==> is_shortest_path(tile_map, None, *start, *goal, p@),
{
    find_path_with_locks(tile_map, start, goal, None)
}

/// A* search from `start` to `goal`. The result is a walk that starts at
/// `start`, ends at `goal` and moves one cell at a time (diagonals included)
/// onto passable cells that, when `tile_locks` is given, are not locked
/// unless they are the goal; no such walk costs less. There is a result
/// exactly when such a walk exists; when `start == goal` it is `[start]`.
pub fn find_path_with_locks(
    tile_map: &TileMap,
    start: &Position,
    goal: &Position,
    tile_locks: Option<&TileLocks>,
) -> (r: Option<Vec<Position>>)
    requires
        tile_map.wf(),
        tile_locks matches Some(l) ==> l.wf(),
        *start != *goal && tile_map.passable_at(goal.x as int, goal.y as int) ==> search_fits(
            tile_map,
            *start,
            *goal,
        ),
    ensures
        *start == *goal ==> (r matches Some(p) && p@ == seq![*start]),
        r.is_some() <==> reachable(tile_map, tile_locks, *start, *goal),
        r matches Some(p) ==> is_shortest_path(tile_map, tile_locks, *start, *goal, p@),
{
    if *start == *goal {
        let mut v: Vec<Position> = Vec::new();
        v.push(*start);
        proof {
            assert(v@ =~= seq![*start]);
            assert(is_path(tile_map, tile_locks, *start, *goal, v@));
            assert forall|w: Seq<Position>| #[trigger]
                is_path(tile_map, tile_locks, *start, *goal, w) implies walk_cost(v@) <= walk_cost(w) by {
                lemma_walk_cost_nonneg(w);
            }
        }
        return Some(v);
    }
    if !tile_map.is_passable(goal.x, goal.y) {
        proof {
            lemma_goal_entered(tile_map, tile_locks, *start, *goal);
        }
        return None;
    }
    let mut open_set: CellQueue = open_set_new();
    let mut store = SearchStore::new(tile_map, *start);
    let start_h = heuristic(start, goal);
    let start_node = Node::new(*start, 0, start_h, None);
    store.set_node(*start, start_node);
    open_set_push(&mut open_set, (start.x, start.y), -(start_h as i64));
    let ghost mut cc: nat = 0;
    let ghost mut rank: Map<Position, nat> = Map::empty();
    proof {
        assert forall|k: (i32, i32)| #[trigger] queue_entries(open_set).contains_key(k) <==> k == (start.x, start.y) by {
        }
        lemma_search_start(&store, queue_entries(open_set), tile_map, tile_locks, *start, *goal);
    }
    loop
        invariant
            tile_map.wf(),
            tile_locks matches Some(l) ==> l.wf(),
            search_fits(tile_map, *start, *goal),
            *start != *goal,
            tile_map.passable_at(goal.x as int, goal.y as int),
            search_ok(&store, queue_entries(open_set), tile_map, tile_locks, *start, *goal, rank, cc),
            moves_reached(&store, tile_map, tile_locks, *goal, None),
            costs_ok(&store, queue_entries(open_set), tile_map, tile_locks, *start, *goal, None),
        decreases store.remaining(),
    {
        let ghost q_prev = queue_entries(open_set);
        let ghost prev = store;
        proof {
            lemma_search_facts(&store, q_prev, tile_map, tile_locks, *start, *goal, rank, cc);
        }
        let popped = open_set_pop(&mut open_set);
        match popped {
            None => {
                proof {
                    lemma_exhausted(&store, q_prev, tile_map, tile_locks, *start, *goal, rank, cc);
                }
                return None;
            },
            Some((key, _priority)) => {
                let current_pos = Position::new(key.0, key.1);
                store.close(current_pos);
                proof {
                    lemma_settle_cost(
                        &prev,
                        &store,
                        q_prev,
                        queue_entries(open_set),
                        key,
                        tile_map,
                        tile_locks,
                        *start,
                        *goal,
                        rank,
                        cc,
                    );
                    lemma_settle(
                        &prev,
                        &store,
                        q_prev,
                        queue_entries(open_set),
                        key,
                        tile_map,
                        tile_locks,
                        *start,
                        *goal,
                        rank,
                        cc,
                    );
                    rank = rank.insert(current_pos, cc);
                    cc = cc + 1;
                }
                if current_pos == *goal {
                    proof {
                        reveal(costs_ok);
                    }
                    let path = reconstruct_path(
                        &store,
                        current_pos,
                        tile_map,
                        tile_locks,
                        goal,
                        Ghost(rank),
                    );
                    proof {
                        assert forall|w: Seq<Position>| #[trigger]
                            is_path(tile_map, tile_locks, *start, *goal, w) implies walk_cost(path@)
                            <= walk_cost(w) by {
                            assert(walk_between(tile_map, tile_locks, *goal, *start, *goal, w));
                        }
                    }
                    return Some(path);
                }
                let current_g: i32 = match store.get_node(current_pos) {
                    Some(n) => n.g_cost,
                    None => 0,
                };
                let neighbors = get_neighbors_with_locks(tile_map, &current_pos, goal, tile_locks);
                relax_neighbors(
                    &mut store,
                    &mut open_set,
                    tile_map,
                    tile_locks,
                    start,
                    goal,
                    current_pos,
                    current_g,
                    &neighbors,
                    Ghost(rank),
                    Ghost(cc),
                );
            },
        }
    }
}

} // verus!
