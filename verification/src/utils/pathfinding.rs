use vstd::prelude::*;

use crate::map::tile::TileType;
use crate::map::tile_map::{cord_in_bounds, cord_index, lemma_index_in_grid, lemma_index_injective, total, MapDimensions, MapTileGrid, TileMap, grid_wf};
use crate::utils::directional_deltas::{orthogonal_delta, orthogonal_step};
use crate::utils::map_cord::MapCord;
use crate::utils::map_utils::{cords_to_index, get_tile_at_cord, is_tile_in_bounds};
use std::collections::VecDeque;

verus! {

/// A search node: a tile, the tile it was reached from, its cost so far
/// (`g`) and its estimated total cost (`f`).
#[derive(Clone, Copy, Debug, PartialEq, Eq, Structural)]
pub struct Node {
    pub cord: MapCord,
    pub parent: MapCord,
    pub f: u64,
    pub g: u64,
}

/// The index of the parent of heap slot `i`.
pub open spec fn heap_parent(i: int) -> int {
    (i - 1) / 2
}

/// Min-heap order on `f`: no slot is cheaper than its parent.
pub open spec fn heap_ok(s: Seq<Node>) -> bool {
    forall|i: int| 0 < i < s.len() ==> (#[trigger] s[heap_parent(i)]).f <= s[i].f
}

/// The heap order, except possibly between slot `i` and its parent; and the
/// parent of `i` is no dearer than the children of `i`.
spec fn heap_ok_except_up(s: Seq<Node>, i: int) -> bool {
    &&& forall|j: int| 0 < j < s.len() && j != i ==> (#[trigger] s[heap_parent(j)]).f <= s[j].f
    &&& forall|j: int|
        0 < j < s.len() && heap_parent(j) == i && i > 0 ==> s[heap_parent(i)].f <= (#[trigger] s[j]).f
}

/// The heap order, except possibly between slot `i` and its children; and
/// the parent of `i` is no dearer than the children of `i`.
spec fn heap_ok_except_down(s: Seq<Node>, i: int) -> bool {
    &&& forall|j: int| 0 < j < s.len() && heap_parent(j) != i ==> (#[trigger] s[heap_parent(j)]).f <= s[j].f
    &&& forall|j: int|
        0 < j < s.len() && heap_parent(j) == i && i > 0 ==> s[heap_parent(i)].f <= (#[trigger] s[j]).f
}

/// In a heap, the root is no dearer than any slot.
proof fn lemma_root_min(s: Seq<Node>, i: int)
    requires
        heap_ok(s),
        0 <= i < s.len(),
    ensures
        s[0].f <= s[i].f,
    decreases i,
{
    if i > 0 {
        assert(s[heap_parent(i)].f <= s[i].f);
        lemma_root_min(s, heap_parent(i));
    }
}

/// The open set of the search: a binary min-heap of nodes ordered by `f`.
pub struct OpenList {
    items: Vec<Node>,
}

impl OpenList {
    /// The nodes, in heap order.
    pub closed spec fn view(&self) -> Seq<Node> {
        self.items@
    }

    /// The nodes are in heap order.
    pub closed spec fn wf(&self) -> bool {
        heap_ok(self.items@)
    }

    pub fn new() -> (o: OpenList)
        ensures
            o.wf(),
            o@.len() == 0,
    {
        OpenList { items: Vec::new() }
    }

    /// Removes every node.
    pub fn clear(&mut self)
        ensures
            final(self).wf(),
            final(self)@.len() == 0,
    {
        self.items.clear();
    }

    pub fn len(&self) -> (n: usize)
        ensures
            n == self@.len(),
    {
        self.items.len()
    }

    fn swap(&mut self, i: usize, j: usize)
        requires
            i < old(self).items@.len(),
            j < old(self).items@.len(),
        ensures
            final(self).items@ == old(self).items@.update(i as int, old(self).items@[j as int]).update(
                j as int,
                old(self).items@[i as int],
            ),
            final(self).items@.to_multiset() == old(self).items@.to_multiset(),
    {
        let ghost s0 = self.items@;
        let a = self.items[i];
        let b = self.items[j];
        self.items.set(i, b);
        self.items.set(j, a);
        proof {
            broadcast use vstd::multiset::group_multiset_axioms;

            let s1 = s0.update(i as int, s0[j as int]);
            vstd::seq_lib::to_multiset_update(s0, i as int, s0[j as int]);
            vstd::seq_lib::to_multiset_update(s1, j as int, s0[i as int]);
            vstd::seq_lib::to_multiset_contains(s0, s0[i as int]);
            vstd::seq_lib::to_multiset_contains(s0, s0[j as int]);
            assert(s1[j as int] == s0[j as int]);
            assert(self.items@.to_multiset() =~= s0.to_multiset());
        }
    }

    /// Adds a node.
    pub fn push(&mut self, n: Node)
        requires
            old(self).wf(),
        ensures
            final(self).wf(),
            final(self)@.len() == old(self)@.len() + 1,
            final(self)@.to_multiset() == old(self)@.to_multiset().insert(n),
            final(self)@.contains(n),
            forall|k: int| 0 <= k < final(self)@.len() ==> old(self)@.contains(#[trigger] final(self)@[k])
                || final(self)@[k] == n,
            forall|k: int| 0 <= k < old(self)@.len() ==> final(self)@.contains(#[trigger] old(self)@[k]),
    {
        let ghost start = self.items@.push(n);
        proof {
            vstd::seq_lib::to_multiset_build(self.items@, n);
        }
        self.items.push(n);
        let mut i = self.items.len() - 1;
        assert(self.items@[i as int] == n);
        assert forall|k: int| 0 <= k < start.len() implies self.items@.contains(#[trigger] start[k]) by {
            assert(self.items@[k] == start[k]);
        }
        while i > 0 && self.items[(i - 1) / 2].f > self.items[i].f
            invariant
                i < self.items@.len(),
                self.items@.len() == start.len(),
                heap_ok_except_up(self.items@, i as int),
                self.items@[i as int] == n,
                self.items@.to_multiset() == start.to_multiset(),
                forall|k: int| 0 <= k < self.items@.len() ==> start.contains(#[trigger] self.items@[k]),
                forall|k: int| 0 <= k < start.len() ==> self.items@.contains(#[trigger] start[k]),
            decreases i,
        {
            let p = (i - 1) / 2;
            let ghost before = self.items@;
            self.swap(i, p);
            proof {
                let s = self.items@;
                assert forall|j: int| 0 < j < s.len() && j != p implies (#[trigger] s[heap_parent(j)]).f <= s[j].f by {
                    if j == i {
                    } else if heap_parent(j) == i {
                        assert(before[heap_parent(i as int)].f <= before[j].f);
                    } else if heap_parent(j) == p {
                        assert(before[p as int].f <= before[j].f);
                    } else {
                        assert(before[heap_parent(j)].f <= before[j].f);
                    }
                }
                assert forall|j: int| 0 < j < s.len() && heap_parent(j) == p && p > 0 implies s[heap_parent(
                    p as int,
                )].f <= (#[trigger] s[j]).f by {
                    assert(before[heap_parent(p as int)].f <= before[p as int].f);
                    if j != i {
                        assert(before[p as int].f <= before[j].f);
                    }
                }
                assert forall|k: int| 0 <= k < s.len() implies start.contains(#[trigger] s[k]) by {
                    if k == i {
                        assert(start.contains(before[p as int]));
                    } else if k == p {
                        assert(start.contains(before[i as int]));
                    } else {
                        assert(start.contains(before[k]));
                    }
                }
                assert forall|k: int| 0 <= k < start.len() implies s.contains(#[trigger] start[k]) by {
                    let e = start[k];
                    assert(before.contains(e));
                    let j = choose|j: int| 0 <= j < before.len() && before[j] == e;
                    if j == i {
                        assert(s[p as int] == e);
                    } else if j == p {
                        assert(s[i as int] == e);
                    } else {
                        assert(s[j] == e);
                    }
                }
            }
            i = p;
        }
        proof {
            assert(heap_ok(self.items@));
            assert(self.items@.contains(n));
            assert forall|k: int| 0 <= k < old(self)@.len() implies self.items@.contains(#[trigger] old(self)@[k]) by {
                assert(start[k] == old(self)@[k]);
            }
            assert forall|k: int| 0 <= k < self.items@.len() implies old(self)@.contains(#[trigger] self.items@[k])
                || self.items@[k] == n by {
                let e = self.items@[k];
                assert(start.contains(e));
                let j = choose|j: int| 0 <= j < start.len() && start[j] == e;
                if j < old(self)@.len() {
                    assert(old(self)@[j] == e);
                }
            }
        }
    }

    /// Removes and returns a cheapest node, if there is any.
    pub fn pop(&mut self) -> (r: Option<Node>)
        requires
            old(self).wf(),
        ensures
            final(self).wf(),
            old(self)@.len() == 0 ==> r is None && final(self)@.len() == 0,
            old(self)@.len() > 0 ==> r is Some && final(self)@.len() == old(self)@.len() - 1,
            r matches Some(x) ==> old(self)@.contains(x) && forall|k: int|
                0 <= k < old(self)@.len() ==> x.f <= (#[trigger] old(self)@[k]).f,
            r matches Some(x) ==> final(self)@.to_multiset() == old(self)@.to_multiset().remove(x),
            forall|k: int| 0 <= k < final(self)@.len() ==> old(self)@.contains(#[trigger] final(self)@[k]),
            r matches Some(x) ==> forall|k: int|
                0 <= k < old(self)@.len() && old(self)@[k] != x ==> final(self)@.contains(#[trigger] old(self)@[k]),
    {
        let n = self.items.len();
        if n == 0 {
            return None;
        }
        let top = self.items[0];
        proof {
            assert forall|k: int| 0 <= k < old(self)@.len() implies top.f <= (#[trigger] old(self)@[k]).f by {
                lemma_root_min(old(self)@, k);
            }
            assert(old(self)@[0] == top);
        }
        let ghost start = self.items@;
        self.swap(0, n - 1);
        let ghost swapped = self.items@;
        let _ = self.items.pop();
        proof {
            vstd::seq_lib::to_multiset_remove(swapped, (n - 1) as int);
            assert(swapped.remove((n - 1) as int) =~= self.items@);
            assert(swapped[(n - 1) as int] == top);
        }
        proof {
            let s = self.items@;
            assert forall|k: int| 0 <= k < s.len() implies start.contains(#[trigger] s[k]) by {
                if k == 0 {
                    assert(s[0] == start[n - 1]);
                } else {
                    assert(s[k] == start[k]);
                }
            }
            assert forall|j: int| 0 < j < s.len() && heap_parent(j) != 0 implies (#[trigger] s[heap_parent(j)]).f <= s[j].f by {
                assert(s[j] == start[j]);
                assert(s[heap_parent(j)] == start[heap_parent(j)]);
            }
            assert forall|k: int| 0 <= k < start.len() && start[k] != top implies s.contains(#[trigger] start[k]) by {
                if k == n - 1 {
                    assert(s[0] == start[k]);
                } else {
                    assert(k != 0);
                    assert(s[k] == start[k]);
                }
            }
        }
        let ghost after_pop = self.items@;
        let len = self.items.len();
        let mut i: usize = 0;
        loop
            invariant
                len == self.items@.len(),
                len == start.len() - 1,
                i < len || len == 0,
                heap_ok_except_down(self.items@, i as int),
                self.items@.to_multiset() == after_pop.to_multiset(),
                forall|k: int| 0 <= k < self.items@.len() ==> start.contains(#[trigger] self.items@[k]),
                forall|k: int| 0 <= k < after_pop.len() ==> self.items@.contains(#[trigger] after_pop[k]),
            ensures
                heap_ok(self.items@),
                self.items@.to_multiset() == after_pop.to_multiset(),
                len == self.items@.len(),
                forall|k: int| 0 <= k < self.items@.len() ==> start.contains(#[trigger] self.items@[k]),
                forall|k: int| 0 <= k < after_pop.len() ==> self.items@.contains(#[trigger] after_pop[k]),
            decreases len - i,
        {
            if len == 0 {
                break;
            }
            let left = if i < len / 2 {
                2 * i + 1
            } else {
                len
            };
            let right = if i < (len - 1) / 2 {
                2 * i + 2
            } else {
                len
            };
            assert(left < len <==> 2 * i + 1 < len);
            assert(right < len <==> 2 * i + 2 < len);
            assert(left < len ==> left == 2 * i + 1);
            assert(right < len ==> right == 2 * i + 2);
            let mut smallest = i;
            if left < len && self.items[left].f < self.items[smallest].f {
                smallest = left;
            }
            if right < len && self.items[right].f < self.items[smallest].f {
                smallest = right;
            }
            if smallest == i {
                proof {
                    let s = self.items@;
                    assert forall|j: int| 0 < j < s.len() implies (#[trigger] s[heap_parent(j)]).f <= s[j].f by {
                        if heap_parent(j) == i {
                            assert(j == left || j == right);
                        }
                    }
                }
                break;
            }
            let ghost before = self.items@;
            self.swap(i, smallest);
            proof {
                let s = self.items@;
                let m = smallest as int;
                assert(heap_parent(m) == i);
                assert forall|j: int| 0 < j < s.len() && heap_parent(j) != m implies (#[trigger] s[heap_parent(j)]).f <= s[j].f by {
                    if j == m {
                    } else if heap_parent(j) == i {
                        assert(j == left || j == right);
                    } else if j == i {
                        assert(before[heap_parent(i as int)].f <= before[m].f);
                    } else {
                        assert(before[heap_parent(j)].f <= before[j].f);
                    }
                }
                assert forall|j: int| 0 < j < s.len() && heap_parent(j) == m && m > 0 implies s[heap_parent(m)].f
                    <= (#[trigger] s[j]).f by {
                    assert(before[m].f <= before[j].f);
                }
                assert forall|k: int| 0 <= k < s.len() implies start.contains(#[trigger] s[k]) by {
                    if k == i {
                        assert(start.contains(before[m]));
                    } else if k == m {
                        assert(start.contains(before[i as int]));
                    } else {
                        assert(start.contains(before[k]));
                    }
                }
                assert forall|k: int| 0 <= k < after_pop.len() implies s.contains(#[trigger] after_pop[k]) by {
                    let e = after_pop[k];
                    assert(before.contains(e));
                    let j = choose|j: int| 0 <= j < before.len() && before[j] == e;
                    if j == i {
                        assert(s[m] == e);
                    } else if j == m {
                        assert(s[i as int] == e);
                    } else {
                        assert(s[j] == e);
                    }
                }
            }
            i = smallest;
        }
        proof {
            assert forall|k: int| 0 <= k < self.items@.len() implies old(self)@.contains(#[trigger] self.items@[k]) by {
                assert(start.contains(self.items@[k]));
            }
            assert forall|k: int| 0 <= k < old(self)@.len() && old(self)@[k] != top implies self.items@.contains(#[trigger] old(self)@[k]) by {
                assert(start[k] == old(self)@[k]);
                assert(after_pop.contains(start[k]));
                let j = choose|j: int| 0 <= j < after_pop.len() && after_pop[j] == start[k];
                assert(self.items@.contains(after_pop[j]));
            }
        }
        Some(top)
    }
}


/// Cost of a straight step, in ten-thousandths of a tile.
pub const STRAIGHT_COST: u64 = 10_000;

/// Cost of a diagonal step, in ten-thousandths of a tile (the square root of
/// two, rounded down).
pub const DIAGONAL_COST: u64 = 14_142;

/// The parent recorded for the start tile, which has none.
pub open spec fn sentinel() -> MapCord {
    MapCord { x: 32767, y: 32767 }
}

/// Squared distance between two coordinates.
pub open spec fn dist2(a: MapCord, b: MapCord) -> int {
    (a.x - b.x) * (a.x - b.x) + (a.y - b.y) * (a.y - b.y)
}

/// `c` lies within `r` tiles (Euclidean) of `start`.
pub open spec fn within_radius(start: MapCord, c: MapCord, r: u32) -> bool {
    dist2(c, start) <= (r as int) * (r as int)
}

/// `a` and `b` are different tiles that touch, sideways or diagonally.
pub open spec fn adjacent(a: MapCord, b: MapCord) -> bool {
    &&& a != b
    &&& -1 <= a.x - b.x <= 1
    &&& -1 <= a.y - b.y <= 1
}

/// `c` is a grass tile on the map.
pub open spec fn walkable(tiles: Seq<TileType>, dims: MapDimensions, c: MapCord) -> bool {
    cord_in_bounds(dims, c) && tiles[cord_index(dims, c)] == TileType::Grass
}

/// `path` leads from `start` (excluded) to `goal` in steps between touching
/// grass tiles that all lie within `r` tiles of `start`; it is empty exactly
/// when `start` is `goal`.
pub open spec fn valid_path(
    tiles: Seq<TileType>,
    dims: MapDimensions,
    start: MapCord,
    goal: MapCord,
    r: u32,
    path: Seq<MapCord>,
) -> bool {
    &&& path.len() == 0 <==> start == goal
    &&& path.len() > 0 ==> adjacent(start, path[0]) && path.last() == goal
    &&& forall|k: int| 0 <= k < path.len() ==> walkable(tiles, dims, #[trigger] path[k]) && within_radius(start, path[k], r)
    &&& forall|k: int| 0 <= k < path.len() - 1 ==> adjacent(#[trigger] path[k], path[k + 1])
}

/// The outcome of a path search.
pub enum PathResult {
    /// No search was made.
    NoPath,
    /// The tiles to walk through, in order, ending at the goal.
    Success { path: VecDeque<MapCord> },
    /// The goal is too far from the start.
    TooLong,
    /// The endpoints are not walkable, or the goal cannot be reached within
    /// the radius.
    NoRoute,
}

/// Reusable search state: the open set, and per tile the parent, the best
/// known cost and the search generation in which that cost was written
/// (so that nothing has to be cleared between searches).
pub struct PathFinder {
    generation: u32,
    open: OpenList,
    parents: Vec<Option<MapCord>>,
    g_score: Vec<u64>,
    g_score_generation: Vec<u32>,
}

/// `parent` is a settled tile that touches `c`, and reaching it and then
/// stepping to `c` costs no more than `g`.
spec fn parent_ok(p: MapCord, c: MapCord, g: u64, settled: Map<int, (MapCord, u64)>, dims: MapDimensions) -> bool {
    &&& settled.contains_key(cord_index(dims, p))
    &&& settled[cord_index(dims, p)].0 == p
    &&& adjacent(p, c)
    &&& settled[cord_index(dims, p)].1 + step_cost(p, c) <= g
}

/// Largest cost a node can carry while `settled` tiles are settled.
spec fn cost_bound(settled: Map<int, (MapCord, u64)>) -> int {
    DIAGONAL_COST * (settled.len() + 1)
}

/// Invariant of a node in the open set.
spec fn node_ok(
    n: Node,
    gs: Seq<u64>,
    gg: Seq<u32>,
    gen: u32,
    tiles: Seq<TileType>,
    dims: MapDimensions,
    start: MapCord,
    r: u32,
    settled: Map<int, (MapCord, u64)>,
) -> bool {
    &&& walkable(tiles, dims, n.cord)
    &&& within_radius(start, n.cord, r)
    &&& gg[cord_index(dims, n.cord)] == gen
    &&& gs[cord_index(dims, n.cord)] <= n.g
    &&& n.g <= cost_bound(settled)
    &&& n.cord == start ==> n.g == 0 && n.parent == sentinel()
    &&& n.cord != start ==> parent_ok(n.parent, n.cord, n.g, settled, dims)
}

/// Invariant of a settled tile (one that was taken out of the open set
/// during this search).
spec fn settled_ok(
    i: int,
    parents: Seq<Option<MapCord>>,
    gs: Seq<u64>,
    gg: Seq<u32>,
    gen: u32,
    tiles: Seq<TileType>,
    dims: MapDimensions,
    start: MapCord,
    r: u32,
    settled: Map<int, (MapCord, u64)>,
) -> bool {
    let (c, g) = settled[i];
    &&& cord_index(dims, c) == i
    &&& walkable(tiles, dims, c)
    &&& within_radius(start, c, r)
    &&& gg[i] == gen
    &&& gs[i] <= g
    &&& g <= DIAGONAL_COST * settled.len()
    &&& parents[i] is Some
    &&& c == start ==> parents[i] == Some(sentinel())
    &&& c != start ==> parent_ok(parents[i].unwrap(), c, g, settled, dims)
}

/// Invariant of the search loop.
spec fn search_inv(
    open: Seq<Node>,
    parents: Seq<Option<MapCord>>,
    gs: Seq<u64>,
    gg: Seq<u32>,
    gen: u32,
    tiles: Seq<TileType>,
    dims: MapDimensions,
    start: MapCord,
    r: u32,
    settled: Map<int, (MapCord, u64)>,
) -> bool {
    &&& grid_wf(tiles, dims)
    &&& parents.len() == total(dims)
    &&& gs.len() == total(dims)
    &&& gg.len() == total(dims)
    &&& gen >= 1
    &&& forall|i: int| 0 <= i < gg.len() ==> #[trigger] gg[i] <= gen
    &&& walkable(tiles, dims, start)
    &&& gg[cord_index(dims, start)] == gen
    &&& gs[cord_index(dims, start)] == 0
    &&& forall|k: int| 0 <= k < open.len() ==> node_ok(#[trigger] open[k], gs, gg, gen, tiles, dims, start, r, settled)
    &&& forall|i: int| #[trigger] settled.contains_key(i) ==> settled_ok(i, parents, gs, gg, gen, tiles, dims, start, r, settled)
    &&& settled.dom().finite()
    &&& settled.dom().subset_of(vstd::set_lib::set_int_range(0, total(dims)))
    &&& forall|i: int| 0 <= i < gg.len() && #[trigger] gg[i] == gen ==> gs[i] <= cost_bound(settled)
}

/// The remaining cost budget of tile `i` in generation `gen`, capped at
/// `cap`; untouched tiles count as `cap`.
spec fn budget(gs: Seq<u64>, gg: Seq<u32>, gen: u32, cap: int, i: int) -> int {
    if gg[i] == gen && gs[i] < cap {
        gs[i] as int
    } else {
        cap
    }
}

/// Sum of the budgets of the first `n` tiles; it only shrinks during a
/// search, which bounds the number of nodes ever added.
spec fn potential(gs: Seq<u64>, gg: Seq<u32>, gen: u32, cap: int, n: int) -> int
    decreases n,
{
    if n <= 0 {
        0
    } else {
        potential(gs, gg, gen, cap, n - 1) + budget(gs, gg, gen, cap, n - 1)
    }
}

proof fn lemma_potential_nonneg(gs: Seq<u64>, gg: Seq<u32>, gen: u32, cap: int, n: int)
    requires
        cap >= 0,
        0 <= n <= gs.len(),
        gs.len() == gg.len(),
    ensures
        potential(gs, gg, gen, cap, n) >= 0,
    decreases n,
{
    if n > 0 {
        lemma_potential_nonneg(gs, gg, gen, cap, n - 1);
    }
}

proof fn lemma_potential_update(
    gs: Seq<u64>,
    gg: Seq<u32>,
    gs2: Seq<u64>,
    gg2: Seq<u32>,
    gen: u32,
    cap: int,
    i: int,
    n: int,
)
    requires
        0 <= i < gs.len(),
        gs.len() == gg.len(),
        gs2.len() == gs.len(),
        gg2.len() == gg.len(),
        0 <= n <= gs.len(),
        forall|j: int| 0 <= j < gs.len() && j != i ==> gs2[j] == gs[j] && gg2[j] == gg[j],
        budget(gs2, gg2, gen, cap, i) < budget(gs, gg, gen, cap, i),
    ensures
        n <= i ==> potential(gs2, gg2, gen, cap, n) == potential(gs, gg, gen, cap, n),
        n > i ==> potential(gs2, gg2, gen, cap, n) < potential(gs, gg, gen, cap, n),
    decreases n,
{
    if n > 0 {
        lemma_potential_update(gs, gg, gs2, gg2, gen, cap, i, n - 1);
    }
}

impl PathFinder {
    /// The per-tile arrays all have one entry per tile, no recorded
    /// generation is ahead of the current one, and the open set is a heap.
    pub closed spec fn wf(&self) -> bool {
        &&& self.parents@.len() == self.g_score@.len()
        &&& self.g_score_generation@.len() == self.g_score@.len()
        &&& forall|i: int| 0 <= i < self.g_score_generation@.len() ==> #[trigger] self.g_score_generation@[i] <= self.generation
        &&& self.open.wf()
    }

    /// The number of tiles this finder is sized for.
    pub closed spec fn num_tiles(&self) -> int {
        self.parents@.len() as int
    }

    /// A finder for a `map_width` by `map_height` map.
    pub fn new(map_width: u16, map_height: u16) -> (p: PathFinder)
        ensures
            p.wf(),
            p.num_tiles() == map_width as int * map_height as int,
    {
        let dims = MapDimensions { width: map_width, height: map_height };
        let num_of_tiles = dims.total_tiles();
        PathFinder {
            generation: 0,
            open: OpenList::new(),
            parents: vec![None; num_of_tiles],
            g_score: vec![u64::MAX; num_of_tiles],
            g_score_generation: vec![0; num_of_tiles],
        }
    }
}

/// Distance between two integers.
pub open spec fn abs_diff(a: int, b: int) -> int {
    if a >= b { a - b } else { b - a }
}

/// Octile distance in step-cost units: the longer axis distance in straight
/// steps plus the shorter one in the extra cost of a diagonal step.
pub open spec fn octile(p1: MapCord, p2: MapCord) -> int {
    let dx = abs_diff(p1.x as int, p2.x as int);
    let dy = abs_diff(p1.y as int, p2.y as int);
    let hi = if dx >= dy { dx } else { dy };
    let lo = if dx >= dy { dy } else { dx };
    hi * STRAIGHT_COST + lo * (DIAGONAL_COST - STRAIGHT_COST)
}

/// The cost of one step between touching tiles: `DIAGONAL_COST` when both
/// coordinates change, `STRAIGHT_COST` otherwise.
pub open spec fn step_cost(a: MapCord, b: MapCord) -> int {
    if a.x != b.x && a.y != b.y {
        DIAGONAL_COST as int
    } else {
        STRAIGHT_COST as int
    }
}

/// The cost of walking through the tiles of `ws` in order.
pub open spec fn walk_cost(ws: Seq<MapCord>) -> int
    decreases ws.len(),
{
    if ws.len() < 2 {
        0
    } else {
        step_cost(ws[0], ws[1]) + walk_cost(ws.skip(1))
    }
}

/// The cost of a path that leaves `start` (excluded from the path).
pub open spec fn path_cost(start: MapCord, path: Seq<MapCord>) -> int {
    walk_cost(seq![start] + path)
}

/// `ws` is a walk from `start`: it begins there and steps between touching
/// grass tiles of the map within `r` tiles of `start`.
pub open spec fn is_walk(tiles: Seq<TileType>, dims: MapDimensions, start: MapCord, r: u32, ws: Seq<MapCord>) -> bool {
    &&& ws.len() >= 1
    &&& ws[0] == start
    &&& forall|k: int| 0 <= k < ws.len() ==> walkable(tiles, dims, #[trigger] ws[k]) && within_radius(start, ws[k], r)
    &&& forall|k: int| 0 <= k < ws.len() - 1 ==> adjacent(#[trigger] ws[k], ws[k + 1])
}

/// Walk costs are never negative.
proof fn lemma_walk_cost_nonneg(ws: Seq<MapCord>)
    ensures
        walk_cost(ws) >= 0,
    decreases ws.len(),
{
    if ws.len() >= 2 {
        lemma_walk_cost_nonneg(ws.skip(1));
    }
}

/// A walk costs as much as its part up to tile `k` plus its part from tile
/// `k` on.
proof fn lemma_walk_split(ws: Seq<MapCord>, k: int)
    requires
        0 <= k < ws.len(),
    ensures
        walk_cost(ws) == walk_cost(ws.take(k + 1)) + walk_cost(ws.skip(k)),
    decreases k,
{
    if k == 0 {
        assert(ws.skip(0) =~= ws);
    } else {
        lemma_walk_split(ws.skip(1), k - 1);
        assert(ws.skip(1).skip(k - 1) =~= ws.skip(k));
        assert(ws.take(k + 1).skip(1) =~= ws.skip(1).take(k));
    }
}

/// The estimate to `goal` drops by at most the cost of one step.
proof fn lemma_octile_step(a: MapCord, b: MapCord, goal: MapCord)
    requires
        adjacent(a, b),
    ensures
        octile(a, goal) <= step_cost(a, b) + octile(b, goal),
{
}

/// Along a walk of touching tiles, the estimate to `goal` drops by at most
/// the cost of the walk.
proof fn lemma_octile_walk(ws: Seq<MapCord>, goal: MapCord)
    requires
        ws.len() >= 1,
        forall|k: int| 0 <= k < ws.len() - 1 ==> adjacent(#[trigger] ws[k], ws[k + 1]),
    ensures
        octile(ws[0], goal) <= walk_cost(ws) + octile(ws.last(), goal),
    decreases ws.len(),
{
    if ws.len() >= 2 {
        let t = ws.skip(1);
        assert forall|k: int| 0 <= k < t.len() - 1 implies adjacent(#[trigger] t[k], t[k + 1]) by {
            assert(t[k] == ws[k + 1] && t[k + 1] == ws[k + 2]);
        }
        lemma_octile_walk(t, goal);
        assert(adjacent(ws[0], ws[1]));
        lemma_octile_step(ws[0], ws[1], goal);
    }
}

/// The first `k + 1` tiles of a walk form a walk.
proof fn lemma_walk_prefix(tiles: Seq<TileType>, dims: MapDimensions, start: MapCord, r: u32, ws: Seq<MapCord>, k: int)
    requires
        is_walk(tiles, dims, start, r, ws),
        0 <= k < ws.len(),
    ensures
        is_walk(tiles, dims, start, r, ws.take(k + 1)),
        ws.take(k + 1).last() == ws[k],
{
    let t = ws.take(k + 1);
    assert forall|j: int| 0 <= j < t.len() implies walkable(tiles, dims, #[trigger] t[j]) && within_radius(start, t[j], r) by {
        assert(t[j] == ws[j]);
    }
    assert forall|j: int| 0 <= j < t.len() - 1 implies adjacent(#[trigger] t[j], t[j + 1]) by {
        assert(t[j] == ws[j] && t[j + 1] == ws[j + 1]);
    }
}

/// Octile distance between two tiles in step-cost units: the cheapest cost
/// of walking from one to the other on an open grid.
fn octile_dist(p1: MapCord, p2: MapCord) -> (d: u64)
    ensures
        d == octile(p1, p2),
        d <= 14_142 * 65_536,
{
    let dx: u64 = if p1.x >= p2.x { (p1.x as i32 - p2.x as i32) as u64 } else { (p2.x as i32 - p1.x as i32) as u64 };
    let dy: u64 = if p1.y >= p2.y { (p1.y as i32 - p2.y as i32) as u64 } else { (p2.y as i32 - p1.y as i32) as u64 };
    let (hi, lo) = if dx >= dy { (dx, dy) } else { (dy, dx) };
    assert(hi * 10_000 + lo * 4_142 <= 14_142 * 65_536) by (nonlinear_arith)
        requires
            lo <= hi,
            hi <= 65_535,
    ;
    hi * STRAIGHT_COST + lo * (DIAGONAL_COST - STRAIGHT_COST)
}

/// Squared distance between two tiles.
fn squared_dist(a: MapCord, b: MapCord) -> (d: u64)
    ensures
        d == dist2(a, b),
{
    let dx: i64 = a.x as i64 - b.x as i64;
    let dy: i64 = a.y as i64 - b.y as i64;
    assert(0 <= dx * dx <= 65536 * 65536) by (nonlinear_arith)
        requires
            -65536 <= dx <= 65536,
    ;
    assert(0 <= dy * dy <= 65536 * 65536) by (nonlinear_arith)
        requires
            -65536 <= dy <= 65536,
    ;
    (dx * dx + dy * dy) as u64
}


/// The part of the search invariant that path reconstruction relies on:
/// every settled tile is a walkable tile within the radius, and every settled
/// tile other than the start has a recorded parent that is settled, touches
/// it and was reached more cheaply.
spec fn parent_chain_ok(
    parents: Seq<Option<MapCord>>,
    tiles: Seq<TileType>,
    dims: MapDimensions,
    start: MapCord,
    r: u32,
    settled: Map<int, (MapCord, u64)>,
) -> bool {
    forall|i: int|
        #[trigger] settled.contains_key(i) ==> {
            let (c, g) = settled[i];
            &&& cord_index(dims, c) == i
            &&& walkable(tiles, dims, c)
            &&& within_radius(start, c, r)
            &&& 0 <= i < parents.len()
            &&& parents[i] is Some
            &&& c != start ==> parent_ok(parents[i].unwrap(), c, g, settled, dims)
        }
}

/// Follows the recorded parents back from `goal` to `start` and returns the
/// tiles from just after `start` up to `goal`.
fn reconstruct_path(
    parents: &Vec<Option<MapCord>>,
    map_dimensions: MapDimensions,
    start: MapCord,
    goal: MapCord,
    Ghost(tiles): Ghost<Seq<TileType>>,
    Ghost(r): Ghost<u32>,
    Ghost(settled): Ghost<Map<int, (MapCord, u64)>>,
) -> (path: VecDeque<MapCord>)
    requires
        parent_chain_ok(parents@, tiles, map_dimensions, start, r, settled),
        settled.contains_key(cord_index(map_dimensions, goal)),
        settled[cord_index(map_dimensions, goal)].0 == goal,
    ensures
        valid_path(tiles, map_dimensions, start, goal, r, path@),
        path_cost(start, path@) <= settled[cord_index(map_dimensions, goal)].1,
{
    let dims = map_dimensions;
    let mut path: VecDeque<MapCord> = VecDeque::new();
    let mut current = goal;
    proof {
        assert(seq![goal] + path@ =~= seq![goal]);
    }
    while current != start
        invariant
            parent_chain_ok(parents@, tiles, dims, start, r, settled),
            settled.contains_key(cord_index(dims, current)),
            settled[cord_index(dims, current)].0 == current,
            path@.len() == 0 ==> current == goal,
            path@.len() > 0 ==> adjacent(current, path@[0]) && path@.last() == goal && goal != start,
            forall|k: int| 0 <= k < path@.len() ==> walkable(tiles, dims, #[trigger] path@[k]) && within_radius(start, path@[k], r),
            forall|k: int| 0 <= k < path@.len() - 1 ==> adjacent(#[trigger] path@[k], path@[k + 1]),
            walk_cost(seq![current] + path@) + settled[cord_index(dims, current)].1 <= settled[cord_index(dims, goal)].1,
        decreases settled[cord_index(dims, current)].1,
    {
        let ghost ci = cord_index(dims, current);
        let ghost old_path = path@;
        assert(settled.contains_key(ci));
        path.push_front(current);
        proof {
            assert(path@ == seq![current] + old_path);
            assert forall|k: int| 0 <= k < path@.len() implies walkable(tiles, dims, #[trigger] path@[k]) && within_radius(start, path@[k], r) by {
                if k > 0 {
                    assert(path@[k] == old_path[k - 1]);
                }
            }
            assert forall|k: int| 0 <= k < path@.len() - 1 implies adjacent(#[trigger] path@[k], path@[k + 1]) by {
                if k > 0 {
                    assert(path@[k] == old_path[k - 1]);
                    assert(path@[k + 1] == old_path[k]);
                }
            }
        }
        let index = cords_to_index(dims, current);
        let parent = match parents[index] {
            Some(p) => p,
            None => {
                proof {
                    assert(false);
                }
                start
            },
        };
        proof {
            assert(parents@[ci] == Some(parent));
            assert(parent_ok(parent, current, settled[ci].1, settled, dims));
            assert((seq![parent] + path@).skip(1) =~= path@);
            assert((seq![parent] + path@)[1] == current);
        }
        current = parent;
    }
    proof {
        lemma_walk_cost_nonneg(seq![start] + path@);
    }
    path
}


/// The tile one step from `c` in eight-way direction number `d`.
pub open spec fn step_cord(c: MapCord, d: int) -> MapCord {
    let (dx, dy) = orthogonal_step(d);
    MapCord { x: (c.x + dx) as i16, y: (c.y + dy) as i16 }
}

/// Every walkable tile within the radius among the first `upto` neighbours
/// of `c` has been given a cost in generation `gen`.
spec fn closed_at(
    gg: Seq<u32>,
    gen: u32,
    tiles: Seq<TileType>,
    dims: MapDimensions,
    start: MapCord,
    r: u32,
    c: MapCord,
    upto: int,
) -> bool {
    forall|d: int|
        0 <= d < upto && walkable(tiles, dims, #[trigger] step_cord(c, d)) && within_radius(start, step_cord(c, d), r)
            ==> gg[cord_index(dims, step_cord(c, d))] == gen
}

/// Every settled tile, except the one with index `ex`, has had all its
/// walkable neighbours within the radius given a cost.
spec fn closure(
    settled: Map<int, (MapCord, u64)>,
    gg: Seq<u32>,
    gen: u32,
    tiles: Seq<TileType>,
    dims: MapDimensions,
    start: MapCord,
    r: u32,
    ex: int,
) -> bool {
    forall|j: int|
        #[trigger] settled.contains_key(j) && j != ex ==> closed_at(gg, gen, tiles, dims, start, r, settled[j].0, 8)
}

/// Every tile given a cost in this search is settled, or waits in the open
/// set with exactly that cost.
spec fn pending(open: Seq<Node>, gs: Seq<u64>, gg: Seq<u32>, gen: u32, dims: MapDimensions, settled: Map<int, (MapCord, u64)>) -> bool {
    forall|i: int|
        0 <= i < gg.len() && #[trigger] gg[i] == gen ==> settled.contains_key(i) || exists|k: int|
            0 <= k < open.len() && cord_index(dims, (#[trigger] open[k]).cord) == i && open[k].g == gs[i]
}

/// Straight steps (even direction numbers) cost `STRAIGHT_COST`, diagonal
/// ones `DIAGONAL_COST`.
proof fn lemma_step_cost_dir(dims: MapDimensions, c: MapCord, i: int)
    requires
        cord_in_bounds(dims, c),
        0 <= i < 8,
    ensures
        step_cost(c, step_cord(c, i)) == (if i % 2 == 0 { STRAIGHT_COST } else { DIAGONAL_COST }),
{
    crate::map::tile_map::lemma_as_i16(dims.width);
    crate::map::tile_map::lemma_as_i16(dims.height);
    let (dx, dy) = orthogonal_step(i);
    assert(step_cord(c, i).x == c.x + dx);
    assert(step_cord(c, i).y == c.y + dy);
}

/// Every walkable tile within the radius among the first `upto` neighbours
/// of `c` has a cost in generation `gen`, and that cost is at most `g` plus
/// the step to it.
spec fn bounded_at(
    gs: Seq<u64>,
    gg: Seq<u32>,
    gen: u32,
    tiles: Seq<TileType>,
    dims: MapDimensions,
    start: MapCord,
    r: u32,
    c: MapCord,
    g: u64,
    upto: int,
) -> bool {
    forall|d: int|
        0 <= d < upto && walkable(tiles, dims, #[trigger] step_cord(c, d)) && within_radius(start, step_cord(c, d), r)
            ==> gg[cord_index(dims, step_cord(c, d))] == gen && gs[cord_index(dims, step_cord(c, d))] <= g
            + step_cost(c, step_cord(c, d))
}

/// Every settled tile, except the one with index `ex`, bounds the costs of
/// all its walkable neighbours within the radius.
spec fn bounded(
    settled: Map<int, (MapCord, u64)>,
    gs: Seq<u64>,
    gg: Seq<u32>,
    gen: u32,
    tiles: Seq<TileType>,
    dims: MapDimensions,
    start: MapCord,
    r: u32,
    ex: int,
) -> bool {
    forall|j: int|
        #[trigger] settled.contains_key(j) && j != ex ==> bounded_at(gs, gg, gen, tiles, dims, start, r, settled[j].0, settled[j].1, 8)
}

/// Every node of the open set carries its cost plus the estimate to `goal`.
spec fn f_ok(open: Seq<Node>, goal: MapCord) -> bool {
    forall|k: int| 0 <= k < open.len() ==> (#[trigger] open[k]).f == open[k].g + octile(open[k].cord, goal)
}

/// No walk from the start to the tile of entry `e` costs less than its cost.
spec fn entry_optimal(tiles: Seq<TileType>, dims: MapDimensions, start: MapCord, r: u32, e: (MapCord, u64)) -> bool {
    forall|ws: Seq<MapCord>| #[trigger] is_walk(tiles, dims, start, r, ws) && ws.last() == e.0 ==> e.1 <= walk_cost(ws)
}

/// Every settled tile was reached at the least cost of any walk to it.
spec fn all_optimal(settled: Map<int, (MapCord, u64)>, tiles: Seq<TileType>, dims: MapDimensions, start: MapCord, r: u32) -> bool {
    forall|i: int| #[trigger] settled.contains_key(i) ==> entry_optimal(tiles, dims, start, r, settled[i])
}

/// Closing direction `i` of `c` when its tile is not walkable, lies outside
/// the radius, or already costs no more than the step through `c`.
proof fn lemma_bounded_step(
    gs: Seq<u64>,
    gg: Seq<u32>,
    gen: u32,
    tiles: Seq<TileType>,
    dims: MapDimensions,
    start: MapCord,
    r: u32,
    c: MapCord,
    g: u64,
    i: int,
)
    requires
        bounded_at(gs, gg, gen, tiles, dims, start, r, c, g, i),
        !(walkable(tiles, dims, step_cord(c, i)) && within_radius(start, step_cord(c, i), r)) || (gg[cord_index(
            dims,
            step_cord(c, i),
        )] == gen && gs[cord_index(dims, step_cord(c, i))] <= g + step_cost(c, step_cord(c, i))),
    ensures
        bounded_at(gs, gg, gen, tiles, dims, start, r, c, g, i + 1),
{
}

/// Lowering the cost of neighbour `i` of `current` to the step through it
/// keeps every bound and closes direction `i`.
proof fn lemma_bounded_relax(
    settled: Map<int, (MapCord, u64)>,
    gs0: Seq<u64>,
    gs1: Seq<u64>,
    gg0: Seq<u32>,
    gg1: Seq<u32>,
    gen: u32,
    tiles: Seq<TileType>,
    dims: MapDimensions,
    start: MapCord,
    r: u32,
    current: Node,
    ci: int,
    i: int,
    chk: int,
    ng: u64,
)
    requires
        grid_wf(tiles, dims),
        gs0.len() == total(dims),
        gg0.len() == total(dims),
        bounded(settled, gs0, gg0, gen, tiles, dims, start, r, ci),
        bounded_at(gs0, gg0, gen, tiles, dims, start, r, current.cord, current.g, i),
        0 <= i < 8,
        walkable(tiles, dims, step_cord(current.cord, i)),
        chk == cord_index(dims, step_cord(current.cord, i)),
        ng == current.g + step_cost(current.cord, step_cord(current.cord, i)),
        gg0[chk] == gen ==> gs0[chk] > ng,
        gs1 == gs0.update(chk, ng),
        gg1 == gg0.update(chk, gen),
    ensures
        bounded(settled, gs1, gg1, gen, tiles, dims, start, r, ci),
        bounded_at(gs1, gg1, gen, tiles, dims, start, r, current.cord, current.g, i + 1),
{
    let t = step_cord(current.cord, i);
    lemma_index_in_grid(dims, t.x as int, t.y as int);
    assert forall|j: int| #[trigger] settled.contains_key(j) && j != ci implies bounded_at(gs1, gg1, gen, tiles, dims, start, r, settled[j].0, settled[j].1, 8) by {
        assert(bounded_at(gs0, gg0, gen, tiles, dims, start, r, settled[j].0, settled[j].1, 8));
        let c = settled[j].0;
        assert forall|d: int|
            0 <= d < 8 && walkable(tiles, dims, #[trigger] step_cord(c, d)) && within_radius(start, step_cord(c, d), r)
                implies gg1[cord_index(dims, step_cord(c, d))] == gen && gs1[cord_index(dims, step_cord(c, d))] <= settled[j].1
                + step_cost(c, step_cord(c, d)) by {
            let u = step_cord(c, d);
            lemma_index_in_grid(dims, u.x as int, u.y as int);
        }
    }
    assert forall|d: int|
        0 <= d < i + 1 && walkable(tiles, dims, #[trigger] step_cord(current.cord, d)) && within_radius(start, step_cord(current.cord, d), r)
            implies gg1[cord_index(dims, step_cord(current.cord, d))] == gen && gs1[cord_index(dims, step_cord(current.cord, d))]
            <= current.g + step_cost(current.cord, step_cord(current.cord, d)) by {
        let u = step_cord(current.cord, d);
        lemma_index_in_grid(dims, u.x as int, u.y as int);
    }
}

/// The first tile of `ws`, up to tile `j` (which is not settled), that is not
/// settled.
proof fn lemma_first_unsettled(settled: Map<int, (MapCord, u64)>, dims: MapDimensions, ws: Seq<MapCord>, j: int) -> (k: int)
    requires
        0 <= j < ws.len(),
        !settled.contains_key(cord_index(dims, ws[j])),
    ensures
        0 <= k <= j,
        !settled.contains_key(cord_index(dims, ws[k])),
        k > 0 ==> settled.contains_key(cord_index(dims, ws[k - 1])),
    decreases j,
{
    if j == 0 || settled.contains_key(cord_index(dims, ws[j - 1])) {
        j
    } else {
        lemma_first_unsettled(settled, dims, ws, j - 1)
    }
}

/// A path from `start` read as a walk that begins at `start`.
proof fn lemma_path_walk(tiles: Seq<TileType>, dims: MapDimensions, start: MapCord, goal: MapCord, r: u32, path: Seq<MapCord>)
    requires
        valid_path(tiles, dims, start, goal, r, path),
        walkable(tiles, dims, start),
    ensures
        is_walk(tiles, dims, start, r, seq![start] + path),
        (seq![start] + path).last() == goal,
{
    let ws = seq![start] + path;
    assert(0 <= (r as int) * (r as int)) by (nonlinear_arith);
    assert(within_radius(start, start, r));
    assert forall|k: int| 0 <= k < ws.len() implies walkable(tiles, dims, #[trigger] ws[k]) && within_radius(start, ws[k], r) by {
        if k > 0 {
            assert(ws[k] == path[k - 1]);
        }
    }
    assert forall|k: int| 0 <= k < ws.len() - 1 implies adjacent(#[trigger] ws[k], ws[k + 1]) by {
        if k > 0 {
            assert(ws[k] == path[k - 1] && ws[k + 1] == path[k]);
        }
    }
}

/// The tile after a settled tile on a walk costs at most the walk up to it.
proof fn lemma_frontier_bound(
    gs: Seq<u64>,
    gg: Seq<u32>,
    gen: u32,
    tiles: Seq<TileType>,
    dims: MapDimensions,
    start: MapCord,
    r: u32,
    ws: Seq<MapCord>,
    k: int,
    g1: u64,
)
    requires
        is_walk(tiles, dims, start, r, ws),
        1 <= k < ws.len(),
        entry_optimal(tiles, dims, start, r, (ws[k - 1], g1)),
        bounded_at(gs, gg, gen, tiles, dims, start, r, ws[k - 1], g1, 8),
    ensures
        gg[cord_index(dims, ws[k])] == gen,
        gs[cord_index(dims, ws[k])] <= walk_cost(ws.take(k + 1)),
{
    let wk = ws[k];
    assert(walkable(tiles, dims, ws[k - 1]) && walkable(tiles, dims, wk) && within_radius(start, wk, r));
    lemma_walk_prefix(tiles, dims, start, r, ws, k - 1);
    assert(g1 <= walk_cost(ws.take(k)));
    assert(adjacent(ws[k - 1], ws[k]));
    let d = lemma_adjacent_step(dims, ws[k - 1], wk);
    assert(step_cord(ws[k - 1], d) == wk);
    let t = ws.take(k + 1);
    lemma_walk_split(t, k - 1);
    assert(t.take(k) =~= ws.take(k));
    assert(t.skip(k - 1) =~= seq![ws[k - 1], wk]);
    assert(seq![ws[k - 1], wk].skip(1) =~= seq![wk]);
    assert(walk_cost(seq![wk]) == 0);
    assert(walk_cost(seq![ws[k - 1], wk]) == step_cost(ws[k - 1], wk));
}

/// Every settled entry sits at the index of its own walkable tile, whose
/// best known cost is no more than the entry's.
spec fn settled_cords(settled: Map<int, (MapCord, u64)>, gs: Seq<u64>, tiles: Seq<TileType>, dims: MapDimensions) -> bool {
    forall|i: int|
        #[trigger] settled.contains_key(i) ==> cord_index(dims, settled[i].0) == i && walkable(tiles, dims, settled[i].0)
            && gs[i] <= settled[i].1
}

/// What the search invariant says of settled tiles and open nodes that the
/// optimality argument uses.
proof fn lemma_search_facts(
    open: Seq<Node>,
    parents: Seq<Option<MapCord>>,
    gs: Seq<u64>,
    gg: Seq<u32>,
    gen: u32,
    tiles: Seq<TileType>,
    dims: MapDimensions,
    start: MapCord,
    r: u32,
    settled: Map<int, (MapCord, u64)>,
)
    requires
        search_inv(open, parents, gs, gg, gen, tiles, dims, start, r, settled),
    ensures
        settled_cords(settled, gs, tiles, dims),
        forall|k: int| 0 <= k < open.len() ==> walkable(tiles, dims, (#[trigger] open[k]).cord),
{
    assert forall|i: int| #[trigger] settled.contains_key(i) implies cord_index(dims, settled[i].0) == i && walkable(tiles, dims, settled[i].0)
        && gs[i] <= settled[i].1 by {
        assert(settled_ok(i, parents, gs, gg, gen, tiles, dims, start, r, settled));
    }
    assert forall|k: int| 0 <= k < open.len() implies walkable(tiles, dims, (#[trigger] open[k]).cord) by {
        assert(node_ok(open[k], gs, gg, gen, tiles, dims, start, r, settled));
    }
}

/// A walk's cost is at least the cost of a prefix ending at tile `k` plus the
/// drop of the estimate from tile `k` to its last tile.
proof fn lemma_walk_rest(ws: Seq<MapCord>, k: int, goal: MapCord)
    requires
        0 <= k < ws.len(),
        forall|q: int| 0 <= q < ws.len() - 1 ==> adjacent(#[trigger] ws[q], ws[q + 1]),
    ensures
        walk_cost(ws.take(k + 1)) + octile(ws[k], goal) <= walk_cost(ws) + octile(ws.last(), goal),
{
    let sk = ws.skip(k);
    assert forall|q: int| 0 <= q < sk.len() - 1 implies adjacent(#[trigger] sk[q], sk[q + 1]) by {
        assert(sk[q] == ws[q + k] && sk[q + 1] == ws[q + k + 1]);
    }
    lemma_octile_walk(sk, goal);
    assert(sk.last() == ws.last());
    lemma_walk_split(ws, k);
}

/// A node taken from the open set with the least estimate, whose cost is the
/// best known for its tile, was reached at the least cost of any walk: a
/// cheaper walk would leave the settled tiles at some tile that waits in the
/// open set with a smaller estimate.
proof fn lemma_settle_optimal(
    open0: Seq<Node>,
    gs: Seq<u64>,
    gg: Seq<u32>,
    gen: u32,
    tiles: Seq<TileType>,
    dims: MapDimensions,
    start: MapCord,
    goal: MapCord,
    r: u32,
    settled0: Map<int, (MapCord, u64)>,
    current: Node,
)
    requires
        grid_wf(tiles, dims),
        gs.len() == total(dims),
        gg.len() == total(dims),
        walkable(tiles, dims, start),
        gg[cord_index(dims, start)] == gen,
        gs[cord_index(dims, start)] == 0,
        settled_cords(settled0, gs, tiles, dims),
        forall|k: int| 0 <= k < open0.len() ==> walkable(tiles, dims, (#[trigger] open0[k]).cord),
        pending(open0, gs, gg, gen, dims, settled0),
        bounded(settled0, gs, gg, gen, tiles, dims, start, r, -1),
        all_optimal(settled0, tiles, dims, start, r),
        f_ok(open0, goal),
        open0.contains(current),
        forall|k: int| 0 <= k < open0.len() ==> current.f <= (#[trigger] open0[k]).f,
        walkable(tiles, dims, current.cord),
        current.g <= gs[cord_index(dims, current.cord)],
    ensures
        entry_optimal(tiles, dims, start, r, (current.cord, current.g)),
{
    let ci = cord_index(dims, current.cord);
    let j0 = choose|j: int| 0 <= j < open0.len() && open0[j] == current;
    assert(open0[j0].f == open0[j0].g + octile(open0[j0].cord, goal));
    assert forall|ws: Seq<MapCord>| #[trigger] is_walk(tiles, dims, start, r, ws) && ws.last() == current.cord implies current.g
        <= walk_cost(ws) by {
        let m = ws.len() - 1;
        if settled0.contains_key(ci) {
            let (c0, g0) = settled0[ci];
            lemma_index_injective(dims, c0.x as int, c0.y as int, current.cord.x as int, current.cord.y as int);
            assert(entry_optimal(tiles, dims, start, r, settled0[ci]));
        } else if walk_cost(ws) < current.g {
            let k = lemma_first_unsettled(settled0, dims, ws, m);
            let wk = ws[k];
            let ki = cord_index(dims, wk);
            assert(walkable(tiles, dims, wk));
            lemma_index_in_grid(dims, wk.x as int, wk.y as int);
            if k == 0 {
                assert(ws.take(1) =~= seq![start]);
            } else {
                let pk = cord_index(dims, ws[k - 1]);
                let (c1, g1) = settled0[pk];
                assert(walkable(tiles, dims, ws[k - 1]));
                lemma_index_injective(dims, c1.x as int, c1.y as int, ws[k - 1].x as int, ws[k - 1].y as int);
                assert(entry_optimal(tiles, dims, start, r, settled0[pk]));
                assert(bounded_at(gs, gg, gen, tiles, dims, start, r, c1, g1, 8));
                lemma_frontier_bound(gs, gg, gen, tiles, dims, start, r, ws, k, g1);
            }
            assert(gg[ki] == gen && gs[ki] <= walk_cost(ws.take(k + 1)));
            let kn = choose|kn: int| 0 <= kn < open0.len() && cord_index(dims, (#[trigger] open0[kn]).cord) == ki && open0[kn].g == gs[ki];
            let n = open0[kn];
            lemma_index_injective(dims, n.cord.x as int, n.cord.y as int, wk.x as int, wk.y as int);
            assert(n.f == n.g + octile(wk, goal));
            lemma_walk_rest(ws, k, goal);
            assert(current.f <= n.f);
            assert(false);
        }
    }
}

/// Two touching tiles, the first on the map: the second is one of the eight
/// steps from the first.
proof fn lemma_adjacent_step(dims: MapDimensions, a: MapCord, b: MapCord) -> (d: int)
    requires
        cord_in_bounds(dims, a),
        adjacent(a, b),
    ensures
        0 <= d < 8,
        step_cord(a, d) == b,
{
    crate::map::tile_map::lemma_as_i16(dims.width);
    crate::map::tile_map::lemma_as_i16(dims.height);
    let dx = b.x - a.x;
    let dy = b.y - a.y;
    let d = if dx == 0 && dy == -1 {
        0
    } else if dx == 1 && dy == -1 {
        1
    } else if dx == 1 && dy == 0 {
        2
    } else if dx == 1 && dy == 1 {
        3
    } else if dx == 0 && dy == 1 {
        4
    } else if dx == -1 && dy == 1 {
        5
    } else if dx == -1 && dy == 0 {
        6
    } else {
        7
    };
    assert(step_cord(a, d).x == b.x);
    assert(step_cord(a, d).y == b.y);
    d
}

/// When nothing is left to explore, every tile of a would-be path is
/// settled: the start is, and each walkable tile within the radius next to a
/// settled tile is.
proof fn lemma_path_settled(
    settled: Map<int, (MapCord, u64)>,
    gg: Seq<u32>,
    gs: Seq<u64>,
    gen: u32,
    tiles: Seq<TileType>,
    dims: MapDimensions,
    start: MapCord,
    goal: MapCord,
    r: u32,
    path: Seq<MapCord>,
    k: int,
)
    requires
        pending(Seq::<Node>::empty(), gs, gg, gen, dims, settled),
        closure(settled, gg, gen, tiles, dims, start, r, -1),
        parent_chain_cords(settled, dims),
        gg.len() == total(dims),
        walkable(tiles, dims, start),
        gg[cord_index(dims, start)] == gen,
        valid_path(tiles, dims, start, goal, r, path),
        0 <= k < path.len(),
    ensures
        settled.contains_key(cord_index(dims, path[k])),
        settled[cord_index(dims, path[k])].0 == path[k],
    decreases k,
{
    lemma_index_in_grid(dims, start.x as int, start.y as int);
    let prev = if k == 0 { start } else { path[k - 1] };
    if k > 0 {
        lemma_path_settled(settled, gg, gs, gen, tiles, dims, start, goal, r, path, k - 1);
    } else {
        assert(settled.contains_key(cord_index(dims, start)));
        let (c, g) = settled[cord_index(dims, start)];
        lemma_index_injective(dims, c.x as int, c.y as int, start.x as int, start.y as int);
    }
    assert(settled.contains_key(cord_index(dims, prev)));
    assert(adjacent(prev, path[k]));
    let d = lemma_adjacent_step(dims, prev, path[k]);
    assert(closed_at(gg, gen, tiles, dims, start, r, settled[cord_index(dims, prev)].0, 8));
    assert(walkable(tiles, dims, path[k]));
    lemma_index_in_grid(dims, path[k].x as int, path[k].y as int);
    assert(gg[cord_index(dims, step_cord(prev, d))] == gen);
    let pk = cord_index(dims, path[k]);
    assert(settled.contains_key(pk));
    let (c, g) = settled[pk];
    lemma_index_injective(dims, c.x as int, c.y as int, path[k].x as int, path[k].y as int);
}

/// Every settled entry sits at the index of its own tile, which is on the
/// map.
spec fn parent_chain_cords(settled: Map<int, (MapCord, u64)>, dims: MapDimensions) -> bool {
    forall|i: int|
        #[trigger] settled.contains_key(i) ==> cord_index(dims, settled[i].0) == i && cord_in_bounds(dims, settled[i].0)
}

/// When nothing is left to explore and the goal was never settled, no path
/// leads from the start to the goal.
proof fn lemma_no_path(
    settled: Map<int, (MapCord, u64)>,
    gg: Seq<u32>,
    gs: Seq<u64>,
    gen: u32,
    tiles: Seq<TileType>,
    dims: MapDimensions,
    start: MapCord,
    goal: MapCord,
    r: u32,
)
    requires
        pending(Seq::<Node>::empty(), gs, gg, gen, dims, settled),
        closure(settled, gg, gen, tiles, dims, start, r, -1),
        parent_chain_cords(settled, dims),
        gg.len() == total(dims),
        walkable(tiles, dims, start),
        walkable(tiles, dims, goal),
        gg[cord_index(dims, start)] == gen,
        !settled.contains_key(cord_index(dims, goal)),
    ensures
        forall|path: Seq<MapCord>| !valid_path(tiles, dims, start, goal, r, path),
{
    assert forall|path: Seq<MapCord>| !valid_path(tiles, dims, start, goal, r, path) by {
        if valid_path(tiles, dims, start, goal, r, path) {
            if path.len() > 0 {
                lemma_path_settled(settled, gg, gs, gen, tiles, dims, start, goal, r, path, path.len() - 1);
            } else {
                lemma_index_in_grid(dims, start.x as int, start.y as int);
                assert(settled.contains_key(cord_index(dims, start)));
            }
        }
    }
}


/// Lowering the cost of a neighbour of a settled tile and adding it to the
/// open set keeps the search invariant, the pending and closure properties,
/// closes one more direction of the settled tile, and lowers the potential.
#[verifier::rlimit(40)]
proof fn lemma_relax_push(
    open0: Seq<Node>,
    open1: Seq<Node>,
    gs0: Seq<u64>,
    gs1: Seq<u64>,
    gg0: Seq<u32>,
    gg1: Seq<u32>,
    parents: Seq<Option<MapCord>>,
    gen: u32,
    tiles: Seq<TileType>,
    dims: MapDimensions,
    start: MapCord,
    goal: MapCord,
    r: u32,
    settled: Map<int, (MapCord, u64)>,
    current: Node,
    i: int,
    node: Node,
    chk: int,
    cap: int,
)
    requires
        0 <= i < 8,
        search_inv(open0, parents, gs0, gg0, gen, tiles, dims, start, r, settled),
        pending(open0, gs0, gg0, gen, dims, settled),
        closure(settled, gg0, gen, tiles, dims, start, r, cord_index(dims, current.cord)),
        closed_at(gg0, gen, tiles, dims, start, r, current.cord, i),
        settled.contains_key(cord_index(dims, current.cord)),
        settled[cord_index(dims, current.cord)] == (current.cord, current.g),
        node.cord == step_cord(current.cord, i),
        node.parent == current.cord,
        node.g == current.g + (if i % 2 == 0 { STRAIGHT_COST } else { DIAGONAL_COST }),
        walkable(tiles, dims, node.cord),
        within_radius(start, node.cord, r),
        chk == cord_index(dims, node.cord),
        gg0[chk] == gen ==> gs0[chk] > node.g,
        gs1 == gs0.update(chk, node.g),
        gg1 == gg0.update(chk, gen),
        open1.contains(node),
        forall|k: int| 0 <= k < open1.len() ==> open0.contains(#[trigger] open1[k]) || open1[k] == node,
        forall|k: int| 0 <= k < open0.len() ==> open1.contains(#[trigger] open0[k]),
        cap == DIAGONAL_COST * (total(dims) + 1) + 1,
    ensures
        search_inv(open1, parents, gs1, gg1, gen, tiles, dims, start, r, settled),
        pending(open1, gs1, gg1, gen, dims, settled),
        closure(settled, gg1, gen, tiles, dims, start, r, cord_index(dims, current.cord)),
        closed_at(gg1, gen, tiles, dims, start, r, current.cord, i + 1),
        potential(gs1, gg1, gen, cap, total(dims)) < potential(gs0, gg0, gen, cap, total(dims)),
{
    let ci = cord_index(dims, current.cord);
    let check = node.cord;
    assert(settled_ok(ci, parents, gs0, gg0, gen, tiles, dims, start, r, settled));
    lemma_index_in_grid(dims, check.x as int, check.y as int);
    lemma_index_in_grid(dims, start.x as int, start.y as int);
    vstd::set_lib::lemma_int_range(0, total(dims));
    vstd::set_lib::lemma_len_subset(settled.dom(), vstd::set_lib::set_int_range(0, total(dims)));
    assert(settled.len() <= total(dims));
    assert(DIAGONAL_COST * (settled.len() + 1) <= DIAGONAL_COST * (total(dims) + 1)) by (nonlinear_arith)
        requires
            settled.len() <= total(dims),
    ;
    assert(DIAGONAL_COST * settled.len() + DIAGONAL_COST == DIAGONAL_COST * (settled.len() + 1)) by (nonlinear_arith);
    assert(check != start) by {
        if check == start {
            assert(gs0[chk] == 0);
        }
    }
    assert(adjacent(current.cord, check)) by {
        crate::map::tile_map::lemma_as_i16(dims.width);
        crate::map::tile_map::lemma_as_i16(dims.height);
    }
    lemma_step_cost_dir(dims, current.cord, i);
    assert(parent_ok(node.parent, node.cord, node.g, settled, dims));
    assert forall|k: int| 0 <= k < open1.len() implies node_ok(#[trigger] open1[k], gs1, gg1, gen, tiles, dims, start, r, settled) by {
        let n = open1[k];
        if n != node {
            assert(open0.contains(n));
            let j = choose|j: int| 0 <= j < open0.len() && open0[j] == n;
            assert(node_ok(open0[j], gs0, gg0, gen, tiles, dims, start, r, settled));
            lemma_index_in_grid(dims, n.cord.x as int, n.cord.y as int);
        }
    }
    assert forall|j: int| #[trigger] settled.contains_key(j) implies settled_ok(j, parents, gs1, gg1, gen, tiles, dims, start, r, settled) by {
        assert(settled_ok(j, parents, gs0, gg0, gen, tiles, dims, start, r, settled));
    }
    assert forall|j: int| 0 <= j < gg1.len() && #[trigger] gg1[j] == gen implies gs1[j] <= cost_bound(settled) by {
        if j != chk {
            assert(gg0[j] == gen);
        }
    }
    assert forall|j: int| 0 <= j < gg1.len() implies #[trigger] gg1[j] <= gen by {
        if j != chk {
            assert(gg0[j] <= gen);
        }
    }
    assert forall|j: int| 0 <= j < gg1.len() && #[trigger] gg1[j] == gen implies settled.contains_key(j) || exists|k: int|
        0 <= k < open1.len() && cord_index(dims, (#[trigger] open1[k]).cord) == j && open1[k].g == gs1[j] by {
        if j == chk {
            let k = choose|k: int| 0 <= k < open1.len() && open1[k] == node;
            assert(cord_index(dims, open1[k].cord) == j && open1[k].g == gs1[j]);
        } else {
            assert(gg0[j] == gen);
            if !settled.contains_key(j) {
                let k0 = choose|k: int| 0 <= k < open0.len() && cord_index(dims, (#[trigger] open0[k]).cord) == j && open0[k].g == gs0[j];
                assert(open1.contains(open0[k0]));
                let k1 = choose|k: int| 0 <= k < open1.len() && open1[k] == open0[k0];
                assert(cord_index(dims, open1[k1].cord) == j && open1[k1].g == gs1[j]);
            }
        }
    }
    assert forall|j: int| #[trigger] settled.contains_key(j) && j != ci implies closed_at(gg1, gen, tiles, dims, start, r, settled[j].0, 8) by {
        assert(closed_at(gg0, gen, tiles, dims, start, r, settled[j].0, 8));
        assert forall|d: int|
            0 <= d < 8 && walkable(tiles, dims, #[trigger] step_cord(settled[j].0, d)) && within_radius(start, step_cord(settled[j].0, d), r)
                implies gg1[cord_index(dims, step_cord(settled[j].0, d))] == gen by {
            let t = step_cord(settled[j].0, d);
            lemma_index_in_grid(dims, t.x as int, t.y as int);
        }
    }
    assert forall|d: int|
        0 <= d < i + 1 && walkable(tiles, dims, #[trigger] step_cord(current.cord, d)) && within_radius(start, step_cord(current.cord, d), r)
            implies gg1[cord_index(dims, step_cord(current.cord, d))] == gen by {
        let t = step_cord(current.cord, d);
        lemma_index_in_grid(dims, t.x as int, t.y as int);
    }
    assert(budget(gs1, gg1, gen, cap, chk) < budget(gs0, gg0, gen, cap, chk));
    lemma_potential_update(gs0, gg0, gs1, gg1, gen, cap, chk, total(dims));
}


/// A settled node's cost plus one step stays well inside `u64`.
proof fn lemma_relax_bounds(
    open: Seq<Node>,
    parents: Seq<Option<MapCord>>,
    gs: Seq<u64>,
    gg: Seq<u32>,
    gen: u32,
    tiles: Seq<TileType>,
    dims: MapDimensions,
    start: MapCord,
    r: u32,
    settled: Map<int, (MapCord, u64)>,
    current: Node,
)
    requires
        search_inv(open, parents, gs, gg, gen, tiles, dims, start, r, settled),
        settled.contains_key(cord_index(dims, current.cord)),
        settled[cord_index(dims, current.cord)] == (current.cord, current.g),
    ensures
        cord_in_bounds(dims, current.cord),
        current.g + DIAGONAL_COST <= DIAGONAL_COST * (65535 * 65535 + 1),
        0 <= cord_index(dims, current.cord) < gg.len(),
{
    let ci = cord_index(dims, current.cord);
    assert(settled_ok(ci, parents, gs, gg, gen, tiles, dims, start, r, settled));
    vstd::set_lib::lemma_int_range(0, total(dims));
    vstd::set_lib::lemma_len_subset(settled.dom(), vstd::set_lib::set_int_range(0, total(dims)));
    assert(total(dims) <= 65535 * 65535) by (nonlinear_arith)
        requires
            total(dims) == dims.width as int * dims.height as int,
            dims.width <= 65535,
            dims.height <= 65535,
    ;
    assert(DIAGONAL_COST * settled.len() + DIAGONAL_COST <= DIAGONAL_COST * (65535 * 65535 + 1)) by (nonlinear_arith)
        requires
            settled.len() <= 65535 * 65535,
    ;
    lemma_index_in_grid(dims, current.cord.x as int, current.cord.y as int);
}

/// Direction `i` of `c` is closed when its tile is not walkable, lies
/// outside the radius, or already has a cost.
proof fn lemma_closed_step(
    gg: Seq<u32>,
    gen: u32,
    tiles: Seq<TileType>,
    dims: MapDimensions,
    start: MapCord,
    r: u32,
    c: MapCord,
    i: int,
)
    requires
        closed_at(gg, gen, tiles, dims, start, r, c, i),
        !(walkable(tiles, dims, step_cord(c, i)) && within_radius(start, step_cord(c, i), r)) || gg[cord_index(
            dims,
            step_cord(c, i),
        )] == gen,
    ensures
        closed_at(gg, gen, tiles, dims, start, r, c, i + 1),
{
}


/// Taking a node out of the open set keeps every tile pending or settled,
/// provided its own tile is settled now or the node was out of date.
proof fn lemma_pop_pending(
    open0: Seq<Node>,
    open1: Seq<Node>,
    x: Node,
    gs: Seq<u64>,
    gg: Seq<u32>,
    gen: u32,
    dims: MapDimensions,
    settled0: Map<int, (MapCord, u64)>,
    settled1: Map<int, (MapCord, u64)>,
)
    requires
        pending(open0, gs, gg, gen, dims, settled0),
        forall|k: int| 0 <= k < open0.len() && open0[k] != x ==> open1.contains(#[trigger] open0[k]),
        forall|j: int| #[trigger] settled0.contains_key(j) ==> settled1.contains_key(j),
        0 <= cord_index(dims, x.cord) < gs.len(),
        x.g != gs[cord_index(dims, x.cord)] || settled1.contains_key(cord_index(dims, x.cord)),
    ensures
        pending(open1, gs, gg, gen, dims, settled1),
{
    assert forall|j: int| 0 <= j < gg.len() && #[trigger] gg[j] == gen implies settled1.contains_key(j) || exists|k: int|
        0 <= k < open1.len() && cord_index(dims, (#[trigger] open1[k]).cord) == j && open1[k].g == gs[j] by {
        if !settled1.contains_key(j) {
            assert(!settled0.contains_key(j));
            let k0 = choose|k: int| 0 <= k < open0.len() && cord_index(dims, (#[trigger] open0[k]).cord) == j && open0[k].g == gs[j];
            assert(open0[k0] != x);
            assert(open1.contains(open0[k0]));
            let k1 = choose|k: int| 0 <= k < open1.len() && open1[k] == open0[k0];
            assert(cord_index(dims, open1[k1].cord) == j && open1[k1].g == gs[j]);
        }
    }
}

impl PathFinder {
    /// Tries tile `current.cord + step i` as a next step of the search: when it
    /// is a grass tile on the map within the radius, and reaching it through
    /// `current` is cheaper than any way found so far in this search, its
    /// cost is lowered and it is added to the open set with `current` as its
    /// parent.
    fn relax_neighbor(
        &mut self,
        current: Node,
        i: usize,
        start: MapCord,
        goal: MapCord,
        tiles: &MapTileGrid,
        dims: MapDimensions,
        max_radius: u32,
        r2: u64,
        Ghost(settled): Ghost<Map<int, (MapCord, u64)>>,
        Ghost(cap): Ghost<int>,
    )
        requires
            i < 8,
            old(self).open.wf(),
            search_inv(
                old(self).open@,
                old(self).parents@,
                old(self).g_score@,
                old(self).g_score_generation@,
                old(self).generation,
                tiles@,
                dims,
                start,
                max_radius,
                settled,
            ),
            settled.contains_key(cord_index(dims, current.cord)),
            settled[cord_index(dims, current.cord)] == (current.cord, current.g),
            r2 == max_radius as int * max_radius as int,
            cap == DIAGONAL_COST * (total(dims) + 1) + 1,
            pending(old(self).open@, old(self).g_score@, old(self).g_score_generation@, old(self).generation, dims, settled),
            closure(settled, old(self).g_score_generation@, old(self).generation, tiles@, dims, start, max_radius, cord_index(dims, current.cord)),
            closed_at(old(self).g_score_generation@, old(self).generation, tiles@, dims, start, max_radius, current.cord, i as int),
            bounded(settled, old(self).g_score@, old(self).g_score_generation@, old(self).generation, tiles@, dims, start, max_radius, cord_index(dims, current.cord)),
            bounded_at(old(self).g_score@, old(self).g_score_generation@, old(self).generation, tiles@, dims, start, max_radius, current.cord, current.g, i as int),
            f_ok(old(self).open@, goal),
        ensures
            bounded(settled, final(self).g_score@, final(self).g_score_generation@, final(self).generation, tiles@, dims, start, max_radius, cord_index(dims, current.cord)),
            bounded_at(final(self).g_score@, final(self).g_score_generation@, final(self).generation, tiles@, dims, start, max_radius, current.cord, current.g, i + 1),
            f_ok(final(self).open@, goal),
            pending(final(self).open@, final(self).g_score@, final(self).g_score_generation@, final(self).generation, dims, settled),
            closure(settled, final(self).g_score_generation@, final(self).generation, tiles@, dims, start, max_radius, cord_index(dims, current.cord)),
            closed_at(final(self).g_score_generation@, final(self).generation, tiles@, dims, start, max_radius, current.cord, i + 1),
            final(self).open.wf(),
            final(self).generation == old(self).generation,
            final(self).parents@ == old(self).parents@,
            search_inv(
                final(self).open@,
                final(self).parents@,
                final(self).g_score@,
                final(self).g_score_generation@,
                final(self).generation,
                tiles@,
                dims,
                start,
                max_radius,
                settled,
            ),
            potential(final(self).g_score@, final(self).g_score_generation@, final(self).generation, cap, total(dims))
                < potential(old(self).g_score@, old(self).g_score_generation@, old(self).generation, cap, total(dims))
                || (potential(final(self).g_score@, final(self).g_score_generation@, final(self).generation, cap, total(dims))
                == potential(old(self).g_score@, old(self).g_score_generation@, old(self).generation, cap, total(dims))
                && final(self).open@.len() == old(self).open@.len()),
    {
        let ghost ci = cord_index(dims, current.cord);
        let ghost gg0 = self.g_score_generation@;
        let ghost gen = self.generation;
        proof {
            lemma_relax_bounds(self.open@, self.parents@, self.g_score@, self.g_score_generation@, self.generation, tiles@, dims, start, max_radius, settled, current);
            lemma_step_cost_dir(dims, current.cord, i as int);
        }
        let check_tile = current.cord.plus(orthogonal_delta(i));
        assert(check_tile == step_cord(current.cord, i as int));
        if squared_dist(check_tile, start) > r2 {
            proof {
                lemma_closed_step(gg0, gen, tiles@, dims, start, max_radius, current.cord, i as int);
                lemma_bounded_step(self.g_score@, gg0, gen, tiles@, dims, start, max_radius, current.cord, current.g, i as int);
            }
            return;
        }
        if !is_tile_in_bounds(dims, check_tile) {
            proof {
                lemma_closed_step(gg0, gen, tiles@, dims, start, max_radius, current.cord, i as int);
                lemma_bounded_step(self.g_score@, gg0, gen, tiles@, dims, start, max_radius, current.cord, current.g, i as int);
            }
            return;
        }
        proof {
            lemma_index_in_grid(dims, check_tile.x as int, check_tile.y as int);
        }
        if get_tile_at_cord(tiles, dims, check_tile) != TileType::Grass {
            proof {
                lemma_closed_step(gg0, gen, tiles@, dims, start, max_radius, current.cord, i as int);
                lemma_bounded_step(self.g_score@, gg0, gen, tiles@, dims, start, max_radius, current.cord, current.g, i as int);
            }
            return;
        }
        let check_index = cords_to_index(dims, check_tile);
        let tentative_g = if i % 2 == 0 {
            current.g + STRAIGHT_COST
        } else {
            current.g + DIAGONAL_COST
        };
        let existing_g = if self.g_score_generation[check_index] == self.generation {
            self.g_score[check_index]
        } else {
            u64::MAX
        };
        if existing_g > tentative_g {
            let ghost gs0 = self.g_score@;
            let ghost gg0 = self.g_score_generation@;
            let ghost open0 = self.open@;
            self.g_score.set(check_index, tentative_g);
            self.g_score_generation.set(check_index, self.generation);
            let f = tentative_g + octile_dist(check_tile, goal);
            let node = Node { cord: check_tile, parent: current.cord, g: tentative_g, f };
            self.open.push(node);
            proof {
                lemma_step_cost_dir(dims, current.cord, i as int);
                lemma_bounded_relax(settled, gs0, self.g_score@, gg0, self.g_score_generation@, gen, tiles@, dims, start, max_radius, current, ci, i as int, check_index as int, tentative_g);
                assert forall|k: int| 0 <= k < self.open@.len() implies (#[trigger] self.open@[k]).f == self.open@[k].g + octile(self.open@[k].cord, goal) by {
                    if self.open@[k] != node {
                        assert(open0.contains(self.open@[k]));
                        let j = choose|j: int| 0 <= j < open0.len() && open0[j] == self.open@[k];
                        assert(open0[j].f == open0[j].g + octile(open0[j].cord, goal));
                    }
                }
                lemma_relax_push(open0, self.open@, gs0, self.g_score@, gg0, self.g_score_generation@, self.parents@, self.generation, tiles@, dims, start, goal, max_radius, settled, current, i as int, node, check_index as int, cap);
            }
        } else {
            proof {
                lemma_closed_step(gg0, gen, tiles@, dims, start, max_radius, current.cord, i as int);
                lemma_bounded_step(self.g_score@, gg0, gen, tiles@, dims, start, max_radius, current.cord, current.g, i as int);
            }
        }
    }
}



/// Settling a node taken from the open set whose cost is the best known for
/// its tile keeps the search invariant, with the tile added to the settled
/// map.
proof fn lemma_settle(
    open: Seq<Node>,
    parents0: Seq<Option<MapCord>>,
    parents: Seq<Option<MapCord>>,
    gs: Seq<u64>,
    gg: Seq<u32>,
    gen: u32,
    tiles: Seq<TileType>,
    dims: MapDimensions,
    start: MapCord,
    max_radius: u32,
    settled0: Map<int, (MapCord, u64)>,
    current: Node,
) -> (settled: Map<int, (MapCord, u64)>)
    requires
        search_inv(open, parents0, gs, gg, gen, tiles, dims, start, max_radius, settled0),
        node_ok(current, gs, gg, gen, tiles, dims, start, max_radius, settled0),
        current.g <= gs[cord_index(dims, current.cord)],
        parents == parents0.update(cord_index(dims, current.cord), Some(current.parent)),
    ensures
        search_inv(open, parents, gs, gg, gen, tiles, dims, start, max_radius, settled),
        settled == settled0.insert(cord_index(dims, current.cord), (current.cord, current.g)),
{
    let ci = cord_index(dims, current.cord);
    lemma_index_in_grid(dims, current.cord.x as int, current.cord.y as int);
    let settled = settled0.insert(ci, (current.cord, current.g));
    assert(settled.dom() =~= settled0.dom().insert(ci));
    vstd::set_lib::lemma_int_range(0, total(dims));
    assert(settled.len() >= settled0.len());
    assert(DIAGONAL_COST * (settled0.len() + 1) <= DIAGONAL_COST * (settled.len() + 1)) by (nonlinear_arith)
        requires
            settled0.len() <= settled.len(),
    ;
    assert(DIAGONAL_COST * settled0.len() <= DIAGONAL_COST * settled.len()) by (nonlinear_arith)
        requires
            settled0.len() <= settled.len(),
    ;
    if !settled0.contains_key(ci) {
        assert(settled.len() == settled0.len() + 1);
        assert(DIAGONAL_COST * (settled0.len() + 1) == DIAGONAL_COST * settled.len());
    }
    assert forall|k: int| 0 <= k < open.len() implies node_ok(#[trigger] open[k], gs, gg, gen, tiles, dims, start, max_radius, settled) by {
        let nd = open[k];
        assert(node_ok(nd, gs, gg, gen, tiles, dims, start, max_radius, settled0));
        if nd.cord != start {
            let pi = cord_index(dims, nd.parent);
            if pi == ci {
                assert(settled_ok(pi, parents0, gs, gg, gen, tiles, dims, start, max_radius, settled0));
                lemma_index_injective(dims, nd.parent.x as int, nd.parent.y as int, current.cord.x as int, current.cord.y as int);
            }
        }
    }
    assert forall|i: int| #[trigger] settled.contains_key(i) implies settled_ok(i, parents, gs, gg, gen, tiles, dims, start, max_radius, settled) by {
        if i == ci {
            if current.cord != start {
                let pi = cord_index(dims, current.parent);
                assert(parent_ok(current.parent, current.cord, current.g, settled0, dims));
                if pi == ci {
                    assert(settled_ok(pi, parents0, gs, gg, gen, tiles, dims, start, max_radius, settled0));
                    lemma_index_injective(dims, current.parent.x as int, current.parent.y as int, current.cord.x as int, current.cord.y as int);
                }
            }
            if settled0.contains_key(ci) {
                assert(settled_ok(ci, parents0, gs, gg, gen, tiles, dims, start, max_radius, settled0));
            }
        } else {
            assert(settled_ok(i, parents0, gs, gg, gen, tiles, dims, start, max_radius, settled0));
            let (c, g) = settled0[i];
            if c != start {
                let p = parents0[i].unwrap();
                let pi = cord_index(dims, p);
                if pi == ci {
                    assert(settled_ok(pi, parents0, gs, gg, gen, tiles, dims, start, max_radius, settled0));
                    lemma_index_injective(dims, p.x as int, p.y as int, current.cord.x as int, current.cord.y as int);
                }
            }
        }
    }
    settled
}

impl PathFinder {
    /// A* search from `start` to `goal` over the grass tiles of `tile_map`,
    /// stepping to any of the eight touching tiles (straight steps cost
    /// `STRAIGHT_COST`, diagonal ones `DIAGONAL_COST`) and never leaving the
    /// circle of radius `max_radius_for_path` around `start`.
    ///
    /// The goal is `TooLong` exactly when it lies `max_radius_for_path` or
    /// more tiles from the start; otherwise the result is `NoRoute` when
    /// either endpoint is off the map or not grass, or when the search runs
    /// out of tiles without reaching the goal. A `Success` path leads from the
    /// start (excluded) to the goal through touching grass tiles within the
    /// radius, and no such path costs less (see `path_cost`). The finder is left as it is when no search is made, and must be
    /// sized for the map when one is.
    pub fn a_star(&mut self, start: MapCord, goal: MapCord, tile_map: &TileMap, max_radius_for_path: u32) -> (r:
        PathResult)
        requires
            old(self).wf(),
            dist2(goal, start) < max_radius_for_path as int * max_radius_for_path as int && walkable(
                tile_map.tiles(),
                tile_map.dims(),
                start,
            ) && walkable(tile_map.tiles(), tile_map.dims(), goal) ==> old(self).num_tiles() == total(
                tile_map.dims(),
            ),
        ensures
            final(self).wf(),
            final(self).num_tiles() == old(self).num_tiles(),
            r is TooLong <==> dist2(goal, start) >= max_radius_for_path as int * max_radius_for_path as int,
            r is TooLong ==> *final(self) == *old(self),
            dist2(goal, start) < max_radius_for_path as int * max_radius_for_path as int && !(walkable(
                tile_map.tiles(),
                tile_map.dims(),
                start,
            ) && walkable(tile_map.tiles(), tile_map.dims(), goal)) ==> r is NoRoute && *final(self) == *old(self),
            !(r is NoPath),
            r is NoRoute && walkable(tile_map.tiles(), tile_map.dims(), start) && walkable(
                tile_map.tiles(),
                tile_map.dims(),
                goal,
            ) ==> forall|path: Seq<MapCord>|
                !valid_path(tile_map.tiles(), tile_map.dims(), start, goal, max_radius_for_path, path),
            r matches PathResult::Success { path } ==> valid_path(
                tile_map.tiles(),
                tile_map.dims(),
                start,
                goal,
                max_radius_for_path,
                path@,
            ),
            r matches PathResult::Success { path } ==> forall|p: Seq<MapCord>|
                #[trigger] valid_path(tile_map.tiles(), tile_map.dims(), start, goal, max_radius_for_path, p) ==> path_cost(
                    start,
                    path@,
                ) <= path_cost(start, p),
    {
        let tiles = tile_map.map_tile_grid();
        let dims = tile_map.dimensions();
        let max_radius = max_radius_for_path;
        assert(max_radius as int * max_radius as int <= 0xffff_ffff * 0xffff_ffff) by (nonlinear_arith)
            requires
                max_radius <= 0xffff_ffff,
        ;
        let r2: u64 = max_radius as u64 * max_radius as u64;
        if squared_dist(goal, start) >= r2 {
            return PathResult::TooLong;
        }
        if !is_tile_in_bounds(dims, goal) {
            return PathResult::NoRoute;
        }
        if !is_tile_in_bounds(dims, start) {
            return PathResult::NoRoute;
        }
        proof {
            lemma_index_in_grid(dims, goal.x as int, goal.y as int);
            lemma_index_in_grid(dims, start.x as int, start.y as int);
        }
        if get_tile_at_cord(tiles, dims, goal) != TileType::Grass {
            return PathResult::NoRoute;
        }
        if get_tile_at_cord(tiles, dims, start) != TileType::Grass {
            return PathResult::NoRoute;
        }
        let n = self.g_score.len();
        if self.generation == u32::MAX {
            self.generation = 0;
            let mut k: usize = 0;
            while k < n
                invariant
                    n == self.g_score@.len(),
                    self.g_score_generation@.len() == n,
                    self.parents@.len() == n,
                    self.generation == 0,
                    self.open.wf(),
                    k <= n,
                    forall|j: int| 0 <= j < k ==> #[trigger] self.g_score_generation@[j] == 0,
                decreases n - k,
            {
                self.g_score_generation.set(k, 0);
                self.parents.set(k, None);
                k = k + 1;
            }
        }
        self.generation = self.generation + 1;
        self.open.clear();
        let gen = self.generation;
        let start_index = cords_to_index(dims, start);
        self.g_score.set(start_index, 0);
        self.g_score_generation.set(start_index, gen);
        let start_h = octile_dist(start, goal);
        let sentinel_parent = MapCord::new(i16::MAX, i16::MAX);
        let start_node = Node { cord: start, parent: sentinel_parent, f: start_h, g: 0 };
        self.open.push(start_node);
        let ghost mut settled: Map<int, (MapCord, u64)> = Map::empty();
        let ghost cap: int = DIAGONAL_COST * (total(dims) + 1) + 1;
        proof {
            assert(settled.dom() =~= Set::<int>::empty());
            assert forall|k: int| 0 <= k < self.open@.len() implies (#[trigger] self.open@[k]).f == self.open@[k].g + octile(self.open@[k].cord, goal) by {
                assert(self.open@[k] == start_node);
            }
            assert forall|k: int| 0 <= k < self.open@.len() implies node_ok(#[trigger] self.open@[k], self.g_score@, self.g_score_generation@, gen, tiles@, dims, start, max_radius, settled) by {
                assert(self.open@[k] == start_node);
            }
            assert forall|j: int| 0 <= j < self.g_score_generation@.len() && #[trigger] self.g_score_generation@[j] == gen implies self.g_score@[j] <= cost_bound(settled) by {
                if j != start_index {
                    assert(self.g_score_generation@[j] <= gen - 1);
                }
            }
            assert forall|j: int| 0 <= j < self.g_score_generation@.len() && #[trigger] self.g_score_generation@[j] == gen implies settled.contains_key(j) || exists|k: int|
                0 <= k < self.open@.len() && cord_index(dims, (#[trigger] self.open@[k]).cord) == j && self.open@[k].g == self.g_score@[j] by {
                if j != start_index {
                    assert(self.g_score_generation@[j] <= gen - 1);
                } else {
                    assert(self.open@.contains(start_node));
                    let k = choose|k: int| 0 <= k < self.open@.len() && self.open@[k] == start_node;
                    assert(cord_index(dims, self.open@[k].cord) == j && self.open@[k].g == self.g_score@[j]);
                }
            }
        }
        loop
            invariant
                self.open.wf(),
                self.generation == gen,
                self.parents@.len() == n,
                n == total(dims),
                n == old(self).num_tiles(),
                max_radius == max_radius_for_path,
                dist2(goal, start) < r2,
                search_inv(
                    self.open@,
                    self.parents@,
                    self.g_score@,
                    self.g_score_generation@,
                    gen,
                    tiles@,
                    dims,
                    start,
                    max_radius,
                    settled,
                ),
                tiles@ == tile_map.tiles(),
                dims == tile_map.dims(),
                r2 == max_radius as int * max_radius as int,
                cap == DIAGONAL_COST * (total(dims) + 1) + 1,
                walkable(tiles@, dims, goal),
                pending(self.open@, self.g_score@, self.g_score_generation@, gen, dims, settled),
                closure(settled, self.g_score_generation@, gen, tiles@, dims, start, max_radius, -1),
                !settled.contains_key(cord_index(dims, goal)),
                bounded(settled, self.g_score@, self.g_score_generation@, gen, tiles@, dims, start, max_radius, -1),
                f_ok(self.open@, goal),
                all_optimal(settled, tiles@, dims, start, max_radius),
            decreases
                potential(self.g_score@, self.g_score_generation@, gen, cap, total(dims)),
                self.open@.len(),
        {
            let ghost open0 = self.open@;
            let ghost pot_start = potential(self.g_score@, self.g_score_generation@, gen, cap, total(dims));
            proof {
                lemma_search_facts(open0, self.parents@, self.g_score@, self.g_score_generation@, gen, tiles@, dims, start, max_radius, settled);
                lemma_potential_nonneg(self.g_score@, self.g_score_generation@, gen, cap, total(dims));
            }
            let current = match self.open.pop() {
                Some(c) => c,
                None => {
                    proof {
                        assert(open0 =~= Seq::<Node>::empty());
                        assert forall|i: int| #[trigger] settled.contains_key(i) implies cord_index(dims, settled[i].0) == i
                            && cord_in_bounds(dims, settled[i].0) by {
                            assert(settled_ok(i, self.parents@, self.g_score@, self.g_score_generation@, gen, tiles@, dims, start, max_radius, settled));
                        }
                        lemma_index_in_grid(dims, start.x as int, start.y as int);
                        lemma_no_path(settled, self.g_score_generation@, self.g_score@, gen, tiles@, dims, start, goal, max_radius);
                        assert forall|j: int| 0 <= j < self.g_score_generation@.len() implies #[trigger] self.g_score_generation@[j] <= self.generation by {
                        }
                    }
                    return PathResult::NoRoute;
                },
            };
            let ghost j0 = choose|j: int| 0 <= j < open0.len() && open0[j] == current;
            proof {
                assert(node_ok(open0[j0], self.g_score@, self.g_score_generation@, gen, tiles@, dims, start, max_radius, settled));
                lemma_index_in_grid(dims, current.cord.x as int, current.cord.y as int);
                assert forall|k: int| 0 <= k < self.open@.len() implies node_ok(#[trigger] self.open@[k], self.g_score@, self.g_score_generation@, gen, tiles@, dims, start, max_radius, settled) by {
                    let e = self.open@[k];
                    assert(open0.contains(e));
                    let j = choose|j: int| 0 <= j < open0.len() && open0[j] == e;
                    assert(node_ok(open0[j], self.g_score@, self.g_score_generation@, gen, tiles@, dims, start, max_radius, settled));
                }
                assert forall|k: int| 0 <= k < self.open@.len() implies (#[trigger] self.open@[k]).f == self.open@[k].g + octile(self.open@[k].cord, goal) by {
                    let e = self.open@[k];
                    assert(open0.contains(e));
                    let j = choose|j: int| 0 <= j < open0.len() && open0[j] == e;
                    assert(open0[j].f == open0[j].g + octile(open0[j].cord, goal));
                }
            }
            let current_index = cords_to_index(dims, current.cord);
            if current.g > self.g_score[current_index] {
                proof {
                    lemma_pop_pending(open0, self.open@, current, self.g_score@, self.g_score_generation@, gen, dims, settled, settled);
                }
                continue;
            }
            let ghost parents0 = self.parents@;
            let ghost settled0 = settled;
            let ghost ci = current_index as int;
            proof {
                lemma_settle_optimal(open0, self.g_score@, self.g_score_generation@, gen, tiles@, dims, start, goal, max_radius, settled0, current);
            }
            self.parents.set(current_index, Some(current.parent));
            proof {
                settled = lemma_settle(self.open@, parents0, self.parents@, self.g_score@, self.g_score_generation@, gen, tiles@, dims, start, max_radius, settled0, current);
                lemma_pop_pending(open0, self.open@, current, self.g_score@, self.g_score_generation@, gen, dims, settled0, settled);
                assert forall|j: int| #[trigger] settled.contains_key(j) && j != ci implies closed_at(self.g_score_generation@, gen, tiles@, dims, start, max_radius, settled[j].0, 8) by {
                    assert(settled0.contains_key(j));
                }
                assert forall|j: int| #[trigger] settled.contains_key(j) && j != ci implies bounded_at(self.g_score@, self.g_score_generation@, gen, tiles@, dims, start, max_radius, settled[j].0, settled[j].1, 8) by {
                    assert(settled0.contains_key(j));
                }
                assert forall|j: int| #[trigger] settled.contains_key(j) implies entry_optimal(tiles@, dims, start, max_radius, settled[j]) by {
                    if j != ci {
                        assert(settled0.contains_key(j));
                    }
                }
            }
            if current.cord == goal {
                proof {
                    assert forall|i: int| #[trigger] settled.contains_key(i) implies ({
                        let (c, g) = settled[i];
                        &&& cord_index(dims, c) == i
                        &&& walkable(tiles@, dims, c)
                        &&& within_radius(start, c, max_radius)
                        &&& 0 <= i < self.parents@.len()
                        &&& self.parents@[i] is Some
                        &&& c != start ==> parent_ok(self.parents@[i].unwrap(), c, g, settled, dims)
                    }) by {
                        assert(settled_ok(i, self.parents@, self.g_score@, self.g_score_generation@, gen, tiles@, dims, start, max_radius, settled));
                    }
                }
                let path = reconstruct_path(&self.parents, dims, start, goal, Ghost(tiles@), Ghost(max_radius), Ghost(settled));
                proof {
                    assert(settled.contains_key(ci));
                    assert(entry_optimal(tiles@, dims, start, max_radius, settled[ci]));
                    assert forall|p: Seq<MapCord>|
                        #[trigger] valid_path(tiles@, dims, start, goal, max_radius, p) implies path_cost(start, path@) <= path_cost(start, p) by {
                        lemma_path_walk(tiles@, dims, start, goal, max_radius, p);
                    }
                }
                return PathResult::Success { path };
            }
            proof {
                lemma_index_in_grid(dims, goal.x as int, goal.y as int);
                if cord_index(dims, goal) == ci {
                    lemma_index_injective(dims, goal.x as int, goal.y as int, current.cord.x as int, current.cord.y as int);
                }
            }
            let ghost pot0 = potential(self.g_score@, self.g_score_generation@, gen, cap, total(dims));
            let ghost len0 = self.open@.len();
            let mut i: usize = 0;
            while i < 8
                invariant
                    i <= 8,
                    self.open.wf(),
                    self.generation == gen,
                    self.parents@.len() == n,
                    n == total(dims),
                    search_inv(
                        self.open@,
                        self.parents@,
                        self.g_score@,
                        self.g_score_generation@,
                        gen,
                        tiles@,
                        dims,
                        start,
                        max_radius,
                        settled,
                    ),
                    settled.contains_key(cord_index(dims, current.cord)),
                    settled[cord_index(dims, current.cord)] == (current.cord, current.g),
                    r2 == max_radius as int * max_radius as int,
                    cap == DIAGONAL_COST * (total(dims) + 1) + 1,
                    potential(self.g_score@, self.g_score_generation@, gen, cap, total(dims)) < pot0 || (potential(
                        self.g_score@,
                        self.g_score_generation@,
                        gen,
                        cap,
                        total(dims),
                    ) == pot0 && self.open@.len() == len0),
                    pending(self.open@, self.g_score@, self.g_score_generation@, gen, dims, settled),
                    closure(settled, self.g_score_generation@, gen, tiles@, dims, start, max_radius, cord_index(dims, current.cord)),
                    closed_at(self.g_score_generation@, gen, tiles@, dims, start, max_radius, current.cord, i as int),
                    !settled.contains_key(cord_index(dims, goal)),
                    bounded(settled, self.g_score@, self.g_score_generation@, gen, tiles@, dims, start, max_radius, cord_index(dims, current.cord)),
                    bounded_at(self.g_score@, self.g_score_generation@, gen, tiles@, dims, start, max_radius, current.cord, current.g, i as int),
                    f_ok(self.open@, goal),
                    all_optimal(settled, tiles@, dims, start, max_radius),
                decreases 8 - i,
            {
                self.relax_neighbor(current, i, start, goal, tiles, dims, max_radius, r2, Ghost(settled), Ghost(cap));
                i = i + 1;
            }
            proof {
                assert forall|j: int| #[trigger] settled.contains_key(j) && j != -1 implies closed_at(self.g_score_generation@, gen, tiles@, dims, start, max_radius, settled[j].0, 8) by {
                    if j == ci {
                        assert(settled[j].0 == current.cord);
                    }
                }
                assert forall|j: int| #[trigger] settled.contains_key(j) && j != -1 implies bounded_at(self.g_score@, self.g_score_generation@, gen, tiles@, dims, start, max_radius, settled[j].0, settled[j].1, 8) by {
                    if j == ci {
                        assert(settled[j] == (current.cord, current.g));
                    }
                }
                assert(pot0 == pot_start);
                assert(len0 + 1 == open0.len());
                lemma_potential_nonneg(self.g_score@, self.g_score_generation@, gen, cap, total(dims));
            }
        }
    }
}

} // verus!
