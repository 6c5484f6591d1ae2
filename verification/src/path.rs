use vstd::prelude::*;
use crate::coords::tile_coord;
use crate::coords::world_coord;
use crate::coords::world_to_tile;
use crate::coords::tile_to_world;
use crate::coords::lemma_tile_div_fits;
use crate::coords::lemma_tile_world_round_trip;
use crate::level::TileGraph;
use crate::level::entry_find;
use crate::level::lemma_entry_find_from;
use crate::level::lemma_entry_find_from_same_keys;
use crate::level::find_entry;

verus! {

/// The tentative distance standing for "not reached": the greatest value the
/// distance type can hold.
pub const INF: u32 = u32::MAX;

/// Addition of path costs that sticks at the maximum instead of wrapping, so
/// that an unreached tile stays unreached under relaxation.
pub open spec fn sat_add(a: u32, b: u32) -> u32 {
    if a + b > u32::MAX {
        u32::MAX
    } else {
        (a + b) as u32
    }
}

/// The unvisited index with the least tentative distance, scanning up from
/// `i` with `best` the choice so far; the earliest such index wins ties.
/// -1 when no unvisited index exists.
pub open spec fn pick_from(dist: Seq<u32>, visited: Seq<bool>, i: int, best: int) -> int
    decreases dist.len() - i,
{
    if i < 0 || i >= dist.len() {
        best
    } else {
        let b = if !visited[i] && (best < 0 || dist[i] < dist[best]) {
            i
        } else {
            best
        };
        pick_from(dist, visited, i + 1, b)
    }
}

/// The index the search visits next.
pub open spec fn pick(dist: Seq<u32>, visited: Seq<bool>) -> int {
    pick_from(dist, visited, 0, -1)
}

/// One relaxation pass over the edges of `es[cur].1` from position `e` on:
/// each edge lowers the tentative distance of its still-unvisited target
/// when the way through `cur` is shorter, recording `cur` as predecessor.
pub open spec fn relax_list(
    dist: Seq<u32>,
    prev: Seq<Option<usize>>,
    visited: Seq<bool>,
    es: Seq<((i32, i32), Seq<((i32, i32), u32)>)>,
    cur: int,
    e: int,
) -> (Seq<u32>, Seq<Option<usize>>)
    decreases es[cur].1.len() - e,
{
    if cur < 0 || cur >= es.len() || e < 0 || e >= es[cur].1.len() {
        (dist, prev)
    } else {
        let nb = es[cur].1[e].0;
        let cost = es[cur].1[e].1;
        let j = entry_find(es, nb);
        let nd = sat_add(dist[cur], cost);
        if 0 <= j < visited.len() && !visited[j] && nd < dist[j] {
            relax_list(
                dist.update(j, nd),
                prev.update(j, Some(cur as usize)),
                visited,
                es,
                cur,
                e + 1,
            )
        } else {
            relax_list(dist, prev, visited, es, cur, e + 1)
        }
    }
}

/// The search loop: `rounds` times over, visit the unvisited tile of least
/// tentative distance and relax its outgoing edges.
pub open spec fn search(
    dist: Seq<u32>,
    prev: Seq<Option<usize>>,
    visited: Seq<bool>,
    es: Seq<((i32, i32), Seq<((i32, i32), u32)>)>,
    rounds: nat,
) -> (Seq<u32>, Seq<Option<usize>>, Seq<bool>)
    decreases rounds,
{
    if rounds == 0 {
        (dist, prev, visited)
    } else {
        let s = pick(dist, visited);
        if s < 0 {
            (dist, prev, visited)
        } else {
            let (d2, p2) = relax_list(dist, prev, visited, es, s, 0);
            search(d2, p2, visited.update(s, true), es, (rounds - 1) as nat)
        }
    }
}

/// The predecessor chain walked back from `v` toward `start`, collected as
/// world coordinates: the earliest tile reached comes first, `v` itself
/// last.  The walk stops at `start`, at a tile with no recorded
/// predecessor, or when the fuel runs out.
pub open spec fn walk_back(
    es: Seq<((i32, i32), Seq<((i32, i32), u32)>)>,
    prev: Seq<Option<usize>>,
    start: (i32, i32),
    v: (i32, i32),
    side: int,
    fuel: nat,
) -> Seq<(i32, i32)>
    decreases fuel,
{
    if fuel == 0 || v == start {
        Seq::empty()
    } else {
        let j = entry_find(es, v);
        if j < 0 {
            Seq::empty()
        } else {
            match prev[j] {
                None => Seq::empty(),
                Some(p) => walk_back(es, prev, start, es[p as int].0, side, (fuel - 1) as nat).push(
                    (world_coord(v.0 as int, side) as i32, world_coord(v.1 as int, side) as i32),
                ),
            }
        }
    }
}

/// Growing a sequence at its far end before appending another reads the
/// same as moving the grown element to the front of the appendage.
proof fn lemma_push_front_assoc<T>(a: Seq<T>, w: T, b: Seq<T>)
    ensures
        a.push(w) + b == a + (seq![w] + b),
{
    assert(a.push(w) + b =~= a + (seq![w] + b));
}

/// Inserting at the front is prepending a singleton.
proof fn lemma_insert_zero<T>(s: Seq<T>, w: T)
    ensures
        s.insert(0, w) == seq![w] + s,
{
    assert(s.insert(0, w) =~= seq![w] + s);
}

/// An edge from `a` to `b` stands in the connection map.
pub open spec fn has_edge(
    cm: Map<(i32, i32), Seq<((i32, i32), u32)>>,
    a: (i32, i32),
    b: (i32, i32),
) -> bool {
    cm.contains_key(a) && exists|e: int| 0 <= e < cm[a].len() && (#[trigger] cm[a][e]).0 == b
}

/// A chain of tiles each joined to the next by a stored edge, leading from
/// `start` to `goal`.
pub open spec fn is_chain(
    cm: Map<(i32, i32), Seq<((i32, i32), u32)>>,
    chain: Seq<(i32, i32)>,
    start: (i32, i32),
    goal: (i32, i32),
) -> bool {
    &&& chain.len() >= 1
    &&& chain[0] == start
    &&& chain.last() == goal
    &&& forall|i: int| 0 <= i < chain.len() - 1 ==> has_edge(cm, #[trigger] chain[i], chain[i + 1])
}

/// `goal` can be reached from `start` along stored edges.
pub open spec fn reaches(
    cm: Map<(i32, i32), Seq<((i32, i32), u32)>>,
    start: (i32, i32),
    goal: (i32, i32),
) -> bool {
    exists|chain: Seq<(i32, i32)>| #[trigger] is_chain(cm, chain, start, goal)
}

/// No path leads through a solid wall: where the stored edges give no way
/// from the start tile to the goal tile, a waypoint list of the
/// pathfinder's shape — beginning at the start tile, consecutive waypoints
/// joined by stored edges, ending at the goal tile whenever it is longer
/// than one waypoint — must be that single waypoint.  The query reports
/// unreachability rather than a path through the wall.
pub proof fn lemma_unreachable_no_path(
    cm: Map<(i32, i32), Seq<((i32, i32), u32)>>,
    side: int,
    r: Seq<(i32, i32)>,
    start: (i32, i32),
    goal: (i32, i32),
)
    requires
        r.len() >= 1,
        tile_of_world(r[0], side) == start,
        r.len() >= 2 ==> tile_of_world(r.last(), side) == goal,
        forall|i: int|
            0 <= i < r.len() - 1 ==> has_edge(
                cm,
                tile_of_world(#[trigger] r[i], side),
                tile_of_world(r[i + 1], side),
            ),
        !reaches(cm, start, goal),
    ensures
        r.len() == 1,
{
    if r.len() >= 2 {
        let chain = Seq::new(r.len(), |i: int| tile_of_world(r[i], side));
        assert forall|i: int| 0 <= i < chain.len() - 1 implies has_edge(
            cm,
            #[trigger] chain[i],
            chain[i + 1],
        ) by {
            assert(chain[i] == tile_of_world(r[i], side));
            assert(chain[i + 1] == tile_of_world(r[i + 1], side));
        }
        assert(chain.last() == tile_of_world(r.last(), side));
        assert(is_chain(cm, chain, start, goal));
        assert(false);
    }
}

/// The pathfinder reports unreachability: a result of `path_to` on a
/// well-formed graph — its clauses are this lemma's premises — collapses to
/// the single start waypoint whenever the goal tile cannot be reached from
/// the start tile along the stored edges.
pub proof fn lemma_path_to_unreachable(
    g: TileGraph,
    x: i32,
    y: i32,
    tx: i32,
    ty: i32,
    r: Seq<(i32, i32)>,
)
    requires
        g.wf(),
        r.len() >= 1,
        r[0] == world_of_tile(tile_of_world((x, y), g.side_len()), g.side_len()),
        r.len() >= 2 ==> r.last() == world_of_tile(
            tile_of_world((tx, ty), g.side_len()),
            g.side_len(),
        ),
        forall|i: int|
            0 <= i < r.len() - 1 ==> has_edge(
                g.connections_map(),
                tile_of_world(#[trigger] r[i], g.side_len()),
                tile_of_world(r[i + 1], g.side_len()),
            ),
        !reaches(
            g.connections_map(),
            tile_of_world((x, y), g.side_len()),
            tile_of_world((tx, ty), g.side_len()),
        ),
    ensures
        r.len() == 1,
{
    let side = g.side_len();
    let start = tile_of_world((x, y), side);
    let goal = tile_of_world((tx, ty), side);
    lemma_tile_div_fits(x as int, side);
    lemma_tile_div_fits(y as int, side);
    lemma_tile_div_fits(tx as int, side);
    lemma_tile_div_fits(ty as int, side);
    lemma_tile_world_round_trip(start.0 as int, side);
    lemma_tile_world_round_trip(start.1 as int, side);
    lemma_tile_world_round_trip(goal.0 as int, side);
    lemma_tile_world_round_trip(goal.1 as int, side);
    assert(tile_of_world(r[0], side) == start);
    if r.len() >= 2 {
        assert(tile_of_world(r.last(), side) == goal);
    }
    lemma_unreachable_no_path(g.connections_map(), side, r, start, goal);
}

/// Identical graph state and identical start and goal arguments give
/// identical waypoint sequences: any two results that meet the pathfinder's
/// contract on the same graph and arguments are the same sequence, because
/// the contract pins the result to a function of graph and arguments alone.
pub proof fn lemma_path_to_deterministic(
    g: TileGraph,
    x: i32,
    y: i32,
    tx: i32,
    ty: i32,
    r1: Seq<(i32, i32)>,
    r2: Seq<(i32, i32)>,
)
    requires
        r1 == g.spec_path_to(x, y, tx, ty),
        r2 == g.spec_path_to(x, y, tx, ty),
    ensures
        r1 == r2,
{
}

/// An edge from `a` to `b` stands in an edge-list table.
#[verifier::opaque]
pub open spec fn entries_edge(
    es: Seq<((i32, i32), Seq<((i32, i32), u32)>)>,
    a: (i32, i32),
    b: (i32, i32),
) -> bool {
    let j = entry_find(es, a);
    j >= 0 && exists|e: int| 0 <= e < es[j].1.len() && (#[trigger] es[j].1[e]).0 == b
}

/// How many marks are set.
pub open spec fn count_true(s: Seq<bool>) -> nat
    decreases s.len(),
{
    if s.len() == 0 {
        0
    } else {
        count_true(s.drop_last()) + (if s.last() {
            1nat
        } else {
            0nat
        })
    }
}

/// With nothing set the count is nought.
pub proof fn lemma_count_true_none(s: Seq<bool>)
    requires
        forall|j: int| 0 <= j < s.len() ==> !s[j],
    ensures
        count_true(s) == 0,
    decreases s.len(),
{
    if s.len() > 0 {
        lemma_count_true_none(s.drop_last());
    }
}

/// Setting an unset mark raises the count by one.
pub proof fn lemma_count_true_update(s: Seq<bool>, i: int)
    requires
        0 <= i < s.len(),
        !s[i],
    ensures
        count_true(s.update(i, true)) == count_true(s) + 1,
    decreases s.len(),
{
    if i == s.len() - 1 {
        assert(s.update(i, true).drop_last() =~= s.drop_last());
    } else {
        assert(s.update(i, true).drop_last() =~= s.drop_last().update(i, true));
        lemma_count_true_update(s.drop_last(), i);
    }
}

/// No more marks can be set than there are places.
pub proof fn lemma_count_true_le(s: Seq<bool>)
    ensures
        count_true(s) <= s.len(),
    decreases s.len(),
{
    if s.len() > 0 {
        lemma_count_true_le(s.drop_last());
    }
}

/// A full count means every mark is set, and the other way round.
pub proof fn lemma_count_true_full(s: Seq<bool>)
    ensures
        count_true(s) == s.len() <==> (forall|j: int| 0 <= j < s.len() ==> s[j]),
    decreases s.len(),
{
    if s.len() > 0 {
        lemma_count_true_full(s.drop_last());
        lemma_count_true_le(s.drop_last());
        if count_true(s) == s.len() {
            assert forall|j: int| 0 <= j < s.len() implies s[j] by {
                if j < s.len() - 1 {
                    assert(s.drop_last()[j] == s[j]);
                }
            }
        } else if forall|j: int| 0 <= j < s.len() ==> s[j] {
            assert forall|j: int| 0 <= j < s.drop_last().len() implies s.drop_last()[j] by {
                assert(s.drop_last()[j] == s[j]);
            }
            assert(s.last());
        }
    }
}

/// In a table of distinct keys, a key is found at its own entry.
pub proof fn lemma_conn_key_index(es: Seq<((i32, i32), Seq<((i32, i32), u32)>)>, p: int)
    requires
        0 <= p < es.len(),
        forall|i: int, j: int|
            0 <= i < j < es.len() ==> (#[trigger] es[i]).0 != (#[trigger] es[j]).0,
    ensures
        entry_find(es, es[p].0) == p,
{
    lemma_entry_find_from(es, es[p].0, 0);
}

/// The tile whose square contains a world point.
pub open spec fn tile_of_world(p: (i32, i32), side: int) -> (i32, i32) {
    (tile_coord(p.0 as int, side) as i32, tile_coord(p.1 as int, side) as i32)
}

/// The world coordinate of a tile's origin corner.
pub open spec fn world_of_tile(t: (i32, i32), side: int) -> (i32, i32) {
    (world_coord(t.0 as int, side) as i32, world_coord(t.1 as int, side) as i32)
}

/// The tentative distances before the search: infinity everywhere but at
/// the start tile.
pub open spec fn init_dist(
    es: Seq<((i32, i32), Seq<((i32, i32), u32)>)>,
    start: (i32, i32),
) -> Seq<u32> {
    Seq::new(es.len(), |i: int| if es[i].0 == start { 0u32 } else { INF })
}

/// The predecessor records before the search: none anywhere.
pub open spec fn init_prev(es: Seq<((i32, i32), Seq<((i32, i32), u32)>)>) -> Seq<Option<usize>> {
    Seq::new(es.len(), |i: int| None::<usize>)
}

/// The visit marks before the search: everything unvisited.
pub open spec fn init_visited(es: Seq<((i32, i32), Seq<((i32, i32), u32)>)>) -> Seq<bool> {
    Seq::new(es.len(), |i: int| false)
}

/// Bookkeeping of a finished search, bundled: every entry was visited, each
/// with a rank in visiting order; every recorded predecessor names a valid,
/// lower-ranked entry joined to its successor by a stored edge, with both
/// tiles reached; and every reached tile other than the start has a
/// predecessor.
#[verifier::opaque]
pub open spec fn searched(
    es: Seq<((i32, i32), Seq<((i32, i32), u32)>)>,
    prev: Seq<Option<usize>>,
    dist: Seq<u32>,
    visited: Seq<bool>,
    rank: Seq<int>,
    start_t: (i32, i32),
) -> bool {
    &&& prev.len() == es.len()
    &&& dist.len() == es.len()
    &&& visited.len() == es.len()
    &&& rank.len() == es.len()
    &&& forall|q: int| 0 <= q < es.len() ==> #[trigger] visited[q]
    &&& forall|q: int| 0 <= q < es.len() && #[trigger] visited[q] ==> 0 <= rank[q] < es.len()
    &&& forall|q: int|
        0 <= q < es.len() ==> ((#[trigger] prev[q]) matches Some(pp) ==> {
            &&& 0 <= pp < es.len()
            &&& dist[pp as int] < INF
            &&& dist[q] < INF
            &&& entries_edge(es, es[pp as int].0, es[q].0)
            &&& rank[pp as int] < rank[q]
        })
    &&& forall|q: int|
        0 <= q < es.len() && #[trigger] dist[q] < INF ==> es[q].0 == start_t || prev[q] is Some
}

/// The walk back can never exhaust its fuel: a chain head reached after
/// `steps` moves still has its whole rank of room below it, so `steps`
/// stays under the entry count.
proof fn lemma_walk_fuel_bound(
    es: Seq<((i32, i32), Seq<((i32, i32), u32)>)>,
    prev: Seq<Option<usize>>,
    dist: Seq<u32>,
    visited: Seq<bool>,
    rank: Seq<int>,
    start_t: (i32, i32),
    jv: int,
    steps: int,
)
    requires
        searched(es, prev, dist, visited, rank, start_t),
        0 <= jv < es.len(),
        dist[jv] < INF,
        steps + rank[jv] <= es.len() - 1,
        steps > 0,
    ensures
        steps < es.len(),
{
    reveal(searched);
    assert(visited[jv]);
}

/// A reached tile other than the start always has a recorded predecessor,
/// so the walk back only ever stops at the start.
proof fn lemma_walk_has_prev(
    es: Seq<((i32, i32), Seq<((i32, i32), u32)>)>,
    prev: Seq<Option<usize>>,
    dist: Seq<u32>,
    visited: Seq<bool>,
    rank: Seq<int>,
    start_t: (i32, i32),
    c: (i32, i32),
    jv: int,
)
    requires
        searched(es, prev, dist, visited, rank, start_t),
        0 <= jv < es.len(),
        es[jv].0 == c,
        dist[jv] < INF,
        c != start_t,
    ensures
        prev[jv] is Some,
{
    reveal(searched);
}

/// One step of the walk back along the predecessor chain: from the tile
/// `oc`, found at entry `j` with predecessor entry `p`, the walk moves to
/// `p`'s tile; the collected path grows at the front, stays made of properly
/// joined waypoints, and the chain shortens its remaining room, so the walk
/// ends before the fuel does.
#[verifier::spinoff_prover]
proof fn lemma_walk_step(
    g: TileGraph,
    es: Seq<((i32, i32), Seq<((i32, i32), u32)>)>,
    prev: Seq<Option<usize>>,
    dist: Seq<u32>,
    visited: Seq<bool>,
    rank: Seq<int>,
    start_t: (i32, i32),
    goal_t: (i32, i32),
    side_g: int,
    oc: (i32, i32),
    j: int,
    p: usize,
    steps: int,
    otp: Seq<(i32, i32)>,
    opa: Seq<(i32, i32)>,
    w: (i32, i32),
)
    requires
        g.wf(),
        es == g.conn_entries(),
        side_g == g.side_len(),
        searched(es, prev, dist, visited, rank, start_t),
        0 <= j < es.len(),
        es[j].0 == oc,
        entry_find(es, oc) == j,
        prev[j] == Some(p),
        oc != start_t,
        0 <= steps < es.len(),
        opa.len() == steps,
        otp.len() == steps,
        forall|i: int|
            0 <= i < steps ==> #[trigger] opa[i] == world_of_tile(otp[i], side_g)
                && TileGraph::key_fits(otp[i], side_g),
        forall|i: int| 0 <= i < steps - 1 ==> entries_edge(es, #[trigger] otp[i], otp[i + 1]),
        steps > 0 ==> otp[steps - 1] == goal_t,
        steps == 0 ==> oc == goal_t,
        steps > 0 ==> entries_edge(es, oc, otp[0]),
        steps > 0 ==> steps + rank[j] <= es.len() - 1,
        w == world_of_tile(oc, side_g),
        TileGraph::key_fits(oc, side_g),
    ensures
        0 <= p < es.len(),
        entry_find(es, es[p as int].0) == p as int,
        dist[p as int] < INF,
        TileGraph::key_fits(es[p as int].0, side_g),
        entries_edge(es, es[p as int].0, (seq![oc] + otp)[0]),
        steps + 1 + rank[p as int] <= es.len() - 1,
        (seq![w] + opa).len() == steps + 1,
        (seq![oc] + otp).len() == steps + 1,
        forall|i: int|
            0 <= i < steps + 1 ==> #[trigger] (seq![w] + opa)[i] == world_of_tile(
                (seq![oc] + otp)[i],
                side_g,
            ) && TileGraph::key_fits((seq![oc] + otp)[i], side_g),
        forall|i: int|
            0 <= i < steps ==> entries_edge(
                es,
                #[trigger] (seq![oc] + otp)[i],
                (seq![oc] + otp)[i + 1],
            ),
        (seq![oc] + otp)[steps] == goal_t,
        walk_back(es, prev, start_t, oc, side_g, (es.len() - steps) as nat) == walk_back(
            es,
            prev,
            start_t,
            es[p as int].0,
            side_g,
            (es.len() - steps - 1) as nat,
        ).push(w),
{
    reveal(searched);
    assert forall|i1: int, i2: int|
        0 <= i1 < i2 < es.len() implies (#[trigger] es[i1]).0 != (#[trigger] es[i2]).0 by {
        assert(es[i1].0 == g.nodes@[i1].0);
        assert(es[i2].0 == g.nodes@[i2].0);
    }
    lemma_conn_key_index(es, p as int);
    assert(rank[p as int] < rank[j]);
    assert(visited[j]);
    if steps == 0 {
        assert(0 <= rank[j] < es.len());
    }
    assert(es[p as int].0 == g.nodes@[p as int].0);
    assert(TileGraph::key_fits(es[p as int].0, side_g));
    let ntp = seq![oc] + otp;
    let npa = seq![w] + opa;
    assert forall|i: int|
        0 <= i < steps + 1 implies #[trigger] npa[i] == world_of_tile(ntp[i], side_g)
        && TileGraph::key_fits(ntp[i], side_g) by {
        if i > 0 {
            assert(npa[i] == opa[i - 1]);
            assert(ntp[i] == otp[i - 1]);
            assert(opa[i - 1] == world_of_tile(otp[i - 1], side_g));
            assert(TileGraph::key_fits(otp[i - 1], side_g));
        } else {
            assert(npa[0] == w);
            assert(ntp[0] == oc);
        }
    }
    assert forall|i: int| 0 <= i < steps implies entries_edge(
        es,
        #[trigger] ntp[i],
        ntp[i + 1],
    ) by {
        if i > 0 {
            assert(ntp[i] == otp[i - 1]);
            assert(ntp[i + 1] == otp[i]);
        } else {
            assert(ntp[0] == oc);
            if steps > 0 {
                assert(ntp[1] == otp[0]);
            }
        }
    }
    assert(walk_back(es, prev, start_t, oc, side_g, (es.len() - steps) as nat) == walk_back(
        es,
        prev,
        start_t,
        es[p as int].0,
        side_g,
        (es.len() - steps - 1) as nat,
    ).push(w));
}

impl TileGraph {
    /// The world-space side length of this graph's tiles, as a mathematical
    /// integer.
    pub open spec fn side_len(self) -> int {
        self.tile_size.side() as int
    }

    /// What `path_to` returns, as a function of the graph and the arguments
    /// alone: tentative distances start at infinity except the start tile's,
    /// the whole reachable graph is explored visiting least-distance tiles
    /// first (earliest key breaking ties), and the predecessor chain of the
    /// goal tile is walked back and prefixed with the start tile's world
    /// coordinate.
    pub open spec fn spec_path_to(self, x: i32, y: i32, tx: i32, ty: i32) -> Seq<(i32, i32)> {
        let side = self.side_len();
        let es = self.conn_entries();
        let n = es.len();
        let start = tile_of_world((x, y), side);
        let goal = tile_of_world((tx, ty), side);
        let dpv = search(init_dist(es, start), init_prev(es), init_visited(es), es, n);
        seq![world_of_tile(start, side)] + walk_back(es, dpv.1, start, goal, side, n)
    }

    /// Shortest-path query between two world-space points over this graph's
    /// stored edge lists.  The result starts at the start tile's world
    /// coordinate; when the goal tile was reached it ends there, each
    /// consecutive pair of waypoints joined by a stored edge.  A result of a
    /// single waypoint means "no path" or "already there".  Out-of-graph
    /// coordinates are simply unreachable; the query never fails and leaves
    /// the graph untouched, and equal graphs and arguments always give the
    /// same waypoints.
    #[verifier::rlimit(100)]
    #[verifier::spinoff_prover]
    pub fn path_to(&mut self, x: i32, y: i32, tx: i32, ty: i32) -> (r: Vec<(i32, i32)>)
        requires
            old(self).wf(),
        ensures
            *final(self) == *old(self),
            r@ == old(self).spec_path_to(x, y, tx, ty),
            r@.len() >= 1,
            r@[0] == world_of_tile(
                tile_of_world((x, y), old(self).side_len()),
                old(self).side_len(),
            ),
            r@.len() >= 2 ==> r@.last() == world_of_tile(
                tile_of_world((tx, ty), old(self).side_len()),
                old(self).side_len(),
            ),
            forall|i: int|
                0 <= i < r@.len() - 1 ==> has_edge(
                    old(self).connections_map(),
                    tile_of_world(#[trigger] r@[i], old(self).side_len()),
                    tile_of_world(r@[i + 1], old(self).side_len()),
                ),
    {
        let ghost es = self.conn_entries();
        let ghost side_g = self.side_len();
        let side = self.tile_size.get().0;
        let sx = world_to_tile(x, side);
        let sy = world_to_tile(y, side);
        let gx = world_to_tile(tx, side);
        let gy = world_to_tile(ty, side);
        let n = self.connections.len();
        let ghost start_t = (sx, sy);
        let ghost goal_t = (gx, gy);
        let ghost d0 = init_dist(es, start_t);
        let ghost p0 = init_prev(es);
        let ghost v0 = init_visited(es);

        // tentative distances: infinity everywhere but the start tile
        let mut dist: Vec<u32> = Vec::new();
        let mut prev: Vec<Option<usize>> = Vec::new();
        let mut visited: Vec<bool> = Vec::new();
        let mut i: usize = 0;
        while i < n
            invariant
                0 <= i <= n,
                n == es.len(),
                es == self.conn_entries(),
                dist@.len() == i,
                prev@.len() == i,
                visited@.len() == i,
                forall|j: int|
                    0 <= j < i ==> #[trigger] dist@[j] == (if es[j].0 == start_t {
                        0u32
                    } else {
                        INF
                    }),
                forall|j: int| 0 <= j < i ==> #[trigger] prev@[j] is None,
                forall|j: int| 0 <= j < i ==> #[trigger] visited@[j] == false,
                start_t == (sx, sy),
            decreases n - i,
        {
            if self.connections[i].0.0 == sx && self.connections[i].0.1 == sy {
                dist.push(0);
            } else {
                dist.push(INF);
            }
            prev.push(None);
            visited.push(false);
            i = i + 1;
        }
        proof {
            assert(dist@ =~= d0);
            assert(prev@ =~= p0);
            assert(visited@ =~= v0);
        }

        // visit every tile, nearest unvisited first, relaxing its edges
        let ghost mut rank: Seq<int> = Seq::new(n as nat, |i: int| -1);
        proof {
            lemma_count_true_none(visited@);
        }
        let mut round: usize = 0;
        while round < n
            invariant
                0 <= round <= n,
                n == es.len(),
                *self == *old(self),
                old(self).wf(),
                es == self.conn_entries(),
                dist@.len() == n,
                prev@.len() == n,
                visited@.len() == n,
                rank.len() == n,
                count_true(visited@) == round,
                forall|j: int| 0 <= j < n && #[trigger] visited@[j] ==> 0 <= rank[j] < round,
                forall|j: int|
                    0 <= j < n ==> ((#[trigger] prev@[j]) matches Some(pp) ==> {
                        &&& 0 <= pp < n
                        &&& visited@[pp as int]
                        &&& dist@[pp as int] < INF
                        &&& dist@[j] < INF
                        &&& entries_edge(es, es[pp as int].0, es[j].0)
                        &&& (visited@[j] ==> rank[pp as int] < rank[j])
                    }),
                forall|j: int|
                    0 <= j < n && #[trigger] dist@[j] < INF ==> es[j].0 == start_t
                        || prev@[j] is Some,
                search(dist@, prev@, visited@, es, (n - round) as nat) == search(
                    d0,
                    p0,
                    v0,
                    es,
                    n as nat,
                ),
            decreases n - round,
        {
            // the unvisited tile with the least tentative distance, first
            // one in insertion order on a tie
            let mut found_any: bool = false;
            let mut best: usize = 0;
            let mut k: usize = 0;
            while k < n
                invariant
                    0 <= k <= n,
                    n == dist@.len(),
                    dist@.len() == visited@.len(),
                    found_any ==> best < k && !visited@[best as int],
                    !found_any ==> forall|j: int| 0 <= j < k ==> #[trigger] visited@[j],
                    pick_from(
                        dist@,
                        visited@,
                        k as int,
                        if found_any {
                            best as int
                        } else {
                            -1
                        },
                    ) == pick(dist@, visited@),
                decreases n - k,
            {
                if !visited[k] && (!found_any || dist[k] < dist[best]) {
                    found_any = true;
                    best = k;
                }
                k = k + 1;
            }
            if !found_any {
                // nothing unvisited is left: the remaining rounds would
                // change nothing
                proof {
                    assert(pick(dist@, visited@) == -1);
                    assert(search(dist@, prev@, visited@, es, (n - round) as nat) == search(
                        d0,
                        p0,
                        v0,
                        es,
                        n as nat,
                    ));
                    lemma_count_true_full(visited@);
                }
                round = n;
            } else {
                let cur = best;
                let ghost d_pre = dist@;
                let ghost p_pre = prev@;
                let ghost v_pre = visited@;
                proof {
                    assert(pick(dist@, visited@) == cur as int);
                }
                let m = self.connections[cur].1.len();
                let mut e: usize = 0;
                while e < m
                    invariant
                        0 <= e <= m,
                        0 <= cur < n,
                        round < n,
                        n == es.len(),
                        *self == *old(self),
                        old(self).wf(),
                        es == self.conn_entries(),
                        m == es[cur as int].1.len(),
                        dist@.len() == n,
                        prev@.len() == n,
                        visited@.len() == n,
                        rank.len() == n,
                        visited@ == v_pre,
                        !visited@[cur as int],
                        forall|j: int|
                            0 <= j < n && #[trigger] visited@[j] ==> 0 <= rank[j] < round,
                        forall|j: int|
                            0 <= j < n ==> ((#[trigger] prev@[j]) matches Some(pp) ==> {
                                &&& 0 <= pp < n
                                &&& (visited@[pp as int] || pp == cur as int)
                                &&& (pp == cur as int ==> !visited@[j] && j != cur as int)
                                &&& dist@[pp as int] < INF
                                &&& dist@[j] < INF
                                &&& entries_edge(es, es[pp as int].0, es[j].0)
                                &&& (visited@[pp as int] && visited@[j] ==> rank[pp as int]
                                    < rank[j])
                            }),
                        forall|j: int|
                            0 <= j < n && #[trigger] dist@[j] < INF ==> es[j].0 == start_t
                                || prev@[j] is Some,
                        relax_list(dist@, prev@, visited@, es, cur as int, e as int)
                            == relax_list(d_pre, p_pre, v_pre, es, cur as int, 0),
                    decreases m - e,
                {
                    let nbx = self.connections[cur].1[e].0.0;
                    let nby = self.connections[cur].1[e].0.1;
                    let cost = self.connections[cur].1[e].1;
                    let ghost d_loop = dist@;
                    let ghost p_loop = prev@;
                    proof {
                        lemma_entry_find_from_same_keys(self.connections@, es, (nbx, nby), 0);
                        assert(es[cur as int].1[e as int] == ((nbx, nby), cost));
                    }
                    match find_entry(&self.connections, nbx, nby) {
                        Some(j) => {
                            proof {
                                lemma_entry_find_from(es, (nbx, nby), 0);
                            }
                            if !visited[j] {
                                let nd = dist[cur].saturating_add(cost);
                                if nd < dist[j] {
                                    dist[j] = nd;
                                    prev[j] = Some(cur);
                                    proof {
                                        reveal(entries_edge);
                                        assert(j as int != cur as int);
                                        assert forall|i1: int, i2: int|
                                            0 <= i1 < i2 < es.len() implies (#[trigger] es[i1]).0
                                            != (#[trigger] es[i2]).0 by {
                                            assert(es[i1].0 == old(self).nodes@[i1].0);
                                            assert(es[i2].0 == old(self).nodes@[i2].0);
                                        }
                                        lemma_conn_key_index(es, cur as int);
                                        assert(es[j as int].0 == (nbx, nby));
                                        assert(es[cur as int].1[e as int].0 == es[j as int].0);
                                        assert(entries_edge(
                                            es,
                                            es[cur as int].0,
                                            es[j as int].0,
                                        ));
                                    }
                                }
                            }
                        },
                        None => {},
                    }
                    proof {
                        assert(relax_list(dist@, prev@, visited@, es, cur as int, e as int + 1)
                            == relax_list(d_loop, p_loop, visited@, es, cur as int, e as int));
                    }
                    e = e + 1;
                }
                proof {
                    assert(relax_list(dist@, prev@, visited@, es, cur as int, m as int) == (
                    dist@,
                    prev@,
                    ));
                }
                visited[cur] = true;
                proof {
                    let ghost rank_pre = rank;
                    rank = rank.update(cur as int, round as int);
                    lemma_count_true_update(v_pre, cur as int);
                    assert(visited@ =~= v_pre.update(cur as int, true));
                    assert forall|j: int|
                        0 <= j < n implies ((#[trigger] prev@[j]) matches Some(pp) ==> {
                        &&& 0 <= pp < n
                        &&& visited@[pp as int]
                        &&& dist@[pp as int] < INF
                        &&& dist@[j] < INF
                        &&& entries_edge(es, es[pp as int].0, es[j].0)
                        &&& (visited@[j] ==> rank[pp as int] < rank[j])
                    }) by {
                        if prev@[j] is Some {
                            let pp = prev@[j]->0;
                            if pp == cur as int {
                                assert(visited@[pp as int]);
                                assert(!v_pre[j] && j != cur as int);
                                assert(!visited@[j]);
                            } else {
                                assert(v_pre[pp as int]);
                                assert(rank[pp as int] == rank_pre[pp as int]);
                                if visited@[j] {
                                    if j == cur as int {
                                        assert(rank_pre[pp as int] < round as int);
                                        assert(rank[j] == round as int);
                                    } else {
                                        assert(v_pre[j]);
                                    }
                                }
                            }
                        }
                    }
                    assert(search(d_pre, p_pre, v_pre, es, (n - round) as nat) == search(
                        dist@,
                        prev@,
                        visited@,
                        es,
                        (n - round - 1) as nat,
                    ));
                }
                round = round + 1;
            }
        }
        proof {
            assert(search(dist@, prev@, visited@, es, 0) == (dist@, prev@, visited@));
            lemma_count_true_full(visited@);
            assert(searched(es, prev@, dist@, visited@, rank, start_t)) by {
                reveal(searched);
            }
        }

        // walk the predecessor chain back from the goal tile
        let mut path: Vec<(i32, i32)> = Vec::new();
        let ghost mut tpath: Seq<(i32, i32)> = Seq::empty();
        let mut cx = gx;
        let mut cy = gy;
        let mut steps: usize = 0;
        let mut walking = true;
        proof {
            lemma_tile_div_fits(tx as int, side_g);
            lemma_tile_div_fits(ty as int, side_g);
            assert(walk_back(es, prev@, start_t, goal_t, side_g, (n) as nat) =~= walk_back(
                es,
                prev@,
                start_t,
                (cx, cy),
                side_g,
                (n) as nat,
            ) + path@);
        }
        while walking
            invariant
                0 <= steps <= n,
                n == es.len(),
                *self == *old(self),
                old(self).wf(),
                es == self.conn_entries(),
                side_g == old(self).side_len(),
                side == old(self).tile_size.side(),
                prev@.len() == n,
                forall|j: int|
                    0 <= j < n ==> ((#[trigger] prev@[j]) matches Some(pp) ==> 0 <= pp < n),
                searched(es, prev@, dist@, visited@, rank, start_t),
                TileGraph::key_fits((cx, cy), side_g),
                path@.len() == steps,
                tpath.len() == steps,
                forall|i: int|
                    0 <= i < steps ==> #[trigger] path@[i] == world_of_tile(tpath[i], side_g)
                        && TileGraph::key_fits(tpath[i], side_g),
                forall|i: int|
                    0 <= i < steps - 1 ==> entries_edge(es, #[trigger] tpath[i], tpath[i + 1]),
                steps > 0 ==> tpath[steps - 1] == goal_t,
                steps == 0 ==> (cx, cy) == goal_t,
                steps > 0 ==> ({
                    let jv = entry_find(es, (cx, cy));
                    &&& 0 <= jv < n
                    &&& es[jv].0 == (cx, cy)
                    &&& dist@[jv] < INF
                    &&& entries_edge(es, (cx, cy), tpath[0])
                    &&& steps + rank[jv] <= n - 1
                }),
                !walking ==> (steps == 0 || (cx, cy) == (sx, sy)),
                walk_back(es, prev@, start_t, goal_t, side_g, (n) as nat) == walk_back(
                    es,
                    prev@,
                    start_t,
                    (cx, cy),
                    side_g,
                    (n - steps) as nat,
                ) + path@,
                !walking ==> walk_back(
                    es,
                    prev@,
                    start_t,
                    (cx, cy),
                    side_g,
                    (n - steps) as nat,
                ) == Seq::<(i32, i32)>::empty(),
                start_t == (sx, sy),
                goal_t == (gx, gy),
            decreases 2 * (n - steps) + (if walking {
                1int
            } else {
                0int
            }),
        {
            if cx == sx && cy == sy {
                proof {
                    // the collected path keeps its shape when the walk
                    // stops at the start tile
                    assert(forall|i: int|
                        0 <= i < steps ==> #[trigger] path@[i] == world_of_tile(tpath[i], side_g)
                            && TileGraph::key_fits(tpath[i], side_g));
                }
                walking = false;
            } else if steps >= n {
                proof {
                    if steps > 0 {
                        let jv = entry_find(es, (cx, cy));
                        lemma_walk_fuel_bound(
                            es,
                            prev@,
                            dist@,
                            visited@,
                            rank,
                            start_t,
                            jv,
                            steps as int,
                        );
                        assert(false);
                    }
                }
                walking = false;
            } else {
                match find_entry(&self.connections, cx, cy) {
                    None => {
                        proof {
                            lemma_entry_find_from_same_keys(self.connections@, es, (cx, cy), 0);
                            if steps > 0 {
                                assert(entry_find(es, (cx, cy)) >= 0);
                                assert(false);
                            }
                        }
                        walking = false;
                    },
                    Some(j) => {
                        proof {
                            lemma_entry_find_from_same_keys(self.connections@, es, (cx, cy), 0);
                            lemma_entry_find_from(es, (cx, cy), 0);
                        }
                        match prev[j] {
                            None => {
                                proof {
                                    if steps > 0 {
                                        assert(es[j as int].0 == (cx, cy));
                                        assert((cx, cy) != (sx, sy));
                                        lemma_walk_has_prev(
                                            es,
                                            prev@,
                                            dist@,
                                            visited@,
                                            rank,
                                            start_t,
                                            (cx, cy),
                                            j as int,
                                        );
                                        assert(false);
                                    }
                                }
                                walking = false;
                            },
                            Some(p) => {
                                let ghost old_cx = cx;
                                let ghost old_cy = cy;
                                let ghost old_path = path@;
                                let ghost old_tpath = tpath;
                                let wx = tile_to_world(cx, side);
                                let wy = tile_to_world(cy, side);
                                path.insert(0, (wx, wy));
                                proof {
                                    tpath = seq![(old_cx, old_cy)] + tpath;
                                }
                                cx = self.connections[p].0.0;
                                cy = self.connections[p].0.1;
                                steps = steps + 1;
                                proof {
                                    assert(es[p as int].0 == (cx, cy));
                                    assert((wx, wy) == world_of_tile((old_cx, old_cy), side_g));
                                    lemma_walk_step(
                                        *self,
                                        es,
                                        prev@,
                                        dist@,
                                        visited@,
                                        rank,
                                        start_t,
                                        goal_t,
                                        side_g,
                                        (old_cx, old_cy),
                                        j as int,
                                        p,
                                        steps - 1,
                                        old_tpath,
                                        old_path,
                                        (wx, wy),
                                    );
                                    assert(tpath == seq![(old_cx, old_cy)] + old_tpath);
                                    lemma_insert_zero(old_path, (wx, wy));
                                    assert(path@ == seq![(wx, wy)] + old_path);
                                    assert forall|i: int|
                                        0 <= i < steps implies #[trigger] path@[i]
                                        == world_of_tile(tpath[i], side_g)
                                        && TileGraph::key_fits(tpath[i], side_g) by {
                                        assert(path@[i] == (seq![(wx, wy)] + old_path)[i]);
                                        assert(tpath[i] == (seq![(old_cx, old_cy)] + old_tpath)[i]);
                                    }
                                    assert forall|i: int|
                                        0 <= i < steps - 1 implies entries_edge(
                                        es,
                                        #[trigger] tpath[i],
                                        tpath[i + 1],
                                    ) by {
                                        assert(tpath[i] == (seq![(old_cx, old_cy)] + old_tpath)[i]);
                                        assert(tpath[i + 1] == (seq![(old_cx, old_cy)]
                                            + old_tpath)[i + 1]);
                                    }
                                    lemma_push_front_assoc(
                                        walk_back(
                                            es,
                                            prev@,
                                            start_t,
                                            (cx, cy),
                                            side_g,
                                            (n - steps) as nat,
                                        ),
                                        (wx, wy),
                                        old_path,
                                    );
                                }
                            },
                        }
                    },
                }
            }
        }
        proof {
            lemma_tile_div_fits(x as int, side_g);
            lemma_tile_div_fits(y as int, side_g);
            assert(Seq::<(i32, i32)>::empty() + path@ =~= path@);
            assert(walk_back(es, prev@, start_t, goal_t, side_g, (n) as nat) == path@);
        }
        let wsx = tile_to_world(sx, side);
        let wsy = tile_to_world(sy, side);
        let ghost walked = path@;
        let ghost exit_cx = cx;
        let ghost exit_cy = cy;
        path.insert(0, (wsx, wsy));
        proof {
            assert(tile_of_world((x, y), side_g) == start_t);
            assert(tile_of_world((tx, ty), side_g) == goal_t);
            assert(world_of_tile(start_t, side_g) == (wsx, wsy));
            assert((dist@, prev@, visited@) == search(d0, p0, v0, es, n as nat));
            lemma_insert_zero(walked, (wsx, wsy));
            assert(path@ == seq![(wsx, wsy)] + walked);
            assert(path@ =~= seq![world_of_tile(start_t, side_g)] + walk_back(
                es,
                prev@,
                start_t,
                goal_t,
                side_g,
                (n) as nat,
            ));
            assert(path@ == old(self).spec_path_to(x, y, tx, ty));
            lemma_tile_world_round_trip(sx as int, side_g);
            lemma_tile_world_round_trip(sy as int, side_g);
            assert(tile_of_world((wsx, wsy), side_g) == start_t);
            assert forall|i: int|
                0 <= i < walked.len() implies tile_of_world(#[trigger] walked[i], side_g)
                == tpath[i] by {
                lemma_tile_world_round_trip(tpath[i].0 as int, side_g);
                lemma_tile_world_round_trip(tpath[i].1 as int, side_g);
            }
            let cm = old(self).connections_map();
            reveal(entries_edge);
            assert forall|i: int|
                0 <= i < path@.len() - 1 implies has_edge(
                cm,
                tile_of_world(#[trigger] path@[i], side_g),
                tile_of_world(path@[i + 1], side_g),
            ) by {
                let a = if i == 0 {
                    start_t
                } else {
                    tpath[i - 1]
                };
                let b = tpath[i];
                assert(tile_of_world(path@[i + 1], side_g) == b);
                if i == 0 {
                    assert(steps > 0);
                    assert((exit_cx, exit_cy) == (sx, sy));
                    assert(entries_edge(es, start_t, tpath[0]));
                } else {
                    assert(entries_edge(es, tpath[i - 1], tpath[i]));
                }
                assert(entries_edge(es, a, b));
                let jf = entry_find(es, a);
                assert(cm.contains_key(a));
                assert(cm[a] == es[jf].1);
            }
            if path@.len() >= 2 {
                assert(walked.len() == steps > 0);
                assert(path@.last() == walked.last());
                assert(walked.last() == world_of_tile(tpath[steps - 1], side_g));
                assert(path@.last() == world_of_tile(goal_t, side_g));
            }
        }
        path
    }
}

} // verus!
