use vstd::prelude::*;
use crate::coords::tile_coord;
use crate::coords::world_to_tile;
use crate::tile::Tile;
use crate::tile::TileSize;
use crate::tile::TileType;
use crate::tile::is_nav_tile;
use crate::tile::is_none_tile;
use crate::utils::str_eq;

verus! {

/// Index of the first tile filed under `key` in a tile table at or after
/// `i`, or -1 if there is none.
pub open spec fn tile_key_find(ts: Seq<(String, Tile)>, key: Seq<char>, i: int) -> int
    decreases ts.len() - i,
{
    if i < 0 || i >= ts.len() {
        -1
    } else if ts[i].0@ == key {
        i
    } else {
        tile_key_find(ts, key, i + 1)
    }
}

/// The first tile filed under `key` in a tile table.
pub open spec fn tile_for(ts: Seq<(String, Tile)>, key: Seq<char>) -> Tile {
    ts[tile_key_find(ts, key, 0)].1
}

/// What `tile_key_find` returns: a valid index bearing the key, or -1 when
/// the key is absent from the suffix.
pub proof fn lemma_tile_key_find(ts: Seq<(String, Tile)>, key: Seq<char>, i: int)
    requires
        0 <= i <= ts.len(),
    ensures
        ({
            let f = tile_key_find(ts, key, i);
            f == -1 || (i <= f < ts.len() && ts[f].0@ == key)
        }),
    decreases ts.len() - i,
{
    if i < ts.len() && ts[i].0@ != key {
        lemma_tile_key_find(ts, key, i + 1);
    }
}

/// Finds the tile filed under `key`, which must be present.
fn lookup_tile(tiles: &Vec<(String, Tile)>, key: &str) -> (r: Tile)
    requires
        tile_key_find(tiles@, key@, 0) >= 0,
    ensures
        r == tile_for(tiles@, key@),
{
    let n = tiles.len();
    let mut i: usize = 0;
    proof {
        lemma_tile_key_find(tiles@, key@, 0);
    }
    while !str_eq(tiles[i].0.as_str(), key)
        invariant
            0 <= i <= tiles@.len(),
            n == tiles@.len(),
            tile_key_find(tiles@, key@, 0) == tile_key_find(tiles@, key@, i as int),
            tile_key_find(tiles@, key@, 0) >= 0,
            i < tiles@.len(),
        decreases tiles@.len() - i,
    {
        i = i + 1;
        proof {
            lemma_tile_key_find(tiles@, key@, i as int);
        }
    }
    tiles[i].1.clone()
}

/// Index of the first entry of `es` with key `k` at or after `i`, or -1 if
/// there is none.
pub open spec fn entry_find_from<V>(es: Seq<((i32, i32), V)>, k: (i32, i32), i: int) -> int
    decreases es.len() - i,
{
    if i < 0 || i >= es.len() {
        -1
    } else if es[i].0 == k {
        i
    } else {
        entry_find_from(es, k, i + 1)
    }
}

/// Index of the first entry of `es` with key `k`, or -1 if there is none.
pub open spec fn entry_find<V>(es: Seq<((i32, i32), V)>, k: (i32, i32)) -> int {
    entry_find_from(es, k, 0)
}

/// The mapping that an entry list holds: each key goes to the value of its
/// first entry.
pub open spec fn entries_map<V>(es: Seq<((i32, i32), V)>) -> Map<(i32, i32), V> {
    Map::new(|k: (i32, i32)| entry_find(es, k) >= 0, |k: (i32, i32)| es[entry_find(es, k)].1)
}

/// What `entry_find_from` returns: a valid index bearing the key, before any
/// other entry with that key, or -1 when the key is absent from the suffix.
pub proof fn lemma_entry_find_from<V>(es: Seq<((i32, i32), V)>, k: (i32, i32), i: int)
    requires
        0 <= i <= es.len(),
    ensures
        ({
            let f = entry_find_from(es, k, i);
            &&& f == -1 || (i <= f < es.len() && es[f].0 == k)
            &&& forall|j: int| i <= j < es.len() && (#[trigger] es[j]).0 == k ==> f != -1 && f <= j
        }),
    decreases es.len() - i,
{
    if i < es.len() && es[i].0 != k {
        lemma_entry_find_from(es, k, i + 1);
    }
}

/// Two entry lists with the same keys in the same order are searched the same
/// way.
pub proof fn lemma_entry_find_from_same_keys<V, W>(
    es: Seq<((i32, i32), V)>,
    fs: Seq<((i32, i32), W)>,
    k: (i32, i32),
    i: int,
)
    requires
        es.len() == fs.len(),
        forall|j: int| 0 <= j < es.len() ==> (#[trigger] es[j]).0 == fs[j].0,
        0 <= i,
    ensures
        entry_find_from(es, k, i) == entry_find_from(fs, k, i),
    decreases es.len() - i,
{
    if i < es.len() {
        lemma_entry_find_from_same_keys(es, fs, k, i + 1);
    }
}

/// Appending a fresh entry leaves every earlier search alone and makes the
/// new key found at the end.
pub proof fn lemma_entry_find_push<V>(es: Seq<((i32, i32), V)>, e: ((i32, i32), V), k: (i32, i32), i: int)
    requires
        0 <= i <= es.len(),
    ensures
        entry_find_from(es, k, i) >= 0 ==> entry_find_from(es.push(e), k, i) == entry_find_from(
            es,
            k,
            i,
        ),
        entry_find_from(es, k, i) == -1 && e.0 == k ==> entry_find_from(es.push(e), k, i)
            == es.len(),
        entry_find_from(es, k, i) == -1 && e.0 != k ==> entry_find_from(es.push(e), k, i) == -1,
    decreases es.len() - i,
{
    if i < es.len() && es[i].0 != k {
        lemma_entry_find_push(es, e, k, i + 1);
    } else if i == es.len() && e.0 != k {
        assert(entry_find_from(es.push(e), k, i + 1) == -1);
    }
}

/// Updating the value of an entry in place, key kept, leaves every search
/// alone.
pub proof fn lemma_entry_find_update<V>(es: Seq<((i32, i32), V)>, f: int, v: V, k: (i32, i32), i: int)
    requires
        0 <= i <= es.len(),
        0 <= f < es.len(),
    ensures
        entry_find_from(es.update(f, (es[f].0, v)), k, i) == entry_find_from(es, k, i),
    decreases es.len() - i,
{
    if i < es.len() && es[i].0 != k {
        lemma_entry_find_update(es, f, v, k, i + 1);
    }
}

/// Finds the first entry of `es` with key `(x, y)`.
pub fn find_entry<V>(es: &Vec<((i32, i32), V)>, x: i32, y: i32) -> (r: Option<usize>)
    ensures
        match r {
            Some(f) => f as int == entry_find(es@, (x, y)),
            None => entry_find(es@, (x, y)) == -1,
        },
{
    let n = es.len();
    let mut i: usize = 0;
    while i < n
        invariant
            0 <= i <= es@.len(),
            n == es@.len(),
            entry_find(es@, (x, y)) == entry_find_from(es@, (x, y), i as int),
        decreases es@.len() - i,
    {
        if es[i].0.0 == x && es[i].0.1 == y {
            return Some(i);
        }
        i = i + 1;
    }
    None
}

/// The possible edge toward the tile at integer coordinates `(x, y)`: one
/// `(neighbor, cost 1)` pair when such a tile exists and is a floor, nothing
/// otherwise.  A wall never becomes an edge target; neither does a missing
/// tile.
pub open spec fn dir_part(m: Map<(i32, i32), Tile>, x: int, y: int) -> Seq<((i32, i32), u32)> {
    if i32::MIN <= x <= i32::MAX && i32::MIN <= y <= i32::MAX && m.contains_key(
        (x as i32, y as i32),
    ) && m[(x as i32, y as i32)].tile_type == TileType::FLOOR {
        seq![((x as i32, y as i32), 1u32)]
    } else {
        Seq::empty()
    }
}

/// The edge list that `build_connections` gives the tile at `k`: its north,
/// east, south and west neighbors in that order, each kept when present and
/// a floor.
pub open spec fn spec_neighbors(m: Map<(i32, i32), Tile>, k: (i32, i32)) -> Seq<
    ((i32, i32), u32),
> {
    dir_part(m, k.0 as int, k.1 as int + 1) + dir_part(m, k.0 as int + 1, k.1 as int) + dir_part(
        m,
        k.0 as int,
        k.1 as int - 1,
    ) + dir_part(m, k.0 as int - 1, k.1 as int)
}

/// Connectivity of a fully-floor rectangular grid: after the edges are
/// built, a tile holds one outgoing edge for each of its four sides that
/// stays inside the rectangle — so an interior tile has exactly 4 edges, a
/// tile on one edge of the rectangle 3, and a corner tile 2.
pub proof fn lemma_uniform_grid_degree(
    m: Map<(i32, i32), Tile>,
    x0: int,
    y0: int,
    w: int,
    h: int,
    k: (i32, i32),
)
    requires
        1 <= w,
        1 <= h,
        i32::MIN <= x0,
        x0 + w - 1 <= i32::MAX,
        i32::MIN <= y0,
        y0 + h - 1 <= i32::MAX,
        forall|q: (i32, i32)|
            #[trigger] m.contains_key(q) <==> (x0 <= q.0 && q.0 < x0 + w && y0 <= q.1 && q.1 < y0
                + h),
        forall|q: (i32, i32)| m.contains_key(q) ==> (#[trigger] m[q]).tile_type == TileType::FLOOR,
        m.contains_key(k),
    ensures
        spec_neighbors(m, k).len() == (if k.1 < y0 + h - 1 {
            1int
        } else {
            0int
        }) + (if k.0 < x0 + w - 1 {
            1int
        } else {
            0int
        }) + (if y0 < k.1 {
            1int
        } else {
            0int
        }) + (if x0 < k.0 {
            1int
        } else {
            0int
        }),
{
    assert(dir_part(m, k.0 as int, k.1 as int + 1).len() == (if k.1 < y0 + h - 1 {
        1int
    } else {
        0int
    }));
    assert(dir_part(m, k.0 as int + 1, k.1 as int).len() == (if k.0 < x0 + w - 1 {
        1int
    } else {
        0int
    }));
    assert(dir_part(m, k.0 as int, k.1 as int - 1).len() == (if y0 < k.1 {
        1int
    } else {
        0int
    }));
    assert(dir_part(m, k.0 as int - 1, k.1 as int).len() == (if x0 < k.0 {
        1int
    } else {
        0int
    }));
}

/// A graph over the tiles of one size class.  Two parallel entry lists keyed
/// by tile coordinate hold the tiles and their outgoing edges; both lists
/// always carry the same keys in the same order, the order of first
/// insertion.
pub struct TileGraph {
    pub nodes: Vec<((i32, i32), Tile)>,
    pub connections: Vec<((i32, i32), Vec<((i32, i32), u32)>)>,
    pub tile_size: TileSize,
}

impl TileGraph {
    /// A tile coordinate whose world coordinate fits the coordinate type.
    pub open spec fn key_fits(k: (i32, i32), s: int) -> bool {
        &&& i32::MIN <= k.0 as int * s <= i32::MAX
        &&& i32::MIN <= k.1 as int * s <= i32::MAX
    }

    /// Well-formed: the two lists agree on keys and order, no key repeats,
    /// every tile is of the graph's size class, and every key stays within
    /// the world-coordinate bound.
    pub open spec fn wf(&self) -> bool {
        let n = self.nodes@.len();
        &&& self.connections@.len() == n
        &&& forall|i: int| 0 <= i < n ==> (#[trigger] self.connections@[i]).0 == self.nodes@[i].0
        &&& forall|i: int, j: int|
            0 <= i < j < n ==> (#[trigger] self.nodes@[i]).0 != (#[trigger] self.nodes@[j]).0
        &&& forall|i: int| 0 <= i < n ==> (#[trigger] self.nodes@[i]).1.size == self.tile_size
        &&& forall|i: int|
            0 <= i < n ==> Self::key_fits(
                (#[trigger] self.nodes@[i]).0,
                self.tile_size.side() as int,
            )
    }

    /// The keys of the graph, in insertion order.
    pub open spec fn keys(&self) -> Seq<(i32, i32)> {
        self.nodes@.map_values(|p: ((i32, i32), Tile)| p.0)
    }

    /// The tiles of the graph, as a mapping from tile coordinate to tile.
    pub open spec fn nodes_map(&self) -> Map<(i32, i32), Tile> {
        entries_map(self.nodes@)
    }

    /// The edge lists of the graph, entry by entry.
    pub open spec fn conn_entries(&self) -> Seq<((i32, i32), Seq<((i32, i32), u32)>)> {
        self.connections@.map_values(
            |p: ((i32, i32), Vec<((i32, i32), u32)>)| (p.0, p.1@),
        )
    }

    /// The edge lists of the graph, as a mapping from tile coordinate to the
    /// list of `(neighbor, cost)` pairs leaving it.
    pub open spec fn connections_map(&self) -> Map<(i32, i32), Seq<((i32, i32), u32)>> {
        entries_map(self.conn_entries())
    }

    /// Create an empty graph of the given size class.
    pub fn create(tile_size: TileSize) -> (r: Self)
        ensures
            r.wf(),
            r.tile_size == tile_size,
            r.nodes@.len() == 0,
            r.nodes_map() == Map::<(i32, i32), Tile>::empty(),
            r.connections_map() == Map::<(i32, i32), Seq<((i32, i32), u32)>>::empty(),
    {
        let r = Self { nodes: Vec::new(), connections: Vec::new(), tile_size };
        proof {
            assert(r.nodes_map() =~= Map::<(i32, i32), Tile>::empty());
            assert(r.connections_map() =~= Map::<(i32, i32), Seq<((i32, i32), u32)>>::empty());
        }
        r
    }

    /// Add a tile to the graph under a tile-space coordinate, together with
    /// its initial edge list.  A tile of the wrong size class is not
    /// inserted and the graph is left as it was; a tile under an existing
    /// key overwrites the earlier one, edges included.
    pub fn append(&mut self, tile: Tile, value: (i32, i32), connections: Vec<((i32, i32), u32)>)
        requires
            old(self).wf(),
            Self::key_fits(value, old(self).tile_size.side() as int),
        ensures
            final(self).wf(),
            final(self).tile_size == old(self).tile_size,
            tile.size != old(self).tile_size ==> *final(self) == *old(self),
            tile.size == old(self).tile_size ==> {
                &&& final(self).nodes_map() == old(self).nodes_map().insert(value, tile)
                &&& final(self).connections_map() == old(self).connections_map().insert(
                    value,
                    connections@,
                )
                &&& final(self).keys() == (if old(self).nodes_map().contains_key(value) {
                    old(self).keys()
                } else {
                    old(self).keys().push(value)
                })
            },
    {
        if tile.clone().get_size() != self.tile_size {
            // wrong size class: not inserted, graph unchanged
        } else {
            let ghost old_nodes = self.nodes@;
            let ghost old_conns = self.conn_entries();
            match find_entry(&self.nodes, value.0, value.1) {
                Some(f) => {
                    proof {
                        lemma_entry_find_from(self.nodes@, value, 0);
                    }
                    self.nodes[f] = (value, tile);
                    self.connections[f] = (value, connections);
                    proof {
                        let ghost g = *self;
                        assert forall|k: (i32, i32)| entry_find(g.nodes@, k)
                            == entry_find(old_nodes, k) && entry_find(g.conn_entries(), k)
                            == entry_find(old_conns, k) by {
                            assert(g.nodes@ == old_nodes.update(f as int, (old_nodes[f as int].0, tile)));
                            lemma_entry_find_update(old_nodes, f as int, tile, k, 0);
                            assert(g.conn_entries() =~= old_conns.update(
                                f as int,
                                (old_conns[f as int].0, connections@),
                            ));
                            lemma_entry_find_update(old_conns, f as int, connections@, k, 0);
                        }
                        assert forall|k: (i32, i32)| entry_find(old_conns, k)
                            == entry_find(old_nodes, k) by {
                            lemma_entry_find_from_same_keys(old_conns, old_nodes, k, 0);
                        }
                        assert(old_nodes[f as int].0 == value);
                        assert(old_conns[f as int].0 == value);
                        assert forall|k: (i32, i32)|
                            #[trigger] entries_map(g.nodes@).contains_key(k) implies entries_map(
                            g.nodes@,
                        )[k] == entries_map(old_nodes).insert(value, tile)[k] by {
                            lemma_entry_find_from(old_nodes, k, 0);
                            let j = entry_find(old_nodes, k);
                            if k == value {
                                assert(j == f as int);
                                assert(g.nodes@[j].1 == tile);
                            } else {
                                assert(old_nodes[j].0 == k);
                                assert(j != f as int);
                                assert(g.nodes@[j] == old_nodes[j]);
                            }
                        }
                        assert forall|k: (i32, i32)|
                            #[trigger] entries_map(g.conn_entries()).contains_key(k) implies
                            entries_map(g.conn_entries())[k] == entries_map(old_conns).insert(
                            value,
                            connections@,
                        )[k] by {
                            lemma_entry_find_from(old_conns, k, 0);
                            let j = entry_find(old_conns, k);
                            if k == value {
                                assert(j == f as int);
                                assert(g.conn_entries()[j].1 == connections@);
                            } else {
                                assert(old_conns[j].0 == k);
                                assert(j != f as int);
                                assert(g.conn_entries() =~= old_conns.update(
                                    f as int,
                                    (value, connections@),
                                ));
                                assert(g.conn_entries()[j] == old_conns[j]);
                            }
                        }
                        assert(self.nodes_map() =~= entries_map(old_nodes).insert(value, tile));
                        assert(self.connections_map() =~= entries_map(old_conns).insert(
                            value,
                            connections@,
                        ));
                        assert(self.keys() =~= old(self).keys());
                    }
                },
                None => {
                    proof {
                        lemma_entry_find_from(self.nodes@, value, 0);
                    }
                    self.nodes.push((value, tile));
                    self.connections.push((value, connections));
                    proof {
                        let ghost g = *self;
                        assert(g.nodes@ == old_nodes.push((value, tile)));
                        assert(g.conn_entries() =~= old_conns.push((value, connections@)));
                        assert(entry_find(old_nodes, value) == -1);
                        assert forall|k: (i32, i32)| entry_find(old_conns, k)
                            == entry_find(old_nodes, k) by {
                            lemma_entry_find_from_same_keys(old_conns, old_nodes, k, 0);
                        }
                        assert forall|k: (i32, i32)| entry_find(g.nodes@, k) == (
                        if k == value {
                            old_nodes.len() as int
                        } else {
                            entry_find(old_nodes, k)
                        }) by {
                            lemma_entry_find_from(old_nodes, k, 0);
                            lemma_entry_find_push(old_nodes, (value, tile), k, 0);
                        }
                        assert forall|k: (i32, i32)| entry_find(g.conn_entries(), k)
                            == (if k == value {
                            old_conns.len() as int
                        } else {
                            entry_find(old_conns, k)
                        }) by {
                            lemma_entry_find_from(old_conns, k, 0);
                            lemma_entry_find_push(old_conns, (value, connections@), k, 0);
                        }
                        assert forall|k: (i32, i32)| #[trigger] entries_map(g.nodes@).contains_key(k)
                            == entries_map(old_nodes).insert(value, tile).contains_key(k) by {
                            lemma_entry_find_from(old_nodes, k, 0);
                        }
                        assert forall|k: (i32, i32)|
                            #[trigger] entries_map(g.nodes@).contains_key(k) implies entries_map(
                            g.nodes@,
                        )[k] == entries_map(old_nodes).insert(value, tile)[k] by {
                            if k != value {
                                lemma_entry_find_from(old_nodes, k, 0);
                                let j = entry_find(old_nodes, k);
                                assert(g.nodes@[j] == old_nodes[j]);
                            }
                        }
                        assert forall|k: (i32, i32)|
                            #[trigger] entries_map(g.conn_entries()).contains_key(k) implies
                            entries_map(g.conn_entries())[k] == entries_map(old_conns).insert(
                            value,
                            connections@,
                        )[k] by {
                            if k != value {
                                lemma_entry_find_from(old_conns, k, 0);
                                let j = entry_find(old_conns, k);
                                assert(g.conn_entries()[j] == old_conns[j]);
                            }
                        }
                        assert(self.nodes_map() =~= entries_map(old_nodes).insert(value, tile));
                        assert(self.connections_map() =~= entries_map(old_conns).insert(
                            value,
                            connections@,
                        ));
                        assert(self.keys() =~= old(self).keys().push(value));
                        assert forall|i: int, j: int|
                            0 <= i < j < g.nodes@.len() implies (#[trigger] g.nodes@[i]).0 != (
                        #[trigger] g.nodes@[j]).0 by {
                            if j == g.nodes@.len() - 1 {
                                lemma_entry_find_from(old_nodes, g.nodes@[i].0, 0);
                            }
                        }
                    }
                },
            }
        }
    }

    /// Add a tile to the graph under a world-space coordinate, flooring down
    /// to the tile that contains it.
    pub fn append_from_wolrd_space(
        &mut self,
        tile: Tile,
        value: (i32, i32),
        connections: Vec<((i32, i32), u32)>,
    )
        requires
            old(self).wf(),
        ensures
            final(self).wf(),
            final(self).tile_size == old(self).tile_size,
            tile.size != old(self).tile_size ==> *final(self) == *old(self),
            tile.size == old(self).tile_size ==> {
                let s = old(self).tile_size.side() as int;
                let k = (
                    tile_coord(value.0 as int, s) as i32,
                    tile_coord(value.1 as int, s) as i32,
                );
                &&& final(self).nodes_map() == old(self).nodes_map().insert(k, tile)
                &&& final(self).connections_map() == old(self).connections_map().insert(
                    k,
                    connections@,
                )
                &&& final(self).keys() == (if old(self).nodes_map().contains_key(k) {
                    old(self).keys()
                } else {
                    old(self).keys().push(k)
                })
            },
    {
        let s = self.tile_size.get().0;
        let tx = world_to_tile(value.0, s);
        let ty = world_to_tile(value.1, s);
        proof {
            crate::coords::lemma_tile_div_fits(value.0 as int, self.tile_size.side() as int);
            crate::coords::lemma_tile_div_fits(value.1 as int, self.tile_size.side() as int);
        }
        self.append(tile, (tx, ty), connections)
    }

    /// Append to `list` the possible edge toward the tile at `(x, y)`, as
    /// `dir_part` describes it.
    fn push_dir(&self, list: &mut Vec<((i32, i32), u32)>, x: i64, y: i64)
        ensures
            final(list)@ == old(list)@ + dir_part(self.nodes_map(), x as int, y as int),
    {
        let ghost m = self.nodes_map();
        if x >= (i32::MIN as i64) && x <= (i32::MAX as i64) && y >= (i32::MIN as i64) && y
            <= (i32::MAX as i64) {
            let xi = x as i32;
            let yi = y as i32;
            match find_entry(&self.nodes, xi, yi) {
                Some(f) => {
                    proof {
                        lemma_entry_find_from(self.nodes@, (xi, yi), 0);
                        assert(m.contains_key((xi, yi)));
                        assert(m[(xi, yi)] == self.nodes@[f as int].1);
                    }
                    if self.nodes[f].1.tile_type == TileType::FLOOR {
                        list.push(((xi, yi), 1));
                        proof {
                            assert(list@ =~= old(list)@ + dir_part(m, x as int, y as int));
                        }
                    } else {
                        proof {
                            assert(list@ =~= old(list)@ + dir_part(m, x as int, y as int));
                        }
                    }
                },
                None => {
                    proof {
                        assert(!m.contains_key((xi, yi)));
                        assert(list@ =~= old(list)@ + dir_part(m, x as int, y as int));
                    }
                },
            }
        } else {
            proof {
                assert(list@ =~= old(list)@ + dir_part(m, x as int, y as int));
            }
        }
    }

    /// Build the edge lists of the whole graph afresh: every stored tile gets
    /// exactly the edges of `spec_neighbors` — one cost-1 edge toward each of
    /// its four axis-aligned neighbors that exists and is a floor.  Must be
    /// run again whenever tiles are added, removed or changed, or the stored
    /// edges go stale.
    pub fn build_connections(&mut self)
        requires
            old(self).wf(),
        ensures
            final(self).wf(),
            final(self).nodes@ == old(self).nodes@,
            final(self).tile_size == old(self).tile_size,
            final(self).conn_entries().len() == old(self).nodes@.len(),
            forall|i: int|
                0 <= i < old(self).nodes@.len() ==> #[trigger] final(self).conn_entries()[i] == (
                old(self).nodes@[i].0,
                spec_neighbors(old(self).nodes_map(), old(self).nodes@[i].0),
                ),
            forall|k: (i32, i32)|
                #[trigger] final(self).connections_map().contains_key(k)
                    <==> old(self).nodes_map().contains_key(k),
            forall|k: (i32, i32)|
                old(self).nodes_map().contains_key(k)
                    ==> #[trigger] final(self).connections_map()[k] == spec_neighbors(
                    old(self).nodes_map(),
                    k,
                ),
    {
        let n = self.nodes.len();
        let mut new_conns: Vec<((i32, i32), Vec<((i32, i32), u32)>)> = Vec::new();
        let mut i: usize = 0;
        while i < n
            invariant
                0 <= i <= n,
                n == self.nodes@.len(),
                *self == *old(self),
                old(self).wf(),
                new_conns@.len() == i,
                forall|j: int|
                    0 <= j < i ==> (#[trigger] new_conns@[j]).0 == self.nodes@[j].0
                        && new_conns@[j].1@ == spec_neighbors(
                        self.nodes_map(),
                        self.nodes@[j].0,
                    ),
            decreases n - i,
        {
            let k0 = self.nodes[i].0.0;
            let k1 = self.nodes[i].0.1;
            let mut list: Vec<((i32, i32), u32)> = Vec::new();
            self.push_dir(&mut list, k0 as i64, k1 as i64 + 1);
            self.push_dir(&mut list, k0 as i64 + 1, k1 as i64);
            self.push_dir(&mut list, k0 as i64, k1 as i64 - 1);
            self.push_dir(&mut list, k0 as i64 - 1, k1 as i64);
            proof {
                assert(list@ =~= spec_neighbors(self.nodes_map(), self.nodes@[i as int].0));
            }
            new_conns.push(((k0, k1), list));
            i = i + 1;
        }
        self.connections = new_conns;
        proof {
            let ghost g = *self;
            let ghost m = old(self).nodes_map();
            assert forall|k: (i32, i32)| entry_find(g.conn_entries(), k) == entry_find(
                old(self).nodes@,
                k,
            ) by {
                lemma_entry_find_from_same_keys(g.conn_entries(), old(self).nodes@, k, 0);
            }
            assert forall|k: (i32, i32)| #[trigger]
                g.connections_map().contains_key(k) <==> m.contains_key(k) by {}
            assert forall|k: (i32, i32)| m.contains_key(k) implies #[trigger] g.connections_map()[k]
                == spec_neighbors(m, k) by {
                lemma_entry_find_from(old(self).nodes@, k, 0);
                let j = entry_find(old(self).nodes@, k);
                assert(old(self).nodes@[j].0 == k);
                assert(g.conn_entries()[j].1 == spec_neighbors(m, k));
            }
        }
    }

    /// Get the tile that contains a world-space coordinate, or the canonical
    /// "none" wall when no tile is stored there.  A total function: it never
    /// fails.
    pub fn get_tile(&mut self, x: i32, y: i32) -> (r: Tile)
        requires
            old(self).wf(),
        ensures
            *final(self) == *old(self),
            ({
                let s = old(self).tile_size.side() as int;
                let k = (tile_coord(x as int, s) as i32, tile_coord(y as int, s) as i32);
                if old(self).nodes_map().contains_key(k) {
                    r == old(self).nodes_map()[k]
                } else {
                    crate::tile::is_none_tile(r, old(self).tile_size)
                }
            }),
    {
        let sf = self.tile_size.get().0;
        let tx = world_to_tile(x, sf);
        let ty = world_to_tile(y, sf);
        match find_entry(&self.nodes, tx, ty) {
            Some(f) => {
                proof {
                    lemma_entry_find_from(self.nodes@, (tx, ty), 0);
                }
                self.nodes[f].1.clone()
            },
            None => Tile::create_none(self.tile_size),
        }
    }
}

/// Holds all the tile data of one loaded level, as four tile graphs: three
/// visual layers from coarse to fine, and the navigation layer, always of
/// the smallest size class, whose connectivity feeds the pathfinder.
pub struct Level {
    pub tile_big: TileGraph,
    pub tile_medium: TileGraph,
    pub tile_small: TileGraph,
    pub tile_nav: TileGraph,
}

impl Level {
    /// Well-formed: each layer is a well-formed graph of its own size class.
    pub open spec fn wf(&self) -> bool {
        &&& self.tile_big.wf() && self.tile_big.tile_size == TileSize::BIG
        &&& self.tile_medium.wf() && self.tile_medium.tile_size == TileSize::MEDIUM
        &&& self.tile_small.wf() && self.tile_small.tile_size == TileSize::SMALL
        &&& self.tile_nav.wf() && self.tile_nav.tile_size == TileSize::SMALL
    }

    /// Returns the tile at a world-space coordinate out of the visual layer
    /// of the given size class; an absent tile comes back as the canonical
    /// "none" wall of that size class.
    pub fn get_tile(&mut self, size: TileSize, coordinates: (i32, i32)) -> (r: Tile)
        requires
            old(self).wf(),
        ensures
            *final(self) == *old(self),
            ({
                let g = (match size {
                    TileSize::BIG => old(self).tile_big,
                    TileSize::MEDIUM => old(self).tile_medium,
                    TileSize::SMALL => old(self).tile_small,
                });
                let s = size.side() as int;
                let k = (
                    tile_coord(coordinates.0 as int, s) as i32,
                    tile_coord(coordinates.1 as int, s) as i32,
                );
                if g.nodes_map().contains_key(k) {
                    r == g.nodes_map()[k]
                } else {
                    is_none_tile(r, size)
                }
            }),
    {
        match size {
            TileSize::BIG => self.tile_big.get_tile(coordinates.0, coordinates.1),
            TileSize::MEDIUM => self.tile_medium.get_tile(coordinates.0, coordinates.1),
            TileSize::SMALL => self.tile_small.get_tile(coordinates.0, coordinates.1),
        }
    }

    /// Builds the demonstration level out of a tile table: a row of four big
    /// wall tiles above the origin, an eight-by-three carpet of medium floor
    /// tiles, an empty small layer, and a sixteen-by-six navigation layer of
    /// nav tiles with its connectivity built.  A wall or floor tile of the
    /// wrong size class is skipped by the graphs and the layer stays empty.
    pub fn create_demo_level(tiles: &Vec<(String, Tile)>) -> (r: Self)
        requires
            tile_key_find(tiles@, "game:tiles/wall.json"@, 0) >= 0,
            tile_key_find(tiles@, "game:tiles/floor.json"@, 0) >= 0,
        ensures
            r.wf(),
            r.tile_small.nodes@.len() == 0,
            ({
                let wall = tile_for(tiles@, "game:tiles/wall.json"@);
                &&& (wall.size == TileSize::BIG ==> {
                    &&& forall|q: (i32, i32)|
                        #[trigger] r.tile_big.nodes_map().contains_key(q) <==> (0 <= q.0 < 4
                            && q.1 == -1)
                    &&& forall|q: (i32, i32)|
                        r.tile_big.nodes_map().contains_key(q)
                            ==> #[trigger] r.tile_big.nodes_map()[q] == wall
                })
                &&& (wall.size != TileSize::BIG ==> r.tile_big.nodes@.len() == 0)
            }),
            ({
                let floor = tile_for(tiles@, "game:tiles/floor.json"@);
                &&& (floor.size == TileSize::MEDIUM ==> {
                    &&& forall|q: (i32, i32)|
                        #[trigger] r.tile_medium.nodes_map().contains_key(q) <==> (0 <= q.0 < 8
                            && 0 <= q.1 < 3)
                    &&& forall|q: (i32, i32)|
                        r.tile_medium.nodes_map().contains_key(q)
                            ==> #[trigger] r.tile_medium.nodes_map()[q] == floor
                })
                &&& (floor.size != TileSize::MEDIUM ==> r.tile_medium.nodes@.len() == 0)
            }),
            forall|q: (i32, i32)|
                #[trigger] r.tile_nav.nodes_map().contains_key(q) <==> (0 <= q.0 < 16 && 0 <= q.1
                    < 6),
            forall|q: (i32, i32)|
                r.tile_nav.nodes_map().contains_key(q) ==> is_nav_tile(
                    #[trigger] r.tile_nav.nodes_map()[q],
                ),
            forall|q: (i32, i32)|
                #[trigger] r.tile_nav.connections_map().contains_key(q)
                    <==> r.tile_nav.nodes_map().contains_key(q),
            forall|q: (i32, i32)|
                r.tile_nav.nodes_map().contains_key(q)
                    ==> #[trigger] r.tile_nav.connections_map()[q] == spec_neighbors(
                    r.tile_nav.nodes_map(),
                    q,
                ),
    {
        let wall = lookup_tile(tiles, "game:tiles/wall.json");
        let floor = lookup_tile(tiles, "game:tiles/floor.json");
        let mut level = Self {
            tile_big: TileGraph::create(TileSize::BIG),
            tile_medium: TileGraph::create(TileSize::MEDIUM),
            tile_small: TileGraph::create(TileSize::SMALL),
            tile_nav: TileGraph::create(TileSize::SMALL),
        };
        let ghost med0 = level.tile_medium;
        let ghost small0 = level.tile_small;
        let ghost nav0 = level.tile_nav;

        // the row of big wall tiles
        let mut x: i32 = 0;
        while x < 4
            invariant
                0 <= x <= 4,
                level.tile_big.wf(),
                level.tile_big.tile_size == TileSize::BIG,
                level.tile_medium == med0,
                level.tile_small == small0,
                level.tile_nav == nav0,
                wall.size == TileSize::BIG ==> {
                    &&& forall|q: (i32, i32)|
                        #[trigger] level.tile_big.nodes_map().contains_key(q) <==> (0 <= q.0 < x
                            && q.1 == -1)
                    &&& forall|q: (i32, i32)|
                        level.tile_big.nodes_map().contains_key(q)
                            ==> #[trigger] level.tile_big.nodes_map()[q] == wall
                },
                wall.size != TileSize::BIG ==> level.tile_big.nodes@.len() == 0,
            decreases 4 - x,
        {
            level.tile_big.append(wall.clone(), (x, -1), Vec::new());
            x = x + 1;
        }

        // the carpet of medium floor tiles
        let ghost big1 = level.tile_big;
        let mut x: i32 = 0;
        while x < 8
            invariant
                0 <= x <= 8,
                level.tile_big == big1,
                level.tile_medium.wf(),
                level.tile_medium.tile_size == TileSize::MEDIUM,
                level.tile_small == small0,
                level.tile_nav == nav0,
                floor.size == TileSize::MEDIUM ==> {
                    &&& forall|q: (i32, i32)|
                        #[trigger] level.tile_medium.nodes_map().contains_key(q) <==> (0 <= q.0
                            < x && 0 <= q.1 < 3)
                    &&& forall|q: (i32, i32)|
                        level.tile_medium.nodes_map().contains_key(q)
                            ==> #[trigger] level.tile_medium.nodes_map()[q] == floor
                },
                floor.size != TileSize::MEDIUM ==> level.tile_medium.nodes@.len() == 0,
            decreases 8 - x,
        {
            let mut y: i32 = 0;
            while y < 3
                invariant
                    0 <= y <= 3,
                    0 <= x < 8,
                    level.tile_big == big1,
                    level.tile_medium.wf(),
                    level.tile_medium.tile_size == TileSize::MEDIUM,
                    level.tile_small == small0,
                    level.tile_nav == nav0,
                    floor.size == TileSize::MEDIUM ==> {
                        &&& forall|q: (i32, i32)|
                            #[trigger] level.tile_medium.nodes_map().contains_key(q) <==> ((0
                                <= q.0 < x && 0 <= q.1 < 3) || (q.0 == x && 0 <= q.1 < y))
                        &&& forall|q: (i32, i32)|
                            level.tile_medium.nodes_map().contains_key(q)
                                ==> #[trigger] level.tile_medium.nodes_map()[q] == floor
                    },
                    floor.size != TileSize::MEDIUM ==> level.tile_medium.nodes@.len() == 0,
                decreases 3 - y,
            {
                level.tile_medium.append(floor.clone(), (x, y), Vec::new());
                y = y + 1;
            }
            x = x + 1;
        }

        // the navigation layer
        let ghost med1 = level.tile_medium;
        let mut x: i32 = 0;
        while x < 16
            invariant
                0 <= x <= 16,
                level.tile_big == big1,
                level.tile_medium == med1,
                level.tile_nav.wf(),
                level.tile_nav.tile_size == TileSize::SMALL,
                level.tile_small == small0,
                forall|q: (i32, i32)|
                    #[trigger] level.tile_nav.nodes_map().contains_key(q) <==> (0 <= q.0 < x && 0
                        <= q.1 < 6),
                forall|q: (i32, i32)|
                    level.tile_nav.nodes_map().contains_key(q) ==> is_nav_tile(
                        #[trigger] level.tile_nav.nodes_map()[q],
                    ),
            decreases 16 - x,
        {
            let mut y: i32 = 0;
            while y < 6
                invariant
                    0 <= y <= 6,
                    0 <= x < 16,
                    level.tile_big == big1,
                    level.tile_medium == med1,
                    level.tile_nav.wf(),
                    level.tile_nav.tile_size == TileSize::SMALL,
                    level.tile_small == small0,
                    forall|q: (i32, i32)|
                        #[trigger] level.tile_nav.nodes_map().contains_key(q) <==> ((0 <= q.0 < x
                            && 0 <= q.1 < 6) || (q.0 == x && 0 <= q.1 < y)),
                    forall|q: (i32, i32)|
                        level.tile_nav.nodes_map().contains_key(q) ==> is_nav_tile(
                            #[trigger] level.tile_nav.nodes_map()[q],
                        ),
                decreases 6 - y,
            {
                level.tile_nav.append(Tile::create_nav(), (x, y), Vec::new());
                y = y + 1;
            }
            x = x + 1;
        }

        // build graph edges for the navigation layer
        let ghost nav2 = level.tile_nav;
        level.tile_nav.build_connections();
        proof {
            assert(level.tile_nav.nodes@ == nav2.nodes@);
            assert(level.tile_nav.nodes_map() == nav2.nodes_map());
        }

        level
    }
}

} // verus!
