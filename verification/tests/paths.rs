use tilegame::level::TileGraph;
use tilegame::resource_location::ResourceLocation;
use tilegame::tile::Tile;
use tilegame::tile::TileSize;
use tilegame::tile::TileType;

fn small_tile(name: &str, tile_type: TileType) -> Tile {
    Tile::create(
        String::from(name),
        ResourceLocation::new("game", "tiles/test.json"),
        ResourceLocation::new("game", "tiles/test.png"),
        (0, 0),
        tile_type,
        TileSize::SMALL,
        (0, 0),
        false,
        None,
    )
}

fn floor_grid(w: i32, h: i32) -> TileGraph {
    let mut g = TileGraph::create(TileSize::SMALL);
    for x in 0..w {
        for y in 0..h {
            g.append(small_tile("floor", TileType::FLOOR), (x, y), Vec::new());
        }
    }
    g.build_connections();
    g
}

fn has_connection(g: &TileGraph, from: (i32, i32), to: (i32, i32)) -> bool {
    for entry in g.connections.iter() {
        if entry.0 == from {
            for e in entry.1.iter() {
                if e.0 == to {
                    return true;
                }
            }
        }
    }
    false
}

#[test]
fn end_to_end_four_by_four() {
    // a 4x4 floor grid of small tiles: the path from tile (0,0) to (3,3)
    // starts at (0,0), ends at (48,48), and moves one tile per step
    let mut g = floor_grid(4, 4);
    let path = g.path_to(0, 0, 48, 48);
    assert!(path.len() >= 2);
    assert_eq!(path[0], (0, 0));
    assert_eq!(path[path.len() - 1], (48, 48));
    for i in 0..path.len() - 1 {
        let dx = (path[i + 1].0 - path[i].0).abs();
        let dy = (path[i + 1].1 - path[i].1).abs();
        assert_eq!(dx + dy, 16, "step {} is not one tile in one axis", i);
    }
}

#[test]
fn path_waypoints_follow_stored_edges() {
    let mut g = floor_grid(5, 3);
    let path = g.path_to(0, 32, 64, 0);
    assert!(path.len() >= 2);
    for i in 0..path.len() - 1 {
        let from = (path[i].0 / 16, path[i].1 / 16);
        let to = (path[i + 1].0 / 16, path[i + 1].1 / 16);
        assert!(has_connection(&g, from, to), "no edge {:?} -> {:?}", from, to);
    }
}

#[test]
fn no_path_through_a_solid_wall() {
    // floors left and right of a full-height wall column: the goal side is
    // unreachable and the result signals that instead of crossing the wall
    let mut g = TileGraph::create(TileSize::SMALL);
    for y in 0..3i32 {
        g.append(small_tile("floor", TileType::FLOOR), (0, y), Vec::new());
        g.append(small_tile("wall", TileType::WALL), (1, y), Vec::new());
        g.append(small_tile("floor", TileType::FLOOR), (2, y), Vec::new());
    }
    g.build_connections();
    let path = g.path_to(0, 0, 32, 0);
    assert_eq!(path.len(), 1);
    assert_eq!(path[0], (0, 0));
}

#[test]
fn path_to_is_idempotent() {
    // identical graph state and arguments give identical waypoints
    let mut g = floor_grid(6, 6);
    let first = g.path_to(0, 0, 80, 80);
    let second = g.path_to(0, 0, 80, 80);
    assert_eq!(first, second);
    let third = g.path_to(16, 0, 0, 64);
    let fourth = g.path_to(16, 0, 0, 64);
    assert_eq!(third, fourth);
}

#[test]
fn path_from_outside_the_graph_is_trivial() {
    let mut g = floor_grid(3, 3);
    // start far outside any stored tile
    let path = g.path_to(-160, -160, 32, 32);
    assert_eq!(path.len(), 1);
    assert_eq!(path[0], (-160, -160));
}

#[test]
fn path_to_goal_outside_the_graph_is_trivial() {
    let mut g = floor_grid(3, 3);
    let path = g.path_to(0, 0, 160, 160);
    assert_eq!(path.len(), 1);
    assert_eq!(path[0], (0, 0));
}

#[test]
fn path_to_same_tile_is_trivial() {
    let mut g = floor_grid(3, 3);
    let path = g.path_to(5, 5, 10, 10);
    assert_eq!(path, vec![(0, 0)]);
}

#[test]
fn path_goes_around_a_wall() {
    // a wall splits the middle row: the path must detour, never touching
    // the wall tile
    let mut g = TileGraph::create(TileSize::SMALL);
    for x in 0..3i32 {
        for y in 0..3i32 {
            let t = if x == 1 && y != 2 {
                small_tile("wall", TileType::WALL)
            } else {
                small_tile("floor", TileType::FLOOR)
            };
            g.append(t, (x, y), Vec::new());
        }
    }
    g.build_connections();
    let path = g.path_to(0, 0, 32, 0);
    assert!(path.len() >= 2);
    assert_eq!(path[path.len() - 1], (32, 0));
    for p in path.iter() {
        let tile = (p.0 / 16, p.1 / 16);
        assert!(!(tile.0 == 1 && tile.1 != 2), "path crosses the wall at {:?}", tile);
    }
}
