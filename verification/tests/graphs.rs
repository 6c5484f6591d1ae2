use tilegame::level::Level;
use tilegame::level::TileGraph;
use tilegame::resource_location::ResourceLocation;
use tilegame::tile::Tile;
use tilegame::tile::TileSize;
use tilegame::tile::TileType;

fn floor_tile(size: TileSize) -> Tile {
    Tile::create(
        String::from("floor"),
        ResourceLocation::new("game", "tiles/floor.json"),
        ResourceLocation::new("game", "tiles/floor.png"),
        (0, 0),
        TileType::FLOOR,
        size,
        (0, 0),
        false,
        None,
    )
}

fn wall_tile(size: TileSize) -> Tile {
    Tile::create(
        String::from("wall"),
        ResourceLocation::new("game", "tiles/wall.json"),
        ResourceLocation::new("game", "tiles/wall.png"),
        (16, 0),
        TileType::WALL,
        size,
        (0, 0),
        true,
        Some((16, 16)),
    )
}

#[test]
fn append_and_get_tile() {
    let mut g = TileGraph::create(TileSize::SMALL);
    g.append(floor_tile(TileSize::SMALL), (2, 3), Vec::new());
    let mut hit = g.get_tile(2 * 16, 3 * 16);
    assert_eq!(hit.get_name(), "floor");
    let mut other = g.get_tile(0, 0);
    assert_eq!(other.get_name(), "None");
    assert_eq!(other.get_type(), TileType::WALL);
}

#[test]
fn get_tile_floors_negative_coordinates() {
    let mut g = TileGraph::create(TileSize::SMALL);
    g.append(floor_tile(TileSize::SMALL), (-1, -1), Vec::new());
    // world -1 lies in tile -1, and so does world -16
    let mut a = g.get_tile(-1, -1);
    assert_eq!(a.get_name(), "floor");
    let mut b = g.get_tile(-16, -16);
    assert_eq!(b.get_name(), "floor");
    // world -17 lies in tile -2, which is empty
    let mut c = g.get_tile(-17, -17);
    assert_eq!(c.get_name(), "None");
}

#[test]
fn append_rejects_wrong_size() {
    let mut g = TileGraph::create(TileSize::SMALL);
    g.append(floor_tile(TileSize::MEDIUM), (0, 0), Vec::new());
    assert_eq!(g.nodes.len(), 0);
    let mut t = g.get_tile(0, 0);
    assert_eq!(t.get_name(), "None");
}

#[test]
fn append_overwrites_same_key() {
    let mut g = TileGraph::create(TileSize::SMALL);
    g.append(floor_tile(TileSize::SMALL), (1, 1), Vec::new());
    g.append(wall_tile(TileSize::SMALL), (1, 1), Vec::new());
    assert_eq!(g.nodes.len(), 1);
    let mut t = g.get_tile(16, 16);
    assert_eq!(t.get_name(), "wall");
}

#[test]
fn append_from_wolrd_space_floors_down() {
    let mut g = TileGraph::create(TileSize::SMALL);
    g.append_from_wolrd_space(floor_tile(TileSize::SMALL), (33, -1), Vec::new());
    assert_eq!(g.nodes.len(), 1);
    assert_eq!(g.nodes[0].0, (2, -1));
}

#[test]
fn build_connections_grid_degrees() {
    // a fully-floor 3x3 grid: centre 4 edges, sides 3, corners 2
    let mut g = TileGraph::create(TileSize::SMALL);
    for x in 0..3i32 {
        for y in 0..3i32 {
            g.append(floor_tile(TileSize::SMALL), (x, y), Vec::new());
        }
    }
    g.build_connections();
    for entry in g.connections.iter() {
        let (k, edges) = (entry.0, &entry.1);
        let expect = (if k.1 < 2 { 1 } else { 0 })
            + (if k.0 < 2 { 1 } else { 0 })
            + (if k.1 > 0 { 1 } else { 0 })
            + (if k.0 > 0 { 1 } else { 0 });
        assert_eq!(edges.len(), expect, "tile {:?}", k);
        for e in edges.iter() {
            // every edge is a unit step with cost 1
            let d = (e.0.0 - k.0).abs() + (e.0.1 - k.1).abs();
            assert_eq!(d, 1);
            assert_eq!(e.1, 1);
        }
    }
}

#[test]
fn build_connections_never_enters_walls() {
    let mut g = TileGraph::create(TileSize::SMALL);
    g.append(floor_tile(TileSize::SMALL), (0, 0), Vec::new());
    g.append(wall_tile(TileSize::SMALL), (1, 0), Vec::new());
    g.append(floor_tile(TileSize::SMALL), (2, 0), Vec::new());
    g.build_connections();
    for entry in g.connections.iter() {
        for e in entry.1.iter() {
            assert_ne!(e.0, (1, 0), "an edge leads into a wall");
        }
    }
}

#[test]
fn level_get_tile_picks_the_layer() {
    let mut level = Level {
        tile_big: TileGraph::create(TileSize::BIG),
        tile_medium: TileGraph::create(TileSize::MEDIUM),
        tile_small: TileGraph::create(TileSize::SMALL),
        tile_nav: TileGraph::create(TileSize::SMALL),
    };
    level.tile_big.append(wall_tile(TileSize::BIG), (0, 0), Vec::new());
    level.tile_medium.append(floor_tile(TileSize::MEDIUM), (1, 0), Vec::new());
    let mut b = level.get_tile(TileSize::BIG, (10, 10));
    assert_eq!(b.get_name(), "wall");
    let mut m = level.get_tile(TileSize::MEDIUM, (40, 10));
    assert_eq!(m.get_name(), "floor");
    let mut s = level.get_tile(TileSize::SMALL, (10, 10));
    assert_eq!(s.get_name(), "None");
}

#[test]
fn create_demo_level_layout() {
    let tiles = vec![
        (String::from("game:tiles/wall.json"), wall_tile(TileSize::BIG)),
        (String::from("game:tiles/floor.json"), floor_tile(TileSize::MEDIUM)),
    ];
    let level = Level::create_demo_level(&tiles);
    assert_eq!(level.tile_big.nodes.len(), 4);
    assert_eq!(level.tile_medium.nodes.len(), 24);
    assert_eq!(level.tile_small.nodes.len(), 0);
    assert_eq!(level.tile_nav.nodes.len(), 96);
    // the navigation layer has its edges built
    assert_eq!(level.tile_nav.connections.len(), 96);
    let mut interior = 0;
    for entry in level.tile_nav.connections.iter() {
        if entry.1.len() == 4 {
            interior += 1;
        }
    }
    // a 16 x 6 grid has a 14 x 4 interior
    assert_eq!(interior, 56);
}

#[test]
fn create_demo_level_skips_wrong_sizes() {
    // a wall of the wrong size class leaves the big layer empty
    let tiles = vec![
        (String::from("game:tiles/wall.json"), wall_tile(TileSize::SMALL)),
        (String::from("game:tiles/floor.json"), floor_tile(TileSize::MEDIUM)),
    ];
    let level = Level::create_demo_level(&tiles);
    assert_eq!(level.tile_big.nodes.len(), 0);
    assert_eq!(level.tile_medium.nodes.len(), 24);
}
