use tilegame::render::AssetData;
use tilegame::render::Dimensions;
use tilegame::resource_location::ResourceLocation;
use tilegame::sound::Sound;
use tilegame::tile::Tile;
use tilegame::tile::TileSize;
use tilegame::tile::TileType;
use tilegame::widget::Alignment;
use tilegame::widget::WidgetEnum;

#[test]
fn resource_location_new_and_to_string() {
    let rl = ResourceLocation::new("game", "tiles/wall.json");
    assert_eq!(rl.namespace, "game");
    assert_eq!(rl.path, "tiles/wall.json");
    assert_eq!(rl.to_string(), "game:tiles/wall.json");
}

#[test]
fn resource_location_empty() {
    let rl = ResourceLocation::empty();
    assert_eq!(rl.to_string(), "none:none");
}

#[test]
fn resource_location_setters() {
    let mut rl = ResourceLocation::empty();
    rl.set_namespace(String::from("game"));
    rl.set_path(String::from("sounds/shot.ogg"));
    assert_eq!(rl.to_string(), "game:sounds/shot.ogg");
}

#[test]
fn resource_location_parse() {
    let rl = ResourceLocation::parse(String::from("game:tiles/floor.json"));
    assert_eq!(rl.namespace, "game");
    assert_eq!(rl.path, "tiles/floor.json");
}

#[test]
fn resource_location_parse_keeps_first_two_parts() {
    let rl = ResourceLocation::parse(String::from("a:b:c"));
    assert_eq!(rl.namespace, "a");
    assert_eq!(rl.path, "b");
}

#[test]
fn resource_location_clone_matches() {
    let rl = ResourceLocation::new("game", "entity/turret");
    let c = rl.clone();
    assert_eq!(c.namespace, rl.namespace);
    assert_eq!(c.path, rl.path);
}

#[test]
fn tile_type_parse() {
    assert_eq!(TileType::parse(String::from("wall")), TileType::WALL);
    assert_eq!(TileType::parse(String::from("floor")), TileType::FLOOR);
    assert_eq!(TileType::parse(String::from("anything")), TileType::FLOOR);
    assert_eq!(TileType::parse(String::from("Wall")), TileType::FLOOR);
}

#[test]
fn tile_type_as_int() {
    assert_eq!(TileType::WALL.as_int(), 0);
    assert_eq!(TileType::FLOOR.as_int(), 1);
}

#[test]
fn tile_size_parse_ignores_case() {
    assert_eq!(TileSize::parse("small"), TileSize::SMALL);
    assert_eq!(TileSize::parse("SMALL"), TileSize::SMALL);
    assert_eq!(TileSize::parse("Medium"), TileSize::MEDIUM);
    assert_eq!(TileSize::parse("big"), TileSize::BIG);
    assert_eq!(TileSize::parse("unknown"), TileSize::BIG);
}

#[test]
fn tile_size_get() {
    assert_eq!(TileSize::BIG.get(), (64, 64));
    assert_eq!(TileSize::MEDIUM.get(), (32, 32));
    assert_eq!(TileSize::SMALL.get(), (16, 16));
}

#[test]
fn tile_size_widget_enum() {
    let mut s = TileSize::SMALL;
    assert_eq!(s.count(), 3);
    assert_eq!(s.name(), "tile_size");
    assert_eq!(s.get_as_string(), "small");
    let mut m = TileSize::MEDIUM;
    assert_eq!(m.get_as_string(), "medium");
    let mut b = TileSize::BIG;
    assert_eq!(b.get_as_string(), "big");
    assert_eq!(<TileSize as WidgetEnum>::get_from_index(0), TileSize::SMALL);
    assert_eq!(<TileSize as WidgetEnum>::get_from_index(1), TileSize::MEDIUM);
    assert_eq!(<TileSize as WidgetEnum>::get_from_index(2), TileSize::BIG);
    assert_eq!(<TileSize as WidgetEnum>::get_from_index(9), TileSize::SMALL);
}

#[test]
fn alignment_parse() {
    assert_eq!(Alignment::parse(String::from("left")), Alignment::LEFT);
    assert_eq!(Alignment::parse(String::from("Right")), Alignment::RIGHT);
    assert_eq!(Alignment::parse(String::from("TOP")), Alignment::TOP);
    assert_eq!(Alignment::parse(String::from("bottom")), Alignment::BOTTOM);
    assert_eq!(Alignment::parse(String::from("centre")), Alignment::CENTRE);
    assert_eq!(Alignment::parse(String::from("center")), Alignment::NONE);
}

#[test]
fn dimensions_get_set() {
    let mut d = Dimensions { x: 320, y: 180 };
    assert_eq!(d.get_x(), 320);
    assert_eq!(d.get_y(), 180);
    d.set_x(640);
    d.set_y(360);
    assert_eq!(d.get(), (640, 360));
    d.set((320, 180));
    assert_eq!(d.get_x(), 320);
    assert_eq!(d.get_y(), 180);
}

#[test]
fn asset_data_empty() {
    let a = AssetData::empty();
    assert_eq!(a.uv, Some((0, 0, 32, 32)));
    assert_eq!(a.origin, (0, 0));
    assert_eq!(a.resource_location.to_string(), "none:none");
}

#[test]
fn tile_create_fields() {
    let t = Tile::create(
        String::from("wall"),
        ResourceLocation::new("game", "tiles/wall.json"),
        ResourceLocation::new("game", "tiles/wall.png"),
        (16, 0),
        TileType::WALL,
        TileSize::BIG,
        (1, 2),
        true,
        Some((64, 64)),
    );
    let mut t = t;
    assert_eq!(t.get_name(), "wall");
    assert_eq!(t.get_resource_location().to_string(), "game:tiles/wall.json");
    assert_eq!(t.get_type(), TileType::WALL);
    assert_eq!(t.asset_data.uv, Some((16, 0, 64, 64)));
    assert_eq!(t.asset_data.origin, (1, 2));
    assert_eq!(t.clone().get_size(), TileSize::BIG);
}

#[test]
fn tile_create_none_is_wall() {
    let mut t = Tile::create_none(TileSize::SMALL);
    assert_eq!(t.get_name(), "None");
    assert_eq!(t.get_type(), TileType::WALL);
    assert_eq!(t.clone().get_size(), TileSize::SMALL);
    assert_eq!(t.asset_data.uv, Some((0, 0, 16, 16)));
}

#[test]
fn tile_create_nav_is_small_floor() {
    let mut t = Tile::create_nav();
    assert_eq!(t.get_name(), "nav");
    assert_eq!(t.get_type(), TileType::FLOOR);
    assert_eq!(t.clone().get_size(), TileSize::SMALL);
}

#[test]
fn sound_holds_its_parts() {
    let s = Sound {
        path: String::from("assets/sounds/shot.ogg"),
        resource_location: ResourceLocation::new("game", "sounds/shot.ogg"),
    };
    assert_eq!(s.path, "assets/sounds/shot.ogg");
    assert_eq!(s.resource_location.to_string(), "game:sounds/shot.ogg");
}
