use vstd::prelude::*;
use crate::render::AssetData;
use crate::resource_location::ResourceLocation;
use crate::utils::reads_as_lower;
use crate::utils::eq_ignore_case;
use crate::widget::WidgetEnum;

verus! {

/// Whether a tile is a floor (walkable) or a wall (blocks).
#[derive(Clone, Copy, Debug, PartialEq, Eq, Structural)]
pub enum TileType {
    WALL,
    FLOOR,
}

impl TileType {
    /// Parse a tile type from a string; anything but `wall` is a floor.
    pub fn parse(ttype: String) -> (r: Self)
        ensures
            r == (if ttype@ == "wall"@ {
                TileType::WALL
            } else {
                TileType::FLOOR
            }),
    {
        if ttype == "wall".to_owned() {
            Self::WALL
        } else {
            Self::FLOOR
        }
    }

    /// An integer form of each value.
    pub fn as_int(self) -> (r: u32)
        ensures
            r == (match self {
                TileType::WALL => 0u32,
                TileType::FLOOR => 1u32,
            }),
    {
        match self {
            TileType::WALL => 0,
            TileType::FLOOR => 1,
        }
    }
}

/// The size class of a tile: 64, 32 or 16 world units per side.
#[derive(Clone, Copy, Debug, PartialEq, Eq, Structural)]
pub enum TileSize {
    BIG,
    MEDIUM,
    SMALL,
}

/// The size class a string names, ignoring ASCII case; unknown names fall
/// back to `BIG`.
pub open spec fn spec_parse_size(s: Seq<char>) -> TileSize {
    if reads_as_lower(s, "small"@) {
        TileSize::SMALL
    } else if reads_as_lower(s, "medium"@) {
        TileSize::MEDIUM
    } else {
        TileSize::BIG
    }
}

impl TileSize {
    /// The side length of this size class in world units.
    pub open spec fn side(self) -> u32 {
        match self {
            TileSize::BIG => 64u32,
            TileSize::MEDIUM => 32u32,
            TileSize::SMALL => 16u32,
        }
    }

    /// Parse a size class from its name.
    pub fn parse(ts: &str) -> (r: Self)
        ensures
            r == spec_parse_size(ts@),
    {
        if eq_ignore_case(ts, "small") {
            Self::SMALL
        } else if eq_ignore_case(ts, "medium") {
            Self::MEDIUM
        } else {
            Self::BIG
        }
    }

    /// The dimensions of the size class, as a square.
    pub fn get(&self) -> (r: (u32, u32))
        ensures
            r == (self.side(), self.side()),
    {
        match self {
            TileSize::BIG => (64, 64),
            TileSize::MEDIUM => (32, 32),
            TileSize::SMALL => (16, 16),
        }
    }
}

impl WidgetEnum for TileSize {
    fn get_as_string(&mut self) -> String {
        match self {
            TileSize::BIG => "big".to_owned(),
            TileSize::MEDIUM => "medium".to_owned(),
            TileSize::SMALL => "small".to_owned(),
        }
    }

    fn get_from_index(index: usize) -> Self {
        match index {
            1 => TileSize::MEDIUM,
            2 => TileSize::BIG,
            _ => TileSize::SMALL,
        }
    }

    fn count(&mut self) -> usize {
        3
    }

    fn name(&mut self) -> String {
        "tile_size".to_owned()
    }
}

/// The canonical tile of an absent lookup, of a given size class: a wall
/// named `None` with no sprite and no collision box.
pub open spec fn is_none_tile(t: Tile, size: TileSize) -> bool {
    &&& t.name@ == "None"@
    &&& t.resource_location.namespace@ == "game"@
    &&& t.resource_location.path@ == "tiles/none"@
    &&& t.tile_type == TileType::WALL
    &&& t.size == size
    &&& t.origin == (0i32, 0i32)
    &&& t.collision == false
    &&& t.collision_box is None
    &&& t.asset_data.uv == Some((0u32, 0u32, size.side(), size.side()))
    &&& t.asset_data.origin == (0i32, 0i32)
    &&& t.asset_data.resource_location.namespace@ == "none"@
    &&& t.asset_data.resource_location.path@ == "none"@
}

/// The navigation tile: a small floor named `nav`, used only by the
/// pathfinding layer.
pub open spec fn is_nav_tile(t: Tile) -> bool {
    &&& t.name@ == "nav"@
    &&& t.resource_location.namespace@ == "game"@
    &&& t.resource_location.path@ == "tiles/nav"@
    &&& t.tile_type == TileType::FLOOR
    &&& t.size == TileSize::SMALL
    &&& t.origin == (0i32, 0i32)
    &&& t.collision == false
    &&& t.collision_box is None
}

/// One grid cell: its name, identity, type, size class, sprite alignment and
/// collision facts.  Tiles are built once and cloned into graphs; they never
/// change afterwards.
pub struct Tile {
    pub name: String,
    pub resource_location: ResourceLocation,
    pub tile_type: TileType,
    pub size: TileSize,
    pub origin: (i32, i32),
    pub collision: bool,
    pub collision_box: Option<(u32, u32)>,
    pub asset_data: AssetData,
}

impl Tile {
    /// Build a tile from its parts; the asset rectangle pairs the given sheet
    /// position with the side length of the size class.
    pub fn create(
        name: String,
        resource_location: ResourceLocation,
        texture: ResourceLocation,
        uv: (u32, u32),
        tile_type: TileType,
        size: TileSize,
        origin: (i32, i32),
        collision: bool,
        collision_box: Option<(u32, u32)>,
    ) -> (r: Self)
        ensures
            r.name == name,
            r.resource_location == resource_location,
            r.tile_type == tile_type,
            r.size == size,
            r.origin == origin,
            r.collision == collision,
            r.collision_box == collision_box,
            r.asset_data.uv == Some((uv.0, uv.1, size.side(), size.side())),
            r.asset_data.origin == origin,
            r.asset_data.resource_location == texture,
    {
        let s = size.get();
        let ass = AssetData { uv: Some((uv.0, uv.1, s.0, s.1)), origin, resource_location: texture };
        Self {
            name,
            resource_location,
            tile_type,
            size,
            origin,
            collision,
            collision_box,
            asset_data: ass,
        }
    }

    /// The canonical tile for an absent lookup: a wall of the given size with
    /// no sprite, so that a missing tile and an impassable tile read the same.
    pub fn create_none(size: TileSize) -> (r: Self)
        ensures
            is_none_tile(r, size),
    {
        let s = size.get();
        let ass = AssetData {
            uv: Some((0, 0, s.0, s.1)),
            origin: (0, 0),
            resource_location: ResourceLocation::empty(),
        };
        Self {
            name: "None".to_owned(),
            resource_location: ResourceLocation::new("game", "tiles/none"),
            tile_type: TileType::WALL,
            size,
            origin: (0, 0),
            collision: false,
            collision_box: None,
            asset_data: ass,
        }
    }

    /// The navigation tile: a small floor used only by the pathfinding layer.
    pub fn create_nav() -> (r: Self)
        ensures
            is_nav_tile(r),
    {
        let ass = AssetData {
            uv: Some((0, 0, 16, 16)),
            origin: (0, 0),
            resource_location: ResourceLocation::new("game", "tiles/nav.png"),
        };
        Self {
            name: "nav".to_owned(),
            resource_location: ResourceLocation::new("game", "tiles/nav"),
            tile_type: TileType::FLOOR,
            size: TileSize::SMALL,
            origin: (0, 0),
            collision: false,
            collision_box: None,
            asset_data: ass,
        }
    }

    /// The tile's name.
    pub fn get_name(&mut self) -> (r: String)
        ensures
            *final(self) == *old(self),
            r == old(self).name,
    {
        self.name.clone()
    }

    /// The tile's identity.
    pub fn get_resource_location(&mut self) -> (r: ResourceLocation)
        ensures
            *final(self) == *old(self),
            r == old(self).resource_location,
    {
        self.resource_location.clone()
    }

    /// The tile's size class.
    pub fn get_size(self) -> (r: TileSize)
        ensures
            r == self.size,
    {
        self.size
    }

    /// The tile's type.
    pub fn get_type(&mut self) -> (r: TileType)
        ensures
            *final(self) == *old(self),
            r == old(self).tile_type,
    {
        self.tile_type
    }
}

impl Clone for Tile {
    /// Cloning keeps every field.
    fn clone(&self) -> (r: Self)
        ensures
            r == *self,
    {
        Self {
            name: self.name.clone(),
            resource_location: self.resource_location.clone(),
            tile_type: self.tile_type,
            size: self.size,
            origin: self.origin,
            collision: self.collision,
            collision_box: self.collision_box,
            asset_data: self.asset_data.clone(),
        }
    }
}

} // verus!
