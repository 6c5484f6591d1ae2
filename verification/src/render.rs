use vstd::prelude::*;
use crate::resource_location::ResourceLocation;

verus! {

/// All that is needed to display one item's texture: the sprite's rectangle
/// inside its sheet as `(x, y, width, height)`, the drawing origin, and the
/// location of the texture itself.  The windowing backend turns this plain
/// record into whatever rectangle type it draws with.
pub struct AssetData {
    pub uv: Option<(u32, u32, u32, u32)>,
    pub origin: (i32, i32),
    pub resource_location: ResourceLocation,
}

impl AssetData {
    /// Asset data that points at nothing: a 32 by 32 patch of the empty
    /// resource location.
    pub fn empty() -> (r: Self)
        ensures
            r.uv == Some((0u32, 0u32, 32u32, 32u32)),
            r.origin == (0i32, 0i32),
            r.resource_location.namespace@ == "none"@,
            r.resource_location.path@ == "none"@,
    {
        Self {
            uv: Some((0, 0, 32, 32)),
            origin: (0, 0),
            resource_location: ResourceLocation::empty(),
        }
    }
}

impl Clone for AssetData {
    /// Cloning keeps every field.
    fn clone(&self) -> (r: Self)
        ensures
            r == *self,
    {
        Self {
            uv: self.uv,
            origin: self.origin,
            resource_location: self.resource_location.clone(),
        }
    }
}

/// A screen size in pixels.
pub struct Dimensions {
    pub x: u32,
    pub y: u32,
}

impl Dimensions {
    /// The width.
    pub fn get_x(&self) -> (r: u32)
        ensures
            r == self.x,
    {
        self.x
    }

    /// The height.
    pub fn get_y(&self) -> (r: u32)
        ensures
            r == self.y,
    {
        self.y
    }

    /// Set the width.
    pub fn set_x(&mut self, x: u32)
        ensures
            final(self).x == x,
            final(self).y == old(self).y,
    {
        self.x = x
    }

    /// Set the height.
    pub fn set_y(&mut self, y: u32)
        ensures
            final(self).x == old(self).x,
            final(self).y == y,
    {
        self.y = y
    }

    /// Set both sides at once.
    pub fn set(&mut self, dims: (u32, u32))
        ensures
            final(self).x == dims.0,
            final(self).y == dims.1,
    {
        self.x = dims.0;
        self.y = dims.1
    }

    /// Both sides as a pair.
    pub fn get(&self) -> (r: (u32, u32))
        ensures
            r == (self.x, self.y),
    {
        (self.x, self.y)
    }
}

} // verus!
