use vstd::prelude::*;
use crate::resource_location::ResourceLocation;

verus! {

/// Holds what the audio backend needs to play one sound: the file it sits in
/// and the name it is looked up under.
pub struct Sound {
    pub path: String,
    pub resource_location: ResourceLocation,
}

} // verus!
