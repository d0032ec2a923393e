use vstd::prelude::*;

pub mod heightmap;
pub mod mesh;
pub mod texture;
pub mod water;

verus! {

} // verus!
