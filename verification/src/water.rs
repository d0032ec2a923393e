//! The shallow-water simulation's bookkeeping: the staggered flow textures,
//! the ping-pong of the two height textures between frames, and the lookup
//! of the height texel under a world position.
use bevy::image::Image;
use vstd::prelude::*;

use crate::texture::{
    built_image, new_r32_storage_image, r32_bytes, zeroed_r32_texture_bytes, ExtraUsage, ImageDimension,
    MAIN_WORLD, RENDER_WORLD, USAGE_COPY_DST, USAGE_COPY_SRC, USAGE_STORAGE_BINDING, USAGE_TEXTURE_BINDING,
    ImageWorlds, TexelFormat,
};

verus! {

/// Zero texels, `count` of them.
pub open spec fn zero_texels(count: int) -> Seq<u32> {
    Seq::new(count as nat, |i: int| 0u32)
}

/// The flow textures of a `width` by `height` height grid, both 2D,
/// single-layer R32Float storage textures (kept in both worlds, usable as
/// storage textures and copy destinations) with every texel `0.0`:
/// horizontal flow on the vertical cell edges (`width + 1` by `height`) and
/// vertical flow on the horizontal cell edges (`width` by `height + 1`).
pub fn create_flow_textures(width: u32, height: u32) -> (flows: (Image, Image))
    requires
        width < u32::MAX,
        height < u32::MAX,
        (width + 1) * height <= u32::MAX,
        width * (height + 1) <= u32::MAX,
        4 * ((width + 1) * height) <= usize::MAX,
        4 * (width * (height + 1)) <= usize::MAX,
    ensures
        flows.0 == built_image(
            (width + 1) as u32,
            height,
            1,
            ImageDimension::D2,
            TexelFormat::R32Float,
            ImageWorlds::MainAndRender,
            ExtraUsage::StorageAndCopyTarget,
            r32_bytes(zero_texels((width + 1) * height)),
        ),
        flows.1 == built_image(
            width,
            (height + 1) as u32,
            1,
            ImageDimension::D2,
            TexelFormat::R32Float,
            ImageWorlds::MainAndRender,
            ExtraUsage::StorageAndCopyTarget,
            r32_bytes(zero_texels(width * (height + 1))),
        ),
{
    let (flow_x, flow_y) = create_flow_textures_with_usage(width, height);
    (flow_x.0, flow_y.0)
}

/// The flow textures, as `create_flow_textures` builds them, each with its
/// usage and asset-usage flags: both can be sampled, bound as storage, copied
/// from and into, and both are kept in the main and the render world.
pub fn create_flow_textures_with_usage(width: u32, height: u32) -> (flows: ((Image, u32, u8), (Image, u32, u8)))
    requires
        width < u32::MAX,
        height < u32::MAX,
        (width + 1) * height <= u32::MAX,
        width * (height + 1) <= u32::MAX,
        4 * ((width + 1) * height) <= usize::MAX,
        4 * (width * (height + 1)) <= usize::MAX,
    ensures
        flows.0.0 == built_image(
            (width + 1) as u32,
            height,
            1,
            ImageDimension::D2,
            TexelFormat::R32Float,
            ImageWorlds::MainAndRender,
            ExtraUsage::StorageAndCopyTarget,
            r32_bytes(zero_texels((width + 1) * height)),
        ),
        flows.1.0 == built_image(
            width,
            (height + 1) as u32,
            1,
            ImageDimension::D2,
            TexelFormat::R32Float,
            ImageWorlds::MainAndRender,
            ExtraUsage::StorageAndCopyTarget,
            r32_bytes(zero_texels(width * (height + 1))),
        ),
        flows.0.1 == USAGE_COPY_SRC | USAGE_COPY_DST | USAGE_TEXTURE_BINDING | USAGE_STORAGE_BINDING,
        flows.1.1 == USAGE_COPY_SRC | USAGE_COPY_DST | USAGE_TEXTURE_BINDING | USAGE_STORAGE_BINDING,
        flows.0.2 == MAIN_WORLD | RENDER_WORLD,
        flows.1.2 == MAIN_WORLD | RENDER_WORLD,
{
    let x_width = width + 1;
    let y_height = height + 1;
    let x_count = x_width * height;
    let y_count = width * y_height;
    let x_data = zeroed_r32_texture_bytes(x_count as usize);
    let y_data = zeroed_r32_texture_bytes(y_count as usize);
    proof {
        assert(x_data@.len() == 4 * (x_width as int) * (height as int)) by (nonlinear_arith)
            requires
                x_data@.len() == 4 * x_count,
                x_count == x_width * height,
        ;
        assert(y_data@.len() == 4 * (width as int) * (y_height as int)) by (nonlinear_arith)
            requires
                y_data@.len() == 4 * y_count,
                y_count == width * y_height,
        ;
    }
    let flow_x = new_r32_storage_image(x_width, height, x_data);
    let flow_y = new_r32_storage_image(width, y_height, y_data);
    (flow_x, flow_y)
}

/// The texel of a height texture that a world position falls on, given its
/// texture coordinates already floored (`u` along the width, `v` along the
/// height). `None` off the texture, where the water height reads as 0.
pub fn height_texel(u: i64, v: i64, width: u32, height: u32) -> (t: Option<(u32, u32)>)
    ensures
        t == if 0 <= u < width && 0 <= v < height {
            Some((u as u32, v as u32))
        } else {
            None::<(u32, u32)>
        },
{
    if u < 0 || u >= width as i64 {
        return None;
    }
    if v < 0 || v >= height as i64 {
        return None;
    }
    Some((u as u32, v as u32))
}

/// One of the two water height textures that the simulation ping-pongs between.
#[derive(Clone, Copy, Debug, PartialEq, Eq, Structural)]
pub enum HeightTexture {
    A,
    B,
}

/// The other height texture.
pub open spec fn other_texture(t: HeightTexture) -> HeightTexture {
    match t {
        HeightTexture::A => HeightTexture::B,
        HeightTexture::B => HeightTexture::A,
    }
}

/// Swapping twice shows the texture shown before.
pub proof fn lemma_swap_twice(t: HeightTexture)
    ensures
        other_texture(other_texture(t)) == t,
{
}

/// Which of the two bind groups the simulation passes use: group 1 when set.
pub struct WaterBindGroupsSwap(pub bool);

/// Bind group a swap state selects.
pub open spec fn group_of(swap: bool) -> usize {
    if swap {
        1
    } else {
        0
    }
}

/// The height texture that bind group `group` reads.
pub open spec fn group_reads(group: usize) -> HeightTexture {
    if group == 0 {
        HeightTexture::A
    } else {
        HeightTexture::B
    }
}

/// The height texture that bind group `group` writes.
pub open spec fn group_writes(group: usize) -> HeightTexture {
    other_texture(group_reads(group))
}

impl WaterBindGroupsSwap {
    /// The state before the first frame.
    pub fn new() -> (s: WaterBindGroupsSwap)
        ensures
            s.0,
    {
        WaterBindGroupsSwap(true)
    }

    /// The once-per-frame update that runs before the passes: flips the bind group.
    pub fn update(&mut self)
        ensures
            final(self).0 == !old(self).0,
    {
        self.0 = !self.0;
    }

    /// The bind group the passes use.
    pub fn bind_group_index(&self) -> (group: usize)
        ensures
            group == group_of(self.0),
    {
        if self.0 {
            1
        } else {
            0
        }
    }
}

/// The textures that bind group `group` reads from and writes to: group 0
/// takes A to B, group 1 takes B to A.
pub fn bind_group_textures(group: usize) -> (rw: (HeightTexture, HeightTexture))
    requires
        group < 2,
    ensures
        rw.0 == group_reads(group),
        rw.1 == group_writes(group),
{
    if group == 0 {
        (HeightTexture::A, HeightTexture::B)
    } else {
        (HeightTexture::B, HeightTexture::A)
    }
}

/// The height texture the terrain shows next frame, given the one it shows now.
pub fn swap_textures(shown: HeightTexture) -> (next: HeightTexture)
    ensures
        next == other_texture(shown),
{
    match shown {
        HeightTexture::A => HeightTexture::B,
        HeightTexture::B => HeightTexture::A,
    }
}

/// Swap state and shown texture after `n` frames, starting from the swap
/// set and the terrain showing texture A; each frame flips the swap (the
/// bind-group update) and the shown texture (`swap_textures`).
pub open spec fn after_frames(n: nat) -> (bool, HeightTexture)
    decreases n,
{
    if n == 0 {
        (true, HeightTexture::A)
    } else {
        let (swap, shown) = after_frames((n - 1) as nat);
        (!swap, other_texture(shown))
    }
}

/// The terrain always renders the newest water height: after every frame the
/// texture the terrain shows is the one the simulation has just written.
pub proof fn lemma_terrain_shows_newest_height(n: nat)
    requires
        n >= 1,
    ensures
        after_frames(n).1 == group_writes(group_of(after_frames(n).0)),
    decreases n,
{
    reveal_with_fuel(after_frames, 2);
    if n > 1 {
        lemma_terrain_shows_newest_height((n - 1) as nat);
    }
}

} // verus!
