//! Pixel buffers of single-channel 32-bit float textures (R32Float).
//!
//! A height or flow value is carried as the bit pattern of its `f32`, so the
//! byte layout of a texture is plain integer logic: every value becomes four
//! little-endian bytes.
use bevy::asset::RenderAssetUsages;
use bevy::image::Image;
use vstd::prelude::*;
use wgpu_types::{Extent3d, TextureDimension, TextureFormat, TextureUsages};

verus! {

#[verifier::external_type_specification]
#[verifier::external_body]
pub struct ExImage(Image);

/// Number of bytes that one R32Float texel occupies.
pub const TEXEL_BYTES: usize = 4;

/// Byte `k` (0 = least significant) of the little-endian encoding of `v`.
pub open spec fn le_byte(v: u32, k: int) -> u8 {
    if k == 0 {
        (v & 0xff) as u8
    } else if k == 1 {
        ((v >> 8u32) & 0xff) as u8
    } else if k == 2 {
        ((v >> 16u32) & 0xff) as u8
    } else {
        (v >> 24u32) as u8
    }
}

/// The word that four little-endian bytes spell.
pub open spec fn le_word(b0: u8, b1: u8, b2: u8, b3: u8) -> int {
    b0 + 256 * b1 + 65536 * b2 + 16777216 * b3
}

/// Texture bytes of a sequence of texels: each texel as four little-endian bytes, in order.
pub open spec fn r32_bytes(values: Seq<u32>) -> Seq<u8> {
    Seq::new(4 * values.len(), |j: int| le_byte(values[j / 4], j % 4))
}

/// Layout of a texture's texels.
#[derive(Clone, Copy, Debug, PartialEq, Eq, Structural)]
pub enum ImageDimension {
    D2,
}

/// Pixel format of a texture.
#[derive(Clone, Copy, Debug, PartialEq, Eq, Structural)]
pub enum TexelFormat {
    /// One 32-bit float per texel.
    R32Float,
}

/// Worlds in which an image asset is kept.
#[derive(Clone, Copy, Debug, PartialEq, Eq, Structural)]
pub enum ImageWorlds {
    MainAndRender,
}

/// Usage that a texture gets on top of the defaults of a new image.
#[derive(Clone, Copy, Debug, PartialEq, Eq, Structural)]
pub enum ExtraUsage {
    /// Bindable as a storage texture, and a copy destination.
    StorageAndCopyTarget,
}

/// `TextureUsages::COPY_SRC` (wgpu-types): the texture can be copied from.
pub const USAGE_COPY_SRC: u32 = 1;
/// `TextureUsages::COPY_DST`: the texture can be copied into.
pub const USAGE_COPY_DST: u32 = 2;
/// `TextureUsages::TEXTURE_BINDING`: the texture can be sampled in a shader.
pub const USAGE_TEXTURE_BINDING: u32 = 4;
/// `TextureUsages::STORAGE_BINDING`: the texture can be bound as storage.
pub const USAGE_STORAGE_BINDING: u32 = 8;
/// `RenderAssetUsages::MAIN_WORLD` (bevy_asset): the asset stays in the main world.
pub const MAIN_WORLD: u8 = 1;
/// `RenderAssetUsages::RENDER_WORLD`: the asset is sent to the render world.
pub const RENDER_WORLD: u8 = 2;

/// The texture usage that `Image::new` gives every new image.
pub open spec fn image_new_usage() -> u32 {
    USAGE_TEXTURE_BINDING | USAGE_COPY_DST | USAGE_COPY_SRC
}

/// The usage flags that an `ExtraUsage` stands for.
pub open spec fn extra_usage_bits(usage: ExtraUsage) -> u32 {
    match usage {
        ExtraUsage::StorageAndCopyTarget => USAGE_STORAGE_BINDING | USAGE_COPY_DST,
    }
}

/// The asset-usage flags that an `ImageWorlds` stands for.
pub open spec fn worlds_bits(worlds: ImageWorlds) -> u8 {
    match worlds {
        ImageWorlds::MainAndRender => MAIN_WORLD | RENDER_WORLD,
    }
}

/// An image built with extra usage keeps every usage flag of a new image
/// and gains every extra flag, and nothing else.
pub proof fn lemma_extra_usage_added(usage: ExtraUsage)
    ensures
        (image_new_usage() | extra_usage_bits(usage)) & image_new_usage() == image_new_usage(),
        (image_new_usage() | extra_usage_bits(usage)) & extra_usage_bits(usage) == extra_usage_bits(usage),
        usage == ExtraUsage::StorageAndCopyTarget ==> image_new_usage() | extra_usage_bits(usage) == USAGE_COPY_SRC
            | USAGE_COPY_DST | USAGE_TEXTURE_BINDING | USAGE_STORAGE_BINDING,
{
    match usage {
        ExtraUsage::StorageAndCopyTarget => {
            assert((4u32 | 2u32 | 1u32 | (8u32 | 2u32)) & (4u32 | 2u32 | 1u32) == (4u32 | 2u32 | 1u32)) by (bit_vector);
            assert((4u32 | 2u32 | 1u32 | (8u32 | 2u32)) & (8u32 | 2u32) == (8u32 | 2u32)) by (bit_vector);
            assert((4u32 | 2u32 | 1u32 | (8u32 | 2u32)) == (1u32 | 2u32 | 4u32 | 8u32)) by (bit_vector);
        },
    }
}

/// Bytes per texel of a format.
pub open spec fn texel_size(format: TexelFormat) -> int {
    match format {
        TexelFormat::R32Float => 4,
    }
}

/// The image that `new_image` builds from its arguments.
pub uninterp spec fn built_image(
    width: u32,
    height: u32,
    layers: u32,
    dimension: ImageDimension,
    format: TexelFormat,
    worlds: ImageWorlds,
    usage: ExtraUsage,
    data: Seq<u8>,
) -> Image;

/// The 2D, single-layer R32Float texture kept in both worlds and usable as a
/// storage texture and copy destination, with pixel bytes `data`.
pub open spec fn r32_storage_image(width: u32, height: u32, data: Seq<u8>) -> Image {
    built_image(
        width,
        height,
        1,
        ImageDimension::D2,
        TexelFormat::R32Float,
        ImageWorlds::MainAndRender,
        ExtraUsage::StorageAndCopyTarget,
        data,
    )
}

/// Builds an image through `bevy::image::Image::new` with extent
/// `width` x `height` x `layers`, and adds the extra usage flags to its
/// descriptor's usage. Each library enum is mapped to the matching Bevy/wgpu
/// value. `Image::new` debug-asserts that the byte count equals the texel
/// count times the texel size; it computes that count as `width * height`,
/// then times `layers`, in `u32`, so `requires` bounds both products and
/// states the byte count.
/// It also hands back the built image's usage flags and asset-usage flags
/// as plain bits. Per bevy_image's `Image::new_uninit`, a new image's usage
/// is `TEXTURE_BINDING | COPY_DST | COPY_SRC`, and its asset usage is the
/// one passed; the body then ors in the extra usage. Nothing else is stated
/// about the fields of the `Image`.
#[verifier::external_body]
pub(crate) fn new_image(
    width: u32,
    height: u32,
    layers: u32,
    dimension: ImageDimension,
    format: TexelFormat,
    worlds: ImageWorlds,
    usage: ExtraUsage,
    data: Vec<u8>,
) -> (built: (Image, u32, u8))
    requires
        (width as int) * (height as int) <= u32::MAX,
        (width as int) * (height as int) * (layers as int) <= u32::MAX,
        data.len() == texel_size(format) * ((width as int) * (height as int) * (layers as int)),
    ensures
        built.0 == built_image(width, height, layers, dimension, format, worlds, usage, data@),
        built.1 == image_new_usage() | extra_usage_bits(usage),
        built.2 == worlds_bits(worlds),
{
    let size = Extent3d { width, height, depth_or_array_layers: layers };
    let dimension = match dimension { ImageDimension::D2 => TextureDimension::D2 };
    let format = match format { TexelFormat::R32Float => TextureFormat::R32Float };
    let worlds = match worlds { ImageWorlds::MainAndRender => RenderAssetUsages::all() };
    let extra = match usage {
        ExtraUsage::StorageAndCopyTarget => TextureUsages::STORAGE_BINDING | TextureUsages::COPY_DST,
    };
    let mut image = Image::new(size, dimension, data, format, worlds);
    image.texture_descriptor.usage |= extra;
    let (usage_bits, worlds_bits) = (image.texture_descriptor.usage.bits(), image.asset_usage.bits());
    (image, usage_bits, worlds_bits)
}

/// Builds the R32Float storage texture with pixel bytes `data`, and hands
/// back its usage and asset-usage flags: it can be sampled, bound as storage,
/// copied from and into (`COPY_SRC | COPY_DST | TEXTURE_BINDING |
/// STORAGE_BINDING`), and it is kept in both the main and the render world.
pub fn new_r32_storage_image(width: u32, height: u32, data: Vec<u8>) -> (built: (Image, u32, u8))
    requires
        (width as int) * (height as int) <= u32::MAX,
        data.len() == 4 * (width as int) * (height as int),
    ensures
        built.0 == r32_storage_image(width, height, data@),
        built.1 == USAGE_COPY_SRC | USAGE_COPY_DST | USAGE_TEXTURE_BINDING | USAGE_STORAGE_BINDING,
        built.2 == MAIN_WORLD | RENDER_WORLD,
{
    assert((width as int) * (height as int) * 1 == (width as int) * (height as int));
    assert(4 * (width as int) * (height as int) == 4 * ((width as int) * (height as int))) by (nonlinear_arith);
    proof {
        lemma_extra_usage_added(ExtraUsage::StorageAndCopyTarget);
    }
    new_image(
        width,
        height,
        1,
        ImageDimension::D2,
        TexelFormat::R32Float,
        ImageWorlds::MainAndRender,
        ExtraUsage::StorageAndCopyTarget,
        data,
    )
}

/// Encodes texels (f32 bit patterns) as the pixel bytes of an R32Float texture.
pub fn r32_texture_bytes(values: &[u32]) -> (bytes: Vec<u8>)
    requires
        4 * values@.len() <= usize::MAX,
    ensures
        bytes@ == r32_bytes(values@),
{
    let n: usize = values.len();
    let mut bytes: Vec<u8> = Vec::with_capacity(TEXEL_BYTES * n);
    let mut i: usize = 0;
    while i < n
        invariant
            n == values@.len(),
            4 * n <= usize::MAX,
            i <= n,
            bytes@ == r32_bytes(values@.take(i as int)),
        decreases n - i,
    {
        let v: u32 = values[i];
        bytes.push((v & 0xff) as u8);
        bytes.push(((v >> 8u32) & 0xff) as u8);
        bytes.push(((v >> 16u32) & 0xff) as u8);
        bytes.push((v >> 24u32) as u8);
        proof {
            let prev = values@.take(i as int);
            let next = values@.take(i + 1);
            assert forall|j: int| 0 <= j < 4 * i implies #[trigger] next[j / 4] == prev[j / 4] by {
                assert(j / 4 < i);
            }
            assert(bytes@ =~= r32_bytes(next));
        }
        i = i + 1;
    }
    assert(values@.take(n as int) =~= values@);
    bytes
}

/// Pixel bytes of an R32Float texture of `count` texels that are all `0.0`.
pub fn zeroed_r32_texture_bytes(count: usize) -> (bytes: Vec<u8>)
    requires
        4 * count <= usize::MAX,
    ensures
        bytes@ == r32_bytes(Seq::new(count as nat, |i: int| 0u32)),
{
    let bytes: Vec<u8> = vec![0u8; TEXEL_BYTES * count];
    proof {
        let zeros = Seq::new(count as nat, |i: int| 0u32);
        assert(le_byte(0u32, 0) == 0 && le_byte(0u32, 1) == 0 && le_byte(0u32, 2) == 0
            && le_byte(0u32, 3) == 0) by (bit_vector);
        assert(bytes@ =~= r32_bytes(zeros));
    }
    bytes
}

/// Decoding law: the four bytes that encode texel `i` spell its value again,
/// so a texture holds exactly the texels it was built from.
pub proof fn lemma_r32_bytes_decode(values: Seq<u32>, i: int)
    requires
        0 <= i < values.len(),
    ensures
        ({
            let b = r32_bytes(values);
            le_word(b[4 * i], b[4 * i + 1], b[4 * i + 2], b[4 * i + 3]) == values[i]
        }),
{
    let v: u32 = values[i];
    let b = r32_bytes(values);
    assert((4 * i) / 4 == i && (4 * i + 1) / 4 == i && (4 * i + 2) / 4 == i && (4 * i + 3) / 4 == i);
    assert((4 * i) % 4 == 0 && (4 * i + 1) % 4 == 1 && (4 * i + 2) % 4 == 2 && (4 * i + 3) % 4 == 3);
    assert(b[4 * i] == le_byte(v, 0));
    assert(b[4 * i + 1] == le_byte(v, 1));
    assert(b[4 * i + 2] == le_byte(v, 2));
    assert(b[4 * i + 3] == le_byte(v, 3));
    assert(((v & 0xff) as u8) + 256 * (((v >> 8u32) & 0xff) as u8) + 65536 * (((v >> 16u32)
        & 0xff) as u8) + 16777216 * ((v >> 24u32) as u8) == v) by (bit_vector);
}

/// Builds the R32Float storage texture whose texels are `values`, `width` texels per row.
/// It can be sampled, bound as storage, copied from and into, and is kept in
/// both the main and the render world; its usage and asset-usage flags come
/// back beside it.
pub fn r32_storage_image_with_usage(width: u32, height: u32, values: &[u32]) -> (built: (Image, u32, u8))
    requires
        (width as int) * (height as int) <= u32::MAX,
        values@.len() == (width as int) * (height as int),
        4 * values@.len() <= usize::MAX,
    ensures
        built.0 == r32_storage_image(width, height, r32_bytes(values@)),
        built.1 == USAGE_COPY_SRC | USAGE_COPY_DST | USAGE_TEXTURE_BINDING | USAGE_STORAGE_BINDING,
        built.2 == MAIN_WORLD | RENDER_WORLD,
{
    let data = r32_texture_bytes(values);
    assert(data@.len() == 4 * (width as int) * (height as int)) by (nonlinear_arith)
        requires
            data@.len() == 4 * values@.len(),
            values@.len() == (width as int) * (height as int),
    ;
    new_r32_storage_image(width, height, data)
}

/// The R32Float storage texture of the given texels (see
/// `r32_storage_image_with_usage`).
pub fn r32_storage_image_from(width: u32, height: u32, values: &[u32]) -> (image: Image)
    requires
        (width as int) * (height as int) <= u32::MAX,
        values@.len() == (width as int) * (height as int),
        4 * values@.len() <= usize::MAX,
    ensures
        image == r32_storage_image(width, height, r32_bytes(values@)),
{
    let (image, _, _) = r32_storage_image_with_usage(width, height, values);
    image
}

} // verus!
