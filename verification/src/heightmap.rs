//! The terrain height grid: `DIM` by `DIM` cells, each holding a height as
//! the bit pattern of an `f32`.
use bevy::image::Image;
use vstd::prelude::*;

use crate::texture::{
    built_image, lemma_r32_bytes_decode, le_word, r32_bytes, r32_storage_image_with_usage, ExtraUsage,
    MAIN_WORLD, RENDER_WORLD, USAGE_COPY_DST, USAGE_COPY_SRC, USAGE_STORAGE_BINDING, USAGE_TEXTURE_BINDING,
    ImageDimension, ImageWorlds, TexelFormat,
};

verus! {

/// A square grid of heights. Cell `(x, y)` is `values[x * DIM + y]`; a height
/// is stored as the bit pattern of its `f32`.
pub struct Heightmap {
    pub values: Vec<u32>,
}

/// Bit pattern of the `f32` 5.0: the height of the spike of `create_heightmap_spike`.
pub const SPIKE_HEIGHT: u32 = 0x40A0_0000;

/// Coordinate of the spike of `create_heightmap_spike`, on both axes.
pub const SPIKE_CELL: u32 = 1024;

/// Position of cell `(x, y)` in the cell buffer.
pub open spec fn cell_index(x: int, y: int) -> int {
    x * (Heightmap::DIM as int) + y
}

/// Height of cell `(x, y)` in a cell buffer.
pub open spec fn height_at(values: Seq<u32>, x: int, y: int) -> u32 {
    values[cell_index(x, y)]
}

/// A cell buffer after writing `h` into cell `(x, y)`.
pub open spec fn with_height(values: Seq<u32>, x: int, y: int, h: u32) -> Seq<u32> {
    values.update(cell_index(x, y), h)
}

/// The cell `(x, y)` lies on the height grid.
pub open spec fn in_grid(x: int, y: int) -> bool {
    0 <= x < Heightmap::DIM && 0 <= y < Heightmap::DIM
}

/// Cells of the grid sit at distinct positions of the buffer, all inside it.
pub proof fn lemma_cell_index(x: int, y: int, x2: int, y2: int)
    requires
        in_grid(x, y),
        in_grid(x2, y2),
    ensures
        0 <= cell_index(x, y) < Heightmap::DIM * Heightmap::DIM,
        cell_index(x, y) == cell_index(x2, y2) ==> x == x2 && y == y2,
{
    assert(0 <= x * 2048 + y < 2048 * 2048) by (nonlinear_arith)
        requires
            0 <= x < 2048,
            0 <= y < 2048,
    ;
    assert(x * 2048 + y == x2 * 2048 + y2 ==> x == x2 && y == y2) by (nonlinear_arith)
        requires
            0 <= x < 2048,
            0 <= y < 2048,
            0 <= x2 < 2048,
            0 <= y2 < 2048,
    ;
}

/// Reading a cell gives back what was last written to it, and writing a cell
/// leaves every other cell as it was.
pub proof fn lemma_get_after_set(values: Seq<u32>, x: int, y: int, h: u32, x2: int, y2: int)
    requires
        in_grid(x, y),
        in_grid(x2, y2),
        values.len() == Heightmap::DIM * Heightmap::DIM,
    ensures
        height_at(with_height(values, x, y, h), x2, y2) == if x == x2 && y == y2 {
            h
        } else {
            height_at(values, x2, y2)
        },
{
    lemma_cell_index(x, y, x2, y2);
    lemma_cell_index(x2, y2, x2, y2);
}

/// The texture of a grid holds, at the texel of cell `(x, y)`, the four bytes
/// of that cell's height.
pub proof fn lemma_texel_is_height(values: Seq<u32>, x: int, y: int)
    requires
        in_grid(x, y),
        values.len() == Heightmap::DIM * Heightmap::DIM,
    ensures
        ({
            let b = r32_bytes(values);
            let i = cell_index(x, y);
            le_word(b[4 * i], b[4 * i + 1], b[4 * i + 2], b[4 * i + 3]) == height_at(values, x, y)
        }),
{
    lemma_cell_index(x, y, x, y);
    lemma_r32_bytes_decode(values, cell_index(x, y));
}

impl Heightmap {
    /// Number of cells along each side of the grid.
    pub const DIM: u32 = 128 * 16;

    fn index(x: u32, y: u32) -> (i: usize)
        requires
            in_grid(x as int, y as int),
        ensures
            i as int == cell_index(x as int, y as int),
            i < Self::DIM * Self::DIM,
    {
        proof {
            lemma_cell_index(x as int, y as int, x as int, y as int);
        }
        x as usize * (Self::DIM as usize) + y as usize
    }

    fn zero() -> (m: Heightmap)
        ensures
            m.values@ == Seq::new((Self::DIM * Self::DIM) as nat, |i: int| 0u32),
    {
        let values: Vec<u32> = vec![0u32; (Self::DIM * Self::DIM) as usize];
        assert(values@ =~= Seq::new((Self::DIM * Self::DIM) as nat, |i: int| 0u32));
        Heightmap { values }
    }

    /// Height of cell `(x, y)` (bit pattern of an `f32`).
    pub fn get(&self, x: u32, y: u32) -> (h: u32)
        requires
            x < Self::DIM,
            y < Self::DIM,
            cell_index(x as int, y as int) < self.values@.len(),
        ensures
            h == height_at(self.values@, x as int, y as int),
    {
        let index: usize = Self::index(x, y);
        self.values[index]
    }

    /// Writes height `h` (bit pattern of an `f32`) into cell `(x, y)`.
    pub fn set(&mut self, x: u32, y: u32, h: u32)
        requires
            x < Self::DIM,
            y < Self::DIM,
            cell_index(x as int, y as int) < old(self).values@.len(),
        ensures
            final(self).values@ == with_height(old(self).values@, x as int, y as int, h),
    {
        let index: usize = Self::index(x, y);
        self.values.set(index, h);
    }

    /// The grid as a 2D, single-layer R32Float texture of `DIM` by `DIM`
    /// texels in the order of the cell buffer, kept in both worlds and usable
    /// as a storage texture and copy destination.
    pub fn image(&self) -> (image: Image)
        requires
            self.values@.len() == Self::DIM * Self::DIM,
        ensures
            image == built_image(
                Self::DIM,
                Self::DIM,
                1,
                ImageDimension::D2,
                TexelFormat::R32Float,
                ImageWorlds::MainAndRender,
                ExtraUsage::StorageAndCopyTarget,
                r32_bytes(self.values@),
            ),
    {
        let (image, _, _) = self.image_with_usage();
        image
    }

    /// The grid's texture, as `image` builds it, with its usage and
    /// asset-usage flags: the terrain can sample it and the simulation can
    /// bind it as storage and copy into and out of it, and it is kept in the
    /// main world (where the game reads heights back) as well as the render
    /// world.
    pub fn image_with_usage(&self) -> (built: (Image, u32, u8))
        requires
            self.values@.len() == Self::DIM * Self::DIM,
        ensures
            built.0 == built_image(
                Self::DIM,
                Self::DIM,
                1,
                ImageDimension::D2,
                TexelFormat::R32Float,
                ImageWorlds::MainAndRender,
                ExtraUsage::StorageAndCopyTarget,
                r32_bytes(self.values@),
            ),
            built.1 == USAGE_COPY_SRC | USAGE_COPY_DST | USAGE_TEXTURE_BINDING | USAGE_STORAGE_BINDING,
            built.2 == MAIN_WORLD | RENDER_WORLD,
    {
        assert(Self::DIM == 2048);
        r32_storage_image_with_usage(Self::DIM, Self::DIM, self.values.as_slice())
    }
}

/// A flat grid (every height `0.0`) with a single spike of height 5.0 at
/// cell (1024, 1024).
pub fn create_heightmap_spike() -> (m: Heightmap)
    ensures
        m.values@.len() == Heightmap::DIM * Heightmap::DIM,
        forall|x: int, y: int|
            #![trigger height_at(m.values@, x, y)]
            in_grid(x, y) ==> height_at(m.values@, x, y) == if x == SPIKE_CELL && y == SPIKE_CELL {
                SPIKE_HEIGHT
            } else {
                0u32
            },
{
    let mut m = Heightmap::zero();
    assert(Heightmap::DIM == 2048);
    let ghost zeros = m.values@;
    m.set(SPIKE_CELL, SPIKE_CELL, SPIKE_HEIGHT);
    assert forall|x: int, y: int|
        #![trigger height_at(m.values@, x, y)]
        in_grid(x, y) implies height_at(m.values@, x, y) == if x == SPIKE_CELL && y == SPIKE_CELL {
            SPIKE_HEIGHT
        } else {
            0u32
        } by {
        lemma_get_after_set(zeros, SPIKE_CELL as int, SPIKE_CELL as int, SPIKE_HEIGHT, x, y);
        lemma_cell_index(x, y, x, y);
    }
    m
}

/// Fills a grid cell by cell, row `y` after row `y`, with the height that
/// `height(x, y)` gives for each cell.
pub fn create_heightmap<F: Fn(u32, u32) -> u32>(height: F) -> (m: Heightmap)
    requires
        forall|x: u32, y: u32| x < Heightmap::DIM && y < Heightmap::DIM ==> call_requires(height, (x, y)),
    ensures
        m.values@.len() == Heightmap::DIM * Heightmap::DIM,
        forall|x: u32, y: u32|
            x < Heightmap::DIM && y < Heightmap::DIM ==> call_ensures(
                height,
                (x, y),
                #[trigger] height_at(m.values@, x as int, y as int),
            ),
{
    let mut m = Heightmap::zero();
    let mut y: u32 = 0;
    while y < Heightmap::DIM
        invariant
            forall|x: u32, y: u32| x < Heightmap::DIM && y < Heightmap::DIM ==> call_requires(height, (x, y)),
            y <= Heightmap::DIM,
            m.values@.len() == Heightmap::DIM * Heightmap::DIM,
            forall|x2: u32, y2: u32|
                x2 < Heightmap::DIM && y2 < y ==> call_ensures(
                    height,
                    (x2, y2),
                    #[trigger] height_at(m.values@, x2 as int, y2 as int),
                ),
        decreases Heightmap::DIM - y,
    {
        let mut x: u32 = 0;
        while x < Heightmap::DIM
            invariant
                forall|x: u32, y: u32| x < Heightmap::DIM && y < Heightmap::DIM ==> call_requires(height, (x, y)),
                y < Heightmap::DIM,
                x <= Heightmap::DIM,
                m.values@.len() == Heightmap::DIM * Heightmap::DIM,
                forall|x2: u32, y2: u32|
                    x2 < Heightmap::DIM && (y2 < y || (y2 == y && x2 < x)) ==> call_ensures(
                        height,
                        (x2, y2),
                        #[trigger] height_at(m.values@, x2 as int, y2 as int),
                    ),
            decreases Heightmap::DIM - x,
        {
            let h: u32 = height(x, y);
            proof {
                lemma_cell_index(x as int, y as int, x as int, y as int);
            }
            let ghost before = m.values@;
            m.set(x, y, h);
            assert forall|x2: u32, y2: u32|
                x2 < Heightmap::DIM && (y2 < y || (y2 == y && x2 < x + 1)) implies call_ensures(
                    height,
                    (x2, y2),
                    #[trigger] height_at(m.values@, x2 as int, y2 as int),
                ) by {
                lemma_get_after_set(before, x as int, y as int, h, x2 as int, y2 as int);
                if !(x2 == x && y2 == y) {
                    assert(height_at(before, x2 as int, y2 as int) == height_at(m.values@, x2 as int, y2 as int));
                }
            }
            x = x + 1;
        }
        y = y + 1;
    }
    m
}

} // verus!
