use terrain_water::heightmap::{create_heightmap, create_heightmap_spike, Heightmap, SPIKE_CELL, SPIKE_HEIGHT};
use wgpu_types::{TextureDimension, TextureFormat, TextureUsages};

#[test]
fn spike_height_is_five() {
    assert_eq!(f32::from_bits(SPIKE_HEIGHT), 5.0f32);
    assert_eq!(SPIKE_HEIGHT, 5.0f32.to_bits());
}

#[test]
fn spike_map_is_flat_but_one_cell() {
    let m = create_heightmap_spike();
    assert_eq!(m.values.len(), (Heightmap::DIM * Heightmap::DIM) as usize);
    assert_eq!(m.get(SPIKE_CELL, SPIKE_CELL), 5.0f32.to_bits());
    assert_eq!(f32::from_bits(m.get(1024, 1024)), 5.0);
    assert_eq!(m.get(0, 0), 0);
    assert_eq!(m.get(1023, 1024), 0);
    assert_eq!(m.get(1024, 1025), 0);
    assert_eq!(m.get(2047, 2047), 0);
    let nonzero = m.values.iter().filter(|v| **v != 0).count();
    assert_eq!(nonzero, 1);
    assert_eq!(m.values[1024 * 2048 + 1024], SPIKE_HEIGHT);
}

#[test]
fn dim_is_2048() {
    assert_eq!(Heightmap::DIM, 2048);
}

#[test]
fn set_then_get() {
    let mut m = create_heightmap_spike();
    m.set(3, 7, 1.5f32.to_bits());
    assert_eq!(f32::from_bits(m.get(3, 7)), 1.5);
    assert_eq!(m.values[3 * 2048 + 7], 1.5f32.to_bits());
    assert_eq!(m.get(7, 3), 0);
    m.set(3, 7, 2.5f32.to_bits());
    assert_eq!(f32::from_bits(m.get(3, 7)), 2.5);
    assert_eq!(m.get(SPIKE_CELL, SPIKE_CELL), SPIKE_HEIGHT);
    m.set(2047, 0, 9);
    assert_eq!(m.get(2047, 0), 9);
    assert_eq!(m.values[2047 * 2048], 9);
}

#[test]
fn create_heightmap_uses_the_closure_for_every_cell() {
    let m = create_heightmap(|x, y| x * 3 + y * 5);
    assert_eq!(m.values.len(), 2048 * 2048);
    assert_eq!(m.get(0, 0), 0);
    assert_eq!(m.get(1, 0), 3);
    assert_eq!(m.get(0, 1), 5);
    assert_eq!(m.get(2047, 2047), 2047 * 8);
    assert_eq!(m.values[10 * 2048 + 20], 10 * 3 + 20 * 5);
}

#[test]
fn create_heightmap_stores_f32_bits() {
    let m = create_heightmap(|x, y| ((x as f32) * 0.5 - (y as f32)).abs().to_bits());
    assert_eq!(f32::from_bits(m.get(4, 1)), 1.0);
    assert_eq!(f32::from_bits(m.get(0, 3)), 3.0);
    assert_eq!(f32::from_bits(m.get(6, 3)), 0.0);
}

#[test]
fn image_holds_the_heights_as_r32_float() {
    let mut m = create_heightmap_spike();
    m.set(0, 1, 0.25f32.to_bits());
    let image = m.image();
    assert_eq!(image.width(), 2048);
    assert_eq!(image.height(), 2048);
    let d = &image.texture_descriptor;
    assert_eq!(d.format, TextureFormat::R32Float);
    assert_eq!(d.dimension, TextureDimension::D2);
    assert_eq!(d.size.depth_or_array_layers, 1);
    assert!(d.usage.contains(TextureUsages::STORAGE_BINDING | TextureUsages::COPY_DST));
    let data = image.data.as_ref().unwrap();
    assert_eq!(data.len(), 2048 * 2048 * 4);
    assert_eq!(&data[4..8], &0.25f32.to_le_bytes());
    let spike = (1024 * 2048 + 1024) * 4;
    assert_eq!(&data[spike..spike + 4], &5.0f32.to_le_bytes());
    assert_eq!(&data[0..4], &[0, 0, 0, 0]);
}
