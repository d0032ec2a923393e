use terrain_water::texture::{r32_texture_bytes, zeroed_r32_texture_bytes, TEXEL_BYTES};
use terrain_water::water::create_flow_textures;
use wgpu_types::{TextureFormat, TextureUsages};

#[test]
fn texels_become_little_endian_bytes() {
    let bytes = r32_texture_bytes(&[0x40A0_0000, 1, 0xDEAD_BEEF]);
    assert_eq!(bytes, vec![0x00, 0x00, 0xA0, 0x40, 1, 0, 0, 0, 0xEF, 0xBE, 0xAD, 0xDE]);
}

#[test]
fn texel_bytes_match_f32_encoding() {
    let heights = [0.0f32, -1.5, 3.25, f32::MAX];
    let bits: Vec<u32> = heights.iter().map(|h| h.to_bits()).collect();
    let bytes = r32_texture_bytes(&bits);
    let expected: Vec<u8> = heights.iter().flat_map(|h| h.to_le_bytes()).collect();
    assert_eq!(bytes, expected);
    assert_eq!(bytes.len(), heights.len() * TEXEL_BYTES);
}

#[test]
fn decoding_gives_the_texels_back() {
    let values = [7u32, 0xFFFF_FFFF, 0x0102_0304];
    let bytes = r32_texture_bytes(&values);
    for (i, v) in values.iter().enumerate() {
        let word = u32::from_le_bytes([bytes[4 * i], bytes[4 * i + 1], bytes[4 * i + 2], bytes[4 * i + 3]]);
        assert_eq!(word, *v);
    }
}

#[test]
fn no_texels_no_bytes() {
    assert!(r32_texture_bytes(&[]).is_empty());
    assert!(zeroed_r32_texture_bytes(0).is_empty());
}

#[test]
fn zeroed_texels_are_zero_floats() {
    let bytes = zeroed_r32_texture_bytes(6);
    assert_eq!(bytes.len(), 24);
    assert!(bytes.iter().all(|b| *b == 0));
    assert_eq!(f32::from_le_bytes([bytes[0], bytes[1], bytes[2], bytes[3]]), 0.0);
}

#[test]
fn flow_textures_sit_on_the_cell_edges() {
    let (flow_x, flow_y) = create_flow_textures(2048, 2048);
    assert_eq!((flow_x.width(), flow_x.height()), (2049, 2048));
    assert_eq!((flow_y.width(), flow_y.height()), (2048, 2049));
    for image in [&flow_x, &flow_y] {
        assert_eq!(image.texture_descriptor.format, TextureFormat::R32Float);
        assert!(image.texture_descriptor.usage.contains(TextureUsages::STORAGE_BINDING | TextureUsages::COPY_DST));
        let data = image.data.as_ref().unwrap();
        assert_eq!(data.len(), 2049 * 2048 * 4);
        assert!(data.iter().all(|b| *b == 0));
    }
}

#[test]
fn flow_textures_of_a_rectangle() {
    let (flow_x, flow_y) = create_flow_textures(3, 5);
    assert_eq!((flow_x.width(), flow_x.height()), (4, 5));
    assert_eq!((flow_y.width(), flow_y.height()), (3, 6));
    assert_eq!(flow_x.data.as_ref().unwrap().len(), 4 * 5 * 4);
    assert_eq!(flow_y.data.as_ref().unwrap().len(), 3 * 6 * 4);
}
