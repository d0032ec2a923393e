use terrain_water::water::{bind_group_textures, height_texel, swap_textures, HeightTexture, WaterBindGroupsSwap};

#[test]
fn texel_inside_the_texture() {
    assert_eq!(height_texel(0, 0, 2048, 2048), Some((0, 0)));
    assert_eq!(height_texel(1024, 17, 2048, 2048), Some((1024, 17)));
    assert_eq!(height_texel(2047, 2047, 2048, 2048), Some((2047, 2047)));
}

#[test]
fn texel_off_the_texture() {
    assert_eq!(height_texel(-1, 0, 2048, 2048), None);
    assert_eq!(height_texel(0, -1, 2048, 2048), None);
    assert_eq!(height_texel(2048, 0, 2048, 2048), None);
    assert_eq!(height_texel(0, 2048, 2048, 2048), None);
    assert_eq!(height_texel(i64::MAX, 5, 2048, 2048), None);
    assert_eq!(height_texel(5, 5, 0, 2048), None);
}

#[test]
fn world_origin_maps_to_the_grid_centre() {
    // texture coordinate = floor(world * 10 + 1024)
    let u = (0.0f32 * 10.0 + 1024.0).floor() as i64;
    assert_eq!(height_texel(u, u, 2048, 2048), Some((1024, 1024)));
    let far = (-200.0f32 * 10.0 + 1024.0).floor() as i64;
    assert_eq!(height_texel(far, u, 2048, 2048), None);
}

#[test]
fn update_flips_the_bind_group() {
    let mut s = WaterBindGroupsSwap::new();
    assert!(s.0);
    assert_eq!(s.bind_group_index(), 1);
    s.update();
    assert!(!s.0);
    assert_eq!(s.bind_group_index(), 0);
    s.update();
    assert_eq!(s.bind_group_index(), 1);
}

#[test]
fn bind_groups_ping_pong() {
    assert_eq!(bind_group_textures(0), (HeightTexture::A, HeightTexture::B));
    assert_eq!(bind_group_textures(1), (HeightTexture::B, HeightTexture::A));
}

#[test]
fn swapping_twice_restores_the_texture() {
    assert_eq!(swap_textures(HeightTexture::A), HeightTexture::B);
    assert_eq!(swap_textures(HeightTexture::B), HeightTexture::A);
    assert_eq!(swap_textures(swap_textures(HeightTexture::A)), HeightTexture::A);
}

#[test]
fn terrain_shows_the_texture_just_written() {
    let mut swap = WaterBindGroupsSwap::new();
    let mut shown = HeightTexture::A;
    for _ in 0..10 {
        swap.update();
        let (_, written) = bind_group_textures(swap.bind_group_index());
        shown = swap_textures(shown);
        assert_eq!(shown, written);
    }
}
