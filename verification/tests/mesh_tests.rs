use terrain_water::mesh::{DirectionForTiple, GridPoint, QuadMeshBuilder, TerrainHeightMapMesh};

fn p(x: i128, y: i128, z: i128) -> GridPoint {
    GridPoint { x, y, z }
}

fn orientation(a: GridPoint, b: GridPoint, c: GridPoint) -> i128 {
    let (ax, az, bx, bz, cx, cz) = (a.x as i128, a.z as i128, b.x as i128, b.z as i128, c.x as i128, c.z as i128);
    (bz - az) * (cx - ax) - (bx - ax) * (cz - az)
}

fn check_shape(m: &QuadMeshBuilder) {
    let v = m.vertices();
    let i = m.indices();
    assert_eq!(i.len() % 3, 0);
    for idx in i.iter() {
        assert!((*idx as usize) < v.len());
    }
    for t in i.chunks(3) {
        assert!(orientation(v[t[0] as usize], v[t[1] as usize], v[t[2] as usize]) > 0);
    }
}

#[test]
fn empty_builder() {
    let m = QuadMeshBuilder::empty();
    assert!(m.vertices().is_empty());
    assert!(m.indices().is_empty());
}

#[test]
fn quad_is_two_triangles() {
    let mut m = QuadMeshBuilder::empty();
    m.add_quad(p(1, 0, 2), 3);
    assert_eq!(m.vertices(), &vec![p(2, 0, 4), p(8, 0, 4), p(2, 0, 10), p(8, 0, 10)]);
    assert_eq!(m.indices(), &vec![0, 2, 1, 2, 3, 1]);
    m.add_quad(p(0, 5, 0), 1);
    assert_eq!(m.vertices()[4..], [p(0, 10, 0), p(2, 10, 0), p(0, 10, 2), p(2, 10, 2)]);
    assert_eq!(m.indices()[6..], [4, 6, 5, 6, 7, 5]);
    check_shape(&m);
}

#[test]
fn triple_quads_split_one_edge() {
    let cases = [
        (DirectionForTiple::Up, p(2, 0, 4), vec![0, 2, 4, 0, 4, 1, 4, 3, 1]),
        (DirectionForTiple::Down, p(2, 0, 0), vec![0, 2, 4, 2, 3, 4, 3, 1, 4]),
        (DirectionForTiple::Left, p(4, 0, 2), vec![0, 2, 4, 0, 4, 1, 2, 3, 4]),
        (DirectionForTiple::Right, p(0, 0, 2), vec![0, 4, 1, 4, 3, 1, 4, 2, 3]),
    ];
    for (dir, mid, tris) in cases {
        let mut m = QuadMeshBuilder::empty();
        m.add_triple_divided_quad(p(0, 0, 0), 2, dir);
        assert_eq!(m.vertices().len(), 5);
        assert_eq!(m.vertices()[..4], [p(0, 0, 0), p(4, 0, 0), p(0, 0, 4), p(4, 0, 4)]);
        assert_eq!(m.vertices()[4], mid);
        assert_eq!(m.indices(), &tris);
        check_shape(&m);
    }
}

#[test]
fn negative_width_keeps_the_winding() {
    let mut m = QuadMeshBuilder::empty();
    m.add_quad(p(0, 0, 0), -2);
    m.add_triple_divided_quad(p(0, 0, 0), -2, DirectionForTiple::Up);
    check_shape(&m);
}

#[test]
fn subdivided_quad_without_direction() {
    let mut m = QuadMeshBuilder::empty();
    m.add_subdivided_quad(p(-1, 0, -1), 1, 2, None);
    assert_eq!(m.vertices().len(), 16);
    assert_eq!(m.indices().len(), 24);
    // cells are laid out column by column: (0,0), (0,1), (1,0), (1,1)
    assert_eq!(m.vertices()[0], p(-2, 0, -2));
    assert_eq!(m.vertices()[4], p(-2, 0, 0));
    assert_eq!(m.vertices()[8], p(0, 0, -2));
    assert_eq!(m.vertices()[12], p(0, 0, 0));
    check_shape(&m);
}

#[test]
fn subdivided_quad_with_directions() {
    for (dir, first_triple_corner) in [
        (DirectionForTiple::Up, p(0, 0, 4)),
        (DirectionForTiple::Down, p(0, 0, 0)),
        (DirectionForTiple::Right, p(4, 0, 0)),
        (DirectionForTiple::Left, p(0, 0, 0)),
    ] {
        let mut m = QuadMeshBuilder::empty();
        m.add_subdivided_quad(p(0, 0, 0), 1, 3, Some(dir));
        assert_eq!(m.vertices().len(), 4 * 9 + 3);
        assert_eq!(m.indices().len(), 6 * 6 + 9 * 3);
        // the triple quads come after the six plain quads
        assert_eq!(m.vertices()[24], first_triple_corner);
        check_shape(&m);
    }
}

#[test]
fn single_cell_subdivisions_split_the_inner_edge() {
    let mut m = QuadMeshBuilder::empty();
    m.add_subdivided_quad(p(0, 0, 0), 1, 1, Some(DirectionForTiple::Right));
    // one cell, a triple quad split on its right edge: mid-point (2, 1) in half steps
    assert_eq!(m.vertices().len(), 5);
    assert_eq!(m.vertices()[4], p(2, 0, 1));
    assert_eq!(m.indices(), &vec![0, 2, 4, 0, 4, 1, 2, 3, 4]);
    let mut m = QuadMeshBuilder::empty();
    m.add_subdivided_quad(p(0, 0, 0), 1, 1, Some(DirectionForTiple::Left));
    assert_eq!(m.vertices()[4], p(0, 0, 1));
    assert_eq!(m.indices(), &vec![0, 4, 1, 4, 3, 1, 4, 2, 3]);
}

#[test]
fn base_mesh_of_the_game() {
    let terrain = TerrainHeightMapMesh { smallest_quad: 0.05f32.to_bits(), rings: 5, smallest_quad_count: 160 };
    let m = terrain.create_base_mesh();
    let q = 40usize;
    assert_eq!(m.vertices().len(), 4 * 160 * 160 + 5 * (48 * q * q + 8 * q));
    assert_eq!(m.indices().len(), 6 * 160 * 160 + 5 * (72 * q * q + 24 * q));
    check_shape(&m);
    // the centre starts at minus half its width (in half steps: -160)
    assert_eq!(m.vertices()[0], p(-160, 0, -160));
    // the outermost ring reaches 40 * 2^6 smallest quads from the centre
    let extent = 40 * 64 * 2;
    let max_x = m.vertices().iter().map(|v| v.x).max().unwrap();
    let min_x = m.vertices().iter().map(|v| v.x).min().unwrap();
    let max_z = m.vertices().iter().map(|v| v.z).max().unwrap();
    let min_z = m.vertices().iter().map(|v| v.z).min().unwrap();
    assert_eq!((min_x, max_x, min_z, max_z), (-extent, extent, -extent, extent));
    assert!(m.vertices().iter().all(|v| v.y == 0));
}

#[test]
fn base_mesh_first_ring() {
    let terrain = TerrainHeightMapMesh { smallest_quad: 1.0f32.to_bits(), rings: 1, smallest_quad_count: 4 };
    let m = terrain.create_base_mesh();
    // centre: 16 quads; ring: 4 corner blocks of one quad, 8 side blocks of one triple quad
    assert_eq!(m.vertices().len(), 16 * 4 + 4 * 4 + 8 * 5);
    assert_eq!(m.indices().len(), 16 * 6 + 4 * 6 + 8 * 9);
    check_shape(&m);
    // first ring block: corner at -4 smallest quads, width 2 (half steps: -8, width 4)
    assert_eq!(m.vertices()[64], p(-8, 0, -8));
    assert_eq!(m.vertices()[65], p(-4, 0, -8));
    // second block (column 0, row 1) is a triple quad split on its edge that faces the centre
    assert_eq!(m.vertices()[68], p(-8, 0, -4));
    assert_eq!(m.vertices()[72], p(-4, 0, -2));
}

#[test]
fn base_mesh_without_rings() {
    let terrain = TerrainHeightMapMesh { smallest_quad: 1.0f32.to_bits(), rings: 0, smallest_quad_count: 0 };
    let m = terrain.create_base_mesh();
    assert!(m.vertices().is_empty());
    let terrain = TerrainHeightMapMesh { smallest_quad: 1.0f32.to_bits(), rings: 0, smallest_quad_count: 8 };
    let m = terrain.create_base_mesh();
    assert_eq!(m.vertices().len(), 256);
    check_shape(&m);
}

/// No vertex of the mesh lies inside an edge of a triangle: neighbouring
/// quads of different sizes meet without a crack.
fn check_no_t_junctions(m: &QuadMeshBuilder) {
    let v = m.vertices();
    let mut points: Vec<(i128, i128)> = v.iter().map(|p| (p.x, p.z)).collect();
    points.sort();
    points.dedup();
    for t in m.indices().chunks(3) {
        for (s, e) in [(t[0], t[1]), (t[1], t[2]), (t[2], t[0])] {
            let (a, b) = (v[s as usize], v[e as usize]);
            for &(px, pz) in points.iter() {
                let cross = (b.x - a.x) * (pz - a.z) - (b.z - a.z) * (px - a.x);
                if cross != 0 || (px, pz) == (a.x, a.z) || (px, pz) == (b.x, b.z) {
                    continue;
                }
                let inside_x = (px - a.x) * (px - b.x) <= 0;
                let inside_z = (pz - a.z) * (pz - b.z) <= 0;
                assert!(!(inside_x && inside_z), "vertex ({}, {}) splits edge {:?}-{:?}", px, pz, a, b);
            }
        }
    }
}

#[test]
fn base_mesh_has_no_cracks() {
    for (count, rings) in [(4u8, 3u8), (8, 2), (12, 1)] {
        let terrain = TerrainHeightMapMesh { smallest_quad: 1.0f32.to_bits(), rings, smallest_quad_count: count };
        let m = terrain.create_base_mesh();
        check_shape(&m);
        check_no_t_junctions(&m);
    }
}

#[test]
fn zero_subdivisions_add_nothing() {
    for dir in [None, Some(DirectionForTiple::Up), Some(DirectionForTiple::Down), Some(DirectionForTiple::Left)] {
        let mut m = QuadMeshBuilder::empty();
        m.add_quad(p(0, 0, 0), 1);
        m.add_subdivided_quad(p(0, 0, 0), 1, 0, dir);
        assert_eq!(m.vertices().len(), 4);
        assert_eq!(m.indices().len(), 6);
    }
}

#[test]
fn base_mesh_covers_its_square() {
    // the triangles, all turning the same way, add up to the area of the
    // whole clip-map square (side 2 * count * 2^rings half steps)
    for (count, rings) in [(4u8, 3u8), (8, 2), (12, 1), (160, 2)] {
        let terrain = TerrainHeightMapMesh { smallest_quad: 1.0f32.to_bits(), rings, smallest_quad_count: count };
        let m = terrain.create_base_mesh();
        let v = m.vertices();
        let mut twice_area: i128 = 0;
        for t in m.indices().chunks(3) {
            twice_area += orientation(v[t[0] as usize], v[t[1] as usize], v[t[2] as usize]);
        }
        let side = 2 * (count as i128) * (1i128 << rings);
        assert_eq!(twice_area, 2 * side * side);
        let max = v.iter().map(|p| p.x.abs().max(p.z.abs())).max().unwrap();
        assert_eq!(max as i128, side / 2);
    }
}

#[test]
fn base_mesh_with_the_most_rings() {
    let rings = terrain_water::mesh::MAX_RINGS;
    let terrain = TerrainHeightMapMesh { smallest_quad: 1.0f32.to_bits(), rings, smallest_quad_count: 4 };
    let m = terrain.create_base_mesh();
    let r = rings as usize;
    assert_eq!(m.vertices().len(), 4 * 16 + r * (48 + 8));
    assert_eq!(m.indices().len(), 6 * 16 + r * (72 + 24));
    let max = m.vertices().iter().map(|p| p.x.abs().max(p.z.abs())).max().unwrap();
    // the outermost ring reaches 4 * 2^rings half steps from the centre
    assert_eq!(max, 4i128 << rings);
    assert!(m.vertices().iter().all(|v| v.y == 0));
    assert!(m.indices().iter().all(|&i| (i as usize) < m.vertices().len()));
}
