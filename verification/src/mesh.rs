//! The terrain clip-map mesh: a square of small quads in the centre and rings
//! of ever larger quads around it, with "triple" quads (three triangles) on the
//! edges where a ring meets finer geometry, so that no crack opens there.
//!
//! Positions are kept on an integer lattice. A caller's unit is one lattice
//! step; vertices are stored in half steps, so that the mid-point of a quad's
//! edge, which a triple quad needs, is a lattice point as well.
use vstd::arithmetic::power2::{lemma2_to64, lemma2_to64_rest, lemma_pow2_adds, lemma_pow2_unfold, pow2};
use vstd::prelude::*;

verus! {

/// A lattice point (in the caller's unit for the corners of quads, in half
/// steps for the vertices of a mesh).
#[derive(Clone, Copy, Debug, PartialEq, Eq, Structural)]
pub struct GridPoint {
    pub x: i128,
    pub y: i128,
    pub z: i128,
}

/// The side of a quad whose edge is split in two, where the quad borders finer geometry.
#[derive(Clone, Copy, Debug, PartialEq, Eq, Structural)]
pub enum DirectionForTiple {
    Up,
    Down,
    Left,
    Right,
}

/// What a mesh under construction holds: its vertices (half steps) and its triangle list.
pub struct MeshModel {
    pub vertices: Seq<GridPoint>,
    pub indices: Seq<u32>,
}

/// One element that a builder appends: a plain quad, or a quad of three triangles.
pub enum Piece {
    Quad { bottom_left: GridPoint, width: i128 },
    Triple { bottom_left: GridPoint, width: i128, direction: DirectionForTiple },
}

/// Largest magnitude of a quad's corner coordinate or width that the builder accepts.
pub open spec fn quad_bound() -> int {
    0x1000_0000_0000_0000_0000_0000_0000_0000
}

/// `v` lies in `-bound ..= bound`.
pub open spec fn within(v: int, bound: int) -> bool {
    -bound <= v <= bound
}

/// Every coordinate of `p` lies in `-bound ..= bound`.
pub open spec fn point_within(p: GridPoint, bound: int) -> bool {
    within(p.x as int, bound) && within(p.y as int, bound) && within(p.z as int, bound)
}

/// The mesh vertex `i` half widths right of and `j` half widths above the
/// quad corner `bl` (in x and z; the height stays that of `bl`).
pub open spec fn corner(bl: GridPoint, w: int, i: int, j: int) -> GridPoint {
    GridPoint {
        x: (2 * bl.x + i * w) as i128,
        y: (2 * bl.y) as i128,
        z: (2 * bl.z + j * w) as i128,
    }
}

/// The four corners of a quad, in the order bottom-left, +x, +z, +x+z.
pub open spec fn quad_vertices(bl: GridPoint, w: int) -> Seq<GridPoint> {
    seq![corner(bl, w, 0, 0), corner(bl, w, 2, 0), corner(bl, w, 0, 2), corner(bl, w, 2, 2)]
}

/// The fifth vertex of a triple quad: the mid-point of the split edge.
pub open spec fn split_vertex(bl: GridPoint, w: int, dir: DirectionForTiple) -> GridPoint {
    match dir {
        DirectionForTiple::Up => corner(bl, w, 1, 2),
        DirectionForTiple::Down => corner(bl, w, 1, 0),
        DirectionForTiple::Left => corner(bl, w, 2, 1),
        DirectionForTiple::Right => corner(bl, w, 0, 1),
    }
}

/// The triangles of a plain quad, as positions among its own vertices.
pub open spec fn quad_triangles() -> Seq<int> {
    seq![0, 2, 1, 2, 3, 1]
}

/// The triangles of a triple quad, as positions among its own five vertices.
pub open spec fn triple_triangles(dir: DirectionForTiple) -> Seq<int> {
    match dir {
        DirectionForTiple::Up => seq![0, 2, 4, 0, 4, 1, 4, 3, 1],
        DirectionForTiple::Down => seq![0, 2, 4, 2, 3, 4, 3, 1, 4],
        DirectionForTiple::Left => seq![0, 2, 4, 0, 4, 1, 2, 3, 4],
        DirectionForTiple::Right => seq![0, 4, 1, 4, 3, 1, 4, 2, 3],
    }
}

/// Local triangle positions turned into indices of a vertex buffer that already holds `o` vertices.
pub open spec fn shifted(o: int, local: Seq<int>) -> Seq<u32> {
    local.map_values(|k: int| (o + k) as u32)
}

/// The width of a piece, in lattice steps.
pub open spec fn piece_width(p: Piece) -> i128 {
    match p {
        Piece::Quad { width, .. } => width,
        Piece::Triple { width, .. } => width,
    }
}

/// The bottom-left corner of a piece, in lattice steps.
pub open spec fn piece_corner(p: Piece) -> GridPoint {
    match p {
        Piece::Quad { bottom_left, .. } => bottom_left,
        Piece::Triple { bottom_left, .. } => bottom_left,
    }
}

/// The vertices of a piece, in the order a builder appends them.
pub open spec fn piece_points(p: Piece) -> Seq<GridPoint> {
    match p {
        Piece::Quad { bottom_left, width } => quad_vertices(bottom_left, width as int),
        Piece::Triple { bottom_left, width, direction } => quad_vertices(bottom_left, width as int).push(
            split_vertex(bottom_left, width as int, direction),
        ),
    }
}

/// The triangles of a piece, as positions among its own vertices.
pub open spec fn piece_triangles(p: Piece) -> Seq<int> {
    match p {
        Piece::Quad { .. } => quad_triangles(),
        Piece::Triple { direction, .. } => triple_triangles(direction),
    }
}

/// The mesh after appending one piece.
pub open spec fn apply_piece(m: MeshModel, p: Piece) -> MeshModel {
    let o: int = m.vertices.len() as int;
    MeshModel { vertices: m.vertices + piece_points(p), indices: m.indices + shifted(o, piece_triangles(p)) }
}

/// The mesh after appending pieces in order.
pub open spec fn apply_pieces(m: MeshModel, ps: Seq<Piece>) -> MeshModel
    decreases ps.len(),
{
    if ps.len() == 0 {
        m
    } else {
        apply_piece(apply_pieces(m, ps.drop_last()), ps.last())
    }
}

/// A mesh with no vertices and no triangles.
pub open spec fn empty_mesh() -> MeshModel {
    MeshModel { vertices: Seq::empty(), indices: Seq::empty() }
}

/// Every index names a vertex, and the indices form whole triangles.
pub open spec fn well_formed(m: MeshModel) -> bool {
    &&& m.indices.len() % 3 == 0
    &&& forall|i: int| 0 <= i < m.indices.len() ==> (#[trigger] m.indices[i] as int) < m.vertices.len()
}

/// Twice the signed area of triangle `a b c` seen from above (+y), positive when
/// the triangle turns the same way as every triangle of the terrain mesh.
pub open spec fn orientation(a: GridPoint, b: GridPoint, c: GridPoint) -> int {
    (b.z - a.z) * (c.x - a.x) - (b.x - a.x) * (c.z - a.z)
}

/// Triangle `t` of the mesh turns the terrain's way (positive orientation).
pub open spec fn triangle_wound(m: MeshModel, t: int) -> bool {
    orientation(
        m.vertices[m.indices[3 * t] as int],
        m.vertices[m.indices[3 * t + 1] as int],
        m.vertices[m.indices[3 * t + 2] as int],
    ) > 0
}

/// Every triangle is non-degenerate and all of them turn the same way.
pub open spec fn consistently_wound(m: MeshModel) -> bool {
    forall|t: int| 0 <= t < m.indices.len() / 3 ==> #[trigger] triangle_wound(m, t)
}

/// How many vertices a piece adds.
pub open spec fn piece_vertex_count(p: Piece) -> int {
    match p {
        Piece::Quad { .. } => 4,
        Piece::Triple { .. } => 5,
    }
}

/// The pieces that a builder accepts: coordinates and width small enough for the lattice.
pub open spec fn piece_within(p: Piece) -> bool {
    point_within(piece_corner(p), quad_bound()) && within(piece_width(p) as int, quad_bound())
}

proof fn lemma_corner_exact(bl: GridPoint, w: int, i: int, j: int)
    requires
        point_within(bl, quad_bound()),
        within(w, quad_bound()),
        0 <= i <= 2,
        0 <= j <= 2,
    ensures
        corner(bl, w, i, j).x == 2 * bl.x + i * w,
        corner(bl, w, i, j).y == 2 * bl.y,
        corner(bl, w, i, j).z == 2 * bl.z + j * w,
        within(i * w, 2 * quad_bound()),
        within(j * w, 2 * quad_bound()),
{
    assert(within(i * w, 2 * quad_bound())) by (nonlinear_arith)
        requires
            0 <= i <= 2,
            within(w, quad_bound()),
    ;
    assert(within(j * w, 2 * quad_bound())) by (nonlinear_arith)
        requires
            0 <= j <= 2,
            within(w, quad_bound()),
    ;
}

/// Largest magnitude of a corner coordinate that a subdivided quad accepts.
pub open spec fn subdivision_bound() -> int {
    0x0800_0000_0000_0000_0000_0000_0000_0000
}

/// Largest magnitude of a cell width that a subdivided quad accepts.
pub open spec fn cell_width_bound() -> int {
    0x0008_0000_0000_0000_0000_0000_0000_0000
}

/// Corner of cell `(x, y)` of a grid of cells of width `qw` whose corner is `bl`.
pub open spec fn cell(bl: GridPoint, qw: i128, x: int, y: int) -> GridPoint {
    GridPoint { x: (bl.x + qw * x) as i128, y: bl.y, z: (bl.z + qw * y) as i128 }
}

/// Plain quads for the cells `(x, y_lo) .. (x, y_hi - 1)`, in that order.
pub open spec fn quad_column(bl: GridPoint, qw: i128, x: int, y_lo: int, y_hi: int) -> Seq<Piece>
    decreases y_hi - y_lo,
{
    if y_hi <= y_lo {
        Seq::empty()
    } else {
        quad_column(bl, qw, x, y_lo, y_hi - 1).push(
            Piece::Quad { bottom_left: cell(bl, qw, x, y_hi - 1), width: qw },
        )
    }
}

/// Plain quads for the cells with `x_lo <= x < x_hi` and `y_lo <= y < y_hi`,
/// column after column.
pub open spec fn quad_block(bl: GridPoint, qw: i128, x_lo: int, x_hi: int, y_lo: int, y_hi: int) -> Seq<Piece>
    decreases x_hi - x_lo,
{
    if x_hi <= x_lo {
        Seq::empty()
    } else {
        quad_block(bl, qw, x_lo, x_hi - 1, y_lo, y_hi) + quad_column(bl, qw, x_hi - 1, y_lo, y_hi)
    }
}

/// Triple quads for the cells `(x_lo, y) .. (x_hi - 1, y)`, in that order.
pub open spec fn triple_row(bl: GridPoint, qw: i128, x_lo: int, x_hi: int, y: int, dir: DirectionForTiple) -> Seq<Piece>
    decreases x_hi - x_lo,
{
    if x_hi <= x_lo {
        Seq::empty()
    } else {
        triple_row(bl, qw, x_lo, x_hi - 1, y, dir).push(
            Piece::Triple { bottom_left: cell(bl, qw, x_hi - 1, y), width: qw, direction: dir },
        )
    }
}

/// Triple quads for the cells `(x, y_lo) .. (x, y_hi - 1)`, in that order.
pub open spec fn triple_column(bl: GridPoint, qw: i128, x: int, y_lo: int, y_hi: int, dir: DirectionForTiple) -> Seq<Piece>
    decreases y_hi - y_lo,
{
    if y_hi <= y_lo {
        Seq::empty()
    } else {
        triple_column(bl, qw, x, y_lo, y_hi - 1, dir).push(
            Piece::Triple { bottom_left: cell(bl, qw, x, y_hi - 1), width: qw, direction: dir },
        )
    }
}

/// The pieces of a `d` by `d` grid of cells of width `qw`. Without a direction
/// all cells are plain quads. With one, the cells along that side are triple
/// quads, split on the side that faces away from the grid's centre ring (a
/// grid on the right of the finer area splits its left column, and so on).
pub open spec fn subdivided_pieces(bl: GridPoint, qw: i128, d: int, dir: Option<DirectionForTiple>) -> Seq<Piece> {
    match dir {
        Some(DirectionForTiple::Up) => quad_block(bl, qw, 0, d, 0, d - 1) + triple_row(
            bl,
            qw,
            0,
            d,
            d - 1,
            DirectionForTiple::Up,
        ),
        Some(DirectionForTiple::Down) => quad_block(bl, qw, 0, d, 1, d) + triple_row(
            bl,
            qw,
            0,
            d,
            0,
            DirectionForTiple::Down,
        ),
        Some(DirectionForTiple::Right) => quad_block(bl, qw, 0, d - 1, 0, d) + triple_column(
            bl,
            qw,
            d - 1,
            0,
            d,
            DirectionForTiple::Left,
        ),
        Some(DirectionForTiple::Left) => quad_block(bl, qw, 1, d, 0, d) + triple_column(
            bl,
            qw,
            0,
            0,
            d,
            DirectionForTiple::Right,
        ),
        None => quad_block(bl, qw, 0, d, 0, d),
    }
}

/// How many vertices `subdivided_pieces(_, _, d, dir)` adds.
pub open spec fn subdivided_vertex_count(d: int, dir: Option<DirectionForTiple>) -> int {
    match dir {
        Some(_) => 4 * (d * d) + d,
        None => 4 * (d * d),
    }
}

/// How many indices `subdivided_pieces(_, _, d, dir)` adds.
pub open spec fn subdivided_index_count(d: int, dir: Option<DirectionForTiple>) -> int {
    match dir {
        Some(_) => 6 * (d * d) + 3 * d,
        None => 6 * (d * d),
    }
}

/// Quad width of ring `n` (ring 0 is the centre), in units of the smallest quad.
pub open spec fn ring_scale(n: nat) -> int
    decreases n,
{
    if n == 0 {
        1
    } else {
        2 * ring_scale((n - 1) as nat)
    }
}

/// x (and z) of the corner of ring `n` for a centre of `c` by `c` smallest quads.
pub open spec fn ring_origin(c: int, n: nat) -> int {
    -((c / 4) * ring_scale(n + 1))
}

/// The twelve blocks of a ring, as (column, row, split direction), in the
/// order the ring is laid out; the four middle blocks are the ring's hole.
pub open spec fn ring_layout(k: int) -> (int, int, Option<DirectionForTiple>) {
    if k == 0 {
        (0, 0, None)
    } else if k == 1 {
        (0, 1, Some(DirectionForTiple::Right))
    } else if k == 2 {
        (0, 2, Some(DirectionForTiple::Right))
    } else if k == 3 {
        (0, 3, None)
    } else if k == 4 {
        (1, 0, Some(DirectionForTiple::Up))
    } else if k == 5 {
        (1, 3, Some(DirectionForTiple::Down))
    } else if k == 6 {
        (2, 0, Some(DirectionForTiple::Up))
    } else if k == 7 {
        (2, 3, Some(DirectionForTiple::Down))
    } else if k == 8 {
        (3, 0, None)
    } else if k == 9 {
        (3, 1, Some(DirectionForTiple::Left))
    } else if k == 10 {
        (3, 2, Some(DirectionForTiple::Left))
    } else {
        (3, 3, None)
    }
}

/// Corner of block `k` of ring `n`.
pub open spec fn ring_block_corner(c: int, n: nat, k: int) -> GridPoint {
    let o: int = ring_origin(c, n);
    GridPoint {
        x: (o + ring_scale(n) * ring_layout(k).0 * (c / 4)) as i128,
        y: 0,
        z: (o + ring_scale(n) * ring_layout(k).1 * (c / 4)) as i128,
    }
}

/// The pieces of the first `k` blocks of ring `n`.
pub open spec fn ring_prefix(c: int, n: nat, k: int) -> Seq<Piece>
    decreases k,
{
    if k <= 0 {
        Seq::empty()
    } else {
        ring_prefix(c, n, k - 1) + subdivided_pieces(
            ring_block_corner(c, n, k - 1),
            ring_scale(n) as i128,
            c / 4,
            ring_layout(k - 1).2,
        )
    }
}

/// The pieces of rings `1 ..= n`, innermost first.
pub open spec fn rings_pieces(c: int, n: nat) -> Seq<Piece>
    decreases n,
{
    if n == 0 {
        Seq::empty()
    } else {
        rings_pieces(c, (n - 1) as nat) + ring_prefix(c, n, 12)
    }
}

/// Corner of the centre grid of `c` by `c` smallest quads.
pub open spec fn centre_corner(c: int) -> GridPoint {
    GridPoint { x: (-(c / 2)) as i128, y: 0, z: (-(c / 2)) as i128 }
}

/// The pieces of the centre grid: `c` by `c` plain quads of the smallest width.
pub open spec fn centre_pieces(c: int) -> Seq<Piece> {
    subdivided_pieces(centre_corner(c), 1, c, None)
}

/// The pieces of the whole clip-map: the centre grid, then each ring.
pub open spec fn base_mesh_pieces(c: int, rings: nat) -> Seq<Piece> {
    centre_pieces(c) + rings_pieces(c, rings)
}

/// Vertices that the first `k` blocks of a ring add, `q` cells per block side.
pub open spec fn ring_prefix_vertex_count(q: int, k: int) -> int
    decreases k,
{
    if k <= 0 {
        0
    } else {
        ring_prefix_vertex_count(q, k - 1) + subdivided_vertex_count(q, ring_layout(k - 1).2)
    }
}

/// Indices that the first `k` blocks of a ring add, `q` cells per block side.
pub open spec fn ring_prefix_index_count(q: int, k: int) -> int
    decreases k,
{
    if k <= 0 {
        0
    } else {
        ring_prefix_index_count(q, k - 1) + subdivided_index_count(q, ring_layout(k - 1).2)
    }
}

proof fn lemma_ring_scale(n: nat, m: nat)
    requires
        n <= m,
    ensures
        1 <= ring_scale(n) <= ring_scale(m),
    decreases m,
{
    if n < m {
        lemma_ring_scale(n, (m - 1) as nat);
    } else if n > 0 {
        lemma_ring_scale((n - 1) as nat, (n - 1) as nat);
    }
}

proof fn lemma_ring_scale_top()
    ensures
        ring_scale(114) == 0x4_0000_0000_0000_0000_0000_0000_0000,
        ring_scale(115) == 0x8_0000_0000_0000_0000_0000_0000_0000,
{
    lemma_ring_scale_is_pow2(114);
    lemma_ring_scale_is_pow2(115);
    lemma2_to64();
    lemma2_to64_rest();
    lemma_pow2_adds(64, 50);
    lemma_pow2_adds(64, 51);
    assert(pow2(64) * pow2(50) == 0x4_0000_0000_0000_0000_0000_0000_0000);
    assert(pow2(64) * pow2(51) == 0x8_0000_0000_0000_0000_0000_0000_0000);
}

proof fn lemma_ring_vertex_count(q: int, k: int)
    requires
        0 <= q,
        0 <= k <= 12,
    ensures
        0 <= ring_prefix_vertex_count(q, k) <= 48 * (q * q) + 8 * q,
        k == 12 ==> ring_prefix_vertex_count(q, k) == 48 * (q * q) + 8 * q,
        k == 12 ==> ring_prefix_index_count(q, k) == 72 * (q * q) + 24 * q,
{
    assert(q * q >= 0) by (nonlinear_arith)
        requires
            0 <= q,
    ;
    reveal_with_fuel(ring_prefix_vertex_count, 13);
    reveal_with_fuel(ring_prefix_index_count, 13);
}

/// Appending pieces one more piece at a time.
pub proof fn lemma_apply_push(m: MeshModel, ps: Seq<Piece>, p: Piece)
    ensures
        apply_pieces(m, ps.push(p)) == apply_piece(apply_pieces(m, ps), p),
{
    assert(ps.push(p).drop_last() =~= ps);
}

/// Appending pieces keeps the vertices and indices already there, in place.
pub proof fn lemma_apply_pieces_keeps_prefix(m: MeshModel, ps: Seq<Piece>)
    ensures
        apply_pieces(m, ps).vertices.len() >= m.vertices.len(),
        apply_pieces(m, ps).indices.len() >= m.indices.len(),
        apply_pieces(m, ps).vertices.subrange(0, m.vertices.len() as int) == m.vertices,
        apply_pieces(m, ps).indices.subrange(0, m.indices.len() as int) == m.indices,
    decreases ps.len(),
{
    if ps.len() > 0 {
        let prev = apply_pieces(m, ps.drop_last());
        lemma_apply_pieces_keeps_prefix(m, ps.drop_last());
        let next = apply_piece(prev, ps.last());
        assert(next.vertices.subrange(0, prev.vertices.len() as int) =~= prev.vertices);
        assert(next.indices.subrange(0, prev.indices.len() as int) =~= prev.indices);
        assert(next.vertices.subrange(0, m.vertices.len() as int) =~= prev.vertices.subrange(
            0,
            m.vertices.len() as int,
        ));
        assert(next.indices.subrange(0, m.indices.len() as int) =~= prev.indices.subrange(
            0,
            m.indices.len() as int,
        ));
    }
}

/// Appending two runs of pieces is appending the first, then the second.
pub proof fn lemma_apply_concat(m: MeshModel, a: Seq<Piece>, b: Seq<Piece>)
    ensures
        apply_pieces(m, a + b) == apply_pieces(apply_pieces(m, a), b),
    decreases b.len(),
{
    if b.len() == 0 {
        assert(a + b =~= a);
    } else {
        lemma_apply_concat(m, a, b.drop_last());
        assert((a + b).drop_last() =~= a + b.drop_last());
        assert((a + b).last() == b.last());
    }
}

proof fn lemma_scaled_difference(a: int, b: int, w: int)
    ensures
        a * w - b * w == (a - b) * w,
{
    assert(a * w - b * w == (a - b) * w) by (nonlinear_arith);
}

proof fn lemma_scaled_product(p: int, q: int, w: int)
    ensures
        (p * w) * (q * w) == (p * q) * (w * w),
{
    assert((p * w) * (q * w) == (p * q) * (w * w)) by (nonlinear_arith);
}

proof fn lemma_corner_orientation(bl: GridPoint, w: int, ai: int, aj: int, bi: int, bj: int, ci: int, cj: int)
    requires
        point_within(bl, quad_bound()),
        within(w, quad_bound()),
        w != 0,
        0 <= ai <= 2,
        0 <= aj <= 2,
        0 <= bi <= 2,
        0 <= bj <= 2,
        0 <= ci <= 2,
        0 <= cj <= 2,
        (bj - aj) * (ci - ai) - (bi - ai) * (cj - aj) > 0,
    ensures
        orientation(corner(bl, w, ai, aj), corner(bl, w, bi, bj), corner(bl, w, ci, cj)) > 0,
{
    lemma_corner_exact(bl, w, ai, aj);
    lemma_corner_exact(bl, w, bi, bj);
    lemma_corner_exact(bl, w, ci, cj);
    let k: int = (bj - aj) * (ci - ai) - (bi - ai) * (cj - aj);
    lemma_scaled_difference(bj, aj, w);
    lemma_scaled_difference(ci, ai, w);
    lemma_scaled_difference(bi, ai, w);
    lemma_scaled_difference(cj, aj, w);
    lemma_scaled_product(bj - aj, ci - ai, w);
    lemma_scaled_product(bi - ai, cj - aj, w);
    let a = corner(bl, w, ai, aj);
    let b = corner(bl, w, bi, bj);
    let c = corner(bl, w, ci, cj);
    assert(b.z - a.z == (bj - aj) * w);
    assert(c.x - a.x == (ci - ai) * w);
    assert(b.x - a.x == (bi - ai) * w);
    assert(c.z - a.z == (cj - aj) * w);
    lemma_scaled_difference((bj - aj) * (ci - ai), (bi - ai) * (cj - aj), w * w);
    assert(orientation(a, b, c) == k * (w * w));
    assert(k * (w * w) > 0) by (nonlinear_arith)
        requires
            k > 0,
            w != 0,
    ;
}

/// Appending a piece keeps a mesh well formed, and, when the piece has a
/// non-zero width, keeps every triangle turning the same way.
pub proof fn lemma_apply_piece_shape(m: MeshModel, p: Piece)
    requires
        well_formed(m),
        piece_within(p),
        m.vertices.len() + piece_vertex_count(p) <= 0x1_0000_0000,
    ensures
        well_formed(apply_piece(m, p)),
        apply_piece(m, p).vertices.len() == m.vertices.len() + piece_vertex_count(p),
        apply_piece(m, p).vertices.subrange(0, m.vertices.len() as int) == m.vertices,
        apply_piece(m, p).indices.subrange(0, m.indices.len() as int) == m.indices,
        consistently_wound(m) && piece_width(p) != 0 ==> consistently_wound(apply_piece(m, p)),
{
    let n = apply_piece(m, p);
    let o: int = m.vertices.len() as int;
    let bl = piece_corner(p);
    let w: int = piece_width(p) as int;
    let local = match p {
        Piece::Quad { .. } => quad_triangles(),
        Piece::Triple { direction, .. } => triple_triangles(direction),
    };
    assert(n.indices == m.indices + shifted(o, local));
    assert forall|i: int| 0 <= i < local.len() implies 0 <= #[trigger] local[i] < piece_vertex_count(p) by {
        match p {
            Piece::Quad { .. } => {},
            Piece::Triple { direction, .. } => {
                match direction {
                    DirectionForTiple::Up => {},
                    DirectionForTiple::Down => {},
                    DirectionForTiple::Left => {},
                    DirectionForTiple::Right => {},
                }
            },
        }
    }
    assert forall|i: int| 0 <= i < n.indices.len() implies (#[trigger] n.indices[i] as int) < n.vertices.len() by {
        if i >= m.indices.len() {
            let k: int = local[i - m.indices.len()];
            assert(n.indices[i] == (o + k) as u32);
        }
    }
    assert(n.vertices.subrange(0, o) =~= m.vertices);
    assert(n.indices.subrange(0, m.indices.len() as int) =~= m.indices);
    if consistently_wound(m) && w != 0 {
        let t0: int = m.indices.len() as int / 3;
        let vs = match p {
            Piece::Quad { .. } => quad_vertices(bl, w),
            Piece::Triple { direction, .. } => quad_vertices(bl, w).push(split_vertex(bl, w, direction)),
        };
        assert(n.vertices == m.vertices + vs);
        assert forall|t: int| 0 <= t < n.indices.len() / 3 implies #[trigger] triangle_wound(n, t) by {
            if t < t0 {
                assert(triangle_wound(m, t));
                assert(n.indices[3 * t] == m.indices[3 * t]);
                assert(n.indices[3 * t + 1] == m.indices[3 * t + 1]);
                assert(n.indices[3 * t + 2] == m.indices[3 * t + 2]);
                assert(n.vertices[m.indices[3 * t] as int] == m.vertices[m.indices[3 * t] as int]);
                assert(n.vertices[m.indices[3 * t + 1] as int] == m.vertices[m.indices[3 * t + 1] as int]);
                assert(n.vertices[m.indices[3 * t + 2] as int] == m.vertices[m.indices[3 * t + 2] as int]);
            } else {
                let j: int = t - t0;
                let base: int = m.indices.len() as int;
                assert(3 * t == base + 3 * j);
                let la: int = local[3 * j];
                let lb: int = local[3 * j + 1];
                let lc: int = local[3 * j + 2];
                assert(n.indices[3 * t] as int == o + la);
                assert(n.indices[3 * t + 1] as int == o + lb);
                assert(n.indices[3 * t + 2] as int == o + lc);
                assert(n.vertices[o + la] == vs[la]);
                assert(n.vertices[o + lb] == vs[lb]);
                assert(n.vertices[o + lc] == vs[lc]);
                match p {
                    Piece::Quad { .. } => {
                        if j == 0 {
                            lemma_corner_orientation(bl, w, 0, 0, 0, 2, 2, 0);
                        } else {
                            lemma_corner_orientation(bl, w, 0, 2, 2, 2, 2, 0);
                        }
                    },
                    Piece::Triple { direction, .. } => {
                        match direction {
                            DirectionForTiple::Up => {
                                if j == 0 {
                                    lemma_corner_orientation(bl, w, 0, 0, 0, 2, 1, 2);
                                } else if j == 1 {
                                    lemma_corner_orientation(bl, w, 0, 0, 1, 2, 2, 0);
                                } else {
                                    lemma_corner_orientation(bl, w, 1, 2, 2, 2, 2, 0);
                                }
                            },
                            DirectionForTiple::Down => {
                                if j == 0 {
                                    lemma_corner_orientation(bl, w, 0, 0, 0, 2, 1, 0);
                                } else if j == 1 {
                                    lemma_corner_orientation(bl, w, 0, 2, 2, 2, 1, 0);
                                } else {
                                    lemma_corner_orientation(bl, w, 2, 2, 2, 0, 1, 0);
                                }
                            },
                            DirectionForTiple::Left => {
                                if j == 0 {
                                    lemma_corner_orientation(bl, w, 0, 0, 0, 2, 2, 1);
                                } else if j == 1 {
                                    lemma_corner_orientation(bl, w, 0, 0, 2, 1, 2, 0);
                                } else {
                                    lemma_corner_orientation(bl, w, 0, 2, 2, 2, 2, 1);
                                }
                            },
                            DirectionForTiple::Right => {
                                if j == 0 {
                                    lemma_corner_orientation(bl, w, 0, 0, 0, 1, 2, 0);
                                } else if j == 1 {
                                    lemma_corner_orientation(bl, w, 0, 1, 2, 2, 2, 0);
                                } else {
                                    lemma_corner_orientation(bl, w, 0, 1, 0, 2, 2, 2);
                                }
                            },
                        }
                    },
                }
            }
        }
    }
}


/// Builds a triangle list of quads. Vertices are in half steps of the
/// caller's unit; indices are `u32`, as an index buffer holds them.
pub struct QuadMeshBuilder {
    vertices: Vec<GridPoint>,
    indices: Vec<u32>,
}

impl View for QuadMeshBuilder {
    type V = MeshModel;

    closed spec fn view(&self) -> MeshModel {
        MeshModel { vertices: self.vertices@, indices: self.indices@ }
    }
}

impl QuadMeshBuilder {
    /// A builder holding no vertex and no triangle.
    pub fn empty() -> (b: QuadMeshBuilder)
        ensures
            b@ == empty_mesh(),
            well_formed(b@),
            consistently_wound(b@),
    {
        let b = QuadMeshBuilder { vertices: Vec::new(), indices: Vec::new() };
        assert(b@.vertices =~= Seq::<GridPoint>::empty());
        assert(b@.indices =~= Seq::<u32>::empty());
        b
    }

    /// The vertices so far, in half steps.
    pub fn vertices(&self) -> (v: &Vec<GridPoint>)
        ensures
            v@ == self@.vertices,
    {
        &self.vertices
    }

    /// The triangle list so far.
    pub fn indices(&self) -> (i: &Vec<u32>)
        ensures
            i@ == self@.indices,
    {
        &self.indices
    }

    fn push_corner(&mut self, bl: GridPoint, w: i128, i: i128, j: i128)
        requires
            point_within(bl, quad_bound()),
            within(w as int, quad_bound()),
            0 <= i <= 2,
            0 <= j <= 2,
        ensures
            final(self)@.vertices == old(self)@.vertices.push(corner(bl, w as int, i as int, j as int)),
            final(self)@.indices == old(self)@.indices,
    {
        proof {
            lemma_corner_exact(bl, w as int, i as int, j as int);
        }
        self.vertices.push(GridPoint { x: 2 * bl.x + i * w, y: 2 * bl.y, z: 2 * bl.z + j * w });
    }

    fn push_triangle(&mut self, o: u32, a: u32, b: u32, c: u32)
        requires
            o + a <= u32::MAX,
            o + b <= u32::MAX,
            o + c <= u32::MAX,
        ensures
            final(self)@.vertices == old(self)@.vertices,
            final(self)@.indices == old(self)@.indices.push((o + a) as u32).push((o + b) as u32).push(
                (o + c) as u32,
            ),
    {
        self.indices.push(o + a);
        self.indices.push(o + b);
        self.indices.push(o + c);
    }

    /// Appends a quad of two triangles with corner `bottom_left` and side `width`.
    pub fn add_quad(&mut self, bottom_left: GridPoint, width: i128)
        requires
            piece_within(Piece::Quad { bottom_left, width }),
            old(self)@.vertices.len() + 4 <= 0x1_0000_0000,
        ensures
            final(self)@ == apply_piece(old(self)@, Piece::Quad { bottom_left, width }),
            final(self)@.vertices.len() == old(self)@.vertices.len() + 4,
            final(self)@.indices.len() == old(self)@.indices.len() + 6,
            final(self)@.vertices.subrange(0, old(self)@.vertices.len() as int) == old(self)@.vertices,
            final(self)@.indices.subrange(0, old(self)@.indices.len() as int) == old(self)@.indices,
            well_formed(old(self)@) ==> well_formed(final(self)@),
            well_formed(old(self)@) && consistently_wound(old(self)@) && width != 0 ==> consistently_wound(
                final(self)@,
            ),
    {
        let ghost m = self@;
        let o: u32 = self.vertices.len() as u32;
        self.push_corner(bottom_left, width, 0, 0);
        self.push_corner(bottom_left, width, 2, 0);
        self.push_corner(bottom_left, width, 0, 2);
        self.push_corner(bottom_left, width, 2, 2);
        self.push_triangle(o, 0, 2, 1);
        self.push_triangle(o, 2, 3, 1);
        proof {
            let p = Piece::Quad { bottom_left, width };
            assert(self@.vertices =~= apply_piece(m, p).vertices);
            assert(self@.indices =~= apply_piece(m, p).indices);
            assert(self@.vertices.subrange(0, m.vertices.len() as int) =~= m.vertices);
            assert(self@.indices.subrange(0, m.indices.len() as int) =~= m.indices);
            if well_formed(m) {
                lemma_apply_piece_shape(m, p);
            }
        }
    }

    /// Appends a quad of three triangles whose `direction_for_triple` edge is
    /// split at its mid-point, so that it meets two quads of half the width.
    pub fn add_triple_divided_quad(
        &mut self,
        bottom_left: GridPoint,
        width: i128,
        direction_for_triple: DirectionForTiple,
    )
        requires
            piece_within(Piece::Triple { bottom_left, width, direction: direction_for_triple }),
            old(self)@.vertices.len() + 5 <= 0x1_0000_0000,
        ensures
            final(self)@ == apply_piece(
                old(self)@,
                Piece::Triple { bottom_left, width, direction: direction_for_triple },
            ),
            final(self)@.vertices.len() == old(self)@.vertices.len() + 5,
            final(self)@.indices.len() == old(self)@.indices.len() + 9,
            final(self)@.vertices.subrange(0, old(self)@.vertices.len() as int) == old(self)@.vertices,
            final(self)@.indices.subrange(0, old(self)@.indices.len() as int) == old(self)@.indices,
            well_formed(old(self)@) ==> well_formed(final(self)@),
            well_formed(old(self)@) && consistently_wound(old(self)@) && width != 0 ==> consistently_wound(
                final(self)@,
            ),
    {
        let ghost m = self@;
        let o: u32 = self.vertices.len() as u32;
        self.push_corner(bottom_left, width, 0, 0);
        self.push_corner(bottom_left, width, 2, 0);
        self.push_corner(bottom_left, width, 0, 2);
        self.push_corner(bottom_left, width, 2, 2);
        match direction_for_triple {
            DirectionForTiple::Up => {
                self.push_corner(bottom_left, width, 1, 2);
                self.push_triangle(o, 0, 2, 4);
                self.push_triangle(o, 0, 4, 1);
                self.push_triangle(o, 4, 3, 1);
            },
            DirectionForTiple::Down => {
                self.push_corner(bottom_left, width, 1, 0);
                self.push_triangle(o, 0, 2, 4);
                self.push_triangle(o, 2, 3, 4);
                self.push_triangle(o, 3, 1, 4);
            },
            DirectionForTiple::Left => {
                self.push_corner(bottom_left, width, 2, 1);
                self.push_triangle(o, 0, 2, 4);
                self.push_triangle(o, 0, 4, 1);
                self.push_triangle(o, 2, 3, 4);
            },
            DirectionForTiple::Right => {
                self.push_corner(bottom_left, width, 0, 1);
                self.push_triangle(o, 0, 4, 1);
                self.push_triangle(o, 4, 3, 1);
                self.push_triangle(o, 4, 2, 3);
            },
        }
        proof {
            let p = Piece::Triple { bottom_left, width, direction: direction_for_triple };
            assert(self@.vertices =~= apply_piece(m, p).vertices);
            assert(self@.indices =~= apply_piece(m, p).indices);
            assert(self@.vertices.subrange(0, m.vertices.len() as int) =~= m.vertices);
            assert(self@.indices.subrange(0, m.indices.len() as int) =~= m.indices);
            if well_formed(m) {
                lemma_apply_piece_shape(m, p);
            }
        }
    }

    fn cell_at(bl: GridPoint, qw: i128, x: u8, y: u8) -> (p: GridPoint)
        requires
            point_within(bl, subdivision_bound()),
            within(qw as int, cell_width_bound()),
        ensures
            p == cell(bl, qw, x as int, y as int),
            p.x == bl.x + qw * x,
            p.y == bl.y,
            p.z == bl.z + qw * y,
            point_within(p, quad_bound()),
    {
        assert(within(qw * x, subdivision_bound())) by (nonlinear_arith)
            requires
                within(qw as int, cell_width_bound()),
                0 <= x <= 255,
        ;
        assert(within(qw * y, subdivision_bound())) by (nonlinear_arith)
            requires
                within(qw as int, cell_width_bound()),
                0 <= y <= 255,
        ;
        GridPoint { x: bl.x + qw * (x as i128), y: bl.y, z: bl.z + qw * (y as i128) }
    }

    /// Plain quads for the cells `x_lo <= x < x_hi`, `y_lo <= y < y_hi`, column after column.
    fn add_quad_block(&mut self, bl: GridPoint, qw: i128, x_lo: u8, x_hi: u8, y_lo: u8, y_hi: u8)
        requires
            point_within(bl, subdivision_bound()),
            within(qw as int, cell_width_bound()),
            x_lo <= x_hi,
            y_lo <= y_hi,
            old(self)@.vertices.len() + 4 * ((x_hi - x_lo) * (y_hi - y_lo)) <= 0x1_0000_0000,
        ensures
            final(self)@ == apply_pieces(
                old(self)@,
                quad_block(bl, qw, x_lo as int, x_hi as int, y_lo as int, y_hi as int),
            ),
            final(self)@.vertices.len() == old(self)@.vertices.len() + 4 * ((x_hi - x_lo) * (y_hi - y_lo)),
            final(self)@.indices.len() == old(self)@.indices.len() + 6 * ((x_hi - x_lo) * (y_hi - y_lo)),
            well_formed(old(self)@) ==> well_formed(final(self)@),
            well_formed(old(self)@) && consistently_wound(old(self)@) && qw != 0 ==> consistently_wound(
                final(self)@,
            ),
    {
        let ghost m = self@;
        let ghost rows: int = (y_hi - y_lo) as int;
        let mut x: u8 = x_lo;
        assert(quad_block(bl, qw, x_lo as int, x_lo as int, y_lo as int, y_hi as int) =~= Seq::empty());
        while x < x_hi
            invariant
                point_within(bl, subdivision_bound()),
                within(qw as int, cell_width_bound()),
                x_lo <= x <= x_hi,
                y_lo <= y_hi,
                rows == y_hi - y_lo,
                m.vertices.len() + 4 * ((x_hi - x_lo) * rows) <= 0x1_0000_0000,
                self@ == apply_pieces(m, quad_block(bl, qw, x_lo as int, x as int, y_lo as int, y_hi as int)),
                self@.vertices.len() == m.vertices.len() + 4 * ((x - x_lo) * rows),
                self@.indices.len() == m.indices.len() + 6 * ((x - x_lo) * rows),
                well_formed(m) ==> well_formed(self@),
                well_formed(m) && consistently_wound(m) && qw != 0 ==> consistently_wound(self@),
            decreases x_hi - x,
        {
            let ghost done = quad_block(bl, qw, x_lo as int, x as int, y_lo as int, y_hi as int);
            let mut y: u8 = y_lo;
            assert(done + quad_column(bl, qw, x as int, y_lo as int, y_lo as int) =~= done);
            while y < y_hi
                invariant
                    point_within(bl, subdivision_bound()),
                    within(qw as int, cell_width_bound()),
                    x_lo <= x < x_hi,
                    y_lo <= y <= y_hi,
                    rows == y_hi - y_lo,
                    m.vertices.len() + 4 * ((x_hi - x_lo) * rows) <= 0x1_0000_0000,
                    done == quad_block(bl, qw, x_lo as int, x as int, y_lo as int, y_hi as int),
                    self@ == apply_pieces(m, done + quad_column(bl, qw, x as int, y_lo as int, y as int)),
                    self@.vertices.len() == m.vertices.len() + 4 * ((x - x_lo) * rows) + 4 * (y - y_lo),
                    self@.indices.len() == m.indices.len() + 6 * ((x - x_lo) * rows) + 6 * (y - y_lo),
                    well_formed(m) ==> well_formed(self@),
                    well_formed(m) && consistently_wound(m) && qw != 0 ==> consistently_wound(self@),
                decreases y_hi - y,
            {
                assert((x - x_lo) * rows + (y - y_lo) + 1 <= (x_hi - x_lo) * rows) by (nonlinear_arith)
                    requires
                        x_lo <= x < x_hi,
                        y_lo <= y < y_hi,
                        rows == y_hi - y_lo,
                ;
                let p = Self::cell_at(bl, qw, x, y);
                let ghost before = done + quad_column(bl, qw, x as int, y_lo as int, y as int);
                self.add_quad(p, qw);
                proof {
                    let piece = Piece::Quad { bottom_left: p, width: qw };
                    lemma_apply_push(m, before, piece);
                    assert(done + quad_column(bl, qw, x as int, y_lo as int, y + 1) =~= before.push(piece));
                }
                y = y + 1;
            }
            proof {
                assert(quad_block(bl, qw, x_lo as int, x + 1, y_lo as int, y_hi as int) == done
                    + quad_column(bl, qw, x as int, y_lo as int, y_hi as int));
                assert((x - x_lo) * rows + rows == (x + 1 - x_lo) * rows) by (nonlinear_arith);
            }
            x = x + 1;
        }
    }

    /// Triple quads split towards `dir` for the cells `x_lo <= x < x_hi` of row `y`.
    fn add_triple_row(&mut self, bl: GridPoint, qw: i128, x_lo: u8, x_hi: u8, y: u8, dir: DirectionForTiple)
        requires
            point_within(bl, subdivision_bound()),
            within(qw as int, cell_width_bound()),
            x_lo <= x_hi,
            old(self)@.vertices.len() + 5 * (x_hi - x_lo) <= 0x1_0000_0000,
        ensures
            final(self)@ == apply_pieces(old(self)@, triple_row(bl, qw, x_lo as int, x_hi as int, y as int, dir)),
            final(self)@.vertices.len() == old(self)@.vertices.len() + 5 * (x_hi - x_lo),
            final(self)@.indices.len() == old(self)@.indices.len() + 9 * (x_hi - x_lo),
            well_formed(old(self)@) ==> well_formed(final(self)@),
            well_formed(old(self)@) && consistently_wound(old(self)@) && qw != 0 ==> consistently_wound(
                final(self)@,
            ),
    {
        let ghost m = self@;
        let mut x: u8 = x_lo;
        assert(triple_row(bl, qw, x_lo as int, x_lo as int, y as int, dir) =~= Seq::empty());
        while x < x_hi
            invariant
                point_within(bl, subdivision_bound()),
                within(qw as int, cell_width_bound()),
                x_lo <= x <= x_hi,
                m.vertices.len() + 5 * (x_hi - x_lo) <= 0x1_0000_0000,
                self@ == apply_pieces(m, triple_row(bl, qw, x_lo as int, x as int, y as int, dir)),
                self@.vertices.len() == m.vertices.len() + 5 * (x - x_lo),
                self@.indices.len() == m.indices.len() + 9 * (x - x_lo),
                well_formed(m) ==> well_formed(self@),
                well_formed(m) && consistently_wound(m) && qw != 0 ==> consistently_wound(self@),
            decreases x_hi - x,
        {
            let p = Self::cell_at(bl, qw, x, y);
            self.add_triple_divided_quad(p, qw, dir);
            proof {
                let piece = Piece::Triple { bottom_left: p, width: qw, direction: dir };
                lemma_apply_push(m, triple_row(bl, qw, x_lo as int, x as int, y as int, dir), piece);
            }
            x = x + 1;
        }
    }

    /// Triple quads split towards `dir` for the cells `y_lo <= y < y_hi` of column `x`.
    fn add_triple_column(&mut self, bl: GridPoint, qw: i128, x: u8, y_lo: u8, y_hi: u8, dir: DirectionForTiple)
        requires
            point_within(bl, subdivision_bound()),
            within(qw as int, cell_width_bound()),
            y_lo <= y_hi,
            old(self)@.vertices.len() + 5 * (y_hi - y_lo) <= 0x1_0000_0000,
        ensures
            final(self)@ == apply_pieces(
                old(self)@,
                triple_column(bl, qw, x as int, y_lo as int, y_hi as int, dir),
            ),
            final(self)@.vertices.len() == old(self)@.vertices.len() + 5 * (y_hi - y_lo),
            final(self)@.indices.len() == old(self)@.indices.len() + 9 * (y_hi - y_lo),
            well_formed(old(self)@) ==> well_formed(final(self)@),
            well_formed(old(self)@) && consistently_wound(old(self)@) && qw != 0 ==> consistently_wound(
                final(self)@,
            ),
    {
        let ghost m = self@;
        let mut y: u8 = y_lo;
        assert(triple_column(bl, qw, x as int, y_lo as int, y_lo as int, dir) =~= Seq::empty());
        while y < y_hi
            invariant
                point_within(bl, subdivision_bound()),
                within(qw as int, cell_width_bound()),
                y_lo <= y <= y_hi,
                m.vertices.len() + 5 * (y_hi - y_lo) <= 0x1_0000_0000,
                self@ == apply_pieces(m, triple_column(bl, qw, x as int, y_lo as int, y as int, dir)),
                self@.vertices.len() == m.vertices.len() + 5 * (y - y_lo),
                self@.indices.len() == m.indices.len() + 9 * (y - y_lo),
                well_formed(m) ==> well_formed(self@),
                well_formed(m) && consistently_wound(m) && qw != 0 ==> consistently_wound(self@),
            decreases y_hi - y,
        {
            let p = Self::cell_at(bl, qw, x, y);
            self.add_triple_divided_quad(p, qw, dir);
            proof {
                let piece = Piece::Triple { bottom_left: p, width: qw, direction: dir };
                lemma_apply_push(m, triple_column(bl, qw, x as int, y_lo as int, y as int, dir), piece);
            }
            y = y + 1;
        }
    }

    /// Appends a `divisions` by `divisions` grid of quads of width
    /// `quad_width` whose corner is `bottom_left`. With a direction, the cells
    /// on one side become triple quads (see `subdivided_pieces`).
    pub fn add_subdivided_quad(
        &mut self,
        bottom_left: GridPoint,
        quad_width: i128,
        divisions: u8,
        direction_for_triple: Option<DirectionForTiple>,
    )
        requires
            point_within(bottom_left, subdivision_bound()),
            within(quad_width as int, cell_width_bound()),
            direction_for_triple == Some(DirectionForTiple::Right) ==> divisions >= 1,
            old(self)@.vertices.len() + subdivided_vertex_count(divisions as int, direction_for_triple)
                <= 0x1_0000_0000,
        ensures
            final(self)@ == apply_pieces(
                old(self)@,
                subdivided_pieces(bottom_left, quad_width, divisions as int, direction_for_triple),
            ),
            final(self)@.vertices.len() == old(self)@.vertices.len() + subdivided_vertex_count(
                divisions as int,
                direction_for_triple,
            ),
            final(self)@.indices.len() == old(self)@.indices.len() + subdivided_index_count(
                divisions as int,
                direction_for_triple,
            ),
            final(self)@.vertices.subrange(0, old(self)@.vertices.len() as int) == old(self)@.vertices,
            final(self)@.indices.subrange(0, old(self)@.indices.len() as int) == old(self)@.indices,
            well_formed(old(self)@) ==> well_formed(final(self)@),
            well_formed(old(self)@) && consistently_wound(old(self)@) && quad_width != 0
                ==> consistently_wound(final(self)@),
            forall|u: int|
                old(self)@.vertices.len() <= u < final(self)@.vertices.len() ==> (#[trigger] final(self)@.vertices[u]).y
                    == 2 * bottom_left.y,
    {
        let ghost m = self@;
        let bl = bottom_left;
        let qw: i128 = quad_width;
        let d: u8 = divisions;
        let ghost di: int = d as int;
        if d == 0 {
            proof {
                let ps = subdivided_pieces(bl, qw, 0, direction_for_triple);
                assert(quad_block(bl, qw, 0, 0, 0, -1) =~= Seq::empty());
                assert(quad_block(bl, qw, 0, 0, 1, 0) =~= Seq::empty());
                assert(quad_block(bl, qw, 1, 0, 0, 0) =~= Seq::empty());
                assert(quad_block(bl, qw, 0, 0, 0, 0) =~= Seq::empty());
                assert(triple_row(bl, qw, 0, 0, -1, DirectionForTiple::Up) =~= Seq::empty());
                assert(triple_row(bl, qw, 0, 0, 0, DirectionForTiple::Down) =~= Seq::empty());
                assert(triple_column(bl, qw, 0, 0, 0, DirectionForTiple::Right) =~= Seq::empty());
                assert(ps =~= Seq::empty());
                assert(apply_pieces(m, ps) == m);
                assert(m.vertices.subrange(0, m.vertices.len() as int) =~= m.vertices);
                assert(m.indices.subrange(0, m.indices.len() as int) =~= m.indices);
            }
            return;
        }
        match direction_for_triple {
            Some(DirectionForTiple::Up) => {
                assert(4 * (di * (di - 1)) + 5 * di == 4 * (di * di) + di && 6 * (di * (di - 1)) + 9 * di == 6 * (di * di) + 3 * di) by (nonlinear_arith);
                self.add_quad_block(bl, qw, 0, d, 0, d - 1);
                self.add_triple_row(bl, qw, 0, d, d - 1, DirectionForTiple::Up);
                proof {
                    lemma_apply_concat(
                        m,
                        quad_block(bl, qw, 0, di, 0, di - 1),
                        triple_row(bl, qw, 0, di, di - 1, DirectionForTiple::Up),
                    );
                }
            },
            Some(DirectionForTiple::Down) => {
                assert(4 * (di * (di - 1)) + 5 * di == 4 * (di * di) + di && 6 * (di * (di - 1)) + 9 * di == 6 * (di * di) + 3 * di) by (nonlinear_arith);
                self.add_quad_block(bl, qw, 0, d, 1, d);
                self.add_triple_row(bl, qw, 0, d, 0, DirectionForTiple::Down);
                proof {
                    lemma_apply_concat(
                        m,
                        quad_block(bl, qw, 0, di, 1, di),
                        triple_row(bl, qw, 0, di, 0, DirectionForTiple::Down),
                    );
                }
            },
            Some(DirectionForTiple::Right) => {
                assert(4 * ((di - 1) * di) + 5 * di == 4 * (di * di) + di && 6 * ((di - 1) * di) + 9 * di == 6 * (di * di) + 3 * di) by (nonlinear_arith);
                self.add_quad_block(bl, qw, 0, d - 1, 0, d);
                self.add_triple_column(bl, qw, d - 1, 0, d, DirectionForTiple::Left);
                proof {
                    lemma_apply_concat(
                        m,
                        quad_block(bl, qw, 0, di - 1, 0, di),
                        triple_column(bl, qw, di - 1, 0, di, DirectionForTiple::Left),
                    );
                }
            },
            Some(DirectionForTiple::Left) => {
                assert(4 * ((di - 1) * di) + 5 * di == 4 * (di * di) + di && 6 * ((di - 1) * di) + 9 * di == 6 * (di * di) + 3 * di) by (nonlinear_arith);
                self.add_quad_block(bl, qw, 1, d, 0, d);
                self.add_triple_column(bl, qw, 0, 0, d, DirectionForTiple::Right);
                proof {
                    lemma_apply_concat(
                        m,
                        quad_block(bl, qw, 1, di, 0, di),
                        triple_column(bl, qw, 0, 0, di, DirectionForTiple::Right),
                    );
                }
            },
            None => {
                self.add_quad_block(bl, qw, 0, d, 0, d);
            },
        }
        proof {
            lemma_apply_pieces_keeps_prefix(m, subdivided_pieces(bl, qw, di, direction_for_triple));
            lemma_subdivided_keeps_height(m, bl, qw, di, direction_for_triple);
        }
    }
}


/// Every piece of `ps` has width `w`.
pub open spec fn all_of_width(ps: Seq<Piece>, w: i128) -> bool {
    forall|i: int| 0 <= i < ps.len() ==> piece_width(#[trigger] ps[i]) == w
}

proof fn lemma_width_concat(a: Seq<Piece>, b: Seq<Piece>, w: i128)
    requires
        all_of_width(a, w),
        all_of_width(b, w),
    ensures
        all_of_width(a + b, w),
{
    assert forall|i: int| 0 <= i < (a + b).len() implies piece_width(#[trigger] (a + b)[i]) == w by {
        if i < a.len() {
            assert((a + b)[i] == a[i]);
        } else {
            assert((a + b)[i] == b[i - a.len()]);
        }
    }
}

proof fn lemma_width_push(a: Seq<Piece>, p: Piece, w: i128)
    requires
        all_of_width(a, w),
        piece_width(p) == w,
    ensures
        all_of_width(a.push(p), w),
{
    assert forall|i: int| 0 <= i < a.push(p).len() implies piece_width(#[trigger] a.push(p)[i]) == w by {
        if i < a.len() {
            assert(a.push(p)[i] == a[i]);
        }
    }
}

proof fn lemma_quad_column_width(bl: GridPoint, qw: i128, x: int, y_lo: int, y_hi: int)
    ensures
        all_of_width(quad_column(bl, qw, x, y_lo, y_hi), qw),
    decreases y_hi - y_lo,
{
    if y_hi > y_lo {
        lemma_quad_column_width(bl, qw, x, y_lo, y_hi - 1);
        lemma_width_push(
            quad_column(bl, qw, x, y_lo, y_hi - 1),
            Piece::Quad { bottom_left: cell(bl, qw, x, y_hi - 1), width: qw },
            qw,
        );
    }
}

proof fn lemma_quad_block_width(bl: GridPoint, qw: i128, x_lo: int, x_hi: int, y_lo: int, y_hi: int)
    ensures
        all_of_width(quad_block(bl, qw, x_lo, x_hi, y_lo, y_hi), qw),
    decreases x_hi - x_lo,
{
    if x_hi > x_lo {
        lemma_quad_block_width(bl, qw, x_lo, x_hi - 1, y_lo, y_hi);
        lemma_quad_column_width(bl, qw, x_hi - 1, y_lo, y_hi);
        lemma_width_concat(
            quad_block(bl, qw, x_lo, x_hi - 1, y_lo, y_hi),
            quad_column(bl, qw, x_hi - 1, y_lo, y_hi),
            qw,
        );
    }
}

proof fn lemma_triple_row_width(bl: GridPoint, qw: i128, x_lo: int, x_hi: int, y: int, dir: DirectionForTiple)
    ensures
        all_of_width(triple_row(bl, qw, x_lo, x_hi, y, dir), qw),
    decreases x_hi - x_lo,
{
    if x_hi > x_lo {
        lemma_triple_row_width(bl, qw, x_lo, x_hi - 1, y, dir);
        lemma_width_push(
            triple_row(bl, qw, x_lo, x_hi - 1, y, dir),
            Piece::Triple { bottom_left: cell(bl, qw, x_hi - 1, y), width: qw, direction: dir },
            qw,
        );
    }
}

proof fn lemma_triple_column_width(bl: GridPoint, qw: i128, x: int, y_lo: int, y_hi: int, dir: DirectionForTiple)
    ensures
        all_of_width(triple_column(bl, qw, x, y_lo, y_hi, dir), qw),
    decreases y_hi - y_lo,
{
    if y_hi > y_lo {
        lemma_triple_column_width(bl, qw, x, y_lo, y_hi - 1, dir);
        lemma_width_push(
            triple_column(bl, qw, x, y_lo, y_hi - 1, dir),
            Piece::Triple { bottom_left: cell(bl, qw, x, y_hi - 1), width: qw, direction: dir },
            qw,
        );
    }
}

/// All cells of a subdivided block have the block's cell width.
pub proof fn lemma_subdivided_width(bl: GridPoint, qw: i128, d: int, dir: Option<DirectionForTiple>)
    ensures
        all_of_width(subdivided_pieces(bl, qw, d, dir), qw),
{
    match dir {
        Some(DirectionForTiple::Up) => {
            lemma_quad_block_width(bl, qw, 0, d, 0, d - 1);
            lemma_triple_row_width(bl, qw, 0, d, d - 1, DirectionForTiple::Up);
            lemma_width_concat(quad_block(bl, qw, 0, d, 0, d - 1), triple_row(bl, qw, 0, d, d - 1, DirectionForTiple::Up), qw);
        },
        Some(DirectionForTiple::Down) => {
            lemma_quad_block_width(bl, qw, 0, d, 1, d);
            lemma_triple_row_width(bl, qw, 0, d, 0, DirectionForTiple::Down);
            lemma_width_concat(quad_block(bl, qw, 0, d, 1, d), triple_row(bl, qw, 0, d, 0, DirectionForTiple::Down), qw);
        },
        Some(DirectionForTiple::Right) => {
            lemma_quad_block_width(bl, qw, 0, d - 1, 0, d);
            lemma_triple_column_width(bl, qw, d - 1, 0, d, DirectionForTiple::Left);
            lemma_width_concat(quad_block(bl, qw, 0, d - 1, 0, d), triple_column(bl, qw, d - 1, 0, d, DirectionForTiple::Left), qw);
        },
        Some(DirectionForTiple::Left) => {
            lemma_quad_block_width(bl, qw, 1, d, 0, d);
            lemma_triple_column_width(bl, qw, 0, 0, d, DirectionForTiple::Right);
            lemma_width_concat(quad_block(bl, qw, 1, d, 0, d), triple_column(bl, qw, 0, 0, d, DirectionForTiple::Right), qw);
        },
        None => {
            lemma_quad_block_width(bl, qw, 0, d, 0, d);
        },
    }
}

proof fn lemma_ring_prefix_width(c: int, n: nat, k: int)
    ensures
        all_of_width(ring_prefix(c, n, k), ring_scale(n) as i128),
    decreases k,
{
    if k > 0 {
        lemma_ring_prefix_width(c, n, k - 1);
        lemma_subdivided_width(ring_block_corner(c, n, k - 1), ring_scale(n) as i128, c / 4, ring_layout(k - 1).2);
        lemma_width_concat(
            ring_prefix(c, n, k - 1),
            subdivided_pieces(ring_block_corner(c, n, k - 1), ring_scale(n) as i128, c / 4, ring_layout(k - 1).2),
            ring_scale(n) as i128,
        );
    }
}

proof fn lemma_ring_scale_is_pow2(n: nat)
    ensures
        ring_scale(n) == pow2(n),
    decreases n,
{
    if n == 0 {
        lemma2_to64();
    } else {
        lemma_ring_scale_is_pow2((n - 1) as nat);
        lemma_pow2_unfold(n);
    }
}

/// Level of detail: the centre of the clip-map is made of quads one smallest
/// quad wide, and every quad of ring `n` is `2^n` smallest quads wide, twice
/// as wide as those of the ring inside it.
pub proof fn lemma_ring_quad_width(c: int, n: nat)
    requires
        1 <= n <= MAX_RINGS,
    ensures
        all_of_width(centre_pieces(c), 1),
        all_of_width(ring_prefix(c, n, 12), pow2(n) as i128),
        pow2(n) == 2 * pow2((n - 1) as nat),
{
    lemma_subdivided_width(centre_corner(c), 1, c, None);
    lemma_ring_prefix_width(c, n, 12);
    lemma_ring_scale_is_pow2(n);
    lemma_pow2_unfold(n);
}

/// Half-step distance from the centre to the inner boundary of ring `n`,
/// which is the outer boundary of the finer geometry inside it.
pub open spec fn seam_radius(c: int, n: nat) -> int {
    2 * ((c / 4) * ring_scale(n))
}

/// `p` lies on the boundary of the square `[-r, r]` by `[-r, r]` (x and z).
pub open spec fn on_square(p: GridPoint, r: int) -> bool {
    ||| (p.x == r || p.x == -r) && -r <= p.z <= r
    ||| (p.z == r || p.z == -r) && -r <= p.x <= r
}

/// The split edge of a triple quad (both its ends and its mid-point) lies on
/// the boundary of the square of radius `r`, and the quad's other two corners
/// do not.
pub open spec fn split_edge_on(bl: GridPoint, w: int, dir: DirectionForTiple, r: int) -> bool {
    let ends = match dir {
        DirectionForTiple::Up => (corner(bl, w, 0, 2), corner(bl, w, 2, 2)),
        DirectionForTiple::Down => (corner(bl, w, 0, 0), corner(bl, w, 2, 0)),
        DirectionForTiple::Left => (corner(bl, w, 2, 0), corner(bl, w, 2, 2)),
        DirectionForTiple::Right => (corner(bl, w, 0, 0), corner(bl, w, 0, 2)),
    };
    let far = match dir {
        DirectionForTiple::Up => (corner(bl, w, 0, 0), corner(bl, w, 2, 0)),
        DirectionForTiple::Down => (corner(bl, w, 0, 2), corner(bl, w, 2, 2)),
        DirectionForTiple::Left => (corner(bl, w, 0, 0), corner(bl, w, 0, 2)),
        DirectionForTiple::Right => (corner(bl, w, 2, 0), corner(bl, w, 2, 2)),
    };
    &&& on_square(ends.0, r) && on_square(ends.1, r) && on_square(split_vertex(bl, w, dir), r)
    &&& !on_square(far.0, r) && !on_square(far.1, r)
}

/// Both ends of a segment lie on the boundary of the square of radius `r`.
pub open spec fn ends_on(a: GridPoint, b: GridPoint, r: int) -> bool {
    on_square(a, r) && on_square(b, r)
}

/// No side of the plain quad, nor the diagonal that splits it in two
/// triangles, has both ends on the boundary of the square of radius `r`.
pub open spec fn quad_off_seam(bl: GridPoint, w: int, r: int) -> bool {
    &&& !ends_on(corner(bl, w, 0, 0), corner(bl, w, 2, 0), r)
    &&& !ends_on(corner(bl, w, 0, 0), corner(bl, w, 0, 2), r)
    &&& !ends_on(corner(bl, w, 2, 0), corner(bl, w, 2, 2), r)
    &&& !ends_on(corner(bl, w, 0, 2), corner(bl, w, 2, 2), r)
    &&& !ends_on(corner(bl, w, 0, 2), corner(bl, w, 2, 0), r)
}

/// Along the square of radius `r`, every edge of `ps` is split: each triple
/// quad has its split edge on it and its other two corners off it, and no
/// plain quad has a side, or the diagonal between its triangles, with both
/// ends on it.
pub open spec fn respects_seam(ps: Seq<Piece>, r: int) -> bool {
    forall|i: int|
        0 <= i < ps.len() ==> match #[trigger] ps[i] {
            Piece::Triple { bottom_left, width, direction } => split_edge_on(bottom_left, width as int, direction, r),
            Piece::Quad { bottom_left, width } => quad_off_seam(bottom_left, width as int, r),
        }
}

proof fn lemma_split_concat(a: Seq<Piece>, b: Seq<Piece>, r: int)
    requires
        respects_seam(a, r),
        respects_seam(b, r),
    ensures
        respects_seam(a + b, r),
{
    assert forall|i: int| 0 <= i < (a + b).len() implies match #[trigger] (a + b)[i] {
        Piece::Triple { bottom_left, width, direction } => split_edge_on(bottom_left, width as int, direction, r),
        Piece::Quad { bottom_left, width } => quad_off_seam(bottom_left, width as int, r),
    } by {
        if i < a.len() {
            assert((a + b)[i] == a[i]);
        } else {
            assert((a + b)[i] == b[i - a.len()]);
        }
    }
}

proof fn lemma_split_push(a: Seq<Piece>, p: Piece, r: int)
    requires
        respects_seam(a, r),
        respects_seam(seq![p], r),
    ensures
        respects_seam(a.push(p), r),
{
    assert(a.push(p) =~= a + seq![p]);
    lemma_split_concat(a, seq![p], r);
}

proof fn lemma_quad_block_split(bl: GridPoint, qw: i128, x_lo: int, x_hi: int, y_lo: int, y_hi: int, r: int)
    requires
        forall|x: int, y: int|
            x_lo <= x < x_hi && y_lo <= y < y_hi ==> #[trigger] quad_off_seam(cell(bl, qw, x, y), qw as int, r),
    ensures
        respects_seam(quad_block(bl, qw, x_lo, x_hi, y_lo, y_hi), r),
    decreases x_hi - x_lo,
{
    if x_hi > x_lo {
        lemma_quad_block_split(bl, qw, x_lo, x_hi - 1, y_lo, y_hi, r);
        assert forall|y: int| y_lo <= y < y_hi implies #[trigger] quad_off_seam(cell(bl, qw, x_hi - 1, y), qw as int, r) by {
            assert(quad_off_seam(cell(bl, qw, x_hi - 1, y), qw as int, r));
        }
        lemma_quad_column_split(bl, qw, x_hi - 1, y_lo, y_hi, r);
        lemma_split_concat(
            quad_block(bl, qw, x_lo, x_hi - 1, y_lo, y_hi),
            quad_column(bl, qw, x_hi - 1, y_lo, y_hi),
            r,
        );
    }
}

proof fn lemma_quad_column_split(bl: GridPoint, qw: i128, x: int, y_lo: int, y_hi: int, r: int)
    requires
        forall|y: int| y_lo <= y < y_hi ==> #[trigger] quad_off_seam(cell(bl, qw, x, y), qw as int, r),
    ensures
        respects_seam(quad_column(bl, qw, x, y_lo, y_hi), r),
    decreases y_hi - y_lo,
{
    if y_hi > y_lo {
        let p = Piece::Quad { bottom_left: cell(bl, qw, x, y_hi - 1), width: qw };
        lemma_quad_column_split(bl, qw, x, y_lo, y_hi - 1, r);
        assert(quad_off_seam(cell(bl, qw, x, y_hi - 1), qw as int, r));
        assert(respects_seam(seq![p], r)) by {
            assert(seq![p][0] == p);
        }
        lemma_split_push(quad_column(bl, qw, x, y_lo, y_hi - 1), p, r);
    }
}

proof fn lemma_triple_row_split(bl: GridPoint, qw: i128, x_lo: int, x_hi: int, y: int, dir: DirectionForTiple, r: int)
    requires
        forall|x: int| x_lo <= x < x_hi ==> #[trigger] split_edge_on(cell(bl, qw, x, y), qw as int, dir, r),
    ensures
        respects_seam(triple_row(bl, qw, x_lo, x_hi, y, dir), r),
    decreases x_hi - x_lo,
{
    if x_hi > x_lo {
        let p = Piece::Triple { bottom_left: cell(bl, qw, x_hi - 1, y), width: qw, direction: dir };
        lemma_triple_row_split(bl, qw, x_lo, x_hi - 1, y, dir, r);
        assert(split_edge_on(cell(bl, qw, x_hi - 1, y), qw as int, dir, r));
        assert(respects_seam(seq![p], r)) by {
            assert(seq![p][0] == p);
        }
        lemma_split_push(triple_row(bl, qw, x_lo, x_hi - 1, y, dir), p, r);
    }
}

proof fn lemma_triple_column_split(bl: GridPoint, qw: i128, x: int, y_lo: int, y_hi: int, dir: DirectionForTiple, r: int)
    requires
        forall|y: int| y_lo <= y < y_hi ==> #[trigger] split_edge_on(cell(bl, qw, x, y), qw as int, dir, r),
    ensures
        respects_seam(triple_column(bl, qw, x, y_lo, y_hi, dir), r),
    decreases y_hi - y_lo,
{
    if y_hi > y_lo {
        let p = Piece::Triple { bottom_left: cell(bl, qw, x, y_hi - 1), width: qw, direction: dir };
        lemma_triple_column_split(bl, qw, x, y_lo, y_hi - 1, dir, r);
        assert(split_edge_on(cell(bl, qw, x, y_hi - 1), qw as int, dir, r));
        assert(respects_seam(seq![p], r)) by {
            assert(seq![p][0] == p);
        }
        lemma_split_push(triple_column(bl, qw, x, y_lo, y_hi - 1, dir), p, r);
    }
}

/// Coordinates of cell `(x, y)` of block `k` of ring `n`, in the ring's step
/// `s` and the block side `a = q * s`.
proof fn lemma_ring_cell(c: int, n: nat, k: int, x: int, y: int)
    requires
        0 <= c <= 255,
        n <= MAX_RINGS,
        0 <= k < 12,
        0 <= x < c / 4,
        0 <= y < c / 4,
    ensures
        ({
            let s = ring_scale(n);
            let a = (c / 4) * s;
            let p = cell(ring_block_corner(c, n, k), s as i128, x, y);
            &&& 1 <= s <= 0x4_0000_0000_0000_0000_0000_0000_0000
            &&& 0 <= a <= 63 * 0x4_0000_0000_0000_0000_0000_0000_0000
            &&& (s as i128) as int == s
            &&& p.x == -2 * a + ring_layout(k).0 * a + s * x
            &&& p.z == -2 * a + ring_layout(k).1 * a + s * y
            &&& p.x == s * (-2 * (c / 4) + ring_layout(k).0 * (c / 4) + x)
            &&& p.z == s * (-2 * (c / 4) + ring_layout(k).1 * (c / 4) + y)
            &&& p.y == 0
            &&& 0 <= s * x <= a - s
            &&& 0 <= s * y <= a - s
            &&& (x == c / 4 - 1 ==> s * x == a - s)
            &&& (y == c / 4 - 1 ==> s * y == a - s)
            &&& (x <= c / 4 - 2 ==> s * x <= a - 2 * s)
            &&& (y <= c / 4 - 2 ==> s * y <= a - 2 * s)
            &&& (x >= 1 ==> s * x >= s)
            &&& (y >= 1 ==> s * y >= s)
        }),
{
    let s = ring_scale(n);
    let q = c / 4;
    let a = q * s;
    lemma_ring_scale(n, 114);
    lemma_ring_scale(n + 1, 115);
    lemma_ring_scale_top();
    assert(ring_scale(n + 1) == 2 * s);
    let (bx, by, d) = ring_layout(k);
    assert(0 <= bx <= 3 && 0 <= by <= 3);
    assert(q * (2 * s) == 2 * a) by (nonlinear_arith)
        requires
            a == q * s,
    ;
    assert(s * bx * q == bx * a && s * by * q == by * a) by (nonlinear_arith)
        requires
            a == q * s,
    ;
    assert(0 <= a <= 63 * 0x4_0000_0000_0000_0000_0000_0000_0000) by (nonlinear_arith)
        requires
            a == q * s,
            0 <= q <= 63,
            1 <= s <= 0x4_0000_0000_0000_0000_0000_0000_0000,
    ;
    assert(0 <= bx * a <= 3 * a && 0 <= by * a <= 3 * a) by (nonlinear_arith)
        requires
            0 <= bx <= 3,
            0 <= by <= 3,
            0 <= a,
    ;
    assert(0 <= s * x <= a - s && 0 <= s * y <= a - s) by (nonlinear_arith)
        requires
            a == q * s,
            0 <= x < q,
            0 <= y < q,
            1 <= s,
    ;
    assert((x == q - 1 ==> s * x == a - s) && (y == q - 1 ==> s * y == a - s)) by (nonlinear_arith)
        requires
            a == q * s,
    ;
    assert((x <= q - 2 ==> s * x <= a - 2 * s) && (y <= q - 2 ==> s * y <= a - 2 * s)) by (nonlinear_arith)
        requires
            a == q * s,
            1 <= s,
    ;
    assert((x >= 1 ==> s * x >= s) && (y >= 1 ==> s * y >= s)) by (nonlinear_arith)
        requires
            1 <= s,
    ;
    assert(-2 * a + bx * a + s * x == s * (-2 * q + bx * q + x) && -2 * a + by * a + s * y == s * (-2 * q + by * q + y))
        by (nonlinear_arith)
        requires
            a == q * s,
    ;
}

proof fn lemma_slot_split_plain(c: int, n: nat, k: int)
    requires
        0 <= c <= 255,
        1 <= n <= MAX_RINGS,
        0 <= k < 12,
        ring_layout(k).2 == Option::<DirectionForTiple>::None,
    ensures
        respects_seam(
            subdivided_pieces(ring_block_corner(c, n, k), ring_scale(n) as i128, c / 4, ring_layout(k).2),
            seam_radius(c, n),
        ),
{
    let q = c / 4;
    let s = ring_scale(n);
    let qw = s as i128;
    let bl = ring_block_corner(c, n, k);
    let r = seam_radius(c, n);
    assert forall|x: int, y: int| 0 <= x < q && 0 <= y < q implies #[trigger] quad_off_seam(cell(bl, qw, x, y), qw as int, r) by {
        lemma_ring_cell(c, n, k, x, y);
    }
    lemma_quad_block_split(bl, qw, 0, q, 0, q, r);
}

proof fn lemma_slot_split_up(c: int, n: nat, k: int)
    requires
        0 <= c <= 255,
        1 <= n <= MAX_RINGS,
        0 <= k < 12,
        ring_layout(k).2 == Some(DirectionForTiple::Up),
    ensures
        respects_seam(
            subdivided_pieces(ring_block_corner(c, n, k), ring_scale(n) as i128, c / 4, ring_layout(k).2),
            seam_radius(c, n),
        ),
{
    let q = c / 4;
    let s = ring_scale(n);
    let qw = s as i128;
    let bl = ring_block_corner(c, n, k);
    let r = seam_radius(c, n);
    assert forall|x: int, y: int| 0 <= x < q && 0 <= y < q - 1 implies #[trigger] quad_off_seam(cell(bl, qw, x, y), qw as int, r) by {
        lemma_ring_cell(c, n, k, x, y);
    }
    lemma_quad_block_split(bl, qw, 0, q, 0, q - 1, r);
    assert forall|x: int| 0 <= x < q implies #[trigger] split_edge_on(cell(bl, qw, x, q - 1), qw as int, DirectionForTiple::Up, r) by {
        lemma_ring_cell(c, n, k, x, q - 1);
        let pc = cell(bl, qw, x, q - 1);
        let a = q * s;
        assert(s * (q - 1) == a - s);
        assert(pc.z == -2 * a + ring_layout(k).1 * a + s * (q - 1));
        assert(ring_layout(k).1 == 0);
        assert(pc.z == -a - s);
        assert(corner(pc, qw as int, 0, 2).z == -2 * a);
        assert(on_square(corner(pc, qw as int, 0, 2), r));
        assert(on_square(corner(pc, qw as int, 2, 2), r));
        assert(on_square(corner(pc, qw as int, 1, 2), r));
    }
    lemma_triple_row_split(bl, qw, 0, q, q - 1, DirectionForTiple::Up, r);
    lemma_split_concat(quad_block(bl, qw, 0, q, 0, q - 1), triple_row(bl, qw, 0, q, q - 1, DirectionForTiple::Up), r);
}

proof fn lemma_slot_split_down(c: int, n: nat, k: int)
    requires
        0 <= c <= 255,
        1 <= n <= MAX_RINGS,
        0 <= k < 12,
        ring_layout(k).2 == Some(DirectionForTiple::Down),
    ensures
        respects_seam(
            subdivided_pieces(ring_block_corner(c, n, k), ring_scale(n) as i128, c / 4, ring_layout(k).2),
            seam_radius(c, n),
        ),
{
    let q = c / 4;
    let s = ring_scale(n);
    let qw = s as i128;
    let bl = ring_block_corner(c, n, k);
    let r = seam_radius(c, n);
    assert forall|x: int, y: int| 0 <= x < q && 1 <= y < q implies #[trigger] quad_off_seam(cell(bl, qw, x, y), qw as int, r) by {
        lemma_ring_cell(c, n, k, x, y);
    }
    lemma_quad_block_split(bl, qw, 0, q, 1, q, r);
    assert(ring_layout(k).1 == 3 && (ring_layout(k).0 == 1 || ring_layout(k).0 == 2));
    assert forall|x: int| 0 <= x < q implies #[trigger] split_edge_on(cell(bl, qw, x, 0), qw as int, DirectionForTiple::Down, r) by {
        lemma_ring_cell(c, n, k, x, 0);
        let pc = cell(bl, qw, x, 0);
        let a = q * s;
        assert(ring_layout(k).0 * a == a || ring_layout(k).0 * a == 2 * a) by (nonlinear_arith)
            requires
                ring_layout(k).0 == 1 || ring_layout(k).0 == 2,
        ;
        assert(3 * a == ring_layout(k).1 * a);
        assert(pc.z == a);
        assert(-a <= pc.x && pc.x + s <= a);
        assert(corner(pc, qw as int, 0, 0).z == 2 * a);
        assert(corner(pc, qw as int, 0, 2).z == 2 * a + 2 * s);
        assert(corner(pc, qw as int, 2, 2).z == 2 * a + 2 * s);
    }
    lemma_triple_row_split(bl, qw, 0, q, 0, DirectionForTiple::Down, r);
    lemma_split_concat(quad_block(bl, qw, 0, q, 1, q), triple_row(bl, qw, 0, q, 0, DirectionForTiple::Down), r);
}

proof fn lemma_slot_split_right(c: int, n: nat, k: int)
    requires
        0 <= c <= 255,
        1 <= n <= MAX_RINGS,
        0 <= k < 12,
        ring_layout(k).2 == Some(DirectionForTiple::Right),
    ensures
        respects_seam(
            subdivided_pieces(ring_block_corner(c, n, k), ring_scale(n) as i128, c / 4, ring_layout(k).2),
            seam_radius(c, n),
        ),
{
    let q = c / 4;
    let s = ring_scale(n);
    let qw = s as i128;
    let bl = ring_block_corner(c, n, k);
    let r = seam_radius(c, n);
    assert forall|x: int, y: int| 0 <= x < q - 1 && 0 <= y < q implies #[trigger] quad_off_seam(cell(bl, qw, x, y), qw as int, r) by {
        lemma_ring_cell(c, n, k, x, y);
    }
    lemma_quad_block_split(bl, qw, 0, q - 1, 0, q, r);
    assert(ring_layout(k).0 == 0 && (ring_layout(k).1 == 1 || ring_layout(k).1 == 2));
    assert forall|y: int| 0 <= y < q implies #[trigger] split_edge_on(cell(bl, qw, q - 1, y), qw as int, DirectionForTiple::Left, r) by {
        lemma_ring_cell(c, n, k, q - 1, y);
        let pc = cell(bl, qw, q - 1, y);
        let a = q * s;
        assert(ring_layout(k).1 * a == a || ring_layout(k).1 * a == 2 * a) by (nonlinear_arith)
            requires
                ring_layout(k).1 == 1 || ring_layout(k).1 == 2,
        ;
        assert(pc.x == -a - s);
        assert(-a <= pc.z && pc.z + s <= a);
        assert(corner(pc, qw as int, 2, 0).x == -2 * a);
        assert(corner(pc, qw as int, 0, 0).x == -2 * a - 2 * s);
        assert(corner(pc, qw as int, 0, 2).x == -2 * a - 2 * s);
    }
    lemma_triple_column_split(bl, qw, q - 1, 0, q, DirectionForTiple::Left, r);
    lemma_split_concat(quad_block(bl, qw, 0, q - 1, 0, q), triple_column(bl, qw, q - 1, 0, q, DirectionForTiple::Left), r);
}

proof fn lemma_slot_split_left(c: int, n: nat, k: int)
    requires
        0 <= c <= 255,
        1 <= n <= MAX_RINGS,
        0 <= k < 12,
        ring_layout(k).2 == Some(DirectionForTiple::Left),
    ensures
        respects_seam(
            subdivided_pieces(ring_block_corner(c, n, k), ring_scale(n) as i128, c / 4, ring_layout(k).2),
            seam_radius(c, n),
        ),
{
    let q = c / 4;
    let s = ring_scale(n);
    let qw = s as i128;
    let bl = ring_block_corner(c, n, k);
    let r = seam_radius(c, n);
    assert forall|x: int, y: int| 1 <= x < q && 0 <= y < q implies #[trigger] quad_off_seam(cell(bl, qw, x, y), qw as int, r) by {
        lemma_ring_cell(c, n, k, x, y);
    }
    lemma_quad_block_split(bl, qw, 1, q, 0, q, r);
    assert(ring_layout(k).0 == 3 && (ring_layout(k).1 == 1 || ring_layout(k).1 == 2));
    assert forall|y: int| 0 <= y < q implies #[trigger] split_edge_on(cell(bl, qw, 0, y), qw as int, DirectionForTiple::Right, r) by {
        lemma_ring_cell(c, n, k, 0, y);
        let pc = cell(bl, qw, 0, y);
        let a = q * s;
        assert(ring_layout(k).1 * a == a || ring_layout(k).1 * a == 2 * a) by (nonlinear_arith)
            requires
                ring_layout(k).1 == 1 || ring_layout(k).1 == 2,
        ;
        assert(3 * a == ring_layout(k).0 * a);
        assert(pc.x == a);
        assert(-a <= pc.z && pc.z + s <= a);
        assert(corner(pc, qw as int, 0, 0).x == 2 * a);
        assert(corner(pc, qw as int, 2, 0).x == 2 * a + 2 * s);
        assert(corner(pc, qw as int, 2, 2).x == 2 * a + 2 * s);
    }
    lemma_triple_column_split(bl, qw, 0, 0, q, DirectionForTiple::Right, r);
    lemma_split_concat(quad_block(bl, qw, 1, q, 0, q), triple_column(bl, qw, 0, 0, q, DirectionForTiple::Right), r);
}

proof fn lemma_slot_split(c: int, n: nat, k: int)
    requires
        0 <= c <= 255,
        1 <= n <= MAX_RINGS,
        0 <= k < 12,
    ensures
        respects_seam(
            subdivided_pieces(ring_block_corner(c, n, k), ring_scale(n) as i128, c / 4, ring_layout(k).2),
            seam_radius(c, n),
        ),
{
    match ring_layout(k).2 {
        None => lemma_slot_split_plain(c, n, k),
        Some(DirectionForTiple::Up) => lemma_slot_split_up(c, n, k),
        Some(DirectionForTiple::Down) => lemma_slot_split_down(c, n, k),
        Some(DirectionForTiple::Right) => lemma_slot_split_right(c, n, k),
        Some(DirectionForTiple::Left) => lemma_slot_split_left(c, n, k),
    }
}

proof fn lemma_ring_prefix_split(c: int, n: nat, k: int)
    requires
        0 <= c <= 255,
        1 <= n <= MAX_RINGS,
        k <= 12,
    ensures
        respects_seam(ring_prefix(c, n, k), seam_radius(c, n)),
    decreases k,
{
    if k > 0 {
        lemma_ring_prefix_split(c, n, k - 1);
        lemma_slot_split(c, n, k - 1);
        lemma_split_concat(
            ring_prefix(c, n, k - 1),
            subdivided_pieces(ring_block_corner(c, n, k - 1), ring_scale(n) as i128, c / 4, ring_layout(k - 1).2),
            seam_radius(c, n),
        );
    }
}

/// Where a ring meets finer geometry, the ring's edges are split: every
/// triple quad of ring `n` has its split edge, ends and mid-point, on the
/// ring's inner boundary and its other two corners off it, and no plain quad
/// of the ring has a side, or the diagonal between its triangles, with both
/// ends on it. That boundary is the outer boundary of ring `n - 1` (of the
/// centre grid, for ring 1).
pub proof fn lemma_ring_split_at_the_seam(c: int, n: nat)
    requires
        0 <= c <= 255,
        c % 4 == 0,
        1 <= n <= MAX_RINGS,
    ensures
        respects_seam(ring_prefix(c, n, 12), seam_radius(c, n)),
        n >= 2 ==> seam_radius(c, n) == -2 * ring_origin(c, (n - 1) as nat),
        n == 1 ==> seam_radius(c, n) == 2 * (c / 2),
{
    lemma_ring_prefix_split(c, n, 12);
    assert(ring_scale(1) == 2 * ring_scale(0));
    assert((c / 4) * ring_scale(1) == (c / 4) * 2);
    if n >= 2 {
        assert(((n - 1) as nat) + 1 == n);
    }
}

/// Both horizontal coordinates of `p` are multiples of `m`.
pub open spec fn on_grid(p: GridPoint, m: int) -> bool {
    (p.x as int) % m == 0 && (p.z as int) % m == 0
}

/// Every vertex of the piece that lies on the square of radius `r` is on the
/// grid of step `m`.
pub open spec fn piece_aligned_on(p: Piece, r: int, m: int) -> bool {
    forall|j: int|
        0 <= j < piece_points(p).len() && on_square(#[trigger] piece_points(p)[j], r) ==> on_grid(
            piece_points(p)[j],
            m,
        )
}

/// Every vertex of `ps` that lies on the square of radius `r` is on the grid of step `m`.
pub open spec fn aligned_on(ps: Seq<Piece>, r: int, m: int) -> bool {
    forall|i: int| 0 <= i < ps.len() ==> piece_aligned_on(#[trigger] ps[i], r, m)
}

/// The four corners of a quad of width `m` lie on the grid of step `2 * m`,
/// and its corners and the mid-points of its sides on the grid of step `m`.
pub open spec fn cell_on_grid(bl: GridPoint, m: int) -> bool {
    &&& corners_exact(bl, m)
    &&& on_grid(corner(bl, m, 0, 0), 2 * m)
    &&& on_grid(corner(bl, m, 2, 0), 2 * m)
    &&& on_grid(corner(bl, m, 0, 2), 2 * m)
    &&& on_grid(corner(bl, m, 2, 2), 2 * m)
    &&& forall|i: int, j: int| 0 <= i <= 2 && 0 <= j <= 2 ==> #[trigger] on_grid(corner(bl, m, i, j), m)
}

/// A piece of width `m` whose corner is `m` times a lattice point.
pub open spec fn piece_on_grid(p: Piece, m: int) -> bool {
    piece_width(p) == m && cell_on_grid(piece_corner(p), m)
}

/// Every piece of `ps` has width `m` and its corner on the grid of step `m`.
pub open spec fn all_on_grid(ps: Seq<Piece>, m: int) -> bool {
    forall|i: int| 0 <= i < ps.len() ==> piece_on_grid(#[trigger] ps[i], m)
}

proof fn lemma_grid_concat(a: Seq<Piece>, b: Seq<Piece>, m: int)
    requires
        all_on_grid(a, m),
        all_on_grid(b, m),
    ensures
        all_on_grid(a + b, m),
{
    assert forall|i: int| 0 <= i < (a + b).len() implies piece_on_grid(#[trigger] (a + b)[i], m) by {
        if i < a.len() {
            assert((a + b)[i] == a[i]);
        } else {
            assert((a + b)[i] == b[i - a.len()]);
        }
    }
}

proof fn lemma_grid_push(a: Seq<Piece>, p: Piece, m: int)
    requires
        all_on_grid(a, m),
        piece_on_grid(p, m),
    ensures
        all_on_grid(a.push(p), m),
{
    assert forall|i: int| 0 <= i < a.push(p).len() implies piece_on_grid(#[trigger] a.push(p)[i], m) by {
        if i < a.len() {
            assert(a.push(p)[i] == a[i]);
        }
    }
}

/// The cells `x_lo .. x_hi` by `y_lo .. y_hi` of a grid of width `qw` whose
/// corner is `bl`, all on the grid of step `qw`.
pub open spec fn cells_on_grid(bl: GridPoint, qw: i128, x_lo: int, x_hi: int, y_lo: int, y_hi: int) -> bool {
    forall|x: int, y: int|
        x_lo <= x < x_hi && y_lo <= y < y_hi ==> cell_on_grid(#[trigger] cell(bl, qw, x, y), qw as int)
}

proof fn lemma_quad_column_grid(bl: GridPoint, qw: i128, x: int, y_lo: int, y_hi: int)
    requires
        cells_on_grid(bl, qw, x, x + 1, y_lo, y_hi),
    ensures
        all_on_grid(quad_column(bl, qw, x, y_lo, y_hi), qw as int),
    decreases y_hi - y_lo,
{
    if y_hi > y_lo {
        lemma_quad_column_grid(bl, qw, x, y_lo, y_hi - 1);
        assert(cell_on_grid(cell(bl, qw, x, y_hi - 1), qw as int));
        lemma_grid_push(
            quad_column(bl, qw, x, y_lo, y_hi - 1),
            Piece::Quad { bottom_left: cell(bl, qw, x, y_hi - 1), width: qw },
            qw as int,
        );
    }
}

proof fn lemma_quad_block_grid(bl: GridPoint, qw: i128, x_lo: int, x_hi: int, y_lo: int, y_hi: int)
    requires
        cells_on_grid(bl, qw, x_lo, x_hi, y_lo, y_hi),
    ensures
        all_on_grid(quad_block(bl, qw, x_lo, x_hi, y_lo, y_hi), qw as int),
    decreases x_hi - x_lo,
{
    if x_hi > x_lo {
        lemma_quad_block_grid(bl, qw, x_lo, x_hi - 1, y_lo, y_hi);
        assert forall|x: int, y: int| x_hi - 1 <= x < x_hi && y_lo <= y < y_hi implies cell_on_grid(
            #[trigger] cell(bl, qw, x, y),
            qw as int,
        ) by {
            assert(cell_on_grid(cell(bl, qw, x, y), qw as int));
        }
        lemma_quad_column_grid(bl, qw, x_hi - 1, y_lo, y_hi);
        lemma_grid_concat(
            quad_block(bl, qw, x_lo, x_hi - 1, y_lo, y_hi),
            quad_column(bl, qw, x_hi - 1, y_lo, y_hi),
            qw as int,
        );
    }
}

proof fn lemma_triple_row_grid(bl: GridPoint, qw: i128, x_lo: int, x_hi: int, y: int, dir: DirectionForTiple)
    requires
        cells_on_grid(bl, qw, x_lo, x_hi, y, y + 1),
    ensures
        all_on_grid(triple_row(bl, qw, x_lo, x_hi, y, dir), qw as int),
    decreases x_hi - x_lo,
{
    if x_hi > x_lo {
        lemma_triple_row_grid(bl, qw, x_lo, x_hi - 1, y, dir);
        assert(cell_on_grid(cell(bl, qw, x_hi - 1, y), qw as int));
        lemma_grid_push(
            triple_row(bl, qw, x_lo, x_hi - 1, y, dir),
            Piece::Triple { bottom_left: cell(bl, qw, x_hi - 1, y), width: qw, direction: dir },
            qw as int,
        );
    }
}

proof fn lemma_triple_column_grid(bl: GridPoint, qw: i128, x: int, y_lo: int, y_hi: int, dir: DirectionForTiple)
    requires
        cells_on_grid(bl, qw, x, x + 1, y_lo, y_hi),
    ensures
        all_on_grid(triple_column(bl, qw, x, y_lo, y_hi, dir), qw as int),
    decreases y_hi - y_lo,
{
    if y_hi > y_lo {
        lemma_triple_column_grid(bl, qw, x, y_lo, y_hi - 1, dir);
        assert(cell_on_grid(cell(bl, qw, x, y_hi - 1), qw as int));
        lemma_grid_push(
            triple_column(bl, qw, x, y_lo, y_hi - 1, dir),
            Piece::Triple { bottom_left: cell(bl, qw, x, y_hi - 1), width: qw, direction: dir },
            qw as int,
        );
    }
}

proof fn lemma_subdivided_grid(bl: GridPoint, qw: i128, d: int, dir: Option<DirectionForTiple>)
    requires
        cells_on_grid(bl, qw, 0, d, 0, d),
    ensures
        all_on_grid(subdivided_pieces(bl, qw, d, dir), qw as int),
{
    assert forall|x: int, y: int| 0 <= x < d && 0 <= y < d implies cell_on_grid(#[trigger] cell(bl, qw, x, y), qw as int) by {
        assert(cell_on_grid(cell(bl, qw, x, y), qw as int));
    }
    match dir {
        Some(DirectionForTiple::Up) => {
            lemma_quad_block_grid(bl, qw, 0, d, 0, d - 1);
            lemma_triple_row_grid(bl, qw, 0, d, d - 1, DirectionForTiple::Up);
            lemma_grid_concat(quad_block(bl, qw, 0, d, 0, d - 1), triple_row(bl, qw, 0, d, d - 1, DirectionForTiple::Up), qw as int);
        },
        Some(DirectionForTiple::Down) => {
            lemma_quad_block_grid(bl, qw, 0, d, 1, d);
            lemma_triple_row_grid(bl, qw, 0, d, 0, DirectionForTiple::Down);
            lemma_grid_concat(quad_block(bl, qw, 0, d, 1, d), triple_row(bl, qw, 0, d, 0, DirectionForTiple::Down), qw as int);
        },
        Some(DirectionForTiple::Right) => {
            lemma_quad_block_grid(bl, qw, 0, d - 1, 0, d);
            lemma_triple_column_grid(bl, qw, d - 1, 0, d, DirectionForTiple::Left);
            lemma_grid_concat(quad_block(bl, qw, 0, d - 1, 0, d), triple_column(bl, qw, d - 1, 0, d, DirectionForTiple::Left), qw as int);
        },
        Some(DirectionForTiple::Left) => {
            lemma_quad_block_grid(bl, qw, 1, d, 0, d);
            lemma_triple_column_grid(bl, qw, 0, 0, d, DirectionForTiple::Right);
            lemma_grid_concat(quad_block(bl, qw, 1, d, 0, d), triple_column(bl, qw, 0, 0, d, DirectionForTiple::Right), qw as int);
        },
        None => {
            lemma_quad_block_grid(bl, qw, 0, d, 0, d);
        },
    }
}

/// A quad of width `s` whose corner is `s` times a lattice point.
proof fn lemma_cell_on_grid(bl: GridPoint, s: int, px: int, pz: int)
    requires
        1 <= s <= 0x4_0000_0000_0000_0000_0000_0000_0000,
        -0x400 <= px <= 0x400,
        -0x400 <= pz <= 0x400,
        bl.x == s * px,
        bl.z == s * pz,
    ensures
        cell_on_grid(bl, s),
{
    assert(within(bl.x as int, quad_bound()) && within(bl.z as int, quad_bound())) by (nonlinear_arith)
        requires
            1 <= s <= 0x4_0000_0000_0000_0000_0000_0000_0000,
            -0x400 <= px <= 0x400,
            -0x400 <= pz <= 0x400,
            bl.x == s * px,
            bl.z == s * pz,
    ;
    assert forall|i: int, j: int| 0 <= i <= 2 && 0 <= j <= 2 implies {
        &&& #[trigger] corner(bl, s, i, j).x == s * (2 * px + i)
        &&& corner(bl, s, i, j).z == s * (2 * pz + j)
    } by {
        assert(2 * bl.x + i * s == s * (2 * px + i) && 2 * bl.z + j * s == s * (2 * pz + j)) by (nonlinear_arith)
            requires
                bl.x == s * px,
                bl.z == s * pz,
        ;
        assert(within(i * s, 0x8_0000_0000_0000_0000_0000_0000_0000) && within(j * s, 0x8_0000_0000_0000_0000_0000_0000_0000)) by (nonlinear_arith)
            requires
                0 <= i <= 2,
                0 <= j <= 2,
                1 <= s <= 0x4_0000_0000_0000_0000_0000_0000_0000,
        ;
    }
    assert forall|i: int, j: int| 0 <= i <= 2 && 0 <= j <= 2 implies (#[trigger] corner(bl, s, i, j)).x == 2 * bl.x + i * s
        && corner(bl, s, i, j).z == 2 * bl.z + j * s by {
        assert(2 * bl.x + i * s == s * (2 * px + i) && 2 * bl.z + j * s == s * (2 * pz + j)) by (nonlinear_arith)
            requires
                bl.x == s * px,
                bl.z == s * pz,
        ;
    }
    assert forall|i: int, j: int| 0 <= i <= 2 && 0 <= j <= 2 implies #[trigger] on_grid(corner(bl, s, i, j), s) by {
        vstd::arithmetic::div_mod::lemma_mod_multiples_basic(2 * px + i, s);
        vstd::arithmetic::div_mod::lemma_mod_multiples_basic(2 * pz + j, s);
        assert((2 * px + i) * s == s * (2 * px + i)) by (nonlinear_arith);
        assert((2 * pz + j) * s == s * (2 * pz + j)) by (nonlinear_arith);
    }
    assert forall|i: int, j: int| (i == 0 || i == 2) && (j == 0 || j == 2) implies #[trigger] on_grid(
        corner(bl, s, i, j),
        2 * s,
    ) by {
        vstd::arithmetic::div_mod::lemma_mod_multiples_basic(px + i / 2, 2 * s);
        vstd::arithmetic::div_mod::lemma_mod_multiples_basic(pz + j / 2, 2 * s);
        assert((px + i / 2) * (2 * s) == s * (2 * px + i)) by (nonlinear_arith)
            requires
                i == 0 || i == 2,
        ;
        assert((pz + j / 2) * (2 * s) == s * (2 * pz + j)) by (nonlinear_arith)
            requires
                j == 0 || j == 2,
        ;
    }
    assert(on_grid(corner(bl, s, 0, 0), 2 * s));
    assert(on_grid(corner(bl, s, 2, 0), 2 * s));
    assert(on_grid(corner(bl, s, 0, 2), 2 * s));
    assert(on_grid(corner(bl, s, 2, 2), 2 * s));
}

/// Every piece of `ps` is a plain quad.
pub open spec fn all_quads(ps: Seq<Piece>) -> bool {
    forall|i: int| 0 <= i < ps.len() ==> (#[trigger] ps[i]) is Quad
}

proof fn lemma_quad_column_all_quads(bl: GridPoint, qw: i128, x: int, y_lo: int, y_hi: int)
    ensures
        all_quads(quad_column(bl, qw, x, y_lo, y_hi)),
    decreases y_hi - y_lo,
{
    if y_hi > y_lo {
        let a = quad_column(bl, qw, x, y_lo, y_hi - 1);
        let p = Piece::Quad { bottom_left: cell(bl, qw, x, y_hi - 1), width: qw };
        lemma_quad_column_all_quads(bl, qw, x, y_lo, y_hi - 1);
        assert forall|i: int| 0 <= i < a.push(p).len() implies (#[trigger] a.push(p)[i]) is Quad by {
            if i < a.len() {
                assert(a.push(p)[i] == a[i]);
            }
        }
    }
}

proof fn lemma_quad_block_all_quads(bl: GridPoint, qw: i128, x_lo: int, x_hi: int, y_lo: int, y_hi: int)
    ensures
        all_quads(quad_block(bl, qw, x_lo, x_hi, y_lo, y_hi)),
    decreases x_hi - x_lo,
{
    if x_hi > x_lo {
        let a = quad_block(bl, qw, x_lo, x_hi - 1, y_lo, y_hi);
        let b = quad_column(bl, qw, x_hi - 1, y_lo, y_hi);
        lemma_quad_block_all_quads(bl, qw, x_lo, x_hi - 1, y_lo, y_hi);
        lemma_quad_column_all_quads(bl, qw, x_hi - 1, y_lo, y_hi);
        assert forall|i: int| 0 <= i < (a + b).len() implies (#[trigger] (a + b)[i]) is Quad by {
            if i < a.len() {
                assert((a + b)[i] == a[i]);
            } else {
                assert((a + b)[i] == b[i - a.len()]);
            }
        }
    }
}

/// A piece on the grid of step `m` has all its vertices on that grid.
proof fn lemma_piece_aligned(p: Piece, r: int, m: int)
    requires
        piece_on_grid(p, m),
    ensures
        piece_aligned_on(p, r, m),
{
    let bl = piece_corner(p);
    let w = piece_width(p) as int;
    assert forall|j: int| 0 <= j < piece_points(p).len() && on_square(#[trigger] piece_points(p)[j], r) implies on_grid(
        piece_points(p)[j],
        m,
    ) by {
        assert(on_grid(corner(bl, w, 0, 0), m));
        assert(on_grid(corner(bl, w, 2, 0), m));
        assert(on_grid(corner(bl, w, 0, 2), m));
        assert(on_grid(corner(bl, w, 2, 2), m));
        assert(on_grid(corner(bl, w, 1, 0), m));
        assert(on_grid(corner(bl, w, 1, 2), m));
        assert(on_grid(corner(bl, w, 0, 1), m));
        assert(on_grid(corner(bl, w, 2, 1), m));
    }
}

/// A piece of the finer side: its corners are on the grid of step `2 * m`, and
/// its split vertex, if it has one, on the square of half the seam's radius.
proof fn lemma_inner_piece_aligned(p: Piece, r_in: int, r: int, m: int)
    requires
        piece_on_grid(p, m),
        1 <= m,
        0 <= r_in,
        r == 2 * r_in,
        p matches Piece::Triple { bottom_left, width, direction } ==> on_square(
            split_vertex(bottom_left, width as int, direction),
            r_in,
        ),
    ensures
        piece_aligned_on(p, r, 2 * m),
{
    let bl = piece_corner(p);
    let w = piece_width(p) as int;
    let pp = piece_points(p);
    assert(pp[0] == corner(bl, w, 0, 0));
    assert(pp[1] == corner(bl, w, 2, 0));
    assert(pp[2] == corner(bl, w, 0, 2));
    assert(pp[3] == corner(bl, w, 2, 2));
    assert forall|j: int| 0 <= j < pp.len() && on_square(#[trigger] pp[j], r) implies on_grid(pp[j], 2 * m) by {
        if j == 4 {
            let v = pp[4];
            assert(v.x == 0 && v.z == 0);
            assert(0int % (2 * m) == 0);
        }
    }
}

#[verifier::rlimit(40)]
proof fn lemma_slot_grid(c: int, n: nat, k: int)
    requires
        0 <= c <= 255,
        n <= MAX_RINGS,
        0 <= k < 12,
    ensures
        all_on_grid(
            subdivided_pieces(ring_block_corner(c, n, k), ring_scale(n) as i128, c / 4, ring_layout(k).2),
            ring_scale(n),
        ),
{
    let s = ring_scale(n);
    let q = c / 4;
    let bl = ring_block_corner(c, n, k);
    let qw = s as i128;
    lemma_ring_scale(n, 114);
    lemma_ring_scale_top();
    assert(qw as int == s);
    assert forall|x: int, y: int| 0 <= x < q && 0 <= y < q implies cell_on_grid(#[trigger] cell(bl, qw, x, y), qw as int) by {
        lemma_ring_cell(c, n, k, x, y);
        lemma_cell_on_grid(
            cell(bl, qw, x, y),
            s,
            -2 * q + ring_layout(k).0 * q + x,
            -2 * q + ring_layout(k).1 * q + y,
        );
    }
    lemma_subdivided_grid(bl, qw, q, ring_layout(k).2);
}

proof fn lemma_ring_prefix_grid(c: int, n: nat, k: int)
    requires
        0 <= c <= 255,
        n <= MAX_RINGS,
        k <= 12,
    ensures
        all_on_grid(ring_prefix(c, n, k), ring_scale(n)),
    decreases k,
{
    if k > 0 {
        lemma_ring_prefix_grid(c, n, k - 1);
        lemma_slot_grid(c, n, k - 1);
        lemma_grid_concat(
            ring_prefix(c, n, k - 1),
            subdivided_pieces(ring_block_corner(c, n, k - 1), ring_scale(n) as i128, c / 4, ring_layout(k - 1).2),
            ring_scale(n),
        );
    }
}

proof fn lemma_centre_grid(c: int)
    requires
        0 <= c <= 255,
    ensures
        all_on_grid(centre_pieces(c), 1),
        all_quads(centre_pieces(c)),
{
    let bl = centre_corner(c);
    assert forall|x: int, y: int| 0 <= x < c && 0 <= y < c implies cell_on_grid(#[trigger] cell(bl, 1, x, y), 1) by {
        lemma_cell_on_grid(cell(bl, 1, x, y), 1, -(c / 2) + x, -(c / 2) + y);
    }
    lemma_subdivided_grid(bl, 1, c, None);
    lemma_quad_block_all_quads(bl, 1, 0, c, 0, c);
}

/// The finer geometry that ring `n` surrounds: the centre grid for ring 1,
/// ring `n - 1` for the others.
pub open spec fn inner_neighbour(c: int, n: nat) -> Seq<Piece> {
    ring_pieces(c, (n - 1) as nat)
}

/// Where ring `n` meets the finer geometry inside it, every vertex of either
/// side that lies on the seam (the square of radius `seam_radius(c, n)`, in
/// half steps) has both coordinates multiples of the ring's quad width. The
/// ring's pieces are quads of that width with their corners and the
/// mid-points of their sides on that grid; the finer pieces are half as wide,
/// with their corners on it.
pub proof fn lemma_seam_vertices_meet(c: int, n: nat)
    requires
        0 <= c <= 255,
        c % 4 == 0,
        1 <= n <= MAX_RINGS,
    ensures
        aligned_on(ring_prefix(c, n, 12), seam_radius(c, n), ring_scale(n)),
        aligned_on(inner_neighbour(c, n), seam_radius(c, n), ring_scale(n)),
        all_on_grid(ring_prefix(c, n, 12), ring_scale(n)),
        all_on_grid(inner_neighbour(c, n), ring_scale((n - 1) as nat)),
        ring_scale(n) == 2 * ring_scale((n - 1) as nat),
{
    let r = seam_radius(c, n);
    let s = ring_scale(n);
    let outer = ring_prefix(c, n, 12);
    let inner = inner_neighbour(c, n);
    lemma_ring_prefix_grid(c, n, 12);
    assert forall|i: int| 0 <= i < outer.len() implies piece_aligned_on(#[trigger] outer[i], r, s) by {
        lemma_piece_aligned(outer[i], r, s);
    }
    lemma_ring_scale((n - 1) as nat, 114);
    lemma_ring_split_at_the_seam(c, n);
    if n == 1 {
        lemma_centre_grid(c);
        assert forall|i: int| 0 <= i < inner.len() implies piece_aligned_on(#[trigger] inner[i], r, s) by {
            lemma_inner_piece_aligned(inner[i], c / 2, r, 1);
        }
    } else {
        let m = (n - 1) as nat;
        let r_in = seam_radius(c, m);
        lemma_ring_prefix_grid(c, m, 12);
        lemma_ring_split_at_the_seam(c, m);
        assert((c / 4) * s == 2 * ((c / 4) * ring_scale(m))) by (nonlinear_arith)
            requires
                s == 2 * ring_scale(m),
        ;
        assert(0 <= (c / 4) * ring_scale(m)) by (nonlinear_arith)
            requires
                0 <= c / 4,
                1 <= ring_scale(m),
        ;
        assert(r == 2 * r_in);
        assert forall|i: int| 0 <= i < inner.len() implies piece_aligned_on(#[trigger] inner[i], r, s) by {
            assert(match inner[i] {
                Piece::Triple { bottom_left, width, direction } => split_edge_on(bottom_left, width as int, direction, r_in),
                Piece::Quad { bottom_left, width } => quad_off_seam(bottom_left, width as int, r_in),
            });
            lemma_inner_piece_aligned(inner[i], r_in, r, ring_scale(m));
        }
    }
}

/// Start of edge `e` (0, 1 or 2) of triangle `t` of piece `p`: the
/// triangle's `e`-th vertex.
pub open spec fn edge_start(p: Piece, t: int, e: int) -> GridPoint {
    piece_points(p)[piece_triangles(p)[3 * t + e]]
}

/// End of edge `e` of triangle `t` of piece `p`: the triangle's next vertex.
pub open spec fn edge_end(p: Piece, t: int, e: int) -> GridPoint {
    piece_points(p)[piece_triangles(p)[3 * t + (e + 1) % 3]]
}

/// `w` lies on the segment from `a` to `b` (seen from above), strictly
/// between its ends.
pub open spec fn strictly_between(w: GridPoint, a: GridPoint, b: GridPoint) -> bool {
    let dot = (w.x - a.x) * (b.x - a.x) + (w.z - a.z) * (b.z - a.z);
    &&& orientation(a, b, w) == 0
    &&& 0 < dot
    &&& dot < (b.x - a.x) * (b.x - a.x) + (b.z - a.z) * (b.z - a.z)
}

/// The segment from `a` to `b` spans at most `m` in x and in z.
pub open spec fn spans_at_most(a: GridPoint, b: GridPoint, m: int) -> bool {
    -m <= b.x - a.x <= m && -m <= b.z - a.z <= m
}

/// The corners of a cell of width `m` are exact lattice points.
pub open spec fn corners_exact(bl: GridPoint, m: int) -> bool {
    forall|i: int, j: int|
        0 <= i <= 2 && 0 <= j <= 2 ==> (#[trigger] corner(bl, m, i, j)).x == 2 * bl.x + i * m
            && corner(bl, m, i, j).z == 2 * bl.z + j * m
}

/// No point of the grid of step `m` lies strictly inside a segment between two
/// points of that grid that spans at most `m` in x and in z.
proof fn lemma_grid_segment(w: GridPoint, a: GridPoint, b: GridPoint, m: int)
    requires
        1 <= m,
        on_grid(w, m),
        on_grid(a, m),
        on_grid(b, m),
        spans_at_most(a, b, m),
    ensures
        !strictly_between(w, a, b),
{
    let ax = (a.x as int) / m;
    let az = (a.z as int) / m;
    let bx = (b.x as int) / m;
    let bz = (b.z as int) / m;
    let wx = (w.x as int) / m;
    let wz = (w.z as int) / m;
    vstd::arithmetic::div_mod::lemma_fundamental_div_mod(a.x as int, m);
    vstd::arithmetic::div_mod::lemma_fundamental_div_mod(a.z as int, m);
    vstd::arithmetic::div_mod::lemma_fundamental_div_mod(b.x as int, m);
    vstd::arithmetic::div_mod::lemma_fundamental_div_mod(b.z as int, m);
    vstd::arithmetic::div_mod::lemma_fundamental_div_mod(w.x as int, m);
    vstd::arithmetic::div_mod::lemma_fundamental_div_mod(w.z as int, m);
    let ex = bx - ax;
    let ez = bz - az;
    let dx = wx - ax;
    let dz = wz - az;
    assert(b.x - a.x == m * ex && b.z - a.z == m * ez && w.x - a.x == m * dx && w.z - a.z == m * dz)
        by (nonlinear_arith)
        requires
            a.x == m * ax,
            a.z == m * az,
            b.x == m * bx,
            b.z == m * bz,
            w.x == m * wx,
            w.z == m * wz,
            ex == bx - ax,
            ez == bz - az,
            dx == wx - ax,
            dz == wz - az,
    ;
    assert(-1 <= ex <= 1 && -1 <= ez <= 1) by (nonlinear_arith)
        requires
            1 <= m,
            -m <= m * ex <= m,
            -m <= m * ez <= m,
    ;
    if strictly_between(w, a, b) {
        let mm = m * m;
        let ux = b.x - a.x;
        let uz = b.z - a.z;
        let vx = w.x - a.x;
        let vz = w.z - a.z;
        assert(orientation(a, b, w) == uz * vx - ux * vz);
        lemma_scaled_products(m, ex, ez, dx, dz);
        assert(uz * vx - ux * vz == mm * (ez * dx - ex * dz));
        assert(vx * ux + vz * uz == mm * (dx * ex + dz * ez));
        assert(ux * ux + uz * uz == mm * (ex * ex + ez * ez));
        assert(mm >= 1) by (nonlinear_arith)
            requires
                1 <= m,
                mm == m * m,
        ;
        assert(ez * dx - ex * dz == 0 && 0 < dx * ex + dz * ez < ex * ex + ez * ez) by (nonlinear_arith)
            requires
                mm >= 1,
                mm * (ez * dx - ex * dz) == 0,
                0 < mm * (dx * ex + dz * ez),
                mm * (dx * ex + dz * ez) < mm * (ex * ex + ez * ez),
        ;
        lemma_unit_segment(ex, ez, dx, dz);
    }
}

proof fn lemma_scaled_products(m: int, ex: int, ez: int, dx: int, dz: int)
    ensures
        (m * ez) * (m * dx) - (m * ex) * (m * dz) == (m * m) * (ez * dx - ex * dz),
        (m * dx) * (m * ex) + (m * dz) * (m * ez) == (m * m) * (dx * ex + dz * ez),
        (m * ex) * (m * ex) + (m * ez) * (m * ez) == (m * m) * (ex * ex + ez * ez),
{
    lemma_scaled_product(ez, dx, m);
    lemma_scaled_product(ex, dz, m);
    lemma_scaled_product(dx, ex, m);
    lemma_scaled_product(dz, ez, m);
    lemma_scaled_product(ex, ex, m);
    lemma_scaled_product(ez, ez, m);
    vstd::arithmetic::mul::lemma_mul_is_commutative(m * ez, m * dx);
    vstd::arithmetic::mul::lemma_mul_is_commutative(ez * dx, m * m);
    vstd::arithmetic::mul::lemma_mul_is_commutative(ex * dz, m * m);
    vstd::arithmetic::mul::lemma_mul_is_commutative(dx * ex, m * m);
    vstd::arithmetic::mul::lemma_mul_is_commutative(dz * ez, m * m);
    vstd::arithmetic::mul::lemma_mul_is_commutative(ex * ex, m * m);
    vstd::arithmetic::mul::lemma_mul_is_commutative(ez * ez, m * m);
    vstd::arithmetic::mul::lemma_mul_is_commutative(m, ez);
    vstd::arithmetic::mul::lemma_mul_is_commutative(m, dx);
    vstd::arithmetic::mul::lemma_mul_is_commutative(m, ex);
    vstd::arithmetic::mul::lemma_mul_is_commutative(m, dz);
    vstd::arithmetic::mul::lemma_mul_is_distributive_sub(m * m, ez * dx, ex * dz);
    vstd::arithmetic::mul::lemma_mul_is_distributive_add(m * m, dx * ex, dz * ez);
    vstd::arithmetic::mul::lemma_mul_is_distributive_add(m * m, ex * ex, ez * ez);
}

/// A lattice point collinear with a segment of at most one lattice step in x
/// and in z is not strictly between its ends.
proof fn lemma_unit_segment(ex: int, ez: int, dx: int, dz: int)
    requires
        -1 <= ex <= 1,
        -1 <= ez <= 1,
        ez * dx - ex * dz == 0,
    ensures
        !(0 < dx * ex + dz * ez < ex * ex + ez * ez),
{
    if ex == -1 && ez == -1 {
        assert(!(0 < dx * ex + dz * ez < ex * ex + ez * ez)) by (nonlinear_arith)
            requires
                ex == -1,
                ez == -1,
                ez * dx - ex * dz == 0,
        ;
    } else if ex == -1 && ez == 0 {
        assert(!(0 < dx * ex + dz * ez < ex * ex + ez * ez)) by (nonlinear_arith)
            requires
                ex == -1,
                ez == 0,
                ez * dx - ex * dz == 0,
        ;
    } else if ex == -1 && ez == 1 {
        assert(!(0 < dx * ex + dz * ez < ex * ex + ez * ez)) by (nonlinear_arith)
            requires
                ex == -1,
                ez == 1,
                ez * dx - ex * dz == 0,
        ;
    } else if ex == 0 && ez == -1 {
        assert(!(0 < dx * ex + dz * ez < ex * ex + ez * ez)) by (nonlinear_arith)
            requires
                ex == 0,
                ez == -1,
                ez * dx - ex * dz == 0,
        ;
    } else if ex == 0 && ez == 0 {
        assert(!(0 < dx * ex + dz * ez < ex * ex + ez * ez)) by (nonlinear_arith)
            requires
                ex == 0,
                ez == 0,
                ez * dx - ex * dz == 0,
        ;
    } else if ex == 0 && ez == 1 {
        assert(!(0 < dx * ex + dz * ez < ex * ex + ez * ez)) by (nonlinear_arith)
            requires
                ex == 0,
                ez == 1,
                ez * dx - ex * dz == 0,
        ;
    } else if ex == 1 && ez == -1 {
        assert(!(0 < dx * ex + dz * ez < ex * ex + ez * ez)) by (nonlinear_arith)
            requires
                ex == 1,
                ez == -1,
                ez * dx - ex * dz == 0,
        ;
    } else if ex == 1 && ez == 0 {
        assert(!(0 < dx * ex + dz * ez < ex * ex + ez * ez)) by (nonlinear_arith)
            requires
                ex == 1,
                ez == 0,
                ez * dx - ex * dz == 0,
        ;
    } else if ex == 1 && ez == 1 {
        assert(!(0 < dx * ex + dz * ez < ex * ex + ez * ez)) by (nonlinear_arith)
            requires
                ex == 1,
                ez == 1,
                ez * dx - ex * dz == 0,
        ;
    }
}

/// Every point of a piece is one of its corners or side mid-points.
proof fn lemma_piece_point(p: Piece, k: int)
    requires
        0 <= k < piece_points(p).len(),
    ensures
        exists|i: int, j: int|
            0 <= i <= 2 && 0 <= j <= 2 && piece_points(p)[k] == corner(piece_corner(p), piece_width(p) as int, i, j),
{
    let bl = piece_corner(p);
    let w = piece_width(p) as int;
    if k == 0 {
        assert(piece_points(p)[k] == corner(bl, w, 0, 0));
    } else if k == 1 {
        assert(piece_points(p)[k] == corner(bl, w, 2, 0));
    } else if k == 2 {
        assert(piece_points(p)[k] == corner(bl, w, 0, 2));
    } else if k == 3 {
        assert(piece_points(p)[k] == corner(bl, w, 2, 2));
    } else {
        match p {
            Piece::Triple { direction, .. } => match direction {
                DirectionForTiple::Up => assert(piece_points(p)[k] == corner(bl, w, 1, 2)),
                DirectionForTiple::Down => assert(piece_points(p)[k] == corner(bl, w, 1, 0)),
                DirectionForTiple::Left => assert(piece_points(p)[k] == corner(bl, w, 2, 1)),
                DirectionForTiple::Right => assert(piece_points(p)[k] == corner(bl, w, 0, 1)),
            },
            Piece::Quad { .. } => {},
        }
    }
}

/// The two ends of every triangle edge of a piece are vertices of the piece.
proof fn lemma_edge_ends(p: Piece, t: int, e: int)
    requires
        0 <= t < piece_triangles(p).len() / 3,
        0 <= e < 3,
    ensures
        0 <= piece_triangles(p)[3 * t + e] < piece_points(p).len(),
        0 <= piece_triangles(p)[3 * t + (e + 1) % 3] < piece_points(p).len(),
        edge_start(p, t, e) == piece_points(p)[piece_triangles(p)[3 * t + e]],
        edge_end(p, t, e) == piece_points(p)[piece_triangles(p)[3 * t + (e + 1) % 3]],
{
    let tri = piece_triangles(p);
    assert(forall|k: int| 0 <= k < tri.len() ==> 0 <= #[trigger] tri[k] < piece_points(p).len()) by {
        assert forall|k: int| 0 <= k < tri.len() implies 0 <= #[trigger] tri[k] < piece_points(p).len() by {
            if k == 0 {}
            if k == 1 {}
            if k == 2 {}
            if k == 3 {}
            if k == 4 {}
            if k == 5 {}
            if k == 6 {}
            if k == 7 {}
            if k == 8 {}
        }
    }
    assert(0 <= 3 * t + e < tri.len() && 0 <= 3 * t + (e + 1) % 3 < tri.len());
}

/// Any two vertices of a piece of width `m` whose corners are exact are at
/// most `2 * m` apart in x and in z.
proof fn lemma_piece_points_close(p: Piece, m: int, k1: int, k2: int)
    requires
        1 <= m,
        piece_width(p) == m,
        corners_exact(piece_corner(p), m),
        0 <= k1 < piece_points(p).len(),
        0 <= k2 < piece_points(p).len(),
    ensures
        spans_at_most(piece_points(p)[k1], piece_points(p)[k2], 2 * m),
{
    let bl = piece_corner(p);
    lemma_piece_point(p, k1);
    lemma_piece_point(p, k2);
    let (i1, j1) = choose|i: int, j: int| 0 <= i <= 2 && 0 <= j <= 2 && piece_points(p)[k1] == corner(bl, m, i, j);
    let (i2, j2) = choose|i: int, j: int| 0 <= i <= 2 && 0 <= j <= 2 && piece_points(p)[k2] == corner(bl, m, i, j);
    assert(corner(bl, m, i1, j1).x == 2 * bl.x + i1 * m && corner(bl, m, i1, j1).z == 2 * bl.z + j1 * m);
    assert(corner(bl, m, i2, j2).x == 2 * bl.x + i2 * m && corner(bl, m, i2, j2).z == 2 * bl.z + j2 * m);
    assert(-2 * m <= i2 * m - i1 * m <= 2 * m && -2 * m <= j2 * m - j1 * m <= 2 * m) by (nonlinear_arith)
        requires
            1 <= m,
            0 <= i1 <= 2,
            0 <= j1 <= 2,
            0 <= i2 <= 2,
            0 <= j2 <= 2,
    ;
}

/// A triangle edge of a ring quad of width `m` at the seam with both ends on
/// the seam is half of the quad's split edge: it spans `m`.
proof fn lemma_outer_edge(p: Piece, r: int, m: int, t: int, e: int)
    requires
        1 <= m,
        piece_width(p) == m,
        corners_exact(piece_corner(p), m),
        match p {
            Piece::Triple { bottom_left, width, direction } => split_edge_on(bottom_left, width as int, direction, r),
            Piece::Quad { bottom_left, width } => quad_off_seam(bottom_left, width as int, r),
        },
        0 <= t < piece_triangles(p).len() / 3,
        0 <= e < 3,
        on_square(edge_start(p, t, e), r),
        on_square(edge_end(p, t, e), r),
    ensures
        spans_at_most(edge_start(p, t, e), edge_end(p, t, e), m),
{
    let bl = piece_corner(p);
    let pp = piece_points(p);
    let tri = piece_triangles(p);
    lemma_edge_ends(p, t, e);
    assert(pp[0] == corner(bl, m, 0, 0));
    assert(pp[1] == corner(bl, m, 2, 0));
    assert(pp[2] == corner(bl, m, 0, 2));
    assert(pp[3] == corner(bl, m, 2, 2));
    assert(corner(bl, m, 0, 0).x == 2 * bl.x && corner(bl, m, 0, 0).z == 2 * bl.z);
    assert(corner(bl, m, 2, 0).x == 2 * bl.x + 2 * m && corner(bl, m, 2, 0).z == 2 * bl.z);
    assert(corner(bl, m, 0, 2).x == 2 * bl.x && corner(bl, m, 0, 2).z == 2 * bl.z + 2 * m);
    assert(corner(bl, m, 2, 2).x == 2 * bl.x + 2 * m && corner(bl, m, 2, 2).z == 2 * bl.z + 2 * m);
    assert(corner(bl, m, 1, 0).x == 2 * bl.x + m && corner(bl, m, 1, 0).z == 2 * bl.z);
    assert(corner(bl, m, 1, 2).x == 2 * bl.x + m && corner(bl, m, 1, 2).z == 2 * bl.z + 2 * m);
    assert(corner(bl, m, 0, 1).x == 2 * bl.x && corner(bl, m, 0, 1).z == 2 * bl.z + m);
    assert(corner(bl, m, 2, 1).x == 2 * bl.x + 2 * m && corner(bl, m, 2, 1).z == 2 * bl.z + m);
    match p {
        Piece::Triple { direction, .. } => {
            assert(pp[4] == split_vertex(bl, m, direction));
        },
        Piece::Quad { .. } => {},
    }
        if false {
        } else if t == 0 && e == 0 {
            assert(tri[3 * t + e] == tri[0] && tri[3 * t + (e + 1) % 3] == tri[1]);
        } else if t == 0 && e == 1 {
            assert(tri[3 * t + e] == tri[1] && tri[3 * t + (e + 1) % 3] == tri[2]);
        } else if t == 0 && e == 2 {
            assert(tri[3 * t + e] == tri[2] && tri[3 * t + (e + 1) % 3] == tri[0]);
        } else if t == 1 && e == 0 {
            assert(tri[3 * t + e] == tri[3] && tri[3 * t + (e + 1) % 3] == tri[4]);
        } else if t == 1 && e == 1 {
            assert(tri[3 * t + e] == tri[4] && tri[3 * t + (e + 1) % 3] == tri[5]);
        } else if t == 1 && e == 2 {
            assert(tri[3 * t + e] == tri[5] && tri[3 * t + (e + 1) % 3] == tri[3]);
        } else if t == 2 && e == 0 {
            assert(tri[3 * t + e] == tri[6] && tri[3 * t + (e + 1) % 3] == tri[7]);
        } else if t == 2 && e == 1 {
            assert(tri[3 * t + e] == tri[7] && tri[3 * t + (e + 1) % 3] == tri[8]);
        } else if t == 2 && e == 2 {
            assert(tri[3 * t + e] == tri[8] && tri[3 * t + (e + 1) % 3] == tri[6]);
        }
}

/// Every triangle edge of a piece of width `m` with exact corners spans at most `2 * m`.
proof fn lemma_inner_edge(p: Piece, m: int, t: int, e: int)
    requires
        1 <= m,
        piece_width(p) == m,
        corners_exact(piece_corner(p), m),
        0 <= t < piece_triangles(p).len() / 3,
        0 <= e < 3,
    ensures
        spans_at_most(edge_start(p, t, e), edge_end(p, t, e), 2 * m),
{
    lemma_edge_ends(p, t, e);
    lemma_piece_points_close(p, m, piece_triangles(p)[3 * t + e], piece_triangles(p)[3 * t + (e + 1) % 3]);
}

/// The pieces on both sides of the seam of ring `n`: the finer geometry inside
/// the ring, then the ring itself, in the order the mesh holds them.
pub open spec fn seam_pieces(c: int, n: nat) -> Seq<Piece> {
    inner_neighbour(c, n) + ring_prefix(c, n, 12)
}

/// Where ring `n` meets the finer geometry inside it, no crack opens: no
/// vertex of either side that lies on the seam lies strictly inside a triangle
/// edge of either side whose two ends lie on the seam.
pub proof fn lemma_seam_has_no_t_junction(c: int, n: nat, i: int, t: int, e: int, i2: int, j: int)
    requires
        0 <= c <= 255,
        c % 4 == 0,
        1 <= n <= MAX_RINGS,
        0 <= i < seam_pieces(c, n).len(),
        0 <= t < piece_triangles(seam_pieces(c, n)[i]).len() / 3,
        0 <= e < 3,
        on_square(edge_start(seam_pieces(c, n)[i], t, e), seam_radius(c, n)),
        on_square(edge_end(seam_pieces(c, n)[i], t, e), seam_radius(c, n)),
        0 <= i2 < seam_pieces(c, n).len(),
        0 <= j < piece_points(seam_pieces(c, n)[i2]).len(),
        on_square(piece_points(seam_pieces(c, n)[i2])[j], seam_radius(c, n)),
    ensures
        !strictly_between(
            piece_points(seam_pieces(c, n)[i2])[j],
            edge_start(seam_pieces(c, n)[i], t, e),
            edge_end(seam_pieces(c, n)[i], t, e),
        ),
{
    let r = seam_radius(c, n);
    let s = ring_scale(n);
    let inner = inner_neighbour(c, n);
    let outer = ring_prefix(c, n, 12);
    let ps = seam_pieces(c, n);
    let p = ps[i];
    let w = piece_points(ps[i2])[j];
    let a = edge_start(p, t, e);
    let b = edge_end(p, t, e);
    lemma_seam_vertices_meet(c, n);
    lemma_ring_split_at_the_seam(c, n);
    lemma_ring_scale((n - 1) as nat, 114);
    lemma_edge_ends(p, t, e);
    // every vertex on the seam is on the grid of step `s`
    assert forall|k: int, l: int|
        0 <= k < ps.len() && 0 <= l < piece_points(ps[k]).len() && on_square(piece_points(ps[k])[l], r) implies on_grid(
        #[trigger] piece_points(ps[k])[l],
        s,
    ) by {
        if k < inner.len() {
            assert(ps[k] == inner[k]);
            assert(piece_aligned_on(inner[k], r, s));
        } else {
            assert(ps[k] == outer[k - inner.len()]);
            assert(piece_aligned_on(outer[k - inner.len()], r, s));
        }
    }
    assert(on_grid(w, s));
    assert(on_grid(a, s));
    assert(on_grid(b, s));
    if i < inner.len() {
        assert(p == inner[i]);
        assert(piece_on_grid(inner[i], ring_scale((n - 1) as nat)));
        lemma_inner_edge(p, ring_scale((n - 1) as nat), t, e);
    } else {
        assert(p == outer[i - inner.len()]);
        assert(piece_on_grid(outer[i - inner.len()], s));
        assert(match outer[i - inner.len()] {
            Piece::Triple { bottom_left, width, direction } => split_edge_on(bottom_left, width as int, direction, r),
            Piece::Quad { bottom_left, width } => quad_off_seam(bottom_left, width as int, r),
        });
        lemma_outer_edge(p, r, s, t, e);
    }
    lemma_grid_segment(w, a, b, s);
}

/// Every piece of `ps` satisfies `f`.
pub open spec fn all_pieces(ps: Seq<Piece>, f: spec_fn(Piece) -> bool) -> bool {
    forall|i: int| 0 <= i < ps.len() ==> f(#[trigger] ps[i])
}

proof fn lemma_all_concat(a: Seq<Piece>, b: Seq<Piece>, f: spec_fn(Piece) -> bool)
    requires
        all_pieces(a, f),
        all_pieces(b, f),
    ensures
        all_pieces(a + b, f),
{
    assert forall|i: int| 0 <= i < (a + b).len() implies f(#[trigger] (a + b)[i]) by {
        if i < a.len() {
            assert((a + b)[i] == a[i]);
        } else {
            assert((a + b)[i] == b[i - a.len()]);
        }
    }
}

proof fn lemma_all_push(a: Seq<Piece>, p: Piece, f: spec_fn(Piece) -> bool)
    requires
        all_pieces(a, f),
        f(p),
    ensures
        all_pieces(a.push(p), f),
{
    assert forall|i: int| 0 <= i < a.push(p).len() implies f(#[trigger] a.push(p)[i]) by {
        if i < a.len() {
            assert(a.push(p)[i] == a[i]);
        }
    }
}

/// `f` holds of every piece, plain or triple, whose corner is a cell in the given range.
pub open spec fn cells_satisfy(f: spec_fn(Piece) -> bool, bl: GridPoint, qw: i128, x_lo: int, x_hi: int, y_lo: int, y_hi: int) -> bool {
    forall|x: int, y: int|
        #![trigger cell(bl, qw, x, y)]
        x_lo <= x < x_hi && y_lo <= y < y_hi ==> f(Piece::Quad { bottom_left: cell(bl, qw, x, y), width: qw })
            && forall|d: DirectionForTiple| f(Piece::Triple { bottom_left: cell(bl, qw, x, y), width: qw, direction: d })
}

proof fn lemma_quad_column_all(f: spec_fn(Piece) -> bool, bl: GridPoint, qw: i128, x: int, y_lo: int, y_hi: int)
    requires
        cells_satisfy(f, bl, qw, x, x + 1, y_lo, y_hi),
    ensures
        all_pieces(quad_column(bl, qw, x, y_lo, y_hi), f),
    decreases y_hi - y_lo,
{
    if y_hi > y_lo {
        lemma_quad_column_all(f, bl, qw, x, y_lo, y_hi - 1);
        let c = cell(bl, qw, x, y_hi - 1);
        lemma_all_push(quad_column(bl, qw, x, y_lo, y_hi - 1), Piece::Quad { bottom_left: c, width: qw }, f);
    }
}

proof fn lemma_quad_block_all(f: spec_fn(Piece) -> bool, bl: GridPoint, qw: i128, x_lo: int, x_hi: int, y_lo: int, y_hi: int)
    requires
        cells_satisfy(f, bl, qw, x_lo, x_hi, y_lo, y_hi),
    ensures
        all_pieces(quad_block(bl, qw, x_lo, x_hi, y_lo, y_hi), f),
    decreases x_hi - x_lo,
{
    if x_hi > x_lo {
        lemma_quad_block_all(f, bl, qw, x_lo, x_hi - 1, y_lo, y_hi);
        assert(cells_satisfy(f, bl, qw, x_hi - 1, x_hi, y_lo, y_hi)) by {
            assert forall|x: int, y: int| #![trigger cell(bl, qw, x, y)] x_hi - 1 <= x < x_hi && y_lo <= y < y_hi implies f(
                Piece::Quad { bottom_left: cell(bl, qw, x, y), width: qw },
            ) && forall|d: DirectionForTiple| f(Piece::Triple { bottom_left: cell(bl, qw, x, y), width: qw, direction: d }) by {
                let _ = cell(bl, qw, x, y);
            }
        }
        lemma_quad_column_all(f, bl, qw, x_hi - 1, y_lo, y_hi);
        lemma_all_concat(quad_block(bl, qw, x_lo, x_hi - 1, y_lo, y_hi), quad_column(bl, qw, x_hi - 1, y_lo, y_hi), f);
    }
}

proof fn lemma_triple_row_all(f: spec_fn(Piece) -> bool, bl: GridPoint, qw: i128, x_lo: int, x_hi: int, y: int, dir: DirectionForTiple)
    requires
        cells_satisfy(f, bl, qw, x_lo, x_hi, y, y + 1),
    ensures
        all_pieces(triple_row(bl, qw, x_lo, x_hi, y, dir), f),
    decreases x_hi - x_lo,
{
    if x_hi > x_lo {
        lemma_triple_row_all(f, bl, qw, x_lo, x_hi - 1, y, dir);
        let c = cell(bl, qw, x_hi - 1, y);
        lemma_all_push(triple_row(bl, qw, x_lo, x_hi - 1, y, dir), Piece::Triple { bottom_left: c, width: qw, direction: dir }, f);
    }
}

proof fn lemma_triple_column_all(f: spec_fn(Piece) -> bool, bl: GridPoint, qw: i128, x: int, y_lo: int, y_hi: int, dir: DirectionForTiple)
    requires
        cells_satisfy(f, bl, qw, x, x + 1, y_lo, y_hi),
    ensures
        all_pieces(triple_column(bl, qw, x, y_lo, y_hi, dir), f),
    decreases y_hi - y_lo,
{
    if y_hi > y_lo {
        lemma_triple_column_all(f, bl, qw, x, y_lo, y_hi - 1, dir);
        let c = cell(bl, qw, x, y_hi - 1);
        lemma_all_push(triple_column(bl, qw, x, y_lo, y_hi - 1, dir), Piece::Triple { bottom_left: c, width: qw, direction: dir }, f);
    }
}

proof fn lemma_subdivided_all(f: spec_fn(Piece) -> bool, bl: GridPoint, qw: i128, d: int, dir: Option<DirectionForTiple>)
    requires
        cells_satisfy(f, bl, qw, 0, d, 0, d),
    ensures
        all_pieces(subdivided_pieces(bl, qw, d, dir), f),
{
    match dir {
        Some(DirectionForTiple::Up) => {
            lemma_quad_block_all(f, bl, qw, 0, d, 0, d - 1);
            lemma_triple_row_all(f, bl, qw, 0, d, d - 1, DirectionForTiple::Up);
            lemma_all_concat(quad_block(bl, qw, 0, d, 0, d - 1), triple_row(bl, qw, 0, d, d - 1, DirectionForTiple::Up), f);
        },
        Some(DirectionForTiple::Down) => {
            lemma_quad_block_all(f, bl, qw, 0, d, 1, d);
            lemma_triple_row_all(f, bl, qw, 0, d, 0, DirectionForTiple::Down);
            lemma_all_concat(quad_block(bl, qw, 0, d, 1, d), triple_row(bl, qw, 0, d, 0, DirectionForTiple::Down), f);
        },
        Some(DirectionForTiple::Right) => {
            lemma_quad_block_all(f, bl, qw, 0, d - 1, 0, d);
            lemma_triple_column_all(f, bl, qw, d - 1, 0, d, DirectionForTiple::Left);
            lemma_all_concat(quad_block(bl, qw, 0, d - 1, 0, d), triple_column(bl, qw, d - 1, 0, d, DirectionForTiple::Left), f);
        },
        Some(DirectionForTiple::Left) => {
            lemma_quad_block_all(f, bl, qw, 1, d, 0, d);
            lemma_triple_column_all(f, bl, qw, 0, 0, d, DirectionForTiple::Right);
            lemma_all_concat(quad_block(bl, qw, 1, d, 0, d), triple_column(bl, qw, 0, 0, d, DirectionForTiple::Right), f);
        },
        None => {
            lemma_quad_block_all(f, bl, qw, 0, d, 0, d);
        },
    }
}

/// The cell of width `w` with corner `bl` (in half steps, `2 * bl` to
/// `2 * bl + 2 * w` in x and in z) lies within the square of radius `outer`
/// and outside the open square of radius `inner`.
pub open spec fn cell_placed(bl: GridPoint, w: int, inner: int, outer: int) -> bool {
    &&& -outer <= 2 * bl.x && 2 * bl.x + 2 * w <= outer
    &&& -outer <= 2 * bl.z && 2 * bl.z + 2 * w <= outer
    &&& (2 * bl.x + 2 * w <= -inner || inner <= 2 * bl.x || 2 * bl.z + 2 * w <= -inner || inner <= 2 * bl.z)
}

/// Pieces of ring `m`, the centre grid for `m == 0`.
pub open spec fn ring_pieces(c: int, m: nat) -> Seq<Piece> {
    if m == 0 {
        centre_pieces(c)
    } else {
        ring_prefix(c, m, 12)
    }
}

/// Half-step radius of the square that ring `m` fills up to (the centre grid
/// for `m == 0`).
pub open spec fn outer_radius(c: int, m: nat) -> int {
    4 * ((c / 4) * ring_scale(m))
}

/// Half-step radius of the hole of ring `m`; the centre grid has none.
pub open spec fn inner_radius(c: int, m: nat) -> int {
    if m == 0 {
        0
    } else {
        seam_radius(c, m)
    }
}

proof fn lemma_slot_placed(c: int, n: nat, k: int)
    requires
        0 <= c <= 255,
        1 <= n <= MAX_RINGS,
        0 <= k < 12,
    ensures
        all_pieces(
            subdivided_pieces(ring_block_corner(c, n, k), ring_scale(n) as i128, c / 4, ring_layout(k).2),
            |p: Piece| cell_placed(piece_corner(p), ring_scale(n), inner_radius(c, n), outer_radius(c, n)),
        ),
{
    let s = ring_scale(n);
    let q = c / 4;
    let a = q * s;
    let bl = ring_block_corner(c, n, k);
    let qw = s as i128;
    let f = |p: Piece| cell_placed(piece_corner(p), ring_scale(n), inner_radius(c, n), outer_radius(c, n));
    lemma_ring_scale(n, 114);
    assert(0 <= a) by (nonlinear_arith)
        requires
            a == q * s,
            0 <= q,
            1 <= s,
    ;
    let (bx, by, _) = ring_layout(k);
    assert(bx == 0 || bx == 3 || by == 0 || by == 3);
    assert(0 <= bx <= 3 && 0 <= by <= 3);
    assert(0 <= bx * a <= 3 * a && 0 <= by * a <= 3 * a && (bx == 0 ==> bx * a == 0) && (bx == 3 ==> bx * a == 3 * a)
        && (by == 0 ==> by * a == 0) && (by == 3 ==> by * a == 3 * a)) by (nonlinear_arith)
        requires
            0 <= bx <= 3,
            0 <= by <= 3,
            0 <= a,
    ;
    assert forall|x: int, y: int| #![trigger cell(bl, qw, x, y)] 0 <= x < q && 0 <= y < q implies f(
        Piece::Quad { bottom_left: cell(bl, qw, x, y), width: qw },
    ) && forall|d: DirectionForTiple| f(Piece::Triple { bottom_left: cell(bl, qw, x, y), width: qw, direction: d }) by {
        lemma_ring_cell(c, n, k, x, y);
    }
    lemma_subdivided_all(f, bl, qw, q, ring_layout(k).2);
}

proof fn lemma_ring_prefix_placed(c: int, n: nat, k: int)
    requires
        0 <= c <= 255,
        1 <= n <= MAX_RINGS,
        k <= 12,
    ensures
        all_pieces(
            ring_prefix(c, n, k),
            |p: Piece| cell_placed(piece_corner(p), ring_scale(n), inner_radius(c, n), outer_radius(c, n)),
        ),
    decreases k,
{
    let f = |p: Piece| cell_placed(piece_corner(p), ring_scale(n), inner_radius(c, n), outer_radius(c, n));
    if k > 0 {
        lemma_ring_prefix_placed(c, n, k - 1);
        lemma_slot_placed(c, n, k - 1);
        lemma_all_concat(
            ring_prefix(c, n, k - 1),
            subdivided_pieces(ring_block_corner(c, n, k - 1), ring_scale(n) as i128, c / 4, ring_layout(k - 1).2),
            f,
        );
    }
}

proof fn lemma_centre_placed(c: int)
    requires
        0 <= c <= 255,
        c % 4 == 0,
    ensures
        all_pieces(centre_pieces(c), |p: Piece| cell_placed(piece_corner(p), 1, 0, outer_radius(c, 0))),
{
    let bl = centre_corner(c);
    let f = |p: Piece| cell_placed(piece_corner(p), 1, 0, outer_radius(c, 0));
    assert(outer_radius(c, 0) == c);
    assert forall|x: int, y: int| #![trigger cell(bl, 1, x, y)] 0 <= x < c && 0 <= y < c implies f(
        Piece::Quad { bottom_left: cell(bl, 1, x, y), width: 1 },
    ) && forall|d: DirectionForTiple| f(Piece::Triple { bottom_left: cell(bl, 1, x, y), width: 1, direction: d }) by {
        let p = cell(bl, 1, x, y);
        assert(p.x == -(c / 2) + x && p.z == -(c / 2) + y);
    }
    lemma_subdivided_all(f, bl, 1, c, None);
}

/// Where piece `i` of the rings `1 ..= r` comes from: its ring and its place there.
proof fn lemma_rings_piece(c: int, r: nat, i: int) -> (mk: (nat, int))
    requires
        0 <= i < rings_pieces(c, r).len(),
    ensures
        1 <= mk.0 <= r,
        0 <= mk.1 < ring_pieces(c, mk.0).len(),
        rings_pieces(c, r)[i] == ring_pieces(c, mk.0)[mk.1],
        i == rings_pieces(c, (mk.0 - 1) as nat).len() + mk.1,
    decreases r,
{
    let prev = rings_pieces(c, (r - 1) as nat);
    let cur = ring_prefix(c, r, 12);
    assert(r >= 1);
    assert(rings_pieces(c, r) == prev + cur);
    if i < prev.len() {
        assert(rings_pieces(c, r)[i] == prev[i]);
        lemma_rings_piece(c, (r - 1) as nat, i)
    } else {
        assert(rings_pieces(c, r)[i] == cur[i - prev.len()]);
        (r, i - prev.len())
    }
}

/// Where the pieces of ring `m` (the centre grid for `m == 0`) start in the
/// whole mesh.
pub open spec fn ring_start(c: int, m: nat) -> int {
    if m == 0 {
        0
    } else {
        (centre_pieces(c).len() + rings_pieces(c, (m - 1) as nat).len()) as int
    }
}

/// Where piece `i` of the whole mesh comes from: its ring (0 for the centre
/// grid) and its place there.
proof fn lemma_base_piece(c: int, rings: nat, i: int) -> (mk: (nat, int))
    requires
        0 <= i < base_mesh_pieces(c, rings).len(),
    ensures
        mk.0 <= rings,
        0 <= mk.1 < ring_pieces(c, mk.0).len(),
        base_mesh_pieces(c, rings)[i] == ring_pieces(c, mk.0)[mk.1],
        i == ring_start(c, mk.0) + mk.1,
{
    let centre = centre_pieces(c);
    let rest = rings_pieces(c, rings);
    if i < centre.len() {
        assert(base_mesh_pieces(c, rings)[i] == centre[i]);
        (0, i)
    } else {
        assert(base_mesh_pieces(c, rings)[i] == rest[i - centre.len()]);
        lemma_rings_piece(c, rings, i - centre.len())
    }
}

/// What the pieces of ring `m` (the centre grid for `m == 0`) are made of.
proof fn lemma_ring_piece_facts(c: int, m: nat, k: int)
    requires
        0 <= c <= 255,
        c % 4 == 0,
        m <= MAX_RINGS,
        0 <= k < ring_pieces(c, m).len(),
    ensures
        piece_on_grid(ring_pieces(c, m)[k], ring_scale(m)),
        cell_placed(piece_corner(ring_pieces(c, m)[k]), ring_scale(m), inner_radius(c, m), outer_radius(c, m)),
        m == 0 ==> ring_pieces(c, m)[k] is Quad,
        m >= 1 ==> match ring_pieces(c, m)[k] {
            Piece::Triple { bottom_left, width, direction } => split_edge_on(bottom_left, width as int, direction, seam_radius(c, m)),
            Piece::Quad { bottom_left, width } => quad_off_seam(bottom_left, width as int, seam_radius(c, m)),
        },
{
    let p = ring_pieces(c, m)[k];
    if m == 0 {
        lemma_centre_grid(c);
        lemma_centre_placed(c);
        let f = |p: Piece| cell_placed(piece_corner(p), 1, 0, outer_radius(c, 0));
        assert(f(centre_pieces(c)[k]));
    } else {
        lemma_ring_prefix_grid(c, m, 12);
        lemma_ring_prefix_placed(c, m, 12);
        lemma_ring_split_at_the_seam(c, m);
        let f = |p: Piece| cell_placed(piece_corner(p), ring_scale(m), inner_radius(c, m), outer_radius(c, m));
        assert(f(ring_prefix(c, m, 12)[k]));
    }
}

proof fn lemma_multiple(v: int, m: int)
    requires
        1 <= m,
        v % m == 0,
    ensures
        v == m * (v / m),
{
    vstd::arithmetic::div_mod::lemma_fundamental_div_mod(v, m);
}

/// The coordinates of a point strictly between `a` and `b` lie strictly
/// between theirs, or equal them where the two agree.
proof fn lemma_between_coords(v: GridPoint, a: GridPoint, b: GridPoint)
    requires
        strictly_between(v, a, b),
    ensures
        a.x == b.x ==> v.x == a.x,
        a.x < b.x ==> a.x < v.x < b.x,
        b.x < a.x ==> b.x < v.x < a.x,
        a.z == b.z ==> v.z == a.z,
        a.z < b.z ==> a.z < v.z < b.z,
        b.z < a.z ==> b.z < v.z < a.z,
{
    let ex = b.x - a.x;
    let ez = b.z - a.z;
    let dx = v.x - a.x;
    let dz = v.z - a.z;
    let dot = dx * ex + dz * ez;
    let len = ex * ex + ez * ez;
    assert(ez * dx - ex * dz == 0);
    assert(0 < dot < len);
    assert(dx * len == ex * dot && dz * len == ez * dot) by (nonlinear_arith)
        requires
            ez * dx - ex * dz == 0,
            dot == dx * ex + dz * ez,
            len == ex * ex + ez * ez,
    ;
    assert((ex == 0 ==> dx == 0) && (ex > 0 ==> 0 < dx < ex) && (ex < 0 ==> ex < dx < 0)) by (nonlinear_arith)
        requires
            dx * len == ex * dot,
            0 < dot < len,
    ;
    assert((ez == 0 ==> dz == 0) && (ez > 0 ==> 0 < dz < ez) && (ez < 0 ==> ez < dz < 0)) by (nonlinear_arith)
        requires
            dz * len == ez * dot,
            0 < dot < len,
    ;
}

/// What a vertex of ring `m` (the centre grid for `m == 0`) is: on the ring's
/// grid, within the ring's outer square, and a corner on the grid of twice
/// the step unless it is a split vertex on the ring's inner boundary.
proof fn lemma_vertex_facts(c: int, m: nat, k: int, j: int)
    requires
        0 <= c <= 255,
        c % 4 == 0,
        m <= MAX_RINGS,
        0 <= k < ring_pieces(c, m).len(),
        0 <= j < piece_points(ring_pieces(c, m)[k]).len(),
    ensures
        ({
            let v = piece_points(ring_pieces(c, m)[k])[j];
            let s = ring_scale(m);
            &&& on_grid(v, s)
            &&& -outer_radius(c, m) <= v.x <= outer_radius(c, m)
            &&& -outer_radius(c, m) <= v.z <= outer_radius(c, m)
            &&& on_grid(v, 2 * s) || (m >= 1 && on_square(v, seam_radius(c, m)) && ((v.x as int) % (2 * s) == 0
                || (v.z as int) % (2 * s) == 0))
        }),
{
    let p = ring_pieces(c, m)[k];
    let v = piece_points(p)[j];
    let s = ring_scale(m);
    let bl = piece_corner(p);
    lemma_ring_piece_facts(c, m, k);
    lemma_ring_scale(m, 114);
    lemma_piece_point(p, j);
    let (i1, j1) = choose|i: int, jj: int| 0 <= i <= 2 && 0 <= jj <= 2 && v == corner(bl, s, i, jj);
    assert(v == corner(bl, s, i1, j1));
    assert(v.x == 2 * bl.x + i1 * s && v.z == 2 * bl.z + j1 * s);
    assert(0 <= i1 * s <= 2 * s && 0 <= j1 * s <= 2 * s) by (nonlinear_arith)
        requires
            0 <= i1 <= 2,
            0 <= j1 <= 2,
            1 <= s,
    ;
    assert(on_grid(v, s));
    let pp = piece_points(p);
    assert(pp[0] == corner(bl, s, 0, 0));
    assert(pp[1] == corner(bl, s, 2, 0));
    assert(pp[2] == corner(bl, s, 0, 2));
    assert(pp[3] == corner(bl, s, 2, 2));
    if j == 4 {
        match p {
            Piece::Triple { direction, .. } => {
                assert(pp[4] == split_vertex(bl, s, direction));
                match direction {
                    DirectionForTiple::Up => assert(v.z == corner(bl, s, 0, 2).z),
                    DirectionForTiple::Down => assert(v.z == corner(bl, s, 0, 0).z),
                    DirectionForTiple::Left => assert(v.x == corner(bl, s, 2, 0).x),
                    DirectionForTiple::Right => assert(v.x == corner(bl, s, 0, 0).x),
                }
            },
            Piece::Quad { .. } => {},
        }
    }
}

/// A triangle edge of a piece lies in the piece's cell, and where it runs
/// along x or z it lies on the cell's boundary.
proof fn lemma_edge_shape(p: Piece, s: int, t: int, e: int)
    requires
        1 <= s,
        piece_width(p) == s,
        corners_exact(piece_corner(p), s),
        0 <= t < piece_triangles(p).len() / 3,
        0 <= e < 3,
    ensures
        ({
            let bl = piece_corner(p);
            let a = edge_start(p, t, e);
            let b = edge_end(p, t, e);
            &&& 2 * bl.x <= a.x <= 2 * bl.x + 2 * s && 2 * bl.z <= a.z <= 2 * bl.z + 2 * s
            &&& 2 * bl.x <= b.x <= 2 * bl.x + 2 * s && 2 * bl.z <= b.z <= 2 * bl.z + 2 * s
            &&& a.x == b.x ==> (a.x == 2 * bl.x || a.x == 2 * bl.x + 2 * s)
            &&& a.z == b.z ==> (a.z == 2 * bl.z || a.z == 2 * bl.z + 2 * s)
        }),
{
    let bl = piece_corner(p);
    let pp = piece_points(p);
    let tri = piece_triangles(p);
    let m = s;
    lemma_edge_ends(p, t, e);
    assert(pp[0] == corner(bl, m, 0, 0));
    assert(pp[1] == corner(bl, m, 2, 0));
    assert(pp[2] == corner(bl, m, 0, 2));
    assert(pp[3] == corner(bl, m, 2, 2));
    assert(corner(bl, m, 0, 0).x == 2 * bl.x && corner(bl, m, 0, 0).z == 2 * bl.z);
    assert(corner(bl, m, 2, 0).x == 2 * bl.x + 2 * m && corner(bl, m, 2, 0).z == 2 * bl.z);
    assert(corner(bl, m, 0, 2).x == 2 * bl.x && corner(bl, m, 0, 2).z == 2 * bl.z + 2 * m);
    assert(corner(bl, m, 2, 2).x == 2 * bl.x + 2 * m && corner(bl, m, 2, 2).z == 2 * bl.z + 2 * m);
    assert(corner(bl, m, 1, 0).x == 2 * bl.x + m && corner(bl, m, 1, 0).z == 2 * bl.z);
    assert(corner(bl, m, 1, 2).x == 2 * bl.x + m && corner(bl, m, 1, 2).z == 2 * bl.z + 2 * m);
    assert(corner(bl, m, 0, 1).x == 2 * bl.x && corner(bl, m, 0, 1).z == 2 * bl.z + m);
    assert(corner(bl, m, 2, 1).x == 2 * bl.x + 2 * m && corner(bl, m, 2, 1).z == 2 * bl.z + m);
    match p {
        Piece::Triple { direction, .. } => {
            assert(pp[4] == split_vertex(bl, m, direction));
        },
        Piece::Quad { .. } => {},
    }
        if false {
        } else if t == 0 && e == 0 {
            assert(tri[3 * t + e] == tri[0] && tri[3 * t + (e + 1) % 3] == tri[1]);
        } else if t == 0 && e == 1 {
            assert(tri[3 * t + e] == tri[1] && tri[3 * t + (e + 1) % 3] == tri[2]);
        } else if t == 0 && e == 2 {
            assert(tri[3 * t + e] == tri[2] && tri[3 * t + (e + 1) % 3] == tri[0]);
        } else if t == 1 && e == 0 {
            assert(tri[3 * t + e] == tri[3] && tri[3 * t + (e + 1) % 3] == tri[4]);
        } else if t == 1 && e == 1 {
            assert(tri[3 * t + e] == tri[4] && tri[3 * t + (e + 1) % 3] == tri[5]);
        } else if t == 1 && e == 2 {
            assert(tri[3 * t + e] == tri[5] && tri[3 * t + (e + 1) % 3] == tri[3]);
        } else if t == 2 && e == 0 {
            assert(tri[3 * t + e] == tri[6] && tri[3 * t + (e + 1) % 3] == tri[7]);
        } else if t == 2 && e == 1 {
            assert(tri[3 * t + e] == tri[7] && tri[3 * t + (e + 1) % 3] == tri[8]);
        } else if t == 2 && e == 2 {
            assert(tri[3 * t + e] == tri[8] && tri[3 * t + (e + 1) % 3] == tri[6]);
        }
}

proof fn lemma_scale_ratio(m: nat, n: nat)
    requires
        n <= m,
    ensures
        ring_scale(m) == ring_scale((m - n) as nat) * ring_scale(n),
    decreases m - n,
{
    if m > n {
        lemma_scale_ratio((m - 1) as nat, n);
        let a = ring_scale((m - 1 - n) as nat);
        let b = ring_scale(n);
        assert(ring_scale(m) == 2 * ring_scale((m - 1) as nat));
        assert(((m - n) as nat) == ((m - 1 - n) as nat) + 1);
        assert(ring_scale((m - n) as nat) == 2 * a);
        assert(2 * (a * b) == (2 * a) * b) by (nonlinear_arith);
    }
}

/// On one axis: a segment within one cell of a grid of step `2 * g`, between
/// points of the grid of step `g`, has a point of that grid strictly inside
/// only if it is the whole cell side, and that point is its mid-point, off
/// the grid of step `2 * g`.
proof fn lemma_axis_grid(g: int, lo: int, ax: int, bx: int, vx: int)
    requires
        1 <= g,
        lo % (2 * g) == 0,
        ax % g == 0,
        bx % g == 0,
        vx % g == 0,
        lo <= ax <= lo + 2 * g,
        lo <= bx <= lo + 2 * g,
        (ax < vx < bx) || (bx < vx < ax),
    ensures
        vx == lo + g,
        vx % (2 * g) != 0,
        (ax == lo && bx == lo + 2 * g) || (bx == lo && ax == lo + 2 * g),
{
    lemma_multiple(lo, 2 * g);
    lemma_multiple(ax, g);
    lemma_multiple(bx, g);
    lemma_multiple(vx, g);
    let l = lo / (2 * g);
    let a = ax / g;
    let b = bx / g;
    let v = vx / g;
    assert(lo == g * (2 * l)) by (nonlinear_arith)
        requires
            lo == (2 * g) * l,
    ;
    assert(2 * l <= a <= 2 * l + 2 && 2 * l <= b <= 2 * l + 2 && ((a < v < b) || (b < v < a))) by (nonlinear_arith)
        requires
            1 <= g,
            lo == g * (2 * l),
            ax == g * a,
            bx == g * b,
            vx == g * v,
            lo <= ax <= lo + 2 * g,
            lo <= bx <= lo + 2 * g,
            (ax < vx < bx) || (bx < vx < ax),
    ;
    assert(v == 2 * l + 1);
    assert(vx == lo + g) by (nonlinear_arith)
        requires
            vx == g * v,
            v == 2 * l + 1,
            lo == g * (2 * l),
    ;
    vstd::arithmetic::div_mod::lemma_mod_multiples_vanish(l, g, 2 * g);
    vstd::arithmetic::div_mod::lemma_small_mod(g as nat, (2 * g) as nat);
    assert(vx == (2 * g) * l + g) by (nonlinear_arith)
        requires
            vx == lo + g,
            lo == (2 * g) * l,
    ;
    assert((a == 2 * l && b == 2 * l + 2) || (b == 2 * l && a == 2 * l + 2));
    assert((ax == lo && bx == lo + 2 * g) || (bx == lo && ax == lo + 2 * g)) by (nonlinear_arith)
        requires
            ax == g * a,
            bx == g * b,
            lo == g * (2 * l),
            (a == 2 * l && b == 2 * l + 2) || (b == 2 * l && a == 2 * l + 2),
    ;
}

/// A multiple of `g` below another is at least `g` below it.
proof fn lemma_grid_below(g: int, u: int, w: int)
    requires
        1 <= g,
        u % g == 0,
        w % g == 0,
        u < w,
    ensures
        u <= w - g,
{
    lemma_multiple(u, g);
    lemma_multiple(w, g);
    let a = u / g;
    let b = w / g;
    assert(u <= w - g) by (nonlinear_arith)
        requires
            1 <= g,
            u == g * a,
            w == g * b,
            u < w,
    ;
}

/// A multiple of `k * s` is a multiple of `s`, and of `2 * s` when `k` is even.
proof fn lemma_grid_coarser(v: int, sm: int, s: int, k: int)
    requires
        1 <= s,
        1 <= k,
        sm == k * s,
        v % sm == 0,
    ensures
        v % s == 0,
        k % 2 == 0 ==> v % (2 * s) == 0,
{
    assert(1 <= sm) by (nonlinear_arith)
        requires
            1 <= s,
            1 <= k,
            sm == k * s,
    ;
    lemma_multiple(v, sm);
    let w = v / sm;
    assert(v == s * (k * w)) by (nonlinear_arith)
        requires
            v == sm * w,
            sm == k * s,
    ;
    vstd::arithmetic::div_mod::lemma_mod_multiples_basic(k * w, s);
    assert((k * w) * s == s * (k * w)) by (nonlinear_arith);
    if k % 2 == 0 {
        let h = k / 2;
        assert(v == (h * w) * (2 * s)) by (nonlinear_arith)
            requires
                v == s * (k * w),
                k == 2 * h,
        ;
        vstd::arithmetic::div_mod::lemma_mod_multiples_basic(h * w, 2 * s);
    }
}

/// No vertex of ring `m` lies strictly inside a triangle edge of ring `n`
/// (ring 0 is the centre grid).
proof fn lemma_no_t_junction_rings(c: int, n: nat, k: int, t: int, e: int, m: nat, k2: int, j: int)
    requires
        0 <= c <= 255,
        c % 4 == 0,
        n <= MAX_RINGS,
        m <= MAX_RINGS,
        0 <= k < ring_pieces(c, n).len(),
        0 <= t < piece_triangles(ring_pieces(c, n)[k]).len() / 3,
        0 <= e < 3,
        0 <= k2 < ring_pieces(c, m).len(),
        0 <= j < piece_points(ring_pieces(c, m)[k2]).len(),
    ensures
        !strictly_between(
            piece_points(ring_pieces(c, m)[k2])[j],
            edge_start(ring_pieces(c, n)[k], t, e),
            edge_end(ring_pieces(c, n)[k], t, e),
        ),
{
    let p = ring_pieces(c, n)[k];
    let v = piece_points(ring_pieces(c, m)[k2])[j];
    let a = edge_start(p, t, e);
    let b = edge_end(p, t, e);
    if strictly_between(v, a, b) {
        let s = ring_scale(n);
        let sm = ring_scale(m);
        let q = c / 4;
        let bl = piece_corner(p);
        let x0 = 2 * bl.x;
        let z0 = 2 * bl.z;
        let rho = inner_radius(c, n);
        let big = outer_radius(c, n);
        let rm = outer_radius(c, m);
        lemma_ring_scale(n, 114);
        lemma_ring_scale(m, 114);
        lemma_ring_piece_facts(c, n, k);
        lemma_vertex_facts(c, m, k2, j);
        lemma_edge_ends(p, t, e);
        let ia = piece_triangles(p)[3 * t + e];
        let ib = piece_triangles(p)[3 * t + (e + 1) % 3];
        lemma_vertex_facts(c, n, k, ia);
        lemma_vertex_facts(c, n, k, ib);
        lemma_edge_shape(p, s, t, e);
        lemma_between_coords(v, a, b);
        lemma_ring_scale(n, 114);
        lemma_ring_scale(m, 114);
        assert(corner(bl, s, 0, 0).x == x0 && corner(bl, s, 0, 0).z == z0);
        assert(x0 % (2 * s) == 0 && z0 % (2 * s) == 0);
        assert(on_grid(corner(bl, s, 0, 0), s) && on_grid(corner(bl, s, 2, 2), s));
        assert(corner(bl, s, 2, 2).x == x0 + 2 * s && corner(bl, s, 2, 2).z == z0 + 2 * s);
        assert(on_grid(a, s) && on_grid(b, s));
        assert(-big <= x0 && x0 + 2 * s <= big);
        assert(big == 4 * (q * s));
        assert(1 <= q) by (nonlinear_arith)
            requires
                1 <= s,
                0 <= q,
                s <= 4 * (q * s),
        ;
        assert(n >= 1 ==> rho == (2 * s) * q) by (nonlinear_arith)
            requires
                n >= 1 ==> rho == 2 * (q * s),
        ;
        if n >= 1 {
            vstd::arithmetic::div_mod::lemma_mod_multiples_basic(q, 2 * s);
            assert(q * (2 * s) == (2 * s) * q) by (nonlinear_arith);
            assert(rho % (2 * s) == 0);
            vstd::arithmetic::div_mod::lemma_mod_multiples_basic(-q, 2 * s);
            assert((-q) * (2 * s) == -rho) by (nonlinear_arith)
                requires
                    rho == (2 * s) * q,
            ;
            assert((-rho) % (2 * s) == 0);
            assert(rho % s == 0 && (-rho) % s == 0) by {
                lemma_grid_coarser(rho, 2 * s, s, 2);
                lemma_multiple(rho, s);
                vstd::arithmetic::div_mod::lemma_mod_multiples_basic(-(rho / s), s);
                assert(-(rho / s) * s == -rho) by (nonlinear_arith)
                    requires
                        rho == s * (rho / s),
                ;
            }
            assert(rho >= 2) by (nonlinear_arith)
                requires
                    rho == (2 * s) * q,
                    1 <= s,
                    1 <= q,
            ;
        }
        assert(a != b);
        if m >= n {
            lemma_scale_ratio(m, n);
            let kk = ring_scale((m - n) as nat);
            lemma_ring_scale((m - n) as nat, 114);
            if m > n {
                assert(kk == 2 * ring_scale((m - n - 1) as nat));
            }
            assert(sm == kk * s);
            lemma_grid_coarser(v.x as int, sm, s, kk);
            lemma_grid_coarser(v.z as int, sm, s, kk);
            if a.x != b.x && a.z != b.z {
                lemma_axis_grid(s, x0, x0, x0 + 2 * s, v.x as int);
                lemma_axis_grid(s, z0, z0, z0 + 2 * s, v.z as int);
                assert(m == n);
            } else if a.z == b.z {
                lemma_axis_grid(s, x0, a.x as int, b.x as int, v.x as int);
                assert(m == n);
                assert(!on_grid(v, 2 * s));
                assert(n >= 1);
                assert(on_square(v, rho));
                assert(v.x != rho && v.x != -rho);
                lemma_grid_below(s, v.x as int, rho);
                lemma_grid_below(s, -rho, v.x as int);
                assert(on_square(a, rho) && on_square(b, rho));
                lemma_outer_edge(p, rho, s, t, e);
            } else {
                lemma_axis_grid(s, z0, a.z as int, b.z as int, v.z as int);
                assert(m == n);
                assert(!on_grid(v, 2 * s));
                assert(n >= 1);
                assert(on_square(v, rho));
                assert(v.z != rho && v.z != -rho);
                lemma_grid_below(s, v.z as int, rho);
                lemma_grid_below(s, -rho, v.z as int);
                assert(on_square(a, rho) && on_square(b, rho));
                lemma_outer_edge(p, rho, s, t, e);
            }
        } else {
            lemma_scale_ratio(n, m);
            let kk = ring_scale((n - m) as nat);
            assert(kk == 2 * ring_scale((n - m - 1) as nat));
            lemma_ring_scale((n - m - 1) as nat, 114);
            assert(rm == 4 * (q * sm));
            assert(rm <= rho && (m + 1 < n ==> 2 * rm <= rho)) by (nonlinear_arith)
                requires
                    rm == 4 * (q * sm),
                    rho == 2 * (q * s),
                    s == kk * sm,
                    kk == 2 * ring_scale((n - m - 1) as nat),
                    m + 1 < n ==> ring_scale((n - m - 1) as nat) >= 2,
                    1 <= ring_scale((n - m - 1) as nat),
                    1 <= q,
                    1 <= sm,
            ;
            if a.x != b.x && a.z != b.z {
                assert(false);
            } else if a.z == b.z {
                assert(v.z == rho || v.z == -rho);
                assert(rm == rho);
                assert(m + 1 == n);
                if b.x > rho || a.x > rho {
                    lemma_axis_grid(s, x0, a.x as int, b.x as int, rho);
                }
                if b.x < -rho || a.x < -rho {
                    lemma_axis_grid(s, x0, a.x as int, b.x as int, -rho);
                }
                assert(on_square(v, rho));
                assert(on_square(a, rho));
                assert(on_square(b, rho));
                let inner = inner_neighbour(c, n);
                assert(inner == ring_pieces(c, m));
                assert(seam_pieces(c, n)[inner.len() + k] == p);
                assert(seam_pieces(c, n)[k2] == ring_pieces(c, m)[k2]);
                lemma_seam_has_no_t_junction(c, n, inner.len() + k, t, e, k2, j);
            } else {
                assert(v.x == rho || v.x == -rho);
                assert(rm == rho);
                assert(m + 1 == n);
                if b.z > rho || a.z > rho {
                    lemma_axis_grid(s, z0, a.z as int, b.z as int, rho);
                }
                if b.z < -rho || a.z < -rho {
                    lemma_axis_grid(s, z0, a.z as int, b.z as int, -rho);
                }
                assert(on_square(v, rho));
                assert(on_square(a, rho));
                assert(on_square(b, rho));
                let inner = inner_neighbour(c, n);
                assert(inner == ring_pieces(c, m));
                assert(seam_pieces(c, n)[inner.len() + k] == p);
                assert(seam_pieces(c, n)[k2] == ring_pieces(c, m)[k2]);
                lemma_seam_has_no_t_junction(c, n, inner.len() + k, t, e, k2, j);
            }
        }
    }
}

/// No crack opens anywhere in the clip-map: no vertex of the mesh lies
/// strictly inside an edge of one of its triangles (seen from above). Piece
/// `i` of the mesh adds the vertices `piece_points` and the triangles
/// `piece_triangles` among them (see `apply_piece`).
pub proof fn lemma_base_mesh_has_no_t_junction(c: int, rings: nat, i: int, t: int, e: int, i2: int, j: int)
    requires
        0 <= c <= 255,
        c % 4 == 0,
        rings <= MAX_RINGS,
        0 <= i < base_mesh_pieces(c, rings).len(),
        0 <= t < piece_triangles(base_mesh_pieces(c, rings)[i]).len() / 3,
        0 <= e < 3,
        0 <= i2 < base_mesh_pieces(c, rings).len(),
        0 <= j < piece_points(base_mesh_pieces(c, rings)[i2]).len(),
    ensures
        !strictly_between(
            piece_points(base_mesh_pieces(c, rings)[i2])[j],
            edge_start(base_mesh_pieces(c, rings)[i], t, e),
            edge_end(base_mesh_pieces(c, rings)[i], t, e),
        ),
{
    let (n, k) = lemma_base_piece(c, rings, i);
    let (m, k2) = lemma_base_piece(c, rings, i2);
    lemma_no_t_junction_rings(c, n, k, t, e, m, k2, j);
}

proof fn lemma_mesh_indices_len(ps: Seq<Piece>)
    ensures
        apply_pieces(empty_mesh(), ps).indices.len() % 3 == 0,
    decreases ps.len(),
{
    if ps.len() > 0 {
        lemma_mesh_indices_len(ps.drop_last());
        let p = ps.last();
        let o = apply_pieces(empty_mesh(), ps.drop_last()).vertices.len() as int;
        assert(shifted(o, piece_triangles(p)).len() == 6 || shifted(o, piece_triangles(p)).len() == 9);
    }
}

/// Vertex `u` of the mesh built from `ps` is vertex `ij.1` of piece `ij.0`.
pub proof fn lemma_mesh_vertex_origin(ps: Seq<Piece>, u: int) -> (ij: (int, int))
    requires
        0 <= u < apply_pieces(empty_mesh(), ps).vertices.len(),
    ensures
        0 <= ij.0 < ps.len(),
        0 <= ij.1 < piece_points(ps[ij.0]).len(),
        apply_pieces(empty_mesh(), ps).vertices[u] == piece_points(ps[ij.0])[ij.1],
    decreases ps.len(),
{
    if ps.len() == 0 {
        assert(apply_pieces(empty_mesh(), ps).vertices.len() == 0);
        (0, 0)
    } else {
        let prev = apply_pieces(empty_mesh(), ps.drop_last());
        let m = apply_pieces(empty_mesh(), ps);
        assert(m.vertices == prev.vertices + piece_points(ps.last()));
        if u < prev.vertices.len() {
            assert(m.vertices[u] == prev.vertices[u]);
            let r = lemma_mesh_vertex_origin(ps.drop_last(), u);
            assert(ps.drop_last()[r.0] == ps[r.0]);
            r
        } else {
            assert(m.vertices[u] == piece_points(ps.last())[u - prev.vertices.len()]);
            (ps.len() - 1, u - prev.vertices.len())
        }
    }
}

/// How many triangles the pieces before piece `i` of `ps` add to a mesh.
pub open spec fn triangles_before(ps: Seq<Piece>, i: int) -> int {
    (apply_pieces(empty_mesh(), ps.subrange(0, i)).indices.len() / 3) as int
}

/// Triangle `tt` of the mesh built from `ps` is triangle `it.1` of piece
/// `it.0`: its three indices name that triangle's vertices.
pub proof fn lemma_mesh_triangle_origin(ps: Seq<Piece>, tt: int) -> (it: (int, int))
    requires
        0 <= tt,
        3 * tt + 2 < apply_pieces(empty_mesh(), ps).indices.len(),
        apply_pieces(empty_mesh(), ps).vertices.len() <= 0x1_0000_0000,
    ensures
        0 <= it.0 < ps.len(),
        0 <= it.1 < piece_triangles(ps[it.0]).len() / 3,
        forall|e: int|
            0 <= e < 3 ==> {
                &&& (#[trigger] apply_pieces(empty_mesh(), ps).indices[3 * tt + e] as int) < apply_pieces(
                    empty_mesh(),
                    ps,
                ).vertices.len()
                &&& apply_pieces(empty_mesh(), ps).vertices[apply_pieces(empty_mesh(), ps).indices[3 * tt + e] as int]
                    == piece_points(ps[it.0])[piece_triangles(ps[it.0])[3 * it.1 + e]]
            },
        tt == triangles_before(ps, it.0) + it.1,
    decreases ps.len(),
{
    let m = apply_pieces(empty_mesh(), ps);
    if ps.len() == 0 {
        assert(m.indices.len() == 0);
        (0, 0)
    } else {
        let prev = apply_pieces(empty_mesh(), ps.drop_last());
        let p = ps.last();
        let o = prev.vertices.len() as int;
        let tri = piece_triangles(p);
        let pp = piece_points(p);
        assert(m.vertices == prev.vertices + pp);
        assert(m.indices == prev.indices + shifted(o, tri));
        lemma_mesh_indices_len(ps.drop_last());
        if 3 * tt + 2 < prev.indices.len() {
            let r = lemma_mesh_triangle_origin(ps.drop_last(), tt);
            assert(ps.drop_last()[r.0] == ps[r.0]);
            assert(ps.drop_last().subrange(0, r.0) =~= ps.subrange(0, r.0));
            assert forall|e: int| 0 <= e < 3 implies {
                &&& (#[trigger] m.indices[3 * tt + e] as int) < m.vertices.len()
                &&& m.vertices[m.indices[3 * tt + e] as int] == piece_points(ps[r.0])[piece_triangles(ps[r.0])[3 * r.1 + e]]
            } by {
                assert(m.indices[3 * tt + e] == prev.indices[3 * tt + e]);
                assert((prev.indices[3 * tt + e] as int) < prev.vertices.len()) by {
                    assert(0 <= e < 3);
                }
                assert(m.vertices[prev.indices[3 * tt + e] as int] == prev.vertices[prev.indices[3 * tt + e] as int]);
            }
            r
        } else {
            let k0 = prev.indices.len() / 3;
            let t = tt - k0;
            assert(3 * tt >= prev.indices.len());
            assert(0 <= t < tri.len() / 3);
            assert forall|e: int| 0 <= e < 3 implies {
                &&& (#[trigger] m.indices[3 * tt + e] as int) < m.vertices.len()
                &&& m.vertices[m.indices[3 * tt + e] as int] == pp[tri[3 * t + e]]
            } by {
                lemma_edge_ends(p, t, e);
                assert(m.indices[3 * tt + e] == shifted(o, tri)[3 * t + e]);
                assert(shifted(o, tri)[3 * t + e] == (o + tri[3 * t + e]) as u32);
                assert(o + tri[3 * t + e] < m.vertices.len());
                assert(m.vertices[o + tri[3 * t + e]] == pp[tri[3 * t + e]]);
            }
            assert(ps.subrange(0, ps.len() - 1) =~= ps.drop_last());
            (ps.len() - 1, t)
        }
    }
}

/// No crack opens in the mesh that `create_base_mesh` builds: no vertex of
/// the mesh lies strictly inside an edge of one of its triangles (seen from
/// above). The bound on the vertex count is that of `u32` indices.
pub proof fn lemma_base_mesh_model_has_no_t_junction(c: int, rings: nat, tt: int, e: int, u: int)
    requires
        0 <= c <= 255,
        c % 4 == 0,
        rings <= MAX_RINGS,
        apply_pieces(empty_mesh(), base_mesh_pieces(c, rings)).vertices.len() <= 0x1_0000_0000,
        0 <= tt,
        3 * tt + 2 < apply_pieces(empty_mesh(), base_mesh_pieces(c, rings)).indices.len(),
        0 <= e < 3,
        0 <= u < apply_pieces(empty_mesh(), base_mesh_pieces(c, rings)).vertices.len(),
    ensures
        ({
            let m = apply_pieces(empty_mesh(), base_mesh_pieces(c, rings));
            !strictly_between(
                m.vertices[u],
                m.vertices[m.indices[3 * tt + e] as int],
                m.vertices[m.indices[3 * tt + (e + 1) % 3] as int],
            )
        }),
{
    let ps = base_mesh_pieces(c, rings);
    let (i, t) = lemma_mesh_triangle_origin(ps, tt);
    let (i2, j) = lemma_mesh_vertex_origin(ps, u);
    let m = apply_pieces(empty_mesh(), ps);
    assert((m.indices[3 * tt + e] as int) < m.vertices.len());
    assert((m.indices[3 * tt + (e + 1) % 3] as int) < m.vertices.len());
    lemma_edge_ends(ps[i], t, e);
    lemma_base_mesh_has_no_t_junction(c, rings, i, t, e, i2, j);
}

/// Every vertex of the mesh that `create_base_mesh` builds lies in the square
/// of radius `outer_radius(c, rings)` (half steps) round the centre.
pub proof fn lemma_base_mesh_within_square(c: int, rings: nat, u: int)
    requires
        0 <= c <= 255,
        c % 4 == 0,
        rings <= MAX_RINGS,
        0 <= u < apply_pieces(empty_mesh(), base_mesh_pieces(c, rings)).vertices.len(),
    ensures
        ({
            let v = apply_pieces(empty_mesh(), base_mesh_pieces(c, rings)).vertices[u];
            -outer_radius(c, rings) <= v.x <= outer_radius(c, rings) && -outer_radius(c, rings) <= v.z
                <= outer_radius(c, rings)
        }),
{
    let ps = base_mesh_pieces(c, rings);
    let (i, j) = lemma_mesh_vertex_origin(ps, u);
    let (m, k) = lemma_base_piece(c, rings, i);
    lemma_vertex_facts(c, m, k, j);
    lemma_ring_scale(m, rings);
    assert(outer_radius(c, m) <= outer_radius(c, rings)) by (nonlinear_arith)
        requires
            ring_scale(m) <= ring_scale(rings),
            0 <= c / 4,
    ;
}

/// Twice the area of the first `k` triangles of `m`, seen from above: the
/// sum of their orientations.
pub open spec fn twice_area(m: MeshModel, k: int) -> int
    decreases k,
{
    if k <= 0 {
        0
    } else {
        twice_area(m, k - 1) + orientation(
            m.vertices[m.indices[3 * (k - 1)] as int],
            m.vertices[m.indices[3 * (k - 1) + 1] as int],
            m.vertices[m.indices[3 * (k - 1) + 2] as int],
        )
    }
}

/// Twice the area of the first `k` triangles of piece `p`.
pub open spec fn piece_twice_area(p: Piece, k: int) -> int
    decreases k,
{
    if k <= 0 {
        0
    } else {
        piece_twice_area(p, k - 1) + orientation(edge_start(p, k - 1, 0), edge_start(p, k - 1, 1), edge_start(p, k - 1, 2))
    }
}

/// Twice the area of all triangles of the pieces `ps`.
pub open spec fn pieces_twice_area(ps: Seq<Piece>) -> int
    decreases ps.len(),
{
    if ps.len() == 0 {
        0
    } else {
        pieces_twice_area(ps.drop_last()) + piece_twice_area(ps.last(), (piece_triangles(ps.last()).len() / 3) as int)
    }
}

proof fn lemma_twice_area_same(m1: MeshModel, m2: MeshModel, k: int)
    requires
        forall|i: int|
            0 <= i < 3 * k ==> m1.vertices[m1.indices[i] as int] == m2.vertices[#[trigger] m2.indices[i] as int],
    ensures
        twice_area(m1, k) == twice_area(m2, k),
    decreases k,
{
    if k > 0 {
        lemma_twice_area_same(m1, m2, k - 1);
        assert(m1.vertices[m1.indices[3 * (k - 1)] as int] == m2.vertices[m2.indices[3 * (k - 1)] as int]);
        assert(m1.vertices[m1.indices[3 * (k - 1) + 1] as int] == m2.vertices[m2.indices[3 * (k - 1) + 1] as int]);
        assert(m1.vertices[m1.indices[3 * (k - 1) + 2] as int] == m2.vertices[m2.indices[3 * (k - 1) + 2] as int]);
    }
}

/// The triangles of the mesh built from `ps` have, together, the area of the
/// pieces' triangles.
proof fn lemma_mesh_twice_area(ps: Seq<Piece>)
    requires
        apply_pieces(empty_mesh(), ps).vertices.len() <= 0x1_0000_0000,
    ensures
        twice_area(apply_pieces(empty_mesh(), ps), (apply_pieces(empty_mesh(), ps).indices.len() / 3) as int)
            == pieces_twice_area(ps),
    decreases ps.len(),
{
    let m = apply_pieces(empty_mesh(), ps);
    if ps.len() > 0 {
        let prev = apply_pieces(empty_mesh(), ps.drop_last());
        let p = ps.last();
        let o = prev.vertices.len() as int;
        let tri = piece_triangles(p);
        let pp = piece_points(p);
        assert(m.vertices == prev.vertices + pp);
        assert(m.indices == prev.indices + shifted(o, tri));
        lemma_mesh_indices_len(ps.drop_last());
        lemma_mesh_twice_area(ps.drop_last());
        let kp = (prev.indices.len() / 3) as int;
        let np = (tri.len() / 3) as int;
        assert(tri.len() == 3 * np) by {
            assert(tri.len() == 6 || tri.len() == 9);
        }
        assert(m.indices.len() / 3 == kp + np);
        assert forall|i: int| 0 <= i < 3 * kp implies prev.vertices[prev.indices[i] as int] == m.vertices[
            #[trigger] m.indices[i] as int] by {
            let tt = i / 3;
            let e = i % 3;
            lemma_mesh_triangle_origin(ps.drop_last(), tt);
            assert(3 * tt + e == i);
            assert((prev.indices[3 * tt + e] as int) < prev.vertices.len());
            assert(m.indices[i] == prev.indices[i]);
        }
        lemma_twice_area_same(prev, m, kp);
        assert forall|j: int| 0 <= j <= np implies #[trigger] twice_area(m, kp + j) == twice_area(m, kp) + piece_twice_area(p, j) by {
            lemma_mesh_area_step(ps, j);
        }
        assert(twice_area(m, kp + np) == twice_area(m, kp) + piece_twice_area(p, np));
    }
}

proof fn lemma_mesh_area_step(ps: Seq<Piece>, j: int)
    requires
        ps.len() > 0,
        apply_pieces(empty_mesh(), ps).vertices.len() <= 0x1_0000_0000,
        0 <= j <= piece_triangles(ps.last()).len() / 3,
    ensures
        ({
            let m = apply_pieces(empty_mesh(), ps);
            let kp = (apply_pieces(empty_mesh(), ps.drop_last()).indices.len() / 3) as int;
            twice_area(m, kp + j) == twice_area(m, kp) + piece_twice_area(ps.last(), j)
        }),
    decreases j,
{
    let m = apply_pieces(empty_mesh(), ps);
    let prev = apply_pieces(empty_mesh(), ps.drop_last());
    let p = ps.last();
    let o = prev.vertices.len() as int;
    let tri = piece_triangles(p);
    let pp = piece_points(p);
    let kp = (prev.indices.len() / 3) as int;
    assert(m.vertices == prev.vertices + pp);
    assert(m.indices == prev.indices + shifted(o, tri));
    lemma_mesh_indices_len(ps.drop_last());
    if j > 0 {
        lemma_mesh_area_step(ps, j - 1);
        let t = j - 1;
        assert(3 * (kp + t) == prev.indices.len() + 3 * t);
        assert forall|e: int| 0 <= e < 3 implies m.vertices[m.indices[3 * (kp + t) + e] as int] == #[trigger] edge_start(
            p,
            t,
            e,
        ) by {
            lemma_edge_ends(p, t, e);
            assert(m.indices[3 * (kp + t) + e] == shifted(o, tri)[3 * t + e]);
            assert(shifted(o, tri)[3 * t + e] == (o + tri[3 * t + e]) as u32);
            assert(m.vertices[o + tri[3 * t + e]] == pp[tri[3 * t + e]]);
        }
        assert(m.vertices[m.indices[3 * (kp + t)] as int] == edge_start(p, t, 0));
        assert(m.vertices[m.indices[3 * (kp + t) + 1] as int] == edge_start(p, t, 1));
        assert(m.vertices[m.indices[3 * (kp + t) + 2] as int] == edge_start(p, t, 2));
    }
}

proof fn lemma_orientation_scaled(a: GridPoint, b: GridPoint, c: GridPoint, x0: int, z0: int, w: int, ai: int, aj: int, bi: int, bj: int, ci: int, cj: int)
    requires
        a.x == x0 + ai * w,
        a.z == z0 + aj * w,
        b.x == x0 + bi * w,
        b.z == z0 + bj * w,
        c.x == x0 + ci * w,
        c.z == z0 + cj * w,
    ensures
        orientation(a, b, c) == ((bj - aj) * (ci - ai) - (bi - ai) * (cj - aj)) * (w * w),
{
    lemma_scaled_difference(bj, aj, w);
    lemma_scaled_difference(ci, ai, w);
    lemma_scaled_difference(bi, ai, w);
    lemma_scaled_difference(cj, aj, w);
    lemma_scaled_product(bj - aj, ci - ai, w);
    lemma_scaled_product(bi - ai, cj - aj, w);
    assert(b.z - a.z == (bj - aj) * w);
    assert(c.x - a.x == (ci - ai) * w);
    assert(b.x - a.x == (bi - ai) * w);
    assert(c.z - a.z == (cj - aj) * w);
    lemma_scaled_difference((bj - aj) * (ci - ai), (bi - ai) * (cj - aj), w * w);
}

/// The triangles of a piece of width `w` have, together, twice the area of
/// its cell, which is `2 * w` half steps wide: `8 * w * w`.
proof fn lemma_piece_area(p: Piece, w: int)
    requires
        piece_width(p) == w,
        corners_exact(piece_corner(p), w),
    ensures
        piece_twice_area(p, (piece_triangles(p).len() / 3) as int) == 8 * (w * w),
{
    let bl = piece_corner(p);
    let pp = piece_points(p);
    let x0 = 2 * bl.x;
    let z0 = 2 * bl.z;
    assert(pp[0] == corner(bl, w, 0, 0));
    assert(pp[1] == corner(bl, w, 2, 0));
    assert(pp[2] == corner(bl, w, 0, 2));
    assert(pp[3] == corner(bl, w, 2, 2));
    assert forall|i: int, j: int| 0 <= i <= 2 && 0 <= j <= 2 implies (#[trigger] corner(bl, w, i, j)).x == x0 + i * w
        && corner(bl, w, i, j).z == z0 + j * w by {
    }
    match p {
        Piece::Quad { .. } => {
            assert(piece_triangles(p).len() == 6);
            assert(edge_start(p, 0, 0) == corner(bl, w, 0, 0));
            assert(edge_start(p, 0, 1) == corner(bl, w, 0, 2));
            assert(edge_start(p, 0, 2) == corner(bl, w, 2, 0));
            lemma_orientation_scaled(corner(bl, w, 0, 0), corner(bl, w, 0, 2), corner(bl, w, 2, 0), x0, z0, w, 0, 0, 0, 2, 2, 0);
            assert(edge_start(p, 1, 0) == corner(bl, w, 0, 2));
            assert(edge_start(p, 1, 1) == corner(bl, w, 2, 2));
            assert(edge_start(p, 1, 2) == corner(bl, w, 2, 0));
            lemma_orientation_scaled(corner(bl, w, 0, 2), corner(bl, w, 2, 2), corner(bl, w, 2, 0), x0, z0, w, 0, 2, 2, 2, 2, 0);
            assert(piece_twice_area(p, 1) == piece_twice_area(p, 0) + orientation(edge_start(p, 0, 0), edge_start(p, 0, 1), edge_start(p, 0, 2)));
            assert(piece_twice_area(p, 2) == piece_twice_area(p, 1) + orientation(edge_start(p, 1, 0), edge_start(p, 1, 1), edge_start(p, 1, 2)));
            assert(piece_twice_area(p, 0) == 0);
            assert(orientation(edge_start(p, 0, 0), edge_start(p, 0, 1), edge_start(p, 0, 2)) == 4 * (w * w));
            assert(orientation(edge_start(p, 1, 0), edge_start(p, 1, 1), edge_start(p, 1, 2)) == 4 * (w * w));
            assert(piece_twice_area(p, 2) == 8 * (w * w));
            assert((piece_triangles(p).len() / 3) as int == 2);
            assert(piece_twice_area(p, (piece_triangles(p).len() / 3) as int) == 8 * (w * w));
        },
        Piece::Triple { direction, .. } => {
            assert(pp[4] == split_vertex(bl, w, direction));
            assert(piece_triangles(p).len() == 9);
            match direction {
                DirectionForTiple::Up => {
                    assert(edge_start(p, 0, 0) == corner(bl, w, 0, 0));
                    assert(edge_start(p, 0, 1) == corner(bl, w, 0, 2));
                    assert(edge_start(p, 0, 2) == corner(bl, w, 1, 2));
                    lemma_orientation_scaled(corner(bl, w, 0, 0), corner(bl, w, 0, 2), corner(bl, w, 1, 2), x0, z0, w, 0, 0, 0, 2, 1, 2);
                    assert(edge_start(p, 1, 0) == corner(bl, w, 0, 0));
                    assert(edge_start(p, 1, 1) == corner(bl, w, 1, 2));
                    assert(edge_start(p, 1, 2) == corner(bl, w, 2, 0));
                    lemma_orientation_scaled(corner(bl, w, 0, 0), corner(bl, w, 1, 2), corner(bl, w, 2, 0), x0, z0, w, 0, 0, 1, 2, 2, 0);
                    assert(edge_start(p, 2, 0) == corner(bl, w, 1, 2));
                    assert(edge_start(p, 2, 1) == corner(bl, w, 2, 2));
                    assert(edge_start(p, 2, 2) == corner(bl, w, 2, 0));
                    lemma_orientation_scaled(corner(bl, w, 1, 2), corner(bl, w, 2, 2), corner(bl, w, 2, 0), x0, z0, w, 1, 2, 2, 2, 2, 0);
                    assert(piece_twice_area(p, 1) == piece_twice_area(p, 0) + orientation(edge_start(p, 0, 0), edge_start(p, 0, 1), edge_start(p, 0, 2)));
                    assert(piece_twice_area(p, 2) == piece_twice_area(p, 1) + orientation(edge_start(p, 1, 0), edge_start(p, 1, 1), edge_start(p, 1, 2)));
                    assert(piece_twice_area(p, 3) == piece_twice_area(p, 2) + orientation(edge_start(p, 2, 0), edge_start(p, 2, 1), edge_start(p, 2, 2)));
                    assert(piece_twice_area(p, 0) == 0);
                    assert((piece_triangles(p).len() / 3) as int == 3);
                    assert(piece_twice_area(p, 3) == 8 * (w * w));
                    assert(orientation(edge_start(p, 0, 0), edge_start(p, 0, 1), edge_start(p, 0, 2)) == 2 * (w * w));
                    assert(orientation(edge_start(p, 1, 0), edge_start(p, 1, 1), edge_start(p, 1, 2)) == 4 * (w * w));
                    assert(orientation(edge_start(p, 2, 0), edge_start(p, 2, 1), edge_start(p, 2, 2)) == 2 * (w * w));
                },
                DirectionForTiple::Down => {
                    assert(edge_start(p, 0, 0) == corner(bl, w, 0, 0));
                    assert(edge_start(p, 0, 1) == corner(bl, w, 0, 2));
                    assert(edge_start(p, 0, 2) == corner(bl, w, 1, 0));
                    lemma_orientation_scaled(corner(bl, w, 0, 0), corner(bl, w, 0, 2), corner(bl, w, 1, 0), x0, z0, w, 0, 0, 0, 2, 1, 0);
                    assert(edge_start(p, 1, 0) == corner(bl, w, 0, 2));
                    assert(edge_start(p, 1, 1) == corner(bl, w, 2, 2));
                    assert(edge_start(p, 1, 2) == corner(bl, w, 1, 0));
                    lemma_orientation_scaled(corner(bl, w, 0, 2), corner(bl, w, 2, 2), corner(bl, w, 1, 0), x0, z0, w, 0, 2, 2, 2, 1, 0);
                    assert(edge_start(p, 2, 0) == corner(bl, w, 2, 2));
                    assert(edge_start(p, 2, 1) == corner(bl, w, 2, 0));
                    assert(edge_start(p, 2, 2) == corner(bl, w, 1, 0));
                    lemma_orientation_scaled(corner(bl, w, 2, 2), corner(bl, w, 2, 0), corner(bl, w, 1, 0), x0, z0, w, 2, 2, 2, 0, 1, 0);
                    assert(piece_twice_area(p, 1) == piece_twice_area(p, 0) + orientation(edge_start(p, 0, 0), edge_start(p, 0, 1), edge_start(p, 0, 2)));
                    assert(piece_twice_area(p, 2) == piece_twice_area(p, 1) + orientation(edge_start(p, 1, 0), edge_start(p, 1, 1), edge_start(p, 1, 2)));
                    assert(piece_twice_area(p, 3) == piece_twice_area(p, 2) + orientation(edge_start(p, 2, 0), edge_start(p, 2, 1), edge_start(p, 2, 2)));
                    assert(piece_twice_area(p, 0) == 0);
                    assert((piece_triangles(p).len() / 3) as int == 3);
                    assert(piece_twice_area(p, 3) == 8 * (w * w));
                    assert(orientation(edge_start(p, 0, 0), edge_start(p, 0, 1), edge_start(p, 0, 2)) == 2 * (w * w));
                    assert(orientation(edge_start(p, 1, 0), edge_start(p, 1, 1), edge_start(p, 1, 2)) == 4 * (w * w));
                    assert(orientation(edge_start(p, 2, 0), edge_start(p, 2, 1), edge_start(p, 2, 2)) == 2 * (w * w));
                },
                DirectionForTiple::Left => {
                    assert(edge_start(p, 0, 0) == corner(bl, w, 0, 0));
                    assert(edge_start(p, 0, 1) == corner(bl, w, 0, 2));
                    assert(edge_start(p, 0, 2) == corner(bl, w, 2, 1));
                    lemma_orientation_scaled(corner(bl, w, 0, 0), corner(bl, w, 0, 2), corner(bl, w, 2, 1), x0, z0, w, 0, 0, 0, 2, 2, 1);
                    assert(edge_start(p, 1, 0) == corner(bl, w, 0, 0));
                    assert(edge_start(p, 1, 1) == corner(bl, w, 2, 1));
                    assert(edge_start(p, 1, 2) == corner(bl, w, 2, 0));
                    lemma_orientation_scaled(corner(bl, w, 0, 0), corner(bl, w, 2, 1), corner(bl, w, 2, 0), x0, z0, w, 0, 0, 2, 1, 2, 0);
                    assert(edge_start(p, 2, 0) == corner(bl, w, 0, 2));
                    assert(edge_start(p, 2, 1) == corner(bl, w, 2, 2));
                    assert(edge_start(p, 2, 2) == corner(bl, w, 2, 1));
                    lemma_orientation_scaled(corner(bl, w, 0, 2), corner(bl, w, 2, 2), corner(bl, w, 2, 1), x0, z0, w, 0, 2, 2, 2, 2, 1);
                    assert(piece_twice_area(p, 1) == piece_twice_area(p, 0) + orientation(edge_start(p, 0, 0), edge_start(p, 0, 1), edge_start(p, 0, 2)));
                    assert(piece_twice_area(p, 2) == piece_twice_area(p, 1) + orientation(edge_start(p, 1, 0), edge_start(p, 1, 1), edge_start(p, 1, 2)));
                    assert(piece_twice_area(p, 3) == piece_twice_area(p, 2) + orientation(edge_start(p, 2, 0), edge_start(p, 2, 1), edge_start(p, 2, 2)));
                    assert(piece_twice_area(p, 0) == 0);
                    assert((piece_triangles(p).len() / 3) as int == 3);
                    assert(piece_twice_area(p, 3) == 8 * (w * w));
                    assert(orientation(edge_start(p, 0, 0), edge_start(p, 0, 1), edge_start(p, 0, 2)) == 4 * (w * w));
                    assert(orientation(edge_start(p, 1, 0), edge_start(p, 1, 1), edge_start(p, 1, 2)) == 2 * (w * w));
                    assert(orientation(edge_start(p, 2, 0), edge_start(p, 2, 1), edge_start(p, 2, 2)) == 2 * (w * w));
                },
                DirectionForTiple::Right => {
                    assert(edge_start(p, 0, 0) == corner(bl, w, 0, 0));
                    assert(edge_start(p, 0, 1) == corner(bl, w, 0, 1));
                    assert(edge_start(p, 0, 2) == corner(bl, w, 2, 0));
                    lemma_orientation_scaled(corner(bl, w, 0, 0), corner(bl, w, 0, 1), corner(bl, w, 2, 0), x0, z0, w, 0, 0, 0, 1, 2, 0);
                    assert(edge_start(p, 1, 0) == corner(bl, w, 0, 1));
                    assert(edge_start(p, 1, 1) == corner(bl, w, 2, 2));
                    assert(edge_start(p, 1, 2) == corner(bl, w, 2, 0));
                    lemma_orientation_scaled(corner(bl, w, 0, 1), corner(bl, w, 2, 2), corner(bl, w, 2, 0), x0, z0, w, 0, 1, 2, 2, 2, 0);
                    assert(edge_start(p, 2, 0) == corner(bl, w, 0, 1));
                    assert(edge_start(p, 2, 1) == corner(bl, w, 0, 2));
                    assert(edge_start(p, 2, 2) == corner(bl, w, 2, 2));
                    lemma_orientation_scaled(corner(bl, w, 0, 1), corner(bl, w, 0, 2), corner(bl, w, 2, 2), x0, z0, w, 0, 1, 0, 2, 2, 2);
                    assert(piece_twice_area(p, 1) == piece_twice_area(p, 0) + orientation(edge_start(p, 0, 0), edge_start(p, 0, 1), edge_start(p, 0, 2)));
                    assert(piece_twice_area(p, 2) == piece_twice_area(p, 1) + orientation(edge_start(p, 1, 0), edge_start(p, 1, 1), edge_start(p, 1, 2)));
                    assert(piece_twice_area(p, 3) == piece_twice_area(p, 2) + orientation(edge_start(p, 2, 0), edge_start(p, 2, 1), edge_start(p, 2, 2)));
                    assert(piece_twice_area(p, 0) == 0);
                    assert((piece_triangles(p).len() / 3) as int == 3);
                    assert(piece_twice_area(p, 3) == 8 * (w * w));
                    assert(orientation(edge_start(p, 0, 0), edge_start(p, 0, 1), edge_start(p, 0, 2)) == 2 * (w * w));
                    assert(orientation(edge_start(p, 1, 0), edge_start(p, 1, 1), edge_start(p, 1, 2)) == 4 * (w * w));
                    assert(orientation(edge_start(p, 2, 0), edge_start(p, 2, 1), edge_start(p, 2, 2)) == 2 * (w * w));
                },
            }
        },
    }
    assert(piece_twice_area(p, (piece_triangles(p).len() / 3) as int) == 8 * (w * w));
}

proof fn lemma_pieces_area_concat(a: Seq<Piece>, b: Seq<Piece>)
    ensures
        pieces_twice_area(a + b) == pieces_twice_area(a) + pieces_twice_area(b),
    decreases b.len(),
{
    if b.len() == 0 {
        assert(a + b =~= a);
    } else {
        lemma_pieces_area_concat(a, b.drop_last());
        assert((a + b).drop_last() =~= a + b.drop_last());
        assert((a + b).last() == b.last());
    }
}

proof fn lemma_pieces_area_uniform(ps: Seq<Piece>, w: int)
    requires
        all_on_grid(ps, w),
    ensures
        pieces_twice_area(ps) == ps.len() * (8 * (w * w)),
    decreases ps.len(),
{
    if ps.len() > 0 {
        let init = ps.drop_last();
        assert forall|i: int| 0 <= i < init.len() implies piece_on_grid(#[trigger] init[i], w) by {
            assert(init[i] == ps[i]);
        }
        lemma_pieces_area_uniform(init, w);
        assert(piece_on_grid(ps[ps.len() - 1], w));
        lemma_piece_area(ps.last(), w);
        let k = 8 * (w * w);
        assert((ps.len() - 1) * k + k == ps.len() * k) by (nonlinear_arith);
    }
}

proof fn lemma_quad_column_len(bl: GridPoint, qw: i128, x: int, y_lo: int, y_hi: int)
    requires
        y_lo <= y_hi,
    ensures
        quad_column(bl, qw, x, y_lo, y_hi).len() == y_hi - y_lo,
    decreases y_hi - y_lo,
{
    if y_hi > y_lo {
        lemma_quad_column_len(bl, qw, x, y_lo, y_hi - 1);
    }
}

proof fn lemma_quad_block_len(bl: GridPoint, qw: i128, x_lo: int, x_hi: int, y_lo: int, y_hi: int)
    requires
        x_lo <= x_hi,
        y_lo <= y_hi,
    ensures
        quad_block(bl, qw, x_lo, x_hi, y_lo, y_hi).len() == (x_hi - x_lo) * (y_hi - y_lo),
    decreases x_hi - x_lo,
{
    if x_hi > x_lo {
        lemma_quad_block_len(bl, qw, x_lo, x_hi - 1, y_lo, y_hi);
        lemma_quad_column_len(bl, qw, x_hi - 1, y_lo, y_hi);
        assert((x_hi - 1 - x_lo) * (y_hi - y_lo) + (y_hi - y_lo) == (x_hi - x_lo) * (y_hi - y_lo)) by (nonlinear_arith);
    } else {
        assert((x_hi - x_lo) * (y_hi - y_lo) == 0) by (nonlinear_arith)
            requires
                x_hi == x_lo,
        ;
    }
}

proof fn lemma_triple_row_len(bl: GridPoint, qw: i128, x_lo: int, x_hi: int, y: int, dir: DirectionForTiple)
    requires
        x_lo <= x_hi,
    ensures
        triple_row(bl, qw, x_lo, x_hi, y, dir).len() == x_hi - x_lo,
    decreases x_hi - x_lo,
{
    if x_hi > x_lo {
        lemma_triple_row_len(bl, qw, x_lo, x_hi - 1, y, dir);
    }
}

proof fn lemma_triple_column_len(bl: GridPoint, qw: i128, x: int, y_lo: int, y_hi: int, dir: DirectionForTiple)
    requires
        y_lo <= y_hi,
    ensures
        triple_column(bl, qw, x, y_lo, y_hi, dir).len() == y_hi - y_lo,
    decreases y_hi - y_lo,
{
    if y_hi > y_lo {
        lemma_triple_column_len(bl, qw, x, y_lo, y_hi - 1, dir);
    }
}

/// A subdivided block holds one piece per cell.
proof fn lemma_subdivided_len(bl: GridPoint, qw: i128, d: int, dir: Option<DirectionForTiple>)
    requires
        1 <= d,
    ensures
        subdivided_pieces(bl, qw, d, dir).len() == d * d,
{
    assert(d * (d - 1) + d == d * d) by (nonlinear_arith);
    assert((d - 1) * d + d == d * d) by (nonlinear_arith);
    match dir {
        Some(DirectionForTiple::Up) => {
            lemma_quad_block_len(bl, qw, 0, d, 0, d - 1);
            lemma_triple_row_len(bl, qw, 0, d, d - 1, DirectionForTiple::Up);
        },
        Some(DirectionForTiple::Down) => {
            lemma_quad_block_len(bl, qw, 0, d, 1, d);
            lemma_triple_row_len(bl, qw, 0, d, 0, DirectionForTiple::Down);
        },
        Some(DirectionForTiple::Right) => {
            lemma_quad_block_len(bl, qw, 0, d - 1, 0, d);
            lemma_triple_column_len(bl, qw, d - 1, 0, d, DirectionForTiple::Left);
        },
        Some(DirectionForTiple::Left) => {
            lemma_quad_block_len(bl, qw, 1, d, 0, d);
            lemma_triple_column_len(bl, qw, 0, 0, d, DirectionForTiple::Right);
        },
        None => {
            lemma_quad_block_len(bl, qw, 0, d, 0, d);
        },
    }
}

proof fn lemma_ring_prefix_len(c: int, n: nat, k: int)
    requires
        4 <= c,
        0 <= k,
    ensures
        ring_prefix(c, n, k).len() == k * ((c / 4) * (c / 4)),
    decreases k,
{
    if k > 0 {
        lemma_ring_prefix_len(c, n, k - 1);
        lemma_subdivided_len(ring_block_corner(c, n, k - 1), ring_scale(n) as i128, c / 4, ring_layout(k - 1).2);
        let qq = (c / 4) * (c / 4);
        assert((k - 1) * qq + qq == k * qq) by (nonlinear_arith);
    } else {
        assert(k * ((c / 4) * (c / 4)) == 0) by (nonlinear_arith)
            requires
                k == 0,
        ;
    }
}

proof fn lemma_rings_area(c: int, r: nat)
    requires
        4 <= c <= 255,
        c % 4 == 0,
        r <= MAX_RINGS,
    ensures
        8 * (c * c) + pieces_twice_area(rings_pieces(c, r)) == 8 * (outer_radius(c, r) * outer_radius(c, r)),
    decreases r,
{
    let q = c / 4;
    if r == 0 {
        assert(outer_radius(c, 0) == 4 * q);
        assert(c == 4 * q);
    } else {
        let m = (r - 1) as nat;
        lemma_rings_area(c, m);
        lemma_pieces_area_concat(rings_pieces(c, m), ring_prefix(c, r, 12));
        lemma_ring_prefix_grid(c, r, 12);
        lemma_pieces_area_uniform(ring_prefix(c, r, 12), ring_scale(r));
        lemma_ring_prefix_len(c, r, 12);
        let s = ring_scale(r);
        let t = ring_scale(m);
        assert(s == 2 * t);
        assert(12 * (q * q) * (8 * (s * s)) + 8 * ((4 * (q * t)) * (4 * (q * t))) == 8 * ((4 * (q * s)) * (4
            * (q * s)))) by (nonlinear_arith)
            requires
                s == 2 * t,
        ;
    }
}

/// The triangles of the mesh that `create_base_mesh` builds, all turning the
/// same way, have together exactly the area of the square of radius
/// `outer_radius(c, rings)` that holds all its vertices (twice that area on
/// the left, as a sum of orientations). The bound on the vertex count is that
/// of `u32` indices.
pub proof fn lemma_base_mesh_area(c: int, rings: nat)
    requires
        0 <= c <= 255,
        c % 4 == 0,
        rings <= MAX_RINGS,
        apply_pieces(empty_mesh(), base_mesh_pieces(c, rings)).vertices.len() <= 0x1_0000_0000,
    ensures
        ({
            let m = apply_pieces(empty_mesh(), base_mesh_pieces(c, rings));
            let side = 2 * outer_radius(c, rings);
            twice_area(m, (m.indices.len() / 3) as int) == 2 * (side * side)
        }),
{
    let ps = base_mesh_pieces(c, rings);
    lemma_mesh_twice_area(ps);
    lemma_pieces_area_concat(centre_pieces(c), rings_pieces(c, rings));
    lemma_centre_grid(c);
    lemma_pieces_area_uniform(centre_pieces(c), 1);
    let r = outer_radius(c, rings);
    if c == 0 {
        assert(centre_pieces(c).len() == 0) by {
            lemma_quad_block_len(centre_corner(c), 1, 0, 0, 0, 0);
        }
        assert(r == 0) by (nonlinear_arith)
            requires
                r == 4 * ((c / 4) * ring_scale(rings)),
                c == 0,
        ;
        assert(rings_pieces(c, rings).len() == 0) by {
            lemma_rings_empty(rings);
        }
        assert(pieces_twice_area(centre_pieces(c)) == 0);
        assert(pieces_twice_area(rings_pieces(c, rings)) == 0);
        assert(pieces_twice_area(ps) == 0);
    } else {
        lemma_subdivided_len(centre_corner(c), 1, c, None);
        lemma_rings_area(c, rings);
        assert(2 * ((2 * r) * (2 * r)) == 8 * (r * r)) by (nonlinear_arith);
        assert((c * c) * (8 * (1 * 1)) == 8 * (c * c)) by (nonlinear_arith);
        assert(pieces_twice_area(centre_pieces(c)) == 8 * (c * c));
        assert(pieces_twice_area(ps) == 8 * (r * r));
    }
}

proof fn lemma_rings_empty(r: nat)
    ensures
        rings_pieces(0, r).len() == 0,
    decreases r,
{
    if r > 0 {
        lemma_rings_empty((r - 1) as nat);
        lemma_ring_prefix_zero(r, 12);
    }
}

proof fn lemma_ring_prefix_zero(n: nat, k: int)
    ensures
        ring_prefix(0, n, k).len() == 0,
    decreases k,
{
    if k > 0 {
        lemma_ring_prefix_zero(n, k - 1);
        let bl = ring_block_corner(0, n, k - 1);
        let qw = ring_scale(n) as i128;
        match ring_layout(k - 1).2 {
            Some(DirectionForTiple::Up) => {
                lemma_quad_block_len(bl, qw, 0, 0, 0, 0);
                lemma_triple_row_len(bl, qw, 0, 0, -1, DirectionForTiple::Up);
                assert(quad_block(bl, qw, 0, 0, 0, -1).len() == 0);
            },
            Some(DirectionForTiple::Down) => {
                lemma_quad_block_len(bl, qw, 0, 0, 1, 1);
                assert(quad_block(bl, qw, 0, 0, 1, 0).len() == 0);
                lemma_triple_row_len(bl, qw, 0, 0, 0, DirectionForTiple::Down);
            },
            Some(DirectionForTiple::Right) => {
                assert(quad_block(bl, qw, 0, -1, 0, 0).len() == 0);
                lemma_triple_column_len(bl, qw, -1, 0, 0, DirectionForTiple::Left);
            },
            Some(DirectionForTiple::Left) => {
                assert(quad_block(bl, qw, 1, 0, 0, 0).len() == 0);
                lemma_triple_column_len(bl, qw, 0, 0, 0, DirectionForTiple::Right);
            },
            None => {
                assert(quad_block(bl, qw, 0, 0, 0, 0).len() == 0);
            },
        }
    }
}

/// The two corners differ in x or in z.
pub open spec fn corners_differ(a: GridPoint, b: GridPoint) -> bool {
    a.x != b.x || a.z != b.z
}

/// No two pieces of `ps` have the same corner (in x and z).
pub open spec fn distinct_corners(ps: Seq<Piece>) -> bool {
    forall|i: int, j: int| 0 <= i < j < ps.len() ==> corners_differ(piece_corner(#[trigger] ps[i]), piece_corner(#[trigger] ps[j]))
}

/// Every corner of `ps` lies in the box `x_min ..= x_max` by `z_min ..= z_max`.
pub open spec fn corners_within(ps: Seq<Piece>, x_min: int, x_max: int, z_min: int, z_max: int) -> bool {
    forall|i: int|
        0 <= i < ps.len() ==> x_min <= piece_corner(#[trigger] ps[i]).x <= x_max && z_min <= piece_corner(ps[i]).z
            <= z_max
}

/// The cells in the given range are exact lattice points.
pub open spec fn cells_exact(bl: GridPoint, qw: i128, x_lo: int, x_hi: int, y_lo: int, y_hi: int) -> bool {
    forall|x: int, y: int|
        x_lo <= x < x_hi && y_lo <= y < y_hi ==> (#[trigger] cell(bl, qw, x, y)).x == bl.x + qw * x && cell(
            bl,
            qw,
            x,
            y,
        ).z == bl.z + qw * y
}

proof fn lemma_scaled_le(w: int, u: int, v: int)
    requires
        1 <= w,
    ensures
        u <= v ==> w * u <= w * v,
        u < v ==> w * u + w <= w * v,
{
    if u <= v {
        assert(w * u <= w * v) by (nonlinear_arith)
            requires
                1 <= w,
                u <= v,
        ;
    }
    if u < v {
        assert(w * u + w <= w * v) by (nonlinear_arith)
            requires
                1 <= w,
                u < v,
        ;
    }
}

proof fn lemma_distinct_concat(a: Seq<Piece>, b: Seq<Piece>)
    requires
        distinct_corners(a),
        distinct_corners(b),
        forall|i: int, j: int| 0 <= i < a.len() && 0 <= j < b.len() ==> corners_differ(piece_corner(#[trigger] a[i]), piece_corner(#[trigger] b[j])),
    ensures
        distinct_corners(a + b),
{
    assert forall|i: int, j: int| 0 <= i < j < (a + b).len() implies corners_differ(piece_corner(#[trigger] (a + b)[i]), piece_corner(#[trigger] (a + b)[j])) by {
        if j < a.len() {
            assert((a + b)[i] == a[i] && (a + b)[j] == a[j]);
        } else if i >= a.len() {
            assert((a + b)[i] == b[i - a.len()] && (a + b)[j] == b[j - a.len()]);
        } else {
            assert((a + b)[i] == a[i] && (a + b)[j] == b[j - a.len()]);
        }
    }
}

proof fn lemma_within_concat(a: Seq<Piece>, b: Seq<Piece>, x_min: int, x_max: int, z_min: int, z_max: int)
    requires
        corners_within(a, x_min, x_max, z_min, z_max),
        corners_within(b, x_min, x_max, z_min, z_max),
    ensures
        corners_within(a + b, x_min, x_max, z_min, z_max),
{
    assert forall|i: int| 0 <= i < (a + b).len() implies x_min <= piece_corner(#[trigger] (a + b)[i]).x <= x_max && z_min
        <= piece_corner((a + b)[i]).z <= z_max by {
        if i < a.len() {
            assert((a + b)[i] == a[i]);
        } else {
            assert((a + b)[i] == b[i - a.len()]);
        }
    }
}

proof fn lemma_within_widen(a: Seq<Piece>, x_min: int, x_max: int, z_min: int, z_max: int, x_min2: int, x_max2: int, z_min2: int, z_max2: int)
    requires
        corners_within(a, x_min, x_max, z_min, z_max),
        x_min2 <= x_min,
        x_max <= x_max2,
        z_min2 <= z_min,
        z_max <= z_max2,
    ensures
        corners_within(a, x_min2, x_max2, z_min2, z_max2),
{
}

/// Pieces in boxes apart from each other have different corners.
proof fn lemma_boxes_apart(a: Seq<Piece>, b: Seq<Piece>, ax0: int, ax1: int, az0: int, az1: int, bx0: int, bx1: int, bz0: int, bz1: int)
    requires
        corners_within(a, ax0, ax1, az0, az1),
        corners_within(b, bx0, bx1, bz0, bz1),
        ax1 < bx0 || bx1 < ax0 || az1 < bz0 || bz1 < az0,
    ensures
        forall|i: int, j: int| 0 <= i < a.len() && 0 <= j < b.len() ==> corners_differ(piece_corner(#[trigger] a[i]), piece_corner(#[trigger] b[j])),
{
    assert forall|i: int, j: int| 0 <= i < a.len() && 0 <= j < b.len() implies corners_differ(piece_corner(#[trigger] a[i]), piece_corner(#[trigger] b[j])) by {
        assert(ax0 <= piece_corner(a[i]).x <= ax1 && az0 <= piece_corner(a[i]).z <= az1);
        assert(bx0 <= piece_corner(b[j]).x <= bx1 && bz0 <= piece_corner(b[j]).z <= bz1);
    }
}

proof fn lemma_one_piece(p: Piece)
    ensures
        distinct_corners(seq![p]),
        corners_within(seq![p], piece_corner(p).x as int, piece_corner(p).x as int, piece_corner(p).z as int, piece_corner(p).z as int),
{
    assert(seq![p][0] == p);
}

proof fn lemma_quad_column_distinct(bl: GridPoint, qw: i128, x: int, y_lo: int, y_hi: int)
    requires
        1 <= qw,
        y_lo <= y_hi,
        cells_exact(bl, qw, x, x + 1, y_lo, y_hi),
    ensures
        distinct_corners(quad_column(bl, qw, x, y_lo, y_hi)),
        corners_within(quad_column(bl, qw, x, y_lo, y_hi), bl.x + qw * x, bl.x + qw * x, bl.z + qw * y_lo, bl.z + qw * (y_hi - 1)),
    decreases y_hi - y_lo,
{
    if y_hi > y_lo {
        let a = quad_column(bl, qw, x, y_lo, y_hi - 1);
        let p = Piece::Quad { bottom_left: cell(bl, qw, x, y_hi - 1), width: qw };
        lemma_quad_column_distinct(bl, qw, x, y_lo, y_hi - 1);
        lemma_one_piece(p);
        assert(cell(bl, qw, x, y_hi - 1).z == bl.z + qw * (y_hi - 1));
        lemma_scaled_le(qw as int, y_hi - 2, y_hi - 1);
        lemma_scaled_le(qw as int, y_lo, y_hi - 1);
        lemma_boxes_apart(a, seq![p], bl.x + qw * x, bl.x + qw * x, bl.z + qw * y_lo, bl.z + qw * (y_hi - 2),
            bl.x + qw * x, bl.x + qw * x, bl.z + qw * (y_hi - 1), bl.z + qw * (y_hi - 1));
        lemma_distinct_concat(a, seq![p]);
        lemma_within_widen(a, bl.x + qw * x, bl.x + qw * x, bl.z + qw * y_lo, bl.z + qw * (y_hi - 2),
            bl.x + qw * x, bl.x + qw * x, bl.z + qw * y_lo, bl.z + qw * (y_hi - 1));
        lemma_within_concat(a, seq![p], bl.x + qw * x, bl.x + qw * x, bl.z + qw * y_lo, bl.z + qw * (y_hi - 1));
        assert(a.push(p) =~= a + seq![p]);
    }
}

proof fn lemma_quad_block_distinct(bl: GridPoint, qw: i128, x_lo: int, x_hi: int, y_lo: int, y_hi: int)
    requires
        1 <= qw,
        x_lo <= x_hi,
        y_lo <= y_hi,
        cells_exact(bl, qw, x_lo, x_hi, y_lo, y_hi),
    ensures
        distinct_corners(quad_block(bl, qw, x_lo, x_hi, y_lo, y_hi)),
        corners_within(
            quad_block(bl, qw, x_lo, x_hi, y_lo, y_hi),
            bl.x + qw * x_lo,
            bl.x + qw * (x_hi - 1),
            bl.z + qw * y_lo,
            bl.z + qw * (y_hi - 1),
        ),
    decreases x_hi - x_lo,
{
    if x_hi > x_lo {
        let a = quad_block(bl, qw, x_lo, x_hi - 1, y_lo, y_hi);
        let b = quad_column(bl, qw, x_hi - 1, y_lo, y_hi);
        lemma_quad_block_distinct(bl, qw, x_lo, x_hi - 1, y_lo, y_hi);
        assert(cells_exact(bl, qw, x_hi - 1, x_hi, y_lo, y_hi)) by {
            assert forall|x: int, y: int| x_hi - 1 <= x < x_hi && y_lo <= y < y_hi implies (#[trigger] cell(bl, qw, x, y)).x
                == bl.x + qw * x && cell(bl, qw, x, y).z == bl.z + qw * y by {
                let _ = cell(bl, qw, x, y);
            }
        }
        lemma_quad_column_distinct(bl, qw, x_hi - 1, y_lo, y_hi);
        lemma_scaled_le(qw as int, x_hi - 2, x_hi - 1);
        lemma_scaled_le(qw as int, x_lo, x_hi - 1);
        lemma_boxes_apart(a, b, bl.x + qw * x_lo, bl.x + qw * (x_hi - 2), bl.z + qw * y_lo, bl.z + qw * (y_hi - 1),
            bl.x + qw * (x_hi - 1), bl.x + qw * (x_hi - 1), bl.z + qw * y_lo, bl.z + qw * (y_hi - 1));
        lemma_distinct_concat(a, b);
        lemma_within_widen(a, bl.x + qw * x_lo, bl.x + qw * (x_hi - 2), bl.z + qw * y_lo, bl.z + qw * (y_hi - 1),
            bl.x + qw * x_lo, bl.x + qw * (x_hi - 1), bl.z + qw * y_lo, bl.z + qw * (y_hi - 1));
        lemma_within_widen(b, bl.x + qw * (x_hi - 1), bl.x + qw * (x_hi - 1), bl.z + qw * y_lo, bl.z + qw * (y_hi - 1),
            bl.x + qw * x_lo, bl.x + qw * (x_hi - 1), bl.z + qw * y_lo, bl.z + qw * (y_hi - 1));
        lemma_within_concat(a, b, bl.x + qw * x_lo, bl.x + qw * (x_hi - 1), bl.z + qw * y_lo, bl.z + qw * (y_hi - 1));
    }
}

proof fn lemma_triple_row_distinct(bl: GridPoint, qw: i128, x_lo: int, x_hi: int, y: int, dir: DirectionForTiple)
    requires
        1 <= qw,
        x_lo <= x_hi,
        cells_exact(bl, qw, x_lo, x_hi, y, y + 1),
    ensures
        distinct_corners(triple_row(bl, qw, x_lo, x_hi, y, dir)),
        corners_within(triple_row(bl, qw, x_lo, x_hi, y, dir), bl.x + qw * x_lo, bl.x + qw * (x_hi - 1), bl.z + qw * y, bl.z + qw * y),
    decreases x_hi - x_lo,
{
    if x_hi > x_lo {
        let a = triple_row(bl, qw, x_lo, x_hi - 1, y, dir);
        let p = Piece::Triple { bottom_left: cell(bl, qw, x_hi - 1, y), width: qw, direction: dir };
        lemma_triple_row_distinct(bl, qw, x_lo, x_hi - 1, y, dir);
        lemma_one_piece(p);
        assert(cell(bl, qw, x_hi - 1, y).x == bl.x + qw * (x_hi - 1));
        lemma_scaled_le(qw as int, x_hi - 2, x_hi - 1);
        lemma_scaled_le(qw as int, x_lo, x_hi - 1);
        lemma_boxes_apart(a, seq![p], bl.x + qw * x_lo, bl.x + qw * (x_hi - 2), bl.z + qw * y, bl.z + qw * y,
            bl.x + qw * (x_hi - 1), bl.x + qw * (x_hi - 1), bl.z + qw * y, bl.z + qw * y);
        lemma_distinct_concat(a, seq![p]);
        lemma_within_widen(a, bl.x + qw * x_lo, bl.x + qw * (x_hi - 2), bl.z + qw * y, bl.z + qw * y,
            bl.x + qw * x_lo, bl.x + qw * (x_hi - 1), bl.z + qw * y, bl.z + qw * y);
        lemma_within_concat(a, seq![p], bl.x + qw * x_lo, bl.x + qw * (x_hi - 1), bl.z + qw * y, bl.z + qw * y);
        assert(a.push(p) =~= a + seq![p]);
    }
}

proof fn lemma_triple_column_distinct(bl: GridPoint, qw: i128, x: int, y_lo: int, y_hi: int, dir: DirectionForTiple)
    requires
        1 <= qw,
        y_lo <= y_hi,
        cells_exact(bl, qw, x, x + 1, y_lo, y_hi),
    ensures
        distinct_corners(triple_column(bl, qw, x, y_lo, y_hi, dir)),
        corners_within(triple_column(bl, qw, x, y_lo, y_hi, dir), bl.x + qw * x, bl.x + qw * x, bl.z + qw * y_lo, bl.z + qw * (y_hi - 1)),
    decreases y_hi - y_lo,
{
    if y_hi > y_lo {
        let a = triple_column(bl, qw, x, y_lo, y_hi - 1, dir);
        let p = Piece::Triple { bottom_left: cell(bl, qw, x, y_hi - 1), width: qw, direction: dir };
        lemma_triple_column_distinct(bl, qw, x, y_lo, y_hi - 1, dir);
        lemma_one_piece(p);
        assert(cell(bl, qw, x, y_hi - 1).z == bl.z + qw * (y_hi - 1));
        lemma_scaled_le(qw as int, y_hi - 2, y_hi - 1);
        lemma_scaled_le(qw as int, y_lo, y_hi - 1);
        lemma_boxes_apart(a, seq![p], bl.x + qw * x, bl.x + qw * x, bl.z + qw * y_lo, bl.z + qw * (y_hi - 2),
            bl.x + qw * x, bl.x + qw * x, bl.z + qw * (y_hi - 1), bl.z + qw * (y_hi - 1));
        lemma_distinct_concat(a, seq![p]);
        lemma_within_widen(a, bl.x + qw * x, bl.x + qw * x, bl.z + qw * y_lo, bl.z + qw * (y_hi - 2),
            bl.x + qw * x, bl.x + qw * x, bl.z + qw * y_lo, bl.z + qw * (y_hi - 1));
        lemma_within_concat(a, seq![p], bl.x + qw * x, bl.x + qw * x, bl.z + qw * y_lo, bl.z + qw * (y_hi - 1));
        assert(a.push(p) =~= a + seq![p]);
    }
}

/// The pieces of a subdivided block sit on distinct cells of the block.
proof fn lemma_subdivided_distinct(bl: GridPoint, qw: i128, d: int, dir: Option<DirectionForTiple>)
    requires
        1 <= qw,
        1 <= d,
        cells_exact(bl, qw, 0, d, 0, d),
    ensures
        distinct_corners(subdivided_pieces(bl, qw, d, dir)),
        corners_within(subdivided_pieces(bl, qw, d, dir), bl.x as int, bl.x + qw * (d - 1), bl.z as int, bl.z + qw * (d - 1)),
{
    let e = qw * (d - 1);
    let f = qw * (d - 2);
    lemma_scaled_le(qw as int, d - 2, d - 1);
    lemma_scaled_le(qw as int, 0, d - 1);
    lemma_scaled_le(qw as int, 0, 1);
    lemma_scaled_le(qw as int, 1, d - 1);
    assert(qw * 0 == 0);
    assert(qw * 1 == qw);
    assert forall|x: int, y: int| 0 <= x < d && 0 <= y < d implies (#[trigger] cell(bl, qw, x, y)).x == bl.x + qw * x && cell(
        bl,
        qw,
        x,
        y,
    ).z == bl.z + qw * y by {
        let _ = cell(bl, qw, x, y);
    }
    match dir {
        Some(DirectionForTiple::Up) => {
            let a = quad_block(bl, qw, 0, d, 0, d - 1);
            let b = triple_row(bl, qw, 0, d, d - 1, DirectionForTiple::Up);
            lemma_quad_block_distinct(bl, qw, 0, d, 0, d - 1);
            lemma_triple_row_distinct(bl, qw, 0, d, d - 1, DirectionForTiple::Up);
            lemma_boxes_apart(a, b, bl.x as int, bl.x + e, bl.z as int, bl.z + f, bl.x as int, bl.x + e, bl.z + e, bl.z + e);
            lemma_distinct_concat(a, b);
            lemma_within_widen(a, bl.x as int, bl.x + e, bl.z as int, bl.z + f, bl.x as int, bl.x + e, bl.z as int, bl.z + e);
            lemma_within_concat(a, b, bl.x as int, bl.x + e, bl.z as int, bl.z + e);
        },
        Some(DirectionForTiple::Down) => {
            let a = quad_block(bl, qw, 0, d, 1, d);
            let b = triple_row(bl, qw, 0, d, 0, DirectionForTiple::Down);
            lemma_quad_block_distinct(bl, qw, 0, d, 1, d);
            lemma_triple_row_distinct(bl, qw, 0, d, 0, DirectionForTiple::Down);
            lemma_boxes_apart(a, b, bl.x as int, bl.x + e, bl.z + qw, bl.z + e, bl.x as int, bl.x + e, bl.z as int, bl.z as int);
            lemma_distinct_concat(a, b);
            lemma_within_widen(a, bl.x as int, bl.x + e, bl.z + qw, bl.z + e, bl.x as int, bl.x + e, bl.z as int, bl.z + e);
            lemma_within_widen(b, bl.x as int, bl.x + e, bl.z as int, bl.z as int, bl.x as int, bl.x + e, bl.z as int, bl.z + e);
            lemma_within_concat(a, b, bl.x as int, bl.x + e, bl.z as int, bl.z + e);
        },
        Some(DirectionForTiple::Right) => {
            let a = quad_block(bl, qw, 0, d - 1, 0, d);
            let b = triple_column(bl, qw, d - 1, 0, d, DirectionForTiple::Left);
            lemma_quad_block_distinct(bl, qw, 0, d - 1, 0, d);
            lemma_triple_column_distinct(bl, qw, d - 1, 0, d, DirectionForTiple::Left);
            lemma_boxes_apart(a, b, bl.x as int, bl.x + f, bl.z as int, bl.z + e, bl.x + e, bl.x + e, bl.z as int, bl.z + e);
            lemma_distinct_concat(a, b);
            lemma_within_widen(a, bl.x as int, bl.x + f, bl.z as int, bl.z + e, bl.x as int, bl.x + e, bl.z as int, bl.z + e);
            lemma_within_widen(b, bl.x + e, bl.x + e, bl.z as int, bl.z + e, bl.x as int, bl.x + e, bl.z as int, bl.z + e);
            lemma_within_concat(a, b, bl.x as int, bl.x + e, bl.z as int, bl.z + e);
        },
        Some(DirectionForTiple::Left) => {
            let a = quad_block(bl, qw, 1, d, 0, d);
            let b = triple_column(bl, qw, 0, 0, d, DirectionForTiple::Right);
            lemma_quad_block_distinct(bl, qw, 1, d, 0, d);
            lemma_triple_column_distinct(bl, qw, 0, 0, d, DirectionForTiple::Right);
            lemma_boxes_apart(a, b, bl.x + qw, bl.x + e, bl.z as int, bl.z + e, bl.x as int, bl.x as int, bl.z as int, bl.z + e);
            lemma_distinct_concat(a, b);
            lemma_within_widen(a, bl.x + qw, bl.x + e, bl.z as int, bl.z + e, bl.x as int, bl.x + e, bl.z as int, bl.z + e);
            lemma_within_widen(b, bl.x as int, bl.x as int, bl.z as int, bl.z + e, bl.x as int, bl.x + e, bl.z as int, bl.z + e);
            lemma_within_concat(a, b, bl.x as int, bl.x + e, bl.z as int, bl.z + e);
        },
        None => {
            lemma_quad_block_distinct(bl, qw, 0, d, 0, d);
        },
    }
}

/// The block of a ring that a coordinate falls in, for blocks `a` wide with
/// the ring's corner at `-2 * a`.
pub open spec fn band(v: int, a: int) -> int {
    if v < -a {
        0
    } else if v < 0 {
        1
    } else if v < a {
        2
    } else {
        3
    }
}

/// The place in the ring's block table of the block at column `bx`, row `by`
/// (12 for the ring's hole and anything else).
pub open spec fn layout_index(bx: int, by: int) -> int {
    if bx == 0 && by == 0 {
        0
    } else if bx == 0 && by == 1 {
        1
    } else if bx == 0 && by == 2 {
        2
    } else if bx == 0 && by == 3 {
        3
    } else if bx == 1 && by == 0 {
        4
    } else if bx == 1 && by == 3 {
        5
    } else if bx == 2 && by == 0 {
        6
    } else if bx == 2 && by == 3 {
        7
    } else if bx == 3 && by == 0 {
        8
    } else if bx == 3 && by == 1 {
        9
    } else if bx == 3 && by == 2 {
        10
    } else if bx == 3 && by == 3 {
        11
    } else {
        12
    }
}

proof fn lemma_layout_index(k: int)
    requires
        0 <= k < 12,
    ensures
        layout_index(ring_layout(k).0, ring_layout(k).1) == k,
        0 <= ring_layout(k).0 <= 3,
        0 <= ring_layout(k).1 <= 3,
        ring_layout(k).0 == 0 || ring_layout(k).0 == 3 || ring_layout(k).1 == 0 || ring_layout(k).1 == 3,
{
    if k == 0 {
    } else if k == 1 {
    } else if k == 2 {
    } else if k == 3 {
    } else if k == 4 {
    } else if k == 5 {
    } else if k == 6 {
    } else if k == 7 {
    } else if k == 8 {
    } else if k == 9 {
    } else if k == 10 {
    } else if k == 11 {
    }
}

/// The pieces of block `k` of ring `n` sit on distinct cells, all in that block.
proof fn lemma_slot_distinct(c: int, n: nat, k: int)
    requires
        4 <= c <= 255,
        1 <= n <= MAX_RINGS,
        0 <= k < 12,
    ensures
        ({
            let slot = subdivided_pieces(ring_block_corner(c, n, k), ring_scale(n) as i128, c / 4, ring_layout(k).2);
            let a = (c / 4) * ring_scale(n);
            &&& distinct_corners(slot)
            &&& forall|i: int| 0 <= i < slot.len() ==> layout_index(band(piece_corner(#[trigger] slot[i]).x as int, a), band(piece_corner(slot[i]).z as int, a)) == k
        }),
{
    let s = ring_scale(n);
    let q = c / 4;
    let a = q * s;
    let bl = ring_block_corner(c, n, k);
    let qw = s as i128;
    let slot = subdivided_pieces(bl, qw, q, ring_layout(k).2);
    lemma_ring_cell(c, n, k, 0, 0);
    let (bx, by, _) = ring_layout(k);
    assert(cell(bl, qw, 0, 0) == bl);
    assert(bl.x == -2 * a + bx * a && bl.z == -2 * a + by * a);
    assert forall|x: int, y: int| 0 <= x < q && 0 <= y < q implies (#[trigger] cell(bl, qw, x, y)).x == bl.x + qw * x && cell(
        bl,
        qw,
        x,
        y,
    ).z == bl.z + qw * y by {
        lemma_ring_cell(c, n, k, x, y);
    }
    lemma_subdivided_distinct(bl, qw, q, ring_layout(k).2);
    lemma_layout_index(k);
    assert(s * (q - 1) == a - s) by (nonlinear_arith)
        requires
            a == q * s,
    ;
    assert(1 <= s);
    assert(bx * a == 0 || bx * a == a || bx * a == 2 * a || bx * a == 3 * a) by (nonlinear_arith)
        requires
            0 <= bx <= 3,
    ;
    assert(by * a == 0 || by * a == a || by * a == 2 * a || by * a == 3 * a) by (nonlinear_arith)
        requires
            0 <= by <= 3,
    ;
    assert((bx == 0 ==> bx * a == 0) && (bx == 1 ==> bx * a == a) && (bx == 2 ==> bx * a == 2 * a) && (bx == 3
        ==> bx * a == 3 * a)) by (nonlinear_arith);
    assert((by == 0 ==> by * a == 0) && (by == 1 ==> by * a == a) && (by == 2 ==> by * a == 2 * a) && (by == 3
        ==> by * a == 3 * a)) by (nonlinear_arith);
    assert forall|i: int| 0 <= i < slot.len() implies layout_index(band(piece_corner(#[trigger] slot[i]).x as int, a), band(piece_corner(slot[i]).z as int, a)) == k by {
        let p = piece_corner(slot[i]);
        assert(bl.x <= p.x <= bl.x + qw * (q - 1) && bl.z <= p.z <= bl.z + qw * (q - 1));
        assert(band(p.x as int, a) == bx);
        assert(band(p.z as int, a) == by);
    }
}

/// The pieces of the first `k` blocks of ring `n` sit on distinct cells.
proof fn lemma_ring_prefix_distinct(c: int, n: nat, k: int)
    requires
        4 <= c <= 255,
        1 <= n <= MAX_RINGS,
        0 <= k <= 12,
    ensures
        distinct_corners(ring_prefix(c, n, k)),
        forall|i: int| 0 <= i < ring_prefix(c, n, k).len() ==> layout_index(band(piece_corner(#[trigger] ring_prefix(c, n, k)[i]).x as int, (c / 4) * ring_scale(n)), band(piece_corner(ring_prefix(c, n, k)[i]).z as int, (c / 4) * ring_scale(n))) < k,
    decreases k,
{
    let a = (c / 4) * ring_scale(n);
    if k > 0 {
        let pre = ring_prefix(c, n, k - 1);
        let slot = subdivided_pieces(ring_block_corner(c, n, k - 1), ring_scale(n) as i128, c / 4, ring_layout(k - 1).2);
        lemma_ring_prefix_distinct(c, n, k - 1);
        lemma_slot_distinct(c, n, k - 1);
        assert forall|i: int, j: int| 0 <= i < pre.len() && 0 <= j < slot.len() implies corners_differ(piece_corner(#[trigger] pre[i]), piece_corner(#[trigger] slot[j])) by {
            let u = piece_corner(pre[i]);
            let v = piece_corner(slot[j]);
            assert(layout_index(band(u.x as int, a), band(u.z as int, a)) < k - 1);
            assert(layout_index(band(v.x as int, a), band(v.z as int, a)) == k - 1);
        }
        lemma_distinct_concat(pre, slot);
        assert(ring_prefix(c, n, k) == pre + slot);
        assert forall|i: int| 0 <= i < (pre + slot).len() implies layout_index(band(piece_corner(#[trigger] (pre + slot)[i]).x as int, a), band(piece_corner((pre + slot)[i]).z as int, a)) < k by {
            if i < pre.len() {
                assert((pre + slot)[i] == pre[i]);
            } else {
                assert((pre + slot)[i] == slot[i - pre.len()]);
            }
        }
    }
}

/// The pieces of ring `m` (the centre grid for `m == 0`) sit on distinct cells.
proof fn lemma_ring_pieces_distinct(c: int, m: nat)
    requires
        0 <= c <= 255,
        c % 4 == 0,
        m <= MAX_RINGS,
    ensures
        distinct_corners(ring_pieces(c, m)),
{
    if m == 0 {
        let bl = centre_corner(c);
        assert forall|x: int, y: int| 0 <= x < c && 0 <= y < c implies (#[trigger] cell(bl, 1, x, y)).x == bl.x + 1 * x && cell(
            bl,
            1,
            x,
            y,
        ).z == bl.z + 1 * y by {
            let _ = cell(bl, 1, x, y);
        }
        lemma_quad_block_distinct(bl, 1, 0, c, 0, c);
    } else if c == 0 {
        lemma_ring_prefix_zero(m, 12);
    } else {
        lemma_ring_prefix_distinct(c, m, 12);
    }
}

/// Twice the signed area of the triangle `(ax, az)`, `(bx, bz)`, `(cx, cz)`.
pub open spec fn orient(ax: int, az: int, bx: int, bz: int, cx: int, cz: int) -> int {
    (bz - az) * (cx - ax) - (bx - ax) * (cz - az)
}

/// The point `(px, pz) / k` (half steps, seen from above) lies strictly
/// inside the triangle `a b c`, which turns the terrain's way.
pub open spec fn strictly_inside(px: int, pz: int, k: int, a: GridPoint, b: GridPoint, c: GridPoint) -> bool {
    &&& orient(k * a.x, k * a.z, k * b.x, k * b.z, px, pz) > 0
    &&& orient(k * b.x, k * b.z, k * c.x, k * c.z, px, pz) > 0
    &&& orient(k * c.x, k * c.z, k * a.x, k * a.z, px, pz) > 0
}

/// The point `(px, pz) / k` lies strictly inside triangle `t` of piece `p`.
pub open spec fn inside_piece_triangle(p: Piece, t: int, px: int, pz: int, k: int) -> bool {
    strictly_inside(px, pz, k, edge_start(p, t, 0), edge_start(p, t, 1), edge_start(p, t, 2))
}

proof fn lemma_orient_shift(xx: int, xz: int, yx: int, yz: int, px: int, pz: int)
    by (nonlinear_arith)
    ensures
        orient(xx, xz, yx, yz, px, pz) == (xz - pz) * (yx - px) - (xx - px) * (yz - pz),
{
}

proof fn lemma_product3(u: int, v: int, w: int)
    ensures
        (u * v) * w == (v * w) * u,
        (u * v) * w == (w * u) * v,
        (u * v) * w == (v * u) * w,
{
    vstd::arithmetic::mul::lemma_mul_is_associative(u, v, w);
    vstd::arithmetic::mul::lemma_mul_is_commutative(u, v * w);
    vstd::arithmetic::mul::lemma_mul_is_commutative(w, u);
    vstd::arithmetic::mul::lemma_mul_is_associative(w, u, v);
    vstd::arithmetic::mul::lemma_mul_is_commutative(u, v);
    vstd::arithmetic::mul::lemma_mul_is_commutative(w * u, v);
}

proof fn lemma_weights_cancel(ax: int, az: int, bx: int, bz: int, cx: int, cz: int)
    ensures
        (bz * cx - bx * cz) * ax + (cz * ax - cx * az) * bx + (az * bx - ax * bz) * cx == 0,
        (bz * cx - bx * cz) * az + (cz * ax - cx * az) * bz + (az * bx - ax * bz) * cz == 0,
{
    vstd::arithmetic::mul::lemma_mul_is_distributive_sub_other_way(ax, bz * cx, bx * cz);
    vstd::arithmetic::mul::lemma_mul_is_distributive_sub_other_way(bx, cz * ax, cx * az);
    vstd::arithmetic::mul::lemma_mul_is_distributive_sub_other_way(cx, az * bx, ax * bz);
    vstd::arithmetic::mul::lemma_mul_is_distributive_sub_other_way(az, bz * cx, bx * cz);
    vstd::arithmetic::mul::lemma_mul_is_distributive_sub_other_way(bz, cz * ax, cx * az);
    vstd::arithmetic::mul::lemma_mul_is_distributive_sub_other_way(cz, az * bx, ax * bz);
    lemma_product3(bz, cx, ax);
    lemma_product3(bx, cz, ax);
    lemma_product3(cz, ax, bx);
    lemma_product3(cx, az, bx);
    lemma_product3(az, bx, cx);
    lemma_product3(ax, bz, cx);
    lemma_product3(bz, cx, az);
    lemma_product3(bx, cz, az);
    lemma_product3(cz, ax, bz);
    lemma_product3(cx, az, bz);
    lemma_product3(az, bx, cz);
    lemma_product3(ax, bz, cz);
}

/// The corners of a triangle, weighted by the areas of the triangles that a
/// point cuts it into, balance at that point.
proof fn lemma_barycentric(ax: int, az: int, bx: int, bz: int, cx: int, cz: int, px: int, pz: int)
    ensures
        orient(bx, bz, cx, cz, px, pz) * (ax - px) + orient(cx, cz, ax, az, px, pz) * (bx - px) + orient(ax, az, bx, bz, px, pz) * (cx - px) == 0,
        orient(bx, bz, cx, cz, px, pz) * (az - pz) + orient(cx, cz, ax, az, px, pz) * (bz - pz) + orient(ax, az, bx, bz, px, pz) * (cz - pz) == 0,
{
    lemma_orient_shift(bx, bz, cx, cz, px, pz);
    lemma_orient_shift(cx, cz, ax, az, px, pz);
    lemma_orient_shift(ax, az, bx, bz, px, pz);
    lemma_weights_cancel(ax - px, az - pz, bx - px, bz - pz, cx - px, cz - pz);
}

/// A point strictly inside a triangle lies strictly between the least and the
/// greatest of its corners' coordinates, on each axis.
proof fn lemma_inside_bounds(ax: int, az: int, bx: int, bz: int, cx: int, cz: int, px: int, pz: int)
    requires
        orient(ax, az, bx, bz, px, pz) > 0,
        orient(bx, bz, cx, cz, px, pz) > 0,
        orient(cx, cz, ax, az, px, pz) > 0,
    ensures
        px > ax || px > bx || px > cx,
        px < ax || px < bx || px < cx,
        pz > az || pz > bz || pz > cz,
        pz < az || pz < bz || pz < cz,
{
    let w1 = orient(bx, bz, cx, cz, px, pz);
    let w2 = orient(cx, cz, ax, az, px, pz);
    let w3 = orient(ax, az, bx, bz, px, pz);
    lemma_barycentric(ax, az, bx, bz, cx, cz, px, pz);
    if px <= ax && px <= bx && px <= cx {
        assert(ax == px && bx == px && cx == px) by (nonlinear_arith)
            requires
                w1 > 0,
                w2 > 0,
                w3 > 0,
                px <= ax,
                px <= bx,
                px <= cx,
                w1 * (ax - px) + w2 * (bx - px) + w3 * (cx - px) == 0,
        ;
        assert(w3 == 0) by (nonlinear_arith)
            requires
                w3 == (bz - az) * (px - ax) - (bx - ax) * (pz - az),
                ax == px,
                bx == px,
        ;
    }
    if px >= ax && px >= bx && px >= cx {
        assert(w1 * (px - ax) + w2 * (px - bx) + w3 * (px - cx) == 0) by (nonlinear_arith)
            requires
                w1 * (ax - px) + w2 * (bx - px) + w3 * (cx - px) == 0,
        ;
        assert(ax == px && bx == px && cx == px) by (nonlinear_arith)
            requires
                w1 > 0,
                w2 > 0,
                w3 > 0,
                px >= ax,
                px >= bx,
                px >= cx,
                w1 * (px - ax) + w2 * (px - bx) + w3 * (px - cx) == 0,
        ;
        assert(w3 == 0) by (nonlinear_arith)
            requires
                w3 == (bz - az) * (px - ax) - (bx - ax) * (pz - az),
                ax == px,
                bx == px,
        ;
    }
    if pz <= az && pz <= bz && pz <= cz {
        assert(az == pz && bz == pz && cz == pz) by (nonlinear_arith)
            requires
                w1 > 0,
                w2 > 0,
                w3 > 0,
                pz <= az,
                pz <= bz,
                pz <= cz,
                w1 * (az - pz) + w2 * (bz - pz) + w3 * (cz - pz) == 0,
        ;
        assert(w3 == 0) by (nonlinear_arith)
            requires
                w3 == (bz - az) * (px - ax) - (bx - ax) * (pz - az),
                az == pz,
                bz == pz,
        ;
    }
    if pz >= az && pz >= bz && pz >= cz {
        assert(w1 * (pz - az) + w2 * (pz - bz) + w3 * (pz - cz) == 0) by (nonlinear_arith)
            requires
                w1 * (az - pz) + w2 * (bz - pz) + w3 * (cz - pz) == 0,
        ;
        assert(az == pz && bz == pz && cz == pz) by (nonlinear_arith)
            requires
                w1 > 0,
                w2 > 0,
                w3 > 0,
                pz >= az,
                pz >= bz,
                pz >= cz,
                w1 * (pz - az) + w2 * (pz - bz) + w3 * (pz - cz) == 0,
        ;
        assert(w3 == 0) by (nonlinear_arith)
            requires
                w3 == (bz - az) * (px - ax) - (bx - ax) * (pz - az),
                az == pz,
                bz == pz,
        ;
    }
}

/// A point strictly inside triangle `t` of a piece lies strictly inside the
/// box of that triangle's corners (scaled by `k`), and so inside the piece's
/// open cell.
proof fn lemma_triangle_box(p: Piece, w: int, t: int, px: int, pz: int, k: int)
    requires
        1 <= w,
        1 <= k,
        piece_width(p) == w,
        corners_exact(piece_corner(p), w),
        0 <= t < piece_triangles(p).len() / 3,
        inside_piece_triangle(p, t, px, pz, k),
    ensures
        ({
            let a = edge_start(p, t, 0);
            let b = edge_start(p, t, 1);
            let c = edge_start(p, t, 2);
            let bl = piece_corner(p);
            &&& (px > k * a.x || px > k * b.x || px > k * c.x)
            &&& (px < k * a.x || px < k * b.x || px < k * c.x)
            &&& (pz > k * a.z || pz > k * b.z || pz > k * c.z)
            &&& (pz < k * a.z || pz < k * b.z || pz < k * c.z)
            &&& k * (2 * bl.x) < px < k * (2 * bl.x + 2 * w)
            &&& k * (2 * bl.z) < pz < k * (2 * bl.z + 2 * w)
        }),
{
    let a = edge_start(p, t, 0);
    let b = edge_start(p, t, 1);
    let c = edge_start(p, t, 2);
    let bl = piece_corner(p);
    lemma_inside_bounds(k * a.x, k * a.z, k * b.x, k * b.z, k * c.x, k * c.z, px, pz);
    lemma_edge_shape(p, w, t, 0);
    lemma_edge_shape(p, w, t, 1);
    assert(edge_end(p, t, 0) == b && edge_end(p, t, 1) == c) by {
        lemma_edge_ends(p, t, 0);
        lemma_edge_ends(p, t, 1);
        assert((0 + 1) % 3 == 1 && (1 + 1) % 3 == 2);
    }
    let lo_x = 2 * bl.x;
    let hi_x = 2 * bl.x + 2 * w;
    let lo_z = 2 * bl.z;
    let hi_z = 2 * bl.z + 2 * w;
    assert(lo_x <= a.x <= hi_x && lo_x <= b.x <= hi_x && lo_x <= c.x <= hi_x);
    assert(lo_z <= a.z <= hi_z && lo_z <= b.z <= hi_z && lo_z <= c.z <= hi_z);
    lemma_scaled_le(k, lo_x, a.x as int);
    lemma_scaled_le(k, lo_x, b.x as int);
    lemma_scaled_le(k, lo_x, c.x as int);
    lemma_scaled_le(k, a.x as int, hi_x);
    lemma_scaled_le(k, b.x as int, hi_x);
    lemma_scaled_le(k, c.x as int, hi_x);
    lemma_scaled_le(k, lo_z, a.z as int);
    lemma_scaled_le(k, lo_z, b.z as int);
    lemma_scaled_le(k, lo_z, c.z as int);
    lemma_scaled_le(k, a.z as int, hi_z);
    lemma_scaled_le(k, b.z as int, hi_z);
    lemma_scaled_le(k, c.z as int, hi_z);
}

proof fn lemma_orient_antisym(ax: int, az: int, bx: int, bz: int, px: int, pz: int)
    by (nonlinear_arith)
    ensures
        orient(bx, bz, ax, az, px, pz) == -orient(ax, az, bx, bz, px, pz),
{
}

/// Two triangles that run along one edge in opposite directions have no
/// inner point in common.
proof fn lemma_orient_swap(p: Piece, t1: int, e1: int, t2: int, e2: int, px: int, pz: int, k: int)
    requires
        0 <= e1 < 3,
        0 <= e2 < 3,
        edge_start(p, t1, e1) == edge_start(p, t2, (e2 + 1) % 3),
        edge_start(p, t1, (e1 + 1) % 3) == edge_start(p, t2, e2),
    ensures
        !(inside_piece_triangle(p, t1, px, pz, k) && inside_piece_triangle(p, t2, px, pz, k)),
{
    let u = edge_start(p, t1, e1);
    let v = edge_start(p, t1, (e1 + 1) % 3);
    lemma_orient_antisym(k * u.x, k * u.z, k * v.x, k * v.z, px, pz);
}

/// Two different triangles of one piece have no inner point in common.
proof fn lemma_piece_triangles_disjoint(p: Piece, w: int, t1: int, t2: int, px: int, pz: int, k: int)
    requires
        1 <= w,
        1 <= k,
        piece_width(p) == w,
        corners_exact(piece_corner(p), w),
        0 <= t1 < piece_triangles(p).len() / 3,
        0 <= t2 < piece_triangles(p).len() / 3,
        t1 != t2,
    ensures
        !(inside_piece_triangle(p, t1, px, pz, k) && inside_piece_triangle(p, t2, px, pz, k)),
{
    let bl = piece_corner(p);
    let pp = piece_points(p);
    assert(pp[0] == corner(bl, w, 0, 0));
    assert(pp[1] == corner(bl, w, 2, 0));
    assert(pp[2] == corner(bl, w, 0, 2));
    assert(pp[3] == corner(bl, w, 2, 2));
    if inside_piece_triangle(p, t1, px, pz, k) && inside_piece_triangle(p, t2, px, pz, k) {
        match p {
            Piece::Quad { .. } => {
                assert(piece_triangles(p).len() == 6);
                assert(edge_start(p, 0, 0) == corner(bl, w, 0, 0));
                assert(edge_start(p, 0, 1) == corner(bl, w, 0, 2));
                assert(edge_start(p, 0, 2) == corner(bl, w, 2, 0));
                assert(edge_start(p, 1, 0) == corner(bl, w, 0, 2));
                assert(edge_start(p, 1, 1) == corner(bl, w, 2, 2));
                assert(edge_start(p, 1, 2) == corner(bl, w, 2, 0));
                if t1 == 0 && t2 == 1 {
                    lemma_orient_swap(p, 0, 1, 1, 2, px, pz, k);
                } else if t1 == 1 && t2 == 0 {
                    lemma_orient_swap(p, 1, 2, 0, 1, px, pz, k);
                }
            },
            Piece::Triple { direction, .. } => {
                assert(pp[4] == split_vertex(bl, w, direction));
                assert(piece_triangles(p).len() == 9);
                match direction {
                    DirectionForTiple::Up => {
                        assert(edge_start(p, 0, 0) == corner(bl, w, 0, 0));
                        assert(edge_start(p, 0, 1) == corner(bl, w, 0, 2));
                        assert(edge_start(p, 0, 2) == corner(bl, w, 1, 2));
                        assert(edge_start(p, 1, 0) == corner(bl, w, 0, 0));
                        assert(edge_start(p, 1, 1) == corner(bl, w, 1, 2));
                        assert(edge_start(p, 1, 2) == corner(bl, w, 2, 0));
                        assert(edge_start(p, 2, 0) == corner(bl, w, 1, 2));
                        assert(edge_start(p, 2, 1) == corner(bl, w, 2, 2));
                        assert(edge_start(p, 2, 2) == corner(bl, w, 2, 0));
                        if t1 == 0 && t2 == 1 {
                            lemma_orient_swap(p, 0, 2, 1, 0, px, pz, k);
                        } else if t1 == 0 && t2 == 2 {
                            lemma_triangle_box(p, w, 0, px, pz, k);
                            lemma_triangle_box(p, w, 2, px, pz, k);
                        } else if t1 == 1 && t2 == 0 {
                            lemma_orient_swap(p, 1, 0, 0, 2, px, pz, k);
                        } else if t1 == 1 && t2 == 2 {
                            lemma_orient_swap(p, 1, 1, 2, 2, px, pz, k);
                        } else if t1 == 2 && t2 == 0 {
                            lemma_triangle_box(p, w, 2, px, pz, k);
                            lemma_triangle_box(p, w, 0, px, pz, k);
                        } else if t1 == 2 && t2 == 1 {
                            lemma_orient_swap(p, 2, 2, 1, 1, px, pz, k);
                        }
                    },
                    DirectionForTiple::Down => {
                        assert(edge_start(p, 0, 0) == corner(bl, w, 0, 0));
                        assert(edge_start(p, 0, 1) == corner(bl, w, 0, 2));
                        assert(edge_start(p, 0, 2) == corner(bl, w, 1, 0));
                        assert(edge_start(p, 1, 0) == corner(bl, w, 0, 2));
                        assert(edge_start(p, 1, 1) == corner(bl, w, 2, 2));
                        assert(edge_start(p, 1, 2) == corner(bl, w, 1, 0));
                        assert(edge_start(p, 2, 0) == corner(bl, w, 2, 2));
                        assert(edge_start(p, 2, 1) == corner(bl, w, 2, 0));
                        assert(edge_start(p, 2, 2) == corner(bl, w, 1, 0));
                        if t1 == 0 && t2 == 1 {
                            lemma_orient_swap(p, 0, 1, 1, 2, px, pz, k);
                        } else if t1 == 0 && t2 == 2 {
                            lemma_triangle_box(p, w, 0, px, pz, k);
                            lemma_triangle_box(p, w, 2, px, pz, k);
                        } else if t1 == 1 && t2 == 0 {
                            lemma_orient_swap(p, 1, 2, 0, 1, px, pz, k);
                        } else if t1 == 1 && t2 == 2 {
                            lemma_orient_swap(p, 1, 1, 2, 2, px, pz, k);
                        } else if t1 == 2 && t2 == 0 {
                            lemma_triangle_box(p, w, 2, px, pz, k);
                            lemma_triangle_box(p, w, 0, px, pz, k);
                        } else if t1 == 2 && t2 == 1 {
                            lemma_orient_swap(p, 2, 2, 1, 1, px, pz, k);
                        }
                    },
                    DirectionForTiple::Left => {
                        assert(edge_start(p, 0, 0) == corner(bl, w, 0, 0));
                        assert(edge_start(p, 0, 1) == corner(bl, w, 0, 2));
                        assert(edge_start(p, 0, 2) == corner(bl, w, 2, 1));
                        assert(edge_start(p, 1, 0) == corner(bl, w, 0, 0));
                        assert(edge_start(p, 1, 1) == corner(bl, w, 2, 1));
                        assert(edge_start(p, 1, 2) == corner(bl, w, 2, 0));
                        assert(edge_start(p, 2, 0) == corner(bl, w, 0, 2));
                        assert(edge_start(p, 2, 1) == corner(bl, w, 2, 2));
                        assert(edge_start(p, 2, 2) == corner(bl, w, 2, 1));
                        if t1 == 0 && t2 == 1 {
                            lemma_orient_swap(p, 0, 2, 1, 0, px, pz, k);
                        } else if t1 == 0 && t2 == 2 {
                            lemma_orient_swap(p, 0, 1, 2, 2, px, pz, k);
                        } else if t1 == 1 && t2 == 0 {
                            lemma_orient_swap(p, 1, 0, 0, 2, px, pz, k);
                        } else if t1 == 1 && t2 == 2 {
                            lemma_triangle_box(p, w, 1, px, pz, k);
                            lemma_triangle_box(p, w, 2, px, pz, k);
                        } else if t1 == 2 && t2 == 0 {
                            lemma_orient_swap(p, 2, 2, 0, 1, px, pz, k);
                        } else if t1 == 2 && t2 == 1 {
                            lemma_triangle_box(p, w, 2, px, pz, k);
                            lemma_triangle_box(p, w, 1, px, pz, k);
                        }
                    },
                    DirectionForTiple::Right => {
                        assert(edge_start(p, 0, 0) == corner(bl, w, 0, 0));
                        assert(edge_start(p, 0, 1) == corner(bl, w, 0, 1));
                        assert(edge_start(p, 0, 2) == corner(bl, w, 2, 0));
                        assert(edge_start(p, 1, 0) == corner(bl, w, 0, 1));
                        assert(edge_start(p, 1, 1) == corner(bl, w, 2, 2));
                        assert(edge_start(p, 1, 2) == corner(bl, w, 2, 0));
                        assert(edge_start(p, 2, 0) == corner(bl, w, 0, 1));
                        assert(edge_start(p, 2, 1) == corner(bl, w, 0, 2));
                        assert(edge_start(p, 2, 2) == corner(bl, w, 2, 2));
                        if t1 == 0 && t2 == 1 {
                            lemma_orient_swap(p, 0, 1, 1, 2, px, pz, k);
                        } else if t1 == 0 && t2 == 2 {
                            lemma_triangle_box(p, w, 0, px, pz, k);
                            lemma_triangle_box(p, w, 2, px, pz, k);
                        } else if t1 == 1 && t2 == 0 {
                            lemma_orient_swap(p, 1, 2, 0, 1, px, pz, k);
                        } else if t1 == 1 && t2 == 2 {
                            lemma_orient_swap(p, 1, 0, 2, 2, px, pz, k);
                        } else if t1 == 2 && t2 == 0 {
                            lemma_triangle_box(p, w, 2, px, pz, k);
                            lemma_triangle_box(p, w, 0, px, pz, k);
                        } else if t1 == 2 && t2 == 1 {
                            lemma_orient_swap(p, 2, 2, 1, 0, px, pz, k);
                        }
                    },
                }
            },
        }
    }
}

/// Two cells, of widths `w1` and `w2`, whose open insides do not meet.
pub open spec fn cells_apart(b1: GridPoint, w1: int, b2: GridPoint, w2: int) -> bool {
    ||| 2 * b1.x + 2 * w1 <= 2 * b2.x
    ||| 2 * b2.x + 2 * w2 <= 2 * b1.x
    ||| 2 * b1.z + 2 * w1 <= 2 * b2.z
    ||| 2 * b2.z + 2 * w2 <= 2 * b1.z
}

/// Different pieces of the clip-map sit on cells whose insides do not meet.
proof fn lemma_cells_apart(c: int, m: nat, k: int, m2: nat, k2: int)
    requires
        0 <= c <= 255,
        c % 4 == 0,
        m <= MAX_RINGS,
        m2 <= MAX_RINGS,
        0 <= k < ring_pieces(c, m).len(),
        0 <= k2 < ring_pieces(c, m2).len(),
        m != m2 || k != k2,
    ensures
        cells_apart(
            piece_corner(ring_pieces(c, m)[k]),
            ring_scale(m),
            piece_corner(ring_pieces(c, m2)[k2]),
            ring_scale(m2),
        ),
    decreases (if m <= m2 { 0int } else { 1int }),
{
    let p1 = ring_pieces(c, m)[k];
    let p2 = ring_pieces(c, m2)[k2];
    let b1 = piece_corner(p1);
    let b2 = piece_corner(p2);
    let s1 = ring_scale(m);
    let s2 = ring_scale(m2);
    lemma_ring_piece_facts(c, m, k);
    lemma_ring_piece_facts(c, m2, k2);
    lemma_ring_scale(m, 114);
    lemma_ring_scale(m2, 114);
    if m == m2 {
        lemma_ring_pieces_distinct(c, m);
        if k < k2 {
            assert(corners_differ(piece_corner(ring_pieces(c, m)[k]), piece_corner(ring_pieces(c, m)[k2])));
        } else {
            assert(corners_differ(piece_corner(ring_pieces(c, m)[k2]), piece_corner(ring_pieces(c, m)[k])));
        }
        assert(corner(b1, s1, 0, 0).x == 2 * b1.x && corner(b1, s1, 0, 0).z == 2 * b1.z);
        assert(corner(b2, s1, 0, 0).x == 2 * b2.x && corner(b2, s1, 0, 0).z == 2 * b2.z);
        assert(on_grid(corner(b1, s1, 0, 0), 2 * s1) && on_grid(corner(b2, s1, 0, 0), 2 * s1));
        if b1.x < b2.x {
            lemma_grid_below(2 * s1, 2 * b1.x, 2 * b2.x);
        } else if b2.x < b1.x {
            lemma_grid_below(2 * s1, 2 * b2.x, 2 * b1.x);
        } else if b1.z < b2.z {
            lemma_grid_below(2 * s1, 2 * b1.z, 2 * b2.z);
        } else {
            lemma_grid_below(2 * s1, 2 * b2.z, 2 * b1.z);
        }
    } else if m < m2 {
        lemma_scale_ratio(m2, m);
        let kk = ring_scale((m2 - m) as nat);
        assert(kk == 2 * ring_scale((m2 - m - 1) as nat));
        lemma_ring_scale((m2 - m - 1) as nat, 114);
        let q = c / 4;
        assert(outer_radius(c, m) <= inner_radius(c, m2)) by (nonlinear_arith)
            requires
                outer_radius(c, m) == 4 * (q * s1),
                inner_radius(c, m2) == 2 * (q * s2),
                s2 == kk * s1,
                kk >= 2,
                0 <= q,
                1 <= s1,
        ;
    } else {
        lemma_cells_apart(c, m2, k2, m, k);
    }
}

/// No two triangles of the clip-map overlap: no point (any `(px, pz) / k`,
/// in half steps, seen from above) lies strictly inside two different
/// triangles of its pieces.
pub proof fn lemma_base_mesh_triangles_disjoint(c: int, rings: nat, i: int, t: int, i2: int, t2: int, px: int, pz: int, k: int)
    requires
        0 <= c <= 255,
        c % 4 == 0,
        rings <= MAX_RINGS,
        0 <= i < base_mesh_pieces(c, rings).len(),
        0 <= t < piece_triangles(base_mesh_pieces(c, rings)[i]).len() / 3,
        0 <= i2 < base_mesh_pieces(c, rings).len(),
        0 <= t2 < piece_triangles(base_mesh_pieces(c, rings)[i2]).len() / 3,
        i != i2 || t != t2,
        1 <= k,
    ensures
        !(inside_piece_triangle(base_mesh_pieces(c, rings)[i], t, px, pz, k) && inside_piece_triangle(
            base_mesh_pieces(c, rings)[i2],
            t2,
            px,
            pz,
            k,
        )),
{
    let ps = base_mesh_pieces(c, rings);
    let (m, j) = lemma_base_piece(c, rings, i);
    let (m2, j2) = lemma_base_piece(c, rings, i2);
    let p1 = ps[i];
    let p2 = ps[i2];
    lemma_ring_piece_facts(c, m, j);
    lemma_ring_piece_facts(c, m2, j2);
    lemma_ring_scale(m, 114);
    lemma_ring_scale(m2, 114);
    let s1 = ring_scale(m);
    let s2 = ring_scale(m2);
    if inside_piece_triangle(p1, t, px, pz, k) && inside_piece_triangle(p2, t2, px, pz, k) {
        if i == i2 {
            lemma_piece_triangles_disjoint(p1, s1, t, t2, px, pz, k);
        } else {
            lemma_triangle_box(p1, s1, t, px, pz, k);
            lemma_triangle_box(p2, s2, t2, px, pz, k);
            lemma_cells_apart(c, m, j, m2, j2);
            let b1 = piece_corner(p1);
            let b2 = piece_corner(p2);
            lemma_scaled_le(k, 2 * b1.x + 2 * s1, 2 * b2.x);
            lemma_scaled_le(k, 2 * b2.x + 2 * s2, 2 * b1.x);
            lemma_scaled_le(k, 2 * b1.z + 2 * s1, 2 * b2.z);
            lemma_scaled_le(k, 2 * b2.z + 2 * s2, 2 * b1.z);
        }
    }
}

/// The point `(px, pz) / k` lies strictly inside triangle `tt` of mesh `m`.
pub open spec fn inside_mesh_triangle(m: MeshModel, tt: int, px: int, pz: int, k: int) -> bool {
    strictly_inside(
        px,
        pz,
        k,
        m.vertices[m.indices[3 * tt] as int],
        m.vertices[m.indices[3 * tt + 1] as int],
        m.vertices[m.indices[3 * tt + 2] as int],
    )
}

/// No two triangles of the mesh that `create_base_mesh` builds overlap: no
/// point (any `(px, pz) / k`, in half steps, seen from above) lies strictly
/// inside two different triangles. The bound on the vertex count is that of
/// `u32` indices.
pub proof fn lemma_base_mesh_model_triangles_disjoint(c: int, rings: nat, tt: int, tt2: int, px: int, pz: int, k: int)
    requires
        0 <= c <= 255,
        c % 4 == 0,
        rings <= MAX_RINGS,
        apply_pieces(empty_mesh(), base_mesh_pieces(c, rings)).vertices.len() <= 0x1_0000_0000,
        0 <= tt,
        3 * tt + 2 < apply_pieces(empty_mesh(), base_mesh_pieces(c, rings)).indices.len(),
        0 <= tt2,
        3 * tt2 + 2 < apply_pieces(empty_mesh(), base_mesh_pieces(c, rings)).indices.len(),
        tt != tt2,
        1 <= k,
    ensures
        !(inside_mesh_triangle(apply_pieces(empty_mesh(), base_mesh_pieces(c, rings)), tt, px, pz, k)
            && inside_mesh_triangle(apply_pieces(empty_mesh(), base_mesh_pieces(c, rings)), tt2, px, pz, k)),
{
    let ps = base_mesh_pieces(c, rings);
    let m = apply_pieces(empty_mesh(), ps);
    let (i, t) = lemma_mesh_triangle_origin(ps, tt);
    let (i2, t2) = lemma_mesh_triangle_origin(ps, tt2);
    assert(m.vertices[m.indices[3 * tt + 0] as int] == edge_start(ps[i], t, 0));
    assert(m.vertices[m.indices[3 * tt + 1] as int] == edge_start(ps[i], t, 1));
    assert(m.vertices[m.indices[3 * tt + 2] as int] == edge_start(ps[i], t, 2));
    assert(m.vertices[m.indices[3 * tt2 + 0] as int] == edge_start(ps[i2], t2, 0));
    assert(m.vertices[m.indices[3 * tt2 + 1] as int] == edge_start(ps[i2], t2, 1));
    assert(m.vertices[m.indices[3 * tt2 + 2] as int] == edge_start(ps[i2], t2, 2));
    assert(i != i2 || t != t2);
    lemma_base_mesh_triangles_disjoint(c, rings, i, t, i2, t2, px, pz, k);
}

/// Every vertex that pieces with corners at height `h` add to a mesh is at
/// height `2 * h` (half steps).
proof fn lemma_appended_height(m: MeshModel, ps: Seq<Piece>, h: int)
    requires
        within(h, quad_bound()),
        all_pieces(ps, |p: Piece| piece_corner(p).y == h),
    ensures
        forall|u: int|
            m.vertices.len() <= u < apply_pieces(m, ps).vertices.len() ==> (#[trigger] apply_pieces(m, ps).vertices[u]).y
                == 2 * h,
    decreases ps.len(),
{
    if ps.len() > 0 {
        let f = |p: Piece| piece_corner(p).y == h;
        let init = ps.drop_last();
        let p = ps.last();
        assert forall|i: int| 0 <= i < init.len() implies f(#[trigger] init[i]) by {
            assert(init[i] == ps[i]);
        }
        assert(f(ps[ps.len() - 1]));
        lemma_appended_height(m, init, h);
        let prev = apply_pieces(m, init);
        let next = apply_pieces(m, ps);
        assert(next.vertices == prev.vertices + piece_points(p));
        assert forall|u: int| m.vertices.len() <= u < next.vertices.len() implies (#[trigger] next.vertices[u]).y == 2 * h by {
            if u < prev.vertices.len() {
                assert(next.vertices[u] == prev.vertices[u]);
            } else {
                let j = u - prev.vertices.len();
                assert(next.vertices[u] == piece_points(p)[j]);
                lemma_piece_point(p, j);
                let (i1, j1) = choose|i: int, jj: int|
                    0 <= i <= 2 && 0 <= jj <= 2 && piece_points(p)[j] == corner(piece_corner(p), piece_width(p) as int, i, jj);
                assert(corner(piece_corner(p), piece_width(p) as int, i1, j1).y == 2 * h);
            }
        }
    }
}

/// Height: a subdivided grid stays at the height of its corner. Every vertex
/// that the grid's pieces add to a mesh has height `2 * bl.y` (half steps).
pub proof fn lemma_subdivided_keeps_height(m: MeshModel, bl: GridPoint, qw: i128, d: int, dir: Option<DirectionForTiple>)
    requires
        within(bl.y as int, quad_bound()),
    ensures
        forall|u: int|
            m.vertices.len() <= u < apply_pieces(m, subdivided_pieces(bl, qw, d, dir)).vertices.len() ==> (
            #[trigger] apply_pieces(m, subdivided_pieces(bl, qw, d, dir)).vertices[u]).y == 2 * bl.y,
{
    let f = |p: Piece| piece_corner(p).y == bl.y as int;
    assert forall|x: int, y: int| #![trigger cell(bl, qw, x, y)] 0 <= x < d && 0 <= y < d implies f(
        Piece::Quad { bottom_left: cell(bl, qw, x, y), width: qw },
    ) && forall|e: DirectionForTiple| f(Piece::Triple { bottom_left: cell(bl, qw, x, y), width: qw, direction: e }) by {
        assert(cell(bl, qw, x, y).y == bl.y);
    }
    lemma_subdivided_all(f, bl, qw, d, dir);
    lemma_appended_height(m, subdivided_pieces(bl, qw, d, dir), bl.y as int);
}

/// The block table of a ring, entry `k`.
fn ring_layout_entry(k: usize) -> (e: (i128, i128, Option<DirectionForTiple>))
    requires
        k < 12,
    ensures
        e.0 == ring_layout(k as int).0,
        e.1 == ring_layout(k as int).1,
        e.2 == ring_layout(k as int).2,
{
    if k == 0 {
        (0, 0, None)
    } else if k == 1 {
        (0, 1, Some(DirectionForTiple::Right))
    } else if k == 2 {
        (0, 2, Some(DirectionForTiple::Right))
    } else if k == 3 {
        (0, 3, None)
    } else if k == 4 {
        (1, 0, Some(DirectionForTiple::Up))
    } else if k == 5 {
        (1, 3, Some(DirectionForTiple::Down))
    } else if k == 6 {
        (2, 0, Some(DirectionForTiple::Up))
    } else if k == 7 {
        (2, 3, Some(DirectionForTiple::Down))
    } else if k == 8 {
        (3, 0, None)
    } else if k == 9 {
        (3, 1, Some(DirectionForTiple::Left))
    } else if k == 10 {
        (3, 2, Some(DirectionForTiple::Left))
    } else {
        (3, 3, None)
    }
}

/// The clip-map terrain mesh: a centre of `smallest_quad_count` squared quads
/// of the smallest size, then `rings` rings of quads, each ring's quads twice
/// as wide as the previous ring's. `smallest_quad` is the width of the
/// smallest quad (bit pattern of an `f32`); the mesh itself is built on the
/// lattice whose unit is that width.
pub struct TerrainHeightMapMesh {
    pub smallest_quad: u32,
    pub rings: u8,
    pub smallest_quad_count: u8,
}

/// The most rings a mesh can have on the 128-bit lattice: ring `n`'s quads are
/// `2^n` smallest quads wide, and every corner and width stays within
/// `quad_bound()` (2^124), so that vertices, in half steps, stay below 2^126.
pub const MAX_RINGS: u8 = 114;

impl TerrainHeightMapMesh {
    /// Builds the clip-map mesh on the lattice of smallest quads (vertices in
    /// half steps). The centre's corner is at minus half the centre's width,
    /// so the centre grid is centred on the origin.
    pub fn create_base_mesh(&self) -> (m: QuadMeshBuilder)
        requires
            self.smallest_quad_count % 4 == 0,
            self.rings > 0 ==> self.smallest_quad_count >= 4,
            self.rings <= MAX_RINGS,
        ensures
            m@ == apply_pieces(empty_mesh(), base_mesh_pieces(self.smallest_quad_count as int, self.rings as nat)),
            m@.vertices.len() == 4 * (self.smallest_quad_count * self.smallest_quad_count) + self.rings * (48
                * ((self.smallest_quad_count / 4) * (self.smallest_quad_count / 4)) + 8 * (
            self.smallest_quad_count / 4)),
            m@.indices.len() == 6 * (self.smallest_quad_count * self.smallest_quad_count) + self.rings * (72
                * ((self.smallest_quad_count / 4) * (self.smallest_quad_count / 4)) + 24 * (
            self.smallest_quad_count / 4)),
            well_formed(m@),
            consistently_wound(m@),
    {
        let c: u8 = self.smallest_quad_count;
        let q: u8 = c / 4;
        let ghost ci: int = c as int;
        let ghost qi: int = q as int;
        let ghost ring_count: int = 48 * (qi * qi) + 8 * qi;
        let ghost ring_index_count: int = 72 * (qi * qi) + 24 * qi;
        let mut m = QuadMeshBuilder::empty();
        let half: i128 = (c / 2) as i128;
        let mut bottom_left = GridPoint { x: -half, y: 0, z: -half };
        assert(4 * (ci * ci) <= 4 * (255 * 255)) by (nonlinear_arith)
            requires
                0 <= ci <= 255,
        ;
        m.add_subdivided_quad(bottom_left, 1, c, None);
        let ghost center = subdivided_pieces(bottom_left, 1, ci, None);
        assert(center + rings_pieces(ci, 0) =~= center);
        let mut quad_size: i128 = 1;
        let mut ring: u8 = 0;
        proof {
            assert(qi * qi <= 63 * 63) by (nonlinear_arith)
                requires
                    0 <= qi <= 63,
            ;
            lemma_ring_vertex_count(qi, 12);
            assert(ring_scale(1) == 2 * ring_scale(0));
            assert((ci / 4) * ring_scale(1) == (ci / 4) * 2);
            assert(ring_origin(ci, 0) == -(c / 2));
        }
        while ring < self.rings
            invariant
                c == self.smallest_quad_count,
                ci == c,
                q == c / 4,
                qi == q,
                ci % 4 == 0,
                self.rings > 0 ==> c >= 4,
                self.rings <= MAX_RINGS,
                ring <= self.rings,
                0 <= qi <= 63,
                ring_count == 48 * (qi * qi) + 8 * qi,
                ring_count <= 48 * (63 * 63) + 8 * 63,
                4 * (ci * ci) <= 4 * (255 * 255),
                quad_size == ring_scale(ring as nat),
                bottom_left.x == ring_origin(ci, ring as nat),
                bottom_left.z == ring_origin(ci, ring as nat),
                bottom_left.y == 0,
                center == subdivided_pieces(GridPoint { x: (-(ci / 2)) as i128, y: 0, z: (-(ci / 2)) as i128 }, 1, ci, None),
                m@ == apply_pieces(empty_mesh(), center + rings_pieces(ci, ring as nat)),
                m@.vertices.len() == 4 * (ci * ci) + ring * ring_count,
                ring_index_count == 72 * (qi * qi) + 24 * qi,
                m@.indices.len() == 6 * (ci * ci) + ring * ring_index_count,
                well_formed(m@),
                consistently_wound(m@),
            decreases self.rings - ring,
        {
            proof {
                lemma_ring_scale((ring + 1) as nat, 115);
                lemma_ring_scale((ring + 2) as nat, 115);
                lemma_ring_scale_top();
                assert(ring_scale((ring + 1) as nat) == 2 * ring_scale(ring as nat));
                assert(ring_scale((ring + 2) as nat) == 2 * ring_scale((ring + 1) as nat));
            }
            quad_size = quad_size * 2;
            assert(quad_size * qi <= 0x8_0000_0000_0000_0000_0000_0000_0000 * 63) by (nonlinear_arith)
                requires
                    0 <= qi <= 63,
                    1 <= quad_size <= 0x8_0000_0000_0000_0000_0000_0000_0000,
            ;
            let step: i128 = quad_size * (q as i128);
            proof {
                let s1: int = ring_scale((ring + 1) as nat);
                let s2: int = ring_scale((ring + 2) as nat);
                assert(qi * s2 == qi * s1 + s1 * qi) by (nonlinear_arith)
                    requires
                        s2 == 2 * s1,
                ;
                assert(qi * s2 <= 63 * 0x8_0000_0000_0000_0000_0000_0000_0000) by (nonlinear_arith)
                    requires
                        0 <= qi <= 63,
                        s2 <= 0x8_0000_0000_0000_0000_0000_0000_0000,
                ;
                assert(0 <= qi * s1) by (nonlinear_arith)
                    requires
                        0 <= qi,
                        0 <= s1,
                ;
            }
            bottom_left = GridPoint { x: bottom_left.x - step, y: 0, z: bottom_left.z - step };
            let next: u8 = ring + 1;
            let ghost done = center + rings_pieces(ci, ring as nat);
            let mut k: usize = 0;
            assert(done + ring_prefix(ci, next as nat, 0) =~= done);
            while k < 12
                invariant
                    c == self.smallest_quad_count,
                    ci == c,
                    q == c / 4,
                    qi == q,
                    c >= 4,
                    0 <= qi <= 63,
                    next == ring + 1,
                    next <= MAX_RINGS,
                    ring_count == 48 * (qi * qi) + 8 * qi,
                    ring_count <= 48 * (63 * 63) + 8 * 63,
                    4 * (ci * ci) <= 4 * (255 * 255),
                    ring < self.rings <= MAX_RINGS,
                    k <= 12,
                    quad_size == ring_scale(next as nat),
                    1 <= quad_size <= 0x8_0000_0000_0000_0000_0000_0000_0000,
                    bottom_left.x == ring_origin(ci, next as nat),
                    bottom_left.z == ring_origin(ci, next as nat),
                    within(bottom_left.x as int, 63 * 0x10_0000_0000_0000_0000_0000_0000_0000int),
                    bottom_left.y == 0,
                    done == center + rings_pieces(ci, ring as nat),
                    m@ == apply_pieces(empty_mesh(), done + ring_prefix(ci, next as nat, k as int)),
                    m@.vertices.len() == 4 * (ci * ci) + ring * ring_count + ring_prefix_vertex_count(qi, k as int),
                    ring_index_count == 72 * (qi * qi) + 24 * qi,
                    m@.indices.len() == 6 * (ci * ci) + ring * ring_index_count + ring_prefix_index_count(qi, k as int),
                    well_formed(m@),
                    consistently_wound(m@),
                decreases 12 - k,
            {
                let (x, y, dir) = ring_layout_entry(k);
                proof {
                    lemma_ring_vertex_count(qi, k as int);
                    lemma_ring_vertex_count(qi, k + 1);
                    assert(ring * ring_count + ring_count <= 114 * (48 * (63 * 63) + 8 * 63)) by (nonlinear_arith)
                        requires
                            0 <= ring < 114,
                            0 <= ring_count <= 48 * (63 * 63) + 8 * 63,
                    ;
                    assert(0 <= quad_size * x <= 3 * 0x8_0000_0000_0000_0000_0000_0000_0000) by (nonlinear_arith)
                        requires
                            0 <= x <= 3,
                            1 <= quad_size <= 0x8_0000_0000_0000_0000_0000_0000_0000,
                    ;
                    assert(0 <= quad_size * y <= 3 * 0x8_0000_0000_0000_0000_0000_0000_0000) by (nonlinear_arith)
                        requires
                            0 <= y <= 3,
                            1 <= quad_size <= 0x8_0000_0000_0000_0000_0000_0000_0000,
                    ;
                    assert(0 <= quad_size * x * qi <= 3 * 0x8_0000_0000_0000_0000_0000_0000_0000 * 63) by (nonlinear_arith)
                        requires
                            0 <= qi <= 63,
                            0 <= x <= 3,
                            1 <= quad_size <= 0x8_0000_0000_0000_0000_0000_0000_0000,
                    ;
                    assert(0 <= quad_size * y * qi <= 3 * 0x8_0000_0000_0000_0000_0000_0000_0000 * 63) by (nonlinear_arith)
                        requires
                            0 <= qi <= 63,
                            0 <= y <= 3,
                            1 <= quad_size <= 0x8_0000_0000_0000_0000_0000_0000_0000,
                    ;
                }
                let corner = GridPoint {
                    x: bottom_left.x + quad_size * x * (q as i128),
                    y: 0,
                    z: bottom_left.z + quad_size * y * (q as i128),
                };
                let ghost before = done + ring_prefix(ci, next as nat, k as int);
                let ghost added = subdivided_pieces(corner, quad_size, qi, dir);
                m.add_subdivided_quad(corner, quad_size, q, dir);
                proof {
                    lemma_apply_concat(empty_mesh(), before, added);
                    assert(corner == ring_block_corner(ci, next as nat, k as int));
                    assert(before + added =~= done + ring_prefix(ci, next as nat, k + 1));
                }
                k = k + 1;
            }
            proof {
                assert(done + ring_prefix(ci, next as nat, 12) =~= center + rings_pieces(ci, next as nat));
                lemma_ring_vertex_count(qi, 12);
                assert(ring * ring_count + ring_count == next * ring_count) by (nonlinear_arith)
                    requires
                        next == ring + 1,
                ;
                assert(ring * ring_index_count + ring_index_count == next * ring_index_count) by (nonlinear_arith)
                    requires
                        next == ring + 1,
                ;
            }
            ring = next;
        }
        m
    }
}

} // verus!
