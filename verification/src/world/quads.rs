//! How many quads the two meshes of a chunk hold: the plain mesh one per
//! drawn face, the greedy mesh never more.

use vstd::prelude::*;
use vstd::set_lib::lemma_len_subset;
use vstd::set_lib::lemma_set_disjoint_lens;
use vstd::set_lib::{lemma_int_range, lemma_map_size, set_int_range};
use vstd::relations::injective_on;
use vstd::arithmetic::div_mod::lemma_fundamental_div_mod_converse;

use crate::world::mesh::{
    axis_index, block_words, cell_words, extent, face_spec, face_words, greedy_mesh,
    greedy_tile_ok, greedy_tiling, in_tile, lemma_face_axes, lemma_greedy_covers_drawn_faces,
    lemma_slice_block_bounds, lemma_slice_coords, slice_coords, tile_covers, packed,
    lemma_packed_fields, tile_words, Shading, shading, lemma_single_tile_is_plain_quad,
    greedy_words, corner_of, stretched, lemma_stretched,
    lemma_storage_order, plain_words, quad_words, slice_block, solid_at, tile_origin, tile_rect,
    visible, ChunkMesh, Surroundings,
};
use crate::world::position::WORLD_HEIGHT;

verus! {

/// Face `k % 6` of storage-order cell `k / 6` is drawn.
pub open spec fn drawn_key(s: Surroundings, k: int) -> bool {
    let c = k / 6;
    visible(s, k % 6, c % 16, c / 256, (c / 16) % 16)
}

/// Drawn faces among the first `m` faces of cell `c`.
pub open spec fn cell_faces(s: Surroundings, c: int, m: int) -> nat
    decreases m,
{
    if m <= 0 {
        0
    } else {
        cell_faces(s, c, m - 1) + if drawn_key(s, 6 * c + m - 1) {
            1nat
        } else {
            0nat
        }
    }
}

/// Drawn faces of the first `n` cells of a chunk, in storage order.
pub open spec fn drawn_count(s: Surroundings, n: int) -> nat
    decreases n,
{
    if n <= 0 {
        0
    } else {
        drawn_count(s, n - 1) + cell_faces(s, n - 1, 6)
    }
}

/// The drawn faces among the first `m` faces of cell `c`, by key.
pub open spec fn cell_face_set(s: Surroundings, c: int, m: int) -> Set<int>
    decreases m,
{
    if m <= 0 {
        Set::empty()
    } else if drawn_key(s, 6 * c + m - 1) {
        cell_face_set(s, c, m - 1).insert(6 * c + m - 1)
    } else {
        cell_face_set(s, c, m - 1)
    }
}

/// The drawn faces of the first `n` cells, by key.
pub open spec fn drawn_set(s: Surroundings, n: int) -> Set<int>
    decreases n,
{
    if n <= 0 {
        Set::empty()
    } else {
        drawn_set(s, n - 1).union(cell_face_set(s, n - 1, 6))
    }
}

/// The key of face `f` of the block at `p`.
pub open spec fn face_key(f: int, p: (int, int, int)) -> int {
    6 * (p.1 * 256 + p.2 * 16 + p.0) + f
}

proof fn lemma_key_parts(c: int, f: int)
    requires
        0 <= c,
        0 <= f < 6,
    ensures
        (6 * c + f) / 6 == c,
        (6 * c + f) % 6 == f,
{
    assert((6 * c + f) / 6 == c && (6 * c + f) % 6 == f) by (nonlinear_arith)
        requires
            0 <= c,
            0 <= f < 6,
    ;
}

proof fn lemma_cell_face_set(s: Surroundings, c: int, m: int)
    requires
        0 <= c,
        0 <= m <= 6,
    ensures
        cell_face_set(s, c, m).finite(),
        cell_face_set(s, c, m).len() == cell_faces(s, c, m),
        forall|k: int|
            #[trigger] cell_face_set(s, c, m).contains(k) <==> 6 * c <= k < 6 * c + m && drawn_key(
                s,
                k,
            ),
    decreases m,
{
    if m > 0 {
        lemma_cell_face_set(s, c, m - 1);
    }
}

proof fn lemma_drawn_set(s: Surroundings, n: int)
    requires
        0 <= n,
    ensures
        drawn_set(s, n).finite(),
        drawn_set(s, n).len() == drawn_count(s, n),
        forall|k: int| #[trigger]
            drawn_set(s, n).contains(k) <==> 0 <= k < 6 * n && drawn_key(s, k),
    decreases n,
{
    if n > 0 {
        lemma_drawn_set(s, n - 1);
        lemma_cell_face_set(s, n - 1, 6);
        let low = drawn_set(s, n - 1);
        let high = cell_face_set(s, n - 1, 6);
        assert(low.disjoint(high));
        lemma_set_disjoint_lens(low, high);
    }
}

/// The quads of the first `m` faces of a cell come to eight words per drawn
/// face.
proof fn lemma_block_words_len(s: Surroundings, c: int, m: int)
    requires
        0 <= c,
        0 <= m <= 6,
    ensures
        ({
            let x = c % 16;
            let y = c / 256;
            let z = (c / 16) % 16;
            &&& solid_at(s, x, y, z) ==> block_words(s, x, y, z, m).len() == 8 * cell_faces(s, c, m)
            &&& !solid_at(s, x, y, z) ==> cell_faces(s, c, m) == 0
        }),
    decreases m,
{
    if m > 0 {
        lemma_block_words_len(s, c, m - 1);
        lemma_key_parts(c, m - 1);
        let x = c % 16;
        let y = c / 256;
        let z = (c / 16) % 16;
        assert(quad_words(s, x, y, z, m - 1).len() == 8);
        assert(drawn_key(s, 6 * c + m - 1) == visible(s, m - 1, x, y, z));
        if solid_at(s, x, y, z) {
            assert(face_words(s, x, y, z, m - 1).len() == if visible(s, m - 1, x, y, z) {
                8int
            } else {
                0int
            });
        }
    }
}

/// The plain mesh of the first `n` cells holds eight words per drawn face.
pub proof fn lemma_plain_words_len(s: Surroundings, n: int)
    requires
        0 <= n,
    ensures
        plain_words(s, n).len() == 8 * drawn_count(s, n),
    decreases n,
{
    if n > 0 {
        lemma_plain_words_len(s, n - 1);
        lemma_block_words_len(s, n - 1, 6);
    }
}

/// A block of a face's slices gives back its slice and place.
proof fn lemma_slice_block_injective(f: int, a1: int, u1: int, v1: int, a2: int, u2: int, v2: int)
    requires
        0 <= f < 6,
        slice_block(f, a1, u1, v1) == slice_block(f, a2, u2, v2),
    ensures
        a1 == a2 && u1 == u2 && v1 == v2,
{
    lemma_face_axes(f);
    let face = face_spec(f);
    let a = axis_index(face.normal);
    let u = axis_index(face.tangent_u);
    let v = axis_index(face.tangent_v);
    let p1 = slice_block(f, a1, u1, v1);
    let p2 = slice_block(f, a2, u2, v2);
    assert(p1.0 == p2.0 && p1.1 == p2.1 && p1.2 == p2.2);
    if a == 0 {
        assert(a1 == p1.0);
    } else if a == 1 {
        assert(a1 == p1.1);
    } else {
        assert(a1 == p1.2);
    }
    if u == 0 {
        assert(u1 == p1.0);
    } else if u == 1 {
        assert(u1 == p1.1);
    } else {
        assert(u1 == p1.2);
    }
    if v == 0 {
        assert(v1 == p1.0);
    } else if v == 1 {
        assert(v1 == p1.1);
    } else {
        assert(v1 == p1.2);
    }
}

/// The corner face of a sound greedy quad is drawn, inside the chunk below
/// `height`.
proof fn lemma_origin_drawn(s: Surroundings, height: int, t: (int, int, int, int, int, int))
    requires
        0 <= height <= WORLD_HEIGHT,
        greedy_tile_ok(s, height, t),
    ensures
        ({
            let o = tile_origin(t);
            &&& 0 <= o.0 < 16 && 0 <= o.1 < height && 0 <= o.2 < 16
            &&& 0 <= face_key(t.0, o) < 6 * (height * 256)
            &&& drawn_key(s, face_key(t.0, o))
        }),
{
    let f = t.0;
    let face = face_spec(f);
    lemma_slice_block_bounds(f, t.1, t.2, t.3, height);
    let o = tile_origin(t);
    assert(in_tile(tile_rect(t), t.2, t.3));
    assert(visible(s, f, o.0, o.1, o.2));
    let c = o.1 * 256 + o.2 * 16 + o.0;
    lemma_storage_order(o.0, o.1, o.2);
    lemma_key_parts(c, f);
    assert(c < height * 256) by (nonlinear_arith)
        requires
            c == o.1 * 256 + o.2 * 16 + o.0,
            0 <= o.0 < 16,
            0 <= o.2 < 16,
            o.1 < height,
    ;
}

/// The greedy mesh of a chunk never holds more quads than the plain mesh of
/// the same chunk: every greedy quad covers its own corner face, a drawn
/// face, and no two greedy quads cover the same face, while the plain mesh
/// holds one quad per drawn face.
#[verifier::rlimit(40)]
pub proof fn lemma_greedy_never_adds_quads(
    s: Surroundings,
    height: int,
    greedy: ChunkMesh,
    plain: ChunkMesh,
)
    requires
        0 <= height <= WORLD_HEIGHT,
        greedy_mesh(s, height, greedy),
        plain.vertices@ == plain_words(s, height * 256),
        plain.vertices@.len() == 8 * plain.quad_count,
    ensures
        greedy.quad_count <= plain.quad_count,
{
    let tiles = choose|tiles: Seq<(int, int, int, int, int, int)>| greedy_tiling(s, height, greedy, tiles);
    let n = height * 256;
    let keys = Seq::new(tiles.len(), |i: int| face_key(tiles[i].0, tile_origin(tiles[i])));
    assert forall|i: int| 0 <= i < tiles.len() implies #[trigger] drawn_set(s, n).contains(keys[i]) by {
        assert(greedy_tile_ok(s, height, tiles[i]));
        lemma_origin_drawn(s, height, tiles[i]);
        lemma_drawn_set(s, n);
    }
    assert forall|i: int, j: int| 0 <= i < keys.len() && 0 <= j < keys.len() && i != j implies keys[i]
        != keys[j] by {
        let ti = tiles[i];
        let tj = tiles[j];
        assert(greedy_tile_ok(s, height, ti));
        assert(greedy_tile_ok(s, height, tj));
        lemma_origin_drawn(s, height, ti);
        lemma_origin_drawn(s, height, tj);
        let oi = tile_origin(ti);
        let oj = tile_origin(tj);
        if keys[i] == keys[j] {
            let ci = oi.1 * 256 + oi.2 * 16 + oi.0;
            let cj = oj.1 * 256 + oj.2 * 16 + oj.0;
            lemma_key_parts(ci, ti.0);
            lemma_key_parts(cj, tj.0);
            lemma_storage_order(oi.0, oi.1, oi.2);
            lemma_storage_order(oj.0, oj.1, oj.2);
            assert(ti.0 == tj.0 && ci == cj);
            assert(oi == oj);
            lemma_slice_block_injective(ti.0, ti.1, ti.2, ti.3, tj.1, tj.2, tj.3);
            assert(in_tile(tile_rect(ti), ti.2, ti.3));
            assert(in_tile(tile_rect(tj), ti.2, ti.3));
        }
    }
    assert(keys.no_duplicates());
    keys.unique_seq_to_set();
    lemma_drawn_set(s, n);
    assert(keys.to_set().subset_of(drawn_set(s, n)));
    lemma_len_subset(keys.to_set(), drawn_set(s, n));
    lemma_plain_words_len(s, n);
}

// ---------------------------------------------------------------- area

/// The key of the `a`-th face a greedy quad covers, row by row.
pub open spec fn tile_cell(t: (int, int, int, int, int, int), a: int) -> int {
    face_key(t.0, slice_block(t.0, t.1, t.2 + a % t.4, t.3 + a / t.4))
}

/// The faces a greedy quad covers, by key.
pub open spec fn tile_cells(t: (int, int, int, int, int, int)) -> Set<int> {
    set_int_range(0, t.4 * t.5).map(|a: int| tile_cell(t, a))
}

/// The faces the first `m` quads cover, by key.
pub open spec fn covered_by(tiles: Seq<(int, int, int, int, int, int)>, m: int) -> Set<int>
    decreases m,
{
    if m <= 0 {
        Set::empty()
    } else {
        covered_by(tiles, m - 1).union(tile_cells(tiles[m - 1]))
    }
}

/// The total area of the first `m` quads, in block faces: width times
/// height, summed.
pub open spec fn area_sum(tiles: Seq<(int, int, int, int, int, int)>, m: int) -> int
    decreases m,
{
    if m <= 0 {
        0
    } else {
        area_sum(tiles, m - 1) + tiles[m - 1].4 * tiles[m - 1].5
    }
}

/// Distinct faces of blocks inside the chunk have distinct keys.
proof fn lemma_face_key_injective(f1: int, p1: (int, int, int), f2: int, p2: (int, int, int))
    requires
        0 <= f1 < 6,
        0 <= f2 < 6,
        0 <= p1.0 < 16 && 0 <= p1.1 && 0 <= p1.2 < 16,
        0 <= p2.0 < 16 && 0 <= p2.1 && 0 <= p2.2 < 16,
        face_key(f1, p1) == face_key(f2, p2),
    ensures
        f1 == f2 && p1 == p2,
{
    let c1 = p1.1 * 256 + p1.2 * 16 + p1.0;
    let c2 = p2.1 * 256 + p2.2 * 16 + p2.0;
    lemma_key_parts(c1, f1);
    lemma_key_parts(c2, f2);
    lemma_storage_order(p1.0, p1.1, p1.2);
    lemma_storage_order(p2.0, p2.1, p2.2);
}

/// A drawn face inside the chunk below `height` has a drawn key among the
/// chunk's first `height * 256` cells.
proof fn lemma_face_key_drawn(s: Surroundings, height: int, f: int, p: (int, int, int))
    requires
        0 <= f < 6,
        0 <= p.0 < 16 && 0 <= p.1 < height && 0 <= p.2 < 16,
        visible(s, f, p.0, p.1, p.2),
    ensures
        0 <= face_key(f, p) < 6 * (height * 256),
        drawn_key(s, face_key(f, p)),
{
    let c = p.1 * 256 + p.2 * 16 + p.0;
    lemma_storage_order(p.0, p.1, p.2);
    lemma_key_parts(c, f);
    assert(c < height * 256) by (nonlinear_arith)
        requires
            c == p.1 * 256 + p.2 * 16 + p.0,
            0 <= p.0 < 16,
            0 <= p.2 < 16,
            p.1 < height,
    ;
}

/// Where the `a`-th face of a quad lies in its rectangle.
proof fn lemma_tile_index(w: int, h: int, a: int)
    requires
        1 <= w,
        1 <= h,
        0 <= a < w * h,
    ensures
        0 <= a % w < w,
        0 <= a / w < h,
{
    assert(0 <= a % w < w && 0 <= a / w < h) by (nonlinear_arith)
        requires
            1 <= w,
            1 <= h,
            0 <= a < w * h,
    ;
}

/// The `a`-th face of a sound quad is a drawn face of the chunk, at `u`,
/// `v` of the quad's rectangle.
proof fn lemma_tile_cell(s: Surroundings, height: int, t: (int, int, int, int, int, int), a: int)
    requires
        0 <= height <= WORLD_HEIGHT,
        greedy_tile_ok(s, height, t),
        0 <= a < t.4 * t.5,
    ensures
        ({
            let u = t.2 + a % t.4;
            let v = t.3 + a / t.4;
            let p = slice_block(t.0, t.1, u, v);
            &&& in_tile(tile_rect(t), u, v)
            &&& 0 <= p.0 < 16 && 0 <= p.1 < height && 0 <= p.2 < 16
            &&& visible(s, t.0, p.0, p.1, p.2)
            &&& tile_cell(t, a) == face_key(t.0, p)
            &&& 0 <= tile_cell(t, a) < 6 * (height * 256)
            &&& drawn_key(s, tile_cell(t, a))
        }),
{
    lemma_tile_index(t.4, t.5, a);
    let u = t.2 + a % t.4;
    let v = t.3 + a / t.4;
    let p = slice_block(t.0, t.1, u, v);
    assert(in_tile(tile_rect(t), u, v));
    lemma_slice_block_bounds(t.0, t.1, u, v, height);
    lemma_face_key_drawn(s, height, t.0, p);
}

/// A sound quad covers exactly width times height faces.
proof fn lemma_tile_cells_len(s: Surroundings, height: int, t: (int, int, int, int, int, int))
    requires
        0 <= height <= WORLD_HEIGHT,
        greedy_tile_ok(s, height, t),
    ensures
        tile_cells(t).finite(),
        tile_cells(t).len() == t.4 * t.5,
{
    let g = |a: int| tile_cell(t, a);
    let range = set_int_range(0, t.4 * t.5);
    assert(0 <= t.4 * t.5) by (nonlinear_arith)
        requires
            1 <= t.4,
            1 <= t.5,
    ;
    lemma_int_range(0, t.4 * t.5);
    assert forall|a1: int, a2: int|
        range.contains(a1) && range.contains(a2) && #[trigger] g(a1) == #[trigger] g(a2) implies a1
        == a2 by {
        lemma_tile_cell(s, height, t, a1);
        lemma_tile_cell(s, height, t, a2);
        let p1 = slice_block(t.0, t.1, t.2 + a1 % t.4, t.3 + a1 / t.4);
        let p2 = slice_block(t.0, t.1, t.2 + a2 % t.4, t.3 + a2 / t.4);
        lemma_face_key_injective(t.0, p1, t.0, p2);
        lemma_slice_block_injective(
            t.0,
            t.1,
            t.2 + a1 % t.4,
            t.3 + a1 / t.4,
            t.1,
            t.2 + a2 % t.4,
            t.3 + a2 / t.4,
        );
        lemma_tile_index(t.4, t.5, a1);
        lemma_tile_index(t.4, t.5, a2);
        vstd::arithmetic::div_mod::lemma_fundamental_div_mod(a1, t.4);
        vstd::arithmetic::div_mod::lemma_fundamental_div_mod(a2, t.4);
    }
    assert(injective_on(g, range));
    lemma_map_size(range, range.map(g), g);
}

/// The faces the quads of a tiling cover are the drawn faces, and the
/// number covered by the first `m` is their total area.
proof fn lemma_covered_by(
    s: Surroundings,
    height: int,
    mesh: ChunkMesh,
    tiles: Seq<(int, int, int, int, int, int)>,
    m: int,
)
    requires
        0 <= height <= WORLD_HEIGHT,
        greedy_tiling(s, height, mesh, tiles),
        0 <= m <= tiles.len(),
    ensures
        covered_by(tiles, m).finite(),
        covered_by(tiles, m).len() == area_sum(tiles, m),
        covered_by(tiles, m).subset_of(drawn_set(s, height * 256)),
        forall|k: int| #[trigger] covered_by(tiles, m).contains(k) ==> exists|i: int, a: int|
            0 <= i < m && 0 <= a < tiles[i].4 * tiles[i].5 && k == tile_cell(tiles[i], a),
    decreases m,
{
    lemma_drawn_set(s, height * 256);
    if m > 0 {
        lemma_covered_by(s, height, mesh, tiles, m - 1);
        let t = tiles[m - 1];
        assert(greedy_tile_ok(s, height, t));
        lemma_tile_cells_len(s, height, t);
        let before = covered_by(tiles, m - 1);
        let cells = tile_cells(t);
        assert(cells.subset_of(drawn_set(s, height * 256))) by {
            assert forall|k: int| #[trigger] cells.contains(k) implies drawn_set(s, height * 256).contains(k) by {
                let a = choose|a: int| set_int_range(0, t.4 * t.5).contains(a) && k == tile_cell(t, a);
                lemma_tile_cell(s, height, t, a);
            }
        }
        assert(before.disjoint(cells)) by {
            assert forall|k: int| before.contains(k) implies !cells.contains(k) by {
                let (i, a) = choose|i: int, a: int|
                    0 <= i < m - 1 && 0 <= a < tiles[i].4 * tiles[i].5 && k == tile_cell(tiles[i], a);
                if cells.contains(k) {
                    let b = choose|b: int| set_int_range(0, t.4 * t.5).contains(b) && k == tile_cell(t, b);
                    let ti = tiles[i];
                    assert(greedy_tile_ok(s, height, ti));
                    lemma_tile_cell(s, height, ti, a);
                    lemma_tile_cell(s, height, t, b);
                    let ui = ti.2 + a % ti.4;
                    let vi = ti.3 + a / ti.4;
                    let ub = t.2 + b % t.4;
                    let vb = t.3 + b / t.4;
                    lemma_face_key_injective(
                        ti.0,
                        slice_block(ti.0, ti.1, ui, vi),
                        t.0,
                        slice_block(t.0, t.1, ub, vb),
                    );
                    lemma_slice_block_injective(ti.0, ti.1, ui, vi, t.1, ub, vb);
                    assert(in_tile(tile_rect(tiles[i]), ui, vi));
                    assert(in_tile(tile_rect(tiles[m - 1]), ui, vi));
                }
            }
        }
        lemma_set_disjoint_lens(before, cells);
        assert forall|k: int| #[trigger] covered_by(tiles, m).contains(k) implies exists|i: int, a: int|
            0 <= i < m && 0 <= a < tiles[i].4 * tiles[i].5 && k == tile_cell(tiles[i], a) by {
            if !before.contains(k) {
                let a = choose|a: int| set_int_range(0, t.4 * t.5).contains(a) && k == tile_cell(t, a);
                assert(0 <= m - 1 < m && 0 <= a < tiles[m - 1].4 * tiles[m - 1].5 && k == tile_cell(
                    tiles[m - 1],
                    a,
                ));
            }
        }
    }
}

/// The greedy mesh of a chunk covers the same area as the plain mesh: its
/// quads' widths times heights add up to the plain mesh's number of quads,
/// one per drawn face.
pub proof fn lemma_greedy_covers_the_same_area(
    s: Surroundings,
    height: int,
    greedy: ChunkMesh,
    tiles: Seq<(int, int, int, int, int, int)>,
    plain: ChunkMesh,
)
    requires
        0 <= height <= WORLD_HEIGHT,
        greedy_tiling(s, height, greedy, tiles),
        plain.vertices@ == plain_words(s, height * 256),
        plain.vertices@.len() == 8 * plain.quad_count,
    ensures
        area_sum(tiles, tiles.len() as int) == plain.quad_count,
{
    let n = height * 256;
    lemma_covered_by(s, height, greedy, tiles, tiles.len() as int);
    lemma_drawn_set(s, n);
    lemma_plain_words_len(s, n);
    let covered = covered_by(tiles, tiles.len() as int);
    assert forall|k: int| #[trigger] drawn_set(s, n).contains(k) implies covered.contains(k) by {
        let f = k % 6;
        let c = k / 6;
        let p = (c % 16, c / 256, (c / 16) % 16);
        assert(0 <= f < 6 && 0 <= c && k == 6 * c + f);
        assert(0 <= p.0 < 16 && 0 <= p.1 < height && 0 <= p.2 < 16 && c == p.1 * 256 + p.2 * 16 + p.0)
            by (nonlinear_arith)
            requires
                0 <= c < height * 256,
                p == (c % 16, c / 256, (c / 16) % 16),
        ;
        lemma_greedy_covers_drawn_faces(s, height, greedy, tiles, f, p);
        let i = choose|i: int| 0 <= i < tiles.len() && #[trigger] tile_covers(tiles[i], f, p);
        let t = tiles[i];
        assert(greedy_tile_ok(s, height, t));
        lemma_slice_coords(f, p, height);
        let sc = slice_coords(f, p);
        let a = (sc.1 - t.2) + (sc.2 - t.3) * t.4;
        assert(0 <= a < t.4 * t.5) by (nonlinear_arith)
            requires
                a == (sc.1 - t.2) + (sc.2 - t.3) * t.4,
                t.2 <= sc.1 < t.2 + t.4,
                t.3 <= sc.2 < t.3 + t.5,
        ;
        lemma_fundamental_div_mod_converse(a, t.4, sc.2 - t.3, sc.1 - t.2);
        assert(tile_cell(t, a) == k);
        assert(set_int_range(0, t.4 * t.5).contains(a));
        assert(tile_cells(t).contains(k));
        lemma_covered_contains(tiles, tiles.len() as int, i, k);
    }
    assert(covered =~= drawn_set(s, n));
}

/// A face a quad covers is covered by every prefix holding that quad.
proof fn lemma_covered_contains(tiles: Seq<(int, int, int, int, int, int)>, m: int, i: int, k: int)
    requires
        0 <= i < m,
        tile_cells(tiles[i]).contains(k),
    ensures
        covered_by(tiles, m).contains(k),
    decreases m,
{
    if i < m - 1 {
        lemma_covered_contains(tiles, m - 1, i, k);
    }
}

// ---------------------------------------------------------------- area read from the vertices

/// Coordinate `axis` of a packed vertex position.
pub open spec fn coord_of(word: u32, axis: int) -> int {
    if axis == 0 {
        (word & 0xFFu32) as int
    } else if axis == 1 {
        ((word >> 8u32) & 0xFFu32) as int
    } else {
        ((word >> 16u32) & 0xFFu32) as int
    }
}

pub open spec fn min4(a: int, b: int, c: int, d: int) -> int {
    let ab = if a <= b { a } else { b };
    let cd = if c <= d { c } else { d };
    if ab <= cd { ab } else { cd }
}

pub open spec fn max4(a: int, b: int, c: int, d: int) -> int {
    let ab = if a >= b { a } else { b };
    let cd = if c >= d { c } else { d };
    if ab >= cd { ab } else { cd }
}

/// How far the four corners of an eight-word quad spread along `axis`.
pub open spec fn quad_extent(q: Seq<u32>, axis: int) -> int {
    max4(coord_of(q[0], axis), coord_of(q[2], axis), coord_of(q[4], axis), coord_of(q[6], axis))
        - min4(coord_of(q[0], axis), coord_of(q[2], axis), coord_of(q[4], axis), coord_of(q[6], axis))
}

/// An extent as a factor of an area: a flat axis counts once.
pub open spec fn factor(e: int) -> int {
    if e > 0 { e } else { 1 }
}

/// The area of an eight-word quad, read from its corners: the product of
/// its non-zero extents, at least 1.
pub open spec fn quad_area(q: Seq<u32>) -> int {
    factor(quad_extent(q, 0)) * factor(quad_extent(q, 1)) * factor(quad_extent(q, 2))
}

/// The area of a vertex buffer, quad by quad.
pub open spec fn covered_area(words: Seq<u32>) -> int
    decreases words.len(),
{
    if words.len() < 8 {
        0
    } else {
        covered_area(words.take(words.len() - 8)) + quad_area(words.skip(words.len() - 8))
    }
}

proof fn lemma_coord_packed(x: int, y: int, z: int, normal: u32, ao: u32)
    requires
        0 <= x < 256,
        0 <= y < 256,
        0 <= z < 256,
    ensures
        coord_of(packed(x as i32, y as i32, z as i32, normal, ao), 0) == x,
        coord_of(packed(x as i32, y as i32, z as i32, normal, ao), 1) == y,
        coord_of(packed(x as i32, y as i32, z as i32, normal, ao), 2) == z,
{
    lemma_packed_fields(x as i32, y as i32, z as i32, normal, ao);
    let (a, b, c) = (x as i32 as u32, y as i32 as u32, z as i32 as u32);
    assert(a == x && b == y && c == z);
    assert(a & 0xFFu32 == a) by (bit_vector)
        requires
            a < 256,
    ;
    assert(b & 0xFFu32 == b) by (bit_vector)
        requires
            b < 256,
    ;
    assert(c & 0xFFu32 == c) by (bit_vector)
        requires
            c < 256,
    ;
}

/// Where corner `k` of a stretched quad lies: inside the byte range, and
/// read back as itself from its packed word.
proof fn lemma_corner_coord(f: int, o: (int, int, int), width: int, height: int, sh: Shading, k: int)
    requires
        0 <= f < 6,
        0 <= k < 4,
        0 <= o.0 <= 64 && 0 <= o.1 <= 64 && 0 <= o.2 <= 64,
        1 <= width <= 64,
        1 <= height <= 64,
    ensures
        ({
            let face = face_spec(f);
            let p = stretched(o, corner_of(face, k), axis_index(face.tangent_u), axis_index(face.tangent_v), width, height);
            let w = packed(p.0 as i32, p.1 as i32, p.2 as i32, f as u32, crate::world::mesh::shade_at(sh, k).0);
            &&& coord_of(w, 0) == p.0
            &&& coord_of(w, 1) == p.1
            &&& coord_of(w, 2) == p.2
        }),
{
    let face = face_spec(f);
    let c = corner_of(face, k);
    lemma_stretched(o, c, axis_index(face.tangent_u), axis_index(face.tangent_v), width, height);
    crate::world::mesh::lemma_faces_ok(f);
    assert(0 <= c.x <= 1 && 0 <= c.y <= 1 && 0 <= c.z <= 1);
    assert(0 <= c.x * width <= width && 0 <= c.y * width <= width && 0 <= c.z * width <= width && 0
        <= c.x * height <= height && 0 <= c.y * height <= height && 0 <= c.z * height <= height)
        by (nonlinear_arith)
        requires
            0 <= c.x <= 1,
            0 <= c.y <= 1,
            0 <= c.z <= 1,
            1 <= width,
            1 <= height,
    ;
    let p = stretched(o, c, axis_index(face.tangent_u), axis_index(face.tangent_v), width, height);
    lemma_coord_packed(p.0, p.1, p.2, f as u32, crate::world::mesh::shade_at(sh, k).0);
}

/// How far the four stretched corners of face `f` spread along each axis:
/// the width along the face's first tangent, the height along its second,
/// nothing along its normal.
proof fn lemma_face_extents(f: int, o: (int, int, int), width: int, height: int)
    requires
        0 <= f < 6,
        1 <= width,
        1 <= height,
    ensures
        ({
            let face = face_spec(f);
            let ua = axis_index(face.tangent_u);
            let va = axis_index(face.tangent_v);
            let p0 = stretched(o, corner_of(face, 0), ua, va, width, height);
            let p1 = stretched(o, corner_of(face, 1), ua, va, width, height);
            let p2 = stretched(o, corner_of(face, 2), ua, va, width, height);
            let p3 = stretched(o, corner_of(face, 3), ua, va, width, height);
            let e0 = max4(p0.0, p1.0, p2.0, p3.0) - min4(p0.0, p1.0, p2.0, p3.0);
            let e1 = max4(p0.1, p1.1, p2.1, p3.1) - min4(p0.1, p1.1, p2.1, p3.1);
            let e2 = max4(p0.2, p1.2, p2.2, p3.2) - min4(p0.2, p1.2, p2.2, p3.2);
            factor(e0) * factor(e1) * factor(e2) == width * height
        }),
{
    let face = face_spec(f);
    let ua = axis_index(face.tangent_u);
    let va = axis_index(face.tangent_v);
    lemma_stretched(o, corner_of(face, 0), ua, va, width, height);
    lemma_stretched(o, corner_of(face, 1), ua, va, width, height);
    lemma_stretched(o, corner_of(face, 2), ua, va, width, height);
    lemma_stretched(o, corner_of(face, 3), ua, va, width, height);
    let p0 = stretched(o, corner_of(face, 0), ua, va, width, height);
    let p1 = stretched(o, corner_of(face, 1), ua, va, width, height);
    let p2 = stretched(o, corner_of(face, 2), ua, va, width, height);
    let p3 = stretched(o, corner_of(face, 3), ua, va, width, height);
    let e0 = max4(p0.0, p1.0, p2.0, p3.0) - min4(p0.0, p1.0, p2.0, p3.0);
    let e1 = max4(p0.1, p1.1, p2.1, p3.1) - min4(p0.1, p1.1, p2.1, p3.1);
    let e2 = max4(p0.2, p1.2, p2.2, p3.2) - min4(p0.2, p1.2, p2.2, p3.2);
    if f == 0 {
        assert(ua == 1 && va == 2);
        assert(p0 == (o.0 + 1, o.1, o.2) && p1 == (o.0 + 1, o.1 + width, o.2) && p2 == (o.0 + 1, o.1
            + width, o.2 + height) && p3 == (o.0 + 1, o.1, o.2 + height));
        assert(e0 == 0 && e1 == width && e2 == height);
        assert(1 * width * height == width * height) by (nonlinear_arith);
    } else if f == 1 {
        assert(ua == 1 && va == 2);
        assert(p0 == (o.0, o.1, o.2 + height) && p1 == (o.0, o.1 + width, o.2 + height) && p2 == (
        o.0, o.1 + width, o.2) && p3 == (o.0, o.1, o.2));
        assert(e0 == 0 && e1 == width && e2 == height);
        assert(1 * width * height == width * height) by (nonlinear_arith);
    } else if f == 2 {
        assert(ua == 0 && va == 2);
        assert(p0 == (o.0, o.1 + 1, o.2) && p1 == (o.0, o.1 + 1, o.2 + height) && p2 == (o.0 + width,
        o.1 + 1, o.2 + height) && p3 == (o.0 + width, o.1 + 1, o.2));
        assert(e0 == width && e1 == 0 && e2 == height);
        assert(width * 1 * height == width * height) by (nonlinear_arith);
    } else if f == 3 {
        assert(ua == 0 && va == 2);
        assert(p0 == (o.0, o.1, o.2 + height) && p1 == (o.0, o.1, o.2) && p2 == (o.0 + width, o.1,
        o.2) && p3 == (o.0 + width, o.1, o.2 + height));
        assert(e0 == width && e1 == 0 && e2 == height);
        assert(width * 1 * height == width * height) by (nonlinear_arith);
    } else if f == 4 {
        assert(ua == 0 && va == 1);
        assert(p0 == (o.0 + width, o.1, o.2 + 1) && p1 == (o.0 + width, o.1 + height, o.2 + 1) && p2
            == (o.0, o.1 + height, o.2 + 1) && p3 == (o.0, o.1, o.2 + 1));
        assert(e0 == width && e1 == height && e2 == 0);
        assert(width * height * 1 == width * height) by (nonlinear_arith);
    } else {
        assert(ua == 0 && va == 1);
        assert(p0 == (o.0, o.1, o.2) && p1 == (o.0, o.1 + height, o.2) && p2 == (o.0 + width, o.1
            + height, o.2) && p3 == (o.0 + width, o.1, o.2));
        assert(e0 == width && e1 == height && e2 == 0);
        assert(width * height * 1 == width * height) by (nonlinear_arith);
    }
}

/// The quad of a rectangle `width` by `height` blocks covers that area.
pub proof fn lemma_tile_words_area(f: int, o: (int, int, int), width: int, height: int, sh: Shading)
    requires
        0 <= f < 6,
        0 <= o.0 <= 64 && 0 <= o.1 <= 64 && 0 <= o.2 <= 64,
        1 <= width <= 64,
        1 <= height <= 64,
    ensures
        quad_area(tile_words(f, o, width, height, sh)) == width * height,
{
    lemma_corner_coord(f, o, width, height, sh, 0);
    lemma_corner_coord(f, o, width, height, sh, 1);
    lemma_corner_coord(f, o, width, height, sh, 2);
    lemma_corner_coord(f, o, width, height, sh, 3);
    lemma_face_extents(f, o, width, height);
}

/// Area adds up over buffers of whole quads.
pub proof fn lemma_covered_area_concat(a: Seq<u32>, b: Seq<u32>)
    requires
        b.len() % 8 == 0,
    ensures
        covered_area(a + b) == covered_area(a) + covered_area(b),
    decreases b.len(),
{
    if b.len() == 0 {
        assert(a + b =~= a);
    } else {
        let b0 = b.take(b.len() - 8);
        lemma_covered_area_concat(a, b0);
        assert((a + b).take((a + b).len() - 8) =~= a + b0);
        assert((a + b).skip((a + b).len() - 8) =~= b.skip(b.len() - 8));
    }
}

proof fn lemma_one_quad_area(q: Seq<u32>)
    requires
        q.len() == 8,
    ensures
        covered_area(q) == quad_area(q),
{
    let rest = q.take(q.len() - 8);
    assert(rest.len() == 0);
    assert(covered_area(rest) == 0);
    assert(q.skip(q.len() - 8) =~= q);
    assert(covered_area(q) == covered_area(rest) + quad_area(q.skip(q.len() - 8)));
}

/// The greedy quads' words cover, quad by quad, their rectangles' areas.
proof fn lemma_greedy_words_area(
    s: Surroundings,
    height: int,
    tiles: Seq<(int, int, int, int, int, int)>,
    n: int,
)
    requires
        0 <= height <= WORLD_HEIGHT,
        0 <= n <= tiles.len(),
        forall|i: int| 0 <= i < tiles.len() ==> greedy_tile_ok(s, height, #[trigger] tiles[i]),
    ensures
        greedy_words(s, tiles, n).len() == 8 * n,
        covered_area(greedy_words(s, tiles, n)) == area_sum(tiles, n),
    decreases n,
{
    if n > 0 {
        lemma_greedy_words_area(s, height, tiles, n - 1);
        let t = tiles[n - 1];
        assert(greedy_tile_ok(s, height, t));
        lemma_slice_block_bounds(t.0, t.1, t.2, t.3, height);
        lemma_face_axes(t.0);
        let o = tile_origin(t);
        let q = tile_words(t.0, o, t.4, t.5, shading(s, t.0, o.0, o.1, o.2));
        lemma_tile_words_area(t.0, o, t.4, t.5, shading(s, t.0, o.0, o.1, o.2));
        lemma_one_quad_area(q);
        lemma_covered_area_concat(greedy_words(s, tiles, n - 1), q);
    }
}

/// The quads of the first `m` faces of a cell cover one face each.
proof fn lemma_block_words_area(s: Surroundings, c: int, m: int)
    requires
        0 <= c < 64 * 256,
        0 <= m <= 6,
    ensures
        ({
            let x = c % 16;
            let y = c / 256;
            let z = (c / 16) % 16;
            solid_at(s, x, y, z) ==> covered_area(block_words(s, x, y, z, m)) == cell_faces(s, c, m)
        }),
    decreases m,
{
    if m > 0 {
        lemma_block_words_area(s, c, m - 1);
        lemma_block_words_len(s, c, m - 1);
        lemma_key_parts(c, m - 1);
        let x = c % 16;
        let y = c / 256;
        let z = (c / 16) % 16;
        assert(0 <= x < 16 && 0 <= y < 64 && 0 <= z < 16) by (nonlinear_arith)
            requires
                0 <= c < 64 * 256,
                x == c % 16,
                y == c / 256,
                z == (c / 16) % 16,
        ;
        if solid_at(s, x, y, z) {
            let fw = face_words(s, x, y, z, m - 1);
            if visible(s, m - 1, x, y, z) {
                lemma_single_tile_is_plain_quad(s, m - 1, x, y, z);
                lemma_tile_words_area(m - 1, (x, y, z), 1, 1, shading(s, m - 1, x, y, z));
                assert(fw == quad_words(s, x, y, z, m - 1));
                lemma_one_quad_area(fw);
            } else {
                assert(fw =~= Seq::<u32>::empty());
            }
            assert(fw.len() % 8 == 0);
            lemma_covered_area_concat(block_words(s, x, y, z, m - 1), fw);
            assert(drawn_key(s, 6 * c + m - 1) == visible(s, m - 1, x, y, z));
        }
    }
}

/// The plain mesh of the first `n` cells covers one face per drawn face.
proof fn lemma_plain_words_area(s: Surroundings, n: int)
    requires
        0 <= n <= 64 * 256,
    ensures
        covered_area(plain_words(s, n)) == drawn_count(s, n),
    decreases n,
{
    if n > 0 {
        lemma_plain_words_area(s, n - 1);
        let c = n - 1;
        lemma_block_words_len(s, c, 6);
        lemma_block_words_area(s, c, 6);
        let x = c % 16;
        let y = c / 256;
        let z = (c / 16) % 16;
        let cw = cell_words(s, x, y, z);
        if !solid_at(s, x, y, z) {
            assert(cw =~= Seq::<u32>::empty());
        }
        lemma_covered_area_concat(plain_words(s, c), cw);
    }
}

/// The greedy mesh of a chunk covers the same area as the plain mesh, both
/// read from their vertices the way a renderer sees them: each eight-word
/// quad counts the product of the non-zero spreads of its four corners.
pub proof fn lemma_greedy_covers_the_same_vertex_area(
    s: Surroundings,
    height: int,
    greedy: ChunkMesh,
    tiles: Seq<(int, int, int, int, int, int)>,
    plain: ChunkMesh,
)
    requires
        0 <= height <= WORLD_HEIGHT,
        greedy_tiling(s, height, greedy, tiles),
        plain.vertices@ == plain_words(s, height * 256),
        plain.vertices@.len() == 8 * plain.quad_count,
    ensures
        covered_area(greedy.vertices@) == covered_area(plain.vertices@),
{
    lemma_greedy_covers_the_same_area(s, height, greedy, tiles, plain);
    lemma_greedy_words_area(s, height, tiles, tiles.len() as int);
    lemma_plain_words_area(s, height * 256);
    lemma_plain_words_len(s, height * 256);
}

} // verus!
