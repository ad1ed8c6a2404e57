//! The order in which the greedy mesher merges faces, as a specification:
//! slice by slice, each mask is scanned row by row; the first drawn face not
//! yet covered starts a quad, which grows along its row over identical
//! mergeable faces, then over as many following rows as match it in full.

use vstd::prelude::*;

use crate::world::mesh::{
    axis_index, extent, face_spec, in_tile, is_uniform, mask_matches, shading, slice_block,
    tagged, visible, MaskCell, Shading, Surroundings,
};

verus! {

/// How far the run of cells equal to `cell` reaches along row `v` from
/// `u`, having reached `w` already.
pub open spec fn run_width(m: Seq<MaskCell>, u_len: int, u: int, v: int, cell: MaskCell, w: int) -> int
    decreases u_len - u - w,
{
    if u + w < u_len && m[u + w + v * u_len] == cell {
        run_width(m, u_len, u, v, cell, w + 1)
    } else {
        w
    }
}

/// Whether cells `u..u + width` of row `row` all hold `cell`.
pub open spec fn row_full(m: Seq<MaskCell>, u_len: int, u: int, width: int, row: int, cell: MaskCell) -> bool {
    forall|j: int| 0 <= j < width ==> #[trigger] m[u + j + row * u_len] == cell
}

/// How many rows from `v` match the run in full, having matched `rows`.
pub open spec fn run_rows(
    m: Seq<MaskCell>,
    u_len: int,
    v_len: int,
    u: int,
    v: int,
    width: int,
    cell: MaskCell,
    rows: int,
) -> int
    decreases v_len - v - rows,
{
    if v + rows < v_len && row_full(m, u_len, u, width, v + rows, cell) {
        run_rows(m, u_len, v_len, u, v, width, cell, rows + 1)
    } else {
        rows
    }
}

/// Width and height of the quad that starts at `u`, `v`: a mergeable face
/// grows right, then down; any other face stays one cell.
pub open spec fn greedy_rect(m: Seq<MaskCell>, u_len: int, v_len: int, u: int, v: int) -> (int, int) {
    let cell = m[u + v * u_len];
    if cell is Mergeable {
        let w = run_width(m, u_len, u, v, cell, 1);
        (w, run_rows(m, u_len, v_len, u, v, w, cell, 1))
    } else {
        (1, 1)
    }
}

/// `m` with the cells of tile `t` emptied.
pub open spec fn cleared(m: Seq<MaskCell>, u_len: int, t: (int, int, int, int)) -> Seq<MaskCell> {
    Seq::new(
        m.len(),
        |i: int|
            if in_tile(t, i % u_len, i / u_len) {
                MaskCell::Empty
            } else {
                m[i]
            },
    )
}

/// The quads of a mask from cell `u`, `v` on, in the order they are made.
pub open spec fn greedy_tiles(m: Seq<MaskCell>, u_len: int, v_len: int, u: int, v: int) -> Seq<
    (int, int, int, int),
>
    decreases v_len - v, u_len - u,
{
    if v < 0 || v >= v_len || u < 0 {
        Seq::empty()
    } else if u >= u_len {
        greedy_tiles(m, u_len, v_len, 0, v + 1)
    } else if m[u + v * u_len] == MaskCell::Empty {
        greedy_tiles(m, u_len, v_len, u + 1, v)
    } else {
        let r = greedy_rect(m, u_len, v_len, u, v);
        let t = (u, v, r.0, r.1);
        let step = if 1 <= r.0 && u + r.0 <= u_len {
            r.0
        } else {
            1
        };
        seq![t] + greedy_tiles(cleared(m, u_len, t), u_len, v_len, u + step, v)
    }
}

/// The mask cell of face `f` at `u`, `v` of slice `sl`: empty when the face
/// is not drawn, mergeable (with its one material, occlusion and light) when
/// it shades evenly, and a gradient otherwise.
pub open spec fn spec_cell(s: Surroundings, f: int, sl: int, u: int, v: int) -> MaskCell {
    let p = slice_block(f, sl, u, v);
    let sh = shading(s, f, p.0, p.1, p.2);
    if !visible(s, f, p.0, p.1, p.2) {
        MaskCell::Empty
    } else if is_uniform(sh) {
        MaskCell::Mergeable { material: sh.material, ao: sh.ao0, light: sh.light0 }
    } else {
        MaskCell::Unique(0)
    }
}

/// The mask of slice `sl` of face `f`, row by row.
pub open spec fn slice_mask(s: Surroundings, f: int, sl: int, height: int) -> Seq<MaskCell> {
    let face = face_spec(f);
    let u_len = extent(axis_index(face.tangent_u), height);
    let v_len = extent(axis_index(face.tangent_v), height);
    Seq::new((u_len * v_len) as nat, |i: int| spec_cell(s, f, sl, i % u_len, i / u_len))
}

/// The quads of slice `sl` of face `f`.
pub open spec fn slice_sweep(s: Surroundings, f: int, sl: int, height: int) -> Seq<(int, int, int, int)> {
    let face = face_spec(f);
    let u_len = extent(axis_index(face.tangent_u), height);
    let v_len = extent(axis_index(face.tangent_v), height);
    greedy_tiles(slice_mask(s, f, sl, height), u_len, v_len, 0, 0)
}

/// The quads of every slice before slice `sl` of face `f`, faces in order,
/// slices in order.
pub open spec fn sweep_before(s: Surroundings, height: int, f: int, sl: int) -> Seq<
    (int, int, int, int, int, int),
>
    decreases f, sl,
{
    if f <= 0 && sl <= 0 {
        Seq::empty()
    } else if sl <= 0 {
        sweep_before(s, height, f - 1, extent(axis_index(face_spec(f - 1).normal), height))
    } else {
        sweep_before(s, height, f, sl - 1) + tagged(f, sl - 1, slice_sweep(s, f, sl - 1, height))
    }
}

/// The quads of the greedy mesh of a chunk below `height`, in order.
pub open spec fn greedy_sweep(s: Surroundings, height: int) -> Seq<(int, int, int, int, int, int)> {
    sweep_before(s, height, 6, 0)
}

/// Two masks that differ only in which gradient their gradient cells name.
pub open spec fn same_kinds(m1: Seq<MaskCell>, m2: Seq<MaskCell>) -> bool {
    &&& m1.len() == m2.len()
    &&& forall|i: int|
        0 <= i < m1.len() ==> #[trigger] m1[i] == m2[i] || (m1[i] is Unique && m2[i] is Unique)
}

proof fn lemma_run_width_same(
    m1: Seq<MaskCell>,
    m2: Seq<MaskCell>,
    u_len: int,
    v_len: int,
    u: int,
    v: int,
    cell: MaskCell,
    w: int,
)
    requires
        same_kinds(m1, m2),
        m1.len() == u_len * v_len,
        cell is Mergeable,
        0 <= u,
        1 <= w,
        0 <= v < v_len,
    ensures
        run_width(m1, u_len, u, v, cell, w) == run_width(m2, u_len, u, v, cell, w),
    decreases u_len - u - w,
{
    if u + w < u_len {
        crate::world::mesh::lemma_mask_index(u + w, v, u_len, v_len);
        lemma_run_width_same(m1, m2, u_len, v_len, u, v, cell, w + 1);
    }
}

proof fn lemma_run_rows_same(
    m1: Seq<MaskCell>,
    m2: Seq<MaskCell>,
    u_len: int,
    v_len: int,
    u: int,
    v: int,
    width: int,
    cell: MaskCell,
    rows: int,
)
    requires
        same_kinds(m1, m2),
        m1.len() == u_len * v_len,
        cell is Mergeable,
        0 <= u,
        u + width <= u_len,
        0 <= v,
        1 <= rows,
    ensures
        run_rows(m1, u_len, v_len, u, v, width, cell, rows) == run_rows(
            m2,
            u_len,
            v_len,
            u,
            v,
            width,
            cell,
            rows,
        ),
    decreases v_len - v - rows,
{
    if v + rows < v_len {
        assert forall|j: int| 0 <= j < width implies (#[trigger] m1[u + j + (v + rows) * u_len] == cell)
            == (m2[u + j + (v + rows) * u_len] == cell) by {
            crate::world::mesh::lemma_mask_index(u + j, v + rows, u_len, v_len);
            let k = u + j + (v + rows) * u_len;
            assert(m1[k] == m2[k] || (m1[k] is Unique && m2[k] is Unique));
        }
        if row_full(m1, u_len, u, width, v + rows, cell) {
            assert forall|j: int| 0 <= j < width implies #[trigger] m2[u + j + (v + rows) * u_len] == cell by {
                assert(m1[u + j + (v + rows) * u_len] == cell);
            }
        }
        if row_full(m2, u_len, u, width, v + rows, cell) {
            assert forall|j: int| 0 <= j < width implies #[trigger] m1[u + j + (v + rows) * u_len] == cell by {
                assert(m2[u + j + (v + rows) * u_len] == cell);
            }
        }
        lemma_run_rows_same(m1, m2, u_len, v_len, u, v, width, cell, rows + 1);
    }
}

/// Which gradient a gradient cell names does not change the quads.
pub proof fn lemma_sweep_same_kinds(
    m1: Seq<MaskCell>,
    m2: Seq<MaskCell>,
    u_len: int,
    v_len: int,
    u: int,
    v: int,
)
    requires
        same_kinds(m1, m2),
        m1.len() == u_len * v_len,
        0 <= u_len,
    ensures
        greedy_tiles(m1, u_len, v_len, u, v) == greedy_tiles(m2, u_len, v_len, u, v),
    decreases v_len - v, u_len - u,
{
    if v < 0 || v >= v_len || u < 0 {
    } else if u >= u_len {
        lemma_sweep_same_kinds(m1, m2, u_len, v_len, 0, v + 1);
    } else {
        crate::world::mesh::lemma_mask_index(u, v, u_len, v_len);
        let c = m1[u + v * u_len];
        if c == MaskCell::Empty {
            lemma_sweep_same_kinds(m1, m2, u_len, v_len, u + 1, v);
        } else {
            if c is Mergeable {
                assert(m2[u + v * u_len] == c);
                lemma_run_width_same(m1, m2, u_len, v_len, u, v, c, 1);
                let w = run_width(m1, u_len, u, v, c, 1);
                lemma_run_width_bounds(m1, u_len, u, v, c, 1);
                lemma_run_rows_same(m1, m2, u_len, v_len, u, v, w, c, 1);
            }
            let r = greedy_rect(m1, u_len, v_len, u, v);
            assert(r == greedy_rect(m2, u_len, v_len, u, v));
            let t = (u, v, r.0, r.1);
            let step = if 1 <= r.0 && u + r.0 <= u_len {
                r.0
            } else {
                1
            };
            assert(same_kinds(cleared(m1, u_len, t), cleared(m2, u_len, t)));
            lemma_sweep_same_kinds(cleared(m1, u_len, t), cleared(m2, u_len, t), u_len, v_len, u + step, v);
        }
    }
}

pub proof fn lemma_run_width_bounds(m: Seq<MaskCell>, u_len: int, u: int, v: int, cell: MaskCell, w: int)
    requires
        1 <= w,
        u + w <= u_len,
    ensures
        w <= run_width(m, u_len, u, v, cell, w) && u + run_width(m, u_len, u, v, cell, w) <= u_len,
    decreases u_len - u - w,
{
    if u + w < u_len && m[u + w + v * u_len] == cell {
        lemma_run_width_bounds(m, u_len, u, v, cell, w + 1);
    }
}

/// A mask that matches slice `sl` of face `f` differs from the slice's
/// specified mask only in which gradient its gradient cells name.
pub proof fn lemma_mask_kinds(
    s: Surroundings,
    f: int,
    sl: int,
    height: int,
    mask: Seq<MaskCell>,
    gradients: Seq<Shading>,
)
    requires
        ({
            let face = face_spec(f);
            mask_matches(
                s,
                f,
                sl,
                extent(axis_index(face.tangent_u), height),
                extent(axis_index(face.tangent_v), height),
                mask,
                gradients,
            )
        }),
        0 <= extent(axis_index(face_spec(f).tangent_u), height),
        0 <= extent(axis_index(face_spec(f).tangent_v), height),
    ensures
        same_kinds(mask, slice_mask(s, f, sl, height)),
        mask.len() == extent(axis_index(face_spec(f).tangent_u), height) * extent(
            axis_index(face_spec(f).tangent_v),
            height,
        ),
{
    reveal(mask_matches);
    let face = face_spec(f);
    let u_len = extent(axis_index(face.tangent_u), height);
    let v_len = extent(axis_index(face.tangent_v), height);
    let spec = slice_mask(s, f, sl, height);
    assert(0 <= u_len * v_len) by (nonlinear_arith)
        requires
            0 <= u_len,
            0 <= v_len,
    ;
    assert forall|i: int| 0 <= i < mask.len() implies #[trigger] mask[i] == spec[i] || (mask[i] is Unique
        && spec[i] is Unique) by {
        let u = i % u_len;
        let v = i / u_len;
        lemma_split_index(i, u_len, v_len);
        let c = mask[u + v * u_len];
        let p = slice_block(f, sl, u, v);
        let sh = shading(s, f, p.0, p.1, p.2);
        if c is Mergeable {
            assert(c == MaskCell::Mergeable { material: sh.material, ao: sh.ao0, light: sh.light0 });
        }
    }
}

/// Index `i` of a mask is cell `i % u_len`, `i / u_len`.
pub proof fn lemma_split_index(i: int, u_len: int, v_len: int)
    requires
        0 <= i < u_len * v_len,
        0 <= u_len,
        0 <= v_len,
    ensures
        0 <= i % u_len < u_len,
        0 <= i / u_len < v_len,
        i == i % u_len + (i / u_len) * u_len,
{
    assert(0 < u_len) by (nonlinear_arith)
        requires
            0 <= i < u_len * v_len,
            0 <= u_len,
            0 <= v_len,
    ;
    vstd::arithmetic::div_mod::lemma_fundamental_div_mod(i, u_len);
    vstd::arithmetic::div_mod::lemma_mod_pos_bound(i, u_len);
    let q = i / u_len;
    let r = i % u_len;
    assert(0 <= q < v_len) by (nonlinear_arith)
        requires
            i == u_len * q + r,
            0 <= r < u_len,
            0 <= i < u_len * v_len,
    ;
    assert(i == r + q * u_len) by (nonlinear_arith)
        requires
            i == u_len * q + r,
    ;
}

/// A mask with one tile's cells emptied, written cell by cell, is the
/// mask `cleared` gives.
pub proof fn lemma_cleared(
    before: Seq<MaskCell>,
    after: Seq<MaskCell>,
    u_len: int,
    v_len: int,
    t: (int, int, int, int),
)
    requires
        0 <= u_len,
        0 <= v_len,
        before.len() == u_len * v_len,
        after.len() == before.len(),
        forall|a: int, b: int|
            0 <= a < u_len && 0 <= b < v_len ==> #[trigger] after[a + b * u_len] == if in_tile(t, a, b) {
                MaskCell::Empty
            } else {
                before[a + b * u_len]
            },
    ensures
        after == cleared(before, u_len, t),
{
    assert forall|i: int| 0 <= i < after.len() implies #[trigger] after[i] == cleared(before, u_len, t)[i] by {
        let u = i % u_len;
        let v = i / u_len;
        lemma_split_index(i, u_len, v_len);
        assert(after[u + v * u_len] == if in_tile(t, u, v) {
            MaskCell::Empty
        } else {
            before[u + v * u_len]
        });
    }
    assert(after =~= cleared(before, u_len, t));
}

} // verus!
