//! Chunk meshes: every block face that borders an open cell becomes a quad of
//! four packed vertices, shaded by ambient occlusion and skylight.
//!
//! Meshing reads a [`Halo`]: the chunk's blocks and skylight plus a
//! one-block skirt from its neighbours, laid out flat, so the inner loops
//! never touch the chunk map.

use vstd::prelude::*;

use crate::world::block::{material, material_for, solid, Block};
use crate::world::chunk::MAX_SKYLIGHT;
use crate::world::position::{BlockPos, ChunkPosition, CHUNK_SIZE, WORLD_HEIGHT};
use crate::world::{has_neighbours, lemma_halo_shows, World};
use crate::world::sweep::{
    cleared, greedy_rect, greedy_sweep, greedy_tiles, lemma_cleared, lemma_mask_kinds,
    lemma_sweep_same_kinds, run_rows, run_width, slice_sweep, sweep_before,
};

verus! {

/// One block of padding around a chunk is enough to mesh it: faces need the
/// direct neighbour, ambient occlusion the diagonals.
pub const PAD: i32 = 1;

pub const PADDED_SIZE: i32 = 18;

/// Cells in a halo.
pub const HALO_VOLUME: usize = 15552;

/// Whether chunk-local `x`, `y`, `z` lies in the halo: the chunk and a
/// one-block skirt around it, for the full height of the world.
pub open spec fn in_halo(x: int, y: int, z: int) -> bool {
    &&& -PAD <= x < CHUNK_SIZE + PAD
    &&& 0 <= y < WORLD_HEIGHT
    &&& -PAD <= z < CHUNK_SIZE + PAD
}

/// Where a halo cell is stored.
pub open spec fn halo_cell(x: int, y: int, z: int) -> int {
    (x + PAD) + (z + PAD) * PADDED_SIZE + y * PADDED_SIZE * PADDED_SIZE
}

/// The halo index splits back into coordinates.
pub proof fn lemma_halo_cell(x: int, y: int, z: int)
    requires
        in_halo(x, y, z),
    ensures
        0 <= halo_cell(x, y, z) < HALO_VOLUME,
        0 <= (x + PAD) + (z + PAD) * PADDED_SIZE < 324,
{
    assert(0 <= (x + 1) + (z + 1) * 18 < 324) by (nonlinear_arith)
        requires
            0 <= x + 1 < 18,
            0 <= z + 1 < 18,
    ;
}

/// Two halo cells share an index only if they are the same.
pub proof fn lemma_halo_cell_injective(x1: int, y1: int, z1: int, x2: int, y2: int, z2: int)
    requires
        in_halo(x1, y1, z1),
        in_halo(x2, y2, z2),
        halo_cell(x1, y1, z1) == halo_cell(x2, y2, z2),
    ensures
        x1 == x2 && y1 == y2 && z1 == z2,
{
    let a1 = (x1 + 1) + (z1 + 1) * 18;
    let a2 = (x2 + 1) + (z2 + 1) * 18;
    lemma_halo_cell(x1, y1, z1);
    lemma_halo_cell(x2, y2, z2);
    assert(a1 + y1 * 324 == a2 + y2 * 324 ==> a1 == a2 && y1 == y2) by (nonlinear_arith)
        requires
            0 <= a1 < 324,
            0 <= a2 < 324,
    ;
    assert(x1 + 1 + (z1 + 1) * 18 == x2 + 1 + (z2 + 1) * 18 ==> x1 == x2 && z1 == z2)
        by (nonlinear_arith)
        requires
            0 <= x1 + 1 < 18,
            0 <= x2 + 1 < 18,
            0 <= z1 + 1 < 18,
            0 <= z2 + 1 < 18,
    ;
}

/// Blocks plus skylight for one chunk and a one-block skirt of its
/// neighbours, laid out flat, with the height under which anything solid
/// lies.
pub struct Halo {
    pub blocks: Vec<Block>,
    pub skylight: Vec<u8>,
    pub height: i32,
}

/// The block a halo holds at `x`, `y`, `z`: air above and below the world.
pub open spec fn halo_block(blocks: Seq<Block>, x: int, y: int, z: int) -> Block {
    if 0 <= y < WORLD_HEIGHT {
        blocks[halo_cell(x, y, z)]
    } else {
        Block::Air
    }
}

/// The skylight a halo holds at `x`, `y`, `z`: dark below the world, full
/// daylight above it.
pub open spec fn halo_light(skylight: Seq<u8>, x: int, y: int, z: int) -> u8 {
    if y < 0 {
        0
    } else if y >= WORLD_HEIGHT {
        MAX_SKYLIGHT
    } else {
        skylight[halo_cell(x, y, z)]
    }
}

impl Halo {
    pub open spec fn wf(&self) -> bool {
        &&& self.blocks@.len() == HALO_VOLUME
        &&& self.skylight@.len() == HALO_VOLUME
        &&& 0 <= self.height <= WORLD_HEIGHT
    }

    pub fn index(x: i32, y: i32, z: i32) -> (r: usize)
        requires
            in_halo(x as int, y as int, z as int),
        ensures
            r == halo_cell(x as int, y as int, z as int),
            r < HALO_VOLUME,
    {
        proof {
            lemma_halo_cell(x as int, y as int, z as int);
        }
        ((x + PAD) + (z + PAD) * PADDED_SIZE + y * PADDED_SIZE * PADDED_SIZE) as usize
    }

    pub fn block(&self, x: i32, y: i32, z: i32) -> (r: Block)
        requires
            self.wf(),
            -PAD <= x < CHUNK_SIZE + PAD,
            -PAD <= z < CHUNK_SIZE + PAD,
        ensures
            r == halo_block(self.blocks@, x as int, y as int, z as int),
    {
        if y < 0 || y >= WORLD_HEIGHT {
            return Block::Air;
        }
        self.blocks[Self::index(x, y, z)]
    }

    pub fn solid(&self, x: i32, y: i32, z: i32) -> (r: bool)
        requires
            self.wf(),
            -PAD <= x < CHUNK_SIZE + PAD,
            -PAD <= z < CHUNK_SIZE + PAD,
        ensures
            r == solid(halo_block(self.blocks@, x as int, y as int, z as int)),
    {
        self.block(x, y, z).is_solid()
    }

    pub fn light(&self, x: i32, y: i32, z: i32) -> (r: u8)
        requires
            self.wf(),
            -PAD <= x < CHUNK_SIZE + PAD,
            -PAD <= z < CHUNK_SIZE + PAD,
        ensures
            r == halo_light(self.skylight@, x as int, y as int, z as int),
    {
        if y < 0 {
            return 0;
        }
        if y >= WORLD_HEIGHT {
            return MAX_SKYLIGHT;
        }
        self.skylight[Self::index(x, y, z)]
    }
}

/// The columns of a halo that come from the neighbour `delta` chunks away
/// along one axis: the skirt cell before the chunk, the chunk itself, or the
/// skirt cell after it.
pub open spec fn span_of(delta: int) -> (int, int) {
    if delta == -1 {
        (-PAD as int, -1)
    } else if delta == 0 {
        (0, CHUNK_SIZE - 1)
    } else {
        (CHUNK_SIZE as int, CHUNK_SIZE + PAD - 1)
    }
}

pub fn span(delta: i32) -> (r: (i32, i32))
    ensures
        r.0 == span_of(delta as int).0,
        r.1 == span_of(delta as int).1,
{
    match delta {
        -1 => (-PAD, -1),
        0 => (0, CHUNK_SIZE - 1),
        _ => (CHUNK_SIZE, CHUNK_SIZE + PAD - 1),
    }
}

/// Which neighbour a halo column comes from: -1, 0 or 1 chunks away.
pub open spec fn source_delta(a: int) -> int {
    if a < 0 {
        -1
    } else if a >= CHUNK_SIZE {
        1
    } else {
        0
    }
}


// ---------------------------------------------------------------- faces

/// One face direction of a block: its outward normal, its four corners as
/// offsets from the block's minimum corner (in the order the quad is drawn,
/// wound for back-face culling), and the two axes it spans.
pub struct Face {
    pub normal: BlockPos,
    pub c0: BlockPos,
    pub c1: BlockPos,
    pub c2: BlockPos,
    pub c3: BlockPos,
    pub tangent_u: BlockPos,
    pub tangent_v: BlockPos,
}

pub open spec fn v3(x: i32, y: i32, z: i32) -> BlockPos {
    BlockPos { x, y, z }
}

/// The six faces: +X, -X, +Y, -Y, +Z, -Z.
pub open spec fn face_spec(i: int) -> Face {
    if i == 0 {
        Face {
            normal: v3(1, 0, 0),
            c0: v3(1, 0, 0),
            c1: v3(1, 1, 0),
            c2: v3(1, 1, 1),
            c3: v3(1, 0, 1),
            tangent_u: v3(0, 1, 0),
            tangent_v: v3(0, 0, 1),
        }
    } else if i == 1 {
        Face {
            normal: v3(-1i32, 0, 0),
            c0: v3(0, 0, 1),
            c1: v3(0, 1, 1),
            c2: v3(0, 1, 0),
            c3: v3(0, 0, 0),
            tangent_u: v3(0, 1, 0),
            tangent_v: v3(0, 0, 1),
        }
    } else if i == 2 {
        Face {
            normal: v3(0, 1, 0),
            c0: v3(0, 1, 0),
            c1: v3(0, 1, 1),
            c2: v3(1, 1, 1),
            c3: v3(1, 1, 0),
            tangent_u: v3(1, 0, 0),
            tangent_v: v3(0, 0, 1),
        }
    } else if i == 3 {
        Face {
            normal: v3(0, -1i32, 0),
            c0: v3(0, 0, 1),
            c1: v3(0, 0, 0),
            c2: v3(1, 0, 0),
            c3: v3(1, 0, 1),
            tangent_u: v3(1, 0, 0),
            tangent_v: v3(0, 0, 1),
        }
    } else if i == 4 {
        Face {
            normal: v3(0, 0, 1),
            c0: v3(1, 0, 1),
            c1: v3(1, 1, 1),
            c2: v3(0, 1, 1),
            c3: v3(0, 0, 1),
            tangent_u: v3(1, 0, 0),
            tangent_v: v3(0, 1, 0),
        }
    } else {
        Face {
            normal: v3(0, 0, -1i32),
            c0: v3(0, 0, 0),
            c1: v3(0, 1, 0),
            c2: v3(1, 1, 0),
            c3: v3(1, 0, 0),
            tangent_u: v3(1, 0, 0),
            tangent_v: v3(0, 1, 0),
        }
    }
}

pub fn face(i: usize) -> (f: Face)
    requires
        i < 6,
    ensures
        f == face_spec(i as int),
{
    if i == 0 {
        Face {
            normal: BlockPos { x: 1, y: 0, z: 0 },
            c0: BlockPos { x: 1, y: 0, z: 0 },
            c1: BlockPos { x: 1, y: 1, z: 0 },
            c2: BlockPos { x: 1, y: 1, z: 1 },
            c3: BlockPos { x: 1, y: 0, z: 1 },
            tangent_u: BlockPos { x: 0, y: 1, z: 0 },
            tangent_v: BlockPos { x: 0, y: 0, z: 1 },
        }
    } else if i == 1 {
        Face {
            normal: BlockPos { x: -1, y: 0, z: 0 },
            c0: BlockPos { x: 0, y: 0, z: 1 },
            c1: BlockPos { x: 0, y: 1, z: 1 },
            c2: BlockPos { x: 0, y: 1, z: 0 },
            c3: BlockPos { x: 0, y: 0, z: 0 },
            tangent_u: BlockPos { x: 0, y: 1, z: 0 },
            tangent_v: BlockPos { x: 0, y: 0, z: 1 },
        }
    } else if i == 2 {
        Face {
            normal: BlockPos { x: 0, y: 1, z: 0 },
            c0: BlockPos { x: 0, y: 1, z: 0 },
            c1: BlockPos { x: 0, y: 1, z: 1 },
            c2: BlockPos { x: 1, y: 1, z: 1 },
            c3: BlockPos { x: 1, y: 1, z: 0 },
            tangent_u: BlockPos { x: 1, y: 0, z: 0 },
            tangent_v: BlockPos { x: 0, y: 0, z: 1 },
        }
    } else if i == 3 {
        Face {
            normal: BlockPos { x: 0, y: -1, z: 0 },
            c0: BlockPos { x: 0, y: 0, z: 1 },
            c1: BlockPos { x: 0, y: 0, z: 0 },
            c2: BlockPos { x: 1, y: 0, z: 0 },
            c3: BlockPos { x: 1, y: 0, z: 1 },
            tangent_u: BlockPos { x: 1, y: 0, z: 0 },
            tangent_v: BlockPos { x: 0, y: 0, z: 1 },
        }
    } else if i == 4 {
        Face {
            normal: BlockPos { x: 0, y: 0, z: 1 },
            c0: BlockPos { x: 1, y: 0, z: 1 },
            c1: BlockPos { x: 1, y: 1, z: 1 },
            c2: BlockPos { x: 0, y: 1, z: 1 },
            c3: BlockPos { x: 0, y: 0, z: 1 },
            tangent_u: BlockPos { x: 1, y: 0, z: 0 },
            tangent_v: BlockPos { x: 0, y: 1, z: 0 },
        }
    } else {
        Face {
            normal: BlockPos { x: 0, y: 0, z: -1 },
            c0: BlockPos { x: 0, y: 0, z: 0 },
            c1: BlockPos { x: 0, y: 1, z: 0 },
            c2: BlockPos { x: 1, y: 1, z: 0 },
            c3: BlockPos { x: 1, y: 0, z: 0 },
            tangent_u: BlockPos { x: 1, y: 0, z: 0 },
            tangent_v: BlockPos { x: 0, y: 1, z: 0 },
        }
    }
}

/// Corner `k` of a face.
pub open spec fn corner_of(f: Face, k: int) -> BlockPos {
    if k == 0 {
        f.c0
    } else if k == 1 {
        f.c1
    } else if k == 2 {
        f.c2
    } else {
        f.c3
    }
}

impl Face {
    pub fn corner(&self, k: usize) -> (c: BlockPos)
        ensures
            c == corner_of(*self, k as int),
    {
        if k == 0 {
            self.c0
        } else if k == 1 {
            self.c1
        } else if k == 2 {
            self.c2
        } else {
            self.c3
        }
    }
}

/// Index of the axis a unit vector points along: 0 for x, 1 for y, 2 for z.
pub open spec fn axis_index(v: BlockPos) -> int {
    if v.x != 0 {
        0
    } else if v.y != 0 {
        1
    } else {
        2
    }
}

pub fn axis_of(vector: BlockPos) -> (r: usize)
    ensures
        r == axis_index(vector),
{
    if vector.x != 0 {
        0
    } else if vector.y != 0 {
        1
    } else {
        2
    }
}

/// The component of `v` along axis `axis`.
pub open spec fn component(v: BlockPos, axis: int) -> int {
    if axis == 0 {
        v.x as int
    } else if axis == 1 {
        v.y as int
    } else {
        v.z as int
    }
}

/// +1 when the corner sits on the positive side of the given tangent axis,
/// -1 otherwise.
pub open spec fn corner_side(corner: BlockPos, tangent: BlockPos) -> int {
    component(corner, axis_index(tangent)) * 2 - 1
}

pub fn corner_sign(corner: BlockPos, tangent: BlockPos) -> (r: i32)
    requires
        -1 <= corner.x <= 1,
        -1 <= corner.y <= 1,
        -1 <= corner.z <= 1,
    ensures
        r == corner_side(corner, tangent),
{
    let component = if tangent.x != 0 {
        corner.x
    } else if tangent.y != 0 {
        corner.y
    } else {
        corner.z
    };
    component * 2 - 1
}

// ---------------------------------------------------------------- shading

/// What a mesh reads of the world around a chunk: the block and the
/// skylight at chunk-local coordinates, reaching one block into the
/// neighbours.
pub struct Surroundings {
    pub block: spec_fn(int, int, int) -> Block,
    pub light: spec_fn(int, int, int) -> u8,
}

/// Whether a cell of the surroundings is solid.
pub open spec fn solid_at(s: Surroundings, x: int, y: int, z: int) -> bool {
    solid((s.block)(x, y, z))
}

/// The skylight a corner contributes when open, nothing when solid.
pub open spec fn open_light(s: Surroundings, x: int, y: int, z: int) -> int {
    if solid_at(s, x, y, z) {
        0
    } else {
        (s.light)(x, y, z) as int
    }
}

pub open spec fn open_count(s: Surroundings, x: int, y: int, z: int) -> int {
    if solid_at(s, x, y, z) {
        0
    } else {
        1
    }
}

/// Standard voxel ambient occlusion for corner `corner` of face `f` of the
/// block at `x`, `y`, `z`: the corner darkens with the number of solid
/// blocks touching it, and is fully dark between two solid sides. Skylight is
/// averaged over the same four cells (only the open ones, so a solid
/// neighbour does not drag every edge to black).
#[verifier::opaque]
pub open spec fn corner_shade(s: Surroundings, x: int, y: int, z: int, f: Face, corner: BlockPos) -> (
    u32,
    u32,
) {
    let (fx, fy, fz) = (x + f.normal.x, y + f.normal.y, z + f.normal.z);
    let su = corner_side(corner, f.tangent_u);
    let sv = corner_side(corner, f.tangent_v);
    let (ux, uy, uz) = (f.tangent_u.x * su, f.tangent_u.y * su, f.tangent_u.z * su);
    let (vx, vy, vz) = (f.tangent_v.x * sv, f.tangent_v.y * sv, f.tangent_v.z * sv);
    let solid_u = solid_at(s, fx + ux, fy + uy, fz + uz);
    let solid_v = solid_at(s, fx + vx, fy + vy, fz + vz);
    let solid_d = solid_at(s, fx + ux + vx, fy + uy + vy, fz + uz + vz);
    let occlusion: u32 = if solid_u && solid_v {
        0
    } else {
        (3 - ((if solid_u {
            1int
        } else {
            0
        }) + (if solid_v {
            1int
        } else {
            0
        }) + (if solid_d {
            1int
        } else {
            0
        }))) as u32
    };
    let total = open_light(s, fx, fy, fz) + open_light(s, fx + ux, fy + uy, fz + uz) + open_light(
        s,
        fx + vx,
        fy + vy,
        fz + vz,
    ) + open_light(s, fx + ux + vx, fy + uy + vy, fz + uz + vz);
    let samples = open_count(s, fx, fy, fz) + open_count(s, fx + ux, fy + uy, fz + uz) + open_count(
        s,
        fx + vx,
        fy + vy,
        fz + vz,
    ) + open_count(s, fx + ux + vx, fy + uy + vy, fz + uz + vz);
    let light = if samples == 0 {
        0
    } else {
        (total * 4) / samples / 4
    };
    (occlusion, if light > MAX_SKYLIGHT { MAX_SKYLIGHT as u32 } else { light as u32 })
}

/// The `k`-th of the four cells touching corner `corner` of face `f` of the
/// block at `x`, `y`, `z`: the cell in front of the face, the cells beside
/// it along the face's first and second tangents towards the corner, and the
/// cell diagonally between those two.
pub open spec fn corner_cell(x: int, y: int, z: int, f: Face, corner: BlockPos, k: int) -> (
    int,
    int,
    int,
) {
    let su = corner_side(corner, f.tangent_u);
    let sv = corner_side(corner, f.tangent_v);
    let u = if k == 1 || k == 3 {
        (f.tangent_u.x * su, f.tangent_u.y * su, f.tangent_u.z * su)
    } else {
        (0, 0, 0)
    };
    let v = if k == 2 || k == 3 {
        (f.tangent_v.x * sv, f.tangent_v.y * sv, f.tangent_v.z * sv)
    } else {
        (0, 0, 0)
    };
    (x + f.normal.x + u.0 + v.0, y + f.normal.y + u.1 + v.1, z + f.normal.z + u.2 + v.2)
}

/// Whether a cell lets light through.
pub open spec fn cell_open(s: Surroundings, c: (int, int, int)) -> bool {
    !solid((s.block)(c.0, c.1, c.2))
}

/// The skylight a cell holds.
pub open spec fn cell_light(s: Surroundings, c: (int, int, int)) -> int {
    (s.light)(c.0, c.1, c.2) as int
}

/// How many of the four cells touching a corner are open.
pub open spec fn open_corner_cells(s: Surroundings, x: int, y: int, z: int, f: Face, corner: BlockPos) -> int {
    (if cell_open(s, corner_cell(x, y, z, f, corner, 0)) { 1int } else { 0 })
        + (if cell_open(s, corner_cell(x, y, z, f, corner, 1)) { 1int } else { 0 })
        + (if cell_open(s, corner_cell(x, y, z, f, corner, 2)) { 1int } else { 0 })
        + (if cell_open(s, corner_cell(x, y, z, f, corner, 3)) { 1int } else { 0 })
}

/// The skylight of the open cells among the four touching a corner, added
/// up.
pub open spec fn open_corner_light(s: Surroundings, x: int, y: int, z: int, f: Face, corner: BlockPos) -> int {
    (if cell_open(s, corner_cell(x, y, z, f, corner, 0)) {
        cell_light(s, corner_cell(x, y, z, f, corner, 0))
    } else {
        0
    }) + (if cell_open(s, corner_cell(x, y, z, f, corner, 1)) {
        cell_light(s, corner_cell(x, y, z, f, corner, 1))
    } else {
        0
    }) + (if cell_open(s, corner_cell(x, y, z, f, corner, 2)) {
        cell_light(s, corner_cell(x, y, z, f, corner, 2))
    } else {
        0
    }) + (if cell_open(s, corner_cell(x, y, z, f, corner, 3)) {
        cell_light(s, corner_cell(x, y, z, f, corner, 3))
    } else {
        0
    })
}

proof fn lemma_floor_mean(t: int, n: int)
    requires
        1 <= n <= 4,
        0 <= t,
    ensures
        n * ((t * 4) / n / 4) <= t < n * ((t * 4) / n / 4 + 1),
{
    if n == 1 {
        assert(n * ((t * 4) / n / 4) <= t < n * ((t * 4) / n / 4 + 1)) by (nonlinear_arith)
            requires
                n == 1,
                0 <= t,
        ;
    } else if n == 2 {
        assert(n * ((t * 4) / n / 4) <= t < n * ((t * 4) / n / 4 + 1)) by (nonlinear_arith)
            requires
                n == 2,
                0 <= t,
        ;
    } else if n == 3 {
        assert(n * ((t * 4) / n / 4) <= t < n * ((t * 4) / n / 4 + 1)) by (nonlinear_arith)
            requires
                n == 3,
                0 <= t,
        ;
    } else {
        assert(n * ((t * 4) / n / 4) <= t < n * ((t * 4) / n / 4 + 1)) by (nonlinear_arith)
            requires
                n == 4,
                0 <= t,
        ;
    }
}

/// A corner's skylight is the mean skylight of the open cells among the
/// four touching it, rounded down, and dark when none is open: a solid cell
/// beside a face never darkens it.
pub proof fn lemma_corner_light_is_the_mean_of_open_cells(
    s: Surroundings,
    x: int,
    y: int,
    z: int,
    f: Face,
    corner: BlockPos,
)
    requires
        forall|k: int|
            0 <= k < 4 ==> #[trigger] cell_light(s, corner_cell(x, y, z, f, corner, k)) <= MAX_SKYLIGHT,
    ensures
        ({
            let light = corner_shade(s, x, y, z, f, corner).1 as int;
            let n = open_corner_cells(s, x, y, z, f, corner);
            let total = open_corner_light(s, x, y, z, f, corner);
            &&& n == 0 ==> light == 0
            &&& n > 0 ==> n * light <= total < n * (light + 1)
        }),
{
    reveal(corner_shade);
    let c0 = corner_cell(x, y, z, f, corner, 0);
    let c1 = corner_cell(x, y, z, f, corner, 1);
    let c2 = corner_cell(x, y, z, f, corner, 2);
    let c3 = corner_cell(x, y, z, f, corner, 3);
    assert(cell_light(s, c0) <= MAX_SKYLIGHT);
    assert(cell_light(s, c1) <= MAX_SKYLIGHT);
    assert(cell_light(s, c2) <= MAX_SKYLIGHT);
    assert(cell_light(s, c3) <= MAX_SKYLIGHT);
    let n = open_corner_cells(s, x, y, z, f, corner);
    let t = open_corner_light(s, x, y, z, f, corner);
    assert(0 <= t <= 15 * n);
    if n > 0 {
        lemma_floor_mean(t, n);
        let q = (t * 4) / n / 4;
        assert(q <= 15) by (nonlinear_arith)
            requires
                n * q <= t,
                t <= 15 * n,
                n > 0,
        ;
    }
}

/// A corner's ambient occlusion: three, less one for each solid cell among
/// the two beside the face's front cell and the diagonal one, and fully
/// dark (zero) between two solid sides.
pub proof fn lemma_corner_occlusion(s: Surroundings, x: int, y: int, z: int, f: Face, corner: BlockPos)
    ensures
        ({
            let side_u = !cell_open(s, corner_cell(x, y, z, f, corner, 1));
            let side_v = !cell_open(s, corner_cell(x, y, z, f, corner, 2));
            let diagonal = !cell_open(s, corner_cell(x, y, z, f, corner, 3));
            let occlusion = corner_shade(s, x, y, z, f, corner).0 as int;
            &&& side_u && side_v ==> occlusion == 0
            &&& !(side_u && side_v) ==> occlusion + (if side_u { 1int } else { 0 }) + (if side_v {
                1int
            } else {
                0
            }) + (if diagonal { 1int } else { 0 }) == 3
        }),
{
    reveal(corner_shade);
}

/// Where every open cell touching a corner holds the same skylight, the
/// corner has exactly that light, whatever solid cells stand beside it.
pub proof fn lemma_even_light_reaches_the_corner(
    s: Surroundings,
    x: int,
    y: int,
    z: int,
    f: Face,
    corner: BlockPos,
    level: int,
)
    requires
        0 <= level <= MAX_SKYLIGHT,
        exists|k: int| 0 <= k < 4 && #[trigger] cell_open(s, corner_cell(x, y, z, f, corner, k)),
        forall|k: int|
            0 <= k < 4 && #[trigger] cell_open(s, corner_cell(x, y, z, f, corner, k)) ==> cell_light(
                s,
                corner_cell(x, y, z, f, corner, k),
            ) == level,
        forall|k: int|
            0 <= k < 4 ==> #[trigger] cell_light(s, corner_cell(x, y, z, f, corner, k)) <= MAX_SKYLIGHT,
    ensures
        corner_shade(s, x, y, z, f, corner).1 == level,
{
    lemma_corner_light_is_the_mean_of_open_cells(s, x, y, z, f, corner);
    let k = choose|k: int| 0 <= k < 4 && #[trigger] cell_open(s, corner_cell(x, y, z, f, corner, k));
    let o0 = cell_open(s, corner_cell(x, y, z, f, corner, 0));
    let o1 = cell_open(s, corner_cell(x, y, z, f, corner, 1));
    let o2 = cell_open(s, corner_cell(x, y, z, f, corner, 2));
    let o3 = cell_open(s, corner_cell(x, y, z, f, corner, 3));
    assert(o0 || o1 || o2 || o3) by {
        if k == 0 {
        } else if k == 1 {
        } else if k == 2 {
        } else {
        }
    }
    let n = open_corner_cells(s, x, y, z, f, corner);
    let t = open_corner_light(s, x, y, z, f, corner);
    let i0: int = if o0 { 1 } else { 0 };
    let i1: int = if o1 { 1 } else { 0 };
    let i2: int = if o2 { 1 } else { 0 };
    let i3: int = if o3 { 1 } else { 0 };
    assert(n * level == i0 * level + i1 * level + i2 * level + i3 * level) by (nonlinear_arith)
        requires
            n == i0 + i1 + i2 + i3,
    ;
    assert(t == i0 * level + i1 * level + i2 * level + i3 * level) by {
        if o0 {
            assert(cell_light(s, corner_cell(x, y, z, f, corner, 0)) == level);
        }
        if o1 {
            assert(cell_light(s, corner_cell(x, y, z, f, corner, 1)) == level);
        }
        if o2 {
            assert(cell_light(s, corner_cell(x, y, z, f, corner, 2)) == level);
        }
        if o3 {
            assert(cell_light(s, corner_cell(x, y, z, f, corner, 3)) == level);
        }
    }
    let l = corner_shade(s, x, y, z, f, corner).1 as int;
    assert(l == level) by (nonlinear_arith)
        requires
            n > 0,
            n * l <= t,
            t < n * (l + 1),
            t == n * level,
    ;
}

/// What a halo shows of its surroundings.
pub open spec fn halo_shows(halo: Halo, s: Surroundings) -> bool {
    &&& halo.wf()
    &&& forall|x: int, y: int, z: int|
        -PAD <= x < CHUNK_SIZE + PAD && -PAD <= z < CHUNK_SIZE + PAD ==> #[trigger] halo_block(
            halo.blocks@,
            x,
            y,
            z,
        ) == (s.block)(x, y, z) && halo_light(halo.skylight@, x, y, z) == (s.light)(x, y, z)
}

/// A face's normal and tangents are unit vectors along three distinct axes.
pub open spec fn face_ok(f: Face) -> bool {
    let n = f.normal;
    let u = f.tangent_u;
    let v = f.tangent_v;
    &&& -1 <= n.x <= 1 && -1 <= n.y <= 1 && -1 <= n.z <= 1
    &&& 0 <= u.x <= 1 && 0 <= u.y <= 1 && 0 <= u.z <= 1
    &&& 0 <= v.x <= 1 && 0 <= v.y <= 1 && 0 <= v.z <= 1
    &&& n.x * n.x + n.y * n.y + n.z * n.z == 1
    &&& u.x + u.y + u.z == 1
    &&& v.x + v.y + v.z == 1
    &&& n.x * u.x == 0 && n.y * u.y == 0 && n.z * u.z == 0
    &&& n.x * v.x == 0 && n.y * v.y == 0 && n.z * v.z == 0
    &&& u.x * v.x == 0 && u.y * v.y == 0 && u.z * v.z == 0
    &&& forall|k: int|
        0 <= k < 4 ==> 0 <= #[trigger] corner_of(f, k).x <= 1 && 0 <= corner_of(f, k).y <= 1 && 0
            <= corner_of(f, k).z <= 1
}

/// A face's normal and tangents point along the three different axes.
pub proof fn lemma_face_axes(i: int)
    requires
        0 <= i < 6,
    ensures
        ({
            let f = face_spec(i);
            let a = axis_index(f.normal);
            let u = axis_index(f.tangent_u);
            let v = axis_index(f.tangent_v);
            &&& a != u && a != v && u != v
            &&& 0 <= a < 3 && 0 <= u < 3 && 0 <= v < 3
            &&& component(f.tangent_u, u) == 1 && component(f.tangent_v, v) == 1
            &&& component(f.normal, a) == 1 || component(f.normal, a) == -1
        }),
{
}

pub proof fn lemma_faces_ok(i: int)
    requires
        0 <= i < 6,
    ensures
        face_ok(face_spec(i)),
{
    let f = face_spec(i);
    assert forall|k: int| 0 <= k < 4 implies 0 <= #[trigger] corner_of(f, k).x <= 1 && 0 <= corner_of(
        f,
        k,
    ).y <= 1 && 0 <= corner_of(f, k).z <= 1 by {
        if i == 0 {
        } else if i == 1 {
        } else if i == 2 {
        } else if i == 3 {
        } else if i == 4 {
        } else {
        }
    }
    let n = f.normal;
    let u = f.tangent_u;
    let v = f.tangent_v;
    assert(n.x * n.x + n.y * n.y + n.z * n.z == 1 && n.x * u.x == 0 && n.y * u.y == 0 && n.z * u.z
        == 0 && n.x * v.x == 0 && n.y * v.y == 0 && n.z * v.z == 0 && u.x * v.x == 0 && u.y * v.y
        == 0 && u.z * v.z == 0) by (nonlinear_arith)
        requires
            (n.x == 1 && n.y == 0 && n.z == 0 && u.x == 0 && u.y == 1 && u.z == 0 && v.x == 0 && v.y
                == 0 && v.z == 1) || (n.x == -1 && n.y == 0 && n.z == 0 && u.x == 0 && u.y == 1
                && u.z == 0 && v.x == 0 && v.y == 0 && v.z == 1) || (n.x == 0 && n.y == 1 && n.z == 0
                && u.x == 1 && u.y == 0 && u.z == 0 && v.x == 0 && v.y == 0 && v.z == 1) || (n.x == 0
                && n.y == -1 && n.z == 0 && u.x == 1 && u.y == 0 && u.z == 0 && v.x == 0 && v.y == 0
                && v.z == 1) || (n.x == 0 && n.y == 0 && n.z == 1 && u.x == 1 && u.y == 0 && u.z == 0
                && v.x == 0 && v.y == 1 && v.z == 0) || (n.x == 0 && n.y == 0 && n.z == -1 && u.x == 1
                && u.y == 0 && u.z == 0 && v.x == 0 && v.y == 1 && v.z == 0),
    ;
}

/// Corner shading of a block face, read from a halo.
#[verifier::rlimit(40)]
pub fn corner_lighting(halo: &Halo, block: BlockPos, f: &Face, corner: BlockPos) -> (r: (u32, u32))
    requires
        halo.wf(),
        face_ok(*f),
        0 <= corner.x <= 1 && 0 <= corner.y <= 1 && 0 <= corner.z <= 1,
        0 <= block.x < CHUNK_SIZE,
        -1 <= block.y <= WORLD_HEIGHT,
        0 <= block.z < CHUNK_SIZE,
    ensures
        forall|s: Surroundings| halo_shows(*halo, s) ==> r == corner_shade(
            s,
            block.x as int,
            block.y as int,
            block.z as int,
            *f,
            corner,
        ),
        r.0 <= 3,
        r.1 <= MAX_SKYLIGHT,
{
    let su = corner_sign(corner, f.tangent_u);
    let sv = corner_sign(corner, f.tangent_v);
    proof {
        let (nx, nz, tux, tuz, tvx, tvz) = (
            f.normal.x as int,
            f.normal.z as int,
            f.tangent_u.x as int,
            f.tangent_u.z as int,
            f.tangent_v.x as int,
            f.tangent_v.z as int,
        );
        assert(-1 <= nx + tux * su + tvx * sv <= 1 && -1 <= nx + tux * su <= 1 && -1 <= nx + tvx * sv
            <= 1) by (nonlinear_arith)
            requires
                -1 <= nx <= 1,
                0 <= tux <= 1,
                0 <= tvx <= 1,
                nx * tux == 0,
                nx * tvx == 0,
                tux * tvx == 0,
                su == 1 || su == -1,
                sv == 1 || sv == -1,
        ;
        assert(-1 <= nz + tuz * su + tvz * sv <= 1 && -1 <= nz + tuz * su <= 1 && -1 <= nz + tvz * sv
            <= 1) by (nonlinear_arith)
            requires
                -1 <= nz <= 1,
                0 <= tuz <= 1,
                0 <= tvz <= 1,
                nz * tuz == 0,
                nz * tvz == 0,
                tuz * tvz == 0,
                su == 1 || su == -1,
                sv == 1 || sv == -1,
        ;
        assert(-1 <= f.tangent_u.y * su <= 1 && -1 <= f.tangent_v.y * sv <= 1) by (nonlinear_arith)
            requires
                0 <= f.tangent_u.y <= 1,
                0 <= f.tangent_v.y <= 1,
                su == 1 || su == -1,
                sv == 1 || sv == -1,
        ;
        assert(-1 <= f.tangent_u.x * su <= 1 && -1 <= f.tangent_v.x * sv <= 1 && -1 <= f.tangent_u.z
            * su <= 1 && -1 <= f.tangent_v.z * sv <= 1) by (nonlinear_arith)
            requires
                0 <= f.tangent_u.x <= 1,
                0 <= f.tangent_v.x <= 1,
                0 <= f.tangent_u.z <= 1,
                0 <= f.tangent_v.z <= 1,
                su == 1 || su == -1,
                sv == 1 || sv == -1,
        ;
    }
    let fx = block.x + f.normal.x;
    let fy = block.y + f.normal.y;
    let fz = block.z + f.normal.z;
    let ux = f.tangent_u.x * su;
    let uy = f.tangent_u.y * su;
    let uz = f.tangent_u.z * su;
    let vx = f.tangent_v.x * sv;
    let vy = f.tangent_v.y * sv;
    let vz = f.tangent_v.z * sv;
    let solid_u = halo.solid(fx + ux, fy + uy, fz + uz);
    let solid_v = halo.solid(fx + vx, fy + vy, fz + vz);
    let solid_diagonal = halo.solid(fx + ux + vx, fy + uy + vy, fz + uz + vz);
    let occlusion: u32 = if solid_u && solid_v {
        0
    } else {
        3 - ((if solid_u {
            1u32
        } else {
            0
        }) + (if solid_v {
            1u32
        } else {
            0
        }) + (if solid_diagonal {
            1u32
        } else {
            0
        }))
    };
    let mut total: u32 = 0;
    let mut samples: u32 = 0;
    if !halo.solid(fx, fy, fz) {
        total = total + halo.light(fx, fy, fz) as u32;
        samples = samples + 1;
    }
    if !solid_u {
        total = total + halo.light(fx + ux, fy + uy, fz + uz) as u32;
        samples = samples + 1;
    }
    if !solid_v {
        total = total + halo.light(fx + vx, fy + vy, fz + vz) as u32;
        samples = samples + 1;
    }
    if !solid_diagonal {
        total = total + halo.light(fx + ux + vx, fy + uy + vy, fz + uz + vz) as u32;
        samples = samples + 1;
    }
    let light: u32 = if samples == 0 {
        0
    } else {
        (total * 4) / samples / 4
    };
    let clamped = if light > MAX_SKYLIGHT as u32 {
        MAX_SKYLIGHT as u32
    } else {
        light
    };
    proof {
        assert forall|s: Surroundings| halo_shows(*halo, s) implies (occlusion, clamped) == corner_shade(
            s,
            block.x as int,
            block.y as int,
            block.z as int,
            *f,
            corner,
        ) by {
            reveal(corner_shade);
        }
    }
    (occlusion, clamped)
}

/// The two words of a vertex position: x, y and z in a byte each, then the
/// face index in three bits and the ambient occlusion in two.
pub open spec fn packed(x: i32, y: i32, z: i32, normal: u32, ao: u32) -> u32 {
    ((x as u32) & 0xFFu32) | (((y as u32) & 0xFFu32) << 8u32) | (((z as u32) & 0xFFu32) << 16u32) | ((
    normal & 0x7u32) << 24u32) | ((ao & 0x3u32) << 27u32)
}

pub fn pack_position(x: i32, y: i32, z: i32, normal: u32, ao: u32) -> (r: u32)
    ensures
        r == packed(x, y, z, normal, ao),
{
    ((x as u32) & 0xFFu32) | (((y as u32) & 0xFFu32) << 8u32) | (((z as u32) & 0xFFu32) << 16u32) | ((
    normal & 0x7u32) << 24u32) | ((ao & 0x3u32) << 27u32)
}

/// Every field of a packed position can be read back.
pub proof fn lemma_packed_fields(x: i32, y: i32, z: i32, normal: u32, ao: u32)
    ensures
        packed(x, y, z, normal, ao) & 0xFFu32 == (x as u32) & 0xFFu32,
        (packed(x, y, z, normal, ao) >> 8u32) & 0xFFu32 == (y as u32) & 0xFFu32,
        (packed(x, y, z, normal, ao) >> 16u32) & 0xFFu32 == (z as u32) & 0xFFu32,
        (packed(x, y, z, normal, ao) >> 24u32) & 0x7u32 == normal & 0x7u32,
        (packed(x, y, z, normal, ao) >> 27u32) & 0x3u32 == ao & 0x3u32,
{
    let (a, b, c) = (x as u32, y as u32, z as u32);
    assert(((a & 0xFFu32) | ((b & 0xFFu32) << 8u32) | ((c & 0xFFu32) << 16u32) | ((normal & 0x7u32)
        << 24u32) | ((ao & 0x3u32) << 27u32)) & 0xFFu32 == a & 0xFFu32) by (bit_vector);
    assert((((a & 0xFFu32) | ((b & 0xFFu32) << 8u32) | ((c & 0xFFu32) << 16u32) | ((normal & 0x7u32)
        << 24u32) | ((ao & 0x3u32) << 27u32)) >> 8u32) & 0xFFu32 == b & 0xFFu32) by (bit_vector);
    assert((((a & 0xFFu32) | ((b & 0xFFu32) << 8u32) | ((c & 0xFFu32) << 16u32) | ((normal & 0x7u32)
        << 24u32) | ((ao & 0x3u32) << 27u32)) >> 16u32) & 0xFFu32 == c & 0xFFu32) by (bit_vector);
    assert((((a & 0xFFu32) | ((b & 0xFFu32) << 8u32) | ((c & 0xFFu32) << 16u32) | ((normal & 0x7u32)
        << 24u32) | ((ao & 0x3u32) << 27u32)) >> 24u32) & 0x7u32 == normal & 0x7u32) by (bit_vector);
    assert((((a & 0xFFu32) | ((b & 0xFFu32) << 8u32) | ((c & 0xFFu32) << 16u32) | ((normal & 0x7u32)
        << 24u32) | ((ao & 0x3u32) << 27u32)) >> 27u32) & 0x3u32 == ao & 0x3u32) by (bit_vector);
}


// ---------------------------------------------------------------- the plain mesh

/// The second word of a vertex: the palette index, then the corner's
/// skylight from bit 8.
pub open spec fn shade_word(material: u32, light: u32) -> u32 {
    material | (light << 8u32)
}

/// The eight words of the quad for face `f` of the block at `x`, `y`, `z`:
/// two words per corner, in the face's corner order, started one corner
/// later when the ambient occlusion of the first and third corners outweighs
/// the other two (rotating the quad flips its triangulation diagonal, which
/// avoids the well-known staircase artefact).
pub open spec fn quad_words(s: Surroundings, x: int, y: int, z: int, f: int) -> Seq<u32> {
    let face = face_spec(f);
    let m = material((s.block)(x, y, z), f);
    let shade = |k: int| corner_shade(s, x, y, z, face, corner_of(face, k));
    let position = |k: int|
        packed(
            (x + corner_of(face, k).x) as i32,
            (y + corner_of(face, k).y) as i32,
            (z + corner_of(face, k).z) as i32,
            f as u32,
            shade(k).0,
        );
    let rotate = shade(0).0 + shade(2).0 > shade(1).0 + shade(3).0;
    let order = |j: int|
        if rotate {
            (j + 1) % 4
        } else {
            j
        };
    seq![
        position(order(0)),
        shade_word(m, shade(order(0)).1),
        position(order(1)),
        shade_word(m, shade(order(1)).1),
        position(order(2)),
        shade_word(m, shade(order(2)).1),
        position(order(3)),
        shade_word(m, shade(order(3)).1),
    ]
}

/// The quad of face `f` of the block at `x`, `y`, `z` if the cell it faces
/// is open; nothing otherwise.
pub open spec fn face_words(s: Surroundings, x: int, y: int, z: int, f: int) -> Seq<u32> {
    let n = face_spec(f).normal;
    if solid_at(s, x + n.x, y + n.y, z + n.z) {
        Seq::empty()
    } else {
        quad_words(s, x, y, z, f)
    }
}

/// The quads of the first `count` faces of the block at `x`, `y`, `z`.
pub open spec fn block_words(s: Surroundings, x: int, y: int, z: int, count: int) -> Seq<u32>
    decreases count,
{
    if count <= 0 {
        Seq::empty()
    } else {
        block_words(s, x, y, z, count - 1) + face_words(s, x, y, z, count - 1)
    }
}

/// The quads of the cell at `x`, `y`, `z`: one per open face of a solid
/// block, none for air.
pub open spec fn cell_words(s: Surroundings, x: int, y: int, z: int) -> Seq<u32> {
    if solid_at(s, x, y, z) {
        block_words(s, x, y, z, 6)
    } else {
        Seq::empty()
    }
}

/// The quads of the first `n` cells of a chunk, in storage order (x
/// fastest, then z, then y).
pub open spec fn plain_words(s: Surroundings, n: int) -> Seq<u32>
    decreases n,
{
    if n <= 0 {
        Seq::empty()
    } else {
        let c = n - 1;
        plain_words(s, c) + cell_words(s, c % CHUNK_SIZE as int, c / 256, (c / CHUNK_SIZE as int) % CHUNK_SIZE as int)
    }
}

/// Vertex data for one chunk, already packed for the GPU: two words per
/// vertex, four vertices per quad.
pub struct ChunkMesh {
    pub vertices: Vec<u32>,
    pub quad_count: usize,
}

/// Appends the quad of face `f` of the block at `x`, `y`, `z`.
fn push_quad(halo: &Halo, vertices: &mut Vec<u32>, x: i32, y: i32, z: i32, f: usize)
    requires
        halo.wf(),
        0 <= x < CHUNK_SIZE,
        0 <= y < WORLD_HEIGHT,
        0 <= z < CHUNK_SIZE,
        f < 6,
    ensures
        final(vertices)@.len() == old(vertices)@.len() + 8,
        forall|s: Surroundings|
            halo_shows(*halo, s) ==> final(vertices)@ == old(vertices)@ + quad_words(
                s,
                x as int,
                y as int,
                z as int,
                f as int,
            ),
{
    let face = face(f);
    proof {
        lemma_faces_ok(f as int);
    }
    let block = halo.block(x, y, z);
    let m = material_for(block, f);
    let block_position = BlockPos { x, y, z };
    let c0 = face.corner(0);
    let c1 = face.corner(1);
    let c2 = face.corner(2);
    let c3 = face.corner(3);
    assert(0 <= c0.x <= 1 && 0 <= c0.y <= 1 && 0 <= c0.z <= 1) by {
        assert(corner_of(face, 0) == c0);
    }
    assert(0 <= c1.x <= 1 && 0 <= c1.y <= 1 && 0 <= c1.z <= 1) by {
        assert(corner_of(face, 1) == c1);
    }
    assert(0 <= c2.x <= 1 && 0 <= c2.y <= 1 && 0 <= c2.z <= 1) by {
        assert(corner_of(face, 2) == c2);
    }
    assert(0 <= c3.x <= 1 && 0 <= c3.y <= 1 && 0 <= c3.z <= 1) by {
        assert(corner_of(face, 3) == c3);
    }
    let s0 = corner_lighting(halo, block_position, &face, c0);
    let s1 = corner_lighting(halo, block_position, &face, c1);
    let s2 = corner_lighting(halo, block_position, &face, c2);
    let s3 = corner_lighting(halo, block_position, &face, c3);
    let p0 = pack_position(x + c0.x, y + c0.y, z + c0.z, f as u32, s0.0);
    let p1 = pack_position(x + c1.x, y + c1.y, z + c1.z, f as u32, s1.0);
    let p2 = pack_position(x + c2.x, y + c2.y, z + c2.z, f as u32, s2.0);
    let p3 = pack_position(x + c3.x, y + c3.y, z + c3.z, f as u32, s3.0);
    let w0 = m | (s0.1 << 8u32);
    let w1 = m | (s1.1 << 8u32);
    let w2 = m | (s2.1 << 8u32);
    let w3 = m | (s3.1 << 8u32);
    let ghost start = vertices@;
    if s0.0 + s2.0 > s1.0 + s3.0 {
        vertices.push(p1);
        vertices.push(w1);
        vertices.push(p2);
        vertices.push(w2);
        vertices.push(p3);
        vertices.push(w3);
        vertices.push(p0);
        vertices.push(w0);
    } else {
        vertices.push(p0);
        vertices.push(w0);
        vertices.push(p1);
        vertices.push(w1);
        vertices.push(p2);
        vertices.push(w2);
        vertices.push(p3);
        vertices.push(w3);
    }
    proof {
        assert forall|s: Surroundings| halo_shows(*halo, s) implies vertices@ == start + quad_words(
            s,
            x as int,
            y as int,
            z as int,
            f as int,
        ) by {
            assert(halo_block(halo.blocks@, x as int, y as int, z as int) == (s.block)(
                x as int,
                y as int,
                z as int,
            ));
            assert(vertices@ =~= start + quad_words(s, x as int, y as int, z as int, f as int));
        }
    }
}


/// Where storage-order cell `c` of a chunk lies.
pub proof fn lemma_storage_order(x: int, y: int, z: int)
    requires
        0 <= x < 16,
        0 <= z < 16,
        0 <= y,
    ensures
        ({
            let c = y * 256 + z * 16 + x;
            c % 16 == x && c / 256 == y && (c / 16) % 16 == z
        }),
{
    assert((y * 256 + z * 16 + x) % 16 == x && (y * 256 + z * 16 + x) / 256 == y && ((y * 256 + z * 16
        + x) / 16) % 16 == z) by (nonlinear_arith)
        requires
            0 <= x < 16,
            0 <= z < 16,
            0 <= y,
    ;
}

/// Appends the quads of every open face of the solid block at `x`, `y`, `z`.
fn push_block(halo: &Halo, vertices: &mut Vec<u32>, x: i32, y: i32, z: i32) -> (added: usize)
    requires
        halo.wf(),
        0 <= x < CHUNK_SIZE,
        0 <= y < WORLD_HEIGHT,
        0 <= z < CHUNK_SIZE,
    ensures
        added <= 6,
        final(vertices)@.len() == old(vertices)@.len() + 8 * added,
        forall|s: Surroundings|
            halo_shows(*halo, s) ==> final(vertices)@ == old(vertices)@ + block_words(
                s,
                x as int,
                y as int,
                z as int,
                6,
            ),
{
    let ghost start = vertices@;
    let mut added: usize = 0;
    let mut f: usize = 0;
    while f < 6
        invariant
            halo.wf(),
            0 <= x < CHUNK_SIZE,
            0 <= y < WORLD_HEIGHT,
            0 <= z < CHUNK_SIZE,
            f <= 6,
            added <= f,
            vertices@.len() == start.len() + 8 * added,
            forall|s: Surroundings|
                halo_shows(*halo, s) ==> vertices@ == start + block_words(
                    s,
                    x as int,
                    y as int,
                    z as int,
                    f as int,
                ),
        decreases 6 - f,
    {
        let face = face(f);
        let ghost before = vertices@;
        let n = face.normal;
        proof {
            lemma_faces_ok(f as int);
        }
        if !halo.solid(x + n.x, y + n.y, z + n.z) {
            push_quad(halo, vertices, x, y, z, f);
            added = added + 1;
        }
        proof {
            assert forall|s: Surroundings| halo_shows(*halo, s) implies vertices@ == start + block_words(
                s,
                x as int,
                y as int,
                z as int,
                f + 1,
            ) by {
                assert(halo_block(halo.blocks@, x + n.x, y + n.y, z + n.z) == (s.block)(
                    x + n.x,
                    y + n.y,
                    z + n.z,
                ));
                assert(before == start + block_words(s, x as int, y as int, z as int, f as int));
                assert(vertices@ =~= start + block_words(s, x as int, y as int, z as int, f + 1));
            }
        }
        f = f + 1;
    }
    added
}

impl World {
    /// Builds the packed vertex buffer for chunk `position`, one quad per
    /// open block face, in storage order.
    ///
    /// Layout, two words per vertex, four vertices per quad:
    ///   word 0: x(8) | y(8) | z(8) | face(3) | ambient occlusion(2)
    ///   word 1: material(8) | skylight of the corner(from bit 8)
    ///
    /// The renderer uses the greedy variant; this one stays as the reference
    /// the greedy one is checked against.
    pub fn build_chunk_mesh(&self, position: ChunkPosition) -> (mesh: ChunkMesh)
        requires
            self.wf(),
            has_neighbours(position),
        ensures
            mesh.vertices@ == plain_words(
                self.surroundings(position),
                self.sources_height(position, 9) * 256,
            ),
            mesh.vertices@.len() == 8 * mesh.quad_count,
            0 <= self.sources_height(position, 9) <= WORLD_HEIGHT,
    {
        let halo = self.build_halo(position);
        let ghost s = self.surroundings(position);
        proof {
            lemma_halo_shows(*self, position, halo);
        }
        let mut vertices: Vec<u32> = Vec::new();
        let mut quad_count: usize = 0;
        let mut y: i32 = 0;
        while y < halo.height
            invariant
                halo.wf(),
                halo_shows(halo, s),
                0 <= y <= halo.height,
                quad_count <= 1536 * y,
                vertices@.len() == 8 * quad_count,
                vertices@ == plain_words(s, y * 256),
            decreases halo.height - y,
        {
            let mut z: i32 = 0;
            while z < CHUNK_SIZE
                invariant
                    halo.wf(),
                    halo_shows(halo, s),
                    0 <= y < halo.height,
                    0 <= z <= CHUNK_SIZE,
                    quad_count <= 1536 * y + 96 * z,
                    vertices@.len() == 8 * quad_count,
                    vertices@ == plain_words(s, y * 256 + z * 16),
                decreases CHUNK_SIZE - z,
            {
                let mut x: i32 = 0;
                while x < CHUNK_SIZE
                    invariant
                        halo.wf(),
                        halo_shows(halo, s),
                        0 <= y < halo.height,
                        0 <= z < CHUNK_SIZE,
                        0 <= x <= CHUNK_SIZE,
                        quad_count <= 1536 * y + 96 * z + 6 * x,
                        vertices@.len() == 8 * quad_count,
                        vertices@ == plain_words(s, y * 256 + z * 16 + x),
                    decreases CHUNK_SIZE - x,
                {
                    proof {
                        lemma_storage_order(x as int, y as int, z as int);
                    }
                    let ghost before = vertices@;
                    if halo.solid(x, y, z) {
                        let added = push_block(&halo, &mut vertices, x, y, z);
                        quad_count = quad_count + added;
                    }
                    proof {
                        assert(halo_block(halo.blocks@, x as int, y as int, z as int) == (s.block)(
                            x as int,
                            y as int,
                            z as int,
                        ));
                        assert(vertices@ =~= plain_words(s, y * 256 + z * 16 + x + 1));
                    }
                    x = x + 1;
                }
                z = z + 1;
            }
            y = y + 1;
        }
        ChunkMesh { vertices, quad_count }
    }
}


// ---------------------------------------------------------------- the greedy mesh

/// How one block face is drawn: its palette index and, per corner, ambient
/// occlusion and skylight.
#[derive(Clone, Copy)]
pub struct Shading {
    pub material: u32,
    pub ao0: u32,
    pub light0: u32,
    pub ao1: u32,
    pub light1: u32,
    pub ao2: u32,
    pub light2: u32,
    pub ao3: u32,
    pub light3: u32,
}

/// Corner `k` of a shading: ambient occlusion and skylight.
pub open spec fn shade_at(sh: Shading, k: int) -> (u32, u32) {
    if k == 0 {
        (sh.ao0, sh.light0)
    } else if k == 1 {
        (sh.ao1, sh.light1)
    } else if k == 2 {
        (sh.ao2, sh.light2)
    } else {
        (sh.ao3, sh.light3)
    }
}

/// Ambient occlusion and skylight within their ranges.
pub open spec fn shading_ok(sh: Shading) -> bool {
    &&& sh.ao0 <= 3 && sh.ao1 <= 3 && sh.ao2 <= 3 && sh.ao3 <= 3
    &&& sh.light0 <= MAX_SKYLIGHT && sh.light1 <= MAX_SKYLIGHT && sh.light2 <= MAX_SKYLIGHT
        && sh.light3 <= MAX_SKYLIGHT
}

/// How face `f` of the block at `x`, `y`, `z` is shaded.
pub open spec fn shading(s: Surroundings, f: int, x: int, y: int, z: int) -> Shading {
    let face = face_spec(f);
    let c = |k: int| corner_shade(s, x, y, z, face, corner_of(face, k));
    Shading {
        material: material((s.block)(x, y, z), f),
        ao0: c(0).0,
        light0: c(0).1,
        ao1: c(1).0,
        light1: c(1).1,
        ao2: c(2).0,
        light2: c(2).1,
        ao3: c(3).0,
        light3: c(3).1,
    }
}

/// Whether face `f` of the cell at `x`, `y`, `z` is drawn: a solid block
/// facing an open cell.
pub open spec fn visible(s: Surroundings, f: int, x: int, y: int, z: int) -> bool {
    let n = face_spec(f).normal;
    solid_at(s, x, y, z) && !solid_at(s, x + n.x, y + n.y, z + n.z)
}

/// The point `origin + corner`, with the corner stretched `width` times
/// along axis `u_axis` and `height` times along `v_axis`.
pub open spec fn stretched(
    origin: (int, int, int),
    corner: BlockPos,
    u_axis: int,
    v_axis: int,
    width: int,
    height: int,
) -> (int, int, int) {
    (
        origin.0 + corner.x * stretch_factor(0, u_axis, v_axis, width, height),
        origin.1 + corner.y * stretch_factor(1, u_axis, v_axis, width, height),
        origin.2 + corner.z * stretch_factor(2, u_axis, v_axis, width, height),
    )
}

/// A stretched corner, axis by axis.
pub proof fn lemma_stretched(
    origin: (int, int, int),
    corner: BlockPos,
    u_axis: int,
    v_axis: int,
    width: int,
    height: int,
)
    ensures
        stretched(origin, corner, u_axis, v_axis, width, height).0 == origin.0 + if 0 == u_axis {
            corner.x * width
        } else if 0 == v_axis {
            corner.x * height
        } else {
            corner.x as int
        },
        stretched(origin, corner, u_axis, v_axis, width, height).1 == origin.1 + if 1 == u_axis {
            corner.y * width
        } else if 1 == v_axis {
            corner.y * height
        } else {
            corner.y as int
        },
        stretched(origin, corner, u_axis, v_axis, width, height).2 == origin.2 + if 2 == u_axis {
            corner.z * width
        } else if 2 == v_axis {
            corner.z * height
        } else {
            corner.z as int
        },
{
}

/// How far a quad stretches along `axis`.
pub open spec fn stretch_factor(axis: int, u_axis: int, v_axis: int, width: int, height: int) -> int {
    if axis == u_axis {
        width
    } else if axis == v_axis {
        height
    } else {
        1
    }
}

/// The eight words of a quad for face `f`, anchored at the block `origin`
/// and stretched `width` by `height` blocks along the face's tangents, drawn
/// with `sh`. Stretching keeps the corner order, so the winding stays right
/// for back-face culling.
pub open spec fn tile_words(f: int, origin: (int, int, int), width: int, height: int, sh: Shading) -> Seq<
    u32,
> {
    let face = face_spec(f);
    let u_axis = axis_index(face.tangent_u);
    let v_axis = axis_index(face.tangent_v);
    let position = |k: int|
        {
            let p = stretched(origin, corner_of(face, k), u_axis, v_axis, width, height);
            packed(p.0 as i32, p.1 as i32, p.2 as i32, f as u32, shade_at(sh, k).0)
        };
    let rotate = shade_at(sh, 0).0 + shade_at(sh, 2).0 > shade_at(sh, 1).0 + shade_at(sh, 3).0;
    let order = |j: int|
        if rotate {
            (j + 1) % 4
        } else {
            j
        };
    seq![
        position(order(0)),
        shade_word(sh.material, shade_at(sh, order(0)).1),
        position(order(1)),
        shade_word(sh.material, shade_at(sh, order(1)).1),
        position(order(2)),
        shade_word(sh.material, shade_at(sh, order(2)).1),
        position(order(3)),
        shade_word(sh.material, shade_at(sh, order(3)).1),
    ]
}

/// `p` with its component along `axis` replaced by `value`.
pub open spec fn with_component(p: BlockPos, axis: int, value: i32) -> BlockPos {
    if axis == 0 {
        BlockPos { x: value, ..p }
    } else if axis == 1 {
        BlockPos { y: value, ..p }
    } else {
        BlockPos { z: value, ..p }
    }
}

fn set_component(p: BlockPos, axis: usize, value: i32) -> (r: BlockPos)
    ensures
        r == with_component(p, axis as int, value),
{
    if axis == 0 {
        BlockPos { x: value, ..p }
    } else if axis == 1 {
        BlockPos { y: value, ..p }
    } else {
        BlockPos { z: value, ..p }
    }
}

fn get_component(p: BlockPos, axis: usize) -> (r: i32)
    ensures
        r == component(p, axis as int),
{
    if axis == 0 {
        p.x
    } else if axis == 1 {
        p.y
    } else {
        p.z
    }
}

/// The block at `a` along `axis`, `u` along `u_axis` and `v` along `v_axis`.
pub open spec fn composed(axis: int, a: int, u_axis: int, u: int, v_axis: int, v: int) -> (int, int, int) {
    let pick = |t: int|
        if t == axis {
            a
        } else if t == u_axis {
            u
        } else if t == v_axis {
            v
        } else {
            0
        };
    (pick(0), pick(1), pick(2))
}

pub fn compose(axis: usize, a: i32, u_axis: usize, u: i32, v_axis: usize, v: i32) -> (r: BlockPos)
    requires
        axis < 3 && u_axis < 3 && v_axis < 3,
        axis != u_axis && axis != v_axis && u_axis != v_axis,
    ensures
        (r.x as int, r.y as int, r.z as int) == composed(
            axis as int,
            a as int,
            u_axis as int,
            u as int,
            v_axis as int,
            v as int,
        ),
{
    let zero = BlockPos { x: 0, y: 0, z: 0 };
    let p = set_component(zero, axis, a);
    let p = set_component(p, u_axis, u);
    set_component(p, v_axis, v)
}

/// How many blocks a chunk spans along `axis`, up to `height` vertically.
pub open spec fn extent(axis: int, height: int) -> int {
    if axis == 1 {
        height
    } else {
        CHUNK_SIZE as int
    }
}

pub fn axis_extent(axis: usize, height: i32) -> (r: i32)
    ensures
        r == extent(axis as int, height as int),
{
    if axis == 1 {
        height
    } else {
        CHUNK_SIZE
    }
}

/// Appends one quad anchored at `origin`, stretched `width` by `height`
/// along the face's tangents.
fn emit_quad(
    vertices: &mut Vec<u32>,
    f: &Face,
    face_index: usize,
    origin: BlockPos,
    width: i32,
    height: i32,
    sh: Shading,
)
    requires
        face_index < 6,
        *f == face_spec(face_index as int),
        0 <= origin.x <= CHUNK_SIZE && 0 <= origin.y <= WORLD_HEIGHT && 0 <= origin.z <= CHUNK_SIZE,
        1 <= width <= WORLD_HEIGHT,
        1 <= height <= WORLD_HEIGHT,
        shading_ok(sh),
    ensures
        final(vertices)@ == old(vertices)@ + tile_words(
            face_index as int,
            (origin.x as int, origin.y as int, origin.z as int),
            width as int,
            height as int,
            sh,
        ),
{
    let u_axis = axis_of(f.tangent_u);
    let v_axis = axis_of(f.tangent_v);
    let axis = axis_of(f.normal);
    proof {
        lemma_faces_ok(face_index as int);
    }
    let ghost o = (origin.x as int, origin.y as int, origin.z as int);
    let mut packed_words: Vec<u32> = Vec::new();
    let mut k: usize = 0;
    while k < 4
        invariant
            k <= 4,
            face_index < 6,
            *f == face_spec(face_index as int),
            face_ok(*f),
            u_axis == axis_index(f.tangent_u),
            v_axis == axis_index(f.tangent_v),
            axis == axis_index(f.normal),
            0 <= origin.x <= CHUNK_SIZE && 0 <= origin.y <= WORLD_HEIGHT && 0 <= origin.z <= CHUNK_SIZE,
            1 <= width <= WORLD_HEIGHT,
            1 <= height <= WORLD_HEIGHT,
            packed_words@.len() == k,
            o == (origin.x as int, origin.y as int, origin.z as int),
            forall|j: int|
                0 <= j < k ==> #[trigger] packed_words@[j] == packed(
                    stretched(o, corner_of(*f, j), u_axis as int, v_axis as int, width as int, height as int).0 as i32,
                    stretched(o, corner_of(*f, j), u_axis as int, v_axis as int, width as int, height as int).1 as i32,
                    stretched(o, corner_of(*f, j), u_axis as int, v_axis as int, width as int, height as int).2 as i32,
                    face_index as u32,
                    shade_at(sh, j).0,
                ),
        decreases 4 - k,
    {
        let corner = f.corner(k);
        assert(0 <= corner.x <= 1 && 0 <= corner.y <= 1 && 0 <= corner.z <= 1) by {
            assert(corner == corner_of(*f, k as int));
        }
        let mut position = origin;
        let cu = get_component(corner, u_axis);
        let cv = get_component(corner, v_axis);
        assert(0 <= cu * width <= WORLD_HEIGHT && 0 <= cv * height <= WORLD_HEIGHT) by (nonlinear_arith)
            requires
                0 <= cu <= 1,
                0 <= cv <= 1,
                1 <= width <= WORLD_HEIGHT,
                1 <= height <= WORLD_HEIGHT,
        ;
        let pu = get_component(position, u_axis) + cu * width;
        position = set_component(position, u_axis, pu);
        let pv = get_component(position, v_axis) + cv * height;
        position = set_component(position, v_axis, pv);
        let pa = get_component(origin, axis) + get_component(corner, axis);
        position = set_component(position, axis, pa);
        let ao = if k == 0 {
            sh.ao0
        } else if k == 1 {
            sh.ao1
        } else if k == 2 {
            sh.ao2
        } else {
            sh.ao3
        };
        proof {
            lemma_face_axes(face_index as int);
            assert(corner == corner_of(*f, k as int));
            let st = stretched(o, corner_of(*f, k as int), u_axis as int, v_axis as int, width as int, height as int);
            lemma_stretched(o, corner, u_axis as int, v_axis as int, width as int, height as int);
            // One face at a time, so that each case sees its face's concrete axes.
            if face_index == 0 {
                assert((position.x as int, position.y as int, position.z as int) == st);
            } else if face_index == 1 {
                assert((position.x as int, position.y as int, position.z as int) == st);
            } else if face_index == 2 {
                assert((position.x as int, position.y as int, position.z as int) == st);
            } else if face_index == 3 {
                assert((position.x as int, position.y as int, position.z as int) == st);
            } else if face_index == 4 {
                assert((position.x as int, position.y as int, position.z as int) == st);
            } else {
                assert((position.x as int, position.y as int, position.z as int) == st);
            }
        }
        packed_words.push(pack_position(position.x, position.y, position.z, face_index as u32, ao));
        k = k + 1;
    }
    let w0 = sh.material | (sh.light0 << 8u32);
    let w1 = sh.material | (sh.light1 << 8u32);
    let w2 = sh.material | (sh.light2 << 8u32);
    let w3 = sh.material | (sh.light3 << 8u32);
    let ghost start = vertices@;
    if sh.ao0 + sh.ao2 > sh.ao1 + sh.ao3 {
        vertices.push(packed_words[1]);
        vertices.push(w1);
        vertices.push(packed_words[2]);
        vertices.push(w2);
        vertices.push(packed_words[3]);
        vertices.push(w3);
        vertices.push(packed_words[0]);
        vertices.push(w0);
    } else {
        vertices.push(packed_words[0]);
        vertices.push(w0);
        vertices.push(packed_words[1]);
        vertices.push(w1);
        vertices.push(packed_words[2]);
        vertices.push(w2);
        vertices.push(packed_words[3]);
        vertices.push(w3);
    }
    assert(vertices@ =~= start + tile_words(face_index as int, o, width as int, height as int, sh));
}


/// One cell of the greedy sweep mask.
#[derive(Clone, Copy, PartialEq, Eq, Structural)]
pub enum MaskCell {
    Empty,
    /// Ambient occlusion and skylight are uniform across the face, so merging
    /// it with an identical neighbour cannot change how it shades.
    Mergeable { material: u32, ao: u32, light: u32 },
    /// The face has a gradient across its corners; stretching it would smear
    /// that gradient, so it is emitted on its own, with the shading kept at
    /// this index.
    Unique(usize),
}

/// A shading whose four corners are alike.
pub open spec fn uniform_shading(material: u32, ao: u32, light: u32) -> Shading {
    Shading {
        material,
        ao0: ao,
        light0: light,
        ao1: ao,
        light1: light,
        ao2: ao,
        light2: light,
        ao3: ao,
        light3: light,
    }
}

/// Whether all four corners of a shading are alike.
pub open spec fn is_uniform(sh: Shading) -> bool {
    sh == uniform_shading(sh.material, sh.ao0, sh.light0)
}

/// The shading a mask cell stands for.
pub open spec fn cell_shading(cell: MaskCell, gradients: Seq<Shading>) -> Shading {
    match cell {
        MaskCell::Mergeable { material, ao, light } => uniform_shading(material, ao, light),
        MaskCell::Unique(i) => gradients[i as int],
        MaskCell::Empty => uniform_shading(0, 0, 0),
    }
}

/// The block of slice `slice` of face `f` at `u`, `v` of the slice.
pub open spec fn slice_block(f: int, slice: int, u: int, v: int) -> (int, int, int) {
    let face = face_spec(f);
    composed(axis_index(face.normal), slice, axis_index(face.tangent_u), u, axis_index(face.tangent_v), v)
}

/// The mask of slice `slice` of face `f`: a drawn face is mergeable exactly
/// when its shading is uniform, every drawn face keeps its shading, and
/// faces that are not drawn are empty.
#[verifier::opaque]
pub open spec fn mask_matches(
    s: Surroundings,
    f: int,
    slice: int,
    u_len: int,
    v_len: int,
    mask: Seq<MaskCell>,
    gradients: Seq<Shading>,
) -> bool {
    &&& mask.len() == u_len * v_len
    &&& forall|i: int| 0 <= i < gradients.len() ==> shading_ok(#[trigger] gradients[i])
    &&& forall|u: int, v: int|
        0 <= u < u_len && 0 <= v < v_len ==> {
            let p = slice_block(f, slice, u, v);
            let c = #[trigger] mask[u + v * u_len];
            &&& (c == MaskCell::Empty) == !visible(s, f, p.0, p.1, p.2)
            &&& c is Mergeable == (visible(s, f, p.0, p.1, p.2) && is_uniform(shading(s, f, p.0, p.1, p.2)))
            &&& (c matches MaskCell::Unique(i) ==> i < gradients.len())
            &&& (c != MaskCell::Empty ==> cell_shading(c, gradients) == shading(s, f, p.0, p.1, p.2))
        }
}

pub proof fn lemma_mask_index(u: int, v: int, u_len: int, v_len: int)
    requires
        0 <= u < u_len,
        0 <= v < v_len,
    ensures
        0 <= u + v * u_len < u_len * v_len,
{
    assert(0 <= u + v * u_len < u_len * v_len) by (nonlinear_arith)
        requires
            0 <= u < u_len,
            0 <= v < v_len,
    ;
}

/// Two mask cells share an index only if they are the same cell.
pub proof fn lemma_mask_index_injective(u1: int, v1: int, u2: int, v2: int, u_len: int)
    requires
        0 <= u1 < u_len,
        0 <= u2 < u_len,
        0 <= v1,
        0 <= v2,
        u1 + v1 * u_len == u2 + v2 * u_len,
    ensures
        u1 == u2 && v1 == v2,
{
    assert(u1 == u2 && v1 == v2) by (nonlinear_arith)
        requires
            0 <= u1 < u_len,
            0 <= u2 < u_len,
            0 <= v1,
            0 <= v2,
            u1 + v1 * u_len == u2 + v2 * u_len,
    ;
}

/// Fills the mask of slice `slice` of face `f` from the halo.
fn fill_mask(
    halo: &Halo,
    f: &Face,
    face_index: usize,
    slice: i32,
    u_len: i32,
    v_len: i32,
    mask: &mut Vec<MaskCell>,
    gradients: &mut Vec<Shading>,
)
    requires
        halo.wf(),
        face_index < 6,
        *f == face_spec(face_index as int),
        0 <= slice < extent(axis_index(f.normal), halo.height as int),
        u_len == extent(axis_index(f.tangent_u), halo.height as int),
        v_len == extent(axis_index(f.tangent_v), halo.height as int),
        old(mask)@.len() == u_len * v_len,
        old(gradients)@.len() == 0,
    ensures
        forall|s: Surroundings|
            halo_shows(*halo, s) ==> mask_matches(
                s,
                face_index as int,
                slice as int,
                u_len as int,
                v_len as int,
                final(mask)@,
                final(gradients)@,
            ),
        final(mask)@.len() == u_len * v_len,
        cells_ok(final(mask)@, final(gradients)@, u_len as int, v_len as int),
{
    let axis = axis_of(f.normal);
    let u_axis = axis_of(f.tangent_u);
    let v_axis = axis_of(f.tangent_v);
    proof {
        lemma_face_axes(face_index as int);
        lemma_faces_ok(face_index as int);
    }
    let ghost fi = face_index as int;
    let mut v: i32 = 0;
    while v < v_len
        invariant
            halo.wf(),
            face_index < 6,
            fi == face_index as int,
            *f == face_spec(fi),
            face_ok(*f),
            axis == axis_index(f.normal),
            u_axis == axis_index(f.tangent_u),
            v_axis == axis_index(f.tangent_v),
            axis != u_axis && axis != v_axis && u_axis != v_axis,
            axis < 3 && u_axis < 3 && v_axis < 3,
            0 <= slice < extent(axis as int, halo.height as int),
            u_len == extent(u_axis as int, halo.height as int),
            v_len == extent(v_axis as int, halo.height as int),
            0 <= v <= v_len,
            mask@.len() == u_len * v_len,
            forall|i: int| 0 <= i < gradients@.len() ==> shading_ok(#[trigger] gradients@[i]),
            forall|u2: int, v2: int|
                0 <= u2 < u_len && 0 <= v2 < v ==> cell_ok(#[trigger] mask@[u2 + v2 * u_len], gradients@),
            forall|s: Surroundings, u2: int, v2: int|
                #![trigger halo_shows(*halo, s), mask@[u2 + v2 * u_len]]
                halo_shows(*halo, s) && 0 <= u2 < u_len && 0 <= v2 < v ==> {
                    let p = slice_block(fi, slice as int, u2, v2);
                    let c = mask@[u2 + v2 * u_len];
                    &&& (c == MaskCell::Empty) == !visible(s, fi, p.0, p.1, p.2)
                    &&& c is Mergeable == (visible(s, fi, p.0, p.1, p.2) && is_uniform(
                        shading(s, fi, p.0, p.1, p.2),
                    ))
                    &&& (c matches MaskCell::Unique(i) ==> i < gradients@.len())
                    &&& (c != MaskCell::Empty ==> cell_shading(c, gradients@) == shading(
                        s,
                        fi,
                        p.0,
                        p.1,
                        p.2,
                    ))
                },
        decreases v_len - v,
    {
        let mut u: i32 = 0;
        while u < u_len
            invariant
                halo.wf(),
                face_index < 6,
                fi == face_index as int,
                *f == face_spec(fi),
                face_ok(*f),
                axis == axis_index(f.normal),
                u_axis == axis_index(f.tangent_u),
                v_axis == axis_index(f.tangent_v),
                axis != u_axis && axis != v_axis && u_axis != v_axis,
                axis < 3 && u_axis < 3 && v_axis < 3,
                0 <= slice < extent(axis as int, halo.height as int),
                u_len == extent(u_axis as int, halo.height as int),
                v_len == extent(v_axis as int, halo.height as int),
                0 <= v < v_len,
                0 <= u <= u_len,
                mask@.len() == u_len * v_len,
                forall|i: int| 0 <= i < gradients@.len() ==> shading_ok(#[trigger] gradients@[i]),
                forall|u2: int, v2: int|
                    0 <= u2 < u_len && 0 <= v2 < v_len && (v2 < v || (v2 == v && u2 < u)) ==> cell_ok(
                        #[trigger] mask@[u2 + v2 * u_len],
                        gradients@,
                    ),
                forall|s: Surroundings, u2: int, v2: int|
                    #![trigger halo_shows(*halo, s), mask@[u2 + v2 * u_len]]
                    halo_shows(*halo, s) && 0 <= u2 < u_len && 0 <= v2 < v_len && (v2 < v || (v2 == v
                        && u2 < u)) ==> {
                        let p = slice_block(fi, slice as int, u2, v2);
                        let c = mask@[u2 + v2 * u_len];
                        &&& (c == MaskCell::Empty) == !visible(s, fi, p.0, p.1, p.2)
                        &&& c is Mergeable == (visible(s, fi, p.0, p.1, p.2) && is_uniform(
                            shading(s, fi, p.0, p.1, p.2),
                        ))
                        &&& (c matches MaskCell::Unique(i) ==> i < gradients@.len())
                        &&& (c != MaskCell::Empty ==> cell_shading(c, gradients@) == shading(
                            s,
                            fi,
                            p.0,
                            p.1,
                            p.2,
                        ))
                    },
            decreases u_len - u,
        {
            proof {
                lemma_mask_index(u as int, v as int, u_len as int, v_len as int);
                assert(0 <= v * u_len <= 48 * 48) by (nonlinear_arith)
                    requires
                        0 <= v < v_len <= 48,
                        0 <= u_len <= 48,
                ;
            }
            let index: usize = (u + v * u_len) as usize;
            let block_position = compose(axis, slice, u_axis, u, v_axis, v);
            let block = halo.block(block_position.x, block_position.y, block_position.z);
            let n = f.normal;
            let mut cell = MaskCell::Empty;
            if block.is_solid() && !halo.solid(
                block_position.x + n.x,
                block_position.y + n.y,
                block_position.z + n.z,
            ) {
                let material = material_for(block, face_index);
                let s0 = corner_lighting(halo, block_position, f, f.corner(0));
                let s1 = corner_lighting(halo, block_position, f, f.corner(1));
                let s2 = corner_lighting(halo, block_position, f, f.corner(2));
                let s3 = corner_lighting(halo, block_position, f, f.corner(3));
                let uniform = s0.0 == s1.0 && s0.1 == s1.1 && s0.0 == s2.0 && s0.1 == s2.1 && s0.0
                    == s3.0 && s0.1 == s3.1;
                if uniform {
                    cell = MaskCell::Mergeable { material, ao: s0.0, light: s0.1 };
                } else {
                    gradients.push(
                        Shading {
                            material,
                            ao0: s0.0,
                            light0: s0.1,
                            ao1: s1.0,
                            light1: s1.1,
                            ao2: s2.0,
                            light2: s2.1,
                            ao3: s3.0,
                            light3: s3.1,
                        },
                    );
                    cell = MaskCell::Unique(gradients.len() - 1);
                }
            }
            let ghost before = mask@;
            mask.set(index, cell);
            proof {
                assert forall|u2: int, v2: int|
                    0 <= u2 < u_len && 0 <= v2 < v_len && (v2 < v || (v2 == v && u2 < u + 1)) implies cell_ok(
                        #[trigger] mask@[u2 + v2 * u_len],
                        gradients@,
                    ) by {
                    lemma_mask_index(u2, v2, u_len as int, v_len as int);
                    if u2 + v2 * u_len == index as int {
                        lemma_mask_index_injective(u2, v2, u as int, v as int, u_len as int);
                    } else {
                        assert(mask@[u2 + v2 * u_len] == before[u2 + v2 * u_len]);
                    }
                }
                let p = slice_block(fi, slice as int, u as int, v as int);
                assert(p == (block_position.x as int, block_position.y as int, block_position.z as int));
                assert forall|s: Surroundings, u2: int, v2: int|
                    #![trigger halo_shows(*halo, s), mask@[u2 + v2 * u_len]]
                    halo_shows(*halo, s) && 0 <= u2 < u_len && 0 <= v2 < v_len && (v2 < v || (v2 == v
                        && u2 < u + 1)) implies {
                        let p2 = slice_block(fi, slice as int, u2, v2);
                        let c = mask@[u2 + v2 * u_len];
                        &&& (c == MaskCell::Empty) == !visible(s, fi, p2.0, p2.1, p2.2)
                        &&& c is Mergeable == (visible(s, fi, p2.0, p2.1, p2.2) && is_uniform(
                            shading(s, fi, p2.0, p2.1, p2.2),
                        ))
                        &&& (c matches MaskCell::Unique(i) ==> i < gradients@.len())
                        &&& (c != MaskCell::Empty ==> cell_shading(c, gradients@) == shading(
                            s,
                            fi,
                            p2.0,
                            p2.1,
                            p2.2,
                        ))
                    } by {
                    lemma_mask_index(u2, v2, u_len as int, v_len as int);
                    if u2 + v2 * u_len == index as int {
                        lemma_mask_index_injective(u2, v2, u as int, v as int, u_len as int);
                        let (bx, by, bz) = (block_position.x as int, block_position.y as int, block_position.z as int);
                        assert(halo_block(halo.blocks@, bx, by, bz) == (s.block)(bx, by, bz));
                        assert(halo_block(halo.blocks@, bx + n.x, by + n.y, bz + n.z) == (s.block)(
                            bx + n.x,
                            by + n.y,
                            bz + n.z,
                        ));
                    } else {
                        assert(mask@[u2 + v2 * u_len] == before[u2 + v2 * u_len]);
                    }
                }
            }
            u = u + 1;
        }
        v = v + 1;
    }
    proof {
        assert forall|s: Surroundings| halo_shows(*halo, s) implies mask_matches(
            s,
            fi,
            slice as int,
            u_len as int,
            v_len as int,
            mask@,
            gradients@,
        ) by {
            reveal(mask_matches);
            assert forall|u2: int, v2: int| 0 <= u2 < u_len && 0 <= v2 < v_len implies {
                let p = slice_block(fi, slice as int, u2, v2);
                let c = #[trigger] mask@[u2 + v2 * u_len];
                &&& (c == MaskCell::Empty) == !visible(s, fi, p.0, p.1, p.2)
                &&& c is Mergeable == (visible(s, fi, p.0, p.1, p.2) && is_uniform(shading(s, fi, p.0, p.1, p.2)))
                &&& (c matches MaskCell::Unique(i) ==> i < gradients@.len())
                &&& (c != MaskCell::Empty ==> cell_shading(c, gradients@) == shading(s, fi, p.0, p.1, p.2))
            } by {
                assert(mask@[u2 + v2 * u_len] == mask@[u2 + v2 * u_len]);
            }
        }
    }
}


/// A rectangle of mask cells: `u`, `v`, width, height.
pub open spec fn in_tile(t: (int, int, int, int), u: int, v: int) -> bool {
    t.0 <= u < t.0 + t.2 && t.1 <= v < t.1 + t.3
}

/// A tile of the sweep: inside the mask, on a drawn face, all its cells
/// alike, and a single cell when its face has a gradient.
pub open spec fn tile_ok(mask: Seq<MaskCell>, u_len: int, v_len: int, t: (int, int, int, int)) -> bool {
    let c = mask[t.0 + t.1 * u_len];
    &&& 1 <= t.2 && 1 <= t.3
    &&& 0 <= t.0 && t.0 + t.2 <= u_len
    &&& 0 <= t.1 && t.1 + t.3 <= v_len
    &&& c != MaskCell::Empty
    &&& (c is Unique ==> t.2 == 1 && t.3 == 1)
    &&& forall|u: int, v: int| in_tile(t, u, v) ==> #[trigger] mask[u + v * u_len] == c
}

/// The tiles of a slice: sound tiles of `mask`, overlapping nowhere, and
/// covering every cell that is not empty.
#[verifier::opaque]
pub open spec fn slice_tiled(mask: Seq<MaskCell>, u_len: int, v_len: int, tiles: Seq<(int, int, int, int)>) -> bool {
    &&& forall|i: int| 0 <= i < tiles.len() ==> tile_ok(mask, u_len, v_len, #[trigger] tiles[i])
    &&& forall|i: int, j: int, u: int, v: int|
        0 <= i < tiles.len() && 0 <= j < tiles.len() && i != j && #[trigger] in_tile(tiles[i], u, v)
            ==> !#[trigger] in_tile(tiles[j], u, v)
    &&& forall|u: int, v: int|
        0 <= u < u_len && 0 <= v < v_len && #[trigger] mask[u + v * u_len] != MaskCell::Empty
            ==> exists|i: int| 0 <= i < tiles.len() && #[trigger] in_tile(tiles[i], u, v)
}

/// The words of the first `n` tiles of a slice.
pub open spec fn tiles_words(
    f: int,
    slice: int,
    tiles: Seq<(int, int, int, int)>,
    mask: Seq<MaskCell>,
    gradients: Seq<Shading>,
    u_len: int,
    n: int,
) -> Seq<u32>
    decreases n,
{
    if n <= 0 {
        Seq::empty()
    } else {
        let t = tiles[n - 1];
        let o = slice_block(f, slice, t.0, t.1);
        tiles_words(f, slice, tiles, mask, gradients, u_len, n - 1) + tile_words(
            f,
            o,
            t.2,
            t.3,
            cell_shading(mask[t.0 + t.1 * u_len], gradients),
        )
    }
}

/// Each tile gives eight words.
pub proof fn lemma_tiles_words_len(
    f: int,
    slice: int,
    tiles: Seq<(int, int, int, int)>,
    mask: Seq<MaskCell>,
    gradients: Seq<Shading>,
    u_len: int,
    n: int,
)
    requires
        0 <= n,
    ensures
        tiles_words(f, slice, tiles, mask, gradients, u_len, n).len() == 8 * n,
    decreases n,
{
    if n > 0 {
        lemma_tiles_words_len(f, slice, tiles, mask, gradients, u_len, n - 1);
    }
}

/// Every cell of a mask stands for a shading within range.
pub open spec fn cells_ok(mask: Seq<MaskCell>, gradients: Seq<Shading>, u_len: int, v_len: int) -> bool {
    &&& forall|i: int| 0 <= i < gradients.len() ==> shading_ok(#[trigger] gradients[i])
    &&& forall|u: int, v: int|
        0 <= u < u_len && 0 <= v < v_len ==> cell_ok(#[trigger] mask[u + v * u_len], gradients)
}

/// A mask cell's shading is within range.
pub open spec fn cell_ok(cell: MaskCell, gradients: Seq<Shading>) -> bool {
    match cell {
        MaskCell::Mergeable { material, ao, light } => shading_ok(uniform_shading(material, ao, light)),
        MaskCell::Unique(k) => k < gradients.len(),
        MaskCell::Empty => true,
    }
}

/// Whether cells `u..u + width` of row `row` all hold `cell`.
fn row_matches(
    mask: &Vec<MaskCell>,
    u: i32,
    width: i32,
    row: i32,
    u_len: i32,
    v_len: i32,
    cell: MaskCell,
) -> (r: bool)
    requires
        0 <= u,
        1 <= width,
        u + width <= u_len <= 48,
        0 <= row < v_len <= 48,
        mask@.len() == u_len * v_len,
    ensures
        r == forall|j: int| 0 <= j < width ==> #[trigger] mask@[u + j + row * u_len] == cell,
{
    proof {
        assert(row * u_len + u_len <= u_len * v_len) by (nonlinear_arith)
            requires
                0 <= row < v_len,
                0 <= u_len,
        ;
    }
    let mut offset: i32 = 0;
    while offset < width
        invariant
            0 <= u,
            1 <= width,
            u + width <= u_len <= 48,
            0 <= row < 48,
            row * u_len + u_len <= mask@.len(),
            0 <= offset <= width,
            forall|j: int| 0 <= j < offset ==> #[trigger] mask@[u + j + row * u_len] == cell,
        decreases width - offset,
    {
        assert(0 <= row * u_len <= 48 * 48) by (nonlinear_arith)
            requires
                0 <= row < 48,
                0 <= u_len <= 48,
        ;
        if mask[(u + offset + row * u_len) as usize] != cell {
            return false;
        }
        offset = offset + 1;
    }
    true
}


/// A block of a slice lies inside the chunk, below `height`.
pub proof fn lemma_slice_block_bounds(f: int, slice: int, u: int, v: int, height: int)
    requires
        0 <= f < 6,
        0 <= height <= WORLD_HEIGHT,
        0 <= slice < extent(axis_index(face_spec(f).normal), height),
        0 <= u < extent(axis_index(face_spec(f).tangent_u), height),
        0 <= v < extent(axis_index(face_spec(f).tangent_v), height),
    ensures
        ({
            let p = slice_block(f, slice, u, v);
            &&& 0 <= p.0 < CHUNK_SIZE
            &&& 0 <= p.1 < height
            &&& 0 <= p.2 < CHUNK_SIZE
        }),
{
    lemma_face_axes(f);
}

/// Appending a tile keeps the words of the tiles before it.
pub proof fn lemma_tiles_words_prefix(
    f: int,
    slice: int,
    tiles: Seq<(int, int, int, int)>,
    t: (int, int, int, int),
    mask: Seq<MaskCell>,
    gradients: Seq<Shading>,
    u_len: int,
    n: int,
)
    requires
        0 <= n <= tiles.len(),
    ensures
        tiles_words(f, slice, tiles.push(t), mask, gradients, u_len, n) == tiles_words(
            f,
            slice,
            tiles,
            mask,
            gradients,
            u_len,
            n,
        ),
    decreases n,
{
    if n > 0 {
        lemma_tiles_words_prefix(f, slice, tiles, t, mask, gradients, u_len, n - 1);
    }
}

/// Grows the rectangle of identical cells whose top-left corner is `u`, `v`
/// (as far right, then as far down, as mergeable cells allow; a face with a
/// gradient stays a single cell), clears it from the mask and emits its
/// quad.
fn take_tile(
    mask: &mut Vec<MaskCell>,
    gradients: &Vec<Shading>,
    f: &Face,
    face_index: usize,
    slice: i32,
    height: i32,
    u_len: i32,
    v_len: i32,
    u: i32,
    v: i32,
    vertices: &mut Vec<u32>,
) -> (r: (i32, i32))
    requires
        face_index < 6,
        *f == face_spec(face_index as int),
        0 <= height <= WORLD_HEIGHT,
        0 <= slice < extent(axis_index(f.normal), height as int),
        u_len == extent(axis_index(f.tangent_u), height as int),
        v_len == extent(axis_index(f.tangent_v), height as int),
        old(mask)@.len() == u_len * v_len,
        0 <= u < u_len,
        0 <= v < v_len,
        old(mask)@[u + v * u_len] != MaskCell::Empty,
        old(mask)@[u + v * u_len] matches MaskCell::Unique(i) ==> i < gradients@.len(),
        shading_ok(cell_shading(old(mask)@[u + v * u_len], gradients@)),
    ensures
        ({
            let cell = old(mask)@[u + v * u_len];
            let tile = (u as int, v as int, r.0 as int, r.1 as int);
            &&& 1 <= r.0 && u + r.0 <= u_len
            &&& 1 <= r.1 && v + r.1 <= v_len
            &&& (cell is Unique ==> r.0 == 1 && r.1 == 1)
            &&& final(mask)@.len() == old(mask)@.len()
            &&& forall|a: int, b: int| #[trigger] in_tile(tile, a, b) ==> old(mask)@[a + b * u_len] == cell
            &&& forall|a: int, b: int|
                0 <= a < u_len && 0 <= b < v_len ==> #[trigger] final(mask)@[a + b * u_len] == if in_tile(
                    tile,
                    a,
                    b,
                ) {
                    MaskCell::Empty
                } else {
                    old(mask)@[a + b * u_len]
                }
            &&& final(vertices)@ == old(vertices)@ + tile_words(
                face_index as int,
                slice_block(face_index as int, slice as int, u as int, v as int),
                r.0 as int,
                r.1 as int,
                cell_shading(cell, gradients@),
            )
            &&& (r.0 as int, r.1 as int) == greedy_rect(old(mask)@, u_len as int, v_len as int, u as int, v as int)
            &&& final(mask)@ == cleared(old(mask)@, u_len as int, tile)
        }),
{
    let ghost m_in = mask@;
    let ghost fi = face_index as int;
    let axis = axis_of(f.normal);
    let u_axis = axis_of(f.tangent_u);
    let v_axis = axis_of(f.tangent_v);
    proof {
        lemma_face_axes(fi);
        lemma_mask_index(u as int, v as int, u_len as int, v_len as int);
        assert(0 <= v * u_len <= 48 * 48) by (nonlinear_arith)
            requires
                0 <= v < v_len <= 48,
                0 <= u_len <= 48,
        ;
    }
    let cell = mask[(u + v * u_len) as usize];
        let mergeable = matches!(cell, MaskCell::Mergeable { .. });
        let mut width: i32 = 1;
        proof {
            assert(v * u_len + u_len <= u_len * v_len) by (nonlinear_arith)
                requires
                    0 <= v < v_len,
                    0 <= u_len,
            ;
        }
        if mergeable {
            while u + width < u_len && mask[(u + width + v * u_len) as usize] == cell
                invariant
                    0 <= u < u_len <= 48,
                    0 <= v < v_len <= 48,
                    0 <= v * u_len <= 48 * 48,
                    v * u_len + u_len <= u_len * v_len,
                    1 <= width,
                    u + width <= u_len,
                    mask@.len() == u_len * v_len,
                    mask@ == m_in,
                    forall|j: int| 0 <= j < width ==> #[trigger] mask@[u + j + v * u_len] == cell,
                    run_width(m_in, u_len as int, u as int, v as int, cell, 1) == run_width(
                        m_in,
                        u_len as int,
                        u as int,
                        v as int,
                        cell,
                        width as int,
                    ),
                decreases u_len - u - width,
            {
                proof {
                    lemma_mask_index(u + width, v as int, u_len as int, v_len as int);
                }
                width = width + 1;
            }
        }
        proof {
            if mergeable {
                assert(run_width(m_in, u_len as int, u as int, v as int, cell, width as int) == width);
            }
        }
        let mut rows: i32 = 1;
        if mergeable {
            while v + rows < v_len && row_matches(mask, u, width, v + rows, u_len, v_len, cell)
                invariant
                    0 <= u < u_len <= 48,
                    0 <= v < v_len <= 48,
                    1 <= width,
                    u + width <= u_len,
                    1 <= rows,
                    v + rows <= v_len,
                    mask@.len() == u_len * v_len,
                    mask@ == m_in,
                    forall|r: int, j: int|
                        v <= r < v + rows && 0 <= j < width ==> #[trigger] mask@[u + j + r * u_len] == cell,
                    run_rows(m_in, u_len as int, v_len as int, u as int, v as int, width as int, cell, 1)
                        == run_rows(
                        m_in,
                        u_len as int,
                        v_len as int,
                        u as int,
                        v as int,
                        width as int,
                        cell,
                        rows as int,
                    ),
                decreases v_len - v - rows,
            {
                rows = rows + 1;
            }
        }
    proof {
        if mergeable {
            assert(run_rows(m_in, u_len as int, v_len as int, u as int, v as int, width as int, cell, rows as int)
                == rows);
        }
        assert(m_in[u + v * u_len] == cell);
        assert((width as int, rows as int) == greedy_rect(m_in, u_len as int, v_len as int, u as int, v as int));
    }
    let ghost start_mask = mask@;
    proof {
        assert forall|a: int, b: int| #[trigger] in_tile((u as int, v as int, width as int, rows as int), a, b)
            implies mask@[a + b * u_len] == cell by {
            if !mergeable {
                assert(a == u && b == v);
            } else {
                assert(mask@[u + (a - u) + b * u_len] == cell);
            }
        }
    }
        let ghost before_clear = mask@;
        let mut r: i32 = 0;
        while r < rows
            invariant
                0 <= u < u_len <= 48,
                0 <= v < v_len <= 48,
                1 <= width,
                u + width <= u_len,
                1 <= rows,
                v + rows <= v_len,
                0 <= r <= rows,
                mask@.len() == u_len * v_len,
                forall|a: int, b: int|
                    0 <= a < u_len && 0 <= b < v_len ==> #[trigger] mask@[a + b * u_len] == if u <= a
                        < u + width && v <= b < v + r {
                        MaskCell::Empty
                    } else {
                        before_clear[a + b * u_len]
                    },
            decreases rows - r,
        {
            let mut c: i32 = 0;
            while c < width
                invariant
                    0 <= u < u_len <= 48,
                    0 <= v < v_len <= 48,
                    1 <= width,
                    u + width <= u_len,
                    1 <= rows,
                    v + rows <= v_len,
                    0 <= r < rows,
                    0 <= c <= width,
                    mask@.len() == u_len * v_len,
                    forall|a: int, b: int|
                        0 <= a < u_len && 0 <= b < v_len ==> #[trigger] mask@[a + b * u_len] == if u
                            <= a < u + width && (v <= b < v + r || (b == v + r && a < u + c)) {
                            MaskCell::Empty
                        } else {
                            before_clear[a + b * u_len]
                        },
                decreases width - c,
            {
                proof {
                    lemma_mask_index(u + c, v + r, u_len as int, v_len as int);
                    assert(0 <= (v + r) * u_len <= 48 * 48) by (nonlinear_arith)
                        requires
                            0 <= v + r < v_len <= 48,
                            0 <= u_len <= 48,
                    ;
                }
                let index = (u + c + (v + r) * u_len) as usize;
                mask.set(index, MaskCell::Empty);
                proof {
                    assert forall|a: int, b: int| 0 <= a < u_len && 0 <= b < v_len implies #[trigger] mask@[a
                        + b * u_len] == if u <= a < u + width && (v <= b < v + r || (b == v + r && a
                        < u + c + 1)) {
                        MaskCell::Empty
                    } else {
                        before_clear[a + b * u_len]
                    } by {
                        lemma_mask_index(a, b, u_len as int, v_len as int);
                        if a + b * u_len == index as int {
                            lemma_mask_index_injective(a, b, u + c, v + r, u_len as int);
                        }
                    }
                }
                c = c + 1;
            }
            r = r + 1;
        }
        let origin = compose(axis, slice, u_axis, u, v_axis, v);
        proof {
            lemma_slice_block_bounds(fi, slice as int, u as int, v as int, height as int);
            assert((origin.x as int, origin.y as int, origin.z as int) == slice_block(fi, slice as int, u as int, v as int));
        }
        let sh = match cell {
            MaskCell::Mergeable { material, ao, light } => Shading {
                material,
                ao0: ao,
                light0: light,
                ao1: ao,
                light1: light,
                ao2: ao,
                light2: light,
                ao3: ao,
                light3: light,
            },
            MaskCell::Unique(i) => gradients[i],
            MaskCell::Empty => Shading {
                material: 0,
                ao0: 0,
                light0: 0,
                ao1: 0,
                light1: 0,
                ao2: 0,
                light2: 0,
                ao3: 0,
                light3: 0,
            },
        };
        assert(sh == cell_shading(cell, gradients@));
        emit_quad(vertices, f, face_index, origin, width, rows, sh);
    proof {
        assert forall|a: int, b: int|
            0 <= a < u_len && 0 <= b < v_len implies #[trigger] mask@[a + b * u_len] == if in_tile(
                (u as int, v as int, width as int, rows as int),
                a,
                b,
            ) {
                MaskCell::Empty
            } else {
                start_mask[a + b * u_len]
            } by {}
        lemma_cleared(
            start_mask,
            mask@,
            u_len as int,
            v_len as int,
            (u as int, v as int, width as int, rows as int),
        );
    }
    (width, rows)
}

/// Sweeps the mask of one slice, growing each rectangle as far right, then
/// as far down, as identical mergeable cells allow, and emits one quad per
/// rectangle. A face with a gradient gets a quad of its own.
#[verifier::rlimit(50)]
fn sweep(
    mask: &mut Vec<MaskCell>,
    gradients: &Vec<Shading>,
    f: &Face,
    face_index: usize,
    slice: i32,
    height: i32,
    u_len: i32,
    v_len: i32,
    vertices: &mut Vec<u32>,
) -> (r: (usize, Ghost<Seq<(int, int, int, int)>>))
    requires
        face_index < 6,
        *f == face_spec(face_index as int),
        0 <= height <= WORLD_HEIGHT,
        0 <= slice < extent(axis_index(f.normal), height as int),
        u_len == extent(axis_index(f.tangent_u), height as int),
        v_len == extent(axis_index(f.tangent_v), height as int),
        old(mask)@.len() == u_len * v_len,
        cells_ok(old(mask)@, gradients@, u_len as int, v_len as int),
    ensures
        final(mask)@.len() == old(mask)@.len(),
        r.0 == r.1@.len(),
        r.0 <= u_len * v_len,
        slice_tiled(old(mask)@, u_len as int, v_len as int, r.1@),
        r.1@ == greedy_tiles(old(mask)@, u_len as int, v_len as int, 0, 0),
        final(vertices)@ == old(vertices)@ + tiles_words(
            face_index as int,
            slice as int,
            r.1@,
            old(mask)@,
            gradients@,
            u_len as int,
            r.1@.len() as int,
        ),
{
    let ghost m0 = mask@;
    let ghost start = vertices@;
    let ghost fi = face_index as int;
    let axis = axis_of(f.normal);
    let u_axis = axis_of(f.tangent_u);
    let v_axis = axis_of(f.tangent_v);
    proof {
        lemma_face_axes(fi);
    }
    let ghost mut tiles: Seq<(int, int, int, int)> = Seq::empty();
    assert(Seq::<(int, int, int, int)>::empty() + greedy_tiles(m0, u_len as int, v_len as int, 0, 0)
        =~= greedy_tiles(m0, u_len as int, v_len as int, 0, 0));
    let ghost mut owner: spec_fn(int, int) -> int = |a: int, b: int| -1int;
    let mut quad_count: usize = 0;
    let mut v: i32 = 0;
    while v < v_len
        invariant
            face_index < 6,
            fi == face_index as int,
            *f == face_spec(fi),
            axis == axis_index(f.normal),
            u_axis == axis_index(f.tangent_u),
            v_axis == axis_index(f.tangent_v),
            axis != u_axis && axis != v_axis && u_axis != v_axis,
            axis < 3 && u_axis < 3 && v_axis < 3,
            0 <= height <= WORLD_HEIGHT,
            0 <= slice < extent(axis as int, height as int),
            u_len == extent(u_axis as int, height as int),
            v_len == extent(v_axis as int, height as int),
            0 <= v <= v_len,
            mask@.len() == m0.len(),
            m0.len() == u_len * v_len,
            cells_ok(m0, gradients@, u_len as int, v_len as int),
            quad_count == tiles.len(),
            quad_count <= v * u_len,
            forall|u2: int, v2: int|
                0 <= u2 < u_len && 0 <= v2 < v_len ==> #[trigger] mask@[u2 + v2 * u_len] == if owner(u2, v2)
                    >= 0 {
                    MaskCell::Empty
                } else {
                    m0[u2 + v2 * u_len]
                },
            forall|u2: int, v2: int|
                0 <= u2 < u_len && 0 <= v2 < v_len && #[trigger] owner(u2, v2) >= 0 ==> owner(u2, v2)
                    < tiles.len() && in_tile(tiles[owner(u2, v2)], u2, v2),
            forall|i: int, u2: int, v2: int|
                0 <= i < tiles.len() && #[trigger] in_tile(tiles[i], u2, v2) ==> owner(u2, v2) == i,
            forall|i: int| 0 <= i < tiles.len() ==> tile_ok(m0, u_len as int, v_len as int, #[trigger] tiles[i]),
            forall|u2: int, v2: int|
                0 <= u2 < u_len && 0 <= v2 < v && m0[u2 + v2 * u_len] != MaskCell::Empty ==> #[trigger] owner(
                    u2,
                    v2,
                ) >= 0,
            vertices@ == start + tiles_words(fi, slice as int, tiles, m0, gradients@, u_len as int, tiles.len() as int),
            tiles + greedy_tiles(mask@, u_len as int, v_len as int, 0, v as int) == greedy_tiles(
                m0,
                u_len as int,
                v_len as int,
                0,
                0,
            ),
        decreases v_len - v,
    {
        let mut u: i32 = 0;
        while u < u_len
            invariant
                face_index < 6,
                fi == face_index as int,
                *f == face_spec(fi),
                axis == axis_index(f.normal),
                u_axis == axis_index(f.tangent_u),
                v_axis == axis_index(f.tangent_v),
                axis != u_axis && axis != v_axis && u_axis != v_axis,
                axis < 3 && u_axis < 3 && v_axis < 3,
                0 <= height <= WORLD_HEIGHT,
                0 <= slice < extent(axis as int, height as int),
                u_len == extent(u_axis as int, height as int),
                v_len == extent(v_axis as int, height as int),
                0 <= v < v_len,
                0 <= u <= u_len,
                mask@.len() == m0.len(),
                m0.len() == u_len * v_len,
                cells_ok(m0, gradients@, u_len as int, v_len as int),
                quad_count == tiles.len(),
                quad_count <= v * u_len + u,
                forall|u2: int, v2: int|
                    0 <= u2 < u_len && 0 <= v2 < v_len ==> #[trigger] mask@[u2 + v2 * u_len] == if owner(
                        u2,
                        v2,
                    ) >= 0 {
                        MaskCell::Empty
                    } else {
                        m0[u2 + v2 * u_len]
                    },
                forall|u2: int, v2: int|
                    0 <= u2 < u_len && 0 <= v2 < v_len && #[trigger] owner(u2, v2) >= 0 ==> owner(u2, v2)
                        < tiles.len() && in_tile(tiles[owner(u2, v2)], u2, v2),
                forall|i: int, u2: int, v2: int|
                    0 <= i < tiles.len() && #[trigger] in_tile(tiles[i], u2, v2) ==> owner(u2, v2) == i,
                forall|i: int| 0 <= i < tiles.len() ==> tile_ok(m0, u_len as int, v_len as int, #[trigger] tiles[i]),
                forall|u2: int, v2: int|
                    0 <= u2 < u_len && 0 <= v2 < v_len && (v2 < v || (v2 == v && u2 < u)) && m0[u2 + v2
                        * u_len] != MaskCell::Empty ==> #[trigger] owner(u2, v2) >= 0,
                vertices@ == start + tiles_words(fi, slice as int, tiles, m0, gradients@, u_len as int, tiles.len() as int),
                tiles + greedy_tiles(mask@, u_len as int, v_len as int, u as int, v as int) == greedy_tiles(
                    m0,
                    u_len as int,
                    v_len as int,
                    0,
                    0,
                ),
            decreases u_len - u,
        {
            proof {
                lemma_mask_index(u as int, v as int, u_len as int, v_len as int);
                assert(0 <= v * u_len <= 48 * 48) by (nonlinear_arith)
                    requires
                        0 <= v < v_len <= 48,
                        0 <= u_len <= 48,
                ;
            }
            proof {
                lemma_mask_index(u as int, v as int, u_len as int, v_len as int);
                assert(0 <= v * u_len <= 48 * 48) by (nonlinear_arith)
                    requires
                        0 <= v < v_len <= 48,
                        0 <= u_len <= 48,
                ;
            }
            let cell = mask[(u + v * u_len) as usize];
            if cell == MaskCell::Empty {
                proof {
                    assert(greedy_tiles(mask@, u_len as int, v_len as int, u as int, v as int) == greedy_tiles(
                        mask@,
                        u_len as int,
                        v_len as int,
                        u + 1,
                        v as int,
                    ));
                }
                u = u + 1;
            } else {
                let ghost n = tiles.len() as int;
                let ghost before = mask@;
                proof {
                    assert(owner(u as int, v as int) < 0);
                    assert(m0[u + v * u_len] == cell);
                    assert(0 <= u + v * u_len < m0.len());
                }
                let (width, rows) = take_tile(
                    mask,
                    gradients,
                    f,
                    face_index,
                    slice,
                    height,
                    u_len,
                    v_len,
                    u,
                    v,
                    vertices,
                );
                let ghost tile = (u as int, v as int, width as int, rows as int);
                proof {
                    assert forall|a: int, b: int| #[trigger] in_tile(tile, a, b) implies owner(a, b) < 0
                        && m0[a + b * u_len] == cell by {
                        lemma_mask_index(a, b, u_len as int, v_len as int);
                        assert(before[a + b * u_len] == cell);
                    }
                    assert(tile_ok(m0, u_len as int, v_len as int, tile)) by {
                        assert(in_tile(tile, u as int, v as int));
                        assert forall|a: int, b: int| in_tile(tile, a, b) implies #[trigger] m0[a + b
                            * u_len] == m0[tile.0 + tile.1 * u_len] by {
                            assert(in_tile(tile, a, b));
                        }
                    }
                    lemma_tiles_words_prefix(fi, slice as int, tiles, tile, m0, gradients@, u_len as int, n);
                    assert(greedy_tiles(before, u_len as int, v_len as int, u as int, v as int) == seq![tile]
                        + greedy_tiles(cleared(before, u_len as int, tile), u_len as int, v_len as int, u + width, v as int));
                    assert(tiles.push(tile) + greedy_tiles(mask@, u_len as int, v_len as int, u + width, v as int)
                        =~= tiles + greedy_tiles(before, u_len as int, v_len as int, u as int, v as int));
                    let old_owner = owner;
                    tiles = tiles.push(tile);
                    owner = |a: int, b: int| if in_tile(tile, a, b) { n } else { old_owner(a, b) };
                    assert forall|i: int, u2: int, v2: int|
                        0 <= i < tiles.len() && #[trigger] in_tile(tiles[i], u2, v2) implies owner(u2, v2) == i by {
                        if i < n {
                            assert(old_owner(u2, v2) == i);
                            if in_tile(tile, u2, v2) {
                                assert(old_owner(u2, v2) < 0);
                            }
                        }
                    }
                    assert forall|i: int| 0 <= i < tiles.len() implies tile_ok(m0, u_len as int, v_len as int, #[trigger] tiles[i]) by {
                    }
                }
                quad_count = quad_count + 1;
                u = u + width;
            }
        }
        proof {
            assert(v * u_len + u_len == (v + 1) * u_len) by (nonlinear_arith);
            assert(greedy_tiles(mask@, u_len as int, v_len as int, u as int, v as int) == greedy_tiles(
                mask@,
                u_len as int,
                v_len as int,
                0,
                v + 1,
            ));
        }
        v = v + 1;
    }
    proof {
        assert(greedy_tiles(mask@, u_len as int, v_len as int, 0, v as int) =~= Seq::empty());
        assert(tiles + Seq::<(int, int, int, int)>::empty() =~= tiles);
        reveal(slice_tiled);
        assert(v * u_len == u_len * v_len) by (nonlinear_arith)
            requires
                v == v_len,
        ;
        assert forall|i: int, j: int, a: int, b: int|
            0 <= i < tiles.len() && 0 <= j < tiles.len() && i != j && #[trigger] in_tile(tiles[i], a, b)
                implies !#[trigger] in_tile(tiles[j], a, b) by {}
        assert forall|a: int, b: int|
            0 <= a < u_len && 0 <= b < v_len && #[trigger] m0[a + b * u_len] != MaskCell::Empty implies exists|i: int|
                0 <= i < tiles.len() && #[trigger] in_tile(tiles[i], a, b) by {
            assert(owner(a, b) >= 0);
            assert(in_tile(tiles[owner(a, b)], a, b));
        }
    }
    (quad_count, Ghost(tiles))
}


/// A quad of the greedy mesh: face, slice along the face's normal, and the
/// rectangle `u`, `v`, width, height it covers in that slice.
pub open spec fn tile_rect(t: (int, int, int, int, int, int)) -> (int, int, int, int) {
    (t.2, t.3, t.4, t.5)
}

/// The block at the corner of a greedy quad.
pub open spec fn tile_origin(t: (int, int, int, int, int, int)) -> (int, int, int) {
    slice_block(t.0, t.1, t.2, t.3)
}

/// A greedy quad covers only drawn faces of the chunk below `height`, all
/// shaded exactly like its corner block, and covers a single face when that
/// face's shading has a gradient.
pub open spec fn greedy_tile_ok(s: Surroundings, height: int, t: (int, int, int, int, int, int)) -> bool {
    let f = t.0;
    let face = face_spec(f);
    let o = tile_origin(t);
    &&& 0 <= f < 6
    &&& 0 <= t.1 < extent(axis_index(face.normal), height)
    &&& 1 <= t.4 && 1 <= t.5
    &&& 0 <= t.2 && t.2 + t.4 <= extent(axis_index(face.tangent_u), height)
    &&& 0 <= t.3 && t.3 + t.5 <= extent(axis_index(face.tangent_v), height)
    &&& (!is_uniform(shading(s, f, o.0, o.1, o.2)) ==> t.4 == 1 && t.5 == 1)
    &&& forall|u: int, v: int|
        #[trigger] in_tile(tile_rect(t), u, v) ==> {
            let p = slice_block(f, t.1, u, v);
            &&& visible(s, f, p.0, p.1, p.2)
            &&& shading(s, f, p.0, p.1, p.2) == shading(s, f, o.0, o.1, o.2)
        }
}

/// The words of the first `n` greedy quads.
pub open spec fn greedy_words(s: Surroundings, tiles: Seq<(int, int, int, int, int, int)>, n: int) -> Seq<
    u32,
>
    decreases n,
{
    if n <= 0 {
        Seq::empty()
    } else {
        let t = tiles[n - 1];
        let o = tile_origin(t);
        greedy_words(s, tiles, n - 1) + tile_words(t.0, o, t.4, t.5, shading(s, t.0, o.0, o.1, o.2))
    }
}

/// The greedy mesh of a chunk: quads that are each a rectangle of
/// identically shaded drawn faces, never overlap, and together cover every
/// drawn face of the chunk below `height`, each emitted as `tile_words`.
pub open spec fn greedy_mesh(s: Surroundings, height: int, mesh: ChunkMesh) -> bool {
    exists|tiles: Seq<(int, int, int, int, int, int)>| greedy_tiling(s, height, mesh, tiles)
}

/// `tiles` are the quads of `mesh`, in order, and tile the drawn faces.
pub open spec fn greedy_tiling(
    s: Surroundings,
    height: int,
    mesh: ChunkMesh,
    tiles: Seq<(int, int, int, int, int, int)>,
) -> bool {
        {
            &&& tiles.len() == mesh.quad_count
            &&& forall|i: int| 0 <= i < tiles.len() ==> greedy_tile_ok(s, height, #[trigger] tiles[i])
            &&& forall|i: int, j: int, u: int, v: int|
                0 <= i < tiles.len() && 0 <= j < tiles.len() && i != j && tiles[i].0 == tiles[j].0
                    && tiles[i].1 == tiles[j].1 && #[trigger] in_tile(tile_rect(tiles[i]), u, v)
                    ==> !#[trigger] in_tile(tile_rect(tiles[j]), u, v)
            &&& forall|f: int, slice: int, u: int, v: int|
                0 <= f < 6 && 0 <= slice < extent(axis_index(face_spec(f).normal), height) && 0 <= u
                    < extent(axis_index(face_spec(f).tangent_u), height) && 0 <= v < extent(
                    axis_index(face_spec(f).tangent_v),
                    height,
                ) && #[trigger] visible(
                    s,
                    f,
                    slice_block(f, slice, u, v).0,
                    slice_block(f, slice, u, v).1,
                    slice_block(f, slice, u, v).2,
                ) ==> exists|i: int|
                    0 <= i < tiles.len() && tiles[i].0 == f && tiles[i].1 == slice && #[trigger] in_tile(
                        tile_rect(tiles[i]),
                        u,
                        v,
                    )
            &&& mesh.vertices@ == greedy_words(s, tiles, tiles.len() as int)
        }
}

/// The tiles of a slice, tagged with their face and slice.
pub open spec fn tagged(f: int, slice: int, tiles: Seq<(int, int, int, int)>) -> Seq<(int, int, int, int, int, int)> {
    tiles.map_values(|t: (int, int, int, int)| (f, slice, t.0, t.1, t.2, t.3))
}

/// Appending quads keeps the words of the quads before them.
pub proof fn lemma_greedy_words_prefix(
    s: Surroundings,
    tiles: Seq<(int, int, int, int, int, int)>,
    more: Seq<(int, int, int, int, int, int)>,
    n: int,
)
    requires
        0 <= n <= tiles.len(),
    ensures
        greedy_words(s, tiles + more, n) == greedy_words(s, tiles, n),
    decreases n,
{
    if n > 0 {
        lemma_greedy_words_prefix(s, tiles, more, n - 1);
        assert((tiles + more)[n - 1] == tiles[n - 1]);
    }
}

/// The words of a slice's quads extend the words of the quads before them.
pub proof fn lemma_append_slice(
    s: Surroundings,
    tiles: Seq<(int, int, int, int, int, int)>,
    f: int,
    slice: int,
    slice_tiles: Seq<(int, int, int, int)>,
    mask: Seq<MaskCell>,
    gradients: Seq<Shading>,
    u_len: int,
    k: int,
)
    requires
        0 <= k <= slice_tiles.len(),
        forall|i: int|
            0 <= i < slice_tiles.len() ==> cell_shading(
                mask[(#[trigger] slice_tiles[i]).0 + slice_tiles[i].1 * u_len],
                gradients,
            ) == shading(
                s,
                f,
                slice_block(f, slice, slice_tiles[i].0, slice_tiles[i].1).0,
                slice_block(f, slice, slice_tiles[i].0, slice_tiles[i].1).1,
                slice_block(f, slice, slice_tiles[i].0, slice_tiles[i].1).2,
            ),
    ensures
        greedy_words(s, tiles + tagged(f, slice, slice_tiles), tiles.len() + k) == greedy_words(
            s,
            tiles,
            tiles.len() as int,
        ) + tiles_words(f, slice, slice_tiles, mask, gradients, u_len, k),
    decreases k,
{
    let all = tiles + tagged(f, slice, slice_tiles);
    if k == 0 {
        lemma_greedy_words_prefix(s, tiles, tagged(f, slice, slice_tiles), tiles.len() as int);
    } else {
        lemma_append_slice(s, tiles, f, slice, slice_tiles, mask, gradients, u_len, k - 1);
        let t = slice_tiles[k - 1];
        assert(all[tiles.len() + k - 1] == (f, slice, t.0, t.1, t.2, t.3));
        assert(greedy_words(s, tiles, tiles.len() as int) + tiles_words(
            f,
            slice,
            slice_tiles,
            mask,
            gradients,
            u_len,
            k,
        ) =~= greedy_words(s, tiles, tiles.len() as int) + tiles_words(
            f,
            slice,
            slice_tiles,
            mask,
            gradients,
            u_len,
            k - 1,
        ) + tile_words(
            f,
            slice_block(f, slice, t.0, t.1),
            t.2,
            t.3,
            cell_shading(mask[t.0 + t.1 * u_len], gradients),
        ));
    }
}


/// What the quads of one slice add to a greedy mesh built so far.
pub proof fn lemma_slice_tiles(
    s: Surroundings,
    height: int,
    tiles: Seq<(int, int, int, int, int, int)>,
    f: int,
    slice: int,
    u_len: int,
    v_len: int,
    mask: Seq<MaskCell>,
    gradients: Seq<Shading>,
    slice_tiles: Seq<(int, int, int, int)>,
)
    requires
        0 <= f < 6,
        0 <= height <= WORLD_HEIGHT,
        0 <= slice < extent(axis_index(face_spec(f).normal), height),
        u_len == extent(axis_index(face_spec(f).tangent_u), height),
        v_len == extent(axis_index(face_spec(f).tangent_v), height),
        mask_matches(s, f, slice, u_len, v_len, mask, gradients),
        forall|i: int| 0 <= i < slice_tiles.len() ==> tile_ok(mask, u_len, v_len, #[trigger] slice_tiles[i]),
    ensures
        forall|i: int|
            0 <= i < slice_tiles.len() ==> greedy_tile_ok(s, height, #[trigger] tagged(f, slice, slice_tiles)[i]),
        forall|i: int|
            0 <= i < slice_tiles.len() ==> cell_shading(
                mask[(#[trigger] slice_tiles[i]).0 + slice_tiles[i].1 * u_len],
                gradients,
            ) == shading(
                s,
                f,
                slice_block(f, slice, slice_tiles[i].0, slice_tiles[i].1).0,
                slice_block(f, slice, slice_tiles[i].0, slice_tiles[i].1).1,
                slice_block(f, slice, slice_tiles[i].0, slice_tiles[i].1).2,
            ),
{
    reveal(mask_matches);
    assert forall|i: int| 0 <= i < slice_tiles.len() implies greedy_tile_ok(
        s,
        height,
        #[trigger] tagged(f, slice, slice_tiles)[i],
    ) && cell_shading(mask[slice_tiles[i].0 + slice_tiles[i].1 * u_len], gradients) == shading(
        s,
        f,
        slice_block(f, slice, slice_tiles[i].0, slice_tiles[i].1).0,
        slice_block(f, slice, slice_tiles[i].0, slice_tiles[i].1).1,
        slice_block(f, slice, slice_tiles[i].0, slice_tiles[i].1).2,
    ) by {
        let t = slice_tiles[i];
        let g = tagged(f, slice, slice_tiles)[i];
        assert(g == (f, slice, t.0, t.1, t.2, t.3));
        assert(tile_ok(mask, u_len, v_len, t));
        let c = mask[t.0 + t.1 * u_len];
        assert(in_tile(t, t.0, t.1));
        assert forall|u: int, v: int| #[trigger] in_tile(tile_rect(g), u, v) implies {
            let p = slice_block(f, slice, u, v);
            let o = tile_origin(g);
            &&& visible(s, f, p.0, p.1, p.2)
            &&& shading(s, f, p.0, p.1, p.2) == shading(s, f, o.0, o.1, o.2)
        } by {
            assert(in_tile(t, u, v));
            assert(mask[u + v * u_len] == c);
            assert(mask[t.0 + t.1 * u_len] == c);
        }
    }
}

/// The quads of a slice, added to those of the slices before, are all
/// sound quads of slices swept so far.
pub proof fn lemma_extend_ok(
    s: Surroundings,
    height: int,
    old_tiles: Seq<(int, int, int, int, int, int)>,
    fi: int,
    sl: int,
    u_len: int,
    v_len: int,
    filled: Seq<MaskCell>,
    gradients: Seq<Shading>,
    st: Seq<(int, int, int, int)>,
)
    requires
        0 <= fi < 6,
        0 <= height <= WORLD_HEIGHT,
        0 <= sl < extent(axis_index(face_spec(fi).normal), height),
        u_len == extent(axis_index(face_spec(fi).tangent_u), height),
        v_len == extent(axis_index(face_spec(fi).tangent_v), height),
        mask_matches(s, fi, sl, u_len, v_len, filled, gradients),
        slice_tiled(filled, u_len, v_len, st),
        forall|i: int| 0 <= i < old_tiles.len() ==> greedy_tile_ok(s, height, #[trigger] old_tiles[i]),
        forall|i: int|
            0 <= i < old_tiles.len() ==> (#[trigger] old_tiles[i]).0 < fi || (old_tiles[i].0 == fi
                && old_tiles[i].1 < sl),
    ensures
        ({
            let tiles = old_tiles + tagged(fi, sl, st);
            &&& forall|i: int| 0 <= i < tiles.len() ==> greedy_tile_ok(s, height, #[trigger] tiles[i])
            &&& forall|i: int|
                0 <= i < tiles.len() ==> (#[trigger] tiles[i]).0 < fi || (tiles[i].0 == fi
                    && tiles[i].1 < sl + 1)
            &&& greedy_words(s, tiles, tiles.len() as int) == greedy_words(
                s,
                old_tiles,
                old_tiles.len() as int,
            ) + tiles_words(fi, sl, st, filled, gradients, u_len, st.len() as int)
        }),
{
    reveal(slice_tiled);
    lemma_slice_tiles(s, height, old_tiles, fi, sl, u_len, v_len, filled, gradients, st);
    lemma_append_slice(s, old_tiles, fi, sl, st, filled, gradients, u_len, st.len() as int);
    let new_tiles = tagged(fi, sl, st);
    let tiles = old_tiles + new_tiles;
    assert forall|i: int| 0 <= i < tiles.len() implies greedy_tile_ok(s, height, #[trigger] tiles[i])
        && (tiles[i].0 < fi || (tiles[i].0 == fi && tiles[i].1 < sl + 1)) by {
        if i >= old_tiles.len() {
            assert(tiles[i] == new_tiles[i - old_tiles.len()]);
        } else {
            assert(tiles[i] == old_tiles[i]);
        }
    }
}

/// The quads of a slice overlap neither each other nor the quads of the
/// slices before.
pub proof fn lemma_extend_disjoint(
    old_tiles: Seq<(int, int, int, int, int, int)>,
    fi: int,
    sl: int,
    filled: Seq<MaskCell>,
    u_len: int,
    v_len: int,
    st: Seq<(int, int, int, int)>,
)
    requires
        slice_tiled(filled, u_len, v_len, st),
        forall|i: int|
            0 <= i < old_tiles.len() ==> (#[trigger] old_tiles[i]).0 < fi || (old_tiles[i].0 == fi
                && old_tiles[i].1 < sl),
        forall|i: int, j: int, u: int, v: int|
            0 <= i < old_tiles.len() && 0 <= j < old_tiles.len() && i != j && old_tiles[i].0
                == old_tiles[j].0 && old_tiles[i].1 == old_tiles[j].1 && #[trigger] in_tile(
                tile_rect(old_tiles[i]),
                u,
                v,
            ) ==> !#[trigger] in_tile(tile_rect(old_tiles[j]), u, v),
    ensures
        ({
            let tiles = old_tiles + tagged(fi, sl, st);
            forall|i: int, j: int, u: int, v: int|
                0 <= i < tiles.len() && 0 <= j < tiles.len() && i != j && tiles[i].0 == tiles[j].0
                    && tiles[i].1 == tiles[j].1 && #[trigger] in_tile(tile_rect(tiles[i]), u, v)
                    ==> !#[trigger] in_tile(tile_rect(tiles[j]), u, v)
        }),
{
    reveal(slice_tiled);
    let new_tiles = tagged(fi, sl, st);
    let tiles = old_tiles + new_tiles;
    assert forall|i: int, j: int, u: int, v: int|
        0 <= i < tiles.len() && 0 <= j < tiles.len() && i != j && tiles[i].0 == tiles[j].0
            && tiles[i].1 == tiles[j].1 && #[trigger] in_tile(tile_rect(tiles[i]), u, v) implies !#[trigger] in_tile(
        tile_rect(tiles[j]),
        u,
        v,
    ) by {
        if i >= old_tiles.len() && j >= old_tiles.len() {
            let a = i - old_tiles.len();
            let b = j - old_tiles.len();
            assert(tiles[i] == new_tiles[a]);
            assert(tiles[j] == new_tiles[b]);
            assert(tile_rect(tiles[i]) == st[a]);
            assert(tile_rect(tiles[j]) == st[b]);
        } else if i >= old_tiles.len() {
            assert(tiles[i] == new_tiles[i - old_tiles.len()]);
            assert(tiles[j] == old_tiles[j]);
        } else if j >= old_tiles.len() {
            assert(tiles[j] == new_tiles[j - old_tiles.len()]);
            assert(tiles[i] == old_tiles[i]);
        } else {
            assert(tiles[i] == old_tiles[i]);
            assert(tiles[j] == old_tiles[j]);
        }
    }
}

/// A drawn face of a slice lies under one of the slice's tiles.
proof fn lemma_drawn_cell_tiled(
    s: Surroundings,
    fi: int,
    sl: int,
    u_len: int,
    v_len: int,
    filled: Seq<MaskCell>,
    gradients: Seq<Shading>,
    st: Seq<(int, int, int, int)>,
    u: int,
    v: int,
)
    requires
        mask_matches(s, fi, sl, u_len, v_len, filled, gradients),
        slice_tiled(filled, u_len, v_len, st),
        0 <= u < u_len,
        0 <= v < v_len,
        visible(s, fi, slice_block(fi, sl, u, v).0, slice_block(fi, sl, u, v).1, slice_block(fi, sl, u, v).2),
    ensures
        exists|k: int| 0 <= k < st.len() && #[trigger] in_tile(st[k], u, v),
{
    reveal(slice_tiled);
    reveal(mask_matches);
    lemma_mask_index(u, v, u_len, v_len);
    assert(filled[u + v * u_len] != MaskCell::Empty);
}

/// With a slice's quads added, every drawn face of that slice and of the
/// slices before is covered.
#[verifier::rlimit(40)]
pub proof fn lemma_extend_covers(
    s: Surroundings,
    height: int,
    old_tiles: Seq<(int, int, int, int, int, int)>,
    fi: int,
    sl: int,
    u_len: int,
    v_len: int,
    filled: Seq<MaskCell>,
    gradients: Seq<Shading>,
    st: Seq<(int, int, int, int)>,
)
    requires
        0 <= fi < 6,
        u_len == extent(axis_index(face_spec(fi).tangent_u), height),
        v_len == extent(axis_index(face_spec(fi).tangent_v), height),
        mask_matches(s, fi, sl, u_len, v_len, filled, gradients),
        slice_tiled(filled, u_len, v_len, st),
        forall|f2: int, slice2: int, u: int, v: int|
            0 <= f2 < 6 && (f2 < fi || (f2 == fi && slice2 < sl)) && 0 <= slice2 < extent(
                axis_index(face_spec(f2).normal),
                height,
            ) && 0 <= u < extent(axis_index(face_spec(f2).tangent_u), height) && 0 <= v < extent(
                axis_index(face_spec(f2).tangent_v),
                height,
            ) && #[trigger] visible(
                s,
                f2,
                slice_block(f2, slice2, u, v).0,
                slice_block(f2, slice2, u, v).1,
                slice_block(f2, slice2, u, v).2,
            ) ==> exists|i: int|
                0 <= i < old_tiles.len() && old_tiles[i].0 == f2 && old_tiles[i].1 == slice2
                    && #[trigger] in_tile(tile_rect(old_tiles[i]), u, v),
    ensures
        ({
            let tiles = old_tiles + tagged(fi, sl, st);
            forall|f2: int, slice2: int, u: int, v: int|
                0 <= f2 < 6 && (f2 < fi || (f2 == fi && slice2 < sl + 1)) && 0 <= slice2 < extent(
                    axis_index(face_spec(f2).normal),
                    height,
                ) && 0 <= u < extent(axis_index(face_spec(f2).tangent_u), height) && 0 <= v < extent(
                    axis_index(face_spec(f2).tangent_v),
                    height,
                ) && #[trigger] visible(
                    s,
                    f2,
                    slice_block(f2, slice2, u, v).0,
                    slice_block(f2, slice2, u, v).1,
                    slice_block(f2, slice2, u, v).2,
                ) ==> exists|i: int|
                    0 <= i < tiles.len() && tiles[i].0 == f2 && tiles[i].1 == slice2 && #[trigger] in_tile(
                        tile_rect(tiles[i]),
                        u,
                        v,
                    )
        }),
{
    let new_tiles = tagged(fi, sl, st);
    let tiles = old_tiles + new_tiles;
    assert forall|f2: int, slice2: int, u: int, v: int|
        0 <= f2 < 6 && (f2 < fi || (f2 == fi && slice2 < sl + 1)) && 0 <= slice2 < extent(
            axis_index(face_spec(f2).normal),
            height,
        ) && 0 <= u < extent(axis_index(face_spec(f2).tangent_u), height) && 0 <= v < extent(
            axis_index(face_spec(f2).tangent_v),
            height,
        ) && #[trigger] visible(
            s,
            f2,
            slice_block(f2, slice2, u, v).0,
            slice_block(f2, slice2, u, v).1,
            slice_block(f2, slice2, u, v).2,
        ) implies exists|i: int|
            0 <= i < tiles.len() && tiles[i].0 == f2 && tiles[i].1 == slice2 && #[trigger] in_tile(
                tile_rect(tiles[i]),
                u,
                v,
            ) by {
        if f2 == fi && slice2 == sl {
            lemma_drawn_cell_tiled(s, fi, sl, u_len, v_len, filled, gradients, st, u, v);
            let k = choose|k: int| 0 <= k < st.len() && #[trigger] in_tile(st[k], u, v);
            assert(tiles[old_tiles.len() + k] == new_tiles[k]);
            assert(in_tile(tile_rect(tiles[old_tiles.len() + k]), u, v));
        } else {
            let i = choose|i: int|
                0 <= i < old_tiles.len() && old_tiles[i].0 == f2 && old_tiles[i].1 == slice2
                    && #[trigger] in_tile(tile_rect(old_tiles[i]), u, v);
            assert(tiles[i] == old_tiles[i]);
        }
    }
}

/// The quads of every slice before slice `sl` of face `fi` (all slices of
/// the faces before it) form a greedy mesh of those slices.
pub open spec fn swept(
    s: Surroundings,
    height: int,
    tiles: Seq<(int, int, int, int, int, int)>,
    fi: int,
    sl: int,
) -> bool {
    &&& swept_sound(s, height, tiles)
    &&& swept_order(tiles, fi, sl)
    &&& swept_disjoint(tiles)
    &&& swept_covers(s, height, tiles, fi, sl)
}

#[verifier::opaque]
pub open spec fn swept_sound(s: Surroundings, height: int, tiles: Seq<(int, int, int, int, int, int)>) -> bool {
    forall|i: int| 0 <= i < tiles.len() ==> greedy_tile_ok(s, height, #[trigger] tiles[i])
}

#[verifier::opaque]
pub open spec fn swept_order(tiles: Seq<(int, int, int, int, int, int)>, fi: int, sl: int) -> bool {
    forall|i: int|
        0 <= i < tiles.len() ==> (#[trigger] tiles[i]).0 < fi || (tiles[i].0 == fi && tiles[i].1 < sl)
}

#[verifier::opaque]
pub open spec fn swept_disjoint(tiles: Seq<(int, int, int, int, int, int)>) -> bool {
    forall|i: int, j: int, u: int, v: int|
        0 <= i < tiles.len() && 0 <= j < tiles.len() && i != j && tiles[i].0 == tiles[j].0
            && tiles[i].1 == tiles[j].1 && #[trigger] in_tile(tile_rect(tiles[i]), u, v)
            ==> !#[trigger] in_tile(tile_rect(tiles[j]), u, v)
}

#[verifier::opaque]
pub open spec fn swept_covers(
    s: Surroundings,
    height: int,
    tiles: Seq<(int, int, int, int, int, int)>,
    fi: int,
    sl: int,
) -> bool {
    forall|f2: int, slice2: int, u: int, v: int|
        0 <= f2 < 6 && (f2 < fi || (f2 == fi && slice2 < sl)) && 0 <= slice2 < extent(
            axis_index(face_spec(f2).normal),
            height,
        ) && 0 <= u < extent(axis_index(face_spec(f2).tangent_u), height) && 0 <= v < extent(
            axis_index(face_spec(f2).tangent_v),
            height,
        ) && #[trigger] visible(
            s,
            f2,
            slice_block(f2, slice2, u, v).0,
            slice_block(f2, slice2, u, v).1,
            slice_block(f2, slice2, u, v).2,
        ) ==> exists|i: int|
            0 <= i < tiles.len() && tiles[i].0 == f2 && tiles[i].1 == slice2 && #[trigger] in_tile(
                tile_rect(tiles[i]),
                u,
                v,
            )
}

/// One more slice swept.
pub proof fn lemma_swept_slice(
    s: Surroundings,
    height: int,
    old_tiles: Seq<(int, int, int, int, int, int)>,
    fi: int,
    sl: int,
    u_len: int,
    v_len: int,
    filled: Seq<MaskCell>,
    gradients: Seq<Shading>,
    st: Seq<(int, int, int, int)>,
)
    requires
        0 <= fi < 6,
        0 <= height <= WORLD_HEIGHT,
        0 <= sl < extent(axis_index(face_spec(fi).normal), height),
        u_len == extent(axis_index(face_spec(fi).tangent_u), height),
        v_len == extent(axis_index(face_spec(fi).tangent_v), height),
        mask_matches(s, fi, sl, u_len, v_len, filled, gradients),
        slice_tiled(filled, u_len, v_len, st),
        swept(s, height, old_tiles, fi, sl),
    ensures
        swept(s, height, old_tiles + tagged(fi, sl, st), fi, sl + 1),
        greedy_words(s, old_tiles + tagged(fi, sl, st), (old_tiles.len() + st.len()) as int) == greedy_words(
            s,
            old_tiles,
            old_tiles.len() as int,
        ) + tiles_words(fi, sl, st, filled, gradients, u_len, st.len() as int),
{
    let tiles = old_tiles + tagged(fi, sl, st);
    reveal(slice_tiled);
    lemma_slice_tiles(s, height, old_tiles, fi, sl, u_len, v_len, filled, gradients, st);
    assert(swept_sound(s, height, tiles) && swept_order(tiles, fi, sl + 1)) by {
        reveal(swept_sound);
        reveal(swept_order);
        lemma_extend_ok(s, height, old_tiles, fi, sl, u_len, v_len, filled, gradients, st);
    }
    assert(swept_disjoint(tiles)) by {
        reveal(swept_disjoint);
        reveal(swept_order);
        lemma_extend_disjoint(old_tiles, fi, sl, filled, u_len, v_len, st);
    }
    assert(swept_covers(s, height, tiles, fi, sl + 1)) by {
        reveal(swept_covers);
        lemma_extend_covers(s, height, old_tiles, fi, sl, u_len, v_len, filled, gradients, st);
    }
    lemma_append_slice(s, old_tiles, fi, sl, st, filled, gradients, u_len, st.len() as int);
}

/// Sweeping every slice of a face is sweeping up to the next face.
pub proof fn lemma_swept_face(
    s: Surroundings,
    height: int,
    tiles: Seq<(int, int, int, int, int, int)>,
    fi: int,
)
    requires
        0 <= fi < 6,
        swept(s, height, tiles, fi, extent(axis_index(face_spec(fi).normal), height)),
    ensures
        swept(s, height, tiles, fi + 1, 0),
{
    reveal(swept_order);
    reveal(swept_covers);
    assert forall|i: int| 0 <= i < tiles.len() implies (#[trigger] tiles[i]).0 < fi + 1 || (tiles[i].0
        == fi + 1 && tiles[i].1 < 0) by {}
}

/// Nothing swept yet.
pub proof fn lemma_swept_start(s: Surroundings, height: int)
    ensures
        swept(s, height, Seq::empty(), 0, 0),
{
    reveal(swept_sound);
    reveal(swept_order);
    reveal(swept_disjoint);
    reveal(swept_covers);
}

/// Every slice of every face swept: a greedy mesh.
pub proof fn lemma_swept_all(
    s: Surroundings,
    height: int,
    tiles: Seq<(int, int, int, int, int, int)>,
    mesh: ChunkMesh,
)
    requires
        swept(s, height, tiles, 6, 0),
        tiles.len() == mesh.quad_count,
        mesh.vertices@ == greedy_words(s, tiles, tiles.len() as int),
    ensures
        greedy_mesh(s, height, mesh),
        greedy_tiling(s, height, mesh, tiles),
{
    reveal(swept_sound);
    reveal(swept_disjoint);
    reveal(swept_covers);
    assert(greedy_tiling(s, height, mesh, tiles));
}

impl World {
    /// Same faces as `build_chunk_mesh`, but coplanar faces that shade
    /// identically are merged into larger quads, slice by slice and face
    /// direction by face direction.
    ///
    /// Merging is deliberately restricted: only faces whose ambient
    /// occlusion and skylight are uniform across all four corners are
    /// eligible. A face carrying a gradient is emitted alone, because
    /// stretching it over a merged rectangle would smear that gradient
    /// across the whole run.
    #[verifier::rlimit(50)]
    pub fn build_chunk_mesh_greedy(&self, position: ChunkPosition) -> (mesh: ChunkMesh)
        requires
            self.wf(),
            has_neighbours(position),
        ensures
            greedy_mesh(self.surroundings(position), self.sources_height(position, 9), mesh),
            greedy_tiling(
                self.surroundings(position),
                self.sources_height(position, 9),
                mesh,
                greedy_sweep(self.surroundings(position), self.sources_height(position, 9)),
            ),
            mesh.vertices@.len() == 8 * mesh.quad_count,
            0 <= self.sources_height(position, 9) <= WORLD_HEIGHT,
    {
        let halo = self.build_halo(position);
        let ghost s = self.surroundings(position);
        let ghost height = halo.height as int;
        proof {
            lemma_halo_shows(*self, position, halo);
            lemma_swept_start(s, height);
        }
        let mut vertices: Vec<u32> = Vec::new();
        let mut quad_count: usize = 0;
        let ghost mut tiles: Seq<(int, int, int, int, int, int)> = Seq::empty();
        let mut face_index: usize = 0;
        while face_index < 6
            invariant
                halo.wf(),
                halo_shows(halo, s),
                height == halo.height,
                face_index <= 6,
                quad_count == tiles.len(),
                quad_count <= face_index * 48 * 2304,
                swept(s, height, tiles, face_index as int, 0),
                vertices@ == greedy_words(s, tiles, tiles.len() as int),
                vertices@.len() == 8 * quad_count,
                tiles == sweep_before(s, height, face_index as int, 0),
            decreases 6 - face_index,
        {
            let f = face(face_index);
            let axis = axis_of(f.normal);
            let u_axis = axis_of(f.tangent_u);
            let v_axis = axis_of(f.tangent_v);
            proof {
                lemma_face_axes(face_index as int);
            }
            let axis_len = axis_extent(axis, halo.height);
            let u_len = axis_extent(u_axis, halo.height);
            let v_len = axis_extent(v_axis, halo.height);
            proof {
                assert(0 <= u_len * v_len <= 2304) by (nonlinear_arith)
                    requires
                        0 <= u_len <= 48,
                        0 <= v_len <= 48,
                ;
            }
            let mut mask: Vec<MaskCell> = vec![MaskCell::Empty; (u_len * v_len) as usize];
            let mut gradients: Vec<Shading> = Vec::new();
            let mut slice: i32 = 0;
            while slice < axis_len
                invariant
                    halo.wf(),
                    halo_shows(halo, s),
                    height == halo.height,
                    face_index < 6,
                    f == face_spec(face_index as int),
                    axis == axis_index(f.normal),
                    u_axis == axis_index(f.tangent_u),
                    v_axis == axis_index(f.tangent_v),
                    axis_len == extent(axis as int, height),
                    u_len == extent(u_axis as int, height),
                    v_len == extent(v_axis as int, height),
                    0 <= u_len * v_len <= 2304,
                    0 <= axis_len <= 48,
                    0 <= slice <= axis_len,
                    mask@.len() == u_len * v_len,
                    quad_count == tiles.len(),
                    quad_count <= face_index * 48 * 2304 + slice * 2304,
                    swept(s, height, tiles, face_index as int, slice as int),
                    vertices@ == greedy_words(s, tiles, tiles.len() as int),
                    vertices@.len() == 8 * quad_count,
                    tiles == sweep_before(s, height, face_index as int, slice as int),
                decreases axis_len - slice,
            {
                gradients.clear();
                fill_mask(&halo, &f, face_index, slice, u_len, v_len, &mut mask, &mut gradients);
                let ghost filled = mask@;
                let (added, slice_tiles) = sweep(
                    &mut mask,
                    &gradients,
                    &f,
                    face_index,
                    slice,
                    halo.height,
                    u_len,
                    v_len,
                    &mut vertices,
                );
                proof {
                    let old_tiles = tiles;
                    lemma_swept_slice(
                        s,
                        height,
                        old_tiles,
                        face_index as int,
                        slice as int,
                        u_len as int,
                        v_len as int,
                        filled,
                        gradients@,
                        slice_tiles@,
                    );
                    lemma_tiles_words_len(
                        face_index as int,
                        slice as int,
                        slice_tiles@,
                        filled,
                        gradients@,
                        u_len as int,
                        slice_tiles@.len() as int,
                    );
                    lemma_mask_kinds(s, face_index as int, slice as int, height, filled, gradients@);
                    lemma_sweep_same_kinds(
                        filled,
                        crate::world::sweep::slice_mask(s, face_index as int, slice as int, height),
                        u_len as int,
                        v_len as int,
                        0,
                        0,
                    );
                    assert(slice_tiles@ == slice_sweep(s, face_index as int, slice as int, height));
                    tiles = old_tiles + tagged(face_index as int, slice as int, slice_tiles@);
                    assert(tiles == sweep_before(s, height, face_index as int, slice + 1));
                }
                quad_count = quad_count + added;
                slice = slice + 1;
            }
            proof {
                lemma_swept_face(s, height, tiles, face_index as int);
                assert(sweep_before(s, height, face_index + 1, 0) == sweep_before(
                    s,
                    height,
                    face_index as int,
                    axis_len as int,
                ));
            }
            face_index = face_index + 1;
        }
        let mesh = ChunkMesh { vertices, quad_count };
        proof {
            lemma_swept_all(s, height, tiles, mesh);
            assert(tiles == greedy_sweep(s, height));
        }
        mesh
    }
}


/// Component `axis` of a block position.
pub open spec fn coord(p: (int, int, int), axis: int) -> int {
    if axis == 0 {
        p.0
    } else if axis == 1 {
        p.1
    } else {
        p.2
    }
}

/// Where the block `p` sits among the slices of face `f`: slice, `u`, `v`.
pub open spec fn slice_coords(f: int, p: (int, int, int)) -> (int, int, int) {
    let face = face_spec(f);
    (coord(p, axis_index(face.normal)), coord(p, axis_index(face.tangent_u)), coord(p, axis_index(face.tangent_v)))
}

/// Whether quad `t` covers face `f` of block `p`.
pub open spec fn tile_covers(t: (int, int, int, int, int, int), f: int, p: (int, int, int)) -> bool {
    let c = slice_coords(f, p);
    t.0 == f && t.1 == c.0 && in_tile(tile_rect(t), c.1, c.2)
}

/// Slices and their coordinates undo each other.
pub proof fn lemma_slice_coords(f: int, p: (int, int, int), height: int)
    requires
        0 <= f < 6,
        0 <= p.0 < CHUNK_SIZE,
        0 <= p.1 < height,
        0 <= p.2 < CHUNK_SIZE,
    ensures
        ({
            let c = slice_coords(f, p);
            let face = face_spec(f);
            &&& slice_block(f, c.0, c.1, c.2) == p
            &&& 0 <= c.0 < extent(axis_index(face.normal), height)
            &&& 0 <= c.1 < extent(axis_index(face.tangent_u), height)
            &&& 0 <= c.2 < extent(axis_index(face.tangent_v), height)
        }),
{
    lemma_face_axes(f);
}

/// The greedy mesh covers exactly the faces the plain mesh draws: face `f`
/// of a block of the chunk below `height` lies under a greedy quad if and
/// only if it is a solid block's face towards an open cell, and then under
/// exactly one, shaded as that face is.
pub proof fn lemma_greedy_covers_drawn_faces(
    s: Surroundings,
    height: int,
    mesh: ChunkMesh,
    tiles: Seq<(int, int, int, int, int, int)>,
    f: int,
    p: (int, int, int),
)
    requires
        greedy_tiling(s, height, mesh, tiles),
        0 <= f < 6,
        0 <= p.0 < CHUNK_SIZE,
        0 <= p.1 < height,
        0 <= p.2 < CHUNK_SIZE,
    ensures
        visible(s, f, p.0, p.1, p.2) <==> exists|i: int| 0 <= i < tiles.len() && #[trigger] tile_covers(tiles[i], f, p),
        forall|i: int, j: int|
            0 <= i < tiles.len() && 0 <= j < tiles.len() && #[trigger] tile_covers(tiles[i], f, p)
                && #[trigger] tile_covers(tiles[j], f, p) ==> i == j,
        forall|i: int|
            0 <= i < tiles.len() && #[trigger] tile_covers(tiles[i], f, p) ==> shading(s, f, p.0, p.1, p.2)
                == shading(s, f, tile_origin(tiles[i]).0, tile_origin(tiles[i]).1, tile_origin(tiles[i]).2),
{
    lemma_slice_coords(f, p, height);
    let c = slice_coords(f, p);
    if visible(s, f, p.0, p.1, p.2) {
        assert(visible(
            s,
            f,
            slice_block(f, c.0, c.1, c.2).0,
            slice_block(f, c.0, c.1, c.2).1,
            slice_block(f, c.0, c.1, c.2).2,
        ));
        let i = choose|i: int|
            0 <= i < tiles.len() && tiles[i].0 == f && tiles[i].1 == c.0 && #[trigger] in_tile(
                tile_rect(tiles[i]),
                c.1,
                c.2,
            );
        assert(tile_covers(tiles[i], f, p));
    }
    assert forall|i: int| 0 <= i < tiles.len() && #[trigger] tile_covers(tiles[i], f, p) implies visible(
        s,
        f,
        p.0,
        p.1,
        p.2,
    ) && shading(s, f, p.0, p.1, p.2) == shading(
        s,
        f,
        tile_origin(tiles[i]).0,
        tile_origin(tiles[i]).1,
        tile_origin(tiles[i]).2,
    ) by {
        assert(greedy_tile_ok(s, height, tiles[i]));
        assert(in_tile(tile_rect(tiles[i]), c.1, c.2));
    }
    assert forall|i: int, j: int|
        0 <= i < tiles.len() && 0 <= j < tiles.len() && #[trigger] tile_covers(tiles[i], f, p)
            && #[trigger] tile_covers(tiles[j], f, p) implies i == j by {
        if i != j {
            assert(in_tile(tile_rect(tiles[i]), c.1, c.2));
        }
    }
}


/// A greedy quad of a single face draws exactly the plain mesh's quad for
/// that face.
pub proof fn lemma_single_tile_is_plain_quad(s: Surroundings, f: int, x: int, y: int, z: int)
    requires
        0 <= f < 6,
    ensures
        tile_words(f, (x, y, z), 1, 1, shading(s, f, x, y, z)) == quad_words(s, x, y, z, f),
{
    let face = face_spec(f);
    let ua = axis_index(face.tangent_u);
    let va = axis_index(face.tangent_v);
    assert forall|k: int| 0 <= k < 4 implies #[trigger] stretched((x, y, z), corner_of(face, k), ua, va, 1, 1)
        == (x + corner_of(face, k).x, y + corner_of(face, k).y, z + corner_of(face, k).z) by {
        let c = corner_of(face, k);
        lemma_stretched((x, y, z), c, ua, va, 1, 1);
        assert(c.x * 1 == c.x && c.y * 1 == c.y && c.z * 1 == c.z) by (nonlinear_arith);
    }
    assert(tile_words(f, (x, y, z), 1, 1, shading(s, f, x, y, z)) =~= quad_words(s, x, y, z, f));
}

} // verus!
