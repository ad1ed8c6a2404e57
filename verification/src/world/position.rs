//! Where things are: block coordinates, the chunk columns that hold them, and
//! the window of chunks kept loaded around the player.

use vstd::prelude::*;

verus! {

/// Width and depth of a chunk, in blocks.
pub const CHUNK_SIZE: i32 = 16;

/// Height of the world, in blocks.
pub const WORLD_HEIGHT: i32 = 48;

/// Chunks loaded on each side of the one the player stands in.
pub const RENDER_DISTANCE: i32 = 3;

/// A block cell in world coordinates.
#[derive(Clone, Copy, Debug, PartialEq, Eq, Structural, Hash)]
pub struct BlockPos {
    pub x: i32,
    pub y: i32,
    pub z: i32,
}

/// The column of chunks at `x * CHUNK_SIZE`, `z * CHUNK_SIZE`.
#[derive(Clone, Copy, Debug, PartialEq, Eq, Structural, Hash)]
pub struct ChunkPosition {
    pub x: i32,
    pub z: i32,
}

/// The chunk column holding world column `x`, `z`.
pub open spec fn chunk_of(x: int, z: int) -> ChunkPosition {
    ChunkPosition { x: (x / CHUNK_SIZE as int) as i32, z: (z / CHUNK_SIZE as int) as i32 }
}

/// A block's coordinates inside its chunk: `x` and `z` in `0..CHUNK_SIZE`,
/// `y` unchanged.
pub open spec fn local_of(p: BlockPos) -> (int, int, int) {
    (p.x as int % CHUNK_SIZE as int, p.y as int, p.z as int % CHUNK_SIZE as int)
}

/// Whether a chunk lies within `RENDER_DISTANCE` of `center` on both axes.
pub open spec fn in_window(center: ChunkPosition, p: ChunkPosition) -> bool {
    &&& center.x - RENDER_DISTANCE <= p.x <= center.x + RENDER_DISTANCE
    &&& center.z - RENDER_DISTANCE <= p.z <= center.z + RENDER_DISTANCE
}

/// The key a chunk is stored under: both coordinates' bits side by side.
pub open spec fn chunk_key(p: ChunkPosition) -> u64 {
    ((p.x as u32 as u64) << 32u64) | (p.z as u32 as u64)
}

/// Distinct chunks have distinct keys.
pub proof fn lemma_chunk_key_injective(a: ChunkPosition, b: ChunkPosition)
    ensures
        chunk_key(a) == chunk_key(b) ==> a == b,
{
    let (ax, az, bx, bz) = (a.x, a.z, b.x, b.z);
    assert(((ax as u32 as u64) << 32u64) | (az as u32 as u64) == ((bx as u32 as u64) << 32u64) | (
    bz as u32 as u64) ==> ax == bx && az == bz) by (bit_vector);
}

impl ChunkPosition {
    /// The chunk column holding world column `x`, `z`.
    pub fn from_world(x: i32, z: i32) -> (r: ChunkPosition)
        ensures
            r == chunk_of(x as int, z as int),
            -0x800_0000 <= r.x < 0x800_0000,
            -0x800_0000 <= r.z < 0x800_0000,
    {
        let cx = match x.checked_div_euclid(CHUNK_SIZE) {
            Some(q) => q,
            None => 0,
        };
        let cz = match z.checked_div_euclid(CHUNK_SIZE) {
            Some(q) => q,
            None => 0,
        };
        ChunkPosition { x: cx, z: cz }
    }

    /// The key this chunk is stored under.
    pub fn key(&self) -> (k: u64)
        ensures
            k == chunk_key(*self),
    {
        ((self.x as u32 as u64) << 32u64) | (self.z as u32 as u64)
    }
}

/// `a` modulo `CHUNK_SIZE`, always in `0..CHUNK_SIZE`.
pub fn wrap_to_chunk(a: i32) -> (r: i32)
    ensures
        r == a as int % CHUNK_SIZE as int,
        0 <= r < CHUNK_SIZE,
{
    match a.checked_rem_euclid(CHUNK_SIZE) {
        Some(m) => m,
        None => 0,
    }
}

/// The block's coordinates inside its chunk.
pub fn local_position(world: BlockPos) -> (r: BlockPos)
    ensures
        (r.x as int, r.y as int, r.z as int) == local_of(world),
        0 <= r.x < CHUNK_SIZE,
        0 <= r.z < CHUNK_SIZE,
{
    BlockPos { x: wrap_to_chunk(world.x), y: world.y, z: wrap_to_chunk(world.z) }
}

/// Chunk centres whose window the arithmetic below can walk without
/// overflow: every column a world coordinate can name.
pub open spec fn window_center_ok(center: ChunkPosition) -> bool {
    &&& -0x800_0000 <= center.x < 0x800_0000
    &&& -0x800_0000 <= center.z < 0x800_0000
}

/// The `i`-th chunk of the window around `center`, row by row from the
/// corner at `-RENDER_DISTANCE`, `-RENDER_DISTANCE`.
pub open spec fn window_at(center: ChunkPosition, i: int) -> ChunkPosition {
    ChunkPosition {
        x: (center.x + i % 7 - RENDER_DISTANCE) as i32,
        z: (center.z + i / 7 - RENDER_DISTANCE) as i32,
    }
}

/// The number of chunks in a window.
pub const WINDOW_CHUNKS: usize = 49;

/// Every chunk within `RENDER_DISTANCE` of `center`, once each, row by row.
pub fn chunk_positions_around(center: ChunkPosition) -> (positions: Vec<ChunkPosition>)
    requires
        window_center_ok(center),
    ensures
        positions@.len() == WINDOW_CHUNKS,
        forall|i: int| 0 <= i < WINDOW_CHUNKS ==> #[trigger] positions@[i] == window_at(center, i),
        forall|p: ChunkPosition|
            in_window(center, p) <==> exists|i: int|
                0 <= i < WINDOW_CHUNKS && #[trigger] positions@[i] == p,
        forall|i: int, j: int|
            0 <= i < j < WINDOW_CHUNKS ==> #[trigger] positions@[i] != #[trigger] positions@[j],
{
    let mut positions: Vec<ChunkPosition> = Vec::new();
    let mut dz: i32 = -RENDER_DISTANCE;
    while dz <= RENDER_DISTANCE
        invariant
            window_center_ok(center),
            -RENDER_DISTANCE <= dz <= RENDER_DISTANCE + 1,
            positions@.len() == (dz + RENDER_DISTANCE) * 7,
            forall|i: int| 0 <= i < positions@.len() ==> #[trigger] positions@[i] == window_at(center, i),
        decreases RENDER_DISTANCE + 1 - dz,
    {
        let mut dx: i32 = -RENDER_DISTANCE;
        while dx <= RENDER_DISTANCE
            invariant
                window_center_ok(center),
                -RENDER_DISTANCE <= dz <= RENDER_DISTANCE,
                -RENDER_DISTANCE <= dx <= RENDER_DISTANCE + 1,
                positions@.len() == (dz + RENDER_DISTANCE) * 7 + dx + RENDER_DISTANCE,
                forall|i: int| 0 <= i < positions@.len() ==> #[trigger] positions@[i] == window_at(center, i),
            decreases RENDER_DISTANCE + 1 - dx,
        {
            let ghost n = positions@.len() as int;
            positions.push(ChunkPosition { x: center.x + dx, z: center.z + dz });
            proof {
                assert(n % 7 == dx + RENDER_DISTANCE);
                assert(n / 7 == dz + RENDER_DISTANCE);
            }
            dx = dx + 1;
        }
        dz = dz + 1;
    }
    proof {
        assert forall|p: ChunkPosition| in_window(center, p) implies exists|i: int|
            0 <= i < WINDOW_CHUNKS && #[trigger] positions@[i] == p by {
            let i = (p.z - center.z + RENDER_DISTANCE) * 7 + (p.x - center.x + RENDER_DISTANCE);
            assert(i % 7 == p.x - center.x + RENDER_DISTANCE);
            assert(i / 7 == p.z - center.z + RENDER_DISTANCE);
            assert(positions@[i] == p);
        }
        assert forall|i: int, j: int| 0 <= i < j < WINDOW_CHUNKS implies #[trigger] positions@[i]
            != #[trigger] positions@[j] by {
            assert(positions@[i] == window_at(center, i));
            assert(positions@[j] == window_at(center, j));
        }
    }
    positions
}


/// Squared distance between two chunks, counted in chunks.
pub open spec fn distance2(center: ChunkPosition, p: ChunkPosition) -> int {
    (p.x - center.x) * (p.x - center.x) + (p.z - center.z) * (p.z - center.z)
}

/// Where a chunk of the window around `center` sits in window order.
pub open spec fn window_index(center: ChunkPosition, p: ChunkPosition) -> int {
    (p.z - center.z + RENDER_DISTANCE) * 7 + (p.x - center.x + RENDER_DISTANCE)
}

/// Window order and window index undo each other.
pub proof fn lemma_window_index(center: ChunkPosition, p: ChunkPosition)
    requires
        window_center_ok(center),
        in_window(center, p),
    ensures
        0 <= window_index(center, p) < WINDOW_CHUNKS,
        window_at(center, window_index(center, p)) == p,
        0 <= distance2(center, p) <= 18,
{
    let a = p.x - center.x + 3;
    let b = p.z - center.z + 3;
    assert((b * 7 + a) % 7 == a && (b * 7 + a) / 7 == b && 0 <= b * 7 + a < 49) by (nonlinear_arith)
        requires
            0 <= a < 7,
            0 <= b < 7,
    ;
    let dx = p.x - center.x;
    let dz = p.z - center.z;
    assert(0 <= dx * dx + dz * dz <= 18) by (nonlinear_arith)
        requires
            -3 <= dx <= 3,
            -3 <= dz <= 3,
    ;
}

/// The `i`-th chunk of a window lies in it, at index `i`.
pub proof fn lemma_window_at(center: ChunkPosition, i: int)
    requires
        window_center_ok(center),
        0 <= i < WINDOW_CHUNKS,
    ensures
        in_window(center, window_at(center, i)),
        window_index(center, window_at(center, i)) == i,
{
    assert(0 <= i % 7 < 7 && 0 <= i / 7 < 7 && i == (i / 7) * 7 + i % 7) by (nonlinear_arith)
        requires
            0 <= i < 49,
    ;
}

} // verus!
