//! Chunks are windows on one world: a chunk generated from the surface
//! heights of a terrain holds, cell for cell, the blocks of the world that
//! terrain describes, trees that spill over its borders included.

use vstd::prelude::*;

use crate::world::block::Block;
use crate::world::chunk::{
    canopy_before, canopy_cell, column_x, column_z, generated, height_index, in_chunk,
    lemma_height_index, lemma_height_index_column, planted, tree_canopy, tree_of, world_coord,
    HEIGHT_CELLS,
};
use crate::world::position::{ChunkPosition, CHUNK_SIZE};
use crate::world::terrain::{surface, tree_height};

verus! {

/// Whether the tree growing on world column `cx`, `cz`, if there is one, has
/// leaves at world cell `x`, `y`, `z`.
pub open spec fn column_canopy(
    terrain: spec_fn(int, int) -> i32,
    seed: u32,
    cx: int,
    cz: int,
    x: int,
    y: int,
    z: int,
) -> bool {
    let ground = terrain(cx, cz) as int;
    match tree_height(seed, ground, cx as i32, cz as i32) {
        Some(trunk) => canopy_cell(cx, cz, ground + 1 + trunk, x, y, z),
        None => false,
    }
}

/// The block at world cell `x`, `y`, `z` of the world whose surface height
/// on each column is `terrain`: the ground, then the column's own trunk,
/// then the leaves of any tree reaching the cell, then air.
pub open spec fn world_block(terrain: spec_fn(int, int) -> i32, seed: u32, x: int, y: int, z: int) -> Block {
    let ground = terrain(x, z) as int;
    if y <= ground {
        surface(ground, y)
    } else if (tree_height(seed, ground, x as i32, z as i32) matches Some(trunk) && y < ground + 1
        + trunk) {
        Block::Wood
    } else if exists|cx: int, cz: int| #[trigger] column_canopy(terrain, seed, cx, cz, x, y, z) {
        Block::Leaves
    } else {
        Block::Air
    }
}

/// The height map of chunk `position`, read off `terrain`.
pub open spec fn heights_from(terrain: spec_fn(int, int) -> i32, position: ChunkPosition) -> Seq<i32> {
    Seq::new(
        HEIGHT_CELLS as nat,
        |k: int|
            terrain(
                position.x * CHUNK_SIZE + column_x(k),
                position.z * CHUNK_SIZE + column_z(k),
            ),
    )
}

/// The world coordinates of the columns a chunk reads stay on 32 bits.
pub open spec fn columns_fit(position: ChunkPosition) -> bool {
    &&& i32::MIN <= position.x * CHUNK_SIZE - 3
    &&& position.x * CHUNK_SIZE + 19 <= i32::MAX
    &&& i32::MIN <= position.z * CHUNK_SIZE - 3
    &&& position.z * CHUNK_SIZE + 19 <= i32::MAX
}

proof fn lemma_canopy_before(
    position: ChunkPosition,
    heights: Seq<i32>,
    seed: u32,
    k: int,
    x: int,
    y: int,
    z: int,
)
    ensures
        canopy_before(position, heights, seed, k, x, y, z) <==> exists|j: int|
            0 <= j < k && #[trigger] tree_canopy(position, heights, seed, j, x, y, z),
    decreases k,
{
    if k > 0 {
        lemma_canopy_before(position, heights, seed, k - 1, x, y, z);
        if canopy_before(position, heights, seed, k, x, y, z) {
            if tree_canopy(position, heights, seed, k - 1, x, y, z) {
                assert(0 <= k - 1 < k);
            } else {
                let j = choose|j: int|
                    0 <= j < k - 1 && #[trigger] tree_canopy(position, heights, seed, j, x, y, z);
                assert(0 <= j < k);
            }
        }
    }
}

/// Entry `k` of a chunk's height map is the tree of the world column it
/// stands for.
proof fn lemma_entry_tree(terrain: spec_fn(int, int) -> i32, seed: u32, position: ChunkPosition, k: int)
    requires
        0 <= k < HEIGHT_CELLS,
        columns_fit(position),
    ensures
        ({
            let cx = position.x * CHUNK_SIZE + column_x(k);
            let cz = position.z * CHUNK_SIZE + column_z(k);
            let heights = heights_from(terrain, position);
            &&& heights[k] == terrain(cx, cz)
            &&& world_coord(position.x, column_x(k)) == cx as i32
            &&& world_coord(position.z, column_z(k)) == cz as i32
            &&& tree_of(position, heights, seed, k) == tree_height(seed, terrain(cx, cz) as int, cx as i32, cz as i32)
        }),
{
    lemma_height_index(k);
}

/// The canopy a height map entry carries is the canopy of its world column,
/// moved into chunk coordinates.
proof fn lemma_entry_canopy(
    terrain: spec_fn(int, int) -> i32,
    seed: u32,
    position: ChunkPosition,
    k: int,
    x: int,
    y: int,
    z: int,
)
    requires
        0 <= k < HEIGHT_CELLS,
        columns_fit(position),
    ensures
        tree_canopy(position, heights_from(terrain, position), seed, k, x, y, z) == column_canopy(
            terrain,
            seed,
            position.x * CHUNK_SIZE + column_x(k),
            position.z * CHUNK_SIZE + column_z(k),
            position.x * CHUNK_SIZE + x,
            y,
            position.z * CHUNK_SIZE + z,
        ),
{
    lemma_entry_tree(terrain, seed, position, k);
}

/// A chunk generated from the surface heights of `terrain` holds, at each of
/// its cells, the block that cell has in the world `terrain` describes:
/// terrain, trunks and leaves alike, whichever chunk a tree is rooted in.
pub proof fn lemma_chunk_is_a_window_on_the_world(
    terrain: spec_fn(int, int) -> i32,
    seed: u32,
    position: ChunkPosition,
    x: int,
    y: int,
    z: int,
)
    requires
        in_chunk(x, y, z),
        columns_fit(position),
    ensures
        generated(position, heights_from(terrain, position), seed, x, y, z) == world_block(
            terrain,
            seed,
            position.x * CHUNK_SIZE + x,
            y,
            position.z * CHUNK_SIZE + z,
        ),
{
    let heights = heights_from(terrain, position);
    let wx = position.x * CHUNK_SIZE + x;
    let wz = position.z * CHUNK_SIZE + z;
    let own = height_index(x, z);
    lemma_height_index_column(x, z);
    lemma_entry_tree(terrain, seed, position, own);
    assert(heights[own] == terrain(wx, wz));
    assert(tree_of(position, heights, seed, own) == tree_height(seed, terrain(wx, wz) as int, wx as i32, wz as i32));

    lemma_canopy_before(position, heights, seed, HEIGHT_CELLS as int, x, y, z);
    let leaves_here = canopy_before(position, heights, seed, HEIGHT_CELLS as int, x, y, z);
    let leaves_there = exists|cx: int, cz: int| #[trigger] column_canopy(terrain, seed, cx, cz, wx, y, wz);
    if leaves_here {
        let j = choose|j: int|
            0 <= j < HEIGHT_CELLS && #[trigger] tree_canopy(position, heights, seed, j, x, y, z);
        lemma_entry_canopy(terrain, seed, position, j, x, y, z);
        assert(column_canopy(
            terrain,
            seed,
            position.x * CHUNK_SIZE + column_x(j),
            position.z * CHUNK_SIZE + column_z(j),
            wx,
            y,
            wz,
        ));
    }
    if leaves_there {
        let (cx, cz) = choose|cx: int, cz: int| #[trigger] column_canopy(terrain, seed, cx, cz, wx, y, wz);
        // A canopy reaches two columns from its trunk, well inside the margin.
        let ox = cx - position.x * CHUNK_SIZE;
        let oz = cz - position.z * CHUNK_SIZE;
        assert(-2 <= ox < CHUNK_SIZE + 2 && -2 <= oz < CHUNK_SIZE + 2);
        lemma_height_index_column(ox, oz);
        let k = height_index(ox, oz);
        lemma_entry_canopy(terrain, seed, position, k, x, y, z);
        assert(tree_canopy(position, heights, seed, k, x, y, z));
    }
    assert(leaves_here == leaves_there);
}

} // verus!
