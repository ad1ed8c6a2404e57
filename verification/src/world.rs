//! The block world: chunks generated from a seed and a terrain height map,
//! player edits that survive unloading, skylight, and the vertex meshes drawn
//! for each chunk.
//!
//! Terrain heights come from the noise field, which is floating-point work
//! done by the game: it asks [`World::load_chunks_around`] which chunks to
//! build, computes their height maps, and hands each one to
//! [`World::insert_chunk`].

pub mod block;
pub mod chunk;
pub mod mesh;
pub mod position;
pub mod quads;
pub mod seamless;
pub mod sweep;
pub mod terrain;

use std::collections::{HashMap, HashSet};

use vstd::prelude::*;

use crate::protocol::Edit;
use crate::world::block::{block_of_code, Block};
use crate::world::chunk::{
    block_in, cell, generated, in_chunk, layer_solid, lemma_above_top, lemma_cell,
    lemma_cell_injective, lemma_covered_exists, lemma_top_below, Chunk, CHUNK_VOLUME,
    HEIGHT_CELLS, MAX_SKYLIGHT,
};
use crate::world::mesh::{
    halo_block, halo_cell, halo_light, halo_shows, in_halo, lemma_halo_cell,
    lemma_halo_cell_injective, source_delta, span, span_of, Halo, Surroundings, HALO_VOLUME, PAD,
};
use crate::world::position::{
    chunk_key, chunk_of, chunk_positions_around, distance2, in_window, lemma_chunk_key_injective,
    lemma_window_at, lemma_window_index, local_of, local_position, window_at, window_center_ok,
    window_index, BlockPos, ChunkPosition, CHUNK_SIZE, RENDER_DISTANCE, WINDOW_CHUNKS,
    WORLD_HEIGHT,
};

verus! {

broadcast use vstd::std_specs::hash::group_hash_axioms;

/// Chunks generated per call to `load_chunks_around`. Sized so a frame never
/// spends more than a fraction of its budget on terrain generation.
pub const GENERATION_BUDGET: usize = 8;

/// Where a world position is stored inside its chunk.
pub open spec fn cell_of(p: BlockPos) -> int {
    cell(local_of(p).0, local_of(p).1, local_of(p).2)
}

/// Whether two chunks touch, diagonally included (a chunk touches itself).
pub open spec fn touching(a: ChunkPosition, b: ChunkPosition) -> bool {
    -1 <= a.x - b.x <= 1 && -1 <= a.z - b.z <= 1
}

pub struct World {
    chunks: HashMap<u64, Chunk>,
    /// Player edits grouped by chunk, each keyed by its cell in the chunk, so
    /// reloading a chunk does not look at every edit ever made.
    edits: HashMap<u64, HashMap<usize, Block>>,
    seed: u32,
    center: ChunkPosition,
    /// Chunks whose mesh is out of date.
    dirty: HashSet<u64>,
}

impl World {
    /// The world's bookkeeping holds together: each loaded chunk is well
    /// formed, stored under its own key and inside the window around the
    /// centre; dirty chunks are loaded; and every loaded chunk shows the
    /// edits recorded for it.
    pub closed spec fn wf(&self) -> bool {
        &&& window_center_ok(self.center)
        &&& forall|k: u64| #[trigger]
            self.chunks@.contains_key(k) ==> {
                let c = self.chunks@[k];
                &&& c.wf()
                &&& chunk_key(c.position) == k
                &&& in_window(self.center, c.position)
            }
        &&& forall|k: u64| #[trigger] self.dirty@.contains(k) ==> self.chunks@.contains_key(k)
        &&& forall|k: u64, i: usize| #[trigger]
            self.edits@.contains_key(k) && #[trigger] self.edits@[k]@.contains_key(i) ==> i
                < CHUNK_VOLUME
        &&& forall|k: u64, i: usize|
            self.chunks@.contains_key(k) && self.edits@.contains_key(k) && #[trigger] self.edits@[k]@.contains_key(
                i,
            ) ==> #[trigger] self.chunks@[k].blocks@[i as int] == self.edits@[k]@[i]
    }

    /// The seed the world was made with.
    pub closed spec fn seed_value(&self) -> u32 {
        self.seed
    }

    /// The chunk the loaded window is centred on.
    pub closed spec fn center(&self) -> ChunkPosition {
        self.center
    }

    /// Whether chunk `p` is loaded.
    pub closed spec fn loaded(&self, p: ChunkPosition) -> bool {
        self.chunks@.contains_key(chunk_key(p))
    }

    /// The block at `p`: air outside the world's height and in chunks that
    /// are not loaded.
    pub closed spec fn block_at(&self, p: BlockPos) -> Block {
        let c = chunk_of(p.x as int, p.z as int);
        if 0 <= p.y < WORLD_HEIGHT && self.loaded(c) {
            self.chunks@[chunk_key(c)].blocks@[cell_of(p)]
        } else {
            Block::Air
        }
    }

    /// The last block a player put at `p`, if any.
    pub closed spec fn edit_at(&self, p: BlockPos) -> Option<Block> {
        let k = chunk_key(chunk_of(p.x as int, p.z as int));
        if 0 <= p.y < WORLD_HEIGHT && self.edits@.contains_key(k) && self.edits@[k]@.contains_key(
            cell_of(p) as usize,
        ) {
            Some(self.edits@[k]@[cell_of(p) as usize])
        } else {
            None
        }
    }

    /// Whether chunk `p` needs a new mesh.
    pub closed spec fn is_dirty(&self, p: ChunkPosition) -> bool {
        self.dirty@.contains(chunk_key(p))
    }

    /// An empty world: nothing loaded, the window centred on the origin.
    pub fn new(seed: u32) -> (world: World)
        ensures
            world.wf(),
            world.seed_value() == seed,
            world.center() == (ChunkPosition { x: 0, z: 0 }),
            forall|p: ChunkPosition| !world.loaded(p),
            forall|p: BlockPos| world.edit_at(p) is None,
            forall|p: ChunkPosition| !world.is_dirty(p),
    {
        World {
            chunks: HashMap::new(),
            edits: HashMap::new(),
            seed,
            center: ChunkPosition { x: 0, z: 0 },
            dirty: HashSet::new(),
        }
    }

    pub fn seed(&self) -> (r: u32)
        ensures
            r == self.seed_value(),
    {
        self.seed
    }

    pub fn is_loaded(&self, position: ChunkPosition) -> (r: bool)
        ensures
            r == self.loaded(position),
    {
        self.chunks.contains_key(&position.key())
    }

    /// The block at `position`.
    pub fn get(&self, position: BlockPos) -> (r: Block)
        requires
            self.wf(),
        ensures
            r == self.block_at(position),
    {
        if position.y < 0 || position.y >= WORLD_HEIGHT {
            return Block::Air;
        }
        let chunk_position = ChunkPosition::from_world(position.x, position.z);
        match self.chunks.get(&chunk_position.key()) {
            Some(chunk) => {
                let local = local_position(position);
                proof {
                    lemma_cell(local.x as int, local.y as int, local.z as int);
                }
                chunk.get(local)
            },
            None => Block::Air,
        }
    }

    pub fn is_solid(&self, position: BlockPos) -> (r: bool)
        requires
            self.wf(),
        ensures
            r == (self.block_at(position) != Block::Air),
    {
        !matches!(self.get(position), Block::Air)
    }
}


impl World {
    /// Breaks the block at `cell`: it becomes air, as [`World::set`] writes
    /// it, and the block that was there comes back.
    pub fn break_at(&mut self, cell: BlockPos) -> (r: Block)
        requires
            old(self).wf(),
        ensures
            final(self).wf(),
            r == old(self).block_at(cell),
            r != Block::Air ==> set_applies(*old(self), cell) && final(self).block_at(cell) == Block::Air,
            final(self).seed_value() == old(self).seed_value(),
            final(self).center() == old(self).center(),
            forall|c: ChunkPosition| #[trigger] final(self).loaded(c) == old(self).loaded(c),
            forall|q: BlockPos| #[trigger]
                final(self).block_at(q) == if set_applies(*old(self), cell) && q == cell {
                    Block::Air
                } else {
                    old(self).block_at(q)
                },
            forall|q: BlockPos| #[trigger]
                final(self).edit_at(q) == if set_applies(*old(self), cell) && q == cell {
                    Some(Block::Air)
                } else {
                    old(self).edit_at(q)
                },
            forall|c: ChunkPosition| #[trigger]
                final(self).is_dirty(c) == (old(self).is_dirty(c) || (set_applies(*old(self), cell)
                    && remeshed_by(cell, c) && old(self).loaded(c))),
    {
        let block = self.get(cell);
        self.set(cell, Block::Air);
        block
    }
}

/// A cell that holds a block lies within the world's height, in a loaded
/// chunk: there a write takes effect.
pub proof fn lemma_solid_cell_is_writable(world: World, p: BlockPos)
    requires
        world.block_at(p) != Block::Air,
    ensures
        set_applies(world, p),
{
}

/// Whether [`World::set`] writes at `position`: within the world's height,
/// in a loaded chunk.
pub open spec fn set_applies(world: World, position: BlockPos) -> bool {
    0 <= position.y < WORLD_HEIGHT && world.loaded(chunk_of(position.x as int, position.z as int))
}

/// The cell an edit names.
pub open spec fn edited_cell(edit: Edit) -> BlockPos {
    BlockPos { x: edit.position[0], y: edit.position[1], z: edit.position[2] }
}

/// Whether an edit takes effect: it names a block, a cell within the
/// world's height, and a loaded chunk.
pub open spec fn edit_applies(world: World, edit: Edit) -> bool {
    &&& edit.block < 8
    &&& 0 <= edit.position[1] < WORLD_HEIGHT
    &&& world.loaded(chunk_of(edit.position[0] as int, edit.position[2] as int))
}

/// Applies an edit that arrived from elsewhere: one whose block number names
/// no block is ignored, the others are written as [`World::set`] writes them.
pub fn apply_edit(world: &mut World, edit: Edit)
    requires
        old(world).wf(),
    ensures
        final(world).wf(),
        final(world).seed_value() == old(world).seed_value(),
        final(world).center() == old(world).center(),
        forall|c: ChunkPosition| #[trigger] final(world).loaded(c) == old(world).loaded(c),
        forall|q: BlockPos| #[trigger]
            final(world).block_at(q) == if edit_applies(*old(world), edit) && q == edited_cell(edit) {
                block_of_code(edit.block)
            } else {
                old(world).block_at(q)
            },
        forall|q: BlockPos| #[trigger]
            final(world).edit_at(q) == if edit_applies(*old(world), edit) && q == edited_cell(edit) {
                Some(block_of_code(edit.block))
            } else {
                old(world).edit_at(q)
            },
        forall|c: ChunkPosition| #[trigger]
            final(world).is_dirty(c) == (old(world).is_dirty(c) || (edit_applies(*old(world), edit)
                && remeshed_by(edited_cell(edit), c) && old(world).loaded(c))),
{
    let block = match Block::from_u8(edit.block) {
        Some(block) => block,
        None => return,
    };
    world.set(BlockPos { x: edit.position[0], y: edit.position[1], z: edit.position[2] }, block);
}

/// The last of the first `n` edits that takes effect at `q` in `world`.
pub open spec fn last_edit_at(world: World, edits: Seq<Edit>, n: int, q: BlockPos) -> Option<Edit>
    decreases n,
{
    if n <= 0 {
        None
    } else if edit_applies(world, edits[n - 1]) && edited_cell(edits[n - 1]) == q {
        Some(edits[n - 1])
    } else {
        last_edit_at(world, edits, n - 1, q)
    }
}

/// Whether one of the first `n` edits takes effect in `world` and leaves
/// chunk `c` with an outdated mesh.
pub open spec fn remeshed_by_any(world: World, edits: Seq<Edit>, n: int, c: ChunkPosition) -> bool {
    exists|i: int|
        0 <= i < n && edit_applies(world, edits[i]) && #[trigger] remeshed_by(edited_cell(edits[i]), c)
}

/// Applies `edits` one after the other, each as [`apply_edit`] does: a cell
/// ends up holding the last edit that takes effect there.
pub fn apply_edits(world: &mut World, edits: &Vec<Edit>)
    requires
        old(world).wf(),
    ensures
        final(world).wf(),
        final(world).seed_value() == old(world).seed_value(),
        final(world).center() == old(world).center(),
        forall|c: ChunkPosition| #[trigger] final(world).loaded(c) == old(world).loaded(c),
        forall|q: BlockPos| #[trigger]
            final(world).block_at(q) == match last_edit_at(*old(world), edits@, edits@.len() as int, q) {
                Some(e) => block_of_code(e.block),
                None => old(world).block_at(q),
            },
        forall|q: BlockPos| #[trigger]
            final(world).edit_at(q) == match last_edit_at(*old(world), edits@, edits@.len() as int, q) {
                Some(e) => Some(block_of_code(e.block)),
                None => old(world).edit_at(q),
            },
        forall|c: ChunkPosition| #[trigger]
            final(world).is_dirty(c) == (old(world).is_dirty(c) || (old(world).loaded(c)
                && remeshed_by_any(*old(world), edits@, edits@.len() as int, c))),
{
    let ghost start = *world;
    let mut i: usize = 0;
    while i < edits.len()
        invariant
            world.wf(),
            i <= edits@.len(),
            world.seed_value() == start.seed_value(),
            world.center() == start.center(),
            forall|c: ChunkPosition| #[trigger] world.loaded(c) == start.loaded(c),
            forall|q: BlockPos| #[trigger]
                world.block_at(q) == match last_edit_at(start, edits@, i as int, q) {
                    Some(e) => block_of_code(e.block),
                    None => start.block_at(q),
                },
            forall|q: BlockPos| #[trigger]
                world.edit_at(q) == match last_edit_at(start, edits@, i as int, q) {
                    Some(e) => Some(block_of_code(e.block)),
                    None => start.edit_at(q),
                },
            forall|c: ChunkPosition| #[trigger]
                world.is_dirty(c) == (start.is_dirty(c) || (start.loaded(c) && remeshed_by_any(
                    start,
                    edits@,
                    i as int,
                    c,
                ))),
        decreases edits@.len() - i,
    {
        let edit = edits[i];
        let ghost before = *world;
        proof {
            let home = chunk_of(edit.position[0] as int, edit.position[2] as int);
            assert(before.loaded(home) == start.loaded(home));
            assert(edit_applies(before, edit) == edit_applies(start, edit));
        }
        apply_edit(world, edit);
        proof {
            assert forall|c: ChunkPosition| #[trigger]
                world.is_dirty(c) == (start.is_dirty(c) || (start.loaded(c) && remeshed_by_any(
                    start,
                    edits@,
                    i + 1,
                    c,
                ))) by {
                if remeshed_by_any(start, edits@, i + 1, c) && !remeshed_by_any(start, edits@, i as int, c) {
                    let j = choose|j: int|
                        0 <= j < i + 1 && edit_applies(start, edits@[j]) && #[trigger] remeshed_by(
                            edited_cell(edits@[j]),
                            c,
                        );
                    assert(j == i);
                }
                if edit_applies(start, edit) && remeshed_by(edited_cell(edit), c) {
                    assert(edits@[i as int] == edit);
                }
                if remeshed_by_any(start, edits@, i as int, c) {
                    let j = choose|j: int|
                        0 <= j < i && edit_applies(start, edits@[j]) && #[trigger] remeshed_by(
                            edited_cell(edits@[j]),
                            c,
                        );
                    assert(0 <= j < i + 1);
                }
                assert(before.loaded(c) == start.loaded(c));
            }
        }
        i = i + 1;
    }
}

/// A write at `p` outdates the mesh of every chunk whose meshing reads `p`:
/// its own columns and a one-block skirt around them, on every side alike.
/// It never outdates a chunk beyond the neighbours of `p`'s own.
pub proof fn lemma_remesh_covers_the_halo(p: BlockPos, c: ChunkPosition)
    ensures
        -1 <= p.x - CHUNK_SIZE * c.x <= CHUNK_SIZE && -1 <= p.z - CHUNK_SIZE * c.z <= CHUNK_SIZE
            ==> remeshed_by(p, c),
        remeshed_by(p, c) ==> -CHUNK_SIZE <= p.x - CHUNK_SIZE * c.x < 2 * CHUNK_SIZE && -CHUNK_SIZE
            <= p.z - CHUNK_SIZE * c.z < 2 * CHUNK_SIZE,
{
    let home = chunk_of(p.x as int, p.z as int);
    assert(CHUNK_SIZE * home.x <= p.x < CHUNK_SIZE * home.x + CHUNK_SIZE);
    assert(CHUNK_SIZE * home.z <= p.z < CHUNK_SIZE * home.z + CHUNK_SIZE);
    assert(local_of(p).0 == p.x - CHUNK_SIZE * home.x);
    assert(local_of(p).2 == p.z - CHUNK_SIZE * home.z);
}

/// Whether writing the block at `p` leaves chunk `c` with an outdated mesh:
/// its own chunk, and a neighbour when the block lies on the border the two
/// share (a border block also changes the ambient occlusion next door).
pub open spec fn remeshed_by(p: BlockPos, c: ChunkPosition) -> bool {
    let home = chunk_of(p.x as int, p.z as int);
    let (lx, ly, lz) = local_of(p);
    let dx = c.x - home.x;
    let dz = c.z - home.z;
    &&& -1 <= dx <= 1
    &&& -1 <= dz <= 1
    &&& ((dx == 0 && dz == 0) || (dx < 0 && lx == 0) || (dx > 0 && lx == CHUNK_SIZE - 1) || (dz < 0
        && lz == 0) || (dz > 0 && lz == CHUNK_SIZE - 1))
}

/// A world position is its chunk and its place in the chunk.
pub proof fn lemma_position_split(p: BlockPos, q: BlockPos)
    requires
        chunk_of(p.x as int, p.z as int) == chunk_of(q.x as int, q.z as int),
        local_of(p) == local_of(q),
    ensures
        p == q,
{
    let (px, pz, qx, qz) = (p.x as int, p.z as int, q.x as int, q.z as int);
    assert(px == (px / 16) * 16 + px % 16 && qx == (qx / 16) * 16 + qx % 16 && pz == (pz / 16) * 16
        + pz % 16 && qz == (qz / 16) * 16 + qz % 16) by (nonlinear_arith);
    assert((px / 16) as i32 == px / 16 && (qx / 16) as i32 == qx / 16 && (pz / 16) as i32 == pz / 16
        && (qz / 16) as i32 == qz / 16) by (nonlinear_arith)
        requires
            -0x8000_0000 <= px < 0x8000_0000,
            -0x8000_0000 <= qx < 0x8000_0000,
            -0x8000_0000 <= pz < 0x8000_0000,
            -0x8000_0000 <= qz < 0x8000_0000,
    ;
}

/// The cell of a position inside the world's height is a cell of its chunk.
pub proof fn lemma_cell_of(p: BlockPos)
    requires
        0 <= p.y < WORLD_HEIGHT,
    ensures
        in_chunk(local_of(p).0, local_of(p).1, local_of(p).2),
        0 <= cell_of(p) < CHUNK_VOLUME,
{
    lemma_cell(local_of(p).0, local_of(p).1, local_of(p).2);
}

/// Two positions of one chunk share a cell only if they are the same.
pub proof fn lemma_cell_of_injective(p: BlockPos, q: BlockPos)
    requires
        0 <= p.y < WORLD_HEIGHT,
        0 <= q.y < WORLD_HEIGHT,
        chunk_of(p.x as int, p.z as int) == chunk_of(q.x as int, q.z as int),
        cell_of(p) == cell_of(q),
    ensures
        p == q,
{
    lemma_cell_of(p);
    lemma_cell_of(q);
    lemma_cell_injective(
        local_of(p).0,
        local_of(p).1,
        local_of(p).2,
        local_of(q).0,
        local_of(q).1,
        local_of(q).2,
    );
    lemma_position_split(p, q);
}

impl World {
    /// Marks chunk `key`, which must be loaded, as needing a new mesh.
    fn mark_dirty(&mut self, position: ChunkPosition)
        requires
            old(self).wf(),
            old(self).loaded(position),
        ensures
            final(self).wf(),
            final(self).chunks == old(self).chunks,
            final(self).edits == old(self).edits,
            final(self).seed == old(self).seed,
            final(self).center == old(self).center,
            forall|c: ChunkPosition| #[trigger]
                final(self).is_dirty(c) == (old(self).is_dirty(c) || c == position),
    {
        self.dirty.insert(position.key());
        proof {
            assert forall|c: ChunkPosition| #[trigger]
                self.is_dirty(c) == (old(self).is_dirty(c) || c == position) by {
                lemma_chunk_key_injective(c, position);
            }
        }
    }

    /// Marks `position` and each loaded chunk around it as needing a new
    /// mesh: a new chunk and its neighbours both gain or lose border faces.
    fn mark_dirty_with_neighbours(&mut self, position: ChunkPosition)
        requires
            old(self).wf(),
            -0x8000_0000 < position.x < 0x7fff_ffff,
            -0x8000_0000 < position.z < 0x7fff_ffff,
        ensures
            final(self).wf(),
            final(self).chunks == old(self).chunks,
            final(self).edits == old(self).edits,
            final(self).seed == old(self).seed,
            final(self).center == old(self).center,
            forall|c: ChunkPosition| #[trigger]
                final(self).is_dirty(c) == (old(self).is_dirty(c) || (touching(c, position)
                    && old(self).loaded(c))),
    {
        let mut dz: i32 = -1;
        while dz <= 1
            invariant
                self.wf(),
                self.chunks == old(self).chunks,
                self.edits == old(self).edits,
                self.seed == old(self).seed,
                self.center == old(self).center,
                -0x8000_0000 < position.x < 0x7fff_ffff,
                -0x8000_0000 < position.z < 0x7fff_ffff,
                -1 <= dz <= 2,
                forall|c: ChunkPosition| #[trigger]
                    self.is_dirty(c) == (old(self).is_dirty(c) || (touching(c, position)
                        && c.z - position.z < dz && old(self).loaded(c))),
            decreases 2 - dz,
        {
            let mut dx: i32 = -1;
            while dx <= 1
                invariant
                    self.wf(),
                    self.chunks == old(self).chunks,
                    self.edits == old(self).edits,
                    self.seed == old(self).seed,
                    self.center == old(self).center,
                    -0x8000_0000 < position.x < 0x7fff_ffff,
                    -0x8000_0000 < position.z < 0x7fff_ffff,
                    -1 <= dz <= 1,
                    -1 <= dx <= 2,
                    forall|c: ChunkPosition| #[trigger]
                        self.is_dirty(c) == (old(self).is_dirty(c) || (touching(c, position) && (c.z
                            - position.z < dz || (c.z - position.z == dz && c.x - position.x < dx))
                            && old(self).loaded(c))),
                decreases 2 - dx,
            {
                let neighbour = ChunkPosition { x: position.x + dx, z: position.z + dz };
                if self.chunks.contains_key(&neighbour.key()) {
                    self.mark_dirty(neighbour);
                }
                dx = dx + 1;
            }
            dz = dz + 1;
        }
    }

    /// Writes `block` at `position` and records it as an edit, so it comes
    /// back when the chunk is generated again. Refused outside the world's
    /// height and in chunks that are not loaded.
    pub fn set(&mut self, position: BlockPos, block: Block) -> (r: bool)
        requires
            old(self).wf(),
        ensures
            final(self).wf(),
            r == (0 <= position.y < WORLD_HEIGHT && old(self).loaded(
                chunk_of(position.x as int, position.z as int),
            )),
            final(self).seed_value() == old(self).seed_value(),
            final(self).center() == old(self).center(),
            forall|c: ChunkPosition| #[trigger] final(self).loaded(c) == old(self).loaded(c),
            forall|q: BlockPos| #[trigger]
                final(self).block_at(q) == if r && q == position {
                    block
                } else {
                    old(self).block_at(q)
                },
            forall|q: BlockPos| #[trigger]
                final(self).edit_at(q) == if r && q == position {
                    Some(block)
                } else {
                    old(self).edit_at(q)
                },
            forall|c: ChunkPosition| #[trigger]
                final(self).is_dirty(c) == (old(self).is_dirty(c) || (r && remeshed_by(position, c)
                    && old(self).loaded(c))),
    {
        if position.y < 0 || position.y >= WORLD_HEIGHT {
            return false;
        }
        let chunk_position = ChunkPosition::from_world(position.x, position.z);
        let key = chunk_position.key();
        let mut chunk = match self.chunks.remove(&key) {
            Some(chunk) => chunk,
            None => {
                return false;
            },
        };
        let ghost old_world = *old(self);
        let ghost old_chunk = chunk;
        let local = local_position(position);
        proof {
            lemma_cell_of(position);
        }
        chunk.set(local, block);
        let slot: usize = (local.x + local.z * CHUNK_SIZE + local.y * CHUNK_SIZE * CHUNK_SIZE) as usize;
        let ghost index = cell_of(position);
        assert(slot == index);
        self.chunks.insert(key, chunk);
        let mut cells = match self.edits.remove(&key) {
            Some(cells) => cells,
            None => HashMap::new(),
        };
        let ghost old_cells = if old_world.edits@.contains_key(key) {
            old_world.edits@[key]@
        } else {
            Map::empty()
        };
        assert(cells@ == old_cells);
        cells.insert(slot, block);
        self.edits.insert(key, cells);
        proof {
            assert forall|k: u64| #[trigger] self.chunks@.contains_key(k) implies {
                let c = self.chunks@[k];
                &&& c.wf()
                &&& chunk_key(c.position) == k
                &&& in_window(self.center, c.position)
            } by {
                if k == key {
                    assert(old_world.chunks@.contains_key(k));
                }
            }
            assert forall|k: u64, i: usize| #[trigger]
                self.edits@.contains_key(k) && #[trigger] self.edits@[k]@.contains_key(i) implies i
                < CHUNK_VOLUME by {
                if k == key && i != index as usize {
                    assert(old_cells.contains_key(i));
                }
            }
            assert forall|k: u64, i: usize|
                self.chunks@.contains_key(k) && self.edits@.contains_key(k) && #[trigger] self.edits@[k]@.contains_key(
                    i,
                ) implies #[trigger] self.chunks@[k].blocks@[i as int] == self.edits@[k]@[i] by {
                if k == key && i != index as usize {
                    assert(old_cells.contains_key(i));
                    assert(old_world.edits@[k]@.contains_key(i));
                    assert(old_world.chunks@[k].blocks@[i as int] == old_world.edits@[k]@[i]);
                }
            }
            assert forall|k: u64| #[trigger] self.dirty@.contains(k) implies self.chunks@.contains_key(
                k,
            ) by {
                assert(old_world.chunks@.contains_key(k));
            }
            assert forall|q: BlockPos| #[trigger]
                self.block_at(q) == if q == position {
                    block
                } else {
                    old_world.block_at(q)
                } by {
                if 0 <= q.y < WORLD_HEIGHT && chunk_of(q.x as int, q.z as int) == chunk_position {
                    lemma_cell_of(q);
                    if cell_of(q) == index {
                        lemma_cell_of_injective(q, position);
                    }
                } else if 0 <= q.y < WORLD_HEIGHT {
                    lemma_chunk_key_injective(chunk_of(q.x as int, q.z as int), chunk_position);
                }
            }
            assert forall|q: BlockPos| #[trigger]
                self.edit_at(q) == if q == position {
                    Some(block)
                } else {
                    old_world.edit_at(q)
                } by {
                if 0 <= q.y < WORLD_HEIGHT && chunk_of(q.x as int, q.z as int) == chunk_position {
                    lemma_cell_of(q);
                    if cell_of(q) as usize == index as usize {
                        lemma_cell_of_injective(q, position);
                    }
                } else if 0 <= q.y < WORLD_HEIGHT {
                    lemma_chunk_key_injective(chunk_of(q.x as int, q.z as int), chunk_position);
                }
            }
            assert forall|c: ChunkPosition| #[trigger] self.loaded(c) == old_world.loaded(c) by {}
        }
        let ghost edited = *self;
        self.mark_dirty(chunk_position);
        let mut dz: i32 = -1;
        while dz <= 1
            invariant
                self.wf(),
                self.chunks == edited.chunks,
                self.edits == edited.edits,
                self.seed == edited.seed,
                self.center == edited.center,
                old_world.wf(),
                chunk_position == chunk_of(position.x as int, position.z as int),
                old_world.loaded(chunk_position),
                -0x800_0000 <= chunk_position.x < 0x800_0000,
                -0x800_0000 <= chunk_position.z < 0x800_0000,
                0 <= local.x < CHUNK_SIZE,
                0 <= local.z < CHUNK_SIZE,
                local.x == local_of(position).0,
                local.z == local_of(position).2,
                forall|c: ChunkPosition| #[trigger] self.loaded(c) == old_world.loaded(c),
                forall|c: ChunkPosition| #[trigger] edited.loaded(c) == old_world.loaded(c),
                -1 <= dz <= 2,
                forall|c: ChunkPosition| #[trigger]
                    self.is_dirty(c) == (old_world.is_dirty(c) || (remeshed_by(position, c) && (c
                        == chunk_position || c.z - chunk_position.z < dz) && old_world.loaded(c))),
            decreases 2 - dz,
        {
            let mut dx: i32 = -1;
            while dx <= 1
                invariant
                    self.wf(),
                    self.chunks == edited.chunks,
                    self.edits == edited.edits,
                    self.seed == edited.seed,
                    self.center == edited.center,
                    old_world.wf(),
                    chunk_position == chunk_of(position.x as int, position.z as int),
                    old_world.loaded(chunk_position),
                    -0x800_0000 <= chunk_position.x < 0x800_0000,
                    -0x800_0000 <= chunk_position.z < 0x800_0000,
                    0 <= local.x < CHUNK_SIZE,
                    0 <= local.z < CHUNK_SIZE,
                    local.x == local_of(position).0,
                    local.z == local_of(position).2,
                    forall|c: ChunkPosition| #[trigger] self.loaded(c) == old_world.loaded(c),
                    forall|c: ChunkPosition| #[trigger] edited.loaded(c) == old_world.loaded(c),
                    -1 <= dz <= 1,
                    -1 <= dx <= 2,
                    forall|c: ChunkPosition| #[trigger]
                        self.is_dirty(c) == (old_world.is_dirty(c) || (remeshed_by(position, c) && (c
                            == chunk_position || c.z - chunk_position.z < dz || (c.z
                            - chunk_position.z == dz && c.x - chunk_position.x < dx))
                            && old_world.loaded(c))),
                decreases 2 - dx,
            {
                let ghost before = *self;
                let ghost mut marked = false;
                let touches_border = (dx < 0 && local.x == 0) || (dx > 0 && local.x == CHUNK_SIZE - 1)
                    || (dz < 0 && local.z == 0) || (dz > 0 && local.z == CHUNK_SIZE - 1);
                let neighbour = ChunkPosition { x: chunk_position.x + dx, z: chunk_position.z + dz };
                if (dx != 0 || dz != 0) && touches_border {
                    if self.chunks.contains_key(&neighbour.key()) {
                        self.mark_dirty(neighbour);
                        proof {
                            marked = true;
                        }
                    }
                }
                proof {
                    assert(edited.loaded(neighbour) == old_world.loaded(neighbour));
                    assert(before.chunks@ == edited.chunks@);
                    assert(neighbour.x - chunk_position.x == dx && neighbour.z - chunk_position.z == dz);
                    assert(remeshed_by(position, neighbour) == (neighbour == chunk_position || touches_border));
                    assert(marked ==> remeshed_by(position, neighbour) && old_world.loaded(neighbour));
                    assert(!marked ==> *self == before);
                    assert(!marked ==> !(remeshed_by(position, neighbour) && neighbour != chunk_position
                        && old_world.loaded(neighbour)));
                    assert(forall|c: ChunkPosition| #[trigger]
                        self.is_dirty(c) == (before.is_dirty(c) || (marked && c == neighbour)));
                }
                proof {
                    assert forall|c: ChunkPosition| #[trigger] self.loaded(c) == old_world.loaded(c) by {
                        assert(self.chunks@ == edited.chunks@);
                        assert(edited.loaded(c) == old_world.loaded(c));
                    }
                    assert forall|c: ChunkPosition| #[trigger]
                        self.is_dirty(c) == (old_world.is_dirty(c) || (remeshed_by(position, c) && (c
                            == chunk_position || c.z - chunk_position.z < dz || (c.z
                            - chunk_position.z == dz && c.x - chunk_position.x < dx + 1))
                            && old_world.loaded(c))) by {
                        assert(before.is_dirty(c) == (old_world.is_dirty(c) || (remeshed_by(position, c) && (c
                            == chunk_position || c.z - chunk_position.z < dz || (c.z
                            - chunk_position.z == dz && c.x - chunk_position.x < dx))
                            && old_world.loaded(c))));
                        if c.z - chunk_position.z == dz && c.x - chunk_position.x == dx {
                            assert(c == neighbour);
                        }
                    }
                }
                dx = dx + 1;
            }
            dz = dz + 1;
        }
        proof {
            assert forall|q: BlockPos| #[trigger] self.block_at(q) == edited.block_at(q) by {}
            assert forall|q: BlockPos| #[trigger] self.edit_at(q) == edited.edit_at(q) by {}
        }
        true
    }
}


/// The generated block at world position `p` of chunk `position`.
pub open spec fn generated_at(position: ChunkPosition, heights: Seq<i32>, seed: u32, p: BlockPos) -> Block {
    generated(position, heights, seed, local_of(p).0, local_of(p).1, local_of(p).2)
}

impl World {
    /// Adds chunk `position`, built from its height map (see
    /// `Chunk::generate`), with every recorded edit put back. Refused for a
    /// height map of the wrong size, a chunk outside the loaded window, or
    /// one already loaded. The chunk and its loaded neighbours need new
    /// meshes afterwards.
    pub fn insert_chunk(&mut self, position: ChunkPosition, heights: &Vec<i32>) -> (r: bool)
        requires
            old(self).wf(),
        ensures
            final(self).wf(),
            r == (heights@.len() == HEIGHT_CELLS && in_window(old(self).center(), position)
                && !old(self).loaded(position)),
            final(self).seed_value() == old(self).seed_value(),
            final(self).center() == old(self).center(),
            forall|c: ChunkPosition| #[trigger]
                final(self).loaded(c) == (old(self).loaded(c) || (r && c == position)),
            forall|q: BlockPos| #[trigger]
                final(self).block_at(q) == if r && 0 <= q.y < WORLD_HEIGHT && chunk_of(
                    q.x as int,
                    q.z as int,
                ) == position {
                    match old(self).edit_at(q) {
                        Some(b) => b,
                        None => generated_at(position, heights@, old(self).seed_value(), q),
                    }
                } else {
                    old(self).block_at(q)
                },
            forall|q: BlockPos| #[trigger] final(self).edit_at(q) == old(self).edit_at(q),
            forall|c: ChunkPosition| #[trigger]
                final(self).is_dirty(c) == (old(self).is_dirty(c) || (r && touching(c, position)
                    && final(self).loaded(c))),
    {
        if heights.len() != HEIGHT_CELLS {
            return false;
        }
        if position.x < self.center.x - 3 || position.x > self.center.x + 3 || position.z
            < self.center.z - 3 || position.z > self.center.z + 3 {
            return false;
        }
        let key = position.key();
        if self.chunks.contains_key(&key) {
            return false;
        }
        let ghost old_world = *self;
        let mut chunk = Chunk::generate(position, heights, self.seed);
        let ghost fresh = chunk.blocks@;
        let ghost cells_view = if self.edits@.contains_key(key) {
            self.edits@[key]@
        } else {
            Map::empty()
        };
        match self.edits.get(&key) {
            Some(cells) => {
                let mut i: usize = 0;
                while i < CHUNK_VOLUME
                    invariant
                        chunk.blocks@.len() == CHUNK_VOLUME,
                        chunk.skylight@.len() == CHUNK_VOLUME,
                        chunk.position == position,
                        fresh.len() == CHUNK_VOLUME,
                        cells@ == cells_view,
                        i <= CHUNK_VOLUME,
                        forall|j: int|
                            0 <= j < CHUNK_VOLUME ==> #[trigger] chunk.blocks@[j] == if j < i
                                && cells_view.contains_key(j as usize) {
                                cells_view[j as usize]
                            } else {
                                fresh[j]
                            },
                    decreases CHUNK_VOLUME - i,
                {
                    match cells.get(&i) {
                        Some(block) => {
                            chunk.blocks.set(i, *block);
                        },
                        None => {},
                    }
                    i = i + 1;
                }
                chunk.refresh_max_height();
                chunk.recompute_skylight();
            },
            None => {},
        }
        let ghost built = chunk.blocks@;
        assert forall|j: int| 0 <= j < CHUNK_VOLUME implies #[trigger] built[j] == if cells_view.contains_key(
            j as usize,
        ) {
            cells_view[j as usize]
        } else {
            fresh[j]
        } by {}
        self.chunks.insert(key, chunk);
        proof {
            assert forall|k: u64| #[trigger] self.chunks@.contains_key(k) implies {
                let c = self.chunks@[k];
                &&& c.wf()
                &&& chunk_key(c.position) == k
                &&& in_window(self.center, c.position)
            } by {
                if k != key {
                    assert(old_world.chunks@.contains_key(k));
                }
            }
            assert forall|k: u64| #[trigger] self.dirty@.contains(k) implies self.chunks@.contains_key(
                k,
            ) by {
                assert(old_world.chunks@.contains_key(k));
            }
            assert forall|k: u64, i: usize|
                self.chunks@.contains_key(k) && self.edits@.contains_key(k) && #[trigger] self.edits@[k]@.contains_key(
                    i,
                ) implies #[trigger] self.chunks@[k].blocks@[i as int] == self.edits@[k]@[i] by {
                if k == key {
                    assert(i < CHUNK_VOLUME);
                    assert(built[i as int] == cells_view[i]);
                }
            }
            assert forall|c: ChunkPosition| #[trigger]
                self.loaded(c) == (old_world.loaded(c) || c == position) by {
                lemma_chunk_key_injective(c, position);
            }
            assert forall|q: BlockPos| #[trigger]
                self.block_at(q) == if 0 <= q.y < WORLD_HEIGHT && chunk_of(q.x as int, q.z as int)
                    == position {
                    match old_world.edit_at(q) {
                        Some(b) => b,
                        None => generated_at(position, heights@, old_world.seed, q),
                    }
                } else {
                    old_world.block_at(q)
                } by {
                if 0 <= q.y < WORLD_HEIGHT {
                    lemma_chunk_key_injective(chunk_of(q.x as int, q.z as int), position);
                    if chunk_of(q.x as int, q.z as int) == position {
                        lemma_cell_of(q);
                        assert(fresh[cell_of(q)] == generated_at(position, heights@, old_world.seed, q));
                    }
                }
            }
        }
        let ghost inserted = *self;
        self.mark_dirty_with_neighbours(position);
        proof {
            assert forall|c: ChunkPosition| #[trigger] self.loaded(c) == inserted.loaded(c) by {}
            assert forall|q: BlockPos| #[trigger] self.block_at(q) == inserted.block_at(q) by {}
            assert forall|q: BlockPos| #[trigger] self.edit_at(q) == inserted.edit_at(q) by {}
        }
        true
    }
}


/// Whether `order` lists chunks of the window around `center` that are
/// still to be generated: at most `GENERATION_BUDGET` of them, each once,
/// nearest first, and none left out that is nearer than one listed.
pub open spec fn nearest_missing(world: World, order: Seq<ChunkPosition>) -> bool {
    let center = world.center();
    &&& order.len() <= GENERATION_BUDGET
    &&& forall|j: int|
        0 <= j < order.len() ==> in_window(center, #[trigger] order[j]) && !world.loaded(order[j])
    &&& forall|a: int, b: int|
        0 <= a < b < order.len() ==> #[trigger] order[a] != #[trigger] order[b]
    &&& forall|a: int, b: int|
        0 <= a < b < order.len() ==> distance2(center, #[trigger] order[a]) <= distance2(
            center,
            #[trigger] order[b],
        )
    &&& forall|q: ChunkPosition|
        in_window(center, q) && !world.loaded(q) && !order.contains(q) ==> order.len()
            == GENERATION_BUDGET && forall|j: int|
            0 <= j < order.len() ==> distance2(center, #[trigger] order[j]) <= distance2(center, q)
}

impl World {
    /// Whether every chunk of the window around `center` is loaded.
    fn window_complete(&self, center: ChunkPosition) -> (r: bool)
        requires
            window_center_ok(center),
        ensures
            r == forall|c: ChunkPosition| in_window(center, c) ==> #[trigger] self.loaded(c),
    {
        let desired = chunk_positions_around(center);
        let mut i: usize = 0;
        while i < WINDOW_CHUNKS
            invariant
                window_center_ok(center),
                desired@.len() == WINDOW_CHUNKS,
                forall|j: int| 0 <= j < WINDOW_CHUNKS ==> #[trigger] desired@[j] == window_at(center, j),
                i <= WINDOW_CHUNKS,
                forall|j: int| 0 <= j < i ==> self.loaded(#[trigger] desired@[j]),
            decreases WINDOW_CHUNKS - i,
        {
            if !self.chunks.contains_key(&desired[i].key()) {
                proof {
                    lemma_window_at(center, i as int);
                    assert(in_window(center, desired@[i as int]) && !self.loaded(desired@[i as int]));
                }
                return false;
            }
            i = i + 1;
        }
        proof {
            assert forall|c: ChunkPosition| in_window(center, c) implies #[trigger] self.loaded(c) by {
                lemma_window_index(center, c);
                assert(desired@[window_index(center, c)] == c);
            }
        }
        true
    }

    /// Drops every chunk outside the window around `next` and moves the
    /// window there. Edits stay.
    fn unload_outside(&mut self, next: ChunkPosition)
        requires
            old(self).wf(),
            window_center_ok(next),
        ensures
            final(self).wf(),
            final(self).center() == next,
            final(self).seed_value() == old(self).seed_value(),
            final(self).edits == old(self).edits,
            forall|c: ChunkPosition| #[trigger]
                final(self).loaded(c) == (old(self).loaded(c) && in_window(next, c)),
            forall|q: BlockPos| #[trigger]
                final(self).block_at(q) == if in_window(next, chunk_of(q.x as int, q.z as int)) {
                    old(self).block_at(q)
                } else {
                    Block::Air
                },
            forall|q: BlockPos| #[trigger] final(self).edit_at(q) == old(self).edit_at(q),
            forall|c: ChunkPosition| #[trigger]
                final(self).is_dirty(c) == (old(self).is_dirty(c) && in_window(next, c)),
    {
        let current = chunk_positions_around(self.center);
        let ghost start = *self;
        let mut i: usize = 0;
        while i < WINDOW_CHUNKS
            invariant
                start.wf(),
                window_center_ok(start.center),
                window_center_ok(next),
                self.center == start.center,
                self.seed == start.seed,
                self.edits == start.edits,
                current@.len() == WINDOW_CHUNKS,
                forall|j: int|
                    0 <= j < WINDOW_CHUNKS ==> #[trigger] current@[j] == window_at(start.center, j),
                i <= WINDOW_CHUNKS,
                forall|k: u64| #[trigger]
                    self.chunks@.contains_key(k) ==> start.chunks@.contains_key(k)
                        && self.chunks@[k] == start.chunks@[k],
                forall|k: u64| #[trigger]
                    start.chunks@.contains_key(k) && in_window(next, start.chunks@[k].position)
                        ==> self.chunks@.contains_key(k),
                forall|j: int|
                    0 <= j < i && !in_window(next, #[trigger] current@[j]) ==> !self.chunks@.contains_key(
                        chunk_key(current@[j]),
                    ),
                forall|k: u64| #[trigger] self.dirty@.contains(k) ==> start.dirty@.contains(k) && self.chunks@.contains_key(k),
                forall|k: u64| #[trigger] start.dirty@.contains(k) && self.chunks@.contains_key(k) ==> self.dirty@.contains(k),
            decreases WINDOW_CHUNKS - i,
        {
            let p = current[i];
            let outside = p.x < next.x - RENDER_DISTANCE || p.x > next.x + RENDER_DISTANCE || p.z
                < next.z - RENDER_DISTANCE || p.z > next.z + RENDER_DISTANCE;
            if outside {
                let key = p.key();
                self.chunks.remove(&key);
                self.dirty.remove(&key);
                proof {
                    assert forall|k: u64| #[trigger]
                        start.chunks@.contains_key(k) && in_window(next, start.chunks@[k].position)
                            implies self.chunks@.contains_key(k) by {
                        if k == key {
                            lemma_chunk_key_injective(start.chunks@[k].position, p);
                        }
                    }
                }
            }
            i = i + 1;
        }
        self.center = next;
        proof {
            assert forall|k: u64| #[trigger] start.chunks@.contains_key(k) && !in_window(
                next,
                start.chunks@[k].position,
            ) implies !self.chunks@.contains_key(k) by {
                let pos = start.chunks@[k].position;
                lemma_window_index(start.center, pos);
                assert(current@[window_index(start.center, pos)] == pos);
            }
            assert forall|c: ChunkPosition| #[trigger]
                self.loaded(c) == (start.loaded(c) && in_window(next, c)) by {
                let k = chunk_key(c);
                if start.chunks@.contains_key(k) {
                    lemma_chunk_key_injective(c, start.chunks@[k].position);
                }
            }
            assert forall|q: BlockPos| #[trigger]
                self.block_at(q) == if in_window(next, chunk_of(q.x as int, q.z as int)) {
                    start.block_at(q)
                } else {
                    Block::Air
                } by {
                assert(self.loaded(chunk_of(q.x as int, q.z as int)) == (start.loaded(
                    chunk_of(q.x as int, q.z as int),
                ) && in_window(next, chunk_of(q.x as int, q.z as int))));
            }
            assert forall|c: ChunkPosition| #[trigger]
                self.is_dirty(c) == (start.is_dirty(c) && in_window(next, c)) by {
                let k = chunk_key(c);
                assert(self.loaded(c) == (start.loaded(c) && in_window(next, c)));
                if start.dirty@.contains(k) {
                    assert(start.chunks@.contains_key(k));
                }
            }
            assert forall|k: u64| #[trigger] self.chunks@.contains_key(k) implies {
                let c = self.chunks@[k];
                &&& c.wf()
                &&& chunk_key(c.position) == k
                &&& in_window(self.center, c.position)
            } by {
                assert(start.chunks@.contains_key(k));
            }
            assert forall|k: u64, i: usize|
                self.chunks@.contains_key(k) && self.edits@.contains_key(k) && #[trigger] self.edits@[k]@.contains_key(
                    i,
                ) implies #[trigger] self.chunks@[k].blocks@[i as int] == self.edits@[k]@[i] by {
                assert(start.chunks@.contains_key(k));
            }
        }
    }

    /// The chunks of the window still to be generated, nearest first, at most
    /// `GENERATION_BUDGET` of them.
    fn missing_nearest_first(&self) -> (order: Vec<ChunkPosition>)
        requires
            self.wf(),
        ensures
            nearest_missing(*self, order@),
    {
        let center = self.center;
        let desired = chunk_positions_around(center);
        let ghost candidate = |q: ChunkPosition| in_window(center, q) && !self.loaded(q);
        let mut order: Vec<ChunkPosition> = Vec::new();
        let mut d: i32 = 0;
        proof {
            assert forall|q: ChunkPosition| in_window(center, q) implies distance2(center, q) >= 0 by {
                lemma_window_index(center, q);
            }
        }
        while d <= 18 && order.len() < GENERATION_BUDGET
            invariant
                self.wf(),
                center == self.center(),
                window_center_ok(center),
                desired@.len() == WINDOW_CHUNKS,
                forall|j: int| 0 <= j < WINDOW_CHUNKS ==> #[trigger] desired@[j] == window_at(center, j),
                0 <= d <= 19,
                order@.len() <= GENERATION_BUDGET,
                forall|j: int|
                    0 <= j < order@.len() ==> in_window(center, #[trigger] order@[j]) && !self.loaded(
                        order@[j],
                    ) && distance2(center, order@[j]) < d,
                forall|a: int, b: int|
                    0 <= a < b < order@.len() ==> #[trigger] order@[a] != #[trigger] order@[b],
                forall|a: int, b: int|
                    0 <= a < b < order@.len() ==> distance2(center, #[trigger] order@[a]) <= distance2(
                        center,
                        #[trigger] order@[b],
                    ),
                forall|q: ChunkPosition|
                    in_window(center, q) && !self.loaded(q) && !order@.contains(q) ==> forall|j: int|
                        0 <= j < order@.len() ==> distance2(center, #[trigger] order@[j]) <= distance2(
                            center,
                            q,
                        ),
                order@.len() < GENERATION_BUDGET ==> forall|q: ChunkPosition|
                    in_window(center, q) && !self.loaded(q) && distance2(center, q) < d
                        ==> order@.contains(q),
            decreases 19 - d,
        {
            let mut i: usize = 0;
            while i < WINDOW_CHUNKS && order.len() < GENERATION_BUDGET
                invariant
                    self.wf(),
                    center == self.center(),
                    window_center_ok(center),
                    desired@.len() == WINDOW_CHUNKS,
                    forall|j: int|
                        0 <= j < WINDOW_CHUNKS ==> #[trigger] desired@[j] == window_at(center, j),
                    0 <= d <= 18,
                    i <= WINDOW_CHUNKS,
                    order@.len() <= GENERATION_BUDGET,
                    forall|j: int|
                        0 <= j < order@.len() ==> in_window(center, #[trigger] order@[j])
                            && !self.loaded(order@[j]) && (distance2(center, order@[j]) < d || (
                        distance2(center, order@[j]) == d && window_index(center, order@[j]) < i)),
                    forall|a: int, b: int|
                        0 <= a < b < order@.len() ==> #[trigger] order@[a] != #[trigger] order@[b],
                    forall|a: int, b: int|
                        0 <= a < b < order@.len() ==> distance2(center, #[trigger] order@[a])
                            <= distance2(center, #[trigger] order@[b]),
                    forall|q: ChunkPosition|
                        in_window(center, q) && !self.loaded(q) && !order@.contains(q) ==> forall|j: int|
                            0 <= j < order@.len() ==> distance2(center, #[trigger] order@[j])
                                <= distance2(center, q),
                    order@.len() < GENERATION_BUDGET ==> forall|q: ChunkPosition|
                        in_window(center, q) && !self.loaded(q) && (distance2(center, q) < d || (
                        distance2(center, q) == d && window_index(center, q) < i))
                            ==> order@.contains(q),
                decreases WINDOW_CHUNKS - i,
            {
                let p = desired[i];
                let dx = p.x - center.x;
                let dz = p.z - center.z;
                proof {
                    lemma_window_at(center, i as int);
                    lemma_window_index(center, p);
                    assert(0 <= dx * dx <= 9 && 0 <= dz * dz <= 9) by (nonlinear_arith)
                        requires
                            -3 <= dx <= 3,
                            -3 <= dz <= 3,
                    ;
                }
                if dx * dx + dz * dz == d && !self.chunks.contains_key(&p.key()) {
                    let ghost before = order@;
                    order.push(p);
                    proof {
                        assert(order@ == before.push(p));
                        assert forall|q: ChunkPosition|
                            in_window(center, q) && !self.loaded(q) && !order@.contains(q) implies forall|j: int|
                                0 <= j < order@.len() ==> distance2(center, #[trigger] order@[j])
                                    <= distance2(center, q) by {
                            assert(!before.contains(q)) by {
                                if before.contains(q) {
                                    let j = choose|j: int| 0 <= j < before.len() && before[j] == q;
                                    assert(order@[j] == q);
                                }
                            }
                            lemma_window_index(center, q);
                            if distance2(center, q) < d || (distance2(center, q) == d && window_index(center, q) <= i) {
                                if window_index(center, q) == i {
                                    assert(q == p);
                                    assert(order@[before.len() as int] == q);
                                }
                            }
                        }
                        assert forall|q: ChunkPosition|
                            order@.len() < GENERATION_BUDGET && in_window(center, q) && !self.loaded(q) && (distance2(center, q) < d || (
                            distance2(center, q) == d && window_index(center, q) < i + 1))
                                implies order@.contains(q) by {
                            if window_index(center, q) == i && distance2(center, q) == d {
                                lemma_window_index(center, q);
                                assert(q == p);
                                assert(order@[before.len() as int] == q);
                            } else {
                                assert(before.contains(q));
                                let j = choose|j: int| 0 <= j < before.len() && before[j] == q;
                                assert(order@[j] == q);
                            }
                        }
                    }
                } else {
                    proof {
                        assert forall|q: ChunkPosition|
                            order@.len() < GENERATION_BUDGET && in_window(center, q) && !self.loaded(q) && (distance2(center, q) < d || (
                            distance2(center, q) == d && window_index(center, q) < i + 1))
                                implies order@.contains(q) by {
                            if window_index(center, q) == i && distance2(center, q) == d {
                                lemma_window_index(center, q);
                                assert(q == p);
                            }
                        }
                    }
                }
                i = i + 1;
            }
            proof {
                assert forall|q: ChunkPosition|
                    order@.len() < GENERATION_BUDGET && in_window(center, q) && !self.loaded(q) && distance2(center, q) < d + 1
                        implies order@.contains(q) by {
                    lemma_window_index(center, q);
                }
            }
            d = d + 1;
        }
        proof {
            assert forall|q: ChunkPosition|
                in_window(center, q) && !self.loaded(q) && !order@.contains(q) implies order@.len()
                    == GENERATION_BUDGET by {
                lemma_window_index(center, q);
            }
        }
        order
    }

    /// Recentres the loaded window on the chunk holding world column `x`,
    /// `z`. Nothing happens, and `None` comes back, when the window is
    /// already there and complete. Otherwise chunks that left the window are
    /// dropped (their edits are kept) and the chunks to generate next come
    /// back, nearest first and at most `GENERATION_BUDGET` of them:
    /// generating a whole window at once would block a frame, and the caller
    /// runs every frame, so the rest follows.
    pub fn load_chunks_around(&mut self, x: i32, z: i32) -> (r: Option<Vec<ChunkPosition>>)
        requires
            old(self).wf(),
        ensures
            final(self).wf(),
            final(self).seed_value() == old(self).seed_value(),
            r is None <==> (chunk_of(x as int, z as int) == old(self).center() && forall|c: ChunkPosition|
                in_window(old(self).center(), c) ==> #[trigger] old(self).loaded(c)),
            r is None ==> *final(self) == *old(self),
            r matches Some(order) ==> {
                &&& final(self).center() == chunk_of(x as int, z as int)
                &&& forall|c: ChunkPosition| #[trigger]
                    final(self).loaded(c) == (old(self).loaded(c) && in_window(final(self).center(), c))
                &&& forall|q: BlockPos| #[trigger]
                    final(self).block_at(q) == if in_window(
                        final(self).center(),
                        chunk_of(q.x as int, q.z as int),
                    ) {
                        old(self).block_at(q)
                    } else {
                        Block::Air
                    }
                &&& forall|q: BlockPos| #[trigger] final(self).edit_at(q) == old(self).edit_at(q)
                &&& forall|c: ChunkPosition| #[trigger]
                    final(self).is_dirty(c) == (old(self).is_dirty(c) && in_window(
                        final(self).center(),
                        c,
                    ))
                &&& nearest_missing(*final(self), order@)
            },
    {
        let next_center = ChunkPosition::from_world(x, z);
        let moved = next_center.x != self.center.x || next_center.z != self.center.z;
        if !moved && self.window_complete(next_center) {
            return None;
        }
        self.unload_outside(next_center);
        let order = self.missing_nearest_first();
        Some(order)
    }
}


impl World {
    /// Every loaded chunk as a set.
    pub closed spec fn loaded_set(&self) -> Set<ChunkPosition> {
        Set::new(|c: ChunkPosition| self.loaded(c))
    }

    /// Every loaded chunk, once each.
    pub fn loaded_positions(&self) -> (positions: Vec<ChunkPosition>)
        requires
            self.wf(),
        ensures
            positions@.no_duplicates(),
            forall|c: ChunkPosition| #[trigger] positions@.contains(c) == self.loaded(c),
    {
        let desired = chunk_positions_around(self.center);
        let mut positions: Vec<ChunkPosition> = Vec::new();
        let mut i: usize = 0;
        while i < WINDOW_CHUNKS
            invariant
                self.wf(),
                desired@.len() == WINDOW_CHUNKS,
                forall|j: int|
                    0 <= j < WINDOW_CHUNKS ==> #[trigger] desired@[j] == window_at(self.center, j),
                i <= WINDOW_CHUNKS,
                positions@.no_duplicates(),
                forall|c: ChunkPosition| #[trigger]
                    positions@.contains(c) == (self.loaded(c) && in_window(self.center, c)
                        && window_index(self.center, c) < i),
            decreases WINDOW_CHUNKS - i,
        {
            let p = desired[i];
            proof {
                lemma_window_at(self.center, i as int);
            }
            if self.chunks.contains_key(&p.key()) {
                let ghost before = positions@;
                positions.push(p);
                proof {
                    assert(!before.contains(p));
                    lemma_push_no_duplicates(before, p);
                    assert forall|c: ChunkPosition| #[trigger]
                        positions@.contains(c) == (self.loaded(c) && in_window(self.center, c)
                            && window_index(self.center, c) < i + 1) by {
                        if c == p {
                            assert(positions@[before.len() as int] == p);
                        } else if before.contains(c) {
                            let j = choose|j: int| 0 <= j < before.len() && before[j] == c;
                            assert(positions@[j] == c);
                        } else if positions@.contains(c) {
                            let j = choose|j: int| 0 <= j < positions@.len() && positions@[j] == c;
                            if j < before.len() {
                                assert(before[j] == c);
                            }
                        }
                        if in_window(self.center, c) && window_index(self.center, c) == i {
                            lemma_window_index(self.center, c);
                        }
                    }
                }
            } else {
                proof {
                    assert forall|c: ChunkPosition| #[trigger]
                        positions@.contains(c) == (self.loaded(c) && in_window(self.center, c)
                            && window_index(self.center, c) < i + 1) by {
                        if in_window(self.center, c) && window_index(self.center, c) == i {
                            lemma_window_index(self.center, c);
                        }
                    }
                }
            }
            i = i + 1;
        }
        proof {
            assert forall|c: ChunkPosition| #[trigger] positions@.contains(c) == self.loaded(c) by {
                if self.loaded(c) {
                    let k = chunk_key(c);
                    lemma_chunk_key_injective(c, self.chunks@[k].position);
                    lemma_window_index(self.center, c);
                }
            }
        }
        positions
    }

    /// How many chunks are loaded.
    pub fn loaded_chunk_count(&self) -> (r: usize)
        requires
            self.wf(),
        ensures
            r == self.loaded_set().len(),
    {
        let positions = self.loaded_positions();
        proof {
            positions@.unique_seq_to_set();
            assert(positions@.to_set() =~= self.loaded_set());
        }
        positions.len()
    }

    /// Chunks whose mesh is out of date, each once. Draining leaves the
    /// world clean.
    pub fn take_dirty(&mut self) -> (taken: Vec<ChunkPosition>)
        requires
            old(self).wf(),
        ensures
            final(self).wf(),
            taken@.no_duplicates(),
            forall|c: ChunkPosition| #[trigger] taken@.contains(c) == old(self).is_dirty(c),
            forall|c: ChunkPosition| !#[trigger] final(self).is_dirty(c),
            final(self).seed_value() == old(self).seed_value(),
            final(self).center() == old(self).center(),
            forall|c: ChunkPosition| #[trigger] final(self).loaded(c) == old(self).loaded(c),
            forall|q: BlockPos| #[trigger] final(self).block_at(q) == old(self).block_at(q),
            forall|q: BlockPos| #[trigger] final(self).edit_at(q) == old(self).edit_at(q),
    {
        let loaded = self.loaded_positions();
        let mut taken: Vec<ChunkPosition> = Vec::new();
        let mut i: usize = 0;
        while i < loaded.len()
            invariant
                self.wf(),
                loaded@.no_duplicates(),
                forall|c: ChunkPosition| #[trigger] loaded@.contains(c) == self.loaded(c),
                i <= loaded@.len(),
                taken@.no_duplicates(),
                forall|c: ChunkPosition| #[trigger]
                    taken@.contains(c) == (self.is_dirty(c) && exists|j: int|
                        0 <= j < i && loaded@[j] == c),
            decreases loaded@.len() - i,
        {
            let p = loaded[i];
            if self.dirty.contains(&p.key()) {
                let ghost before = taken@;
                taken.push(p);
                proof {
                    assert forall|c: ChunkPosition| #[trigger]
                        taken@.contains(c) == (self.is_dirty(c) && exists|j: int|
                            0 <= j < i + 1 && loaded@[j] == c) by {
                        if c == p {
                            assert(taken@[before.len() as int] == p);
                        } else if before.contains(c) {
                            let j = choose|j: int| 0 <= j < before.len() && before[j] == c;
                            assert(taken@[j] == c);
                        } else if taken@.contains(c) {
                            let j = choose|j: int| 0 <= j < taken@.len() && taken@[j] == c;
                            if j < before.len() {
                                assert(before[j] == c);
                            }
                        }
                    }
                    assert forall|a: int, b: int|
                        0 <= a < taken@.len() && 0 <= b < taken@.len() && a != b implies taken@[a]
                        != taken@[b] by {
                        if a == before.len() || b == before.len() {
                            let other = if a == before.len() {
                                b
                            } else {
                                a
                            };
                            assert(before.contains(taken@[other]));
                            let j = choose|j: int| 0 <= j < i && loaded@[j] == taken@[other];
                            assert(loaded@[j] != loaded@[i as int]);
                        }
                    }
                }
            } else {
                proof {
                    assert forall|c: ChunkPosition| #[trigger]
                        taken@.contains(c) == (self.is_dirty(c) && exists|j: int|
                            0 <= j < i + 1 && loaded@[j] == c) by {
                        if c == p && self.is_dirty(c) {
                            assert(false);
                        }
                    }
                }
            }
            i = i + 1;
        }
        let ghost before = *self;
        self.dirty.clear();
        proof {
            assert forall|c: ChunkPosition| #[trigger] taken@.contains(c) == before.is_dirty(c) by {
                if before.is_dirty(c) {
                    assert(before.chunks@.contains_key(chunk_key(c)));
                    assert(loaded@.contains(c));
                    let j = choose|j: int| 0 <= j < loaded@.len() && loaded@[j] == c;
                }
            }
            assert forall|q: BlockPos| #[trigger] self.block_at(q) == before.block_at(q) by {}
            assert forall|q: BlockPos| #[trigger] self.edit_at(q) == before.edit_at(q) by {}
            assert forall|c: ChunkPosition| #[trigger] self.loaded(c) == before.loaded(c) by {}
        }
        taken
    }

    /// The height of the topmost non-air block of world column `x`, `z`.
    pub fn highest_block(&self, x: i32, z: i32) -> (r: Option<i32>)
        requires
            self.wf(),
        ensures
            match r {
                Some(y) => 0 <= y < WORLD_HEIGHT && self.block_at(BlockPos { x, y, z }) != Block::Air
                    && forall|y2: i32| y < y2 < WORLD_HEIGHT ==> #[trigger] self.block_at(BlockPos { x, y: y2, z })
                    == Block::Air,
                None => forall|y2: i32|
                    0 <= y2 < WORLD_HEIGHT ==> #[trigger] self.block_at(BlockPos { x, y: y2, z })
                        == Block::Air,
            },
    {
        let mut y: i32 = WORLD_HEIGHT;
        while y > 0
            invariant
                self.wf(),
                0 <= y <= WORLD_HEIGHT,
                forall|y2: i32| y <= y2 < WORLD_HEIGHT ==> #[trigger] self.block_at(BlockPos { x, y: y2, z })
                    == Block::Air,
            decreases y,
        {
            y = y - 1;
            if !matches!(self.get(BlockPos { x, y, z }), Block::Air) {
                return Some(y);
            }
        }
        None
    }

    /// Skylight at `position`, when its chunk is loaded: dark when a solid
    /// block sits at or above it in its column, full daylight otherwise (and
    /// outside the world's height).
    pub fn light_at(&self, position: BlockPos) -> (r: Option<u8>)
        requires
            self.wf(),
        ensures
            r is Some == self.loaded(chunk_of(position.x as int, position.z as int)),
            r matches Some(light) ==> if 0 <= position.y < WORLD_HEIGHT {
                light == 0 <==> exists|y2: i32|
                    position.y <= y2 < WORLD_HEIGHT && #[trigger] self.block_at(
                        BlockPos { x: position.x, y: y2, z: position.z },
                    ) != Block::Air
            } else {
                light == MAX_SKYLIGHT
            },
            r matches Some(light) ==> light == 0 || light == MAX_SKYLIGHT,
    {
        let chunk_position = ChunkPosition::from_world(position.x, position.z);
        match self.chunks.get(&chunk_position.key()) {
            Some(chunk) => {
                let local = local_position(position);
                let light = chunk.light(local);
                proof {
                    if 0 <= position.y < WORLD_HEIGHT {
                        let (lx, ly, lz) = (local.x as int, local.y as int, local.z as int);
                        lemma_cell(lx, ly, lz);
                        lemma_covered_exists(chunk.blocks@, lx, ly, lz);
                        assert forall|y2: i32| position.y <= y2 < WORLD_HEIGHT implies #[trigger] self.block_at(
                            BlockPos { x: position.x, y: y2, z: position.z },
                        ) == block_in(chunk.blocks@, lx, y2 as int, lz) by {
                            lemma_cell(lx, y2 as int, lz);
                        }
                        if light == 0 {
                            let y2 = choose|y2: int|
                                ly <= y2 < WORLD_HEIGHT && #[trigger] crate::world::block::solid(
                                    block_in(chunk.blocks@, lx, y2, lz),
                                );
                            assert(self.block_at(BlockPos { x: position.x, y: y2 as i32, z: position.z })
                                != Block::Air);
                        }
                        if exists|y2: i32|
                            position.y <= y2 < WORLD_HEIGHT && #[trigger] self.block_at(
                                BlockPos { x: position.x, y: y2, z: position.z },
                            ) != Block::Air {
                            let y2 = choose|y2: i32|
                                position.y <= y2 < WORLD_HEIGHT && #[trigger] self.block_at(
                                    BlockPos { x: position.x, y: y2, z: position.z },
                                ) != Block::Air;
                            assert(crate::world::block::solid(block_in(chunk.blocks@, lx, y2 as int, lz)));
                        }
                    }
                }
                Some(light)
            },
            None => None,
        }
    }

    /// The height stored for loaded chunk `position`: one past its tallest
    /// block.
    pub fn chunk_max_height(&self, position: ChunkPosition) -> (r: Option<i32>)
        requires
            self.wf(),
        ensures
            r is Some == self.loaded(position),
            r matches Some(h) ==> {
                &&& 0 <= h <= WORLD_HEIGHT
                &&& forall|q: BlockPos|
                    chunk_of(q.x as int, q.z as int) == position && h <= q.y < WORLD_HEIGHT
                        ==> #[trigger] self.block_at(q) == Block::Air
                &&& h > 0 && window_center_ok(position) ==> exists|q: BlockPos|
                    chunk_of(q.x as int, q.z as int) == position && q.y == h - 1 && #[trigger] self.block_at(q)
                        != Block::Air
            },
    {
        match self.chunks.get(&position.key()) {
            Some(chunk) => {
                let h = chunk.max_height;
                proof {
                    let b = chunk.blocks@;
                    lemma_top_below(b, WORLD_HEIGHT as int);
                    assert(chunk.position == position) by {
                        lemma_chunk_key_injective(chunk.position, position);
                    }
                    assert forall|q: BlockPos|
                        chunk_of(q.x as int, q.z as int) == position && h <= q.y < WORLD_HEIGHT
                            implies #[trigger] self.block_at(q) == Block::Air by {
                        lemma_cell_of(q);
                        assert(!layer_solid(b, q.y as int));
                        let (lx, ly, lz) = local_of(q);
                        assert(!crate::world::block::solid(b[cell(lx, ly, lz)]));
                    }
                    if h > 0 && window_center_ok(position) {
                        let (lx, lz) = choose|lx: int, lz: int|
                            0 <= lx < CHUNK_SIZE && 0 <= lz < CHUNK_SIZE && #[trigger] crate::world::block::solid(
                                b[cell(lx, h - 1, lz)],
                            );
                        let q = BlockPos {
                            x: (position.x * 16 + lx) as i32,
                            y: (h - 1) as i32,
                            z: (position.z * 16 + lz) as i32,
                        };
                        assert(chunk_of(q.x as int, q.z as int) == position && local_of(q) == (lx, h - 1, lz))
                            by (nonlinear_arith)
                            requires
                                q.x == position.x * 16 + lx,
                                q.z == position.z * 16 + lz,
                                q.y == h - 1,
                                -0x800_0000 <= position.x < 0x800_0000,
                                -0x800_0000 <= position.z < 0x800_0000,
                                0 <= lx < 16,
                                0 <= lz < 16,
                        ;
                        assert(self.block_at(q) != Block::Air);
                    }
                }
                Some(h)
            },
            None => None,
        }
    }

    /// The cell a block placed against the face with outward normal `normal`
    /// of `cell` goes into: refused when there is no face (a zero normal, as
    /// when the ray starts inside a block), outside the world's height, and
    /// when the cell is not empty.
    pub fn placement_target(&self, cell: BlockPos, normal: BlockPos) -> (r: Option<BlockPos>)
        requires
            self.wf(),
            i32::MIN <= cell.x + normal.x <= i32::MAX,
            i32::MIN <= cell.y + normal.y <= i32::MAX,
            i32::MIN <= cell.z + normal.z <= i32::MAX,
        ensures
            ({
                let target = BlockPos {
                    x: (cell.x + normal.x) as i32,
                    y: (cell.y + normal.y) as i32,
                    z: (cell.z + normal.z) as i32,
                };
                r == if normal == (BlockPos { x: 0, y: 0, z: 0 }) || !(0 <= target.y < WORLD_HEIGHT)
                    || self.block_at(target) != Block::Air {
                    None
                } else {
                    Some(target)
                }
            }),
    {
        if normal.x == 0 && normal.y == 0 && normal.z == 0 {
            return None;
        }
        let target = BlockPos { x: cell.x + normal.x, y: cell.y + normal.y, z: cell.z + normal.z };
        if target.y < 0 || target.y >= WORLD_HEIGHT || !matches!(self.get(target), Block::Air) {
            return None;
        }
        Some(target)
    }
}

/// A recorded edit is what its chunk shows whenever the chunk is loaded:
/// edits survive a chunk being dropped and generated again.
pub proof fn lemma_edits_persist(world: World, p: BlockPos)
    requires
        world.wf(),
    ensures
        world.loaded(chunk_of(p.x as int, p.z as int)) ==> (world.edit_at(p) matches Some(b)
            ==> world.block_at(p) == b),
{
    if world.edit_at(p) is Some && world.loaded(chunk_of(p.x as int, p.z as int)) {
        lemma_cell_of(p);
        let k = chunk_key(chunk_of(p.x as int, p.z as int));
        assert(world.edits@[k]@.contains_key(cell_of(p) as usize));
    }
}

/// The edit at `p` recorded in the first of a run of worlds is still
/// recorded in the `i`-th, when no step in between changed it.
proof fn lemma_edit_kept(worlds: Seq<World>, p: BlockPos, b: Block, i: int)
    requires
        0 <= i < worlds.len(),
        worlds[0].edit_at(p) == Some(b),
        forall|j: int| 0 < j < worlds.len() ==> (#[trigger] worlds[j]).edit_at(p) == worlds[j - 1].edit_at(p),
    ensures
        worlds[i].edit_at(p) == Some(b),
    decreases i,
{
    if i > 0 {
        lemma_edit_kept(worlds, p, b, i - 1);
        assert(worlds[i].edit_at(p) == worlds[i - 1].edit_at(p));
    }
}

/// Along any run of worlds, each reached from the one before by steps that
/// leave the edit at `p` alone (window moves, chunk generations, writes
/// elsewhere, refused writes), an edit recorded at `p` at the start is what
/// `p` shows in every later world whose chunk holding `p` is loaded, however
/// often that chunk was dropped and generated again in between.
pub proof fn lemma_edit_survives_every_reload(worlds: Seq<World>, p: BlockPos, b: Block)
    requires
        worlds.len() > 0,
        worlds[0].edit_at(p) == Some(b),
        forall|i: int| 0 <= i < worlds.len() ==> (#[trigger] worlds[i]).wf(),
        forall|i: int| 0 < i < worlds.len() ==> (#[trigger] worlds[i]).edit_at(p) == worlds[i - 1].edit_at(p),
    ensures
        forall|i: int|
            0 <= i < worlds.len() && (#[trigger] worlds[i]).loaded(chunk_of(p.x as int, p.z as int))
                ==> worlds[i].block_at(p) == b,
{
    assert forall|i: int|
        0 <= i < worlds.len() && (#[trigger] worlds[i]).loaded(chunk_of(p.x as int, p.z as int))
            implies worlds[i].block_at(p) == b by {
        lemma_edit_kept(worlds, p, b, i);
        lemma_edits_persist(worlds[i], p);
    }
}

/// Only chunks within `RENDER_DISTANCE` of the window's centre are ever
/// loaded, and only loaded chunks are ever waiting for a mesh.
pub proof fn lemma_loaded_within_window(world: World, c: ChunkPosition)
    requires
        world.wf(),
    ensures
        world.loaded(c) ==> in_window(world.center(), c),
        world.is_dirty(c) ==> world.loaded(c),
{
    if world.loaded(c) {
        lemma_chunk_key_injective(c, world.chunks@[chunk_key(c)].position);
    }
}


/// Appending an element not yet present keeps a sequence free of
/// duplicates.
pub proof fn lemma_push_no_duplicates<A>(s: Seq<A>, x: A)
    requires
        s.no_duplicates(),
        !s.contains(x),
    ensures
        s.push(x).no_duplicates(),
{
    assert forall|i: int, j: int|
        0 <= i < s.len() + 1 && 0 <= j < s.len() + 1 && i != j implies s.push(x)[i] != s.push(x)[j] by {
        if i == s.len() {
            assert(s[j] != x);
        } else if j == s.len() {
            assert(s[i] != x);
        }
    }
}


/// The `i`-th of the nine chunks around `position` (itself included), row by
/// row.
pub open spec fn source_at(position: ChunkPosition, i: int) -> ChunkPosition {
    ChunkPosition { x: (position.x + i % 3 - 1) as i32, z: (position.z + i / 3 - 1) as i32 }
}

/// The chunk a halo column of `position` is read from.
pub open spec fn source_of(position: ChunkPosition, x: int, z: int) -> ChunkPosition {
    ChunkPosition {
        x: (position.x + source_delta(x)) as i32,
        z: (position.z + source_delta(z)) as i32,
    }
}

/// Chunk positions whose neighbours the arithmetic can reach.
pub open spec fn has_neighbours(position: ChunkPosition) -> bool {
    &&& i32::MIN < position.x < i32::MAX
    &&& i32::MIN < position.z < i32::MAX
}

impl World {
    /// The block at chunk-local `x`, `y`, `z` of chunk `c`; air when the
    /// chunk is not loaded.
    pub closed spec fn chunk_block(&self, c: ChunkPosition, x: int, y: int, z: int) -> Block {
        if self.loaded(c) && in_chunk(x, y, z) {
            self.chunks@[chunk_key(c)].blocks@[cell(x, y, z)]
        } else {
            Block::Air
        }
    }

    /// The skylight at chunk-local `x`, `y`, `z` of chunk `c`; open sky when
    /// the chunk is not loaded.
    pub closed spec fn chunk_light(&self, c: ChunkPosition, x: int, y: int, z: int) -> u8 {
        if self.loaded(c) && in_chunk(x, y, z) {
            self.chunks@[chunk_key(c)].skylight@[cell(x, y, z)]
        } else {
            MAX_SKYLIGHT
        }
    }

    /// The stored height of chunk `c`; 0 when it is not loaded.
    pub closed spec fn chunk_height(&self, c: ChunkPosition) -> int {
        if self.loaded(c) {
            self.chunks@[chunk_key(c)].max_height as int
        } else {
            0
        }
    }

    /// The block at chunk-local `x`, `y`, `z` of `position`, where `x` and
    /// `z` may reach one block into the neighbours: air above and below the
    /// world.
    pub open spec fn around_block(&self, position: ChunkPosition, x: int, y: int, z: int) -> Block {
        if 0 <= y < WORLD_HEIGHT {
            self.chunk_block(
                source_of(position, x, z),
                x - source_delta(x) * CHUNK_SIZE,
                y,
                z - source_delta(z) * CHUNK_SIZE,
            )
        } else {
            Block::Air
        }
    }

    /// The skylight next to `around_block`: dark below the world, open sky
    /// above it.
    pub open spec fn around_light(&self, position: ChunkPosition, x: int, y: int, z: int) -> u8 {
        if y < 0 {
            0
        } else if y >= WORLD_HEIGHT {
            MAX_SKYLIGHT
        } else {
            self.chunk_light(
                source_of(position, x, z),
                x - source_delta(x) * CHUNK_SIZE,
                y,
                z - source_delta(z) * CHUNK_SIZE,
            )
        }
    }

    /// The tallest stored height among the first `n` of the nine chunks
    /// around `position`.
    pub open spec fn sources_height(&self, position: ChunkPosition, n: int) -> int
        decreases n,
    {
        if n <= 0 {
            0
        } else {
            let rest = self.sources_height(position, n - 1);
            let h = self.chunk_height(source_at(position, n - 1));
            if h > rest {
                h
            } else {
                rest
            }
        }
    }

    /// Whether `halo` holds exactly what meshing `position` reads.
    pub open spec fn halo_of(&self, position: ChunkPosition, halo: Halo) -> bool {
        &&& halo.wf()
        &&& halo.height == self.sources_height(position, 9)
        &&& forall|x: int, y: int, z: int|
            in_halo(x, y, z) ==> #[trigger] halo.blocks@[halo_cell(x, y, z)] == self.around_block(
                position,
                x,
                y,
                z,
            ) && halo.skylight@[halo_cell(x, y, z)] == self.around_light(position, x, y, z)
    }
}

/// Copies the part of a halo that comes from `chunk`, the neighbour `dx`,
/// `dz` chunks away: up to the chunk's height block by block, open sky above.
fn copy_source(halo: &mut Halo, chunk: &Chunk, dx: i32, dz: i32)
    requires
        old(halo).wf(),
        chunk.wf(),
        -1 <= dx <= 1,
        -1 <= dz <= 1,
        forall|x: int, y: int, z: int|
            in_halo(x, y, z) && source_delta(x) == dx && source_delta(z) == dz ==> #[trigger] old(
                halo,
            ).blocks@[halo_cell(x, y, z)] == Block::Air && old(halo).skylight@[halo_cell(x, y, z)]
                == MAX_SKYLIGHT,
    ensures
        final(halo).wf(),
        final(halo).height == old(halo).height,
        forall|x: int, y: int, z: int|
            in_halo(x, y, z) ==> #[trigger] final(halo).blocks@[halo_cell(x, y, z)] == if source_delta(
                x,
            ) == dx && source_delta(z) == dz {
                chunk.blocks@[cell(x - dx * CHUNK_SIZE, y, z - dz * CHUNK_SIZE)]
            } else {
                old(halo).blocks@[halo_cell(x, y, z)]
            },
        forall|x: int, y: int, z: int|
            in_halo(x, y, z) ==> #[trigger] final(halo).skylight@[halo_cell(x, y, z)] == if source_delta(
                x,
            ) == dx && source_delta(z) == dz {
                chunk.skylight@[cell(x - dx * CHUNK_SIZE, y, z - dz * CHUNK_SIZE)]
            } else {
                old(halo).skylight@[halo_cell(x, y, z)]
            },
{
    let (x_start, x_end) = span(dx);
    let (z_start, z_end) = span(dz);
    let ghost start = *halo;
    proof {
        lemma_top_below(chunk.blocks@, WORLD_HEIGHT as int);
    }
    let mut hz: i32 = z_start;
    while hz <= z_end
        invariant
            halo.wf(),
            halo.height == start.height,
            start == *old(halo),
            chunk.wf(),
            0 <= chunk.max_height <= WORLD_HEIGHT,
            forall|x: int, y: int, z: int|
                in_halo(x, y, z) && source_delta(x) == dx && source_delta(z) == dz ==> #[trigger] start.blocks@[halo_cell(
                    x,
                    y,
                    z,
                )] == Block::Air && start.skylight@[halo_cell(x, y, z)] == MAX_SKYLIGHT,
            -1 <= dx <= 1,
            -1 <= dz <= 1,
            x_start == span_of(dx as int).0,
            x_end == span_of(dx as int).1,
            z_start == span_of(dz as int).0,
            z_end == span_of(dz as int).1,
            z_start <= hz <= z_end + 1,
            forall|x: int, y: int, z: int|
                in_halo(x, y, z) ==> #[trigger] halo.blocks@[halo_cell(x, y, z)] == if source_delta(x)
                    == dx && source_delta(z) == dz && z < hz {
                    chunk.blocks@[cell(x - dx * CHUNK_SIZE, y, z - dz * CHUNK_SIZE)]
                } else {
                    start.blocks@[halo_cell(x, y, z)]
                },
            forall|x: int, y: int, z: int|
                in_halo(x, y, z) ==> #[trigger] halo.skylight@[halo_cell(x, y, z)] == if source_delta(
                    x,
                ) == dx && source_delta(z) == dz && z < hz {
                    chunk.skylight@[cell(x - dx * CHUNK_SIZE, y, z - dz * CHUNK_SIZE)]
                } else {
                    start.skylight@[halo_cell(x, y, z)]
                },
        decreases z_end + 1 - hz,
    {
        let mut hx: i32 = x_start;
        while hx <= x_end
            invariant
                halo.wf(),
                halo.height == start.height,
                start == *old(halo),
                chunk.wf(),
                0 <= chunk.max_height <= WORLD_HEIGHT,
                forall|x: int, y: int, z: int|
                    in_halo(x, y, z) && source_delta(x) == dx && source_delta(z) == dz ==> #[trigger] start.blocks@[halo_cell(
                        x,
                        y,
                        z,
                    )] == Block::Air && start.skylight@[halo_cell(x, y, z)] == MAX_SKYLIGHT,
                -1 <= dx <= 1,
                -1 <= dz <= 1,
                x_start == span_of(dx as int).0,
                x_end == span_of(dx as int).1,
                z_start == span_of(dz as int).0,
                z_end == span_of(dz as int).1,
                z_start <= hz <= z_end,
                x_start <= hx <= x_end + 1,
                forall|x: int, y: int, z: int|
                    in_halo(x, y, z) ==> #[trigger] halo.blocks@[halo_cell(x, y, z)] == if source_delta(
                        x,
                    ) == dx && source_delta(z) == dz && (z < hz || (z == hz && x < hx)) {
                        chunk.blocks@[cell(x - dx * CHUNK_SIZE, y, z - dz * CHUNK_SIZE)]
                    } else {
                        start.blocks@[halo_cell(x, y, z)]
                    },
                forall|x: int, y: int, z: int|
                    in_halo(x, y, z) ==> #[trigger] halo.skylight@[halo_cell(x, y, z)] == if source_delta(
                        x,
                    ) == dx && source_delta(z) == dz && (z < hz || (z == hz && x < hx)) {
                        chunk.skylight@[cell(x - dx * CHUNK_SIZE, y, z - dz * CHUNK_SIZE)]
                    } else {
                        start.skylight@[halo_cell(x, y, z)]
                    },
            decreases x_end + 1 - hx,
        {
            let lx: i32 = hx - dx * CHUNK_SIZE;
            let lz: i32 = hz - dz * CHUNK_SIZE;
            assert(source_delta(hx as int) == dx && source_delta(hz as int) == dz);
            let ghost column_start = *halo;
            let mut y: i32 = 0;
            while y < chunk.max_height
                invariant
                    halo.wf(),
                    halo.height == start.height,
                    chunk.wf(),
                    0 <= chunk.max_height <= WORLD_HEIGHT,
                    0 <= lx < CHUNK_SIZE,
                    0 <= lz < CHUNK_SIZE,
                    -PAD <= hx < CHUNK_SIZE + PAD,
                    -PAD <= hz < CHUNK_SIZE + PAD,
                    0 <= y <= chunk.max_height,
                    forall|x: int, y2: int, z: int|
                        in_halo(x, y2, z) ==> #[trigger] halo.blocks@[halo_cell(x, y2, z)] == if x == hx
                            && z == hz && y2 < y {
                            chunk.blocks@[cell(lx as int, y2, lz as int)]
                        } else {
                            column_start.blocks@[halo_cell(x, y2, z)]
                        },
                    forall|x: int, y2: int, z: int|
                        in_halo(x, y2, z) ==> #[trigger] halo.skylight@[halo_cell(x, y2, z)] == if x
                            == hx && z == hz && y2 < y {
                            chunk.skylight@[cell(lx as int, y2, lz as int)]
                        } else {
                            column_start.skylight@[halo_cell(x, y2, z)]
                        },
                decreases chunk.max_height - y,
            {
                let local = BlockPos { x: lx, y, z: lz };
                let index = Halo::index(hx, y, hz);
                let block = chunk.get(local);
                let light = chunk.light(local);
                halo.blocks.set(index, block);
                halo.skylight.set(index, light);
                proof {
                    assert forall|x: int, y2: int, z: int| in_halo(x, y2, z) implies #[trigger] halo.blocks@[halo_cell(
                        x,
                        y2,
                        z,
                    )] == if x == hx && z == hz && y2 < y + 1 {
                        chunk.blocks@[cell(lx as int, y2, lz as int)]
                    } else {
                        column_start.blocks@[halo_cell(x, y2, z)]
                    } && halo.skylight@[halo_cell(x, y2, z)] == if x == hx && z == hz && y2 < y + 1 {
                        chunk.skylight@[cell(lx as int, y2, lz as int)]
                    } else {
                        column_start.skylight@[halo_cell(x, y2, z)]
                    } by {
                        lemma_halo_cell(x, y2, z);
                        if halo_cell(x, y2, z) == index {
                            lemma_halo_cell_injective(x, y2, z, hx as int, y as int, hz as int);
                        }
                    }
                }
                y = y + 1;
            }
            let ghost lower = *halo;
            while y < WORLD_HEIGHT
                invariant
                    halo.wf(),
                    halo.height == start.height,
                    chunk.wf(),
                    0 <= chunk.max_height <= WORLD_HEIGHT,
                    0 <= lx < CHUNK_SIZE,
                    0 <= lz < CHUNK_SIZE,
                    -PAD <= hx < CHUNK_SIZE + PAD,
                    -PAD <= hz < CHUNK_SIZE + PAD,
                    chunk.max_height <= y <= WORLD_HEIGHT,
                    halo.blocks == lower.blocks,
                    forall|x: int, y2: int, z: int|
                        in_halo(x, y2, z) ==> #[trigger] halo.skylight@[halo_cell(x, y2, z)] == if x
                            == hx && z == hz && chunk.max_height <= y2 < y {
                            MAX_SKYLIGHT
                        } else {
                            lower.skylight@[halo_cell(x, y2, z)]
                        },
                decreases WORLD_HEIGHT - y,
            {
                let index = Halo::index(hx, y, hz);
                halo.skylight.set(index, MAX_SKYLIGHT);
                proof {
                    assert forall|x: int, y2: int, z: int| in_halo(x, y2, z) implies #[trigger] halo.skylight@[halo_cell(
                        x,
                        y2,
                        z,
                    )] == if x == hx && z == hz && chunk.max_height <= y2 < y + 1 {
                        MAX_SKYLIGHT
                    } else {
                        lower.skylight@[halo_cell(x, y2, z)]
                    } by {
                        lemma_halo_cell(x, y2, z);
                        if halo_cell(x, y2, z) == index {
                            lemma_halo_cell_injective(x, y2, z, hx as int, y as int, hz as int);
                        }
                    }
                }
                y = y + 1;
            }
            proof {
                assert forall|x: int, y2: int, z: int| in_halo(x, y2, z) implies #[trigger] halo.blocks@[halo_cell(
                    x,
                    y2,
                    z,
                )] == if source_delta(x) == dx && source_delta(z) == dz && (z < hz || (z == hz && x < hx
                    + 1)) {
                    chunk.blocks@[cell(x - dx * CHUNK_SIZE, y2, z - dz * CHUNK_SIZE)]
                } else {
                    start.blocks@[halo_cell(x, y2, z)]
                } by {
                    if x == hx && z == hz && y2 >= chunk.max_height {
                        lemma_above_top(*chunk, lx as int, y2, lz as int);
                        assert(column_start.blocks@[halo_cell(x, y2, z)] == start.blocks@[halo_cell(x, y2, z)]);
                    }
                }
                assert forall|x: int, y2: int, z: int| in_halo(x, y2, z) implies #[trigger] halo.skylight@[halo_cell(
                    x,
                    y2,
                    z,
                )] == if source_delta(x) == dx && source_delta(z) == dz && (z < hz || (z == hz && x < hx
                    + 1)) {
                    chunk.skylight@[cell(x - dx * CHUNK_SIZE, y2, z - dz * CHUNK_SIZE)]
                } else {
                    start.skylight@[halo_cell(x, y2, z)]
                } by {
                    if x == hx && z == hz && y2 >= chunk.max_height {
                        lemma_above_top(*chunk, lx as int, y2, lz as int);
                    }
                    assert(lower.skylight@[halo_cell(x, y2, z)] == lower.skylight@[halo_cell(x, y2, z)]);
                }
            }
            hx = hx + 1;
        }
        hz = hz + 1;
    }
}


impl World {
    /// Gathers what meshing `position` reads: its blocks and skylight plus a
    /// one-block skirt from its neighbours, nine chunk lookups in all.
    pub fn build_halo(&self, position: ChunkPosition) -> (halo: Halo)
        requires
            self.wf(),
            has_neighbours(position),
        ensures
            self.halo_of(position, halo),
    {
        let mut halo = Halo {
            blocks: vec![Block::Air; HALO_VOLUME],
            skylight: vec![MAX_SKYLIGHT; HALO_VOLUME],
            height: 0,
        };
        let mut dz: i32 = -1;
        while dz <= 1
            invariant
                self.wf(),
                has_neighbours(position),
                halo.wf(),
                -1 <= dz <= 2,
                halo.height == self.sources_height(position, (dz + 1) * 3),
                forall|x: int, y: int, z: int|
                    in_halo(x, y, z) ==> #[trigger] halo.blocks@[halo_cell(x, y, z)] == if source_delta(z)
                        < dz {
                        self.around_block(position, x, y, z)
                    } else {
                        Block::Air
                    },
                forall|x: int, y: int, z: int|
                    in_halo(x, y, z) ==> #[trigger] halo.skylight@[halo_cell(x, y, z)] == if source_delta(
                        z,
                    ) < dz {
                        self.around_light(position, x, y, z)
                    } else {
                        MAX_SKYLIGHT
                    },
            decreases 2 - dz,
        {
            let mut dx: i32 = -1;
            while dx <= 1
                invariant
                    self.wf(),
                    has_neighbours(position),
                    halo.wf(),
                    -1 <= dz <= 1,
                    -1 <= dx <= 2,
                    halo.height == self.sources_height(position, (dz + 1) * 3 + dx + 1),
                    forall|x: int, y: int, z: int|
                        in_halo(x, y, z) ==> #[trigger] halo.blocks@[halo_cell(x, y, z)] == if source_delta(
                            z,
                        ) < dz || (source_delta(z) == dz && source_delta(x) < dx) {
                            self.around_block(position, x, y, z)
                        } else {
                            Block::Air
                        },
                    forall|x: int, y: int, z: int|
                        in_halo(x, y, z) ==> #[trigger] halo.skylight@[halo_cell(x, y, z)] == if source_delta(
                            z,
                        ) < dz || (source_delta(z) == dz && source_delta(x) < dx) {
                            self.around_light(position, x, y, z)
                        } else {
                            MAX_SKYLIGHT
                        },
                decreases 2 - dx,
            {
                let source = ChunkPosition { x: position.x + dx, z: position.z + dz };
                let ghost n = (dz + 1) * 3 + dx + 1;
                assert(source_at(position, n) == source) by {
                    assert(n % 3 == dx + 1 && n / 3 == dz + 1) by (nonlinear_arith)
                        requires
                            n == (dz + 1) * 3 + dx + 1,
                            0 <= dx + 1 < 3,
                            0 <= dz + 1 < 3,
                    ;
                }
                let ghost before = halo;
                match self.chunks.get(&source.key()) {
                    Some(chunk) => {
                        proof {
                            lemma_top_below(chunk.blocks@, WORLD_HEIGHT as int);
                            lemma_chunk_key_injective(chunk.position, source);
                        }
                        if chunk.max_height > halo.height {
                            halo.height = chunk.max_height;
                        }
                        copy_source(&mut halo, chunk, dx, dz);
                        proof {
                            assert forall|x: int, y: int, z: int| in_halo(x, y, z) implies #[trigger] halo.blocks@[halo_cell(
                                x,
                                y,
                                z,
                            )] == if source_delta(z) < dz || (source_delta(z) == dz && source_delta(x) < dx
                                + 1) {
                                self.around_block(position, x, y, z)
                            } else {
                                Block::Air
                            } by {
                                if source_delta(x) == dx && source_delta(z) == dz {
                                    assert(source_of(position, x, z) == source);
                                    lemma_cell(x - dx * CHUNK_SIZE, y, z - dz * CHUNK_SIZE);
                                }
                            }
                            assert forall|x: int, y: int, z: int| in_halo(x, y, z) implies #[trigger] halo.skylight@[halo_cell(
                                x,
                                y,
                                z,
                            )] == if source_delta(z) < dz || (source_delta(z) == dz && source_delta(x) < dx
                                + 1) {
                                self.around_light(position, x, y, z)
                            } else {
                                MAX_SKYLIGHT
                            } by {
                                if source_delta(x) == dx && source_delta(z) == dz {
                                    assert(source_of(position, x, z) == source);
                                    lemma_cell(x - dx * CHUNK_SIZE, y, z - dz * CHUNK_SIZE);
                                }
                            }
                        }
                    },
                    None => {
                        proof {
                            assert forall|x: int, y: int, z: int| in_halo(x, y, z) implies #[trigger] halo.blocks@[halo_cell(
                                x,
                                y,
                                z,
                            )] == if source_delta(z) < dz || (source_delta(z) == dz && source_delta(x) < dx
                                + 1) {
                                self.around_block(position, x, y, z)
                            } else {
                                Block::Air
                            } by {
                                if source_delta(x) == dx && source_delta(z) == dz {
                                    assert(source_of(position, x, z) == source);
                                }
                            }
                            assert forall|x: int, y: int, z: int| in_halo(x, y, z) implies #[trigger] halo.skylight@[halo_cell(
                                x,
                                y,
                                z,
                            )] == if source_delta(z) < dz || (source_delta(z) == dz && source_delta(x) < dx
                                + 1) {
                                self.around_light(position, x, y, z)
                            } else {
                                MAX_SKYLIGHT
                            } by {
                                if source_delta(x) == dx && source_delta(z) == dz {
                                    assert(source_of(position, x, z) == source);
                                }
                            }
                        }
                    },
                }
                dx = dx + 1;
            }
            dz = dz + 1;
        }
        halo
    }
}


impl World {
    /// What meshing chunk `position` reads of the world.
    pub open spec fn surroundings(&self, position: ChunkPosition) -> Surroundings {
        Surroundings {
            block: |x: int, y: int, z: int| self.around_block(position, x, y, z),
            light: |x: int, y: int, z: int| self.around_light(position, x, y, z),
        }
    }
}

/// A halo built for a chunk shows that chunk's surroundings.
pub proof fn lemma_halo_shows(world: World, position: ChunkPosition, halo: Halo)
    requires
        world.halo_of(position, halo),
    ensures
        halo_shows(halo, world.surroundings(position)),
{
    let s = world.surroundings(position);
    assert forall|x: int, y: int, z: int|
        -PAD <= x < CHUNK_SIZE + PAD && -PAD <= z < CHUNK_SIZE + PAD implies #[trigger] halo_block(
        halo.blocks@,
        x,
        y,
        z,
    ) == (s.block)(x, y, z) && halo_light(halo.skylight@, x, y, z) == (s.light)(x, y, z) by {
        if 0 <= y < WORLD_HEIGHT {
            assert(in_halo(x, y, z));
        }
    }
}

} // verus!
