//! One chunk: a column of `CHUNK_SIZE` × `WORLD_HEIGHT` × `CHUNK_SIZE`
//! blocks with their skylight and the height of their tallest block.

use vstd::prelude::*;

use crate::world::block::{solid, Block};
use crate::world::position::{BlockPos, ChunkPosition, CHUNK_SIZE, WORLD_HEIGHT};
use crate::world::terrain::{surface, surface_block, tree_at, tree_height};

verus! {

/// Blocks in one chunk.
pub const CHUNK_VOLUME: usize = 12288;

/// Full daylight level stored per block.
pub const MAX_SKYLIGHT: u8 = 15;

/// Whether chunk-local coordinates name a cell of the chunk.
pub open spec fn in_chunk(x: int, y: int, z: int) -> bool {
    &&& 0 <= x < CHUNK_SIZE
    &&& 0 <= y < WORLD_HEIGHT
    &&& 0 <= z < CHUNK_SIZE
}

/// Where cell `x`, `y`, `z` is stored: x fastest, then z, then y.
pub open spec fn cell(x: int, y: int, z: int) -> int {
    x + z * CHUNK_SIZE + y * CHUNK_SIZE * CHUNK_SIZE
}

/// The block at chunk-local `x`, `y`, `z`; air outside the chunk.
pub open spec fn block_in(blocks: Seq<Block>, x: int, y: int, z: int) -> Block {
    if in_chunk(x, y, z) {
        blocks[cell(x, y, z)]
    } else {
        Block::Air
    }
}

/// Whether some solid block sits in column `x`, `z` at height `y` or above.
pub open spec fn covered(blocks: Seq<Block>, x: int, y: int, z: int) -> bool
    decreases WORLD_HEIGHT - y,
{
    if y >= WORLD_HEIGHT {
        false
    } else if y < 0 {
        covered(blocks, x, 0, z)
    } else {
        solid(block_in(blocks, x, y, z)) || covered(blocks, x, y + 1, z)
    }
}

/// Vertical-only skylight: full daylight down to the first opaque block,
/// dark from there down.
pub open spec fn skylight_at(blocks: Seq<Block>, x: int, y: int, z: int) -> u8 {
    if covered(blocks, x, y, z) {
        0
    } else {
        MAX_SKYLIGHT
    }
}

/// Whether layer `y` holds a solid block.
pub open spec fn layer_solid(blocks: Seq<Block>, y: int) -> bool {
    exists|x: int, z: int|
        0 <= x < CHUNK_SIZE && 0 <= z < CHUNK_SIZE && #[trigger] solid(blocks[cell(x, y, z)])
}

/// One past the highest solid layer below `y`, or 0 when there is none.
pub open spec fn top_below(blocks: Seq<Block>, y: int) -> int
    decreases y,
{
    if y <= 0 {
        0
    } else if layer_solid(blocks, y - 1) {
        y
    } else {
        top_below(blocks, y - 1)
    }
}

/// One past the highest solid block of a chunk, or 0 for an empty one.
pub open spec fn max_height_of(blocks: Seq<Block>) -> int {
    top_below(blocks, WORLD_HEIGHT as int)
}

/// Blocks and skylight for one chunk.
pub struct Chunk {
    pub position: ChunkPosition,
    pub blocks: Vec<Block>,
    pub skylight: Vec<u8>,
    /// One past the highest non-air block, so meshing can stop early instead
    /// of scanning the full `WORLD_HEIGHT` of mostly empty sky.
    pub max_height: i32,
}

impl Chunk {
    /// The stored skylight and height agree with the blocks.
    pub open spec fn wf(&self) -> bool {
        &&& self.blocks@.len() == CHUNK_VOLUME
        &&& self.skylight@.len() == CHUNK_VOLUME
        &&& self.max_height == max_height_of(self.blocks@)
        &&& forall|x: int, y: int, z: int|
            in_chunk(x, y, z) ==> #[trigger] self.skylight@[cell(x, y, z)] == skylight_at(
                self.blocks@,
                x,
                y,
                z,
            )
    }

    /// The block at chunk-local `x`, `y`, `z`, air outside.
    pub open spec fn block(&self, x: int, y: int, z: int) -> Block {
        block_in(self.blocks@, x, y, z)
    }

    /// Where a chunk-local cell is stored, if it lies inside the chunk.
    pub fn index(local: BlockPos) -> (r: Option<usize>)
        ensures
            match r {
                Some(i) => in_chunk(local.x as int, local.y as int, local.z as int) && i == cell(
                    local.x as int,
                    local.y as int,
                    local.z as int,
                ),
                None => !in_chunk(local.x as int, local.y as int, local.z as int),
            },
    {
        if local.x < 0 || local.x >= CHUNK_SIZE || local.y < 0 || local.y >= WORLD_HEIGHT
            || local.z < 0 || local.z >= CHUNK_SIZE {
            return None;
        }
        Some((local.x + local.z * CHUNK_SIZE + local.y * CHUNK_SIZE * CHUNK_SIZE) as usize)
    }

    pub fn get_opt(&self, local: BlockPos) -> (r: Option<Block>)
        requires
            self.blocks@.len() == CHUNK_VOLUME,
        ensures
            match r {
                Some(b) => in_chunk(local.x as int, local.y as int, local.z as int) && b
                    == self.block(local.x as int, local.y as int, local.z as int),
                None => !in_chunk(local.x as int, local.y as int, local.z as int),
            },
    {
        match Self::index(local) {
            Some(i) => Some(self.blocks[i]),
            None => None,
        }
    }

    pub fn get(&self, local: BlockPos) -> (r: Block)
        requires
            self.blocks@.len() == CHUNK_VOLUME,
        ensures
            r == self.block(local.x as int, local.y as int, local.z as int),
    {
        match self.get_opt(local) {
            Some(b) => b,
            None => Block::Air,
        }
    }

    /// Stored skylight; open sky outside the chunk.
    pub fn light(&self, local: BlockPos) -> (r: u8)
        requires
            self.skylight@.len() == CHUNK_VOLUME,
        ensures
            r == if in_chunk(local.x as int, local.y as int, local.z as int) {
                self.skylight@[cell(local.x as int, local.y as int, local.z as int)]
            } else {
                MAX_SKYLIGHT
            },
    {
        match Self::index(local) {
            Some(i) => self.skylight[i],
            None => MAX_SKYLIGHT,
        }
    }

    /// Writes a block without touching skylight or height; a cell outside
    /// the chunk is skipped.
    pub fn set_raw(&mut self, local: BlockPos, block: Block) -> (r: bool)
        requires
            old(self).blocks@.len() == CHUNK_VOLUME,
        ensures
            r == in_chunk(local.x as int, local.y as int, local.z as int),
            final(self).blocks@ == if r {
                old(self).blocks@.update(
                    cell(local.x as int, local.y as int, local.z as int),
                    block,
                )
            } else {
                old(self).blocks@
            },
            final(self).skylight == old(self).skylight,
            final(self).max_height == old(self).max_height,
            final(self).position == old(self).position,
    {
        match Self::index(local) {
            Some(i) => {
                self.blocks.set(i, block);
                true
            },
            None => false,
        }
    }
}


/// A cell's storage index splits back into its coordinates.
pub proof fn lemma_cell(x: int, y: int, z: int)
    requires
        in_chunk(x, y, z),
    ensures
        0 <= cell(x, y, z) < CHUNK_VOLUME,
        0 <= x + z * CHUNK_SIZE < 256,
        cell(x, y, z) % 256 == x + z * CHUNK_SIZE,
        cell(x, y, z) / 256 == y,
        (x + z * CHUNK_SIZE) % (CHUNK_SIZE as int) == x,
        (x + z * CHUNK_SIZE) / (CHUNK_SIZE as int) == z,
{
    assert((x + z * 16) % 16 == x && (x + z * 16) / 16 == z) by (nonlinear_arith)
        requires
            0 <= x < 16,
            0 <= z < 16,
    ;
    assert(0 <= x + z * 16 < 256) by (nonlinear_arith)
        requires
            0 <= x < 16,
            0 <= z < 16,
    ;
    assert(cell(x, y, z) == (x + z * 16) + y * 256);
    assert((x + z * 16 + y * 256) % 256 == x + z * 16 && (x + z * 16 + y * 256) / 256 == y)
        by (nonlinear_arith)
        requires
            0 <= x + z * 16 < 256,
            0 <= y,
    ;
}

/// Two cells of a chunk share an index only if they are the same cell.
pub proof fn lemma_cell_injective(x1: int, y1: int, z1: int, x2: int, y2: int, z2: int)
    requires
        in_chunk(x1, y1, z1),
        in_chunk(x2, y2, z2),
        cell(x1, y1, z1) == cell(x2, y2, z2),
    ensures
        x1 == x2 && y1 == y2 && z1 == z2,
{
    lemma_cell(x1, y1, z1);
    lemma_cell(x2, y2, z2);
}

/// Whether a column reads the same in two block arrays.
pub open spec fn same_column(b1: Seq<Block>, b2: Seq<Block>, x: int, z: int) -> bool {
    forall|y: int| 0 <= y < WORLD_HEIGHT ==> #[trigger] block_in(b1, x, y, z) == block_in(b2, x, y, z)
}

/// Skylight depends on the blocks of its own column only.
pub proof fn lemma_covered_same(b1: Seq<Block>, b2: Seq<Block>, x: int, y: int, z: int)
    requires
        same_column(b1, b2, x, z),
    ensures
        covered(b1, x, y, z) == covered(b2, x, y, z),
    decreases WORLD_HEIGHT - y,
{
    if y >= WORLD_HEIGHT {
    } else if y < 0 {
        lemma_covered_same(b1, b2, x, 0, z);
    } else {
        assert(block_in(b1, x, y, z) == block_in(b2, x, y, z));
        lemma_covered_same(b1, b2, x, y + 1, z);
    }
}

/// What `top_below` is: the layer under it is solid (unless it is 0) and no
/// layer from it up to `n` is.
pub proof fn lemma_top_below(blocks: Seq<Block>, n: int)
    ensures
        0 <= top_below(blocks, n),
        n >= 0 ==> top_below(blocks, n) <= n,
        top_below(blocks, n) > 0 ==> layer_solid(blocks, top_below(blocks, n) - 1),
        forall|y: int| top_below(blocks, n) <= y < n ==> !#[trigger] layer_solid(blocks, y),
    decreases n,
{
    if n > 0 && !layer_solid(blocks, n - 1) {
        lemma_top_below(blocks, n - 1);
    }
}

/// `top_below` is the only height with the properties above.
pub proof fn lemma_top_below_unique(blocks: Seq<Block>, n: int, t: int)
    requires
        0 <= t <= n,
        t > 0 ==> layer_solid(blocks, t - 1),
        forall|y: int| t <= y < n ==> !#[trigger] layer_solid(blocks, y),
    ensures
        top_below(blocks, n) == t,
    decreases n,
{
    if n > t {
        assert(!layer_solid(blocks, n - 1));
        lemma_top_below_unique(blocks, n - 1, t);
    }
}

/// Writing one cell leaves every other layer as solid as it was.
pub proof fn lemma_layer_update(blocks: Seq<Block>, x: int, y: int, z: int, b: Block, layer: int)
    requires
        blocks.len() == CHUNK_VOLUME,
        in_chunk(x, y, z),
        0 <= layer < WORLD_HEIGHT,
        layer != y,
    ensures
        layer_solid(blocks.update(cell(x, y, z), b), layer) == layer_solid(blocks, layer),
{
    let nb = blocks.update(cell(x, y, z), b);
    if layer_solid(nb, layer) {
        let (wx, wz) = choose|wx: int, wz: int|
            0 <= wx < CHUNK_SIZE && 0 <= wz < CHUNK_SIZE && #[trigger] solid(nb[cell(wx, layer, wz)]);
        lemma_cell(wx, layer, wz);
        if cell(wx, layer, wz) == cell(x, y, z) {
            lemma_cell_injective(wx, layer, wz, x, y, z);
        }
        assert(solid(blocks[cell(wx, layer, wz)]));
    }
    if layer_solid(blocks, layer) {
        let (wx, wz) = choose|wx: int, wz: int|
            0 <= wx < CHUNK_SIZE && 0 <= wz < CHUNK_SIZE && #[trigger] solid(blocks[cell(wx, layer, wz)]);
        lemma_cell(wx, layer, wz);
        if cell(wx, layer, wz) == cell(x, y, z) {
            lemma_cell_injective(wx, layer, wz, x, y, z);
        }
        assert(solid(nb[cell(wx, layer, wz)]));
    }
}

/// Whether every in-chunk cell holds the skylight its column calls for.
pub open spec fn skylight_ok(blocks: Seq<Block>, skylight: Seq<u8>) -> bool {
    forall|x: int, y: int, z: int|
        in_chunk(x, y, z) ==> #[trigger] skylight[cell(x, y, z)] == skylight_at(blocks, x, y, z)
}

impl Chunk {
    /// Whether layer `y` holds a solid block.
    fn layer_has_solid(&self, y: i32) -> (r: bool)
        requires
            self.blocks@.len() == CHUNK_VOLUME,
            0 <= y < WORLD_HEIGHT,
        ensures
            r == layer_solid(self.blocks@, y as int),
    {
        let base: usize = (y * CHUNK_SIZE * CHUNK_SIZE) as usize;
        let mut i: usize = 0;
        while i < 256
            invariant
                self.blocks@.len() == CHUNK_VOLUME,
                0 <= y < WORLD_HEIGHT,
                base == y * 256,
                i <= 256,
                forall|j: int| 0 <= j < i ==> !solid(#[trigger] self.blocks@[base + j]),
            decreases 256 - i,
        {
            if self.blocks[base + i].is_solid() {
                proof {
                    let x = (i % 16) as int;
                    let z = (i / 16) as int;
                    assert(cell(x, y as int, z) == base + i);
                    assert(solid(self.blocks@[cell(x, y as int, z)]));
                }
                return true;
            }
            i = i + 1;
        }
        proof {
            assert forall|x: int, z: int|
                0 <= x < CHUNK_SIZE && 0 <= z < CHUNK_SIZE implies !#[trigger] solid(
                self.blocks@[cell(x, y as int, z)],
            ) by {
                lemma_cell(x, y as int, z);
                assert(self.blocks@[base + (x + z * 16)] == self.blocks@[cell(x, y as int, z)]);
            }
        }
        false
    }

    /// Recomputes `max_height` from scratch, scanning down from the top.
    pub fn refresh_max_height(&mut self)
        requires
            old(self).blocks@.len() == CHUNK_VOLUME,
        ensures
            final(self).max_height == max_height_of(final(self).blocks@),
            final(self).blocks == old(self).blocks,
            final(self).skylight == old(self).skylight,
            final(self).position == old(self).position,
    {
        let mut y: i32 = WORLD_HEIGHT;
        while y > 0
            invariant
                self.blocks@.len() == CHUNK_VOLUME,
                0 <= y <= WORLD_HEIGHT,
                max_height_of(self.blocks@) == top_below(self.blocks@, y as int),
                self.blocks == old(self).blocks,
                self.skylight == old(self).skylight,
                self.position == old(self).position,
            decreases y,
        {
            if self.layer_has_solid(y - 1) {
                self.max_height = y;
                return;
            }
            y = y - 1;
        }
        self.max_height = 0;
    }

    /// Lights column `x`, `z` from the top: full daylight down to the first
    /// opaque block, dark underneath.
    pub fn recompute_column_skylight(&mut self, x: i32, z: i32)
        requires
            old(self).blocks@.len() == CHUNK_VOLUME,
            old(self).skylight@.len() == CHUNK_VOLUME,
            0 <= x < CHUNK_SIZE,
            0 <= z < CHUNK_SIZE,
        ensures
            final(self).blocks == old(self).blocks,
            final(self).max_height == old(self).max_height,
            final(self).position == old(self).position,
            final(self).skylight@.len() == CHUNK_VOLUME,
            forall|i: int|
                0 <= i < CHUNK_VOLUME ==> #[trigger] final(self).skylight@[i] == if i % 256 == x
                    + z * CHUNK_SIZE {
                    skylight_at(old(self).blocks@, x as int, i / 256, z as int)
                } else {
                    old(self).skylight@[i]
                },
    {
        let ghost blocks = self.blocks@;
        let ghost column = x + z * CHUNK_SIZE;
        proof {
            lemma_cell(x as int, 0, z as int);
        }
        let mut light: u8 = MAX_SKYLIGHT;
        let mut y: i32 = WORLD_HEIGHT;
        while y > 0
            invariant
                self.blocks@ == blocks,
                blocks.len() == CHUNK_VOLUME,
                self.skylight@.len() == CHUNK_VOLUME,
                self.blocks == old(self).blocks,
                self.max_height == old(self).max_height,
                self.position == old(self).position,
                0 <= x < CHUNK_SIZE,
                0 <= z < CHUNK_SIZE,
                0 <= column < 256,
                column == x + z * CHUNK_SIZE,
                0 <= y <= WORLD_HEIGHT,
                light == skylight_at(blocks, x as int, y as int, z as int),
                forall|i: int|
                    0 <= i < CHUNK_VOLUME ==> #[trigger] self.skylight@[i] == if i % 256 == column
                        && i / 256 >= y {
                        skylight_at(blocks, x as int, i / 256, z as int)
                    } else {
                        old(self).skylight@[i]
                    },
            decreases y,
        {
            y = y - 1;
            let index: usize = (x + z * CHUNK_SIZE + y * CHUNK_SIZE * CHUNK_SIZE) as usize;
            proof {
                lemma_cell(x as int, y as int, z as int);
            }
            if self.blocks[index].blocks_light() {
                light = 0;
            }
            assert(light == skylight_at(blocks, x as int, y as int, z as int));
            self.skylight.set(index, light);
            proof {
                assert forall|i: int| 0 <= i < CHUNK_VOLUME implies #[trigger] self.skylight@[i]
                    == if i % 256 == column && i / 256 >= y {
                    skylight_at(blocks, x as int, i / 256, z as int)
                } else {
                    old(self).skylight@[i]
                } by {
                    if i == index as int {
                    } else if i % 256 == column && i / 256 == y {
                        assert(i == (i / 256) * 256 + i % 256) by (nonlinear_arith)
                            requires
                                0 <= i,
                        ;
                    }
                }
            }
        }
    }
}


/// Writing one cell changes no column but its own.
pub proof fn lemma_other_column_same(blocks: Seq<Block>, x: int, y: int, z: int, b: Block, x2: int, z2: int)
    requires
        blocks.len() == CHUNK_VOLUME,
        in_chunk(x, y, z),
        x2 != x || z2 != z,
    ensures
        same_column(blocks.update(cell(x, y, z), b), blocks, x2, z2),
{
    assert forall|y2: int| 0 <= y2 < WORLD_HEIGHT implies #[trigger] block_in(
        blocks.update(cell(x, y, z), b),
        x2,
        y2,
        z2,
    ) == block_in(blocks, x2, y2, z2) by {
        if in_chunk(x2, y2, z2) {
            if cell(x2, y2, z2) == cell(x, y, z) {
                lemma_cell_injective(x2, y2, z2, x, y, z);
            }
            lemma_cell(x2, y2, z2);
        }
    }
}

impl Chunk {
    /// Relights every column.
    pub fn recompute_skylight(&mut self)
        requires
            old(self).blocks@.len() == CHUNK_VOLUME,
            old(self).skylight@.len() == CHUNK_VOLUME,
        ensures
            final(self).blocks == old(self).blocks,
            final(self).max_height == old(self).max_height,
            final(self).position == old(self).position,
            final(self).skylight@.len() == CHUNK_VOLUME,
            skylight_ok(final(self).blocks@, final(self).skylight@),
    {
        let ghost blocks = self.blocks@;
        let mut z: i32 = 0;
        while z < CHUNK_SIZE
            invariant
                self.blocks == old(self).blocks,
                self.blocks@ == blocks,
                blocks.len() == CHUNK_VOLUME,
                self.max_height == old(self).max_height,
                self.position == old(self).position,
                self.skylight@.len() == CHUNK_VOLUME,
                0 <= z <= CHUNK_SIZE,
                forall|x2: int, y2: int, z2: int|
                    in_chunk(x2, y2, z2) && z2 < z ==> #[trigger] self.skylight@[cell(x2, y2, z2)]
                        == skylight_at(blocks, x2, y2, z2),
            decreases CHUNK_SIZE - z,
        {
            let mut x: i32 = 0;
            while x < CHUNK_SIZE
                invariant
                    self.blocks == old(self).blocks,
                    self.blocks@ == blocks,
                    blocks.len() == CHUNK_VOLUME,
                    self.max_height == old(self).max_height,
                    self.position == old(self).position,
                    self.skylight@.len() == CHUNK_VOLUME,
                    0 <= z < CHUNK_SIZE,
                    0 <= x <= CHUNK_SIZE,
                    forall|x2: int, y2: int, z2: int|
                        in_chunk(x2, y2, z2) && (z2 < z || (z2 == z && x2 < x)) ==> #[trigger] self.skylight@[cell(
                            x2,
                            y2,
                            z2,
                        )] == skylight_at(blocks, x2, y2, z2),
                decreases CHUNK_SIZE - x,
            {
                let ghost before = self.skylight@;
                self.recompute_column_skylight(x, z);
                proof {
                    assert forall|x2: int, y2: int, z2: int|
                        in_chunk(x2, y2, z2) && (z2 < z || (z2 == z && x2 < x + 1)) implies #[trigger] self.skylight@[cell(
                            x2,
                            y2,
                            z2,
                        )] == skylight_at(blocks, x2, y2, z2) by {
                        lemma_cell(x2, y2, z2);
                        lemma_cell(x as int, y2, z as int);
                        if cell(x2, 0, z2) % 256 == x + z * 16 {
                            lemma_cell(x2, 0, z2);
                        }
                    }
                }
                x = x + 1;
            }
            z = z + 1;
        }
    }

    /// Writes a block and keeps skylight and `max_height` in step; a cell
    /// outside the chunk is refused.
    pub fn set(&mut self, local: BlockPos, block: Block) -> (r: bool)
        requires
            old(self).wf(),
        ensures
            final(self).wf(),
            r == in_chunk(local.x as int, local.y as int, local.z as int),
            final(self).blocks@ == if r {
                old(self).blocks@.update(
                    cell(local.x as int, local.y as int, local.z as int),
                    block,
                )
            } else {
                old(self).blocks@
            },
            final(self).position == old(self).position,
    {
        let ghost old_blocks = self.blocks@;
        let ghost old_sky = self.skylight@;
        let ghost old_top = self.max_height as int;
        if !self.set_raw(local, block) {
            return false;
        }
        let ghost (x, y, z) = (local.x as int, local.y as int, local.z as int);
        let ghost new_blocks = self.blocks@;
        self.recompute_column_skylight(local.x, local.z);
        proof {
            assert forall|x2: int, y2: int, z2: int| in_chunk(x2, y2, z2) implies #[trigger] self.skylight@[cell(
                x2,
                y2,
                z2,
            )] == skylight_at(new_blocks, x2, y2, z2) by {
                lemma_cell(x2, y2, z2);
                lemma_cell(x, y, z);
                if x2 != x || z2 != z {
                    if cell(x2, y2, z2) % 256 == x + z * 16 {
                        lemma_cell(x2, 0, z2);
                        lemma_cell(x, 0, z);
                        lemma_cell_injective(x2, 0, z2, x, 0, z);
                    }
                    lemma_other_column_same(old_blocks, x, y, z, block, x2, z2);
                    lemma_covered_same(new_blocks, old_blocks, x2, y2, z2);
                }
            }
            lemma_top_below(old_blocks, WORLD_HEIGHT as int);
            lemma_cell(x, y, z);
        }
        if block.is_solid() {
            if local.y + 1 > self.max_height {
                self.max_height = local.y + 1;
            }
            proof {
                let t = self.max_height as int;
                assert(layer_solid(new_blocks, y)) by {
                    assert(solid(new_blocks[cell(x, y, z)]));
                }
                if t > 0 && t - 1 != y {
                    lemma_layer_update(old_blocks, x, y, z, block, t - 1);
                }
                assert forall|l: int| t <= l < WORLD_HEIGHT implies !#[trigger] layer_solid(new_blocks, l) by {
                    lemma_layer_update(old_blocks, x, y, z, block, l);
                }
                lemma_top_below_unique(new_blocks, WORLD_HEIGHT as int, t);
            }
        } else if local.y + 1 >= self.max_height {
            self.refresh_max_height();
        } else {
            proof {
                let t = self.max_height as int;
                lemma_layer_update(old_blocks, x, y, z, block, t - 1);
                assert forall|l: int| t <= l < WORLD_HEIGHT implies !#[trigger] layer_solid(new_blocks, l) by {
                    lemma_layer_update(old_blocks, x, y, z, block, l);
                }
                lemma_top_below_unique(new_blocks, WORLD_HEIGHT as int, t);
            }
        }
        true
    }
}


// ---------------------------------------------------------------- generation

/// How far a tree may spill outside the chunk that owns its trunk. Chunks
/// scan this margin into their neighbours so canopies are never cut at a
/// border.
pub const TREE_MARGIN: i32 = 3;

/// Width of the square of columns a chunk's generation reads: the chunk and
/// `TREE_MARGIN` on every side.
pub const HEIGHT_SPAN: i32 = 22;

/// Number of columns a chunk's generation reads.
pub const HEIGHT_CELLS: usize = 484;

/// Where the surface height of chunk-local column `ox`, `oz` (each in
/// `-TREE_MARGIN..CHUNK_SIZE + TREE_MARGIN`) is kept in a height map.
pub open spec fn height_index(ox: int, oz: int) -> int {
    (ox + TREE_MARGIN) + (oz + TREE_MARGIN) * HEIGHT_SPAN
}

/// The chunk-local column the `k`-th entry of a height map describes.
pub open spec fn column_x(k: int) -> int {
    k % (HEIGHT_SPAN as int) - TREE_MARGIN
}

pub open spec fn column_z(k: int) -> int {
    k / (HEIGHT_SPAN as int) - TREE_MARGIN
}

/// The world coordinate of chunk-local offset `offset` in chunk `chunk`,
/// on 32 bits.
pub open spec fn world_coord(chunk: i32, offset: int) -> i32 {
    (chunk * CHUNK_SIZE + offset) as i32
}

/// The trunk height of the tree on the `k`-th column of a height map.
pub open spec fn tree_of(position: ChunkPosition, heights: Seq<i32>, seed: u32, k: int) -> Option<
    int,
> {
    tree_height(
        seed,
        heights[k] as int,
        world_coord(position.x, column_x(k)),
        world_coord(position.z, column_z(k)),
    )
}

/// Whether a tree on column `ox`, `oz` with its ground at `ground` and a
/// trunk `trunk` tall has wood at `x`, `y`, `z`.
pub open spec fn trunk_cell(ox: int, oz: int, ground: int, trunk: int, x: int, y: int, z: int) -> bool {
    x == ox && z == oz && ground + 1 <= y < ground + 1 + trunk
}

/// Whether the leaf layer at height `layer` of radius `radius` around column
/// `ox`, `oz` covers `x`, `y`, `z`. The corners of a wide layer are clipped
/// so the canopy reads round rather than cubic.
pub open spec fn layer_cell(ox: int, oz: int, layer: int, radius: int, x: int, y: int, z: int) -> bool {
    &&& y == layer
    &&& layer < WORLD_HEIGHT
    &&& ox - radius <= x <= ox + radius
    &&& oz - radius <= z <= oz + radius
    &&& !(radius > 1 && (x == ox - radius || x == ox + radius) && (z == oz - radius || z
        == oz + radius))
}

/// The canopy of a tree whose trunk ends below `top`: two wide layers, then a
/// small cap.
pub open spec fn canopy_cell(ox: int, oz: int, top: int, x: int, y: int, z: int) -> bool {
    ||| layer_cell(ox, oz, top - 2, 2, x, y, z)
    ||| layer_cell(ox, oz, top - 1, 2, x, y, z)
    ||| layer_cell(ox, oz, top, 1, x, y, z)
    ||| layer_cell(ox, oz, top + 1, 1, x, y, z)
}

/// The canopy's shape, layer by layer around its column: the two wide layers
/// just below `top` are five by five squares without their four corners
/// (21 cells each), the two cap layers at `top` and above are full three by
/// three squares, and nothing else is leaves; no layer reaches the top of
/// the world.
pub proof fn lemma_canopy_shape(ox: int, oz: int, top: int, x: int, y: int, z: int)
    ensures
        canopy_cell(ox, oz, top, x, y, z) <==> {
            let dx = x - ox;
            let dz = z - oz;
            &&& y < WORLD_HEIGHT
            &&& {
                ||| (y == top - 2 || y == top - 1) && -2 <= dx <= 2 && -2 <= dz <= 2 && !((dx == 2
                    || dx == -2) && (dz == 2 || dz == -2))
                ||| (y == top || y == top + 1) && -1 <= dx <= 1 && -1 <= dz <= 1
            }
        },
{
}

/// Whether the canopy of the tree on the `k`-th column covers a cell.
pub open spec fn tree_canopy(
    position: ChunkPosition,
    heights: Seq<i32>,
    seed: u32,
    k: int,
    x: int,
    y: int,
    z: int,
) -> bool {
    match tree_of(position, heights, seed, k) {
        Some(trunk) => canopy_cell(column_x(k), column_z(k), heights[k] + 1 + trunk, x, y, z),
        None => false,
    }
}

/// Whether any of the trees on the first `k` columns has leaves at a cell.
pub open spec fn canopy_before(
    position: ChunkPosition,
    heights: Seq<i32>,
    seed: u32,
    k: int,
    x: int,
    y: int,
    z: int,
) -> bool
    decreases k,
{
    if k <= 0 {
        false
    } else {
        canopy_before(position, heights, seed, k - 1, x, y, z) || tree_canopy(
            position,
            heights,
            seed,
            k - 1,
            x,
            y,
            z,
        )
    }
}

/// A chunk-local cell once the trees of the first `k` columns are planted:
/// terrain up to the surface, then the column's own trunk, then leaves of
/// any tree reaching it, then air.
pub open spec fn planted(
    position: ChunkPosition,
    heights: Seq<i32>,
    seed: u32,
    k: int,
    x: int,
    y: int,
    z: int,
) -> Block {
    let own = height_index(x, z);
    let ground = heights[own] as int;
    if y <= ground {
        surface(ground, y)
    } else if own < k && (tree_of(position, heights, seed, own) matches Some(trunk) && y < ground + 1
        + trunk) {
        Block::Wood
    } else if canopy_before(position, heights, seed, k, x, y, z) {
        Block::Leaves
    } else {
        Block::Air
    }
}

/// A generated chunk-local cell: terrain, trunks, leaves, air.
pub open spec fn generated(position: ChunkPosition, heights: Seq<i32>, seed: u32, x: int, y: int, z: int) -> Block {
    planted(position, heights, seed, HEIGHT_CELLS as int, x, y, z)
}

/// Every in-chunk cell of `blocks` is as `planted` says after `k` columns.
pub open spec fn planted_upto(
    blocks: Seq<Block>,
    position: ChunkPosition,
    heights: Seq<i32>,
    seed: u32,
    k: int,
) -> bool {
    forall|x: int, y: int, z: int|
        in_chunk(x, y, z) ==> #[trigger] blocks[cell(x, y, z)] == planted(
            position,
            heights,
            seed,
            k,
            x,
            y,
            z,
        )
}

/// A height map entry splits back into its column.
pub proof fn lemma_height_index(k: int)
    requires
        0 <= k < HEIGHT_CELLS,
    ensures
        -TREE_MARGIN <= column_x(k) < CHUNK_SIZE + TREE_MARGIN,
        -TREE_MARGIN <= column_z(k) < CHUNK_SIZE + TREE_MARGIN,
        height_index(column_x(k), column_z(k)) == k,
{
    assert(k == (k % 22) + (k / 22) * 22 && 0 <= k % 22 < 22 && 0 <= k / 22 < 22) by (nonlinear_arith)
        requires
            0 <= k < 484,
    ;
}

/// A column's entry in a height map is unique to it.
pub proof fn lemma_height_index_column(ox: int, oz: int)
    requires
        -TREE_MARGIN <= ox < CHUNK_SIZE + TREE_MARGIN,
        -TREE_MARGIN <= oz < CHUNK_SIZE + TREE_MARGIN,
    ensures
        0 <= height_index(ox, oz) < HEIGHT_CELLS,
        column_x(height_index(ox, oz)) == ox,
        column_z(height_index(ox, oz)) == oz,
{
    let a = ox + 3;
    let b = oz + 3;
    assert((a + b * 22) % 22 == a && (a + b * 22) / 22 == b && 0 <= a + b * 22 < 484) by (nonlinear_arith)
        requires
            0 <= a < 22,
            0 <= b < 22,
    ;
}

/// What planting one more column does to a cell.
pub proof fn lemma_plant_step(
    position: ChunkPosition,
    heights: Seq<i32>,
    seed: u32,
    k: int,
    x: int,
    y: int,
    z: int,
    before: Block,
    after: Block,
)
    requires
        heights.len() == HEIGHT_CELLS,
        0 <= k < HEIGHT_CELLS,
        in_chunk(x, y, z),
        before == planted(position, heights, seed, k, x, y, z),
        after == match tree_of(position, heights, seed, k) {
            Some(trunk) => if trunk_cell(
                column_x(k),
                column_z(k),
                heights[k] as int,
                trunk,
                x,
                y,
                z,
            ) {
                Block::Wood
            } else if canopy_cell(
                column_x(k),
                column_z(k),
                heights[k] + 1 + trunk,
                x,
                y,
                z,
            ) && before == Block::Air {
                Block::Leaves
            } else {
                before
            },
            None => before,
        },
    ensures
        after == planted(position, heights, seed, k + 1, x, y, z),
{
    lemma_height_index(k);
    lemma_height_index_column(x, z);
    let own = height_index(x, z);
    if own == k {
        assert(column_x(k) == x && column_z(k) == z);
    } else if x == column_x(k) && z == column_z(k) {
        assert(false);
    }
}

impl Chunk {
    /// Writes the trunk of a tree, bottom to top; cells outside the chunk
    /// are skipped.
    fn carve_trunk(&mut self, ox: i32, oz: i32, base: i32, top: i32)
        requires
            old(self).blocks@.len() == CHUNK_VOLUME,
            0 <= base <= top < WORLD_HEIGHT,
        ensures
            final(self).blocks@.len() == CHUNK_VOLUME,
            final(self).skylight == old(self).skylight,
            final(self).max_height == old(self).max_height,
            final(self).position == old(self).position,
            forall|x: int, y: int, z: int|
                in_chunk(x, y, z) ==> #[trigger] final(self).blocks@[cell(x, y, z)] == if x == ox
                    && z == oz && base <= y < top {
                    Block::Wood
                } else {
                    old(self).blocks@[cell(x, y, z)]
                },
    {
        let mut y: i32 = base;
        while y < top
            invariant
                self.blocks@.len() == CHUNK_VOLUME,
                base <= y <= top,
                top < WORLD_HEIGHT,
                self.skylight == old(self).skylight,
                self.max_height == old(self).max_height,
                self.position == old(self).position,
                forall|x: int, y2: int, z: int|
                    in_chunk(x, y2, z) ==> #[trigger] self.blocks@[cell(x, y2, z)] == if x == ox
                        && z == oz && base <= y2 < y {
                        Block::Wood
                    } else {
                        old(self).blocks@[cell(x, y2, z)]
                    },
            decreases top - y,
        {
            let ghost before = self.blocks@;
            self.set_raw(BlockPos { x: ox, y, z: oz }, Block::Wood);
            proof {
                assert forall|x: int, y2: int, z: int| in_chunk(x, y2, z) implies #[trigger] self.blocks@[cell(
                    x,
                    y2,
                    z,
                )] == if x == ox && z == oz && base <= y2 < y + 1 {
                    Block::Wood
                } else {
                    old(self).blocks@[cell(x, y2, z)]
                } by {
                    lemma_cell(x, y2, z);
                    if in_chunk(ox as int, y as int, oz as int) && cell(x, y2, z) == cell(
                        ox as int,
                        y as int,
                        oz as int,
                    ) {
                        lemma_cell_injective(x, y2, z, ox as int, y as int, oz as int);
                    }
                }
            }
            y = y + 1;
        }
    }

    /// Fills the air of one leaf layer with leaves.
    fn leaf_layer(&mut self, ox: i32, oz: i32, layer: i32, radius: i32)
        requires
            old(self).blocks@.len() == CHUNK_VOLUME,
            1 <= radius <= 2,
            -TREE_MARGIN <= ox < CHUNK_SIZE + TREE_MARGIN,
            -TREE_MARGIN <= oz < CHUNK_SIZE + TREE_MARGIN,
            0 <= layer,
        ensures
            final(self).blocks@.len() == CHUNK_VOLUME,
            final(self).skylight == old(self).skylight,
            final(self).max_height == old(self).max_height,
            final(self).position == old(self).position,
            forall|x: int, y: int, z: int|
                in_chunk(x, y, z) ==> #[trigger] final(self).blocks@[cell(x, y, z)] == if layer_cell(
                    ox as int,
                    oz as int,
                    layer as int,
                    radius as int,
                    x,
                    y,
                    z,
                ) && old(self).blocks@[cell(x, y, z)] == Block::Air {
                    Block::Leaves
                } else {
                    old(self).blocks@[cell(x, y, z)]
                },
    {
        if layer >= WORLD_HEIGHT {
            return;
        }
        let ghost start = self.blocks@;
        let mut dz: i32 = -radius;
        while dz <= radius
            invariant
                self.blocks@.len() == CHUNK_VOLUME,
                start == old(self).blocks@,
                1 <= radius <= 2,
                -TREE_MARGIN <= ox < CHUNK_SIZE + TREE_MARGIN,
                -TREE_MARGIN <= oz < CHUNK_SIZE + TREE_MARGIN,
                0 <= layer < WORLD_HEIGHT,
                -radius <= dz <= radius + 1,
                self.skylight == old(self).skylight,
                self.max_height == old(self).max_height,
                self.position == old(self).position,
                forall|x: int, y: int, z: int|
                    in_chunk(x, y, z) ==> #[trigger] self.blocks@[cell(x, y, z)] == if layer_cell(
                        ox as int,
                        oz as int,
                        layer as int,
                        radius as int,
                        x,
                        y,
                        z,
                    ) && z - oz < dz && start[cell(x, y, z)] == Block::Air {
                        Block::Leaves
                    } else {
                        start[cell(x, y, z)]
                    },
            decreases radius + 1 - dz,
        {
            let mut dx: i32 = -radius;
            while dx <= radius
                invariant
                    self.blocks@.len() == CHUNK_VOLUME,
                    start == old(self).blocks@,
                    1 <= radius <= 2,
                    -TREE_MARGIN <= ox < CHUNK_SIZE + TREE_MARGIN,
                    -TREE_MARGIN <= oz < CHUNK_SIZE + TREE_MARGIN,
                    0 <= layer < WORLD_HEIGHT,
                    -radius <= dz <= radius,
                    -radius <= dx <= radius + 1,
                    self.skylight == old(self).skylight,
                    self.max_height == old(self).max_height,
                    self.position == old(self).position,
                    forall|x: int, y: int, z: int|
                        in_chunk(x, y, z) ==> #[trigger] self.blocks@[cell(x, y, z)] == if layer_cell(
                            ox as int,
                            oz as int,
                            layer as int,
                            radius as int,
                            x,
                            y,
                            z,
                        ) && (z - oz < dz || (z - oz == dz && x - ox < dx)) && start[cell(x, y, z)]
                            == Block::Air {
                            Block::Leaves
                        } else {
                            start[cell(x, y, z)]
                        },
                decreases radius + 1 - dx,
            {
                let corner = (dx == radius || dx == -radius) && (dz == radius || dz == -radius);
                if !(corner && radius > 1) {
                    let target = BlockPos { x: ox + dx, y: layer, z: oz + dz };
                    let ghost before = self.blocks@;
                    if matches!(self.get_opt(target), Some(Block::Air)) {
                        self.set_raw(target, Block::Leaves);
                    }
                    proof {
                        let (tx, ty, tz) = (ox + dx, layer as int, oz + dz);
                        assert forall|x: int, y: int, z: int| in_chunk(x, y, z) implies #[trigger] self.blocks@[cell(
                            x,
                            y,
                            z,
                        )] == if layer_cell(
                            ox as int,
                            oz as int,
                            layer as int,
                            radius as int,
                            x,
                            y,
                            z,
                        ) && (z - oz < dz || (z - oz == dz && x - ox < dx + 1)) && start[cell(
                            x,
                            y,
                            z,
                        )] == Block::Air {
                            Block::Leaves
                        } else {
                            start[cell(x, y, z)]
                        } by {
                            lemma_cell(x, y, z);
                            if in_chunk(tx, ty, tz) && cell(x, y, z) == cell(tx, ty, tz) {
                                lemma_cell_injective(x, y, z, tx, ty, tz);
                            }
                        }
                    }
                }
                dx = dx + 1;
            }
            dz = dz + 1;
        }
    }

    /// Writes the parts of a tree that land inside this chunk. `ox`, `oz` may
    /// sit outside the chunk: those blocks belong to a neighbour and are
    /// skipped. Wood goes in unconditionally, leaves only into air.
    pub fn carve_tree(&mut self, ox: i32, oz: i32, ground: i32, trunk: i32)
        requires
            old(self).blocks@.len() == CHUNK_VOLUME,
            -TREE_MARGIN <= ox < CHUNK_SIZE + TREE_MARGIN,
            -TREE_MARGIN <= oz < CHUNK_SIZE + TREE_MARGIN,
            0 <= ground,
            1 <= trunk,
            ground + 1 + trunk < WORLD_HEIGHT,
        ensures
            final(self).blocks@.len() == CHUNK_VOLUME,
            final(self).skylight == old(self).skylight,
            final(self).max_height == old(self).max_height,
            final(self).position == old(self).position,
            forall|x: int, y: int, z: int|
                in_chunk(x, y, z) ==> #[trigger] final(self).blocks@[cell(x, y, z)] == if trunk_cell(
                    ox as int,
                    oz as int,
                    ground as int,
                    trunk as int,
                    x,
                    y,
                    z,
                ) {
                    Block::Wood
                } else if canopy_cell(ox as int, oz as int, ground + 1 + trunk, x, y, z)
                    && old(self).blocks@[cell(x, y, z)] == Block::Air {
                    Block::Leaves
                } else {
                    old(self).blocks@[cell(x, y, z)]
                },
    {
        let base = ground + 1;
        let top = base + trunk;
        self.carve_trunk(ox, oz, base, top);
        let ghost a = self.blocks@;
        self.leaf_layer(ox, oz, top - 2, 2);
        let ghost b = self.blocks@;
        self.leaf_layer(ox, oz, top - 1, 2);
        let ghost c = self.blocks@;
        self.leaf_layer(ox, oz, top, 1);
        let ghost d = self.blocks@;
        self.leaf_layer(ox, oz, top + 1, 1);
        proof {
            assert forall|x: int, y: int, z: int| in_chunk(x, y, z) implies #[trigger] self.blocks@[cell(
                x,
                y,
                z,
            )] == if trunk_cell(ox as int, oz as int, ground as int, trunk as int, x, y, z) {
                Block::Wood
            } else if canopy_cell(ox as int, oz as int, ground + 1 + trunk, x, y, z) && old(
                self,
            ).blocks@[cell(x, y, z)] == Block::Air {
                Block::Leaves
            } else {
                old(self).blocks@[cell(x, y, z)]
            } by {
                assert(a[cell(x, y, z)] == a[cell(x, y, z)]);
                assert(b[cell(x, y, z)] == b[cell(x, y, z)]);
                assert(c[cell(x, y, z)] == c[cell(x, y, z)]);
                assert(d[cell(x, y, z)] == d[cell(x, y, z)]);
            }
        }
    }
}


/// A chunk-local cell before any tree: terrain up to the surface, air above.
pub open spec fn terrain_cell(heights: Seq<i32>, x: int, y: int, z: int) -> Block {
    let ground = heights[height_index(x, z)] as int;
    if y <= ground {
        surface(ground, y)
    } else {
        Block::Air
    }
}

impl Chunk {
    /// Fills one column with its terrain layers.
    fn fill_column(&mut self, x: i32, z: i32, height: i32)
        requires
            old(self).blocks@.len() == CHUNK_VOLUME,
            0 <= x < CHUNK_SIZE,
            0 <= z < CHUNK_SIZE,
        ensures
            final(self).blocks@.len() == CHUNK_VOLUME,
            final(self).skylight == old(self).skylight,
            final(self).max_height == old(self).max_height,
            final(self).position == old(self).position,
            forall|x2: int, y2: int, z2: int|
                in_chunk(x2, y2, z2) ==> #[trigger] final(self).blocks@[cell(x2, y2, z2)] == if x2
                    == x && z2 == z && y2 <= height {
                    surface(height as int, y2)
                } else {
                    old(self).blocks@[cell(x2, y2, z2)]
                },
    {
        let mut y: i32 = 0;
        while y <= height && y < WORLD_HEIGHT
            invariant
                self.blocks@.len() == CHUNK_VOLUME,
                0 <= x < CHUNK_SIZE,
                0 <= z < CHUNK_SIZE,
                0 <= y <= WORLD_HEIGHT,
                y == 0 || y <= height + 1,
                self.skylight == old(self).skylight,
                self.max_height == old(self).max_height,
                self.position == old(self).position,
                forall|x2: int, y2: int, z2: int|
                    in_chunk(x2, y2, z2) ==> #[trigger] self.blocks@[cell(x2, y2, z2)] == if x2 == x
                        && z2 == z && y2 < y {
                        surface(height as int, y2)
                    } else {
                        old(self).blocks@[cell(x2, y2, z2)]
                    },
            decreases WORLD_HEIGHT - y,
        {
            let block = surface_block(height, y);
            self.set_raw(BlockPos { x, y, z }, block);
            proof {
                assert forall|x2: int, y2: int, z2: int| in_chunk(x2, y2, z2) implies #[trigger] self.blocks@[cell(
                    x2,
                    y2,
                    z2,
                )] == if x2 == x && z2 == z && y2 < y + 1 {
                    surface(height as int, y2)
                } else {
                    old(self).blocks@[cell(x2, y2, z2)]
                } by {
                    lemma_cell(x2, y2, z2);
                    if cell(x2, y2, z2) == cell(x as int, y as int, z as int) {
                        lemma_cell_injective(x2, y2, z2, x as int, y as int, z as int);
                    }
                }
            }
            y = y + 1;
        }
    }

    /// Builds a chunk from its surface heights: `heights` holds, for every
    /// column of the chunk and of a `TREE_MARGIN` wide border around it, the
    /// height of the ground, at `height_index`. Trees are placed from a hash
    /// of their world column, so every chunk overlapping a canopy reproduces
    /// exactly the same blocks without any cross-chunk coordination.
    pub fn generate(position: ChunkPosition, heights: &Vec<i32>, seed: u32) -> (chunk: Chunk)
        requires
            heights@.len() == HEIGHT_CELLS,
        ensures
            chunk.wf(),
            chunk.position == position,
            forall|x: int, y: int, z: int|
                in_chunk(x, y, z) ==> #[trigger] chunk.blocks@[cell(x, y, z)] == generated(
                    position,
                    heights@,
                    seed,
                    x,
                    y,
                    z,
                ),
    {
        let mut chunk = Chunk {
            position,
            blocks: vec![Block::Air; CHUNK_VOLUME],
            skylight: vec![0u8; CHUNK_VOLUME],
            max_height: 0,
        };
        let ghost all_air = chunk.blocks@;
        assert forall|i: int| 0 <= i < CHUNK_VOLUME implies all_air[i] == Block::Air by {}
        let mut z: i32 = 0;
        while z < CHUNK_SIZE
            invariant
                chunk.blocks@.len() == CHUNK_VOLUME,
                chunk.skylight@.len() == CHUNK_VOLUME,
                chunk.position == position,
                heights@.len() == HEIGHT_CELLS,
                0 <= z <= CHUNK_SIZE,
                forall|x2: int, y2: int, z2: int|
                    in_chunk(x2, y2, z2) ==> #[trigger] chunk.blocks@[cell(x2, y2, z2)] == if z2 < z {
                        terrain_cell(heights@, x2, y2, z2)
                    } else {
                        Block::Air
                    },
            decreases CHUNK_SIZE - z,
        {
            let mut x: i32 = 0;
            while x < CHUNK_SIZE
                invariant
                    chunk.blocks@.len() == CHUNK_VOLUME,
                    chunk.skylight@.len() == CHUNK_VOLUME,
                    chunk.position == position,
                    heights@.len() == HEIGHT_CELLS,
                    0 <= z < CHUNK_SIZE,
                    0 <= x <= CHUNK_SIZE,
                    forall|x2: int, y2: int, z2: int|
                        in_chunk(x2, y2, z2) ==> #[trigger] chunk.blocks@[cell(x2, y2, z2)] == if z2 < z
                            || (z2 == z && x2 < x) {
                            terrain_cell(heights@, x2, y2, z2)
                        } else {
                            Block::Air
                        },
                decreases CHUNK_SIZE - x,
            {
                proof {
                    lemma_height_index_column(x as int, z as int);
                }
                let height = heights[((x + TREE_MARGIN) + (z + TREE_MARGIN) * HEIGHT_SPAN) as usize];
                chunk.fill_column(x, z, height);
                x = x + 1;
            }
            z = z + 1;
        }
        proof {
            assert forall|x: int, y: int, z: int| in_chunk(x, y, z) implies #[trigger] chunk.blocks@[cell(
                x,
                y,
                z,
            )] == planted(position, heights@, seed, 0, x, y, z) by {
                assert(chunk.blocks@[cell(x, y, z)] == terrain_cell(heights@, x, y, z));
            }
        }
        let mut k: usize = 0;
        while k < HEIGHT_CELLS
            invariant
                chunk.blocks@.len() == CHUNK_VOLUME,
                chunk.skylight@.len() == CHUNK_VOLUME,
                chunk.position == position,
                heights@.len() == HEIGHT_CELLS,
                0 <= k <= HEIGHT_CELLS,
                planted_upto(chunk.blocks@, position, heights@, seed, k as int),
            decreases HEIGHT_CELLS - k,
        {
            proof {
                lemma_height_index(k as int);
            }
            let ox: i32 = (k % 22) as i32 - TREE_MARGIN;
            let oz: i32 = (k / 22) as i32 - TREE_MARGIN;
            let ground = heights[k];
            let world_x: i32 = (position.x as i64 * 16 + ox as i64) as i32;
            let world_z: i32 = (position.z as i64 * 16 + oz as i64) as i32;
            let ghost before = chunk.blocks@;
            match tree_at(seed, ground, world_x, world_z) {
                Some(trunk) => {
                    chunk.carve_tree(ox, oz, ground, trunk);
                },
                None => {},
            }
            proof {
                assert forall|x: int, y: int, z: int| in_chunk(x, y, z) implies #[trigger] chunk.blocks@[cell(
                    x,
                    y,
                    z,
                )] == planted(position, heights@, seed, k + 1, x, y, z) by {
                    lemma_plant_step(
                        position,
                        heights@,
                        seed,
                        k as int,
                        x,
                        y,
                        z,
                        before[cell(x, y, z)],
                        chunk.blocks@[cell(x, y, z)],
                    );
                }
            }
            k = k + 1;
        }
        chunk.refresh_max_height();
        chunk.recompute_skylight();
        chunk
    }
}

/// `covered` is "some solid block at or above `y` in the column".
pub proof fn lemma_covered_exists(blocks: Seq<Block>, x: int, y: int, z: int)
    requires
        0 <= y,
    ensures
        covered(blocks, x, y, z) <==> exists|y2: int|
            y <= y2 < WORLD_HEIGHT && #[trigger] solid(block_in(blocks, x, y2, z)),
    decreases WORLD_HEIGHT - y,
{
    if y < WORLD_HEIGHT {
        lemma_covered_exists(blocks, x, y + 1, z);
        if solid(block_in(blocks, x, y, z)) {
            assert(exists|y2: int|
                y <= y2 < WORLD_HEIGHT && #[trigger] solid(block_in(blocks, x, y2, z)));
        }
    }
}


/// Above a chunk's height everything is air and open sky.
pub proof fn lemma_above_top(chunk: Chunk, x: int, y: int, z: int)
    requires
        chunk.wf(),
        in_chunk(x, y, z),
        y >= chunk.max_height,
    ensures
        chunk.blocks@[cell(x, y, z)] == Block::Air,
        chunk.skylight@[cell(x, y, z)] == MAX_SKYLIGHT,
{
    let b = chunk.blocks@;
    lemma_top_below(b, WORLD_HEIGHT as int);
    lemma_covered_exists(b, x, y, z);
    assert(!layer_solid(b, y));
    if covered(b, x, y, z) {
        let y2 = choose|y2: int| y <= y2 < WORLD_HEIGHT && #[trigger] solid(block_in(b, x, y2, z));
        assert(!layer_solid(b, y2));
        assert(!solid(b[cell(x, y2, z)]));
    }
}

} // verus!
