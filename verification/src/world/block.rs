//! The kinds of block a world is made of, and how each one is drawn.

use vstd::prelude::*;

verus! {

/// One cell of the world. The order of the variants is the wire encoding
/// (`Edit::block`).
#[derive(Clone, Copy, Debug, PartialEq, Eq, Structural)]
pub enum Block {
    Air,
    Grass,
    Dirt,
    Stone,
    Sand,
    Wood,
    Leaves,
    Snow,
}

/// The wire number of a block: its position among the variants.
pub open spec fn block_code(block: Block) -> u8 {
    match block {
        Block::Air => 0,
        Block::Grass => 1,
        Block::Dirt => 2,
        Block::Stone => 3,
        Block::Sand => 4,
        Block::Wood => 5,
        Block::Leaves => 6,
        Block::Snow => 7,
    }
}

/// The block with wire number `code`, for `code` below 8.
pub open spec fn block_of_code(code: u8) -> Block {
    match code {
        0 => Block::Air,
        1 => Block::Grass,
        2 => Block::Dirt,
        3 => Block::Stone,
        4 => Block::Sand,
        5 => Block::Wood,
        6 => Block::Leaves,
        _ => Block::Snow,
    }
}

/// Every block but air is solid, and every solid block stops skylight.
pub open spec fn solid(block: Block) -> bool {
    block != Block::Air
}

impl Block {
    /// The block with wire number `code`; none past the last variant.
    pub fn from_u8(code: u8) -> (r: Option<Block>)
        ensures
            match r {
                Some(block) => code < 8 && block_code(block) == code && block == block_of_code(code),
                None => code >= 8,
            },
    {
        match code {
            0 => Some(Block::Air),
            1 => Some(Block::Grass),
            2 => Some(Block::Dirt),
            3 => Some(Block::Stone),
            4 => Some(Block::Sand),
            5 => Some(Block::Wood),
            6 => Some(Block::Leaves),
            7 => Some(Block::Snow),
            _ => None,
        }
    }

    /// The wire number of this block.
    pub fn code(self) -> (r: u8)
        ensures
            r == block_code(self),
    {
        match self {
            Block::Air => 0,
            Block::Grass => 1,
            Block::Dirt => 2,
            Block::Stone => 3,
            Block::Sand => 4,
            Block::Wood => 5,
            Block::Leaves => 6,
            Block::Snow => 7,
        }
    }

    pub fn is_solid(self) -> (r: bool)
        ensures
            r == solid(self),
    {
        !matches!(self, Block::Air)
    }

    /// Blocks that stop skylight from travelling further down a column.
    pub fn blocks_light(self) -> (r: bool)
        ensures
            r == solid(self),
    {
        !matches!(self, Block::Air)
    }
}

/// The name a block goes by on the heads-up display.
pub open spec fn display_name(block: Block) -> Seq<char> {
    match block {
        Block::Air => "AIR"@,
        Block::Grass => "GRASS"@,
        Block::Dirt => "DIRT"@,
        Block::Stone => "STONE"@,
        Block::Sand => "SAND"@,
        Block::Wood => "WOOD"@,
        Block::Leaves => "LEAVES"@,
        Block::Snow => "SNOW"@,
    }
}

pub fn block_name(block: Block) -> (r: &'static str)
    ensures
        r@ == display_name(block),
{
    match block {
        Block::Air => "AIR",
        Block::Grass => "GRASS",
        Block::Dirt => "DIRT",
        Block::Stone => "STONE",
        Block::Sand => "SAND",
        Block::Wood => "WOOD",
        Block::Leaves => "LEAVES",
        Block::Snow => "SNOW",
    }
}

/// Index of the face whose outward normal is +Y.
pub const FACE_POSITIVE_Y: usize = 2;

/// Palette index handed to the GPU. Grass needs two entries because its top
/// face is green while its sides are earthy; air never gets a face and is
/// drawn as stone should it ever be asked for.
pub open spec fn material(block: Block, face: int) -> u32 {
    match block {
        Block::Grass => if face == FACE_POSITIVE_Y as int {
            0
        } else {
            1
        },
        Block::Dirt => 2,
        Block::Stone => 3,
        Block::Sand => 4,
        Block::Wood => 5,
        Block::Leaves => 6,
        Block::Snow => 7,
        Block::Air => 3,
    }
}

pub fn material_for(block: Block, face: usize) -> (r: u32)
    ensures
        r == material(block, face as int),
        r < 8,
{
    let top = face == FACE_POSITIVE_Y;
    match block {
        Block::Grass => if top {
            0
        } else {
            1
        },
        Block::Dirt => 2,
        Block::Stone => 3,
        Block::Sand => 4,
        Block::Wood => 5,
        Block::Leaves => 6,
        Block::Snow => 7,
        Block::Air => 3,
    }
}

} // verus!
