//! What the generator puts in a column: the layers under a given surface
//! height, and where trees grow. The surface height itself comes from the
//! noise field, which is floating-point work done outside this library.

use vstd::prelude::*;

use crate::world::block::Block;
use crate::world::position::WORLD_HEIGHT;

verus! {

/// Columns at or below one block above this height are beach.
pub const SEA_LEVEL: i32 = 12;

/// The block at height `y` of a column whose surface is at `height`.
pub open spec fn surface(height: int, y: int) -> Block {
    let depth = height - y;
    let coastal = height <= SEA_LEVEL + 1;
    if depth == 0 {
        if coastal {
            Block::Sand
        } else if height >= 33 {
            Block::Snow
        } else if height >= 27 {
            Block::Stone
        } else {
            Block::Grass
        }
    } else if depth <= 3 {
        if coastal {
            Block::Sand
        } else if height >= 27 {
            Block::Stone
        } else {
            Block::Dirt
        }
    } else {
        Block::Stone
    }
}

pub fn surface_block(height: i32, y: i32) -> (r: Block)
    ensures
        r == surface(height as int, y as int),
{
    let depth: i64 = height as i64 - y as i64;
    let coastal = height <= SEA_LEVEL + 1;
    if depth == 0 {
        if coastal {
            Block::Sand
        } else if height >= 33 {
            Block::Snow
        } else if height >= 27 {
            Block::Stone
        } else {
            Block::Grass
        }
    } else if depth <= 3 {
        if coastal {
            Block::Sand
        } else if height >= 27 {
            Block::Stone
        } else {
            Block::Dirt
        }
    } else {
        Block::Stone
    }
}

/// `a + b` on 32 bits, wrapping.
pub open spec fn wrapping_add32(a: u32, b: u32) -> u32 {
    ((a + b) % 0x1_0000_0000) as u32
}

/// `a * b` on 32 bits, wrapping.
pub open spec fn wrapping_mul32(a: u32, b: u32) -> u32 {
    ((a * b) % 0x1_0000_0000) as u32
}

/// A 32-bit mixing hash of a seed and a world column.
pub open spec fn column_hash(seed: u32, x: i32, z: i32) -> u32 {
    let h0 = seed ^ 0x9E37_79B9u32;
    let h1 = wrapping_add32(h0, wrapping_mul32(x as u32, 0x85EB_CA6Bu32));
    let h2 = h1 ^ (h1 >> 13u32);
    let h3 = wrapping_add32(h2, wrapping_mul32(z as u32, 0xC2B2_AE35u32));
    let h4 = h3 ^ (h3 >> 16u32);
    let h5 = wrapping_mul32(h4, 0x27D4_EB2Fu32);
    h5 ^ (h5 >> 15u32)
}

fn wrapping_add_u32(a: u32, b: u32) -> (r: u32)
    ensures
        r == wrapping_add32(a, b),
{
    a.wrapping_add(b)
}

fn wrapping_mul_u32(a: u32, b: u32) -> (r: u32)
    ensures
        r == wrapping_mul32(a, b),
{
    a.wrapping_mul(b)
}

pub fn hash_2d(seed: u32, x: i32, z: i32) -> (h: u32)
    ensures
        h == column_hash(seed, x, z),
{
    let mut hash: u32 = seed ^ 0x9E37_79B9u32;
    hash = wrapping_add_u32(hash, wrapping_mul_u32(x as u32, 0x85EB_CA6Bu32));
    hash = hash ^ (hash >> 13u32);
    hash = wrapping_add_u32(hash, wrapping_mul_u32(z as u32, 0xC2B2_AE35u32));
    hash = hash ^ (hash >> 16u32);
    hash = wrapping_mul_u32(hash, 0x27D4_EB2Fu32);
    hash ^ (hash >> 15u32)
}

/// The trunk height of the tree growing on world column `x`, `z` whose
/// ground is at `ground`, if one grows there: on grass with room above it,
/// in roughly three columns out of a hundred, four to six blocks tall.
pub open spec fn tree_height(seed: u32, ground: int, x: i32, z: i32) -> Option<int> {
    let hash = column_hash(seed, x, z);
    if surface(ground, ground) != Block::Grass {
        None
    } else if ground + 8 >= WORLD_HEIGHT {
        None
    } else if hash % 100 >= 3 {
        None
    } else {
        Some(4 + (hash >> 8u32) % 3)
    }
}

/// Deterministic tree placement, from the seed and the column alone, so every
/// chunk that overlaps a canopy reproduces exactly the same blocks.
pub fn tree_at(seed: u32, ground: i32, world_x: i32, world_z: i32) -> (r: Option<i32>)
    ensures
        match tree_height(seed, ground as int, world_x, world_z) {
            Some(h) => r == Some(h as i32),
            None => r is None,
        },
        r matches Some(h) ==> 4 <= h <= 6 && 14 <= ground <= 26,
{
    if !matches!(surface_block(ground, ground), Block::Grass) {
        return None;
    }
    if ground + 8 >= WORLD_HEIGHT {
        return None;
    }
    let hash = hash_2d(seed, world_x, world_z);
    if hash % 100 >= 3 {
        return None;
    }
    Some(4 + ((hash >> 8u32) % 3) as i32)
}

} // verus!
