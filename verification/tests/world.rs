use rusted_cube::protocol::Edit;
use rusted_cube::world::block::{block_name, Block};
use rusted_cube::world::chunk::{Chunk, HEIGHT_CELLS, MAX_SKYLIGHT};
use rusted_cube::world::mesh::{pack_position, ChunkMesh};
use rusted_cube::world::position::{
    chunk_positions_around, local_position, BlockPos, ChunkPosition, CHUNK_SIZE,
    RENDER_DISTANCE, WORLD_HEIGHT,
};
use rusted_cube::world::terrain::{hash_2d, surface_block, tree_at};
use rusted_cube::world::{apply_edit, apply_edits, World, GENERATION_BUDGET};

/// Rolling ground from beach to bare rock, standing in for the noise field.
fn varied_height(x: i32, z: i32) -> i32 {
    10 + (x.rem_euclid(23) + z.rem_euclid(17)) % 20
}

/// Flat grassland, where trees can grow anywhere.
fn flat_height(_x: i32, _z: i32) -> i32 {
    20
}

fn heights_for(position: ChunkPosition, height: fn(i32, i32) -> i32) -> Vec<i32> {
    let mut heights = Vec::with_capacity(HEIGHT_CELLS);
    for oz in -3..CHUNK_SIZE + 3 {
        for ox in -3..CHUNK_SIZE + 3 {
            heights.push(height(position.x * CHUNK_SIZE + ox, position.z * CHUNK_SIZE + oz));
        }
    }
    heights
}

/// One loading step around world column `x`, `z`, generating what it asks
/// for.
fn load(world: &mut World, x: i32, z: i32, height: fn(i32, i32) -> i32) -> bool {
    match world.load_chunks_around(x, z) {
        Some(order) => {
            for position in order {
                assert!(world.insert_chunk(position, &heights_for(position, height)));
            }
            true
        }
        None => false,
    }
}

/// A fresh world after its first loading step at the origin.
fn generate(seed: u32, height: fn(i32, i32) -> i32) -> World {
    let mut world = World::new(seed);
    load(&mut world, 0, 0, height);
    world
}

/// Chunks stream in over several calls, so tests that need a full window
/// have to pump until it settles.
fn settle(world: &mut World, x: i32, z: i32, height: fn(i32, i32) -> i32) {
    for _ in 0..64 {
        if !load(world, x, z, height) {
            return;
        }
    }
    panic!("chunk loading never settled");
}

fn pos(x: i32, y: i32, z: i32) -> BlockPos {
    BlockPos { x, y, z }
}

#[test]
fn generated_world_contains_all_terrain_materials() {
    let world = generate(1_337, varied_height);
    let mut seen = [false; 8];
    for y in 0..WORLD_HEIGHT {
        for z in -CHUNK_SIZE..CHUNK_SIZE {
            for x in -CHUNK_SIZE..CHUNK_SIZE {
                seen[world.get(pos(x, y, z)) as usize] = true;
            }
        }
    }
    assert!(seen[Block::Grass as usize]);
    assert!(seen[Block::Dirt as usize]);
    assert!(seen[Block::Stone as usize]);
    assert!(seen[Block::Sand as usize]);
}

#[test]
fn chunk_window_follows_the_player() {
    let mut world = generate(21, varied_height);
    let expected = ((RENDER_DISTANCE * 2 + 1).pow(2)) as usize;

    settle(&mut world, 0, 0, varied_height);
    assert_eq!(world.loaded_chunk_count(), expected);

    let far = CHUNK_SIZE * 5;
    assert!(load(&mut world, far, 0, varied_height), "moving must load new chunks");
    settle(&mut world, far, 0, varied_height);
    assert_eq!(world.loaded_chunk_count(), expected);
    assert!(world.highest_block(CHUNK_SIZE * 5, 0).is_some());
}

#[test]
fn chunk_generation_is_spread_across_calls() {
    let world = generate(23, varied_height);
    assert!(
        world.loaded_chunk_count() <= GENERATION_BUDGET,
        "one call generated {} chunks",
        world.loaded_chunk_count()
    );
    assert!(
        world.highest_block(0, 0).is_some(),
        "the spawn chunk must be generated before distant ones"
    );
}

#[test]
fn edits_survive_chunk_reloading() {
    let mut world = generate(8, varied_height);
    let position = pos(0, 20, 0);
    world.set(position, Block::Stone);
    load(&mut world, CHUNK_SIZE * 8, 0, varied_height);
    load(&mut world, 0, 0, varied_height);
    assert_eq!(world.get(position), Block::Stone);
}

#[test]
fn breaking_a_border_block_marks_the_neighbour_dirty() {
    let mut world = generate(5, varied_height);
    world.take_dirty();

    let border = pos(0, 20, 0);
    world.set(border, Block::Stone);
    let dirty = world.take_dirty();

    assert!(dirty.contains(&ChunkPosition { x: 0, z: 0 }));
    assert!(
        dirty.contains(&ChunkPosition { x: -1, z: 0 }),
        "the chunk sharing this border must be remeshed too"
    );
}

#[test]
fn chunk_mesh_emits_four_vertices_per_quad() {
    let world = generate(3, varied_height);
    let mesh = world.build_chunk_mesh(ChunkPosition { x: 0, z: 0 });
    assert!(mesh.quad_count > 0);
    assert_eq!(mesh.vertices.len(), mesh.quad_count * 4 * 2);
}

#[test]
fn trees_are_not_cut_at_chunk_borders() {
    let world = generate(1_337, flat_height);
    let mut leaves = 0;
    let mut wood = 0;
    for y in 0..WORLD_HEIGHT {
        for z in -CHUNK_SIZE..CHUNK_SIZE * 2 {
            for x in -CHUNK_SIZE..CHUNK_SIZE * 2 {
                match world.get(pos(x, y, z)) {
                    Block::Leaves => leaves += 1,
                    Block::Wood => wood += 1,
                    _ => {}
                }
            }
        }
    }
    assert!(wood > 0, "the seed should grow at least one tree");
    assert!(
        leaves > wood * 4,
        "canopies look truncated: {leaves} leaves for {wood} wood"
    );
}

#[test]
fn skylight_is_dark_under_solid_ground() {
    let world = generate(17, varied_height);
    let surface = world.highest_block(3, 3).expect("column should have ground");
    assert_eq!(world.light_at(pos(3, surface, 3)), Some(0));
    assert_eq!(world.light_at(pos(3, surface + 1, 3)), Some(MAX_SKYLIGHT));
}

#[test]
fn max_height_tracks_the_tallest_block() {
    let mut world = generate(4, varied_height);
    let position = pos(2, 40, 2);
    world.set(position, Block::Stone);
    assert_eq!(world.chunk_max_height(ChunkPosition { x: 0, z: 0 }), Some(41));

    world.set(position, Block::Air);
    let height = world
        .chunk_max_height(ChunkPosition { x: 0, z: 0 })
        .expect("origin chunk is loaded");
    assert!(height < 41, "removing the top block must lower max_height");
}

/// Total surface a mesh covers, in unit block faces.
fn covered_area(mesh: &ChunkMesh) -> i64 {
    let mut area = 0;
    for quad in mesh.vertices.chunks(8) {
        let mut min = [i32::MAX; 3];
        let mut max = [i32::MIN; 3];
        for vertex in quad.chunks(2) {
            let word = vertex[0];
            let position = [
                (word & 0xFF) as i32,
                ((word >> 8) & 0xFF) as i32,
                ((word >> 16) & 0xFF) as i32,
            ];
            for axis in 0..3 {
                min[axis] = min[axis].min(position[axis]);
                max[axis] = max[axis].max(position[axis]);
            }
        }
        let extents: Vec<i64> = (0..3)
            .map(|axis| (max[axis] - min[axis]) as i64)
            .filter(|extent| *extent > 0)
            .collect();
        area += extents.iter().product::<i64>().max(1);
    }
    area
}

#[test]
fn greedy_meshing_covers_exactly_the_same_surface() {
    let world = generate(1_337, varied_height);
    for position in world.loaded_positions() {
        let plain = world.build_chunk_mesh(position);
        let greedy = world.build_chunk_mesh_greedy(position);

        assert_eq!(
            covered_area(&plain),
            covered_area(&greedy),
            "greedy meshing changed the covered surface at {position:?}"
        );
        assert!(
            greedy.quad_count <= plain.quad_count,
            "greedy meshing must never emit more quads"
        );
        assert_eq!(greedy.vertices.len(), greedy.quad_count * 4 * 2);
    }
}

#[test]
fn flat_ground_merges_into_few_quads() {
    let world = generate(7, |_, _| 5);
    let plain = world.build_chunk_mesh(ChunkPosition { x: 0, z: 0 });
    let greedy = world.build_chunk_mesh_greedy(ChunkPosition { x: 0, z: 0 });
    assert_eq!(covered_area(&plain), covered_area(&greedy));
    assert!(greedy.quad_count < plain.quad_count / 4);
}

#[test]
fn chunk_positions_use_floor_division() {
    assert_eq!(ChunkPosition::from_world(0, 15), ChunkPosition { x: 0, z: 0 });
    assert_eq!(ChunkPosition::from_world(16, -1), ChunkPosition { x: 1, z: -1 });
    assert_eq!(ChunkPosition::from_world(-16, -17), ChunkPosition { x: -1, z: -2 });
    assert_eq!(local_position(pos(-1, 7, 33)), pos(15, 7, 1));
}

#[test]
fn window_lists_every_chunk_once() {
    let center = ChunkPosition { x: 4, z: -2 };
    let window = chunk_positions_around(center);
    assert_eq!(window.len(), 49);
    assert_eq!(window[0], ChunkPosition { x: 1, z: -5 });
    assert_eq!(window[48], ChunkPosition { x: 7, z: 1 });
    for (index, a) in window.iter().enumerate() {
        assert!(!window[index + 1..].contains(a));
    }
}

#[test]
fn loading_asks_for_the_nearest_chunks_first() {
    let mut world = World::new(1);
    let order = world.load_chunks_around(0, 0).expect("an empty world must load");
    assert_eq!(order.len(), GENERATION_BUDGET);
    assert_eq!(order[0], ChunkPosition { x: 0, z: 0 });
    for pair in order.windows(2) {
        let d = |p: &ChunkPosition| p.x * p.x + p.z * p.z;
        assert!(d(&pair[0]) <= d(&pair[1]));
    }
    assert!(!world.insert_chunk(ChunkPosition { x: 9, z: 0 }, &heights_for(ChunkPosition { x: 9, z: 0 }, flat_height)));
    assert!(!world.insert_chunk(ChunkPosition { x: 0, z: 0 }, &vec![20; 3]));
    assert!(world.insert_chunk(ChunkPosition { x: 0, z: 0 }, &heights_for(ChunkPosition { x: 0, z: 0 }, flat_height)));
    assert!(!world.insert_chunk(ChunkPosition { x: 0, z: 0 }, &heights_for(ChunkPosition { x: 0, z: 0 }, flat_height)));
}

#[test]
fn settled_window_needs_nothing_more() {
    let mut world = generate(2, varied_height);
    settle(&mut world, 0, 0, varied_height);
    assert!(world.load_chunks_around(5, 5).is_none());
    assert_eq!(world.loaded_positions().len(), 49);
}

#[test]
fn set_is_refused_outside_the_world() {
    let mut world = generate(6, varied_height);
    assert!(!world.set(pos(0, WORLD_HEIGHT, 0), Block::Stone));
    assert!(!world.set(pos(0, -1, 0), Block::Stone));
    assert!(!world.set(pos(CHUNK_SIZE * 50, 10, 0), Block::Stone));
    assert!(world.set(pos(1, 45, 1), Block::Wood));
    assert!(world.is_solid(pos(1, 45, 1)));
    assert_eq!(world.highest_block(1, 1), Some(45));
}

#[test]
fn placement_needs_a_face_and_an_empty_cell() {
    let mut world = generate(9, flat_height);
    world.set(pos(4, 30, 4), Block::Stone);
    let zero = pos(0, 0, 0);
    assert_eq!(world.placement_target(pos(4, 30, 4), zero), None);
    assert_eq!(world.placement_target(pos(4, 30, 4), pos(0, 0, -1)), Some(pos(4, 30, 3)));
    assert_eq!(world.placement_target(pos(4, 19, 4), pos(0, 1, 0)), None);
    world.set(pos(4, WORLD_HEIGHT - 1, 4), Block::Stone);
    assert_eq!(world.placement_target(pos(4, WORLD_HEIGHT - 1, 4), pos(0, 1, 0)), None);
}

#[test]
fn surface_layers_follow_height() {
    assert_eq!(surface_block(12, 12), Block::Sand);
    assert_eq!(surface_block(20, 20), Block::Grass);
    assert_eq!(surface_block(20, 18), Block::Dirt);
    assert_eq!(surface_block(20, 10), Block::Stone);
    assert_eq!(surface_block(28, 28), Block::Stone);
    assert_eq!(surface_block(35, 35), Block::Snow);
    assert_eq!(surface_block(13, 11), Block::Sand);
}

#[test]
fn column_hash_matches_known_values() {
    assert_eq!(hash_2d(1337, 5, -3), 2088196653);
    assert_eq!(hash_2d(0, 0, 0), 3361054039);
    assert_eq!(hash_2d(42, -100, 77), 143529723);
}

#[test]
fn trees_grow_on_grass_only() {
    assert_eq!(tree_at(1337, 20, -20, -15), Some(6));
    assert_eq!(tree_at(1337, 12, -20, -15), None);
    assert_eq!(tree_at(1337, 30, -20, -15), None);
    assert_eq!(tree_at(1337, 20, 5, -3), None);
}

#[test]
fn block_codes_round_trip() {
    for code in 0..8u8 {
        let block = Block::from_u8(code).expect("known block");
        assert_eq!(block.code(), code);
        assert_eq!(block as u8, code);
    }
    assert_eq!(Block::from_u8(8), None);
    assert!(!Block::Air.is_solid());
    assert!(Block::Leaves.blocks_light());
}

#[test]
fn packed_positions_keep_their_fields() {
    assert_eq!(pack_position(3, 17, 15, 2, 3), 437195011);
    assert_eq!(pack_position(16, 48, 0, 5, 0), 83898384);
}

#[test]
fn generated_chunk_has_terrain_trunk_and_leaves() {
    let position = ChunkPosition { x: -2, z: -1 };
    let chunk = Chunk::generate(position, &heights_for(position, flat_height), 1337);
    // World column -20, -15 grows a six-block trunk on ground at 20.
    let local = local_position(pos(-20, 0, -15));
    let at = |y: i32| chunk.get(BlockPos { x: local.x, y, z: local.z });
    assert_eq!(at(20), Block::Grass);
    assert_eq!(at(19), Block::Dirt);
    for y in 21..27 {
        assert_eq!(at(y), Block::Wood);
    }
    assert_eq!(at(27), Block::Leaves);
    assert_eq!(at(28), Block::Leaves);
    assert_eq!(at(29), Block::Air);
    assert_eq!(chunk.max_height, 29);
}

#[test]
fn edits_from_the_network_are_applied() {
    let mut world = generate(3, flat_height);
    apply_edit(&mut world, Edit { position: [2, 30, 3], block: Block::Wood as u8 });
    assert_eq!(world.get(pos(2, 30, 3)), Block::Wood);
    apply_edit(&mut world, Edit { position: [2, 20, 3], block: 0 });
    assert_eq!(world.get(pos(2, 20, 3)), Block::Air);
}

#[test]
fn a_welcome_replays_its_edits_in_order() {
    let mut world = generate(3, flat_height);
    let under = world.get(pos(4, 19, 4));
    apply_edits(
        &mut world,
        &vec![
            Edit { position: [4, 25, 4], block: Block::Stone as u8 },
            Edit { position: [4, 19, 4], block: 9 },
            Edit { position: [4, 25, 4], block: Block::Sand as u8 },
            Edit { position: [5, 20, 5], block: 0 },
        ],
    );
    assert_eq!(world.get(pos(4, 25, 4)), Block::Sand);
    assert_eq!(world.get(pos(4, 19, 4)), under);
    assert_eq!(world.get(pos(5, 20, 5)), Block::Air);
}

#[test]
fn edits_naming_no_block_are_ignored() {
    let mut world = generate(3, flat_height);
    let before = world.get(pos(1, 20, 1));
    apply_edit(&mut world, Edit { position: [1, 20, 1], block: 8 });
    apply_edit(&mut world, Edit { position: [1, 20, 1], block: 255 });
    assert_eq!(world.get(pos(1, 20, 1)), before);
    apply_edit(&mut world, Edit { position: [1, 60, 1], block: 1 });
    assert_eq!(world.get(pos(1, 60, 1)), Block::Air);
}

#[test]
fn blocks_have_display_names() {
    assert_eq!(block_name(Block::Air), "AIR");
    assert_eq!(block_name(Block::Grass), "GRASS");
    assert_eq!(block_name(Block::Leaves), "LEAVES");
    assert_eq!(block_name(Block::Snow), "SNOW");
}

#[test]
fn breaking_a_block_gives_it_back_and_leaves_air() {
    let mut world = generate(3, flat_height);
    world.set(pos(4, 25, 4), Block::Stone);
    assert_eq!(world.break_at(pos(4, 25, 4)), Block::Stone);
    assert_eq!(world.get(pos(4, 25, 4)), Block::Air);
    assert_eq!(world.break_at(pos(4, 70, 4)), Block::Air);
}
