use rusted_cube::perlin::PerlinNoise;

fn table(noise: &PerlinNoise) -> Vec<u8> {
    (0..256).map(|index| noise.hash(index, 0)).collect()
}

#[test]
fn hash_reads_the_seeded_table() {
    let noise = PerlinNoise::new(42);
    assert_eq!(noise.hash(3, 4), 112);
    assert_eq!(noise.hash(-1, -7), 124);
    assert_eq!(noise.hash(300, 5), 4);
}

#[test]
fn same_seed_gives_the_same_table() {
    let first = PerlinNoise::new(42);
    let second = PerlinNoise::new(42);
    for x in -300..300 {
        assert_eq!(first.hash(x, 7), second.hash(x, 7));
    }
}

#[test]
fn zero_and_one_are_distinct_seeds() {
    assert_ne!(table(&PerlinNoise::new(0)), table(&PerlinNoise::new(1)));
}

#[test]
fn each_cell_hash_is_a_permutation_of_its_row() {
    let noise = PerlinNoise::new(7);
    for x in 0..4 {
        let mut seen = [false; 256];
        for y in 0..256 {
            seen[noise.hash(x, y) as usize] = true;
        }
        assert!(seen.iter().all(|hit| *hit));
    }
}
