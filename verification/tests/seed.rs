use rusted_cube::seed::seed_from_query;

#[test]
fn a_seed_in_the_query_is_read() {
    assert_eq!(seed_from_query("?seed=42"), Some(42));
    assert_eq!(seed_from_query("?view=far&seed=7"), Some(7));
    assert_eq!(seed_from_query("??seed=+5"), Some(5));
    assert_eq!(seed_from_query("seed=4294967295"), Some(4_294_967_295));
}

#[test]
fn the_first_seed_pair_decides() {
    assert_eq!(seed_from_query("?seed=1&seed=2"), Some(1));
    assert_eq!(seed_from_query("?seed=x&seed=2"), None);
    assert_eq!(seed_from_query("?seed&seed=3"), Some(3));
}

#[test]
fn anything_else_asks_for_no_seed() {
    assert_eq!(seed_from_query(""), None);
    assert_eq!(seed_from_query("?"), None);
    assert_eq!(seed_from_query("?seed="), None);
    assert_eq!(seed_from_query("?seed=+"), None);
    assert_eq!(seed_from_query("?seed=-1"), None);
    assert_eq!(seed_from_query("?seeds=3"), None);
    assert_eq!(seed_from_query("?seed=4294967296"), None);
    assert_eq!(seed_from_query("?seed=12 "), None);
}
