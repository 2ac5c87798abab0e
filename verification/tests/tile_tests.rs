use threes_rs::tile::{get_rank_from_value, get_value_from_rank, Tile};

#[test]
fn test_rank_logic() {
    let t_empty = Tile::new(0);
    assert_eq!(t_empty.rank(), 0);

    let t1 = Tile::new(1);
    assert_eq!(t1.rank(), 21);

    let t2 = Tile::new(2);
    assert_eq!(t2.rank(), 22);

    let t3 = Tile::new(3);
    assert_eq!(t3.rank(), 1);

    let t6 = Tile::new(6);
    assert_eq!(t6.rank(), 2);

    let t12 = Tile::new(12);
    assert_eq!(t12.rank(), 3);

    let t24 = Tile::new(24);
    assert_eq!(t24.rank(), 4);

    let t48 = Tile::new(48);
    assert_eq!(t48.rank(), 5);
}

#[test]
fn tile_rank_matches_free_function() {
    for v in [0u32, 1, 2, 3, 5, 6, 11, 12, 24, 47, 48, 96, 6144, u32::MAX] {
        assert_eq!(Tile::new(v).rank(), get_rank_from_value(v));
    }
}

#[test]
fn tile_rank_rounds_down_between_cards() {
    assert_eq!(get_rank_from_value(5), 1);
    assert_eq!(get_rank_from_value(11), 2);
    assert_eq!(get_rank_from_value(47), 4);
    assert_eq!(get_rank_from_value(u32::MAX), 31);
}

#[test]
fn tile_value_of_rank() {
    assert_eq!(get_value_from_rank(1), 3);
    assert_eq!(get_value_from_rank(2), 6);
    assert_eq!(get_value_from_rank(5), 48);
    assert_eq!(get_value_from_rank(12), 6144);
    assert_eq!(get_value_from_rank(31), 3 * (1u32 << 30));
}

#[test]
fn tile_rank_and_value_round_trip() {
    for rank in 1u32..=31 {
        let v = get_value_from_rank(rank);
        assert_eq!(get_rank_from_value(v) as u32, rank);
    }
}

#[test]
fn tile_is_empty_only_for_zero() {
    assert!(Tile::new(0).is_empty());
    assert!(!Tile::new(1).is_empty());
    assert!(!Tile::new(3).is_empty());
}
