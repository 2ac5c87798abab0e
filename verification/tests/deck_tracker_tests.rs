use threes_rs::deck_tracker::{get_rank_from_value, get_value_from_rank, Chance, DeckTracker};

fn chance(numerator: u64, denominator: u64) -> Chance {
    Chance { numerator, denominator }
}

#[test]
fn deck_fresh_forecast_is_even_basic() {
    let t = DeckTracker::new();
    let f = t.predict_future(0);
    assert_eq!(f, vec![(1, chance(4, 12)), (2, chance(4, 12)), (3, chance(4, 12))]);
}

#[test]
fn deck_update_takes_card_from_basic_deck() {
    let mut t = DeckTracker::new();
    t.update(2);
    let f = t.predict_future(0);
    assert_eq!(f, vec![(1, chance(4, 11)), (2, chance(3, 11)), (3, chance(4, 11))]);
}

#[test]
fn deck_refills_after_twelve_basic_cards() {
    let mut t = DeckTracker::new();
    for v in [1u32, 1, 1, 1, 2, 2, 2, 2, 3, 3, 3] {
        t.update(v);
    }
    assert_eq!(t.predict_future(0), vec![(3, chance(1, 1))]);
    t.update(3);
    assert_eq!(t.predict_future(0), vec![(1, chance(4, 12)), (2, chance(4, 12)), (3, chance(4, 12))]);
}

#[test]
fn deck_bonus_slot_opens_after_move_21() {
    let mut t = DeckTracker::new();
    for _ in 0..22 {
        t.update(1);
    }
    // Four 1s were taken; the bonus cycle is at its first slot.
    let f = t.predict_future(6);
    assert_eq!(
        f,
        vec![
            (2, chance(480, 1008)),
            (3, chance(480, 1008)),
            (6, chance(24, 1008)),
            (12, chance(24, 1008)),
        ]
    );
    let total: u64 = f.iter().map(|e| e.1.numerator).sum();
    assert_eq!(total, 1008);
}

#[test]
fn deck_bonus_slot_needs_a_high_card() {
    let mut t = DeckTracker::new();
    for _ in 0..22 {
        t.update(1);
    }
    // The highest rank 4 demotes to 1: no bonus card can come.
    assert_eq!(t.predict_future(4), vec![(2, chance(4, 8)), (3, chance(4, 8))]);
}

#[test]
fn deck_bonus_card_closes_the_cycle() {
    let mut t = DeckTracker::new();
    for _ in 0..22 {
        t.update(1);
    }
    t.update(6);
    assert_eq!(t.predict_future(10), vec![(2, chance(4, 8)), (3, chance(4, 8))]);
}

#[test]
fn deck_wide_bonus_range() {
    let mut t = DeckTracker::new();
    for _ in 0..22 {
        t.update(1);
    }
    // Highest rank 8: anchors 4 and 5, each spread over three ranks.
    let f = t.predict_future(8);
    let total: u64 = f.iter().map(|e| e.1.numerator).sum();
    assert_eq!(total, f[0].1.denominator);
    let values: Vec<u32> = f.iter().map(|e| e.0).collect();
    assert_eq!(values, vec![2, 3, 6, 12, 24, 48]);
    let den = 8 * 21 * 6 * 2;
    assert!(f.iter().all(|e| e.1.denominator == den));
    // Bonus shares out of 6 * 2 per anchor pair: ranks 2..5 get 2, 4, 4, 2.
    assert_eq!(f[2].1.numerator, 8 * 2);
    assert_eq!(f[3].1.numerator, 8 * 4);
    assert_eq!(f[4].1.numerator, 8 * 4);
    assert_eq!(f[5].1.numerator, 8 * 2);
}

#[test]
fn deck_rank_value_helpers() {
    assert_eq!(get_value_from_rank(0), 0);
    assert_eq!(get_value_from_rank(1), 3);
    assert_eq!(get_value_from_rank(4), 24);
    assert_eq!(get_rank_from_value(0), 0);
    assert_eq!(get_rank_from_value(2), 0);
    assert_eq!(get_rank_from_value(3), 1);
    assert_eq!(get_rank_from_value(6), 2);
    assert_eq!(get_rank_from_value(96), 6);
}
