use threes_rs::pseudo_list::PseudoList;
use threes_rs::threes_const::{K_NUMBER_RANDOMNESS, K_SPECIAL_RARENESS};

#[test]
fn test_pseudo_list_flow() {
    let mut numbers = PseudoList::new(K_NUMBER_RANDOMNESS);
    numbers.add(1);
    numbers.add(2);
    numbers.add(3);

    numbers.generate_list();
    assert_eq!(numbers.count(), 12);

    let ones = numbers.pool().iter().filter(|&&x| x == 1).count();
    let twos = numbers.pool().iter().filter(|&&x| x == 2).count();
    let threes = numbers.pool().iter().filter(|&&x| x == 3).count();
    assert_eq!(ones, 4);
    assert_eq!(twos, 4);
    assert_eq!(threes, 4);

    numbers.shuffle();
    assert_eq!(numbers.count(), 12);

    let val = numbers.get_next();
    assert!(val.is_some());
    assert_eq!(numbers.count(), 11);
}

#[test]
fn test_special_list() {
    let mut special = PseudoList::new(1);
    special.add(1);
    for _ in 0..K_SPECIAL_RARENESS {
        special.add(0);
    }

    special.generate_list();
    special.shuffle();

    let expected_count = 1 + K_SPECIAL_RARENESS as usize;
    assert_eq!(special.count(), expected_count);

    let ones_count = special.pool().iter().filter(|&&x| x == 1).count();
    let zeros_count = special.pool().iter().filter(|&&x| x == 0).count();

    assert_eq!(ones_count, 1);
    assert_eq!(zeros_count, K_SPECIAL_RARENESS as usize);
}

#[test]
fn test_auto_refill() {
    let mut list = PseudoList::new(1);
    list.add(100);
    list.generate_list();

    assert_eq!(list.count(), 1);

    let val = list.get_next();
    assert_eq!(val, Some(100));
    assert_eq!(list.count(), 0);

    let val2 = list.get_next();
    assert_eq!(val2, Some(100));
    assert_eq!(list.count(), 0);
}

#[test]
fn pseudo_list_empty_template_gives_nothing() {
    let mut list: PseudoList<u32> = PseudoList::new(3);
    assert_eq!(list.get_next(), None);
    assert_eq!(list.count(), 0);
}

#[test]
fn pseudo_list_generate_keeps_template_order() {
    let mut list = PseudoList::new(2);
    list.add(7u32);
    list.add(9u32);
    list.generate_list();
    assert_eq!(list.pool(), &vec![7, 7, 9, 9]);
    list.generate_list();
    assert_eq!(list.pool(), &vec![7, 7, 9, 9]);
}

#[test]
fn pseudo_list_draws_from_the_end() {
    let mut list = PseudoList::new(1);
    list.add(4u32);
    list.add(5u32);
    list.generate_list();
    assert_eq!(list.get_next(), Some(5));
    assert_eq!(list.get_next(), Some(4));
    assert_eq!(list.count(), 0);
}

#[test]
fn pseudo_list_nonempty_template_always_deals() {
    let mut list = PseudoList::new(1);
    list.add(7u32);
    for _ in 0..5 {
        assert_eq!(list.get_next(), Some(7));
    }
    assert_eq!(list.multiplier_value(), 1);
    assert_eq!(list.template_items(), &vec![7]);
}

#[test]
fn pseudo_list_shuffle_keeps_cards() {
    let mut list = PseudoList::new(3);
    for v in 1u32..=5 {
        list.add(v);
    }
    list.generate_list();
    list.shuffle();
    let mut pool = list.pool().clone();
    pool.sort();
    assert_eq!(pool, vec![1, 1, 1, 2, 2, 2, 3, 3, 3, 4, 4, 4, 5, 5, 5]);
}

#[test]
fn pseudo_list_cycle_frequencies() {
    let mut list = PseudoList::new(3);
    for v in [1u32, 0, 0, 2] {
        list.add(v);
    }
    list.generate_list();
    let count = |x: u32| list.pool().iter().filter(|&&y| y == x).count();
    assert_eq!(count(0), 6);
    assert_eq!(count(1), 3);
    assert_eq!(count(2), 3);
}

#[test]
fn pseudo_list_shuffle_reorders() {
    let mut changed = false;
    for _ in 0..20 {
        let mut list = PseudoList::new(1);
        for v in 0u32..15 {
            list.add(v);
        }
        list.generate_list();
        list.shuffle();
        if *list.pool() != (0u32..15).collect::<Vec<u32>>() {
            changed = true;
        }
    }
    assert!(changed);
}

#[test]
fn pseudo_list_one_cycle_deals_the_deck() {
    let mut numbers = PseudoList::new(K_NUMBER_RANDOMNESS);
    numbers.add(1u32);
    numbers.add(2u32);
    numbers.add(3u32);
    numbers.generate_list();
    numbers.shuffle();
    let mut counts = [0usize; 4];
    for _ in 0..12 {
        counts[numbers.get_next().unwrap() as usize] += 1;
    }
    assert_eq!(counts, [0, 4, 4, 4]);
    assert_eq!(numbers.count(), 0);
}
