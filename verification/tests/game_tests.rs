use threes_rs::game::place_start_cards;
use threes_rs::pseudo_list::PseudoList;
use threes_rs::deck_tracker::Chance;
use threes_rs::game::{Direction, Game};
use threes_rs::tile::Tile;

fn game_with(rows: [[u32; 4]; 4]) -> Game {
    let mut g = Game::new();
    for r in 0..4 {
        for c in 0..4 {
            g.board[r][c] = Tile::new(rows[r][c]);
        }
    }
    g.score = 0;
    g.future_value = 1;
    g.hints = vec![1];
    g
}

fn values(g: &Game) -> [[u32; 4]; 4] {
    let mut out = [[0u32; 4]; 4];
    for r in 0..4 {
        for c in 0..4 {
            out[r][c] = g.board[r][c].value;
        }
    }
    out
}

#[test]
fn game_new_deals_nine_small_cards() {
    for _ in 0..20 {
        let g = Game::new();
        let flat = g.get_board_flat();
        assert_eq!(flat.iter().filter(|&&v| v != 0).count(), 9);
        assert!(flat.iter().all(|&v| v <= 3));
        assert!((1..=3).contains(&g.future_value));
        assert_eq!(g.hints, vec![g.future_value]);
        assert_eq!(g.score, 0);
        assert_eq!(g.num_move, 0);
        assert!(!g.is_afterstate);
    }
}

#[test]
fn game_direction_from_u8() {
    assert_eq!(Direction::from_u8(0), Direction::Up);
    assert_eq!(Direction::from_u8(1), Direction::Down);
    assert_eq!(Direction::from_u8(2), Direction::Left);
    assert_eq!(Direction::from_u8(3), Direction::Right);
}

#[test]
fn game_move_left_merges_once_per_row() {
    let mut g = game_with([[1, 2, 0, 0], [3, 3, 3, 0], [0, 1, 2, 3], [1, 1, 1, 1]]);
    assert!(g.can_move(Direction::Left));
    let (moved, lines) = g.apply_move_no_spawn(Direction::Left);
    assert!(moved);
    assert_eq!(lines, vec![0, 1, 2]);
    assert_eq!(values(&g), [[3, 0, 0, 0], [6, 3, 0, 0], [1, 2, 3, 0], [1, 1, 1, 1]]);
    assert_eq!(g.score, 1 + 6);
}

#[test]
fn game_move_right_and_down() {
    let mut g = game_with([[0, 0, 2, 1], [0, 0, 0, 0], [0, 0, 0, 0], [0, 0, 0, 0]]);
    let (moved, lines) = g.apply_move_no_spawn(Direction::Right);
    assert!(moved);
    assert_eq!(lines, vec![0]);
    assert_eq!(values(&g)[0], [0, 0, 0, 3]);

    let mut h = game_with([[6, 0, 0, 0], [6, 0, 0, 0], [0, 0, 0, 0], [0, 0, 0, 0]]);
    let (moved, lines) = h.apply_move_no_spawn(Direction::Down);
    assert!(moved);
    assert_eq!(lines, vec![0]);
    assert_eq!(values(&h), [[0, 0, 0, 0], [6, 0, 0, 0], [6, 0, 0, 0], [0, 0, 0, 0]]);
    assert_eq!(h.score, 0);
}

#[test]
fn game_move_up_merges_equal_cards() {
    let mut g = game_with([[12, 0, 0, 0], [12, 0, 0, 0], [0, 0, 0, 0], [0, 0, 0, 0]]);
    let (moved, lines) = g.apply_move_no_spawn(Direction::Up);
    assert!(moved);
    assert_eq!(lines, vec![0]);
    assert_eq!(values(&g)[0][0], 24);
    assert_eq!(g.score, 24);
}

#[test]
fn game_blocked_board() {
    let g = game_with([[1, 3, 1, 3], [3, 1, 3, 1], [1, 3, 1, 3], [3, 1, 3, 1]]);
    for d in [Direction::Up, Direction::Down, Direction::Left, Direction::Right] {
        assert!(!g.can_move(d));
    }
    assert!(g.get_valid_moves().is_empty());
    assert!(g.is_game_over());
}

#[test]
fn game_ones_do_not_merge() {
    let mut g = game_with([[1, 1, 0, 0], [0, 0, 0, 0], [0, 0, 0, 0], [0, 0, 0, 0]]);
    assert!(!g.can_move(Direction::Left));
    assert!(g.can_move(Direction::Right));
    let (moved, lines) = g.apply_move_no_spawn(Direction::Left);
    assert!(!moved);
    assert!(lines.is_empty());
    assert_eq!(values(&g)[0], [1, 1, 0, 0]);
}

#[test]
fn game_valid_moves_in_order() {
    let g = game_with([[0, 0, 0, 0], [0, 3, 0, 0], [0, 0, 0, 0], [0, 0, 0, 0]]);
    assert_eq!(
        g.get_valid_moves(),
        vec![Direction::Up, Direction::Down, Direction::Left, Direction::Right]
    );
    let h = game_with([[3, 0, 0, 0], [0, 0, 0, 0], [0, 0, 0, 0], [0, 0, 0, 0]]);
    assert_eq!(h.get_valid_moves(), vec![Direction::Down, Direction::Right]);
    assert!(!h.is_game_over());
}

#[test]
fn game_highest_tile_and_score() {
    let g = game_with([[1, 2, 3, 6], [12, 0, 0, 0], [0, 0, 0, 0], [0, 0, 0, 0]]);
    assert_eq!(g.get_highest_tile_rank(), 3);
    assert_eq!(g.get_highest_tile_value(), 12);
    assert_eq!(g.calculate_score(), 3 + 9 + 27);

    let only_small = game_with([[1, 2, 0, 0], [0, 0, 0, 0], [0, 0, 0, 0], [0, 0, 0, 0]]);
    assert_eq!(only_small.get_highest_tile_rank(), 0);
    assert_eq!(only_small.get_highest_tile_value(), 2);
    assert_eq!(only_small.calculate_score(), 0);
}

#[test]
fn game_board_flat_and_set_tile() {
    let mut g = game_with([[1, 2, 3, 6], [0, 0, 0, 0], [0, 0, 0, 0], [0, 0, 0, 12]]);
    let flat = g.get_board_flat();
    assert_eq!(flat, [1, 2, 3, 6, 0, 0, 0, 0, 0, 0, 0, 0, 0, 0, 0, 12]);
    g.set_tile_at_position(9, Tile::new(24));
    assert_eq!(g.board[2][1].value, 24);
}

#[test]
fn game_hints_for_high_cards() {
    let mut g = game_with([[0; 4]; 4]);
    g.future_value = 2;
    assert_eq!(g.predict_future(), vec![2]);
    g.future_value = 6;
    assert_eq!(g.predict_future(), vec![6]);
    g.future_value = 12;
    assert_eq!(g.predict_future(), vec![6, 12]);
    g.future_value = 48;
    assert_eq!(g.predict_future(), vec![12, 24, 48]);
}

#[test]
fn game_afterstate_lists_spawn_cells() {
    let g = game_with([[1, 2, 0, 0], [0, 0, 0, 0], [0, 3, 0, 0], [0, 0, 0, 0]]);
    let a = g.gen_afterstate(Direction::Left);
    assert!(a.is_afterstate);
    assert_eq!(a.possible_spawn_positions, vec![3, 11]);
    assert_eq!(a.board[0][0].value, 3);
    assert_eq!(a.board[2][0].value, 3);
    assert_eq!(a.score, 1);
    // The game it came from is unchanged.
    assert_eq!(g.board[0][0].value, 1);

    let up = g.gen_afterstate(Direction::Up);
    assert_eq!(up.possible_spawn_positions, vec![13]);
}

#[test]
fn game_outcomes_cover_cells_and_hints() {
    let mut g = game_with([[1, 2, 0, 0], [0, 0, 0, 0], [0, 3, 0, 0], [0, 0, 0, 0]]);
    g.hints = vec![1, 2];
    let a = g.gen_afterstate(Direction::Left);
    let outs = a.gen_all_possible_outcomes();
    assert_eq!(outs.len(), 4);
    let expected = [(3usize, 1u32), (3, 2), (11, 1), (11, 2)];
    for (i, (next, p)) in outs.iter().enumerate() {
        let (pos, val) = expected[i];
        assert_eq!(next.board[pos / 4][pos % 4].value, val);
        assert!(!next.is_afterstate);
        assert_eq!(*p, Chance { numerator: 1, denominator: 4 });
        assert!(!next.predicted_future_distribution.is_empty());
    }
    let total: u64 = outs.iter().map(|o| o.1.numerator).sum();
    assert_eq!(total, outs[0].1.denominator);
}

#[test]
fn game_spawn_lands_on_a_moved_line() {
    let mut g = game_with([[1, 2, 0, 0], [0, 0, 0, 0], [0, 0, 0, 0], [0, 0, 0, 0]]);
    let (_, lines) = g.apply_move_no_spawn(Direction::Left);
    g.spawn_new_tile(Direction::Left, &lines, vec![2]);
    assert_eq!(g.board[0][3].value, 2);
    assert_eq!(values(&g)[0], [3, 0, 0, 2]);
}

#[test]
fn game_spawn_without_moved_lines_does_nothing() {
    let mut g = game_with([[1, 2, 0, 0], [0, 0, 0, 0], [0, 0, 0, 0], [0, 0, 0, 0]]);
    let before = values(&g);
    g.spawn_new_tile(Direction::Left, &[], vec![2]);
    assert_eq!(values(&g), before);
}

#[test]
fn game_full_move_adds_one_card() {
    let mut g = game_with([[1, 2, 0, 0], [0, 0, 0, 0], [0, 0, 0, 0], [0, 0, 0, 0]]);
    g.hints = vec![3];
    g.make_full_move(Direction::Left);
    assert_eq!(values(&g)[0], [3, 0, 0, 3]);
    assert_eq!(g.num_move, 1);
    assert!(!g.is_afterstate);
    assert!(g.future_value >= 1);
    assert!(!g.hints.is_empty());
    assert_eq!(g.score, 1);
}

#[test]
fn game_move_keeps_card_total() {
    let mut g = game_with([[1, 2, 3, 3], [6, 6, 0, 1], [2, 0, 2, 0], [3, 0, 0, 3]]);
    let before: u32 = g.get_board_flat().iter().sum();
    let _ = g.apply_move_no_spawn(Direction::Left);
    let after: u32 = g.get_board_flat().iter().sum();
    assert_eq!(before, after);
}

#[test]
fn game_next_value_early_comes_from_basic_deck() {
    let mut g = game_with([[0; 4]; 4]);
    for _ in 0..30 {
        let v = g.get_next_value();
        assert!((1..=3).contains(&v));
    }
}

#[test]
fn game_new_deals_from_one_deck() {
    for _ in 0..20 {
        let g = Game::new();
        let mut counts = [0usize; 4];
        for v in g.get_board_flat() {
            if v != 0 {
                counts[v as usize] += 1;
            }
        }
        counts[g.future_value as usize] += 1;
        for &v in g.numbers.pool() {
            counts[v as usize] += 1;
        }
        assert_eq!(g.numbers.pool().len(), 2);
        assert_eq!(counts, [0, 4, 4, 4]);
    }
}

#[test]
fn game_spawn_picks_among_moved_lines() {
    let mut rows = std::collections::HashSet::new();
    for _ in 0..200 {
        let mut g = game_with([[1, 2, 0, 0], [0; 4], [1, 2, 0, 0], [0; 4]]);
        let (_, lines) = g.apply_move_no_spawn(Direction::Left);
        g.spawn_new_tile(Direction::Left, &lines, vec![1]);
        for r in 0..4 {
            if g.board[r][3].value == 1 {
                rows.insert(r);
            }
        }
    }
    assert_eq!(rows.into_iter().collect::<std::collections::BTreeSet<_>>(), [0usize, 2].into_iter().collect());
}

#[test]
fn game_mirror_and_transpose_moves_agree() {
    let rows = [[1, 2, 3, 3], [6, 6, 0, 1], [2, 0, 2, 0], [3, 0, 0, 3]];
    let mut mirrored = [[0u32; 4]; 4];
    let mut transposed = [[0u32; 4]; 4];
    for r in 0..4 {
        for c in 0..4 {
            mirrored[r][c] = rows[r][3 - c];
            transposed[r][c] = rows[c][r];
        }
    }
    let mut a = game_with(rows);
    let mut b = game_with(mirrored);
    let ra = a.apply_move_no_spawn(Direction::Right);
    let rb = b.apply_move_no_spawn(Direction::Left);
    assert_eq!(ra, rb);
    assert_eq!(a.score, b.score);
    for r in 0..4 {
        for c in 0..4 {
            assert_eq!(a.board[r][c].value, b.board[r][3 - c].value);
        }
    }
    let mut u = game_with(rows);
    let mut t = game_with(transposed);
    assert_eq!(u.apply_move_no_spawn(Direction::Up), t.apply_move_no_spawn(Direction::Left));
    for r in 0..4 {
        for c in 0..4 {
            assert_eq!(u.board[r][c].value, t.board[c][r].value);
        }
    }
}

#[test]
fn game_move_loses_at_most_one_card_per_line() {
    let mut g = game_with([[1, 2, 3, 3], [6, 6, 0, 1], [2, 0, 2, 0], [3, 0, 0, 3]]);
    let before = g.get_board_flat().iter().filter(|&&v| v != 0).count();
    let (_, lines) = g.apply_move_no_spawn(Direction::Left);
    let after = g.get_board_flat().iter().filter(|&&v| v != 0).count();
    assert!(after <= before);
    assert!(after + lines.len() >= before);
    assert_eq!(before - after, 2);
}

#[test]
fn game_start_cards_follow_order_and_deck() {
    let mut deck = PseudoList::new(1);
    for v in [1u32, 2, 3, 3, 2, 1, 1, 1, 2, 3, 2, 3] {
        deck.add(v);
    }
    deck.generate_list();
    let pool: Vec<u32> = deck.pool().clone();
    let order: Vec<usize> = vec![5, 0, 15, 7, 3, 12, 9, 1, 10, 2, 4, 6, 8, 11, 13, 14];
    let board = place_start_cards(&order, &mut deck);
    for i in 0..9 {
        let p = order[i];
        assert_eq!(board[p / 4][p % 4].value, pool[pool.len() - 1 - i]);
    }
    for &p in &order[9..] {
        assert_eq!(board[p / 4][p % 4].value, 0);
    }
    assert_eq!(deck.pool().as_slice(), &pool[..3]);
}
