use threes_rs::game::{Direction, Game};
use threes_rs::play_game::{
    calculate_transition, get_rotations_needed, map_rotated_index, ActionType, RenderState,
};
use threes_rs::spawn_eval::resolve_real_spawn_value;
use threes_rs::threes_env::get_random_valid_action;
use threes_rs::tile::Tile;

fn board_game(rows: [[u32; 4]; 4]) -> Game {
    let mut g = Game::new();
    for r in 0..4 {
        for c in 0..4 {
            g.board[r][c] = Tile::new(rows[r][c]);
        }
    }
    g
}

#[test]
fn render_rotations_per_direction() {
    assert_eq!(get_rotations_needed(Direction::Left), 0);
    assert_eq!(get_rotations_needed(Direction::Down), 1);
    assert_eq!(get_rotations_needed(Direction::Right), 2);
    assert_eq!(get_rotations_needed(Direction::Up), 3);
}

#[test]
fn render_rotated_indices() {
    assert_eq!(map_rotated_index(0, 0, 0), 0);
    assert_eq!(map_rotated_index(1, 2, 0), 6);
    assert_eq!(map_rotated_index(0, 0, 1), 12);
    assert_eq!(map_rotated_index(0, 1, 1), 8);
    assert_eq!(map_rotated_index(0, 0, 2), 15);
    assert_eq!(map_rotated_index(0, 0, 3), 3);
    assert_eq!(map_rotated_index(0, 1, 3), 7);
    assert_eq!(map_rotated_index(2, 1, 5), map_rotated_index(2, 1, 1));
}

#[test]
fn render_state_copies_game() {
    let mut g = board_game([[1, 2, 3, 6], [0; 4], [0; 4], [0, 0, 0, 12]]);
    g.hints = vec![6, 12];
    let rs = RenderState::from_game(&g);
    assert_eq!(rs.grid, [[1, 2, 3, 6], [0; 4], [0; 4], [0, 0, 0, 12]]);
    assert_eq!(rs.next_hints, vec![6, 12]);
    assert_eq!(rs.score, 3 + 9 + 27);
}

#[test]
fn render_transition_left() {
    let g = board_game([[1, 2, 3, 0], [0; 4], [0; 4], [0, 0, 0, 6]]);
    let t = calculate_transition(&g, Direction::Left);
    let ev: Vec<(usize, usize, ActionType, u32, Option<u32>)> = t
        .events
        .iter()
        .map(|e| (e.from_index, e.to_index, e.action, e.value, e.merged_value))
        .collect();
    assert_eq!(
        ev,
        vec![
            (1, 0, ActionType::Merge, 2, Some(3)),
            (0, 0, ActionType::Static, 1, None),
            (2, 1, ActionType::Slide, 3, None),
            (15, 14, ActionType::Slide, 6, None),
        ]
    );
    assert_eq!(t.end_state.grid, [[0; 4]; 4]);
    assert!(t.end_state.next_hints.is_empty());
    assert_eq!(t.end_state.score, 0);
}

#[test]
fn render_transition_static_cards() {
    let g = board_game([[3, 0, 0, 0], [1, 1, 0, 0], [0; 4], [0; 4]]);
    let t = calculate_transition(&g, Direction::Left);
    let ev: Vec<(usize, usize, ActionType)> =
        t.events.iter().map(|e| (e.from_index, e.to_index, e.action)).collect();
    assert_eq!(
        ev,
        vec![
            (0, 0, ActionType::Static),
            (4, 4, ActionType::Static),
            (5, 5, ActionType::Static),
        ]
    );
}

#[test]
fn render_transition_down() {
    let g = board_game([[3, 0, 0, 0], [3, 0, 0, 0], [0; 4], [0; 4]]);
    let t = calculate_transition(&g, Direction::Down);
    let ev: Vec<(usize, usize, ActionType, u32)> =
        t.events.iter().map(|e| (e.from_index, e.to_index, e.action, e.value)).collect();
    assert_eq!(
        ev,
        vec![(4, 8, ActionType::Slide, 3), (0, 4, ActionType::Slide, 3)]
    );
}

#[test]
fn env_random_action_is_valid() {
    let g = board_game([[3, 0, 0, 0], [0; 4], [0; 4], [0; 4]]);
    for _ in 0..20 {
        let d = get_random_valid_action(&g).unwrap();
        assert!(d == Direction::Down || d == Direction::Right);
        assert!(g.can_move(d));
    }
    let stuck = board_game([[1, 3, 1, 3], [3, 1, 3, 1], [1, 3, 1, 3], [3, 1, 3, 1]]);
    assert_eq!(get_random_valid_action(&stuck), None);
}

#[test]
fn spawn_resolution() {
    assert_eq!(resolve_real_spawn_value(1), 1);
    assert_eq!(resolve_real_spawn_value(3), 3);
    assert_eq!(resolve_real_spawn_value(6), 6);
    for _ in 0..30 {
        let u = resolve_real_spawn_value(12);
        assert!(u == 6 || u == 12);
        let v = resolve_real_spawn_value(48);
        assert!(v == 12 || v == 24 || v == 48);
        let w = resolve_real_spawn_value(24);
        assert!(w == 6 || w == 12 || w == 24);
    }
}

#[test]
fn render_transition_rows_follow_the_move() {
    let g = board_game([[0, 1, 2, 0], [3, 3, 0, 0], [0, 0, 0, 6], [2, 1, 0, 0]]);
    for dir in [Direction::Left, Direction::Right, Direction::Up, Direction::Down] {
        if !g.can_move(dir) {
            continue;
        }
        let t = calculate_transition(&g, dir);
        let mut after = g.clone();
        let _ = after.apply_move_no_spawn(dir);
        // Every merge or slide lands where the move put a card.
        for e in t.events.iter().filter(|e| e.action == ActionType::Merge || e.action == ActionType::Slide) {
            let landed = after.board[e.to_index / 4][e.to_index % 4].value;
            assert_ne!(landed, 0);
        }
    }
}

#[test]
fn random_choices_cover_every_option() {
    let mut seen = std::collections::HashSet::new();
    for _ in 0..300 {
        seen.insert(resolve_real_spawn_value(48));
    }
    assert_eq!(seen.len(), 3);

    let g = board_game([[3, 0, 0, 0], [0; 4], [0; 4], [0; 4]]);
    let mut dirs = std::collections::HashSet::new();
    for _ in 0..200 {
        dirs.insert(format!("{:?}", get_random_valid_action(&g).unwrap()));
    }
    assert_eq!(dirs.len(), 2);
}

#[test]
fn render_spawn_events_mark_changed_cells() {
    let g = board_game([[1, 2, 3, 0], [0; 4], [0; 4], [0, 0, 0, 6]]);
    let mut t = calculate_transition(&g, Direction::Left);
    let after = board_game([[3, 3, 0, 2], [0; 4], [0; 4], [0, 0, 6, 0]]);
    let before = t.events.len();
    threes_rs::play_game::add_spawn_events(&mut t, &after);
    let added: Vec<(usize, ActionType, u32)> =
        t.events[before..].iter().map(|e| (e.to_index, e.action, e.value)).collect();
    // The merge's target is replayed with the card it held, so it is marked too.
    assert_eq!(added, vec![(0, ActionType::Spawn, 3), (3, ActionType::Spawn, 2)]);
}

#[test]
fn render_events_rebuild_the_moved_board() {
    let boards = [
        [[1, 2, 3, 0], [0; 4], [0; 4], [0, 0, 0, 6]],
        [[0, 1, 2, 0], [3, 3, 0, 0], [0, 0, 0, 6], [2, 1, 0, 0]],
        [[1, 2, 3, 3], [6, 6, 0, 1], [2, 0, 2, 0], [3, 0, 0, 3]],
    ];
    for rows in boards {
        let g = board_game(rows);
        for dir in [Direction::Left, Direction::Right, Direction::Up, Direction::Down] {
            let t = calculate_transition(&g, dir);
            let mut after = g.clone();
            let _ = after.apply_move_no_spawn(dir);
            for i in 0..16 {
                let merge = t.events.iter().find(|e| e.to_index == i && e.action == ActionType::Merge);
                let card = t.events.iter().find(|e| {
                    e.to_index == i && (e.action == ActionType::Slide || e.action == ActionType::Static)
                });
                let rebuilt = match (merge, card) {
                    (Some(e), _) => e.merged_value.unwrap(),
                    (None, Some(e)) => e.value,
                    (None, None) => 0,
                };
                assert_eq!(rebuilt, after.board[i / 4][i % 4].value);
            }
        }
    }
}

#[test]
fn spawn_tally_counts_bonus_cards() {
    let mut spawns = std::collections::HashMap::new();
    threes_rs::spawn_eval::tally_bonus_spawn(&mut spawns, 3);
    threes_rs::spawn_eval::tally_bonus_spawn(&mut spawns, 6);
    threes_rs::spawn_eval::tally_bonus_spawn(&mut spawns, 12);
    threes_rs::spawn_eval::tally_bonus_spawn(&mut spawns, 6);
    assert_eq!(spawns.len(), 2);
    assert_eq!(spawns[&6], 2);
    assert_eq!(spawns[&12], 1);
}
