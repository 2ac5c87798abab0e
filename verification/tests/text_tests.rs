use threes_rs::deck_tracker::Chance;
use threes_rs::suggest_move::{ForecastCheck, TurnTracker};
use threes_rs::checkpoint::{
    checkpoint_episode, find_latest_checkpoint, find_latest_checkpoint_name, named_episode,
};
use threes_rs::game::{Direction, Game};
use threes_rs::suggest_move::{action_to_key, map_1d_to_2d, parse_log_line, sync_board_state};
use threes_rs::text::{parse_u32, split_chars, trim_chars};

fn chars(s: &str) -> Vec<char> {
    s.chars().collect()
}

#[test]
fn text_parse_u32_like_std() {
    for s in ["0", "42", "+7", "007", "4294967295", "4294967296", "", "+", "-1", " 1", "1a"] {
        assert_eq!(parse_u32(&chars(s)), s.parse::<u32>().ok(), "{}", s);
    }
}

#[test]
fn text_trim_and_split() {
    assert_eq!(trim_chars(&chars("  a b \t")), chars("a b"));
    assert_eq!(trim_chars(&chars("   ")), Vec::<char>::new());
    let parts = split_chars(&chars("a||b|"), '|');
    assert_eq!(parts, vec![chars("a"), vec![], chars("b"), vec![]]);
}

#[test]
fn log_line_full() {
    let line = "0,1,2,3, 6,12,24,48,0,0,0,0,0,0,0,3|2|17|120";
    let (board, next, moves, score) = parse_log_line(line).unwrap();
    assert_eq!(board, vec![0, 1, 2, 3, 6, 12, 24, 48, 0, 0, 0, 0, 0, 0, 0, 3]);
    assert_eq!(next, 2);
    assert_eq!(moves, 17);
    assert_eq!(score, 120);
}

#[test]
fn log_line_bad_numbers_count_as_zero() {
    let (board, next, moves, score) = parse_log_line("x,5,|y| 3|9|extra").unwrap();
    assert_eq!(board, vec![0, 5, 0]);
    assert_eq!(next, 0);
    assert_eq!(moves, 0);
    assert_eq!(score, 9);
}

#[test]
fn log_line_too_few_fields() {
    assert_eq!(parse_log_line("1,2,3|4|5"), None);
    assert_eq!(parse_log_line(""), None);
}

#[test]
fn log_board_rows_from_the_bottom() {
    let v: Vec<u32> = (0..16).collect();
    let b = map_1d_to_2d(&v);
    assert_eq!(b[3], [0, 1, 2, 3]);
    assert_eq!(b[0], [12, 13, 14, 15]);
    assert_eq!(b[1][2], 10);
}

#[test]
fn log_action_keys() {
    assert_eq!(action_to_key(Some(Direction::Up)), "Up");
    assert_eq!(action_to_key(Some(Direction::Down)), "Down");
    assert_eq!(action_to_key(Some(Direction::Left)), "Left");
    assert_eq!(action_to_key(Some(Direction::Right)), "Right");
    assert_eq!(action_to_key(None), "Return");
}

#[test]
fn log_sync_copies_board_and_hint() {
    let mut g = Game::new();
    let before_score = g.score;
    let board = [[1, 2, 3, 0], [0, 6, 0, 0], [0, 0, 12, 0], [0, 0, 0, 24]];
    sync_board_state(&mut g, board, 48, 999);
    for r in 0..4 {
        for c in 0..4 {
            assert_eq!(g.board[r][c].value, board[r][c]);
        }
    }
    assert_eq!(g.future_value, 48);
    assert_eq!(g.hints, vec![48]);
    assert_eq!(g.score, before_score);
}

#[test]
fn checkpoint_names() {
    assert_eq!(checkpoint_episode("brain_ep_3760000.msgpack"), Some(3760000));
    assert_eq!(checkpoint_episode("brain_ep_+5.msgpack"), Some(5));
    assert_eq!(checkpoint_episode("brain_ep_brain_ep_5.msgpack.msgpack"), Some(5));
    assert_eq!(checkpoint_episode("brain_ep_.msgpack"), None);
    assert_eq!(checkpoint_episode("brain_ep_5.json"), None);
    assert_eq!(checkpoint_episode("cured_brain_ep_5.msgpack"), None);
    assert_eq!(checkpoint_episode("brain_ep_1x.msgpack"), None);
}

#[test]
fn checkpoint_names_read_by_the_adviser() {
    assert_eq!(named_episode("brain_ep_42.msgpack"), Some(42));
    assert_eq!(named_episode("brain_ep_1brain_ep_2.msgpack"), Some(12));
    assert_eq!(checkpoint_episode("brain_ep_1brain_ep_2.msgpack"), None);
    assert_eq!(named_episode("brain_ep_4.msgpack2.msgpack"), Some(42));
    assert_eq!(named_episode("readme.txt"), None);
}

#[test]
fn checkpoint_latest() {
    let names: Vec<String> = ["notes.txt", "brain_ep_10.msgpack", "brain_ep_200.msgpack", "brain_ep_30.msgpack"]
        .iter()
        .map(|s| s.to_string())
        .collect();
    assert_eq!(find_latest_checkpoint(&names), Some(200));
    assert_eq!(find_latest_checkpoint_name(&names), Some("brain_ep_200.msgpack".to_string()));
    let none: Vec<String> = vec!["a.msgpack".to_string()];
    assert_eq!(find_latest_checkpoint(&none), None);
    assert_eq!(find_latest_checkpoint_name(&none), None);
    assert_eq!(find_latest_checkpoint(&Vec::new()), None);
}

#[test]
fn checkpoint_latest_name_on_tie_is_last() {
    let names: Vec<String> = ["brain_ep_7.msgpack", "brain_ep_+7.msgpack", "brain_ep_3.msgpack"]
        .iter()
        .map(|s| s.to_string())
        .collect();
    assert_eq!(find_latest_checkpoint_name(&names), Some("brain_ep_+7.msgpack".to_string()));
    assert_eq!(find_latest_checkpoint(&names), Some(7));
}

#[test]
fn checkpoint_latest_is_the_largest() {
    let names: Vec<String> = ["brain_ep_5.msgpack", "brain_ep_50.msgpack", "brain_ep_9.msgpack", "x"]
        .iter()
        .map(|s| s.to_string())
        .collect();
    let best = find_latest_checkpoint(&names).unwrap();
    for n in &names {
        if let Some(e) = checkpoint_episode(n) {
            assert!(e <= best);
        }
    }
    assert_eq!(best, 50);
}

#[test]
fn turn_tracker_checks_forecasts() {
    let mut t = TurnTracker::new();
    assert_eq!(t.observe(0, 2), (false, None));
    assert_eq!(t.last_move, 0);
    t.predictions = Some(vec![(1, Chance { numerator: 1, denominator: 3 }), (2, Chance { numerator: 2, denominator: 3 })]);
    // The same move again changes nothing.
    assert_eq!(t.observe(0, 2), (false, None));
    assert_eq!(t.observe(1, 2), (false, Some(ForecastCheck::Expected(Chance { numerator: 2, denominator: 3 }))));
    assert!(t.predictions.is_none());
    t.predictions = Some(vec![(3, Chance { numerator: 1, denominator: 1 })]);
    assert_eq!(t.observe(2, 1), (false, Some(ForecastCheck::Contradicted)));
    t.predictions = Some(vec![(3, Chance { numerator: 1, denominator: 1 })]);
    assert_eq!(t.observe(3, 3), (false, Some(ForecastCheck::Certain)));
    t.predictions = Some(vec![(3, Chance { numerator: 1, denominator: 2 })]);
    assert_eq!(t.observe(4, 1), (false, Some(ForecastCheck::Missed)));
    t.predictions = Some(vec![(3, Chance { numerator: 1, denominator: 2 })]);
    // A lower move count starts a new game: the old forecast is dropped.
    assert_eq!(t.observe(0, 1), (true, None));
    assert_eq!(t.last_move, 0);
    assert!(t.predictions.is_none());
}
