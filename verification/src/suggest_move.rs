use vstd::prelude::*;
use crate::deck_tracker::{Chance, DeckTracker};
use crate::game::{cell, Direction, Game};
use crate::text::{
    lemma_split_on_nonempty, parse_or_zero, parse_u32, pieces_view, split_chars, split_on, str_chars,
    trim, trim_chars,
};
use crate::tile::Tile;

verus! {

/// What a `[DATA]` line of the game's log holds: the board's values, the
/// next card, the number of moves and the score, separated by `|`; the
/// board's values are separated by `,`. A value that does not parse counts
/// as 0; a line with fewer than four fields gives nothing.
pub open spec fn log_line_spec(raw: Seq<char>) -> Option<(Seq<u32>, u32, u32, u32)> {
    let parts = split_on(raw, '|');
    if parts.len() < 4 {
        None
    } else {
        Some(
            (
                split_on(parts[0], ',').map_values(|p: Seq<char>| parse_or_zero(trim(p))),
                parse_or_zero(parts[1]),
                parse_or_zero(parts[2]),
                parse_or_zero(parts[3]),
            ),
        )
    }
}

/// Reads a `[DATA]` line of the game's log (see [`log_line_spec`]).
pub fn parse_log_line(raw: &str) -> (r: Option<(Vec<u32>, u32, u32, u32)>)
    ensures
        r is None <==> log_line_spec(raw@) is None,
        r matches Some(t) ==> log_line_spec(raw@) == Some((t.0@, t.1, t.2, t.3)),
{
    let chars = str_chars(raw);
    let parts = split_chars(chars.as_slice(), '|');
    let ghost pv = pieces_view(parts@);
    if parts.len() < 4 {
        return None;
    }
    assert(pv[0] == parts@[0]@);
    let cells = split_chars(parts[0].as_slice(), ',');
    let ghost cv = pieces_view(cells@);
    let ghost expected = cv.map_values(|p: Seq<char>| parse_or_zero(trim(p)));
    let mut board: Vec<u32> = Vec::new();
    let mut i: usize = 0;
    while i < cells.len()
        invariant
            0 <= i <= cells@.len(),
            cv == pieces_view(cells@),
            expected == cv.map_values(|p: Seq<char>| parse_or_zero(trim(p))),
            board@ == expected.take(i as int),
        decreases cells@.len() - i,
    {
        let t = trim_chars(cells[i].as_slice());
        assert(cv[i as int] == cells@[i as int]@);
        let v = match parse_u32(t.as_slice()) {
            Some(x) => x,
            None => 0,
        };
        board.push(v);
        assert(expected.take(i + 1) =~= expected.take(i as int).push(v));
        i = i + 1;
    }
    assert(expected.take(cells@.len() as int) =~= expected);
    let next = match parse_u32(parts[1].as_slice()) {
        Some(x) => x,
        None => 0,
    };
    let moves = match parse_u32(parts[2].as_slice()) {
        Some(x) => x,
        None => 0,
    };
    let score = match parse_u32(parts[3].as_slice()) {
        Some(x) => x,
        None => 0,
    };
    assert(pv[1] == parts@[1]@);
    assert(pv[2] == parts@[2]@);
    assert(pv[3] == parts@[3]@);
    Some((board, next, moves, score))
}

/// Lays out the 16 values of the log's board: value `i` goes to row
/// `3 - i / 4`, column `i % 4` (the log counts rows from the bottom).
pub fn map_1d_to_2d(v: &[u32]) -> (board: [[u32; 4]; 4])
    requires
        v@.len() >= 16,
    ensures
        forall|r: int, c: int|
            0 <= r < 4 && 0 <= c < 4 ==> #[trigger] board[r][c] == v@[(3 - r) * 4 + c],
{
    let mut board = [[0u32; 4]; 4];
    let mut i: usize = 0;
    while i < 16
        invariant
            0 <= i <= 16,
            v@.len() >= 16,
            forall|r: int, c: int|
                0 <= r < 4 && 0 <= c < 4 && (3 - r) * 4 + c < i ==> #[trigger] board[r][c] == v@[(3
                    - r) * 4 + c],
        decreases 16 - i,
    {
        let x = i % 4;
        let y = 3 - (i / 4);
        board[y][x] = v[i];
        i = i + 1;
    }
    board
}

/// The key that plays a move: an arrow key, or Return when there is none.
pub fn action_to_key(action: Option<Direction>) -> (key: &'static str)
    ensures
        action == Some(Direction::Up) ==> key@ == "Up"@,
        action == Some(Direction::Down) ==> key@ == "Down"@,
        action == Some(Direction::Left) ==> key@ == "Left"@,
        action == Some(Direction::Right) ==> key@ == "Right"@,
        action is None ==> key@ == "Return"@,
{
    match action {
        Some(Direction::Up) => "Up",
        Some(Direction::Down) => "Down",
        Some(Direction::Left) => "Left",
        Some(Direction::Right) => "Right",
        None => "Return",
    }
}

/// Copies the board and the next card read from the log into `game`; the
/// hint becomes that card alone. The score is not copied.
pub fn sync_board_state(game: &mut Game, board_2d: [[u32; 4]; 4], next_hint: u32, score: u32)
    ensures
        forall|r: int, c: int|
            0 <= r < 4 && 0 <= c < 4 ==> #[trigger] cell(final(game).board, r, c) == board_2d[r][c],
        final(game).future_value == next_hint,
        final(game).hints@ == seq![next_hint],
        final(game).score == old(game).score,
        final(game).num_move == old(game).num_move,
        final(game).is_afterstate == old(game).is_afterstate,
        final(game).deck_tracker == old(game).deck_tracker,
        final(game).possible_spawn_positions == old(game).possible_spawn_positions,
        final(game).numbers == old(game).numbers,
        final(game).special == old(game).special,
        final(game).predicted_future_distribution == old(game).predicted_future_distribution,
{
    let mut board = game.board;
    let mut r: usize = 0;
    while r < 4
        invariant
            0 <= r <= 4,
            forall|r2: int, c: int|
                0 <= r2 < r && 0 <= c < 4 ==> #[trigger] cell(board, r2, c) == board_2d[r2][c],
        decreases 4 - r,
    {
        let mut c: usize = 0;
        while c < 4
            invariant
                0 <= r < 4,
                0 <= c <= 4,
                forall|r2: int, c2: int|
                    0 <= r2 < r && 0 <= c2 < 4 ==> #[trigger] cell(board, r2, c2) == board_2d[r2][c2],
                forall|c2: int|
                    0 <= c2 < c ==> #[trigger] cell(board, r as int, c2) == board_2d[r as int][c2],
            decreases 4 - c,
        {
            let ghost before = board;
            board[r][c] = Tile::new(board_2d[r][c]);
            assert forall|r2: int, c2: int|
                0 <= r2 < 4 && 0 <= c2 < 4 && !(r2 == r && c2 == c) implies #[trigger] cell(
                board,
                r2,
                c2,
            ) == cell(before, r2, c2) by {}
            c = c + 1;
        }
        r = r + 1;
    }
    game.board = board;
    game.future_value = next_hint;
    let mut hints: Vec<u32> = Vec::new();
    hints.push(next_hint);
    game.hints = hints;
}

/// How the card dealt this turn compares with last turn's forecast.
#[derive(Clone, Copy, Debug, PartialEq, Eq, Structural)]
pub enum ForecastCheck {
    /// The forecast gave the card at least 99.9%.
    Certain,
    /// The forecast gave another card at least 99.9%, and this one less.
    Contradicted,
    /// The forecast gave the card this chance, above 0 and below 99.9%.
    Expected(Chance),
    /// The forecast did not give the card any chance.
    Missed,
}

/// What the move adviser keeps from turn to turn: the deck tracker, the
/// last move number it handled (-1 before the first) and the forecast it
/// made for the coming card.
pub struct TurnTracker {
    pub tracker: DeckTracker,
    pub last_move: i64,
    pub predictions: Option<Vec<(u32, Chance)>>,
}

/// The move count of the log read as a signed 32-bit number.
pub open spec fn signed_moves(moves: u32) -> int {
    if moves <= 0x7fff_ffff {
        moves as int
    } else {
        moves - 0x1_0000_0000
    }
}

/// Whether a chance is at least 99.9%.
pub open spec fn near_certain(c: Chance) -> bool {
    if c.denominator == 0 {
        c.numerator > 0
    } else {
        1000 * c.numerator >= 999 * c.denominator
    }
}

/// The chance that a forecast gives the value `v`: that of its first entry
/// for `v`, if any.
pub open spec fn chance_of(preds: Seq<(u32, Chance)>, v: u32) -> Option<Chance>
    decreases preds.len(),
{
    if preds.len() == 0 {
        None
    } else if preds[0].0 == v {
        Some(preds[0].1)
    } else {
        chance_of(preds.drop_first(), v)
    }
}

/// How the card `v` compares with the forecast `preds`.
pub open spec fn check_forecast(preds: Seq<(u32, Chance)>, v: u32) -> ForecastCheck {
    let p = chance_of(preds, v);
    if p matches Some(c) && near_certain(c) {
        ForecastCheck::Certain
    } else if exists|i: int| 0 <= i < preds.len() && near_certain(#[trigger] preds[i].1) {
        ForecastCheck::Contradicted
    } else if p matches Some(c) && c.numerator > 0 {
        ForecastCheck::Expected(p->0)
    } else {
        ForecastCheck::Missed
    }
}

pub open spec fn predictions_view(p: Option<Vec<(u32, Chance)>>) -> Option<Seq<(u32, Chance)>> {
    match p {
        Some(v) => Some(v@),
        None => None,
    }
}

fn is_near_certain(c: Chance) -> (b: bool)
    ensures
        b == near_certain(c),
{
    if c.denominator == 0 {
        c.numerator > 0
    } else {
        1000 * (c.numerator as u128) >= 999 * (c.denominator as u128)
    }
}

fn find_chance(preds: &Vec<(u32, Chance)>, v: u32) -> (r: Option<Chance>)
    ensures
        r == chance_of(preds@, v),
{
    let mut i: usize = 0;
    assert(preds@.skip(0) =~= preds@);
    while i < preds.len()
        invariant
            0 <= i <= preds@.len(),
            chance_of(preds@, v) == chance_of(preds@.skip(i as int), v),
        decreases preds@.len() - i,
    {
        let (x, c) = preds[i];
        assert(preds@.skip(i as int)[0] == preds@[i as int]);
        if x == v {
            return Some(c);
        }
        assert(preds@.skip(i as int).drop_first() =~= preds@.skip(i + 1));
        i = i + 1;
    }
    None
}

/// How the card `v` compares with the forecast (see [`check_forecast`]).
pub fn classify_card(preds: &Vec<(u32, Chance)>, v: u32) -> (r: ForecastCheck)
    ensures
        r == check_forecast(preds@, v),
{
    let p = find_chance(preds, v);
    let mut any_certain = false;
    let mut i: usize = 0;
    while i < preds.len()
        invariant
            0 <= i <= preds@.len(),
            any_certain == exists|j: int| 0 <= j < i && near_certain(#[trigger] preds@[j].1),
        decreases preds@.len() - i,
    {
        if is_near_certain(preds[i].1) {
            any_certain = true;
        }
        i = i + 1;
    }
    match p {
        Some(c) => {
            if is_near_certain(c) {
                return ForecastCheck::Certain;
            }
        },
        None => {},
    }
    if any_certain {
        return ForecastCheck::Contradicted;
    }
    match p {
        Some(c) => {
            if c.numerator > 0 {
                return ForecastCheck::Expected(c);
            }
        },
        None => {},
    }
    ForecastCheck::Missed
}

impl TurnTracker {
    pub fn new() -> (t: Self)
        ensures
            t.tracker.fresh(),
            t.last_move == -1,
            t.predictions is None,
    {
        TurnTracker { tracker: DeckTracker::new(), last_move: -1, predictions: None }
    }

    /// Handles one line of the game's log, with its move count `moves` and
    /// the card `hint` now shown. A move count below the last one starts a
    /// new game: the tracker is reset, and the first result says so. A move
    /// count above the last one (after any reset) is a new turn: last turn's
    /// forecast, if any, is checked against the card and dropped, and the
    /// card is recorded; the second result is that check. A repeated move
    /// count changes nothing more.
    pub fn observe(&mut self, moves: u32, hint: u32) -> (r: (bool, Option<ForecastCheck>))
        requires
            old(self).tracker.wf(),
            old(self).tracker.moves() < u32::MAX,
        ensures
            final(self).tracker.wf(),
            r.0 == (signed_moves(moves) < old(self).last_move),
            ({
                let reset = r.0;
                let last0 = if reset {
                    -1
                } else {
                    old(self).last_move as int
                };
                let preds0 = if reset {
                    None
                } else {
                    predictions_view(old(self).predictions)
                };
                if signed_moves(moves) > last0 {
                    &&& r.1 == match preds0 {
                        Some(p) => Some(check_forecast(p, hint)),
                        None => None::<ForecastCheck>,
                    }
                    &&& final(self).last_move == signed_moves(moves)
                    &&& final(self).predictions is None
                    &&& reset ==> exists|t: DeckTracker|
                        t.fresh() && #[trigger] DeckTracker::records(t, final(self).tracker, hint)
                    &&& !reset ==> DeckTracker::records(old(self).tracker, final(self).tracker, hint)
                } else {
                    &&& r.1 is None
                    &&& final(self).last_move == last0
                    &&& predictions_view(final(self).predictions) == preds0
                    &&& reset ==> final(self).tracker.fresh()
                    &&& !reset ==> final(self).tracker == old(self).tracker
                }
            }),
    {
        let m: i64 = if moves <= 0x7fff_ffff {
            moves as i64
        } else {
            moves as i64 - 0x1_0000_0000
        };
        let reset = m < self.last_move;
        if reset {
            self.tracker = DeckTracker::new();
            self.last_move = -1;
            self.predictions = None;
        }
        let mut check: Option<ForecastCheck> = None;
        if m > self.last_move {
            let preds = self.predictions.take();
            match preds {
                Some(p) => {
                    check = Some(classify_card(&p, hint));
                },
                None => {},
            }
            let ghost before = self.tracker;
            self.tracker.update(hint);
            self.last_move = m;
            assert(DeckTracker::records(before, self.tracker, hint));
        }
        (reset, check)
    }
}

} // verus!
