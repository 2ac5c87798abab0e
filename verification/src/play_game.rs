use vstd::prelude::*;
use crate::game::{
    board_points, can_merge, cell, cell_at, first_merge, line_col, line_index, line_moves, line_of,
    line_place, line_row, merged_value, moved_cell, slid_line, Board, Direction, Game,
};

verus! {

/// What happens to a card during a move, for drawing it.
#[derive(Clone, Copy, Debug, PartialEq, Eq, Structural)]
pub enum ActionType {
    /// The card moves from one cell to another.
    Slide,
    /// The card merges into another (drawn with a pop).
    Merge,
    /// A new card appears.
    Spawn,
    /// The card stays where it is.
    Static,
}

/// One card's part in a move: from which cell to which, what it does, its
/// value, and the value it merges into.
#[derive(Clone, Copy, Debug)]
pub struct TileEvent {
    pub from_index: usize,
    pub to_index: usize,
    pub action: ActionType,
    pub value: u32,
    pub merged_value: Option<u32>,
}

/// What the screen shows of a game: the board, the hint and the points.
#[derive(Clone)]
pub struct RenderState {
    pub grid: [[u32; 4]; 4],
    pub next_hints: Vec<u32>,
    pub score: u64,
}

/// The events of a move and the state it ends in.
pub struct Transition {
    pub events: Vec<TileEvent>,
    pub end_state: RenderState,
}

impl RenderState {
    /// What the screen shows of `game`.
    pub fn from_game(game: &Game) -> (rs: Self)
        ensures
            forall|r: int, c: int| 0 <= r < 4 && 0 <= c < 4 ==> #[trigger] rs.grid[r][c] == cell(game.board, r, c),
            rs.next_hints@ == game.hints@,
            rs.score == board_points(game.board),
    {
        let mut grid = [[0u32; 4]; 4];
        let mut r: usize = 0;
        while r < 4
            invariant
                0 <= r <= 4,
                forall|r2: int, c: int| 0 <= r2 < r && 0 <= c < 4 ==> #[trigger] grid[r2][c] == cell(game.board, r2, c),
            decreases 4 - r,
        {
            let mut c: usize = 0;
            while c < 4
                invariant
                    0 <= r < 4,
                    0 <= c <= 4,
                    forall|r2: int, c2: int| 0 <= r2 < r && 0 <= c2 < 4 ==> #[trigger] grid[r2][c2] == cell(game.board, r2, c2),
                    forall|c2: int| 0 <= c2 < c ==> #[trigger] grid[r as int][c2] == cell(game.board, r as int, c2),
                decreases 4 - c,
            {
                let ghost before = grid;
                grid[r][c] = game.board[r][c].value;
                assert forall|r2: int, c2: int|
                    0 <= r2 < 4 && 0 <= c2 < 4 && !(r2 == r && c2 == c) implies #[trigger] grid[r2][c2] == before[r2][c2] by {}
                c = c + 1;
            }
            r = r + 1;
        }
        let mut next_hints: Vec<u32> = Vec::new();
        let mut i: usize = 0;
        while i < game.hints.len()
            invariant
                0 <= i <= game.hints@.len(),
                next_hints@ == game.hints@.take(i as int),
            decreases game.hints@.len() - i,
        {
            next_hints.push(game.hints[i]);
            assert(game.hints@.take(i + 1) =~= game.hints@.take(i as int).push(game.hints@[i as int]));
            i = i + 1;
        }
        assert(game.hints@.take(game.hints@.len() as int) =~= game.hints@);
        RenderState { grid, next_hints, score: game.calculate_score() }
    }
}

/// How many quarter turns bring a move in direction `dir` to a move to the
/// left.
pub open spec fn rotations_of(dir: Direction) -> int {
    match dir {
        Direction::Left => 0,
        Direction::Down => 1,
        Direction::Right => 2,
        Direction::Up => 3,
    }
}

/// Determines rotation index (0..3) based on direction, to normalize shift to "Left".
pub fn get_rotations_needed(dir: Direction) -> (rot: u8)
    ensures
        rot == rotations_of(dir),
{
    match dir {
        Direction::Left => 0,
        Direction::Down => 1,
        Direction::Right => 2,
        Direction::Up => 3,
    }
}

/// The flat position of row `r`, column `c` of the board turned `rot`
/// quarter turns.
pub open spec fn rotated_index(r: int, c: int, rot: int) -> int {
    let m = rot % 4;
    if m == 0 {
        r * 4 + c
    } else if m == 1 {
        (3 - c) * 4 + r
    } else if m == 2 {
        (3 - r) * 4 + (3 - c)
    } else {
        c * 4 + (3 - r)
    }
}

/// Maps logical (r,c) on rotated board to physical board index (0..15).
pub fn map_rotated_index(r: usize, c: usize, rot: u8) -> (idx: usize)
    requires
        r < 4,
        c < 4,
    ensures
        idx == rotated_index(r as int, c as int, rot as int),
        idx < 16,
{
    let m = rot % 4;
    let (real_r, real_c) = if m == 0 {
        (r, c)
    } else if m == 1 {
        (3 - c, r)
    } else if m == 2 {
        (3 - r, 3 - c)
    } else {
        (c, 3 - r)
    };
    real_r * 4 + real_c
}

/// The values of row `r` of the board turned `rot` quarter turns.
pub open spec fn rotated_row(board: Board, rot: int, r: int) -> Seq<u32> {
    Seq::new(4, |c: int| cell_at(board, rotated_index(r, c, rot)))
}

/// The events of row `r` (turned `rot`): the first card that can move
/// slides or merges one place, the card it lands on (if any) stays put, and
/// the cards behind it slide one place.
pub open spec fn row_events(board: Board, rot: int, r: int) -> Seq<TileEvent> {
    let row = rotated_row(board, rot, r);
    let c = first_merge(row);
    if c >= 3 {
        Seq::empty()
    } else {
        let t = row[c];
        let s = row[c + 1];
        let is_merge = t != 0;
        seq![
            TileEvent {
                from_index: rotated_index(r, c + 1, rot) as usize,
                to_index: rotated_index(r, c, rot) as usize,
                action: if is_merge {
                    ActionType::Merge
                } else {
                    ActionType::Slide
                },
                value: s,
                merged_value: if is_merge {
                    Some(merged_value(t, s) as u32)
                } else {
                    None
                },
            },
        ] + (if t > 0 {
            seq![
                TileEvent {
                    from_index: rotated_index(r, c, rot) as usize,
                    to_index: rotated_index(r, c, rot) as usize,
                    action: ActionType::Static,
                    value: t,
                    merged_value: None,
                },
            ]
        } else {
            Seq::empty()
        }) + shift_events(board, rot, r, c + 1, 3)
    }
}

/// The slides of the cards at places `k + 1` (for `k` from `lo` below `hi`)
/// of row `r` one place toward the side.
pub open spec fn shift_events(board: Board, rot: int, r: int, lo: int, hi: int) -> Seq<TileEvent>
    decreases hi - lo,
{
    if lo >= hi {
        Seq::empty()
    } else {
        let v = rotated_row(board, rot, r)[lo + 1];
        (if v > 0 {
            seq![
                TileEvent {
                    from_index: rotated_index(r, lo + 1, rot) as usize,
                    to_index: rotated_index(r, lo, rot) as usize,
                    action: ActionType::Slide,
                    value: v,
                    merged_value: None,
                },
            ]
        } else {
            Seq::empty()
        }) + shift_events(board, rot, r, lo + 1, hi)
    }
}

/// Whether row `r` (turned `rot`) touches the cell at flat position `i`
/// during the move.
pub open spec fn row_marks(board: Board, rot: int, r: int, i: int) -> bool {
    let row = rotated_row(board, rot, r);
    let c = first_merge(row);
    &&& c < 3
    &&& {
        ||| i == rotated_index(r, c + 1, rot)
        ||| row[c] > 0 && i == rotated_index(r, c, rot)
        ||| c + 1 <= 1 && row[2] > 0 && i == rotated_index(r, 2, rot)
        ||| c + 1 <= 2 && row[3] > 0 && i == rotated_index(r, 3, rot)
    }
}

/// Whether some row touches the cell at flat position `i` during the move.
pub open spec fn marked(board: Board, rot: int, i: int) -> bool {
    row_marks(board, rot, 0, i) || row_marks(board, rot, 1, i) || row_marks(board, rot, 2, i)
        || row_marks(board, rot, 3, i)
}

/// The cards that stay put although no row touched them, by position.
pub open spec fn static_events(board: Board, rot: int, n: int) -> Seq<TileEvent>
    decreases n,
{
    if n <= 0 {
        Seq::empty()
    } else {
        static_events(board, rot, n - 1) + if !marked(board, rot, n - 1) && cell_at(board, n - 1)
            > 0 {
            seq![
                TileEvent {
                    from_index: (n - 1) as usize,
                    to_index: (n - 1) as usize,
                    action: ActionType::Static,
                    value: cell_at(board, n - 1),
                    merged_value: None,
                },
            ]
        } else {
            Seq::empty()
        }
    }
}

/// All events of a move with `rot` quarter turns: those of the four rows in
/// order, then the cards that stay put.
pub open spec fn transition_events(board: Board, rot: int) -> Seq<TileEvent> {
    row_events(board, rot, 0) + row_events(board, rot, 1) + row_events(board, rot, 2) + row_events(
        board,
        rot,
        3,
    ) + static_events(board, rot, 16)
}

/// Whether the sums the transition computes fit in 32 bits: in every row,
/// up to the first card that moves, two neighbouring cards that are both
/// present add up to at most `u32::MAX`.
pub open spec fn transition_fits(board: Board, rot: int) -> bool {
    forall|r: int, c: int|
        0 <= r < 4 && 0 <= c < 3 && c <= first_merge(rotated_row(board, rot, r))
            ==> #[trigger] pair_fits(rotated_row(board, rot, r), c)
}

/// Places `c` and `c + 1` of a row, when both hold a card, add up to at
/// most `u32::MAX`.
pub open spec fn pair_fits(row: Seq<u32>, c: int) -> bool {
    row[c] != 0 && row[c + 1] != 0 ==> row[c] + row[c + 1] <= u32::MAX
}


/// Whether one of the first `n` rows touches the cell at position `i`.
pub open spec fn marked_upto(board: Board, rot: int, n: int, i: int) -> bool
    decreases n,
{
    if n <= 0 {
        false
    } else {
        marked_upto(board, rot, n - 1, i) || row_marks(board, rot, n - 1, i)
    }
}

/// The events of row `r`, appended to `events`; the cells the row touches are
/// marked in `flags`.
fn process_row(
    board: &Board,
    rot: u8,
    r: usize,
    events: &mut Vec<TileEvent>,
    flags: &mut [bool; 16],
)
    requires
        r < 4,
        transition_fits(*board, rot as int),
    ensures
        final(events)@ == old(events)@ + row_events(*board, rot as int, r as int),
        forall|i: int|
            0 <= i < 16 ==> #[trigger] final(flags)@[i] == (old(flags)@[i] || row_marks(
                *board,
                rot as int,
                r as int,
                i,
            )),
{
    let ghost row = rotated_row(*board, rot as int, r as int);
    let ghost b = *board;
    let mut c: usize = 0;
    while c < 3
        invariant
            0 <= c <= 3,
            r < 4,
            row == rotated_row(b, rot as int, r as int),
            b == *board,
            transition_fits(b, rot as int),
            forall|c2: int| 0 <= c2 < c ==> !can_merge(#[trigger] row[c2], row[c2 + 1]),
            events@ == old(events)@,
            flags@ == old(flags)@,
        decreases 3 - c,
    {
        let target_idx = map_rotated_index(r, c, rot);
        let source_idx = map_rotated_index(r, c + 1, rot);
        let target_val = board[target_idx / 4][target_idx % 4].value;
        let source_val = board[source_idx / 4][source_idx % 4].value;
        assert(target_val == row[c as int]);
        assert(source_val == row[c + 1]);
        if source_val != 0 {
            assert(pair_fits(rotated_row(b, rot as int, r as int), c as int)) by {
                assert(c <= first_merge(row));
            }
            let mut act = false;
            let mut new_val: u32 = 0;
            let mut is_merge = false;
            if target_val == 0 {
                act = true;
                new_val = source_val;
            } else if target_val + source_val == 3 {
                act = true;
                new_val = 3;
                is_merge = true;
            } else if target_val >= 3 && target_val == source_val {
                act = true;
                new_val = target_val * 2;
                is_merge = true;
            }
            if act {
                assert(first_merge(row) == c);
                emit_row(board, rot, r, c, target_val, source_val, new_val, is_merge, events, flags);
                return;
            }
        }
        c = c + 1;
    }
    assert(first_merge(row) == 3);
    assert(events@ =~= old(events)@ + row_events(*board, rot as int, r as int));
}

/// Appends the events of row `r`, whose first card to move is at place
/// `c + 1`, and marks the cells they touch.
fn emit_row(
    board: &Board,
    rot: u8,
    r: usize,
    c: usize,
    target_val: u32,
    source_val: u32,
    new_val: u32,
    is_merge: bool,
    events: &mut Vec<TileEvent>,
    flags: &mut [bool; 16],
)
    requires
        r < 4,
        c < 3,
        first_merge(rotated_row(*board, rot as int, r as int)) == c,
        target_val == rotated_row(*board, rot as int, r as int)[c as int],
        source_val == rotated_row(*board, rot as int, r as int)[c + 1],
        new_val == merged_value(target_val, source_val),
        is_merge == (target_val != 0),
    ensures
        final(events)@ == old(events)@ + row_events(*board, rot as int, r as int),
        forall|i: int|
            0 <= i < 16 ==> #[trigger] final(flags)@[i] == (old(flags)@[i] || row_marks(
                *board,
                rot as int,
                r as int,
                i,
            )),
{
    let ghost b = *board;
    let ghost row = rotated_row(b, rot as int, r as int);
    let target_idx = map_rotated_index(r, c, rot);
    let source_idx = map_rotated_index(r, c + 1, rot);
    events.push(
        TileEvent {
            from_index: source_idx,
            to_index: target_idx,
            action: if is_merge {
                ActionType::Merge
            } else {
                ActionType::Slide
            },
            value: source_val,
            merged_value: if is_merge {
                Some(new_val)
            } else {
                None
            },
        },
    );
    flags[source_idx] = true;
    if target_val > 0 {
        events.push(
            TileEvent {
                from_index: target_idx,
                to_index: target_idx,
                action: ActionType::Static,
                value: target_val,
                merged_value: None,
            },
        );
        flags[target_idx] = true;
    }
    let ghost head = events@;
    let mut k: usize = c + 1;
    assert(shift_events(b, rot as int, r as int, c + 1, c + 1) =~= Seq::<TileEvent>::empty());
    while k < 3
        invariant
            c + 1 <= k <= 3,
            c < 3,
            r < 4,
            b == *board,
            row == rotated_row(b, rot as int, r as int),
            events@ == head + shift_events(b, rot as int, r as int, c + 1, k as int),
            forall|i: int|
                0 <= i < 16 ==> #[trigger] flags@[i] == (old(flags)@[i] || i == rotated_index(
                    r as int,
                    c + 1,
                    rot as int,
                ) || (target_val > 0 && i == rotated_index(r as int, c as int, rot as int)) || (c
                    + 1 <= 1 < k && row[2] > 0 && i == rotated_index(r as int, 2, rot as int)) || (c
                    + 1 <= 2 < k && row[3] > 0 && i == rotated_index(r as int, 3, rot as int))),
        decreases 3 - k,
    {
        let from_k_idx = map_rotated_index(r, k + 1, rot);
        let to_k_idx = map_rotated_index(r, k, rot);
        let val_k = board[from_k_idx / 4][from_k_idx % 4].value;
        assert(val_k == row[k + 1]);
        proof {
            lemma_shift_events_split(b, rot as int, r as int, c + 1, k as int);
            assert(shift_events(b, rot as int, r as int, k + 1, k + 1) =~= Seq::<TileEvent>::empty());
        }
        if val_k > 0 {
            events.push(
                TileEvent {
                    from_index: from_k_idx,
                    to_index: to_k_idx,
                    action: ActionType::Slide,
                    value: val_k,
                    merged_value: None,
                },
            );
            flags[from_k_idx] = true;
        }
        assert(events@ =~= head + shift_events(b, rot as int, r as int, c + 1, k + 1));
        k = k + 1;
    }
    assert(events@ =~= old(events)@ + row_events(*board, rot as int, r as int));
}

proof fn lemma_shift_events_split(board: Board, rot: int, r: int, lo: int, k: int)
    requires
        lo <= k,
    ensures
        shift_events(board, rot, r, lo, k + 1) == shift_events(board, rot, r, lo, k) + shift_events(
            board,
            rot,
            r,
            k,
            k + 1,
        ),
    decreases k - lo,
{
    if lo < k {
        lemma_shift_events_split(board, rot, r, lo + 1, k);
        assert(shift_events(board, rot, r, lo, k + 1) =~= shift_events(board, rot, r, lo, k)
            + shift_events(board, rot, r, k, k + 1));
    } else {
        assert(shift_events(board, rot, r, lo, lo) =~= Seq::<TileEvent>::empty());
        assert(shift_events(board, rot, r, lo + 1, lo + 1) =~= Seq::<TileEvent>::empty());
    }
}


/// The events of the first `n` rows, in order.
pub open spec fn rows_events_upto(board: Board, rot: int, n: int) -> Seq<TileEvent>
    decreases n,
{
    if n <= 0 {
        Seq::empty()
    } else {
        rows_events_upto(board, rot, n - 1) + row_events(board, rot, n - 1)
    }
}

/// Computes the events that happen during a move: for each row (turned so
/// that the move goes left) the card that slides or merges, the card it
/// lands on and the cards that follow it, then every other card, which
/// stays put. The state it ends in is left empty, for the caller to fill.
pub fn calculate_transition(game: &Game, dir: Direction) -> (t: Transition)
    requires
        transition_fits(game.board, rotations_of(dir)),
    ensures
        t.events@ == transition_events(game.board, rotations_of(dir)),
        forall|r: int, c: int|
            0 <= r < 4 && 0 <= c < 4 ==> #[trigger] rebuilt_cell(t.events@, r * 4 + c) == moved_cell(
                game.board,
                dir,
                r,
                c,
            ),
        forall|r: int, c: int| 0 <= r < 4 && 0 <= c < 4 ==> #[trigger] t.end_state.grid[r][c] == 0,
        t.end_state.next_hints@.len() == 0,
        t.end_state.score == 0,
{
    let mut events: Vec<TileEvent> = Vec::new();
    let rot = get_rotations_needed(dir);
    let mut moved_flags = [false; 16];
    let ghost b = game.board;
    let mut r: usize = 0;
    while r < 4
        invariant
            0 <= r <= 4,
            rot == rotations_of(dir),
            b == game.board,
            transition_fits(b, rot as int),
            events@ == rows_events_upto(b, rot as int, r as int),
            forall|i: int|
                0 <= i < 16 ==> #[trigger] moved_flags@[i] == marked_upto(b, rot as int, r as int, i),
        decreases 4 - r,
    {
        process_row(&game.board, rot, r, &mut events, &mut moved_flags);
        r = r + 1;
    }
    proof {
        reveal_with_fuel(rows_events_upto, 5);
        reveal_with_fuel(marked_upto, 5);
        assert(rows_events_upto(b, rot as int, 1) =~= row_events(b, rot as int, 0));
    }
    assert(rows_events_upto(b, rot as int, 4) =~= row_events(b, rot as int, 0) + row_events(
        b,
        rot as int,
        1,
    ) + row_events(b, rot as int, 2) + row_events(b, rot as int, 3));
    let ghost rows = events@;
    let mut i: usize = 0;
    while i < 16
        invariant
            0 <= i <= 16,
            rot == rotations_of(dir),
            b == game.board,
            forall|j: int| 0 <= j < 16 ==> #[trigger] moved_flags@[j] == marked(b, rot as int, j),
            events@ == rows + static_events(b, rot as int, i as int),
        decreases 16 - i,
    {
        if !moved_flags[i] {
            let row = i / 4;
            let col = i % 4;
            let val = game.board[row][col].value;
            if val > 0 {
                events.push(
                    TileEvent {
                        from_index: i,
                        to_index: i,
                        action: ActionType::Static,
                        value: val,
                        merged_value: None,
                    },
                );
            }
        }
        assert(events@ =~= rows + static_events(b, rot as int, i + 1));
        i = i + 1;
    }
    proof {
        lemma_transition_rebuilds_move(b, dir);
        assert(events@ == transition_events(b, rotations_of(dir)));
        assert forall|r: int, c: int| 0 <= r < 4 && 0 <= c < 4 implies #[trigger] rebuilt_cell(
            events@,
            r * 4 + c,
        ) == moved_cell(b, dir, r, c) by {
            assert(rebuilt_cell(transition_events(b, rotations_of(dir)), r * 4 + c) == moved_cell(
                b,
                dir,
                r,
                c,
            ));
        }
    }
    let dummy_state = RenderState { grid: [[0;4];4], next_hints: Vec::new(), score: 0 };
    Transition { events, end_state: dummy_state }
}

/// The line of a move in direction `d` that row `r` of the turned board is.
pub open spec fn line_of_row(d: Direction, r: int) -> int {
    match d {
        Direction::Left => r,
        Direction::Down => r,
        Direction::Right => 3 - r,
        Direction::Up => 3 - r,
    }
}

proof fn lemma_row_cell(d: Direction, r: int, c: int)
    requires
        0 <= r < 4,
        0 <= c < 4,
    ensures
        rotated_index(r, c, rotations_of(d)) == line_row(d, line_of_row(d, r), c) * 4 + line_col(
            d,
            line_of_row(d, r),
            c,
        ),
        rotated_index(r, c, rotations_of(d)) / 4 == line_row(d, line_of_row(d, r), c),
        rotated_index(r, c, rotations_of(d)) % 4 == line_col(d, line_of_row(d, r), c),
        line_index(d, line_row(d, line_of_row(d, r), c), line_col(d, line_of_row(d, r), c))
            == line_of_row(d, r),
        line_place(d, line_row(d, line_of_row(d, r), c), line_col(d, line_of_row(d, r), c)) == c,
{
    let k = line_of_row(d, r);
    let a = line_row(d, k, c);
    let b = line_col(d, k, c);
    assert(0 <= a < 4 && 0 <= b < 4);
    assert((a * 4 + b) / 4 == a && (a * 4 + b) % 4 == b) by (nonlinear_arith)
        requires
            0 <= a < 4,
            0 <= b < 4,
    ;
}

/// The animation of a move follows the move itself: row `r` of the board
/// turned for direction `d` is, place by place and cell by cell, the line
/// `line_of_row(d, r)` that the move slides. So the row has events exactly
/// when that line moves, and its first event lands on the cell where the
/// move puts the merged (or slid) card, with that card's value.
pub proof fn lemma_transition_follows_move(board: Board, d: Direction, r: int)
    requires
        0 <= r < 4,
    ensures
        forall|c: int|
            0 <= c < 4 ==> #[trigger] rotated_index(r, c, rotations_of(d)) == line_row(
                d,
                line_of_row(d, r),
                c,
            ) * 4 + line_col(d, line_of_row(d, r), c),
        rotated_row(board, rotations_of(d), r) == line_of(board, d, line_of_row(d, r)),
        (row_events(board, rotations_of(d), r).len() > 0) == line_moves(
            line_of(board, d, line_of_row(d, r)),
        ),
        row_events(board, rotations_of(d), r).len() > 0 ==> {
            let e = row_events(board, rotations_of(d), r)[0];
            moved_cell(board, d, e.to_index as int / 4, e.to_index as int % 4) == match e.merged_value {
                Some(m) => m,
                None => e.value,
            }
        },
{
    let rot = rotations_of(d);
    let k = line_of_row(d, r);
    assert forall|c: int| 0 <= c < 4 implies #[trigger] rotated_index(r, c, rot) == line_row(
        d,
        k,
        c,
    ) * 4 + line_col(d, k, c) by {
        lemma_row_cell(d, r, c);
    }
    let row = rotated_row(board, rot, r);
    let line = line_of(board, d, k);
    assert forall|c: int| 0 <= c < 4 implies #[trigger] row[c] == line[c] by {
        lemma_row_cell(d, r, c);
    }
    assert(row =~= line);
    let c = first_merge(row);
    if c < 3 {
        lemma_row_cell(d, r, c);
        let e = row_events(board, rot, r)[0];
        assert(e.to_index == rotated_index(r, c, rot));
    }
}

/// The grid that a list of events points to: starting from an empty board,
/// each event in turn writes its card to its target cell (a merge writes
/// the merged value, or the card's own value when none is given); new cards
/// write nothing.
pub open spec fn replay_events(events: Seq<TileEvent>) -> Seq<u32>
    decreases events.len(),
{
    if events.len() == 0 {
        Seq::new(16, |i: int| 0u32)
    } else {
        let g = replay_events(events.drop_last());
        let e = events.last();
        match e.action {
            ActionType::Merge => g.update(
                e.to_index as int,
                match e.merged_value {
                    Some(m) => m,
                    None => e.value,
                },
            ),
            ActionType::Slide => g.update(e.to_index as int, e.value),
            ActionType::Static => g.update(e.to_index as int, e.value),
            ActionType::Spawn => g,
        }
    }
}

/// A new card for every one of the first `n` cells (by flat position) whose
/// value on `board` differs from the grid `expected`.
pub open spec fn spawn_events(expected: Seq<u32>, board: Board, n: int) -> Seq<TileEvent>
    decreases n,
{
    if n <= 0 {
        Seq::empty()
    } else {
        spawn_events(expected, board, n - 1) + if cell_at(board, n - 1) != expected[n - 1] {
            seq![
                TileEvent {
                    from_index: (n - 1) as usize,
                    to_index: (n - 1) as usize,
                    action: ActionType::Spawn,
                    value: cell_at(board, n - 1),
                    merged_value: None,
                },
            ]
        } else {
            Seq::empty()
        }
    }
}

proof fn lemma_replay_len(events: Seq<TileEvent>)
    requires
        forall|j: int| 0 <= j < events.len() ==> #[trigger] events[j].to_index < 16,
    ensures
        replay_events(events).len() == 16,
    decreases events.len(),
{
    if events.len() > 0 {
        let rest = events.drop_last();
        assert forall|j: int| 0 <= j < rest.len() implies #[trigger] rest[j].to_index < 16 by {
            assert(rest[j] == events[j]);
        }
        lemma_replay_len(rest);
        assert(events.last() == events[events.len() - 1]);
    }
}

/// Finds the new cards of a move for the animation: replays the move's
/// events onto an empty grid and adds a new-card event, in order of flat
/// position, for every cell where `game`'s board (the board after the move)
/// differs from that grid.
pub fn add_spawn_events(transition: &mut Transition, game: &Game)
    requires
        forall|k: int|
            0 <= k < old(transition).events@.len() ==> #[trigger] old(transition).events@[k].to_index
                < 16,
    ensures
        final(transition).events@ == old(transition).events@ + spawn_events(
            replay_events(old(transition).events@),
            game.board,
            16,
        ),
        final(transition).end_state == old(transition).end_state,
{
    let ghost events0 = transition.events@;
    let mut predicted = [0u32; 16];
    let mut k: usize = 0;
    assert(predicted@ =~= replay_events(events0.take(0)));
    while k < transition.events.len()
        invariant
            0 <= k <= events0.len(),
            transition.events@ == events0,
            forall|j: int| 0 <= j < events0.len() ==> #[trigger] events0[j].to_index < 16,
            predicted@ == replay_events(events0.take(k as int)),
        decreases events0.len() - k,
    {
        let e = transition.events[k];
        assert(events0.take(k + 1).drop_last() =~= events0.take(k as int));
        assert(events0.take(k + 1).last() == e);
        proof {
            let pre = events0.take(k as int);
            assert forall|j: int| 0 <= j < pre.len() implies #[trigger] pre[j].to_index < 16 by {
                assert(pre[j] == events0[j]);
            }
            lemma_replay_len(pre);
        }
        match e.action {
            ActionType::Merge => {
                predicted[e.to_index] = match e.merged_value {
                    Some(m) => m,
                    None => e.value,
                };
            },
            ActionType::Slide => {
                predicted[e.to_index] = e.value;
            },
            ActionType::Static => {
                predicted[e.to_index] = e.value;
            },
            ActionType::Spawn => {},
        }
        assert(predicted@ =~= replay_events(events0.take(k + 1)));
        k = k + 1;
    }
    assert(events0.take(events0.len() as int) =~= events0);
    let ghost expected = predicted@;
    let mut i: usize = 0;
    while i < 16
        invariant
            0 <= i <= 16,
            predicted@ == expected,
            expected.len() == 16,
            transition.events@ == events0 + spawn_events(expected, game.board, i as int),
            transition.end_state == old(transition).end_state,
        decreases 16 - i,
    {
        let actual = game.board[i / 4][i % 4].value;
        if actual != predicted[i] {
            transition.events.push(
                TileEvent {
                    from_index: i,
                    to_index: i,
                    action: ActionType::Spawn,
                    value: actual,
                    merged_value: None,
                },
            );
        }
        assert(transition.events@ =~= events0 + spawn_events(expected, game.board, i + 1));
        i = i + 1;
    }
}

/// The row (of the board turned `rot` quarter turns) that holds flat
/// position `i`.
pub open spec fn row_of_index(i: int, rot: int) -> int {
    if rot == 0 {
        i / 4
    } else if rot == 1 {
        i % 4
    } else if rot == 2 {
        3 - i / 4
    } else {
        3 - i % 4
    }
}

/// The place in its turned row of flat position `i`.
pub open spec fn place_of_index(i: int, rot: int) -> int {
    if rot == 0 {
        i % 4
    } else if rot == 1 {
        3 - i / 4
    } else if rot == 2 {
        3 - i % 4
    } else {
        i / 4
    }
}

/// The value that flat position `i` holds after the move with `rot`
/// quarter turns (its turned row, slid).
pub open spec fn slid_at(board: Board, rot: int, i: int) -> u32 {
    slid_line(rotated_row(board, rot, row_of_index(i, rot)))[place_of_index(i, rot)]
}

/// Whether flat position `i` is where a card merges into another card.
pub open spec fn merge_target(board: Board, rot: int, i: int) -> bool {
    let row = rotated_row(board, rot, row_of_index(i, rot));
    &&& place_of_index(i, rot) == first_merge(row)
    &&& first_merge(row) < 3
    &&& row[first_merge(row)] != 0
}

/// Whether an event agrees with the move: it lands on the board; a merge
/// lands where a card merges into another and carries the value the move
/// leaves there; a slide or a card staying put carries that value too,
/// except for the card that is merged into.
pub open spec fn event_fits_move(board: Board, rot: int, e: TileEvent) -> bool {
    let i = e.to_index as int;
    &&& i < 16
    &&& e.action != ActionType::Spawn
    &&& e.action == ActionType::Merge ==> merge_target(board, rot, i) && e.merged_value == Some(
        slid_at(board, rot, i),
    )
    &&& e.action == ActionType::Slide ==> e.value == slid_at(board, rot, i)
    &&& e.action == ActionType::Static ==> e.value == slid_at(board, rot, i) || merge_target(
        board,
        rot,
        i,
    )
}

pub open spec fn all_fit(board: Board, rot: int, s: Seq<TileEvent>) -> bool {
    forall|k: int| 0 <= k < s.len() ==> #[trigger] event_fits_move(board, rot, s[k])
}

/// Whether some event of `s` lands on `i` as a merge.
pub open spec fn has_merge_at(s: Seq<TileEvent>, i: int) -> bool {
    exists|k: int|
        0 <= k < s.len() && #[trigger] s[k].to_index == i && s[k].action == ActionType::Merge
}

/// Whether some event of `s` slides a card onto `i` or keeps one there.
pub open spec fn has_card_at(s: Seq<TileEvent>, i: int) -> bool {
    exists|k: int|
        0 <= k < s.len() && #[trigger] s[k].to_index == i && (s[k].action == ActionType::Slide
            || s[k].action == ActionType::Static)
}

/// The value that a list of events gives flat position `i`, merges first:
/// the merged value of a merge landing there; else the card of a slide or
/// of a card staying put there; else nothing (0).
pub open spec fn rebuilt_cell(s: Seq<TileEvent>, i: int) -> u32 {
    if has_merge_at(s, i) {
        let k = choose|k: int|
            0 <= k < s.len() && #[trigger] s[k].to_index == i && s[k].action == ActionType::Merge;
        match s[k].merged_value {
            Some(m) => m,
            None => s[k].value,
        }
    } else if has_card_at(s, i) {
        let k = choose|k: int|
            0 <= k < s.len() && #[trigger] s[k].to_index == i && (s[k].action == ActionType::Slide
                || s[k].action == ActionType::Static);
        s[k].value
    } else {
        0
    }
}

proof fn lemma_index_inverse(r: int, p: int, rot: int)
    requires
        0 <= r < 4,
        0 <= p < 4,
        0 <= rot < 4,
    ensures
        0 <= rotated_index(r, p, rot) < 16,
        row_of_index(rotated_index(r, p, rot), rot) == r,
        place_of_index(rotated_index(r, p, rot), rot) == p,
{
}

proof fn lemma_index_inverse2(i: int, rot: int)
    requires
        0 <= i < 16,
        0 <= rot < 4,
    ensures
        0 <= row_of_index(i, rot) < 4,
        0 <= place_of_index(i, rot) < 4,
        rotated_index(row_of_index(i, rot), place_of_index(i, rot), rot) == i,
{
}

proof fn lemma_all_fit_concat(board: Board, rot: int, a: Seq<TileEvent>, b: Seq<TileEvent>)
    requires
        all_fit(board, rot, a),
        all_fit(board, rot, b),
    ensures
        all_fit(board, rot, a + b),
{
    assert forall|k: int| 0 <= k < (a + b).len() implies #[trigger] event_fits_move(
        board,
        rot,
        (a + b)[k],
    ) by {
        if k < a.len() {
            assert((a + b)[k] == a[k]);
        } else {
            assert((a + b)[k] == b[k - a.len()]);
        }
    }
}

proof fn lemma_has_concat(a: Seq<TileEvent>, b: Seq<TileEvent>, i: int)
    ensures
        has_merge_at(a, i) || has_merge_at(b, i) ==> has_merge_at(a + b, i),
        has_card_at(a, i) || has_card_at(b, i) ==> has_card_at(a + b, i),
{
    if has_merge_at(a, i) {
        let k = choose|k: int|
            0 <= k < a.len() && #[trigger] a[k].to_index == i && a[k].action == ActionType::Merge;
        assert((a + b)[k] == a[k]);
    } else if has_merge_at(b, i) {
        let k = choose|k: int|
            0 <= k < b.len() && #[trigger] b[k].to_index == i && b[k].action == ActionType::Merge;
        assert((a + b)[a.len() + k] == b[k]);
    }
    if has_card_at(a, i) {
        let k = choose|k: int|
            0 <= k < a.len() && #[trigger] a[k].to_index == i && (a[k].action == ActionType::Slide
                || a[k].action == ActionType::Static);
        assert((a + b)[k] == a[k]);
    } else if has_card_at(b, i) {
        let k = choose|k: int|
            0 <= k < b.len() && #[trigger] b[k].to_index == i && (b[k].action == ActionType::Slide
                || b[k].action == ActionType::Static);
        assert((a + b)[a.len() + k] == b[k]);
    }
}

proof fn lemma_shift_events_fit(board: Board, rot: int, r: int, lo: int, hi: int)
    requires
        0 <= r < 4,
        0 <= rot < 4,
        first_merge(rotated_row(board, rot, r)) < lo,
        0 <= lo,
        hi <= 3,
    ensures
        all_fit(board, rot, shift_events(board, rot, r, lo, hi)),
        forall|k: int|
            lo <= k < hi && rotated_row(board, rot, r)[k + 1] != 0 ==> has_card_at(
                shift_events(board, rot, r, lo, hi),
                #[trigger] rotated_index(r, k, rot),
            ),
    decreases hi - lo,
{
    let row = rotated_row(board, rot, r);
    if lo < hi {
        lemma_shift_events_fit(board, rot, r, lo + 1, hi);
        lemma_index_inverse(r, lo, rot);
        let rest = shift_events(board, rot, r, lo + 1, hi);
        let v = row[lo + 1];
        let head = if v > 0 {
            seq![
                TileEvent {
                    from_index: rotated_index(r, lo + 1, rot) as usize,
                    to_index: rotated_index(r, lo, rot) as usize,
                    action: ActionType::Slide,
                    value: v,
                    merged_value: None,
                },
            ]
        } else {
            Seq::empty()
        };
        assert(shift_events(board, rot, r, lo, hi) == head + rest);
        assert(all_fit(board, rot, head));
        lemma_all_fit_concat(board, rot, head, rest);
        assert forall|k: int|
            lo <= k < hi && row[k + 1] != 0 implies has_card_at(
            shift_events(board, rot, r, lo, hi),
            #[trigger] rotated_index(r, k, rot),
        ) by {
            lemma_has_concat(head, rest, rotated_index(r, k, rot));
            if k == lo {
                assert(head[0].to_index == rotated_index(r, k, rot));
            }
        }
    }
}

proof fn lemma_marks_own_row(board: Board, rot: int, i: int)
    requires
        0 <= i < 16,
        0 <= rot < 4,
    ensures
        forall|r: int| 0 <= r < 4 && r != row_of_index(i, rot) ==> !#[trigger] row_marks(board, rot, r, i),
{
    assert forall|r: int| 0 <= r < 4 && r != row_of_index(i, rot) implies !#[trigger] row_marks(
        board,
        rot,
        r,
        i,
    ) by {
        lemma_index_inverse(r, 0, rot);
        lemma_index_inverse(r, 1, rot);
        lemma_index_inverse(r, 2, rot);
        lemma_index_inverse(r, 3, rot);
    }
}

proof fn lemma_own_row_marks(board: Board, rot: int, i: int)
    requires
        0 <= i < 16,
        0 <= rot < 4,
    ensures
        ({
            let rr = row_of_index(i, rot);
            let p = place_of_index(i, rot);
            let row = rotated_row(board, rot, rr);
            let c = first_merge(row);
            &&& row[p] == cell_at(board, i)
            &&& row_marks(board, rot, rr, i) <==> (c < 3 && (p == c + 1 || (row[c] > 0 && p == c)
                || (c + 1 <= 1 && row[2] > 0 && p == 2) || (c + 1 <= 2 && row[3] > 0 && p == 3)))
        }),
{
    lemma_index_inverse2(i, rot);
    let rr = row_of_index(i, rot);
    lemma_index_inverse(rr, 0, rot);
    lemma_index_inverse(rr, 1, rot);
    lemma_index_inverse(rr, 2, rot);
    lemma_index_inverse(rr, 3, rot);
}

proof fn lemma_marked_row(board: Board, rot: int, i: int)
    requires
        0 <= i < 16,
        0 <= rot < 4,
    ensures
        marked(board, rot, i) == row_marks(board, rot, row_of_index(i, rot), i),
{
    lemma_index_inverse2(i, rot);
    lemma_marks_own_row(board, rot, i);
}

/// A card no row touches keeps its value in the move.
proof fn lemma_unmarked_keeps(board: Board, rot: int, i: int)
    requires
        0 <= i < 16,
        0 <= rot < 4,
    ensures
        ({
            let rr = row_of_index(i, rot);
            let p = place_of_index(i, rot);
            let row = rotated_row(board, rot, rr);
            &&& row[p] == cell_at(board, i)
            &&& (!marked(board, rot, i) && cell_at(board, i) > 0) ==> slid_at(board, rot, i)
                == cell_at(board, i) && !merge_target(board, rot, i)
            &&& (first_merge(row) == 3 || p < first_merge(row)) ==> !marked(board, rot, i)
        }),
{
    lemma_own_row_marks(board, rot, i);
    lemma_marked_row(board, rot, i);
    lemma_index_inverse2(i, rot);
    let rr = row_of_index(i, rot);
    let p = place_of_index(i, rot);
    let row = rotated_row(board, rot, rr);
    let c = first_merge(row);
    if c == 3 {
    } else if c == 2 {
    } else if c == 1 {
    } else {
    }
}

proof fn lemma_static_events_fit(board: Board, rot: int, n: int)
    requires
        0 <= n <= 16,
        0 <= rot < 4,
    ensures
        all_fit(board, rot, static_events(board, rot, n)),
        forall|i: int|
            0 <= i < n && !marked(board, rot, i) && cell_at(board, i) > 0 ==> #[trigger] has_card_at(
                static_events(board, rot, n),
                i,
            ),
    decreases n,
{
    if n > 0 {
        lemma_static_events_fit(board, rot, n - 1);
        let rest = static_events(board, rot, n - 1);
        let tail = if !marked(board, rot, n - 1) && cell_at(board, n - 1) > 0 {
            seq![
                TileEvent {
                    from_index: (n - 1) as usize,
                    to_index: (n - 1) as usize,
                    action: ActionType::Static,
                    value: cell_at(board, n - 1),
                    merged_value: None,
                },
            ]
        } else {
            Seq::empty()
        };
        assert(static_events(board, rot, n) == rest + tail);
        lemma_unmarked_keeps(board, rot, n - 1);
        assert(all_fit(board, rot, tail));
        lemma_all_fit_concat(board, rot, rest, tail);
        assert forall|i: int|
            0 <= i < n && !marked(board, rot, i) && cell_at(board, i) > 0 implies #[trigger] has_card_at(
            static_events(board, rot, n),
            i,
        ) by {
            lemma_has_concat(rest, tail, i);
            if i == n - 1 {
                assert(tail[0].to_index == i);
            } else {
                assert(has_card_at(rest, i));
            }
        }
    }
}

proof fn lemma_row_events_fit(board: Board, rot: int, r: int)
    requires
        0 <= r < 4,
        0 <= rot < 4,
    ensures
        all_fit(board, rot, row_events(board, rot, r)),
        ({
            let row = rotated_row(board, rot, r);
            let c = first_merge(row);
            &&& c < 3 && row[c] != 0 ==> has_merge_at(row_events(board, rot, r), rotated_index(r, c, rot))
            &&& c < 3 && row[c] == 0 ==> has_card_at(row_events(board, rot, r), rotated_index(r, c, rot))
            &&& forall|k: int|
                c < k < 3 && row[k + 1] != 0 ==> has_card_at(
                    row_events(board, rot, r),
                    #[trigger] rotated_index(r, k, rot),
                )
        }),
{
    let row = rotated_row(board, rot, r);
    let c = first_merge(row);
    if c < 3 {
        lemma_index_inverse(r, c, rot);
        let t = row[c];
        let sv = row[c + 1];
        let is_merge = t != 0;
        let e0 = TileEvent {
            from_index: rotated_index(r, c + 1, rot) as usize,
            to_index: rotated_index(r, c, rot) as usize,
            action: if is_merge {
                ActionType::Merge
            } else {
                ActionType::Slide
            },
            value: sv,
            merged_value: if is_merge {
                Some(merged_value(t, sv) as u32)
            } else {
                None
            },
        };
        let mid: Seq<TileEvent> = if t > 0 {
            seq![
                TileEvent {
                    from_index: rotated_index(r, c, rot) as usize,
                    to_index: rotated_index(r, c, rot) as usize,
                    action: ActionType::Static,
                    value: t,
                    merged_value: None,
                },
            ]
        } else {
            Seq::empty()
        };
        let tail = shift_events(board, rot, r, c + 1, 3);
        assert(row_events(board, rot, r) == seq![e0] + mid + tail);
        assert(slid_at(board, rot, rotated_index(r, c, rot)) == merged_value(t, sv) as u32);
        assert(all_fit(board, rot, seq![e0]));
        assert(all_fit(board, rot, mid));
        lemma_shift_events_fit(board, rot, r, c + 1, 3);
        lemma_all_fit_concat(board, rot, seq![e0], mid);
        lemma_all_fit_concat(board, rot, seq![e0] + mid, tail);
        let i = rotated_index(r, c, rot);
        lemma_has_concat(seq![e0], mid, i);
        lemma_has_concat(seq![e0] + mid, tail, i);
        assert(seq![e0][0].to_index == i);
        assert forall|k: int|
            c < k < 3 && row[k + 1] != 0 implies has_card_at(
            row_events(board, rot, r),
            #[trigger] rotated_index(r, k, rot),
        ) by {
            lemma_has_concat(seq![e0] + mid, tail, rotated_index(r, k, rot));
        }
    } else {
        assert(row_events(board, rot, r) =~= Seq::<TileEvent>::empty());
    }
}

proof fn lemma_transition_all_fit(board: Board, rot: int)
    requires
        0 <= rot < 4,
    ensures
        all_fit(board, rot, transition_events(board, rot)),
{
    let r0 = row_events(board, rot, 0);
    let r1 = row_events(board, rot, 1);
    let r2 = row_events(board, rot, 2);
    let r3 = row_events(board, rot, 3);
    let st = static_events(board, rot, 16);
    assert(transition_events(board, rot) == r0 + r1 + r2 + r3 + st);
    lemma_row_events_fit(board, rot, 0);
    lemma_row_events_fit(board, rot, 1);
    lemma_row_events_fit(board, rot, 2);
    lemma_row_events_fit(board, rot, 3);
    lemma_static_events_fit(board, rot, 16);
    lemma_all_fit_concat(board, rot, r0, r1);
    lemma_all_fit_concat(board, rot, r0 + r1, r2);
    lemma_all_fit_concat(board, rot, r0 + r1 + r2, r3);
    lemma_all_fit_concat(board, rot, r0 + r1 + r2 + r3, st);
}

proof fn lemma_lift_parts(board: Board, rot: int, i: int)
    ensures
        has_merge_at(row_events(board, rot, 0), i) || has_merge_at(row_events(board, rot, 1), i)
            || has_merge_at(row_events(board, rot, 2), i) || has_merge_at(row_events(board, rot, 3), i)
            ==> has_merge_at(transition_events(board, rot), i),
        has_card_at(row_events(board, rot, 0), i) || has_card_at(row_events(board, rot, 1), i)
            || has_card_at(row_events(board, rot, 2), i) || has_card_at(row_events(board, rot, 3), i)
            || has_card_at(static_events(board, rot, 16), i) ==> has_card_at(
            transition_events(board, rot),
            i,
        ),
{
    let r0 = row_events(board, rot, 0);
    let r1 = row_events(board, rot, 1);
    let r2 = row_events(board, rot, 2);
    let r3 = row_events(board, rot, 3);
    let st = static_events(board, rot, 16);
    assert(transition_events(board, rot) == r0 + r1 + r2 + r3 + st);
    lemma_has_concat(r0, r1, i);
    lemma_has_concat(r0 + r1, r2, i);
    lemma_has_concat(r0 + r1 + r2, r3, i);
    lemma_has_concat(r0 + r1 + r2 + r3, st, i);
}

proof fn lemma_cell_part_event(board: Board, rot: int, i: int)
    requires
        0 <= i < 16,
        0 <= rot < 4,
    ensures
        merge_target(board, rot, i) ==> has_merge_at(
            row_events(board, rot, row_of_index(i, rot)),
            i,
        ),
        slid_at(board, rot, i) != 0 ==> has_merge_at(row_events(board, rot, row_of_index(i, rot)), i)
            || has_card_at(row_events(board, rot, row_of_index(i, rot)), i) || has_card_at(
            static_events(board, rot, 16),
            i,
        ),
{
    lemma_index_inverse2(i, rot);
    let rr = row_of_index(i, rot);
    let p = place_of_index(i, rot);
    let row = rotated_row(board, rot, rr);
    let c = first_merge(row);
    let sl = slid_line(row);
    assert(rotated_index(rr, p, rot) == i);
    assert(slid_at(board, rot, i) == sl[p]);
    if c == 3 || p < c {
        assert(sl[p] == row[p]);
        assert(!merge_target(board, rot, i));
        if sl[p] != 0 {
            lemma_unmarked_keeps(board, rot, i);
            lemma_static_events_fit(board, rot, 16);
        }
    } else if p == c {
        lemma_row_events_fit(board, rot, rr);
    } else if p < 3 {
        assert(!merge_target(board, rot, i));
        assert(sl[p] == row[p + 1]);
        lemma_row_events_fit(board, rot, rr);
    } else {
        assert(sl[p] == 0);
        assert(!merge_target(board, rot, i));
    }
}

proof fn lemma_cell_has_event(board: Board, rot: int, i: int)
    requires
        0 <= i < 16,
        0 <= rot < 4,
    ensures
        merge_target(board, rot, i) ==> has_merge_at(transition_events(board, rot), i),
        slid_at(board, rot, i) != 0 ==> has_merge_at(transition_events(board, rot), i) || has_card_at(
            transition_events(board, rot),
            i,
        ),
{
    lemma_index_inverse2(i, rot);
    lemma_cell_part_event(board, rot, i);
    lemma_lift_parts(board, rot, i);
    let rr = row_of_index(i, rot);
    assert(rr == 0 || rr == 1 || rr == 2 || rr == 3);
}

proof fn lemma_transition_events_fit(board: Board, rot: int)
    requires
        0 <= rot < 4,
    ensures
        all_fit(board, rot, transition_events(board, rot)),
        forall|i: int|
            0 <= i < 16 && merge_target(board, rot, i) ==> #[trigger] has_merge_at(
                transition_events(board, rot),
                i,
            ),
        forall|i: int|
            0 <= i < 16 && slid_at(board, rot, i) != 0 ==> has_merge_at(
                transition_events(board, rot),
                i,
            ) || #[trigger] has_card_at(transition_events(board, rot), i),
{
    lemma_transition_all_fit(board, rot);
    assert forall|i: int| 0 <= i < 16 && merge_target(board, rot, i) implies #[trigger] has_merge_at(
        transition_events(board, rot),
        i,
    ) by {
        lemma_cell_has_event(board, rot, i);
    }
    assert forall|i: int| 0 <= i < 16 && slid_at(board, rot, i) != 0 implies has_merge_at(
        transition_events(board, rot),
        i,
    ) || #[trigger] has_card_at(transition_events(board, rot), i) by {
        lemma_cell_has_event(board, rot, i);
    }
}

/// The events of a move rebuild the board after the move: reading each cell
/// from its merge event if it has one, else from a slide or a card staying
/// put there, else as empty, gives the value the move leaves in every cell.
pub proof fn lemma_transition_rebuilds_move(board: Board, d: Direction)
    ensures
        forall|r: int, c: int|
            0 <= r < 4 && 0 <= c < 4 ==> #[trigger] rebuilt_cell(
                transition_events(board, rotations_of(d)),
                r * 4 + c,
            ) == moved_cell(board, d, r, c),
{
    let rot = rotations_of(d);
    let e = transition_events(board, rot);
    lemma_transition_events_fit(board, rot);
    assert forall|r: int, c: int| 0 <= r < 4 && 0 <= c < 4 implies #[trigger] rebuilt_cell(
        e,
        r * 4 + c,
    ) == moved_cell(board, d, r, c) by {
        let i = r * 4 + c;
        lemma_index_inverse2(i, rot);
        let rr = row_of_index(i, rot);
        let p = place_of_index(i, rot);
        lemma_row_cell(d, rr, p);
        lemma_transition_follows_move(board, d, rr);
        assert(i / 4 == r && i % 4 == c);
        assert(moved_cell(board, d, r, c) == slid_at(board, rot, i));
        if has_merge_at(e, i) {
            let k = choose|k: int|
                0 <= k < e.len() && #[trigger] e[k].to_index == i && e[k].action == ActionType::Merge;
            assert(event_fits_move(board, rot, e[k]));
        } else if has_card_at(e, i) {
            let k = choose|k: int|
                0 <= k < e.len() && #[trigger] e[k].to_index == i && (e[k].action
                    == ActionType::Slide || e[k].action == ActionType::Static);
            assert(event_fits_move(board, rot, e[k]));
        }
    }
}

} // verus!
