use vstd::prelude::*;
use vstd::multiset::Multiset;
use crate::deck_tracker::{weighted_view, Chance, DeckTracker};
use crate::pseudo_list::{
    clones_of, generated, lemma_clones_of_u32, lemma_draw_within_template, lemma_generated_items,
    lemma_generated_len, PseudoList,
};
use crate::random::shuffle_vec;
use crate::threes_const::{K_NUMBER_RANDOMNESS, K_SPECIAL_RARENESS, K_START_SPAWN_NUMBERS};
use crate::deck_tracker::{deck_rank_of_value, get_rank_from_value};
use crate::math::{lemma_two_pow_monotone, two_pow};

use crate::random::{choose_copy, random_range_u32};
use crate::tile::{
    get_value_from_rank, lemma_rank_bounds, lemma_rank_of_value_of_rank, rank_of, value_of_rank, Tile,
};

verus! {

/// A board of 4 x 4 cells, by row and then by column.
pub type Board = [[Tile; 4]; 4];

#[derive(Clone, Copy, Debug, PartialEq, Eq, Structural)]
pub enum Direction {
    Up,
    Down,
    Left,
    Right,
}

/// The direction with the given number: 0 up, 1 down, 2 left, 3 right.
pub open spec fn direction_of(val: u8) -> Direction {
    if val == 0 {
        Direction::Up
    } else if val == 1 {
        Direction::Down
    } else if val == 2 {
        Direction::Left
    } else {
        Direction::Right
    }
}

impl Direction {
    pub fn from_u8(val: u8) -> (d: Self)
        requires
            val < 4,
        ensures
            d == direction_of(val),
    {
        match val {
            0 => Direction::Up,
            1 => Direction::Down,
            2 => Direction::Left,
            _ => Direction::Right,
        }
    }
}

/// The value in row `r`, column `c` of the board.
pub open spec fn cell(board: Board, r: int, c: int) -> u32 {
    board[r][c].value
}

/// A move in direction `d` slides every line of the board (a row for left
/// and right, a column for up and down) toward one side. `line_row` and
/// `line_col` give the cell of line `k` at place `j`, counted from that side.
pub open spec fn line_row(d: Direction, k: int, j: int) -> int {
    match d {
        Direction::Left => k,
        Direction::Right => k,
        Direction::Up => j,
        Direction::Down => 3 - j,
    }
}

pub open spec fn line_col(d: Direction, k: int, j: int) -> int {
    match d {
        Direction::Left => j,
        Direction::Right => 3 - j,
        Direction::Up => k,
        Direction::Down => k,
    }
}

/// The line of a cell for a move in direction `d`.
pub open spec fn line_index(d: Direction, r: int, c: int) -> int {
    match d {
        Direction::Left => r,
        Direction::Right => r,
        Direction::Up => c,
        Direction::Down => c,
    }
}

/// The place of a cell in its line, counted from the side the move goes to.
pub open spec fn line_place(d: Direction, r: int, c: int) -> int {
    match d {
        Direction::Left => c,
        Direction::Right => 3 - c,
        Direction::Up => r,
        Direction::Down => 3 - r,
    }
}

/// The four values of line `k` for a move in direction `d`.
pub open spec fn line_of(board: Board, d: Direction, k: int) -> Seq<u32> {
    Seq::new(4, |j: int| cell(board, line_row(d, k, j), line_col(d, k, j)))
}

/// Whether the card `source` can be pushed onto the cell holding `target`:
/// into an empty cell, 1 onto 2 or 2 onto 1, or two equal cards of 3 or more.
pub open spec fn can_merge(target: u32, source: u32) -> bool {
    &&& source != 0
    &&& (target == 0 || (target == 1 && source == 2) || (target == 2 && source == 1) || (target
        >= 3 && target == source))
}

/// The value that a push of `source` onto `target` leaves.
pub open spec fn merged_value(target: u32, source: u32) -> int {
    if target == 0 {
        source as int
    } else if target + source == 3 {
        3
    } else {
        2 * target
    }
}

/// The points that a push of `source` onto `target` earns.
pub open spec fn merge_gain(target: u32, source: u32) -> int {
    if target == 0 {
        0
    } else if target + source == 3 {
        1
    } else {
        2 * target
    }
}

/// The first place in a line from which a card can be pushed one step, or 3
/// when the line cannot move.
pub open spec fn first_merge(line: Seq<u32>) -> int {
    if can_merge(line[0], line[1]) {
        0
    } else if can_merge(line[1], line[2]) {
        1
    } else if can_merge(line[2], line[3]) {
        2
    } else {
        3
    }
}

/// Whether a line moves.
pub open spec fn line_moves(line: Seq<u32>) -> bool {
    first_merge(line) < 3
}

/// Whether the merge of a line fits in 32 bits.
pub open spec fn line_fits(line: Seq<u32>) -> bool {
    let i = first_merge(line);
    i < 3 ==> merged_value(line[i], line[i + 1]) <= u32::MAX
}

/// A line after a move: the first card that can move is pushed one place
/// (merging where it lands), the cards behind it follow, and the far end
/// becomes empty. A line that cannot move stays as it is.
pub open spec fn slid_line(line: Seq<u32>) -> Seq<u32> {
    let i = first_merge(line);
    if i == 3 {
        line
    } else {
        Seq::new(
            4,
            |j: int|
                if j < i {
                    line[j]
                } else if j == i {
                    merged_value(line[i], line[i + 1]) as u32
                } else if j < 3 {
                    line[j + 1]
                } else {
                    0u32
                },
        )
    }
}

/// The points a line earns in a move.
pub open spec fn line_gain(line: Seq<u32>) -> int {
    let i = first_merge(line);
    if i == 3 {
        0
    } else {
        merge_gain(line[i], line[i + 1])
    }
}

/// The value of row `r`, column `c` after a move in direction `d` (before a
/// new card comes in).
pub open spec fn moved_cell(board: Board, d: Direction, r: int, c: int) -> u32 {
    slid_line(line_of(board, d, line_index(d, r, c)))[line_place(d, r, c)]
}

/// The lines that move in direction `d`, among the first `n`, in order.
pub open spec fn moved_lines_upto(board: Board, d: Direction, n: int) -> Seq<usize>
    decreases n,
{
    if n <= 0 {
        Seq::empty()
    } else {
        moved_lines_upto(board, d, n - 1) + if line_moves(line_of(board, d, n - 1)) {
            seq![(n - 1) as usize]
        } else {
            Seq::empty()
        }
    }
}

/// The lines that move in direction `d`, in order.
pub open spec fn moved_lines(board: Board, d: Direction) -> Seq<usize> {
    moved_lines_upto(board, d, 4)
}

/// The points the first `n` lines earn in a move in direction `d`.
pub open spec fn move_gain_upto(board: Board, d: Direction, n: int) -> int
    decreases n,
{
    if n <= 0 {
        0
    } else {
        move_gain_upto(board, d, n - 1) + line_gain(line_of(board, d, n - 1))
    }
}

/// The points a move in direction `d` earns.
pub open spec fn move_gain(board: Board, d: Direction) -> int {
    move_gain_upto(board, d, 4)
}

/// Whether the board can move in direction `d`: some line can.
pub open spec fn board_can_move(board: Board, d: Direction) -> bool {
    exists|k: int| 0 <= k < 4 && #[trigger] line_moves(line_of(board, d, k))
}

/// Whether every merge of a move in direction `d` fits in 32 bits.
pub open spec fn move_fits(board: Board, d: Direction) -> bool {
    forall|k: int| 0 <= k < 4 ==> #[trigger] line_fits(line_of(board, d, k))
}

fn can_merge_tiles(target: u32, source: u32) -> (b: bool)
    ensures
        b == can_merge(target, source),
{
    if source == 0 {
        return false;
    }
    if target == 0 {
        return true;
    }
    if (target == 1 && source == 2) || (target == 2 && source == 1) {
        return true;
    }
    if target >= 3 && target == source {
        return true;
    }
    false
}

fn get_merge_result(target: u32, source: u32) -> (res: (u32, u64))
    requires
        can_merge(target, source),
        merged_value(target, source) <= u32::MAX,
    ensures
        res.0 == merged_value(target, source),
        res.1 == merge_gain(target, source),
{
    if target == 0 {
        (source, 0)
    } else if target + source == 3 {
        (3, 1)
    } else {
        let new_val = target * 2;
        (new_val, new_val as u64)
    }
}

fn process_line_threes(line: [u32; 4]) -> (res: ([u32; 4], bool, u64))
    requires
        line_fits(line@),
    ensures
        res.0@ == slid_line(line@),
        res.1 == line_moves(line@),
        res.2 == line_gain(line@),
{
    let mut new_line = line;
    let mut i: usize = 0;
    while i < 3
        invariant
            0 <= i <= 3,
            new_line == line,
            line_fits(line@),
            forall|j: int| 0 <= j < i ==> !can_merge(#[trigger] line@[j], line@[j + 1]),
        decreases 3 - i,
    {
        let target = new_line[i];
        let source = new_line[i + 1];
        if can_merge_tiles(target, source) {
            assert(first_merge(line@) == i);
            let (new_val, score) = get_merge_result(target, source);
            new_line[i] = new_val;
            let mut k: usize = i + 1;
            while k < 3
                invariant
                    i + 1 <= k <= 3,
                    i < 3,
                    new_line@[i as int] == new_val,
                    forall|j: int| 0 <= j < i ==> new_line@[j] == line@[j],
                    forall|j: int| i < j < k ==> new_line@[j] == line@[j + 1],
                    forall|j: int| k <= j < 4 ==> new_line@[j] == line@[j],
                decreases 3 - k,
            {
                new_line[k] = new_line[k + 1];
                k = k + 1;
            }
            new_line[3] = 0;
            assert(new_line@ =~= slid_line(line@));
            return (new_line, true, score);
        }
        i = i + 1;
    }
    assert(first_merge(line@) == 3);
    (line, false, 0)
}


/// The greatest of `f(0)`, ..., `f(n - 1)` and 0.
pub open spec fn max_over(f: spec_fn(int) -> int, n: int) -> int
    decreases n,
{
    if n <= 0 {
        0
    } else {
        let m = max_over(f, n - 1);
        if f(n - 1) > m {
            f(n - 1)
        } else {
            m
        }
    }
}

/// The sum of `f(0)`, ..., `f(n - 1)`.
pub open spec fn sum_over(f: spec_fn(int) -> int, n: int) -> int
    decreases n,
{
    if n <= 0 {
        0
    } else {
        sum_over(f, n - 1) + f(n - 1)
    }
}

/// The value at board position `p` (0 to 15, row by row).
pub open spec fn cell_at(board: Board, p: int) -> u32 {
    cell(board, p / 4, p % 4)
}

/// The rank that counts toward the highest rank: that of the card, except
/// that ranks 21 and 22 (the cards 1 and 2) count as 0.
pub open spec fn counted_rank(value: u32) -> int {
    let r = rank_of(value);
    if r == 21 || r == 22 {
        0
    } else {
        r
    }
}

/// The highest counted rank on the board.
pub open spec fn highest_rank(board: Board) -> int {
    max_over(|p: int| counted_rank(cell_at(board, p)), 16)
}

/// The highest value on the board.
pub open spec fn highest_value(board: Board) -> int {
    max_over(|p: int| cell_at(board, p) as int, 16)
}

/// Three to the power `e`.
pub open spec fn three_pow(e: nat) -> nat
    decreases e,
{
    if e == 0 {
        1
    } else {
        3 * three_pow((e - 1) as nat)
    }
}

/// The points a card is worth at the end: `3^rank` from 3 on, else nothing.
pub open spec fn card_points(value: u32) -> int {
    if value >= 3 {
        three_pow(deck_rank_of_value(value) as nat) as int
    } else {
        0
    }
}

/// The points the board is worth.
pub open spec fn board_points(board: Board) -> int {
    sum_over(|p: int| card_points(cell_at(board, p)), 16)
}

/// The sum of all values on the board.
pub open spec fn board_total(board: Board) -> int {
    sum_over(|p: int| cell_at(board, p) as int, 16)
}

/// The flat position (row * 4 + column) where a new card enters line `k`
/// after a move in direction `d`: the far end of the line.
pub open spec fn spawn_position(d: Direction, k: int) -> int {
    line_row(d, k, 3) * 4 + line_col(d, k, 3)
}

/// The directions in which the board can move, in the order up, down,
/// left, right.
pub open spec fn valid_moves(board: Board) -> Seq<Direction> {
    (if board_can_move(board, Direction::Up) {
        seq![Direction::Up]
    } else {
        Seq::empty()
    }) + (if board_can_move(board, Direction::Down) {
        seq![Direction::Down]
    } else {
        Seq::empty()
    }) + (if board_can_move(board, Direction::Left) {
        seq![Direction::Left]
    } else {
        Seq::empty()
    }) + (if board_can_move(board, Direction::Right) {
        seq![Direction::Right]
    } else {
        Seq::empty()
    })
}

/// The hint shown for the next card `future_value`, smallest first: the
/// card itself when it is 1, 2 or 3; for a bonus card, up to three values
/// from the ranks just below its own (each rank kept between 1 and 11).
pub open spec fn hint_values(future_value: u32) -> Seq<u32> {
    if future_value <= 3 {
        seq![future_value]
    } else {
        let rank = deck_rank_of_value(future_value);
        let num = if rank - 1 < 3 {
            rank - 1
        } else {
            3
        };
        Seq::new(
            num as nat,
            |j: int|
                {
                    let r_idx = rank - 1 - (num - 1 - j);
                    let clamped = if r_idx > 11 {
                        11
                    } else {
                        r_idx
                    };
                    value_of_rank(clamped + 1) as u32
                },
        )
    }
}

/// Two decks of numbers hold the same cards.
pub open spec fn same_deck(a: PseudoList<u32>, b: PseudoList<u32>) -> bool {
    &&& a.template() == b.template()
    &&& a.pool_seq() == b.pool_seq()
    &&& a.multiplier() == b.multiplier()
}

/// How the next card is picked (`get_next_value`), given the board, the
/// number of moves made, the two decks before (`numbers`, `special`) and
/// after (`numbers2`, `special2`) and the card `drawn` from the bonus deck:
/// after the 21st move a card is drawn from the bonus deck; if it is the
/// bonus card and the highest rank is at least 5, the next card is a bonus
/// card of rank `highest - 3`, or, from rank 7 on, of a rank from 4 to
/// `highest - 3`; otherwise it is drawn from the basic deck (1 if none).
pub open spec fn next_value_rule(
    board: Board,
    num_move: u32,
    numbers: PseudoList<u32>,
    special: PseudoList<u32>,
    numbers2: PseudoList<u32>,
    special2: PseudoList<u32>,
    drawn: Option<u32>,
    v: u32,
) -> bool {
    let h = highest_rank(board);
    let num = if h >= 3 {
        h - 3
    } else {
        0
    };
    let bonus = num_move > 21 && drawn == Some(1u32);
    &&& num_move > 21 ==> PseudoList::<u32>::draws(special, special2, drawn)
    &&& num_move <= 21 ==> special2 == special
    &&& if bonus && num >= 2 {
        &&& numbers2 == numbers
        &&& num < 4 ==> v == value_of_rank(num)
        &&& num >= 4 ==> exists|k: int| 4 <= k <= num && v == #[trigger] value_of_rank(k)
    } else {
        exists|d: Option<u32>|
            #[trigger] PseudoList::<u32>::draws(numbers, numbers2, d) && v == match d {
                Some(x) => x,
                None => 1u32,
            }
    }
}

/// The board `after` is the board `before` moved in direction `d`, with the
/// card `v` brought in at the far end of line `k`.
pub open spec fn lands(before: Board, after: Board, d: Direction, k: int, v: u32) -> bool {
    forall|r: int, c: int|
        0 <= r < 4 && 0 <= c < 4 ==> #[trigger] cell(after, r, c) == if r == line_row(d, k, 3) && c
            == line_col(d, k, 3) {
            v
        } else {
            moved_cell(before, d, r, c)
        }
}

/// What bringing in the card `v` at the far end of line `k` (after a move in
/// direction `d`) does: the card lands in that cell and is recorded by the
/// deck tracker; nothing else changes.
pub open spec fn spawned(prev: Game, next: Game, d: Direction, k: int, v: u32) -> bool {
    &&& DeckTracker::records(prev.deck_tracker, next.deck_tracker, v)
    &&& next.deck_tracker.wf()
    &&& forall|r: int, c: int|
        0 <= r < 4 && 0 <= c < 4 ==> #[trigger] cell(next.board, r, c) == if r == line_row(d, k, 3)
            && c == line_col(d, k, 3) {
            v
        } else {
            cell(prev.board, r, c)
        }
    &&& next.score == prev.score
    &&& next.is_afterstate == prev.is_afterstate
    &&& next.possible_spawn_positions == prev.possible_spawn_positions
    &&& next.num_move == prev.num_move
    &&& next.numbers == prev.numbers
    &&& next.special == prev.special
    &&& next.future_value == prev.future_value
    &&& next.hints == prev.hints
    &&& next.predicted_future_distribution == prev.predicted_future_distribution
}

/// One outcome of the chance step after a move: the afterstate `prev` with
/// the card `val` at flat position `pos`, recorded by the deck tracker, and
/// with the forecast of the card after it.
pub open spec fn outcome_of(prev: Game, next: Game, pos: int, val: u32) -> bool {
    &&& forall|r: int, c: int|
        0 <= r < 4 && 0 <= c < 4 ==> #[trigger] next.board[r][c] == if r == pos / 4 && c == pos
            % 4 {
            Tile { value: val }
        } else {
            prev.board[r][c]
        }
    &&& !next.is_afterstate
    &&& DeckTracker::records(prev.deck_tracker, next.deck_tracker, val)
    &&& next.deck_tracker.wf()
    &&& weighted_view(next.predicted_future_distribution@) == next.deck_tracker.forecast(
        highest_rank(next.board) as u32,
    )
    &&& forall|i: int|
        0 <= i < next.predicted_future_distribution@.len()
            ==> #[trigger] next.predicted_future_distribution@[i].1.denominator
            == next.deck_tracker.forecast_denominator(highest_rank(next.board) as u32)
    &&& next.score == prev.score
    &&& next.possible_spawn_positions@ == prev.possible_spawn_positions@
    &&& next.num_move == prev.num_move
    &&& same_deck(next.numbers, prev.numbers)
    &&& same_deck(next.special, prev.special)
    &&& next.future_value == prev.future_value
    &&& next.hints@ == prev.hints@
}

/// The sum of the numerators of the outcomes' probabilities.
pub open spec fn outcome_numerator_sum(s: Seq<(Game, Chance)>) -> int
    decreases s.len(),
{
    if s.len() == 0 {
        0
    } else {
        outcome_numerator_sum(s.drop_last()) + s.last().1.numerator
    }
}

/// The cells of the board that hold a card, by flat position.
pub open spec fn occupied(board: Board) -> Set<usize> {
    Set::new(|p: usize| p < 16 && cell_at(board, p as int) != 0)
}

/// Every card in the pool of a deck is an item of its template.
pub open spec fn pool_within_template(d: PseudoList<u32>) -> bool {
    forall|i: int| 0 <= i < d.pool_seq().len() ==> d.template().contains(#[trigger] d.pool_seq()[i])
}

/// The cards on the first `n` cells of the board (by flat position).
pub open spec fn cards_upto(board: Board, n: int) -> Multiset<u32>
    decreases n,
{
    if n <= 0 {
        Multiset::empty()
    } else if cell_at(board, n - 1) != 0 {
        cards_upto(board, n - 1).insert(cell_at(board, n - 1))
    } else {
        cards_upto(board, n - 1)
    }
}

/// The cards on the board.
pub open spec fn board_cards(board: Board) -> Multiset<u32> {
    cards_upto(board, 16)
}

proof fn lemma_cards_place(before: Board, after: Board, p: int, v: u32, n: int)
    requires
        0 <= p < 16,
        0 <= n <= 16,
        cell_at(before, p) == 0,
        cell_at(after, p) == v,
        v != 0,
        forall|q: int| 0 <= q < 16 && q != p ==> #[trigger] cell_at(after, q) == cell_at(before, q),
    ensures
        cards_upto(after, n) == if p < n {
            cards_upto(before, n).insert(v)
        } else {
            cards_upto(before, n)
        },
    decreases n,
{
    if n > 0 {
        lemma_cards_place(before, after, p, v, n - 1);
        if n - 1 != p {
            assert(cell_at(after, n - 1) == cell_at(before, n - 1));
        }
        if p < n - 1 && cell_at(before, n - 1) != 0 {
            assert(cards_upto(before, n - 1).insert(v).insert(cell_at(before, n - 1))
                =~= cards_upto(before, n - 1).insert(cell_at(before, n - 1)).insert(v));
        }
    }
}

proof fn lemma_cards_empty(board: Board, n: int)
    requires
        0 <= n <= 16,
        forall|q: int| 0 <= q < 16 ==> #[trigger] cell_at(board, q) == 0,
    ensures
        cards_upto(board, n) == Multiset::<u32>::empty(),
    decreases n,
{
    if n > 0 {
        lemma_cards_empty(board, n - 1);
    }
}

/// Deals the first cards of a game: the `i`-th card drawn from `numbers`
/// (for `i` below `K_START_SPAWN_NUMBERS`) goes to the cell at flat
/// position `order[i]`; every other cell stays empty. The pool holds enough
/// cards, so each draw takes its last card.
pub fn place_start_cards(order: &Vec<usize>, numbers: &mut PseudoList<u32>) -> (board: Board)
    requires
        order@.len() == 16,
        order@.no_duplicates(),
        forall|j: int| 0 <= j < 16 ==> #[trigger] order@[j] < 16,
        old(numbers).pool_seq().len() >= K_START_SPAWN_NUMBERS,
    ensures
        final(numbers).template() == old(numbers).template(),
        final(numbers).multiplier() == old(numbers).multiplier(),
        final(numbers).pool_seq() == old(numbers).pool_seq().take(
            old(numbers).pool_seq().len() - K_START_SPAWN_NUMBERS,
        ),
        forall|j: int|
            0 <= j < K_START_SPAWN_NUMBERS ==> #[trigger] cell_at(board, order@[j] as int) == old(
                numbers,
            ).pool_seq()[old(numbers).pool_seq().len() - 1 - j],
        forall|p: int|
            0 <= p < 16 && !order@.take(K_START_SPAWN_NUMBERS as int).contains(p as usize)
                ==> #[trigger] cell_at(board, p) == 0,
        (forall|k: int|
            0 <= k < old(numbers).pool_seq().len() ==> #[trigger] old(numbers).pool_seq()[k] != 0)
            ==> board_cards(board).add(final(numbers).pool_seq().to_multiset()) == old(
            numbers,
        ).pool_seq().to_multiset(),
{
    let ghost pool0 = numbers.pool_seq();
    let ghost n0 = pool0.len();
    let ghost nonzero = forall|k: int| 0 <= k < pool0.len() ==> #[trigger] pool0[k] != 0;
    let mut board = [[Tile::new(0);4];4];
    proof {
        assert forall|q: int| 0 <= q < 16 implies #[trigger] cell_at(board, q) == 0 by {}
        lemma_cards_empty(board, 16);
        assert(board_cards(board).add(pool0.to_multiset()) =~= pool0.to_multiset());
        assert(pool0.take(n0 as int) =~= pool0);
    }
    let mut i: usize = 0;
    while i < K_START_SPAWN_NUMBERS as usize
        invariant
            0 <= i <= 9,
            order@.len() == 16,
            order@.no_duplicates(),
            forall|j: int| 0 <= j < 16 ==> #[trigger] order@[j] < 16,
            n0 == pool0.len(),
            n0 >= 9,
            numbers.template() == old(numbers).template(),
            numbers.multiplier() == old(numbers).multiplier(),
            pool0 == old(numbers).pool_seq(),
            numbers.pool_seq() == pool0.take(n0 - i),
            nonzero == forall|k: int| 0 <= k < pool0.len() ==> #[trigger] pool0[k] != 0,
            forall|j: int| 0 <= j < i ==> #[trigger] cell_at(board, order@[j] as int) == pool0[n0 - 1 - j],
            forall|p: int|
                0 <= p < 16 && !order@.take(i as int).contains(p as usize) ==> #[trigger] cell_at(
                    board,
                    p,
                ) == 0,
            nonzero ==> board_cards(board).add(numbers.pool_seq().to_multiset()) == pool0.to_multiset(),
        decreases 9 - i,
    {
        let idx = order[i];
        let row = idx / 4;
        let col = idx % 4;
        let ghost before = *numbers;
        let drawn = numbers.get_next();
        let ghost old_board = board;
        let ghost v = pool0[n0 - 1 - i];
        proof {
            assert(before.pool_seq().len() > 0);
            assert(before.pool_seq().last() == v);
            assert(numbers.pool_seq() =~= pool0.take(n0 - i - 1));
        }
        if let Some(val) = drawn {
            board[row][col] = Tile::new(val);
        }
        proof {
            broadcast use vstd::seq_lib::group_to_multiset_ensures;

            assert(!order@.take(i as int).contains(idx)) by {
                if order@.take(i as int).contains(idx) {
                    let q = choose|q: int| 0 <= q < i && #[trigger] order@.take(i as int)[q] == idx;
                    assert(order@[q] == order@[i as int]);
                }
            }
            assert(cell_at(old_board, idx as int) == 0);
            assert(cell_at(board, idx as int) == v);
            assert forall|q: int| 0 <= q < 16 && q != idx implies #[trigger] cell_at(board, q)
                == cell_at(old_board, q) by {}
            assert(order@.take(i + 1) =~= order@.take(i as int).push(idx));
            assert forall|j: int| 0 <= j < i + 1 implies #[trigger] cell_at(board, order@[j] as int)
                == pool0[n0 - 1 - j] by {
                if j < i {
                    assert(order@[j] != idx);
                }
            }
            assert forall|p: int|
                0 <= p < 16 && !order@.take(i + 1).contains(p as usize) implies #[trigger] cell_at(
                board,
                p,
            ) == 0 by {
                assert(p != idx as int) by {
                    if p == idx as int {
                        assert(order@.take(i + 1)[i as int] == idx);
                    }
                }
                if order@.take(i as int).contains(p as usize) {
                    let q = choose|q: int| 0 <= q < i && #[trigger] order@.take(i as int)[q] == p as usize;
                    assert(order@.take(i + 1)[q] == p as usize);
                }
            }
            if nonzero {
                assert(v != 0);
                assert(before.pool_seq() =~= numbers.pool_seq().push(v));
                lemma_cards_place(old_board, board, idx as int, v, 16);
                assert(board_cards(board).add(numbers.pool_seq().to_multiset()) =~= board_cards(
                    old_board,
                ).add(before.pool_seq().to_multiset()));
            }
        }
        i = i + 1;
    }
    board
}

/// The state of a game of Threes.
pub struct Game {
    pub board: Board,
    /// The points earned by merges so far.
    pub score: u64,
    pub is_afterstate: bool,
    pub possible_spawn_positions: Vec<usize>,
    pub num_move: u32,
    pub numbers: PseudoList<u32>,
    pub special: PseudoList<u32>,
    pub future_value: u32,
    pub hints: Vec<u32>,
    pub deck_tracker: DeckTracker,
    pub predicted_future_distribution: Vec<(u32, Chance)>,
}

proof fn lemma_line_coords(d: Direction, k: int, j: int)
    ensures
        line_index(d, line_row(d, k, j), line_col(d, k, j)) == k,
        line_place(d, line_row(d, k, j), line_col(d, k, j)) == j,
{
}

proof fn lemma_cell_coords(d: Direction, r: int, c: int)
    ensures
        line_row(d, line_index(d, r, c), line_place(d, r, c)) == r,
        line_col(d, line_index(d, r, c), line_place(d, r, c)) == c,
{
}

impl Game {
    /// The values of line `k` for a move in direction `d`.
    fn read_line(&self, d: Direction, k: usize) -> (line: [u32; 4])
        requires
            k < 4,
        ensures
            line@ == line_of(self.board, d, k as int),
    {
        let b = &self.board;
        let line = match d {
            Direction::Left => [b[k][0].value, b[k][1].value, b[k][2].value, b[k][3].value],
            Direction::Right => [b[k][3].value, b[k][2].value, b[k][1].value, b[k][0].value],
            Direction::Up => [b[0][k].value, b[1][k].value, b[2][k].value, b[3][k].value],
            Direction::Down => [b[3][k].value, b[2][k].value, b[1][k].value, b[0][k].value],
        };
        assert(line@ =~= line_of(self.board, d, k as int));
        line
    }

    /// Writes `line` into line `k` for a move in direction `d`.
    fn write_line(&mut self, d: Direction, k: usize, line: [u32; 4])
        requires
            k < 4,
        ensures
            forall|r: int, c: int|
                0 <= r < 4 && 0 <= c < 4 ==> #[trigger] cell(final(self).board, r, c) == if line_index(
                    d,
                    r,
                    c,
                ) == k {
                    line@[line_place(d, r, c)]
                } else {
                    cell(old(self).board, r, c)
                },
            final(self).score == old(self).score,
            final(self).is_afterstate == old(self).is_afterstate,
            final(self).possible_spawn_positions == old(self).possible_spawn_positions,
            final(self).num_move == old(self).num_move,
            final(self).numbers == old(self).numbers,
            final(self).special == old(self).special,
            final(self).future_value == old(self).future_value,
            final(self).hints == old(self).hints,
            final(self).deck_tracker == old(self).deck_tracker,
            final(self).predicted_future_distribution == old(self).predicted_future_distribution,
    {
        match d {
            Direction::Left => {
                self.board[k][0] = Tile::new(line[0]);
                self.board[k][1] = Tile::new(line[1]);
                self.board[k][2] = Tile::new(line[2]);
                self.board[k][3] = Tile::new(line[3]);
            },
            Direction::Right => {
                self.board[k][3] = Tile::new(line[0]);
                self.board[k][2] = Tile::new(line[1]);
                self.board[k][1] = Tile::new(line[2]);
                self.board[k][0] = Tile::new(line[3]);
            },
            Direction::Up => {
                self.board[0][k] = Tile::new(line[0]);
                self.board[1][k] = Tile::new(line[1]);
                self.board[2][k] = Tile::new(line[2]);
                self.board[3][k] = Tile::new(line[3]);
            },
            Direction::Down => {
                self.board[3][k] = Tile::new(line[0]);
                self.board[2][k] = Tile::new(line[1]);
                self.board[1][k] = Tile::new(line[2]);
                self.board[0][k] = Tile::new(line[3]);
            },
        }
    }

    /// Whether the board can move in direction `dir`: some line holds a card
    /// that can be pushed one place toward that side.
    pub fn can_move(&self, dir: Direction) -> (b: bool)
        ensures
            b == board_can_move(self.board, dir),
    {
        let mut k: usize = 0;
        while k < 4
            invariant
                0 <= k <= 4,
                forall|k2: int| 0 <= k2 < k ==> !line_moves(#[trigger] line_of(self.board, dir, k2)),
            decreases 4 - k,
        {
            let line = self.read_line(dir, k);
            let mut j: usize = 0;
            while j < 3
                invariant
                    0 <= j <= 3,
                    k < 4,
                    line@ == line_of(self.board, dir, k as int),
                    forall|j2: int| 0 <= j2 < j ==> !can_merge(#[trigger] line@[j2], line@[j2 + 1]),
                decreases 3 - j,
            {
                if can_merge_tiles(line[j], line[j + 1]) {
                    assert(line_moves(line_of(self.board, dir, k as int)));
                    return true;
                }
                j = j + 1;
            }
            k = k + 1;
        }
        false
    }

    /// Moves and merges every line in direction `dir`, without bringing in a
    /// new card. Returns whether anything moved and the lines that moved, in
    /// order; the points of the merges are added to the score.
    pub fn apply_move_no_spawn(&mut self, dir: Direction) -> (res: (bool, Vec<usize>))
        requires
            move_fits(old(self).board, dir),
            old(self).score + move_gain(old(self).board, dir) <= u64::MAX,
        ensures
            forall|r: int, c: int|
                0 <= r < 4 && 0 <= c < 4 ==> #[trigger] cell(final(self).board, r, c) == moved_cell(
                    old(self).board,
                    dir,
                    r,
                    c,
                ),
            res.1@ == moved_lines(old(self).board, dir),
            res.0 == (res.1@.len() > 0),
            final(self).score == old(self).score + move_gain(old(self).board, dir),
            final(self).is_afterstate == old(self).is_afterstate,
            final(self).possible_spawn_positions == old(self).possible_spawn_positions,
            final(self).num_move == old(self).num_move,
            final(self).numbers == old(self).numbers,
            final(self).special == old(self).special,
            final(self).future_value == old(self).future_value,
            final(self).hints == old(self).hints,
            final(self).deck_tracker == old(self).deck_tracker,
            final(self).predicted_future_distribution == old(self).predicted_future_distribution,
    {
        let ghost orig = self.board;
        let mut moved_indices: Vec<usize> = Vec::new();
        let mut total_score_gain: u64 = 0;
        let mut has_moved = false;
        let mut k: usize = 0;
        while k < 4
            invariant
                0 <= k <= 4,
                move_fits(orig, dir),
                old(self).board == orig,
                forall|r: int, c: int|
                    0 <= r < 4 && 0 <= c < 4 ==> #[trigger] cell(self.board, r, c) == if line_index(
                        dir,
                        r,
                        c,
                    ) < k {
                        moved_cell(orig, dir, r, c)
                    } else {
                        cell(orig, r, c)
                    },
                moved_indices@ == moved_lines_upto(orig, dir, k as int),
                has_moved == (moved_indices@.len() > 0),
                total_score_gain == move_gain_upto(orig, dir, k as int),
                total_score_gain <= k * 0x2_0000_0000,
                self.score == old(self).score,
                self.is_afterstate == old(self).is_afterstate,
                self.possible_spawn_positions == old(self).possible_spawn_positions,
                self.num_move == old(self).num_move,
                self.numbers == old(self).numbers,
                self.special == old(self).special,
                self.future_value == old(self).future_value,
                self.hints == old(self).hints,
                self.deck_tracker == old(self).deck_tracker,
                self.predicted_future_distribution == old(self).predicted_future_distribution,
            decreases 4 - k,
        {
            let line = self.read_line(dir, k);
            proof {
                assert(line_of(self.board, dir, k as int) =~= line_of(orig, dir, k as int)) by {
                    assert forall|j: int| 0 <= j < 4 implies line_of(self.board, dir, k as int)[j]
                        == line_of(orig, dir, k as int)[j] by {
                        lemma_line_coords(dir, k as int, j);
                    }
                }
                assert(line_fits(line_of(orig, dir, k as int)));
            }
            let (new_line, moved, score) = process_line_threes(line);
            let ghost before = self.board;
            if moved {
                self.write_line(dir, k, new_line);
                moved_indices.push(k);
                total_score_gain = total_score_gain + score;
                has_moved = true;
            }
            proof {
                assert forall|r: int, c: int| 0 <= r < 4 && 0 <= c < 4 implies #[trigger] cell(
                    self.board,
                    r,
                    c,
                ) == if line_index(dir, r, c) < k + 1 {
                    moved_cell(orig, dir, r, c)
                } else {
                    cell(orig, r, c)
                } by {
                    lemma_cell_coords(dir, r, c);
                    if line_index(dir, r, c) == k {
                        if !moved {
                            assert(slid_line(line@) == line@);
                        }
                    }
                }
                let l = line_of(orig, dir, k as int);
                let i = first_merge(l);
                if i < 3 {
                    assert(merge_gain(l[i], l[i + 1]) <= 0x2_0000_0000);
                }
                assert(moved_lines_upto(orig, dir, k + 1) =~= moved_lines_upto(orig, dir, k as int)
                    + if line_moves(l) {
                    seq![k]
                } else {
                    Seq::empty()
                });
            }
            k = k + 1;
        }
        self.score = self.score + total_score_gain;
        (has_moved, moved_indices)
    }

    /// Sets the cell at flat position `pos` (row * 4 + column).
    pub fn set_tile_at_position(&mut self, pos: usize, tile: Tile)
        requires
            pos < 16,
        ensures
            forall|r: int, c: int|
                0 <= r < 4 && 0 <= c < 4 ==> #[trigger] final(self).board[r][c] == if r == pos / 4
                    && c == pos % 4 {
                    tile
                } else {
                    old(self).board[r][c]
                },
            final(self).score == old(self).score,
            final(self).is_afterstate == old(self).is_afterstate,
            final(self).possible_spawn_positions == old(self).possible_spawn_positions,
            final(self).num_move == old(self).num_move,
            final(self).numbers == old(self).numbers,
            final(self).special == old(self).special,
            final(self).future_value == old(self).future_value,
            final(self).hints == old(self).hints,
            final(self).deck_tracker == old(self).deck_tracker,
            final(self).predicted_future_distribution == old(self).predicted_future_distribution,
    {
        let row = pos / 4;
        let col = pos % 4;
        self.board[row][col] = tile;
    }

    /// The highest rank on the board, not counting the cards 1 and 2.
    pub fn get_highest_tile_rank(&self) -> (m: u32)
        ensures
            m == highest_rank(self.board),
            m <= 31,
    {
        let ghost f = |p: int| counted_rank(cell_at(self.board, p));
        let mut max_rank: u8 = 0;
        let mut r: usize = 0;
        while r < 4
            invariant
                0 <= r <= 4,
                max_rank == max_over(f, 4 * r),
                max_rank <= 31,
                f == |p: int| counted_rank(cell_at(self.board, p)),
            decreases 4 - r,
        {
            let mut c: usize = 0;
            while c < 4
                invariant
                    0 <= c <= 4,
                    r < 4,
                    max_rank == max_over(f, 4 * r + c),
                    max_rank <= 31,
                    f == |p: int| counted_rank(cell_at(self.board, p)),
                decreases 4 - c,
            {
                let rank = self.board[r][c].rank();
                proof {
                    let v = self.board[r as int][c as int].value;
                    if v >= 3 {
                        lemma_rank_bounds(v);
                    }
                    assert(f(4 * r + c) == counted_rank(v));
                }
                if rank > max_rank && rank != 21 && rank != 22 {
                    max_rank = rank;
                }
                c = c + 1;
            }
            r = r + 1;
        }
        max_rank as u32
    }

    /// The highest value on the board.
    pub fn get_highest_tile_value(&self) -> (m: u32)
        ensures
            m == highest_value(self.board),
    {
        let ghost f = |p: int| cell_at(self.board, p) as int;
        let mut max_val: u32 = 0;
        let mut r: usize = 0;
        while r < 4
            invariant
                0 <= r <= 4,
                max_val == max_over(f, 4 * r),
                f == |p: int| cell_at(self.board, p) as int,
            decreases 4 - r,
        {
            let mut c: usize = 0;
            while c < 4
                invariant
                    0 <= c <= 4,
                    r < 4,
                    max_val == max_over(f, 4 * r + c),
                    f == |p: int| cell_at(self.board, p) as int,
                decreases 4 - c,
            {
                let val = self.board[r][c].value;
                assert(f(4 * r + c) == val);
                if val > max_val {
                    max_val = val;
                }
                c = c + 1;
            }
            r = r + 1;
        }
        max_val
    }

    /// The points the board is worth: `3^rank` for every card of 3 or more.
    pub fn calculate_score(&self) -> (s: u64)
        ensures
            s == board_points(self.board),
    {
        let ghost f = |p: int| card_points(cell_at(self.board, p));
        let mut total_score: u64 = 0;
        let mut r: usize = 0;
        while r < 4
            invariant
                0 <= r <= 4,
                total_score == sum_over(f, 4 * r),
                total_score <= 4 * r * 0x10_0000_0000_0000,
                f == |p: int| card_points(cell_at(self.board, p)),
            decreases 4 - r,
        {
            let mut c: usize = 0;
            while c < 4
                invariant
                    0 <= c <= 4,
                    r < 4,
                    total_score == sum_over(f, 4 * r + c),
                    total_score <= (4 * r + c) * 0x10_0000_0000_0000,
                    f == |p: int| card_points(cell_at(self.board, p)),
                decreases 4 - c,
            {
                let val = self.board[r][c].value;
                assert(f(4 * r + c) == card_points(val));
                if val >= 3 {
                    proof {
                        lemma_rank_bounds(val);
                    }
                    let rank = get_rank_from_value(val);
                    let p = pow3(rank);
                    total_score = total_score + p;
                }
                c = c + 1;
            }
            r = r + 1;
        }
        total_score
    }

    /// The board's values, row by row.
    pub fn get_board_flat(&self) -> (flat: [u32; 16])
        ensures
            forall|p: int| 0 <= p < 16 ==> #[trigger] flat@[p] == cell_at(self.board, p),
    {
        let mut flat = [0u32; 16];
        let mut r: usize = 0;
        while r < 4
            invariant
                0 <= r <= 4,
                forall|p: int| 0 <= p < 4 * r ==> #[trigger] flat@[p] == cell_at(self.board, p),
            decreases 4 - r,
        {
            let mut c: usize = 0;
            while c < 4
                invariant
                    0 <= c <= 4,
                    r < 4,
                    forall|p: int| 0 <= p < 4 * r + c ==> #[trigger] flat@[p] == cell_at(self.board, p),
                decreases 4 - c,
            {
                flat[r * 4 + c] = self.board[r][c].value;
                c = c + 1;
            }
            r = r + 1;
        }
        flat
    }

    /// The directions in which the board can move.
    pub fn get_valid_moves(&self) -> (moves: Vec<Direction>)
        ensures
            moves@ == valid_moves(self.board),
    {
        let mut moves = Vec::new();
        if self.can_move(Direction::Up) {
            moves.push(Direction::Up);
        }
        if self.can_move(Direction::Down) {
            moves.push(Direction::Down);
        }
        if self.can_move(Direction::Left) {
            moves.push(Direction::Left);
        }
        if self.can_move(Direction::Right) {
            moves.push(Direction::Right);
        }
        assert(moves@ =~= valid_moves(self.board));
        moves
    }

    /// The game is over when the board cannot move in any direction.
    pub fn is_game_over(&self) -> (b: bool)
        ensures
            b == (valid_moves(self.board).len() == 0),
            b == (!board_can_move(self.board, Direction::Up) && !board_can_move(
                self.board,
                Direction::Down,
            ) && !board_can_move(self.board, Direction::Left) && !board_can_move(
                self.board,
                Direction::Right,
            )),
    {
        self.get_valid_moves().len() == 0
    }

    /// The hint for the next card (see [`hint_values`]).
    pub fn predict_future(&self) -> (hints: Vec<u32>)
        ensures
            hints@ == hint_values(self.future_value),
            forall|i: int, j: int| 0 <= i <= j < hints@.len() ==> hints@[i] <= hints@[j],
    {
        let mut hints: Vec<u32> = Vec::new();
        let fv = self.future_value;
        if fv <= 3 {
            hints.push(fv);
            assert(hints@ =~= hint_values(fv));
        } else {
            let rank = get_rank_from_value(fv);
            proof {
                lemma_rank_bounds(fv);
            }
            let num: u32 = if rank - 1 < 3 {
                rank - 1
            } else {
                3
            };
            let ghost expected = hint_values(fv);
            let mut j: u32 = 0;
            while j < num
                invariant
                    0 <= j <= num <= 3,
                    num <= rank - 1,
                    1 <= rank <= 31,
                    rank == deck_rank_of_value(fv),
                    fv > 3,
                    num == (if rank - 1 < 3 {
                        rank - 1
                    } else {
                        3
                    }),
                    expected == hint_values(fv),
                    expected.len() == num,
                    hints@ == expected.take(j as int),
                decreases num - j,
            {
                let r_idx = rank - 1 - (num - 1 - j);
                let clamped = if r_idx > 11 {
                    11
                } else {
                    r_idx
                };
                let v = get_value_from_rank(clamped + 1);
                hints.push(v);
                assert(expected.take(j + 1) =~= expected.take(j as int).push(v));
                j = j + 1;
            }
            assert(expected.take(num as int) =~= expected);
            proof {
                assert forall|i: int, k: int| 0 <= i <= k < hints@.len() implies hints@[i]
                    <= hints@[k] by {
                    let ri = rank - 1 - (num - 1 - i);
                    let rk = rank - 1 - (num - 1 - k);
                    let ci: int = if ri > 11 { 11 } else { ri };
                    let ck: int = if rk > 11 { 11 } else { rk };
                    lemma_two_pow_monotone(ci as nat, ck as nat);
                    lemma_two_pow_monotone(ck as nat, 11);
                    reveal_with_fuel(two_pow, 12);
                    assert(hints@[i] == expected[i]);
                    assert(hints@[k] == expected[k]);
                }
            }
        }
        hints
    }

    /// The game after a move in direction `dir`, before a new card comes in;
    /// it records where the new card may enter.
    pub fn gen_afterstate(&self, dir: Direction) -> (g: Game)
        requires
            board_can_move(self.board, dir),
            move_fits(self.board, dir),
            self.score + move_gain(self.board, dir) <= u64::MAX,
        ensures
            forall|r: int, c: int|
                0 <= r < 4 && 0 <= c < 4 ==> #[trigger] cell(g.board, r, c) == moved_cell(
                    self.board,
                    dir,
                    r,
                    c,
                ),
            g.score == self.score + move_gain(self.board, dir),
            g.possible_spawn_positions@ == moved_lines(self.board, dir).map_values(
                |k: usize| spawn_position(dir, k as int) as usize,
            ),
            forall|i: int|
                0 <= i < g.possible_spawn_positions@.len() ==> {
                    &&& #[trigger] g.possible_spawn_positions@[i] < 16
                    &&& cell_at(g.board, g.possible_spawn_positions@[i] as int) == 0
                },
            g.is_afterstate,
            g.num_move == self.num_move,
            same_deck(g.numbers, self.numbers),
            same_deck(g.special, self.special),
            g.future_value == self.future_value,
            g.hints@ == self.hints@,
            g.deck_tracker == self.deck_tracker,
            g.predicted_future_distribution@ == self.predicted_future_distribution@,
    {
        let mut temp_game = self.clone();
        let (_, moved_indices) = temp_game.apply_move_no_spawn(dir);
        let mut positions: Vec<usize> = Vec::new();
        let ghost moved = moved_lines(self.board, dir);
        let ghost target = moved.map_values(|k: usize| spawn_position(dir, k as int) as usize);
        proof {
            lemma_moved_lines_below(self.board, dir, 4);
        }
        let mut i: usize = 0;
        while i < moved_indices.len()
            invariant
                0 <= i <= moved_indices@.len(),
                moved_indices@ == moved,
                moved == moved_lines(self.board, dir),
                target == moved.map_values(|k: usize| spawn_position(dir, k as int) as usize),
                positions@ == target.take(i as int),
                forall|j: int| 0 <= j < moved.len() ==> #[trigger] moved[j] < 4,
            decreases moved_indices@.len() - i,
        {
            let idx = moved_indices[i];
            let flat_pos = match dir {
                Direction::Left => idx * 4 + 3,
                Direction::Right => idx * 4 + 0,
                Direction::Up => 3 * 4 + idx,
                Direction::Down => 0 * 4 + idx,
            };
            positions.push(flat_pos);
            assert(target.take(i + 1) =~= target.take(i as int).push(flat_pos));
            i = i + 1;
        }
        assert(target.take(moved.len() as int) =~= target);
        proof {
            assert forall|j: int| 0 <= j < positions@.len() implies {
                &&& #[trigger] positions@[j] < 16
                &&& cell_at(temp_game.board, positions@[j] as int) == 0
            } by {
                let k = moved[j];
                assert(moved.contains(k));
                lemma_spawn_position_empty(self.board, dir, k);
                let p = spawn_position(dir, k as int);
                assert(positions@[j] == p as usize);
                assert(cell(temp_game.board, p / 4, p % 4) == moved_cell(self.board, dir, p / 4, p % 4));
            }
        }
        temp_game.possible_spawn_positions = positions;
        temp_game.is_afterstate = true;
        temp_game
    }

    /// Picks the next card (see [`next_value_rule`]).
    pub fn get_next_value(&mut self) -> (v: u32)
        ensures
            exists|drawn: Option<u32>|
                #[trigger] next_value_rule(
                    old(self).board,
                    old(self).num_move,
                    old(self).numbers,
                    old(self).special,
                    final(self).numbers,
                    final(self).special,
                    drawn,
                    v,
                ),
            final(self).board == old(self).board,
            final(self).score == old(self).score,
            final(self).is_afterstate == old(self).is_afterstate,
            final(self).possible_spawn_positions == old(self).possible_spawn_positions,
            final(self).num_move == old(self).num_move,
            final(self).future_value == old(self).future_value,
            final(self).hints == old(self).hints,
            final(self).deck_tracker == old(self).deck_tracker,
            final(self).predicted_future_distribution == old(self).predicted_future_distribution,
    {
        let drawn = if self.num_move > 21 {
            self.special.get_next()
        } else {
            None
        };
        let is_bonus = self.num_move > 21 && drawn == Some(1u32);
        if is_bonus {
            let board_highest_rank = self.get_highest_tile_rank();
            let num = if board_highest_rank >= 3 {
                board_highest_rank - 3
            } else {
                0
            };
            if num >= 2 {
                if num < 4 {
                    let v = get_value_from_rank(num);
                    assert(next_value_rule(
                        old(self).board,
                        old(self).num_move,
                        old(self).numbers,
                        old(self).special,
                        self.numbers,
                        self.special,
                        drawn,
                        v,
                    ));
                    return v;
                } else {
                    let r = random_range_u32(4, num + 1);
                    let v = get_value_from_rank(r);
                    assert(v == value_of_rank(r as int));
                    assert(next_value_rule(
                        old(self).board,
                        old(self).num_move,
                        old(self).numbers,
                        old(self).special,
                        self.numbers,
                        self.special,
                        drawn,
                        v,
                    ));
                    return v;
                }
            }
        }
        let d = self.numbers.get_next();
        let v = match d {
            Some(x) => x,
            None => 1,
        };
        assert(PseudoList::<u32>::draws(old(self).numbers, self.numbers, d));
        assert(next_value_rule(
            old(self).board,
            old(self).num_move,
            old(self).numbers,
            old(self).special,
            self.numbers,
            self.special,
            drawn,
            v,
        ));
        v
    }

    /// Brings a new card in after a move in direction `dir`: at the far end
    /// of one of the lines that moved, a card from `vals`; both picked at
    /// random.
    pub fn spawn_new_tile(&mut self, dir: Direction, moved_indices: &[usize], vals: Vec<u32>)
        requires
            forall|i: int| 0 <= i < moved_indices@.len() ==> #[trigger] moved_indices@[i] < 4,
            moved_indices@.len() > 0 ==> {
                &&& vals@.len() > 0
                &&& old(self).deck_tracker.wf()
                &&& old(self).deck_tracker.moves() < u32::MAX
            },
        ensures
            moved_indices@.len() == 0 ==> *final(self) == *old(self),
            moved_indices@.len() > 0 ==> exists|k: usize, v: u32|
                moved_indices@.contains(k) && vals@.contains(v) && #[trigger] spawned(
                    *old(self),
                    *final(self),
                    dir,
                    k as int,
                    v,
                ),
    {
        if moved_indices.len() == 0 {
            return;
        }
        let target = choose_copy(moved_indices);
        let target_index = match target {
            Some(t) => t,
            None => 0,
        };
        let chosen = choose_copy(vals.as_slice());
        let val = match chosen {
            Some(x) => x,
            None => 0,
        };
        assert(moved_indices@.contains(target_index));
        assert(vals@.contains(val));
        self.deck_tracker.update(val);
        match dir {
            Direction::Left => self.board[target_index][3] = Tile::new(val),
            Direction::Right => self.board[target_index][0] = Tile::new(val),
            Direction::Up => self.board[3][target_index] = Tile::new(val),
            Direction::Down => self.board[0][target_index] = Tile::new(val),
        }
        assert(spawned(*old(self), *self, dir, target_index as int, val));
    }

    /// Plays a move in direction `dir`: slides and merges the lines, brings
    /// in one of the hinted cards where a line moved, and picks the next card
    /// and its hint.
    pub fn make_full_move(&mut self, dir: Direction)
        requires
            board_can_move(old(self).board, dir),
            move_fits(old(self).board, dir),
            old(self).score + move_gain(old(self).board, dir) <= u64::MAX,
            old(self).hints@.len() > 0,
            old(self).deck_tracker.wf(),
            old(self).deck_tracker.moves() < u32::MAX,
            old(self).num_move < u32::MAX,
        ensures
            exists|k: usize, v: u32|
                moved_lines(old(self).board, dir).contains(k) && old(self).hints@.contains(v)
                    && DeckTracker::records(old(self).deck_tracker, final(self).deck_tracker, v)
                    && #[trigger] lands(old(self).board, final(self).board, dir, k as int, v),
            final(self).deck_tracker.wf(),
            final(self).score == old(self).score + move_gain(old(self).board, dir),
            final(self).num_move == old(self).num_move + 1,
            exists|drawn: Option<u32>|
                #[trigger] next_value_rule(
                    final(self).board,
                    final(self).num_move,
                    old(self).numbers,
                    old(self).special,
                    final(self).numbers,
                    final(self).special,
                    drawn,
                    final(self).future_value,
                ),
            final(self).hints@ == hint_values(final(self).future_value),
            !final(self).is_afterstate,
            final(self).possible_spawn_positions == old(self).possible_spawn_positions,
            final(self).predicted_future_distribution == old(self).predicted_future_distribution,
    {
        let ghost start = *self;
        let (has_moved, moved_indices) = self.apply_move_no_spawn(dir);
        proof {
            lemma_can_move_iff_lines_move(start.board, dir);
            lemma_moved_lines_below(start.board, dir, 4);
        }
        let ghost mid = *self;
        let vals = copy_vec(&self.hints);
        self.spawn_new_tile(dir, moved_indices.as_slice(), vals);
        let ghost spawned_state = *self;
        self.num_move = self.num_move + 1;
        let ghost counted = *self;
        let fv = self.get_next_value();
        let ghost after = *self;
        self.future_value = fv;
        self.hints = self.predict_future();
        self.is_afterstate = false;
        proof {
            let (k, v) = choose|k: usize, v: u32|
                moved_indices@.contains(k) && vals@.contains(v) && #[trigger] spawned(
                    mid,
                    spawned_state,
                    dir,
                    k as int,
                    v,
                );
            assert(DeckTracker::records(start.deck_tracker, self.deck_tracker, v));
            assert forall|r: int, c: int| 0 <= r < 4 && 0 <= c < 4 implies #[trigger] cell(
                self.board,
                r,
                c,
            ) == if r == line_row(dir, k as int, 3) && c == line_col(dir, k as int, 3) {
                v
            } else {
                moved_cell(start.board, dir, r, c)
            } by {
                assert(cell(self.board, r, c) == cell(spawned_state.board, r, c));
            }
            assert(lands(start.board, self.board, dir, k as int, v));
            let drawn = choose|drawn: Option<u32>|
                #[trigger] next_value_rule(
                    counted.board,
                    counted.num_move,
                    counted.numbers,
                    counted.special,
                    after.numbers,
                    after.special,
                    drawn,
                    fv,
                );
            assert(next_value_rule(
                self.board,
                self.num_move,
                start.numbers,
                start.special,
                self.numbers,
                self.special,
                drawn,
                self.future_value,
            ));
        }
    }

    /// Every full state that can follow this afterstate, with its
    /// probability: a hinted card at one of the positions where a card may
    /// enter, all of them equally likely. Outcome `i` puts hint `i % h` at
    /// position `i / h`, where `h` is the number of hints.
    pub fn gen_all_possible_outcomes(&self) -> (out: Vec<(Game, Chance)>)
        requires
            self.is_afterstate,
            forall|i: int|
                0 <= i < self.possible_spawn_positions@.len()
                    ==> #[trigger] self.possible_spawn_positions@[i] < 16,
            self.deck_tracker.wf(),
            self.deck_tracker.moves() < u32::MAX,
            self.possible_spawn_positions@.len() * self.hints@.len() <= u64::MAX,
        ensures
            out@.len() == self.possible_spawn_positions@.len() * self.hints@.len(),
            forall|i: int|
                0 <= i < out@.len() ==> outcome_of(
                    *self,
                    #[trigger] out@[i].0,
                    self.possible_spawn_positions@[i / self.hints@.len() as int] as int,
                    self.hints@[i % self.hints@.len() as int],
                ),
            forall|i: int|
                0 <= i < out@.len() ==> #[trigger] out@[i].1 == (Chance {
                    numerator: 1,
                    denominator: out@.len() as u64,
                }),
            outcome_numerator_sum(out@) == out@.len(),
    {
        let npos = self.possible_spawn_positions.len();
        let nh = self.hints.len();
        let total: u64 = (npos as u64) * (nh as u64);
        let mut outcomes: Vec<(Game, Chance)> = Vec::new();
        let mut a: usize = 0;
        while a < npos
            invariant
                0 <= a <= npos,
                npos == self.possible_spawn_positions@.len(),
                nh == self.hints@.len(),
                total == npos * nh,
                self.is_afterstate,
                forall|i: int|
                    0 <= i < self.possible_spawn_positions@.len()
                        ==> #[trigger] self.possible_spawn_positions@[i] < 16,
                self.deck_tracker.wf(),
                self.deck_tracker.moves() < u32::MAX,
                outcomes@.len() == a * nh,
                forall|i: int|
                    0 <= i < outcomes@.len() ==> outcome_of(
                        *self,
                        #[trigger] outcomes@[i].0,
                        self.possible_spawn_positions@[i / nh as int] as int,
                        self.hints@[i % nh as int],
                    ),
                forall|i: int|
                    0 <= i < outcomes@.len() ==> #[trigger] outcomes@[i].1 == (Chance {
                        numerator: 1,
                        denominator: total,
                    }),
                outcome_numerator_sum(outcomes@) == outcomes@.len(),
            decreases npos - a,
        {
            let pos = self.possible_spawn_positions[a];
            let mut b: usize = 0;
            while b < nh
                invariant
                    0 <= a < npos,
                    0 <= b <= nh,
                    npos == self.possible_spawn_positions@.len(),
                    nh == self.hints@.len(),
                    total == npos * nh,
                    pos == self.possible_spawn_positions@[a as int],
                    pos < 16,
                    self.deck_tracker.wf(),
                    self.deck_tracker.moves() < u32::MAX,
                    outcomes@.len() == a * nh + b,
                    forall|i: int|
                        0 <= i < outcomes@.len() ==> outcome_of(
                            *self,
                            #[trigger] outcomes@[i].0,
                            self.possible_spawn_positions@[i / nh as int] as int,
                            self.hints@[i % nh as int],
                        ),
                    forall|i: int|
                        0 <= i < outcomes@.len() ==> #[trigger] outcomes@[i].1 == (Chance {
                            numerator: 1,
                            denominator: total,
                        }),
                    outcome_numerator_sum(outcomes@) == outcomes@.len(),
                decreases nh - b,
            {
                let val = self.hints[b];
                let mut next_game = self.clone();
                next_game.set_tile_at_position(pos, Tile::new(val));
                next_game.is_afterstate = false;
                next_game.deck_tracker.update(val);
                let max_rank = next_game.get_highest_tile_rank();
                next_game.predicted_future_distribution = next_game.deck_tracker.predict_future(
                    max_rank,
                );
                let ghost prev = outcomes@;
                let ghost ng = next_game;
                let chance = Chance { numerator: 1, denominator: total };
                outcomes.push((next_game, chance));
                proof {
                    let i = prev.len() as int;
                    let nhi = nh as int;
                    assert(i / nhi == a && i % nhi == b) by (nonlinear_arith)
                        requires
                            i == a * nhi + b,
                            0 <= b < nhi,
                    ;
                    assert(outcome_of(*self, ng, pos as int, val));
                    assert(outcomes@.drop_last() =~= prev);
                    assert forall|j: int| 0 <= j < outcomes@.len() implies outcome_of(
                        *self,
                        #[trigger] outcomes@[j].0,
                        self.possible_spawn_positions@[j / nh as int] as int,
                        self.hints@[j % nh as int],
                    ) by {
                        if j < i {
                            assert(outcomes@[j] == prev[j]);
                        }
                    }
                }
                b = b + 1;
            }
            proof {
                assert((a + 1) * nh == a * nh + nh) by (nonlinear_arith);
            }
            a = a + 1;
        }
        outcomes
    }

    /// Starts a game: nine cards from a shuffled basic deck on nine random
    /// cells, the two decks set up, and the first next card picked.
    pub fn new() -> (g: Self)
        ensures
            occupied(g.board).len() == K_START_SPAWN_NUMBERS,
            forall|r: int, c: int| 0 <= r < 4 && 0 <= c < 4 ==> #[trigger] cell(g.board, r, c) <= 3,
            g.score == 0,
            !g.is_afterstate,
            g.possible_spawn_positions@.len() == 0,
            g.num_move == 0,
            g.numbers.template() == seq![1u32, 2, 3],
            g.numbers.multiplier() == K_NUMBER_RANDOMNESS,
            pool_within_template(g.numbers),
            g.special.template() == seq![1u32] + Seq::new(K_SPECIAL_RARENESS as nat, |i: int| 0u32),
            g.special.multiplier() == 1,
            pool_within_template(g.special),
            1 <= g.future_value <= 3,
            g.hints@ == seq![g.future_value],
            g.deck_tracker.wf(),
            g.deck_tracker.moves() == 0,
            g.deck_tracker.total() == 12,
            g.predicted_future_distribution@.len() == 0,
            g.numbers.pool_seq().len() == 2,
            g.special.pool_seq().to_multiset() == generated(
                g.special.template(),
                g.special.multiplier(),
            ).to_multiset(),
            board_cards(g.board).insert(g.future_value).add(g.numbers.pool_seq().to_multiset())
                == generated(g.numbers.template(), g.numbers.multiplier()).to_multiset(),
    {
        let mut numbers = PseudoList::new(K_NUMBER_RANDOMNESS);
        numbers.add(1);
        numbers.add(2);
        numbers.add(3);
        assert(numbers.template() =~= seq![1u32, 2, 3]);
        numbers.generate_list();
        let ghost fresh_numbers = numbers;
        numbers.shuffle();
        let ghost deck = generated(numbers.template(), numbers.multiplier()).to_multiset();
        proof {
            lemma_shuffled_within_template(fresh_numbers, numbers);
            lemma_clones_of_u32(generated(fresh_numbers.template(), fresh_numbers.multiplier()), fresh_numbers.pool_seq());
            lemma_generated_len(numbers.template(), numbers.multiplier());
            assert(numbers.pool_seq().len() == 12);
        }
        let mut special = PseudoList::new(1);
        special.add(1);
        let mut z: u8 = 0;
        while z < K_SPECIAL_RARENESS
            invariant
                0 <= z <= K_SPECIAL_RARENESS,
                special.template() == seq![1u32] + Seq::new(z as nat, |i: int| 0u32),
                special.multiplier() == 1,
                special.pool_seq().len() == 0,
            decreases K_SPECIAL_RARENESS - z,
        {
            special.add(0);
            assert(special.template() =~= seq![1u32] + Seq::new((z + 1) as nat, |i: int| 0u32));
            z = z + 1;
        }
        special.generate_list();
        let ghost fresh_special = special;
        special.shuffle();
        proof {
            lemma_shuffled_within_template(fresh_special, special);
            lemma_clones_of_u32(
                generated(fresh_special.template(), fresh_special.multiplier()),
                fresh_special.pool_seq(),
            );
        }
        let mut indices: Vec<usize> = Vec::new();
        let mut n: usize = 0;
        while n < 16
            invariant
                0 <= n <= 16,
                indices@ == Seq::new(n as nat, |i: int| i as usize),
            decreases 16 - n,
        {
            indices.push(n);
            assert(indices@ =~= Seq::new((n + 1) as nat, |i: int| i as usize));
            n = n + 1;
        }
        let ghost ordered = indices@;
        shuffle_vec(&mut indices);
        proof {
            lemma_shuffled_positions(ordered, indices@);
        }
        let ghost pool0 = numbers.pool_seq();
        proof {
            assert(numbers.pool_seq().to_multiset() == deck);
            assert forall|k: int| 0 <= k < pool0.len() implies #[trigger] pool0[k] != 0 && pool0[k]
                <= 3 by {
                assert(numbers.template().contains(pool0[k]));
                let q = choose|q: int| 0 <= q < 3 && #[trigger] numbers.template()[q] == pool0[k];
                assert(seq![1u32, 2, 3][q] == pool0[k]);
            }
        }
        let board = place_start_cards(&indices, &mut numbers);
        proof {
            assert forall|i: int| 0 <= i < numbers.pool_seq().len() implies numbers.template().contains(
                #[trigger] numbers.pool_seq()[i],
            ) by {
                assert(numbers.pool_seq()[i] == pool0[i]);
            }
            assert(numbers.pool_seq().len() == 3);
            assert forall|p: int|
                0 <= p < 16 implies (#[trigger] cell_at(board, p) != 0 <==> indices@.take(9).contains(
                p as usize,
            )) && cell_at(board, p) <= 3 by {
                if indices@.take(9).contains(p as usize) {
                    let j = choose|j: int| 0 <= j < 9 && #[trigger] indices@.take(9)[j] == p as usize;
                    assert(indices@[j] == p as usize);
                    assert(cell_at(board, indices@[j] as int) == pool0[pool0.len() - 1 - j]);
                }
            }
        }
        proof {
            let s = indices@.take(9);
            assert(s.no_duplicates());
            s.unique_seq_to_set();
            assert forall|p: usize| occupied(board).contains(p) <==> s.to_set().contains(p) by {
                if p < 16 {
                    assert(cell_at(board, p as int) != 0 <==> indices@.take(9).contains(p));
                } else {
                    if s.contains(p) {
                        let q = choose|q: int| 0 <= q < 9 && #[trigger] s[q] == p;
                        assert(indices@[q] == p);
                    }
                }
            }
            assert(occupied(board) =~= s.to_set());
            assert forall|r: int, c: int| 0 <= r < 4 && 0 <= c < 4 implies #[trigger] cell(
                board,
                r,
                c,
            ) <= 3 by {
                assert(cell_at(board, r * 4 + c) == cell(board, r, c));
            }
        }
        let mut game = Game {
            board,
            score: 0,
            is_afterstate: false,
            possible_spawn_positions: Vec::new(),
            num_move: 0,
            numbers,
            special,
            future_value: 0,
            hints: Vec::new(),
            deck_tracker: DeckTracker::new(),
            predicted_future_distribution: Vec::new(),
        };
        let ghost g0 = game;
        game.future_value = game.get_next_value();
        proof {
            let drawn = choose|drawn: Option<u32>|
                #[trigger] next_value_rule(
                    g0.board,
                    g0.num_move,
                    g0.numbers,
                    g0.special,
                    game.numbers,
                    game.special,
                    drawn,
                    game.future_value,
                );
            let d = choose|d: Option<u32>|
                #[trigger] PseudoList::<u32>::draws(g0.numbers, game.numbers, d)
                    && game.future_value == match d {
                    Some(x) => x,
                    None => 1u32,
                };
            lemma_draw_within_template(g0.numbers, game.numbers, d);
            broadcast use vstd::seq_lib::group_to_multiset_ensures;
            assert(g0.numbers.pool_seq() =~= game.numbers.pool_seq().push(game.future_value));
            assert(board_cards(game.board).insert(game.future_value).add(
                game.numbers.pool_seq().to_multiset(),
            ) =~= board_cards(g0.board).add(g0.numbers.pool_seq().to_multiset()));
        }
        game.hints = game.predict_future();
        game
    }
}

/// `3^e` for a rank `e` of a 32-bit value.
fn pow3(e: u32) -> (p: u64)
    requires
        e <= 31,
    ensures
        p == three_pow(e as nat),
        p <= 0x10_0000_0000_0000,
{
    let mut p: u64 = 1;
    let mut i: u32 = 0;
    proof {
        lemma_three_pow_bound(31);
    }
    while i < e
        invariant
            0 <= i <= e <= 31,
            p == three_pow(i as nat),
            three_pow(31) <= 0x10_0000_0000_0000,
        decreases e - i,
    {
        proof {
            lemma_three_pow_monotone((i + 1) as nat, 31);
        }
        p = p * 3;
        i = i + 1;
    }
    proof {
        lemma_three_pow_monotone(e as nat, 31);
    }
    p
}

proof fn lemma_three_pow_bound(e: nat)
    requires
        e == 31,
    ensures
        three_pow(e) <= 0x10_0000_0000_0000,
{
    reveal_with_fuel(three_pow, 32);
}

proof fn lemma_three_pow_monotone(a: nat, b: nat)
    requires
        a <= b,
    ensures
        three_pow(a) <= three_pow(b),
    decreases b,
{
    if a < b {
        lemma_three_pow_monotone(a, (b - 1) as nat);
    }
}
/// A board can move in a direction exactly when some line moves, that is,
/// when a move in that direction reports that it moved.
pub proof fn lemma_can_move_iff_lines_move(board: Board, d: Direction)
    ensures
        board_can_move(board, d) <==> moved_lines(board, d).len() > 0,
{
    lemma_moved_lines_nonempty(board, d, 4);
}

proof fn lemma_moved_lines_nonempty(board: Board, d: Direction, n: int)
    requires
        0 <= n <= 4,
    ensures
        moved_lines_upto(board, d, n).len() > 0 <==> exists|k: int|
            0 <= k < n && #[trigger] line_moves(line_of(board, d, k)),
    decreases n,
{
    if n > 0 {
        lemma_moved_lines_nonempty(board, d, n - 1);
        if line_moves(line_of(board, d, n - 1)) {
            assert(exists|k: int| 0 <= k < n && #[trigger] line_moves(line_of(board, d, k)));
        }
        if exists|k: int| 0 <= k < n && #[trigger] line_moves(line_of(board, d, k)) {
            let k = choose|k: int| 0 <= k < n && #[trigger] line_moves(line_of(board, d, k));
            if k < n - 1 {
                assert(exists|k: int| 0 <= k < n - 1 && #[trigger] line_moves(line_of(board, d, k)));
            }
        }
    }
}

/// The sum of a line's four values.
pub open spec fn line_sum(l: Seq<u32>) -> int {
    l[0] + l[1] + l[2] + l[3]
}

proof fn lemma_slide_keeps_sum(l: Seq<u32>)
    requires
        l.len() == 4,
        line_fits(l),
    ensures
        line_sum(slid_line(l)) == line_sum(l),
        slid_line(l).len() == 4,
{
}

/// A move only slides and merges cards, and every merge keeps the sum of
/// the two cards (0 + x, 1 + 2 = 3, x + x = 2x): the sum of the values on
/// the board is the same after the move as before it.
pub proof fn lemma_move_keeps_total(before: Board, after: Board, d: Direction)
    requires
        move_fits(before, d),
        forall|r: int, c: int|
            0 <= r < 4 && 0 <= c < 4 ==> #[trigger] cell(after, r, c) == moved_cell(before, d, r, c),
    ensures
        board_total(after) == board_total(before),
{
    reveal_with_fuel(sum_over, 17);
    let l0 = line_of(before, d, 0);
    let l1 = line_of(before, d, 1);
    let l2 = line_of(before, d, 2);
    let l3 = line_of(before, d, 3);
    lemma_slide_keeps_sum(l0);
    lemma_slide_keeps_sum(l1);
    lemma_slide_keeps_sum(l2);
    lemma_slide_keeps_sum(l3);
    assert forall|p: int| 0 <= p < 16 implies #[trigger] cell_at(after, p) == moved_cell(
        before,
        d,
        p / 4,
        p % 4,
    ) by {}
    let fa = |p: int| cell_at(after, p) as int;
    let fb = |p: int| cell_at(before, p) as int;
    assert(sum_over(fa, 16) == fa(0) + fa(1) + fa(2) + fa(3) + fa(4) + fa(5) + fa(6) + fa(7)
        + fa(8) + fa(9) + fa(10) + fa(11) + fa(12) + fa(13) + fa(14) + fa(15));
    assert(sum_over(fb, 16) == fb(0) + fb(1) + fb(2) + fb(3) + fb(4) + fb(5) + fb(6) + fb(7)
        + fb(8) + fb(9) + fb(10) + fb(11) + fb(12) + fb(13) + fb(14) + fb(15));
    match d {
        Direction::Left => {},
        Direction::Right => {},
        Direction::Up => {},
        Direction::Down => {},
    }
}

/// How many cells of the board hold a card.
pub open spec fn card_count(board: Board) -> int {
    sum_over(|p: int| if cell_at(board, p) != 0 { 1int } else { 0int }, 16)
}

/// How many places of a line hold a card.
pub open spec fn line_count(l: Seq<u32>) -> int {
    (if l[0] != 0 { 1int } else { 0int }) + (if l[1] != 0 { 1int } else { 0int }) + (if l[2] != 0 {
        1int
    } else {
        0int
    }) + (if l[3] != 0 { 1int } else { 0int })
}

proof fn lemma_moved_lines_count(board: Board, d: Direction)
    ensures
        moved_lines(board, d).len() == (if line_moves(line_of(board, d, 0)) { 1int } else { 0int })
            + (if line_moves(line_of(board, d, 1)) { 1int } else { 0int }) + (if line_moves(
            line_of(board, d, 2),
        ) {
            1int
        } else {
            0int
        }) + (if line_moves(line_of(board, d, 3)) { 1int } else { 0int }),
{
    reveal_with_fuel(moved_lines_upto, 5);
}

spec fn held(board: Board, r: int, c: int) -> int {
    if cell(board, r, c) != 0 {
        1
    } else {
        0
    }
}

proof fn lemma_card_count_cells(board: Board)
    ensures
        card_count(board) == held(board, 0, 0) + held(board, 0, 1) + held(board, 0, 2) + held(
            board,
            0,
            3,
        ) + held(board, 1, 0) + held(board, 1, 1) + held(board, 1, 2) + held(board, 1, 3) + held(
            board,
            2,
            0,
        ) + held(board, 2, 1) + held(board, 2, 2) + held(board, 2, 3) + held(board, 3, 0) + held(
            board,
            3,
            1,
        ) + held(board, 3, 2) + held(board, 3, 3),
{
    reveal_with_fuel(sum_over, 17);
    let f = |p: int| if cell_at(board, p) != 0 { 1int } else { 0int };
    assert(sum_over(f, 16) == f(0) + f(1) + f(2) + f(3) + f(4) + f(5) + f(6) + f(7) + f(8) + f(9)
        + f(10) + f(11) + f(12) + f(13) + f(14) + f(15));
}

proof fn lemma_line_count_cells(board: Board, d: Direction, k: int)
    ensures
        line_count(line_of(board, d, k)) == held(board, line_row(d, k, 0), line_col(d, k, 0)) + held(
            board,
            line_row(d, k, 1),
            line_col(d, k, 1),
        ) + held(board, line_row(d, k, 2), line_col(d, k, 2)) + held(
            board,
            line_row(d, k, 3),
            line_col(d, k, 3),
        ),
{
}

proof fn lemma_card_count_lines(board: Board, d: Direction)
    ensures
        card_count(board) == line_count(line_of(board, d, 0)) + line_count(line_of(board, d, 1))
            + line_count(line_of(board, d, 2)) + line_count(line_of(board, d, 3)),
{
    lemma_card_count_cells(board);
    lemma_line_count_cells(board, d, 0);
    lemma_line_count_cells(board, d, 1);
    lemma_line_count_cells(board, d, 2);
    lemma_line_count_cells(board, d, 3);
    match d {
        Direction::Left => {},
        Direction::Right => {},
        Direction::Up => {},
        Direction::Down => {},
    }
}

proof fn lemma_slide_count(l: Seq<u32>)
    requires
        l.len() == 4,
        line_fits(l),
    ensures
        line_count(slid_line(l)) <= line_count(l),
        line_count(slid_line(l)) + (if line_moves(l) { 1int } else { 0int }) >= line_count(l),
{
}

proof fn lemma_moved_line(before: Board, after: Board, d: Direction, k: int)
    requires
        0 <= k < 4,
        forall|r: int, c: int|
            0 <= r < 4 && 0 <= c < 4 ==> #[trigger] cell(after, r, c) == moved_cell(before, d, r, c),
    ensures
        line_of(after, d, k) == slid_line(line_of(before, d, k)),
{
    assert forall|j: int| 0 <= j < 4 implies #[trigger] line_of(after, d, k)[j] == slid_line(
        line_of(before, d, k),
    )[j] by {
        let r = line_row(d, k, j);
        let c = line_col(d, k, j);
        assert(cell(after, r, c) == moved_cell(before, d, r, c));
        assert(line_index(d, r, c) == k && line_place(d, r, c) == j);
    }
    assert(line_of(after, d, k) =~= slid_line(line_of(before, d, k)));
}

/// A move never adds a card, and it removes at most one per line that
/// moves (each line merges at most once): the number of cards on the
/// board does not grow, and falls by at most the number of moved lines.
pub proof fn lemma_move_card_count(before: Board, after: Board, d: Direction)
    requires
        move_fits(before, d),
        forall|r: int, c: int|
            0 <= r < 4 && 0 <= c < 4 ==> #[trigger] cell(after, r, c) == moved_cell(before, d, r, c),
    ensures
        card_count(after) <= card_count(before),
        card_count(after) + moved_lines(before, d).len() >= card_count(before),
{
    lemma_moved_lines_count(before, d);
    lemma_card_count_lines(before, d);
    lemma_card_count_lines(after, d);
    lemma_moved_line(before, after, d, 0);
    lemma_moved_line(before, after, d, 1);
    lemma_moved_line(before, after, d, 2);
    lemma_moved_line(before, after, d, 3);
    lemma_slide_count(line_of(before, d, 0));
    lemma_slide_count(line_of(before, d, 1));
    lemma_slide_count(line_of(before, d, 2));
    lemma_slide_count(line_of(before, d, 3));
}

/// The board `b` is `a` mirrored left to right.
pub open spec fn mirrored(a: Board, b: Board) -> bool {
    forall|r: int, c: int| 0 <= r < 4 && 0 <= c < 4 ==> #[trigger] cell(a, r, c) == cell(b, r, 3 - c)
}

/// The board `b` is `a` with rows and columns exchanged.
pub open spec fn transposed(a: Board, b: Board) -> bool {
    forall|r: int, c: int| 0 <= r < 4 && 0 <= c < 4 ==> #[trigger] cell(a, r, c) == cell(b, c, r)
}

proof fn lemma_same_lines_same_move(a: Board, d1: Direction, b: Board, d2: Direction, n: int)
    requires
        0 <= n <= 4,
        forall|k: int| 0 <= k < 4 ==> #[trigger] line_of(a, d1, k) == line_of(b, d2, k),
    ensures
        moved_lines_upto(a, d1, n) == moved_lines_upto(b, d2, n),
        move_gain_upto(a, d1, n) == move_gain_upto(b, d2, n),
    decreases n,
{
    if n > 0 {
        lemma_same_lines_same_move(a, d1, b, d2, n - 1);
        assert(line_of(a, d1, n - 1) == line_of(b, d2, n - 1));
    }
}

/// A move right is the mirror image of a move left on the mirrored board:
/// the same lines move, the same points are earned, and the boards after
/// the moves are mirror images.
pub proof fn lemma_mirror_move(a: Board, b: Board)
    requires
        mirrored(a, b),
    ensures
        moved_lines(a, Direction::Right) == moved_lines(b, Direction::Left),
        move_gain(a, Direction::Right) == move_gain(b, Direction::Left),
        forall|r: int, c: int|
            0 <= r < 4 && 0 <= c < 4 ==> #[trigger] moved_cell(a, Direction::Right, r, c) == moved_cell(
                b,
                Direction::Left,
                r,
                3 - c,
            ),
{
    assert forall|k: int| 0 <= k < 4 implies #[trigger] line_of(a, Direction::Right, k) == line_of(
        b,
        Direction::Left,
        k,
    ) by {
        assert(line_of(a, Direction::Right, k) =~= line_of(b, Direction::Left, k));
    }
    lemma_same_lines_same_move(a, Direction::Right, b, Direction::Left, 4);
}

/// Moves up and down are moves left and right on the transposed board:
/// the same lines move, the same points are earned, and the boards after
/// the moves are transposes of each other.
pub proof fn lemma_transpose_move(a: Board, b: Board)
    requires
        transposed(a, b),
    ensures
        moved_lines(a, Direction::Up) == moved_lines(b, Direction::Left),
        move_gain(a, Direction::Up) == move_gain(b, Direction::Left),
        forall|r: int, c: int|
            0 <= r < 4 && 0 <= c < 4 ==> #[trigger] moved_cell(a, Direction::Up, r, c) == moved_cell(
                b,
                Direction::Left,
                c,
                r,
            ),
        moved_lines(a, Direction::Down) == moved_lines(b, Direction::Right),
        move_gain(a, Direction::Down) == move_gain(b, Direction::Right),
        forall|r: int, c: int|
            0 <= r < 4 && 0 <= c < 4 ==> #[trigger] moved_cell(a, Direction::Down, r, c) == moved_cell(
                b,
                Direction::Right,
                c,
                r,
            ),
{
    assert forall|k: int| 0 <= k < 4 implies #[trigger] line_of(a, Direction::Up, k) == line_of(
        b,
        Direction::Left,
        k,
    ) by {
        assert(line_of(a, Direction::Up, k) =~= line_of(b, Direction::Left, k));
    }
    assert forall|k: int| 0 <= k < 4 implies #[trigger] line_of(a, Direction::Down, k) == line_of(
        b,
        Direction::Right,
        k,
    ) by {
        assert(line_of(a, Direction::Down, k) =~= line_of(b, Direction::Right, k));
    }
    lemma_same_lines_same_move(a, Direction::Up, b, Direction::Left, 4);
    lemma_same_lines_same_move(a, Direction::Down, b, Direction::Right, 4);
}

/// Every line that moves ends with an empty cell at its far end, which is
/// where a new card enters.
pub proof fn lemma_spawn_cell_empty(board: Board, d: Direction, k: usize)
    requires
        moved_lines(board, d).contains(k),
    ensures
        moved_cell(board, d, line_row(d, k as int, 3), line_col(d, k as int, 3)) == 0,
        k < 4,
{
    lemma_moved_lines_only_moving(board, d, 4);
    let i = choose|i: int| 0 <= i < moved_lines(board, d).len() && moved_lines(board, d)[i] == k;
    lemma_moved_lines_below(board, d, 4);
    assert(line_moves(line_of(board, d, k as int)));
    lemma_line_coords(d, k as int, 3);
}

proof fn lemma_moved_lines_only_moving(board: Board, d: Direction, n: int)
    requires
        0 <= n <= 4,
    ensures
        forall|i: int|
            0 <= i < moved_lines_upto(board, d, n).len() ==> line_moves(
                line_of(board, d, #[trigger] moved_lines_upto(board, d, n)[i] as int),
            ),
    decreases n,
{
    if n > 0 {
        lemma_moved_lines_only_moving(board, d, n - 1);
        let prev = moved_lines_upto(board, d, n - 1);
        let cur = moved_lines_upto(board, d, n);
        assert forall|i: int| 0 <= i < cur.len() implies line_moves(
            line_of(board, d, #[trigger] cur[i] as int),
        ) by {
            if i < prev.len() {
                assert(cur[i] == prev[i]);
            }
        }
    }
}

/// The lines that move are among the first `n`.
pub proof fn lemma_moved_lines_below(board: Board, d: Direction, n: int)
    requires
        n <= 4,
    ensures
        forall|j: int|
            0 <= j < moved_lines_upto(board, d, n).len() ==> #[trigger] moved_lines_upto(
                board,
                d,
                n,
            )[j] < n,
        moved_lines_upto(board, d, n).len() <= if n < 0 { 0 } else { n },
    decreases n,
{
    if n > 0 {
        lemma_moved_lines_below(board, d, n - 1);
        let prev = moved_lines_upto(board, d, n - 1);
        let cur = moved_lines_upto(board, d, n);
        assert forall|j: int| 0 <= j < cur.len() implies #[trigger] cur[j] < n by {
            if j < prev.len() {
                assert(cur[j] == prev[j]);
            }
        }
    }
}

/// A freshly generated deck of numbers, shuffled, holds only items of its
/// template.
proof fn lemma_shuffled_within_template(before: PseudoList<u32>, after: PseudoList<u32>)
    requires
        clones_of(generated(before.template(), before.multiplier()), before.pool_seq()),
        after.template() == before.template(),
        after.pool_seq().to_multiset() == before.pool_seq().to_multiset(),
    ensures
        pool_within_template(after),
{
    broadcast use vstd::seq_lib::group_to_multiset_ensures;

    let g = generated(before.template(), before.multiplier());
    lemma_clones_of_u32(g, before.pool_seq());
    assert forall|i: int| 0 <= i < after.pool_seq().len() implies after.template().contains(
        #[trigger] after.pool_seq()[i],
    ) by {
        let x = after.pool_seq()[i];
        assert(after.pool_seq().to_multiset().count(x) > 0);
        assert(before.pool_seq().contains(x));
        let k = choose|k: int| 0 <= k < before.pool_seq().len() && before.pool_seq()[k] == x;
        lemma_generated_items(before.template(), before.multiplier(), k);
    }
}

/// A shuffle of the positions 0 to 15 holds each of them once.
proof fn lemma_shuffled_positions(ordered: Seq<usize>, shuffled: Seq<usize>)
    requires
        ordered == Seq::new(16, |i: int| i as usize),
        shuffled.to_multiset() == ordered.to_multiset(),
        shuffled.len() == ordered.len(),
    ensures
        shuffled.len() == 16,
        shuffled.no_duplicates(),
        forall|j: int| 0 <= j < 16 ==> #[trigger] shuffled[j] < 16,
{
    broadcast use vstd::seq_lib::group_to_multiset_ensures;

    assert(ordered.no_duplicates());
    ordered.lemma_multiset_has_no_duplicates();
    shuffled.lemma_multiset_has_no_duplicates_conv();
    assert forall|j: int| 0 <= j < 16 implies #[trigger] shuffled[j] < 16 by {
        assert(shuffled.to_multiset().count(shuffled[j]) > 0);
        assert(ordered.contains(shuffled[j]));
    }
}

/// A copy of a vector of plain values.
pub(crate) fn copy_vec<T: Copy>(v: &Vec<T>) -> (c: Vec<T>)
    ensures
        c@ == v@,
{
    let mut c: Vec<T> = Vec::new();
    let mut i: usize = 0;
    while i < v.len()
        invariant
            0 <= i <= v@.len(),
            c@ == v@.take(i as int),
        decreases v@.len() - i,
    {
        c.push(v[i]);
        assert(v@.take(i + 1) =~= v@.take(i as int).push(v@[i as int]));
        i = i + 1;
    }
    assert(v@.take(v@.len() as int) =~= v@);
    c
}

/// A copy of a deck of numbers.
fn copy_deck(d: &PseudoList<u32>) -> (c: PseudoList<u32>)
    ensures
        same_deck(c, *d),
{
    d.copy_numbers()
}

/// Whether `v` is the value of a card: 1, 2, or 3 times a power of two.
pub open spec fn is_card_value(v: u32) -> bool {
    v == 1 || v == 2 || (v >= 3 && value_of_rank(rank_of(v)) == v)
}

/// Two equal cards merge exactly when they are 3 or more: two 1s, or two
/// 2s, never merge.
pub proof fn lemma_equal_cards_merge(x: u32)
    requires
        x != 0,
    ensures
        can_merge(x, x) <==> x >= 3,
{
}

/// A push keeps the sum of the two values, and earns the value it makes,
/// except that 1 and 2 making 3 earn one point and a slide into an empty
/// cell earns nothing.
pub proof fn lemma_merge_gain(target: u32, source: u32)
    requires
        can_merge(target, source),
    ensures
        merged_value(target, source) == target + source,
        target == 0 ==> merge_gain(target, source) == 0,
        target != 0 && merged_value(target, source) == 3 ==> merge_gain(target, source) == 1,
        target != 0 && merged_value(target, source) != 3 ==> merge_gain(target, source)
            == merged_value(target, source),
{
}

proof fn lemma_value_of_next_rank(k: int)
    requires
        k >= 1,
    ensures
        value_of_rank(k + 1) == 2 * value_of_rank(k),
{
    assert(two_pow(k as nat) == 2 * two_pow((k - 1) as nat));
}

/// A push of a card onto a cell leaves a card there: an empty cell takes
/// the card, 1 and 2 make 3, and two equal cards `3 * 2^k` make
/// `3 * 2^(k + 1)`.
pub proof fn lemma_merge_makes_card(target: u32, source: u32)
    requires
        target == 0 || is_card_value(target),
        is_card_value(source),
        can_merge(target, source),
        merged_value(target, source) <= u32::MAX,
    ensures
        is_card_value(merged_value(target, source) as u32),
{
    if target != 0 && target + source != 3 {
        let r = rank_of(target);
        lemma_rank_bounds(target);
        crate::math::lemma_two_pow_32();
        if r == 31 {
            assert(two_pow(31) == 2 * two_pow(30));
            assert(false);
        }
        lemma_value_of_next_rank(r);
        lemma_rank_of_value_of_rank(r + 1);
    }
}

/// A move only makes cards: when every cell of a board is empty or holds a
/// card (1, 2 or 3 times a power of two), so does every cell after a move.
pub proof fn lemma_move_makes_cards(board: Board, d: Direction)
    requires
        move_fits(board, d),
        forall|r: int, c: int|
            0 <= r < 4 && 0 <= c < 4 ==> #[trigger] cell(board, r, c) == 0 || is_card_value(
                cell(board, r, c),
            ),
    ensures
        forall|r: int, c: int|
            0 <= r < 4 && 0 <= c < 4 ==> #[trigger] moved_cell(board, d, r, c) == 0
                || is_card_value(moved_cell(board, d, r, c)),
{
    assert forall|r: int, c: int| 0 <= r < 4 && 0 <= c < 4 implies #[trigger] moved_cell(
        board,
        d,
        r,
        c,
    ) == 0 || is_card_value(moved_cell(board, d, r, c)) by {
        let k = line_index(d, r, c);
        let line = line_of(board, d, k);
        assert(line_fits(line));
        assert forall|j: int| 0 <= j < 4 implies #[trigger] line[j] == 0 || is_card_value(
            line[j],
        ) by {
            assert(line[j] == cell(board, line_row(d, k, j), line_col(d, k, j)));
        }
        let i = first_merge(line);
        if i < 3 {
            lemma_merge_makes_card(line[i], line[i + 1]);
        }
    }
}

/// Where a new card enters after a move: for each line that moved, a cell
/// of the board, in that line, on the side the move came from (column 0
/// after a move right, column 3 after a move left, row 0 after a move
/// down, row 3 after a move up), and empty after the move.
pub proof fn lemma_spawn_position_empty(board: Board, d: Direction, k: usize)
    requires
        moved_lines(board, d).contains(k),
    ensures
        0 <= spawn_position(d, k as int) < 16,
        moved_cell(board, d, spawn_position(d, k as int) / 4, spawn_position(d, k as int) % 4)
            == 0,
        match d {
            Direction::Right => spawn_position(d, k as int) % 4 == 0 && spawn_position(d, k as int)
                / 4 == k,
            Direction::Left => spawn_position(d, k as int) % 4 == 3 && spawn_position(d, k as int)
                / 4 == k,
            Direction::Down => spawn_position(d, k as int) / 4 == 0 && spawn_position(d, k as int)
                % 4 == k,
            Direction::Up => spawn_position(d, k as int) / 4 == 3 && spawn_position(d, k as int)
                % 4 == k,
        },
{
    lemma_spawn_cell_empty(board, d, k);
    let p = spawn_position(d, k as int);
    assert(p / 4 == line_row(d, k as int, 3) && p % 4 == line_col(d, k as int, 3));
}

/// The hint for a bonus card of rank 2 to 12 shows the card itself, after
/// the cards of up to two ranks below it (never below rank 2): smallest
/// first, each twice the one before it.
pub proof fn lemma_hint_shows_card(fv: u32, r: int)
    requires
        2 <= r <= 12,
        fv == value_of_rank(r),
    ensures
        hint_values(fv).len() == (if r < 4 {
            r - 1
        } else {
            3
        }),
        hint_values(fv).last() == fv,
        forall|j: int|
            0 <= j < hint_values(fv).len() ==> #[trigger] hint_values(fv)[j] == value_of_rank(
                r - hint_values(fv).len() + 1 + j,
            ),
        forall|j: int|
            0 < j < hint_values(fv).len() ==> #[trigger] hint_values(fv)[j] == 2 * hint_values(
                fv,
            )[j - 1],
        forall|i: int, j: int|
            0 <= i < j < hint_values(fv).len() ==> hint_values(fv)[i] < hint_values(fv)[j],
{
    lemma_rank_of_value_of_rank(r);
    lemma_two_pow_monotone(1, (r - 1) as nat);
    assert(two_pow(1) == 2) by {
        reveal_with_fuel(two_pow, 2);
    }
    assert(fv > 3);
    let h = hint_values(fv);
    let n = if r < 4 {
        r - 1
    } else {
        3
    };
    assert(deck_rank_of_value(fv) == r);
    assert(h.len() == n);
    assert forall|j: int| 0 <= j < n implies #[trigger] h[j] == value_of_rank(r - n + 1 + j) by {
        lemma_rank_of_value_of_rank(r - n + 1 + j);
    }
    assert forall|j: int| 0 < j < n implies #[trigger] h[j] == 2 * h[j - 1] by {
        lemma_value_of_next_rank(r - n + j);
        assert(h[j - 1] == value_of_rank(r - n + 1 + (j - 1)));
        assert(h[j] == value_of_rank(r - n + 1 + j));
    }
    assert(h[n - 1] == value_of_rank(r - n + 1 + (n - 1)));
    assert forall|i: int, j: int| 0 <= i < j < n implies h[i] < h[j] by {
        lemma_rank_of_value_of_rank(r - n + 1 + i);
        assert(h[i] == value_of_rank(r - n + 1 + i));
        assert(h[i] > 0);
        if j == i + 1 {
            assert(h[j] == 2 * h[j - 1]);
        } else {
            assert(h[i + 1] == 2 * h[i]);
            assert(h[j] == 2 * h[j - 1]);
        }
    }
}

/// After the 21st move, when the bonus deck deals its bonus card and the
/// highest card on the board has rank 5 or more, the next card is a bonus
/// card and the basic deck is not drawn: at rank 5 or 6 it is the card
/// three ranks below the highest, from rank 7 on a card of a rank from 4
/// to three below the highest.
pub proof fn lemma_bonus_card_follows_highest(
    board: Board,
    num_move: u32,
    numbers: PseudoList<u32>,
    special: PseudoList<u32>,
    numbers2: PseudoList<u32>,
    special2: PseudoList<u32>,
    drawn: Option<u32>,
    v: u32,
)
    requires
        next_value_rule(board, num_move, numbers, special, numbers2, special2, drawn, v),
        num_move > 21,
        special.pool_seq().len() > 0,
        special.pool_seq().last() == 1,
        highest_rank(board) >= 5,
    ensures
        drawn == Some(1u32),
        special2.pool_seq() == special.pool_seq().drop_last(),
        numbers2 == numbers,
        highest_rank(board) <= 6 ==> v == value_of_rank(highest_rank(board) - 3),
        highest_rank(board) >= 7 ==> exists|k: int|
            4 <= k <= highest_rank(board) - 3 && v == #[trigger] value_of_rank(k),
{
}

impl Clone for Game {
    fn clone(&self) -> (g: Self)
        ensures
            g.board == self.board,
            g.score == self.score,
            g.is_afterstate == self.is_afterstate,
            g.possible_spawn_positions@ == self.possible_spawn_positions@,
            g.num_move == self.num_move,
            same_deck(g.numbers, self.numbers),
            same_deck(g.special, self.special),
            g.future_value == self.future_value,
            g.hints@ == self.hints@,
            g.deck_tracker == self.deck_tracker,
            g.predicted_future_distribution@ == self.predicted_future_distribution@,
    {
        Game {
            board: self.board,
            score: self.score,
            is_afterstate: self.is_afterstate,
            possible_spawn_positions: copy_vec(&self.possible_spawn_positions),
            num_move: self.num_move,
            numbers: copy_deck(&self.numbers),
            special: copy_deck(&self.special),
            future_value: self.future_value,
            hints: copy_vec(&self.hints),
            deck_tracker: self.deck_tracker.clone(),
            predicted_future_distribution: copy_vec(&self.predicted_future_distribution),
        }
    }
}

} // verus!
