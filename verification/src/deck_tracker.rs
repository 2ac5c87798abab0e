use vstd::prelude::*;
use crate::math::{lemma_two_pow_32, lemma_two_pow_monotone, two_pow};
use crate::threes_const::K_SPECIAL_DEMOTION;
use crate::tile::value_of_rank;

verus! {

/// The value of a card of rank `rank`: 0 for rank 0, else `3 * 2^(rank - 1)`.
pub open spec fn deck_value_of_rank(rank: u32) -> int {
    if rank == 0 {
        0
    } else {
        value_of_rank(rank as int)
    }
}

/// The rank of a card value in the deck's own numbering: 0 for 0, 1 and 2;
/// `log2(value / 3) + 1` from 3 on.
pub open spec fn deck_rank_of_value(value: u32) -> int {
    if value <= 2 {
        0
    } else {
        crate::tile::rank_of(value)
    }
}

/// The value of a card of rank `rank` (0 for rank 0), for ranks up to 31.
pub fn get_value_from_rank(rank: u32) -> (v: u32)
    requires
        rank <= 31,
    ensures
        v == deck_value_of_rank(rank),
{
    if rank == 0 {
        return 0;
    }
    proof {
        lemma_two_pow_32();
        lemma_two_pow_monotone((rank - 1) as nat, 30);
    }
    let sh: u32 = rank - 1;
    let p: u32 = 1u32 << sh;
    proof {
        lemma_shift_is_two_pow(sh);
    }
    3 * p
}

proof fn lemma_shift_is_two_pow(sh: u32)
    requires
        sh <= 30,
    ensures
        (1u32 << sh) == two_pow(sh as nat),
    decreases sh,
{
    if sh == 0 {
        assert((1u32 << 0u32) == 1u32) by (bit_vector);
    } else {
        lemma_shift_is_two_pow((sh - 1) as u32);
        let s1: u32 = (sh - 1) as u32;
        assert((1u32 << sh) == 2 * (1u32 << s1)) by (bit_vector)
            requires
                1 <= sh <= 30,
                s1 == sh - 1,
        ;
    }
}

/// The rank of a card value (see [`deck_rank_of_value`]).
pub fn get_rank_from_value(value: u32) -> (r: u32)
    ensures
        r == deck_rank_of_value(value),
{
    if value <= 2 {
        return 0;
    }
    crate::tile::get_rank_from_value(value) as u32
}

/// An exact probability `numerator / denominator`.
#[derive(Copy, Clone, Debug, PartialEq, Eq, Structural)]
pub struct Chance {
    pub numerator: u64,
    pub denominator: u64,
}

/// Follows the two decks that the game draws its next card from: the basic
/// deck of twelve cards (four each of 1, 2 and 3) and, after the 21st move, a
/// cycle of 21 draws that holds at most one bonus card.
pub struct DeckTracker {
    basic_counts: [u8; 4],
    total_basic_remaining: u8,
    moves_since_start: u32,
    bonus_cycle_pos: u8,
    has_bonus_in_cycle: bool,
}

impl Clone for DeckTracker {
    fn clone(&self) -> (c: Self)
        ensures
            c == *self,
    {
        Self {
            basic_counts: self.basic_counts,
            total_basic_remaining: self.total_basic_remaining,
            moves_since_start: self.moves_since_start,
            bonus_cycle_pos: self.bonus_cycle_pos,
            has_bonus_in_cycle: self.has_bonus_in_cycle,
        }
    }
}

/// The first rank a bonus card may take, below which no bonus card is dealt.
pub open spec fn demoted_num(max_tile_rank: u32) -> int {
    if max_tile_rank >= 3 {
        max_tile_rank - 3
    } else {
        0
    }
}

/// How many anchor ranks a bonus draw picks from.
pub open spec fn anchor_count(num: int) -> int {
    if num < 4 {
        1
    } else {
        num - 3
    }
}

/// The share, out of `6 * anchor_count(num)`, of a bonus draw that ends on
/// rank `r`: each anchor rank `a` is equally likely and spreads evenly over
/// the ranks from `max(2, a - 2)` to `a`.
pub open spec fn bonus_share(num: int, r: int) -> int {
    if num == 2 {
        if r == 2 {
            6
        } else {
            0
        }
    } else if num == 3 {
        if r == 2 || r == 3 {
            3
        } else {
            0
        }
    } else if num >= 4 && 2 <= r <= num {
        2 * ((if num < r + 2 {
            num
        } else {
            r + 2
        }) - (if r < 4 {
            4
        } else {
            r
        }) + 1)
    } else {
        0
    }
}

/// The sum of the numerators of a list of weighted values.
pub open spec fn numerator_sum(s: Seq<(u32, int)>) -> int
    decreases s.len(),
{
    if s.len() == 0 {
        0
    } else {
        numerator_sum(s.drop_last()) + s.last().1
    }
}

/// The bonus part of a forecast: ranks 2 to `num`, each with its weight.
pub open spec fn bonus_entries(num: int, scale: int) -> Seq<(u32, int)> {
    Seq::new(
        (num - 1) as nat,
        |i: int| ((value_of_rank(i + 2)) as u32, scale * bonus_share(num, i + 2)),
    )
}

/// The basic part of a forecast: the values 1, 2, 3 with a positive weight.
pub open spec fn basic_entries(w1: int, w2: int, w3: int) -> Seq<(u32, int)> {
    (if w1 > 0 {
        seq![(1u32, w1)]
    } else {
        Seq::empty()
    }) + (if w2 > 0 {
        seq![(2u32, w2)]
    } else {
        Seq::empty()
    }) + (if w3 > 0 {
        seq![(3u32, w3)]
    } else {
        Seq::empty()
    })
}

impl DeckTracker {
    /// How many cards of value `v` (1, 2 or 3) are left in the basic deck.
    pub closed spec fn count(self, v: int) -> int {
        self.basic_counts[v] as int
    }

    /// How many cards are left in the basic deck.
    pub closed spec fn total(self) -> int {
        self.total_basic_remaining as int
    }

    /// How many draws have been recorded.
    pub closed spec fn moves(self) -> int {
        self.moves_since_start as int
    }

    /// The position in the current bonus cycle (0 before the first cycle).
    pub closed spec fn cycle_pos(self) -> int {
        self.bonus_cycle_pos as int
    }

    /// Whether the bonus card of the current cycle has been drawn.
    pub closed spec fn has_bonus(self) -> bool {
        self.has_bonus_in_cycle
    }

    /// The tracker's invariant: the basic deck holds at most four of each
    /// card and at least one card in all, and the bonus cycle has begun
    /// exactly when more than 21 draws have been recorded.
    pub open spec fn wf(self) -> bool {
        &&& self.count(0) == 0
        &&& 0 <= self.count(1) <= 4
        &&& 0 <= self.count(2) <= 4
        &&& 0 <= self.count(3) <= 4
        &&& self.total() == self.count(1) + self.count(2) + self.count(3)
        &&& 1 <= self.total() <= 12
        &&& 0 <= self.cycle_pos() <= 21
        &&& self.moves() <= 21 ==> self.cycle_pos() == 0 && !self.has_bonus()
        &&& self.moves() > 21 ==> self.cycle_pos() >= 1
    }

    /// Whether the next draw may come from the bonus deck, given the rank of
    /// the highest card on the board.
    pub open spec fn bonus_slot_open(self, max_tile_rank: u32) -> bool {
        self.moves() > 21 && !self.has_bonus() && demoted_num(max_tile_rank) >= 2
    }

    /// The denominator of every probability in the forecast.
    pub open spec fn forecast_denominator(self, max_tile_rank: u32) -> int {
        if self.bonus_slot_open(max_tile_rank) {
            self.total() * (22 - self.cycle_pos()) * 6 * anchor_count(
                demoted_num(max_tile_rank),
            )
        } else {
            self.total()
        }
    }

    /// The factor by which the basic deck's counts are scaled in a forecast:
    /// the share of the draws that the basic deck serves.
    pub open spec fn basic_factor(self, max_tile_rank: u32) -> int {
        if self.bonus_slot_open(max_tile_rank) {
            (21 - self.cycle_pos()) * 6 * anchor_count(demoted_num(max_tile_rank))
        } else {
            1
        }
    }

    /// The weight that the basic deck gives to the value `v` (1, 2 or 3).
    pub open spec fn basic_weight(self, max_tile_rank: u32, v: int) -> int {
        self.count(v) * self.basic_factor(max_tile_rank)
    }

    /// Every value that the next draw may take, with its probability's
    /// numerator over [`Self::forecast_denominator`]: first the basic values
    /// 1, 2, 3 that can still come, then the bonus values by rising rank.
    pub open spec fn forecast(self, max_tile_rank: u32) -> Seq<(u32, int)> {
        basic_entries(
            self.basic_weight(max_tile_rank, 1),
            self.basic_weight(max_tile_rank, 2),
            self.basic_weight(max_tile_rank, 3),
        ) + if self.bonus_slot_open(max_tile_rank) {
            bonus_entries(demoted_num(max_tile_rank), self.total())
        } else {
            Seq::empty()
        }
    }

    /// What recording a dealt card `v` does to the tracker: one more draw;
    /// the basic deck loses the card if it still holds one and is refilled
    /// when it runs out; once more than 21 cards were dealt, the bonus cycle
    /// advances, notes a card of 6 or more as its bonus card, and starts over
    /// after 21 draws.
    pub open spec fn records(prev: Self, next: Self, v: u32) -> bool {
        let taken = v <= 3 && prev.count(v as int) > 0;
        let pos = if prev.cycle_pos() == 0 {
            1
        } else {
            prev.cycle_pos() + 1
        };
        let seen = (prev.cycle_pos() != 0 && prev.has_bonus()) || v >= 6;
        &&& next.moves() == prev.moves() + 1
        &&& taken && prev.total() == 1 ==> {
            &&& next.count(1) == 4 && next.count(2) == 4 && next.count(3) == 4
            &&& next.total() == 12
        }
        &&& taken && prev.total() > 1 ==> {
            &&& next.total() == prev.total() - 1
            &&& forall|w: int|
                1 <= w <= 3 ==> #[trigger] next.count(w) == prev.count(w) - (if w == v {
                    1int
                } else {
                    0int
                })
        }
        &&& !taken ==> {
            &&& next.total() == prev.total()
            &&& forall|w: int| 1 <= w <= 3 ==> #[trigger] next.count(w) == prev.count(w)
        }
        &&& next.moves() <= 21 ==> next.cycle_pos() == 0 && !next.has_bonus()
        &&& next.moves() > 21 ==> {
            &&& pos > 21 ==> next.cycle_pos() == 1 && !next.has_bonus()
            &&& pos <= 21 ==> next.cycle_pos() == pos && next.has_bonus() == seen
        }
    }

    /// A tracker that has recorded nothing: a full basic deck and no bonus
    /// cycle yet.
    pub open spec fn fresh(self) -> bool {
        &&& self.wf()
        &&& self.count(1) == 4 && self.count(2) == 4 && self.count(3) == 4
        &&& self.total() == 12
        &&& self.moves() == 0
        &&& self.cycle_pos() == 0
        &&& !self.has_bonus()
    }

    pub fn new() -> (t: Self)
        ensures
            t.fresh(),
            t.wf(),
            t.count(1) == 4 && t.count(2) == 4 && t.count(3) == 4,
            t.total() == 12,
            t.moves() == 0,
            t.cycle_pos() == 0,
            !t.has_bonus(),
    {
        Self {
            basic_counts: [0, 4, 4, 4],
            total_basic_remaining: 12,
            moves_since_start: 0,
            bonus_cycle_pos: 0,
            has_bonus_in_cycle: false,
        }
    }

    /// How many dealt cards have been recorded.
    pub fn moves_recorded(&self) -> (m: u32)
        ensures
            m == self.moves(),
    {
        self.moves_since_start
    }

    /// Records that a card of value `spawned_value` was dealt.
    pub fn update(&mut self, spawned_value: u32)
        requires
            old(self).wf(),
            old(self).moves() < u32::MAX,
        ensures
            final(self).wf(),
            Self::records(*old(self), *final(self), spawned_value),
    {
        let moves = self.moves_since_start + 1;
        let mut counts = self.basic_counts;
        let mut total = self.total_basic_remaining;
        if spawned_value <= 3 {
            let idx = spawned_value as usize;
            if counts[idx] > 0 {
                counts[idx] = counts[idx] - 1;
                total = total - 1;
            }
            if total == 0 {
                counts = [0, 4, 4, 4];
                total = 12;
            }
        }
        let mut pos = self.bonus_cycle_pos;
        let mut has = self.has_bonus_in_cycle;
        if moves > 21 {
            if pos == 0 {
                pos = 1;
                has = false;
            } else {
                pos = pos + 1;
            }
            if spawned_value >= 6 {
                has = true;
            }
            if pos > 21 {
                pos = 1;
                has = false;
            }
        }
        self.basic_counts = counts;
        self.total_basic_remaining = total;
        self.moves_since_start = moves;
        self.bonus_cycle_pos = pos;
        self.has_bonus_in_cycle = has;
    }

    /// Predicts the next card: every value it may take with its exact
    /// probability, given the rank of the highest card on the board.
    pub fn predict_future(&self, max_tile_rank: u32) -> (out: Vec<(u32, Chance)>)
        requires
            self.wf(),
            self.bonus_slot_open(max_tile_rank) ==> max_tile_rank <= 34,
        ensures
            weighted_view(out@) == self.forecast(max_tile_rank),
            forall|i: int|
                0 <= i < out@.len() ==> #[trigger] out@[i].1.denominator
                    == self.forecast_denominator(max_tile_rank),
    {
        let num: u32 = if max_tile_rank >= K_SPECIAL_DEMOTION {
            max_tile_rank - K_SPECIAL_DEMOTION
        } else {
            0
        };
        let open = self.moves_since_start > 21 && !self.has_bonus_in_cycle && num >= 2;
        let total = self.total_basic_remaining as u64;
        assert(open == self.bonus_slot_open(max_tile_rank));
        assert(open ==> num <= 31);
        let anchors: u64 = if num < 4 {
            1
        } else {
            (num - 3) as u64
        };
        let den: u64;
        let basic_factor: u64;
        if open {
            let slots = (22 - self.bonus_cycle_pos) as u64;
            assert(total * slots <= 12 * 22) by (nonlinear_arith)
                requires
                    total <= 12,
                    slots <= 22,
            ;
            let a = total * slots;
            let b = a * 6;
            assert(b * anchors <= 12 * 22 * 6 * 28) by (nonlinear_arith)
                requires
                    b <= 12 * 22 * 6,
                    anchors <= 28,
            ;
            den = b * anchors;
            let c = (slots - 1) * 6;
            assert(c * anchors <= 22 * 6 * 28) by (nonlinear_arith)
                requires
                    c <= 22 * 6,
                    anchors <= 28,
            ;
            basic_factor = c * anchors;
        } else {
            den = total;
            basic_factor = 1;
        }
        assert(den == self.forecast_denominator(max_tile_rank));
        let mut out: Vec<(u32, Chance)> = Vec::new();
        assert(basic_factor <= 22 * 6 * 28);
        let c1 = self.basic_counts[1] as u64;
        let c2 = self.basic_counts[2] as u64;
        let c3 = self.basic_counts[3] as u64;
        assert(c1 * basic_factor <= 4 * 22 * 6 * 28 && c2 * basic_factor <= 4 * 22 * 6 * 28 && c3
            * basic_factor <= 4 * 22 * 6 * 28) by (nonlinear_arith)
            requires
                basic_factor <= 22 * 6 * 28,
                c1 <= 4,
                c2 <= 4,
                c3 <= 4,
        ;
        let w1 = c1 * basic_factor;
        let w2 = c2 * basic_factor;
        let w3 = c3 * basic_factor;
        assert(w1 == self.basic_weight(max_tile_rank, 1));
        assert(w2 == self.basic_weight(max_tile_rank, 2));
        assert(w3 == self.basic_weight(max_tile_rank, 3));
        if w1 > 0 {
            out.push((1, Chance { numerator: w1, denominator: den }));
        }
        let ghost s1 = out@;
        if w2 > 0 {
            out.push((2, Chance { numerator: w2, denominator: den }));
        }
        let ghost s2 = out@;
        if w3 > 0 {
            out.push((3, Chance { numerator: w3, denominator: den }));
        }
        let ghost basic = basic_entries(w1 as int, w2 as int, w3 as int);
        assert(weighted_view(out@) =~= basic);
        if open {
            let ghost bonus = bonus_entries(num as int, total as int);
            let mut r: u32 = 2;
            while r <= num
                invariant
                    2 <= r <= num + 1,
                    num <= 31,
                    total <= 12,
                    num == demoted_num(max_tile_rank),
                    bonus == bonus_entries(num as int, total as int),
                    weighted_view(out@) =~= basic + bonus.take(r - 2),
                    forall|i: int|
                        0 <= i < out@.len() ==> #[trigger] out@[i].1.denominator == den,
                decreases num + 1 - r,
            {
                let share = bonus_share_of(num, r);
                let v = get_value_from_rank(r);
                assert(total * share <= 12 * 6) by (nonlinear_arith)
                    requires
                        total <= 12,
                        share <= 6,
                ;
                let ghost prev = out@;
                let numer = total * share;
                out.push((v, Chance { numerator: numer, denominator: den }));
                proof {
                    assert(out@ == prev.push((v, Chance { numerator: numer, denominator: den })));
                    assert(weighted_view(out@) =~= weighted_view(prev).push((v, numer as int)));
                    assert(bonus[r - 2] == (v, numer as int));
                    assert(bonus.take(r - 1) =~= bonus.take(r - 2).push(bonus[r - 2]));
                    assert(weighted_view(out@) =~= basic + bonus.take(r - 1));
                }
                r = r + 1;
            }
            assert(bonus.take(num - 1) =~= bonus);
        }
        out
    }
}

/// The values and numerators of a forecast.
pub open spec fn weighted_view(s: Seq<(u32, Chance)>) -> Seq<(u32, int)> {
    s.map_values(|e: (u32, Chance)| (e.0, e.1.numerator as int))
}

fn bonus_share_of(num: u32, r: u32) -> (s: u64)
    requires
        2 <= num <= 31,
        2 <= r <= num,
    ensures
        s == bonus_share(num as int, r as int),
        s <= 6,
{
    if num == 2 {
        6
    } else if num == 3 {
        3
    } else {
        let hi = if num < r + 2 {
            num
        } else {
            r + 2
        };
        let lo = if r < 4 {
            4
        } else {
            r
        };
        2 * ((hi - lo + 1) as u64)
    }
}


/// `numerator_sum` adds up over a concatenation.
pub proof fn lemma_numerator_sum_append(a: Seq<(u32, int)>, b: Seq<(u32, int)>)
    ensures
        numerator_sum(a + b) == numerator_sum(a) + numerator_sum(b),
    decreases b.len(),
{
    if b.len() == 0 {
        assert(a + b =~= a);
    } else {
        lemma_numerator_sum_append(a, b.drop_last());
        assert((a + b).drop_last() =~= a + b.drop_last());
    }
}

/// The sum of the bonus shares of the ranks 2 to `k`.
pub open spec fn share_sum(num: int, k: int) -> int
    decreases k,
{
    if k < 2 {
        0
    } else {
        share_sum(num, k - 1) + bonus_share(num, k)
    }
}

proof fn lemma_bonus_prefix_sum(num: int, scale: int, j: int)
    requires
        2 <= num,
        0 <= j <= num - 1,
    ensures
        numerator_sum(bonus_entries(num, scale).take(j)) == scale * share_sum(num, j + 1),
    decreases j,
{
    let b = bonus_entries(num, scale);
    if j == 0 {
        assert(b.take(0) =~= Seq::<(u32, int)>::empty());
        assert(share_sum(num, 1) == 0);
    } else {
        lemma_bonus_prefix_sum(num, scale, j - 1);
        assert(b.take(j).drop_last() =~= b.take(j - 1));
        assert(b.take(j).last() == b[j - 1]);
        let x = share_sum(num, j);
        let y = bonus_share(num, j + 1);
        assert(scale * x + scale * y == scale * (x + y)) by (nonlinear_arith);
    }
}

proof fn lemma_share_sum_step(n: int, k: int)
    requires
        n >= 4,
        k <= n + 1,
    ensures
        share_sum(n + 1, k) == share_sum(n, k) + (if k < n - 1 {
            0
        } else {
            2 * (k - (n - 1) + 1)
        }),
    decreases k,
{
    if k >= 2 {
        lemma_share_sum_step(n, k - 1);
    }
}

proof fn lemma_share_sum_total(num: int)
    requires
        num >= 2,
    ensures
        share_sum(num, num) == 6 * anchor_count(num),
    decreases num,
{
    if num <= 4 {
        reveal_with_fuel(share_sum, 5);
    } else {
        lemma_share_sum_total(num - 1);
        lemma_share_sum_step(num - 1, num);
        assert(share_sum(num - 1, num) == share_sum(num - 1, num - 1));
    }
}

proof fn lemma_basic_entries_sum(w1: int, w2: int, w3: int)
    requires
        w1 >= 0,
        w2 >= 0,
        w3 >= 0,
    ensures
        numerator_sum(basic_entries(w1, w2, w3)) == w1 + w2 + w3,
{
    let a = if w1 > 0 {
        seq![(1u32, w1)]
    } else {
        Seq::<(u32, int)>::empty()
    };
    let b = if w2 > 0 {
        seq![(2u32, w2)]
    } else {
        Seq::<(u32, int)>::empty()
    };
    let c = if w3 > 0 {
        seq![(3u32, w3)]
    } else {
        Seq::<(u32, int)>::empty()
    };
    lemma_numerator_sum_append(a + b, c);
    lemma_numerator_sum_append(a, b);
    assert(numerator_sum(a) == if w1 > 0 { w1 } else { 0 }) by {
        if w1 > 0 {
            reveal_with_fuel(numerator_sum, 2);
            assert(a.drop_last() =~= Seq::<(u32, int)>::empty());
        }
    }
    assert(numerator_sum(b) == if w2 > 0 { w2 } else { 0 }) by {
        if w2 > 0 {
            reveal_with_fuel(numerator_sum, 2);
            assert(b.drop_last() =~= Seq::<(u32, int)>::empty());
        }
    }
    assert(numerator_sum(c) == if w3 > 0 { w3 } else { 0 }) by {
        if w3 > 0 {
            reveal_with_fuel(numerator_sum, 2);
            assert(c.drop_last() =~= Seq::<(u32, int)>::empty());
        }
    }
}

/// The forecast of the next card is a probability distribution: the
/// numerators of its values add up to its denominator, and every value it
/// lists has a positive probability.
pub proof fn lemma_forecast_is_distribution(t: DeckTracker, max_tile_rank: u32)
    requires
        t.wf(),
    ensures
        numerator_sum(t.forecast(max_tile_rank)) == t.forecast_denominator(max_tile_rank),
        forall|i: int|
            0 <= i < t.forecast(max_tile_rank).len() ==> #[trigger] t.forecast(
                max_tile_rank,
            )[i].1 > 0,
        t.forecast_denominator(max_tile_rank) > 0,
{
    let f = t.basic_factor(max_tile_rank);
    let num = demoted_num(max_tile_rank);
    let open = t.bonus_slot_open(max_tile_rank);
    assert(f >= 0) by {
        if open {
            assert((21 - t.cycle_pos()) * 6 * anchor_count(num) >= 0) by (nonlinear_arith)
                requires
                    21 - t.cycle_pos() >= 0,
                    anchor_count(num) >= 1,
            ;
        }
    }
    let c1 = t.count(1);
    let c2 = t.count(2);
    let c3 = t.count(3);
    assert(c1 * f >= 0 && c2 * f >= 0 && c3 * f >= 0) by (nonlinear_arith)
        requires
            c1 >= 0,
            c2 >= 0,
            c3 >= 0,
            f >= 0,
    ;
    assert(c1 * f + c2 * f + c3 * f == (c1 + c2 + c3) * f) by (nonlinear_arith);
    let basic = basic_entries(c1 * f, c2 * f, c3 * f);
    lemma_basic_entries_sum(c1 * f, c2 * f, c3 * f);
    let tot = t.total();
    if open {
        let bonus = bonus_entries(num, tot);
        lemma_numerator_sum_append(basic, bonus);
        lemma_bonus_prefix_sum(num, tot, num - 1);
        assert(bonus.take(num - 1) =~= bonus);
        lemma_share_sum_total(num);
        let l = anchor_count(num);
        let p = t.cycle_pos();
        assert(tot * ((21 - p) * 6 * l) + tot * (6 * l) == tot * (22 - p) * 6 * l)
            by (nonlinear_arith);
        assert(tot * (22 - p) * 6 * l > 0) by (nonlinear_arith)
            requires
                tot >= 1,
                22 - p >= 1,
                l >= 1,
        ;
        assert forall|i: int| 0 <= i < bonus.len() implies #[trigger] bonus[i].1 > 0 by {
            let r = i + 2;
            assert(bonus_share(num, r) > 0);
            assert(tot * bonus_share(num, r) > 0) by (nonlinear_arith)
                requires
                    tot >= 1,
                    bonus_share(num, r) > 0,
            ;
        }
        assert(t.forecast(max_tile_rank) == basic + bonus);
    } else {
        assert(t.forecast(max_tile_rank) =~= basic);
    }
}

/// The part of a forecast's numerators that falls on bonus cards (values of
/// 6 and up).
pub open spec fn bonus_numerator_sum(s: Seq<(u32, int)>) -> int
    decreases s.len(),
{
    if s.len() == 0 {
        0
    } else {
        bonus_numerator_sum(s.drop_last()) + if s.last().0 >= 6 {
            s.last().1
        } else {
            0
        }
    }
}

proof fn lemma_bonus_numerator_sum_append(a: Seq<(u32, int)>, b: Seq<(u32, int)>)
    ensures
        bonus_numerator_sum(a + b) == bonus_numerator_sum(a) + bonus_numerator_sum(b),
    decreases b.len(),
{
    if b.len() == 0 {
        assert(a + b =~= a);
    } else {
        lemma_bonus_numerator_sum_append(a, b.drop_last());
        assert((a + b).drop_last() =~= a + b.drop_last());
    }
}

proof fn lemma_bonus_numerator_sum_none(s: Seq<(u32, int)>)
    requires
        forall|i: int| 0 <= i < s.len() ==> #[trigger] s[i].0 < 6,
    ensures
        bonus_numerator_sum(s) == 0,
    decreases s.len(),
{
    if s.len() > 0 {
        let t = s.drop_last();
        assert forall|i: int| 0 <= i < t.len() implies #[trigger] t[i].0 < 6 by {
            assert(t[i] == s[i]);
        }
        lemma_bonus_numerator_sum_none(t);
    }
}

proof fn lemma_bonus_numerator_sum_all(s: Seq<(u32, int)>)
    requires
        forall|i: int| 0 <= i < s.len() ==> #[trigger] s[i].0 >= 6,
    ensures
        bonus_numerator_sum(s) == numerator_sum(s),
    decreases s.len(),
{
    if s.len() > 0 {
        let t = s.drop_last();
        assert forall|i: int| 0 <= i < t.len() implies #[trigger] t[i].0 >= 6 by {
            assert(t[i] == s[i]);
        }
        lemma_bonus_numerator_sum_all(t);
    }
}

/// After more than 21 draws, while the current cycle has not dealt its
/// bonus card and the highest card on the board has rank 5 or more, the
/// next card is a bonus card (6 or more) with probability
/// `1 / (22 - cycle_pos)`: the bonus card takes one of the draws left in
/// the cycle. Otherwise the forecast gives no bonus card any chance.
pub proof fn lemma_bonus_chance(t: DeckTracker, max_tile_rank: u32)
    requires
        t.wf(),
        max_tile_rank <= 34,
    ensures
        t.moves() > 21 && !t.has_bonus() && max_tile_rank >= 5 ==> bonus_numerator_sum(
            t.forecast(max_tile_rank),
        ) * (22 - t.cycle_pos()) == t.forecast_denominator(max_tile_rank),
        !(t.moves() > 21 && !t.has_bonus() && max_tile_rank >= 5) ==> bonus_numerator_sum(
            t.forecast(max_tile_rank),
        ) == 0,
{
    let basic = basic_entries(
        t.basic_weight(max_tile_rank, 1),
        t.basic_weight(max_tile_rank, 2),
        t.basic_weight(max_tile_rank, 3),
    );
    assert forall|i: int| 0 <= i < basic.len() implies #[trigger] basic[i].0 < 6 by {
    }
    lemma_bonus_numerator_sum_none(basic);
    let num = demoted_num(max_tile_rank);
    if t.bonus_slot_open(max_tile_rank) {
        let tot = t.total();
        let bonus = bonus_entries(num, tot);
        assert forall|i: int| 0 <= i < bonus.len() implies #[trigger] bonus[i].0 >= 6 by {
            let r = i + 2;
            crate::tile::lemma_rank_of_value_of_rank(r);
            lemma_two_pow_monotone(1, (r - 1) as nat);
            assert(two_pow(1) == 2) by {
                reveal_with_fuel(two_pow, 2);
            }
        }
        lemma_bonus_numerator_sum_all(bonus);
        lemma_bonus_numerator_sum_append(basic, bonus);
        assert(t.forecast(max_tile_rank) == basic + bonus);
        lemma_bonus_prefix_sum(num, tot, num - 1);
        assert(bonus.take(num - 1) =~= bonus);
        lemma_share_sum_total(num);
        let l = anchor_count(num);
        let p = t.cycle_pos();
        assert(tot * (6 * l) * (22 - p) == tot * (22 - p) * 6 * l) by (nonlinear_arith);
    } else {
        assert(t.forecast(max_tile_rank) =~= basic);
    }
}

} // verus!
