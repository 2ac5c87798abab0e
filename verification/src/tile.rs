use vstd::prelude::*;
use crate::math::{
    floor_log2, ilog2_u32, lemma_floor_log2_le, lemma_two_pow_32, lemma_two_pow_monotone, two_pow,
};

verus! {

/// The rank of a card of the given value: 0 for an empty cell, 21 and 22 for
/// the basic cards 1 and 2, and `log2(value / 3) + 1` for 3, 6, 12, ...
pub open spec fn rank_of(value: u32) -> int {
    if value == 0 {
        0
    } else if value == 1 {
        21
    } else if value == 2 {
        22
    } else {
        (floor_log2((value / 3) as nat) + 1) as int
    }
}

/// The value of a card of rank `rank` (rank >= 1): `3 * 2^(rank - 1)`.
pub open spec fn value_of_rank(rank: int) -> int {
    (3 * two_pow((rank - 1) as nat)) as int
}

/// Cards of 3 and more have ranks 1 to 31.
pub proof fn lemma_rank_bounds(value: u32)
    requires
        value >= 3,
    ensures
        1 <= rank_of(value) <= 31,
{
    lemma_two_pow_32();
    lemma_floor_log2_le((value / 3) as nat, 30);
}

/// Ranks and values match: the card of rank `r` (1 to 31) has rank `r`.
pub proof fn lemma_rank_of_value_of_rank(r: int)
    requires
        1 <= r <= 31,
    ensures
        0 < value_of_rank(r) <= u32::MAX,
        rank_of(value_of_rank(r) as u32) == r,
{
    let e = (r - 1) as nat;
    lemma_two_pow_32();
    lemma_two_pow_monotone(e, 30);
    crate::math::lemma_two_pow_positive(e);
    let v = value_of_rank(r) as u32;
    assert(v / 3 == two_pow(e));
    crate::math::lemma_floor_log2_unique(two_pow(e), e);
}

/// A cell of the board; value 0 is an empty cell.
#[derive(Copy, Clone, Debug, PartialEq, Eq, Structural, Default)]
pub struct Tile {
    pub value: u32,
}

impl Tile {
    /// Creates a new Tile with a given value.
    pub fn new(value: u32) -> (t: Self)
        ensures
            t.value == value,
    {
        Self { value }
    }

    /// Returns the rank of the tile: 0 for empty, 21 for 1, 22 for 2,
    /// 1 for 3, 2 for 6, 3 for 12, ...
    pub fn rank(&self) -> (r: u8)
        ensures
            r == rank_of(self.value),
    {
        get_rank_from_value(self.value)
    }

    /// Checks if the tile is empty (value 0).
    pub fn is_empty(&self) -> (b: bool)
        ensures
            b == (self.value == 0),
    {
        self.value == 0
    }
}

/// The rank of a card value (see [`rank_of`]).
pub fn get_rank_from_value(value: u32) -> (r: u8)
    ensures
        r == rank_of(value),
{
    if value == 0 {
        0
    } else if value == 1 {
        21
    } else if value == 2 {
        22
    } else {
        let l = ilog2_u32(value / 3);
        (l as u8) + 1
    }
}

/// The value of a card of rank `rank`, for ranks 1 to 31.
pub fn get_value_from_rank(rank: u32) -> (v: u32)
    requires
        1 <= rank <= 31,
    ensures
        v == value_of_rank(rank as int),
{
    let mut p: u32 = 1;
    let mut i: u32 = 1;
    proof {
        lemma_two_pow_32();
        lemma_two_pow_monotone((rank - 1) as nat, 30);
        reveal_with_fuel(two_pow, 32);
    }
    while i < rank
        invariant
            1 <= i <= rank <= 31,
            p == two_pow((i - 1) as nat),
            two_pow((rank - 1) as nat) <= 0x4000_0000,
        decreases rank - i,
    {
        proof {
            lemma_two_pow_monotone(i as nat, (rank - 1) as nat);
        }
        p = p * 2;
        i = i + 1;
    }
    3 * p
}

} // verus!
