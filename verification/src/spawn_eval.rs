use vstd::prelude::*;
use std::collections::HashMap;
pub use crate::deck_tracker::{get_rank_from_value, get_value_from_rank};
use crate::deck_tracker::deck_rank_of_value;
use crate::random::random_range_u32;
use crate::threes_const::K_SPECIAL_DEMOTION;
use crate::tile::{lemma_rank_bounds, value_of_rank};

verus! {

/// The lowest rank a bonus card of rank `rank` may be demoted to:
/// `max(2, rank - 3 + 1)`.
pub open spec fn lowest_spawn_rank(rank: int) -> int {
    let demoted = if rank >= 3 {
        rank - 3
    } else {
        0
    };
    if demoted + 1 > 2 {
        demoted + 1
    } else {
        2
    }
}

/// The card that actually drops when the hint shows `future_value`: a basic
/// card (up to 3) drops as it is; a bonus card of rank `r` drops as a card of
/// a random rank from `max(2, r - 2)` to `r`, or as it is when that range
/// holds only its own rank.
pub fn resolve_real_spawn_value(future_value: u32) -> (v: u32)
    ensures
        future_value <= 3 ==> v == future_value,
        future_value > 3 ==> {
            let rank = deck_rank_of_value(future_value);
            let lo = lowest_spawn_rank(rank);
            &&& lo >= rank ==> v == future_value
            &&& lo < rank ==> exists|k: int| lo <= k <= rank && v == #[trigger] value_of_rank(k)
        },
{
    if future_value <= 3 {
        return future_value;
    }
    let rank = get_rank_from_value(future_value);
    proof {
        lemma_rank_bounds(future_value);
    }
    let demoted = if rank >= K_SPECIAL_DEMOTION {
        rank - K_SPECIAL_DEMOTION
    } else {
        0
    };
    let min_rank = if demoted + 1 > 2 {
        demoted + 1
    } else {
        2
    };
    let max_rank = rank;
    if min_rank >= max_rank {
        return future_value;
    }
    let chosen_rank = random_range_u32(min_rank, max_rank + 1);
    let v = get_value_from_rank(chosen_rank);
    assert(v == value_of_rank(chosen_rank as int));
    v
}

/// How many times the card `value` has dropped, by the tally `m`.
pub open spec fn tally_of(m: Map<u32, u32>, value: u32) -> int {
    if m.contains_key(value) {
        m[value] as int
    } else {
        0
    }
}

/// Adds a dropped card to the tally of bonus cards: a card of 6 or more
/// counts one more time; a smaller card is not counted.
pub fn tally_bonus_spawn(spawns: &mut HashMap<u32, u32>, value: u32)
    requires
        value >= 6 ==> tally_of(old(spawns)@, value) < u32::MAX,
    ensures
        value < 6 ==> final(spawns)@ == old(spawns)@,
        value >= 6 ==> final(spawns)@ == old(spawns)@.insert(
            value,
            (tally_of(old(spawns)@, value) + 1) as u32,
        ),
{
    broadcast use vstd::std_specs::hash::group_hash_axioms;

    if value >= 6 {
        let count = match spawns.get(&value) {
            Some(c) => *c,
            None => 0,
        };
        spawns.insert(value, count + 1);
    }
}

} // verus!
