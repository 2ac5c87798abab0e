use vstd::prelude::*;

verus! {

/// How many copies of each basic card (1, 2, 3) the basic deck holds.
pub const K_NUMBER_RANDOMNESS: u8 = 4;

/// How many blank cards stand beside the single bonus card in the bonus deck.
pub const K_SPECIAL_RARENESS: u8 = 20;

/// How many cards are dealt onto the board when a game starts.
pub const K_START_SPAWN_NUMBERS: u32 = 9;

/// How many ranks below the highest rank a bonus card is drawn from.
pub const K_SPECIAL_DEMOTION: u32 = 3;

} // verus!
