use vstd::prelude::*;
use crate::game::{board_can_move, Direction, Game};
use crate::random::choose_copy;

verus! {

/// A random direction in which the game can move, or `None` when it cannot
/// move at all.
pub fn get_random_valid_action(game: &Game) -> (d: Option<Direction>)
    ensures
        d is None <==> (forall|e: Direction| !#[trigger] board_can_move(game.board, e)),
        d matches Some(e) ==> board_can_move(game.board, e),
{
    let mut valid_actions: Vec<Direction> = Vec::new();
    let dirs = [Direction::Up, Direction::Down, Direction::Left, Direction::Right];
    let mut i: usize = 0;
    while i < 4
        invariant
            0 <= i <= 4,
            dirs@ == seq![Direction::Up, Direction::Down, Direction::Left, Direction::Right],
            forall|j: int| 0 <= j < valid_actions@.len() ==> board_can_move(game.board, #[trigger] valid_actions@[j]),
            valid_actions@.len() == 0 ==> forall|j: int|
                0 <= j < i ==> !board_can_move(game.board, #[trigger] dirs@[j]),
        decreases 4 - i,
    {
        let dir = dirs[i];
        if game.can_move(dir) {
            valid_actions.push(dir);
        }
        i = i + 1;
    }
    if valid_actions.len() == 0 {
        assert forall|e: Direction| !#[trigger] board_can_move(game.board, e) by {
            match e {
                Direction::Up => assert(dirs@[0] == e),
                Direction::Down => assert(dirs@[1] == e),
                Direction::Left => assert(dirs@[2] == e),
                Direction::Right => assert(dirs@[3] == e),
            }
        }
        return None;
    }
    let r = choose_copy(valid_actions.as_slice());
    r
}

} // verus!
