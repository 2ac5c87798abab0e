pub mod math;
pub mod threes_const;
pub mod random;
pub mod tile;
pub mod deck_tracker;
pub mod pseudo_list;
pub mod game;
pub mod spawn_eval;
pub mod threes_env;
pub mod suggest_move;
pub mod text;
pub mod checkpoint;
pub mod play_game;
pub mod n_tuple_network;
