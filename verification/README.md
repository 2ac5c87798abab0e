# threes_rs

A Threes! engine and the integer side of an n-tuple network that learns to
play it, written in Verus with the rules proved against their contracts.

- `src/` — the verified library:
  - `tile`, `deck_tracker`, `pseudo_list`, `game`: cards and their ranks,
    the decks the next card comes from, the forecast of the next card as
    exact fractions, moves, merges, scoring, hints and the chance step of
    the search.
  - `n_tuple_network`: how features read the board (card codes, table
    entries), and the layout of the network's features with their
    symmetric copies and shared tables.
  - `play_game`: the events of a move, for animating it, and the new
    cards found by comparing them with the board after the move.
  - `suggest_move`, `text`, `checkpoint`: reading the game's log lines,
    following the turns of a game against the deck forecast, and reading
    the names of saved networks.
  - `random`: the calls into `rand`, each with what it guarantees.
- `tests/` — tests of the library.
- `app/` — the programs: training and evaluation with floating-point
  weights, the game window, the move adviser that follows the game's log,
  and tools that edit saved networks.
