# stratego

An engine for Stratego Quick Battle: the board and its rules, deployments
and their scores, and tournaments between engines.

`src/` is the verified library:

- `bitboard`: squares of a bitboard, population counts.
- `stratego`: the board (`position`), moves and the stack of hashes
  (`moves`), attack sets (`attacks`), what each side knows of the other
  (`information`) and hiding it (`hiding`), the text of a board (`drawing`), and the invariant that
  a game keeps from move to move (`rules`).
- `deployment`: random and data-set deployments, their notation, and the
  hand-written score (`deployment::heuristic`).
- `perft`, `policy`, `value`, `random`: counting move sequences, the move
  classes of the playout policy, playout steps and results, random players.
- `tournament`: rankings, the round-robin schedule and the referee, and
  (`round_robin`) the proof that a schedule gives each ordered pair of
  players one game per round.
- `rng`, `text`: the calls into `rand` and into `std` for characters.

`app/` holds what uses floating point, neural networks (`tch`), threads,
files and the terminal: the tree searches, the networks and their training,
and the programs.
