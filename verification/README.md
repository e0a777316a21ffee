# Bunny board solver, verified

A solver for the one-player board game in which bunnies jump over rows of pieces,
foxes slide along their lane and mushrooms stand still on a 5x5 board; the game is won
when three bunnies sit in holes (the four corners and the centre). Given a starting
position, a breadth-first search finds one of the shortest solutions, or finds that
there is none. Positions that a rotation or reflection of the board turns into one
another are searched once.

The library in `src/` is written in Verus and verified:

- `pieces`, `board`, `geometry`, `bits`: the pieces, boards and their placement rules,
  cells and occupancy masks.
- `moves`: the moves a position allows; `rules`, `setup`: positions (pieces on distinct
  cells of the board, foxes on a lane) stay positions under placements and moves.
- `state`, `symmetry`, `bound`: the compact key of a position, its images under the
  eight symmetries of the square and the canonical (least) image.
- `orient`, `turned_moves`, `equivalence`: rotations and reflections of boards, and why
  positions with the same canonical key win alike and allow the same moves.
- `compare`, `order`, `seqs`, `layout`: equality up to the order of pieces, sorting,
  the covered cells and a text picture of a board.
- `reversal`: every move changes the board, the move list names each move once, and the
  reverse move undoes every move, so reaching a board in one move goes both ways.
- `graph`: the search, with the proof that the solution it returns is a shortest one and
  that it reports no solution only when none exists.

`app/main.rs` solves constellation 60 of the game's booklet and prints the solution.
