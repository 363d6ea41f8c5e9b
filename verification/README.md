# fabchess

The core of a bitboard chess engine, written in Verus: every function in `src/` carries a
contract that the verifier proves.

- `bitboards`: square geometry, bitboard shifts and fills, and the facts about bits and
  counts that the rest of the crate reasons with.
- `board_representation`: the position (`GameState`), Zobrist keys and hashing, reading
  and writing FEN, and the per-position attack container.
- `move_generation`: attack sets of every piece kind, the attackers of a square, magic
  bitboard tables, the move generator, making moves, and the check that a position is
  well formed.
- `evaluation`: piece-square tables, the piece, pawn, passed-pawn and king terms,
  mobility, and the game phase's material.
- `search`: the transposition table, static exchange evaluation and the quiescence
  helpers, mate-distance and futility pruning, history and killer moves, the line
  tables, draw detection, time-control data, and the iterative-deepening and
  aspiration-window decisions of the root search.
- `misc`: reading moves in algebraic notation and drawing a bitboard.
- the crate root: perft, the count of move paths of a given length, in total and split
  by first move.

`tests/` exercises the library on concrete positions (perft counts, FEN round trips,
exchange values, hashing). `app/` is the command-line program around it: printing
perft and divide counts, FEN checks, phase and clock arithmetic in floating point, and the search for
magic numbers with printing.
