# chess

A small chess engine library verified with Verus.

- `bitboard`: sets of squares as 64-bit masks, with lemmas on single bits.
- `piece`: piece kinds, colors, pieces, moves and move errors.
- `pieces`: sequences of pieces used as sets (membership, removal, insertion).
- `board`: the board (each side's pieces and bitboard, the moves played), its
  abstract model `BoardModel`, well-formedness, playing and undoing moves.
- `movegen`: sliding and jumping move generation, legality, and `play_move`.
- `fen`: reading a position from a FEN record, and the starting position.
- `laws`: properties across operations, such as undoing a played move restoring
  the board, and legal moves being accepted by `play_move`.
