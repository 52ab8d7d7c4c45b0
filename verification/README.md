# fri_challenger

A chess library: the board, move generation, move enumeration and parts of the evaluation
of a chess engine, with its behaviour stated in contracts and proved with Verus.

## Layout

- `src/` — the verified library.
  - `bits`, `piece`, `castling`, `zobrist`: bitboards, pieces and colors, castling rights,
    position keys.
  - `attacks`, `tables`, `pext`: the squares each piece attacks and reaches; the ray tables;
    bit extraction and deposit and the sliding-piece lookup tables built on them.
  - `board`, `fen`, `make_move`, `mirror`: the position, reading it from FEN, playing and
    taking back moves, mirroring the board.
  - `mv_gen`, `perft`, `notation`: move generation, counting move sequences, writing and
    reading moves in long algebraic notation.
  - `game`, `game_move`: the game record with its own make and undo of moves.
  - `eval`, `evaluation`, `display`: evaluation state and terms (material, phase, tempo,
    mobility, space, minor pieces behind pawns and outposts, passed pawns, pawn structure,
    the piece terms, the trace of the terms, imbalance), text of boards.
- `tests/` — tests run against the compiled library.
- `app/` — printing and timing around the library.

## What is proved

Among other things: the move generator returns exactly the moves its specification allows,
without repetitions and ordered by score; undoing a move gives back the position it was made
on; the position key is the zobrist hash of the position; the move counter counts the
sequences of legal moves of the given length; a move's notation reads back as that move; the
table-driven slider moves agree with walking the rays; a ray cut at the pieces it meets holds the
squares up to the nearest piece, that piece kept only when it is an enemy; laying bits out on a
mask and packing them back gives the bits back; mirroring a board twice gives it back; the
evaluation terms add exactly the sum of their per-square terms to the score. The move
counter's node and move-kind counters are stated exactly as well; they stop at the largest
`u64` rather than overflow.
