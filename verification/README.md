# chian

A bitboard chess engine whose library is verified with Verus.

`src/` is the library, verified by Verus. Its functions carry
`requires`/`ensures` contracts that Verus proves; the one exception is
`Engine::elapsed`, which only reports the clock and promises nothing:

- `types`, `bits`, `board`: squares, pieces, moves and the bitboard model of a
  board, viewed as a sequence of 64 squares.
- `zobrist`, `game`: positions with their history; playing and taking back
  moves and null moves, with the incremental hash kept in step.
- `attacks`, `threats`, `movegen`, `legality`, `validity`: attack sets,
  pseudo-legal move generation, the legality test, checkmate and stalemate,
  and the validation of a player's move.
- `eval`, `pawns`, `pieces`: static evaluation, pawn structure and piece lists.
- `cache`, `engine`, `search`: the result caches, the alpha-beta search with
  its quiet search, and iterative deepening.
- `perft`: the number of move sequences of a given length from a position,
  which the move counter is proved to return, and sums over numbered moves.
- `notation`, `fen`: reading and writing moves and positions as text.
- `bot`, `ui`: the decisions of the online bot and of the board view, taking
  plain events and returning what to do.

`app/` holds the program around the library: argument handling, the terminal
board view and the online bot loop. `tests/` exercises the library.
