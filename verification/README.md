# ace

A chess engine library whose logic is proved with Verus: bitboards and squares, the board
with its pieces, game state and Zobrist hash, FEN reading and writing, move encoding and
coordinate notation, a legal move generator, perft counting, hash tables, the generation of
lookup and magic-bitboard tables, and the parsing of UCI commands.

## Layout

- `src/bits.rs`: facts about 64-bit words (single bits, population count, exclusive or).
- `src/text.rs`: character sequences, decimal numbers, splitting into words.
- `src/bitboard/`: `Bitboard` (a set of squares), `Square`, and the text picture of a set.
- `src/lookup/`: the attack geometry of every piece as specifications, the lookup functions,
  and the generators of the lookup and magic tables.
- `src/board/`: the board, its consistency, attacks, pins and checks, making and unmaking
  moves, FEN, Zobrist hashing, and the board's picture (squares coloured by the `colored`
  crate).
- `src/generation/`: the move encoding, the move generator (`new_gen.rs`), what it lists
  (`listing.rs`), and the laws on legality (`safety.rs`, `legality.rs`).
- `src/perft/`, `src/hashtable/`, `src/search/`: perft, the perft and transposition tables.
- `src/uci/`: UCI command parsing and the texts sent back.
- `app/`: the command-line program (argument handling, standard input and output).
- `tests/`: tests on concrete positions and commands.

## Main properties proved

- Every move the generator lists can be played and keeps to the rules it applies (king
  safety, pins, checks, castling rights, en passant); every move those rules allow is listed,
  and none is listed twice. Each piece's generator adds only moves of its piece.
- Castling is listed when the right is kept, king and rook stand on their first squares,
  the squares between them are empty and the king passes no attacked square; a right kept
  for a missing king or rook gives no castling. An en passant capture is listed only with the
  pawn to take behind the en passant square and that square empty.
- Moves that leave the mover's king unattacked are listed; listed moves leave it unattacked
  when the two kings do not stand side by side (and, for an en passant capture, no knight or
  other pawn gives check).
- Perft without the cache counts exactly: at each depth the sum, over the listed moves, of the
  counts below the positions they lead to; the statistics perft and `divide` likewise. With
  the cache, the result is the one the cache's entries give: an entry under the position's
  key is taken as it is, otherwise the count is made the same way, each move's count from the
  cache the one before left, and stored.
- `go searchmoves` reads moves up to the next `go` argument, which is then read too.
- Unmaking a move or a null move restores the board; making them keeps the hash right.
- Writing a position as FEN and reading it back gives the position, and reading such a text
  and writing it again gives the text (without an en passant square: the text names the
  square of the pawn that may be taken); square names read back to their squares.
- `fen_fits` and `move_text_fits` decide exactly which texts the FEN and move readers may be
  given.
- A hash table or transposition table gives back what was stored under a key.
- Every magic table entry answers the slider attacks for its occupancy.

## Not part of this library

The engine's search (negamax, quiescence, iterative deepening, move ordering, the principal
variation) and its position evaluation are not here, nor the evaluation sums a board could
carry: they build on piece-square tables, a killer-move store and a time control whose
sources are not part of this project.
