# xiangqi

The core of a Chinese chess (xiangqi) engine, written in Verus.  The
functions of the library carry `requires` / `ensures` contracts that Verus
proves; the clock readings of `Timer` are the exception, as nothing can be
stated of the time that passes.

Boards use all ten rows (the opening position included), and every piece
kind, pawns too, has its moves generated.

## Layout

- `src/common.rs`: basic types and constants, `Move` and its coordinate
  notation (`h2e2`).
- `src/lines.rs`: occupancy lines of rows and columns and the rook and
  cannon points read from them (`rook9`, `rook10`, `cannon9`, `cannon10`).
- `src/pst.rs`: piece-square tables.
- `src/zobrist.rs`: the Zobrist key table, drawn from a seeded `rand`
  generator.
- `src/position.rs`: `Position`: set-up, making and taking back moves,
  incremental hash key and evaluation, checks, legality, guards and
  repetition.
- `src/moves.rs`: move generation and the `MovePicker`.
- `src/heuristic.rs`: history table, killer table, transposition table.
- `src/evaluate.rs`: static evaluation.
- `src/fen.rs`: reading and writing the piece placement of a FEN string.
- `src/timer.rs`: a stopwatch with a time limit.
- `src/search.rs`: search settings and the null-move test.

Laws that relate several functions are public proof functions (named
`lemma_...`), for example taking back a move restores the position
(`position::lemma_undo_after_do`), a stored transposition entry is read
back (`heuristic::lemma_tt_read_after_write`), each king stays first in
its side's piece list (`position::lemma_do_move_kings_first` and its
companions), and a written FEN string reads back to the same board when
every row but the last ends with a piece or is followed only by empty
squares (`fen::lemma_fen_round_trip`; a run of empty squares at the end of a
row is not written).

`tests/` exercises the compiled library on concrete positions.
