# banqi

A verified engine for Banqi (Chinese Dark Chess), written in Rust and proved with Verus.

Pieces start face down. A move is a step, a capture, or a flip whose outcome is drawn from the
bag of pieces that are still hidden. The engine searches decisions by alpha-beta and flips by
Star1 chance nodes, and sees only what both players see.

* `src/` is the library. Every function in it carries a contract. `model.rs` says what a search
  computes; `search.rs`, `root.rs`, `engine.rs` and `table.rs` compute it within a budget of nodes
  or time. `expectimax.rs`, `bounds.rs` and `optimality.rs` are about searches in which nothing is
  rounded. With the transposition table, repetitions and reductions switched off, pruning changes
  nothing and the chosen move is best (the latter with the guard against losing captures off too).
  With any switches, values stay between a loss and a win, as long as contempt does (and up to
  0.999 where that guard is on).
* Evaluations are generic over the type of numbers. `fixed.rs` has one that runs without floating
  point; `app/float.rs` has one in double precision.
* `app/` is the UCI program, with bindings for Python and for the browser.
* `tests/` runs the library on concrete positions.

Drive the program over UCI:

```
uci
position fen XXXXXXXX/XXXXXXXX/XXXXXXXX/XXXXXXXX - G1A2E2R2H2C2S5g1a2e2r2h2c2s5 0 1
go nodes 1500000
```
