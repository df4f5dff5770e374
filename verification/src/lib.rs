//! Banqi (Chinese Dark Chess): the rules, an evaluation, and search.
//!
//! Pieces start face down and are flipped during play, so a move is either a step or a capture,
//! or a chance event whose outcome is drawn from the bag of pieces that are still face down.
//! The engine sees only what both players see: the identity of a face-down tile appears nowhere.
//!
//! * `board` and `rules`: positions, moves, the end of the game, and what a move changes.
//! * `movement`: the same rules said of squares: neighbours, who takes whom, cannons, the end.
//! * `fen`, `uci`, `text` and `round_trip`: positions and moves as text. `lettering`: its letters,
//!   digits and words.
//! * `arith`, `fixed`: the numbers that evaluations are made of.
//! * `eval`, `balance`, `appraisal`: the evaluation, what it balances, what raises and lowers it.
//! * `model`: what alpha-beta search with Star1 chance nodes computes. `order`, `search` and
//!   `root` compute it, within a budget of nodes or time.
//! * `expectimax`, `bounds` and `optimality`: what holds where nothing is rounded. Values stay
//!   between -1 and 1; and with the table, repetitions and reductions switched off, pruning changes
//!   nothing and the engine's choice is best. `cycles`: the same where repetitions count.
//! * `searching`, `deciding`, `sampling`: what is searched and in what order, what the engine
//!   remembers and decides, and what tree search makes of its samples.
//! * `engine`, `table`, `mcts`: the best move, the values of all moves, and search by sampling.
//! * `protocol`, `analysis`: the engine behind a text interface.
//! * `rng`, `zobrist`: random numbers and position keys.
pub mod analysis;
pub mod appraisal;
pub mod arith;
pub mod balance;
pub mod board;
pub mod bounds;
pub mod cycles;
pub mod deciding;
pub mod engine;
pub mod eval;
pub mod expectimax;
pub mod fen;
pub mod fixed;
pub mod lettering;
pub mod mcts;
pub mod model;
pub mod movement;
pub mod optimality;
pub mod order;
pub mod protocol;
pub mod rng;
pub mod root;
pub mod round_trip;
pub mod rules;
pub mod sampling;
pub mod search;
pub mod searching;
pub mod table;
pub mod text;
pub mod uci;
pub mod zobrist;
