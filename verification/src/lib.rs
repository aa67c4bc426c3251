//! Decision engine for a falling-block chain-reaction puzzle: a bit-packed
//! board with an incrementally maintained structural hash, the drop-and-cascade
//! simulator, memoised board heuristics and the beam-search solver.
pub mod xorshift;
pub mod zobrist_hash_table;
pub mod pack;
pub mod bit_board;
pub mod board;
pub mod field;
pub mod cascade;
pub mod simulator;
pub mod command;
pub mod solver_config;
pub mod game_status;
pub mod search_state;
pub mod hash_tables;
pub mod evaluation;
pub mod search_result;
pub mod beam;
pub mod solver;
