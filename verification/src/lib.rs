//! Bookkeeping and decision logic for an SPSA parameter tuner for chess
//! engines: reading match results, tracking the history of each tuned
//! parameter, and driving the tuner's controls.

pub mod text;
pub mod fastchess;
pub mod params;
pub mod checkpoint;
pub mod control;
pub mod uci;
