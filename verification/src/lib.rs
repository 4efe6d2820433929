//! A small regular-expression engine: a pattern is tokenized, parsed into a
//! post-order syntax sequence by a shunting-yard pass, lowered to a
//! non-deterministic finite automaton, and evaluated against input text by a
//! subset simulation with epsilon closure and capture tracking.

pub mod accept;
pub mod compile;
pub mod gex;
pub mod matcher;
pub mod new_accept;
pub mod operators;
pub mod railroad;
pub mod text;
pub mod tokenize;
