//! Deterministic finite automata: minimization by marking distinguishable
//! pairs of states, and language equivalence by exploring the product of two
//! automata; with a reader for their text form, a pushdown automaton, and a
//! regex-based analysis of Android logs.

pub mod table;
pub mod minimize;
pub mod quotient;
pub mod equivalence;
pub mod automata;
pub mod parse;
pub mod stack;
pub mod logs;
pub mod order;
