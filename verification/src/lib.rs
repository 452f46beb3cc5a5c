//! A rule compiler and byte-stream matcher.
//!
//! Rules are built from byte predicates with the combinators `satisfy`,
//! `star`, `and` and `or` (a Glushkov position construction).  An ordered
//! list of rules is compiled into a dense deterministic transition table,
//! which then finds the longest prefix of an input that some rule matches,
//! together with the lowest-indexed rule that matched it.
#![verifier::loop_isolation(false)]

pub mod expression;
pub mod non_finite_automaton;
pub mod position_set;
pub mod recognizer;
