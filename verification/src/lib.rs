//! Lookahead and item-set construction for an LR parser-table generator.
//!
//! Given a context-free grammar, the crate computes the FIRST and LAST token
//! sets of every grammar symbol, a per-non-terminal table of closure
//! additions, and, from these, the transitive closure of any kernel item set.

pub mod symbol;
pub mod lookahead;
pub mod grammar;
pub mod item;
pub mod symbol_sets;
pub mod additions;
pub mod follow;
pub mod table;
pub mod builder;
pub mod closure;
pub mod laws;
pub mod idempotence;
