//! Compilation of phonological rules into transducers.
//!
//! Classes become one-step acceptors, maps one-step transducers, context
//! and pattern sequences small acceptors; a rewrite rule becomes the
//! composition of the bracket protocol, the obligatory-context
//! constraint, the replacement and the longest-leftmost filter.

pub mod brackets;
pub mod class;
pub mod context;
pub mod map;
pub mod replacement;
pub mod constraint;
pub mod leftmost;
pub mod replace;
pub mod apply;
pub mod directed_replace;
pub mod rule_seq;
