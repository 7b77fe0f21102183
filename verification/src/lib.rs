use vstd::prelude::*;

pub mod ast;
pub mod dag;
pub mod error;
pub mod fst;
pub mod phoneme;
pub mod span;
pub mod text;

verus! {
} // verus!
