//! Phoneme inventories.

use vstd::prelude::*;

verus! {

/// The terminal surface units of a phoneme inventory.
#[derive(Debug, Clone, Default)]
pub struct PhonemeInventory {
    pub all_terminals: Vec<String>,
}

} // verus!
