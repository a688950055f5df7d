//! The state of the runtime that the verified functions keep.

use vstd::prelude::*;

use crate::perms::GroupCache;

verus! {

/// The runtime state: the symmetric groups made so far and the precision
/// of the default real field.
pub struct Interp {
    pub groups: GroupCache,
    /// The precision in bits of the default real field (the parent of real
    /// literals, `RealField()`, ...).
    pub default_bits: u64,
}

impl Interp {
    /// A fresh state, with the default real field at 100 bits (30 decimal
    /// digits).
    pub fn new() -> (it: Interp)
        ensures
            it.default_bits == 100,
    {
        Interp { groups: GroupCache::new(), default_bits: 100 }
    }
}

} // verus!
