//! The pieces of the resolved representation that stand on their own:
//! assignable places, parameter specifications and print levels.

use crate::sym::Sym;
use vstd::prelude::*;

verus! {

/// The index of a variable slot in a frame.
pub type Slot = u32;

/// A variable that can be assigned.
#[derive(Clone, Copy, Debug, PartialEq, Eq, Structural)]
pub enum Place {
    Local(Slot, Sym),
    Global(Sym),
}

impl Place {
    /// The name of the variable.
    pub fn name(&self) -> (s: Sym)
        ensures
            s == match *self {
                Place::Local(_, n) => n,
                Place::Global(n) => n,
            },
    {
        match self {
            Place::Local(_, s) => *s,
            Place::Global(s) => *s,
        }
    }
}

/// A parameter of a compiled function.
#[derive(Clone, Copy, Debug)]
pub struct ParamSpec {
    pub slot: Slot,
    pub name: Sym,
    pub is_ref: bool,
}

/// How much detail printing shows.
#[derive(Clone, Copy, Debug, PartialEq, Eq, Structural)]
pub enum PrintLevel {
    Minimal,
    Default,
    Maximal,
    Magma,
}

} // verus!
