//! The runtime of the calyx interpreter, as far as it is verified: the
//! permutations of `Sym(n)`, integers of any size as operands, the
//! pseudo-random generator, interned names,
//! word-sized residue rings and their operators, linear algebra over
//! word-sized prime fields, the monomial combinatorics behind ideals of
//! multivariate polynomial rings, the text of sums of terms, output sinks
//! and the pieces of the resolved representation that stand on their own.

pub mod integer;
pub mod interp;
pub mod arith;
pub mod fp;
pub mod monomials;
pub mod nmod;
pub mod output;
pub mod ir;
pub mod perms;
pub mod print;
pub mod random;
pub mod reals;
pub mod small;
pub mod sym;
pub mod text;
pub mod weights;

use vstd::prelude::*;

verus! {

} // verus!
