//! Rings whose elements fit in a machine word: residue class rings `Z/nZ`
//! and prime fields `GF(p)` with a modulus below `2^64`.
//!
//! Their elements are words, the residues. Each such ring is registered
//! once, when it is created, and its elements refer to it by index.
//! Rings are never freed.

use std::cmp::Ordering;
use std::rc::Rc;
use vstd::prelude::*;
use crate::nmod::Nmod;

verus! {

/// The index of a ring with word-sized elements.
#[derive(Clone, Copy, Debug, PartialEq, Eq, Structural)]
pub struct SmallRing(u32);

#[derive(Clone, Copy, Debug, PartialEq, Eq, Structural)]
pub enum SmallKind {
    /// `Z/nZ` (type `RngIntRes`).
    Residue,
    /// `GF(p)` (type `FldFin`).
    PrimeField,
}

#[derive(Clone, Copy, Debug, PartialEq, Eq, Structural)]
pub struct SmallInfo {
    /// The modulus.
    pub m: Nmod,
    pub kind: SmallKind,
}

struct Entry<P> {
    info: SmallInfo,
    parent: Rc<P>,
}

/// The registered rings, in the order of their indices, each with its
/// parent structure.
pub struct SmallRings<P> {
    entries: Vec<Entry<P>>,
}

impl SmallRing {
    /// The index.
    pub closed spec fn id(self) -> int {
        self.0 as int
    }
}

impl<P> SmallRings<P> {
    /// The registered rings with their parents.
    pub closed spec fn view(&self) -> Seq<(SmallInfo, Rc<P>)> {
        self.entries@.map_values(|e: Entry<P>| (e.info, e.parent))
    }

    /// No ring registered yet.
    pub fn new() -> (r: SmallRings<P>)
        ensures
            r@ == Seq::<(SmallInfo, Rc<P>)>::empty(),
    {
        let r = SmallRings { entries: Vec::new() };
        assert(r@ =~= Seq::<(SmallInfo, Rc<P>)>::empty());
        r
    }

    /// The number of registered rings.
    pub fn len(&self) -> (n: usize)
        ensures
            n == self@.len(),
    {
        self.entries.len()
    }
}

impl SmallRing {
    pub fn info<P>(self, rings: &SmallRings<P>) -> (i: SmallInfo)
        requires
            self.id() < rings@.len(),
        ensures
            i == rings@[self.id()].0,
    {
        rings.entries[self.0 as usize].info
    }

    pub fn modulus<P>(self, rings: &SmallRings<P>) -> (m: Nmod)
        requires
            self.id() < rings@.len(),
        ensures
            m == rings@[self.id()].0.m,
    {
        self.info(rings).m
    }

    pub fn parent<P>(self, rings: &SmallRings<P>) -> (p: Rc<P>)
        requires
            self.id() < rings@.len(),
        ensures
            p == rings@[self.id()].1,
    {
        rings.entries[self.0 as usize].parent.clone()
    }

    /// The word of `-x`.
    pub fn neg<P>(self, rings: &SmallRings<P>, x: u64) -> (r: u64)
        requires
            self.id() < rings@.len(),
            x < rings@[self.id()].0.m.n,
        ensures
            r == (-(x as int)) % (rings@[self.id()].0.m.n as int),
    {
        self.info(rings).m.neg(x)
    }

    /// The order of the ring's elements for sorting: by residue.
    pub fn cmp_words<P>(self, rings: &SmallRings<P>, x: u64, y: u64) -> (o: Ordering)
        ensures
            o == (if x < y {
                Ordering::Less
            } else if x == y {
                Ordering::Equal
            } else {
                Ordering::Greater
            }),
    {
        if x < y {
            Ordering::Less
        } else if x == y {
            Ordering::Equal
        } else {
            Ordering::Greater
        }
    }
}

/// The type of the elements of a word-sized ring.
#[derive(Clone, Copy, Debug, PartialEq, Eq, Structural)]
pub enum EltType {
    /// `RngIntResElt`, of `Z/nZ`.
    RngIntResElt,
    /// `FldFinElt`, of `GF(p)`.
    FldFinElt,
}

impl SmallRing {
    /// The type of the ring's elements.
    pub fn elt_type<P>(self, rings: &SmallRings<P>) -> (t: EltType)
        requires
            self.id() < rings@.len(),
        ensures
            t == (match rings@[self.id()].0.kind {
                SmallKind::Residue => EltType::RngIntResElt,
                SmallKind::PrimeField => EltType::FldFinElt,
            }),
    {
        match self.info(rings).kind {
            SmallKind::Residue => EltType::RngIntResElt,
            SmallKind::PrimeField => EltType::FldFinElt,
        }
    }
}

/// The index the next registered ring will get.
pub fn next_index<P>(rings: &SmallRings<P>) -> (r: SmallRing)
    requires
        rings@.len() <= u32::MAX,
    ensures
        r.id() == rings@.len(),
{
    let n = rings.entries.len();
    SmallRing(n as u32)
}

/// Register the ring `parent` under the index `idx` from `next_index`.
pub fn register<P>(rings: &mut SmallRings<P>, idx: SmallRing, info: SmallInfo, parent: Rc<P>)
    requires
        idx.id() == old(rings)@.len(),
    ensures
        final(rings)@ == old(rings)@.push((info, parent)),
{
    rings.entries.push(Entry { info, parent });
    assert(rings@ =~= old(rings)@.push((info, parent)));
}

/// A ring registered under the next index is found under it, and the
/// rings registered before keep theirs.
pub proof fn lemma_register_keeps<P>(
    before: Seq<(SmallInfo, Rc<P>)>,
    after: Seq<(SmallInfo, Rc<P>)>,
    idx: SmallRing,
    info: SmallInfo,
    parent: Rc<P>,
)
    requires
        idx.id() == before.len(),
        after == before.push((info, parent)),
    ensures
        after[idx.id()] == (info, parent),
        forall|i: int| 0 <= i < before.len() ==> #[trigger] after[i] == before[i],
{
}

} // verus!
