//! Interned identifier names.
//!
//! A name is interned once: the interner keeps its text, and the name is
//! the index of that text. Comparing and hashing names is then a single
//! integer operation; the text is recovered with [`Sym::as_str`].

use std::rc::Rc;

use rustc_hash::FxHashMap;
use vstd::prelude::*;

verus! {

#[verifier::external_type_specification]
#[verifier::external_body]
pub struct ExFxBuildHasher(rustc_hash::FxBuildHasher);

/// The index of each interned text.
pub type NameIds = FxHashMap<String, u32>;

/// The entries of an `FxHashMap` from texts to indices, keyed by the text.
pub uninterp spec fn text_ids(m: NameIds) -> Map<Seq<char>, u32>;

/// `FxHashMap::default`: an empty map.
#[verifier::external_body]
fn ids_new() -> (fresh: NameIds)
    ensures
        text_ids(fresh).dom().is_empty(),
{
    FxHashMap::default()
}

/// `FxHashMap::get` with a `&str` key: the index stored for the text `s`.
#[verifier::external_body]
fn ids_get(m: &NameIds, s: &str) -> (r: Option<u32>)
    ensures
        r == (if text_ids(*m).contains_key(s@) {
            Some(text_ids(*m)[s@])
        } else {
            None
        }),
{
    m.get(s).copied()
}

/// `FxHashMap::insert`: the text of `key` now maps to `id`.
#[verifier::external_body]
fn ids_insert(m: &mut NameIds, key: String, id: u32)
    ensures
        text_ids(*final(m)) == text_ids(*old(m)).insert(key@, id),
{
    m.insert(key, id);
}

/// An interned name.
#[derive(Clone, Copy, PartialEq, Eq, Hash, PartialOrd, Ord, Debug, Structural)]
pub struct Sym(u32);

/// The table of interned names: their texts by index, and the index of
/// each text.
pub struct Interner {
    names: Vec<String>,
    ids: NameIds,
}

impl View for Interner {
    type V = Seq<Seq<char>>;

    /// The texts of the names, by index.
    closed spec fn view(&self) -> Seq<Seq<char>> {
        self.names@.map_values(|n: String| n@)
    }
}

impl Interner {
    /// The index table agrees with the texts: each text has its own index.
    #[verifier::type_invariant]
    pub closed spec fn wf(&self) -> bool {
        &&& self.names.len() <= u32::MAX
        &&& forall|i: int|
            0 <= i < self.names.len() ==> #[trigger] text_ids(self.ids).contains_key(
                self.names@[i]@,
            ) && text_ids(self.ids)[self.names@[i]@] == i
        &&& forall|t: Seq<char>|
            #[trigger] text_ids(self.ids).contains_key(t) ==> text_ids(self.ids)[t]
                < self.names.len() && self.names@[text_ids(self.ids)[t] as int]@ == t
    }

    /// An interner with no names.
    pub fn new() -> (i: Interner)
        ensures
            i@ == Seq::<Seq<char>>::empty(),
    {
        let i = Interner { names: Vec::new(), ids: ids_new() };
        assert(i@ =~= Seq::<Seq<char>>::empty());
        i
    }

    /// The number of interned names.
    pub fn len(&self) -> (n: usize)
        ensures
            n == self@.len(),
    {
        self.names.len()
    }
}

impl Sym {
    /// The name with the text `s`: the one interned before, or a new one
    /// at the end of the table.
    pub fn new(interner: &mut Interner, s: &str) -> (r: Sym)
        requires
            !old(interner)@.contains(s@) ==> old(interner)@.len() < u32::MAX,
        ensures
            final(interner).wf(),
            r.id() < final(interner)@.len(),
            final(interner)@[r.id() as int] == s@,
            old(interner)@.contains(s@) ==> final(interner)@ == old(interner)@,
            !old(interner)@.contains(s@) ==> final(interner)@ == old(interner)@.push(s@),
    {
        proof {
            use_type_invariant(&*interner);
            if old(interner)@.contains(s@) {
                let k = choose|k: int| 0 <= k < old(interner)@.len() && old(interner)@[k] == s@;
                assert(interner.names@[k]@ == s@);
            }
        }
        match ids_get(&interner.ids, s) {
            Some(id) => {
                assert(interner@[id as int] == s@);
                Sym(id)
            },
            None => {
                proof {
                    if interner@.contains(s@) {
                        let k = choose|k: int| 0 <= k < interner@.len() && interner@[k] == s@;
                        assert(text_ids(interner.ids).contains_key(interner.names@[k]@));
                    }
                }
                let id = interner.names.len() as u32;
                let t = s.to_owned();
                let key = t.clone();
                let mut table = Interner::new();
                std::mem::swap(&mut table, interner);
                let mut names = table.names;
                let mut ids = table.ids;
                let ghost ids0 = text_ids(ids);
                names.push(t);
                ids_insert(&mut ids, key, id);
                proof {
                    assert forall|i: int| 0 <= i < names.len() implies #[trigger] text_ids(ids).contains_key(names@[i]@)
                        && text_ids(ids)[names@[i]@] == i by {
                        if i < names.len() - 1 {
                            assert(names@[i] == old(interner).names@[i]);
                            assert(ids0.contains_key(names@[i]@));
                            if names@[i]@ == s@ {
                                assert(old(interner)@[i] == s@);
                            }
                        }
                    }
                    assert forall|x: Seq<char>| #[trigger] text_ids(ids).contains_key(x) implies text_ids(ids)[x] < names.len()
                        && names@[text_ids(ids)[x] as int]@ == x by {
                        if x != s@ {
                            assert(ids0.contains_key(x));
                        }
                    }
                }
                *interner = Interner { names, ids };
                assert(interner@ =~= old(interner)@.push(s@));
                Sym(id)
            },
        }
    }

    /// The text of the name.
    pub fn as_str(self, interner: &Interner) -> (s: String)
        requires
            self.id() < interner@.len(),
        ensures
            s@ == interner@[self.id() as int],
    {
        interner.names[self.0 as usize].clone()
    }

    /// The text of the name, shared.
    pub fn as_rc(self, interner: &Interner) -> (s: Rc<String>)
        requires
            self.id() < interner@.len(),
        ensures
            s@ == interner@[self.id() as int],
    {
        Rc::new(self.as_str(interner))
    }

    /// The index of the name in the table.
    pub fn index(self) -> (i: u32)
        ensures
            i == self.id(),
    {
        self.0
    }

    /// The index of the name in the table.
    pub closed spec fn id(self) -> u32 {
        self.0
    }
}

/// Names are equal exactly when their texts are: two indices of a
/// well-formed interner with the same text are the same index.
pub proof fn lemma_equal_text_same_name(interner: &Interner, a: Sym, b: Sym)
    requires
        interner.wf(),
        a.id() < interner@.len(),
        b.id() < interner@.len(),
    ensures
        interner@[a.id() as int] == interner@[b.id() as int] <==> a == b,
{
    if interner@[a.id() as int] == interner@[b.id() as int] {
        assert(interner.names@[a.id() as int]@ == interner@[a.id() as int]);
        assert(interner.names@[b.id() as int]@ == interner@[b.id() as int]);
        assert(text_ids(interner.ids).contains_key(interner.names@[a.id() as int]@));
        assert(text_ids(interner.ids).contains_key(interner.names@[b.id() as int]@));
    }
}

} // verus!
