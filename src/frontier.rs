//! The frontier: unused color-bases next to a placed one, held in a
//! hashbrown set.
use vstd::prelude::*;
use crate::color::ColorBase;

verus! {

/// A set of color-bases backed by `hashbrown::HashSet`.
#[verifier::external_body]
pub struct Frontier {
    set: hashbrown::HashSet<ColorBase>,
}

/// What a frontier holds.
pub uninterp spec fn frontier_members(f: Frontier) -> Set<ColorBase>;

impl Frontier {
    pub open spec fn view(&self) -> Set<ColorBase> {
        frontier_members(*self)
    }

    /// Relies on `hashbrown::HashSet::new`: an empty set.
    #[verifier::external_body]
    pub(crate) fn new() -> (r: Frontier)
        ensures
            frontier_members(r) == Set::<ColorBase>::empty(),
    {
        Frontier { set: hashbrown::HashSet::new() }
    }

    /// Relies on `hashbrown::HashSet::insert`: afterwards `c` is a member,
    /// the other members are kept.
    #[verifier::external_body]
    pub(crate) fn insert(&mut self, c: ColorBase)
        ensures
            frontier_members(*final(self)) == frontier_members(*old(self)).insert(c),
    {
        self.set.insert(c);
    }

    /// Relies on `hashbrown::HashSet::remove`: afterwards `c` is no member,
    /// the other members are kept.
    #[verifier::external_body]
    pub(crate) fn remove(&mut self, c: ColorBase)
        ensures
            frontier_members(*final(self)) == frontier_members(*old(self)).remove(c),
    {
        self.set.remove(&c);
    }

    /// Relies on `hashbrown::HashSet::len`: the number of members.
    #[verifier::external_body]
    pub(crate) fn len(&self) -> (r: usize)
        ensures
            r == frontier_members(*self).len(),
    {
        self.set.len()
    }

    /// Relies on `hashbrown::HashSet::iter`: each member is visited, in an
    /// order that the set chooses.
    #[verifier::external_body]
    pub(crate) fn members(&self) -> (r: Vec<ColorBase>)
        ensures
            forall|i: int| 0 <= i < r@.len() ==> frontier_members(*self).contains(#[trigger] r@[i]),
            forall|c: ColorBase| frontier_members(*self).contains(c) ==> #[trigger] r@.contains(c),
    {
        self.set.iter().copied().collect()
    }
}

} // verus!
