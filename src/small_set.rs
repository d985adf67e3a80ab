//! A small set of group numbers, kept in a `smallset::SmallSet` of inline capacity five.
use vstd::prelude::*;

verus! {

/// Distinct group numbers around one cell: the cell itself and its four neighbours.
#[verifier::external_body]
pub struct GroupSet {
    set: smallset::SmallSet<[u16; 5]>,
}

/// The group numbers that a set holds.
pub uninterp spec fn set_items(s: GroupSet) -> Set<u16>;

impl GroupSet {
    /// Relies on `SmallSet::new`: a set with no element.
    #[verifier::external_body]
    pub fn new() -> (r: GroupSet)
        ensures
            set_items(r) == Set::<u16>::empty(),
    {
        GroupSet { set: smallset::SmallSet::new() }
    }

    /// Relies on `SmallSet::insert`: adds `x` when it is not there yet, and says
    /// whether it was added.
    #[verifier::external_body]
    pub fn insert(&mut self, x: u16) -> (r: bool)
        ensures
            set_items(*final(self)) == set_items(*old(self)).insert(x),
            r == !set_items(*old(self)).contains(x),
    {
        self.set.insert(x)
    }

    /// Relies on `SmallSet::iter`: each element once, since `insert` never
    /// stores an element twice.
    #[verifier::external_body]
    pub fn items(&self) -> (r: Vec<u16>)
        ensures
            r@.no_duplicates(),
            r@.to_set() == set_items(*self),
    {
        self.set.iter().copied().collect()
    }
}

} // verus!
