use crate::pos::{num_cells, BoardSize, NumStones, Pos};
use vstd::prelude::*;

verus! {

/// The number of a group within one analysis of a board.
#[derive(Debug, PartialEq, Eq, PartialOrd, Ord, Hash)]
pub struct GroupId<BS: BoardSize> {
    index: NumStones<BS>,
}

impl<BS: BoardSize> Clone for GroupId<BS> {
    fn clone(&self) -> Self {
        *self
    }
}

impl<BS: BoardSize> Copy for GroupId<BS> {

}

impl<BS: BoardSize> View for GroupId<BS> {
    type V = nat;

    closed spec fn view(&self) -> nat {
        self.index@
    }
}

impl<BS: BoardSize> GroupId<BS> {
    /// The first group number.
    pub fn zero() -> (r: Self)
        ensures
            r@ == 0,
    {
        GroupId { index: NumStones::zero() }
    }

    /// The group number `index`.
    pub fn from_usize(index: usize) -> (r: Self)
        requires
            index <= NumStones::<BS>::max_count(),
        ensures
            r@ == index,
    {
        GroupId { index: NumStones::from_usize(index) }
    }

    /// The group number as a `usize`.
    pub fn into_usize(&self) -> (r: usize)
        ensures
            r == self@,
            r <= NumStones::<BS>::max_count(),
    {
        self.index.into_usize()
    }

    /// Moves on to the next group number.
    pub fn increment(&mut self)
        requires
            old(self)@ < NumStones::<BS>::max_count(),
        ensures
            final(self)@ == old(self)@ + 1,
    {
        self.index = self.index.add(NumStones::one());
    }
}

/// A group number for every cell of a board, and the number of groups.
#[derive(Debug, PartialEq, Eq)]
pub struct GroupedStones<BS: BoardSize> {
    pos_to_group: Vec<GroupId<BS>>,
    num_groups: GroupId<BS>,
}

impl<BS: BoardSize> GroupedStones<BS> {
    #[verifier::type_invariant]
    closed spec fn covers_board(self) -> bool {
        self.pos_to_group@.len() == num_cells::<BS>()
    }

    /// The group number of each cell, in row-major order.
    pub closed spec fn ids(&self) -> Seq<nat> {
        self.pos_to_group@.map_values(|g: GroupId<BS>| g@)
    }

    /// The number of groups.
    pub closed spec fn count(&self) -> nat {
        self.num_groups@
    }

    /// Group numbers given cell by cell, with the number of groups.
    pub fn new(pos_to_group: Vec<GroupId<BS>>, num_groups: GroupId<BS>) -> (r: Self)
        requires
            pos_to_group@.len() == num_cells::<BS>(),
        ensures
            r.ids() == pos_to_group@.map_values(|g: GroupId<BS>| g@),
            r.count() == num_groups@,
    {
        GroupedStones { pos_to_group, num_groups }
    }

    /// Every cell has a group number.
    pub fn len(&self) -> (r: usize)
        ensures
            r == self.ids().len(),
            r == num_cells::<BS>(),
    {
        proof {
            use_type_invariant(self);
        }
        self.pos_to_group.len()
    }

    /// The group number of the cell at `pos`.
    pub fn group_at(&self, pos: Pos<BS>) -> (r: GroupId<BS>)
        ensures
            r@ == self.ids()[pos@ as int],
    {
        proof {
            use_type_invariant(self);
        }
        self.pos_to_group[pos.index()]
    }

    /// The number of groups.
    pub fn num_groups(&self) -> (r: GroupId<BS>)
        ensures
            r@ == self.count(),
    {
        self.num_groups
    }

    /// The group number of each cell.
    pub fn into(self) -> (r: Vec<GroupId<BS>>)
        ensures
            r@.map_values(|g: GroupId<BS>| g@) == self.ids(),
            r@.len() == num_cells::<BS>(),
    {
        proof {
            use_type_invariant(&self);
        }
        self.pos_to_group
    }
}

} // verus!
