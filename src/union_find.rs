use crate::group_id::{GroupId, GroupedStones};
use crate::pos::{cell_count, num_cells, BoardSize, Pos};
use vstd::prelude::*;

verus! {

/// Every cell points to itself or to an earlier cell.
pub open spec fn monotone(par: Seq<nat>) -> bool {
    forall|i: int| 0 <= i < par.len() ==> #[trigger] par[i] <= i
}

/// The representative of cell `i`: the end of its chain of parent pointers.
pub open spec fn root_of(par: Seq<nat>, i: nat) -> nat
    decreases i,
{
    if i < par.len() && par[i as int] < i {
        root_of(par, par[i as int])
    } else {
        i
    }
}

/// Number of representatives among the cells `0 .. k`.
pub open spec fn num_roots(par: Seq<nat>, k: nat) -> nat
    decreases k,
{
    if k == 0 {
        0
    } else {
        num_roots(par, (k - 1) as nat) + if root_of(par, (k - 1) as nat) == k - 1 {
            1nat
        } else {
            0nat
        }
    }
}

/// The group number of cell `i`: how many representatives come before its own.
pub open spec fn label_of(par: Seq<nat>, i: nat) -> nat {
    num_roots(par, root_of(par, i))
}

/// A representative lies at or before its cell, and is its own representative.
pub proof fn lemma_root(par: Seq<nat>, i: nat)
    requires
        monotone(par),
        i < par.len(),
    ensures
        root_of(par, i) <= i,
        par[root_of(par, i) as int] == root_of(par, i),
        root_of(par, root_of(par, i)) == root_of(par, i),
    decreases i,
{
    if par[i as int] < i {
        lemma_root(par, par[i as int]);
    }
}

/// Changing the parent of cell `p` leaves the representatives of earlier cells alone.
pub proof fn lemma_root_frame(par: Seq<nat>, p: nat, v: nat, j: nat)
    requires
        j < p,
        p < par.len(),
    ensures
        root_of(par.update(p as int, v), j) == root_of(par, j),
    decreases j,
{
    if j < par.len() && par[j as int] < j {
        lemma_root_frame(par, p, v, par[j as int]);
    }
}

/// Pointing a cell at its grandparent keeps every representative.
pub proof fn lemma_split_keeps_roots(par: Seq<nat>, c: nat, j: nat)
    requires
        monotone(par),
        c < par.len(),
    ensures
        monotone(par.update(c as int, par[par[c as int] as int])),
        root_of(par.update(c as int, par[par[c as int] as int]), j) == root_of(par, j),
    decreases j,
{
    let g = par[par[c as int] as int];
    let q = par.update(c as int, g);
    assert(monotone(q)) by {
        assert forall|i: int| 0 <= i < q.len() implies #[trigger] q[i] <= i by {
            if i == c {
                assert(par[par[c as int] as int] <= par[c as int]);
            }
        }
    }
    if j < par.len() {
        let p = par[c as int];
        if j == c {
            if g < c {
                lemma_split_keeps_roots(par, c, g);
                assert(p < c);
                assert(root_of(par, c) == root_of(par, p));
                if g < p {
                    assert(root_of(par, p) == root_of(par, g));
                } else {
                    assert(root_of(par, p) == p);
                }
                assert(root_of(q, c) == root_of(q, g));
            } else {
                assert(q =~= par);
            }
        } else if par[j as int] < j {
            lemma_split_keeps_roots(par, c, par[j as int]);
        }
    }
}

/// Pointing root `b` at an earlier root `a` moves every member of `b`'s group to `a`.
pub proof fn lemma_link_roots(par: Seq<nat>, a: nat, b: nat, j: nat)
    requires
        monotone(par),
        a < b < par.len(),
        par[a as int] == a,
        par[b as int] == b,
    ensures
        monotone(par.update(b as int, a)),
        root_of(par.update(b as int, a), j) == if root_of(par, j) == b {
            a
        } else {
            root_of(par, j)
        },
    decreases j,
{
    let q = par.update(b as int, a);
    if j < par.len() {
        if j == b {
            assert(root_of(q, a) == a);
        } else if par[j as int] < j {
            lemma_link_roots(par, a, b, par[j as int]);
        }
    }
}

/// Representatives are counted in order: more cells never means fewer.
pub proof fn lemma_num_roots_mono(par: Seq<nat>, a: nat, b: nat)
    requires
        a <= b,
    ensures
        num_roots(par, a) <= num_roots(par, b),
    decreases b,
{
    if a < b {
        lemma_num_roots_mono(par, a, (b - 1) as nat);
    }
}

/// Every count below `num_roots(par, k)` is the count before some representative under `k`.
pub proof fn lemma_num_roots_hit(par: Seq<nat>, g: nat, k: nat)
    requires
        g < num_roots(par, k),
    ensures
        exists|r: nat| r < k && root_of(par, r) == r && #[trigger] num_roots(par, r) == g,
    decreases k,
{
    let j = (k - 1) as nat;
    if g < num_roots(par, j) {
        lemma_num_roots_hit(par, g, j);
        let r = choose|r: nat| r < j && root_of(par, r) == r && #[trigger] num_roots(par, r) == g;
        assert(r < k && root_of(par, r) == r && num_roots(par, r) == g);
    } else {
        assert(root_of(par, j) == j && num_roots(par, j) == g);
    }
}

/// Two cells share a group number exactly when they share a representative,
/// and every group number is below the number of representatives.
pub proof fn lemma_labels(par: Seq<nat>, i: nat, j: nat)
    requires
        monotone(par),
        i < par.len(),
        j < par.len(),
    ensures
        label_of(par, i) < num_roots(par, par.len()),
        (label_of(par, i) == label_of(par, j)) <==> (root_of(par, i) == root_of(par, j)),
{
    lemma_root(par, i);
    lemma_root(par, j);
    let ri = root_of(par, i);
    let rj = root_of(par, j);
    lemma_num_roots_mono(par, ri + 1, par.len());
    if ri < rj {
        lemma_num_roots_mono(par, ri + 1, rj);
    } else if rj < ri {
        lemma_num_roots_mono(par, rj + 1, ri);
    }
}

/// A cell with a positive group number comes after a cell with the number before it.
pub proof fn lemma_label_predecessor(par: Seq<nat>, i: nat)
    requires
        monotone(par),
        i < par.len(),
        label_of(par, i) > 0,
    ensures
        exists|j: nat| j < i && #[trigger] label_of(par, j) + 1 == label_of(par, i),
{
    lemma_root(par, i);
    let r = root_of(par, i);
    let g = (label_of(par, i) - 1) as nat;
    lemma_num_roots_hit(par, g, r);
    let j = choose|j: nat| j < r && root_of(par, j) == j && #[trigger] num_roots(par, j) == g;
    assert(label_of(par, j) + 1 == label_of(par, i));
}

/// Every group number below the number of representatives is some cell's.
pub proof fn lemma_label_used(par: Seq<nat>, g: nat)
    requires
        monotone(par),
        g < num_roots(par, par.len()),
    ensures
        exists|j: nat| j < par.len() && #[trigger] label_of(par, j) == g,
{
    lemma_num_roots_hit(par, g, par.len());
    let j = choose|j: nat| j < par.len() && root_of(par, j) == j && #[trigger] num_roots(par, j) == g;
    assert(label_of(par, j) == g);
}

/// A union-find forest over the cells of a board, whose parent pointers only
/// ever point backwards in row-major order.
pub struct UnionFindAlgorithm<BS: BoardSize> {
    /// Cells pointing to themselves are the representatives of their group.
    groups: Vec<Pos<BS>>,
}

impl<BS: BoardSize> UnionFindAlgorithm<BS> {
    /// The parent of each cell.
    pub closed spec fn parents(&self) -> Seq<nat> {
        self.groups@.map_values(|p: Pos<BS>| p@)
    }

    /// The forest covers the board and its pointers only go backwards.
    pub open spec fn wf(&self) -> bool {
        &&& self.parents().len() == num_cells::<BS>()
        &&& monotone(self.parents())
    }

    /// A forest in which every cell points at the first cell.
    pub fn new() -> (r: Self)
        ensures
            r.wf(),
            r.parents() == Seq::new(num_cells::<BS>(), |i: int| 0nat),
    {
        let total = cell_count::<BS>();
        let first = Pos::<BS>::from_index(0);
        let mut groups: Vec<Pos<BS>> = Vec::new();
        let mut i: usize = 0;
        while i < total
            invariant
                total == num_cells::<BS>(),
                i <= total,
                first@ == 0,
                groups@.len() == i,
                forall|k: int| 0 <= k < i ==> (#[trigger] groups@[k])@ == 0,
            decreases total - i,
        {
            groups.push(first);
            i = i + 1;
        }
        let r = UnionFindAlgorithm { groups };
        assert(r.parents() =~= Seq::new(num_cells::<BS>(), |i: int| 0nat));
        r
    }

    /// Makes `group_root` the parent of `pos`.
    pub fn add_to_group(&mut self, pos: Pos<BS>, group_root: Pos<BS>)
        requires
            old(self).wf(),
            group_root@ <= pos@,
        ensures
            final(self).wf(),
            final(self).parents() == old(self).parents().update(pos@ as int, group_root@),
    {
        let i = pos.index();
        self.groups.set(i, group_root);
        proof {
            assert(self.parents() =~= old(self).parents().update(pos@ as int, group_root@));
        }
    }

    /// The representative of `current_pos`. Shortens the chains on the way by
    /// pointing each visited cell at its grandparent, which keeps every representative.
    pub fn find_group_root(&mut self, current_pos: Pos<BS>) -> (r: Pos<BS>)
        requires
            old(self).wf(),
        ensures
            final(self).wf(),
            r@ == root_of(old(self).parents(), current_pos@),
            forall|j: nat|
                #[trigger] root_of(final(self).parents(), j) == root_of(old(self).parents(), j),
    {
        let ghost par0 = self.parents();
        let mut current = current_pos;
        let mut parent = self.groups[current.index()];
        let mut grandparent = self.groups[parent.index()];
        while parent.index() != current.index()
            invariant
                self.wf(),
                self.parents()[current@ as int] == parent@,
                self.parents()[parent@ as int] == grandparent@,
                root_of(self.parents(), current@) == root_of(par0, current_pos@),
                forall|j: nat| #[trigger] root_of(self.parents(), j) == root_of(par0, j),
            decreases current@,
        {
            let ghost par = self.parents();
            proof {
                assert forall|j: nat| #[trigger]
                    root_of(par.update(current@ as int, grandparent@), j) == root_of(par0, j) by {
                    lemma_split_keeps_roots(par, current@, j);
                }
                lemma_split_keeps_roots(par, current@, 0);
            }
            let ci = current.index();
            self.groups.set(ci, grandparent);
            proof {
                assert(self.parents() =~= par.update(current@ as int, grandparent@));
                assert(parent@ < current@);
                assert(root_of(par, current@) == root_of(par, parent@));
            }
            current = parent;
            parent = grandparent;
            grandparent = self.groups[parent.index()];
        }
        current
    }

    /// Joins the groups of two distinct representatives; the earlier one stays
    /// the representative.
    pub fn merge_groups(&mut self, lhs_group_root: Pos<BS>, rhs_group_root: Pos<BS>) -> (r: Pos<
        BS,
    >)
        requires
            old(self).wf(),
            lhs_group_root@ != rhs_group_root@,
            root_of(old(self).parents(), lhs_group_root@) == lhs_group_root@,
            root_of(old(self).parents(), rhs_group_root@) == rhs_group_root@,
        ensures
            final(self).wf(),
            r@ == if lhs_group_root@ <= rhs_group_root@ {
                lhs_group_root@
            } else {
                rhs_group_root@
            },
            final(self).parents() == if lhs_group_root@ <= rhs_group_root@ {
                old(self).parents().update(rhs_group_root@ as int, lhs_group_root@)
            } else {
                old(self).parents().update(lhs_group_root@ as int, rhs_group_root@)
            },
            forall|j: nat| #[trigger]
                root_of(final(self).parents(), j) == if root_of(old(self).parents(), j)
                    == lhs_group_root@ || root_of(old(self).parents(), j) == rhs_group_root@ {
                    r@
                } else {
                    root_of(old(self).parents(), j)
                },
    {
        let ghost par = self.parents();
        let li = lhs_group_root.index();
        let ri = rhs_group_root.index();
        proof {
            lemma_root(par, li as nat);
            lemma_root(par, ri as nat);
        }
        if li <= ri {
            proof {
                assert forall|j: nat| #[trigger]
                    root_of(par.update(ri as int, li as nat), j) == if root_of(par, j) == ri {
                        li as nat
                    } else {
                        root_of(par, j)
                    } by {
                    lemma_link_roots(par, li as nat, ri as nat, j);
                }
                lemma_link_roots(par, li as nat, ri as nat, 0);
            }
            self.groups.set(ri, lhs_group_root);
            proof {
                assert(self.parents() =~= par.update(ri as int, li as nat));
            }
            lhs_group_root
        } else {
            proof {
                assert forall|j: nat| #[trigger]
                    root_of(par.update(li as int, ri as nat), j) == if root_of(par, j) == li {
                        ri as nat
                    } else {
                        root_of(par, j)
                    } by {
                    lemma_link_roots(par, ri as nat, li as nat, j);
                }
                lemma_link_roots(par, ri as nat, li as nat, 0);
            }
            self.groups.set(li, rhs_group_root);
            proof {
                assert(self.parents() =~= par.update(li as int, ri as nat));
            }
            rhs_group_root
        }
    }

    /// Numbers the groups `0, 1, ...` in the order their representatives appear.
    pub fn finalize(&mut self) -> (r: GroupedStones<BS>)
        requires
            old(self).wf(),
        ensures
            final(self).wf(),
            forall|j: nat| #[trigger]
                root_of(final(self).parents(), j) == root_of(old(self).parents(), j),
            r.ids().len() == num_cells::<BS>(),
            r.count() == num_roots(old(self).parents(), num_cells::<BS>()),
            forall|i: int|
                0 <= i < num_cells::<BS>() ==> #[trigger] r.ids()[i] == label_of(
                    old(self).parents(),
                    i as nat,
                ),
    {
        let ghost par0 = self.parents();
        let total = cell_count::<BS>();
        let mut ids: Vec<GroupId<BS>> = Vec::new();
        let mut next = GroupId::<BS>::zero();
        let mut index: usize = 0;
        while index < total
            invariant
                total == num_cells::<BS>(),
                total <= 361,
                self.wf(),
                forall|j: nat| #[trigger] root_of(self.parents(), j) == root_of(par0, j),
                monotone(par0),
                par0.len() == total,
                index <= total,
                ids@.len() == index,
                next@ == num_roots(par0, index as nat),
                next@ <= index,
                forall|k: int|
                    0 <= k < index ==> (#[trigger] ids@[k])@ == label_of(par0, k as nat),
            decreases total - index,
        {
            let current = Pos::<BS>::from_index(index);
            let root = self.find_group_root(current);
            proof {
                lemma_root(par0, index as nat);
            }
            let ri = root.index();
            if ri == index {
                ids.push(next);
                next.increment();
            } else {
                proof {
                    lemma_root(par0, ri as nat);
                }
                let id = ids[ri];
                ids.push(id);
            }
            index = index + 1;
        }
        GroupedStones::new(ids, next)
    }
}

} // verus!
