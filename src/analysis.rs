use crate::board::Board;
use crate::group_id::GroupId;
use crate::grouping::{dense_in_order, group_connected_stones, groups_cells, labels_components};
use crate::player::Player;
use crate::pos::{
    adjacent, cell_count, down_of, lemma_adjacent_symmetric, lemma_neighbours_on_board, left_of,
    num_cells, right_of, up_of,
    BoardSize, NumStones, Pos,
};
use crate::small_set::GroupSet;
use vstd::prelude::*;

verus! {

/// Cell `e` belongs to group `g` or has a neighbour in it.
pub open spec fn near<BS: BoardSize>(ids: Seq<nat>, e: nat, g: nat) -> bool {
    ||| ids[e as int] == g
    ||| (left_of::<BS>(e) matches Some(c) && ids[c as int] == g)
    ||| (right_of::<BS>(e) matches Some(c) && ids[c as int] == g)
    ||| (up_of::<BS>(e) matches Some(c) && ids[c as int] == g)
    ||| (down_of::<BS>(e) matches Some(c) && ids[c as int] == g)
}

/// How many of the cells `0 .. k` are empty and near group `g`.
pub open spec fn liberties_before<BS: BoardSize>(
    cells: Seq<Option<Player>>,
    ids: Seq<nat>,
    g: nat,
    k: nat,
) -> nat
    decreases k,
{
    if k == 0 {
        0
    } else {
        liberties_before::<BS>(cells, ids, g, (k - 1) as nat) + if cells[k - 1] is None && near::<
            BS,
        >(ids, (k - 1) as nat, g) {
            1nat
        } else {
            0nat
        }
    }
}

/// The liberties of group `g`: the empty cells that touch it.
pub open spec fn num_liberties<BS: BoardSize>(
    cells: Seq<Option<Player>>,
    ids: Seq<nat>,
    g: nat,
) -> nat {
    liberties_before::<BS>(cells, ids, g, cells.len())
}

/// How many of the cells `0 .. k` hold a stone.
pub open spec fn occupied_before(cells: Seq<Option<Player>>, k: nat) -> nat
    decreases k,
{
    if k == 0 {
        0
    } else {
        occupied_before(cells, (k - 1) as nat) + if cells[k - 1] is Some {
            1nat
        } else {
            0nat
        }
    }
}

/// How many cells hold a stone.
pub open spec fn num_occupied(cells: Seq<Option<Player>>) -> nat {
    occupied_before(cells, cells.len())
}

/// The empty cells among `0 .. k`.
pub open spec fn empty_cells_before(cells: Seq<Option<Player>>, k: nat) -> Set<nat> {
    Set::new(|c: nat| c < k && cells[c as int] is None)
}

/// The group numbers of the groups of stones.
pub open spec fn stone_groups(cells: Seq<Option<Player>>, ids: Seq<nat>) -> Set<nat> {
    Set::new(|g: nat| exists|c: nat| c < cells.len() && cells[c as int] is Some && #[trigger] ids[c as int] == g)
}

/// The group numbers of the groups of empty cells.
pub open spec fn empty_groups(cells: Seq<Option<Player>>, ids: Seq<nat>) -> Set<nat> {
    Set::new(|g: nat| exists|c: nat| c < cells.len() && cells[c as int] is None && #[trigger] ids[c as int] == g)
}

/// The numbers below `k`.
pub open spec fn below(k: nat) -> Set<nat> {
    Set::new(|g: nat| g < k)
}

proof fn lemma_below(k: nat)
    ensures
        below(k).finite(),
        below(k).len() == k,
    decreases k,
{
    if k > 0 {
        lemma_below((k - 1) as nat);
        assert(below(k) =~= below((k - 1) as nat).insert((k - 1) as nat));
    } else {
        assert(below(0) =~= Set::<nat>::empty());
    }
}

proof fn lemma_empty_cells_count(cells: Seq<Option<Player>>, k: nat)
    ensures
        empty_cells_before(cells, k).finite(),
        empty_cells_before(cells, k).len() + occupied_before(cells, k) == k,
    decreases k,
{
    if k > 0 {
        let j = (k - 1) as nat;
        lemma_empty_cells_count(cells, j);
        if cells[j as int] is None {
            assert(empty_cells_before(cells, k) =~= empty_cells_before(cells, j).insert(j));
        } else {
            assert(empty_cells_before(cells, k) =~= empty_cells_before(cells, j));
        }
    } else {
        assert(empty_cells_before(cells, 0) =~= Set::<nat>::empty());
    }
}

/// The number of groups is at most the number of empty cells plus the number
/// of groups of stones.
pub proof fn lemma_group_count_bound(cells: Seq<Option<Player>>, ids: Seq<nat>, count: nat)
    requires
        cells.len() == ids.len(),
        dense_in_order(ids, count),
    ensures
        stone_groups(cells, ids).finite(),
        count + num_occupied(cells) <= cells.len() + stone_groups(cells, ids).len(),
{
    let stones = stone_groups(cells, ids);
    let empties = empty_groups(cells, ids);
    let e = empty_cells_before(cells, cells.len());
    lemma_below(count);
    lemma_empty_cells_count(cells, cells.len());
    assert(stones.subset_of(below(count))) by {
        assert forall|g: nat| stones.contains(g) implies below(count).contains(g) by {
            let c = choose|c: nat| c < cells.len() && cells[c as int] is Some && #[trigger] ids[c as int] == g;
            assert(ids[c as int] < count);
        }
    }
    vstd::set_lib::lemma_len_subset(stones, below(count));
    let f = |c: nat| ids[c as int];
    assert(e.map(f) =~= empties) by {
        assert forall|g: nat| empties.contains(g) implies e.map(f).contains(g) by {
            let c = choose|c: nat| c < cells.len() && cells[c as int] is None && #[trigger] ids[c as int] == g;
            assert(e.contains(c) && f(c) == g);
        }
    }
    vstd::set_lib::lemma_map_size_bound(e, empties, f);
    assert(below(count).subset_of(stones.union(empties))) by {
        assert forall|g: nat| below(count).contains(g) implies stones.union(empties).contains(g) by {
            assert(crate::grouping::id_used(ids, g));
            let i = choose|i: int| 0 <= i < ids.len() && #[trigger] ids[i] == g;
            let c = i as nat;
            assert(ids[c as int] == g);
            if cells[i] is Some {
                assert(stones.contains(g));
            } else {
                assert(empties.contains(g));
            }
        }
    }
    vstd::set_lib::lemma_len_union(stones, empties);
    vstd::set_lib::lemma_len_subset(below(count), stones.union(empties));
}

/// The cells among `0 .. k` that hold a stone in `before` and are empty in `after`.
pub open spec fn removed_before(
    before: Seq<Option<Player>>,
    after: Seq<Option<Player>>,
    k: nat,
) -> Set<nat> {
    Set::new(|c: nat| c < k && before[c as int] is Some && after[c as int] is None)
}

/// The cells that hold a stone in `before` and are empty in `after`.
pub open spec fn removed_stones(before: Seq<Option<Player>>, after: Seq<Option<Player>>) -> Set<
    nat,
> {
    removed_before(before, after, before.len())
}

/// When `after` only empties cells of `before`, the stones gone are the
/// difference of the two stone counts.
pub proof fn lemma_removed_stones_count(
    before: Seq<Option<Player>>,
    after: Seq<Option<Player>>,
    k: nat,
)
    requires
        after.len() == before.len(),
        k <= before.len(),
        forall|c: int| 0 <= c < before.len() ==> #[trigger] after[c] == before[c] || after[c] is None,
    ensures
        removed_before(before, after, k).finite(),
        occupied_before(before, k) == occupied_before(after, k) + removed_before(before, after, k).len(),
    decreases k,
{
    if k == 0 {
        assert(removed_before(before, after, 0) =~= Set::<nat>::empty());
    } else {
        let j = (k - 1) as nat;
        lemma_removed_stones_count(before, after, j);
        assert(after[j as int] == before[j as int] || after[j as int] is None);
        if before[j as int] is Some && after[j as int] is None {
            assert(removed_before(before, after, k) =~= removed_before(before, after, j).insert(j));
        } else {
            assert(removed_before(before, after, k) =~= removed_before(before, after, j));
        }
    }
}

/// The cells with every cell of group `g` emptied.
pub open spec fn without_group(cells: Seq<Option<Player>>, ids: Seq<nat>, g: nat) -> Seq<
    Option<Player>,
> {
    Seq::new(cells.len(), |c: int| if ids[c] == g { None } else { cells[c] })
}

/// A count of cells never exceeds the cells counted.
pub proof fn lemma_liberties_bound<BS: BoardSize>(
    cells: Seq<Option<Player>>,
    ids: Seq<nat>,
    g: nat,
    k: nat,
)
    ensures
        liberties_before::<BS>(cells, ids, g, k) <= k,
    decreases k,
{
    if k > 0 {
        lemma_liberties_bound::<BS>(cells, ids, g, (k - 1) as nat);
    }
}

/// Emptying an occupied cell `c` adds it to the liberties of exactly the groups it is near.
pub proof fn lemma_liberties_empty_cell<BS: BoardSize>(
    cells: Seq<Option<Player>>,
    ids: Seq<nat>,
    g: nat,
    c: nat,
    k: nat,
)
    requires
        c < cells.len(),
        k <= cells.len(),
        cells[c as int] is Some,
    ensures
        liberties_before::<BS>(cells.update(c as int, None), ids, g, k) == liberties_before::<BS>(
            cells,
            ids,
            g,
            k,
        ) + if c < k && near::<BS>(ids, c, g) {
            1nat
        } else {
            0nat
        },
    decreases k,
{
    if k > 0 {
        lemma_liberties_empty_cell::<BS>(cells, ids, g, c, (k - 1) as nat);
    }
}

/// A group without liberties has no empty cell near it.
pub proof fn lemma_no_liberties<BS: BoardSize>(
    cells: Seq<Option<Player>>,
    ids: Seq<nat>,
    g: nat,
    e: nat,
    k: nat,
)
    requires
        liberties_before::<BS>(cells, ids, g, k) == 0,
        e < k,
    ensures
        !(cells[e as int] is None && near::<BS>(ids, e, g)),
    decreases k,
{
    if e < k - 1 {
        lemma_no_liberties::<BS>(cells, ids, g, e, (k - 1) as nat);
    }
}

/// An empty cell near group `g` gives it a liberty.
pub proof fn lemma_liberty_positive<BS: BoardSize>(
    cells: Seq<Option<Player>>,
    ids: Seq<nat>,
    g: nat,
    e: nat,
    k: nat,
)
    requires
        e < k,
        cells[e as int] is None,
        near::<BS>(ids, e, g),
    ensures
        liberties_before::<BS>(cells, ids, g, k) > 0,
    decreases k,
{
    if e < k - 1 {
        lemma_liberty_positive::<BS>(cells, ids, g, e, (k - 1) as nat);
    }
}

/// A group with a liberty has an empty cell near it.
pub proof fn lemma_liberty_witness<BS: BoardSize>(
    cells: Seq<Option<Player>>,
    ids: Seq<nat>,
    g: nat,
    k: nat,
)
    requires
        liberties_before::<BS>(cells, ids, g, k) > 0,
    ensures
        exists|e: nat| e < k && cells[e as int] is None && #[trigger] near::<BS>(ids, e, g),
    decreases k,
{
    let j = (k - 1) as nat;
    if liberties_before::<BS>(cells, ids, g, j) > 0 {
        lemma_liberty_witness::<BS>(cells, ids, g, j);
    } else {
        assert(cells[j as int] is None && near::<BS>(ids, j, g));
    }
}

/// Emptying an occupied cell leaves one stone fewer.
pub proof fn lemma_occupied_empty_cell(cells: Seq<Option<Player>>, c: nat, k: nat)
    requires
        c < cells.len(),
        k <= cells.len(),
        cells[c as int] is Some,
    ensures
        occupied_before(cells.update(c as int, None), k) + if c < k {
            1nat
        } else {
            0nat
        } == occupied_before(cells, k),
    decreases k,
{
    if k > 0 {
        lemma_occupied_empty_cell(cells, c, (k - 1) as nat);
    }
}

/// A cell next to a cell of group `g` is near `g`.
pub proof fn lemma_near_neighbour<BS: BoardSize>(ids: Seq<nat>, c: nat, e: nat, g: nat)
    requires
        c < num_cells::<BS>(),
        adjacent::<BS>(c, e),
        ids[c as int] == g,
    ensures
        near::<BS>(ids, e, g),
{
    lemma_adjacent_symmetric::<BS>(c, e);
}

/// Next to a group without liberties, every other group near one of its cells
/// is a group of stones.
proof fn lemma_neighbour_occupied<BS: BoardSize>(
    cells: Seq<Option<Player>>,
    ids: Seq<nat>,
    owners: Seq<Option<Player>>,
    g: nat,
    k: nat,
    x: nat,
)
    requires
        k < num_cells::<BS>(),
        cells.len() == num_cells::<BS>(),
        ids.len() == num_cells::<BS>(),
        ids[k as int] == g,
        x != g,
        near::<BS>(ids, k, x),
        num_liberties::<BS>(cells, ids, g) == 0,
        forall|c: int| 0 <= c < cells.len() ==> #[trigger] owners[ids[c] as int] == cells[c],
    ensures
        owners[x as int] is Some,
{
    lemma_neighbours_on_board::<BS>(k);
    let c: nat = if left_of::<BS>(k) is Some && ids[left_of::<BS>(k)->0 as int] == x {
        left_of::<BS>(k)->0
    } else if right_of::<BS>(k) is Some && ids[right_of::<BS>(k)->0 as int] == x {
        right_of::<BS>(k)->0
    } else if up_of::<BS>(k) is Some && ids[up_of::<BS>(k)->0 as int] == x {
        up_of::<BS>(k)->0
    } else {
        down_of::<BS>(k)->0
    };
    assert(c < num_cells::<BS>() && adjacent::<BS>(k, c) && ids[c as int] == x);
    lemma_near_neighbour::<BS>(ids, k, c, g);
    lemma_no_liberties::<BS>(cells, ids, g, c, cells.len());
    assert(owners[ids[c as int] as int] == cells[c as int]);
}

/// The empty cells among `0 .. k` next to some cell of group `g`.
pub open spec fn adjacent_empty_before<BS: BoardSize>(
    cells: Seq<Option<Player>>,
    ids: Seq<nat>,
    g: nat,
    k: nat,
) -> Set<nat> {
    Set::new(
        |e: nat|
            e < k && cells[e as int] is None && exists|c: nat|
                c < cells.len() && ids[c as int] == g && #[trigger] adjacent::<BS>(c, e),
    )
}

/// The distinct empty cells next to some cell of group `g`.
pub open spec fn adjacent_empty_cells<BS: BoardSize>(
    cells: Seq<Option<Player>>,
    ids: Seq<nat>,
    g: nat,
) -> Set<nat> {
    adjacent_empty_before::<BS>(cells, ids, g, cells.len())
}

proof fn lemma_liberties_prefix<BS: BoardSize>(
    cells: Seq<Option<Player>>,
    ids: Seq<nat>,
    g: nat,
    k: nat,
)
    requires
        cells.len() == num_cells::<BS>(),
        ids.len() == num_cells::<BS>(),
        k <= cells.len(),
        forall|c: int| 0 <= c < cells.len() && #[trigger] ids[c] == g ==> cells[c] is Some,
    ensures
        adjacent_empty_before::<BS>(cells, ids, g, k).finite(),
        adjacent_empty_before::<BS>(cells, ids, g, k).len() == liberties_before::<BS>(
            cells,
            ids,
            g,
            k,
        ),
    decreases k,
{
    let s = adjacent_empty_before::<BS>(cells, ids, g, k);
    if k == 0 {
        assert(s =~= Set::<nat>::empty());
    } else {
        let j = (k - 1) as nat;
        lemma_liberties_prefix::<BS>(cells, ids, g, j);
        let t = adjacent_empty_before::<BS>(cells, ids, g, j);
        let touches = exists|c: nat|
            c < cells.len() && ids[c as int] == g && #[trigger] adjacent::<BS>(c, j);
        assert(touches && cells[j as int] is None <==> cells[j as int] is None && near::<BS>(
            ids,
            j,
            g,
        )) by {
            if touches && cells[j as int] is None {
                let c = choose|c: nat|
                    c < cells.len() && ids[c as int] == g && #[trigger] adjacent::<BS>(c, j);
                lemma_near_neighbour::<BS>(ids, c, j, g);
            }
            if cells[j as int] is None && near::<BS>(ids, j, g) {
                lemma_neighbours_on_board::<BS>(j);
                assert(ids[j as int] != g);
                let c: nat = if left_of::<BS>(j) is Some && ids[left_of::<BS>(j)->0 as int] == g {
                    left_of::<BS>(j)->0
                } else if right_of::<BS>(j) is Some && ids[right_of::<BS>(j)->0 as int] == g {
                    right_of::<BS>(j)->0
                } else if up_of::<BS>(j) is Some && ids[up_of::<BS>(j)->0 as int] == g {
                    up_of::<BS>(j)->0
                } else {
                    down_of::<BS>(j)->0
                };
                assert(c < cells.len() && adjacent::<BS>(j, c) && ids[c as int] == g);
                lemma_adjacent_symmetric::<BS>(j, c);
            }
        }
        if touches && cells[j as int] is None {
            assert(s =~= t.insert(j));
        } else {
            assert(s =~= t);
        }
    }
}

/// For a group of stones, the liberties counted are exactly the distinct
/// empty cells next to some cell of the group.
pub proof fn lemma_liberties_are_adjacent_empty_cells<BS: BoardSize>(
    cells: Seq<Option<Player>>,
    ids: Seq<nat>,
    g: nat,
)
    requires
        cells.len() == num_cells::<BS>(),
        ids.len() == num_cells::<BS>(),
        forall|c: int| 0 <= c < cells.len() && #[trigger] ids[c] == g ==> cells[c] is Some,
    ensures
        num_liberties::<BS>(cells, ids, g) == adjacent_empty_cells::<BS>(cells, ids, g).len(),
{
    lemma_liberties_prefix::<BS>(cells, ids, g, cells.len());
}

/// The owner and the number of liberties of one group.
#[derive(Debug, PartialEq, Eq)]
pub struct GroupInfo<BS: BoardSize> {
    /// The player whose stones form the group; `None` for a group of empty cells.
    pub owner: Option<Player>,
    /// The number of distinct empty cells next to the group.
    pub liberties: NumStones<BS>,
}

impl<BS: BoardSize> Clone for GroupInfo<BS> {
    fn clone(&self) -> Self {
        *self
    }
}

impl<BS: BoardSize> Copy for GroupInfo<BS> {

}

/// The groups of a board, with the owner and liberties of each.
#[derive(Debug, PartialEq, Eq)]
pub struct Analysis<BS: BoardSize> {
    /// The group number of each cell.
    pos_to_group: Vec<GroupId<BS>>,
    /// The owner and liberties of each group.
    group_info: Vec<GroupInfo<BS>>,
}

/// Reads a group number as a small integer.
fn id_at<BS: BoardSize>(ids: &Vec<GroupId<BS>>, pos: Pos<BS>) -> (r: u16)
    requires
        ids@.len() == num_cells::<BS>(),
    ensures
        pos@ < num_cells::<BS>(),
        r as nat == ids@[pos@ as int]@,
        r as nat == ids@.map_values(|g: GroupId<BS>| g@)[pos@ as int],
{
    let i = pos.index();
    ids[i].into_usize() as u16
}

/// The distinct group numbers near `pos`: its own and its neighbours'.
fn liberty_targets<BS: BoardSize>(ids: &Vec<GroupId<BS>>, pos: Pos<BS>, num: Ghost<nat>) -> (r:
    Vec<u16>)
    requires
        ids@.len() == num_cells::<BS>(),
        forall|c: int| 0 <= c < ids@.len() ==> (#[trigger] ids@[c])@ < num@,
    ensures
        r@.no_duplicates(),
        forall|x: u16| #[trigger] r@.contains(x) ==> (x as nat) < num@,
        forall|x: u16|
            #[trigger] r@.contains(x) <==> near::<BS>(
                ids@.map_values(|g: GroupId<BS>| g@),
                pos@,
                x as nat,
            ),
{
    let ghost v = ids@.map_values(|g: GroupId<BS>| g@);
    let mut set = GroupSet::new();
    set.insert(id_at(ids, pos));
    if let Some(left) = pos.left() {
        set.insert(id_at(ids, left));
    }
    if let Some(up) = pos.up() {
        set.insert(id_at(ids, up));
    }
    if let Some(right) = pos.right() {
        set.insert(id_at(ids, right));
    }
    if let Some(down) = pos.down() {
        set.insert(id_at(ids, down));
    }
    let r = set.items();
    proof {
        assert forall|x: u16| #[trigger] r@.contains(x) <==> near::<BS>(v, pos@, x as nat) by {
            assert(r@.to_set().contains(x) <==> r@.contains(x));
        }
        assert forall|x: u16| #[trigger] r@.contains(x) implies (x as nat) < num@ by {
            assert(r@.to_set().contains(x));
        }
    }
    r
}

/// Gives each group listed in `targets` one more liberty.
fn add_liberty_to<BS: BoardSize>(info: &mut Vec<GroupInfo<BS>>, targets: &Vec<u16>)
    requires
        targets@.no_duplicates(),
        old(info)@.len() <= NumStones::<BS>::max_count(),
        forall|x: u16| #[trigger] targets@.contains(x) ==> (x as nat) < old(info)@.len(),
        forall|x: u16|
            #[trigger] targets@.contains(x) ==> old(info)@[x as int].liberties@ < NumStones::<
                BS,
            >::max_count(),
    ensures
        final(info)@.len() == old(info)@.len(),
        forall|h: int| 0 <= h < old(info)@.len() ==> (#[trigger] final(info)@[h]).owner == old(info)@[h].owner,
        forall|h: int|
            0 <= h < old(info)@.len() ==> (#[trigger] final(info)@[h]).liberties@ == old(
                info,
            )@[h].liberties@ + if targets@.contains(h as u16) {
                1nat
            } else {
                0nat
            },
{
    let ghost base = info@;
    let mut t: usize = 0;
    while t < targets.len()
        invariant
            targets@.no_duplicates(),
            base == old(info)@,
            base.len() <= NumStones::<BS>::max_count(),
            forall|x: u16| #[trigger] targets@.contains(x) ==> (x as nat) < base.len(),
            forall|x: u16|
                #[trigger] targets@.contains(x) ==> base[x as int].liberties@ < NumStones::<
                    BS,
                >::max_count(),
            info@.len() == base.len(),
            t <= targets@.len(),
            forall|h: int| 0 <= h < base.len() ==> (#[trigger] info@[h]).owner == base[h].owner,
            forall|h: int|
                0 <= h < base.len() ==> (#[trigger] info@[h]).liberties@ == base[h].liberties@
                    + if targets@.subrange(0, t as int).contains(h as u16) {
                    1nat
                } else {
                    0nat
                },
        decreases targets@.len() - t,
    {
        let x = targets[t];
        proof {
            assert(targets@.contains(x));
            assert(!targets@.subrange(0, t as int).contains(x));
        }
        let xi = x as usize;
        let old_info = info[xi];
        info.set(
            xi,
            GroupInfo { owner: old_info.owner, liberties: old_info.liberties.add(NumStones::one()) },
        );
        proof {
            let pre = targets@.subrange(0, t as int);
            assert(targets@.subrange(0, t + 1) =~= pre.push(x));
            assert forall|h: int| 0 <= h < base.len() implies (#[trigger] info@[h]).liberties@
                == base[h].liberties@ + if pre.push(x).contains(h as u16) {
                1nat
            } else {
                0nat
            } by {
                if h != xi {
                    assert((h as u16) != x);
                    assert(pre.push(x).contains(h as u16) <==> pre.contains(h as u16));
                } else {
                    assert((h as u16) == x);
                    assert(pre.push(x)[t as int] == x);
                }
            }
        }
        t = t + 1;
    }
    proof {
        assert(targets@.subrange(0, targets@.len() as int) =~= targets@);
    }
}

impl<BS: BoardSize> Analysis<BS> {
    /// The group number of each cell, in row-major order.
    pub closed spec fn ids(&self) -> Seq<nat> {
        self.pos_to_group@.map_values(|g: GroupId<BS>| g@)
    }

    /// The owner of each group.
    pub closed spec fn owners(&self) -> Seq<Option<Player>> {
        self.group_info@.map_values(|i: GroupInfo<BS>| i.owner)
    }

    /// The liberties recorded for each group.
    pub closed spec fn liberties(&self) -> Seq<nat> {
        self.group_info@.map_values(|i: GroupInfo<BS>| i.liberties@)
    }

    /// The number of groups.
    pub closed spec fn count(&self) -> nat {
        self.group_info@.len()
    }

    /// The analysis is that of the board `cells`: its groups are numbered densely
    /// in order of appearance, each group holds cells of one value with neighbouring
    /// equal cells in one group, each group's owner is its cells' value, and each
    /// group of stones records its exact number of liberties.
    pub open spec fn describes(&self, cells: Seq<Option<Player>>) -> bool {
        &&& cells.len() == num_cells::<BS>()
        &&& self.ids().len() == num_cells::<BS>()
        &&& self.owners().len() == self.count()
        &&& self.liberties().len() == self.count()
        &&& self.count() <= NumStones::<BS>::max_count()
        &&& dense_in_order(self.ids(), self.count())
        &&& groups_cells::<BS>(cells, self.ids())
        &&& forall|c: int|
            0 <= c < cells.len() ==> #[trigger] self.owners()[self.ids()[c] as int] == cells[c]
        &&& forall|g: int|
            0 <= g < self.count() && (#[trigger] self.owners()[g]) is Some ==> self.liberties()[g]
                == num_liberties::<BS>(cells, self.ids(), g as nat)
    }

    /// Groups, owners and liberties of `board`, built from scratch.
    pub fn analyze(board: &Board<BS>) -> (r: Self)
        ensures
            r.describes(board@),
            labels_components::<BS>(board@, r.ids()),
            forall|g: int|
                0 <= g < r.count() ==> #[trigger] r.liberties()[g] == num_liberties::<BS>(
                    board@,
                    r.ids(),
                    g as nat,
                ),
    {
        proof {
            board.lemma_len();
        }
        let grouped = group_connected_stones(board);
        let num = grouped.num_groups().into_usize();
        let ids_vec = grouped.into();
        let ghost ids = ids_vec@.map_values(|g: GroupId<BS>| g@);
        assert(labels_components::<BS>(board@, ids));
        let total = cell_count::<BS>();
        let mut info: Vec<GroupInfo<BS>> = Vec::new();
        let mut k: usize = 0;
        while k < num
            invariant
                info@.len() == k,
                k <= num,
                forall|g: int|
                    0 <= g < k ==> (#[trigger] info@[g]).owner is None && info@[g].liberties@ == 0,
            decreases num - k,
        {
            info.push(GroupInfo { owner: None, liberties: NumStones::zero() });
            k = k + 1;
        }
        let mut k: usize = 0;
        while k < total
            invariant
                total == num_cells::<BS>(),
                total <= 361,
                board@.len() == total,
                ids == ids_vec@.map_values(|g: GroupId<BS>| g@),
                ids.len() == total,
                dense_in_order(ids, num as nat),
                groups_cells::<BS>(board@, ids),
                info@.len() == num,
                num <= NumStones::<BS>::max_count(),
                k <= total,
                forall|c: int| 0 <= c < k ==> #[trigger] info@[ids[c] as int].owner == board@[c],
                forall|c: int|
                    0 <= c < total && (#[trigger] info@[ids[c] as int]).owner is Some
                        ==> info@[ids[c] as int].owner == board@[c],
                forall|g: int|
                    0 <= g < num ==> (#[trigger] info@[g]).liberties@ == liberties_before::<BS>(
                        board@,
                        ids,
                        g as nat,
                        k as nat,
                    ),
            decreases total - k,
        {
            let pos = Pos::<BS>::from_index(k);
            let g = ids_vec[k].into_usize();
            proof {
                assert(ids[k as int] < num);
                assert forall|h: int| 0 <= h < num implies #[trigger] liberties_before::<BS>(
                    board@,
                    ids,
                    h as nat,
                    k as nat,
                ) <= k by {
                    lemma_liberties_bound::<BS>(board@, ids, h as nat, k as nat);
                }
            }
            match board.get(pos) {
                Some(owner) => {
                    let old_info = info[g];
                    info.set(g, GroupInfo { owner: Some(owner), liberties: old_info.liberties });
                    proof {
                        assert forall|c: int|
                            0 <= c < total && (#[trigger] info@[ids[c] as int]).owner is Some
                                implies info@[ids[c] as int].owner == board@[c] by {
                            if ids[c] == g {
                                assert(ids[c] == ids[k as int]);
                            }
                        }
                    }
                },
                None => {
                    proof {
                        if info@[g as int].owner is Some {
                            assert(info@[ids[k as int] as int].owner == board@[k as int]);
                        }
                    }
                    proof {
                        assert forall|c: int| 0 <= c < ids_vec@.len() implies (
                        #[trigger] ids_vec@[c])@ < num as nat by {
                            assert(ids[c] < num);
                        }
                    }
                    let targets = liberty_targets(&ids_vec, pos, Ghost(num as nat));
                    proof {
                        assert forall|x: u16| #[trigger] targets@.contains(x) implies info@[x as int].liberties@
                            < NumStones::<BS>::max_count() by {
                            assert(info@[x as int].liberties@ <= k);
                        }
                    }
                    add_liberty_to(&mut info, &targets);
                    proof {
                        assert forall|h: int| 0 <= h < num implies (#[trigger] info@[h]).liberties@
                            == liberties_before::<BS>(board@, ids, h as nat, (k + 1) as nat) by {
                            assert((h as u16) as nat == h);
                        }
                    }
                },
            }
            k = k + 1;
        }
        let r = Analysis { pos_to_group: ids_vec, group_info: info };
        proof {
            assert(r.ids() == ids);
            assert forall|c: int|
                0 <= c < board@.len() implies #[trigger] r.owners()[r.ids()[c] as int]
                == board@[c] by {
                assert(info@[ids[c] as int].owner == board@[c]);
            }
            assert forall|g: int| 0 <= g < r.count() implies #[trigger] r.liberties()[g]
                == num_liberties::<BS>(board@, r.ids(), g as nat) by {
                assert(info@[g].liberties@ == liberties_before::<BS>(
                    board@,
                    ids,
                    g as nat,
                    total as nat,
                ));
            }
        }
        r
    }

    /// The distinct groups next to `pos`, other than its own.
    fn find_neighboring_groups(&self, pos: Pos<BS>) -> (r: Vec<u16>)
        requires
            self.ids().len() == num_cells::<BS>(),
            forall|c: int| 0 <= c < self.ids().len() ==> #[trigger] self.ids()[c] < self.count(),
        ensures
            r@.no_duplicates(),
            forall|x: u16| #[trigger] r@.contains(x) ==> (x as nat) < self.count(),
            forall|x: u16|
                #[trigger] r@.contains(x) <==> (x as nat) != self.ids()[pos@ as int] && near::<BS>(
                    self.ids(),
                    pos@,
                    x as nat,
                ),
    {
        let ids = &self.pos_to_group;
        let own = id_at(ids, pos);
        let mut set = GroupSet::new();
        if let Some(up) = pos.up() {
            let g = id_at(ids, up);
            if g != own {
                set.insert(g);
            }
        }
        if let Some(left) = pos.left() {
            let g = id_at(ids, left);
            if g != own {
                set.insert(g);
            }
        }
        if let Some(right) = pos.right() {
            let g = id_at(ids, right);
            if g != own {
                set.insert(g);
            }
        }
        if let Some(down) = pos.down() {
            let g = id_at(ids, down);
            if g != own {
                set.insert(g);
            }
        }
        let r = set.items();
        proof {
            assert forall|x: u16| #[trigger] r@.contains(x) <==> (x as nat) != self.ids()[pos@ as int]
                && near::<BS>(self.ids(), pos@, x as nat) by {
                assert(r@.to_set().contains(x) <==> r@.contains(x));
            }
            assert forall|x: u16| #[trigger] r@.contains(x) implies (x as nat) < self.count() by {
                assert(r@.to_set().contains(x));
            }
        }
        r
    }

    /// Removes the stones of group `g`, which has no liberties, from `board`:
    /// its cells become empty, each neighbouring group gains the freed cells as
    /// liberties, and `g` has no owner any more. Returns how many stones were removed.
    pub fn capture_group(&mut self, group_to_capture: GroupId<BS>, board: &mut Board<BS>) -> (r:
        NumStones<BS>)
        requires
            old(self).describes(old(board)@),
            group_to_capture@ < old(self).count(),
            old(self).owners()[group_to_capture@ as int] is Some,
            old(self).liberties()[group_to_capture@ as int] == 0,
        ensures
            final(board)@ == without_group(old(board)@, old(self).ids(), group_to_capture@),
            final(self).ids() == old(self).ids(),
            final(self).count() == old(self).count(),
            final(self).owners() == old(self).owners().update(group_to_capture@ as int, None),
            final(self).describes(final(board)@),
            r@ + num_occupied(final(board)@) == num_occupied(old(board)@),
    {
        let ghost cells0 = board@;
        let ghost ids = self.ids();
        let ghost owners0 = self.owners();
        let ghost g = group_to_capture@;
        let gi = group_to_capture.into_usize();
        let old_info = self.group_info[gi];
        self.group_info.set(gi, GroupInfo { owner: None, liberties: old_info.liberties });
        let total = cell_count::<BS>();
        let mut removed = NumStones::<BS>::zero();
        let mut k: usize = 0;
        while k < total
            invariant
                total == num_cells::<BS>(),
                total <= 361,
                cells0.len() == total,
                ids.len() == total,
                g < self.count(),
                self.count() <= NumStones::<BS>::max_count(),
                g == gi,
                owners0[g as int] is Some,
                num_liberties::<BS>(cells0, ids, g) == 0,
                self.ids() == ids,
                self.owners() == owners0.update(g as int, None),
                self.owners().len() == self.count(),
                self.liberties().len() == self.count(),
                dense_in_order(ids, self.count()),
                groups_cells::<BS>(cells0, ids),
                forall|c: int| 0 <= c < total ==> #[trigger] owners0[ids[c] as int] == cells0[c],
                k <= total,
                board@ == Seq::new(
                    total as nat,
                    |c: int|
                        if c < k && ids[c] == g {
                            None
                        } else {
                            cells0[c]
                        },
                ),
                forall|n: int|
                    0 <= n < self.count() && n != g && (#[trigger] owners0[n]) is Some
                        ==> self.liberties()[n] == num_liberties::<BS>(board@, ids, n as nat),
                removed@ + num_occupied(board@) == num_occupied(cells0),
                removed@ <= k,
            decreases total - k,
        {
            let pos = Pos::<BS>::from_index(k);
            if self.pos_to_group[k].into_usize() == gi {
                let ghost before = board@;
                proof {
                    assert(ids[k as int] == g);
                    assert(owners0[ids[k as int] as int] == cells0[k as int]);
                    assert(before[k as int] is Some);
                    lemma_occupied_empty_cell(before, k as nat, total as nat);
                    assert forall|n: int|
                        0 <= n < self.count() && n != g && (#[trigger] owners0[n]) is Some implies
                        num_liberties::<BS>(before.update(k as int, None), ids, n as nat)
                        == num_liberties::<BS>(before, ids, n as nat) + if near::<BS>(
                            ids,
                            k as nat,
                            n as nat,
                        ) {
                        1nat
                    } else {
                        0nat
                    } by {
                        lemma_liberties_empty_cell::<BS>(before, ids, n as nat, k as nat, total as nat);
                    }
                }
                board.set(pos, None);
                removed = removed.add(NumStones::one());
                let neighbours = self.find_neighboring_groups(pos);
                proof {
                    assert forall|h: int|
                        0 <= h < self.count() && h != g && owners0[h] is Some implies (
                        #[trigger] self.group_info@[h]).liberties@ <= 361 by {
                        assert(self.liberties()[h] == self.group_info@[h].liberties@);
                        lemma_liberties_bound::<BS>(before, ids, h as nat, total as nat);
                    }
                    assert forall|x: u16| #[trigger] neighbours@.contains(x) implies owners0[x as int] is Some by {
                        lemma_neighbour_occupied::<BS>(cells0, ids, owners0, g, k as nat, x as nat);
                    }
                }
                proof {
                    assert forall|x: u16| #[trigger] neighbours@.contains(x) implies self.group_info@[
                        x as int].liberties@ < NumStones::<BS>::max_count() by {
                        assert(owners0[x as int] is Some);
                        assert((x as nat) != g);
                    }
                }
                add_liberty_to(&mut self.group_info, &neighbours);

            }
            k = k + 1;
            proof {
                assert(board@ =~= Seq::new(
                    total as nat,
                    |c: int|
                        if c < k && ids[c] == g {
                            None
                        } else {
                            cells0[c]
                        },
                ));
            }
        }
        proof {
            let cells1 = board@;
            assert(cells1 =~= without_group(cells0, ids, g));
            assert forall|i: nat, j: nat|
                i < ids.len() && j < ids.len() && #[trigger] adjacent::<BS>(i, j) && cells1[i as int]
                    == cells1[j as int] implies ids[i as int] == ids[j as int] by {
                if ids[i as int] == g && ids[j as int] != g {
                    lemma_near_neighbour::<BS>(ids, i, j, g);
                    lemma_no_liberties::<BS>(cells0, ids, g, j, total as nat);
                } else if ids[j as int] == g && ids[i as int] != g {
                    lemma_adjacent_symmetric::<BS>(i, j);
                    lemma_near_neighbour::<BS>(ids, j, i, g);
                    lemma_no_liberties::<BS>(cells0, ids, g, i, total as nat);
                }
            }
            assert forall|c: int| 0 <= c < cells1.len() implies #[trigger] self.owners()[self.ids()[
                c] as int] == cells1[c] by {
                assert(owners0[ids[c] as int] == cells0[c]);
            }
            assert forall|n: int|
                0 <= n < self.count() && (#[trigger] self.owners()[n]) is Some implies self.liberties()[n]
                == num_liberties::<BS>(cells1, self.ids(), n as nat) by {
                assert(owners0[n] is Some);
            }
        }
        removed
    }

    /// The number of groups.
    pub fn num_groups(&self) -> (r: usize)
        ensures
            r == self.count(),
    {
        self.group_info.len()
    }

    /// The group number of the cell at `pos`.
    pub fn group_at(&self, pos: Pos<BS>) -> (r: GroupId<BS>)
        requires
            self.ids().len() == num_cells::<BS>(),
        ensures
            r@ == self.ids()[pos@ as int],
    {
        self.pos_to_group[pos.index()]
    }

    /// The owner and liberties of group `g`.
    pub fn group_info(&self, g: usize) -> (r: GroupInfo<BS>)
        requires
            g < self.count(),
        ensures
            r.owner == self.owners()[g as int],
            r.liberties@ == self.liberties()[g as int],
    {
        self.group_info[g]
    }

    /// Every group with its number, owner and liberties, in group order.
    pub fn groups(&self) -> (r: Vec<(GroupId<BS>, GroupInfo<BS>)>)
        requires
            self.count() <= NumStones::<BS>::max_count(),
        ensures
            r@.len() == self.count(),
            forall|g: int|
                0 <= g < r@.len() ==> (#[trigger] r@[g]).0@ == g && r@[g].1.owner
                    == self.owners()[g] && r@[g].1.liberties@ == self.liberties()[g],
    {
        let mut r: Vec<(GroupId<BS>, GroupInfo<BS>)> = Vec::new();
        let mut g: usize = 0;
        while g < self.group_info.len()
            invariant
                g <= self.count(),
                self.count() <= NumStones::<BS>::max_count(),
                r@.len() == g,
                forall|h: int|
                    0 <= h < g ==> (#[trigger] r@[h]).0@ == h && r@[h].1.owner == self.owners()[h]
                        && r@[h].1.liberties@ == self.liberties()[h],
            decreases self.count() - g,
        {
            r.push((GroupId::from_usize(g), self.group_info[g]));
            g = g + 1;
        }
        r
    }
}

} // verus!
