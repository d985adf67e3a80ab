use crate::board::Board;
use crate::group_id::GroupedStones;
use crate::connect::{
    connected, lemma_connected_refl, lemma_connected_step, lemma_connected_sym,
    lemma_connected_trans, lemma_path_same_label,
};
use crate::player::Player;
use crate::pos::{
    adjacent, cell_count, lemma_adjacent_symmetric, left_of, num_cells, up_of, BoardSize, Pos,
};
use crate::union_find::{
    label_of, lemma_label_predecessor, lemma_label_used, lemma_labels, lemma_root, lemma_root_frame,
    monotone, root_of, UnionFindAlgorithm,
};
use vstd::prelude::*;

verus! {

/// Some cell has group number `k`.
pub open spec fn id_used(ids: Seq<nat>, k: nat) -> bool {
    exists|i: int| 0 <= i < ids.len() && #[trigger] ids[i] == k
}

/// Group numbers `ids` with `g` groups: each number is below `g`, each of
/// `0 .. g` is used, and numbers first appear in increasing order.
pub open spec fn dense_in_order(ids: Seq<nat>, g: nat) -> bool {
    &&& forall|i: int| 0 <= i < ids.len() ==> #[trigger] ids[i] < g
    &&& forall|k: nat| k < g ==> #[trigger] id_used(ids, k)
    &&& forall|i: int|
        0 <= i < ids.len() && #[trigger] ids[i] > 0 ==> exists|j: int|
            0 <= j < i && #[trigger] ids[j] + 1 == ids[i]
}

/// Cells with one group number hold one value, and neighbouring cells that
/// hold one value have one group number.
pub open spec fn groups_cells<BS: BoardSize>(cells: Seq<Option<Player>>, ids: Seq<nat>) -> bool {
    &&& forall|i: int, j: int|
        0 <= i < ids.len() && 0 <= j < ids.len() && #[trigger] ids[i] == #[trigger] ids[j]
            ==> cells[i] == cells[j]
    &&& forall|i: nat, j: nat|
        i < ids.len() && j < ids.len() && #[trigger] adjacent::<BS>(i, j) && cells[i as int]
            == cells[j as int] ==> ids[i as int] == ids[j as int]
}

/// Two cells share a group number exactly when a path of equal cells joins them.
pub open spec fn labels_components<BS: BoardSize>(cells: Seq<Option<Player>>, ids: Seq<nat>) -> bool {
    forall|i: nat, j: nat|
        #![trigger connected::<BS>(cells, i, j)]
        #![trigger ids[i as int], ids[j as int]]
        i < ids.len() && j < ids.len() ==> (ids[i as int] == ids[j as int] <==> connected::<BS>(
            cells,
            i,
            j,
        ))
}

/// On a board whose cells all hold one value, every cell is joined to the first.
proof fn lemma_uniform_connected<BS: BoardSize>(cells: Seq<Option<Player>>, i: nat)
    requires
        cells.len() == num_cells::<BS>(),
        i < cells.len(),
        forall|c: int| 0 <= c < cells.len() ==> #[trigger] cells[c] == cells[0],
    ensures
        connected::<BS>(cells, 0, i),
    decreases i,
{
    crate::pos::lemma_num_cells_bound::<BS>();
    crate::pos::lemma_neighbours_on_board::<BS>(i);
    if i == 0 {
        lemma_connected_refl::<BS>(cells, 0);
    } else if left_of::<BS>(i) is Some {
        let j = (i - 1) as nat;
        lemma_uniform_connected::<BS>(cells, j);
        lemma_adjacent_symmetric::<BS>(i, j);
        lemma_connected_step::<BS>(cells, 0, j, i);
    } else {
        let n = BS::spec_size();
        if i < n {
            vstd::arithmetic::div_mod::lemma_small_mod(i, n);
        }
        let j = (i - n) as nat;
        lemma_uniform_connected::<BS>(cells, j);
        lemma_adjacent_symmetric::<BS>(i, j);
        lemma_connected_step::<BS>(cells, 0, j, i);
    }
}

/// A board whose cells all hold one value, a board filled with stones of one
/// colour for instance, is a single group.
pub proof fn lemma_uniform_board_one_group<BS: BoardSize>(
    cells: Seq<Option<Player>>,
    ids: Seq<nat>,
    count: nat,
)
    requires
        cells.len() == num_cells::<BS>(),
        ids.len() == num_cells::<BS>(),
        dense_in_order(ids, count),
        labels_components::<BS>(cells, ids),
        forall|c: int| 0 <= c < cells.len() ==> #[trigger] cells[c] == cells[0],
    ensures
        count == 1,
{
    crate::pos::lemma_num_cells_bound::<BS>();
    assert forall|c: nat| c < ids.len() implies #[trigger] ids[c as int] == ids[0] by {
        lemma_uniform_connected::<BS>(cells, c);
    }
    assert(ids[0] < count);
    if count > 1 {
        assert(id_used(ids, 1));
        assert(id_used(ids, 0));
        let i = choose|i: int| 0 <= i < ids.len() && #[trigger] ids[i] == 1;
        let j = choose|j: int| 0 <= j < ids.len() && #[trigger] ids[j] == 0;
        assert(ids[i as nat as int] == ids[0]);
        assert(ids[j as nat as int] == ids[0]);
    }
}

/// A neighbour that comes earlier in row-major order is the left or the upper one.
proof fn lemma_earlier_neighbour<BS: BoardSize>(p: nat, j: nat)
    requires
        j < p < num_cells::<BS>(),
        adjacent::<BS>(p, j) || adjacent::<BS>(j, p),
    ensures
        left_of::<BS>(p) == Some(j) || up_of::<BS>(p) == Some(j),
{
    if adjacent::<BS>(j, p) {
        lemma_adjacent_symmetric::<BS>(j, p);
    }
}

/// Pointing the fresh cell `p` at a representative `r` (or at itself) gives it
/// that representative and leaves the earlier cells alone.
proof fn lemma_attach(par: Seq<nat>, p: nat, r: nat)
    requires
        monotone(par),
        p < par.len(),
        r <= p,
        r < p ==> root_of(par, r) == r,
    ensures
        monotone(par.update(p as int, r)),
        root_of(par.update(p as int, r), p) == r,
        forall|i: nat| i < p ==> #[trigger] root_of(par.update(p as int, r), i) == root_of(par, i),
{
    let q = par.update(p as int, r);
    assert forall|i: nat| i < p implies #[trigger] root_of(q, i) == root_of(par, i) by {
        lemma_root_frame(par, p, r, i);
    }
    if r < p {
        lemma_root_frame(par, p, r, r);
    }
}

/// Whether `other` is a cell of `board` that holds `value`.
fn holds<BS: BoardSize>(board: &Board<BS>, other: Option<Pos<BS>>, value: Option<Player>) -> (r:
    bool)
    ensures
        r == (other matches Some(q) && board@[q@ as int] == value),
{
    match other {
        None => false,
        Some(q) => match (board.get(q), value) {
            (None, None) => true,
            (Some(Player::Black), Some(Player::Black)) => true,
            (Some(Player::White), Some(Player::White)) => true,
            _ => false,
        },
    }
}

/// Numbers the connected groups of equal cells (empty cells included) in one
/// row-major pass of a union-find whose pointers only go backwards.
pub fn group_connected_stones<BS: BoardSize>(board: &Board<BS>) -> (r: GroupedStones<BS>)
    ensures
        r.ids().len() == num_cells::<BS>(),
        dense_in_order(r.ids(), r.count()),
        groups_cells::<BS>(board@, r.ids()),
        labels_components::<BS>(board@, r.ids()),
{
    let total = cell_count::<BS>();
    proof {
        board.lemma_len();
    }
    let mut uf = UnionFindAlgorithm::<BS>::new();
    let mut p: usize = 0;
    while p < total
        invariant
            total == num_cells::<BS>(),
            board@.len() == total,
            p <= total,
            uf.wf(),
            forall|i: nat|
                i < p ==> board@[#[trigger] root_of(uf.parents(), i) as int] == board@[i as int],
            forall|i: nat|
                i < p ==> connected::<BS>(board@, i, #[trigger] root_of(uf.parents(), i)),
            forall|i: nat, j: nat|
                i < p && j < p && #[trigger] adjacent::<BS>(i, j) && board@[i as int] == board@[j
                    as int] ==> root_of(uf.parents(), i) == root_of(uf.parents(), j),
        decreases total - p,
    {
        let ghost par = uf.parents();
        let pos = Pos::<BS>::from_index(p);
        let current = board.get(pos);
        let left = pos.left();
        let up = pos.up();
        let matches_left = holds(board, left, current);
        let matches_up = holds(board, up, current);
        proof {
            assert forall|j: nat| j < p && (adjacent::<BS>(p as nat, j) || adjacent::<BS>(j, p as nat))
                && board@[j as int] == current implies (matches_left && left_of::<BS>(p as nat)
                == Some(j)) || (matches_up && up_of::<BS>(p as nat) == Some(j)) by {
                lemma_earlier_neighbour::<BS>(p as nat, j);
            }
        }
        proof {
            lemma_connected_refl::<BS>(board@, p as nat);
        }
        let root = if !matches_left && !matches_up {
            pos
        } else if matches_left && !matches_up {
            let l = left.unwrap();
            proof {
                assert(l@ < p);
                lemma_root(par, l@);
            }
            let found = uf.find_group_root(l);
            proof {
                assert(board@[root_of(par, l@) as int] == board@[l@ as int]);
                assert(board@[found@ as int] == current);
                assert(connected::<BS>(board@, l@, root_of(par, l@)));
                lemma_connected_refl::<BS>(board@, p as nat);
                lemma_connected_step::<BS>(board@, p as nat, p as nat, l@);
                lemma_connected_trans::<BS>(board@, p as nat, l@, found@);
            }
            found
        } else if !matches_left && matches_up {
            let u = up.unwrap();
            proof {
                assert(u@ < p);
                lemma_root(par, u@);
            }
            let found = uf.find_group_root(u);
            proof {
                assert(board@[root_of(par, u@) as int] == board@[u@ as int]);
                assert(board@[found@ as int] == current);
                assert(connected::<BS>(board@, u@, root_of(par, u@)));
                lemma_connected_refl::<BS>(board@, p as nat);
                lemma_connected_step::<BS>(board@, p as nat, p as nat, u@);
                lemma_connected_trans::<BS>(board@, p as nat, u@, found@);
            }
            found
        } else {
            let l = left.unwrap();
            let u = up.unwrap();
            proof {
                assert(l@ < p);
                assert(u@ < p);
                assert(board@[root_of(par, l@) as int] == board@[l@ as int]);
                assert(board@[root_of(par, u@) as int] == board@[u@ as int]);
                lemma_root(par, l@);
                lemma_root(par, u@);
            }
            let left_root = uf.find_group_root(l);
            let up_root = uf.find_group_root(u);
            proof {
                assert(connected::<BS>(board@, l@, root_of(par, l@)));
                assert(connected::<BS>(board@, u@, root_of(par, u@)));
                lemma_connected_refl::<BS>(board@, p as nat);
                lemma_connected_step::<BS>(board@, p as nat, p as nat, l@);
                lemma_connected_step::<BS>(board@, p as nat, p as nat, u@);
                lemma_connected_trans::<BS>(board@, p as nat, l@, left_root@);
                lemma_connected_trans::<BS>(board@, p as nat, u@, up_root@);
            }
            if left_root.index() == up_root.index() {
                proof {
                    assert(board@[left_root@ as int] == current);
                }
                left_root
            } else {
                let ghost mid = uf.parents();
                proof {
                    lemma_root(par, left_root@);
                    lemma_root(par, up_root@);
                }
                proof {
                    lemma_connected_sym::<BS>(board@, p as nat, left_root@);
                    lemma_connected_sym::<BS>(board@, p as nat, up_root@);
                    lemma_connected_trans::<BS>(board@, left_root@, p as nat, up_root@);
                    lemma_connected_trans::<BS>(board@, up_root@, p as nat, left_root@);
                }
                let merged = uf.merge_groups(left_root, up_root);
                proof {
                    assert forall|i: nat| i < p implies connected::<BS>(
                        board@,
                        i,
                        #[trigger] root_of(uf.parents(), i),
                    ) by {
                        let old_root = root_of(mid, i);
                        assert(connected::<BS>(board@, i, old_root));
                        if old_root == left_root@ && merged@ != left_root@ {
                            lemma_connected_trans::<BS>(board@, i, left_root@, up_root@);
                        } else if old_root == up_root@ && merged@ != up_root@ {
                            lemma_connected_trans::<BS>(board@, i, up_root@, left_root@);
                        }
                    }
                    assert forall|i: nat| i < p implies board@[#[trigger] root_of(
                        uf.parents(),
                        i,
                    ) as int] == board@[i as int] by {
                        assert(board@[root_of(mid, i) as int] == board@[i as int]);
                    }
                    assert(root_of(uf.parents(), l@) == merged@);
                    assert(root_of(uf.parents(), u@) == merged@);
                    assert(root_of(uf.parents(), merged@) == merged@);
                    assert(board@[merged@ as int] == current);
                }
                merged
            }
        };
        proof {
            let q = uf.parents();
            assert(forall|i: nat| i < p ==> board@[#[trigger] root_of(q, i) as int] == board@[i as int]);
            assert(board@[root@ as int] == current);
            assert(root@ <= p);
            if root@ < p {
                assert(root_of(q, root@) == root@);
            }
            assert(root@ == p ==> !matches_left && !matches_up);
            assert(connected::<BS>(board@, p as nat, root@));
            assert(forall|i: nat| i < p ==> connected::<BS>(board@, i, #[trigger] root_of(q, i)));
            lemma_attach(q, p as nat, root@);
        }
        uf.add_to_group(pos, root);
        proof {
            let q = uf.parents();
            assert forall|i: nat, j: nat|
                i < p + 1 && j < p + 1 && #[trigger] adjacent::<BS>(i, j) && board@[i as int]
                    == board@[j as int] implies root_of(q, i) == root_of(q, j) by {
                if i == p && j < p {
                    lemma_earlier_neighbour::<BS>(p as nat, j);
                } else if j == p && i < p {
                    lemma_earlier_neighbour::<BS>(p as nat, i);
                }
            }
        }
        p = p + 1;
    }
    let ghost par = uf.parents();
    let r = uf.finalize();
    proof {
        let ids = r.ids();
        assert forall|i: int| 0 <= i < ids.len() implies #[trigger] ids[i] < r.count() by {
            lemma_labels(par, i as nat, i as nat);
        }
        assert forall|k: nat| k < r.count() implies #[trigger] id_used(ids, k) by {
            lemma_label_used(par, k);
            let j = choose|j: nat| j < par.len() && #[trigger] label_of(par, j) == k;
            assert(ids[j as int] == k);
        }
        assert forall|i: int| 0 <= i < ids.len() && #[trigger] ids[i] > 0 implies exists|j: int|
            0 <= j < i && #[trigger] ids[j] + 1 == ids[i] by {
            lemma_label_predecessor(par, i as nat);
            let j = choose|j: nat| j < i && #[trigger] label_of(par, j) + 1 == label_of(par, i as nat);
            assert(ids[j as int] + 1 == ids[i]);
        }
        assert forall|i: int, j: int|
            0 <= i < ids.len() && 0 <= j < ids.len() && #[trigger] ids[i] == #[trigger] ids[j]
                implies board@[i] == board@[j] by {
            lemma_labels(par, i as nat, j as nat);
            assert(board@[root_of(par, i as nat) as int] == board@[i]);
            assert(board@[root_of(par, j as nat) as int] == board@[j]);
        }
        assert forall|i: nat, j: nat|
            i < ids.len() && j < ids.len() && #[trigger] adjacent::<BS>(i, j) && board@[i as int]
                == board@[j as int] implies ids[i as int] == ids[j as int] by {
            lemma_labels(par, i, j);
        }
        assert forall|i: nat, j: nat| i < ids.len() && j < ids.len() implies (ids[i as int]
            == ids[j as int] <==> connected::<BS>(board@, i, j)) by {
            lemma_labels(par, i, j);
            if ids[i as int] == ids[j as int] {
                assert(connected::<BS>(board@, i, root_of(par, i)));
                assert(connected::<BS>(board@, j, root_of(par, j)));
                lemma_connected_sym::<BS>(board@, j, root_of(par, j));
                lemma_connected_trans::<BS>(board@, i, root_of(par, i), j);
            }
            if connected::<BS>(board@, i, j) {
                let path = choose|path: Seq<nat>|
                    #[trigger] crate::connect::is_path::<BS>(board@, path) && path[0] == i
                        && path[path.len() - 1] == j;
                lemma_path_same_label::<BS>(board@, ids, path, (path.len() - 1) as nat);
            }
        }
    }
    r
}

} // verus!
