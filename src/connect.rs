use crate::player::Player;
use crate::pos::{adjacent, lemma_adjacent_symmetric, num_cells, BoardSize};
use vstd::prelude::*;

verus! {

/// `path` walks from cell to neighbouring cell of the board, every cell on it
/// holding the value of the first.
pub open spec fn is_path<BS: BoardSize>(cells: Seq<Option<Player>>, path: Seq<nat>) -> bool {
    &&& path.len() > 0
    &&& cells.len() == num_cells::<BS>()
    &&& forall|k: int|
        0 <= k < path.len() ==> #[trigger] path[k] < cells.len() && cells[path[k] as int]
            == cells[path[0] as int]
    &&& forall|k: int| 0 <= k < path.len() - 1 ==> adjacent::<BS>(#[trigger] path[k], path[k + 1])
}

/// Cells `i` and `j` are joined by a path of cells that hold one value.
pub open spec fn connected<BS: BoardSize>(cells: Seq<Option<Player>>, i: nat, j: nat) -> bool {
    exists|path: Seq<nat>|
        #[trigger] is_path::<BS>(cells, path) && path[0] == i && path[path.len() - 1] == j
}

/// Every cell of the board is joined to itself.
pub proof fn lemma_connected_refl<BS: BoardSize>(cells: Seq<Option<Player>>, i: nat)
    requires
        cells.len() == num_cells::<BS>(),
        i < cells.len(),
    ensures
        connected::<BS>(cells, i, i),
{
    let path = seq![i];
    assert(is_path::<BS>(cells, path));
}

/// Joined cells hold one value and lie on the board.
pub proof fn lemma_connected_value<BS: BoardSize>(cells: Seq<Option<Player>>, i: nat, j: nat)
    requires
        connected::<BS>(cells, i, j),
    ensures
        cells[i as int] == cells[j as int],
        i < cells.len(),
        j < cells.len(),
        cells.len() == num_cells::<BS>(),
{
    let path = choose|path: Seq<nat>|
        #[trigger] is_path::<BS>(cells, path) && path[0] == i && path[path.len() - 1] == j;
    assert(path[path.len() - 1] < cells.len());
    assert(path[0] < cells.len());
}

/// A path can be extended by a neighbour holding the same value.
pub proof fn lemma_connected_step<BS: BoardSize>(cells: Seq<Option<Player>>, i: nat, j: nat, k: nat)
    requires
        connected::<BS>(cells, i, j),
        adjacent::<BS>(j, k),
        k < cells.len(),
        cells[k as int] == cells[j as int],
    ensures
        connected::<BS>(cells, i, k),
{
    let path = choose|path: Seq<nat>|
        #[trigger] is_path::<BS>(cells, path) && path[0] == i && path[path.len() - 1] == j;
    let longer = path.push(k);
    assert(path[path.len() - 1] < cells.len());
    assert(cells[path[path.len() - 1] as int] == cells[path[0] as int]);
    assert forall|m: int| 0 <= m < longer.len() implies #[trigger] longer[m] < cells.len()
        && cells[longer[m] as int] == cells[longer[0] as int] by {
        if m < path.len() {
            assert(longer[m] == path[m]);
        }
    }
    assert forall|m: int| 0 <= m < longer.len() - 1 implies adjacent::<BS>(
        #[trigger] longer[m],
        longer[m + 1],
    ) by {
        if m < path.len() - 1 {
            assert(longer[m] == path[m] && longer[m + 1] == path[m + 1]);
        }
    }
    assert(is_path::<BS>(cells, longer));
}

/// Being joined is symmetric.
pub proof fn lemma_connected_sym<BS: BoardSize>(cells: Seq<Option<Player>>, i: nat, j: nat)
    requires
        connected::<BS>(cells, i, j),
    ensures
        connected::<BS>(cells, j, i),
{
    let path = choose|path: Seq<nat>|
        #[trigger] is_path::<BS>(cells, path) && path[0] == i && path[path.len() - 1] == j;
    let n = path.len() as int;
    let back = Seq::new(path.len(), |m: int| path[n - 1 - m]);
    assert(path[n - 1] < cells.len());
    assert(cells[path[n - 1] as int] == cells[path[0] as int]);
    assert forall|m: int| 0 <= m < back.len() implies #[trigger] back[m] < cells.len()
        && cells[back[m] as int] == cells[back[0] as int] by {
        assert(path[n - 1 - m] < cells.len());
    }
    assert forall|m: int| 0 <= m < back.len() - 1 implies adjacent::<BS>(
        #[trigger] back[m],
        back[m + 1],
    ) by {
        let q = n - 2 - m;
        assert(adjacent::<BS>(path[q], path[q + 1]));
        assert(path[q] < cells.len());
        lemma_adjacent_symmetric::<BS>(path[q], path[q + 1]);
    }
    assert(is_path::<BS>(cells, back));
}

/// Being joined is transitive.
pub proof fn lemma_connected_trans<BS: BoardSize>(
    cells: Seq<Option<Player>>,
    i: nat,
    j: nat,
    k: nat,
)
    requires
        connected::<BS>(cells, i, j),
        connected::<BS>(cells, j, k),
    ensures
        connected::<BS>(cells, i, k),
{
    let front = choose|path: Seq<nat>|
        #[trigger] is_path::<BS>(cells, path) && path[0] == i && path[path.len() - 1] == j;
    let rest = choose|path: Seq<nat>|
        #[trigger] is_path::<BS>(cells, path) && path[0] == j && path[path.len() - 1] == k;
    let whole = front + rest.subrange(1, rest.len() as int);
    let front_len = front.len() as int;
    assert(front[front_len - 1] < cells.len());
    assert(cells[front[front_len - 1] as int] == cells[front[0] as int]);
    assert forall|m: int| 0 <= m < whole.len() implies #[trigger] whole[m] < cells.len()
        && cells[whole[m] as int] == cells[whole[0] as int] by {
        if m < front_len {
            assert(whole[m] == front[m]);
        } else {
            assert(whole[m] == rest[m - front_len + 1]);
            assert(rest[m - front_len + 1] < cells.len());
        }
    }
    assert forall|m: int| 0 <= m < whole.len() - 1 implies adjacent::<BS>(
        #[trigger] whole[m],
        whole[m + 1],
    ) by {
        if m < front_len - 1 {
            assert(whole[m] == front[m] && whole[m + 1] == front[m + 1]);
        } else if m == front_len - 1 {
            assert(whole[m] == front[front_len - 1] && whole[m + 1] == rest[1]);
            assert(adjacent::<BS>(rest[0], rest[1]));
        } else {
            assert(whole[m] == rest[m - front_len + 1] && whole[m + 1] == rest[m - front_len + 2]);
            assert(adjacent::<BS>(rest[m - front_len + 1], rest[m - front_len + 2]));
        }
    }
    assert(is_path::<BS>(cells, whole));
    if rest.len() == 1 {
        assert(whole[whole.len() - 1] == front[front_len - 1]);
    } else {
        assert(whole[whole.len() - 1] == rest[rest.len() - 1]);
    }
}

/// The start of a path is joined to each of its cells.
pub proof fn lemma_path_prefix<BS: BoardSize>(cells: Seq<Option<Player>>, path: Seq<nat>, m: nat)
    requires
        is_path::<BS>(cells, path),
        m < path.len(),
    ensures
        connected::<BS>(cells, path[0], path[m as int]),
{
    let prefix = path.subrange(0, m as int + 1);
    assert forall|k: int| 0 <= k < prefix.len() implies #[trigger] prefix[k] < cells.len()
        && cells[prefix[k] as int] == cells[prefix[0] as int] by {
        assert(prefix[k] == path[k]);
    }
    assert forall|k: int| 0 <= k < prefix.len() - 1 implies adjacent::<BS>(
        #[trigger] prefix[k],
        prefix[k + 1],
    ) by {
        assert(prefix[k] == path[k] && prefix[k + 1] == path[k + 1]);
    }
    assert(is_path::<BS>(cells, prefix));
}

/// A path stays a path on a board that agrees with the old one on the path's cells.
pub proof fn lemma_path_kept<BS: BoardSize>(
    cells: Seq<Option<Player>>,
    other: Seq<Option<Player>>,
    path: Seq<nat>,
)
    requires
        is_path::<BS>(cells, path),
        other.len() == cells.len(),
        forall|k: int| 0 <= k < path.len() ==> other[#[trigger] path[k] as int] == cells[path[k] as int],
    ensures
        is_path::<BS>(other, path),
{
    assert forall|k: int| 0 <= k < path.len() implies #[trigger] path[k] < other.len()
        && other[path[k] as int] == other[path[0] as int] by {
        assert(other[path[0] as int] == cells[path[0] as int]);
    }
}

/// Labels that agree across every pair of equal neighbours agree along every path.
pub proof fn lemma_path_same_label<BS: BoardSize>(
    cells: Seq<Option<Player>>,
    ids: Seq<nat>,
    path: Seq<nat>,
    m: nat,
)
    requires
        is_path::<BS>(cells, path),
        ids.len() == cells.len(),
        m < path.len(),
        forall|i: nat, j: nat|
            i < ids.len() && j < ids.len() && #[trigger] adjacent::<BS>(i, j) && cells[i as int]
                == cells[j as int] ==> ids[i as int] == ids[j as int],
    ensures
        ids[path[m as int] as int] == ids[path[0] as int],
    decreases m,
{
    if m > 0 {
        lemma_path_same_label::<BS>(cells, ids, path, (m - 1) as nat);
        let a = path[m - 1];
        let b = path[m as int];
        assert(adjacent::<BS>(a, b));
        assert(a < cells.len() && b < cells.len());
        assert(cells[a as int] == cells[path[0] as int]);
    }
}

} // verus!
