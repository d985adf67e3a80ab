use crate::analysis::{
    lemma_removed_stones_count, removed_stones, lemma_liberty_positive, lemma_liberty_witness, lemma_near_neighbour, lemma_occupied_empty_cell,
    liberties_before, near, num_liberties, num_occupied, without_group, Analysis,
};
use crate::connect::{
    connected, is_path, lemma_connected_sym, lemma_connected_trans, lemma_path_kept,
    lemma_path_prefix,
};
use crate::grouping::labels_components;
use crate::board::{empty_cells, Board};
use crate::group_id::GroupId;
use crate::grouping::groups_cells;
use crate::player::{other, PlaceStoneError, Player};
use crate::pos::{
    adjacent, down_of, lemma_adjacent_symmetric, lemma_neighbours_on_board, left_of, num_cells,
    right_of, up_of, BoardSize, NumStones, Pos,
};
use vstd::prelude::*;

verus! {

/// Group `g` belongs to `p` and has no liberties.
pub open spec fn dead(owners: Seq<Option<Player>>, liberties: Seq<nat>, p: Player, g: nat) -> bool {
    owners[g as int] == Some(p) && liberties[g as int] == 0
}

/// The cells left when every group of `p` without liberties is taken off.
pub open spec fn without_dead(
    cells: Seq<Option<Player>>,
    ids: Seq<nat>,
    owners: Seq<Option<Player>>,
    liberties: Seq<nat>,
    p: Player,
) -> Seq<Option<Player>> {
    Seq::new(cells.len(), |c: int| if dead(owners, liberties, p, ids[c]) { None } else { cells[c] })
}

/// Some cell joined to `c` touches an empty cell.
pub open spec fn has_liberty<BS: BoardSize>(cells: Seq<Option<Player>>, c: nat) -> bool {
    exists|d: nat, e: nat|
        #![trigger connected::<BS>(cells, c, d), adjacent::<BS>(d, e)]
        connected::<BS>(cells, c, d) && adjacent::<BS>(d, e) && e < cells.len() && cells[e as int]
            is None
}

/// The board after taking off every stone of `p` whose group touches no empty cell.
pub open spec fn remove_captured<BS: BoardSize>(cells: Seq<Option<Player>>, p: Player) -> Seq<
    Option<Player>,
> {
    Seq::new(
        cells.len(),
        |c: int|
            if cells[c] == Some(p) && !has_liberty::<BS>(cells, c as nat) {
                None
            } else {
                cells[c]
            },
    )
}

/// Taking off the captured stones of `p` leaves every group that touched an
/// empty cell still touching one.
pub proof fn lemma_removal_keeps_liberties<BS: BoardSize>(
    cells: Seq<Option<Player>>,
    p: Player,
    c: nat,
)
    requires
        c < cells.len(),
        cells[c as int] is Some,
        has_liberty::<BS>(cells, c),
    ensures
        has_liberty::<BS>(remove_captured::<BS>(cells, p), c),
{
    let after = remove_captured::<BS>(cells, p);
    let (d, e) = choose|d: nat, e: nat|
        #![trigger connected::<BS>(cells, c, d), adjacent::<BS>(d, e)]
        connected::<BS>(cells, c, d) && adjacent::<BS>(d, e) && e < cells.len() && cells[e as int]
            is None;
    let path = choose|path: Seq<nat>|
        #[trigger] is_path::<BS>(cells, path) && path[0] == c && path[path.len() - 1] == d;
    assert forall|k: int| 0 <= k < path.len() implies after[#[trigger] path[k] as int]
        == cells[path[k] as int] by {
        let x = path[k];
        assert(x < cells.len());
        if cells[x as int] == Some(p) {
            lemma_path_prefix::<BS>(cells, path, k as nat);
            lemma_connected_sym::<BS>(cells, c, x);
            lemma_connected_trans::<BS>(cells, x, c, d);
            assert(has_liberty::<BS>(cells, x));
        }
    }
    lemma_path_kept::<BS>(cells, after, path);
    assert(connected::<BS>(after, c, d));
    assert(after[e as int] is None);
}

/// After the stones of `p` without liberties are taken off, every stone of
/// `p` left belongs to a group that touches an empty cell.
pub proof fn lemma_survivors_have_liberties<BS: BoardSize>(
    cells: Seq<Option<Player>>,
    p: Player,
    c: nat,
)
    requires
        c < cells.len(),
        remove_captured::<BS>(cells, p)[c as int] == Some(p),
    ensures
        has_liberty::<BS>(remove_captured::<BS>(cells, p), c),
{
    lemma_removal_keeps_liberties::<BS>(cells, p, c);
}

/// After a move, no stone on the board belongs to a group without liberties:
/// the opponent's such groups are taken first, then the mover's.
pub proof fn lemma_no_group_without_liberties<BS: BoardSize>(
    placed: Seq<Option<Player>>,
    mover: Player,
    c: nat,
)
    requires
        c < placed.len(),
        remove_captured::<BS>(remove_captured::<BS>(placed, other(mover)), mover)[c as int] is Some,
    ensures
        has_liberty::<BS>(
            remove_captured::<BS>(remove_captured::<BS>(placed, other(mover)), mover),
            c,
        ),
{
    let mid = remove_captured::<BS>(placed, other(mover));
    let last = remove_captured::<BS>(mid, mover);
    if last[c as int] == Some(mover) {
        lemma_survivors_have_liberties::<BS>(mid, mover, c);
    } else {
        assert(mid[c as int] == Some(other(mover)));
        lemma_survivors_have_liberties::<BS>(placed, other(mover), c);
        lemma_removal_keeps_liberties::<BS>(mid, mover, c);
    }
}

/// The stone just placed stays on the board when, once the opponent's
/// captured stones are off, its group touches an empty cell.
pub proof fn lemma_placed_stone_stays<BS: BoardSize>(
    cells: Seq<Option<Player>>,
    pos: nat,
    mover: Player,
)
    requires
        pos < cells.len(),
        has_liberty::<BS>(
            remove_captured::<BS>(cells.update(pos as int, Some(mover)), other(mover)),
            pos,
        ),
    ensures
        remove_captured::<BS>(
            remove_captured::<BS>(cells.update(pos as int, Some(mover)), other(mover)),
            mover,
        )[pos as int] == Some(mover),
{
}

/// A group of the opponent whose only liberty is `e` is taken off whole when
/// `mover` plays at `e`.
pub proof fn lemma_last_liberty_capture<BS: BoardSize>(
    cells: Seq<Option<Player>>,
    mover: Player,
    e: nat,
    c: nat,
    d: nat,
)
    requires
        cells.len() == num_cells::<BS>(),
        e < cells.len(),
        cells[e as int] is None,
        cells[c as int] == Some(other(mover)),
        forall|x: nat, f: nat|
            #![trigger connected::<BS>(cells, c, x), adjacent::<BS>(x, f)]
            connected::<BS>(cells, c, x) && adjacent::<BS>(x, f) && f < cells.len()
                && cells[f as int] is None ==> f == e,
        connected::<BS>(cells, c, d),
    ensures
        remove_captured::<BS>(cells.update(e as int, Some(mover)), other(mover))[d as int] is None,
        remove_captured::<BS>(
            remove_captured::<BS>(cells.update(e as int, Some(mover)), other(mover)),
            mover,
        )[d as int] is None,
{
    let q = other(mover);
    let placed = cells.update(e as int, Some(mover));
    crate::connect::lemma_connected_value::<BS>(cells, c, d);
    assert(placed[d as int] == Some(q));
    if has_liberty::<BS>(placed, d) {
        let (x, f) = choose|x: nat, f: nat|
            #![trigger connected::<BS>(placed, d, x), adjacent::<BS>(x, f)]
            connected::<BS>(placed, d, x) && adjacent::<BS>(x, f) && f < placed.len()
                && placed[f as int] is None;
        let path = choose|path: Seq<nat>|
            #[trigger] is_path::<BS>(placed, path) && path[0] == d && path[path.len() - 1] == x;
        assert forall|k: int| 0 <= k < path.len() implies cells[#[trigger] path[k] as int]
            == placed[path[k] as int] by {
            assert(placed[path[k] as int] == placed[path[0] as int]);
        }
        lemma_path_kept::<BS>(placed, cells, path);
        assert(connected::<BS>(cells, d, x));
        lemma_connected_trans::<BS>(cells, c, d, x);
        assert(f != e);
        assert(cells[f as int] is None);
        assert(false);
    }
}

/// The cells joined to `c`.
pub open spec fn group_of<BS: BoardSize>(cells: Seq<Option<Player>>, c: nat) -> Set<nat> {
    Set::new(|d: nat| connected::<BS>(cells, c, d))
}

/// When `mover` fills the only liberty `e` of the opponent group of `c`, and
/// every other opponent stone keeps a liberty, the stones `mover` takes are
/// exactly that group: `mover`'s prisoners grow by its size.
pub proof fn lemma_last_liberty_capture_count<BS: BoardSize>(
    cells: Seq<Option<Player>>,
    mover: Player,
    e: nat,
    c: nat,
)
    requires
        cells.len() == num_cells::<BS>(),
        e < cells.len(),
        c < cells.len(),
        cells[e as int] is None,
        cells[c as int] == Some(other(mover)),
        forall|x: nat, f: nat|
            #![trigger connected::<BS>(cells, c, x), adjacent::<BS>(x, f)]
            connected::<BS>(cells, c, x) && adjacent::<BS>(x, f) && f < cells.len()
                && cells[f as int] is None ==> f == e,
        forall|d: nat|
            d < cells.len() && cells[d as int] == Some(other(mover)) && !connected::<BS>(
                cells,
                c,
                d,
            ) ==> #[trigger] has_liberty::<BS>(cells.update(e as int, Some(mover)), d),
    ensures
        removed_stones(
            cells.update(e as int, Some(mover)),
            remove_captured::<BS>(cells.update(e as int, Some(mover)), other(mover)),
        ) == group_of::<BS>(cells, c),
{
    let q = other(mover);
    let placed = cells.update(e as int, Some(mover));
    let taken = remove_captured::<BS>(placed, q);
    assert forall|d: nat| #[trigger] removed_stones(placed, taken).contains(d) <==> group_of::<BS>(
        cells,
        c,
    ).contains(d) by {
        if group_of::<BS>(cells, c).contains(d) {
            crate::connect::lemma_connected_value::<BS>(cells, c, d);
            lemma_last_liberty_capture::<BS>(cells, mover, e, c, d);
        }
        if removed_stones(placed, taken).contains(d) {
            assert(placed[d as int] == Some(q));
            assert(!has_liberty::<BS>(placed, d));
            assert(cells[d as int] == Some(q));
        }
    }
    assert(removed_stones(placed, taken) =~= group_of::<BS>(cells, c));
}

/// For an analysis of `cells`, the groups it finds dead are exactly the stones
/// whose group touches no empty cell.
pub proof fn lemma_dead_groups_are_captured<BS: BoardSize>(
    a: Analysis<BS>,
    cells: Seq<Option<Player>>,
    p: Player,
)
    requires
        a.describes(cells),
        labels_components::<BS>(cells, a.ids()),
    ensures
        without_dead(cells, a.ids(), a.owners(), a.liberties(), p) == remove_captured::<BS>(cells, p),
{
    let ids = a.ids();
    assert forall|c: int| 0 <= c < cells.len() implies (dead(
        a.owners(),
        a.liberties(),
        p,
        #[trigger] ids[c],
    ) <==> cells[c] == Some(p) && !has_liberty::<BS>(cells, c as nat)) by {
        let g = ids[c];
        assert(a.owners()[ids[c] as int] == cells[c]);
        if cells[c] == Some(p) {
            assert(a.liberties()[g as int] == num_liberties::<BS>(cells, ids, g));
            if has_liberty::<BS>(cells, c as nat) {
                let (d, e) = choose|d: nat, e: nat|
                    #![trigger connected::<BS>(cells, c as nat, d), adjacent::<BS>(d, e)]
                    connected::<BS>(cells, c as nat, d) && adjacent::<BS>(d, e) && e < cells.len()
                        && cells[e as int] is None;
                crate::connect::lemma_connected_value::<BS>(cells, c as nat, d);
                assert(ids[d as int] == g);
                lemma_near_neighbour::<BS>(ids, d, e, g);
                lemma_liberty_positive::<BS>(cells, ids, g, e, cells.len());
            }
            if num_liberties::<BS>(cells, ids, g) > 0 {
                lemma_liberty_witness::<BS>(cells, ids, g, cells.len());
                let e = choose|e: nat| e < cells.len() && cells[e as int] is None && #[trigger] near::<
                    BS,
                >(ids, e, g);
                assert(ids[e as int] != g) by {
                    if ids[e as int] == g {
                        assert(cells[e as int] == cells[c]);
                    }
                }
                lemma_neighbours_on_board::<BS>(e);
                let d: nat = if left_of::<BS>(e) is Some && ids[left_of::<BS>(e)->0 as int] == g {
                    left_of::<BS>(e)->0
                } else if right_of::<BS>(e) is Some && ids[right_of::<BS>(e)->0 as int] == g {
                    right_of::<BS>(e)->0
                } else if up_of::<BS>(e) is Some && ids[up_of::<BS>(e)->0 as int] == g {
                    up_of::<BS>(e)->0
                } else {
                    down_of::<BS>(e)->0
                };
                assert(d < cells.len() && adjacent::<BS>(e, d) && ids[d as int] == g);
                lemma_adjacent_symmetric::<BS>(e, d);
                assert(connected::<BS>(cells, c as nat, d));
                assert(adjacent::<BS>(d, e));
            }
        }
    }
    assert(without_dead(cells, ids, a.owners(), a.liberties(), p) =~= remove_captured::<BS>(
        cells,
        p,
    ));
}

/// Taking off group `g` does not change the liberties of another group `h` of
/// the same colour: no cell of `g` touches `h`.
proof fn lemma_liberties_unaffected<BS: BoardSize>(
    cells: Seq<Option<Player>>,
    ids: Seq<nat>,
    g: nat,
    h: nat,
    v: Option<Player>,
    k: nat,
)
    requires
        cells.len() == num_cells::<BS>(),
        ids.len() == num_cells::<BS>(),
        groups_cells::<BS>(cells, ids),
        g != h,
        v is Some,
        forall|c: int| 0 <= c < cells.len() && #[trigger] ids[c] == g ==> cells[c] == v,
        forall|c: int| 0 <= c < cells.len() && #[trigger] ids[c] == h ==> cells[c] == v,
        k <= cells.len(),
    ensures
        liberties_before::<BS>(without_group(cells, ids, g), ids, h, k) == liberties_before::<BS>(
            cells,
            ids,
            h,
            k,
        ),
    decreases k,
{
    if k > 0 {
        let e = (k - 1) as nat;
        lemma_liberties_unaffected::<BS>(cells, ids, g, h, v, e);
        if ids[e as int] == g {
            lemma_neighbours_on_board::<BS>(e);
            if let Some(c) = left_of::<BS>(e) {
                if ids[c as int] == h {
                    assert(adjacent::<BS>(e, c));
                }
            }
            if let Some(c) = right_of::<BS>(e) {
                if ids[c as int] == h {
                    assert(adjacent::<BS>(e, c));
                }
            }
            if let Some(c) = up_of::<BS>(e) {
                if ids[c as int] == h {
                    assert(adjacent::<BS>(e, c));
                }
            }
            if let Some(c) = down_of::<BS>(e) {
                if ids[c as int] == h {
                    assert(adjacent::<BS>(e, c));
                }
            }
            assert(!near::<BS>(ids, e, h));
        }
    }
}

/// `after` is `before` with the turn handed over and nothing else changed.
pub open spec fn passed<BS: BoardSize>(before: Game<BS>, after: Game<BS>) -> bool {
    &&& after.to_move() == other(before.to_move())
    &&& after.cells() == before.cells()
    &&& after.captured(Player::Black) == before.captured(Player::Black)
    &&& after.captured(Player::White) == before.captured(Player::White)
}

/// Passing twice leaves the board and the prisoners as they were and gives
/// the turn back to the side that had it.
pub proof fn lemma_pass_twice<BS: BoardSize>(g0: Game<BS>, g1: Game<BS>, g2: Game<BS>)
    requires
        passed(g0, g1),
        passed(g1, g2),
    ensures
        g2.cells() == g0.cells(),
        g2.to_move() == g0.to_move(),
        g2.captured(Player::Black) == g0.captured(Player::Black),
        g2.captured(Player::White) == g0.captured(Player::White),
{
}

/// A game in progress: the board, the side to move, the stones each player
/// has captured, and the analysis of the board.
pub struct Game<BS: BoardSize> {
    board: Board<BS>,
    current_player: Player,
    captured_by_black: NumStones<BS>,
    captured_by_white: NumStones<BS>,
    analysis: Analysis<BS>,
}

impl<BS: BoardSize> Game<BS> {
    /// The cells of the board.
    pub closed spec fn cells(&self) -> Seq<Option<Player>> {
        self.board@
    }

    /// The side to move.
    pub closed spec fn to_move(&self) -> Player {
        self.current_player
    }

    /// The number of stones `p` has captured.
    pub closed spec fn captured(&self, p: Player) -> nat {
        match p {
            Player::Black => self.captured_by_black@,
            Player::White => self.captured_by_white@,
        }
    }

    /// The number of stones captured by both players together.
    pub open spec fn captured_total(&self) -> nat {
        self.captured(Player::Black) + self.captured(Player::White)
    }

    /// An empty board with Black to move and no prisoners.
    pub fn new() -> (r: Self)
        ensures
            r.cells() == empty_cells::<BS>(),
            r.to_move() == Player::Black,
            r.captured(Player::Black) == 0,
            r.captured(Player::White) == 0,
    {
        let board = Board::new();
        let analysis = Analysis::analyze(&board);
        Game {
            board,
            current_player: Player::Black,
            captured_by_black: NumStones::zero(),
            captured_by_white: NumStones::zero(),
            analysis,
        }
    }

    /// A game at a given position.
    pub fn from_board(
        board: Board<BS>,
        current_player: Player,
        captured_by_black: NumStones<BS>,
        captured_by_white: NumStones<BS>,
    ) -> (r: Self)
        ensures
            r.cells() == board@,
            r.to_move() == current_player,
            r.captured(Player::Black) == captured_by_black@,
            r.captured(Player::White) == captured_by_white@,
    {
        let analysis = Analysis::analyze(&board);
        Game { board, current_player, captured_by_black, captured_by_white, analysis }
    }

    /// The side to move.
    pub fn current_player(&self) -> (r: Player)
        ensures
            r == self.to_move(),
    {
        self.current_player
    }

    /// The board.
    pub fn board(&self) -> (r: &Board<BS>)
        ensures
            r@ == self.cells(),
    {
        &self.board
    }

    /// The number of stones `player` has captured.
    pub fn num_captured_by(&self, player: Player) -> (r: NumStones<BS>)
        ensures
            r@ == self.captured(player),
    {
        match player {
            Player::Black => self.captured_by_black,
            Player::White => self.captured_by_white,
        }
    }

    /// Hands the turn to the other player; the board stays as it is.
    pub fn pass_turn(&mut self)
        ensures
            passed(*old(self), *final(self)),
    {
        self.current_player = self.current_player.other_player();
    }

    /// Places a stone of the side to move at `pos`, takes off the opponent's
    /// groups left without liberties, then the mover's own, and hands the turn over.
    pub fn place_stone(&mut self, pos: Pos<BS>) -> (r: Result<(), PlaceStoneError>)
        requires
            old(self).captured_total() + num_occupied(old(self).cells())
                < NumStones::<BS>::max_count(),
        ensures
            old(self).cells()[pos@ as int] is Some ==> {
                &&& r == Err::<(), PlaceStoneError>(PlaceStoneError::CellOccupied)
                &&& final(self).cells() == old(self).cells()
                &&& final(self).to_move() == old(self).to_move()
                &&& final(self).captured(Player::Black) == old(self).captured(Player::Black)
                &&& final(self).captured(Player::White) == old(self).captured(Player::White)
            },
            old(self).cells()[pos@ as int] is None ==> {
                let mover = old(self).to_move();
                let placed = old(self).cells().update(pos@ as int, Some(mover));
                let taken = remove_captured::<BS>(placed, other(mover));
                &&& r is Ok
                &&& final(self).captured(mover) == old(self).captured(mover) + removed_stones(
                    placed,
                    taken,
                ).len()
                &&& final(self).captured(other(mover)) == old(self).captured(other(mover))
                    + removed_stones(taken, final(self).cells()).len()
                &&& final(self).captured_total() == old(self).captured_total() + removed_stones(
                    placed,
                    final(self).cells(),
                ).len()
                &&& final(self).to_move() == other(old(self).to_move())
                &&& final(self).captured_total() + num_occupied(final(self).cells())
                    == old(self).captured_total() + num_occupied(old(self).cells()) + 1
                &&& final(self).captured(Player::Black) >= old(self).captured(Player::Black)
                &&& final(self).captured(Player::White) >= old(self).captured(Player::White)
                &&& final(self).cells() == remove_captured::<BS>(
                    remove_captured::<BS>(
                        old(self).cells().update(pos@ as int, Some(old(self).to_move())),
                        other(old(self).to_move()),
                    ),
                    old(self).to_move(),
                )
            },
    {
        let ghost before = self.cells();
        proof {
            self.board.lemma_len();
        }
        let mover = self.current_player;
        let placed = self.board.set_if_empty(pos, mover);
        if placed.is_err() {
            return placed;
        }
        proof {
            let after = self.cells();
            lemma_occupied_empty_cell(after, pos@, after.len());
            assert(after.update(pos@ as int, None) =~= before);
        }
        let ghost placed_cells = self.cells();
        self.update_analysis();
        proof {
            lemma_dead_groups_are_captured::<BS>(self.analysis, self.board@, other(mover));
        }
        self.player_takes_prisoners(mover);
        let ghost taken = self.cells();
        proof {
            lemma_removed_stones_count(placed_cells, taken, placed_cells.len());
        }
        self.update_analysis();
        proof {
            lemma_dead_groups_are_captured::<BS>(self.analysis, self.board@, mover);
        }
        self.player_takes_prisoners(mover.other_player());
        proof {
            lemma_removed_stones_count(taken, self.cells(), taken.len());
            lemma_removed_stones_count(placed_cells, self.cells(), placed_cells.len());
        }
        self.current_player = mover.other_player();
        placed
    }

    /// Rebuilds the analysis from the board.
    fn update_analysis(&mut self)
        ensures
            final(self).analysis.describes(final(self).board@),
            labels_components::<BS>(final(self).board@, final(self).analysis.ids()),
            final(self).board == old(self).board,
            final(self).current_player == old(self).current_player,
            final(self).captured_by_black == old(self).captured_by_black,
            final(self).captured_by_white == old(self).captured_by_white,
    {
        self.analysis = Analysis::analyze(&self.board);
    }

    /// `player` takes group `g` of the opponent, which has no liberties left.
    fn take_group(&mut self, g: usize, player: Player)
        requires
            old(self).analysis.describes(old(self).board@),
            g < old(self).analysis.count(),
            old(self).analysis.owners()[g as int] == Some(other(player)),
            old(self).analysis.liberties()[g as int] == 0,
            old(self).captured(player) + num_occupied(old(self).board@)
                <= NumStones::<BS>::max_count(),
        ensures
            final(self).analysis.describes(final(self).board@),
            final(self).board@ == without_group(old(self).board@, old(self).analysis.ids(), g as nat),
            final(self).analysis.ids() == old(self).analysis.ids(),
            final(self).analysis.count() == old(self).analysis.count(),
            final(self).analysis.owners() == old(self).analysis.owners().update(g as int, None),
            forall|h: int|
                0 <= h < old(self).analysis.count() && h != g && old(self).analysis.owners()[h]
                    == Some(other(player)) ==> #[trigger] final(self).analysis.liberties()[h]
                    == old(self).analysis.liberties()[h],
            final(self).current_player == old(self).current_player,
            final(self).captured(other(player)) == old(self).captured(other(player)),
            final(self).captured(player) >= old(self).captured(player),
            final(self).captured(player) + num_occupied(final(self).board@) == old(self).captured(
                player,
            ) + num_occupied(old(self).board@),
    {
        let ghost cells_g = self.board@;
        let ghost analysis_g = self.analysis;
        let ghost ids = self.analysis.ids();
        let opponent = player.other_player();
        let removed = self.analysis.capture_group(GroupId::from_usize(g), &mut self.board);
        proof {
            assert forall|h: int|
                0 <= h < analysis_g.count() && h != g && analysis_g.owners()[h] == Some(opponent)
                    implies #[trigger] self.analysis.liberties()[h] == analysis_g.liberties()[h] by {
                assert forall|c: int| 0 <= c < cells_g.len() && #[trigger] ids[c] == g implies cells_g[c]
                    == Some(opponent) by {
                    assert(analysis_g.owners()[ids[c] as int] == cells_g[c]);
                }
                assert forall|c: int| 0 <= c < cells_g.len() && #[trigger] ids[c] == h implies cells_g[c]
                    == Some(opponent) by {
                    assert(analysis_g.owners()[ids[c] as int] == cells_g[c]);
                }
                lemma_liberties_unaffected::<BS>(
                    cells_g,
                    ids,
                    g as nat,
                    h as nat,
                    Some(opponent),
                    cells_g.len(),
                );
                assert(self.analysis.owners()[h] == Some(opponent));
            }
        }
        match player {
            Player::Black => {
                self.captured_by_black = self.captured_by_black.add(removed);
            },
            Player::White => {
                self.captured_by_white = self.captured_by_white.add(removed);
            },
        }
    }

    /// `player` takes every group of the opponent that has no liberties left.
    fn player_takes_prisoners(&mut self, player: Player)
        requires
            old(self).analysis.describes(old(self).board@),
            old(self).captured_total() + num_occupied(old(self).board@)
                <= NumStones::<BS>::max_count(),
        ensures
            final(self).analysis.describes(final(self).board@),
            final(self).board@ == without_dead(
                old(self).board@,
                old(self).analysis.ids(),
                old(self).analysis.owners(),
                old(self).analysis.liberties(),
                other(player),
            ),
            final(self).current_player == old(self).current_player,
            final(self).captured(other(player)) == old(self).captured(other(player)),
            final(self).captured(player) >= old(self).captured(player),
            final(self).captured(player) + num_occupied(final(self).board@) == old(self).captured(
                player,
            ) + num_occupied(old(self).board@),
    {
        let ghost cells0 = self.board@;
        let ghost ids = self.analysis.ids();
        let ghost owners0 = self.analysis.owners();
        let ghost libs0 = self.analysis.liberties();
        let ghost start = self.captured(player) + num_occupied(cells0);
        let opponent = player.other_player();
        let num = self.analysis.num_groups();
        let mut g: usize = 0;
        while g < num
            invariant
                num == self.analysis.count(),
                num == owners0.len(),
                num == libs0.len(),
                opponent == other(player),
                self.analysis.describes(self.board@),
                self.analysis.ids() == ids,
                cells0.len() == num_cells::<BS>(),
                g <= num,
                self.board@ == Seq::new(
                    num_cells::<BS>(),
                    |c: int|
                        if ids[c] < g && dead(owners0, libs0, opponent, ids[c]) {
                            None
                        } else {
                            cells0[c]
                        },
                ),
                self.analysis.owners() == Seq::new(
                    num as nat,
                    |h: int|
                        if h < g && dead(owners0, libs0, opponent, h as nat) {
                            None
                        } else {
                            owners0[h]
                        },
                ),
                forall|h: int|
                    g <= h < num && owners0[h] == Some(opponent) ==> #[trigger] self.analysis.liberties()[h]
                        == libs0[h],
                self.current_player == old(self).current_player,
                self.captured(opponent) == old(self).captured(opponent),
                self.captured(player) >= old(self).captured(player),
                self.captured(player) + num_occupied(self.board@) == start,
                start <= NumStones::<BS>::max_count(),
            decreases num - g,
        {
            let info = self.analysis.group_info(g);
            let is_opponent = match (info.owner, opponent) {
                (Some(Player::Black), Player::Black) => true,
                (Some(Player::White), Player::White) => true,
                _ => false,
            };
            if is_opponent && info.liberties.into_usize() == 0 {
                self.take_group(g, player);
            }
            g = g + 1;
            proof {
                assert(self.board@ =~= Seq::new(
                    num_cells::<BS>(),
                    |c: int|
                        if ids[c] < g && dead(owners0, libs0, opponent, ids[c]) {
                            None
                        } else {
                            cells0[c]
                        },
                ));
                assert(self.analysis.owners() =~= Seq::new(
                    num as nat,
                    |h: int|
                        if h < g && dead(owners0, libs0, opponent, h as nat) {
                            None
                        } else {
                            owners0[h]
                        },
                ));
            }
        }
        proof {
            assert(self.board@ =~= without_dead(cells0, ids, owners0, libs0, opponent));
        }
    }
}

} // verus!
