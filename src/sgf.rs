use crate::analysis::{num_occupied, removed_stones};
use crate::board::empty_cells;
use crate::game::{remove_captured, Game};
use crate::player::{other, PlaceStoneError, Player};
use crate::pos::{BoardSize19x19, Pos};
use vstd::prelude::*;

verus! {

/// One move of a recorded game.
#[derive(Clone, Copy, Debug, PartialEq, Eq, Structural)]
pub enum Move {
    Pass,
    Place { x: u8, y: u8 },
}

/// How a recorded game was won.
#[derive(Clone, Copy, Debug, PartialEq, Eq, Structural)]
pub enum OutcomeMargin {
    ByResign,
    ByTime,
    ByForfeit,
    /// Twice the points, so that half points are whole numbers.
    ByPoints { points_times_two: u32 },
}

/// The result of a recorded game.
#[derive(Clone, Copy, Debug, PartialEq, Eq, Structural)]
pub enum Outcome {
    WithWinner { winner: Player, margin: OutcomeMargin },
    Draw,
    Void,
    Unfinished,
    Unknown,
}

/// A recorded 19×19 game: its result and its moves.
#[derive(Clone, Debug, PartialEq, Eq)]
pub struct SgfGame {
    pub outcome: Outcome,
    pub moves: Vec<Move>,
}

/// Every placement among the moves lies on a 19×19 board.
pub open spec fn moves_on_board(moves: Seq<Move>) -> bool {
    forall|i: int|
        0 <= i < moves.len() ==> (#[trigger] moves[i] matches Move::Place { x, y } ==> x < 19
            && y < 19)
}

/// How many of the first `k` moves place a stone.
pub open spec fn placements(moves: Seq<Move>, k: nat) -> nat
    decreases k,
{
    if k == 0 {
        0
    } else {
        placements(moves, (k - 1) as nat) + if moves[k - 1] is Place {
            1nat
        } else {
            0nat
        }
    }
}

/// The side to move after `k` moves from the start.
pub open spec fn side_after(k: nat) -> Player {
    if k % 2 == 0 {
        Player::Black
    } else {
        Player::White
    }
}

/// The board after the first `k` moves of a record, played from an empty
/// 19×19 board, or `None` when one of them places a stone on an occupied cell.
pub open spec fn replayed(moves: Seq<Move>, k: nat) -> Option<Seq<Option<Player>>>
    decreases k,
{
    if k == 0 {
        Some(empty_cells::<BoardSize19x19>())
    } else {
        match replayed(moves, (k - 1) as nat) {
            None => None,
            Some(cells) => match moves[k - 1] {
                Move::Pass => Some(cells),
                Move::Place { x, y } => {
                    let i = y * 19 + x;
                    let mover = side_after((k - 1) as nat);
                    if cells[i] is Some {
                        None
                    } else {
                        Some(
                            remove_captured::<BoardSize19x19>(
                                remove_captured::<BoardSize19x19>(
                                    cells.update(i, Some(mover)),
                                    other(mover),
                                ),
                                mover,
                            ),
                        )
                    }
                },
            },
        }
    }
}

/// How many stones `p` has captured after the first `k` moves of a record,
/// replayed from an empty 19×19 board.
pub open spec fn captured_after(moves: Seq<Move>, k: nat, p: Player) -> nat
    decreases k,
{
    if k == 0 {
        0
    } else {
        let before = captured_after(moves, (k - 1) as nat, p);
        match replayed(moves, (k - 1) as nat) {
            None => before,
            Some(cells) => match moves[k - 1] {
                Move::Pass => before,
                Move::Place { x, y } => {
                    let i = y * 19 + x;
                    let mover = side_after((k - 1) as nat);
                    let placed = cells.update(i, Some(mover));
                    let taken = remove_captured::<BoardSize19x19>(placed, other(mover));
                    let last = remove_captured::<BoardSize19x19>(taken, mover);
                    if cells[i] is Some {
                        before
                    } else if p == mover {
                        before + removed_stones(placed, taken).len()
                    } else {
                        before + removed_stones(taken, last).len()
                    }
                },
            },
        }
    }
}

/// Once a replay fails it stays failed.
proof fn lemma_replay_failed(moves: Seq<Move>, k: nat, n: nat)
    requires
        k <= n,
        replayed(moves, k) is None,
    ensures
        replayed(moves, n) is None,
    decreases n,
{
    if k < n {
        lemma_replay_failed(moves, k, (n - 1) as nat);
    }
}

/// The moves that one node of a game record holds, by colour.
#[derive(Clone, Copy, Debug, PartialEq, Eq, Structural)]
pub struct NodeMoves {
    pub black: Option<Move>,
    pub white: Option<Move>,
}

/// Why the nodes of a game record do not form one game.
#[derive(Clone, Copy, Debug, PartialEq, Eq, Structural)]
pub enum MoveOrderError {
    /// A node holds a move for both colours.
    BothColors,
    /// A node holds no move.
    NoMove,
    /// A node holds a move for the side that is not to move.
    WrongTurn,
}

/// What is wrong with node `n` when it is the `i`-th move, if anything.
pub open spec fn node_error(n: NodeMoves, i: nat) -> Option<MoveOrderError> {
    if n.white is Some {
        if n.black is Some {
            Some(MoveOrderError::BothColors)
        } else if side_after(i) != Player::White {
            Some(MoveOrderError::WrongTurn)
        } else {
            None
        }
    } else if n.black is Some {
        if side_after(i) != Player::Black {
            Some(MoveOrderError::WrongTurn)
        } else {
            None
        }
    } else {
        Some(MoveOrderError::NoMove)
    }
}

/// The move a well-formed node holds.
pub open spec fn node_move(n: NodeMoves) -> Move {
    if n.white is Some {
        n.white->0
    } else {
        n.black->0
    }
}

/// The moves of a game record, one per node, checking that each node holds
/// exactly one move and that the colours alternate, Black first.
pub fn moves_in_turn(nodes: &Vec<NodeMoves>) -> (r: Result<Vec<Move>, MoveOrderError>)
    ensures
        r is Ok <==> forall|i: int|
            0 <= i < nodes@.len() ==> node_error(#[trigger] nodes@[i], i as nat) is None,
        r matches Ok(moves) ==> moves@.len() == nodes@.len() && forall|i: int|
            0 <= i < nodes@.len() ==> #[trigger] moves@[i] == node_move(nodes@[i]),
        r matches Err(e) ==> exists|i: int|
            0 <= i < nodes@.len() && node_error(#[trigger] nodes@[i], i as nat) == Some(e) && forall|
                j: int,
            | 0 <= j < i ==> node_error(#[trigger] nodes@[j], j as nat) is None,
{
    let mut moves: Vec<Move> = Vec::new();
    let mut current = Player::Black;
    let mut i: usize = 0;
    while i < nodes.len()
        invariant
            i <= nodes@.len(),
            current == side_after(i as nat),
            moves@.len() == i,
            forall|j: int| 0 <= j < i ==> node_error(#[trigger] nodes@[j], j as nat) is None,
            forall|j: int| 0 <= j < i ==> #[trigger] moves@[j] == node_move(nodes@[j]),
        decreases nodes@.len() - i,
    {
        let node = nodes[i];
        let m = match (node.black, node.white) {
            (Some(_), Some(_)) => {
                return Err(MoveOrderError::BothColors);
            },
            (None, Some(m)) => {
                if current != Player::White {
                    return Err(MoveOrderError::WrongTurn);
                }
                m
            },
            (Some(m), None) => {
                if current != Player::Black {
                    return Err(MoveOrderError::WrongTurn);
                }
                m
            },
            (None, None) => {
                return Err(MoveOrderError::NoMove);
            },
        };
        moves.push(m);
        current = current.other_player();
        i = i + 1;
    }
    Ok(moves)
}

impl SgfGame {
    /// Replays the first `move_index` moves from an empty board. Fails when a
    /// move places a stone on an occupied cell. The board reached depends on
    /// the moves alone, however often the replay is run.
    pub fn game_position_after_num_moves(&self, move_index: usize) -> (r: Result<
        Game<BoardSize19x19>,
        PlaceStoneError,
    >)
        requires
            move_index <= self.moves@.len(),
            move_index < 65535,
            moves_on_board(self.moves@),
        ensures
            r is Ok <==> replayed(self.moves@, move_index as nat) is Some,
            r matches Ok(g) ==> {
                &&& Some(g.cells()) == replayed(self.moves@, move_index as nat)
                &&& g.to_move() == side_after(move_index as nat)
                &&& g.captured(Player::Black) == captured_after(
                    self.moves@,
                    move_index as nat,
                    Player::Black,
                )
                &&& g.captured(Player::White) == captured_after(
                    self.moves@,
                    move_index as nat,
                    Player::White,
                )
                &&& g.captured_total() + num_occupied(g.cells()) == placements(
                    self.moves@,
                    move_index as nat,
                )
            },
            r matches Err(e) ==> e == PlaceStoneError::CellOccupied,
    {
        let mut game = Game::<BoardSize19x19>::new();
        proof {
            assert(num_occupied(game.cells()) == 0) by {
                lemma_no_stones(game.cells(), game.cells().len());
            }
        }
        let mut i: usize = 0;
        while i < move_index
            invariant
                i <= move_index,
                move_index <= self.moves@.len(),
                move_index < 65535,
                moves_on_board(self.moves@),
                game.to_move() == side_after(i as nat),
                replayed(self.moves@, i as nat) == Some(game.cells()),
                game.captured(Player::Black) == captured_after(self.moves@, i as nat, Player::Black),
                game.captured(Player::White) == captured_after(self.moves@, i as nat, Player::White),
                game.captured_total() + num_occupied(game.cells()) == placements(
                    self.moves@,
                    i as nat,
                ),
                placements(self.moves@, i as nat) <= i,
            decreases move_index - i,
        {
            match self.moves[i] {
                Move::Pass => {
                    game.pass_turn();
                },
                Move::Place { x, y } => {
                    proof {
                        assert(self.moves@[i as int] matches Move::Place { x, y } ==> x < 19 && y
                            < 19);
                    }
                    let pos = Pos::from_xy(x as usize, y as usize);
                    match game.place_stone(pos) {
                        Ok(()) => {},
                        Err(e) => {
                            proof {
                                lemma_replay_failed(self.moves@, (i + 1) as nat, move_index as nat);
                            }
                            return Err(e);
                        },
                    }
                },
            }
            i = i + 1;
        }
        Ok(game)
    }
}

/// A board with no stone counts none.
proof fn lemma_no_stones(cells: Seq<Option<Player>>, k: nat)
    requires
        k <= cells.len(),
        forall|c: int| 0 <= c < cells.len() ==> #[trigger] cells[c] is None,
    ensures
        crate::analysis::occupied_before(cells, k) == 0,
    decreases k,
{
    if k > 0 {
        lemma_no_stones(cells, (k - 1) as nat);
    }
}

} // verus!
