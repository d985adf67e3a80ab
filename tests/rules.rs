use go_game::{
    group_connected_stones, Analysis, Board, BoardSize19x19, BoardSize3x3, BoardSize5x5,
    BoardSize9x9, Game, Move, NumStones, Outcome, OutcomeMargin, Player, Pos, SgfGame,
};

fn total_captured<BS: go_game::BoardSize>(game: &Game<BS>) -> usize {
    game.num_captured_by(Player::Black).into_usize() + game.num_captured_by(Player::White).into_usize()
}

fn stones<BS: go_game::BoardSize + Copy>(board: &Board<BS>) -> usize {
    Pos::<BS>::all_positions()
        .into_iter()
        .filter(|pos| board.is_occupied(*pos))
        .count()
}

#[test]
fn single_liberty_capture_on_small_board() {
    let board = Board::<BoardSize3x3>::from_str("_ ○ _\n○ ● ○\n_ _ _").unwrap();
    let mut game = Game::from_board(board, Player::Black, NumStones::zero(), NumStones::zero());
    game.place_stone(Pos::from_xy(1, 2)).unwrap();
    assert_eq!(game.board().get(Pos::from_xy(1, 1)), None);
    assert_eq!(game.num_captured_by(Player::Black).into_usize(), 1);
    assert_eq!(game.num_captured_by(Player::White).into_usize(), 0);
    assert_eq!(game.current_player(), Player::White);
}

#[test]
fn group_in_atari_is_taken_whole() {
    let board = Board::<BoardSize5x5>::from_str(
        r#"
        _ ○ ○ ○ _
        ○ ● ● ● ○
        _ ○ ● ○ _
        _ _ _ _ _
        _ _ _ _ _
    "#,
    )
    .unwrap();
    let mut game = Game::from_board(board, Player::Black, NumStones::zero(), NumStones::zero());
    game.place_stone(Pos::from_xy(2, 3)).unwrap();
    assert_eq!(game.num_captured_by(Player::Black).into_usize(), 4);
    for (x, y) in [(1, 1), (2, 1), (3, 1), (2, 2)] {
        assert_eq!(game.board().get(Pos::from_xy(x, y)), None);
    }
}

#[test]
fn two_passes_restore_the_side_to_move() {
    let mut game = Game::<BoardSize5x5>::new();
    game.pass_turn();
    assert_eq!(game.current_player(), Player::White);
    game.pass_turn();
    assert_eq!(game.current_player(), Player::Black);
    assert_eq!(game.board(), &Board::<BoardSize5x5>::new());
    assert_eq!(total_captured(&game), 0);
}

#[test]
fn double_pass_after_moves_keeps_the_board() {
    let mut game = Game::<BoardSize5x5>::new();
    game.place_stone(Pos::from_xy(1, 1)).unwrap();
    game.place_stone(Pos::from_xy(3, 3)).unwrap();
    let before = *game.board();
    game.pass_turn();
    game.pass_turn();
    assert_eq!(*game.board(), before);
    assert_eq!(game.current_player(), Player::Black);
}

#[test]
fn corners_accept_stones_on_an_empty_board() {
    for (x, y) in [(0, 0), (8, 0), (0, 8), (8, 8)] {
        let mut game = Game::<BoardSize9x9>::new();
        assert!(game.place_stone(Pos::from_xy(x, y)).is_ok());
        assert_eq!(game.board().get(Pos::from_xy(x, y)), Some(Player::Black));
    }
}

#[test]
fn illegal_placement_leaves_the_game_alone() {
    let mut game = Game::<BoardSize19x19>::new();
    assert!(game.place_stone(Pos::from_xy(10, 5)).is_ok());
    let board = *game.board();
    assert_eq!(
        game.place_stone(Pos::from_xy(10, 5)),
        Err(go_game::PlaceStoneError::CellOccupied)
    );
    assert_eq!(game.current_player(), Player::White);
    assert_eq!(*game.board(), board);
}

#[test]
fn suicide_removes_the_placed_stone() {
    let board = Board::<BoardSize3x3>::from_str("_ ● _\n● _ _\n_ _ _").unwrap();
    let mut game = Game::from_board(board, Player::Black, NumStones::zero(), NumStones::zero());
    assert!(game.place_stone(Pos::from_xy(0, 0)).is_ok());
    assert_eq!(game.board().get(Pos::from_xy(0, 0)), None);
    assert_eq!(game.num_captured_by(Player::White).into_usize(), 1);
    assert_eq!(game.current_player(), Player::White);
}

#[test]
fn prisoners_plus_stones_grow_by_one_per_placement() {
    let mut game = Game::<BoardSize3x3>::new();
    let moves = [(1, 0), (1, 1), (0, 1), (0, 0), (2, 1), (2, 2), (1, 2), (0, 2), (2, 0)];
    let mut placed = 0;
    for (x, y) in moves {
        let before = total_captured(&game);
        if game.place_stone(Pos::from_xy(x, y)).is_ok() {
            placed += 1;
        }
        assert!(total_captured(&game) >= before);
        assert_eq!(total_captured(&game) + stones(game.board()), placed);
    }
    assert!(placed > 0);
}

#[test]
fn full_board_of_one_colour_is_one_group() {
    let mut board = Board::<BoardSize5x5>::new();
    for pos in Pos::<BoardSize5x5>::all_positions() {
        board.set(pos, Some(Player::White));
    }
    let analysis = Analysis::analyze(&board);
    let groups = analysis.groups();
    assert_eq!(groups.len(), 1);
    assert_eq!(groups[0].1.owner, Some(Player::White));
    assert_eq!(groups[0].1.liberties.into_usize(), 0);
}

#[test]
fn analysis_owners_and_liberties() {
    let board = Board::<BoardSize5x5>::from_str(
        r#"
        _ ● _ ○ ○
        ● ● ○ _ _
        _ ○ ○ ● _
        ○ _ _ ● _
        _ _ _ _ ○
    "#,
    )
    .unwrap();
    let analysis = Analysis::analyze(&board);
    let groups = analysis.groups();
    assert_eq!(groups.len(), 11);
    for pos in Pos::<BoardSize5x5>::all_positions() {
        let g = analysis.group_at(pos).into_usize();
        assert_eq!(groups[g].1.owner, board.get(pos));
    }
    // White group in the top-left corner: (1,0), (0,1), (1,1); liberties (0,0), (2,0), (0,2).
    let white = analysis.group_at(Pos::from_xy(1, 0)).into_usize();
    assert_eq!(groups[white].1.liberties.into_usize(), 3);
    // Black group (2,1), (1,2), (2,2): liberties (2,0), (3,1), (0,2), (1,3), (2,3).
    let black = analysis.group_at(Pos::from_xy(2, 2)).into_usize();
    assert_eq!(groups[black].1.liberties.into_usize(), 5);
    // Single black stone at (4,4): liberties (3,4) and (4,3).
    let corner = analysis.group_at(Pos::from_xy(4, 4)).into_usize();
    assert_eq!(groups[corner].1.liberties.into_usize(), 2);
}

#[test]
fn group_ids_are_dense_and_in_order() {
    let board = Board::<BoardSize5x5>::from_str(
        r#"
        ○ ● ○ ● ○
        ● ○ ● ○ ●
        ○ ● ○ ● ○
        ● ○ ● ○ ●
        ○ ● ○ ● ○
    "#,
    )
    .unwrap();
    let grouped = group_connected_stones(&board);
    assert_eq!(grouped.num_groups().into_usize(), 25);
    for (i, pos) in Pos::<BoardSize5x5>::all_positions().into_iter().enumerate() {
        assert_eq!(grouped.group_at(pos).into_usize(), i);
    }
}

#[test]
fn no_group_without_liberties_after_a_move() {
    let board = Board::<BoardSize5x5>::from_str(
        r#"
        _ ● ○ ○ ○
        ● ● ○ ● ●
        ○ ○ ○ ● _
        ○ ● ● _ _
        _ _ _ _ ○
    "#,
    )
    .unwrap();
    let mut game = Game::from_board(board, Player::White, NumStones::zero(), NumStones::zero());
    game.place_stone(Pos::from_xy(0, 4)).unwrap();
    let analysis = Analysis::analyze(game.board());
    for (_, info) in analysis.groups() {
        if info.owner.is_some() {
            assert!(info.liberties.into_usize() > 0);
        }
    }
}

fn recorded_game() -> SgfGame {
    SgfGame {
        outcome: Outcome::WithWinner { winner: Player::White, margin: OutcomeMargin::ByResign },
        moves: vec![
            Move::Place { x: 0, y: 1 },
            Move::Place { x: 0, y: 0 },
            Move::Place { x: 1, y: 1 },
            Move::Pass,
            Move::Place { x: 1, y: 0 },
            Move::Place { x: 3, y: 3 },
        ],
    }
}

#[test]
fn replaying_a_record_twice_gives_the_same_board() {
    let record = recorded_game();
    let first = record.game_position_after_num_moves(6).unwrap();
    let second = record.game_position_after_num_moves(6).unwrap();
    assert_eq!(first.board(), second.board());
    assert_eq!(first.board().get(Pos::from_xy(0, 0)), None);
    assert_eq!(first.num_captured_by(Player::Black).into_usize(), 1);
    assert_eq!(first.current_player(), Player::Black);
}

#[test]
fn replay_stops_on_an_occupied_cell() {
    let record = SgfGame {
        outcome: Outcome::Unknown,
        moves: vec![Move::Place { x: 4, y: 4 }, Move::Place { x: 4, y: 4 }],
    };
    assert!(record.game_position_after_num_moves(1).is_ok());
    assert!(record.game_position_after_num_moves(2).is_err());
}

fn node(black: Option<Move>, white: Option<Move>) -> go_game::NodeMoves {
    go_game::NodeMoves { black, white }
}

#[test]
fn move_order_alternates_from_black() {
    let nodes = vec![
        node(Some(Move::Place { x: 3, y: 3 }), None),
        node(None, Some(Move::Pass)),
        node(Some(Move::Place { x: 15, y: 15 }), None),
    ];
    assert_eq!(
        go_game::moves_in_turn(&nodes),
        Ok(vec![Move::Place { x: 3, y: 3 }, Move::Pass, Move::Place { x: 15, y: 15 }])
    );
}

#[test]
fn move_order_errors() {
    type E = go_game::MoveOrderError;
    let both = vec![node(Some(Move::Pass), Some(Move::Pass))];
    assert_eq!(go_game::moves_in_turn(&both), Err(E::BothColors));
    let none = vec![node(Some(Move::Pass), None), node(None, None)];
    assert_eq!(go_game::moves_in_turn(&none), Err(E::NoMove));
    let white_first = vec![node(None, Some(Move::Pass))];
    assert_eq!(go_game::moves_in_turn(&white_first), Err(E::WrongTurn));
    let black_twice = vec![node(Some(Move::Pass), None), node(Some(Move::Pass), None)];
    assert_eq!(go_game::moves_in_turn(&black_twice), Err(E::WrongTurn));
    assert_eq!(go_game::moves_in_turn(&Vec::new()), Ok(Vec::new()));
}

#[test]
fn only_groups_without_liberties_are_taken() {
    // White (●) plays (4, 4), the last liberty of the black pair on the right
    // edge; the black stone at (1, 1) keeps its liberties.
    let board = Board::<BoardSize5x5>::from_str(
        r#"
        _ _ _ ● _
        _ ○ _ ● ●
        _ _ _ ● ○
        _ _ _ ● ○
        _ _ _ _ _
    "#,
    )
    .unwrap();
    let mut game = Game::from_board(board, Player::White, NumStones::zero(), NumStones::zero());
    game.place_stone(Pos::from_xy(4, 4)).unwrap();
    let expected = Board::<BoardSize5x5>::from_str(
        r#"
        _ _ _ ● _
        _ ○ _ ● ●
        _ _ _ ● _
        _ _ _ ● _
        _ _ _ _ ●
    "#,
    )
    .unwrap();
    assert_eq!(game.board(), &expected);
    assert_eq!(game.num_captured_by(Player::White).into_usize(), 2);
    assert_eq!(game.num_captured_by(Player::Black).into_usize(), 0);
}

#[test]
fn group_count_within_empty_cells_and_stone_groups() {
    let board = Board::<BoardSize5x5>::from_str(
        r#"
        _ ● _ ○ ○
        ● ● ○ _ _
        _ ○ ○ ● _
        ○ _ _ ● _
        _ _ _ _ ○
    "#,
    )
    .unwrap();
    let grouped = group_connected_stones(&board);
    let groups = grouped.num_groups().into_usize();
    let mut stone_groups = std::collections::HashSet::new();
    for pos in Pos::<BoardSize5x5>::all_positions() {
        if board.is_occupied(pos) {
            stone_groups.insert(grouped.group_at(pos).into_usize());
        }
    }
    let occupied = stones(&board);
    assert_eq!(groups, 11);
    assert_eq!(stone_groups.len(), 6);
    assert!(groups + occupied <= 25 + stone_groups.len());
}
