use go_game::{Board, BoardSize13x13, BoardSize5x5, Game, NumStones, Player, Pos};

fn stones_on<BS: go_game::BoardSize + Copy>(board: &Board<BS>) -> usize {
    Pos::<BS>::all_positions()
        .into_iter()
        .filter(|pos| board.get(*pos).is_some())
        .count()
}

fn assert_game_state(
    game: &Game<BoardSize5x5>,
    expected_board: &str,
    to_move: Player,
    captured_by_black: usize,
    captured_by_white: usize,
) {
    let expected = Board::<BoardSize5x5>::from_str(expected_board).unwrap();
    assert_eq!(&expected, game.board());
    assert_eq!(to_move, game.current_player());
    assert_eq!(captured_by_black, game.num_captured_by(Player::Black).into_usize());
    assert_eq!(captured_by_white, game.num_captured_by(Player::White).into_usize());
}

#[test]
fn game_test_new_game_initial_state() {
    let game = Game::<BoardSize13x13>::new();
    assert_eq!(game.current_player(), Player::Black);
    assert_eq!(stones_on(game.board()), 0);
}

#[test]
fn game_test_place_stone_success() {
    let mut game = Game::<BoardSize13x13>::new();
    assert!(game.place_stone(Pos::from_xy(10, 5)).is_ok());
    assert_eq!(game.board().get(Pos::from_xy(10, 5)), Some(Player::Black));
    assert_eq!(game.current_player(), Player::White);
}

#[test]
fn game_test_place_stone_on_occupied_space() {
    let mut game = Game::<BoardSize13x13>::new();
    assert!(game.place_stone(Pos::from_xy(10, 5)).is_ok());
    assert_eq!(game.board().get(Pos::from_xy(10, 5)), Some(Player::Black));
    assert_eq!(game.current_player(), Player::White);

    assert!(game.place_stone(Pos::from_xy(10, 5)).is_err());
    assert_eq!(game.board().get(Pos::from_xy(10, 5)), Some(Player::Black));
    assert_eq!(game.current_player(), Player::White);
}

#[test]
fn game_test_alternating_players() {
    let mut game = Game::<BoardSize13x13>::new();
    assert!(game.place_stone(Pos::from_xy(0, 0)).is_ok());
    assert_eq!(game.current_player(), Player::White);
    assert!(game.place_stone(Pos::from_xy(1, 1)).is_ok());
    assert_eq!(game.current_player(), Player::Black);
}

#[test]
fn test_place_stone_and_take_prisoners() {
    let board = Board::<BoardSize5x5>::from_str(
        r#"
            _ ● ○ ○ ○
            ● ● ○ ● ●
            ○ ○ ○ ● _
            ○ ● ● _ _
            _ _ _ _ ○
        "#,
    )
    .unwrap();
    let mut game = Game::<BoardSize5x5>::from_board(
        board,
        Player::White,
        NumStones::zero(),
        NumStones::zero(),
    );
    game.place_stone(Pos::from_xy(0, 4)).unwrap();
    assert_game_state(
        &game,
        r#"
            _ ● _ _ _
            ● ● _ ● ●
            _ _ _ ● _
            _ ● ● _ _
            ● _ _ _ ○
        "#,
        Player::Black,
        0,
        8, // White captured one group of stones
    );
}

#[test]
fn capture_opponent_before_capturing_self_black_moves() {
    let board = Board::<BoardSize5x5>::from_str(
        r#"
            ○ ○ ○ ○ ○
            ○ ● ● ● ○
            ○ ● _ ● ○
            ○ ● ● ● ○
            ○ ○ ○ ○ ○
        "#,
    )
    .unwrap();
    let mut game = Game::<BoardSize5x5>::from_board(
        board,
        Player::Black,
        NumStones::zero(),
        NumStones::zero(),
    );
    game.place_stone(Pos::from_xy(2, 2)).unwrap();
    assert_game_state(
        &game,
        r#"
            ○ ○ ○ ○ ○
            ○ _ _ _ ○
            ○ _ ○ _ ○
            ○ _ _ _ ○
            ○ ○ ○ ○ ○
        "#,
        Player::White,
        8,
        0,
    );
}

#[test]
fn capture_opponent_before_capturing_self_white_moves() {
    let board = Board::<BoardSize5x5>::from_str(
        r#"
            ● ● ● ● ●
            ● ○ ○ ○ ●
            ● ○ _ ○ ●
            ● ○ ○ ○ ●
            ● ● ● ● ●
        "#,
    )
    .unwrap();
    let mut game = Game::<BoardSize5x5>::from_board(
        board,
        Player::White,
        NumStones::zero(),
        NumStones::zero(),
    );
    game.place_stone(Pos::from_xy(2, 2)).unwrap();
    assert_game_state(
        &game,
        r#"
            ● ● ● ● ●
            ● _ _ _ ●
            ● _ ● _ ●
            ● _ _ _ ●
            ● ● ● ● ●
        "#,
        Player::Black,
        0,
        8,
    );
}
