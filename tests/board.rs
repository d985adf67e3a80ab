use go_game::{Board, BoardSize13x13, BoardSize3x3, BoardSize5x5, Player, Pos};

#[test]
fn board_empty_board() {
    let board = Board::<BoardSize13x13>::new();
    for y in 0..13 {
        for x in 0..13 {
            assert_eq!(
                board.get(Pos::from_xy(x, y)),
                None,
                "Cell ({}, {}) should be empty",
                x,
                y
            );
            assert!(
                !board.is_occupied(Pos::from_xy(x, y)),
                "Cell ({}, {}) should not be occupied",
                x,
                y,
            );
        }
    }
}

#[test]
fn set_and_get_cells() {
    let mut board = Board::<BoardSize13x13>::new();

    board.set(Pos::from_xy(0, 0), Some(Player::White));
    assert_eq!(board.get(Pos::from_xy(0, 0)), Some(Player::White));

    board.set(Pos::from_xy(10, 10), Some(Player::Black));
    assert_eq!(board.get(Pos::from_xy(10, 10)), Some(Player::Black));

    board.set(Pos::from_xy(12, 8), Some(Player::White));
    assert_eq!(board.get(Pos::from_xy(12, 8)), Some(Player::White));

    for y in 0..13 {
        for x in 0..13 {
            if (x, y) != (0, 0) && (x, y) != (10, 10) && (x, y) != (12, 8) {
                assert_eq!(
                    board.get(Pos::from_xy(x, y)),
                    None,
                    "Cell ({}, {}) should still be empty",
                    x,
                    y
                );
            }
        }
    }
}

#[test]
fn test_parse_valid_board() {
    let input = r#"
                _ ○ ○
                ○ ● ●
                ○ _ ○
            "#;
    let board = Board::<BoardSize3x3>::from_str(input).unwrap();
    assert_eq!(board.get(Pos::from_xy(0, 0)), None);
    assert_eq!(board.get(Pos::from_xy(0, 1)), Some(Player::Black));
    assert_eq!(board.get(Pos::from_xy(0, 2)), Some(Player::Black));
    assert_eq!(board.get(Pos::from_xy(1, 0)), Some(Player::Black));
    assert_eq!(board.get(Pos::from_xy(1, 1)), Some(Player::White));
    assert_eq!(board.get(Pos::from_xy(1, 2)), None);
    assert_eq!(board.get(Pos::from_xy(2, 0)), Some(Player::Black));
    assert_eq!(board.get(Pos::from_xy(2, 1)), Some(Player::White));
    assert_eq!(board.get(Pos::from_xy(2, 2)), Some(Player::Black));
}

#[test]
fn overwriting_a_cell_clears_its_colour() {
    let mut board = Board::<BoardSize3x3>::new();
    board.set(Pos::from_xy(1, 1), Some(Player::Black));
    board.set(Pos::from_xy(1, 1), Some(Player::White));
    assert_eq!(board.get(Pos::from_xy(1, 1)), Some(Player::White));
    board.set(Pos::from_xy(1, 1), None);
    assert_eq!(board.get(Pos::from_xy(1, 1)), None);
    assert_eq!(board, Board::<BoardSize3x3>::new());
}

#[test]
fn set_if_empty_refuses_an_occupied_cell() {
    let mut board = Board::<BoardSize3x3>::new();
    assert!(board.set_if_empty(Pos::from_xy(2, 0), Player::White).is_ok());
    assert!(board.set_if_empty(Pos::from_xy(2, 0), Player::Black).is_err());
    assert_eq!(board.get(Pos::from_xy(2, 0)), Some(Player::White));
}

#[test]
fn parse_rejects_an_unknown_symbol() {
    assert!(Board::<BoardSize3x3>::from_str("_ _ _\n_ x _\n_ _ _").is_err());
}

#[test]
fn parse_rejects_too_few_cells() {
    assert!(Board::<BoardSize3x3>::from_str("_ _ _\n_ _ _\n_ _").is_err());
}

#[test]
fn parse_rejects_extra_characters() {
    assert!(Board::<BoardSize3x3>::from_str("_ _ _\n_ _ _\n_ _ _\n_").is_err());
}

#[test]
fn parse_accepts_any_whitespace_and_adjacent_symbols() {
    let board = Board::<BoardSize3x3>::from_str("\t○●_\r\n _ _ _\u{3000}_ _ ●  ").unwrap();
    assert_eq!(board.get(Pos::from_xy(0, 0)), Some(Player::Black));
    assert_eq!(board.get(Pos::from_xy(1, 0)), Some(Player::White));
    assert_eq!(board.get(Pos::from_xy(2, 2)), Some(Player::White));
    assert_eq!(board.get(Pos::from_xy(1, 1)), None);
}

#[test]
fn text_of_a_board() {
    let board = Board::<BoardSize3x3>::from_str("○ _ ●\n_ _ _\n_ ● ○").unwrap();
    assert_eq!(board.to_text(), "○ _ ●\n_ _ _\n_ ● ○\n");
}

#[test]
fn text_round_trip() {
    let board = Board::<BoardSize5x5>::from_str(
        r#"
        _ ● ○ ○ ○
        ● ● ○ ● ●
        ○ ○ ○ ● _
        ○ ● ● _ _
        _ _ _ _ ○
    "#,
    )
    .unwrap();
    let again = Board::<BoardSize5x5>::from_str(&board.to_text()).unwrap();
    assert_eq!(again, board);
}

#[test]
fn positions_and_neighbours() {
    let p = Pos::<BoardSize5x5>::from_xy(3, 2);
    assert_eq!(p.index(), 13);
    assert_eq!((p.x(), p.y()), (3, 2));
    assert_eq!(p.left().unwrap().index(), 12);
    assert_eq!(p.right().unwrap().index(), 14);
    assert_eq!(p.up().unwrap().index(), 8);
    assert_eq!(p.down().unwrap().index(), 18);
    let corner = Pos::<BoardSize5x5>::from_xy(4, 4);
    assert!(corner.right().is_none());
    assert!(corner.down().is_none());
    let origin = Pos::<BoardSize5x5>::from_index(0);
    assert!(origin.left().is_none());
    assert!(origin.up().is_none());
    assert_eq!(Pos::<BoardSize5x5>::all_positions().len(), 25);
}

#[test]
fn other_player_alternates() {
    assert_eq!(Player::Black.other_player(), Player::White);
    assert_eq!(Player::White.other_player(), Player::Black);
}
