use go_game::{
    group_connected_stones, Board, BoardSize, BoardSize5x5, BoardSize7x7, GroupId, GroupedStones,
    NumbersParser, Pos,
};
use std::collections::HashSet;

fn parse_groups_from_string<BS: BoardSize + std::fmt::Debug + Eq + std::hash::Hash>(input: &str, cells: usize) -> GroupedStones<BS> {
    let mut seen_groups = HashSet::new();
    let mut parser = NumbersParser::new(input);
    let mut groups = Vec::new();
    let mut num_groups = GroupId::<BS>::from_usize(0);
    for _ in 0..cells {
        let group = GroupId::from_usize(parser.next_number().unwrap() as usize);
        groups.push(group);
        if seen_groups.insert(group) {
            num_groups.increment();
        }
    }
    assert!(parser.next_number().is_none());
    GroupedStones::new(groups, num_groups)
}

fn assert_groups_eq<BS: BoardSize + std::fmt::Debug + Eq + std::hash::Hash>(grouped: &GroupedStones<BS>, expected_groups_str: &str) {
    let expected_groups = parse_groups_from_string::<BS>(expected_groups_str, grouped.len());
    assert_eq!(
        expected_groups, *grouped,
        "The grouped stones do not match the expected groups.\nExpected:\n{:?}\nGot:\n{:?}",
        expected_groups, grouped,
    );
}

#[test]
fn group_stones_empty_board() {
    let board = Board::<BoardSize5x5>::from_str(
        r#"
            _ _ _ _ _
            _ _ _ _ _
            _ _ _ _ _
            _ _ _ _ _
            _ _ _ _ _
        "#,
    )
    .unwrap();
    let grouped = group_connected_stones(&board);
    assert_eq!(
        1,
        grouped.num_groups().into_usize(),
        "There should be 1 group: the empty spaces."
    );
    let expected_group = grouped.group_at(Pos::from_xy(0, 0));
    for y in 0..5 {
        for x in 0..5 {
            assert_eq!(expected_group, grouped.group_at(Pos::from_xy(x, y)));
        }
    }
}

#[test]
fn group_stones_board_filled_with_black() {
    let board = Board::<BoardSize5x5>::from_str(
        r#"
            ● ● ● ● ●
            ● ● ● ● ●
            ● ● ● ● ●
            ● ● ● ● ●
            ● ● ● ● ●
        "#,
    )
    .unwrap();
    let grouped = group_connected_stones(&board);
    assert_eq!(
        1,
        grouped.num_groups().into_usize(),
        "There should be 1 group: all black stones are connected."
    );
    let expected_group = grouped.group_at(Pos::from_xy(0, 0));
    for y in 0..5 {
        for x in 0..5 {
            assert_eq!(expected_group, grouped.group_at(Pos::from_xy(x, y)));
        }
    }
}

#[test]
fn group_stones_single_stone() {
    let board = Board::<BoardSize5x5>::from_str(
        r#"
            _ _ _ _ _
            _ _ _ _ _
            _ _ ○ _ _
            _ _ _ _ _
            _ _ _ _ _
        "#,
    )
    .unwrap();
    let grouped = group_connected_stones(&board);
    assert_eq!(
        2,
        grouped.num_groups().into_usize(),
        "There should be 2 groups: one for the single stone and one for the empty spaces."
    );
    let expected_group_other_stones = GroupId::from_usize(0);
    let expected_group_single_stone = GroupId::from_usize(1);
    for y in 0..5 {
        for x in 0..5 {
            if (x, y) == (2, 2) {
                assert_eq!(
                    expected_group_single_stone,
                    grouped.group_at(Pos::from_xy(x, y))
                );
            } else {
                assert_eq!(
                    expected_group_other_stones,
                    grouped.group_at(Pos::from_xy(x, y))
                );
            }
        }
    }
}

#[test]
fn group_stones_more_complicated_board() {
    let board = Board::<BoardSize5x5>::from_str(
        r#"
            _ ● _ ○ ○
            ● ● ○ _ _
            _ ○ ○ ● _
            ○ _ _ ● _
            _ _ _ _ ○
        "#,
    )
    .unwrap();
    let grouped = group_connected_stones(&board);

    assert_groups_eq(
        &grouped,
        r#"
            0 1 2 3 3
            1 1 4 5 5
            6 4 4 7 5
            8 9 9 7 5
            9 9 9 9 10
        "#,
    );
}

#[test]
fn group_stones_test_merging_groups() {
    let board = Board::<BoardSize7x7>::from_str(
        r#"
            ○ ● ● ● ● ● ○
            ○ _ _ ● _ _ ○
            ○ ● ● ● ● ● ○
            ○ ○ ○ ○ ○ ○ ○
            ○ ● ● ● ● ● ○
            ○ _ _ ● _ _ ○
            ○ ● ● ● ● ● ○
            "#,
    )
    .unwrap();

    let grouped = group_connected_stones(&board);

    assert_groups_eq(
        &grouped,
        r#"
            0 1 1 1 1 1 0
            0 2 2 1 3 3 0
            0 1 1 1 1 1 0
            0 0 0 0 0 0 0
            0 4 4 4 4 4 0
            0 5 5 4 6 6 0
            0 4 4 4 4 4 0
        "#,
    );
}
