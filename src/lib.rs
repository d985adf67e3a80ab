//! Rule engine for the game of Go: a bit-packed board, connected-group
//! analysis with liberty counting, and move application with captures.
//!
//! Layers, from the leaves up: positions on a board of a fixed size
//! (`pos`), the board itself (`board`), the numbering of connected groups by
//! a union-find (`union_find`, `grouping`, `connect`), the owners and
//! liberties of those groups (`analysis`), and the game that places stones
//! and takes prisoners (`game`). Replaying recorded games (`sgf`) and reading
//! grids of numbers (`numbers`) sit beside them.
mod analysis;
mod bits;
mod board;
mod connect;
mod game;
mod group_id;
mod grouping;
mod numbers;
mod player;
mod pos;
mod sgf;
mod small_set;
mod union_find;

pub use player::{other, PlaceStoneError, Player};

pub use pos::{
    adjacent, col, down_of, is_board_size, left_of, num_cells, right_of, row, up_of, BoardSize,
    BoardSize13x13, BoardSize19x19, BoardSize3x3, BoardSize5x5, BoardSize7x7, BoardSize9x9,
    NumStones, Pos,
};

pub use bits::is_white_space;

pub use board::{
    decode_cell, empty_cells, lemma_text_round_trip, parse_cells, symbol_of, text_of, tokens,
    value_of_symbol, Board,
};

pub use group_id::{GroupId, GroupedStones};

pub use union_find::{label_of, monotone, num_roots, root_of, UnionFindAlgorithm};

pub use connect::{
    connected, is_path, lemma_connected_refl, lemma_connected_step, lemma_connected_sym,
    lemma_connected_trans, lemma_connected_value, lemma_path_kept, lemma_path_prefix,
    lemma_path_same_label,
};

pub use grouping::{
    dense_in_order, group_connected_stones, groups_cells, id_used, labels_components,
    lemma_uniform_board_one_group,
};

pub use analysis::{
    adjacent_empty_before, adjacent_empty_cells, below, empty_cells_before, empty_groups,
    lemma_group_count_bound, lemma_liberties_are_adjacent_empty_cells, liberties_before, near,
    lemma_removed_stones_count, num_liberties, num_occupied, occupied_before, removed_before,
    removed_stones, stone_groups, without_group, Analysis,
    GroupInfo,
};

pub use game::{
    dead, group_of, has_liberty, lemma_dead_groups_are_captured, lemma_last_liberty_capture,
    lemma_last_liberty_capture_count,
    lemma_no_group_without_liberties, lemma_pass_twice, lemma_placed_stone_stays,
    lemma_removal_keeps_liberties, lemma_survivors_have_liberties, passed, remove_captured,
    without_dead, Game,
};

pub use sgf::{
    captured_after, moves_in_turn, moves_on_board, node_error, node_move, placements, replayed, side_after, Move,
    MoveOrderError, NodeMoves, Outcome, OutcomeMargin, SgfGame,
};

pub use numbers::{
    digits_end, digits_value, is_digit, numbers_text, skip_white_space, NumbersParser,
};
