use std::cmp::Ordering;

use twenty48::board::Board;
use twenty48::components::{Position, Tile};
use twenty48::shift::{board_shift, BoardShift};

fn tile(id: u64, x: u8, y: u8, value: u32) -> Tile {
    Tile { id, pos: Position { x, y }, value }
}

fn value_at(tiles: &[Tile], x: u8, y: u8) -> Option<u32> {
    tiles.iter().find(|t| t.pos == Position { x, y }).map(|t| t.value)
}

#[test]
fn comparator_orders_left_by_row_then_column() {
    let dir = BoardShift::Left;
    let a = Position { x: 2, y: 0 };
    let b = Position { x: 0, y: 1 };
    assert_eq!(dir.sort(&a, &b), Ordering::Less);
    let c = Position { x: 1, y: 0 };
    assert_eq!(dir.sort(&a, &c), Ordering::Greater);
    assert_eq!(dir.sort(&a, &a), Ordering::Equal);
}

#[test]
fn comparator_orders_right_descending() {
    let dir = BoardShift::Right;
    let a = Position { x: 3, y: 2 };
    let b = Position { x: 1, y: 2 };
    assert_eq!(dir.sort(&a, &b), Ordering::Less);
    assert_eq!(dir.sort(&b, &a), Ordering::Greater);
}

#[test]
fn column_assignment_per_direction() {
    let mut p = Position { x: 2, y: 1 };
    BoardShift::Left.set_column_position(4, &mut p, 0);
    assert_eq!(p, Position { x: 0, y: 1 });
    let mut p = Position { x: 2, y: 1 };
    BoardShift::Right.set_column_position(4, &mut p, 0);
    assert_eq!(p, Position { x: 3, y: 1 });
    let mut p = Position { x: 2, y: 1 };
    BoardShift::Up.set_column_position(4, &mut p, 0);
    assert_eq!(p, Position { x: 2, y: 3 });
    let mut p = Position { x: 2, y: 1 };
    BoardShift::Down.set_column_position(4, &mut p, 1);
    assert_eq!(p, Position { x: 2, y: 1 });
}

#[test]
fn row_key_per_direction() {
    let p = Position { x: 2, y: 1 };
    assert_eq!(BoardShift::Left.get_row_position(&p), 1);
    assert_eq!(BoardShift::Right.get_row_position(&p), 1);
    assert_eq!(BoardShift::Up.get_row_position(&p), 2);
    assert_eq!(BoardShift::Down.get_row_position(&p), 2);
}

#[test]
fn compaction_scenario_left_merges_and_compacts() {
    // board size 4, tiles (0,0,v=2), (2,0,v=2), (3,0,v=4); shift Left gives
    // (0,0,v=4), (1,0,v=4) and 4 points
    let board = Board::new(4);
    let tiles = vec![tile(0, 0, 0, 2), tile(1, 2, 0, 2), tile(2, 3, 0, 4)];
    let out = board_shift(&board, &tiles, BoardShift::Left);
    assert_eq!(out.tiles.len(), 2);
    assert_eq!(value_at(&out.tiles, 0, 0), Some(4));
    assert_eq!(value_at(&out.tiles, 1, 0), Some(4));
    assert_eq!(out.removed, vec![1]);
    assert_eq!(out.score_delta, 4);
}

#[test]
fn three_equal_tiles_merge_only_once() {
    // [2,2,2,0] shifted Left becomes [4,2,0,0], not [4,4,0,0]
    let board = Board::new(4);
    let tiles = vec![tile(0, 0, 0, 2), tile(1, 1, 0, 2), tile(2, 2, 0, 2)];
    let out = board_shift(&board, &tiles, BoardShift::Left);
    assert_eq!(out.tiles.len(), 2);
    assert_eq!(value_at(&out.tiles, 0, 0), Some(4));
    assert_eq!(value_at(&out.tiles, 1, 0), Some(2));
    assert_eq!(out.removed, vec![1]);
    assert_eq!(out.score_delta, 4);
}

#[test]
fn tile_count_is_conserved_up_to_merges() {
    let board = Board::new(4);
    let tiles = vec![
        tile(0, 0, 0, 2),
        tile(1, 1, 0, 2),
        tile(2, 2, 0, 4),
        tile(3, 3, 0, 4),
    ];
    let out = board_shift(&board, &tiles, BoardShift::Left);
    assert_eq!(out.tiles.len() + out.removed.len(), tiles.len());
    assert_eq!(out.tiles.len(), 2);
    assert_eq!(value_at(&out.tiles, 0, 0), Some(4));
    assert_eq!(value_at(&out.tiles, 1, 0), Some(8));
    // each merged pair's value sum equals the surviving tile's value
    assert_eq!(out.score_delta, 4 + 8);
    let before: u32 = tiles.iter().map(|t| t.value).sum();
    let after: u32 = out.tiles.iter().map(|t| t.value).sum();
    assert_eq!(before, after);
}

#[test]
fn shift_right_compacts_to_the_right_edge() {
    let board = Board::new(4);
    let tiles = vec![tile(0, 0, 0, 2), tile(1, 1, 0, 2)];
    let out = board_shift(&board, &tiles, BoardShift::Right);
    assert_eq!(out.tiles.len(), 1);
    assert_eq!(value_at(&out.tiles, 3, 0), Some(4));
    assert_eq!(out.score_delta, 4);
}

#[test]
fn shift_up_compacts_to_the_top_edge() {
    let board = Board::new(4);
    let tiles = vec![tile(0, 0, 0, 2), tile(1, 0, 1, 2)];
    let out = board_shift(&board, &tiles, BoardShift::Up);
    assert_eq!(out.tiles.len(), 1);
    assert_eq!(value_at(&out.tiles, 0, 3), Some(4));
}

#[test]
fn shift_down_compacts_to_the_bottom_edge() {
    let board = Board::new(4);
    let tiles = vec![tile(0, 0, 2, 2), tile(1, 0, 3, 2)];
    let out = board_shift(&board, &tiles, BoardShift::Down);
    assert_eq!(out.tiles.len(), 1);
    assert_eq!(value_at(&out.tiles, 0, 0), Some(4));
}

#[test]
fn rows_do_not_merge_across_group_boundaries() {
    // equal values on different rows stay apart under a horizontal shift
    let board = Board::new(4);
    let tiles = vec![tile(0, 3, 0, 2), tile(1, 3, 1, 2)];
    let out = board_shift(&board, &tiles, BoardShift::Left);
    assert_eq!(out.tiles.len(), 2);
    assert_eq!(value_at(&out.tiles, 0, 0), Some(2));
    assert_eq!(value_at(&out.tiles, 0, 1), Some(2));
    assert_eq!(out.score_delta, 0);
}

#[test]
fn empty_tile_set_shifts_without_effect() {
    let board = Board::new(4);
    let out = board_shift(&board, &Vec::new(), BoardShift::Left);
    assert!(out.tiles.is_empty());
    assert!(out.removed.is_empty());
    assert_eq!(out.score_delta, 0);
}

#[test]
fn noop_shift_keeps_positions_and_values() {
    // already compacted left with no equal neighbors in any row
    let board = Board::new(4);
    let tiles = vec![tile(0, 0, 0, 2), tile(1, 1, 0, 4), tile(2, 0, 1, 8)];
    let out = board_shift(&board, &tiles, BoardShift::Left);
    assert_eq!(out.tiles.len(), 3);
    assert!(out.removed.is_empty());
    assert_eq!(out.score_delta, 0);
    for t in &tiles {
        assert_eq!(value_at(&out.tiles, t.pos.x, t.pos.y), Some(t.value));
        assert!(out.tiles.iter().any(|o| o.id == t.id && o.pos == t.pos && o.value == t.value));
    }
}

#[test]
fn shift_right_keeps_the_nearest_tile_at_the_edge() {
    // order of processing matters: the tile nearest the target edge must
    // end up on it
    let board = Board::new(4);
    let tiles = vec![tile(0, 0, 0, 2), tile(1, 1, 0, 4)];
    let out = board_shift(&board, &tiles, BoardShift::Right);
    assert_eq!(out.tiles.len(), 2);
    assert_eq!(value_at(&out.tiles, 3, 0), Some(4));
    assert_eq!(value_at(&out.tiles, 2, 0), Some(2));
    assert_eq!(out.score_delta, 0);
}
