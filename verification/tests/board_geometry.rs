use twenty48::board::Board;

#[test]
fn physical_size_of_default_board() {
    let board = Board::new(4);
    assert_eq!(board.physical_size(), 210);
}

#[test]
fn cell_positions_are_centered() {
    let board = Board::new(4);
    assert_eq!(board.cell_position_to_physical(0), -75);
    assert_eq!(board.cell_position_to_physical(1), -25);
    assert_eq!(board.cell_position_to_physical(2), 25);
    assert_eq!(board.cell_position_to_physical(3), 75);
}

#[test]
fn tiles_enumerates_every_cell_once() {
    let board = Board::new(4);
    let cells = board.tiles();
    assert_eq!(cells.len(), 16);
    for x in 0..4u8 {
        for y in 0..4u8 {
            assert_eq!(cells.iter().filter(|c| **c == (x, y)).count(), 1);
        }
    }
    for (x, y) in cells.iter() {
        assert!(*x < 4 && *y < 4);
    }
}
