use twenty48::board::Board;
use twenty48::components::{Position, RunState, Tile};
use twenty48::endgame::end_game;
use twenty48::session::GameSession;

fn tile(id: u64, x: u8, y: u8, value: u32) -> Tile {
    Tile { id, pos: Position { x, y }, value }
}

fn full_board_distinct_values() -> (Board, Vec<Tile>) {
    let board = Board::new(4);
    let mut tiles = Vec::new();
    for (i, (x, y)) in board.tiles().into_iter().enumerate() {
        tiles.push(tile(i as u64, x, y, 2_u32.pow(i as u32)));
    }
    (board, tiles)
}

#[test]
fn gameover_triggers_when_16_tiles_exist() {
    let (board, tiles) = full_board_distinct_values();
    let mut session = GameSession {
        board,
        tiles,
        game: twenty48::components::Game { score: 0, score_best: 0 },
        run_state: RunState::Playing,
        new_tile_requested: false,
    };
    session.end_game();
    assert_eq!(RunState::GameOver, session.run_state);
}

#[test]
fn full_board_with_adjacent_equal_pair_stays_playing() {
    let (board, mut tiles) = full_board_distinct_values();
    // make two horizontally adjacent cells equal
    tiles[0].value = 2;
    tiles[1].value = 2;
    assert_eq!(end_game(&board, &tiles), RunState::Playing);
}

#[test]
fn board_below_capacity_is_not_evaluated() {
    let board = Board::new(4);
    // no merge move exists, but the board is not full: play continues
    let tiles = vec![tile(0, 0, 0, 2), tile(1, 1, 0, 4)];
    assert_eq!(end_game(&board, &tiles), RunState::Playing);
}

#[test]
fn gameover_is_not_revoked_by_end_game() {
    let board = Board::new(4);
    let mut session = GameSession {
        board,
        tiles: vec![tile(0, 0, 0, 2)],
        game: twenty48::components::Game { score: 0, score_best: 0 },
        run_state: RunState::GameOver,
        new_tile_requested: false,
    };
    session.end_game();
    assert_eq!(RunState::GameOver, session.run_state);
}
