use twenty48::components::{Game, Position, RunState, Tile};
use twenty48::session::GameSession;
use twenty48::shift::BoardShift;

fn tile(id: u64, x: u8, y: u8, value: u32) -> Tile {
    Tile { id, pos: Position { x, y }, value }
}

fn session_with(tiles: Vec<Tile>) -> GameSession {
    let mut s = GameSession::new(4);
    s.tiles = tiles;
    s
}

#[test]
fn reset_yields_two_base_tiles_and_zero_score() {
    let mut s = session_with(vec![
        tile(0, 0, 0, 16),
        tile(1, 1, 0, 32),
        tile(2, 2, 0, 64),
        tile(3, 3, 3, 128),
    ]);
    s.game = Game { score: 900, score_best: 1200 };
    s.run_state = RunState::GameOver;
    s.reset();
    assert_eq!(s.tiles.len(), 2);
    assert!(s.tiles.iter().all(|t| t.value == 2));
    assert!(s.tiles[0].pos != s.tiles[1].pos);
    assert!(s.tiles.iter().all(|t| t.pos.x < 4 && t.pos.y < 4));
    assert_ne!(s.tiles[0].id, s.tiles[1].id);
    assert_eq!(s.game.score, 0);
    assert_eq!(s.game.score_best, 1200);
    assert_eq!(s.run_state, RunState::Playing);
}

#[test]
fn score_best_never_decreases_across_shifts_and_resets() {
    let mut s = session_with(vec![tile(0, 0, 0, 2), tile(1, 1, 0, 2)]);
    let mut best_seen: u32 = 0;
    s.board_shift(BoardShift::Left);
    assert_eq!(s.game.score, 4);
    assert!(s.game.score_best >= best_seen);
    best_seen = s.game.score_best;
    assert_eq!(best_seen, 4);
    s.reset();
    assert!(s.game.score_best >= best_seen);
    assert_eq!(s.game.score, 0);
    s.tiles = vec![tile(0, 0, 0, 4), tile(1, 1, 0, 4)];
    s.board_shift(BoardShift::Left);
    assert_eq!(s.game.score, 8);
    assert!(s.game.score_best >= best_seen);
    assert_eq!(s.game.score_best, 8);
}

#[test]
fn shift_raises_the_new_tile_signal_even_without_movement() {
    // already fully compacted: the shift changes nothing, yet requests a tile
    let mut s = session_with(vec![tile(0, 0, 0, 2), tile(1, 1, 0, 4)]);
    s.board_shift(BoardShift::Left);
    assert!(s.new_tile_requested);
    assert_eq!(s.tiles.len(), 2);
    assert_eq!(s.game.score, 0);
}

#[test]
fn new_tile_lands_on_the_only_free_cell() {
    let mut tiles = Vec::new();
    let mut id: u64 = 0;
    for x in 0..4u8 {
        for y in 0..4u8 {
            if !(x == 3 && y == 3) {
                // distinct values so nothing merges accidentally in later steps
                tiles.push(tile(id, x, y, 2_u32.pow((id % 30 + 1) as u32)));
                id += 1;
            }
        }
    }
    let mut s = session_with(tiles);
    s.new_tile_requested = true;
    s.new_tile_handler();
    assert_eq!(s.tiles.len(), 16);
    assert!(!s.new_tile_requested);
    let spawned = s.tiles.last().unwrap();
    assert_eq!(spawned.pos, Position { x: 3, y: 3 });
    assert_eq!(spawned.value, 2);
}

#[test]
fn new_tile_is_never_placed_on_a_full_board() {
    let mut tiles = Vec::new();
    let mut id: u64 = 0;
    for x in 0..4u8 {
        for y in 0..4u8 {
            tiles.push(tile(id, x, y, 4));
            id += 1;
        }
    }
    let mut s = session_with(tiles);
    s.new_tile_requested = true;
    s.new_tile_handler();
    assert_eq!(s.tiles.len(), 16);
    assert!(!s.new_tile_requested);
}

#[test]
fn no_tile_spawns_without_a_pending_request() {
    let mut s = session_with(vec![tile(0, 0, 0, 2)]);
    s.new_tile_requested = false;
    s.new_tile_handler();
    assert_eq!(s.tiles.len(), 1);
}

#[test]
fn spawned_tiles_get_fresh_identities() {
    let mut s = session_with(vec![tile(0, 0, 0, 2), tile(1, 1, 0, 4), tile(5, 2, 0, 8)]);
    s.new_tile_requested = true;
    s.new_tile_handler();
    assert_eq!(s.tiles.len(), 4);
    let new_id = s.tiles.last().unwrap().id;
    assert_eq!(s.tiles.iter().filter(|t| t.id == new_id).count(), 1);
}

#[test]
fn shift_applies_merges_to_the_session_board() {
    let mut s = session_with(vec![tile(0, 0, 0, 2), tile(1, 2, 0, 2), tile(2, 3, 0, 4)]);
    let removed = s.board_shift(BoardShift::Left);
    assert_eq!(removed, vec![1]);
    assert_eq!(s.tiles.len(), 2);
    assert!(s.tiles.iter().any(|t| t.pos == Position { x: 0, y: 0 } && t.value == 4));
    assert!(s.tiles.iter().any(|t| t.pos == Position { x: 1, y: 0 } && t.value == 4));
    assert_eq!(s.game.score, 4);
    assert_eq!(s.game.score_best, 4);
}

#[test]
fn score_saturates_instead_of_wrapping() {
    let mut s = session_with(vec![tile(0, 0, 0, 2), tile(1, 1, 0, 2)]);
    s.game = Game { score: u32::MAX - 2, score_best: u32::MAX - 2 };
    s.board_shift(BoardShift::Left);
    assert_eq!(s.game.score, u32::MAX);
    assert_eq!(s.game.score_best, u32::MAX);
}
