use vstd::prelude::*;

use crate::board::Board;
use crate::components::RunState;
use crate::components::Tile;

verus! {

/// Two cells are grid neighbors: one step apart along exactly one axis.
pub open spec fn adjacent(a: crate::components::Position, b: crate::components::Position) -> bool {
    ||| (a.x == b.x && (a.y + 1 == b.y || b.y + 1 == a.y))
    ||| (a.y == b.y && (a.x + 1 == b.x || b.x + 1 == a.x))
}

/// Some two distinct tiles sit on neighboring cells and hold equal values:
/// a legal merge move exists.
pub open spec fn has_adjacent_equal_pair(s: Seq<Tile>) -> bool {
    exists|i: int, j: int|
        0 <= i < s.len() && 0 <= j < s.len() && i != j && adjacent(
            (#[trigger] s[i]).pos,
            (#[trigger] s[j]).pos,
        ) && s[i].value == s[j].value
}

/// Whether some other tile sits on a cell neighboring the tile at `idx`
/// and holds the same value.
fn has_equal_neighbor(tiles: &Vec<Tile>, idx: usize) -> (r: bool)
    requires
        idx < tiles@.len(),
    ensures
        r <==> exists|j: int|
            0 <= j < tiles@.len() && j != idx && adjacent(tiles@[idx as int].pos, (
            #[trigger] tiles@[j]).pos) && tiles@[idx as int].value == tiles@[j].value,
{
    let t = tiles[idx];
    let mut j: usize = 0;
    let mut found = false;
    while j < tiles.len()
        invariant
            idx < tiles@.len(),
            t == tiles@[idx as int],
            j <= tiles@.len(),
            found <==> exists|k: int|
                0 <= k < j && k != idx && adjacent(t.pos, (#[trigger] tiles@[k]).pos) && t.value
                    == tiles@[k].value,
        decreases tiles@.len() - j,
    {
        let o = tiles[j];
        if j != idx && o.value == t.value {
            let same_col = o.pos.x == t.pos.x && ((o.pos.y as u16) == (t.pos.y as u16) + 1 || (
            t.pos.y as u16) == (o.pos.y as u16) + 1);
            let same_row = o.pos.y == t.pos.y && ((o.pos.x as u16) == (t.pos.x as u16) + 1 || (
            t.pos.x as u16) == (o.pos.x as u16) + 1);
            if same_col || same_row {
                found = true;
            }
        }
        proof {
            assert(adjacent(t.pos, tiles@[j as int].pos) ==> (tiles@[j as int].pos.x == t.pos.x && (
            tiles@[j as int].pos.y == t.pos.y + 1 || t.pos.y == tiles@[j as int].pos.y + 1)) || (
            tiles@[j as int].pos.y == t.pos.y && (tiles@[j as int].pos.x == t.pos.x + 1 || t.pos.x
                == tiles@[j as int].pos.x + 1)));
        }
        j += 1;
    }
    found
}

/// Evaluates the endgame rule: with the board completely full and no two
/// equal-valued tiles on neighboring cells, the game is over; with any free
/// cell or any legal merge left, play continues. Boards that are not full
/// are not evaluated at all.
pub fn end_game(board: &Board, tiles: &Vec<Tile>) -> (r: RunState)
    ensures
        r == (if tiles@.len() == board.size * board.size && !has_adjacent_equal_pair(tiles@) {
            RunState::GameOver
        } else {
            RunState::Playing
        }),
{
    proof {
        assert(0 <= (board.size as usize) * (board.size as usize) <= 255 * 255)
            by (nonlinear_arith)
            requires
                board.size <= 255,
        ;
    }
    let full = (board.size as usize) * (board.size as usize);
    if tiles.len() != full {
        return RunState::Playing;
    }
    let mut i: usize = 0;
    while i < tiles.len()
        invariant
            i <= tiles@.len(),
            forall|a: int, b: int|
                0 <= a < i && 0 <= b < tiles@.len() && a != b ==> !(adjacent(
                    (#[trigger] tiles@[a]).pos,
                    (#[trigger] tiles@[b]).pos,
                ) && tiles@[a].value == tiles@[b].value),
        decreases tiles@.len() - i,
    {
        if has_equal_neighbor(tiles, i) {
            proof {
                assert(has_adjacent_equal_pair(tiles@));
            }
            return RunState::Playing;
        }
        i += 1;
    }
    proof {
        assert(!has_adjacent_equal_pair(tiles@));
    }
    RunState::GameOver
}

} // verus!
