use vstd::prelude::*;

use core::cmp::Ordering;
use itertools::Itertools;

use crate::board::Board;
use crate::components::Position;
use crate::components::Tile;
use crate::components::VALUE_SUM_CAP;
use crate::components::positions_distinct;
use crate::components::positions_in_range;
use crate::components::ids_distinct;
use crate::components::values_pow2;
use crate::components::values_sum;
use crate::components::lemma_values_sum_add;
use crate::components::lemma_values_sum_nonneg;

verus! {

/// A requested shift direction. Tiles slide as far as they can towards the
/// named edge, merging adjacent equal pairs once each.
#[derive(Clone, Copy, PartialEq, Eq, Structural, Debug)]
pub enum BoardShift {
    Left,
    Right,
    Up,
    Down,
}

/// The grouping coordinate of a position under `dir`: tiles that share it
/// compete to compact along the same line. Horizontal shifts group by row
/// (`y`), vertical shifts by column (`x`).
pub open spec fn row_key(dir: BoardShift, p: Position) -> int {
    match dir {
        BoardShift::Left | BoardShift::Right => p.y as int,
        BoardShift::Up | BoardShift::Down => p.x as int,
    }
}

/// The coordinate of a position along the compaction axis, orthogonal to
/// the grouping coordinate.
pub open spec fn line_key(dir: BoardShift, p: Position) -> int {
    match dir {
        BoardShift::Left | BoardShift::Right => p.x as int,
        BoardShift::Up | BoardShift::Down => p.y as int,
    }
}

/// Primary sort key: ascending order on it visits the groups in processing
/// order (rows bottom-up for Left/Right reversed for Right, and so on).
pub open spec fn sort_primary(dir: BoardShift, p: Position) -> int {
    match dir {
        BoardShift::Left => p.y as int,
        BoardShift::Right => -(p.y as int),
        BoardShift::Up => -(p.x as int),
        BoardShift::Down => p.x as int,
    }
}

/// Secondary sort key: within a group, ascending order on it visits tiles
/// from the target edge outwards.
pub open spec fn sort_secondary(dir: BoardShift, p: Position) -> int {
    match dir {
        BoardShift::Left => p.x as int,
        BoardShift::Right => -(p.x as int),
        BoardShift::Up => -(p.y as int),
        BoardShift::Down => p.y as int,
    }
}

/// What the direction's comparator answers on two positions: lexicographic
/// comparison of the primary and secondary sort keys.
pub open spec fn cmp_spec(dir: BoardShift, a: Position, b: Position) -> Ordering {
    if sort_primary(dir, a) < sort_primary(dir, b) {
        Ordering::Less
    } else if sort_primary(dir, a) > sort_primary(dir, b) {
        Ordering::Greater
    } else if sort_secondary(dir, a) < sort_secondary(dir, b) {
        Ordering::Less
    } else if sort_secondary(dir, a) > sort_secondary(dir, b) {
        Ordering::Greater
    } else {
        Ordering::Equal
    }
}

/// `a` comes no later than `b` in the direction's processing order.
pub open spec fn key_le(dir: BoardShift, a: Position, b: Position) -> bool {
    cmp_spec(dir, a, b) != Ordering::Greater
}

/// The tiles of `s` are ordered by the direction's comparator.
pub open spec fn sorted_for(dir: BoardShift, s: Seq<Tile>) -> bool {
    forall|i: int, j: int|
        0 <= i < j < s.len() ==> key_le(dir, (#[trigger] s[i]).pos, (#[trigger] s[j]).pos)
}

/// The board coordinate along the compaction axis that compaction index
/// `col` stands for: counted from the target edge of the board.
pub open spec fn column_coord(dir: BoardShift, size: u8, col: int) -> int {
    match dir {
        BoardShift::Left | BoardShift::Down => col,
        BoardShift::Right | BoardShift::Up => size - 1 - col,
    }
}

/// The cell a tile at `p` is moved to when it is assigned compaction index
/// `col`: the grouping coordinate is kept, the other axis is replaced.
pub open spec fn place_pos(dir: BoardShift, size: u8, p: Position, col: int) -> Position {
    match dir {
        BoardShift::Left | BoardShift::Right => Position {
            x: column_coord(dir, size, col) as u8,
            y: p.y,
        },
        BoardShift::Up | BoardShift::Down => Position {
            x: p.x,
            y: column_coord(dir, size, col) as u8,
        },
    }
}

/// Lexicographic comparison of `(p0, s0)` against `(p1, s1)`, ascending.
fn cmp_pair(p0: u8, s0: u8, p1: u8, s1: u8) -> (r: Ordering)
    ensures
        r == Ordering::Less <==> (p0 < p1 || (p0 == p1 && s0 < s1)),
        r == Ordering::Greater <==> (p0 > p1 || (p0 == p1 && s0 > s1)),
        r == Ordering::Equal <==> (p0 == p1 && s0 == s1),
{
    if p0 < p1 {
        Ordering::Less
    } else if p0 > p1 {
        Ordering::Greater
    } else if s0 < s1 {
        Ordering::Less
    } else if s0 > s1 {
        Ordering::Greater
    } else {
        Ordering::Equal
    }
}

impl BoardShift {
    /// The direction's total order on positions: groups first (ascending
    /// `y` for Left, descending for Right, and the transposed pair for
    /// Down/Up), ties broken along the compaction axis.
    pub fn sort(&self, a: &Position, b: &Position) -> (r: Ordering)
        ensures
            r == cmp_spec(*self, *a, *b),
    {
        match self {
            BoardShift::Left => cmp_pair(a.y, a.x, b.y, b.x),
            BoardShift::Right => cmp_pair(b.y, b.x, a.y, a.x),
            BoardShift::Up => cmp_pair(b.x, b.y, a.x, a.y),
            BoardShift::Down => cmp_pair(a.x, a.y, b.x, b.y),
        }
    }

    /// Moves `position` to compaction index `index`, counted from the
    /// direction's target edge; the grouping coordinate is unchanged.
    pub fn set_column_position(&self, board_size: u8, position: &mut Position, index: u8)
        requires
            index < board_size,
        ensures
            *final(position) == place_pos(*self, board_size, *old(position), index as int),
    {
        match self {
            BoardShift::Left => {
                position.x = index;
            },
            BoardShift::Right => {
                position.x = board_size - 1 - index;
            },
            BoardShift::Up => {
                position.y = board_size - 1 - index;
            },
            BoardShift::Down => {
                position.y = index;
            },
        }
    }

    /// The grouping coordinate of `position` under this direction.
    pub fn get_row_position(&self, position: &Position) -> (r: u8)
        ensures
            r as int == row_key(*self, *position),
    {
        match self {
            BoardShift::Left | BoardShift::Right => position.y,
            BoardShift::Up | BoardShift::Down => position.x,
        }
    }
}

/// What one shift pass produces, at the specification level: the surviving
/// tiles with their new positions and values, the identities of the tiles
/// that were merged away, and the score the merges earned.
pub ghost struct ScanResult {
    pub tiles: Seq<Tile>,
    pub removed: Seq<u64>,
    pub score: int,
}

/// The slide-and-merge scan over a sequence of tiles already sorted for
/// `dir`, with `col` the next compaction index of the current group.
///
/// The head tile is placed at index `col`. If its successor starts a new
/// group, the index resets to 0; if the successor holds a different value,
/// the index advances by 1; otherwise the pair merges: the head keeps its
/// identity, takes the summed value and the current index, the successor is
/// removed, the score grows by the summed value, and the index advances or
/// resets depending on the tile after the removed one. A tile is merged
/// into at most once per pass: the scan continues after the removed tile.
pub open spec fn merge_scan(dir: BoardShift, size: u8, s: Seq<Tile>, col: int) -> ScanResult
    decreases s.len(),
{
    if s.len() == 0 {
        ScanResult { tiles: Seq::empty(), removed: Seq::empty(), score: 0 }
    } else {
        let t = s[0];
        let placed = Tile { id: t.id, pos: place_pos(dir, size, t.pos, col), value: t.value };
        if s.len() == 1 {
            ScanResult { tiles: seq![placed], removed: Seq::empty(), score: 0 }
        } else if row_key(dir, t.pos) != row_key(dir, s[1].pos) {
            let rest = merge_scan(dir, size, s.skip(1), 0);
            ScanResult { tiles: seq![placed] + rest.tiles, removed: rest.removed, score: rest.score }
        } else if t.value != s[1].value {
            let rest = merge_scan(dir, size, s.skip(1), col + 1);
            ScanResult { tiles: seq![placed] + rest.tiles, removed: rest.removed, score: rest.score }
        } else {
            let merged = Tile {
                id: t.id,
                pos: place_pos(dir, size, t.pos, col),
                value: (t.value + s[1].value) as u32,
            };
            let ncol = if s.len() > 2 && row_key(dir, s[2].pos) == row_key(dir, t.pos) {
                col + 1
            } else {
                0
            };
            let rest = merge_scan(dir, size, s.skip(2), ncol);
            ScanResult {
                tiles: seq![merged] + rest.tiles,
                removed: seq![s[1].id] + rest.removed,
                score: 2 * t.value + rest.score,
            }
        }
    }
}

/// How many tiles of `s` belong to the group with grouping coordinate `g`.
pub open spec fn group_count(dir: BoardShift, s: Seq<Tile>, g: int) -> int
    decreases s.len(),
{
    if s.len() == 0 {
        0
    } else {
        (if row_key(dir, s[0].pos) == g {
            1int
        } else {
            0int
        }) + group_count(dir, s.skip(1), g)
    }
}

/// A group's tile count is bounded by the number of distinct compaction
/// coordinates still available to it.
proof fn lemma_group_count_le_avail(dir: BoardShift, s: Seq<Tile>, g: int, avail: Set<int>)
    requires
        avail.finite(),
        crate::components::positions_distinct(s),
        forall|i: int|
            0 <= i < s.len() && row_key(dir, #[trigger] s[i].pos) == g ==> avail.contains(
                line_key(dir, s[i].pos),
            ),
    ensures
        group_count(dir, s, g) <= avail.len(),
    decreases s.len(),
{
    if s.len() == 0 {
    } else {
        assert(crate::components::positions_distinct(s.skip(1))) by {
            assert(forall|i: int, j: int|
                0 <= i < j < s.skip(1).len() ==> (#[trigger] s.skip(1)[i]).pos != (
                #[trigger] s.skip(1)[j]).pos) by {
                assert(forall|i: int| 0 <= i < s.skip(1).len() ==> s.skip(1)[i] == s[i + 1]);
            }
        }
        if row_key(dir, s[0].pos) == g {
            let line0 = line_key(dir, s[0].pos);
            let rest_avail = avail.remove(line0);
            assert(forall|i: int|
                0 <= i < s.skip(1).len() && row_key(dir, #[trigger] s.skip(1)[i].pos) == g
                    ==> rest_avail.contains(line_key(dir, s.skip(1)[i].pos))) by {
                assert(forall|i: int| 0 <= i < s.skip(1).len() ==> s.skip(1)[i] == s[i + 1]);
                assert(forall|i: int|
                    0 <= i < s.skip(1).len() && row_key(dir, #[trigger] s.skip(1)[i].pos) == g
                        ==> line_key(dir, s.skip(1)[i].pos) != line0) by {
                    assert(forall|j: int|
                        1 <= j < s.len() && row_key(dir, #[trigger] s[j].pos) == g && line_key(
                            dir,
                            s[j].pos,
                        ) == line0 ==> s[j].pos == s[0].pos);
                }
            }
            lemma_group_count_le_avail(dir, s.skip(1), g, rest_avail);
            assert(avail.contains(line0));
            assert(rest_avail.len() == avail.len() - 1);
        } else {
            lemma_group_count_le_avail(dir, s.skip(1), g, avail);
        }
    }
}

/// On a board of side `size`, at most `size` tiles with distinct in-range
/// positions can share one grouping coordinate.
pub proof fn lemma_group_count_le_size(dir: BoardShift, size: u8, s: Seq<Tile>, g: int)
    requires
        crate::components::positions_distinct(s),
        crate::components::positions_in_range(s, size),
    ensures
        group_count(dir, s, g) <= size,
{
    let avail = vstd::set_lib::set_int_range(0, size as int);
    vstd::set_lib::lemma_int_range(0, size as int);
    lemma_group_count_le_avail(dir, s, g, avail);
}

/// `a` lies no further from the direction's target edge than `b` does.
pub open spec fn line_le(dir: BoardShift, a: int, b: int) -> bool {
    match dir {
        BoardShift::Left | BoardShift::Down => a <= b,
        BoardShift::Right | BoardShift::Up => b <= a,
    }
}

/// `a` lies strictly nearer to the direction's target edge than `b` does.
pub open spec fn line_lt(dir: BoardShift, a: int, b: int) -> bool {
    match dir {
        BoardShift::Left | BoardShift::Down => a < b,
        BoardShift::Right | BoardShift::Up => b < a,
    }
}

/// Assigning a compaction index keeps the grouping coordinate and the
/// primary sort key, puts the tile at the index's board coordinate, and
/// keeps the position on the board.
proof fn lemma_place_pos(dir: BoardShift, size: u8, p: Position, col: int)
    requires
        0 <= col < size,
        p.x < size,
        p.y < size,
    ensures
        row_key(dir, place_pos(dir, size, p, col)) == row_key(dir, p),
        sort_primary(dir, place_pos(dir, size, p, col)) == sort_primary(dir, p),
        line_key(dir, place_pos(dir, size, p, col)) == column_coord(dir, size, col),
        place_pos(dir, size, p, col).x < size,
        place_pos(dir, size, p, col).y < size,
{
}

/// A group's tile count lies between 0 and the sequence's length.
pub proof fn lemma_group_count_bounds(dir: BoardShift, s: Seq<Tile>, g: int)
    ensures
        0 <= group_count(dir, s, g) <= s.len(),
    decreases s.len(),
{
    if s.len() > 0 {
        lemma_group_count_bounds(dir, s.skip(1), g);
    }
}

/// Dropping a prefix keeps every per-tile and pairwise property used by the
/// shift scan.
pub proof fn lemma_tiles_skip(dir: BoardShift, size: u8, s: Seq<Tile>, k: int)
    requires
        0 <= k <= s.len(),
    ensures
        positions_distinct(s) ==> positions_distinct(s.skip(k)),
        positions_in_range(s, size) ==> positions_in_range(s.skip(k), size),
        sorted_for(dir, s) ==> sorted_for(dir, s.skip(k)),
        ids_distinct(s) ==> ids_distinct(s.skip(k)),
        values_pow2(s) ==> values_pow2(s.skip(k)),
{
    assert(forall|i: int| 0 <= i < s.skip(k).len() ==> s.skip(k)[i] == s[i + k]);
}

/// Structural facts about one scan: tile count is conserved up to the
/// merged-away tiles, the value sum is conserved exactly, the score is the
/// merges' earnings and never exceeds the value sum, every surviving tile
/// keeps its identity and either its value or exactly the double, removed
/// identities come from the input, and distinct identities stay distinct.
pub open spec fn scan_shape(dir: BoardShift, size: u8, s: Seq<Tile>, r: ScanResult) -> bool {
    &&& r.tiles.len() + r.removed.len() == s.len()
    &&& values_sum(r.tiles) == values_sum(s)
    &&& 0 <= r.score <= values_sum(s)
    &&& positions_in_range(r.tiles, size)
    &&& positions_distinct(r.tiles)
    &&& forall|k: int|
        0 <= k < r.tiles.len() ==> exists|i: int|
            0 <= i < s.len() && (#[trigger] r.tiles[k]).id == s[i].id && (r.tiles[k].value
                == s[i].value || r.tiles[k].value == 2 * s[i].value)
    &&& forall|k: int|
        0 <= k < r.removed.len() ==> exists|i: int|
            0 <= i < s.len() && #[trigger] r.removed[k] == s[i].id
    &&& (ids_distinct(s) ==> ids_distinct(r.tiles))
    &&& (ids_distinct(s) ==> r.removed.no_duplicates())
    &&& (ids_distinct(s) ==> forall|j: int, k: int|
        0 <= j < r.tiles.len() && 0 <= k < r.removed.len() ==> (#[trigger] r.tiles[j]).id != (
        #[trigger] r.removed[k]))
    &&& (values_pow2(s) ==> values_pow2(r.tiles))
}

/// Ordering facts about one scan started at index `col`: every output tile
/// stays at or after the first input tile's group, tiles of that group sit
/// at or beyond the coordinate of `col`, and within any one group output
/// tiles sit at strictly increasing distances from the target edge.
pub open spec fn scan_ordered(dir: BoardShift, size: u8, s: Seq<Tile>, col: int, r: ScanResult) -> bool {
    &&& (s.len() > 0 ==> forall|k: int|
        0 <= k < r.tiles.len() ==> sort_primary(dir, (#[trigger] r.tiles[k]).pos) >= sort_primary(
            dir,
            s[0].pos,
        ))
    &&& (s.len() > 0 ==> forall|k: int|
        0 <= k < r.tiles.len() && sort_primary(dir, (#[trigger] r.tiles[k]).pos) == sort_primary(
            dir,
            s[0].pos,
        ) ==> line_le(dir, column_coord(dir, size, col), line_key(dir, r.tiles[k].pos)))
    &&& forall|j: int, k: int|
        0 <= j < k < r.tiles.len() && sort_primary(dir, (#[trigger] r.tiles[j]).pos)
            == sort_primary(dir, (#[trigger] r.tiles[k]).pos) ==> line_lt(
            dir,
            line_key(dir, r.tiles[j].pos),
            line_key(dir, r.tiles[k].pos),
        )
}

/// Glues one processed head tile onto the scan of the remaining tiles:
/// carries the membership, identity-distinctness, range, power-of-two and
/// ordering facts of the tail scan across the concatenation.
#[verifier::rlimit(30)]
proof fn lemma_scan_glue(
    dir: BoardShift,
    size: u8,
    s: Seq<Tile>,
    off: int,
    head: Tile,
    coord0: int,
    rr: ScanResult,
    r: ScanResult,
)
    requires
        1 <= off <= 2,
        off <= s.len(),
        positions_in_range(s, size),
        positions_distinct(s),
        sorted_for(dir, s),
        scan_shape(dir, size, s.skip(off), rr),
        r.tiles == seq![head] + rr.tiles,
        off == 1 ==> r.removed == rr.removed,
        off == 2 ==> r.removed == seq![s[1].id] + rr.removed,
        head.id == s[0].id,
        head.value == s[0].value || head.value == 2 * s[0].value,
        values_pow2(s) ==> (crate::components::is_pow2(head.value as int) && head.value >= 2),
        head.pos.x < size,
        head.pos.y < size,
        sort_primary(dir, head.pos) == sort_primary(dir, s[0].pos),
        line_key(dir, head.pos) == coord0,
        forall|k: int|
            0 <= k < rr.tiles.len() ==> sort_primary(dir, (#[trigger] rr.tiles[k]).pos)
                >= sort_primary(dir, s[0].pos),
        forall|k: int|
            0 <= k < rr.tiles.len() && sort_primary(dir, (#[trigger] rr.tiles[k]).pos)
                == sort_primary(dir, s[0].pos) ==> line_lt(dir, coord0, line_key(dir, rr.tiles[k].pos)),
        forall|j: int, k: int|
            0 <= j < k < rr.tiles.len() && sort_primary(dir, (#[trigger] rr.tiles[j]).pos)
                == sort_primary(dir, (#[trigger] rr.tiles[k]).pos) ==> line_lt(
                dir,
                line_key(dir, rr.tiles[j].pos),
                line_key(dir, rr.tiles[k].pos),
            ),
    ensures
        r.tiles.len() + r.removed.len() == s.len(),
        positions_in_range(r.tiles, size),
        forall|k: int|
            0 <= k < r.tiles.len() ==> exists|i: int|
                0 <= i < s.len() && (#[trigger] r.tiles[k]).id == s[i].id && (r.tiles[k].value
                    == s[i].value || r.tiles[k].value == 2 * s[i].value),
        forall|k: int|
            0 <= k < r.removed.len() ==> exists|i: int|
                0 <= i < s.len() && #[trigger] r.removed[k] == s[i].id,
        ids_distinct(s) ==> ids_distinct(r.tiles),
        ids_distinct(s) ==> r.removed.no_duplicates(),
        ids_distinct(s) ==> forall|j: int, k: int|
            0 <= j < r.tiles.len() && 0 <= k < r.removed.len() ==> (#[trigger] r.tiles[j]).id != (
            #[trigger] r.removed[k]),
        values_pow2(s) ==> values_pow2(r.tiles),
        forall|k: int|
            0 <= k < r.tiles.len() ==> sort_primary(dir, (#[trigger] r.tiles[k]).pos)
                >= sort_primary(dir, s[0].pos),
        forall|k: int|
            0 <= k < r.tiles.len() && sort_primary(dir, (#[trigger] r.tiles[k]).pos) == sort_primary(
                dir,
                s[0].pos,
            ) ==> line_le(dir, coord0, line_key(dir, r.tiles[k].pos)),
        forall|j: int, k: int|
            0 <= j < k < r.tiles.len() && sort_primary(dir, (#[trigger] r.tiles[j]).pos)
                == sort_primary(dir, (#[trigger] r.tiles[k]).pos) ==> line_lt(
                dir,
                line_key(dir, r.tiles[j].pos),
                line_key(dir, r.tiles[k].pos),
            ),
{
    let tail = s.skip(off);
    let rt = rr.tiles;
    lemma_tiles_skip(dir, size, s, off);
    assert(r.tiles[0] == head);
    assert(forall|k: int| 1 <= k < r.tiles.len() ==> r.tiles[k] == rt[k - 1]);
    assert(forall|i: int| 0 <= i < tail.len() ==> tail[i] == s[i + off]);
    // membership of survivors
    assert forall|k: int| 0 <= k < r.tiles.len() implies exists|i: int|
        0 <= i < s.len() && (#[trigger] r.tiles[k]).id == s[i].id && (r.tiles[k].value == s[i].value
            || r.tiles[k].value == 2 * s[i].value) by {
        if k == 0 {
            assert(0 <= 0 < s.len() && r.tiles[0].id == s[0].id && (r.tiles[0].value == s[0].value
                || r.tiles[0].value == 2 * s[0].value));
        } else {
            let i0 = choose|i0: int|
                0 <= i0 < tail.len() && (#[trigger] rt[k - 1]).id == tail[i0].id && (rt[k - 1].value
                    == tail[i0].value || rt[k - 1].value == 2 * tail[i0].value);
            assert(0 <= i0 + off < s.len() && r.tiles[k].id == s[i0 + off].id && (r.tiles[k].value
                == s[i0 + off].value || r.tiles[k].value == 2 * s[i0 + off].value));
        }
    }
    // membership of removals
    assert forall|k: int| 0 <= k < r.removed.len() implies exists|i: int|
        0 <= i < s.len() && #[trigger] r.removed[k] == s[i].id by {
        if off == 2 && k == 0 {
            assert(0 <= 1 < s.len() && r.removed[0] == s[1].id);
        } else {
            let kk = if off == 2 {
                k - 1
            } else {
                k
            };
            assert(r.removed[k] == rr.removed[kk]);
            let i0 = choose|i0: int| 0 <= i0 < tail.len() && #[trigger] rr.removed[kk] == tail[i0].id;
            assert(0 <= i0 + off < s.len() && r.removed[k] == s[i0 + off].id);
        }
    }
    if ids_distinct(s) {
        assert(ids_distinct(tail));
        // a tail-scan identity always comes from an input index at or past `off`
        assert forall|k: int| 0 <= k < rt.len() implies (#[trigger] rt[k]).id != s[0].id && (off == 2
            ==> rt[k].id != s[1].id) by {
            let i0 = choose|i0: int|
                0 <= i0 < tail.len() && (#[trigger] rt[k]).id == tail[i0].id && (rt[k].value
                    == tail[i0].value || rt[k].value == 2 * tail[i0].value);
            assert(rt[k].id == s[i0 + off].id);
        }
        assert forall|k: int| 0 <= k < rr.removed.len() implies (#[trigger] rr.removed[k]) != s[0].id
            && (off == 2 ==> rr.removed[k] != s[1].id) by {
            let i0 = choose|i0: int| 0 <= i0 < tail.len() && #[trigger] rr.removed[k] == tail[i0].id;
            assert(rr.removed[k] == s[i0 + off].id);
        }
        assert forall|j: int, k: int| 0 <= j < k < r.tiles.len() implies (#[trigger] r.tiles[j]).id
            != (#[trigger] r.tiles[k]).id by {
            if j > 0 {
                assert(r.tiles[j] == rt[j - 1] && r.tiles[k] == rt[k - 1]);
            }
        }
        assert forall|j: int, k: int| 0 <= j < k < r.removed.len() implies r.removed[j]
            != r.removed[k] by {
            if j > 0 || off == 1 {
                let jj = if off == 2 {
                    j - 1
                } else {
                    j
                };
                let kk = if off == 2 {
                    k - 1
                } else {
                    k
                };
                assert(r.removed[j] == rr.removed[jj] && r.removed[k] == rr.removed[kk]);
            }
        }
        assert forall|j: int, k: int|
            0 <= j < r.tiles.len() && 0 <= k < r.removed.len() implies (#[trigger] r.tiles[j]).id
            != (#[trigger] r.removed[k]) by {
            let kk = if off == 2 {
                k - 1
            } else {
                k
            };
            if j == 0 {
                if off == 2 && k == 0 {
                } else {
                    assert(r.removed[k] == rr.removed[kk]);
                }
            } else {
                assert(r.tiles[j] == rt[j - 1]);
                if off == 2 && k == 0 {
                } else {
                    assert(r.removed[k] == rr.removed[kk]);
                }
            }
        }
    }
    if values_pow2(s) {
        assert(values_pow2(tail));
        assert(values_pow2(rt));
        assert forall|k: int|
            0 <= k < r.tiles.len() implies crate::components::is_pow2(
            (#[trigger] r.tiles[k]).value as int,
        ) && r.tiles[k].value >= 2 by {
            if k > 0 {
                assert(r.tiles[k] == rt[k - 1]);
            }
        }
    }
    assert forall|k: int| 0 <= k < r.tiles.len() implies (#[trigger] r.tiles[k]).pos.x < size
        && r.tiles[k].pos.y < size by {
        if k > 0 {
            assert(r.tiles[k] == rt[k - 1]);
        }
    }
    assert forall|k: int| 0 <= k < r.tiles.len() implies sort_primary(
        dir,
        (#[trigger] r.tiles[k]).pos,
    ) >= sort_primary(dir, s[0].pos) by {
        if k > 0 {
            assert(r.tiles[k] == rt[k - 1]);
        }
    }
    assert forall|k: int|
        0 <= k < r.tiles.len() && sort_primary(dir, (#[trigger] r.tiles[k]).pos) == sort_primary(
            dir,
            s[0].pos,
        ) implies line_le(dir, coord0, line_key(dir, r.tiles[k].pos)) by {
        if k > 0 {
            assert(r.tiles[k] == rt[k - 1]);
            assert(line_lt(dir, coord0, line_key(dir, rt[k - 1].pos)));
        }
    }
    assert forall|j: int, k: int|
        0 <= j < k < r.tiles.len() && sort_primary(dir, (#[trigger] r.tiles[j]).pos) == sort_primary(
            dir,
            (#[trigger] r.tiles[k]).pos,
        ) implies line_lt(dir, line_key(dir, r.tiles[j].pos), line_key(dir, r.tiles[k].pos)) by {
        assert(r.tiles[k] == rt[k - 1]);
        if j == 0 {
            assert(line_lt(dir, coord0, line_key(dir, rt[k - 1].pos)));
        } else {
            assert(r.tiles[j] == rt[j - 1]);
        }
    }
}

/// The scan of a sorted, well-formed tile sequence has the shape and the
/// ordering that `scan_shape` and `scan_ordered` describe.
#[verifier::rlimit(100)]
pub proof fn lemma_scan_shape(dir: BoardShift, size: u8, s: Seq<Tile>, col: int)
    requires
        sorted_for(dir, s),
        positions_distinct(s),
        positions_in_range(s, size),
        values_sum(s) <= VALUE_SUM_CAP,
        0 <= col,
        s.len() > 0 ==> col + group_count(dir, s, row_key(dir, s[0].pos)) <= size,
    ensures
        scan_shape(dir, size, s, merge_scan(dir, size, s, col)),
        scan_ordered(dir, size, s, col, merge_scan(dir, size, s, col)),
    decreases s.len(),
{
    let r = merge_scan(dir, size, s, col);
    lemma_values_sum_nonneg(s);
    if s.len() == 0 {
        assert(values_sum(r.tiles) == 0);
        assert(positions_distinct(r.tiles));
    } else {
        let t = s[0];
        let g0 = row_key(dir, t.pos);
        let p0 = sort_primary(dir, t.pos);
        assert(group_count(dir, s, g0) >= 1) by {
            lemma_group_count_bounds(dir, s.skip(1), g0);
        }
        assert(col < size);
        lemma_place_pos(dir, size, t.pos, col);
        let placed = Tile { id: t.id, pos: place_pos(dir, size, t.pos, col), value: t.value };
        assert(values_sum(s) == t.value + values_sum(s.skip(1)));
        lemma_values_sum_nonneg(s.skip(1));
        lemma_tiles_skip(dir, size, s, 1);
        if s.len() == 1 {
            assert(r.tiles == seq![placed]);
            crate::components::lemma_values_sum_singleton(placed);
            assert(s.skip(1) =~= Seq::<Tile>::empty());
            assert(values_sum(s) == t.value);
            assert(r.tiles[0] == placed);
            assert(forall|k: int|
                0 <= k < r.tiles.len() ==> exists|i: int|
                    0 <= i < s.len() && (#[trigger] r.tiles[k]).id == s[i].id && (r.tiles[k].value
                        == s[i].value || r.tiles[k].value == 2 * s[i].value)) by {
                assert(r.tiles[0].id == s[0].id && r.tiles[0].value == s[0].value);
            }
            assert(positions_distinct(r.tiles));
        } else {
            let u = s[1];
            assert(key_le(dir, s[0].pos, s[1].pos));
            assert(sort_primary(dir, u.pos) >= p0);
            if g0 != row_key(dir, u.pos) {
                // successor starts a new group
                assert(sort_primary(dir, u.pos) > p0);
                let tail = s.skip(1);
                assert(group_count(dir, tail, row_key(dir, tail[0].pos)) <= size) by {
                    lemma_group_count_le_size(dir, size, tail, row_key(dir, tail[0].pos));
                }
                lemma_scan_shape(dir, size, tail, 0);
                let rr = merge_scan(dir, size, tail, 0);
                assert(r.tiles == seq![placed] + rr.tiles);
                assert(r.removed == rr.removed);
                assert(r.score == rr.score);
                assert(r.tiles[0] == placed);
                assert(forall|k: int| 1 <= k < r.tiles.len() ==> r.tiles[k] == rr.tiles[k - 1]);
                crate::components::lemma_values_sum_singleton(placed);
                lemma_values_sum_add(seq![placed], rr.tiles);
                assert(values_sum(r.tiles) == values_sum(s));
                assert(tail[0] == u);
                assert forall|k: int|
                    0 <= k < rr.tiles.len() implies sort_primary(
                    dir,
                    (#[trigger] rr.tiles[k]).pos,
                ) >= p0 by {
                    assert(sort_primary(dir, rr.tiles[k].pos) >= sort_primary(dir, tail[0].pos));
                }
                assert forall|k: int|
                    0 <= k < rr.tiles.len() && sort_primary(dir, (#[trigger] rr.tiles[k]).pos)
                        == p0 implies line_lt(
                    dir,
                    column_coord(dir, size, col),
                    line_key(dir, rr.tiles[k].pos),
                ) by {
                    assert(sort_primary(dir, rr.tiles[k].pos) >= sort_primary(dir, tail[0].pos));
                }
                lemma_scan_glue(dir, size, s, 1, placed, column_coord(dir, size, col), rr, r);
            } else if t.value != u.value {
                // same group, different values
                let tail = s.skip(1);
                assert(group_count(dir, s, g0) == 1 + group_count(dir, tail, g0));
                assert(row_key(dir, tail[0].pos) == g0);
                assert(group_count(dir, tail, g0) >= 1) by {
                    lemma_group_count_bounds(dir, tail.skip(1), g0);
                }
                lemma_scan_shape(dir, size, tail, col + 1);
                let rr = merge_scan(dir, size, tail, col + 1);
                assert(r.tiles == seq![placed] + rr.tiles);
                assert(r.tiles[0] == placed);
                assert(forall|k: int| 1 <= k < r.tiles.len() ==> r.tiles[k] == rr.tiles[k - 1]);
                crate::components::lemma_values_sum_singleton(placed);
                lemma_values_sum_add(seq![placed], rr.tiles);
                assert(values_sum(r.tiles) == values_sum(s));
                assert(sort_primary(dir, u.pos) == p0);
                assert(col + 1 < size);
                assert(line_lt(
                    dir,
                    column_coord(dir, size, col),
                    column_coord(dir, size, col + 1),
                ));
                assert forall|k: int|
                    0 <= k < rr.tiles.len() implies sort_primary(
                    dir,
                    (#[trigger] rr.tiles[k]).pos,
                ) >= p0 by {
                    assert(sort_primary(dir, rr.tiles[k].pos) >= sort_primary(dir, tail[0].pos));
                }
                assert forall|k: int|
                    0 <= k < rr.tiles.len() && sort_primary(dir, (#[trigger] rr.tiles[k]).pos)
                        == p0 implies line_lt(
                    dir,
                    column_coord(dir, size, col),
                    line_key(dir, rr.tiles[k].pos),
                ) by {
                    assert(sort_primary(dir, rr.tiles[k].pos) == sort_primary(dir, tail[0].pos));
                    assert(line_le(
                        dir,
                        column_coord(dir, size, col + 1),
                        line_key(dir, rr.tiles[k].pos),
                    ));
                }
                lemma_scan_glue(dir, size, s, 1, placed, column_coord(dir, size, col), rr, r);
            } else {
                // same group, equal values: the pair merges
                let tail = s.skip(2);
                assert(tail =~= s.skip(1).skip(1));
                assert(values_sum(s.skip(1)) == u.value + values_sum(tail)) by {
                    assert(s.skip(1)[0] == u);
                }
                lemma_values_sum_nonneg(tail);
                assert(t.value + u.value <= values_sum(s));
                let merged = Tile {
                    id: t.id,
                    pos: place_pos(dir, size, t.pos, col),
                    value: (t.value + u.value) as u32,
                };
                assert(merged.value == t.value + u.value);
                assert(group_count(dir, s, g0) == 2 + group_count(dir, tail, g0)) by {
                    assert(group_count(dir, s, g0) == 1 + group_count(dir, s.skip(1), g0));
                    assert(s.skip(1)[0] == u);
                    assert(row_key(dir, u.pos) == g0);
                    assert(group_count(dir, s.skip(1), g0) == 1 + group_count(
                        dir,
                        s.skip(1).skip(1),
                        g0,
                    ));
                    assert(s.skip(1).skip(1) =~= tail);
                }
                lemma_tiles_skip(dir, size, s, 2);
                let same_next = s.len() > 2 && row_key(dir, s[2].pos) == g0;
                let ncol: int = if same_next {
                    col + 1
                } else {
                    0
                };
                if s.len() > 2 {
                    if same_next {
                        assert(group_count(dir, tail, g0) >= 1) by {
                            assert(tail[0] == s[2]);
                            lemma_group_count_bounds(dir, tail.skip(1), g0);
                        }
                        assert(ncol + group_count(dir, tail, row_key(dir, tail[0].pos)) <= size);
                    } else {
                        lemma_group_count_le_size(dir, size, tail, row_key(dir, tail[0].pos));
                    }
                } else {
                    assert(tail =~= Seq::<Tile>::empty());
                }
                lemma_scan_shape(dir, size, tail, ncol);
                let rr = merge_scan(dir, size, tail, ncol);
                assert(r.tiles == seq![merged] + rr.tiles);
                assert(r.removed == seq![u.id] + rr.removed);
                assert(r.score == 2 * t.value + rr.score);
                assert(r.tiles[0] == merged);
                assert(forall|k: int| 1 <= k < r.tiles.len() ==> r.tiles[k] == rr.tiles[k - 1]);
                assert(r.removed[0] == u.id);
                assert(forall|k: int| 1 <= k < r.removed.len() ==> r.removed[k] == rr.removed[k - 1]);
                crate::components::lemma_values_sum_singleton(merged);
                lemma_values_sum_add(seq![merged], rr.tiles);
                assert(values_sum(r.tiles) == values_sum(s));
                if values_pow2(s) {
                    assert(crate::components::is_pow2(merged.value as int)) by {
                        assert(crate::components::is_pow2(t.value as int));
                        assert(merged.value as int == 2 * t.value);
                        assert(merged.value as int % 2 == 0);
                        assert((merged.value as int) / 2 == t.value as int);
                    }
                }
                if s.len() > 2 {
                    assert(tail[0] == s[2]);
                    if same_next {
                        assert(sort_primary(dir, tail[0].pos) == p0);
                        assert(col + 1 < size);
                        assert(line_lt(
                            dir,
                            column_coord(dir, size, col),
                            column_coord(dir, size, col + 1),
                        ));
                        assert forall|k: int|
                            0 <= k < rr.tiles.len() implies sort_primary(
                            dir,
                            (#[trigger] rr.tiles[k]).pos,
                        ) >= p0 by {
                            assert(sort_primary(dir, rr.tiles[k].pos) >= sort_primary(
                                dir,
                                tail[0].pos,
                            ));
                        }
                        assert forall|k: int|
                            0 <= k < rr.tiles.len() && sort_primary(
                                dir,
                                (#[trigger] rr.tiles[k]).pos,
                            ) == p0 implies line_lt(
                            dir,
                            column_coord(dir, size, col),
                            line_key(dir, rr.tiles[k].pos),
                        ) by {
                            assert(line_le(
                                dir,
                                column_coord(dir, size, col + 1),
                                line_key(dir, rr.tiles[k].pos),
                            ));
                        }
                    } else {
                        assert(key_le(dir, s[0].pos, s[2].pos));
                        assert(sort_primary(dir, tail[0].pos) > p0);
                        assert forall|k: int|
                            0 <= k < rr.tiles.len() implies sort_primary(
                            dir,
                            (#[trigger] rr.tiles[k]).pos,
                        ) >= p0 by {
                            assert(sort_primary(dir, rr.tiles[k].pos) >= sort_primary(
                                dir,
                                tail[0].pos,
                            ));
                        }
                        assert forall|k: int|
                            0 <= k < rr.tiles.len() && sort_primary(
                                dir,
                                (#[trigger] rr.tiles[k]).pos,
                            ) == p0 implies line_lt(
                            dir,
                            column_coord(dir, size, col),
                            line_key(dir, rr.tiles[k].pos),
                        ) by {
                            assert(sort_primary(dir, rr.tiles[k].pos) >= sort_primary(
                                dir,
                                tail[0].pos,
                            ));
                        }
                    }
                } else {
                    assert(rr.tiles.len() == 0);
                }
                lemma_scan_glue(dir, size, s, 2, merged, column_coord(dir, size, col), rr, r);
            }
        }
        // distinct positions follow from the ordering facts
        assert forall|j: int, k: int|
            0 <= j < k < r.tiles.len() implies (#[trigger] r.tiles[j]).pos != (
        #[trigger] r.tiles[k]).pos by {
            if r.tiles[j].pos == r.tiles[k].pos {
                assert(sort_primary(dir, r.tiles[j].pos) == sort_primary(dir, r.tiles[k].pos));
                assert(line_lt(dir, line_key(dir, r.tiles[j].pos), line_key(dir, r.tiles[k].pos)));
            }
        }
    }
}

/// What one shift pass returns: the surviving tiles, the identities of the
/// tiles merged away (to be despawned by the caller), and the score earned.
pub struct ShiftOutcome {
    pub tiles: Vec<Tile>,
    pub removed: Vec<u64>,
    pub score_delta: u32,
}

/// `s` is the input tiles sorted for `dir`, and the scan of `s` produced
/// exactly the given tiles, removals and score.
pub open spec fn shift_witness(
    dir: BoardShift,
    size: u8,
    input: Seq<Tile>,
    s: Seq<Tile>,
    tiles: Seq<Tile>,
    removed: Seq<u64>,
    score: int,
) -> bool {
    &&& s.to_multiset() == input.to_multiset()
    &&& sorted_for(dir, s)
    &&& tiles == merge_scan(dir, size, s, 0).tiles
    &&& removed == merge_scan(dir, size, s, 0).removed
    &&& score == merge_scan(dir, size, s, 0).score
}

/// One full shift pass: sorts the tiles for the direction and walks them
/// with one-step lookahead, compacting each group towards the target edge
/// and merging each adjacent equal pair once.
///
/// The result is the scan of the sorted tiles: `shift_witness` names the
/// sorted order and pins tiles, removals and score to `merge_scan` of it.
pub fn board_shift(board: &Board, tiles: &Vec<Tile>, direction: BoardShift) -> (out: ShiftOutcome)
    requires
        positions_in_range(tiles@, board.size),
        positions_distinct(tiles@),
        values_sum(tiles@) <= VALUE_SUM_CAP,
    ensures
        exists|s: Seq<Tile>|
            #[trigger] shift_witness(
                direction,
                board.size,
                tiles@,
                s,
                out.tiles@,
                out.removed@,
                out.score_delta as int,
            ),
        out.tiles@.len() + out.removed@.len() == tiles@.len(),
        values_sum(out.tiles@) == values_sum(tiles@),
        out.score_delta <= values_sum(tiles@),
        positions_in_range(out.tiles@, board.size),
        positions_distinct(out.tiles@),
        forall|k: int|
            0 <= k < out.tiles@.len() ==> exists|t: Tile|
                tiles@.contains(t) && (#[trigger] out.tiles@[k]).id == t.id && (out.tiles@[k].value
                    == t.value || out.tiles@[k].value == 2 * t.value),
        forall|k: int|
            0 <= k < out.removed@.len() ==> exists|t: Tile|
                tiles@.contains(t) && #[trigger] out.removed@[k] == t.id,
        ids_distinct(tiles@) ==> ids_distinct(out.tiles@),
        ids_distinct(tiles@) ==> out.removed@.no_duplicates(),
        ids_distinct(tiles@) ==> forall|j: int, k: int|
            0 <= j < out.tiles@.len() && 0 <= k < out.removed@.len() ==> (
            #[trigger] out.tiles@[j]).id != (#[trigger] out.removed@[k]),
        values_pow2(tiles@) ==> values_pow2(out.tiles@),
{
    let ghost input = tiles@;
    let sorted = sorted_by_direction(direction, tiles);
    proof {
        crate::components::lemma_permutation_preserves_tile_wf(input, sorted@, board.size);
        crate::components::lemma_values_sum_permutation(input, sorted@);
        if sorted@.len() > 0 {
            lemma_group_count_le_size(direction, board.size, sorted@, row_key(direction, sorted@[0].pos));
        }
    }
    let n = sorted.len();
    let mut i: usize = 0;
    let mut column: u8 = 0;
    let mut out_tiles: Vec<Tile> = Vec::new();
    let mut removed: Vec<u64> = Vec::new();
    let mut score: u32 = 0;
    proof {
        assert(sorted@.skip(0) =~= sorted@);
        assert(out_tiles@ + merge_scan(direction, board.size, sorted@, 0).tiles =~= merge_scan(
            direction,
            board.size,
            sorted@,
            0,
        ).tiles);
        assert(removed@ + merge_scan(direction, board.size, sorted@, 0).removed =~= merge_scan(
            direction,
            board.size,
            sorted@,
            0,
        ).removed);
        assert(sorted@.take(0) =~= Seq::<Tile>::empty());
        assert(values_sum(Seq::<Tile>::empty()) == 0);
    }
    while i < n
        invariant
            n == sorted@.len(),
            i <= n,
            sorted_for(direction, sorted@),
            positions_distinct(sorted@),
            positions_in_range(sorted@, board.size),
            values_sum(sorted@) <= VALUE_SUM_CAP,
            0 <= column,
            i < n ==> column + group_count(
                direction,
                sorted@.skip(i as int),
                row_key(direction, sorted@[i as int].pos),
            ) <= board.size,
            score <= values_sum(sorted@.take(i as int)),
            merge_scan(direction, board.size, sorted@, 0).tiles == out_tiles@ + merge_scan(
                direction,
                board.size,
                sorted@.skip(i as int),
                column as int,
            ).tiles,
            merge_scan(direction, board.size, sorted@, 0).removed == removed@ + merge_scan(
                direction,
                board.size,
                sorted@.skip(i as int),
                column as int,
            ).removed,
            merge_scan(direction, board.size, sorted@, 0).score == score + merge_scan(
                direction,
                board.size,
                sorted@.skip(i as int),
                column as int,
            ).score,
        decreases n - i,
    {
        let ghost pre = sorted@.skip(i as int);
        let ghost old_out = out_tiles@;
        let ghost old_removed = removed@;
        let ghost old_score = score as int;
        let ghost old_col = column as int;
        proof {
            assert(pre[0] == sorted@[i as int]);
            lemma_group_count_bounds(direction, pre.skip(1), row_key(direction, pre[0].pos));
            assert(group_count(direction, pre, row_key(direction, pre[0].pos)) >= 1);
            assert(column < board.size);
            lemma_tiles_skip(direction, board.size, sorted@, i as int);
            assert(sorted@ =~= sorted@.take(i as int) + pre);
            lemma_values_sum_add(sorted@.take(i as int), pre);
            lemma_values_sum_nonneg(sorted@.take(i as int));
            lemma_values_sum_nonneg(pre);
        }
        let tile = sorted[i];
        let mut pos = tile.pos;
        direction.set_column_position(board.size, &mut pos, column);
        let placed = Tile { id: tile.id, pos, value: tile.value };
        proof {
            assert(placed == Tile {
                id: pre[0].id,
                pos: place_pos(direction, board.size, pre[0].pos, old_col),
                value: pre[0].value,
            });
            assert(row_key(direction, pos) == row_key(direction, tile.pos));
            assert(pre.skip(1) =~= sorted@.skip(i as int + 1));
        }
        if i + 1 < n {
            let next = sorted[i + 1];
            proof {
                assert(pre[1] == sorted@[i as int + 1]);
                assert(pre.len() >= 2);
                assert(values_sum(pre) == pre[0].value + values_sum(pre.skip(1)));
                assert(values_sum(pre.skip(1)) == pre.skip(1)[0].value + values_sum(
                    pre.skip(1).skip(1),
                ));
                assert(pre.skip(1)[0] == pre[1]);
                assert(pre.skip(1).skip(1) =~= pre.skip(2));
                lemma_values_sum_nonneg(pre.skip(2));
                assert(values_sum(pre) == pre[0].value + pre[1].value + values_sum(pre.skip(2)));
            }
            let row_t = direction.get_row_position(&pos);
            let row_n = direction.get_row_position(&next.pos);
            if row_t != row_n {
                // the successor starts a new group: place, reset the index
                out_tiles.push(placed);
                column = 0;
                i += 1;
                proof {
                    let rest = sorted@.skip(i as int);
                    lemma_tiles_skip(direction, board.size, sorted@, i as int);
                    lemma_group_count_le_size(
                        direction,
                        board.size,
                        rest,
                        row_key(direction, rest[0].pos),
                    );
                    assert(merge_scan(direction, board.size, pre, old_col).tiles == seq![placed]
                        + merge_scan(direction, board.size, rest, 0).tiles);
                    assert(out_tiles@ + merge_scan(direction, board.size, rest, 0).tiles
                        =~= old_out + merge_scan(direction, board.size, pre, old_col).tiles);
                    assert(sorted@.take(i as int) =~= sorted@.take(i as int - 1).push(pre[0]));
                    assert(sorted@.take(i as int) =~= sorted@.take(i as int - 1) + seq![pre[0]]);
                    lemma_values_sum_add(sorted@.take(i as int - 1), seq![pre[0]]);
                    crate::components::lemma_values_sum_singleton(pre[0]);
                }
            } else if tile.value != next.value {
                // same group, different values: place, advance the index
                out_tiles.push(placed);
                proof {
                    assert(group_count(direction, pre, row_key(direction, pre[0].pos)) == 1
                        + group_count(direction, pre.skip(1), row_key(direction, pre[0].pos)));
                    assert(group_count(direction, pre.skip(1), row_key(direction, pre[0].pos)) >= 1)
                        by {
                        assert(pre.skip(1)[0] == pre[1]);
                        assert(row_key(direction, pre[1].pos) == row_key(direction, pre[0].pos));
                        lemma_group_count_bounds(
                            direction,
                            pre.skip(1).skip(1),
                            row_key(direction, pre[0].pos),
                        );
                    }
                    assert(column + 2 <= board.size);
                }
                column = column + 1;
                i += 1;
                proof {
                    let rest = sorted@.skip(i as int);
                    assert(rest[0] == pre[1]);
                    assert(row_key(direction, rest[0].pos) == row_key(direction, pre[0].pos));
                    assert(merge_scan(direction, board.size, pre, old_col).tiles == seq![placed]
                        + merge_scan(direction, board.size, rest, old_col + 1).tiles);
                    assert(out_tiles@ + merge_scan(direction, board.size, rest, old_col + 1).tiles
                        =~= old_out + merge_scan(direction, board.size, pre, old_col).tiles);
                    assert(sorted@.take(i as int) =~= sorted@.take(i as int - 1) + seq![pre[0]]);
                    lemma_values_sum_add(sorted@.take(i as int - 1), seq![pre[0]]);
                    crate::components::lemma_values_sum_singleton(pre[0]);
                }
            } else {
                // same group, equal values: merge the pair
                proof {
                    assert(pre[0].value + pre[1].value <= values_sum(pre));
                    assert(score + (tile.value + next.value) <= VALUE_SUM_CAP);
                }
                let summed = tile.value + next.value;
                let merged = Tile { id: tile.id, pos, value: summed };
                out_tiles.push(merged);
                removed.push(next.id);
                score = score + summed;
                proof {
                    assert(group_count(direction, pre, row_key(direction, pre[0].pos)) == 2
                        + group_count(direction, pre.skip(2), row_key(direction, pre[0].pos))) by {
                        assert(pre.skip(1)[0] == pre[1]);
                        assert(row_key(direction, pre[1].pos) == row_key(direction, pre[0].pos));
                        assert(pre.skip(1).skip(1) =~= pre.skip(2));
                    }
                    lemma_group_count_bounds(
                        direction,
                        pre.skip(2),
                        row_key(direction, pre[0].pos),
                    );
                    assert(pre.skip(2) =~= sorted@.skip(i as int + 2));
                }
                if i + 2 < n {
                    let future = sorted[i + 2];
                    proof {
                        assert(pre[2] == sorted@[i as int + 2]);
                    }
                    let row_f = direction.get_row_position(&future.pos);
                    if row_t != row_f {
                        column = 0;
                        proof {
                            lemma_tiles_skip(direction, board.size, sorted@, i as int + 2);
                            lemma_group_count_le_size(
                                direction,
                                board.size,
                                sorted@.skip(i as int + 2),
                                row_key(direction, sorted@[i as int + 2].pos),
                            );
                        }
                    } else {
                        proof {
                            assert(group_count(
                                direction,
                                sorted@.skip(i as int + 2),
                                row_key(direction, sorted@[i as int + 2].pos),
                            ) == group_count(direction, pre.skip(2), row_key(direction, pre[0].pos)));
                        }
                        column = column + 1;
                    }
                } else {
                    column = 0;
                }
                i += 2;
                proof {
                    let rest = sorted@.skip(i as int);
                    let ghost m_spec = Tile {
                        id: pre[0].id,
                        pos: place_pos(direction, board.size, pre[0].pos, old_col),
                        value: (pre[0].value + pre[1].value) as u32,
                    };
                    assert(merged == m_spec);
                    assert(merge_scan(direction, board.size, pre, old_col).tiles == seq![m_spec]
                        + merge_scan(direction, board.size, rest, column as int).tiles);
                    assert(merge_scan(direction, board.size, pre, old_col).removed == seq![
                        pre[1].id,
                    ] + merge_scan(direction, board.size, rest, column as int).removed);
                    assert(merge_scan(direction, board.size, pre, old_col).score == 2 * pre[0].value
                        + merge_scan(direction, board.size, rest, column as int).score);
                    assert(out_tiles@ + merge_scan(direction, board.size, rest, column as int).tiles
                        =~= old_out + merge_scan(direction, board.size, pre, old_col).tiles);
                    assert(removed@ + merge_scan(direction, board.size, rest, column as int).removed
                        =~= old_removed + merge_scan(direction, board.size, pre, old_col).removed);
                    assert(sorted@.take(i as int) =~= sorted@.take(i as int - 2) + seq![
                        pre[0],
                        pre[1],
                    ]);
                    lemma_values_sum_add(sorted@.take(i as int - 2), seq![pre[0], pre[1]]);
                    crate::components::lemma_values_sum_pair(pre[0], pre[1]);
                }
            }
        } else {
            // last tile of the pass: it just receives the current index
            out_tiles.push(placed);
            i += 1;
            proof {
                assert(pre.len() == 1);
                assert(merge_scan(direction, board.size, pre, old_col).tiles == seq![placed]);
                assert(merge_scan(direction, board.size, pre, old_col).removed
                    == Seq::<u64>::empty());
                assert(merge_scan(direction, board.size, pre, old_col).score == 0);
                assert(sorted@.skip(i as int) =~= Seq::<Tile>::empty());
                assert(out_tiles@ + merge_scan(
                    direction,
                    board.size,
                    sorted@.skip(i as int),
                    column as int,
                ).tiles =~= old_out + merge_scan(direction, board.size, pre, old_col).tiles);
                assert(removed@ + merge_scan(
                    direction,
                    board.size,
                    sorted@.skip(i as int),
                    column as int,
                ).removed =~= old_removed + merge_scan(direction, board.size, pre, old_col).removed);
                assert(sorted@.take(i as int) =~= sorted@);
            }
        }
    }
    proof {
        let rest = sorted@.skip(i as int);
        assert(rest =~= Seq::<Tile>::empty());
        assert(rest.len() == 0);
        assert(merge_scan(direction, board.size, rest, column as int).tiles
            == Seq::<Tile>::empty());
        assert(merge_scan(direction, board.size, rest, column as int).removed
            == Seq::<u64>::empty());
        assert(merge_scan(direction, board.size, rest, column as int).score == 0);
        assert(merge_scan(direction, board.size, sorted@, 0).tiles =~= out_tiles@);
        assert(merge_scan(direction, board.size, sorted@, 0).removed =~= removed@);
        assert(shift_witness(
            direction,
            board.size,
            input,
            sorted@,
            out_tiles@,
            removed@,
            score as int,
        ));
    }
    let out = ShiftOutcome { tiles: out_tiles, removed, score_delta: score };
    proof {
        assert(input == tiles@);
        assert(out.tiles == out_tiles);
        assert(out.removed == removed);
        assert(out.score_delta == score);
        lemma_scan_shape(direction, board.size, sorted@, 0);
        crate::components::lemma_values_sum_permutation(input, sorted@);
        input.to_multiset_ensures();
        sorted@.to_multiset_ensures();
        assert(forall|x: Tile| input.contains(x) <==> sorted@.contains(x)) by {
            assert(forall|x: Tile| input.contains(x) <==> input.to_multiset().count(x) > 0);
            assert(forall|x: Tile| sorted@.contains(x) <==> sorted@.to_multiset().count(x) > 0);
        }
        assert forall|k: int| 0 <= k < out.tiles@.len() implies exists|t: Tile|
            input.contains(t) && (#[trigger] out.tiles@[k]).id == t.id && (out.tiles@[k].value
                == t.value || out.tiles@[k].value == 2 * t.value) by {
            let i = choose|i: int|
                0 <= i < sorted@.len() && (#[trigger] out_tiles@[k]).id == sorted@[i].id && (
                out_tiles@[k].value == sorted@[i].value || out_tiles@[k].value == 2
                    * sorted@[i].value);
            assert(sorted@.contains(sorted@[i]));
            let t = sorted@[i];
            assert(input.contains(t) && out.tiles@[k].id == t.id && (out.tiles@[k].value == t.value
                || out.tiles@[k].value == 2 * t.value));
        }
        assert forall|k: int| 0 <= k < out.removed@.len() implies exists|t: Tile|
            input.contains(t) && #[trigger] out.removed@[k] == t.id by {
            let i = choose|i: int| 0 <= i < sorted@.len() && #[trigger] removed@[k] == sorted@[i].id;
            assert(sorted@.contains(sorted@[i]));
            let t = sorted@[i];
            assert(input.contains(t) && out.removed@[k] == t.id);
        }
        assert(exists|s: Seq<Tile>|
            #[trigger] shift_witness(
                direction,
                board.size,
                tiles@,
                s,
                out.tiles@,
                out.removed@,
                out.score_delta as int,
            ));
    }
    out
}

/// Relies on itertools' `sorted_by`, a stable sort by the given comparator:
/// the result holds exactly the input elements, ordered so that the
/// comparator never answers `Greater` on an earlier and a later element.
#[verifier::external_body]
fn sorted_by_direction(dir: BoardShift, tiles: &Vec<Tile>) -> (r: Vec<Tile>)
    ensures
        r@.len() == tiles@.len(),
        r@.to_multiset() == tiles@.to_multiset(),
        sorted_for(dir, r@),
{
    tiles.iter().cloned().sorted_by(|a, b| dir.sort(&a.pos, &b.pos)).collect()
}

} // verus!
