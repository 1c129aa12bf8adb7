use vstd::prelude::*;

use crate::components::Tile;
use crate::components::positions_distinct;
use crate::shift::BoardShift;
use crate::shift::ScanResult;
use crate::shift::column_coord;
use crate::shift::key_le;
use crate::shift::line_key;
use crate::shift::merge_scan;
use crate::shift::row_key;
use crate::shift::shift_witness;
use crate::shift::sorted_for;

verus! {

/// The tiles of `s` (in scan order) are already fully compacted for `dir`
/// starting at compaction index `col`: each tile already sits at the
/// coordinate the scan would assign it, and no two adjacent tiles of one
/// group hold equal values (so no merge is possible).
pub open spec fn compacted_from(dir: BoardShift, size: u8, s: Seq<Tile>, col: int) -> bool
    decreases s.len(),
{
    s.len() == 0 || {
        &&& line_key(dir, s[0].pos) == column_coord(dir, size, col)
        &&& if s.len() == 1 {
            true
        } else if row_key(dir, s[0].pos) != row_key(dir, s[1].pos) {
            compacted_from(dir, size, s.skip(1), 0)
        } else {
            s[0].value != s[1].value && compacted_from(dir, size, s.skip(1), col + 1)
        }
    }
}

/// Idempotence of a no-op shift: scanning tiles that are already fully
/// compacted for the direction, with no equal adjacent values in any group,
/// returns every tile unchanged, removes nothing, and earns no score. Only
/// the side effects outside the scan (the best-score update and the
/// new-tile request) can fire on such a shift.
pub proof fn lemma_noop_shift(dir: BoardShift, size: u8, s: Seq<Tile>, col: int)
    requires
        compacted_from(dir, size, s, col),
    ensures
        merge_scan(dir, size, s, col) == (ScanResult {
            tiles: s,
            removed: Seq::<u64>::empty(),
            score: 0,
        }),
    decreases s.len(),
{
    let r = merge_scan(dir, size, s, col);
    if s.len() == 0 {
        assert(r.tiles =~= s);
        assert(r.removed =~= Seq::<u64>::empty());
    } else {
        let t = s[0];
        let placed = Tile { id: t.id, pos: crate::shift::place_pos(dir, size, t.pos, col), value: t.value };
        assert(placed == t) by {
            assert(line_key(dir, placed.pos) == line_key(dir, t.pos));
            assert(row_key(dir, placed.pos) == row_key(dir, t.pos));
            assert(placed.pos == t.pos);
        }
        if s.len() == 1 {
            assert(r.tiles =~= s);
            assert(r.removed =~= Seq::<u64>::empty());
        } else if row_key(dir, t.pos) != row_key(dir, s[1].pos) {
            lemma_noop_shift(dir, size, s.skip(1), 0);
            assert(r.tiles =~= s) by {
                assert(r.tiles == seq![t] + s.skip(1));
            }
            assert(r.removed =~= Seq::<u64>::empty());
        } else {
            assert(s[0].value != s[1].value);
            lemma_noop_shift(dir, size, s.skip(1), col + 1);
            assert(r.tiles =~= s) by {
                assert(r.tiles == seq![t] + s.skip(1));
            }
            assert(r.removed =~= Seq::<u64>::empty());
        }
    }
}

/// A no-op shift at the level of one whole pass: when the sorted
/// arrangement of the input is already fully compacted, the pass returns
/// exactly that arrangement — the same tiles, cells and values as the
/// input — removes no tile and earns no score.
pub proof fn lemma_noop_shift_witness(
    dir: BoardShift,
    size: u8,
    input: Seq<Tile>,
    s: Seq<Tile>,
    tiles: Seq<Tile>,
    removed: Seq<u64>,
    score: int,
)
    requires
        shift_witness(dir, size, input, s, tiles, removed, score),
        compacted_from(dir, size, s, 0),
    ensures
        tiles == s,
        tiles.to_multiset() == input.to_multiset(),
        removed == Seq::<u64>::empty(),
        score == 0,
{
    lemma_noop_shift(dir, size, s, 0);
}

/// Two tiles of one distinct-position sequence that compare equal under the
/// direction's order occupy the same cell, hence are the same tile.
proof fn lemma_key_le_antisymmetric(dir: BoardShift, a: Tile, b: Tile)
    requires
        key_le(dir, a.pos, b.pos),
        key_le(dir, b.pos, a.pos),
    ensures
        a.pos == b.pos,
{
}

/// Sorting for a direction is unambiguous: two sorted arrangements of the
/// same tiles (with no two tiles on one cell) are identical.
pub proof fn lemma_sorted_permutation_unique(dir: BoardShift, a: Seq<Tile>, b: Seq<Tile>)
    requires
        a.to_multiset() == b.to_multiset(),
        sorted_for(dir, a),
        sorted_for(dir, b),
        positions_distinct(a),
    ensures
        a == b,
    decreases a.len(),
{
    a.to_multiset_ensures();
    b.to_multiset_ensures();
    if a.len() == 0 {
        assert(a =~= b);
    } else {
        assert(b.len() == a.len());
        // the two head tiles are both minimal, so they share a cell, so
        // they are the same tile
        assert(b.contains(a[0])) by {
            assert(a.to_multiset().count(a[0]) > 0);
        }
        assert(a.contains(b[0])) by {
            assert(b.to_multiset().count(b[0]) > 0);
        }
        let i = choose|i: int| 0 <= i < b.len() && b[i] == a[0];
        let j = choose|j: int| 0 <= j < a.len() && a[j] == b[0];
        assert(key_le(dir, b[0].pos, a[0].pos)) by {
            if i > 0 {
                assert(key_le(dir, b[0].pos, b[i].pos));
            }
        }
        assert(key_le(dir, a[0].pos, b[0].pos)) by {
            if j > 0 {
                assert(key_le(dir, a[0].pos, a[j].pos));
            }
        }
        lemma_key_le_antisymmetric(dir, a[0], b[0]);
        assert(a[0] == b[0]) by {
            if a[0] != b[0] {
                assert(a[j] == b[0] && j != 0);
                assert(a[j].pos != a[0].pos);
            }
        }
        let at = a.remove(0);
        let bt = b.remove(0);
        a.remove_ensures(0);
        b.remove_ensures(0);
        assert(at.to_multiset() == bt.to_multiset()) by {
            assert(at.to_multiset() =~= a.to_multiset().remove(a[0]));
            assert(bt.to_multiset() =~= b.to_multiset().remove(b[0]));
        }
        assert(at =~= a.skip(1));
        assert(bt =~= b.skip(1));
        crate::shift::lemma_tiles_skip(dir, 0, a, 1);
        crate::shift::lemma_tiles_skip(dir, 0, b, 1);
        lemma_sorted_permutation_unique(dir, at, bt);
        assert(a =~= b) by {
            assert(forall|k: int| 1 <= k < a.len() ==> a[k] == at[k - 1] && b[k] == bt[k - 1]);
        }
    }
}

/// Determinism of a shift: whatever order the tiles were handed over in,
/// one tile set has exactly one sorted arrangement, and so one shift result.
/// Together with the scan rule this makes the outcome of every shift
/// reproducible from the tile set and the direction alone.
pub proof fn lemma_shift_deterministic(
    dir: BoardShift,
    size: u8,
    input: Seq<Tile>,
    s1: Seq<Tile>,
    s2: Seq<Tile>,
    tiles1: Seq<Tile>,
    removed1: Seq<u64>,
    score1: int,
    tiles2: Seq<Tile>,
    removed2: Seq<u64>,
    score2: int,
)
    requires
        positions_distinct(input),
        shift_witness(dir, size, input, s1, tiles1, removed1, score1),
        shift_witness(dir, size, input, s2, tiles2, removed2, score2),
    ensures
        tiles1 == tiles2,
        removed1 == removed2,
        score1 == score2,
{
    crate::components::lemma_permutation_preserves_tile_wf(input, s1, size);
    lemma_sorted_permutation_unique(dir, s1, s2);
}

} // verus!
