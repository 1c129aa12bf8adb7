use vstd::prelude::*;

use rand::seq::IndexedRandom;

use crate::board::Board;
use crate::components::Game;
use crate::components::Position;
use crate::components::RunState;
use crate::components::Tile;
use crate::components::VALUE_SUM_CAP;
use crate::components::ids_distinct;
use crate::components::positions_distinct;
use crate::components::positions_in_range;
use crate::components::values_pow2;
use crate::components::values_sum;
use crate::components::lemma_values_sum_add;
use crate::components::lemma_values_sum_nonneg;
use crate::components::lemma_values_sum_singleton;
use crate::shift::BoardShift;
use crate::shift::shift_witness;

verus! {

/// The base value of a freshly spawned tile.
pub const SPAWN_VALUE: u32 = 2;

/// `p` is the cell of some tile of `s`.
pub open spec fn occupied(s: Seq<Tile>, p: Position) -> bool {
    exists|i: int| 0 <= i < s.len() && (#[trigger] s[i]).pos == p
}

/// Some tile of `s` carries identity `v`.
pub open spec fn id_used(s: Seq<Tile>, v: int) -> bool {
    exists|i: int| 0 <= i < s.len() && (#[trigger] s[i]).id == v
}

/// Some cell of a board of side `size` holds no tile of `s`.
pub open spec fn has_free_cell(s: Seq<Tile>, size: u8) -> bool {
    exists|p: Position| p.x < size && p.y < size && !occupied(s, p)
}

/// Saturating addition on the score scale: the exact sum while it fits.
pub open spec fn sat_add_u32(a: int, b: int) -> int {
    if a + b <= u32::MAX {
        a + b
    } else {
        u32::MAX as int
    }
}

/// Relies on rand's `IndexedRandom::choose` on a slice, driven by the
/// thread-local generator of `rand::rng`: `None` exactly when the slice is
/// empty, otherwise one element of the slice.
#[verifier::external_body]
fn choose_cell(cells: &Vec<Position>) -> (r: Option<Position>)
    ensures
        r.is_some() <==> cells@.len() > 0,
        r matches Some(p) ==> cells@.contains(p),
{
    cells.as_slice().choose(&mut rand::rng()).copied()
}

/// Relies on rand's `IndexedRandom::sample` on a slice: `min(2, len)`
/// elements drawn at distinct indices, in unspecified order; with no
/// duplicates in the slice the drawn elements are pairwise distinct.
#[verifier::external_body]
fn sample_two_cells(cells: &Vec<Position>) -> (r: Vec<Position>)
    ensures
        r@.len() == if cells@.len() < 2 {
            cells@.len() as int
        } else {
            2int
        },
        forall|i: int| 0 <= i < r@.len() ==> cells@.contains(#[trigger] r@[i]),
        cells@.no_duplicates() ==> r@.no_duplicates(),
{
    cells.as_slice().sample(&mut rand::rng(), 2).copied().collect()
}

/// One running game: the board, the live tiles, the scores, the run state,
/// and the pending new-tile signal that every shift raises.
pub struct GameSession {
    pub board: Board,
    pub tiles: Vec<Tile>,
    pub game: Game,
    pub run_state: RunState,
    pub new_tile_requested: bool,
}

impl GameSession {
    /// The session's well-formedness: tiles sit on distinct in-range cells,
    /// identities are unique, values are powers of two at least 2, and the
    /// value sum stays under the overflow cap.
    pub open spec fn inv(self) -> bool {
        &&& self.board.size >= 2
        &&& positions_in_range(self.tiles@, self.board.size)
        &&& positions_distinct(self.tiles@)
        &&& ids_distinct(self.tiles@)
        &&& values_pow2(self.tiles@)
        &&& values_sum(self.tiles@) <= VALUE_SUM_CAP
    }

    /// A fresh session on an empty board: no tiles, zero scores, playing.
    /// The first reset spawns the opening tiles.
    pub fn new(size: u8) -> (s: GameSession)
        requires
            size >= 2,
        ensures
            s.inv(),
            s.board.size == size,
            s.tiles@.len() == 0,
            s.game.score == 0,
            s.game.score_best == 0,
            s.run_state == RunState::Playing,
            s.new_tile_requested == false,
    {
        GameSession {
            board: Board::new(size),
            tiles: Vec::new(),
            game: Game { score: 0, score_best: 0 },
            run_state: RunState::Playing,
            new_tile_requested: false,
        }
    }

    /// An identity carried by no live tile: the smallest unused one. Among
    /// `len + 1` candidates at least one is free of the `len` live tiles.
    fn fresh_id(&self) -> (id: u64)
        requires
            ids_distinct(self.tiles@),
        ensures
            forall|i: int| 0 <= i < self.tiles@.len() ==> (#[trigger] self.tiles@[i]).id != id,
    {
        let n = self.tiles.len();
        let mut c: usize = 0;
        loop
            invariant_except_break
                n == self.tiles@.len(),
                c <= n,
                forall|v: int| 0 <= v < c ==> #[trigger] id_used(self.tiles@, v),
            ensures
                forall|v: int| 0 <= v <= n ==> #[trigger] id_used(self.tiles@, v),
            decreases n - c,
        {
            let mut used = false;
            let mut i: usize = 0;
            while i < n
                invariant
                    n == self.tiles@.len(),
                    i <= n,
                    c <= n,
                    used <==> exists|k: int|
                        0 <= k < i && (#[trigger] self.tiles@[k]).id == c as u64,
                decreases n - i,
            {
                if self.tiles[i].id == c as u64 {
                    used = true;
                }
                i += 1;
            }
            if !used {
                proof {
                    assert(forall|k: int|
                        0 <= k < self.tiles@.len() ==> (#[trigger] self.tiles@[k]).id != c as u64);
                }
                return c as u64;
            }
            proof {
                assert(id_used(self.tiles@, c as int));
            }
            if c == n {
                break;
            }
            c += 1;
        }
        proof {
            let ids = self.tiles@.map_values(|t: Tile| t.id as int);
            let range = vstd::set_lib::set_int_range(0, n + 1);
            vstd::set_lib::lemma_int_range(0, n + 1);
            assert(forall|i: int| 0 <= i < ids.len() ==> ids[i] == self.tiles@[i].id as int);
            assert forall|v: int| 0 <= v < n + 1 implies ids.contains(v) by {
                assert(0 <= v <= n);
                assert(id_used(self.tiles@, v));
                let i = choose|i: int|
                    0 <= i < self.tiles@.len() && (#[trigger] self.tiles@[i]).id == v;
                assert(ids[i] == v);
            }
            assert(range.subset_of(ids.to_set()));
            ids.lemma_cardinality_of_set();
            vstd::set_lib::lemma_len_subset(range, ids.to_set());
            assert(false);
        }
        vstd::pervasive::unreached()
    }

    /// Every free cell of the board: in range and not occupied by any tile.
    fn free_cells(&self) -> (r: Vec<Position>)
        ensures
            forall|i: int|
                0 <= i < r@.len() ==> (#[trigger] r@[i]).x < self.board.size && r@[i].y
                    < self.board.size && !occupied(self.tiles@, r@[i]),
            forall|p: Position|
                p.x < self.board.size && p.y < self.board.size && !occupied(self.tiles@, p)
                    ==> r@.contains(p),
            r@.no_duplicates(),
    {
        let cells = self.board.tiles();
        let mut r: Vec<Position> = Vec::new();
        let mut i: usize = 0;
        while i < cells.len()
            invariant
                cells@.len() == self.board.size * self.board.size,
                forall|k: int|
                    0 <= k < cells@.len() ==> crate::board::cell_in_range(
                        self.board.size,
                        #[trigger] cells@[k],
                    ),
                forall|x: u8, y: u8|
                    x < self.board.size && y < self.board.size ==> cells@.contains((x, y)),
                cells@.no_duplicates(),
                i <= cells@.len(),
                forall|m: int|
                    0 <= m < r@.len() ==> (#[trigger] r@[m]).x < self.board.size && r@[m].y
                        < self.board.size && !occupied(self.tiles@, r@[m]),
                forall|k: int|
                    0 <= k < i ==> (occupied(
                        self.tiles@,
                        Position { x: (#[trigger] cells@[k]).0, y: cells@[k].1 },
                    ) || r@.contains(Position { x: cells@[k].0, y: cells@[k].1 })),
                forall|m: int|
                    0 <= m < r@.len() ==> exists|k: int|
                        0 <= k < i && (#[trigger] r@[m]) == (Position {
                            x: cells@[k].0,
                            y: cells@[k].1,
                        }) && cells@[k] == (r@[m].x, r@[m].y),
                forall|m1: int, m2: int|
                    0 <= m1 < m2 < r@.len() ==> (#[trigger] r@[m1]) != (#[trigger] r@[m2]),
            decreases cells@.len() - i,
        {
            let (x, y) = cells[i];
            let p = Position { x, y };
            proof {
                assert(cells@[i as int] == (x, y));
            }
            let mut occ = false;
            let mut j: usize = 0;
            while j < self.tiles.len()
                invariant
                    j <= self.tiles@.len(),
                    occ <==> exists|k: int|
                        0 <= k < j && (#[trigger] self.tiles@[k]).pos == p,
                decreases self.tiles@.len() - j,
            {
                if self.tiles[j].pos == p {
                    occ = true;
                }
                j += 1;
            }
            if !occ {
                let ghost old_r = r@;
                proof {
                    assert(!occupied(self.tiles@, p));
                    assert forall|m: int| 0 <= m < old_r.len() implies old_r[m] != p by {
                        let k = choose|k: int|
                            0 <= k < i && (#[trigger] old_r[m]) == (Position {
                                x: cells@[k].0,
                                y: cells@[k].1,
                            }) && cells@[k] == (old_r[m].x, old_r[m].y);
                        if old_r[m] == p {
                            assert(cells@[k] == (x, y));
                            assert(cells@[k] == cells@[i as int]);
                        }
                    }
                }
                r.push(p);
                proof {
                    assert(r@ == old_r.push(p));
                    assert(forall|m: int| 0 <= m < old_r.len() ==> r@[m] == old_r[m]);
                    assert(r@[old_r.len() as int] == p);
                    assert forall|q: Position| old_r.contains(q) implies r@.contains(q) by {
                        let m = choose|m: int| 0 <= m < old_r.len() && old_r[m] == q;
                        assert(r@[m] == q);
                    }
                    assert(r@.contains(p));
                }
            }
            i += 1;
        }
        proof {
            assert forall|p: Position|
                p.x < self.board.size && p.y < self.board.size && !occupied(self.tiles@, p)
                    implies r@.contains(p) by {
                assert(cells@.contains((p.x, p.y)));
                let k = choose|k: int| 0 <= k < cells@.len() && cells@[k] == (p.x, p.y);
                assert(occupied(self.tiles@, Position { x: cells@[k].0, y: cells@[k].1 })
                    || r@.contains(Position { x: cells@[k].0, y: cells@[k].1 }));
                assert(Position { x: cells@[k].0, y: cells@[k].1 } == p);
            }
        }
                r
    }

    /// Sum of all live tile values; stays within `u32` under the invariant.
    fn values_total(&self) -> (r: u32)
        requires
            values_sum(self.tiles@) <= VALUE_SUM_CAP,
        ensures
            r == values_sum(self.tiles@),
    {
        let mut total: u32 = 0;
        let mut i: usize = 0;
        proof {
            assert(self.tiles@.skip(0) =~= self.tiles@);
        }
        while i < self.tiles.len()
            invariant
                i <= self.tiles@.len(),
                values_sum(self.tiles@) <= VALUE_SUM_CAP,
                total + values_sum(self.tiles@.skip(i as int)) == values_sum(self.tiles@),
            decreases self.tiles@.len() - i,
        {
            proof {
                let rest = self.tiles@.skip(i as int);
                assert(rest[0] == self.tiles@[i as int]);
                assert(values_sum(rest) == rest[0].value + values_sum(rest.skip(1)));
                assert(rest.skip(1) =~= self.tiles@.skip(i as int + 1));
                lemma_values_sum_nonneg(rest.skip(1));
            }
            total = total + self.tiles[i].value;
            i += 1;
        }
        proof {
            assert(self.tiles@.skip(self.tiles@.len() as int) =~= Seq::<Tile>::empty());
        }
        total
    }

    /// Creates one tile of the base value on a free in-range cell, with a
    /// fresh identity; every other tile is untouched.
    pub fn spawn_tile(&mut self, pos: Position)
        requires
            old(self).inv(),
            pos.x < old(self).board.size,
            pos.y < old(self).board.size,
            !occupied(old(self).tiles@, pos),
            values_sum(old(self).tiles@) + SPAWN_VALUE <= VALUE_SUM_CAP,
        ensures
            final(self).inv(),
            final(self).tiles@.len() == old(self).tiles@.len() + 1,
            forall|i: int|
                0 <= i < old(self).tiles@.len()
                    ==> (#[trigger] final(self).tiles@[i]) == old(self).tiles@[i],
            final(self).tiles@[old(self).tiles@.len() as int].pos == pos,
            final(self).tiles@[old(self).tiles@.len() as int].value == SPAWN_VALUE,
            values_sum(final(self).tiles@) == values_sum(old(self).tiles@) + SPAWN_VALUE,
            final(self).board == old(self).board,
            final(self).game == old(self).game,
            final(self).run_state == old(self).run_state,
            final(self).new_tile_requested == old(self).new_tile_requested,
    {
        let id = self.fresh_id();
        let tile = Tile { id, pos, value: SPAWN_VALUE };
        proof {
            assert(crate::components::is_pow2(SPAWN_VALUE as int)) by {
                assert(crate::components::is_pow2(1));
                assert(SPAWN_VALUE as int / 2 == 1);
            }
            lemma_values_sum_add(self.tiles@, seq![tile]);
            lemma_values_sum_singleton(tile);
            assert(self.tiles@ + seq![tile] =~= self.tiles@.push(tile));
        }
        self.tiles.push(tile);
    }

    /// Clears the board and zeroes the running score; the best score and
    /// the run state are kept.
    pub fn game_reset(&mut self)
        ensures
            final(self).tiles@.len() == 0,
            final(self).game.score == 0,
            final(self).game.score_best == old(self).game.score_best,
            final(self).board == old(self).board,
            final(self).run_state == old(self).run_state,
            final(self).new_tile_requested == old(self).new_tile_requested,
            old(self).board.size >= 2 ==> final(self).inv(),
    {
        self.tiles = Vec::new();
        self.game.score = 0;
        proof {
            assert(values_sum(final(self).tiles@) == 0);
        }
    }

    /// Spawns the two opening tiles on two distinct random cells of the
    /// empty board, each with the base value.
    pub fn spawn_tiles(&mut self)
        requires
            old(self).inv(),
            old(self).tiles@.len() == 0,
        ensures
            final(self).inv(),
            final(self).tiles@.len() == 2,
            forall|i: int|
                0 <= i < 2 ==> (#[trigger] final(self).tiles@[i]).value == SPAWN_VALUE,
            final(self).board == old(self).board,
            final(self).game == old(self).game,
            final(self).run_state == old(self).run_state,
            final(self).new_tile_requested == old(self).new_tile_requested,
    {
        let free = self.free_cells();
        proof {
            let p0 = Position { x: 0, y: 0 };
            let p1 = Position { x: 0, y: 1 };
            assert(!occupied(self.tiles@, p0));
            assert(!occupied(self.tiles@, p1));
            assert(free@.contains(p0));
            assert(free@.contains(p1));
            if free@.len() < 2 {
                let i0 = choose|i: int| 0 <= i < free@.len() && free@[i] == p0;
                let i1 = choose|i: int| 0 <= i < free@.len() && free@[i] == p1;
                assert(i0 == i1);
                assert(false);
            }
        }
        let picked = sample_two_cells(&free);
        proof {
            assert(picked@.len() == 2);
        }
        let first = picked[0];
        let second = picked[1];
        proof {
            assert(free@.contains(picked@[0]));
            assert(free@.contains(picked@[1]));
            let k0 = choose|k: int| 0 <= k < free@.len() && free@[k] == picked@[0];
            assert(!occupied(self.tiles@, picked@[0]));
            let k1 = choose|k: int| 0 <= k < free@.len() && free@[k] == picked@[1];
            assert(!occupied(self.tiles@, picked@[1]));
            assert(picked@[0] != picked@[1]);
            assert(values_sum(self.tiles@) == 0);
        }
        self.spawn_tile(first);
        proof {
            assert(!occupied(self.tiles@, second)) by {
                assert(self.tiles@.len() == 1);
                assert(self.tiles@[0].pos == first);
            }
        }
        self.spawn_tile(second);
    }

    /// The explicit reset action: clear the board, zero the score, return
    /// to play, and spawn the two opening tiles. The best score survives.
    pub fn reset(&mut self)
        requires
            old(self).inv(),
        ensures
            final(self).inv(),
            final(self).tiles@.len() == 2,
            forall|i: int|
                0 <= i < 2 ==> (#[trigger] final(self).tiles@[i]).value == SPAWN_VALUE,
            final(self).game.score == 0,
            final(self).game.score_best == old(self).game.score_best,
            final(self).run_state == RunState::Playing,
            final(self).board == old(self).board,
    {
        self.game_reset();
        self.run_state = RunState::Playing;
        self.spawn_tiles();
    }

    /// Consumes a pending new-tile signal: if one is pending and the board
    /// still has a free cell (and the value-sum cap leaves room for one more
    /// base tile), one tile of the base value appears on a random free
    /// cell; otherwise nothing changes. A full board is a silent no-op.
    pub fn new_tile_handler(&mut self)
        requires
            old(self).inv(),
        ensures
            final(self).inv(),
            final(self).new_tile_requested == false,
            final(self).board == old(self).board,
            final(self).game == old(self).game,
            final(self).run_state == old(self).run_state,
            (old(self).new_tile_requested && has_free_cell(old(self).tiles@, old(self).board.size)
                && values_sum(old(self).tiles@) + SPAWN_VALUE <= VALUE_SUM_CAP) ==> {
                &&& final(self).tiles@.len() == old(self).tiles@.len() + 1
                &&& (forall|i: int|
                    0 <= i < old(self).tiles@.len()
                        ==> (#[trigger] final(self).tiles@[i]) == old(self).tiles@[i])
                &&& final(self).tiles@[old(self).tiles@.len() as int].value == SPAWN_VALUE
                &&& !occupied(old(self).tiles@, final(self).tiles@[old(self).tiles@.len() as int].pos)
            },
            !(old(self).new_tile_requested && has_free_cell(old(self).tiles@, old(self).board.size)
                && values_sum(old(self).tiles@) + SPAWN_VALUE <= VALUE_SUM_CAP)
                ==> final(self).tiles@ == old(self).tiles@,
    {
        if !self.new_tile_requested {
            return ;
        }
        self.new_tile_requested = false;
        let free = self.free_cells();
        proof {
            if has_free_cell(self.tiles@, self.board.size) {
                let p = choose|p: Position|
                    p.x < self.board.size && p.y < self.board.size && !occupied(self.tiles@, p);
                assert(free@.contains(p));
            }
            if free@.len() > 0 {
                assert(has_free_cell(self.tiles@, self.board.size)) by {
                    assert(free@[0].x < self.board.size && free@[0].y < self.board.size
                        && !occupied(self.tiles@, free@[0]));
                }
            }
        }
        let total = self.values_total();
        if total <= VALUE_SUM_CAP - SPAWN_VALUE {
            match choose_cell(&free) {
                Some(pos) => {
                    proof {
                        let k = choose|k: int| 0 <= k < free@.len() && free@[k] == pos;
                        assert(!occupied(self.tiles@, pos));
                    }
                    self.spawn_tile(pos);
                },
                None => {
                },
            }
        }
    }

    /// One shift pass triggered by a recognized directional input: compacts
    /// and merges the tiles, adds the merges' earnings to the score
    /// (saturating at the `u32` limit), keeps the best score at the maximum
    /// seen, and raises the new-tile signal unconditionally — a recognized
    /// key always requests a tile, whether or not anything moved. Returns
    /// the identities of the tiles merged away, for the caller to despawn.
    pub fn board_shift(&mut self, direction: BoardShift) -> (removed: Vec<u64>)
        requires
            old(self).inv(),
        ensures
            final(self).inv(),
            exists|s: Seq<Tile>, delta: int|
                #[trigger] shift_witness(
                    direction,
                    old(self).board.size,
                    old(self).tiles@,
                    s,
                    final(self).tiles@,
                    removed@,
                    delta,
                ) && final(self).game.score == sat_add_u32(old(self).game.score as int, delta),
            final(self).tiles@.len() + removed@.len() == old(self).tiles@.len(),
            values_sum(final(self).tiles@) == values_sum(old(self).tiles@),
            forall|k: int|
                0 <= k < final(self).tiles@.len() ==> exists|t: Tile|
                    old(self).tiles@.contains(t) && (#[trigger] final(self).tiles@[k]).id == t.id
                        && (final(self).tiles@[k].value == t.value || final(self).tiles@[k].value
                        == 2 * t.value),
            forall|k: int|
                0 <= k < removed@.len() ==> exists|t: Tile|
                    old(self).tiles@.contains(t) && #[trigger] removed@[k] == t.id,
            removed@.no_duplicates(),
            final(self).game.score >= old(self).game.score,
            final(self).game.score_best == (if final(self).game.score
                > old(self).game.score_best {
                final(self).game.score as int
            } else {
                old(self).game.score_best as int
            }),
            final(self).game.score_best >= old(self).game.score_best,
            final(self).new_tile_requested == true,
            final(self).board == old(self).board,
            final(self).run_state == old(self).run_state,
    {
        let out = crate::shift::board_shift(&self.board, &self.tiles, direction);
        let ghost witness_input = self.tiles@;
        self.tiles = out.tiles;
        let delta = out.score_delta;
        if self.game.score <= u32::MAX - delta {
            self.game.score = self.game.score + delta;
        } else {
            self.game.score = u32::MAX;
        }
        if self.game.score_best < self.game.score {
            self.game.score_best = self.game.score;
        }
        self.new_tile_requested = true;
        proof {
            let s = choose|s: Seq<Tile>|
                #[trigger] shift_witness(
                    direction,
                    old(self).board.size,
                    witness_input,
                    s,
                    self.tiles@,
                    out.removed@,
                    out.score_delta as int,
                );
            assert(shift_witness(
                direction,
                old(self).board.size,
                old(self).tiles@,
                s,
                self.tiles@,
                out.removed@,
                out.score_delta as int,
            ) && self.game.score == sat_add_u32(
                old(self).game.score as int,
                out.score_delta as int,
            ));
        }
        out.removed
    }

    /// Applies the endgame rule after a shift: a completely full board with
    /// no equal-valued neighboring pair ends the game; any other board
    /// leaves the run state as it was.
    pub fn end_game(&mut self)
        ensures
            final(self).run_state == (if final(self).tiles@.len() == old(self).board.size * old(
                self,
            ).board.size && !crate::endgame::has_adjacent_equal_pair(final(self).tiles@) {
                RunState::GameOver
            } else {
                old(self).run_state
            }),
            final(self).tiles == old(self).tiles,
            final(self).board == old(self).board,
            final(self).game == old(self).game,
            final(self).new_tile_requested == old(self).new_tile_requested,
            old(self).inv() ==> final(self).inv(),
    {
        let verdict = crate::endgame::end_game(&self.board, &self.tiles);
        if verdict == RunState::GameOver {
            self.run_state = RunState::GameOver;
        }
    }
}

} // verus!
