use vstd::prelude::*;

verus! {

/// A cell coordinate on the board. `x` counts columns, `y` counts rows;
/// a well-formed position has both in `[0, size)` for the board's size.
#[derive(Clone, Copy, PartialEq, Eq, Structural, Hash, Debug)]
pub struct Position {
    pub x: u8,
    pub y: u8,
}

/// The point count a board piece carries.
#[derive(Clone, Copy, PartialEq, Eq, Structural, Debug)]
pub struct Block {
    pub value: u32,
}

/// Marker for the text label attached to a block.
#[derive(Clone, Copy, PartialEq, Eq, Structural, Debug)]
pub struct BlockText;

/// One tile on the board: a stable identity, the cell it occupies, and its
/// value. Values start at 2 and double on every merge, so a well-formed
/// tile's value is a power of two that is at least 2.
#[derive(Clone, Copy, PartialEq, Eq, Structural, Debug)]
pub struct Tile {
    pub id: u64,
    pub pos: Position,
    pub value: u32,
}

/// Score bookkeeping for one session. `score` accumulates the value of
/// every merge result and resets to 0 on a game reset; `score_best` never
/// decreases.
#[derive(Clone, Copy, PartialEq, Eq, Structural, Debug)]
pub struct Game {
    pub score: u32,
    pub score_best: u32,
}

impl Default for Game {
    fn default() -> (g: Game)
        ensures
            g.score == 0,
            g.score_best == 0,
    {
        Game { score: 0, score_best: 0 }
    }
}

/// Whether the session is still playable or has reached a state with no
/// legal move left.
#[derive(Clone, Copy, PartialEq, Eq, Structural, Debug)]
pub enum RunState {
    Playing,
    GameOver,
}

impl Default for RunState {
    fn default() -> (s: RunState)
        ensures
            s == RunState::Playing,
    {
        RunState::Playing
    }
}

/// True when `v` is a power of two; tile values are powers of two >= 2.
pub open spec fn is_pow2(v: int) -> bool
    decreases v,
{
    if v <= 0 {
        false
    } else if v == 1 {
        true
    } else {
        v % 2 == 0 && is_pow2(v / 2)
    }
}

/// Cap on the sum of all tile values held at once. Keeping the sum below
/// it guarantees that no merge or score sum can overflow a `u32`; merges
/// conserve the sum, so only spawning a tile has to check it.
pub const VALUE_SUM_CAP: u32 = 0x8000_0000;

/// Every tile of `s` lies on a board of side `size`.
pub open spec fn positions_in_range(s: Seq<Tile>, size: u8) -> bool {
    forall|i: int|
        0 <= i < s.len() ==> (#[trigger] s[i]).pos.x < size && s[i].pos.y < size
}

/// No two tiles of `s` occupy the same cell.
pub open spec fn positions_distinct(s: Seq<Tile>) -> bool {
    forall|i: int, j: int|
        0 <= i < j < s.len() ==> (#[trigger] s[i]).pos != (#[trigger] s[j]).pos
}

/// No two tiles of `s` share an identity.
pub open spec fn ids_distinct(s: Seq<Tile>) -> bool {
    forall|i: int, j: int|
        0 <= i < j < s.len() ==> (#[trigger] s[i]).id != (#[trigger] s[j]).id
}

/// Every tile value of `s` is a power of two that is at least 2.
pub open spec fn values_pow2(s: Seq<Tile>) -> bool {
    forall|i: int|
        0 <= i < s.len() ==> is_pow2((#[trigger] s[i]).value as int) && s[i].value >= 2
}

/// Sum of the values of all tiles of `s`.
pub open spec fn values_sum(s: Seq<Tile>) -> int
    decreases s.len(),
{
    if s.len() == 0 {
        0
    } else {
        s[0].value + values_sum(s.skip(1))
    }
}

/// The value sum distributes over concatenation.
pub proof fn lemma_values_sum_add(a: Seq<Tile>, b: Seq<Tile>)
    ensures
        values_sum(a + b) == values_sum(a) + values_sum(b),
    decreases a.len(),
{
    if a.len() == 0 {
        assert(a + b =~= b);
    } else {
        assert((a + b).skip(1) =~= a.skip(1) + b);
        lemma_values_sum_add(a.skip(1), b);
    }
}

/// The value sum of a sequence of tiles is never negative.
pub proof fn lemma_values_sum_nonneg(s: Seq<Tile>)
    ensures
        values_sum(s) >= 0,
    decreases s.len(),
{
    if s.len() > 0 {
        lemma_values_sum_nonneg(s.skip(1));
    }
}

/// The value sum of a single tile is its value.
pub proof fn lemma_values_sum_singleton(t: Tile)
    ensures
        values_sum(seq![t]) == t.value,
{
    assert(seq![t].skip(1) =~= Seq::<Tile>::empty());
    assert(values_sum(Seq::<Tile>::empty()) == 0);
}

/// The value sum of a pair of tiles is the sum of their values.
pub proof fn lemma_values_sum_pair(a: Tile, b: Tile)
    ensures
        values_sum(seq![a, b]) == a.value + b.value,
{
    assert(seq![a, b].skip(1) =~= seq![b]);
    lemma_values_sum_singleton(b);
}

/// Removing the tile at index `i` lowers the value sum by that tile's value.
pub proof fn lemma_values_sum_remove(s: Seq<Tile>, i: int)
    requires
        0 <= i < s.len(),
    ensures
        values_sum(s.remove(i)) == values_sum(s) - s[i].value,
    decreases s.len(),
{
    assert(s =~= s.subrange(0, i) + seq![s[i]] + s.subrange(i + 1, s.len() as int));
    assert(s.remove(i) =~= s.subrange(0, i) + s.subrange(i + 1, s.len() as int));
    lemma_values_sum_add(s.subrange(0, i) + seq![s[i]], s.subrange(i + 1, s.len() as int));
    lemma_values_sum_add(s.subrange(0, i), seq![s[i]]);
    lemma_values_sum_add(s.subrange(0, i), s.subrange(i + 1, s.len() as int));
    assert(values_sum(seq![s[i]]) == s[i].value) by {
        assert(seq![s[i]].skip(1) =~= Seq::<Tile>::empty());
        assert(values_sum(Seq::<Tile>::empty()) == 0);
    }
}

/// A tile that occurs at two indices occurs at least twice in the multiset.
proof fn lemma_two_indices_count(s: Seq<Tile>, i: int, j: int)
    requires
        0 <= i < j < s.len(),
        s[i] == s[j],
    ensures
        s.to_multiset().count(s[i]) >= 2,
{
    s.to_multiset_ensures();
    let x = s[i];
    let r = s.remove(i);
    s.remove_ensures(i);
    assert(r[j - 1] == x);
    assert(r.contains(x));
    r.to_multiset_ensures();
    assert(r.to_multiset() =~= s.to_multiset().remove(x));
    assert(r.to_multiset().count(x) >= 1);
}

/// A tile that occurs at least twice in the multiset occurs at two indices.
proof fn lemma_count_two_indices(s: Seq<Tile>, x: Tile) -> (r: (int, int))
    requires
        s.to_multiset().count(x) >= 2,
    ensures
        0 <= r.0 < r.1 < s.len(),
        s[r.0] == x,
        s[r.1] == x,
{
    s.to_multiset_ensures();
    assert(s.contains(x));
    let i = choose|i: int| 0 <= i < s.len() && s[i] == x;
    let rem = s.remove(i);
    s.remove_ensures(i);
    rem.to_multiset_ensures();
    assert(rem.to_multiset() =~= s.to_multiset().remove(x));
    assert(rem.to_multiset().count(x) >= 1);
    assert(rem.contains(x));
    let j = choose|j: int| 0 <= j < rem.len() && rem[j] == x;
    if j < i {
        (j, i)
    } else {
        assert(s[j + 1] == rem[j]);
        (i, j + 1)
    }
}

/// A permutation keeps every per-tile property and every pairwise
/// distinctness property of a tile sequence.
pub proof fn lemma_permutation_preserves_tile_wf(a: Seq<Tile>, b: Seq<Tile>, size: u8)
    requires
        a.to_multiset() == b.to_multiset(),
    ensures
        positions_in_range(a, size) ==> positions_in_range(b, size),
        positions_distinct(a) ==> positions_distinct(b),
        ids_distinct(a) ==> ids_distinct(b),
        values_pow2(a) ==> values_pow2(b),
{
    a.to_multiset_ensures();
    b.to_multiset_ensures();
    assert(forall|i: int| 0 <= i < b.len() ==> a.contains(#[trigger] b[i])) by {
        assert(forall|i: int|
            0 <= i < b.len() ==> b.to_multiset().count(#[trigger] b[i]) > 0);
    }
    if positions_distinct(a) {
        assert forall|i: int, j: int|
            0 <= i < j < b.len() implies (#[trigger] b[i]).pos != (#[trigger] b[j]).pos by {
            if b[i].pos == b[j].pos {
                if b[i] == b[j] {
                    lemma_two_indices_count(b, i, j);
                    let (p, q) = lemma_count_two_indices(a, b[i]);
                    assert(a[p].pos == a[q].pos);
                } else {
                    let p = choose|p: int| 0 <= p < a.len() && a[p] == b[i];
                    let q = choose|q: int| 0 <= q < a.len() && a[q] == b[j];
                    assert(a[p].pos == a[q].pos && p != q);
                    if p < q {
                        assert(a[p].pos != a[q].pos);
                    } else {
                        assert(a[q].pos != a[p].pos);
                    }
                }
            }
        }
    }
    if ids_distinct(a) {
        assert forall|i: int, j: int|
            0 <= i < j < b.len() implies (#[trigger] b[i]).id != (#[trigger] b[j]).id by {
            if b[i].id == b[j].id {
                if b[i] == b[j] {
                    lemma_two_indices_count(b, i, j);
                    let (p, q) = lemma_count_two_indices(a, b[i]);
                    assert(a[p].id == a[q].id);
                } else {
                    let p = choose|p: int| 0 <= p < a.len() && a[p] == b[i];
                    let q = choose|q: int| 0 <= q < a.len() && a[q] == b[j];
                    assert(a[p].id == a[q].id && p != q);
                    if p < q {
                        assert(a[p].id != a[q].id);
                    } else {
                        assert(a[q].id != a[p].id);
                    }
                }
            }
        }
    }
}

/// Two sequences holding the same tiles (as a multiset) have the same value
/// sum.
pub proof fn lemma_values_sum_permutation(a: Seq<Tile>, b: Seq<Tile>)
    requires
        a.to_multiset() == b.to_multiset(),
    ensures
        values_sum(a) == values_sum(b),
    decreases a.len(),
{
    a.to_multiset_ensures();
    b.to_multiset_ensures();
    if a.len() == 0 {
        assert(b.len() == 0);
    } else {
        let x = a[0];
        assert(a.to_multiset().count(x) > 0);
        assert(b.contains(x));
        let j = choose|j: int| 0 <= j < b.len() && b[j] == x;
        assert(a.remove(0).to_multiset() =~= a.to_multiset().remove(x));
        assert(b.remove(j).to_multiset() =~= b.to_multiset().remove(x));
        lemma_values_sum_permutation(a.remove(0), b.remove(j));
        lemma_values_sum_remove(a, 0);
        lemma_values_sum_remove(b, j);
    }
}

} // verus!
