use vstd::prelude::*;

use itertools::Itertools;

use crate::components::Position;

verus! {

/// Side length of one tile in physical units.
pub const TILE_SIZE: u32 = 40;

/// Gap between tiles (and between the outermost tiles and the board edge)
/// in physical units.
pub const TILE_SPACER: u32 = 10;

/// The fixed grid: `size` cells along each axis. Immutable for the whole
/// session.
#[derive(Clone, Copy, PartialEq, Eq, Structural, Debug)]
pub struct Board {
    pub size: u8,
}

/// Physical edge length of a board of `size` cells: the tiles plus a spacer
/// between each pair and one on each edge.
pub open spec fn physical_size_of(size: u8) -> int {
    size * TILE_SIZE + (size + 1) * TILE_SPACER
}

/// Physical offset of the center of cell index `pos`, with the whole board
/// centered on the origin.
pub open spec fn cell_physical(size: u8, pos: u8) -> int {
    -(physical_size_of(size) / 2) + TILE_SIZE / 2 + pos * TILE_SIZE + (pos + 1) * TILE_SPACER
}

/// True when `c` lies on a board of side `size`.
pub open spec fn cell_in_range(size: u8, c: (u8, u8)) -> bool {
    c.0 < size && c.1 < size
}

/// Relies on itertools' `cartesian_product`: `(0..size)` paired with
/// `(0..size)` yields every coordinate pair exactly once, each in range.
#[verifier::external_body]
fn product_cells(size: u8) -> (r: Vec<(u8, u8)>)
    ensures
        r@.len() == size as int * size as int,
        forall|i: int| 0 <= i < r@.len() ==> cell_in_range(size, #[trigger] r@[i]),
        forall|x: u8, y: u8| x < size && y < size ==> r@.contains((x, y)),
        r@.no_duplicates(),
{
    (0..size).cartesian_product(0..size).collect()
}

impl Board {
    /// A fresh board of `size` x `size` cells.
    pub fn new(size: u8) -> (b: Board)
        requires
            size > 0,
        ensures
            b.size == size,
    {
        Board { size }
    }

    /// Physical edge length of this board.
    pub fn physical_size(&self) -> (r: u32)
        ensures
            r == physical_size_of(self.size),
    {
        (self.size as u32) * TILE_SIZE + (self.size as u32 + 1) * TILE_SPACER
    }

    /// Maps a cell index to the physical offset of its center, with the
    /// board centered on the origin.
    pub fn cell_position_to_physical(&self, pos: u8) -> (r: i32)
        requires
            pos < self.size,
        ensures
            r == cell_physical(self.size, pos),
    {
        let ps = self.physical_size() as i32;
        assert(0 <= ps / 2 <= ps);
        let offset = -(ps / 2) + (TILE_SIZE as i32) / 2;
        assert(0 <= (pos as i32) * (TILE_SIZE as i32) <= 255 * 40) by (nonlinear_arith)
            requires
                pos < 256,
        ;
        assert(0 <= (pos as i32 + 1) * (TILE_SPACER as i32) <= 256 * 10) by (nonlinear_arith)
            requires
                pos < 256,
        ;
        offset + (pos as i32) * (TILE_SIZE as i32) + (pos as i32 + 1) * (TILE_SPACER as i32)
    }

    /// Every cell of the board, each exactly once. Consumers must not rely
    /// on the order of enumeration.
    pub fn tiles(&self) -> (r: Vec<(u8, u8)>)
        ensures
            r@.len() == self.size as int * self.size as int,
            forall|i: int| 0 <= i < r@.len() ==> cell_in_range(self.size, #[trigger] r@[i]),
            forall|x: u8, y: u8| x < self.size && y < self.size ==> r@.contains((x, y)),
            r@.no_duplicates(),
    {
        product_cells(self.size)
    }
}

} // verus!
