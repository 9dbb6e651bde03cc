//! Cells: the smallest addressable unit of world data.

use vstd::prelude::*;

verus! {

/// Width and height of a chunk, in cells.
pub const CHUNK_SIZE: i64 = 16;

/// What a cell is made of. Only `Block` is solid.
#[derive(Clone, Copy, Debug, PartialEq, Eq, Structural)]
pub enum Material {
    Air,
    Block,
}

/// Display colour of a cell, eight bits per channel.
#[derive(Clone, Copy, Debug, PartialEq, Eq, Structural)]
pub struct Color {
    pub r: u8,
    pub g: u8,
    pub b: u8,
    pub a: u8,
}

/// One cell of a chunk: its position inside the chunk, its material and its
/// colour.
#[derive(Clone, Copy, Debug, PartialEq, Eq, Structural)]
pub struct Cell {
    pub x: u8,
    pub y: u8,
    pub material: Material,
    pub color: Color,
}

impl Cell {
    /// The cell lies inside a chunk: both local coordinates are below
    /// `CHUNK_SIZE`.
    pub open spec fn in_bounds(self) -> bool {
        self.x < CHUNK_SIZE && self.y < CHUNK_SIZE
    }

    /// The two cells agree on everything but their position.
    pub open spec fn same_content(self, other: Cell) -> bool {
        self.material == other.material && self.color == other.color
    }

    /// This cell's material and colour, placed at local position `(x, y)`.
    pub open spec fn placed_at(self, x: int, y: int) -> Cell {
        Cell { x: x as u8, y: y as u8, material: self.material, color: self.color }
    }

    pub fn new(x: u8, y: u8, material: Material, color: Color) -> (cell: Cell)
        ensures
            cell == (Cell { x, y, material, color }),
    {
        Cell { x, y, material, color }
    }

    /// Whether the cell blocks movement.
    pub fn is_solid(&self) -> (solid: bool)
        ensures
            solid == (self.material == Material::Block),
    {
        match self.material {
            Material::Block => true,
            Material::Air => false,
        }
    }
}

} // verus!
