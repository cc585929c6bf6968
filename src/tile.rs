use vstd::prelude::*;

verus! {

/// A tile: the sheet it is drawn from and its index in that sheet.
#[derive(Copy, Clone, Debug, PartialEq, Eq, Structural)]
pub struct Tile {
    pub sheet: u16,
    pub index: u16,
}

impl Tile {
    /// Create a new [`Tile`] from raw sheet and index info.
    pub fn new(sheet: u16, index: u16) -> (r: Self)
        ensures
            r.sheet == sheet,
            r.index == index,
    {
        Tile { sheet, index }
    }
}

/// Integer coordinate of a chunk in the three-dimensional world grid.
#[derive(Copy, Clone, Debug, Hash, PartialEq, Eq, Structural)]
pub struct ChunkCoord {
    pub x: i32,
    pub y: i32,
    pub z: i32,
}

impl ChunkCoord {
    pub fn new(x: i32, y: i32, z: i32) -> (r: Self)
        ensures
            r.x == x,
            r.y == y,
            r.z == z,
    {
        ChunkCoord { x, y, z }
    }
}

/// The address of one tile: a chunk and one of its 256 slots.
#[derive(Copy, Clone, Debug, Hash, PartialEq, Eq, Structural)]
pub struct TileCoord {
    pub index: u8,
    pub chunk: ChunkCoord,
}

impl TileCoord {
    /// Create a new [`TileCoord`] from raw chunk and slot info.
    pub fn new(chunk: ChunkCoord, index: u8) -> (r: Self)
        ensures
            r.chunk == chunk,
            r.index == index,
    {
        TileCoord { chunk, index }
    }
}

} // verus!
