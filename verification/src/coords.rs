//! Mapping between world coordinates, chunk coordinates and local
//! coordinates.
//!
//! A world coordinate `w` lies in the chunk `floor(w / CHUNK_SIZE)`, at the
//! local coordinate `w mod CHUNK_SIZE`; both are taken by flooring, so that
//! negative coordinates continue the grid without a seam.

use vstd::prelude::*;
use crate::cell::CHUNK_SIZE;

verus! {

/// The chunk coordinates whose cells all have world coordinates that fit in
/// an `i64`.
pub open spec fn valid_chunk_coord(c: int) -> bool {
    -0x0800_0000_0000_0000 <= c <= 0x07ff_ffff_ffff_ffff
}

/// Whether `c` is a chunk coordinate of the world.
pub fn is_valid_chunk_coord(c: i64) -> (valid: bool)
    ensures
        valid == valid_chunk_coord(c as int),
{
    -0x0800_0000_0000_0000 <= c && c <= 0x07ff_ffff_ffff_ffff
}

/// The chunk coordinate of a world coordinate: the floor of `w / CHUNK_SIZE`.
pub open spec fn chunk_coord_of(w: int) -> int {
    w / (CHUNK_SIZE as int)
}

/// The local coordinate of a world coordinate: `w` modulo `CHUNK_SIZE`,
/// never negative.
pub open spec fn local_coord_of(w: int) -> int {
    w % (CHUNK_SIZE as int)
}

/// The chunk coordinate of the world coordinate `w`.
pub fn chunk_coord(w: i64) -> (c: i64)
    ensures
        c == chunk_coord_of(w as int),
        valid_chunk_coord(c as int),
{
    if w >= 0 {
        w / 16
    } else {
        (w + 1) / 16 - 1
    }
}

/// The local coordinate of the world coordinate `w`.
pub fn local_coord(w: i64) -> (l: u8)
    ensures
        l == local_coord_of(w as int),
        l < CHUNK_SIZE,
{
    let c: i64 = chunk_coord(w);
    (w - c * 16) as u8
}

/// A world coordinate is its chunk's first coordinate plus its local
/// coordinate, and no other chunk and local coordinate give it.
pub proof fn lemma_coords_round_trip(w: int, c: int, l: int)
    requires
        0 <= l < CHUNK_SIZE,
    ensures
        w == chunk_coord_of(w) * CHUNK_SIZE + local_coord_of(w),
        0 <= local_coord_of(w) < CHUNK_SIZE,
        w == c * CHUNK_SIZE + l ==> c == chunk_coord_of(w) && l == local_coord_of(w),
{
}

} // verus!
