//! The world: a sparse, lazily populated grid of chunks.
//!
//! Chunks are kept in rows, one row per chunk row of the world, and a chunk is
//! looked up by two binary searches: for its row by the row's world y
//! coordinate, then inside the row by the chunk's world x coordinate. A chunk
//! that is missing is generated and appended, which may leave the rows out of
//! order; `sort_chunks` puts them back in order. Only a sorted world promises
//! that a chunk that it holds is found again.

use vstd::prelude::*;
use vstd::multiset::Multiset;
use crate::cell::{Cell, CHUNK_SIZE};
use crate::chunk::Chunk;
use crate::coords::{chunk_coord, chunk_coord_of, local_coord, local_coord_of, valid_chunk_coord};
use crate::noise::{is_total, NoiseQuery};
use crate::sorting::{keys_distinct, sort_by_keys};
use crate::terrain::sampled_cell;

verus! {

/// The key of a row: the world y coordinate of its first chunk.
pub open spec fn row_key(row: Seq<Chunk>) -> int {
    row[0].origin().1
}

/// `slot` names a chunk of `rows`: a row and a place in it.
pub open spec fn in_slots(rows: Seq<Seq<Chunk>>, slot: (int, int)) -> bool {
    0 <= slot.0 < rows.len() && 0 <= slot.1 < rows[slot.0].len()
}

/// No row is empty, every chunk is well formed and complete, and the chunks
/// of a row lie at the same world y coordinate.
pub open spec fn rows_wf(rows: Seq<Seq<Chunk>>) -> bool {
    &&& forall|r: int| 0 <= r < rows.len() ==> (#[trigger] rows[r]).len() > 0
    &&& forall|r: int, c: int|
        0 <= r < rows.len() && 0 <= c < rows[r].len() ==> {
            &&& (#[trigger] rows[r][c]).wf()
            &&& rows[r][c].is_complete()
            &&& rows[r][c].origin().1 == row_key(rows[r])
        }
}

/// The chunks of the row ascend by their world x coordinate, repetitions
/// allowed.
pub open spec fn row_ordered(row: Seq<Chunk>) -> bool {
    forall|a: int, b: int| 0 <= a < b < row.len() ==> row[a].origin().0 <= row[b].origin().0
}

/// No two chunks of the row lie at the same world x coordinate.
pub open spec fn row_distinct(row: Seq<Chunk>) -> bool {
    forall|a: int, b: int|
        0 <= a < row.len() && 0 <= b < row.len() && a != b ==> row[a].origin().0
            != row[b].origin().0
}

/// The rows ascend by their key and the chunks of each row by their world x
/// coordinate, repetitions allowed.
pub open spec fn rows_ordered(rows: Seq<Seq<Chunk>>) -> bool {
    &&& forall|a: int, b: int| 0 <= a < b < rows.len() ==> row_key(rows[a]) <= row_key(rows[b])
    &&& forall|r: int| 0 <= r < rows.len() ==> row_ordered(#[trigger] rows[r])
}

/// No two rows have the same key, and no two chunks of a row the same world x
/// coordinate.
pub open spec fn rows_distinct(rows: Seq<Seq<Chunk>>) -> bool {
    &&& forall|a: int, b: int|
        0 <= a < rows.len() && 0 <= b < rows.len() && a != b ==> row_key(rows[a]) != row_key(
            rows[b],
        )
    &&& forall|r: int| 0 <= r < rows.len() ==> row_distinct(#[trigger] rows[r])
}

/// Some chunk of `rows` has its cell `(0, 0)` at world position `(ox, oy)`.
pub open spec fn rows_have(rows: Seq<Seq<Chunk>>, ox: int, oy: int) -> bool {
    exists|r: int, c: int|
        0 <= r < rows.len() && 0 <= c < rows[r].len() && (#[trigger] rows[r][c]).origin() == (
            ox,
            oy,
        )
}

/// What a binary search for `key` meets among `keys[lo..hi]`: it looks at
/// the middle key, ends there if that is `key`, and goes on above it if
/// that is less than `key`, below it if that is greater.
pub open spec fn search_of(keys: Seq<int>, key: int, lo: int, hi: int) -> Option<int>
    decreases hi - lo,
{
    if lo >= hi {
        None
    } else {
        let mid = lo + (hi - lo) / 2;
        if keys[mid] == key {
            Some(mid)
        } else if keys[mid] < key {
            search_of(keys, key, mid + 1, hi)
        } else {
            search_of(keys, key, lo, mid)
        }
    }
}

/// The keys of the rows, in order.
pub open spec fn row_keys(rows: Seq<Seq<Chunk>>) -> Seq<int> {
    Seq::new(rows.len(), |r: int| row_key(rows[r]))
}

/// The world x coordinates of the chunks of a row, in order.
pub open spec fn chunk_xs(row: Seq<Chunk>) -> Seq<int> {
    Seq::new(row.len(), |c: int| row[c].origin().0)
}

/// The row that the search for a row of key `oy` meets.
pub open spec fn found_row(rows: Seq<Seq<Chunk>>, oy: int) -> Option<int> {
    search_of(row_keys(rows), oy, 0, rows.len() as int)
}

/// The slot that the search for the chunk at world position `(ox, oy)`
/// meets: the row by its key, then the chunk in that row.
pub open spec fn found_slot(rows: Seq<Seq<Chunk>>, ox: int, oy: int) -> Option<(int, int)> {
    match found_row(rows, oy) {
        Some(r) => match search_of(chunk_xs(rows[r]), ox, 0, rows[r].len() as int) {
            Some(c) => Some((r, c)),
            None => None,
        },
        None => None,
    }
}

/// What a binary search meets holds the key that was looked for.
pub proof fn lemma_search_sound(keys: Seq<int>, key: int, lo: int, hi: int)
    requires
        0 <= lo <= hi <= keys.len(),
    ensures
        match search_of(keys, key, lo, hi) {
            Some(i) => lo <= i < hi && keys[i] == key,
            None => true,
        },
    decreases hi - lo,
{
    if lo < hi {
        let mid = lo + (hi - lo) / 2;
        if keys[mid] == key {
        } else if keys[mid] < key {
            lemma_search_sound(keys, key, mid + 1, hi);
        } else {
            lemma_search_sound(keys, key, lo, mid);
        }
    }
}

/// Among ascending keys, a binary search meets every key that is there.
pub proof fn lemma_search_complete(keys: Seq<int>, key: int, lo: int, hi: int, at: int)
    requires
        0 <= lo <= at < hi <= keys.len(),
        forall|a: int, b: int| 0 <= a < b < keys.len() ==> keys[a] <= keys[b],
        keys[at] == key,
    ensures
        search_of(keys, key, lo, hi) is Some,
    decreases hi - lo,
{
    let mid = lo + (hi - lo) / 2;
    if keys[mid] == key {
    } else if keys[mid] < key {
        lemma_search_complete(keys, key, mid + 1, hi, at);
    } else {
        lemma_search_complete(keys, key, lo, mid, at);
    }
}

spec fn rows_of(chunks: Seq<Vec<Chunk>>) -> Seq<Seq<Chunk>> {
    Seq::new(chunks.len(), |r: int| chunks[r]@)
}

/// In ordered and distinct rows, a world position names at most one chunk.
proof fn lemma_slot_unique(rows: Seq<Seq<Chunk>>, first: (int, int), second: (int, int))
    requires
        rows_wf(rows),
        rows_distinct(rows),
        in_slots(rows, first),
        in_slots(rows, second),
        rows[first.0][first.1].origin() == rows[second.0][second.1].origin(),
    ensures
        first == second,
{
    assert(rows[first.0][first.1].origin().1 == row_key(rows[first.0]));
    assert(rows[second.0][second.1].origin().1 == row_key(rows[second.0]));
    assert(first.0 == second.0);
    assert(row_distinct(rows[first.0]));
}

/// Binary search for the row with the given key: the index of the row that
/// the search meets, or an error where it meets none.
fn find_row(chunks: &Vec<Vec<Chunk>>, key: i64) -> (r: Result<usize, usize>)
    requires
        forall|k: int| 0 <= k < chunks.len() ==> (#[trigger] chunks@[k])@.len() > 0,
    ensures
        match r {
            Ok(i) => i < chunks.len() && row_key(chunks@[i as int]@) == key && found_row(
                rows_of(chunks@),
                key as int,
            ) == Some(i as int),
            Err(_) => found_row(rows_of(chunks@), key as int) is None,
        },
{
    let ghost keys = row_keys(rows_of(chunks@));
    let mut lo: usize = 0;
    let mut hi: usize = chunks.len();
    while lo < hi
        invariant
            lo <= hi <= chunks.len(),
            keys == row_keys(rows_of(chunks@)),
            search_of(keys, key as int, lo as int, hi as int) == found_row(
                rows_of(chunks@),
                key as int,
            ),
            forall|k: int| 0 <= k < chunks.len() ==> (#[trigger] chunks@[k])@.len() > 0,
        decreases hi - lo,
    {
        let mid: usize = lo + (hi - lo) / 2;
        let found: i64 = chunks[mid][0].y();
        assert(keys[mid as int] == found);
        if found == key {
            return Ok(mid);
        } else if found < key {
            lo = mid + 1;
        } else {
            hi = mid;
        }
    }
    Err(lo)
}

/// Binary search in a row for the chunk at world x coordinate `key`: the
/// index of the chunk that the search meets, or an error where it meets
/// none.
fn find_chunk(row: &Vec<Chunk>, key: i64) -> (r: Result<usize, usize>)
    ensures
        match r {
            Ok(i) => i < row.len() && row@[i as int].origin().0 == key && search_of(
                chunk_xs(row@),
                key as int,
                0,
                row@.len() as int,
            ) == Some(i as int),
            Err(_) => search_of(chunk_xs(row@), key as int, 0, row@.len() as int) is None,
        },
{
    let ghost xs = chunk_xs(row@);
    let mut lo: usize = 0;
    let mut hi: usize = row.len();
    while lo < hi
        invariant
            lo <= hi <= row.len(),
            xs == chunk_xs(row@),
            search_of(xs, key as int, lo as int, hi as int) == search_of(
                xs,
                key as int,
                0,
                row@.len() as int,
            ),
        decreases hi - lo,
    {
        let mid: usize = lo + (hi - lo) / 2;
        let found: i64 = row[mid].x();
        assert(xs[mid as int] == found);
        if found == key {
            return Ok(mid);
        } else if found < key {
            lo = mid + 1;
        } else {
            hi = mid;
        }
    }
    Err(lo)
}

/// In ordered rows, a search that meets no row of the key shows that there
/// is none.
proof fn lemma_row_absent(rows: Seq<Seq<Chunk>>, key: int)
    requires
        rows_ordered(rows),
        found_row(rows, key) is None,
    ensures
        forall|k: int| 0 <= k < rows.len() ==> row_key(#[trigger] rows[k]) != key,
{
    let keys = row_keys(rows);
    assert forall|k: int| 0 <= k < rows.len() implies row_key(#[trigger] rows[k]) != key by {
        if row_key(rows[k]) == key {
            assert forall|a: int, b: int| 0 <= a < b < keys.len() implies keys[a] <= keys[b] by {
                assert(row_key(rows[a]) <= row_key(rows[b]));
            }
            lemma_search_complete(keys, key, 0, rows.len() as int, k);
        }
    }
}

/// In an ordered row, a search that meets no chunk at the coordinate shows
/// that there is none.
proof fn lemma_chunk_absent(row: Seq<Chunk>, key: int)
    requires
        row_ordered(row),
        search_of(chunk_xs(row), key, 0, row.len() as int) is None,
    ensures
        forall|k: int| 0 <= k < row.len() ==> (#[trigger] row[k]).origin().0 != key,
{
    let xs = chunk_xs(row);
    assert forall|k: int| 0 <= k < row.len() implies (#[trigger] row[k]).origin().0 != key by {
        if row[k].origin().0 == key {
            assert forall|a: int, b: int| 0 <= a < b < xs.len() implies xs[a] <= xs[b] by {
                assert(row[a].origin().0 <= row[b].origin().0);
            }
            lemma_search_complete(xs, key, 0, row.len() as int, k);
        }
    }
}

/// Draws a seed with `rand::random`, from the random number generator of
/// the thread. Nothing is claimed of the value.
#[verifier::external_body]
fn draw_seed() -> (seed: u64) {
    rand::random::<u64>()
}

/// The sparse grid of chunks, with the seed that its terrain is generated
/// from.
#[derive(Debug)]
pub struct World {
    chunks: Vec<Vec<Chunk>>,
    seed: u64,
    modified: bool,
}

impl World {
    /// The rows of the world, each as the sequence of its chunks.
    pub closed spec fn rows(&self) -> Seq<Seq<Chunk>> {
        rows_of(self.chunks@)
    }

    /// The seed of the world's terrain.
    pub closed spec fn seed_value(&self) -> u64 {
        self.seed
    }

    /// Whether a chunk was appended since the rows were last sorted.
    pub closed spec fn dirty(&self) -> bool {
        self.modified
    }

    /// The invariant of the world: no row is empty, every chunk is well
    /// formed and complete, and the chunks of a row share the row's key.
    pub open spec fn wf(&self) -> bool {
        rows_wf(self.rows())
    }

    /// The rows and the chunks of each row ascend strictly: every lookup by
    /// binary search is reliable.
    pub open spec fn is_sorted(&self) -> bool {
        rows_ordered(self.rows()) && rows_distinct(self.rows())
    }

    /// The world holds the chunk at chunk coordinate `(x, y)`.
    pub open spec fn has_chunk(&self, x: int, y: int) -> bool {
        rows_have(self.rows(), x * CHUNK_SIZE, y * CHUNK_SIZE)
    }

    /// The chunk in the given slot.
    pub open spec fn chunk_in(&self, slot: (int, int)) -> Chunk {
        self.rows()[slot.0][slot.1]
    }

    /// What fetching the chunk at chunk coordinate `(x, y)` makes of this
    /// world: `post` holds that chunk in `slot`. Where the search meets the
    /// chunk, `slot` is where it met it and nothing changes. Otherwise a
    /// chunk is appended, at the end of the row that the search met or else
    /// in a new last row, and `post` is marked as modified; the chunk is
    /// generated from `noise` with the seed of the world. A sorted world
    /// that holds the chunk does not change, and a sorted world never comes
    /// to hold two chunks at one place.
    pub open spec fn fetched<F: Fn(NoiseQuery) -> i32>(
        &self,
        post: World,
        x: int,
        y: int,
        slot: (int, int),
        noise: &F,
    ) -> bool {
        &&& post.wf()
        &&& post.seed_value() == self.seed_value()
        &&& in_slots(post.rows(), slot)
        &&& post.chunk_in(slot).origin() == (x * CHUNK_SIZE, y * CHUNK_SIZE)
        &&& match found_slot(self.rows(), x * CHUNK_SIZE, y * CHUNK_SIZE) {
            Some(met) => slot == met && post.rows() == self.rows() && post.dirty() == self.dirty(),
            None => self.appended(post, slot) && slot.0 == (match found_row(
                self.rows(),
                y * CHUNK_SIZE,
            ) {
                Some(r) => r,
                None => self.rows().len() as int,
            }) && post.chunk_in(slot).generated_from(noise, post.seed_value()),
        }
        &&& self.is_sorted() && self.has_chunk(x, y) ==> post.rows() == self.rows()
        &&& self.is_sorted() ==> rows_distinct(post.rows())
    }

    /// `post` is this world with one chunk more, in `slot`: in a new last
    /// row, or at the end of an existing row.
    pub open spec fn appended(&self, post: World, slot: (int, int)) -> bool {
        &&& post.dirty()
        &&& in_slots(post.rows(), slot)
        &&& {
            ||| slot.0 == self.rows().len() && post.rows() == self.rows().push(
                seq![post.chunk_in(slot)],
            )
            ||| slot.0 < self.rows().len() && slot.1 == self.rows()[slot.0].len() && post.rows()
                == self.rows().update(slot.0, self.rows()[slot.0].push(post.chunk_in(slot)))
        }
    }

    /// What writing `cell` at local position `(lx, ly)` of the chunk in
    /// `slot` makes of this world: that chunk's grid maps the position to the
    /// cell, placed there, and nothing else changes.
    pub open spec fn written(&self, post: World, slot: (int, int), lx: int, ly: int, cell: Cell) -> bool {
        &&& post.wf()
        &&& post.seed_value() == self.seed_value()
        &&& post.dirty() == self.dirty()
        &&& in_slots(self.rows(), slot)
        &&& post.rows() == self.rows().update(
            slot.0,
            self.rows()[slot.0].update(slot.1, post.chunk_in(slot)),
        )
        &&& post.chunk_in(slot).origin() == self.chunk_in(slot).origin()
        &&& post.chunk_in(slot).grid() == self.chunk_in(slot).grid().insert(
            (lx, ly),
            cell.placed_at(lx, ly),
        )
    }

    /// What `sort_chunks` makes of this world: `post` holds the same chunks
    /// in the same rows, the rows in ascending order of their key and the
    /// chunks of each row in ascending order of their world x coordinate,
    /// and is not marked as modified. Where no two rows had one key and no
    /// two chunks of a row one place, `post` is sorted.
    pub open spec fn resorted(&self, post: World) -> bool {
        &&& post.wf()
        &&& post.seed_value() == self.seed_value()
        &&& !post.dirty()
        &&& rows_ordered(post.rows())
        &&& rows_distinct(self.rows()) ==> post.is_sorted()
        &&& post.rows().len() == self.rows().len()
        &&& row_bags(post.rows()) == row_bags(self.rows())
        &&& forall|chunk: Chunk| rows_hold(post.rows(), chunk) <==> rows_hold(self.rows(), chunk)
    }

    /// What `get_chunk` at chunk coordinate `(x, y)` makes of this world and
    /// returns: the chunk is fetched, and `chunk` is the one in its slot.
    pub open spec fn chunk_fetched<F: Fn(NoiseQuery) -> i32>(
        &self,
        post: World,
        x: int,
        y: int,
        chunk: Chunk,
        noise: &F,
    ) -> bool {
        exists|slot: (int, int)| #[trigger]
            self.fetched(post, x, y, slot, noise) && chunk == post.chunk_in(slot)
    }

    /// What `get_cell` at world position `(x, y)` makes of this world and
    /// returns: the chunk of the position is fetched, and `got` is its cell
    /// at the local position.
    pub open spec fn cell_read<F: Fn(NoiseQuery) -> i32>(
        &self,
        post: World,
        x: int,
        y: int,
        got: Cell,
        noise: &F,
    ) -> bool {
        exists|slot: (int, int)| #[trigger]
            self.fetched(post, chunk_coord_of(x), chunk_coord_of(y), slot, noise) && got
                == post.chunk_in(slot).cell(local_coord_of(x), local_coord_of(y))
    }

    /// What `set_cell` at world position `(x, y)` makes of this world: the
    /// chunk of the position is fetched, and `cell` is written at the local
    /// position.
    pub open spec fn cell_written<F: Fn(NoiseQuery) -> i32>(
        &self,
        post: World,
        x: int,
        y: int,
        cell: Cell,
        noise: &F,
    ) -> bool {
        exists|mid: World, slot: (int, int)| #[trigger]
            self.fetched(mid, chunk_coord_of(x), chunk_coord_of(y), slot, noise) && mid.written(
                post,
                slot,
                local_coord_of(x),
                local_coord_of(y),
                cell,
            )
    }

    /// An empty world whose seed is drawn at random.
    pub fn new() -> (world: World)
        ensures
            world.wf(),
            world.rows().len() == 0,
            !world.dirty(),
            world.is_sorted(),
    {
        World::with_seed(draw_seed())
    }

    /// An empty world with the given seed.
    pub fn with_seed(seed: u64) -> (world: World)
        ensures
            world.wf(),
            world.rows().len() == 0,
            world.seed_value() == seed,
            !world.dirty(),
            world.is_sorted(),
    {
        World { chunks: Vec::new(), seed, modified: false }
    }

    /// The seed of the world's terrain.
    pub fn seed(&self) -> (seed: u64)
        ensures
            seed == self.seed_value(),
    {
        self.seed
    }

    /// Whether a chunk was appended since the rows were last sorted.
    pub fn is_modified(&self) -> (modified: bool)
        ensures
            modified == self.dirty(),
    {
        self.modified
    }

    /// The rows of the world, for reading.
    pub fn chunks(&self) -> (chunks: &Vec<Vec<Chunk>>)
        ensures
            chunks@.len() == self.rows().len(),
            forall|r: int| 0 <= r < chunks@.len() ==> (#[trigger] chunks@[r])@ == self.rows()[r],
    {
        &self.chunks
    }

    /// Appends `chunk` to the row `found`, or to a new last row where no row
    /// was found, and marks the world as modified.
    fn append_chunk(&mut self, found: Option<usize>, chunk: Chunk) -> (slot: (usize, usize))
        requires
            old(self).wf(),
            chunk.wf(),
            chunk.is_complete(),
            match found {
                Some(row) => row < old(self).rows().len() && row_key(old(self).rows()[row as int])
                    == chunk.origin().1,
                None => true,
            },
        ensures
            final(self).wf(),
            final(self).seed_value() == old(self).seed_value(),
            old(self).appended(*final(self), (slot.0 as int, slot.1 as int)),
            final(self).chunk_in((slot.0 as int, slot.1 as int)) == chunk,
            match found {
                Some(row) => slot.0 == row,
                None => slot.0 == old(self).rows().len(),
            },
            rows_distinct(old(self).rows()) && is_absent(old(self).rows(), found, chunk)
                ==> rows_distinct(final(self).rows()),
    {
        let ghost before = self.rows();
        match found {
            Some(row) => {
                let col: usize = self.chunks[row].len();
                self.chunks[row].push(chunk);
                self.modified = true;
                proof {
                    let grown = before[row as int].push(chunk);
                    assert(self.rows() =~= before.update(row as int, grown));
                    assert(self.rows()[row as int][col as int] == chunk);
                    assert(before[row as int].len() > 0);
                    assert(grown[0] == before[row as int][0]);
                    assert forall|r: int, c: int|
                        0 <= r < self.rows().len() && 0 <= c < self.rows()[r].len() implies {
                        &&& (#[trigger] self.rows()[r][c]).wf()
                        &&& self.rows()[r][c].is_complete()
                        &&& self.rows()[r][c].origin().1 == row_key(self.rows()[r])
                    } by {
                        if r == row {
                            if c < col {
                                assert(grown[c] == before[r][c]);
                            }
                        } else {
                            assert(self.rows()[r][c] == before[r][c]);
                        }
                    }
                    assert forall|r: int| 0 <= r < self.rows().len() implies (
                    #[trigger] self.rows()[r]).len() > 0 by {
                        assert(before[r].len() > 0);
                    }
                    if rows_distinct(before) && is_absent(before, found, chunk) {
                        assert(row_distinct(before[row as int]));
                        assert forall|a: int, b: int|
                            0 <= a < grown.len() && 0 <= b < grown.len() && a
                                != b implies grown[a].origin().0 != grown[b].origin().0 by {
                            if a < col && b < col {
                                assert(before[row as int][a].origin().0
                                    != before[row as int][b].origin().0);
                            } else if a < col {
                                assert(before[row as int][a].origin().0 != chunk.origin().0);
                            } else if b < col {
                                assert(before[row as int][b].origin().0 != chunk.origin().0);
                            }
                        }
                        assert forall|a: int, b: int|
                            0 <= a < self.rows().len() && 0 <= b < self.rows().len() && a
                                != b implies row_key(self.rows()[a]) != row_key(self.rows()[b]) by {
                            assert(row_key(self.rows()[a]) == row_key(before[a]));
                            assert(row_key(self.rows()[b]) == row_key(before[b]));
                        }
                        assert forall|r: int| 0 <= r < self.rows().len() implies row_distinct(
                            #[trigger] self.rows()[r],
                        ) by {
                            if r != row {
                                assert(row_distinct(before[r]));
                            }
                        }
                    }
                }
                (row, col)
            },
            None => {
                let row: usize = self.chunks.len();
                self.chunks.push(Vec::new());
                self.chunks[row].push(chunk);
                self.modified = true;
                proof {
                    assert(self.rows()[row as int] =~= seq![chunk]);
                    assert(self.rows() =~= before.push(seq![chunk]));
                    assert(self.rows()[row as int][0] == chunk);
                    assert forall|r: int, c: int|
                        0 <= r < self.rows().len() && 0 <= c < self.rows()[r].len() implies {
                        &&& (#[trigger] self.rows()[r][c]).wf()
                        &&& self.rows()[r][c].is_complete()
                        &&& self.rows()[r][c].origin().1 == row_key(self.rows()[r])
                    } by {
                        if r < row {
                            assert(self.rows()[r][c] == before[r][c]);
                        }
                    }
                    assert forall|r: int| 0 <= r < self.rows().len() implies (
                    #[trigger] self.rows()[r]).len() > 0 by {
                        if r < row {
                            assert(before[r].len() > 0);
                        }
                    }
                    if rows_distinct(before) && is_absent(before, found, chunk) {
                        assert forall|a: int, b: int|
                            0 <= a < self.rows().len() && 0 <= b < self.rows().len() && a
                                != b implies row_key(self.rows()[a]) != row_key(self.rows()[b]) by {
                            if a < row {
                                assert(self.rows()[a] == before[a]);
                                assert(row_key(before[a]) != chunk.origin().1);
                            }
                            if b < row {
                                assert(self.rows()[b] == before[b]);
                                assert(row_key(before[b]) != chunk.origin().1);
                            }
                        }
                        assert forall|r: int| 0 <= r < self.rows().len() implies row_distinct(
                            #[trigger] self.rows()[r],
                        ) by {
                            if r < row {
                                assert(row_distinct(before[r]));
                            }
                        }
                    }
                }
                (row, 0)
            },
        }
    }

    /// Finds the chunk at chunk coordinate `(x, y)`, or generates and appends
    /// it, and returns its slot.
    fn fetch<F: Fn(NoiseQuery) -> i32>(&mut self, x: i64, y: i64, noise: &F) -> (slot: (
        usize,
        usize,
    ))
        requires
            old(self).wf(),
            is_total(noise),
            valid_chunk_coord(x as int),
            valid_chunk_coord(y as int),
        ensures
            old(self).fetched(
                *final(self),
                x as int,
                y as int,
                (slot.0 as int, slot.1 as int),
                noise,
            ),
    {
        let ghost before = self.rows();
        let key_x: i64 = x * 16;
        let key_y: i64 = y * 16;
        assert forall|k: int| 0 <= k < self.chunks.len() implies (#[trigger] self.chunks@[k])@.len()
            > 0 by {
            assert(before[k].len() > 0);
        }
        match find_row(&self.chunks, key_y) {
            Ok(row) => {
                assert(before[row as int] == self.chunks@[row as int]@);
                match find_chunk(&self.chunks[row], key_x) {
                    Ok(col) => {
                        proof {
                            assert(before[row as int][col as int].origin().1 == row_key(
                                before[row as int],
                            ));
                        }
                        (row, col)
                    },
                    Err(_) => {
                        let chunk = Chunk::generate(x, y, noise, self.seed);
                        proof {
                            if rows_ordered(before) && rows_distinct(before) {
                                assert(row_ordered(before[row as int]));
                                lemma_chunk_absent(before[row as int], key_x as int);
                                if rows_have(before, key_x as int, key_y as int) {
                                    let (r, c) = choose|r: int, c: int|
                                        0 <= r < before.len() && 0 <= c < before[r].len() && (
                                        #[trigger] before[r][c]).origin() == (
                                            key_x as int,
                                            key_y as int,
                                        );
                                    assert(before[r][c].origin().1 == row_key(before[r]));
                                    assert(r == row);
                                }
                            }
                        }
                        let slot = self.append_chunk(Some(row), chunk);
                        proof {
                            lemma_appended_differs(*old(self), *self, (slot.0 as int, slot.1 as int));
                        }
                        slot
                    },
                }
            },
            Err(_) => {
                let chunk = Chunk::generate(x, y, noise, self.seed);
                proof {
                    if rows_ordered(before) {
                        lemma_row_absent(before, key_y as int);
                        if rows_have(before, key_x as int, key_y as int) {
                            let (r, c) = choose|r: int, c: int|
                                0 <= r < before.len() && 0 <= c < before[r].len() && (
                                #[trigger] before[r][c]).origin() == (key_x as int, key_y as int);
                            assert(before[r][c].origin().1 == row_key(before[r]));
                        }
                    }
                }
                let slot = self.append_chunk(None, chunk);
                proof {
                    lemma_appended_differs(*old(self), *self, (slot.0 as int, slot.1 as int));
                }
                slot
            },
        }
    }

    /// The chunk at chunk coordinate `(x, y)`: the one that the search meets,
    /// or else a newly generated one, which is appended to the world.
    pub fn get_chunk<F: Fn(NoiseQuery) -> i32>(&mut self, x: i64, y: i64, noise: &F) -> (chunk:
        &Chunk)
        requires
            old(self).wf(),
            is_total(noise),
            valid_chunk_coord(x as int),
            valid_chunk_coord(y as int),
        ensures
            old(self).chunk_fetched(*final(self), x as int, y as int, *chunk, noise),
    {
        let slot = self.fetch(x, y, noise);
        assert(old(self).fetched(
            *self,
            x as int,
            y as int,
            (slot.0 as int, slot.1 as int),
            noise,
        ));
        &self.chunks[slot.0][slot.1]
    }

    /// Generates the chunk at chunk coordinate `(x, y)` and appends it, to the
    /// row that a search by its key meets or else to a new last row, without
    /// looking whether the world holds that chunk already.
    pub fn generate_chunk<F: Fn(NoiseQuery) -> i32>(&mut self, x: i64, y: i64, noise: &F)
        requires
            old(self).wf(),
            is_total(noise),
            valid_chunk_coord(x as int),
            valid_chunk_coord(y as int),
        ensures
            final(self).wf(),
            final(self).seed_value() == old(self).seed_value(),
            exists|slot: (int, int)| #[trigger]
                old(self).appended(*final(self), slot) && final(self).chunk_in(slot).origin() == (
                    x * CHUNK_SIZE,
                    y * CHUNK_SIZE,
                ) && final(self).chunk_in(slot).generated_from(noise, final(self).seed_value())
                    && slot.0 == (match found_row(old(self).rows(), y * CHUNK_SIZE) {
                    Some(r) => r,
                    None => old(self).rows().len() as int,
                }),
    {
        let ghost before = self.rows();
        assert forall|k: int| 0 <= k < self.chunks.len() implies (#[trigger] self.chunks@[k])@.len()
            > 0 by {
            assert(before[k].len() > 0);
        }
        let found: Option<usize> = match find_row(&self.chunks, y * 16) {
            Ok(row) => {
                assert(before[row as int] == self.chunks@[row as int]@);
                Some(row)
            },
            Err(_) => None,
        };
        let chunk = Chunk::generate(x, y, noise, self.seed);
        let slot = self.append_chunk(found, chunk);
        assert(old(self).appended(*self, (slot.0 as int, slot.1 as int)));
    }

    /// The cell at world position `(x, y)`. Where the search does not meet the
    /// chunk of that position, the chunk is generated first.
    pub fn get_cell<F: Fn(NoiseQuery) -> i32>(&mut self, x: i64, y: i64, noise: &F) -> (cell:
        &Cell)
        requires
            old(self).wf(),
            is_total(noise),
        ensures
            old(self).cell_read(*final(self), x as int, y as int, *cell, noise),
            cell.x == local_coord_of(x as int),
            cell.y == local_coord_of(y as int),
            final(self).rows() != old(self).rows() ==> sampled_cell(
                noise,
                final(self).seed_value(),
                x,
                y,
                local_coord_of(x as int) as u8,
                local_coord_of(y as int) as u8,
                *cell,
            ),
    {
        let slot = self.fetch(chunk_coord(x), chunk_coord(y), noise);
        let lx: u8 = local_coord(x);
        let ly: u8 = local_coord(y);
        let ghost at = (slot.0 as int, slot.1 as int);
        proof {
            assert(old(self).fetched(
                *self,
                chunk_coord_of(x as int),
                chunk_coord_of(y as int),
                at,
                noise,
            ));
            assert(self.chunk_in(at).wf() && self.chunk_in(at).is_complete());
            assert(self.chunk_in(at).has_cell(lx as int, ly as int));
            if self.rows() != old(self).rows() {
                assert(sampled_cell(
                    noise,
                    self.seed_value(),
                    (self.chunk_in(at).origin().0 + lx) as i64,
                    (self.chunk_in(at).origin().1 + ly) as i64,
                    lx,
                    ly,
                    self.chunk_in(at).cell(lx as int, ly as int),
                ));
            }
        }
        match self.chunks[slot.0][slot.1].get_cell(lx as usize, ly as usize) {
            Ok(cell) => cell,
            Err(_) => unreached(),
        }
    }

    /// Writes the material and colour of `cell` at world position `(x, y)`.
    /// Where the search does not meet the chunk of that position, the chunk
    /// is generated first.
    pub fn set_cell<F: Fn(NoiseQuery) -> i32>(&mut self, x: i64, y: i64, cell: Cell, noise: &F)
        requires
            old(self).wf(),
            is_total(noise),
        ensures
            old(self).cell_written(*final(self), x as int, y as int, cell, noise),
            final(self).wf(),
            final(self).seed_value() == old(self).seed_value(),
    {
        let slot = self.fetch(chunk_coord(x), chunk_coord(y), noise);
        let ghost mid = *self;
        let ghost at = (slot.0 as int, slot.1 as int);
        let placed = Cell {
            x: local_coord(x),
            y: local_coord(y),
            material: cell.material,
            color: cell.color,
        };
        assert(mid.chunk_in(at).wf());
        self.chunks[slot.0][slot.1].set_cell(placed);
        proof {
            let changed = self.rows()[at.0][at.1];
            assert(self.rows() =~= mid.rows().update(
                at.0,
                mid.rows()[at.0].update(at.1, changed),
            ));
            assert(mid.rows()[at.0].len() > 0);
            assert(changed.is_complete()) by {
                assert forall|a: int, b: int|
                    0 <= a < CHUNK_SIZE && 0 <= b < CHUNK_SIZE implies #[trigger] changed.has_cell(
                    a,
                    b,
                ) by {
                    assert(mid.chunk_in(at).has_cell(a, b));
                }
            }
            assert forall|r: int, c: int|
                0 <= r < self.rows().len() && 0 <= c < self.rows()[r].len() implies {
                &&& (#[trigger] self.rows()[r][c]).wf()
                &&& self.rows()[r][c].is_complete()
                &&& self.rows()[r][c].origin().1 == row_key(self.rows()[r])
            } by {
                assert(mid.rows()[r][c].origin().1 == row_key(mid.rows()[r]));
                assert(mid.rows()[r][0].origin().1 == row_key(mid.rows()[r]));
                if r != at.0 || c != at.1 {
                    assert(self.rows()[r][c] == mid.rows()[r][c]);
                }
                if r != at.0 || 0 != at.1 {
                    assert(self.rows()[r][0] == mid.rows()[r][0]);
                }
            }
            assert forall|r: int| 0 <= r < self.rows().len() implies (#[trigger] self.rows()[r]).len()
                > 0 by {
                assert(mid.rows()[r].len() > 0);
            }
            assert(placed == cell.placed_at(local_coord_of(x as int), local_coord_of(y as int)));
            assert(mid.written(
                *self,
                at,
                local_coord_of(x as int),
                local_coord_of(y as int),
                cell,
            ));
            assert(old(self).fetched(
                mid,
                chunk_coord_of(x as int),
                chunk_coord_of(y as int),
                at,
                noise,
            ));
        }
    }

    /// Puts the rows in ascending order of their key and the chunks of each
    /// row in ascending order of their world x coordinate, and clears the
    /// mark that `get_chunk` sets. No chunk is lost or added; a world without
    /// two chunks at one place, and without two rows of one key, is sorted
    /// afterwards.
    pub fn sort_chunks(&mut self)
        requires
            old(self).wf(),
        ensures
            old(self).resorted(*final(self)),
    {
        let ghost before = self.rows();
        self.sort_rows();
        let ghost mid = self.rows();
        let n: usize = self.chunks.len();
        let mut i: usize = 0;
        while i < n
            invariant
                i <= n,
                n == self.chunks.len(),
                n == before.len(),
                rows_wf(self.rows()),
                self.seed_value() == old(self).seed_value(),
                forall|a: int, b: int|
                    0 <= a < b < n ==> row_key(self.rows()[a]) <= row_key(self.rows()[b]),
                forall|a: int| 0 <= a < i ==> row_ordered(#[trigger] self.rows()[a]),
                rows_distinct(before) ==> rows_distinct(self.rows()),
                row_bags(self.rows()) == row_bags(before),
                forall|chunk: Chunk| rows_hold(self.rows(), chunk) <==> rows_hold(before, chunk),
            decreases n - i,
        {
            self.sort_row(i);
            i = i + 1;
        }
        self.modified = false;
    }

    /// Puts the rows in ascending order of their key.
    fn sort_rows(&mut self)
        requires
            old(self).wf(),
        ensures
            final(self).wf(),
            final(self).seed_value() == old(self).seed_value(),
            final(self).dirty() == old(self).dirty(),
            final(self).rows().len() == old(self).rows().len(),
            forall|a: int, b: int|
                0 <= a < b < final(self).rows().len() ==> row_key(final(self).rows()[a])
                    <= row_key(final(self).rows()[b]),
            rows_distinct(old(self).rows()) ==> rows_distinct(final(self).rows()),
            row_bags(final(self).rows()) == row_bags(old(self).rows()),
            forall|chunk: Chunk|
                rows_hold(final(self).rows(), chunk) <==> rows_hold(old(self).rows(), chunk),
    {
        let ghost before = self.rows();
        let ghost key_of: spec_fn(Vec<Chunk>) -> int = |row: Vec<Chunk>| row_key(row@);
        let ghost bag_of: spec_fn(Vec<Chunk>) -> Multiset<Chunk> = |row: Vec<Chunk>|
            row@.to_multiset();
        let mut keys: Vec<i64> = Vec::new();
        let mut r: usize = 0;
        while r < self.chunks.len()
            invariant
                r <= self.chunks.len(),
                keys.len() == r,
                self.rows() == before,
                rows_wf(before),
                forall|k: int| 0 <= k < r ==> keys@[k] == row_key((#[trigger] self.chunks@[k])@),
            decreases self.chunks.len() - r,
        {
            assert(before[r as int].len() > 0);
            assert(before[r as int] == self.chunks@[r as int]@);
            keys.push(self.chunks[r][0].y());
            r = r + 1;
        }
        let ghost unsorted = self.chunks@;
        sort_by_keys::<Vec<Chunk>, Multiset<Chunk>>(
            &mut self.chunks,
            &mut keys,
            Ghost(key_of),
            Ghost(bag_of),
        );
        proof {
            let after = self.rows();
            assert(unsorted.map_values(bag_of) =~= before.map_values(
                |row: Seq<Chunk>| row.to_multiset(),
            ));
            assert(self.chunks@.map_values(bag_of) =~= after.map_values(
                |row: Seq<Chunk>| row.to_multiset(),
            ));
            assert forall|k: int| 0 <= k < after.len() implies before.contains(
                #[trigger] after[k],
            ) by {
                assert(unsorted.contains(self.chunks@[k]));
                let j = choose|j: int| 0 <= j < unsorted.len() && unsorted[j] == self.chunks@[k];
                assert(before[j] == after[k]);
            }
            assert forall|j: int| 0 <= j < before.len() implies after.contains(
                #[trigger] before[j],
            ) by {
                assert(self.chunks@.contains(unsorted[j]));
                let k = choose|k: int| 0 <= k < self.chunks@.len() && self.chunks@[k] == unsorted[j];
                assert(after[k] == before[j]);
            }
            lemma_rows_permuted(before, after);
            assert forall|a: int, b: int| 0 <= a < b < after.len() implies row_key(after[a])
                <= row_key(after[b]) by {
                assert(key_of(self.chunks@[a]) <= key_of(self.chunks@[b]));
            }
            if rows_distinct(before) {
                assert(keys_distinct(unsorted, key_of)) by {
                    assert forall|a: int, b: int|
                        0 <= a < unsorted.len() && 0 <= b < unsorted.len() && a
                            != b implies key_of(unsorted[a]) != key_of(unsorted[b]) by {
                        assert(row_key(before[a]) != row_key(before[b]));
                    }
                }
                assert forall|a: int, b: int|
                    0 <= a < after.len() && 0 <= b < after.len() && a != b implies row_key(after[a])
                    != row_key(after[b]) by {
                    assert(key_of(self.chunks@[a]) != key_of(self.chunks@[b]));
                }
            }
        }
    }

    /// Puts the chunks of one row in ascending order of their world x
    /// coordinate.
    fn sort_row(&mut self, i: usize)
        requires
            old(self).wf(),
            i < old(self).rows().len(),
        ensures
            final(self).wf(),
            final(self).seed_value() == old(self).seed_value(),
            final(self).dirty() == old(self).dirty(),
            final(self).rows().len() == old(self).rows().len(),
            final(self).rows() == old(self).rows().update(i as int, final(self).rows()[i as int]),
            forall|a: int|
                0 <= a < final(self).rows().len() ==> row_key(#[trigger] final(self).rows()[a])
                    == row_key(old(self).rows()[a]),
            row_ordered(final(self).rows()[i as int]),
            rows_distinct(old(self).rows()) ==> rows_distinct(final(self).rows()),
            row_bags(final(self).rows()) == row_bags(old(self).rows()),
            forall|chunk: Chunk|
                rows_hold(final(self).rows(), chunk) <==> rows_hold(old(self).rows(), chunk),
    {
        let ghost held = self.rows();
        let ghost x_of: spec_fn(Chunk) -> int = |chunk: Chunk| chunk.origin().0;
        let ghost same: spec_fn(Chunk) -> Chunk = |chunk: Chunk| chunk;
        let mut xs: Vec<i64> = Vec::new();
        let mut c: usize = 0;
        while c < self.chunks[i].len()
            invariant
                i < self.chunks.len(),
                c <= self.chunks@[i as int]@.len(),
                xs.len() == c,
                self.rows() == held,
                forall|k: int|
                    0 <= k < c ==> xs@[k] == (#[trigger] self.chunks@[i as int]@[k]).origin().0,
            decreases self.chunks@[i as int]@.len() - c,
        {
            xs.push(self.chunks[i][c].x());
            c = c + 1;
        }
        sort_by_keys::<Chunk, Chunk>(&mut self.chunks[i], &mut xs, Ghost(x_of), Ghost(same));
        proof {
            let row = self.rows()[i as int];
            let was = held[i as int];
            assert(self.rows() =~= held.update(i as int, row));
            lemma_row_permuted(held, i as int, row);
            assert forall|p: int, q: int| 0 <= p < q < row.len() implies row[p].origin().0
                <= row[q].origin().0 by {
                assert(x_of(row[p]) <= x_of(row[q]));
            }
            if rows_distinct(held) {
                assert(row_distinct(was));
                assert(keys_distinct(was, x_of)) by {
                    assert forall|p: int, q: int|
                        0 <= p < was.len() && 0 <= q < was.len() && p != q implies x_of(was[p])
                        != x_of(was[q]) by {
                        assert(was[p].origin().0 != was[q].origin().0);
                    }
                }
                assert forall|p: int, q: int|
                    0 <= p < row.len() && 0 <= q < row.len() && p != q implies row[p].origin().0
                    != row[q].origin().0 by {
                    assert(x_of(row[p]) != x_of(row[q]));
                }
                assert forall|a: int| 0 <= a < self.rows().len() implies row_distinct(
                    #[trigger] self.rows()[a],
                ) by {
                    if a != i {
                        assert(row_distinct(held[a]));
                    }
                }
                assert forall|a: int, b: int|
                    0 <= a < self.rows().len() && 0 <= b < self.rows().len() && a
                        != b implies row_key(self.rows()[a]) != row_key(self.rows()[b]) by {
                    assert(row_key(held[a]) != row_key(held[b]));
                }
            }
            assert(self.rows().map_values(|row: Seq<Chunk>| row.to_multiset()) =~= held.map_values(
                |row: Seq<Chunk>| row.to_multiset(),
            ));
        }
    }
}

/// The rows of `after` are the rows of `before`, in some order.
spec fn rows_permuted(before: Seq<Seq<Chunk>>, after: Seq<Seq<Chunk>>) -> bool {
    &&& after.len() == before.len()
    &&& forall|k: int| 0 <= k < after.len() ==> before.contains(#[trigger] after[k])
    &&& forall|k: int| 0 <= k < before.len() ==> after.contains(#[trigger] before[k])
}

/// Rows in another order are well formed as before, hold the same chunks,
/// and have no two chunks at one place if they had none before.
proof fn lemma_rows_permuted(before: Seq<Seq<Chunk>>, after: Seq<Seq<Chunk>>)
    requires
        rows_wf(before),
        rows_permuted(before, after),
    ensures
        rows_wf(after),
        forall|chunk: Chunk| rows_hold(after, chunk) <==> rows_hold(before, chunk),
        rows_distinct(before) ==> forall|r: int|
            0 <= r < after.len() ==> row_distinct(#[trigger] after[r]),
{
    assert forall|a: int| 0 <= a < after.len() implies (#[trigger] after[a]).len() > 0 by {
        assert(before.contains(after[a]));
        let j = choose|j: int| 0 <= j < before.len() && before[j] == after[a];
        assert(before[j].len() > 0);
    }
    assert forall|a: int, c: int| 0 <= a < after.len() && 0 <= c < after[a].len() implies {
        &&& (#[trigger] after[a][c]).wf()
        &&& after[a][c].is_complete()
        &&& after[a][c].origin().1 == row_key(after[a])
    } by {
        assert(before.contains(after[a]));
        let j = choose|j: int| 0 <= j < before.len() && before[j] == after[a];
        assert(before[j][c].wf());
    }
    assert forall|chunk: Chunk| rows_hold(after, chunk) <==> rows_hold(before, chunk) by {
        if rows_hold(after, chunk) {
            let (a, c) = choose|a: int, c: int|
                0 <= a < after.len() && 0 <= c < after[a].len() && #[trigger] after[a][c] == chunk;
            assert(before.contains(after[a]));
            let j = choose|j: int| 0 <= j < before.len() && before[j] == after[a];
            assert(before[j][c] == chunk);
        }
        if rows_hold(before, chunk) {
            let (j, c) = choose|j: int, c: int|
                0 <= j < before.len() && 0 <= c < before[j].len() && #[trigger] before[j][c]
                    == chunk;
            assert(after.contains(before[j]));
            let a = choose|a: int| 0 <= a < after.len() && after[a] == before[j];
            assert(after[a][c] == chunk);
        }
    }
    if rows_distinct(before) {
        assert forall|r: int| 0 <= r < after.len() implies row_distinct(#[trigger] after[r]) by {
            assert(before.contains(after[r]));
            let j = choose|j: int| 0 <= j < before.len() && before[j] == after[r];
            assert(row_distinct(before[j]));
        }
    }
}

/// A row whose chunks are put in another order leaves the rows well formed,
/// with the same keys and the same chunks.
proof fn lemma_row_permuted(held: Seq<Seq<Chunk>>, i: int, row: Seq<Chunk>)
    requires
        rows_wf(held),
        0 <= i < held.len(),
        row.len() == held[i].len(),
        forall|k: int| 0 <= k < row.len() ==> held[i].contains(#[trigger] row[k]),
        forall|k: int| 0 <= k < held[i].len() ==> row.contains(#[trigger] held[i][k]),
    ensures
        rows_wf(held.update(i, row)),
        forall|a: int|
            0 <= a < held.len() ==> row_key(#[trigger] held.update(i, row)[a]) == row_key(held[a]),
        forall|chunk: Chunk| rows_hold(held.update(i, row), chunk) <==> rows_hold(held, chunk),
{
    let now = held.update(i, row);
    let was = held[i];
    assert(was.len() > 0);
    assert(was.contains(row[0]));
    let first = choose|k: int| 0 <= k < was.len() && was[k] == row[0];
    assert(was[first].origin().1 == row_key(was));
    assert(row_key(row) == row_key(was));
    assert forall|a: int| 0 <= a < held.len() implies row_key(#[trigger] now[a]) == row_key(
        held[a],
    ) by {}
    assert forall|a: int, k: int| 0 <= a < now.len() && 0 <= k < now[a].len() implies {
        &&& (#[trigger] now[a][k]).wf()
        &&& now[a][k].is_complete()
        &&& now[a][k].origin().1 == row_key(now[a])
    } by {
        if a == i {
            assert(was.contains(row[k]));
            let j = choose|j: int| 0 <= j < was.len() && was[j] == row[k];
            assert(was[j].wf());
        } else {
            assert(held[a][k].wf());
        }
    }
    assert forall|a: int| 0 <= a < now.len() implies (#[trigger] now[a]).len() > 0 by {
        assert(held[a].len() > 0);
    }
    assert forall|chunk: Chunk| rows_hold(now, chunk) <==> rows_hold(held, chunk) by {
        if rows_hold(now, chunk) {
            let (a, k) = choose|a: int, k: int|
                0 <= a < now.len() && 0 <= k < now[a].len() && #[trigger] now[a][k] == chunk;
            if a == i {
                assert(was.contains(row[k]));
                let j = choose|j: int| 0 <= j < was.len() && was[j] == row[k];
                assert(held[a][j] == chunk);
            } else {
                assert(held[a][k] == chunk);
            }
        }
        if rows_hold(held, chunk) {
            let (a, k) = choose|a: int, k: int|
                0 <= a < held.len() && 0 <= k < held[a].len() && #[trigger] held[a][k] == chunk;
            if a == i {
                assert(row.contains(was[k]));
                let j = choose|j: int| 0 <= j < row.len() && row[j] == was[k];
                assert(now[a][j] == chunk);
            } else {
                assert(now[a][k] == chunk);
            }
        }
    }
}

/// The chunks of each row as a multiset, and the rows as a multiset of
/// those: what the world holds, whatever the order.
pub open spec fn row_bags(rows: Seq<Seq<Chunk>>) -> Multiset<Multiset<Chunk>> {
    rows.map_values(|row: Seq<Chunk>| row.to_multiset()).to_multiset()
}

/// `chunk` stands in some slot of `rows`.
pub open spec fn rows_hold(rows: Seq<Seq<Chunk>>, chunk: Chunk) -> bool {
    exists|r: int, c: int|
        0 <= r < rows.len() && 0 <= c < rows[r].len() && #[trigger] rows[r][c] == chunk
}

/// The row that a chunk is appended to holds no chunk at its world x
/// coordinate; where it opens a new row, no row has its key.
pub open spec fn is_absent(rows: Seq<Seq<Chunk>>, found: Option<usize>, chunk: Chunk) -> bool {
    match found {
        Some(row) => forall|k: int|
            0 <= k < rows[row as int].len() ==> (#[trigger] rows[row as int][k]).origin().0
                != chunk.origin().0,
        None => forall|k: int|
            0 <= k < rows.len() ==> row_key(#[trigger] rows[k]) != chunk.origin().1,
    }
}

/// A world to which a chunk was appended has other rows than before.
proof fn lemma_appended_differs(pre: World, post: World, slot: (int, int))
    requires
        pre.appended(post, slot),
    ensures
        post.rows() != pre.rows(),
{
    if slot.0 == pre.rows().len() {
        assert(post.rows().len() == pre.rows().len() + 1);
    } else {
        assert(post.rows()[slot.0].len() == pre.rows()[slot.0].len() + 1);
    }
}

/// Fetching a chunk twice gives the same chunk: where the world is sorted
/// after the first fetch, the second finds the chunk in the same slot and
/// changes nothing.
pub proof fn lemma_fetch_twice<F: Fn(NoiseQuery) -> i32, G: Fn(NoiseQuery) -> i32>(
    start: World,
    once: World,
    twice: World,
    x: int,
    y: int,
    first: (int, int),
    second: (int, int),
    noise: &F,
    other: &G,
)
    requires
        start.fetched(once, x, y, first, noise),
        once.is_sorted(),
        once.fetched(twice, x, y, second, other),
    ensures
        twice.rows() == once.rows(),
        twice.dirty() == once.dirty(),
        second == first,
        twice.chunk_in(second) == once.chunk_in(first),
{
    assert(once.rows()[first.0][first.1].origin() == (x * CHUNK_SIZE, y * CHUNK_SIZE));
    assert(once.has_chunk(x, y));
    if once.appended(twice, second) {
        lemma_appended_differs(once, twice, second);
    }
    lemma_slot_unique(once.rows(), first, second);
}

/// `get_chunk` is idempotent: called again in a sorted world, it returns the
/// chunk that it returned before, and the world holds no chunk more.
pub proof fn lemma_get_chunk_idempotent<F: Fn(NoiseQuery) -> i32, G: Fn(NoiseQuery) -> i32>(
    start: World,
    once: World,
    twice: World,
    x: int,
    y: int,
    first: Chunk,
    second: Chunk,
    noise: &F,
    other: &G,
)
    requires
        start.chunk_fetched(once, x, y, first, noise),
        once.is_sorted(),
        once.chunk_fetched(twice, x, y, second, other),
    ensures
        second == first,
        twice.rows() == once.rows(),
        twice.dirty() == once.dirty(),
{
    let a = choose|slot: (int, int)| #[trigger]
        start.fetched(once, x, y, slot, noise) && first == once.chunk_in(slot);
    let b = choose|slot: (int, int)| #[trigger]
        once.fetched(twice, x, y, slot, other) && second == twice.chunk_in(slot);
    lemma_fetch_twice(start, once, twice, x, y, a, b, noise, other);
}

/// Writing a cell keeps the order of the world: the chunks stay where they
/// are, at their world positions.
pub proof fn lemma_written_keeps_order(
    pre: World,
    post: World,
    slot: (int, int),
    lx: int,
    ly: int,
    cell: Cell,
)
    requires
        pre.wf(),
        pre.written(post, slot, lx, ly, cell),
    ensures
        rows_ordered(pre.rows()) ==> rows_ordered(post.rows()),
        rows_distinct(pre.rows()) ==> rows_distinct(post.rows()),
        forall|x: int, y: int| pre.has_chunk(x, y) <==> post.has_chunk(x, y),
{
    let before = pre.rows();
    let after = post.rows();
    assert forall|r: int, c: int| 0 <= r < after.len() && 0 <= c < after[r].len() implies (
    #[trigger] after[r][c]).origin() == before[r][c].origin() by {}
    assert forall|r: int| 0 <= r < after.len() implies row_key(#[trigger] after[r]) == row_key(
        before[r],
    ) by {
        assert(before[r].len() > 0);
        assert(after[r][0].origin() == before[r][0].origin());
    }
    if rows_ordered(before) {
        assert forall|r: int| 0 <= r < after.len() implies row_ordered(#[trigger] after[r]) by {
            assert(row_ordered(before[r]));
            assert forall|a: int, b: int| 0 <= a < b < after[r].len() implies after[r][a].origin().0
                <= after[r][b].origin().0 by {
                assert(after[r][a].origin() == before[r][a].origin());
                assert(after[r][b].origin() == before[r][b].origin());
            }
        }
    }
    if rows_distinct(before) {
        assert forall|r: int| 0 <= r < after.len() implies row_distinct(#[trigger] after[r]) by {
            assert(row_distinct(before[r]));
            assert forall|a: int, b: int|
                0 <= a < after[r].len() && 0 <= b < after[r].len() && a
                    != b implies after[r][a].origin().0 != after[r][b].origin().0 by {
                assert(after[r][a].origin() == before[r][a].origin());
                assert(after[r][b].origin() == before[r][b].origin());
            }
        }
    }
    assert forall|x: int, y: int| pre.has_chunk(x, y) <==> post.has_chunk(x, y) by {
        if pre.has_chunk(x, y) {
            let (r, c) = choose|r: int, c: int|
                0 <= r < before.len() && 0 <= c < before[r].len() && (
                #[trigger] before[r][c]).origin() == (x * CHUNK_SIZE, y * CHUNK_SIZE);
            assert(after[r][c].origin() == before[r][c].origin());
        }
        if post.has_chunk(x, y) {
            let (r, c) = choose|r: int, c: int|
                0 <= r < after.len() && 0 <= c < after[r].len() && (#[trigger] after[r][c]).origin()
                    == (x * CHUNK_SIZE, y * CHUNK_SIZE);
            assert(after[r][c].origin() == before[r][c].origin());
        }
    }
}

/// A cell that was written is read back: where the world is sorted after
/// `set_cell`, `get_cell` at the same world position returns the cell's
/// material and colour, at the local position, and changes nothing.
pub proof fn lemma_set_then_get<F: Fn(NoiseQuery) -> i32, G: Fn(NoiseQuery) -> i32>(
    start: World,
    set: World,
    got: World,
    x: int,
    y: int,
    cell: Cell,
    read: Cell,
    noise: &F,
    other: &G,
)
    requires
        start.cell_written(set, x, y, cell, noise),
        set.is_sorted(),
        set.cell_read(got, x, y, read, other),
    ensures
        read == cell.placed_at(local_coord_of(x), local_coord_of(y)),
        read.same_content(cell),
        got.rows() == set.rows(),
{
    let cx = chunk_coord_of(x);
    let cy = chunk_coord_of(y);
    let lx = local_coord_of(x);
    let ly = local_coord_of(y);
    let (mid, slot) = choose|mid: World, slot: (int, int)| #[trigger]
        start.fetched(mid, cx, cy, slot, noise) && mid.written(set, slot, lx, ly, cell);
    let second = choose|slot: (int, int)| #[trigger]
        set.fetched(got, cx, cy, slot, other) && read == got.chunk_in(slot).cell(lx, ly);
    assert(in_slots(set.rows(), slot));
    assert(set.rows()[slot.0][slot.1].origin() == (cx * CHUNK_SIZE, cy * CHUNK_SIZE));
    assert(set.has_chunk(cx, cy));
    lemma_slot_unique(set.rows(), slot, second);
}

/// A world that was sorted before a chunk was fetched is sorted again after
/// `sort_chunks`: the cycle of fetching and sorting never leaves two chunks
/// at one place.
pub proof fn lemma_sort_restores<F: Fn(NoiseQuery) -> i32>(
    start: World,
    fetched: World,
    sorted: World,
    x: int,
    y: int,
    slot: (int, int),
    noise: &F,
)
    requires
        start.is_sorted(),
        start.fetched(fetched, x, y, slot, noise),
        fetched.resorted(sorted),
    ensures
        sorted.is_sorted(),
        sorted.has_chunk(x, y),
{
    let chunk = fetched.chunk_in(slot);
    assert(rows_hold(fetched.rows(), chunk));
    assert(rows_hold(sorted.rows(), chunk));
    let (r, c) = choose|r: int, c: int|
        0 <= r < sorted.rows().len() && 0 <= c < sorted.rows()[r].len()
            && #[trigger] sorted.rows()[r][c] == chunk;
    assert(sorted.rows()[r][c].origin() == (x * CHUNK_SIZE, y * CHUNK_SIZE));
}

/// A cell that was written survives sorting: after `set_cell` and
/// `sort_chunks`, in a world without two chunks at one place, `get_cell` at
/// the same world position returns the cell's material and colour.
pub proof fn lemma_set_sort_get<F: Fn(NoiseQuery) -> i32, G: Fn(NoiseQuery) -> i32>(
    start: World,
    set: World,
    sorted: World,
    got: World,
    x: int,
    y: int,
    cell: Cell,
    read: Cell,
    noise: &F,
    other: &G,
)
    requires
        start.cell_written(set, x, y, cell, noise),
        rows_distinct(set.rows()),
        set.resorted(sorted),
        sorted.cell_read(got, x, y, read, other),
    ensures
        read == cell.placed_at(local_coord_of(x), local_coord_of(y)),
        read.same_content(cell),
        got.rows() == sorted.rows(),
{
    let cx = chunk_coord_of(x);
    let cy = chunk_coord_of(y);
    let lx = local_coord_of(x);
    let ly = local_coord_of(y);
    let (mid, slot) = choose|mid: World, slot: (int, int)| #[trigger]
        start.fetched(mid, cx, cy, slot, noise) && mid.written(set, slot, lx, ly, cell);
    let second = choose|slot: (int, int)| #[trigger]
        sorted.fetched(got, cx, cy, slot, other) && read == got.chunk_in(slot).cell(lx, ly);
    assert(in_slots(set.rows(), slot));
    let chunk = set.chunk_in(slot);
    assert(rows_hold(set.rows(), chunk));
    assert(rows_hold(sorted.rows(), chunk));
    let (r, c) = choose|r: int, c: int|
        0 <= r < sorted.rows().len() && 0 <= c < sorted.rows()[r].len()
            && #[trigger] sorted.rows()[r][c] == chunk;
    assert(sorted.rows()[r][c].origin() == (cx * CHUNK_SIZE, cy * CHUNK_SIZE));
    assert(sorted.has_chunk(cx, cy));
    lemma_slot_unique(sorted.rows(), (r, c), second);
}

} // verus!
