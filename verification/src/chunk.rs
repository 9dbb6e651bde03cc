//! Chunks: square grids of cells, stored column by column.
//!
//! Each of the `CHUNK_SIZE` columns holds its cells in ascending order of
//! their row, without repetition, so that a cell is found by binary search.
//! The mathematical model of a chunk is its grid: a map from local positions
//! to cells.

use vstd::prelude::*;
use crate::cell::{Cell, CHUNK_SIZE};
use crate::coords::valid_chunk_coord;
use crate::noise::{is_deterministic, is_total, NoiseQuery};
use crate::terrain::{lemma_sampled_cell_deterministic, sample_cell, sampled_cell};

verus! {

/// The rows of the column ascend strictly.
pub open spec fn column_sorted(col: Seq<Cell>) -> bool {
    forall|i: int, j: int| 0 <= i < j < col.len() ==> col[i].y < col[j].y
}

/// The column holds a cell in row `y`.
pub open spec fn column_has(col: Seq<Cell>, y: int) -> bool {
    exists|i: int| 0 <= i < col.len() && (#[trigger] col[i]).y == y
}

/// The index of the cell in row `y`, where the column has one.
pub open spec fn column_index(col: Seq<Cell>, y: int) -> int {
    choose|i: int| 0 <= i < col.len() && (#[trigger] col[i]).y == y
}

/// The cell in row `y`, where the column has one.
pub open spec fn column_cell(col: Seq<Cell>, y: int) -> Cell {
    col[column_index(col, y)]
}

/// `p` is where a cell of row `y` belongs in the column: every cell before
/// `p` lies in a lower row, every cell from `p` on in a higher one.
pub open spec fn is_insertion_point(col: Seq<Cell>, y: int, p: int) -> bool {
    &&& 0 <= p <= col.len()
    &&& forall|j: int| 0 <= j < p ==> (#[trigger] col[j]).y < y
    &&& forall|j: int| p <= j < col.len() ==> (#[trigger] col[j]).y > y
}

/// The grid that the columns hold: position `(x, y)` maps to the cell of row
/// `y` in column `x`.
pub open spec fn grid_of(cols: Seq<Seq<Cell>>) -> Map<(int, int), Cell> {
    Map::new(
        |k: (int, int)| 0 <= k.0 < cols.len() && column_has(cols[k.0], k.1),
        |k: (int, int)| column_cell(cols[k.0], k.1),
    )
}

proof fn lemma_index_unique(col: Seq<Cell>, i: int)
    requires
        column_sorted(col),
        0 <= i < col.len(),
    ensures
        column_has(col, col[i].y as int),
        column_index(col, col[i].y as int) == i,
        column_cell(col, col[i].y as int) == col[i],
{
    let y = col[i].y as int;
    let k = column_index(col, y);
    assert(0 <= k < col.len() && col[k].y == y);
    if k < i {
        assert(col[k].y < col[i].y);
    }
    if i < k {
        assert(col[i].y < col[k].y);
    }
}

proof fn lemma_column_insert(col: Seq<Cell>, p: int, cell: Cell)
    requires
        column_sorted(col),
        is_insertion_point(col, cell.y as int, p),
    ensures
        column_sorted(col.insert(p, cell)),
        forall|y: int| #[trigger]
            column_has(col.insert(p, cell), y) <==> (y == cell.y || column_has(col, y)),
        forall|y: int| #[trigger]
            column_has(col.insert(p, cell), y) ==> column_cell(col.insert(p, cell), y) == (if y
                == cell.y {
                cell
            } else {
                column_cell(col, y)
            }),
{
    let grown = col.insert(p, cell);
    col.insert_ensures(p, cell);
    assert forall|i: int, j: int| 0 <= i < j < grown.len() implies grown[i].y < grown[j].y by {
        let a = if i < p { i } else { i - 1 };
        let b = if j < p { j } else { j - 1 };
        if i != p && j != p {
            assert(col[a].y < col[b].y);
        } else if i == p {
            assert(col[b].y > cell.y);
        } else {
            assert(col[a].y < cell.y);
        }
    }
    assert forall|y: int| #[trigger]
        column_has(grown, y) <==> (y == cell.y || column_has(col, y)) by {
        if column_has(col, y) {
            let i = column_index(col, y);
            let moved = if i < p { i } else { i + 1 };
            assert(grown[moved].y == y);
        }
        if y == cell.y {
            assert(grown[p].y == y);
        }
        if column_has(grown, y) {
            let k = column_index(grown, y);
            if k != p {
                let i = if k < p { k } else { k - 1 };
                assert(col[i].y == y);
            }
        }
    }
    assert forall|y: int| #[trigger] column_has(grown, y) implies column_cell(grown, y) == (if y
        == cell.y {
        cell
    } else {
        column_cell(col, y)
    }) by {
        let k = column_index(grown, y);
        lemma_index_unique(grown, k);
        if y == cell.y {
            lemma_index_unique(grown, p);
        } else {
            assert(grown[p].y == cell.y);
            let i = if k < p { k } else { k - 1 };
            assert(col[i] == grown[k]);
            lemma_index_unique(col, i);
        }
    }
}

proof fn lemma_column_update(col: Seq<Cell>, i: int, cell: Cell)
    requires
        column_sorted(col),
        0 <= i < col.len(),
        col[i].y == cell.y,
    ensures
        column_sorted(col.update(i, cell)),
        forall|y: int| #[trigger]
            column_has(col.update(i, cell), y) <==> (y == cell.y || column_has(col, y)),
        forall|y: int| #[trigger]
            column_has(col.update(i, cell), y) ==> column_cell(col.update(i, cell), y) == (if y
                == cell.y {
                cell
            } else {
                column_cell(col, y)
            }),
{
    let changed = col.update(i, cell);
    assert forall|a: int, b: int| 0 <= a < b < changed.len() implies changed[a].y
        < changed[b].y by {
        assert(col[a].y < col[b].y);
    }
    assert forall|y: int| #[trigger]
        column_has(changed, y) <==> (y == cell.y || column_has(col, y)) by {
        if column_has(col, y) {
            let k = column_index(col, y);
            assert(changed[k].y == y);
        }
        if y == cell.y {
            assert(changed[i].y == y);
        }
        if column_has(changed, y) {
            let k = column_index(changed, y);
            assert(col[k].y == y);
        }
    }
    assert forall|y: int| #[trigger] column_has(changed, y) implies column_cell(changed, y) == (if y
        == cell.y {
        cell
    } else {
        column_cell(col, y)
    }) by {
        let k = column_index(changed, y);
        lemma_index_unique(changed, k);
        if y == cell.y {
            lemma_index_unique(changed, i);
        } else {
            assert(col[k] == changed[k]);
            lemma_index_unique(col, k);
        }
    }
}

proof fn lemma_grid_change(cols: Seq<Seq<Cell>>, x: int, col: Seq<Cell>, cell: Cell)
    requires
        0 <= x < cols.len(),
        forall|y: int| #[trigger] column_has(col, y) <==> (y == cell.y || column_has(cols[x], y)),
        forall|y: int| #[trigger]
            column_has(col, y) ==> column_cell(col, y) == (if y == cell.y {
                cell
            } else {
                column_cell(cols[x], y)
            }),
    ensures
        grid_of(cols.update(x, col)) == grid_of(cols).insert((x, cell.y as int), cell),
{
    let left = grid_of(cols.update(x, col));
    let right = grid_of(cols).insert((x, cell.y as int), cell);
    assert forall|k: (int, int)| left.contains_key(k) <==> right.contains_key(k) by {
        if k.0 == x {
            assert(column_has(col, k.1) <==> (k.1 == cell.y || column_has(cols[x], k.1)));
        }
    }
    assert forall|k: (int, int)| left.contains_key(k) implies left[k] == right[k] by {
        if k.0 == x {
            assert(column_has(col, k.1));
        }
    }
    assert(left =~= right);
}

/// Finds row `y` in a sorted column by binary search: the index of its cell,
/// or the index at which a cell of that row belongs.
fn find_row(col: &Vec<Cell>, y: u8) -> (r: Result<usize, usize>)
    requires
        column_sorted(col@),
    ensures
        match r {
            Ok(i) => i < col.len() && col[i as int].y == y,
            Err(p) => is_insertion_point(col@, y as int, p as int),
        },
{
    let mut lo: usize = 0;
    let mut hi: usize = col.len();
    while lo < hi
        invariant
            lo <= hi <= col.len(),
            column_sorted(col@),
            forall|j: int| 0 <= j < lo ==> (#[trigger] col@[j]).y < y,
            forall|j: int| hi <= j < col.len() ==> (#[trigger] col@[j]).y > y,
        decreases hi - lo,
    {
        let mid: usize = lo + (hi - lo) / 2;
        let row: u8 = col[mid].y;
        if row == y {
            return Ok(mid);
        } else if row < y {
            lo = mid + 1;
        } else {
            hi = mid;
        }
    }
    Err(lo)
}

/// Appends `cell` to a sorted column and moves it down to its place.
fn push_sorted(col: &mut Vec<Cell>, cell: Cell) -> (p: usize)
    requires
        column_sorted(old(col)@),
        !column_has(old(col)@, cell.y as int),
    ensures
        is_insertion_point(old(col)@, cell.y as int, p as int),
        final(col)@ == old(col)@.insert(p as int, cell),
{
    let ghost before = col@;
    col.push(cell);
    let mut i: usize = col.len() - 1;
    proof {
        before.insert_ensures(i as int, cell);
        assert(col@ =~= before.insert(i as int, cell));
    }
    while i > 0 && col[i - 1].y > cell.y
        invariant
            i <= before.len(),
            col@ == before.insert(i as int, cell),
            column_sorted(before),
            forall|j: int| i <= j < before.len() ==> (#[trigger] before[j]).y > cell.y,
        decreases i,
    {
        proof {
            before.insert_ensures(i as int, cell);
            before.insert_ensures(i as int - 1, cell);
        }
        let below: Cell = col[i - 1];
        col[i] = below;
        col[i - 1] = cell;
        i = i - 1;
        proof {
            assert(col@ =~= before.insert(i as int, cell));
        }
    }
    proof {
        before.insert_ensures(i as int, cell);
        if i > 0 {
            assert(col@[i as int - 1] == before[i as int - 1]);
            assert(before[i as int - 1].y != cell.y);
            assert forall|j: int| 0 <= j < i implies (#[trigger] before[j]).y < cell.y by {
                if j < i - 1 {
                    assert(before[j].y < before[i as int - 1].y);
                }
            }
        }
    }
    i
}

/// A square grid of cells at a fixed place in the world.
#[derive(Debug)]
pub struct Chunk {
    columns: Vec<Vec<Cell>>,
    x: i64,
    y: i64,
}

impl Chunk {
    /// The columns of the chunk, each as the sequence of its cells.
    pub closed spec fn columns(&self) -> Seq<Seq<Cell>> {
        Seq::new(self.columns@.len(), |c: int| self.columns@[c]@)
    }

    /// World position of the chunk's cell `(0, 0)`.
    pub closed spec fn origin(&self) -> (int, int) {
        (self.x as int, self.y as int)
    }

    /// The chunk has `CHUNK_SIZE` columns, each sorted by row without
    /// repetition, and every cell lies in the column and in a row that its
    /// local position names.
    pub open spec fn wf(&self) -> bool {
        &&& self.columns().len() == CHUNK_SIZE
        &&& forall|c: int| 0 <= c < CHUNK_SIZE ==> column_sorted(#[trigger] self.columns()[c])
        &&& forall|c: int, i: int|
            0 <= c < CHUNK_SIZE && 0 <= i < self.columns()[c].len() ==> (
            #[trigger] self.columns()[c][i]).x == c && self.columns()[c][i].y < CHUNK_SIZE
    }

    /// The cells of the chunk by local position.
    pub open spec fn grid(&self) -> Map<(int, int), Cell> {
        grid_of(self.columns())
    }

    /// The chunk holds a cell at local position `(x, y)`.
    pub open spec fn has_cell(&self, x: int, y: int) -> bool {
        self.grid().contains_key((x, y))
    }

    /// The cell at local position `(x, y)`, where the chunk holds one.
    pub open spec fn cell(&self, x: int, y: int) -> Cell {
        self.grid()[(x, y)]
    }

    /// Every local position holds a cell.
    pub open spec fn is_complete(&self) -> bool {
        forall|x: int, y: int|
            0 <= x < CHUNK_SIZE && 0 <= y < CHUNK_SIZE ==> #[trigger] self.has_cell(x, y)
    }

    /// Every cell of the chunk is what the terrain rules make of answers of
    /// `noise` for the cell's world position.
    pub open spec fn generated_from<F: Fn(NoiseQuery) -> i32>(&self, noise: &F, seed: u64) -> bool {
        forall|x: int, y: int|
            0 <= x < CHUNK_SIZE && 0 <= y < CHUNK_SIZE ==> sampled_cell(
                noise,
                seed,
                (self.origin().0 + x) as i64,
                (self.origin().1 + y) as i64,
                x as u8,
                y as u8,
                #[trigger] self.cell(x, y),
            )
    }

    /// An empty chunk whose cell `(0, 0)` lies at world position `(x, y)`.
    pub fn new(x: i64, y: i64) -> (chunk: Chunk)
        ensures
            chunk.wf(),
            chunk.origin() == (x as int, y as int),
            chunk.grid() == Map::<(int, int), Cell>::empty(),
    {
        let mut columns: Vec<Vec<Cell>> = Vec::with_capacity(16);
        let mut c: usize = 0;
        while c < 16
            invariant
                c <= 16,
                columns.len() == c,
                forall|k: int| 0 <= k < c ==> (#[trigger] columns@[k])@.len() == 0,
            decreases 16 - c,
        {
            columns.push(Vec::with_capacity(16));
            c = c + 1;
        }
        let chunk = Chunk { columns, x, y };
        assert(chunk.grid() =~= Map::<(int, int), Cell>::empty());
        chunk
    }

    /// World x coordinate of the chunk's first column.
    pub fn x(&self) -> (x: i64)
        ensures
            x == self.origin().0,
    {
        self.x
    }

    /// World y coordinate of the chunk's first row.
    pub fn y(&self) -> (y: i64)
        ensures
            y == self.origin().1,
    {
        self.y
    }

    /// The cells of column `x`, in ascending order of their row.
    pub fn column(&self, x: usize) -> (col: &Vec<Cell>)
        requires
            self.wf(),
            x < CHUNK_SIZE,
        ensures
            col@ == self.columns()[x as int],
    {
        &self.columns[x]
    }

    /// Builds the chunk at chunk coordinate `(chunk_x, chunk_y)`: every local
    /// position gets the cell that the terrain rules make of the noise at its
    /// world position.
    pub fn generate<F: Fn(NoiseQuery) -> i32>(
        chunk_x: i64,
        chunk_y: i64,
        noise: &F,
        seed: u64,
    ) -> (chunk: Chunk)
        requires
            is_total(noise),
            valid_chunk_coord(chunk_x as int),
            valid_chunk_coord(chunk_y as int),
        ensures
            chunk.wf(),
            chunk.is_complete(),
            chunk.origin() == (chunk_x * CHUNK_SIZE, chunk_y * CHUNK_SIZE),
            chunk.generated_from(noise, seed),
    {
        let mut chunk = Chunk::new(chunk_x * 16, chunk_y * 16);
        let mut x: u8 = 0;
        while x < 16
            invariant
                x <= 16,
                is_total(noise),
                valid_chunk_coord(chunk_x as int),
                valid_chunk_coord(chunk_y as int),
                chunk.wf(),
                chunk.origin() == (chunk_x * 16, chunk_y * 16),
                forall|a: int, b: int| #[trigger]
                    chunk.has_cell(a, b) <==> 0 <= a < x && 0 <= b < 16,
                forall|a: int, b: int|
                    0 <= a < x && 0 <= b < 16 ==> sampled_cell(
                        noise,
                        seed,
                        (chunk_x * 16 + a) as i64,
                        (chunk_y * 16 + b) as i64,
                        a as u8,
                        b as u8,
                        #[trigger] chunk.cell(a, b),
                    ),
            decreases 16 - x,
        {
            let mut y: u8 = 0;
            while y < 16
                invariant
                    x < 16,
                    y <= 16,
                    is_total(noise),
                    valid_chunk_coord(chunk_x as int),
                    valid_chunk_coord(chunk_y as int),
                    chunk.wf(),
                    chunk.origin() == (chunk_x * 16, chunk_y * 16),
                    forall|a: int, b: int| #[trigger]
                        chunk.has_cell(a, b) <==> (0 <= a < x && 0 <= b < 16) || (a == x && 0 <= b
                            < y),
                    forall|a: int, b: int|
                        (0 <= a < x && 0 <= b < 16) || (a == x && 0 <= b < y) ==> sampled_cell(
                            noise,
                            seed,
                            (chunk_x * 16 + a) as i64,
                            (chunk_y * 16 + b) as i64,
                            a as u8,
                            b as u8,
                            #[trigger] chunk.cell(a, b),
                        ),
                decreases 16 - y,
            {
                let cell: Cell = sample_cell(
                    noise,
                    seed,
                    chunk_x * 16 + x as i64,
                    chunk_y * 16 + y as i64,
                    x,
                    y,
                );
                let ghost before = chunk;
                assert(!before.has_cell(x as int, y as int));
                chunk.add_cell(cell);
                proof {
                    assert forall|a: int, b: int| #[trigger]
                        chunk.has_cell(a, b) <==> (0 <= a < x && 0 <= b < 16) || (a == x && 0 <= b
                            < y + 1) by {
                        assert(chunk.has_cell(a, b) <==> (a == x && b == y) || before.has_cell(
                            a,
                            b,
                        ));
                    }
                    assert forall|a: int, b: int|
                        (0 <= a < x && 0 <= b < 16) || (a == x && 0 <= b < y
                            + 1) implies sampled_cell(
                        noise,
                        seed,
                        (chunk_x * 16 + a) as i64,
                        (chunk_y * 16 + b) as i64,
                        a as u8,
                        b as u8,
                        #[trigger] chunk.cell(a, b),
                    ) by {
                        if !(a == x && b == y) {
                            assert(chunk.cell(a, b) == before.cell(a, b));
                        }
                    }
                }
                y = y + 1;
            }
            x = x + 1;
        }
        chunk
    }

    /// Adds a cell at a position that holds none yet: the cell is appended to
    /// its column, and the column is put back in order.
    pub fn add_cell(&mut self, cell: Cell)
        requires
            old(self).wf(),
            cell.in_bounds(),
            !old(self).has_cell(cell.x as int, cell.y as int),
        ensures
            final(self).wf(),
            final(self).origin() == old(self).origin(),
            final(self).grid() == old(self).grid().insert((cell.x as int, cell.y as int), cell),
    {
        let x: usize = cell.x as usize;
        let ghost before = self.columns();
        assert(column_sorted(before[x as int]));
        let p: usize = push_sorted(&mut self.columns[x], cell);
        proof {
            let grown = before[x as int].insert(p as int, cell);
            before[x as int].insert_ensures(p as int, cell);
            lemma_column_insert(before[x as int], p as int, cell);
            lemma_grid_change(before, x as int, grown, cell);
            assert(self.columns() =~= before.update(x as int, grown));
            assert forall|c: int, i: int|
                0 <= c < CHUNK_SIZE && 0 <= i < self.columns()[c].len() implies (
            #[trigger] self.columns()[c][i]).x == c && self.columns()[c][i].y < CHUNK_SIZE by {
                if c == x {
                    if i < p {
                        assert(grown[i] == before[c][i]);
                    } else if i > p {
                        assert(grown[i] == before[c][i - 1]);
                    }
                } else {
                    assert(self.columns()[c][i] == before[c][i]);
                }
            }
        }
    }

    /// Looks up the cell at local position `(x, y)` by binary search in its
    /// column. Where the position holds no cell, the error is the index in
    /// the column at which a cell of row `y` belongs.
    pub fn get_cell(&self, x: usize, y: usize) -> (r: Result<&Cell, usize>)
        requires
            self.wf(),
            x < CHUNK_SIZE,
            y < CHUNK_SIZE,
        ensures
            match r {
                Ok(cell) => self.has_cell(x as int, y as int) && *cell == self.cell(
                    x as int,
                    y as int,
                ) && cell.x == x && cell.y == y,
                Err(p) => !self.has_cell(x as int, y as int) && is_insertion_point(
                    self.columns()[x as int],
                    y as int,
                    p as int,
                ),
            },
    {
        assert(column_sorted(self.columns()[x as int]));
        let col: &Vec<Cell> = &self.columns[x];
        match find_row(col, y as u8) {
            Ok(i) => {
                proof {
                    lemma_index_unique(col@, i as int);
                    assert(self.columns()[x as int][i as int].x == x);
                }
                Ok(&col[i])
            },
            Err(p) => {
                proof {
                    if column_has(col@, y as int) {
                        let k = column_index(col@, y as int);
                        assert(col@[k].y == y);
                    }
                }
                Err(p)
            },
        }
    }

    /// Writes `cell` at its local position: an existing cell there is
    /// overwritten in place, otherwise the cell is added.
    pub fn set_cell(&mut self, cell: Cell)
        requires
            old(self).wf(),
            cell.in_bounds(),
        ensures
            final(self).wf(),
            final(self).origin() == old(self).origin(),
            final(self).grid() == old(self).grid().insert((cell.x as int, cell.y as int), cell),
    {
        let x: usize = cell.x as usize;
        let ghost before = self.columns();
        assert(column_sorted(before[x as int]));
        match find_row(&self.columns[x], cell.y) {
            Ok(i) => {
                self.columns[x][i] = cell;
                proof {
                    let changed = before[x as int].update(i as int, cell);
                    lemma_column_update(before[x as int], i as int, cell);
                    lemma_grid_change(before, x as int, changed, cell);
                    assert(self.columns() =~= before.update(x as int, changed));
                    assert forall|c: int, k: int|
                        0 <= c < CHUNK_SIZE && 0 <= k < self.columns()[c].len() implies (
                    #[trigger] self.columns()[c][k]).x == c && self.columns()[c][k].y
                        < CHUNK_SIZE by {
                        if c != x || k != i {
                            assert(self.columns()[c][k] == before[c][k]);
                        }
                    }
                }
            },
            Err(p) => {
                proof {
                    if column_has(before[x as int], cell.y as int) {
                        let k = column_index(before[x as int], cell.y as int);
                        assert(before[x as int][k].y == cell.y);
                    }
                }
                self.add_cell(cell);
            },
        }
    }
}

/// A cell that is inserted at the index that `get_cell` reports for its row
/// leaves the column sorted, with that cell added and no other changed.
pub proof fn lemma_insertion_point_keeps_order(col: Seq<Cell>, p: int, cell: Cell)
    requires
        column_sorted(col),
        is_insertion_point(col, cell.y as int, p),
    ensures
        column_sorted(col.insert(p, cell)),
        column_cell(col.insert(p, cell), cell.y as int) == cell,
        forall|y: int|
            y != cell.y ==> (#[trigger] column_has(col.insert(p, cell), y) <==> column_has(col, y)),
        forall|y: int|
            y != cell.y && #[trigger] column_has(col, y) ==> column_cell(col.insert(p, cell), y)
                == column_cell(col, y),
{
    lemma_column_insert(col, p, cell);
    assert(column_has(col.insert(p, cell), cell.y as int));
    assert forall|y: int| y != cell.y && #[trigger] column_has(col, y) implies column_cell(
        col.insert(p, cell),
        y,
    ) == column_cell(col, y) by {
        assert(column_has(col.insert(p, cell), y));
    }
}

/// Two chunks built at the same place from a noise field that gives one
/// answer per query hold the same cells at the same positions.
pub proof fn lemma_generate_deterministic<F: Fn(NoiseQuery) -> i32>(
    noise: &F,
    seed: u64,
    first: Chunk,
    second: Chunk,
)
    requires
        is_deterministic(noise),
        first.wf(),
        second.wf(),
        first.is_complete(),
        second.is_complete(),
        first.origin() == second.origin(),
        first.generated_from(noise, seed),
        second.generated_from(noise, seed),
    ensures
        first.grid() == second.grid(),
{
    assert forall|k: (int, int)| first.grid().contains_key(k) <==> second.grid().contains_key(
        k,
    ) by {
        if first.grid().contains_key(k) {
            let i = column_index(first.columns()[k.0], k.1);
            assert(first.columns()[k.0][i].y < CHUNK_SIZE);
            assert(second.has_cell(k.0, k.1));
        }
        if second.grid().contains_key(k) {
            let i = column_index(second.columns()[k.0], k.1);
            assert(second.columns()[k.0][i].y < CHUNK_SIZE);
            assert(first.has_cell(k.0, k.1));
        }
    }
    assert forall|k: (int, int)| first.grid().contains_key(k) implies first.grid()[k]
        == second.grid()[k] by {
        let i = column_index(first.columns()[k.0], k.1);
        assert(first.columns()[k.0][i].y < CHUNK_SIZE);
        assert(first.cell(k.0, k.1) == first.grid()[k]);
        assert(second.cell(k.0, k.1) == second.grid()[k]);
        lemma_sampled_cell_deterministic(
            noise,
            seed,
            (first.origin().0 + k.0) as i64,
            (first.origin().1 + k.1) as i64,
            k.0 as u8,
            k.1 as u8,
            first.cell(k.0, k.1),
            second.cell(k.0, k.1),
        );
    }
    assert(first.grid() =~= second.grid());
}

} // verus!
