//! The visibility resolver: from the viewport's rectangle in world units to
//! the chunks that cover it.
//!
//! The rectangle arrives in whole world units, its low edges rounded down
//! and its high edges rounded up. Chunk coordinates are `i32`; a rectangle
//! that reaches past the chunks an `i32` can name is cut off there.

use crate::chunk::{ChunkCoord, CHUNK_SIZE};
use vstd::arithmetic::div_mod::{
    lemma_fundamental_div_mod, lemma_fundamental_div_mod_converse_div,
    lemma_fundamental_div_mod_converse_mod,
    lemma_div_is_ordered,
};
use vstd::prelude::*;

verus! {

/// `value` brought into the range of `i32`.
pub open spec fn clamp_to_i32(value: int) -> int {
    if value < i32::MIN {
        i32::MIN as int
    } else if value > i32::MAX {
        i32::MAX as int
    } else {
        value
    }
}

/// The coordinate of the chunk that holds world coordinate `world`, where
/// an `i32` can name it: `world / CHUNK_SIZE`, rounded down.
pub open spec fn spec_chunk_floor(world: int) -> int {
    clamp_to_i32(world / (CHUNK_SIZE as int))
}

/// `world / CHUNK_SIZE`, rounded up, where an `i32` can name it.
pub open spec fn spec_chunk_ceil(world: int) -> int {
    clamp_to_i32((world + (CHUNK_SIZE - 1)) / (CHUNK_SIZE as int))
}

/// The chunk that holds the world cell `(world_x, world_y)`.
pub open spec fn chunk_of(world_x: int, world_y: int) -> (int, int) {
    (world_x / (CHUNK_SIZE as int), world_y / (CHUNK_SIZE as int))
}

/// `world / CHUNK_SIZE`, rounded down.
fn floor_quotient(world: i64) -> (quotient: i64)
    ensures
        quotient == world as int / (CHUNK_SIZE as int),
{
    if world >= 0 {
        world / 64
    } else {
        let below: i64 = -(world + 1);
        -1 - below / 64
    }
}

/// The nearest `i32` to `value`.
fn clamp(value: i64) -> (clamped: i32)
    ensures
        clamped == clamp_to_i32(value as int),
{
    if value < i32::MIN as i64 {
        i32::MIN
    } else if value > i32::MAX as i64 {
        i32::MAX
    } else {
        value as i32
    }
}

/// Divides a world coordinate by the chunk size, rounding down.
pub fn chunk_floor(world: i64) -> (chunk: i32)
    ensures
        chunk == spec_chunk_floor(world as int),
{
    clamp(floor_quotient(world))
}

/// Divides a world coordinate by the chunk size, rounding up.
pub fn chunk_ceil(world: i64) -> (chunk: i32)
    ensures
        chunk == spec_chunk_ceil(world as int),
{
    if world > 0 {
        clamp((world - 1) / 64 + 1)
    } else {
        clamp(floor_quotient(world + 63))
    }
}

/// An inclusive rectangle of chunk coordinates.
#[derive(Clone, Copy, PartialEq, Eq, Debug, Structural)]
pub struct ChunkRange {
    pub min_x: i32,
    pub max_x: i32,
    pub min_y: i32,
    pub max_y: i32,
}

impl ChunkRange {
    /// Whether the chunk at `(x, y)` lies in the range.
    pub open spec fn contains(&self, x: int, y: int) -> bool {
        self.min_x <= x <= self.max_x && self.min_y <= y <= self.max_y
    }

    /// The number of chunk columns.
    pub open spec fn columns(&self) -> int {
        if self.max_x < self.min_x {
            0
        } else {
            self.max_x - self.min_x + 1
        }
    }

    /// The number of chunk rows.
    pub open spec fn rows(&self) -> int {
        if self.max_y < self.min_y {
            0
        } else {
            self.max_y - self.min_y + 1
        }
    }

    /// The number of chunks.
    pub open spec fn count(&self) -> int {
        self.columns() * self.rows()
    }

    /// The `k`-th chunk of the range: columns from left to right, and each
    /// column from top to bottom.
    pub open spec fn coord_at(&self, k: int) -> ChunkCoord {
        ChunkCoord {
            x: (self.min_x + k / self.rows()) as i32,
            y: (self.min_y + k % self.rows()) as i32,
        }
    }

    /// The chunks of the range in order.
    pub open spec fn coords(&self) -> Seq<ChunkCoord> {
        Seq::new(self.count() as nat, |k: int| self.coord_at(k))
    }

    /// The number of chunks, if a `usize` can hold it.
    pub fn len(&self) -> (count: Option<usize>)
        ensures
            match count {
                Some(n) => n == self.count(),
                None => self.count() > usize::MAX,
            },
    {
        if self.max_x < self.min_x || self.max_y < self.min_y {
            assert(self.count() == 0) by (nonlinear_arith)
                requires
                    self.columns() == 0 || self.rows() == 0,
                    self.count() == self.columns() * self.rows(),
            ;
            return Some(0);
        }
        let columns: u128 = (self.max_x as i64 - self.min_x as i64 + 1) as u128;
        let rows: u128 = (self.max_y as i64 - self.min_y as i64 + 1) as u128;
        assert(columns * rows <= 0x1_0000_0000 * 0x1_0000_0000) by (nonlinear_arith)
            requires
                columns <= 0x1_0000_0000,
                rows <= 0x1_0000_0000,
        ;
        let count: u128 = columns * rows;
        if count <= usize::MAX as u128 {
            Some(count as usize)
        } else {
            None
        }
    }
}

/// The chunk range of the viewport rectangle `[left, right] x [top, bottom]`.
pub open spec fn spec_visible_range(left: int, top: int, right: int, bottom: int) -> ChunkRange {
    ChunkRange {
        min_x: spec_chunk_floor(left) as i32,
        max_x: spec_chunk_ceil(right) as i32,
        min_y: spec_chunk_floor(top) as i32,
        max_y: spec_chunk_ceil(bottom) as i32,
    }
}

/// The chunk range of a viewport: the low edges divided by the chunk size
/// and rounded down, the high edges divided and rounded up.
pub fn visible_range(left: i64, top: i64, right: i64, bottom: i64) -> (range: ChunkRange)
    ensures
        range == spec_visible_range(left as int, top as int, right as int, bottom as int),
        left <= right && top <= bottom ==> range.count() > 0,
{
    proof {
        if left <= right && top <= bottom {
            lemma_div_is_ordered(left as int, right + 63, 64);
            lemma_div_is_ordered(top as int, bottom + 63, 64);
            let spec_range = spec_visible_range(
                left as int,
                top as int,
                right as int,
                bottom as int,
            );
            assert(spec_range.columns() * spec_range.rows() > 0) by (nonlinear_arith)
                requires
                    spec_range.columns() > 0,
                    spec_range.rows() > 0,
            ;
        }
    }
    ChunkRange {
        min_x: chunk_floor(left),
        max_x: chunk_ceil(right),
        min_y: chunk_floor(top),
        max_y: chunk_ceil(bottom),
    }
}

/// Where `row` is a row of a column of height `rows`, the chunk numbered
/// `column * rows + row` is the one in that column and row.
pub proof fn lemma_coord_at_cell(range: ChunkRange, column: int, row: int)
    requires
        0 <= column < range.columns(),
        0 <= row < range.rows(),
    ensures
        0 <= column * range.rows() + row < range.count(),
        range.coord_at(column * range.rows() + row) == (ChunkCoord {
            x: (range.min_x + column) as i32,
            y: (range.min_y + row) as i32,
        }),
{
    let rows = range.rows();
    let k = column * rows + row;
    lemma_fundamental_div_mod_converse_div(k, rows, column, row);
    lemma_fundamental_div_mod_converse_mod(k, rows, column, row);
    assert(0 <= column * rows) by (nonlinear_arith)
        requires
            0 <= column,
            0 <= rows,
    ;
    assert(column * rows + rows <= range.columns() * rows) by (nonlinear_arith)
        requires
            column + 1 <= range.columns(),
            0 <= rows,
    ;
}

/// Every chunk that the enumeration gives lies in the range.
pub proof fn lemma_coords_lie_in_range(range: ChunkRange, k: int)
    requires
        0 <= k < range.count(),
    ensures
        range.contains(range.coord_at(k).x as int, range.coord_at(k).y as int),
        range.coord_at(k).x == range.min_x + k / range.rows(),
        range.coord_at(k).y == range.min_y + k % range.rows(),
{
    let rows = range.rows();
    let columns = range.columns();
    assert(rows > 0 && columns > 0) by (nonlinear_arith)
        requires
            0 <= rows,
            0 <= columns,
            0 < columns * rows,
    ;
    lemma_fundamental_div_mod(k, rows);
    let q = k / rows;
    let r = k % rows;
    assert(0 <= q < columns) by (nonlinear_arith)
        requires
            k == rows * q + r,
            0 <= r < rows,
            0 <= k < columns * rows,
    ;
}

/// The enumeration covers the range: every chunk of the range is given,
/// at the place that its column and row assign to it.
pub proof fn lemma_coords_cover_range(range: ChunkRange, coord: ChunkCoord)
    requires
        range.contains(coord.x as int, coord.y as int),
    ensures
        ({
            let k = (coord.x - range.min_x) * range.rows() + (coord.y - range.min_y);
            0 <= k < range.coords().len() && range.coords()[k] == coord
        }),
{
    lemma_coord_at_cell(range, coord.x - range.min_x, coord.y - range.min_y);
}

/// The enumeration gives no chunk twice.
pub proof fn lemma_coords_are_distinct(range: ChunkRange, j: int, k: int)
    requires
        0 <= j < range.count(),
        0 <= k < range.count(),
        j != k,
    ensures
        range.coords()[j] != range.coords()[k],
{
    lemma_coords_lie_in_range(range, j);
    lemma_coords_lie_in_range(range, k);
    let rows = range.rows();
    if range.coord_at(j) == range.coord_at(k) {
        lemma_fundamental_div_mod(j, rows);
        lemma_fundamental_div_mod(k, rows);
        assert(false);
    }
}

/// Lists the chunks of a range, column by column from left to right and
/// each column from top to bottom.
pub fn chunks_in_range(range: &ChunkRange) -> (chunks: Vec<ChunkCoord>)
    requires
        range.count() <= usize::MAX,
    ensures
        chunks@ == range.coords(),
{
    let mut chunks: Vec<ChunkCoord> = Vec::new();
    if range.max_x < range.min_x || range.max_y < range.min_y {
        assert(range.count() == 0) by (nonlinear_arith)
            requires
                range.columns() == 0 || range.rows() == 0,
                range.count() == range.columns() * range.rows(),
        ;
        assert(chunks@ =~= range.coords());
        return chunks;
    }
    let ghost rows = range.rows();
    let mut x: i64 = range.min_x as i64;
    while x <= range.max_x as i64
        invariant
            range.min_x <= range.max_x,
            range.min_y <= range.max_y,
            rows == range.rows(),
            range.min_x <= x <= range.max_x + 1,
            chunks@.len() == (x - range.min_x) * rows,
            forall|k: int| 0 <= k < chunks@.len() ==> chunks@[k] == range.coord_at(k),
        decreases range.max_x + 1 - x,
    {
        let mut y: i64 = range.min_y as i64;
        while y <= range.max_y as i64
            invariant
                range.min_x <= range.max_x,
                range.min_y <= range.max_y,
                rows == range.rows(),
                range.min_x <= x <= range.max_x,
                range.min_y <= y <= range.max_y + 1,
                chunks@.len() == (x - range.min_x) * rows + (y - range.min_y),
                forall|k: int| 0 <= k < chunks@.len() ==> chunks@[k] == range.coord_at(k),
            decreases range.max_y + 1 - y,
        {
            proof {
                lemma_coord_at_cell(*range, x - range.min_x, y - range.min_y);
            }
            chunks.push(ChunkCoord::new(x as i32, y as i32));
            y += 1;
        }
        assert((x - range.min_x) * rows + rows == (x + 1 - range.min_x) * rows)
            by (nonlinear_arith);
        x += 1;
    }
    assert(chunks@ =~= range.coords());
    chunks
}

/// Coverage: every world cell of the viewport rectangle whose chunk an `i32`
/// can name lies in a chunk of the viewport's range.
pub proof fn lemma_visible_range_covers(
    left: int,
    top: int,
    right: int,
    bottom: int,
    world_x: int,
    world_y: int,
)
    requires
        left <= world_x <= right,
        top <= world_y <= bottom,
        i32::MIN <= chunk_of(world_x, world_y).0 <= i32::MAX,
        i32::MIN <= chunk_of(world_x, world_y).1 <= i32::MAX,
    ensures
        spec_visible_range(left, top, right, bottom).contains(
            chunk_of(world_x, world_y).0,
            chunk_of(world_x, world_y).1,
        ),
{
    lemma_div_is_ordered(left, world_x, 64);
    lemma_div_is_ordered(world_x, right + 63, 64);
    lemma_div_is_ordered(top, world_y, 64);
    lemma_div_is_ordered(world_y, bottom + 63, 64);
}

/// The list of visible chunks covers the viewport: the chunk of every world
/// cell of the rectangle, where an `i32` can name it, is in the list.
pub proof fn lemma_visible_chunks_cover_viewport(
    left: int,
    top: int,
    right: int,
    bottom: int,
    world_x: int,
    world_y: int,
)
    requires
        left <= world_x <= right,
        top <= world_y <= bottom,
        i32::MIN <= chunk_of(world_x, world_y).0 <= i32::MAX,
        i32::MIN <= chunk_of(world_x, world_y).1 <= i32::MAX,
    ensures
        spec_visible_range(left, top, right, bottom).coords().contains(
            ChunkCoord {
                x: chunk_of(world_x, world_y).0 as i32,
                y: chunk_of(world_x, world_y).1 as i32,
            },
        ),
{
    let range = spec_visible_range(left, top, right, bottom);
    let home = ChunkCoord {
        x: chunk_of(world_x, world_y).0 as i32,
        y: chunk_of(world_x, world_y).1 as i32,
    };
    lemma_visible_range_covers(left, top, right, bottom, world_x, world_y);
    lemma_coords_cover_range(range, home);
}

/// The chunk that holds the world cell `(world_x, world_y)`, as a
/// coordinate.
pub open spec fn home_chunk(world_x: int, world_y: int) -> ChunkCoord {
    ChunkCoord { x: chunk_of(world_x, world_y).0 as i32, y: chunk_of(world_x, world_y).1 as i32 }
}

/// Whether an `i32` pair can name the chunk of the world cell.
pub open spec fn has_chunk(world_x: int, world_y: int) -> bool {
    &&& i32::MIN <= chunk_of(world_x, world_y).0 <= i32::MAX
    &&& i32::MIN <= chunk_of(world_x, world_y).1 <= i32::MAX
}

/// Whether `chunks` covers the rectangle `[left, right] x [top, bottom]`:
/// the chunk of every world cell of the rectangle that has one is listed.
pub open spec fn covers_viewport(
    chunks: Seq<ChunkCoord>,
    left: int,
    top: int,
    right: int,
    bottom: int,
) -> bool {
    forall|world_x: int, world_y: int|
        left <= world_x <= right && top <= world_y <= bottom && has_chunk(world_x, world_y)
            ==> chunks.contains(#[trigger] home_chunk(world_x, world_y))
}

/// The list of a viewport's chunks covers the viewport and names no chunk
/// twice.
pub proof fn lemma_visible_chunks_are_a_cover(left: int, top: int, right: int, bottom: int)
    ensures
        covers_viewport(
            spec_visible_range(left, top, right, bottom).coords(),
            left,
            top,
            right,
            bottom,
        ),
        spec_visible_range(left, top, right, bottom).coords().no_duplicates(),
{
    let range = spec_visible_range(left, top, right, bottom);
    assert forall|world_x: int, world_y: int|
        left <= world_x <= right && top <= world_y <= bottom && has_chunk(
            world_x,
            world_y,
        ) implies range.coords().contains(#[trigger] home_chunk(world_x, world_y)) by {
        lemma_visible_chunks_cover_viewport(left, top, right, bottom, world_x, world_y);
    }
    assert forall|j: int, k: int|
        0 <= j < range.coords().len() && 0 <= k < range.coords().len() && j != k implies range.coords()[j]
        != range.coords()[k] by {
        lemma_coords_are_distinct(range, j, k);
    }
}

/// Lists the chunks under the viewport rectangle
/// `[left, right] x [top, bottom]`, given in whole world units: column by
/// column from left to right, each column from top to bottom. The list
/// covers the rectangle and names no chunk twice. There is no list where
/// the chunks are more than a `usize` can count.
pub fn visible_chunks(left: i64, top: i64, right: i64, bottom: i64) -> (chunks: Option<
    Vec<ChunkCoord>,
>)
    ensures
        match chunks {
            Some(list) => {
                &&& list@ == spec_visible_range(
                    left as int,
                    top as int,
                    right as int,
                    bottom as int,
                ).coords()
                &&& covers_viewport(list@, left as int, top as int, right as int, bottom as int)
                &&& list@.no_duplicates()
                &&& left <= right && top <= bottom ==> list@.len() > 0
            },
            None => spec_visible_range(
                left as int,
                top as int,
                right as int,
                bottom as int,
            ).count() > usize::MAX,
        },
{
    let range = visible_range(left, top, right, bottom);
    proof {
        lemma_visible_chunks_are_a_cover(left as int, top as int, right as int, bottom as int);
    }
    match range.len() {
        Some(_) => Some(chunks_in_range(&range)),
        None => None,
    }
}

/// Tightness: a chunk of the viewport's range that was not cut off lies
/// against the viewport rectangle. Its last column of cells is not left of
/// the rectangle, and its first column is less than one chunk right of it;
/// likewise for its rows.
pub proof fn lemma_visible_range_is_tight(
    left: int,
    top: int,
    right: int,
    bottom: int,
    x: int,
    y: int,
)
    requires
        spec_visible_range(left, top, right, bottom).contains(x, y),
        i32::MIN < x < i32::MAX,
        i32::MIN < y < i32::MAX,
    ensures
        left <= x * CHUNK_SIZE + (CHUNK_SIZE - 1),
        x * CHUNK_SIZE < right + CHUNK_SIZE,
        top <= y * CHUNK_SIZE + (CHUNK_SIZE - 1),
        y * CHUNK_SIZE < bottom + CHUNK_SIZE,
{
    lemma_fundamental_div_mod(left, 64);
    lemma_fundamental_div_mod(right + 63, 64);
    lemma_fundamental_div_mod(top, 64);
    lemma_fundamental_div_mod(bottom + 63, 64);
}

} // verus!
