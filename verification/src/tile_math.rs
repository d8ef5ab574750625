//! Layout of the tile grid around the requested map center. Distances are in
//! logical pixels of the map at the requested zoom; the projection between
//! pixels and coordinates is floating-point work done by the caller.

use vstd::prelude::*;

verus! {

/// Side of one fetched tile in physical pixels (a 1280 x 1280 tile at 2x).
pub const PHYSICAL_TILE_SIZE_PX: u32 = 2560;

/// Side of one fetched tile in logical map pixels.
pub const LOGICAL_TILE_SIZE_PX: u32 = 1280;

/// One tile of the grid: its position and the offset of its center from the
/// center of the whole grid, in logical pixels (x grows to the east, y to the south).
#[derive(Clone, Copy, Debug, PartialEq, Eq)]
pub struct TileOffset {
    pub row: u32,
    pub col: u32,
    pub dx_px: i64,
    pub dy_px: i64,
}

/// Why no grid can be laid out.
#[derive(Clone, Copy, Debug, PartialEq, Eq)]
pub enum GridError {
    /// The grid has no rows or no columns.
    EmptyGrid,
}

/// Offset of the center of tile `index` among `count` tiles in a line from the
/// center of the line: `(index - (count - 1) / 2) * LOGICAL_TILE_SIZE_PX`,
/// that is `(2 * index + 1 - count)` half tiles of 640 logical pixels.
pub open spec fn center_offset(index: int, count: int) -> int {
    (2 * index + 1 - count) * 640
}

/// Where the tile at (`row`, `col`) stands in a row-major list of a grid with `cols` columns.
pub open spec fn grid_index(row: int, col: int, cols: int) -> int {
    row * cols + col
}

/// The grid entry of the tile at (`row`, `col`) in a `cols` by `rows` grid.
pub open spec fn grid_entry(row: u32, col: u32, cols: u32, rows: u32) -> TileOffset {
    TileOffset {
        row,
        col,
        dx_px: center_offset(col as int, cols as int) as i64,
        dy_px: center_offset(row as int, rows as int) as i64,
    }
}

proof fn lemma_row_block(a: int, b: int, n: int)
    by (nonlinear_arith)
    requires
        0 <= a < b,
        0 <= n,
    ensures
        0 <= a * n,
        a * n + n <= b * n,
{
}

proof fn lemma_grid_index_bounds(r: int, c: int, row: int, col: int, cols: int)
    requires
        0 <= r,
        0 <= c < cols,
        0 <= col,
        r < row || (r == row && c < col),
    ensures
        0 <= r * cols + c < row * cols + col,
{
    if r < row {
        lemma_row_block(r, row, cols);
    } else {
        lemma_row_block(r, r + 1, cols);
    }
}

proof fn lemma_next_row(row: int, cols: int)
    by (nonlinear_arith)
    ensures
        row * cols + cols == (row + 1) * cols,
        row * cols == cols * row,
{
}

/// Offset of the center of tile `index` among `count` tiles, computed exactly.
fn tile_center_offset(index: u32, count: u32) -> (r: i64)
    requires
        index < count,
    ensures
        r == center_offset(index as int, count as int),
{
    let doubled: i64 = 2 * (index as i64) + 1 - (count as i64);
    doubled * 640
}

/// Lays out a `cols` by `rows` grid of tiles in row-major order, each with the
/// offset of its center from the center of the grid. An empty grid is refused.
pub fn tile_grid_offsets(cols: u32, rows: u32) -> (r: Result<Vec<TileOffset>, GridError>)
    requires
        cols > 0 && rows > 0 ==> cols * rows <= u32::MAX,
    ensures
        cols == 0 || rows == 0 ==> r == Err::<Vec<TileOffset>, GridError>(GridError::EmptyGrid),
        cols > 0 && rows > 0 ==> (r matches Ok(tiles) && {
            &&& tiles@.len() == cols * rows
            &&& forall|row: u32, col: u32|
                row < rows && col < cols ==> tiles@[#[trigger] grid_index(row as int, col as int, cols as int)]
                    == grid_entry(row, col, cols, rows)
        }),
{
    if cols == 0 || rows == 0 {
        return Err(GridError::EmptyGrid);
    }
    let mut tiles: Vec<TileOffset> = Vec::with_capacity((cols * rows) as usize);
    let mut row: u32 = 0;
    while row < rows
        invariant
            0 < cols,
            row <= rows,
            tiles@.len() == row * cols,
            forall|r: u32, c: u32|
                r < row && c < cols ==> tiles@[#[trigger] grid_index(r as int, c as int, cols as int)]
                    == grid_entry(r, c, cols, rows),
        decreases rows - row,
    {
        let dy = tile_center_offset(row, rows);
        let mut col: u32 = 0;
        while col < cols
            invariant
                0 < cols,
                row < rows,
                col <= cols,
                dy == center_offset(row as int, rows as int),
                tiles@.len() == row * cols + col,
                forall|r: u32, c: u32|
                    (r < row || (r == row && c < col)) && c < cols
                        ==> tiles@[#[trigger] grid_index(r as int, c as int, cols as int)]
                        == grid_entry(r, c, cols, rows),
            decreases cols - col,
        {
            let dx = tile_center_offset(col, cols);
            let ghost before = tiles@;
            tiles.push(TileOffset { row, col, dx_px: dx, dy_px: dy });
            assert forall|r: u32, c: u32|
                (r < row || (r == row && c < col + 1)) && c < cols
                    implies tiles@[#[trigger] grid_index(r as int, c as int, cols as int)]
                    == grid_entry(r, c, cols, rows) by {
                if r == row && c == col {
                    assert(grid_index(r as int, c as int, cols as int) == before.len());
                } else {
                    lemma_grid_index_bounds(r as int, c as int, row as int, col as int, cols as int);
                }
            }
            col = col + 1;
        }
        proof {
            lemma_next_row(row as int, cols as int);
        }
        row = row + 1;
    }
    proof {
        lemma_next_row(rows as int, cols as int);
    }
    Ok(tiles)
}

/// Law: neighbouring tiles of a grid are one tile apart, across a row and
/// down a column, so the stitched tiles join without gap or overlap.
pub proof fn lemma_neighbouring_tiles_one_tile_apart(row: u32, col: u32, cols: u32, rows: u32)
    ensures
        col + 1 < cols ==> grid_entry(row, (col + 1) as u32, cols, rows).dx_px - grid_entry(row, col, cols, rows).dx_px
            == LOGICAL_TILE_SIZE_PX as int,
        row + 1 < rows ==> grid_entry((row + 1) as u32, col, cols, rows).dy_px - grid_entry(row, col, cols, rows).dy_px
            == LOGICAL_TILE_SIZE_PX as int,
{
}

/// Law: the grid is centered on the requested point: a tile and its mirror
/// image across the center have opposite offsets.
pub proof fn lemma_grid_centered(row: u32, col: u32, cols: u32, rows: u32)
    requires
        row < rows,
        col < cols,
    ensures
        grid_entry(row, col, cols, rows).dx_px == -grid_entry(row, (cols - 1 - col) as u32, cols, rows).dx_px,
        grid_entry(row, col, cols, rows).dy_px == -grid_entry((rows - 1 - row) as u32, col, cols, rows).dy_px,
{
}

} // verus!
