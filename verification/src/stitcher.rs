//! Stitching tiles into one canvas: decoding each tile, then laying the
//! decoded images out on a grid.

use vstd::prelude::*;
use std::collections::HashMap;
use crate::downloader::DownloadedTile;
use crate::raster::{
    Raster, RasterFormat, rgb_pixels, rgb_dimensions, well_shaped, overlaid, raster_area,
    decoded_with_format, holds_decoded, new_rgb_image, image_dimensions, replace_region,
    decode_with_format, decode_guessing_format,
};
use crate::raster::{jpeg_encoding, png_encoding, encode_jpeg, encode_png};
use crate::text::{lower_seq, to_ascii_lowercase, same_text};
use crate::tile_math::PHYSICAL_TILE_SIZE_PX;

verus! {

broadcast use vstd::std_specs::hash::group_hash_axioms;

/// Why a grid of tiles could not be stitched.
#[derive(Clone, Copy, Debug, PartialEq, Eq)]
pub enum StitchError {
    /// The grid has no rows or no columns.
    EmptyGrid,
    /// The number of tiles is not `cols * rows`.
    TileCountMismatch { expected: usize, actual: usize },
    /// No tile was downloaded for this grid cell.
    MissingTile { row: u32, col: u32 },
    /// The bytes of this cell's tile are not an image that can be decoded.
    UndecodableTile { row: u32, col: u32 },
    /// This cell's image is not `expected_size` pixels square.
    TileSizeMismatch { row: u32, col: u32, expected_size: u32, width: u32, height: u32 },
}

/// A tile of the grid with its bytes decoded: `image` is `None` when they could
/// not be decoded.
#[derive(Debug)]
pub struct DecodedTile {
    pub row: u32,
    pub col: u32,
    pub image: Option<Raster>,
}

/// The image of the last tile in `tiles` placed at (`row`, `col`): `None` when
/// no tile is placed there, `Some(None)` when that tile could not be decoded.
pub open spec fn decoded_at(tiles: Seq<DecodedTile>, row: u32, col: u32) -> Option<Option<Raster>>
    decreases tiles.len(),
{
    if tiles.len() == 0 {
        None
    } else if tiles.last().row == row && tiles.last().col == col {
        Some(tiles.last().image)
    } else {
        decoded_at(tiles.drop_last(), row, col)
    }
}

/// What is wrong with grid cell (`row`, `col`), if anything.
pub open spec fn cell_error(tiles: Seq<DecodedTile>, tile_size: u32, row: u32, col: u32) -> Option<StitchError> {
    match decoded_at(tiles, row, col) {
        None => Some(StitchError::MissingTile { row, col }),
        Some(None) => Some(StitchError::UndecodableTile { row, col }),
        Some(Some(image)) => {
            let (width, height) = rgb_dimensions(image);
            if width == tile_size && height == tile_size {
                None
            } else {
                Some(StitchError::TileSizeMismatch { row, col, expected_size: tile_size, width, height })
            }
        },
    }
}

/// The error of the first faulty cell at or after (`row`, `col`) in row-major order.
pub open spec fn first_cell_error(
    tiles: Seq<DecodedTile>,
    cols: int,
    rows: int,
    tile_size: u32,
    row: int,
    col: int,
) -> Option<StitchError>
    decreases rows - row, cols - col,
{
    if row >= rows {
        None
    } else if col >= cols {
        first_cell_error(tiles, cols, rows, tile_size, row + 1, 0)
    } else {
        match cell_error(tiles, tile_size, row as u32, col as u32) {
            Some(e) => Some(e),
            None => first_cell_error(tiles, cols, rows, tile_size, row, col + 1),
        }
    }
}

/// Why stitching `tiles` into a `cols` by `rows` grid fails, or `None` when it succeeds.
pub open spec fn stitch_failure(tiles: Seq<DecodedTile>, cols: u32, rows: u32, tile_size: u32) -> Option<StitchError> {
    if cols == 0 || rows == 0 {
        Some(StitchError::EmptyGrid)
    } else if tiles.len() != cols * rows {
        Some(StitchError::TileCountMismatch { expected: (cols * rows) as usize, actual: tiles.len() as usize })
    } else {
        first_cell_error(tiles, cols as int, rows as int, tile_size, 0, 0)
    }
}

/// The pixels of the image of the tile at (`row`, `col`).
pub open spec fn tile_pixels(tiles: Seq<DecodedTile>, row: u32, col: u32) -> Map<(int, int), (u8, u8, u8)> {
    rgb_pixels(decoded_at(tiles, row, col).unwrap().unwrap())
}

/// A canvas that can be made: both sides fit in `u32` and its RGB buffer in
/// one vector (larger canvases make the arithmetic or the allocation panic).
pub open spec fn canvas_fits(cols: u32, rows: u32, tile_size: u32) -> bool {
    &&& cols * tile_size <= u32::MAX
    &&& rows * tile_size <= u32::MAX
    &&& 3 * (cols * tile_size) * (rows * tile_size) <= isize::MAX
}

/// Every canvas of at most 16384 pixels on each side can be made, on 32-bit
/// and 64-bit targets alike.
pub proof fn lemma_canvas_fits(cols: u32, rows: u32, tile_size: u32)
    requires
        cols * tile_size <= 16384,
        rows * tile_size <= 16384,
    ensures
        canvas_fits(cols, rows, tile_size),
{
    let w = cols * tile_size;
    let h = rows * tile_size;
    assert(0 <= w * h <= 16384 * 16384) by (nonlinear_arith)
        requires
            0 <= w <= 16384,
            0 <= h <= 16384,
    ;
    assert(3 * w * h == 3 * (w * h)) by (nonlinear_arith);
}

/// Every pixel of the cells before (`row`, `col`) in row-major order is the
/// matching pixel of that cell's tile.
pub open spec fn cells_placed(
    pixels: Map<(int, int), (u8, u8, u8)>,
    tiles: Seq<DecodedTile>,
    cols: int,
    tile_size: int,
    row: int,
    col: int,
) -> bool {
    forall|r: u32, c: u32, x: int, y: int|
        (r < row || (r == row && c < col)) && c < cols && 0 <= x < tile_size && 0 <= y < tile_size
            ==> pixels[(c * tile_size + x, r * tile_size + y)] == #[trigger] tile_pixels(tiles, r, c)[(x, y)]
}

/// `canvas` is the `cols` by `rows` mosaic of the tiles: each cell holds the
/// pixels of its tile.
pub open spec fn mosaic_of(canvas: Raster, tiles: Seq<DecodedTile>, cols: u32, rows: u32, tile_size: u32) -> bool {
    &&& rgb_dimensions(canvas) == ((cols * tile_size) as u32, (rows * tile_size) as u32)
    &&& well_shaped(canvas)
    &&& cells_placed(rgb_pixels(canvas), tiles, cols as int, tile_size as int, rows as int, 0)
}

/// The key under which the tile of a grid position is found.
pub open spec fn position_key(row: u32, col: u32) -> u64 {
    (row * 4294967296 + col) as u64
}

proof fn lemma_cell_inside(c: int, n: int, x: int, ts: int)
    by (nonlinear_arith)
    requires
        0 <= c < n,
        0 <= x < ts,
    ensures
        0 <= c * ts + x < n * ts,
        c * ts + ts <= n * ts,
{
}

proof fn lemma_cell_start(c: int, n: int, ts: int)
    by (nonlinear_arith)
    requires
        0 <= c < n,
        0 <= ts,
    ensures
        0 <= c * ts,
        c * ts + ts <= n * ts,
{
}

proof fn lemma_same_cell(a: int, b: int, x: int, ts: int)
    by (nonlinear_arith)
    requires
        0 <= a,
        0 <= b,
        0 <= x < ts,
        0 <= a * ts + x - b * ts < ts,
    ensures
        a == b,
{
    if a < b {
        assert(a * ts + ts <= b * ts);
    } else if a > b {
        assert(b * ts + ts <= a * ts);
    }
}

proof fn lemma_place_cell(
    pixels: Map<(int, int), (u8, u8, u8)>,
    top: Map<(int, int), (u8, u8, u8)>,
    tiles: Seq<DecodedTile>,
    cols: int,
    rows: int,
    ts: int,
    row: u32,
    col: u32,
)
    requires
        row < rows,
        col < cols,
        0 <= ts,
        pixels.dom() == raster_area(cols * ts, rows * ts),
        top == tile_pixels(tiles, row, col),
        cells_placed(pixels, tiles, cols, ts, row as int, col as int),
    ensures
        cells_placed(
            overlaid(pixels, top, ts, ts, col * ts, row * ts),
            tiles,
            cols,
            ts,
            row as int,
            col + 1,
        ),
{
    let q = overlaid(pixels, top, ts, ts, col * ts, row * ts);
    assert forall|r: u32, c: u32, x: int, y: int|
        (r < row || (r == row && c < col + 1)) && c < cols && 0 <= x < ts && 0 <= y < ts implies
        q[(c * ts + x, r * ts + y)] == #[trigger] tile_pixels(tiles, r, c)[(x, y)] by {
        lemma_cell_inside(c as int, cols, x, ts);
        lemma_cell_inside(r as int, rows, y, ts);
        let p = (c * ts + x, r * ts + y);
        assert(pixels.dom().contains(p));
        if r == row && c == col {
            assert(p.0 - col * ts == x);
            assert(p.1 - row * ts == y);
        } else {
            if 0 <= p.0 - col * ts < ts && 0 <= p.1 - row * ts < ts {
                lemma_same_cell(c as int, col as int, x, ts);
                lemma_same_cell(r as int, row as int, y, ts);
            }
        }
    }
}

/// Puts a decoded tile onto the canvas with its corner at
/// (`col * tile_size_px`, `row * tile_size_px`); refuses a tile that could not be
/// decoded or is not `tile_size_px` pixels square, leaving the canvas as it was.
pub fn place_decoded_tile(canvas: &mut Raster, decoded: &Option<Raster>, row: u32, col: u32, tile_size_px: u32) -> (r: Result<(), StitchError>)
    requires
        col * tile_size_px <= u32::MAX,
        row * tile_size_px <= u32::MAX,
    ensures
        match *decoded {
            None => r == Err::<(), StitchError>(StitchError::UndecodableTile { row, col }) && *final(canvas) == *old(canvas),
            Some(tile) => {
                let (width, height) = rgb_dimensions(tile);
                if width == tile_size_px && height == tile_size_px {
                    &&& r == Ok::<(), StitchError>(())
                    &&& rgb_dimensions(*final(canvas)) == rgb_dimensions(*old(canvas))
                    &&& rgb_pixels(*final(canvas)) == overlaid(
                        rgb_pixels(*old(canvas)),
                        rgb_pixels(tile),
                        tile_size_px as int,
                        tile_size_px as int,
                        col * tile_size_px,
                        row * tile_size_px,
                    )
                } else {
                    &&& r == Err::<(), StitchError>(StitchError::TileSizeMismatch {
                        row,
                        col,
                        expected_size: tile_size_px,
                        width,
                        height,
                    })
                    &&& *final(canvas) == *old(canvas)
                }
            },
        },
{
    let tile = match decoded {
        None => {
            return Err(StitchError::UndecodableTile { row, col });
        },
        Some(tile) => tile,
    };
    let (tile_width, tile_height) = image_dimensions(tile);
    if tile_width != tile_size_px || tile_height != tile_size_px {
        return Err(StitchError::TileSizeMismatch {
            row,
            col,
            expected_size: tile_size_px,
            width: tile_width,
            height: tile_height,
        });
    }
    replace_region(canvas, tile, (col * tile_size_px) as i64, (row * tile_size_px) as i64);
    Ok(())
}

/// Where each grid position's tile stands in `tiles`: the last tile placed there.
fn index_tiles_by_position(tiles: &Vec<DecodedTile>) -> (m: HashMap<u64, usize>)
    ensures
        forall|r: u32, c: u32| #[trigger] decoded_at(tiles@, r, c) == (if m@.contains_key(position_key(r, c)) {
            Some(tiles@[m@[position_key(r, c)] as int].image)
        } else {
            None
        }),
        forall|k: u64| #[trigger] m@.contains_key(k) ==> m@[k] < tiles.len(),
{
    broadcast use vstd::std_specs::hash::axiom_u64_obeys_hash_table_key_model;
    broadcast use vstd::std_specs::hash::axiom_random_state_builds_valid_hashers;
    let mut m: HashMap<u64, usize> = HashMap::new();
    let mut i: usize = 0;
    while i < tiles.len()
        invariant
            i <= tiles.len(),
            forall|r: u32, c: u32| #[trigger] decoded_at(tiles@.take(i as int), r, c) == (if m@.contains_key(position_key(r, c)) {
                Some(tiles@[m@[position_key(r, c)] as int].image)
            } else {
                None
            }),
            forall|k: u64| #[trigger] m@.contains_key(k) ==> m@[k] < i,
        decreases tiles.len() - i,
    {
        let row = tiles[i].row;
        let col = tiles[i].col;
        let key: u64 = (row as u64) * 4294967296u64 + (col as u64);
        assert(key == position_key(row, col));
        let ghost old_m = m@;
        m.insert(key, i);
        assert forall|r: u32, c: u32| #[trigger] decoded_at(tiles@.take(i + 1), r, c) == (if m@.contains_key(position_key(r, c)) {
            Some(tiles@[m@[position_key(r, c)] as int].image)
        } else {
            None
        }) by {
            assert(tiles@.take(i + 1).drop_last() =~= tiles@.take(i as int));
            assert(tiles@.take(i + 1).last() == tiles@[i as int]);
            if r != row || c != col {
                assert(position_key(r, c) != key);
                assert(decoded_at(tiles@.take(i as int), r, c) == (if old_m.contains_key(position_key(r, c)) {
                    Some(tiles@[old_m[position_key(r, c)] as int].image)
                } else {
                    None
                }));
            }
        }
        i = i + 1;
    }
    assert(tiles@.take(tiles.len() as int) =~= tiles@);
    m
}

/// `r` is what stitching `tiles` into a `cols` by `rows` grid gives: the
/// failure `stitch_failure` names, or else a canvas that is their mosaic.
pub open spec fn stitch_result(
    r: Result<Raster, StitchError>,
    tiles: Seq<DecodedTile>,
    cols: u32,
    rows: u32,
    tile_size: u32,
) -> bool {
    match stitch_failure(tiles, cols, rows, tile_size) {
        Some(e) => r == Err::<Raster, StitchError>(e),
        None => r matches Ok(canvas) && mosaic_of(canvas, tiles, cols, rows, tile_size),
    }
}

/// Stitches a `cols` by `rows` grid of decoded tiles, each `tile_size_px` pixels
/// square, into one canvas. Fails when the grid is empty, when the number of
/// tiles is not `cols * rows`, or at the first cell in row-major order whose
/// tile is missing, could not be decoded or has the wrong size. When several
/// tiles share a position, the last one is used.
pub fn stitch_decoded_tiles(tiles: Vec<DecodedTile>, cols: u32, rows: u32, tile_size_px: u32) -> (r: Result<Raster, StitchError>)
    requires
        cols > 0 && rows > 0 ==> cols * rows <= u32::MAX,
        cols > 0 && rows > 0 && tiles.len() == cols * rows ==> canvas_fits(cols, rows, tile_size_px),
    ensures
        stitch_result(r, tiles@, cols, rows, tile_size_px),
{
    if cols == 0 || rows == 0 {
        return Err(StitchError::EmptyGrid);
    }
    let expected: usize = (cols * rows) as usize;
    if tiles.len() != expected {
        return Err(StitchError::TileCountMismatch { expected, actual: tiles.len() });
    }
    let by_position = index_tiles_by_position(&tiles);
    let width: u32 = cols * tile_size_px;
    let height: u32 = rows * tile_size_px;
    let mut canvas = new_rgb_image(width, height);
    let mut row: u32 = 0;
    while row < rows
        invariant
            0 < rows,
            0 < cols,
            row <= rows,
            tiles@.len() == cols * rows,
            canvas_fits(cols, rows, tile_size_px),
            width == cols * tile_size_px,
            height == rows * tile_size_px,
            rgb_dimensions(canvas) == (width, height),
            well_shaped(canvas),
            forall|r: u32, c: u32| #[trigger] decoded_at(tiles@, r, c) == (if by_position@.contains_key(position_key(r, c)) {
                Some(tiles@[by_position@[position_key(r, c)] as int].image)
            } else {
                None
            }),
            forall|k: u64| #[trigger] by_position@.contains_key(k) ==> by_position@[k] < tiles.len(),
            stitch_failure(tiles@, cols, rows, tile_size_px) == first_cell_error(tiles@, cols as int, rows as int, tile_size_px, row as int, 0),
            cells_placed(rgb_pixels(canvas), tiles@, cols as int, tile_size_px as int, row as int, 0),
        decreases rows - row,
    {
        let mut col: u32 = 0;
        while col < cols
            invariant
                0 < rows,
                0 < cols,
                row < rows,
                col <= cols,
                tiles@.len() == cols * rows,
                canvas_fits(cols, rows, tile_size_px),
                width == cols * tile_size_px,
                height == rows * tile_size_px,
                rgb_dimensions(canvas) == (width, height),
                well_shaped(canvas),
                forall|r: u32, c: u32| #[trigger] decoded_at(tiles@, r, c) == (if by_position@.contains_key(position_key(r, c)) {
                    Some(tiles@[by_position@[position_key(r, c)] as int].image)
                } else {
                    None
                }),
                forall|k: u64| #[trigger] by_position@.contains_key(k) ==> by_position@[k] < tiles.len(),
                stitch_failure(tiles@, cols, rows, tile_size_px) == first_cell_error(tiles@, cols as int, rows as int, tile_size_px, row as int, col as int),
                cells_placed(rgb_pixels(canvas), tiles@, cols as int, tile_size_px as int, row as int, col as int),
            decreases cols - col,
        {
            let key: u64 = (row as u64) * 4294967296u64 + (col as u64);
            assert(key == position_key(row, col));
            let index: usize = match by_position.get(&key) {
                None => {
                    return Err(StitchError::MissingTile { row, col });
                },
                Some(i) => *i,
            };
            let ghost before = rgb_pixels(canvas);
            proof {
                lemma_cell_start(col as int, cols as int, tile_size_px as int);
                lemma_cell_start(row as int, rows as int, tile_size_px as int);
            }
            let placed = place_decoded_tile(&mut canvas, &tiles[index].image, row, col, tile_size_px);
            if placed.is_err() {
                return Err(placed.unwrap_err());
            }
            proof {
                lemma_place_cell(
                    before,
                    tile_pixels(tiles@, row, col),
                    tiles@,
                    cols as int,
                    rows as int,
                    tile_size_px as int,
                    row,
                    col,
                );
                assert(rgb_pixels(canvas).dom() =~= before.dom());
            }
            col = col + 1;
        }
        assert(cells_placed(rgb_pixels(canvas), tiles@, cols as int, tile_size_px as int, row + 1, 0));
        row = row + 1;
    }
    Ok(canvas)
}

/// The bytes of the last tile in `tiles` placed at (`row`, `col`), if any.
pub open spec fn tile_bytes_at(tiles: Seq<DownloadedTile>, row: u32, col: u32) -> Option<Seq<u8>>
    decreases tiles.len(),
{
    if tiles.len() == 0 {
        None
    } else if tiles.last().row == row && tiles.last().col == col {
        Some(tiles.last().bytes@)
    } else {
        tile_bytes_at(tiles.drop_last(), row, col)
    }
}

/// `image` is what decoding `bytes` may give: the JPEG image the bytes hold,
/// if they hold one; otherwise nothing or some other image, which the decoders
/// that the process has registered with the `image` crate choose.
pub open spec fn decodes_as(bytes: Seq<u8>, image: Option<Raster>) -> bool {
    match decoded_with_format(bytes, RasterFormat::Jpeg) {
        Some(d) => image matches Some(i) && holds_decoded(i, d),
        None => image matches Some(i) ==> well_shaped(i),
    }
}

/// Decodes the bytes of one tile: as JPEG first, and when that fails in the
/// format the `image` crate detects. A JPEG tile gives its image; for other
/// bytes the result is whatever that detection and decoding give.
pub fn decode_tile(bytes: &[u8]) -> (r: Option<Raster>)
    ensures
        decodes_as(bytes@, r),
{
    match decode_with_format(bytes, RasterFormat::Jpeg) {
        Some(image) => Some(image),
        None => decode_guessing_format(bytes),
    }
}

/// `decoded` is `tile` decoded: the same position, and an image its bytes may
/// decode to.
pub open spec fn tile_decoded_from(decoded: DecodedTile, tile: DownloadedTile) -> bool {
    &&& decoded.row == tile.row
    &&& decoded.col == tile.col
    &&& decodes_as(tile.bytes@, decoded.image)
}

/// `decoded` holds the tiles of `tiles`, decoded, in the same order.
pub open spec fn decoded_from(decoded: Seq<DecodedTile>, tiles: Seq<DownloadedTile>) -> bool {
    &&& decoded.len() == tiles.len()
    &&& forall|i: int| 0 <= i < tiles.len() ==> tile_decoded_from(#[trigger] decoded[i], tiles[i])
}

/// Decodes every tile, keeping their order and positions.
fn decode_tiles(tiles: &Vec<DownloadedTile>) -> (decoded: Vec<DecodedTile>)
    ensures
        decoded_from(decoded@, tiles@),
{
    let mut decoded: Vec<DecodedTile> = Vec::new();
    let mut i: usize = 0;
    while i < tiles.len()
        invariant
            i <= tiles.len(),
            decoded.len() == i,
            forall|j: int| 0 <= j < i ==> tile_decoded_from(#[trigger] decoded@[j], tiles@[j]),
        decreases tiles.len() - i,
    {
        let tile = &tiles[i];
        let image = decode_tile(tile.bytes.as_slice());
        decoded.push(DecodedTile { row: tile.row, col: tile.col, image });
        i = i + 1;
    }
    decoded
}

/// The tile decoded at a position is the decoded tile whose bytes stand there.
proof fn lemma_decoded_at_matches(decoded: Seq<DecodedTile>, tiles: Seq<DownloadedTile>, row: u32, col: u32)
    requires
        decoded_from(decoded, tiles),
    ensures
        decoded_at(decoded, row, col) is None <==> tile_bytes_at(tiles, row, col) is None,
        tile_bytes_at(tiles, row, col) matches Some(bytes) ==> decodes_as(bytes, decoded_at(decoded, row, col).unwrap()),
    decreases tiles.len(),
{
    if tiles.len() > 0 {
        let n = tiles.len() - 1;
        assert(tile_decoded_from(decoded[n], tiles[n]));
        let (d0, t0) = (decoded.drop_last(), tiles.drop_last());
        assert(decoded_from(d0, t0)) by {
            assert forall|i: int| 0 <= i < t0.len() implies tile_decoded_from(#[trigger] d0[i], t0[i]) by {
                assert(tile_decoded_from(decoded[i], tiles[i]));
            }
        }
        lemma_decoded_at_matches(d0, t0, row, col);
    }
}

/// How grid cell (`row`, `col`) fares as far as its bytes settle it:
/// `Some(None)` when it is a JPEG image of the right size, `Some(Some(e))` when
/// it fails with `e` (no tile, or a JPEG image of another size), and `None`
/// when its bytes are not a JPEG image, so that what they decode to is open.
pub open spec fn settled_cell_error(tiles: Seq<DownloadedTile>, tile_size: u32, row: u32, col: u32) -> Option<
    Option<StitchError>,
> {
    match tile_bytes_at(tiles, row, col) {
        None => Some(Some(StitchError::MissingTile { row, col })),
        Some(bytes) => match decoded_with_format(bytes, RasterFormat::Jpeg) {
            None => None,
            Some(d) => Some(
                if d.0 == tile_size && d.1 == tile_size {
                    None
                } else {
                    Some(StitchError::TileSizeMismatch { row, col, expected_size: tile_size, width: d.0, height: d.1 })
                },
            ),
        },
    }
}

/// The first failure at or after (`row`, `col`) in row-major order as far as
/// the bytes settle it: `Some(None)` when every cell is settled and fine,
/// `Some(Some(e))` when the first cell that is not fine is settled and fails
/// with `e`, and `None` when that cell is open.
pub open spec fn settled_first_cell_error(
    tiles: Seq<DownloadedTile>,
    cols: int,
    rows: int,
    tile_size: u32,
    row: int,
    col: int,
) -> Option<Option<StitchError>>
    decreases rows - row, cols - col,
{
    if row >= rows {
        Some(None)
    } else if col >= cols {
        settled_first_cell_error(tiles, cols, rows, tile_size, row + 1, 0)
    } else {
        match settled_cell_error(tiles, tile_size, row as u32, col as u32) {
            Some(None) => settled_first_cell_error(tiles, cols, rows, tile_size, row, col + 1),
            other => other,
        }
    }
}

/// How stitching the downloaded `tiles` ends, as far as their bytes settle it:
/// `Some(None)` for success, `Some(Some(e))` for failure with `e`, `None` when
/// it turns on bytes that are not a JPEG image.
pub open spec fn settled_stitch_failure(tiles: Seq<DownloadedTile>, cols: u32, rows: u32, tile_size: u32) -> Option<
    Option<StitchError>,
> {
    if cols == 0 || rows == 0 {
        Some(Some(StitchError::EmptyGrid))
    } else if tiles.len() != cols * rows {
        Some(Some(StitchError::TileCountMismatch { expected: (cols * rows) as usize, actual: tiles.len() as usize }))
    } else {
        settled_first_cell_error(tiles, cols as int, rows as int, tile_size, 0, 0)
    }
}

proof fn lemma_settled_scan(
    decoded: Seq<DecodedTile>,
    tiles: Seq<DownloadedTile>,
    cols: int,
    rows: int,
    tile_size: u32,
    row: int,
    col: int,
)
    requires
        decoded_from(decoded, tiles),
    ensures
        settled_first_cell_error(tiles, cols, rows, tile_size, row, col) matches Some(outcome) ==> first_cell_error(
            decoded,
            cols,
            rows,
            tile_size,
            row,
            col,
        ) == outcome,
    decreases rows - row, cols - col,
{
    if row >= rows {
    } else if col >= cols {
        lemma_settled_scan(decoded, tiles, cols, rows, tile_size, row + 1, 0);
    } else {
        lemma_decoded_at_matches(decoded, tiles, row as u32, col as u32);
        lemma_settled_scan(decoded, tiles, cols, rows, tile_size, row, col + 1);
    }
}

/// What a failure to stitch the downloaded `tiles` tells of their bytes.
pub open spec fn failure_agrees_with_bytes(
    e: StitchError,
    tiles: Seq<DownloadedTile>,
    cols: u32,
    rows: u32,
    tile_size: u32,
) -> bool {
    match e {
        StitchError::EmptyGrid => cols == 0 || rows == 0,
        StitchError::TileCountMismatch { expected, actual } => {
            &&& cols > 0 && rows > 0
            &&& expected == cols * rows
            &&& actual == tiles.len()
            &&& actual != expected
        },
        StitchError::MissingTile { row, col } => row < rows && col < cols && tile_bytes_at(tiles, row, col) is None,
        StitchError::UndecodableTile { row, col } => {
            &&& row < rows && col < cols
            &&& tile_bytes_at(tiles, row, col) matches Some(bytes)
            &&& decoded_with_format(bytes, RasterFormat::Jpeg) is None
        },
        StitchError::TileSizeMismatch { row, col, expected_size, width, height } => {
            &&& row < rows && col < cols
            &&& expected_size == tile_size
            &&& !(width == tile_size && height == tile_size)
            &&& tile_bytes_at(tiles, row, col) matches Some(bytes)
            &&& decoded_with_format(bytes, RasterFormat::Jpeg) matches Some(d) ==> d.0 == width && d.1 == height
        },
    }
}

proof fn lemma_first_error_at_cell(tiles: Seq<DecodedTile>, cols: int, rows: int, tile_size: u32, row: int, col: int)
    requires
        0 <= row,
        0 <= col,
        rows <= u32::MAX,
        cols <= u32::MAX,
    ensures
        first_cell_error(tiles, cols, rows, tile_size, row, col) matches Some(e) ==> exists|r: u32, c: u32|
            r < rows && c < cols && #[trigger] cell_error(tiles, tile_size, r, c) == Some(e),
    decreases rows - row, cols - col,
{
    if row >= rows {
    } else if col >= cols {
        lemma_first_error_at_cell(tiles, cols, rows, tile_size, row + 1, 0);
    } else if cell_error(tiles, tile_size, row as u32, col as u32) is Some {
        assert(cell_error(tiles, tile_size, row as u32, col as u32) == first_cell_error(tiles, cols, rows, tile_size, row, col));
    } else {
        lemma_first_error_at_cell(tiles, cols, rows, tile_size, row, col + 1);
    }
}

proof fn lemma_failure_agrees(
    decoded: Seq<DecodedTile>,
    tiles: Seq<DownloadedTile>,
    cols: u32,
    rows: u32,
    tile_size: u32,
    e: StitchError,
)
    requires
        decoded_from(decoded, tiles),
        tiles.len() <= usize::MAX,
        cols > 0 && rows > 0 ==> cols * rows <= u32::MAX,
        stitch_failure(decoded, cols, rows, tile_size) == Some(e),
    ensures
        failure_agrees_with_bytes(e, tiles, cols, rows, tile_size),
{
    if cols > 0 && rows > 0 && decoded.len() == cols * rows {
        lemma_first_error_at_cell(decoded, cols as int, rows as int, tile_size, 0, 0);
        let (r, c) = choose|r: u32, c: u32| r < rows && c < cols && #[trigger] cell_error(decoded, tile_size, r, c) == Some(e);
        lemma_decoded_at_matches(decoded, tiles, r, c);
        assert(cell_error(decoded, tile_size, r, c) == Some(e));
    } else if cols > 0 && rows > 0 {
        assert((cols * rows) as usize == cols * rows);
    }
}

/// The pixels of the JPEG image that the bytes of the tile at (`row`, `col`)
/// hold, if they hold one.
pub open spec fn jpeg_tile_pixels(tiles: Seq<DownloadedTile>, row: u32, col: u32) -> Option<Map<(int, int), (u8, u8, u8)>> {
    match tile_bytes_at(tiles, row, col) {
        Some(bytes) => match decoded_with_format(bytes, RasterFormat::Jpeg) {
            Some(d) => Some(d.2),
            None => None,
        },
        None => None,
    }
}

/// Each cell of the `cols` by `rows` grid whose tile is a JPEG image holds the
/// pixels of that image.
pub open spec fn jpeg_cells_placed(
    pixels: Map<(int, int), (u8, u8, u8)>,
    tiles: Seq<DownloadedTile>,
    cols: u32,
    rows: u32,
    tile_size: u32,
) -> bool {
    forall|r: u32, c: u32, x: int, y: int|
        r < rows && c < cols && 0 <= x < tile_size && 0 <= y < tile_size && jpeg_tile_pixels(tiles, r, c) is Some
            ==> pixels[(c * tile_size + x, r * tile_size + y)] == #[trigger] jpeg_tile_pixels(tiles, r, c).unwrap()[(x, y)]
}

proof fn lemma_jpeg_cells_placed(
    canvas: Raster,
    decoded: Seq<DecodedTile>,
    tiles: Seq<DownloadedTile>,
    cols: u32,
    rows: u32,
    tile_size: u32,
)
    requires
        decoded_from(decoded, tiles),
        mosaic_of(canvas, decoded, cols, rows, tile_size),
    ensures
        jpeg_cells_placed(rgb_pixels(canvas), tiles, cols, rows, tile_size),
{
    assert forall|r: u32, c: u32, x: int, y: int|
        r < rows && c < cols && 0 <= x < tile_size && 0 <= y < tile_size && jpeg_tile_pixels(tiles, r, c) is Some
            implies rgb_pixels(canvas)[(c * tile_size + x, r * tile_size + y)]
            == #[trigger] jpeg_tile_pixels(tiles, r, c).unwrap()[(x, y)] by {
        lemma_decoded_at_matches(decoded, tiles, r, c);
        assert(rgb_pixels(canvas)[(c * tile_size + x, r * tile_size + y)] == tile_pixels(decoded, r, c)[(x, y)]);
    }
}

/// Stitches a `cols` by `rows` grid of downloaded tiles, each `tile_size_px`
/// pixels square, into one canvas: each tile is decoded with `decode_tile` and
/// the decoded tiles are stitched with `stitch_decoded_tiles`. The result is
/// that of stitching some decoding of the tiles that `decode_tile` allows;
/// where every tile that matters is a JPEG image, it is fixed by the bytes.
pub fn stitch_tiles_with_size(tiles: Vec<DownloadedTile>, cols: u32, rows: u32, tile_size_px: u32) -> (r: Result<Raster, StitchError>)
    requires
        cols > 0 && rows > 0 ==> cols * rows <= u32::MAX,
        cols > 0 && rows > 0 && tiles.len() == cols * rows ==> canvas_fits(cols, rows, tile_size_px),
    ensures
        exists|decoded: Seq<DecodedTile>|
            #[trigger] decoded_from(decoded, tiles@) && stitch_result(r, decoded, cols, rows, tile_size_px),
        settled_stitch_failure(tiles@, cols, rows, tile_size_px) matches Some(outcome) ==> match outcome {
            Some(e) => r == Err::<Raster, StitchError>(e),
            None => r is Ok,
        },
        r matches Err(e) ==> failure_agrees_with_bytes(e, tiles@, cols, rows, tile_size_px),
        r matches Ok(canvas) ==> {
            &&& rgb_dimensions(canvas) == ((cols * tile_size_px) as u32, (rows * tile_size_px) as u32)
            &&& well_shaped(canvas)
            &&& jpeg_cells_placed(rgb_pixels(canvas), tiles@, cols, rows, tile_size_px)
        },
{
    let decoded = decode_tiles(&tiles);
    let ghost d = decoded@;
    let r = stitch_decoded_tiles(decoded, cols, rows, tile_size_px);
    proof {
        assert(tiles@.len() == tiles.len());
        if cols > 0 && rows > 0 && tiles.len() == cols * rows {
            lemma_settled_scan(d, tiles@, cols as int, rows as int, tile_size_px, 0, 0);
        }
        if r is Ok {
            lemma_jpeg_cells_placed(r->Ok_0, d, tiles@, cols, rows, tile_size_px);
        } else {
            lemma_failure_agrees(d, tiles@, cols, rows, tile_size_px, r->Err_0);
        }
        assert(decoded_from(d, tiles@));
    }
    r
}

/// Stitches a `cols` by `rows` grid of full-size downloaded tiles
/// (`PHYSICAL_TILE_SIZE_PX` pixels square) into one canvas.
pub fn stitch_tiles(tiles: Vec<DownloadedTile>, cols: u32, rows: u32) -> (r: Result<Raster, StitchError>)
    requires
        cols > 0 && rows > 0 ==> cols * rows <= u32::MAX,
        cols > 0 && rows > 0 && tiles.len() == cols * rows ==> canvas_fits(cols, rows, PHYSICAL_TILE_SIZE_PX),
    ensures
        exists|decoded: Seq<DecodedTile>|
            #[trigger] decoded_from(decoded, tiles@) && stitch_result(r, decoded, cols, rows, PHYSICAL_TILE_SIZE_PX),
        settled_stitch_failure(tiles@, cols, rows, PHYSICAL_TILE_SIZE_PX) matches Some(outcome) ==> match outcome {
            Some(e) => r == Err::<Raster, StitchError>(e),
            None => r is Ok,
        },
        r matches Err(e) ==> failure_agrees_with_bytes(e, tiles@, cols, rows, PHYSICAL_TILE_SIZE_PX),
        r matches Ok(canvas) ==> {
            &&& rgb_dimensions(canvas) == ((cols * PHYSICAL_TILE_SIZE_PX) as u32, (rows * PHYSICAL_TILE_SIZE_PX) as u32)
            &&& well_shaped(canvas)
            &&& jpeg_cells_placed(rgb_pixels(canvas), tiles@, cols, rows, PHYSICAL_TILE_SIZE_PX)
        },
{
    stitch_tiles_with_size(tiles, cols, rows, PHYSICAL_TILE_SIZE_PX)
}

/// The format an output file is written in, chosen by the extension of its
/// path (compared without regard to ASCII case; no extension means JPEG):
/// `jpg` and `jpeg` give JPEG, `png` gives PNG, and any other extension is
/// refused, reported in lower case.
pub open spec fn format_for_extension(extension: Option<Seq<char>>) -> Result<RasterFormat, Seq<char>> {
    let ext = match extension {
        Some(e) => lower_seq(e),
        None => "jpg"@,
    };
    if ext == "jpg"@ || ext == "jpeg"@ {
        Ok(RasterFormat::Jpeg)
    } else if ext == "png"@ {
        Ok(RasterFormat::Png)
    } else {
        Err(ext)
    }
}

/// Law: the letter case of the extension does not matter (`.JPG` and `.jpg`
/// choose the same format, an unsupported extension is reported the same way).
pub proof fn lemma_format_ignores_case(extension: Seq<char>)
    ensures
        format_for_extension(Some(extension)) == format_for_extension(Some(lower_seq(extension))),
{
    assert(lower_seq(lower_seq(extension)) =~= lower_seq(extension));
}

/// Law: only `jpg`, `jpeg` and `png` are accepted, in any letter case, and a
/// missing extension means JPEG. An extension gives PNG only when it is `png`,
/// JPEG only when it is `jpg` or `jpeg`, and every other extension is refused
/// with its lower-case spelling.
pub proof fn lemma_only_known_extensions(extension: Seq<char>)
    ensures
        format_for_extension(None) == Ok::<RasterFormat, Seq<char>>(RasterFormat::Jpeg),
        format_for_extension(Some(extension)) == Ok::<RasterFormat, Seq<char>>(RasterFormat::Png) <==> lower_seq(
            extension,
        ) == "png"@,
        format_for_extension(Some(extension)) == Ok::<RasterFormat, Seq<char>>(RasterFormat::Jpeg) <==> (lower_seq(
            extension,
        ) == "jpg"@ || lower_seq(extension) == "jpeg"@),
        !(lower_seq(extension) == "jpg"@ || lower_seq(extension) == "jpeg"@ || lower_seq(extension) == "png"@)
            ==> format_for_extension(Some(extension)) == Err::<RasterFormat, Seq<char>>(lower_seq(extension)),
{
    reveal_strlit("jpg");
    reveal_strlit("jpeg");
    reveal_strlit("png");
    assert("png"@[0] != "jpg"@[0]);
    assert("png"@[0] != "jpeg"@[0]);
}

/// Chooses the output format from the output path's extension; an unsupported
/// extension comes back, in lower case, as the error.
pub fn output_format_for_extension(extension: Option<&str>) -> (r: Result<RasterFormat, String>)
    ensures
        match format_for_extension(
            match extension {
                Some(e) => Some(e@),
                None => None,
            },
        ) {
            Ok(f) => r == Ok::<RasterFormat, String>(f),
            Err(e) => r matches Err(s) && s@ == e,
        },
{
    let ext = match extension {
        Some(e) => to_ascii_lowercase(e),
        None => String::from_str("jpg"),
    };
    if same_text(ext.as_str(), "jpg") || same_text(ext.as_str(), "jpeg") {
        Ok(RasterFormat::Jpeg)
    } else if same_text(ext.as_str(), "png") {
        Ok(RasterFormat::Png)
    } else {
        Err(ext)
    }
}

/// `bytes` begin the way files of `format` begin: `FF D8` for JPEG, the
/// eight-byte PNG signature for PNG.
pub open spec fn has_format_signature(bytes: Seq<u8>, format: RasterFormat) -> bool {
    match format {
        RasterFormat::Jpeg => bytes.len() >= 2 && bytes[0] == 0xFFu8 && bytes[1] == 0xD8u8,
        RasterFormat::Png => bytes.len() >= 8 && bytes.subrange(0, 8) == seq![
            0x89u8,
            0x50u8,
            0x4Eu8,
            0x47u8,
            0x0Du8,
            0x0Au8,
            0x1Au8,
            0x0Au8,
        ],
    }
}

/// The encoders accept images of at least one pixel on each side; JPEG also
/// limits each side to 65535 pixels.
pub open spec fn encodable(width: u32, height: u32, format: RasterFormat) -> bool {
    match format {
        RasterFormat::Jpeg => 1 <= width <= 65535 && 1 <= height <= 65535,
        RasterFormat::Png => width >= 1 && height >= 1,
    }
}

/// Encodes an image in the given format: JPEG at `quality`, or PNG (which has
/// no quality setting); `None` when the encoder refuses the image.
pub fn encode_raster(image: &Raster, format: RasterFormat, quality: u8) -> (r: Option<Vec<u8>>)
    ensures
        ({
            let (w, h) = rgb_dimensions(*image);
            let encoded = match format {
                RasterFormat::Jpeg => jpeg_encoding(w, h, rgb_pixels(*image), quality),
                RasterFormat::Png => png_encoding(w, h, rgb_pixels(*image)),
            };
            match encoded {
                None => r is None,
                Some(bytes) => r matches Some(v) && v@ == bytes,
            }
        }),
        r is Some <==> encodable(rgb_dimensions(*image).0, rgb_dimensions(*image).1, format),
        r matches Some(v) ==> has_format_signature(v@, format),
{
    match format {
        RasterFormat::Jpeg => encode_jpeg(image, quality),
        RasterFormat::Png => encode_png(image),
    }
}

} // verus!
